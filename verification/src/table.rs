//! The table facade: owns the pager and the root page (always page 0),
//! and drives search, insert with splitting, ordered scans, and the debug
//! rendering of the tree.

use crate::btree::intern::{Child, Intern, InternV};
use crate::btree::leaf::{keys_sorted, leaf_contains_key, leaf_keys, spec_cell_idx, Leaf, MAX_CELLS, SPLIT_IDX};
use crate::btree::node::{node_wf, spec_node_of_bytes, Node, NodeV};
use crate::cursor::Cursor;
use crate::error::ExecErr;
use crate::pager::{blocks_ok, spec_block_at, spec_pages_bytes, Pager, MAX_PAGES, PAGE_SIZE};
use crate::row::{Row, ROW_SIZE};
use vstd::multiset::Multiset;
use vstd::prelude::*;

verus! {

/// The root always lives at page 0.
pub const ROOT: usize = 0;

/// The children of a parent after a split is installed, given the largest
/// keys `lm` of the left half and `rm` of the right half: the entry that
/// covered the split node is narrowed to `lm` — or, when it was the
/// implicit-bound entry, handed over to the sibling — and the other half
/// is inserted in bound order.
pub open spec fn spec_install_split(
    children: Seq<Child>,
    left_pg: usize,
    right_pg: usize,
    lm: u32,
    rm: u32,
) -> Seq<Child> {
    let s = crate::btree::intern::spec_child_idx(children, lm);
    let idx = if s < children.len() {
        s
    } else {
        children.len() - 1
    };
    let found = children[idx];
    if found.key_max is None {
        let mid = children.update(idx, Child { pg_idx: right_pg, key_max: None });
        mid.insert(
            crate::btree::intern::spec_child_idx(mid, lm),
            Child { pg_idx: left_pg, key_max: Some(lm) },
        )
    } else {
        let mid = children.update(idx, Child { pg_idx: found.pg_idx, key_max: Some(lm) });
        mid.insert(
            crate::btree::intern::spec_child_idx(mid, rm),
            Child { pg_idx: right_pg, key_max: Some(rm) },
        )
    }
}

/// A split install whose exact outcome the contracts pin down: the parent
/// is an internal node with room, its bounds are in order, both halves are
/// non-empty leaves, and narrowing the covering entry keeps the order.
pub open spec fn install_ready(pages: Seq<NodeV>, left_pg: usize, right_pg: usize, p: int) -> bool {
    &&& 0 <= p < pages.len()
    &&& (left_pg as int) < pages.len()
    &&& (right_pg as int) < pages.len()
    &&& pages[left_pg as int] matches NodeV::Leaf(ll) && ll.cells.len() > 0
    &&& pages[right_pg as int] matches NodeV::Leaf(rl) && rl.cells.len() > 0
    &&& pages[p] matches NodeV::Intern(iv) && {
        &&& iv.children.len() < crate::btree::intern::CHILD_MAX
        &&& crate::btree::intern::bounds_sorted(iv.children)
    }
}

/// The leaf page the by-key descent from the root reaches for `key`.
pub open spec fn spec_target_leaf(pages: Seq<NodeV>, key: u32) -> int {
    spec_descend(pages, ROOT as int, key, pages.len() as nat)
}

/// A leaf after a plain insert: the new cell sits at its key's slot.
pub open spec fn spec_leaf_after_insert(
    l: crate::btree::leaf::LeafV,
    key: u32,
    row: Seq<u8>,
) -> crate::btree::leaf::LeafV {
    crate::btree::leaf::LeafV {
        cells: l.cells.insert(
            spec_cell_idx(l.cells, key),
            crate::btree::leaf::CellV { key, row },
        ),
        ..l
    }
}

/// A split install against an optional parent whose exact outcome the
/// contracts pin down.
pub open spec fn install_case(
    pages: Seq<NodeV>,
    left_pg: usize,
    right_pg: usize,
    parent: Option<usize>,
) -> bool {
    parent matches Some(p) && install_ready(pages, left_pg, right_pg, p as int)
}

/// The page at `pg` is an internal node whose children all point, in range,
/// at leaves: a two-level subtree.  On such a subtree a by-key descent is
/// owed success.
pub open spec fn two_level_at(pages: Seq<NodeV>, pg: int) -> bool {
    &&& 0 <= pg < pages.len()
    &&& pages[pg] matches NodeV::Intern(iv) && {
        &&& forall|k: int| 0 <= k < iv.children.len() ==> (#[trigger] iv.children[k]).pg_idx
            < pages.len()
        &&& forall|k: int| 0 <= k < iv.children.len() ==> pages[(
        #[trigger] iv.children[k]).pg_idx as int] is Leaf
    }
}

/// The leaf the by-key descent reaches from `pg`: at every internal node
/// the first child whose bound covers `key`, or the rightmost child when
/// none does; `-1` when the descent runs out of fuel or leaves the page
/// range.
pub open spec fn spec_descend(pages: Seq<NodeV>, pg: int, key: u32, fuel: nat) -> int
    decreases fuel,
{
    if fuel == 0 || !(0 <= pg < pages.len()) {
        -1
    } else {
        match pages[pg] {
            NodeV::Leaf(_) => pg,
            NodeV::Intern(iv) => if iv.children.len() == 0 {
                -1
            } else {
                let s = crate::btree::intern::spec_child_idx(iv.children, key);
                let idx = if s < iv.children.len() {
                    s
                } else {
                    iv.children.len() - 1
                };
                spec_descend(pages, iv.children[idx].pg_idx as int, key, (fuel - 1) as nat)
            },
        }
    }
}

/// The leftmost leaf reachable from `pg` by always taking the first child;
/// `-1` when the descent runs out of fuel or leaves the page range.
pub open spec fn spec_leftmost(pages: Seq<NodeV>, pg: int, fuel: nat) -> int
    decreases fuel,
{
    if fuel == 0 || !(0 <= pg < pages.len()) {
        -1
    } else {
        match pages[pg] {
            NodeV::Leaf(_) => pg,
            NodeV::Intern(iv) => if iv.children.len() == 0 {
                -1
            } else {
                spec_leftmost(pages, iv.children[0].pg_idx as int, (fuel - 1) as nat)
            },
        }
    }
}

/// The keys held by one node: a leaf contributes its cell keys, an internal
/// node holds none of its own.
pub open spec fn node_keys(v: NodeV) -> Multiset<u32> {
    match v {
        NodeV::Leaf(l) => leaf_keys(l.cells).to_multiset(),
        NodeV::Intern(_) => Multiset::empty(),
    }
}

/// All keys held across a run of pages, as a multiset.
pub open spec fn table_keys(pages: Seq<NodeV>) -> Multiset<u32>
    decreases pages.len(),
{
    if pages.len() == 0 {
        Multiset::empty()
    } else {
        table_keys(pages.drop_last()).add(node_keys(pages.last()))
    }
}

/// Adding equals on both sides cancels.
proof fn lemma_add_cancel(a: Multiset<u32>, b: Multiset<u32>, c: Multiset<u32>)
    requires
        a.add(c) == b.add(c),
    ensures
        a == b,
{
    broadcast use vstd::multiset::group_multiset_axioms;

    assert forall|x: u32| true implies a.count(x) == b.count(x) by {
        assert(a.add(c).count(x) == a.count(x) + c.count(x));
        assert(b.add(c).count(x) == b.count(x) + c.count(x));
    }
    assert(a =~= b);
}

/// Appending a page adds exactly its keys.
pub proof fn lemma_table_keys_push(pages: Seq<NodeV>, v: NodeV)
    ensures
        table_keys(pages.push(v)) == table_keys(pages).add(node_keys(v)),
{
    assert(pages.push(v).drop_last() =~= pages);
    assert(pages.push(v).last() == v);
}

/// Replacing a page exchanges exactly its keys.
pub proof fn lemma_table_keys_update(pages: Seq<NodeV>, i: int, v: NodeV)
    requires
        0 <= i < pages.len(),
    ensures
        table_keys(pages.update(i, v)).add(node_keys(pages[i])) == table_keys(pages).add(
            node_keys(v),
        ),
    decreases pages.len(),
{
    broadcast use vstd::multiset::group_multiset_axioms;

    let upd = pages.update(i, v);
    if i == pages.len() - 1 {
        assert(upd.drop_last() =~= pages.drop_last());
        assert(upd.last() == v);
        assert(table_keys(upd).add(node_keys(pages[i])) =~= table_keys(pages).add(node_keys(v)));
    } else {
        assert(upd.drop_last() =~= pages.drop_last().update(i, v));
        assert(upd.last() == pages.last());
        assert(pages.drop_last()[i] == pages[i]);
        lemma_table_keys_update(pages.drop_last(), i, v);
        let dl = pages.drop_last();
        assert forall|x: u32| true implies table_keys(upd).add(node_keys(pages[i])).count(x)
            == table_keys(pages).add(node_keys(v)).count(x) by {
            assert(table_keys(dl.update(i, v)).add(node_keys(dl[i])).count(x) == table_keys(
                dl,
            ).add(node_keys(v)).count(x));
            assert(table_keys(upd).count(x) == table_keys(dl.update(i, v)).count(x) + node_keys(
                pages.last(),
            ).count(x));
            assert(table_keys(pages).count(x) == table_keys(dl).count(x) + node_keys(
                pages.last(),
            ).count(x));
        }
        assert(table_keys(upd).add(node_keys(pages[i])) =~= table_keys(pages).add(node_keys(v)));
    }
}

/// Inserting a value anywhere in a sequence adds exactly it to the multiset.
pub proof fn lemma_to_multiset_insert(s: Seq<u32>, i: int, v: u32)
    requires
        0 <= i <= s.len(),
    ensures
        s.insert(i, v).to_multiset() == s.to_multiset().insert(v),
{
    broadcast use vstd::multiset::group_multiset_axioms;
    broadcast use vstd::seq_lib::lemma_multiset_commutative;

    let pre = s.subrange(0, i);
    let post = s.subrange(i, s.len() as int);
    assert(s =~= pre + post);
    assert(s.insert(i, v) =~= pre + (seq![v] + post));
    assert(seq![v] =~= Seq::<u32>::empty().push(v));
    Seq::<u32>::empty().to_multiset_ensures();
    assert forall|x: u32| true implies Seq::<u32>::empty().to_multiset().count(x) == 0 by {
        assert(!Seq::<u32>::empty().contains(x));
    }
    assert(Seq::<u32>::empty().to_multiset() =~= Multiset::<u32>::empty());
    assert(seq![v].to_multiset() == Multiset::<u32>::empty().insert(v));
    assert((pre + (seq![v] + post)).to_multiset() == pre.to_multiset().add(
        seq![v].to_multiset().add(post.to_multiset()),
    ));
    assert((pre + post).to_multiset() == pre.to_multiset().add(post.to_multiset()));
    assert forall|x: u32| true implies s.insert(i, v).to_multiset().count(x)
        == s.to_multiset().insert(v).count(x) by {
        assert(Multiset::<u32>::empty().insert(v).count(x) == Multiset::<u32>::empty().count(x)
            + if x == v {
            1int
        } else {
            0int
        });
    }
    assert(s.insert(i, v).to_multiset() =~= s.to_multiset().insert(v));
}

/// A replacement whose keys are the old page's keys plus one inserts exactly
/// that key into the table's keys.
pub proof fn lemma_table_keys_update_insert(pages: Seq<NodeV>, i: int, v: NodeV, key: u32)
    requires
        0 <= i < pages.len(),
        node_keys(v) == node_keys(pages[i]).insert(key),
    ensures
        table_keys(pages.update(i, v)) == table_keys(pages).insert(key),
{
    broadcast use vstd::multiset::group_multiset_axioms;

    lemma_table_keys_update(pages, i, v);
    assert forall|x: u32| true implies table_keys(pages.update(i, v)).count(x) == table_keys(
        pages,
    ).insert(key).count(x) by {
        assert(table_keys(pages.update(i, v)).add(node_keys(pages[i])).count(x) == table_keys(
            pages,
        ).add(node_keys(v)).count(x));
        assert(node_keys(v).count(x) == node_keys(pages[i]).insert(key).count(x));
    }
    assert(table_keys(pages.update(i, v)) =~= table_keys(pages).insert(key));
}

/// Inserting a cell anywhere in a run adds exactly its key to the multiset.
pub proof fn lemma_leaf_keys_insert(cells: Seq<crate::btree::leaf::CellV>, i: int, c: crate::btree::leaf::CellV)
    requires
        0 <= i <= cells.len(),
    ensures
        leaf_keys(cells.insert(i, c)).to_multiset() == leaf_keys(cells).to_multiset().insert(
            c.key,
        ),
{
    assert(leaf_keys(cells.insert(i, c)) =~= leaf_keys(cells).insert(i, c.key));
    lemma_to_multiset_insert(leaf_keys(cells), i, c.key);
}

/// Splitting a run of cells parts its keys into the two sides' keys.
pub proof fn lemma_leaf_keys_split(cells: Seq<crate::btree::leaf::CellV>, at: int)
    requires
        0 <= at <= cells.len(),
    ensures
        leaf_keys(cells.subrange(0, at)).to_multiset().add(
            leaf_keys(cells.subrange(at, cells.len() as int)).to_multiset(),
        ) == leaf_keys(cells).to_multiset(),
{
    let a = cells.subrange(0, at);
    let b = cells.subrange(at, cells.len() as int);
    assert(leaf_keys(cells) =~= leaf_keys(a) + leaf_keys(b));
    vstd::seq_lib::lemma_multiset_commutative(leaf_keys(a), leaf_keys(b));
}

/// A key-neutral replacement leaves the table's keys unchanged.
pub proof fn lemma_table_keys_update_neutral(pages: Seq<NodeV>, i: int, v: NodeV)
    requires
        0 <= i < pages.len(),
        node_keys(v) == node_keys(pages[i]),
    ensures
        table_keys(pages.update(i, v)) == table_keys(pages),
{
    lemma_table_keys_update(pages, i, v);
    lemma_add_cancel(table_keys(pages.update(i, v)), table_keys(pages), node_keys(pages[i]));
}

/// The table: a pager holding every node, with the root at page 0.
pub struct Table {
    pager: Pager,
}

impl View for Table {
    type V = Seq<NodeV>;

    closed spec fn view(&self) -> Seq<NodeV> {
        self.pager@
    }
}

impl Table {
    /// The pager is well formed and the root page exists.
    pub open spec fn wf(&self) -> bool {
        &&& self@.len() >= 1
        &&& self@.len() <= MAX_PAGES
        &&& forall|i: int| 0 <= i < self@.len() ==> node_wf(#[trigger] self@[i])
    }

    /// The view of a fresh root: an empty leaf.
    pub open spec fn spec_empty_root() -> NodeV {
        NodeV::Leaf(
            crate::btree::leaf::LeafV {
                is_root: true,
                parent: None,
                next: None,
                cells: Seq::empty(),
            },
        )
    }

    /// Open a database from its whole-file image.  An empty image yields a
    /// fresh table whose root is an empty leaf; otherwise every page is
    /// decoded and validated.
    pub fn open_db(data: &Vec<u8>) -> (r: Result<Self, ExecErr>)
        ensures
            match r {
                Ok(t) => {
                    &&& blocks_ok(data@)
                    &&& t.wf()
                    &&& (data@.len() == 0 ==> t@ == seq![Self::spec_empty_root()])
                    &&& (data@.len() > 0 ==> {
                        &&& t@.len() == data@.len() / (PAGE_SIZE as nat)
                        &&& forall|i: int| 0 <= i < t@.len() ==> spec_node_of_bytes(
                            #[trigger] spec_block_at(data@, i),
                        ) == Some(t@[i])
                    })
                },
                Err(_) => !blocks_ok(data@),
            },
    {
        let mut pager = match Pager::from_bytes(data) {
            Ok(p) => p,
            Err(e) => {
                return Err(e);
            },
        };
        if pager.size() == 0 {
            let root = Node::Leaf(Leaf::new(true, None, None));
            match pager.push_node(root) {
                Ok(_) => {},
                Err(e) => {
                    return Err(e);
                },
            }
            proof {
                assert(pager@ =~= seq![Self::spec_empty_root()]);
            }
        }
        let t = Self { pager };
        proof {
            if data@.len() > 0 {
                assert(data@.len() / (PAGE_SIZE as nat) > 0) by (nonlinear_arith)
                    requires
                        PAGE_SIZE == 4096,
                        data@.len() > 0,
                        data@.len() % (PAGE_SIZE as nat) == 0,
                ;
            }
        }
        Ok(t)
    }

    /// Encode every page into the whole-file image to be written back.
    pub fn close_db(&self) -> (r: Vec<u8>)
        requires
            self.wf(),
        ensures
            r@ == spec_pages_bytes(self@),
            blocks_ok(r@),
    {
        proof {
            crate::pager::lemma_pages_round_trip(self@);
        }
        self.pager.flush()
    }

    /// Number of pages behind this table.
    pub fn size(&self) -> (r: usize)
        ensures
            r == self@.len(),
    {
        self.pager.size()
    }

    /// Walk from `pg_idx` down to the leaf responsible for `key`.  The walk
    /// is bounded by the page count; a cycle or a dangling child page in a
    /// corrupt tree is reported rather than followed forever.
    fn find_leaf_recur(&self, pg_idx: usize, key: u32) -> (r: Result<usize, ExecErr>)
        requires
            self.wf(),
            pg_idx < self@.len(),
        ensures
            r matches Ok(p) ==> p < self@.len() && self@[p as int] is Leaf,
            r matches Err(e) ==> (e is NodeError || e is PageNumOutBound),
            r is Ok <==> spec_descend(self@, pg_idx as int, key, self@.len() as nat) >= 0,
            r matches Ok(p) ==> p == spec_descend(self@, pg_idx as int, key, self@.len() as nat),
            self@[pg_idx as int] is Leaf ==> r == Ok::<usize, ExecErr>(pg_idx),
            two_level_at(self@, pg_idx as int) ==> r is Ok,
    {
        let mut pg = pg_idx;
        let mut fuel: usize = self.pager.size();
        while fuel > 0
            invariant
                self.wf(),
                pg < self@.len(),
                fuel <= self@.len(),
                spec_descend(self@, pg_idx as int, key, self@.len() as nat) == spec_descend(
                    self@,
                    pg as int,
                    key,
                    fuel as nat,
                ),
                self@[pg_idx as int] is Leaf ==> (pg == pg_idx && fuel == self@.len()),
                two_level_at(self@, pg_idx as int) ==> ((pg == pg_idx && fuel == self@.len()) || (
                self@[pg as int] is Leaf && fuel + 1 == self@.len())),
            decreases fuel,
        {
            let node = self.pager.get_node(pg);
            match node {
                Node::Leaf(_) => {
                    return Ok(pg);
                },
                Node::Intern(intern) => {
                    let ch = intern.find_child_and(key);
                    proof {
                        assert(node_wf(self@[pg as int]));
                        let iv = self@[pg as int]->Intern_0;
                        let s = crate::btree::intern::spec_child_idx(iv.children, key);
                        let cidx = if s < iv.children.len() {
                            s
                        } else {
                            iv.children.len() - 1
                        };
                        assert(ch == iv.children[cidx]);
                        if two_level_at(self@, pg_idx as int) && pg == pg_idx {
                            assert(iv.children[cidx].pg_idx < self@.len());
                            assert(self@[iv.children[cidx].pg_idx as int] is Leaf);
                        }
                    }
                    if ch.pg_idx >= self.pager.size() {
                        proof {
                            assert(spec_descend(self@, ch.pg_idx as int, key, (fuel - 1) as nat)
                                == -1);
                        }
                        return Err(
                            ExecErr::PageNumOutBound(String::from_str("Page number out of bound")),
                        );
                    }
                    pg = ch.pg_idx;
                },
            }
            fuel = fuel - 1;
        }
        proof {
            if two_level_at(self@, pg_idx as int) {
                let iv = self@[pg_idx as int]->Intern_0;
                assert(node_wf(self@[pg_idx as int]));
                assert(iv.children[0].pg_idx < self@.len());
                assert(self@[iv.children[0].pg_idx as int] is Leaf);
                assert(iv.children[0].pg_idx != pg_idx);
                assert(self@.len() >= 2);
            }
        }
        Err(ExecErr::NodeError(String::from_str("Corrupt tree: no leaf reached")))
    }

    /// A cursor positioned where `key` lives or would be inserted.
    pub fn new_cursor_by_key(&self, key: u32) -> (r: Result<Cursor, ExecErr>)
        requires
            self.wf(),
        ensures
            r matches Ok(c) ==> {
                &&& cursor_ok(self@, c)
                &&& self@[c.leaf_idx as int] matches NodeV::Leaf(l) && {
                    &&& keys_sorted(l.cells) ==> c.cell_idx == spec_cell_idx(l.cells, key)
                    &&& c.at_end == (l.next is None && c.cell_idx == l.cells.len())
                }
            },
            self@[ROOT as int] is Leaf ==> (r matches Ok(c) && c.leaf_idx == ROOT),
            two_level_at(self@, ROOT as int) ==> r is Ok,
            r is Ok <==> spec_descend(self@, ROOT as int, key, self@.len() as nat) >= 0,
            r matches Ok(c) ==> c.leaf_idx == spec_descend(
                self@,
                ROOT as int,
                key,
                self@.len() as nat,
            ),
    {
        let leaf_idx = match self.find_leaf_recur(ROOT, key) {
            Ok(p) => p,
            Err(e) => {
                return Err(e);
            },
        };
        let node = self.pager.get_node(leaf_idx);
        let leaf = match node.as_leaf() {
            Ok(l) => l,
            Err(e) => {
                return Err(e);
            },
        };
        proof {
            assert(node_wf(self@[leaf_idx as int]));
        }
        let cell_idx = leaf.search_cell_idx_by_key(key);
        proof {
            crate::btree::leaf::lemma_cell_idx_bounds(self@[leaf_idx as int]->Leaf_0.cells, key);
        }
        let at_end = leaf.next.is_none() && cell_idx == leaf.size();
        Ok(Cursor::new(leaf_idx, cell_idx, at_end))
    }

    /// A cursor at the first cell of the leftmost leaf; `at_end` is set when
    /// that leaf is empty, that is, when the whole table is empty.
    pub fn new_cursor_at_start(&self) -> (r: Result<Cursor, ExecErr>)
        requires
            self.wf(),
        ensures
            r is Ok <==> spec_leftmost(self@, ROOT as int, self@.len() as nat) >= 0,
            r matches Ok(c) ==> {
                &&& c.leaf_idx == spec_leftmost(self@, ROOT as int, self@.len() as nat)
                &&& cursor_ok(self@, c)
                &&& c.cell_idx == 0
                &&& self@[c.leaf_idx as int] matches NodeV::Leaf(l) && c.at_end == (l.cells.len()
                    == 0)
            },
    {
        let mut pg: usize = ROOT;
        let mut fuel: usize = self.pager.size();
        while fuel > 0
            invariant
                self.wf(),
                pg < self@.len(),
                fuel <= self@.len(),
                spec_leftmost(self@, ROOT as int, self@.len() as nat) == spec_leftmost(
                    self@,
                    pg as int,
                    fuel as nat,
                ),
            decreases fuel,
        {
            let node = self.pager.get_node(pg);
            match node {
                Node::Leaf(leaf) => {
                    let at_end = leaf.size() == 0;
                    return Ok(Cursor::new(pg, 0, at_end));
                },
                Node::Intern(intern) => {
                    proof {
                        assert(node_wf(self@[pg as int]));
                    }
                    let ch = intern.child_at(0);
                    if ch.pg_idx >= self.pager.size() {
                        proof {
                            assert(spec_leftmost(self@, ch.pg_idx as int, (fuel - 1) as nat)
                                == -1);
                        }
                        return Err(
                            ExecErr::PageNumOutBound(String::from_str("Page number out of bound")),
                        );
                    }
                    pg = ch.pg_idx;
                },
            }
            fuel = fuel - 1;
        }
        Err(ExecErr::NodeError(String::from_str("Corrupt tree: no leaf reached")))
    }

    /// Step the cursor one cell forward; at the end of a leaf it jumps to
    /// the next leaf, and at the end of the last leaf it reports the end of
    /// the table.
    pub fn advance_cursor(&self, cursor: &mut Cursor) -> (r: Result<(), ExecErr>)
        requires
            self.wf(),
            cursor_ok(self@, *old(cursor)),
            old(cursor).cell_idx < cursor_cells(self@, *old(cursor)).len(),
        ensures
            ({
                let l = self@[old(cursor).leaf_idx as int]->Leaf_0;
                if old(cursor).cell_idx + 1 < l.cells.len() {
                    r is Ok && *final(cursor) == (Cursor {
                        cell_idx: (old(cursor).cell_idx + 1) as usize,
                        ..*old(cursor)
                    })
                } else {
                    match l.next {
                        None => r is Ok && *final(cursor) == (Cursor {
                            cell_idx: (old(cursor).cell_idx + 1) as usize,
                            at_end: true,
                            ..*old(cursor)
                        }),
                        Some(nxt) => {
                            &&& (r is Ok <==> nxt < self@.len() && self@[nxt as int] is Leaf)
                            &&& r is Ok ==> *final(cursor) == (Cursor {
                                leaf_idx: nxt,
                                cell_idx: 0,
                                at_end: old(cursor).at_end,
                            })
                        },
                    }
                }
            }),
    {
        let node = self.pager.get_node(cursor.leaf_idx);
        let leaf = match node.as_leaf() {
            Ok(l) => l,
            Err(e) => {
                return Err(e);
            },
        };
        cursor.cell_idx = cursor.cell_idx + 1;
        if cursor.cell_idx == leaf.size() {
            match leaf.next {
                None => {
                    cursor.at_end = true;
                },
                Some(pid) => {
                    if pid >= self.pager.size() {
                        return Err(
                            ExecErr::PageNumOutBound(String::from_str("Page number out of bound")),
                        );
                    }
                    let next_node = self.pager.get_node(pid);
                    if !next_node.is_leaf() {
                        return Err(
                            ExecErr::NodeError(String::from_str("Corrupt tree: next not a leaf")),
                        );
                    }
                    cursor.leaf_idx = pid;
                    cursor.cell_idx = 0;
                },
            }
        }
        Ok(())
    }

    /// Read the row at the cursor.
    pub fn select_row(&self, cursor: &Cursor) -> (r: Result<Row, ExecErr>)
        requires
            self.wf(),
        ensures
            cursor_ok(self@, *cursor) && cursor.cell_idx < cursor_cells(self@, *cursor).len()
                ==> (r matches Ok(row) && row@ == crate::row::spec_row_of_bytes(
                cursor_cells(self@, *cursor)[cursor.cell_idx as int].row,
            ) && row.wf()),
            r is Ok ==> cursor_ok(self@, *cursor) && cursor.cell_idx < cursor_cells(
                self@,
                *cursor,
            ).len() && (r matches Ok(row) && row.wf()),
    {
        if cursor.leaf_idx >= self.pager.size() {
            return Err(ExecErr::PageNumOutBound(String::from_str("Page number out of bound")));
        }
        let node = self.pager.get_node(cursor.leaf_idx);
        let leaf = match node.as_leaf() {
            Ok(l) => l,
            Err(e) => {
                return Err(e);
            },
        };
        if cursor.cell_idx >= leaf.size() {
            return Err(ExecErr::CellNotFound(String::from_str("Cell not found")));
        }
        let row_bytes = &leaf.cells[cursor.cell_idx].row;
        proof {
            assert(leaf@.cells[cursor.cell_idx as int].row.len() == ROW_SIZE);
        }
        Ok(Row::deserialize_from(row_bytes))
    }

    /// The largest key under the node at `pg_idx`: descend along rightmost
    /// children to a leaf and take its last key.
    fn key_max(&self, pg_idx: usize) -> (r: Result<u32, ExecErr>)
        requires
            self.wf(),
            pg_idx < self@.len(),
        ensures
            r matches Err(e) ==> (e is NodeError || e is PageNumOutBound),
            self@[pg_idx as int] matches NodeV::Leaf(l) ==> {
                &&& l.cells.len() > 0 ==> r == Ok::<u32, ExecErr>(l.cells.last().key)
                &&& l.cells.len() == 0 ==> (r matches Err(e) && e is NodeError)
            },
    {
        let mut pg = pg_idx;
        let mut fuel: usize = self.pager.size();
        while fuel > 0
            invariant
                self.wf(),
                pg < self@.len(),
                self@[pg_idx as int] is Leaf ==> (pg == pg_idx && fuel == self@.len()),
            decreases fuel,
        {
            let node = self.pager.get_node(pg);
            match node {
                Node::Leaf(leaf) => {
                    if leaf.size() == 0 {
                        return Err(ExecErr::NodeError(String::from_str("Corrupt tree: empty leaf")));
                    }
                    return Ok(leaf.key_max());
                },
                Node::Intern(intern) => {
                    proof {
                        assert(node_wf(self@[pg as int]));
                    }
                    let ch = intern.child_at(intern.size() - 1);
                    if ch.pg_idx >= self.pager.size() {
                        return Err(
                            ExecErr::PageNumOutBound(String::from_str("Page number out of bound")),
                        );
                    }
                    pg = ch.pg_idx;
                },
            }
            fuel = fuel - 1;
        }
        Err(ExecErr::NodeError(String::from_str("Corrupt tree: no leaf reached")))
    }

    /// Point the parent field of every child of the internal node at
    /// `intern_pg` back at it; used after a node moves to a new page.
    fn fix_children_parents(&mut self, intern_pg: usize)
        requires
            old(self).wf(),
            intern_pg < old(self)@.len(),
            old(self)@[intern_pg as int] is Intern,
        ensures
            final(self).wf(),
            final(self)@.len() == old(self)@.len(),
            table_keys(final(self)@) == table_keys(old(self)@),
    {
        let kids = {
            let node = self.pager.get_node(intern_pg);
            let intern = match node.as_intern() {
                Ok(i) => i,
                Err(_) => {
                    proof {
                        assert(false);
                    }
                    return ;
                },
            };
            intern.child_pages()
        };
        let mut i: usize = 0;
        while i < kids.len()
            invariant
                self.wf(),
                intern_pg < self@.len(),
                self@.len() == old(self)@.len(),
                table_keys(self@) == table_keys(old(self)@),
            decreases kids@.len() - i,
        {
            let c = kids[i];
            if c < self.pager.size() {
                let ghost pre = self@;
                {
                    let node = self.pager.get_node_mut(c);
                    if !node.get_is_root() {
                        node.set_parent(Some(intern_pg));
                    }
                }
                proof {
                    let nv = self@[c as int];
                    assert(self@ == pre.update(c as int, nv));
                    assert(node_wf(pre[c as int]));
                    assert(node_wf(nv));
                    assert(node_keys(nv) == node_keys(pre[c as int]));
                    lemma_table_keys_update_neutral(pre, c as int, nv);
                    assert(self.wf());
                }
            }
            i = i + 1;
        }
    }

    /// Install a fresh root at page 0 after the old root split: the old
    /// root's content moves to a fresh page, and page 0 becomes an internal
    /// node over that page and the new right sibling at `pg_idx_rht`.
    fn new_root_and_insert_child(&mut self, pg_idx_rht: usize) -> (r: Result<(), ExecErr>)
        requires
            old(self).wf(),
            0 < pg_idx_rht < old(self)@.len(),
        ensures
            final(self).wf(),
            table_keys(final(self)@) == table_keys(old(self)@),
            r matches Err(e) ==> (e is PagerFull || e is NodeError || e is PageNumOutBound),
            ({
                &&& old(self)@[ROOT as int] matches NodeV::Leaf(l)
                &&& l.cells.len() > 0
                &&& old(self)@.len() < MAX_PAGES
            }) ==> r is Ok,
            (r is Ok && old(self)@[ROOT as int] is Leaf) ==> {
                let l0 = old(self)@[ROOT as int]->Leaf_0;
                &&& final(self)@.len() == old(self)@.len() + 1
                &&& final(self)@[ROOT as int] == NodeV::Intern(InternV {
                    is_root: true,
                    parent: None,
                    children: seq![
                        Child { pg_idx: old(self)@.len() as usize, key_max: Some(l0.cells.last().key) },
                        Child { pg_idx: pg_idx_rht, key_max: None },
                    ],
                })
                &&& final(self)@.last() == NodeV::Leaf(crate::btree::leaf::LeafV {
                    is_root: false,
                    parent: Some(ROOT),
                    ..l0
                })
                &&& (old(self)@[pg_idx_rht as int] matches NodeV::Leaf(rl0)
                    ==> final(self)@[pg_idx_rht as int] == NodeV::Leaf(crate::btree::leaf::LeafV {
                    is_root: false,
                    parent: Some(ROOT),
                    ..rl0
                }))
                &&& forall|i: int|
                    0 <= i < old(self)@.len() && i != ROOT as int && i != pg_idx_rht as int
                        ==> final(self)@[i] == old(self)@[i]
            },
    {
        if self.pager.size() >= MAX_PAGES {
            return Err(ExecErr::PagerFull(String::from_str("Pager full")));
        }
        let key_max_left = match self.key_max(ROOT) {
            Ok(k) => k,
            Err(e) => {
                return Err(e);
            },
        };
        let ghost pre = self@;
        {
            let node = self.pager.get_node_mut(pg_idx_rht);
            node.set_is_root(false);
            node.set_parent(Some(ROOT));
        }
        proof {
            let nv = self@[pg_idx_rht as int];
            assert(self@ == pre.update(pg_idx_rht as int, nv));
            assert(node_wf(pre[pg_idx_rht as int]));
            assert(node_wf(nv));
            assert(node_keys(nv) == node_keys(pre[pg_idx_rht as int]));
            lemma_table_keys_update_neutral(pre, pg_idx_rht as int, nv);
            assert(self.wf());
        }
        let pg_idx_new = self.pager.size();
        let mut children: Vec<Child> = Vec::new();
        children.push(Child::new(pg_idx_new, Some(key_max_left)));
        children.push(Child::new(pg_idx_rht, None));
        proof {
            assert(children@ =~= seq![
                Child { pg_idx: pg_idx_new, key_max: Some(key_max_left) },
                Child { pg_idx: pg_idx_rht, key_max: None },
            ]);
        }
        let root_new = Node::Intern(Intern::new(true, None, children));
        let ghost rv = root_new@;
        proof {
            assert(rv is Intern);
            assert(node_keys(rv) == Multiset::<u32>::empty());
            assert(node_wf(rv)) by {
                crate::btree::intern::lemma_intern_consts();
                let iv = rv->Intern_0;
                assert(iv.children.len() == 2);
                assert(iv.children[0].key_max is Some);
                assert(iv.children.last().key_max is None);
                assert(crate::btree::intern::none_last(iv.children));
                assert(iv.children[0].pg_idx < 0x1_0000_0000);
                assert(iv.children[1].pg_idx < 0x1_0000_0000);
                assert(crate::btree::intern::pages_in_range(iv.children));
            }
        }
        let ghost pre2 = self@;
        let mut root_old = self.pager.replace_node(ROOT, root_new);
        proof {
            assert(root_old@ == pre2[ROOT as int]);
            assert(node_wf(root_old@));
            lemma_table_keys_update(pre2, ROOT as int, rv);
        }
        root_old.set_is_root(false);
        root_old.set_parent(Some(ROOT));
        let was_intern = !root_old.is_leaf();
        let ghost pre3 = self@;
        let ghost moved = root_old@;
        proof {
            assert(node_keys(moved) == node_keys(pre2[ROOT as int])) by {
                match moved {
                    NodeV::Leaf(l) => {
                        assert(pre2[ROOT as int] matches NodeV::Leaf(l0) && l.cells == l0.cells);
                    },
                    NodeV::Intern(_) => {
                        assert(pre2[ROOT as int] is Intern);
                    },
                }
            }
            assert(node_wf(moved)) by {
                match moved {
                    NodeV::Leaf(l) => {
                        assert(pre2[ROOT as int] matches NodeV::Leaf(l0) && l.cells == l0.cells
                            && l.next == l0.next);
                        assert(l.parent == Some(ROOT) && !l.is_root);
                    },
                    NodeV::Intern(iv) => {
                        assert(pre2[ROOT as int] matches NodeV::Intern(i0) && iv.children
                            == i0.children);
                        assert(iv.parent == Some(ROOT) && !iv.is_root);
                    },
                }
            }
            assert(pre3 == pre2.update(ROOT as int, rv));
        }
        match self.pager.push_node(root_old) {
            Ok(_) => {},
            Err(e) => {
                proof {
                    assert(false);
                }
                return Err(e);
            },
        }
        proof {
            lemma_table_keys_push(pre3, moved);
            assert forall|x: u32| true implies table_keys(self@).count(x) == table_keys(
                pre2,
            ).count(x) by {
                broadcast use vstd::multiset::group_multiset_axioms;

                assert(table_keys(self@).count(x) == table_keys(pre3).count(x) + node_keys(
                    moved,
                ).count(x));
                assert(table_keys(pre3).add(node_keys(pre2[ROOT as int])).count(x) == table_keys(
                    pre2,
                ).add(node_keys(rv)).count(x));
            }
            assert(table_keys(self@) =~= table_keys(pre2));
            assert(self.wf()) by {
                assert(self@ == pre3.push(moved));
                assert forall|i: int| 0 <= i < self@.len() implies node_wf(
                    #[trigger] self@[i],
                ) by {
                    if i == self@.len() - 1 {
                        assert(self@[i] == moved);
                    } else if i == ROOT as int {
                        assert(self@[i] == rv);
                    } else {
                        assert(self@[i] == pre2[i]);
                    }
                }
            }
        }
        if was_intern {
            self.fix_children_parents(pg_idx_new);
        } else {
            proof {
                assert(self@ == pre3.push(moved));
                assert(self@.len() == old(self)@.len() + 1);
                assert(self@[ROOT as int] == rv);
                assert(self@.last() == moved);
                if old(self)@[ROOT as int] is Leaf {
                    assert(moved matches NodeV::Leaf(l) && l.cells
                        == old(self)@[ROOT as int]->Leaf_0.cells) by {
                        assert(pre2[ROOT as int] == pre[ROOT as int]);
                        assert(pre[ROOT as int] == old(self)@[ROOT as int]);
                    }
                }
                if old(self)@[pg_idx_rht as int] is Leaf {
                    assert(self@[pg_idx_rht as int] == pre2[pg_idx_rht as int]);
                    assert(pre2[pg_idx_rht as int] matches NodeV::Leaf(rl) && rl.cells
                        == old(self)@[pg_idx_rht as int]->Leaf_0.cells);
                }
            }
        }
        Ok(())
    }

    /// After the node at `left_pg` split, with its new right sibling at
    /// `right_pg`, install the sibling in the parent: the entry that covered
    /// the old node is narrowed to the left half's largest key and a new
    /// entry is added for the sibling.  A full parent splits the same way,
    /// and the split walks up; without a parent a fresh root is installed.
    fn insert_child(&mut self, left_pg: usize, right_pg: usize, parent: Option<usize>) -> (r:
        Result<(), ExecErr>)
        requires
            old(self).wf(),
            left_pg < old(self)@.len(),
            0 < right_pg < old(self)@.len(),
        ensures
            final(self).wf(),
            table_keys(final(self)@) == table_keys(old(self)@),
            r matches Err(e) ==> (e is PagerFull || e is NodeError || e is PageNumOutBound),
            install_case(old(self)@, left_pg, right_pg, parent) ==> (r is Ok && final(self)@
                == old(self)@.update(
                parent.unwrap() as int,
                NodeV::Intern(
                    InternV {
                        children: spec_install_split(
                            old(self)@[parent.unwrap() as int]->Intern_0.children,
                            left_pg,
                            right_pg,
                            old(self)@[left_pg as int]->Leaf_0.cells.last().key,
                            old(self)@[right_pg as int]->Leaf_0.cells.last().key,
                        ),
                        ..old(self)@[parent.unwrap() as int]->Intern_0
                    },
                ),
            )),
    {
        let mut cur_left = left_pg;
        let mut cur_right = right_pg;
        let mut cur_parent = parent;
        let mut fuel: usize = MAX_PAGES;
        while fuel > 0
            invariant
                self.wf(),
                cur_left < self@.len(),
                0 < cur_right < self@.len(),
                table_keys(self@) == table_keys(old(self)@),
                install_case(old(self)@, left_pg, right_pg, parent) ==> (self@ == old(self)@
                    && cur_left == left_pg && cur_right == right_pg && cur_parent == parent && fuel
                    == MAX_PAGES),
            decreases fuel,
        {
            let ghost ready = install_case(old(self)@, left_pg, right_pg, parent);
            let left_max = match self.key_max(cur_left) {
                Ok(k) => k,
                Err(e) => {
                    proof {
                        if ready {
                            let p0 = parent.unwrap();
                            assert(install_ready(old(self)@, left_pg, right_pg, p0 as int));
                            assert(self@[cur_left as int] matches NodeV::Leaf(ll) && ll.cells.len()
                                > 0);
                            assert(false);
                        }
                        assert(!ready);
                    }
                    return Err(e);
                },
            };
            let p = match cur_parent {
                None => {
                    proof {
                        if ready {
                            assert(cur_parent == parent && parent is Some);
                            assert(false);
                        }
                    }
                    return self.new_root_and_insert_child(cur_right);
                },
                Some(p) => p,
            };
            if p >= self.pager.size() {
                return Err(ExecErr::PageNumOutBound(String::from_str("Page number out of bound")));
            }
            {
                let nodechk = self.pager.get_node(p);
                if nodechk.is_leaf() {
                    return Err(
                        ExecErr::NodeError(String::from_str("Corrupt tree: parent not internal")),
                    );
                }
            }
            let right_max = match self.key_max(cur_right) {
                Ok(k) => k,
                Err(e) => {
                    return Err(e);
                },
            };
            let mut pend_pg: usize = cur_right;
            let mut pend_key: u32 = right_max;
            let ghost pre = self@;
            let res = {
                let node = self.pager.get_node_mut(p);
                proof {
                    assert(node_wf(pre[p as int]));
                    crate::btree::intern::lemma_intern_consts();
                }
                let intern = node.as_intern_mut();
                let ghost ch0 = intern@.children;
                proof {
                    assert(crate::btree::intern::none_last(ch0));
                    assert(crate::btree::intern::pages_in_range(ch0));
                    assert(crate::btree::intern::bounds_sorted(ch0));
                    assert(2 <= ch0.len() <= crate::btree::intern::CHILD_MAX);
                }
                let idx = intern.search_child_idx_by_key(left_max);
                let found = intern.child_at(idx);
                let r0: Result<(), ExecErr>;
                if found.key_max.is_none() {
                    proof {
                        assert(idx == ch0.len() - 1);
                    }
                    intern.set_child(idx, Child::new(cur_right, None));
                    let ghost mid = intern@.children;
                    proof {
                        crate::btree::intern::lemma_update_preserves_shape(
                            ch0,
                            idx as int,
                            Child { pg_idx: cur_right, key_max: None },
                        );
                        assert(crate::btree::intern::none_last(mid));
                        assert(crate::btree::intern::pages_in_range(mid));
                        assert forall|a: int, b: int| 0 <= a < b < mid.len() implies
                            crate::btree::intern::bound_le(
                            mid[a].key_max,
                            mid[b].key_max,
                        ) by {
                            if b != idx {
                                assert(mid[b] == ch0[b]);
                            }
                            if a != idx {
                                assert(mid[a] == ch0[a]);
                            }
                        }
                        assert(crate::btree::intern::bounds_sorted(mid));
                    }
                    pend_pg = cur_left;
                    pend_key = left_max;
                    r0 = intern.insert_child(cur_left, left_max);
                    proof {
                        if r0 is Ok {
                            let ix = choose|ix: int|
                                {
                                    &&& 0 <= ix <= mid.len()
                                    &&& (crate::btree::intern::none_last(mid) && mid.len() > 0
                                        ==> ix < mid.len())
                                    &&& intern@.children == #[trigger] mid.insert(
                                        ix,
                                        Child { pg_idx: cur_left, key_max: Some(left_max) },
                                    )
                                };
                            crate::btree::intern::lemma_insert_preserves_shape(
                                mid,
                                ix,
                                Child { pg_idx: cur_left, key_max: Some(left_max) },
                            );
                        }
                        assert(crate::btree::intern::none_last(intern@.children));
                        assert(crate::btree::intern::pages_in_range(intern@.children));
                        assert(crate::btree::intern::bounds_sorted(intern@.children));
                        assert(2 <= intern@.children.len() <= crate::btree::intern::CHILD_MAX);
                        if ready {
                            let p0 = parent.unwrap();
                            let iv = old(self)@[p0 as int]->Intern_0;
                            assert(ch0 == iv.children);
                            assert(crate::btree::intern::bounds_sorted(ch0));
                            let sidx = crate::btree::intern::spec_child_idx(ch0, left_max);
                            assert(idx == sidx && sidx < ch0.len());
                            assert(mid == ch0.update(
                                idx as int,
                                Child { pg_idx: cur_right, key_max: None },
                            ));
                            assert forall|a: int, b: int| 0 <= a < b < mid.len() implies
                                crate::btree::intern::bound_le(
                                mid[a].key_max,
                                mid[b].key_max,
                            ) by {
                                if b != idx {
                                    assert(mid[b] == ch0[b]);
                                }
                                if a != idx {
                                    assert(mid[a] == ch0[a]);
                                }
                            }
                            assert(crate::btree::intern::bounds_sorted(mid));
                            assert(r0 is Ok);
                            assert(intern@.children == mid.insert(
                                crate::btree::intern::spec_child_idx(mid, left_max),
                                Child { pg_idx: cur_left, key_max: Some(left_max) },
                            ));
                            assert(intern@.children == spec_install_split(
                                ch0,
                                cur_left,
                                cur_right,
                                left_max,
                                right_max,
                            ));
                        }
                    }
                } else {
                    proof {
                        assert(idx < ch0.len() - 1) by {
                            assert(ch0.last().key_max is None);
                        }
                    }
                    let pg_keep = found.pg_idx;
                    intern.set_child(idx, Child::new(pg_keep, Some(left_max)));
                    let ghost mid = intern@.children;
                    proof {
                        crate::btree::intern::lemma_update_preserves_shape(
                            ch0,
                            idx as int,
                            Child { pg_idx: pg_keep, key_max: Some(left_max) },
                        );
                        assert(crate::btree::intern::none_last(mid));
                        assert(crate::btree::intern::pages_in_range(mid));
                        crate::btree::intern::lemma_child_idx_bounds(ch0, left_max);
                        assert(idx == crate::btree::intern::spec_child_idx(ch0, left_max));
                        assert forall|a: int, b: int| 0 <= a < b < mid.len() implies
                            crate::btree::intern::bound_le(
                            mid[a].key_max,
                            mid[b].key_max,
                        ) by {
                            if a == idx {
                                assert(mid[b] == ch0[b]);
                                assert(crate::btree::intern::bound_geq(
                                    ch0[idx as int].key_max,
                                    left_max,
                                ));
                                assert(crate::btree::intern::bound_le(
                                    ch0[idx as int].key_max,
                                    ch0[b].key_max,
                                ));
                            } else if b == idx {
                                assert(mid[a] == ch0[a]);
                                assert(!crate::btree::intern::bound_geq(
                                    ch0[a].key_max,
                                    left_max,
                                ));
                            } else {
                                assert(mid[a] == ch0[a]);
                                assert(mid[b] == ch0[b]);
                            }
                        }
                        assert(crate::btree::intern::bounds_sorted(mid));
                    }
                    r0 = intern.insert_child(cur_right, right_max);
                    proof {
                        if r0 is Ok {
                            let ix = choose|ix: int|
                                {
                                    &&& 0 <= ix <= mid.len()
                                    &&& (crate::btree::intern::none_last(mid) && mid.len() > 0
                                        ==> ix < mid.len())
                                    &&& intern@.children == #[trigger] mid.insert(
                                        ix,
                                        Child { pg_idx: cur_right, key_max: Some(right_max) },
                                    )
                                };
                            crate::btree::intern::lemma_insert_preserves_shape(
                                mid,
                                ix,
                                Child { pg_idx: cur_right, key_max: Some(right_max) },
                            );
                        }
                        assert(crate::btree::intern::none_last(intern@.children));
                        assert(crate::btree::intern::pages_in_range(intern@.children));
                        assert(crate::btree::intern::bounds_sorted(intern@.children));
                        assert(2 <= intern@.children.len() <= crate::btree::intern::CHILD_MAX);
                        if ready {
                            let p0 = parent.unwrap();
                            let iv = old(self)@[p0 as int]->Intern_0;
                            assert(ch0 == iv.children);
                            assert(crate::btree::intern::bounds_sorted(ch0));
                            let sidx = crate::btree::intern::spec_child_idx(ch0, left_max);
                            crate::btree::intern::lemma_child_idx_bounds(ch0, left_max);
                            assert(idx == sidx && sidx < ch0.len());
                            assert(mid == ch0.update(
                                idx as int,
                                Child { pg_idx: found.pg_idx, key_max: Some(left_max) },
                            ));
                            assert forall|a: int, b: int| 0 <= a < b < mid.len() implies
                                crate::btree::intern::bound_le(
                                mid[a].key_max,
                                mid[b].key_max,
                            ) by {
                                if a == idx {
                                    assert(mid[b] == ch0[b]);
                                    assert(crate::btree::intern::bound_geq(
                                        ch0[idx as int].key_max,
                                        left_max,
                                    ));
                                    assert(crate::btree::intern::bound_le(
                                        ch0[idx as int].key_max,
                                        ch0[b].key_max,
                                    ));
                                } else if b == idx {
                                    assert(mid[a] == ch0[a]);
                                    assert(!crate::btree::intern::bound_geq(
                                        ch0[a].key_max,
                                        left_max,
                                    ));
                                } else {
                                    assert(mid[a] == ch0[a]);
                                    assert(mid[b] == ch0[b]);
                                }
                            }
                            assert(crate::btree::intern::bounds_sorted(mid));
                            assert(r0 is Ok);
                            assert(intern@.children == mid.insert(
                                crate::btree::intern::spec_child_idx(mid, right_max),
                                Child { pg_idx: cur_right, key_max: Some(right_max) },
                            ));
                            assert(intern@.children == spec_install_split(
                                ch0,
                                cur_left,
                                cur_right,
                                left_max,
                                right_max,
                            ));
                        }
                    }
                }
                r0
            };
            proof {
                let nv = self@[p as int];
                assert(self@ == pre.update(p as int, nv));
                assert(nv is Intern);
                assert(node_keys(nv) == node_keys(pre[p as int]));
                lemma_table_keys_update_neutral(pre, p as int, nv);
                assert(node_wf(nv));
                assert(self.wf());
            }
            let full = match res {
                Ok(_) => {
                    proof {
                        if ready {
                            let p0 = parent.unwrap();
                            let iv = old(self)@[p0 as int]->Intern_0;
                            let nv = self@[p0 as int];
                            assert(nv matches NodeV::Intern(niv) && niv == (InternV {
                                children: spec_install_split(
                                    iv.children,
                                    left_pg,
                                    right_pg,
                                    old(self)@[left_pg as int]->Leaf_0.cells.last().key,
                                    old(self)@[right_pg as int]->Leaf_0.cells.last().key,
                                ),
                                ..iv
                            }));
                            assert(self@ == old(self)@.update(p0 as int, nv));
                        }
                    }
                    return Ok(());
                },
                Err(e) => match e {
                    ExecErr::InternNodeFull(_) => {
                        proof {
                            if ready {
                                assert(false);
                            }
                        }
                        true
                    },
                    _ => {
                        proof {
                            assert(false);
                        }
                        return Err(e);
                    },
                },
            };
            if full {
                if self.pager.size() >= MAX_PAGES {
                    return Err(ExecErr::PagerFull(String::from_str("Pager full")));
                }
                let new_pg = self.pager.size();
                let ghost pre4 = self@;
                let (right_in, parent_next) = {
                    let node = self.pager.get_node_mut(p);
                    proof {
                        assert(node_wf(pre4[p as int]));
                        crate::btree::intern::lemma_intern_consts();
                    }
                    let intern = node.as_intern_mut();
                    proof {
                        assert(crate::btree::intern::pages_in_range(intern@.children));
                        assert(intern@.children.len() == crate::btree::intern::CHILD_MAX);
                    }
                    let ri = match intern.insert_child_and_split(pend_pg, pend_key) {
                        Ok(ri) => ri,
                        Err(_) => vstd::pervasive::unreached(),
                    };
                    let pn = intern.parent;
                    proof {
                        assert(crate::btree::intern::none_last(intern@.children));
                        assert(crate::btree::intern::pages_in_range(intern@.children));
                        assert(crate::btree::intern::bounds_sorted(intern@.children));
                        assert(intern@.children.len() == crate::btree::intern::SPLIT_IDX);
                        assert(crate::btree::intern::none_last(ri@.children));
                        assert(crate::btree::intern::pages_in_range(ri@.children));
                        assert(crate::btree::intern::bounds_sorted(ri@.children));
                        assert(ri@.children.len() == crate::btree::intern::CHILD_MAX + 1
                            - crate::btree::intern::SPLIT_IDX);
                        assert(ri@.is_root == false);
                        assert(ri@.parent == intern@.parent);
                    }
                    (ri, pn)
                };
                proof {
                    let nv = self@[p as int];
                    assert(self@ == pre4.update(p as int, nv));
                    assert(node_keys(nv) == node_keys(pre4[p as int]));
                    lemma_table_keys_update_neutral(pre4, p as int, nv);
                    assert(node_wf(nv)) by {
                        crate::btree::intern::lemma_intern_consts();
                    }
                    assert(self.wf());
                }
                let mut right_in = right_in;
                if right_in.parent.is_none() {
                    right_in.parent = Some(ROOT);
                }
                let ghost pre5 = self@;
                let ghost riv = right_in@;
                proof {
                    assert(node_wf(NodeV::Intern(riv))) by {
                        crate::btree::intern::lemma_intern_consts();
                    }
                }
                match self.pager.push_node(Node::Intern(right_in)) {
                    Ok(_) => {},
                    Err(e) => {
                        proof {
                            assert(false);
                        }
                        return Err(e);
                    },
                }
                proof {
                    lemma_table_keys_push(pre5, NodeV::Intern(riv));
                    broadcast use vstd::multiset::group_multiset_axioms;

                    assert(table_keys(self@) =~= table_keys(pre5));
                    assert(self.wf()) by {
                        assert forall|i: int| 0 <= i < self@.len() implies node_wf(
                            #[trigger] self@[i],
                        ) by {
                            if i == self@.len() - 1 {
                                assert(self@[i] == NodeV::Intern(riv));
                            } else {
                                assert(self@[i] == pre5[i]);
                            }
                        }
                    }
                }
                self.fix_children_parents(new_pg);
                cur_left = p;
                cur_right = new_pg;
                cur_parent = parent_next;
            }
            fuel = fuel - 1;
        }
        Err(ExecErr::NodeError(String::from_str("Corrupt tree: split chain too long")))
    }

    /// Insert a row under `key`.  A key already present is rejected; a full
    /// leaf splits, and the split propagates upward as far as needed.  On
    /// success the table holds exactly one more copy of `key`.
    pub fn insert_row(&mut self, key: u32, row: &Row) -> (r: Result<(), ExecErr>)
        requires
            old(self).wf(),
            row.wf(),
        ensures
            final(self).wf(),
            r is Ok ==> table_keys(final(self)@) == table_keys(old(self)@).insert(key),
            (r matches Err(e) && (e is DuplicateKey || e is TableFull)) ==> final(self)@ == old(
                self,
            )@,
            (r matches Err(e) && e is DuplicateKey) ==> exists|i: int|
                0 <= i < final(self)@.len() && (#[trigger] final(self)@[i]) is Leaf
                    && leaf_contains_key(final(self)@[i]->Leaf_0.cells, key),
            r is Err ==> (table_keys(final(self)@) == table_keys(old(self)@) || table_keys(
                final(self)@,
            ) == table_keys(old(self)@).insert(key)),
            r matches Err(e) ==> (e is DuplicateKey || e is TableFull || e is PagerFull
                || e is NodeError || e is PageNumOutBound),
            ({
                &&& old(self)@.len() == 1
                &&& old(self)@[0] matches NodeV::Leaf(l0)
                &&& l0.is_root
                &&& !leaf_contains_key(l0.cells, key)
            }) ==> r is Ok,
            ({
                let d = spec_target_leaf(old(self)@, key);
                &&& d >= 0
                &&& old(self)@[d] matches NodeV::Leaf(l)
                &&& leaf_contains_key(l.cells, key)
            }) ==> (r matches Err(e) && e is DuplicateKey && final(self)@ == old(self)@),
            ({
                let d = spec_target_leaf(old(self)@, key);
                &&& d >= 0
                &&& old(self)@[d] matches NodeV::Leaf(l)
                &&& l.cells.len() < MAX_CELLS
                &&& !leaf_contains_key(l.cells, key)
            }) ==> (r is Ok && final(self)@ == old(self)@.update(
                spec_target_leaf(old(self)@, key),
                NodeV::Leaf(
                    spec_leaf_after_insert(
                        old(self)@[spec_target_leaf(old(self)@, key)]->Leaf_0,
                        key,
                        crate::row::spec_row_bytes(row@),
                    ),
                ),
            )),
            ({
                let d = spec_target_leaf(old(self)@, key);
                &&& d >= 0
                &&& old(self)@[d] matches NodeV::Leaf(l)
                &&& l.cells.len() == MAX_CELLS
                &&& !leaf_contains_key(l.cells, key)
                &&& l.parent matches Some(p)
                &&& (p as int) < old(self)@.len()
                &&& (p as int) != d
                &&& old(self)@[p as int] matches NodeV::Intern(iv)
                &&& iv.children.len() < crate::btree::intern::CHILD_MAX
                &&& old(self)@.len() < MAX_PAGES
            }) ==> r is Ok,
            ({
                &&& old(self)@.len() == 1
                &&& old(self)@[0] matches NodeV::Leaf(l0)
                &&& l0.is_root
                &&& l0.cells.len() == MAX_CELLS
                &&& !leaf_contains_key(l0.cells, key)
                &&& r is Ok
            }) ==> {
                let l0 = old(self)@[0]->Leaf_0;
                let combined = l0.cells.insert(
                    spec_cell_idx(l0.cells, key),
                    crate::btree::leaf::CellV { key, row: crate::row::spec_row_bytes(row@) },
                );
                &&& final(self)@.len() == 3
                &&& final(self)@[0] == NodeV::Intern(InternV {
                    is_root: true,
                    parent: None,
                    children: seq![
                        Child {
                            pg_idx: 2,
                            key_max: Some(combined[SPLIT_IDX - 1].key),
                        },
                        Child { pg_idx: 1, key_max: None },
                    ],
                })
                &&& final(self)@[1] == NodeV::Leaf(crate::btree::leaf::LeafV {
                    is_root: false,
                    parent: Some(ROOT),
                    next: l0.next,
                    cells: combined.subrange(SPLIT_IDX as int, combined.len() as int),
                })
                &&& final(self)@[2] == NodeV::Leaf(crate::btree::leaf::LeafV {
                    is_root: false,
                    parent: Some(ROOT),
                    next: Some(1),
                    cells: combined.subrange(0, SPLIT_IDX as int),
                })
            },
    {
        let row_bytes = row.serialize();
        let leaf_idx = match self.find_leaf_recur(ROOT, key) {
            Ok(i) => i,
            Err(e) => {
                return Err(e);
            },
        };
        let ghost pre = self@;
        let res = {
            let node = self.pager.get_node_mut(leaf_idx);
            proof {
                assert(node_wf(pre[leaf_idx as int]));
            }
            let leaf = node.as_leaf_mut();
            leaf.insert_row(key, &row_bytes)
        };
        match res {
            Ok(_) => {
                proof {
                    let nv = self@[leaf_idx as int];
                    assert(self@ == pre.update(leaf_idx as int, nv));
                    let l0 = pre[leaf_idx as int]->Leaf_0;
                    let ci = spec_cell_idx(l0.cells, key);
                    crate::btree::leaf::lemma_cell_idx_bounds(l0.cells, key);
                    lemma_leaf_keys_insert(
                        l0.cells,
                        ci,
                        crate::btree::leaf::CellV { key, row: row_bytes@ },
                    );
                    assert(node_keys(nv) == node_keys(pre[leaf_idx as int]).insert(key));
                    lemma_table_keys_update_insert(pre, leaf_idx as int, nv, key);
                    assert(node_wf(nv));
                    assert(self.wf());
                }
                return Ok(());
            },
            Err(e) => {
                let is_full = match &e {
                    ExecErr::LeafNodeFull(_) => true,
                    ExecErr::DuplicateKey(_) => false,
                    _ => {
                        proof {
                            assert(false);
                        }
                        false
                    },
                };
                proof {
                    assert(self@[leaf_idx as int] == pre[leaf_idx as int]);
                    assert(self@ =~= pre);
                    if !is_full {
                        assert(self@[leaf_idx as int] is Leaf && leaf_contains_key(
                            self@[leaf_idx as int]->Leaf_0.cells,
                            key,
                        ));
                    }
                }
                if !is_full {
                    return Err(e);
                }
            },
        }
        // The target leaf is full and does not hold the key: split it.
        let parent_opt = {
            let node = self.pager.get_node(leaf_idx);
            node.get_parent()
        };
        let need: usize = if parent_opt.is_none() {
            2
        } else {
            1
        };
        if self.pager.size() + need > MAX_PAGES {
            return Err(ExecErr::TableFull(String::from_str("Error: Table full.")));
        }
        let new_pg = self.pager.size();
        let right = {
            let node = self.pager.get_node_mut(leaf_idx);
            proof {
                assert(node_wf(pre[leaf_idx as int]));
            }
            let leaf = node.as_leaf_mut();
            leaf.insert_row_and_split(key, &row_bytes, new_pg)
        };
        let ghost s1 = self@;
        proof {
            let nv = s1[leaf_idx as int];
            assert(s1 == pre.update(leaf_idx as int, nv));
            assert(node_wf(nv)) by {
                assert(node_wf(pre[leaf_idx as int]));
            }
            assert(self.wf());
            let l0 = pre[leaf_idx as int]->Leaf_0;
            let ci = spec_cell_idx(l0.cells, key);
            crate::btree::leaf::lemma_cell_idx_bounds(l0.cells, key);
            crate::btree::leaf::lemma_leaf_consts();
            let combined = l0.cells.insert(ci, crate::btree::leaf::CellV { key, row: row_bytes@ });
            lemma_leaf_keys_insert(
                l0.cells,
                ci,
                crate::btree::leaf::CellV { key, row: row_bytes@ },
            );
            lemma_leaf_keys_split(combined, crate::btree::leaf::SPLIT_IDX as int);
            lemma_table_keys_update(pre, leaf_idx as int, nv);
        }
        let mut right = right;
        let ghost right_pre = right@;
        match parent_opt {
            None => {
                right.parent = Some(ROOT);
                let ghost rv = right@;
                proof {
                    assert(rv == crate::btree::leaf::LeafV { parent: Some(ROOT), ..right_pre });
                    assert(node_wf(NodeV::Leaf(rv))) by {
                        assert(crate::btree::leaf::Leaf::cells_ok(right_pre));
                    }
                }
                match self.pager.push_node(Node::Leaf(right)) {
                    Ok(_) => {},
                    Err(e) => {
                        proof {
                            assert(false);
                        }
                        return Err(e);
                    },
                }
                proof {
                    lemma_table_keys_push(s1, NodeV::Leaf(rv));
                    self.lemma_split_keys_total(pre, s1, leaf_idx as int, rv, key, row_bytes@);
                    assert(self.wf());
                }
                let ghost s2 = self@;
                let r2 = self.new_root_and_insert_child(new_pg);
                proof {
                    assert(table_keys(self@) == table_keys(s2));
                    if old(self)@.len() == 1 && r2 is Ok {
                        assert(leaf_idx == 0);
                        assert(new_pg == 1);
                        assert(s2.len() == 2);
                        assert(s2[0] is Leaf);
                        assert(self@.len() == 3);
                        assert(self@[0] matches NodeV::Intern(iv) && iv.children.len() == 2);
                        assert(self@.last() == self@[2]);
                        assert(self@[2] matches NodeV::Leaf(ll) && ll.cells.len() == SPLIT_IDX);
                        assert(s2[1] == NodeV::Leaf(rv));
                        assert(self@[1] matches NodeV::Leaf(rl) && rl.cells.len() == MAX_CELLS + 1
                            - SPLIT_IDX);
                    }
                }
                match r2 {
                    Ok(_) => Ok(()),
                    Err(e) => Err(e),
                }
            },
            Some(p) => {
                let ghost rv = right@;
                proof {
                    assert(node_wf(NodeV::Leaf(rv))) by {
                        assert(crate::btree::leaf::Leaf::cells_ok(rv));
                        assert(pre[leaf_idx as int]->Leaf_0.parent == Some(p));
                    }
                }
                match self.pager.push_node(Node::Leaf(right)) {
                    Ok(_) => {},
                    Err(e) => {
                        proof {
                            assert(false);
                        }
                        return Err(e);
                    },
                }
                proof {
                    lemma_table_keys_push(s1, NodeV::Leaf(rv));
                    self.lemma_split_keys_total(pre, s1, leaf_idx as int, rv, key, row_bytes@);
                    assert(self.wf());
                }
                let ghost s2 = self@;
                let r2 = self.insert_child(leaf_idx, new_pg, Some(p));
                proof {
                    assert(table_keys(self@) == table_keys(s2));
                }
                match r2 {
                    Ok(_) => Ok(()),
                    Err(e) => Err(e),
                }
            },
        }
    }

    /// After a leaf split — the left half written in place, the right half
    /// appended — the table holds exactly one more copy of the key.
    proof fn lemma_split_keys_total(
        &self,
        pre: Seq<NodeV>,
        s1: Seq<NodeV>,
        leaf_idx: int,
        rv: crate::btree::leaf::LeafV,
        key: u32,
        row: Seq<u8>,
    )
        requires
            0 <= leaf_idx < pre.len(),
            pre[leaf_idx] is Leaf,
            pre[leaf_idx]->Leaf_0.cells.len() == crate::btree::leaf::MAX_CELLS,
            s1 == pre.update(leaf_idx, s1[leaf_idx]),
            self@ == s1.push(NodeV::Leaf(rv)),
            table_keys(self@) == table_keys(s1).add(node_keys(NodeV::Leaf(rv))),
            ({
                let l0 = pre[leaf_idx]->Leaf_0;
                let ci = spec_cell_idx(l0.cells, key);
                let combined = l0.cells.insert(ci, crate::btree::leaf::CellV { key, row });
                &&& s1[leaf_idx] matches NodeV::Leaf(lv) && lv.cells == combined.subrange(
                    0,
                    crate::btree::leaf::SPLIT_IDX as int,
                )
                &&& rv.cells == combined.subrange(
                    crate::btree::leaf::SPLIT_IDX as int,
                    combined.len() as int,
                )
            }),
        ensures
            table_keys(self@) == table_keys(pre).insert(key),
    {
        broadcast use vstd::multiset::group_multiset_axioms;

        crate::btree::leaf::lemma_leaf_consts();
        let l0 = pre[leaf_idx]->Leaf_0;
        let ci = spec_cell_idx(l0.cells, key);
        crate::btree::leaf::lemma_cell_idx_bounds(l0.cells, key);
        let combined = l0.cells.insert(ci, crate::btree::leaf::CellV { key, row });
        lemma_leaf_keys_insert(l0.cells, ci, crate::btree::leaf::CellV { key, row });
        lemma_leaf_keys_split(combined, crate::btree::leaf::SPLIT_IDX as int);
        lemma_table_keys_update(pre, leaf_idx, s1[leaf_idx]);
        assert forall|x: u32| true implies table_keys(self@).count(x) == table_keys(
            pre,
        ).insert(key).count(x) by {
            assert(table_keys(s1).add(node_keys(pre[leaf_idx])).count(x) == table_keys(pre).add(
                node_keys(s1[leaf_idx]),
            ).count(x));
            assert(node_keys(s1[leaf_idx]).count(x) + node_keys(NodeV::Leaf(rv)).count(x)
                == node_keys(pre[leaf_idx]).insert(key).count(x));
        }
        assert(table_keys(self@) =~= table_keys(pre).insert(key));
    }
}

/// The character for one decimal digit.
pub open spec fn digit_char(d: nat) -> char {
    if d == 0 {
        '0'
    } else if d == 1 {
        '1'
    } else if d == 2 {
        '2'
    } else if d == 3 {
        '3'
    } else if d == 4 {
        '4'
    } else if d == 5 {
        '5'
    } else if d == 6 {
        '6'
    } else if d == 7 {
        '7'
    } else if d == 8 {
        '8'
    } else {
        '9'
    }
}

/// The decimal rendering of a number, most significant digit first.
pub open spec fn spec_dec(n: nat) -> Seq<char>
    decreases n,
{
    if n < 10 {
        seq![digit_char(n)]
    } else {
        spec_dec(n / 10) + seq![digit_char(n % 10)]
    }
}

/// Two spaces of indentation per depth level.
pub open spec fn spec_indent(depth: nat) -> Seq<char>
    decreases depth,
{
    if depth == 0 {
        Seq::empty()
    } else {
        spec_indent((depth - 1) as nat) + seq![' ', ' ']
    }
}

/// The opening of a leaf line.
pub open spec fn leaf_label() -> Seq<char> {
    seq!['l', 'e', 'a', 'f', ' ', '(', 's', 'i', 'z', 'e', ' ']
}

/// The opening of an internal-node line.
pub open spec fn intern_label() -> Seq<char> {
    seq!['i', 'n', 't', 'e', 'r', 'n', 'a', 'l', ' ', '(', 's', 'i', 'z', 'e', ' ']
}

/// The close of a node line.
pub open spec fn close_label() -> Seq<char> {
    seq![')', '\n']
}

/// The marker before each key of a leaf.
pub open spec fn key_marker() -> Seq<char> {
    seq![' ', ' ', '-', ' ']
}

/// The key lines of a leaf, one per cell, in order.
pub open spec fn spec_leaf_lines(cells: Seq<crate::btree::leaf::CellV>, depth: nat) -> Seq<char>
    decreases cells.len(),
{
    if cells.len() == 0 {
        Seq::empty()
    } else {
        spec_leaf_lines(cells.drop_last(), depth) + spec_indent(depth) + key_marker() + spec_dec(
            cells.last().key as nat,
        ) + seq!['\n']
    }
}

/// The rendering of the subtree rooted at page `pg`: the node's own line,
/// then each child subtree indented one level deeper.  `fuel` bounds the
/// depth so that the rendering is total even on a corrupt page graph.
pub open spec fn spec_tree_str(pages: Seq<NodeV>, pg: int, depth: nat, fuel: nat) -> Seq<char>
    decreases fuel, 0nat,
{
    if fuel == 0 || !(0 <= pg < pages.len()) {
        Seq::empty()
    } else {
        match pages[pg] {
            NodeV::Leaf(l) => spec_indent(depth) + leaf_label() + spec_dec(l.cells.len())
                + close_label() + spec_leaf_lines(l.cells, depth),
            NodeV::Intern(iv) => spec_indent(depth) + intern_label() + spec_dec(iv.children.len())
                + close_label() + spec_children_str(
                pages,
                iv.children,
                (depth + 1) as nat,
                (fuel - 1) as nat,
            ),
        }
    }
}

/// The renderings of a run of child subtrees, in order.
pub open spec fn spec_children_str(
    pages: Seq<NodeV>,
    children: Seq<Child>,
    depth: nat,
    fuel: nat,
) -> Seq<char>
    decreases fuel, children.len() + 1,
{
    if children.len() == 0 {
        Seq::empty()
    } else {
        spec_children_str(pages, children.drop_last(), depth, fuel) + spec_tree_str(
            pages,
            children.last().pg_idx as int,
            depth,
            fuel,
        )
    }
}

/// The rendering of the whole tree from the root.
pub open spec fn spec_btree_str(pages: Seq<NodeV>) -> Seq<char> {
    spec_tree_str(pages, ROOT as int, 0, MAX_PAGES as nat)
}

/// The one-character string of a decimal digit.
fn digit_str(d: u32) -> (r: &'static str)
    requires
        d < 10,
    ensures
        r@ == seq![digit_char(d as nat)],
{
    let r: &'static str = if d == 0 {
        proof {
            reveal_strlit("0");
        }
        "0"
    } else if d == 1 {
        proof {
            reveal_strlit("1");
        }
        "1"
    } else if d == 2 {
        proof {
            reveal_strlit("2");
        }
        "2"
    } else if d == 3 {
        proof {
            reveal_strlit("3");
        }
        "3"
    } else if d == 4 {
        proof {
            reveal_strlit("4");
        }
        "4"
    } else if d == 5 {
        proof {
            reveal_strlit("5");
        }
        "5"
    } else if d == 6 {
        proof {
            reveal_strlit("6");
        }
        "6"
    } else if d == 7 {
        proof {
            reveal_strlit("7");
        }
        "7"
    } else if d == 8 {
        proof {
            reveal_strlit("8");
        }
        "8"
    } else {
        proof {
            reveal_strlit("9");
        }
        "9"
    };
    proof {
        assert(r@ =~= seq![digit_char(d as nat)]);
    }
    r
}

/// Render a number in decimal.
fn u32_to_string(x: u32) -> (r: String)
    ensures
        r@ == spec_dec(x as nat),
    decreases x,
{
    if x < 10 {
        let mut r = String::new();
        r.append(digit_str(x));
        proof {
            assert(r@ =~= spec_dec(x as nat));
        }
        r
    } else {
        let mut r = u32_to_string(x / 10);
        r.append(digit_str(x % 10));
        proof {
            assert(r@ =~= spec_dec(x as nat));
        }
        r
    }
}

/// Two spaces per depth level.
fn indent_string(depth: usize) -> (r: String)
    ensures
        r@ == spec_indent(depth as nat),
{
    proof {
        reveal_strlit("  ");
    }
    let mut r = String::new();
    proof {
        assert(r@ =~= spec_indent(0));
    }
    let mut i: usize = 0;
    while i < depth
        invariant
            i <= depth,
            r@ == spec_indent(i as nat),
        decreases depth - i,
    {
        proof {
            reveal_strlit("  ");
        }
        r.append("  ");
        i = i + 1;
        proof {
            assert(r@ =~= spec_indent(i as nat));
        }
    }
    r
}

impl Table {
    /// Render the subtree rooted at `pg_idx`, indented `depth` levels.
    fn btree_to_str_recur(&self, pg_idx: usize, depth: usize, fuel: usize) -> (r: String)
        requires
            self.wf(),
            depth + fuel <= MAX_PAGES,
        ensures
            r@ == spec_tree_str(self@, pg_idx as int, depth as nat, fuel as nat),
        decreases fuel,
    {
        if fuel == 0 || pg_idx >= self.pager.size() {
            let r = String::new();
            proof {
                assert(r@ =~= spec_tree_str(self@, pg_idx as int, depth as nat, fuel as nat));
            }
            return r;
        }
        let mut out = indent_string(depth);
        let node = self.pager.get_node(pg_idx);
        match node {
            Node::Leaf(leaf) => {
                proof {
                    reveal_strlit("leaf (size ");
                    assert("leaf (size "@ =~= leaf_label());
                    reveal_strlit(")\n");
                    assert(")\n"@ =~= close_label());
                }
                out.append("leaf (size ");
                proof {
                    assert(node_wf(self@[pg_idx as int]));
                    crate::btree::leaf::lemma_leaf_consts();
                }
                let n = u32_to_string(leaf.size() as u32);
                out.append(n.as_str());
                out.append(")\n");
                let ghost l = self@[pg_idx as int]->Leaf_0;
                let ghost head = spec_indent(depth as nat) + leaf_label() + spec_dec(l.cells.len())
                    + close_label();
                proof {
                    assert(out@ =~= head);
                }
                let mut i: usize = 0;
                while i < leaf.cells.len()
                    invariant
                        self.wf(),
                        pg_idx < self@.len(),
                        self@[pg_idx as int] matches NodeV::Leaf(lv) && lv == l,
                        leaf@ == l,
                        i <= l.cells.len(),
                        head == spec_indent(depth as nat) + leaf_label() + spec_dec(l.cells.len())
                            + close_label(),
                        out@ == head + spec_leaf_lines(l.cells.subrange(0, i as int), depth as nat),
                    decreases l.cells.len() - i,
                {
                    let ghost prefix = l.cells.subrange(0, i as int);
                    let ind = indent_string(depth);
                    out.append(ind.as_str());
                    proof {
                        reveal_strlit("  - ");
                        assert("  - "@ =~= key_marker());
                        reveal_strlit("\n");
                        assert("\n"@ =~= seq!['\n']);
                    }
                    out.append("  - ");
                    let k = u32_to_string(leaf.cells[i].key);
                    out.append(k.as_str());
                    out.append("\n");
                    i = i + 1;
                    proof {
                        let cur = l.cells.subrange(0, i as int);
                        assert(cur.drop_last() =~= prefix);
                        assert(cur.last() == l.cells[i - 1]);
                        assert(spec_leaf_lines(cur, depth as nat) == spec_leaf_lines(
                            prefix,
                            depth as nat,
                        ) + spec_indent(depth as nat) + key_marker() + spec_dec(
                            l.cells[i - 1].key as nat,
                        ) + seq!['\n']);
                        assert(out@ =~= head + spec_leaf_lines(cur, depth as nat));
                    }
                }
                proof {
                    assert(l.cells.subrange(0, l.cells.len() as int) =~= l.cells);
                }
                out
            },
            Node::Intern(intern) => {
                proof {
                    reveal_strlit("internal (size ");
                    assert("internal (size "@ =~= intern_label());
                    reveal_strlit(")\n");
                    assert(")\n"@ =~= close_label());
                }
                out.append("internal (size ");
                proof {
                    assert(node_wf(self@[pg_idx as int]));
                    crate::btree::intern::lemma_intern_consts();
                }
                let n = u32_to_string(intern.size() as u32);
                out.append(n.as_str());
                out.append(")\n");
                let ghost iv = self@[pg_idx as int]->Intern_0;
                let ghost head = spec_indent(depth as nat) + intern_label() + spec_dec(
                    iv.children.len(),
                ) + close_label();
                proof {
                    assert(out@ =~= head);
                }
                let kids = intern.child_pages();
                let mut i: usize = 0;
                while i < kids.len()
                    invariant
                        self.wf(),
                        pg_idx < self@.len(),
                        self@[pg_idx as int] matches NodeV::Intern(ivv) && ivv == iv,
                        kids@ == iv.children.map_values(|c: Child| c.pg_idx),
                        depth + fuel <= MAX_PAGES,
                        fuel >= 1,
                        i <= iv.children.len(),
                        head == spec_indent(depth as nat) + intern_label() + spec_dec(
                            iv.children.len(),
                        ) + close_label(),
                        out@ == head + spec_children_str(
                            self@,
                            iv.children.subrange(0, i as int),
                            (depth + 1) as nat,
                            (fuel - 1) as nat,
                        ),
                    decreases iv.children.len() - i,
                {
                    let ghost prefix = iv.children.subrange(0, i as int);
                    let sub = self.btree_to_str_recur(kids[i], depth + 1, fuel - 1);
                    out.append(sub.as_str());
                    i = i + 1;
                    proof {
                        let cur = iv.children.subrange(0, i as int);
                        assert(cur.drop_last() =~= prefix);
                        assert(cur.last() == iv.children[i - 1]);
                        assert(kids@[i - 1] == iv.children[i - 1].pg_idx);
                        assert(spec_children_str(self@, cur, (depth + 1) as nat, (fuel - 1) as nat)
                            == spec_children_str(self@, prefix, (depth + 1) as nat, (fuel - 1) as nat)
                            + spec_tree_str(
                            self@,
                            iv.children[i - 1].pg_idx as int,
                            (depth + 1) as nat,
                            (fuel - 1) as nat,
                        ));
                        assert(out@ =~= head + spec_children_str(
                            self@,
                            cur,
                            (depth + 1) as nat,
                            (fuel - 1) as nat,
                        ));
                    }
                }
                proof {
                    assert(iv.children.subrange(0, iv.children.len() as int) =~= iv.children);
                }
                out
            },
        }
    }

    /// Render the whole tree in the stable debug format: `leaf (size N)` or
    /// `internal (size C)` lines, children indented two spaces per level,
    /// and one `  - KEY` line per stored key.
    pub fn btree_to_str(&self) -> (r: String)
        requires
            self.wf(),
        ensures
            r@ == spec_btree_str(self@),
    {
        self.btree_to_str_recur(ROOT, 0, MAX_PAGES)
    }
}

/// The rows packed in a run of cells, in order.
pub open spec fn leaf_rows(cells: Seq<crate::btree::leaf::CellV>) -> Seq<crate::row::RowV> {
    cells.map_values(|c: crate::btree::leaf::CellV| crate::row::spec_row_of_bytes(c.row))
}

/// The views of a run of rows.
pub open spec fn rows_view(rows: Seq<Row>) -> Seq<crate::row::RowV> {
    rows.map_values(|r: Row| r@)
}

/// The rows of the leaf chain from `pg` on: this leaf's rows, then the
/// chain behind its next pointer.  `fuel` bounds the walk so that the
/// rendering is total even on a corrupt chain.
pub open spec fn spec_chain_rows(pages: Seq<NodeV>, pg: int, fuel: nat) -> Seq<crate::row::RowV>
    decreases fuel,
{
    if fuel == 0 || !(0 <= pg < pages.len()) || !(pages[pg] is Leaf) {
        Seq::empty()
    } else {
        let l = pages[pg]->Leaf_0;
        leaf_rows(l.cells) + (match l.next {
            None => Seq::<crate::row::RowV>::empty(),
            Some(n) => spec_chain_rows(pages, n as int, (fuel - 1) as nat),
        })
    }
}

/// The rows a scan still owes from a cursor position inside the chain:
/// the rest of the current leaf, then the chain behind it.
pub open spec fn spec_tail_rows(pages: Seq<NodeV>, pg: int, cell: int, fuel: nat) -> Seq<
    crate::row::RowV,
> {
    if !(0 <= pg < pages.len()) || !(pages[pg] is Leaf) {
        Seq::empty()
    } else {
        let l = pages[pg]->Leaf_0;
        leaf_rows(l.cells.subrange(cell, l.cells.len() as int)) + (match l.next {
            None => Seq::<crate::row::RowV>::empty(),
            Some(n) => spec_chain_rows(pages, n as int, fuel),
        })
    }
}

/// The leaf chain from `pg` is whole: every next pointer leads, within
/// `fuel` steps, to an in-range, non-empty leaf, and the chain ends.
pub open spec fn chain_ok(pages: Seq<NodeV>, pg: int, fuel: nat) -> bool
    decreases fuel,
{
    &&& 0 <= pg < pages.len()
    &&& pages[pg] is Leaf
    &&& fuel > 0
    &&& match pages[pg]->Leaf_0.next {
        None => true,
        Some(n) => {
            &&& (n as int) < pages.len()
            &&& pages[n as int] matches NodeV::Leaf(nl)
            &&& nl.cells.len() > 0
            &&& chain_ok(pages, n as int, (fuel - 1) as nat)
        },
    }
}

/// A cursor that denotes a real position: its leaf page exists, holds a
/// leaf, and its cell index is at most that leaf's size.
pub open spec fn cursor_ok(pages: Seq<NodeV>, c: Cursor) -> bool {
    &&& (c.leaf_idx as int) < pages.len()
    &&& pages[c.leaf_idx as int] is Leaf
    &&& c.cell_idx <= pages[c.leaf_idx as int]->Leaf_0.cells.len()
}

/// The cells of the leaf under a cursor.
pub open spec fn cursor_cells(pages: Seq<NodeV>, c: Cursor) -> Seq<crate::btree::leaf::CellV> {
    pages[c.leaf_idx as int]->Leaf_0.cells
}

/// Law: in a well-formed table — as `open_db` establishes it and every
/// operation preserves it — the keys of every leaf are strictly increasing.
pub proof fn lemma_leaves_sorted(pages: Seq<NodeV>)
    requires
        forall|i: int| 0 <= i < pages.len() ==> node_wf(#[trigger] pages[i]),
    ensures
        forall|i: int| 0 <= i < pages.len() && pages[i] is Leaf ==> keys_sorted(
            (#[trigger] pages[i])->Leaf_0.cells,
        ),
{
}

/// Law: in a well-formed table the child bounds of every internal node are
/// in order; splits, bound narrowings and child insertions all keep it so.
pub proof fn lemma_bounds_ordered(pages: Seq<NodeV>)
    requires
        forall|i: int| 0 <= i < pages.len() ==> node_wf(#[trigger] pages[i]),
    ensures
        forall|i: int| 0 <= i < pages.len() && pages[i] is Intern
            ==> crate::btree::intern::bounds_sorted((#[trigger] pages[i])->Intern_0.children),
{
}

/// Closing a well-formed table and reopening the written image yields the
/// same pages, node for node: persistence of the on-disk form.
pub proof fn lemma_close_then_open(pages: Seq<NodeV>)
    requires
        1 <= pages.len() <= MAX_PAGES,
        forall|i: int| 0 <= i < pages.len() ==> node_wf(#[trigger] pages[i]),
    ensures
        blocks_ok(spec_pages_bytes(pages)),
        spec_pages_bytes(pages).len() / (PAGE_SIZE as nat) == pages.len(),
        forall|i: int| 0 <= i < pages.len() ==> spec_node_of_bytes(
            #[trigger] spec_block_at(spec_pages_bytes(pages), i),
        ) == Some(pages[i]),
{
    crate::pager::lemma_pages_round_trip(pages);
}

} // verus!
