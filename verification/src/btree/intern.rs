//! Internal nodes: an ordered run of children, each a page number plus the
//! largest key reachable through it.  The rightmost child has no stored
//! bound — it covers everything above the other bounds — and carries `None`.

use crate::btree::leaf::opt_page;
use crate::btree::utils::{
    be32, be32_val, bool_byte, lemma_be32_round_trip, pad_zeroes_to, read_bool_from, read_u32_at,
    write_bool_to, write_opt_u32_to, zeroes,
};
use crate::error::ExecErr;
use crate::pager::PAGE_SIZE;
use vstd::prelude::*;

verus! {

/// Bytes of the internal-node header: node type, root flag, parent page,
/// stored-bound count and rightmost child page.
pub const HEADER_SIZE: usize = 1 + 1 + 4 + 4 + 4;

/// Bytes of one stored child entry: child page and bound key.
pub const CHILD_SIZE: usize = 4 + 4;

/// How many children an internal node can hold: the stored entries that fit
/// after the header, plus the rightmost child kept in the header itself.
pub const CHILD_MAX: usize = (PAGE_SIZE - HEADER_SIZE) / CHILD_SIZE + 1;

/// After a split the left node keeps child indices `0 .. SPLIT_IDX`.
pub const SPLIT_IDX: usize = CHILD_MAX / 2 + 1;

/// The concrete values of the derived capacity constants.
pub proof fn lemma_intern_consts()
    ensures
        CHILD_MAX == 511,
        SPLIT_IDX == 256,
{
    assert(4082nat / 8 == 510) by (nonlinear_arith);
}

/// One child of an internal node: its page and the largest key under it;
/// the rightmost child's bound is implicit and held as `None`.
#[derive(Clone, Copy)]
pub struct Child {
    pub pg_idx: usize,
    pub key_max: Option<u32>,
}

impl Child {
    pub fn new(pg_idx: usize, key_max: Option<u32>) -> (r: Self)
        ensures
            r.pg_idx == pg_idx,
            r.key_max == key_max,
    {
        Self { pg_idx, key_max }
    }
}

/// An internal node.
pub struct Intern {
    pub is_root: bool,
    pub parent: Option<usize>,
    pub children: Vec<Child>,
}

/// The mathematical content of an internal node.
#[verifier::ext_equal]
pub struct InternV {
    pub is_root: bool,
    pub parent: Option<usize>,
    pub children: Seq<Child>,
}

impl View for Intern {
    type V = InternV;

    open spec fn view(&self) -> InternV {
        InternV { is_root: self.is_root, parent: self.parent, children: self.children@ }
    }
}

/// Does the bound `b` cover `key`?  The implicit bound covers every key.
pub open spec fn bound_geq(b: Option<u32>, key: u32) -> bool {
    match b {
        None => true,
        Some(v) => v >= key,
    }
}

/// Order on bounds, the implicit bound on top.
pub open spec fn bound_le(a: Option<u32>, b: Option<u32>) -> bool {
    match b {
        None => true,
        Some(vb) => match a {
            None => false,
            Some(va) => va <= vb,
        },
    }
}

/// Bounds are in order (not necessarily strictly).
pub open spec fn bounds_sorted(children: Seq<Child>) -> bool {
    forall|i: int, j: int| 0 <= i < j < children.len() ==> bound_le(
        children[i].key_max,
        children[j].key_max,
    )
}

/// Exactly the last child carries the implicit bound.
pub open spec fn none_last(children: Seq<Child>) -> bool {
    &&& forall|i: int| 0 <= i < children.len() - 1 ==> (#[trigger] children[i]).key_max is Some
    &&& children.len() > 0 ==> children.last().key_max is None
}

/// Every child page fits the on-page field.
pub open spec fn pages_in_range(children: Seq<Child>) -> bool {
    forall|i: int| 0 <= i < children.len() ==> (#[trigger] children[i]).pg_idx < 0x1_0000_0000
}

/// The smallest child index whose bound covers `key`; the child count when
/// none does.
pub open spec fn spec_child_idx(children: Seq<Child>, key: u32) -> int
    decreases children.len(),
{
    if children.len() == 0 {
        0
    } else if bound_geq(children[0].key_max, key) {
        0
    } else {
        1 + spec_child_idx(children.subrange(1, children.len() as int), key)
    }
}

/// `spec_child_idx` is the boundary between the bounds below `key` and the
/// covering ones.
pub proof fn lemma_child_idx_bounds(children: Seq<Child>, key: u32)
    ensures
        0 <= spec_child_idx(children, key) <= children.len(),
        forall|i: int| 0 <= i < spec_child_idx(children, key) ==> !bound_geq(
            (#[trigger] children[i]).key_max,
            key,
        ),
        spec_child_idx(children, key) < children.len() ==> bound_geq(
            children[spec_child_idx(children, key)].key_max,
            key,
        ),
    decreases children.len(),
{
    if children.len() == 0 {
    } else if bound_geq(children[0].key_max, key) {
    } else {
        let rest = children.subrange(1, children.len() as int);
        lemma_child_idx_bounds(rest, key);
        assert forall|i: int| 0 <= i < spec_child_idx(children, key) implies !bound_geq(
            (#[trigger] children[i]).key_max,
            key,
        ) by {
            if i > 0 {
                assert(children[i] == rest[i - 1]);
            }
        }
    }
}

/// Any index with the boundary property is `spec_child_idx`.
pub proof fn lemma_child_idx_unique(children: Seq<Child>, key: u32, r: int)
    requires
        0 <= r <= children.len(),
        forall|i: int| 0 <= i < r ==> !bound_geq((#[trigger] children[i]).key_max, key),
        r < children.len() ==> bound_geq(children[r].key_max, key),
    ensures
        r == spec_child_idx(children, key),
{
    let idx = spec_child_idx(children, key);
    lemma_child_idx_bounds(children, key);
    if r < idx {
        assert(!bound_geq(children[r].key_max, key));
        assert(bound_geq(children[r].key_max, key));
    } else if idx < r {
        assert(!bound_geq(children[idx].key_max, key));
        assert(bound_geq(children[idx].key_max, key));
    }
}

/// Replacing a child in place keeps the node's shape, provided the implicit
/// bound lands exactly on the rightmost child.
pub proof fn lemma_update_preserves_shape(ch: Seq<Child>, ix: int, c: Child)
    requires
        none_last(ch),
        pages_in_range(ch),
        0 <= ix < ch.len(),
        ix == ch.len() - 1 ==> c.key_max is None,
        ix < ch.len() - 1 ==> c.key_max is Some,
        c.pg_idx < 0x1_0000_0000,
    ensures
        none_last(ch.update(ix, c)),
        pages_in_range(ch.update(ix, c)),
{
    let upd = ch.update(ix, c);
    assert(upd.last() == if ix == ch.len() - 1 {
        c
    } else {
        ch.last()
    });
    assert forall|k: int| 0 <= k < upd.len() - 1 implies (#[trigger] upd[k]).key_max is Some by {
        if k != ix {
            assert(upd[k] == ch[k]);
        }
    }
    assert forall|k: int| 0 <= k < upd.len() implies (#[trigger] upd[k]).pg_idx
        < 0x1_0000_0000 by {
        if k != ix {
            assert(upd[k] == ch[k]);
        }
    }
}

/// Inserting a bounded child anywhere before the rightmost one keeps the
/// node's shape.
pub proof fn lemma_insert_preserves_shape(ch: Seq<Child>, ix: int, c: Child)
    requires
        none_last(ch),
        pages_in_range(ch),
        0 <= ix < ch.len(),
        c.key_max is Some,
        c.pg_idx < 0x1_0000_0000,
    ensures
        none_last(ch.insert(ix, c)),
        pages_in_range(ch.insert(ix, c)),
{
    let ins = ch.insert(ix, c);
    assert(ins.last() == ch.last());
    assert forall|k: int| 0 <= k < ins.len() - 1 implies (#[trigger] ins[k]).key_max is Some by {
        if k < ix {
            assert(ins[k] == ch[k]);
        } else if k > ix {
            assert(ins[k] == ch[k - 1]);
        }
    }
    assert forall|k: int| 0 <= k < ins.len() implies (#[trigger] ins[k]).pg_idx
        < 0x1_0000_0000 by {
        if k < ix {
            assert(ins[k] == ch[k]);
        } else if k > ix {
            assert(ins[k] == ch[k - 1]);
        }
    }
}

/// The byte form of one stored child entry: child page, then bound key.
pub open spec fn spec_entry_bytes(c: Child) -> Seq<u8> {
    be32(c.pg_idx as u32) + be32(
        match c.key_max {
            None => 0u32,
            Some(v) => v,
        },
    )
}

/// The byte form of a run of stored child entries, in order.
pub open spec fn spec_entries_bytes(children: Seq<Child>) -> Seq<u8>
    decreases children.len(),
{
    if children.len() == 0 {
        Seq::empty()
    } else {
        spec_entries_bytes(children.drop_last()) + spec_entry_bytes(children.last())
    }
}

/// The full page image of an internal node: node type, root flag, parent,
/// stored-bound count, rightmost child page, the bounded entries, and zero
/// padding out to the page size.  The rightmost child's bound is not stored.
pub open spec fn spec_intern_bytes(v: InternV) -> Seq<u8>
    recommends
        Intern::children_ok(v),
{
    let body = seq![0u8] + seq![bool_byte(v.is_root)] + be32(opt_page(v.parent)) + be32(
        (v.children.len() - 1) as u32,
    ) + be32(v.children.last().pg_idx as u32) + spec_entries_bytes(v.children.drop_last());
    body + zeroes((PAGE_SIZE - body.len()) as nat)
}

/// The stored child entry at slot `i` of an internal-node page.
pub open spec fn spec_entry_of_bytes(b: Seq<u8>, i: int) -> Child {
    Child {
        pg_idx: be32_val(
            b.subrange(HEADER_SIZE + CHILD_SIZE * i, HEADER_SIZE + CHILD_SIZE * i + 4),
        ) as usize,
        key_max: Some(
            be32_val(b.subrange(HEADER_SIZE + CHILD_SIZE * i + 4, HEADER_SIZE + CHILD_SIZE * (i + 1))),
        ),
    }
}

/// The internal node stored by a page image, or nothing when the stored
/// bound count exceeds the node capacity.
pub open spec fn spec_intern_of_bytes(b: Seq<u8>) -> Option<InternV>
    recommends
        b.len() == PAGE_SIZE,
{
    let is_root = b[1] != 0;
    let parent = if is_root {
        None
    } else {
        Some(be32_val(b.subrange(2, 6)) as usize)
    };
    let k = be32_val(b.subrange(6, 10)) as int;
    let right_pg = be32_val(b.subrange(10, 14)) as usize;
    if k + 1 > CHILD_MAX {
        None
    } else {
        Some(
            InternV {
                is_root,
                parent,
                children: Seq::new(k as nat, |i: int| spec_entry_of_bytes(b, i)).push(
                    Child { pg_idx: right_pg, key_max: None },
                ),
            },
        )
    }
}

/// A run of stored entries occupies `CHILD_SIZE` bytes per entry.
pub proof fn lemma_entries_bytes_len(children: Seq<Child>)
    ensures
        spec_entries_bytes(children).len() == CHILD_SIZE * children.len(),
    decreases children.len(),
{
    lemma_intern_consts();
    if children.len() == 0 {
    } else {
        lemma_entries_bytes_len(children.drop_last());
    }
}

/// Slot `i` of the encoded run holds exactly the bytes of entry `i`.
pub proof fn lemma_entries_bytes_index(children: Seq<Child>, i: int)
    requires
        0 <= i < children.len(),
    ensures
        spec_entries_bytes(children).subrange(CHILD_SIZE * i, CHILD_SIZE * (i + 1))
            == spec_entry_bytes(children[i]),
    decreases children.len(),
{
    lemma_intern_consts();
    lemma_entries_bytes_len(children);
    lemma_entries_bytes_len(children.drop_last());
    if i == children.len() - 1 {
        assert(spec_entries_bytes(children).subrange(CHILD_SIZE * i, CHILD_SIZE * (i + 1))
            =~= spec_entry_bytes(children.last()));
    } else {
        lemma_entries_bytes_index(children.drop_last(), i);
        assert(CHILD_SIZE * (i + 1) <= CHILD_SIZE * (children.len() - 1)) by (nonlinear_arith)
            requires
                i + 1 <= children.len() - 1,
                CHILD_SIZE == 8,
        ;
        assert(spec_entries_bytes(children).subrange(CHILD_SIZE * i, CHILD_SIZE * (i + 1))
            =~= spec_entries_bytes(children.drop_last()).subrange(
            CHILD_SIZE * i,
            CHILD_SIZE * (i + 1),
        ));
    }
}

/// Decoding an encoded well-formed internal node yields the node back.
pub proof fn lemma_intern_round_trip(v: InternV)
    requires
        Intern::wf_v(v),
    ensures
        spec_intern_bytes(v).len() == PAGE_SIZE,
        spec_intern_of_bytes(spec_intern_bytes(v)) == Some(v),
{
    lemma_intern_consts();
    lemma_entries_bytes_len(v.children.drop_last());
    let b = spec_intern_bytes(v);
    assert(b.len() == PAGE_SIZE);
    assert(b[1] == bool_byte(v.is_root));
    assert(b.subrange(2, 6) =~= be32(opt_page(v.parent)));
    assert(b.subrange(6, 10) =~= be32((v.children.len() - 1) as u32));
    assert(b.subrange(10, 14) =~= be32(v.children.last().pg_idx as u32));
    lemma_be32_round_trip(opt_page(v.parent));
    lemma_be32_round_trip((v.children.len() - 1) as u32);
    lemma_be32_round_trip(v.children.last().pg_idx as u32);
    if !v.is_root {
        let p = v.parent.unwrap();
        assert(opt_page(v.parent) == p as u32);
        assert(be32_val(b.subrange(2, 6)) as usize == p);
    }
    let k = (v.children.len() - 1) as int;
    assert(be32_val(b.subrange(6, 10)) as int == k);
    let stored = v.children.drop_last();
    let dec = Seq::new(k as nat, |i: int| spec_entry_of_bytes(b, i));
    assert forall|i: int| 0 <= i < k implies dec[i] == stored[i] by {
        lemma_entries_bytes_index(stored, i);
        let enc = spec_entries_bytes(stored);
        assert(CHILD_SIZE * i + CHILD_SIZE == CHILD_SIZE * (i + 1)) by (nonlinear_arith);
        assert(CHILD_SIZE * (i + 1) <= CHILD_SIZE * stored.len()) by (nonlinear_arith)
            requires
                i + 1 <= stored.len(),
                CHILD_SIZE == 8,
        ;
        assert(b.subrange(HEADER_SIZE as int, HEADER_SIZE + CHILD_SIZE * stored.len()) =~= enc);
        assert(b.subrange(HEADER_SIZE + CHILD_SIZE * i, HEADER_SIZE + CHILD_SIZE * i + 4)
            =~= enc.subrange(CHILD_SIZE * i, CHILD_SIZE * (i + 1)).subrange(0, 4));
        assert(b.subrange(HEADER_SIZE + CHILD_SIZE * i + 4, HEADER_SIZE + CHILD_SIZE * (i + 1))
            =~= enc.subrange(CHILD_SIZE * i, CHILD_SIZE * (i + 1)).subrange(4, CHILD_SIZE as int));
        assert(spec_entry_bytes(stored[i]).subrange(0, 4) =~= be32(stored[i].pg_idx as u32));
        assert(spec_entry_bytes(stored[i]).subrange(4, CHILD_SIZE as int) =~= be32(
            match stored[i].key_max {
                None => 0u32,
                Some(x) => x,
            },
        ));
        lemma_be32_round_trip(stored[i].pg_idx as u32);
        assert(stored[i].key_max is Some);
        lemma_be32_round_trip(stored[i].key_max.unwrap());
    }
    assert(dec.push(Child { pg_idx: v.children.last().pg_idx, key_max: None }) =~= v.children);
}

impl Intern {
    /// Structural well-formedness: at least two children, capacity
    /// respected, the implicit bound exactly on the rightmost child, and
    /// every page field encodable.
    pub open spec fn children_ok(v: InternV) -> bool {
        &&& 2 <= v.children.len() <= CHILD_MAX
        &&& none_last(v.children)
        &&& bounds_sorted(v.children)
        &&& pages_in_range(v.children)
        &&& match v.parent {
            None => true,
            Some(p) => p < 0x1_0000_0000,
        }
    }

    /// Full well-formedness: additionally, exactly the root lacks a parent.
    pub open spec fn wf_v(v: InternV) -> bool {
        &&& Self::children_ok(v)
        &&& v.is_root <==> v.parent is None
    }

    pub open spec fn wf(&self) -> bool {
        Self::wf_v(self@)
    }

    /// A fresh internal node over the given children.
    pub fn new(is_root: bool, parent: Option<usize>, children: Vec<Child>) -> (r: Self)
        requires
            children@.len() >= 2,
        ensures
            r@ == (InternV { is_root, parent, children: children@ }),
    {
        Self { is_root, parent, children }
    }

    /// Number of children.
    pub fn size(&self) -> (r: usize)
        ensures
            r == self@.children.len(),
    {
        self.children.len()
    }

    /// The child at position `i`.
    pub fn child_at(&self, i: usize) -> (r: Child)
        requires
            i < self@.children.len(),
        ensures
            r == self@.children[i as int],
    {
        self.children[i]
    }

    /// Replace the child at position `i`.
    pub fn set_child(&mut self, i: usize, ch: Child)
        requires
            i < old(self)@.children.len(),
        ensures
            final(self)@ == (InternV {
                children: old(self)@.children.update(i as int, ch),
                ..old(self)@
            }),
    {
        self.children.set(i, ch);
    }

    /// Binary search for the smallest child index whose bound covers `key`.
    /// With the implicit bound in place the search never falls off the end;
    /// when the bounds are in order it finds exactly the first covering one.
    pub fn search_child_idx_by_key(&self, key: u32) -> (r: usize)
        ensures
            r <= self@.children.len(),
            none_last(self@.children) && self@.children.len() > 0 ==> r < self@.children.len(),
            bounds_sorted(self@.children) ==> r == spec_child_idx(self@.children, key),
    {
        let ghost children = self@.children;
        let mut lower: usize = 0;
        let mut upper: usize = self.children.len();
        while lower < upper
            invariant
                lower <= upper <= children.len(),
                children == self@.children,
                none_last(children) && children.len() > 0 ==> lower < children.len(),
                bounds_sorted(children) ==> forall|i: int| 0 <= i < lower ==> !bound_geq(
                    (#[trigger] children[i]).key_max,
                    key,
                ),
                bounds_sorted(children) ==> forall|i: int| upper <= i < children.len()
                    ==> bound_geq((#[trigger] children[i]).key_max, key),
            decreases upper - lower,
        {
            let mid = lower + (upper - lower) / 2;
            let covers = match self.children[mid].key_max {
                None => true,
                Some(k) => key <= k,
            };
            if covers {
                proof {
                    if bounds_sorted(children) {
                        assert forall|i: int| mid <= i < children.len() implies bound_geq(
                            (#[trigger] children[i]).key_max,
                            key,
                        ) by {
                            assert(bound_le(children[mid as int].key_max, children[i].key_max));
                        }
                    }
                }
                upper = mid;
            } else {
                proof {
                    if bounds_sorted(children) {
                        assert forall|i: int| 0 <= i < mid + 1 implies !bound_geq(
                            (#[trigger] children[i]).key_max,
                            key,
                        ) by {
                            assert(bound_le(children[i].key_max, children[mid as int].key_max));
                        }
                    }
                    if none_last(children) && mid + 1 == children.len() {
                        assert(children.last().key_max is None);
                    }
                }
                lower = mid + 1;
            }
        }
        proof {
            if bounds_sorted(children) {
                lemma_child_idx_unique(children, key, lower as int);
            }
        }
        lower
    }

    /// The child responsible for `key`: the first whose bound covers it, or
    /// the rightmost when none does.
    pub fn find_child_and(&self, key_max: u32) -> (r: Child)
        requires
            self@.children.len() > 0,
        ensures
            exists|i: int| 0 <= i < self@.children.len() && r == self@.children[i],
            bounds_sorted(self@.children) ==> ({
                let idx = spec_child_idx(self@.children, key_max);
                r == self@.children[if idx < self@.children.len() {
                    idx
                } else {
                    self@.children.len() - 1
                }]
            }),
    {
        let mut idx = self.search_child_idx_by_key(key_max);
        if idx >= self.children.len() {
            idx = self.children.len() - 1;
        }
        let r = self.children[idx];
        proof {
            assert(r == self@.children[idx as int]);
        }
        r
    }

    /// Replace the child responsible for `key_max` by `ch_new`, handing the
    /// previous entry back.
    pub fn find_mut_child_and(&mut self, key_max: u32, ch_new: Child) -> (r: Child)
        requires
            old(self)@.children.len() > 0,
        ensures
            exists|i: int|
                {
                    &&& 0 <= i < old(self)@.children.len()
                    &&& r == old(self)@.children[i]
                    &&& final(self)@ == (InternV {
                        children: old(self)@.children.update(i, ch_new),
                        ..old(self)@
                    })
                },
            bounds_sorted(old(self)@.children) ==> ({
                let s = spec_child_idx(old(self)@.children, key_max);
                let idx = if s < old(self)@.children.len() {
                    s
                } else {
                    old(self)@.children.len() - 1
                };
                r == old(self)@.children[idx] && final(self)@ == (InternV {
                    children: old(self)@.children.update(idx, ch_new),
                    ..old(self)@
                })
            }),
    {
        let mut idx = self.search_child_idx_by_key(key_max);
        if idx >= self.children.len() {
            idx = self.children.len() - 1;
        }
        let r = self.children[idx];
        self.children.set(idx, ch_new);
        proof {
            let i = idx as int;
            assert(0 <= i < old(self)@.children.len() && r == old(self)@.children[i]
                && final(self)@ == (InternV {
                children: old(self)@.children.update(i, ch_new),
                ..old(self)@
            }));
        }
        r
    }

    /// Insert a bounded child in bound order; a full node is reported so the
    /// caller can split.  The implicit bound, if present, stays rightmost.
    pub fn insert_child(&mut self, pg_idx: usize, key_max: u32) -> (r: Result<(), ExecErr>)
        requires
            pg_idx < 0x1_0000_0000,
        ensures
            old(self)@.children.len() >= CHILD_MAX ==> (r matches Err(e) && e is InternNodeFull
                && final(self)@ == old(self)@),
            old(self)@.children.len() < CHILD_MAX ==> (r is Ok
                && final(self)@.is_root == old(self)@.is_root
                && final(self)@.parent == old(self)@.parent && exists|idx: int|
                {
                    &&& 0 <= idx <= old(self)@.children.len()
                    &&& (none_last(old(self)@.children) && old(self)@.children.len() > 0 ==> idx
                        < old(self)@.children.len())
                    &&& final(self)@.children == #[trigger] old(self)@.children.insert(
                        idx,
                        Child { pg_idx, key_max: Some(key_max) },
                    )
                }),
            old(self)@.children.len() < CHILD_MAX && bounds_sorted(old(self)@.children) ==> {
                &&& final(self)@ == (InternV {
                    children: old(self)@.children.insert(
                        spec_child_idx(old(self)@.children, key_max),
                        Child { pg_idx, key_max: Some(key_max) },
                    ),
                    ..old(self)@
                })
                &&& bounds_sorted(final(self)@.children)
            },
    {
        if self.children.len() >= CHILD_MAX {
            return Err(ExecErr::InternNodeFull(String::from_str("Intern node full")));
        }
        let idx = self.search_child_idx_by_key(key_max);
        let ch = Child { pg_idx, key_max: Some(key_max) };
        self.children.insert(idx, ch);
        proof {
            let old_ch = old(self)@.children;
            let i = idx as int;
            assert(final(self)@ == (InternV { children: old_ch.insert(i, ch), ..old(self)@ }));
            if bounds_sorted(old_ch) {
                lemma_child_idx_bounds(old_ch, key_max);
                let new_ch = old_ch.insert(i, ch);
                assert forall|a: int, b: int| 0 <= a < b < new_ch.len() implies bound_le(
                    new_ch[a].key_max,
                    new_ch[b].key_max,
                ) by {
                    let aa = if a < i {
                        a
                    } else {
                        a - 1
                    };
                    let bb = if b < i {
                        b
                    } else {
                        b - 1
                    };
                    if a == i {
                        assert(new_ch[b] == old_ch[bb]);
                        if bb > i {
                            assert(bound_le(old_ch[i].key_max, old_ch[bb].key_max));
                        }
                        assert(bound_geq(old_ch[bb].key_max, key_max));
                    } else if b == i {
                        assert(new_ch[a] == old_ch[aa]);
                        assert(!bound_geq(old_ch[aa].key_max, key_max));
                    } else {
                        assert(new_ch[a] == old_ch[aa]);
                        assert(new_ch[b] == old_ch[bb]);
                    }
                }
            }
        }
        Ok(())
    }

    /// Insert into a full node by splitting at the midpoint: `self` keeps
    /// the left half, whose last child becomes the new implicit-bound child;
    /// the returned right node takes the upper half.
    pub fn insert_child_and_split(&mut self, pg_idx: usize, key_max: u32) -> (r: Result<
        Intern,
        ExecErr,
    >)
        requires
            old(self)@.children.len() == CHILD_MAX,
            none_last(old(self)@.children),
            pg_idx < 0x1_0000_0000,
        ensures
            pages_in_range(old(self)@.children) ==> (pages_in_range(final(self)@.children) && (
            r matches Ok(right2) ==> pages_in_range(right2@.children))),
            bounds_sorted(old(self)@.children) ==> (bounds_sorted(final(self)@.children) && (
            r matches Ok(right3) ==> bounds_sorted(right3@.children))),
            r matches Ok(right) && exists|idx: int|
                {
                    let combined = #[trigger] old(self)@.children.insert(
                        idx,
                        Child { pg_idx, key_max: Some(key_max) },
                    );
                    let left = combined.subrange(0, SPLIT_IDX as int);
                    &&& 0 <= idx < old(self)@.children.len()
                    &&& final(self)@ == (InternV {
                        children: left.update(
                            SPLIT_IDX - 1,
                            Child { pg_idx: left.last().pg_idx, key_max: None },
                        ),
                        ..old(self)@
                    })
                    &&& right@ == (InternV {
                        is_root: false,
                        parent: old(self)@.parent,
                        children: combined.subrange(SPLIT_IDX as int, combined.len() as int),
                    })
                    &&& (bounds_sorted(old(self)@.children) ==> idx == spec_child_idx(
                        old(self)@.children,
                        key_max,
                    ))
                    &&& none_last(final(self)@.children)
                    &&& none_last(right@.children)
                    &&& final(self)@.children.len() == SPLIT_IDX
                    &&& right@.children.len() == CHILD_MAX + 1 - SPLIT_IDX
                },
    {
        proof {
            lemma_intern_consts();
        }
        let idx = self.search_child_idx_by_key(key_max);
        let ch = Child { pg_idx, key_max: Some(key_max) };
        self.children.insert(idx, ch);
        let ghost combined = old(self)@.children.insert(idx as int, ch);
        let mut upper: Vec<Child> = Vec::new();
        let mut i: usize = SPLIT_IDX;
        while i < self.children.len()
            invariant
                SPLIT_IDX <= i <= self@.children.len(),
                self@.children == combined,
                combined.len() == CHILD_MAX + 1,
                CHILD_MAX == 511,
                SPLIT_IDX == 256,
                upper@ == combined.subrange(SPLIT_IDX as int, i as int),
            decreases self@.children.len() - i,
        {
            let c = self.children[i];
            upper.push(c);
            i = i + 1;
            proof {
                assert(upper@ =~= combined.subrange(SPLIT_IDX as int, i as int));
            }
        }
        self.children.truncate(SPLIT_IDX);
        proof {
            assert(self@.children =~= combined.subrange(0, SPLIT_IDX as int));
        }
        let last_pg = self.children[SPLIT_IDX - 1].pg_idx;
        self.children.set(SPLIT_IDX - 1, Child { pg_idx: last_pg, key_max: None });
        let r = Intern { is_root: false, parent: self.parent, children: upper };
        proof {
            let left = combined.subrange(0, SPLIT_IDX as int);
            let right = combined.subrange(SPLIT_IDX as int, combined.len() as int);
            assert(upper@ =~= right);
            assert(self@.children =~= left.update(
                SPLIT_IDX - 1,
                Child { pg_idx: left.last().pg_idx, key_max: None },
            ));
            let old_ch = old(self)@.children;
            assert forall|k: int| 0 <= k < combined.len() - 1 implies (#[trigger] combined[k])
                .key_max is Some by {
                let kk = if k < idx {
                    k
                } else {
                    k - 1
                };
                if k != idx {
                    assert(combined[k] == old_ch[kk]);
                    assert(old_ch.last().key_max is None ==> kk < old_ch.len() - 1);
                }
            }
            assert(combined.last() == old_ch.last());
            assert(none_last(self@.children));
            assert(none_last(right));
            if bounds_sorted(old_ch) {
                lemma_child_idx_bounds(old_ch, key_max);
                assert(bound_geq(old_ch.last().key_max, key_max));
                lemma_child_idx_unique(old_ch, key_max, idx as int);
            }
            if bounds_sorted(old_ch) {
                lemma_child_idx_bounds(old_ch, key_max);
                assert forall|a: int, b: int| 0 <= a < b < combined.len() implies bound_le(
                    combined[a].key_max,
                    combined[b].key_max,
                ) by {
                    let aa = if a < idx {
                        a
                    } else {
                        a - 1
                    };
                    let bb = if b < idx {
                        b
                    } else {
                        b - 1
                    };
                    if a == idx {
                        assert(combined[b] == old_ch[bb]);
                        if bb > idx {
                            assert(bound_le(old_ch[idx as int].key_max, old_ch[bb].key_max));
                        }
                        assert(bound_geq(old_ch[bb].key_max, key_max));
                    } else if b == idx {
                        assert(combined[a] == old_ch[aa]);
                        assert(!bound_geq(old_ch[aa].key_max, key_max));
                    } else {
                        assert(combined[a] == old_ch[aa]);
                        assert(combined[b] == old_ch[bb]);
                    }
                }
                assert(bounds_sorted(combined));
                assert forall|a: int, b: int| 0 <= a < b < self@.children.len() implies bound_le(
                    self@.children[a].key_max,
                    self@.children[b].key_max,
                ) by {
                    if b < SPLIT_IDX - 1 {
                        assert(self@.children[a] == combined[a]);
                        assert(self@.children[b] == combined[b]);
                    } else {
                        assert(self@.children[a] == combined[a]);
                    }
                }
                assert(bounds_sorted(self@.children));
                assert forall|a: int, b: int| 0 <= a < b < right.len() implies bound_le(
                    right[a].key_max,
                    right[b].key_max,
                ) by {
                    assert(right[a] == combined[SPLIT_IDX + a]);
                    assert(right[b] == combined[SPLIT_IDX + b]);
                }
                assert(bounds_sorted(right));
            }
            if pages_in_range(old_ch) {
                assert forall|k: int| 0 <= k < combined.len() implies (
                #[trigger] combined[k]).pg_idx < 0x1_0000_0000 by {
                    if k < idx {
                        assert(combined[k] == old_ch[k]);
                    } else if k > idx {
                        assert(combined[k] == old_ch[k - 1]);
                    }
                }
                assert forall|k: int| 0 <= k < self@.children.len() implies (
                #[trigger] self@.children[k]).pg_idx < 0x1_0000_0000 by {
                    if k < SPLIT_IDX - 1 {
                        assert(self@.children[k] == combined[k]);
                    } else {
                        assert(self@.children[k].pg_idx == combined[k].pg_idx);
                    }
                }
                assert forall|k: int| 0 <= k < right.len() implies (#[trigger] right[k]).pg_idx
                    < 0x1_0000_0000 by {
                    assert(right[k] == combined[SPLIT_IDX + k]);
                }
                assert(pages_in_range(self@.children));
                assert(pages_in_range(r@.children));
            }
            assert(exists|ix: int|
                {
                    let combined2 = #[trigger] old(self)@.children.insert(
                        ix,
                        Child { pg_idx, key_max: Some(key_max) },
                    );
                    let left2 = combined2.subrange(0, SPLIT_IDX as int);
                    &&& 0 <= ix < old(self)@.children.len()
                    &&& final(self)@ == (InternV {
                        children: left2.update(
                            SPLIT_IDX - 1,
                            Child { pg_idx: left2.last().pg_idx, key_max: None },
                        ),
                        ..old(self)@
                    })
                    &&& r@ == (InternV {
                        is_root: false,
                        parent: old(self)@.parent,
                        children: combined2.subrange(SPLIT_IDX as int, combined2.len() as int),
                    })
                    &&& (bounds_sorted(old(self)@.children) ==> ix == spec_child_idx(
                        old(self)@.children,
                        key_max,
                    ))
                    &&& none_last(final(self)@.children)
                    &&& none_last(r@.children)
                    &&& final(self)@.children.len() == SPLIT_IDX
                    &&& r@.children.len() == CHILD_MAX + 1 - SPLIT_IDX
                }) by {
                let witness = idx as int;
                assert(0 <= witness < old(self)@.children.len());
            }
        }
        Ok(r)
    }

    /// Encode the node into its page image.
    pub fn serialize(&self) -> (r: Vec<u8>)
        requires
            Self::children_ok(self@),
        ensures
            r@ == spec_intern_bytes(self@),
            r@.len() == PAGE_SIZE,
    {
        proof {
            lemma_intern_consts();
            lemma_entries_bytes_len(self@.children.drop_last());
        }
        let mut buf: Vec<u8> = Vec::new();
        write_bool_to(&mut buf, false);
        write_bool_to(&mut buf, self.is_root);
        match self.parent {
            None => write_opt_u32_to(&mut buf, None),
            Some(p) => write_opt_u32_to(&mut buf, Some(p as u32)),
        }
        let num_keys = self.children.len() - 1;
        write_opt_u32_to(&mut buf, Some(num_keys as u32));
        write_opt_u32_to(&mut buf, Some(self.children[num_keys].pg_idx as u32));
        let ghost header = seq![0u8] + seq![bool_byte(self@.is_root)] + be32(
            opt_page(self@.parent),
        ) + be32((self@.children.len() - 1) as u32) + be32(self@.children.last().pg_idx as u32);
        proof {
            assert(buf@ =~= header);
        }
        let mut i: usize = 0;
        while i < num_keys
            invariant
                Self::children_ok(self@),
                num_keys == self@.children.len() - 1,
                i <= num_keys,
                header == seq![0u8] + seq![bool_byte(self@.is_root)] + be32(opt_page(self@.parent))
                    + be32((self@.children.len() - 1) as u32) + be32(
                    self@.children.last().pg_idx as u32,
                ),
                buf@ == header + spec_entries_bytes(self@.children.drop_last().subrange(
                    0,
                    i as int,
                )),
            decreases num_keys - i,
        {
            let ghost pre = self@.children.drop_last().subrange(0, i as int);
            let ch = self.children[i];
            write_opt_u32_to(&mut buf, Some(ch.pg_idx as u32));
            write_opt_u32_to(&mut buf, ch.key_max);
            i = i + 1;
            proof {
                let cur = self@.children.drop_last().subrange(0, i as int);
                assert(cur.drop_last() =~= pre);
                assert(cur.last() == self@.children[i - 1]);
                assert(spec_entries_bytes(cur) == spec_entries_bytes(pre) + spec_entry_bytes(
                    self@.children[i - 1],
                ));
                assert(buf@ =~= header + spec_entries_bytes(cur));
            }
        }
        proof {
            assert(self@.children.drop_last().subrange(0, num_keys as int)
                =~= self@.children.drop_last());
            assert(buf@.len() == HEADER_SIZE + CHILD_SIZE * (self@.children.len() - 1));
            assert(CHILD_SIZE * (self@.children.len() - 1) <= CHILD_SIZE * (CHILD_MAX - 1))
                by (nonlinear_arith)
                requires
                    self@.children.len() <= CHILD_MAX,
                    CHILD_SIZE == 8,
            ;
        }
        pad_zeroes_to(&mut buf, PAGE_SIZE);
        proof {
            assert(buf@ =~= spec_intern_bytes(self@));
        }
        buf
    }

    /// Decode an internal node from its page image; a bound count beyond the
    /// node capacity is refused as a corrupt page.
    pub fn new_from_page(page: &Vec<u8>) -> (r: Result<Self, ExecErr>)
        requires
            page@.len() == PAGE_SIZE,
        ensures
            match r {
                Ok(v) => spec_intern_of_bytes(page@) == Some(v@),
                Err(e) => spec_intern_of_bytes(page@) is None && e is NodeError,
            },
    {
        proof {
            lemma_intern_consts();
        }
        let is_root = read_bool_from(page, 1);
        let parent: Option<usize> = if is_root {
            None
        } else {
            Some(read_u32_at(page, 2) as usize)
        };
        let num_keys = read_u32_at(page, 6);
        if num_keys >= CHILD_MAX as u32 {
            return Err(ExecErr::NodeError(String::from_str("Corrupt page: node overflow")));
        }
        let num_keys = num_keys as usize;
        let right_pg = read_u32_at(page, 10) as usize;
        let mut children: Vec<Child> = Vec::new();
        let mut i: usize = 0;
        while i < num_keys
            invariant
                page@.len() == PAGE_SIZE,
                num_keys < CHILD_MAX,
                CHILD_MAX == 511,
                CHILD_SIZE == 8,
                i <= num_keys,
                children@.len() == i,
                forall|k: int| 0 <= k < i ==> (#[trigger] children@[k]) == spec_entry_of_bytes(
                    page@,
                    k,
                ),
            decreases num_keys - i,
        {
            let pos = HEADER_SIZE + CHILD_SIZE * i;
            let pg_idx = read_u32_at(page, pos) as usize;
            let key = read_u32_at(page, pos + 4);
            children.push(Child { pg_idx, key_max: Some(key) });
            i = i + 1;
            proof {
                assert(children@[i - 1] == spec_entry_of_bytes(page@, i - 1));
            }
        }
        children.push(Child { pg_idx: right_pg, key_max: None });
        let r = Intern { is_root, parent, children };
        proof {
            assert(r@.children =~= Seq::new(
                num_keys as nat,
                |k: int| spec_entry_of_bytes(page@, k),
            ).push(Child { pg_idx: right_pg, key_max: None }));
        }
        Ok(r)
    }

    /// Check well-formedness of a decoded node, for validation at open.
    pub fn check_wf(&self) -> (b: bool)
        ensures
            b == Self::wf_v(self@),
    {
        if self.children.len() < 2 || self.children.len() > CHILD_MAX {
            return false;
        }
        match self.parent {
            Some(p) => {
                if self.is_root {
                    return false;
                }
                if !((p as u64) < 0x1_0000_0000u64) {
                    return false;
                }
            },
            None => {
                if !self.is_root {
                    return false;
                }
            },
        }
        let mut i: usize = 0;
        while i < self.children.len()
            invariant
                i <= self@.children.len(),
                forall|k: int| 0 <= k < i ==> (#[trigger] self@.children[k]).pg_idx
                    < 0x1_0000_0000,
                forall|k: int| 0 <= k < i && k < self@.children.len() - 1 ==> (
                #[trigger] self@.children[k]).key_max is Some,
                forall|k: int| 0 <= k < i && k == self@.children.len() - 1
                    ==> self@.children[k].key_max is None,
                forall|a: int, b: int| 0 <= a < b < i ==> bound_le(
                    self@.children[a].key_max,
                    self@.children[b].key_max,
                ),
            decreases self@.children.len() - i,
        {
            if !((self.children[i].pg_idx as u64) < 0x1_0000_0000u64) {
                proof {
                    assert(self@.children[i as int].pg_idx >= 0x1_0000_0000);
                }
                return false;
            }
            if i > 0 {
                let prev = self.children[i - 1].key_max;
                let here = self.children[i].key_max;
                let ordered = match here {
                    None => true,
                    Some(vb) => match prev {
                        None => false,
                        Some(va) => va <= vb,
                    },
                };
                if !ordered {
                    proof {
                        assert(!bound_le(
                            self@.children[i - 1].key_max,
                            self@.children[i as int].key_max,
                        ));
                    }
                    return false;
                }
                proof {
                    assert forall|a: int, b: int| 0 <= a < b < i + 1 implies bound_le(
                        self@.children[a].key_max,
                        self@.children[b].key_max,
                    ) by {
                        if b == i {
                            if a < i - 1 {
                                assert(bound_le(
                                    self@.children[a].key_max,
                                    self@.children[i - 1].key_max,
                                ));
                            }
                        }
                    }
                }
            }
            let is_last = i == self.children.len() - 1;
            match self.children[i].key_max {
                Some(_) => {
                    if is_last {
                        proof {
                            assert(self@.children.last().key_max is Some);
                        }
                        return false;
                    }
                },
                None => {
                    if !is_last {
                        proof {
                            assert(self@.children[i as int].key_max is None);
                        }
                        return false;
                    }
                },
            }
            i = i + 1;
        }
        true
    }

    /// The pages of all children, in order.
    pub fn child_pages(&self) -> (r: Vec<usize>)
        ensures
            r@ == self@.children.map_values(|c: Child| c.pg_idx),
    {
        let mut r: Vec<usize> = Vec::new();
        let mut i: usize = 0;
        while i < self.children.len()
            invariant
                i <= self@.children.len(),
                r@ == self@.children.subrange(0, i as int).map_values(|c: Child| c.pg_idx),
            decreases self@.children.len() - i,
        {
            r.push(self.children[i].pg_idx);
            i = i + 1;
            proof {
                assert(r@ =~= self@.children.subrange(0, i as int).map_values(
                    |c: Child| c.pg_idx,
                ));
            }
        }
        proof {
            assert(self@.children.subrange(0, self@.children.len() as int) =~= self@.children);
        }
        r
    }
}

} // verus!
