//! The pager owns every node of the tree, indexed by page number.  All pages
//! are held decoded in memory; the driver hands the raw file bytes in at
//! open and writes the re-encoded bytes back at close, so the pager itself
//! performs no I/O.

use crate::btree::node::{node_wf, spec_node_bytes, spec_node_of_bytes, Node, NodeV};
use crate::error::ExecErr;
use vstd::prelude::*;

verus! {

/// Size in bytes of one page, the unit of I/O; one node per page.
pub const PAGE_SIZE: usize = 4096;

/// Upper bound on the number of pages, in the cache and in the file alike.
pub const MAX_PAGES: usize = 100;

/// The views of a run of nodes.
pub open spec fn nodes_view(nodes: Seq<Node>) -> Seq<NodeV> {
    nodes.map_values(|n: Node| n@)
}

/// The byte image of page `i` within a whole-file image.
pub open spec fn spec_block_at(data: Seq<u8>, i: int) -> Seq<u8> {
    data.subrange(PAGE_SIZE * i, PAGE_SIZE * (i + 1))
}

/// A whole-file image holds a legal database: whole pages, within the page
/// budget, each decoding to a well-formed node.
pub open spec fn blocks_ok(data: Seq<u8>) -> bool {
    &&& data.len() % (PAGE_SIZE as nat) == 0
    &&& data.len() / (PAGE_SIZE as nat) <= MAX_PAGES
    &&& forall|i: int| 0 <= i < data.len() / (PAGE_SIZE as nat) ==> match spec_node_of_bytes(
        #[trigger] spec_block_at(data, i),
    ) {
        Some(v) => node_wf(v),
        None => false,
    }
}

/// The concatenated page images of a run of nodes.
pub open spec fn spec_pages_bytes(pages: Seq<NodeV>) -> Seq<u8>
    decreases pages.len(),
{
    if pages.len() == 0 {
        Seq::empty()
    } else {
        spec_pages_bytes(pages.drop_last()) + spec_node_bytes(pages.last())
    }
}

/// A file image of well-formed nodes occupies `PAGE_SIZE` bytes per page.
pub proof fn lemma_pages_bytes_len(pages: Seq<NodeV>)
    requires
        forall|i: int| 0 <= i < pages.len() ==> node_wf(#[trigger] pages[i]),
    ensures
        spec_pages_bytes(pages).len() == PAGE_SIZE * pages.len(),
    decreases pages.len(),
{
    if pages.len() == 0 {
    } else {
        lemma_pages_bytes_len(pages.drop_last());
        crate::btree::node::lemma_node_round_trip(pages.last());
    }
}

/// Page `i` of the encoded file image holds exactly the bytes of node `i`.
pub proof fn lemma_pages_bytes_index(pages: Seq<NodeV>, i: int)
    requires
        forall|k: int| 0 <= k < pages.len() ==> node_wf(#[trigger] pages[k]),
        0 <= i < pages.len(),
    ensures
        spec_block_at(spec_pages_bytes(pages), i) == spec_node_bytes(pages[i]),
    decreases pages.len(),
{
    lemma_pages_bytes_len(pages);
    lemma_pages_bytes_len(pages.drop_last());
    crate::btree::node::lemma_node_round_trip(pages.last());
    if i == pages.len() - 1 {
        assert(spec_block_at(spec_pages_bytes(pages), i) =~= spec_node_bytes(pages.last()));
    } else {
        lemma_pages_bytes_index(pages.drop_last(), i);
        assert(PAGE_SIZE * (i + 1) <= PAGE_SIZE * (pages.len() - 1)) by (nonlinear_arith)
            requires
                i + 1 <= pages.len() - 1,
                PAGE_SIZE == 4096,
        ;
        assert(spec_block_at(spec_pages_bytes(pages), i) =~= spec_block_at(
            spec_pages_bytes(pages.drop_last()),
            i,
        ));
    }
}

/// Encoding well-formed pages and reading the image back yields the pages.
pub proof fn lemma_pages_round_trip(pages: Seq<NodeV>)
    requires
        forall|i: int| 0 <= i < pages.len() ==> node_wf(#[trigger] pages[i]),
        pages.len() <= MAX_PAGES,
    ensures
        blocks_ok(spec_pages_bytes(pages)),
        spec_pages_bytes(pages).len() / (PAGE_SIZE as nat) == pages.len(),
        forall|i: int| 0 <= i < pages.len() ==> spec_node_of_bytes(
            #[trigger] spec_block_at(spec_pages_bytes(pages), i),
        ) == Some(pages[i]),
    decreases pages.len(),
{
    lemma_pages_bytes_len(pages);
    let data = spec_pages_bytes(pages);
    assert(data.len() == PAGE_SIZE * pages.len());
    assert(data.len() % (PAGE_SIZE as nat) == 0 && data.len() / (PAGE_SIZE as nat)
        == pages.len()) by (nonlinear_arith)
        requires
            PAGE_SIZE == 4096,
            data.len() == PAGE_SIZE * pages.len(),
    ;
    assert forall|i: int| 0 <= i < pages.len() implies spec_node_of_bytes(
        #[trigger] spec_block_at(data, i),
    ) == Some(pages[i]) by {
        lemma_pages_bytes_index(pages, i);
        crate::btree::node::lemma_node_round_trip(pages[i]);
    }
}

/// In-memory store of every page of the database, each held decoded.
pub struct Pager {
    pages: Vec<Node>,
}

impl View for Pager {
    type V = Seq<NodeV>;

    closed spec fn view(&self) -> Seq<NodeV> {
        nodes_view(self.pages@)
    }
}

impl Pager {
    /// Every held node is well formed and the page budget is respected.
    pub open spec fn wf(&self) -> bool {
        &&& self@.len() <= MAX_PAGES
        &&& forall|i: int| 0 <= i < self@.len() ==> node_wf(#[trigger] self@[i])
    }

    /// An empty pager, for a fresh database.
    pub fn new() -> (r: Self)
        ensures
            r@ == Seq::<NodeV>::empty(),
            r.wf(),
    {
        let r = Self { pages: Vec::new() };
        proof {
            assert(r@ =~= Seq::<NodeV>::empty());
        }
        r
    }

    /// Decode a whole-file image: split it into pages, decode each node and
    /// validate it.  Rejects an image that is not a whole number of pages,
    /// exceeds the page budget, or holds a corrupt or ill-formed page.
    pub fn from_bytes(data: &Vec<u8>) -> (r: Result<Self, ExecErr>)
        ensures
            match r {
                Ok(p) => {
                    &&& blocks_ok(data@)
                    &&& p.wf()
                    &&& p@.len() == data@.len() / (PAGE_SIZE as nat)
                    &&& forall|i: int| 0 <= i < p@.len() ==> spec_node_of_bytes(
                        #[trigger] spec_block_at(data@, i),
                    ) == Some(p@[i])
                },
                Err(_) => !blocks_ok(data@),
            },
    {
        let len = data.len();
        if len % PAGE_SIZE != 0 {
            return Err(
                ExecErr::IoError(
                    String::from_str("Db file is not a whole number of pages. Corrupt file."),
                ),
            );
        }
        let n = len / PAGE_SIZE;
        if n > MAX_PAGES {
            return Err(ExecErr::PagerFull(String::from_str("Pager full")));
        }
        let mut pages: Vec<Node> = Vec::new();
        let mut i: usize = 0;
        proof {
            assert(PAGE_SIZE * n == len) by (nonlinear_arith)
                requires
                    PAGE_SIZE == 4096,
                    len % PAGE_SIZE == 0,
                    n == len / PAGE_SIZE,
            ;
        }
        while i < n
            invariant
                data@.len() == PAGE_SIZE * n,
                n == data@.len() / (PAGE_SIZE as nat),
                n <= MAX_PAGES,
                i <= n,
                pages@.len() == i,
                forall|k: int| 0 <= k < i ==> spec_node_of_bytes(#[trigger] spec_block_at(data@, k))
                    == Some(nodes_view(pages@)[k]),
                forall|k: int| 0 <= k < i ==> node_wf(#[trigger] nodes_view(pages@)[k]),
            decreases n - i,
        {
            proof {
                assert(PAGE_SIZE * i + PAGE_SIZE == PAGE_SIZE * (i + 1));
                assert(PAGE_SIZE * (i + 1) <= PAGE_SIZE * n) by (nonlinear_arith)
                    requires
                        i + 1 <= n,
                        PAGE_SIZE == 4096,
                ;
            }
            let block = crate::btree::utils::read_bytes_from(data, PAGE_SIZE * i, PAGE_SIZE);
            proof {
                assert(block@ =~= spec_block_at(data@, i as int));
            }
            let node = match Node::new_from_page(&block) {
                Ok(nd) => nd,
                Err(e) => {
                    return Err(e);
                },
            };
            if !node.check_wf() {
                return Err(ExecErr::NodeError(String::from_str("Corrupt page: bad node")));
            }
            let ghost nv = node@;
            let ghost pages_pre = pages@;
            pages.push(node);
            i = i + 1;
            proof {
                assert(nodes_view(pages@)[i - 1] == nv);
                assert forall|k: int| 0 <= k < i implies node_wf(
                    #[trigger] nodes_view(pages@)[k],
                ) by {
                    if k < i - 1 {
                        assert(pages@[k] == pages_pre[k]);
                        assert(nodes_view(pages@)[k] == nodes_view(pages_pre)[k]);
                    }
                }
                assert forall|k: int| 0 <= k < i implies spec_node_of_bytes(
                    #[trigger] spec_block_at(data@, k),
                ) == Some(nodes_view(pages@)[k]) by {
                    if k < i - 1 {
                        assert(pages@[k] == pages_pre[k]);
                        assert(nodes_view(pages@)[k] == nodes_view(pages_pre)[k]);
                    }
                }
            }
        }
        let r = Self { pages };
        Ok(r)
    }

    /// Encode every page back into one whole-file image.
    pub fn flush(&self) -> (r: Vec<u8>)
        requires
            self.wf(),
        ensures
            r@ == spec_pages_bytes(self@),
            r@.len() == PAGE_SIZE * self@.len(),
    {
        proof {
            lemma_pages_bytes_len(self@);
        }
        let mut buf: Vec<u8> = Vec::new();
        let mut i: usize = 0;
        while i < self.pages.len()
            invariant
                self.wf(),
                self@.len() == self.pages@.len(),
                i <= self@.len(),
                buf@ == spec_pages_bytes(self@.subrange(0, i as int)),
            decreases self@.len() - i,
        {
            let ghost pre = self@.subrange(0, i as int);
            proof {
                assert(self@[i as int] == self.pages@[i as int]@);
                assert(node_wf(self@[i as int]));
            }
            let block = self.pages[i].serialize();
            crate::btree::utils::write_bytes_to(&mut buf, &block);
            i = i + 1;
            proof {
                let cur = self@.subrange(0, i as int);
                assert(cur.drop_last() =~= pre);
                assert(cur.last() == self@[i - 1]);
                assert(spec_pages_bytes(cur) == spec_pages_bytes(pre) + spec_node_bytes(
                    self@[i - 1],
                ));
            }
        }
        proof {
            assert(self@.subrange(0, self@.len() as int) =~= self@);
        }
        buf
    }

    /// Number of pages held; pages are dense, so this is also the next free
    /// page number.
    pub fn size(&self) -> (r: usize)
        ensures
            r == self@.len(),
    {
        self.pages.len()
    }

    /// Append a node at the next free page number.
    pub fn push_node(&mut self, node: Node) -> (r: Result<(), ExecErr>)
        ensures
            old(self)@.len() < MAX_PAGES ==> (r is Ok && final(self)@ == old(self)@.push(node@)),
            old(self)@.len() >= MAX_PAGES ==> (r matches Err(e) && e is PagerFull && final(self)@
                == old(self)@),
    {
        if self.pages.len() >= MAX_PAGES {
            return Err(ExecErr::PagerFull(String::from_str("Pager full")));
        }
        self.pages.push(node);
        proof {
            assert(self@ =~= old(self)@.push(node@));
        }
        Ok(())
    }

    /// Borrow the node at a page.
    pub fn get_node(&self, pg_idx: usize) -> (r: &Node)
        requires
            pg_idx < self@.len(),
        ensures
            r@ == self@[pg_idx as int],
    {
        &self.pages[pg_idx]
    }

    /// Borrow the node at a page mutably.
    pub fn get_node_mut(&mut self, pg_idx: usize) -> (r: &mut Node)
        requires
            pg_idx < old(self)@.len(),
        ensures
            r@ == old(self)@[pg_idx as int],
            final(self)@ == old(self)@.update(pg_idx as int, final(r)@),
    {
        proof {
            assert(nodes_view(self.pages@.update(pg_idx as int, self.pages@[pg_idx as int]))
                =~= nodes_view(self.pages@));
        }
        &mut self.pages[pg_idx]
    }

    /// Replace the node at a page, handing the previous one back.
    pub fn replace_node(&mut self, pg_idx: usize, node: Node) -> (r: Node)
        requires
            pg_idx < old(self)@.len(),
        ensures
            r@ == old(self)@[pg_idx as int],
            final(self)@ == old(self)@.update(pg_idx as int, node@),
    {
        let mut node = node;
        let ghost inserted = node@;
        self.pages.set_and_swap(pg_idx, &mut node);
        proof {
            assert(self@ =~= old(self)@.update(pg_idx as int, inserted));
        }
        node
    }
}

} // verus!
