//! Leaf nodes: an ordered run of (key, row) cells plus the leaf-chain link.
//!
//! Keys inside a leaf are strictly increasing.  A full leaf holds
//! `MAX_CELLS` cells; inserting into a full leaf splits it into a left half
//! of `SPLIT_IDX` cells and a right sibling holding the rest.

use crate::btree::utils::{
    be32, be32_opt_val, be32_val, bool_byte, lemma_be32_round_trip, pad_zeroes_to, read_bool_from,
    read_bytes_from, read_u32_at, read_u32_from, write_bool_to, write_bytes_to, write_opt_u32_to,
    zeroes,
};
use crate::error::ExecErr;
use crate::pager::PAGE_SIZE;
use crate::row::ROW_SIZE;
use vstd::prelude::*;

verus! {

/// Bytes of the leaf header: node type, root flag, parent page, next-leaf
/// page and cell count.
pub const HEADER_SIZE: usize = 1 + 1 + 4 + 4 + 4;

/// Bytes of one cell: a 32-bit key followed by the packed row.
pub const CELL_SIZE: usize = 4 + ROW_SIZE;

/// How many cells fit in the page space left after the header.
pub const MAX_CELLS: usize = (PAGE_SIZE - HEADER_SIZE) / CELL_SIZE;

/// After a split the left leaf keeps cell indices `0 .. SPLIT_IDX`.
pub const SPLIT_IDX: usize = MAX_CELLS / 2 + 1;

/// The concrete values of the derived capacity constants.
pub proof fn lemma_leaf_consts()
    ensures
        CELL_SIZE == 295,
        MAX_CELLS == 13,
        SPLIT_IDX == 7,
{
    assert(4082nat / 295 == 13) by (nonlinear_arith);
}

/// One (key, row) pair of a leaf.
pub struct Cell {
    pub key: u32,
    pub row: Vec<u8>,
}

/// The mathematical content of a cell.
#[verifier::ext_equal]
pub struct CellV {
    pub key: u32,
    pub row: Seq<u8>,
}

impl View for Cell {
    type V = CellV;

    open spec fn view(&self) -> CellV {
        CellV { key: self.key, row: self.row@ }
    }
}

/// A leaf node.  `parent` and `next` are page numbers; the root has no
/// parent and the rightmost leaf has no next.
pub struct Leaf {
    pub is_root: bool,
    pub parent: Option<usize>,
    pub next: Option<usize>,
    pub cells: Vec<Cell>,
}

/// The mathematical content of a leaf.
#[verifier::ext_equal]
pub struct LeafV {
    pub is_root: bool,
    pub parent: Option<usize>,
    pub next: Option<usize>,
    pub cells: Seq<CellV>,
}

impl View for Leaf {
    type V = LeafV;

    open spec fn view(&self) -> LeafV {
        LeafV {
            is_root: self.is_root,
            parent: self.parent,
            next: self.next,
            cells: cells_view(self.cells@),
        }
    }
}

/// The views of a run of cells.
pub open spec fn cells_view(cells: Seq<Cell>) -> Seq<CellV> {
    cells.map_values(|c: Cell| c@)
}

/// The keys of a run of cells, in cell order.
pub open spec fn leaf_keys(cells: Seq<CellV>) -> Seq<u32> {
    cells.map_values(|c: CellV| c.key)
}

/// Keys are strictly increasing.
pub open spec fn keys_sorted(cells: Seq<CellV>) -> bool {
    forall|i: int, j: int| 0 <= i < j < cells.len() ==> cells[i].key < cells[j].key
}

/// Some cell holds `key`.
pub open spec fn leaf_contains_key(cells: Seq<CellV>, key: u32) -> bool {
    exists|i: int| 0 <= i < cells.len() && cells[i].key == key
}

/// The smallest cell index whose key is `>= key`; the cell count when every
/// key is smaller.
pub open spec fn spec_cell_idx(cells: Seq<CellV>, key: u32) -> int
    decreases cells.len(),
{
    if cells.len() == 0 {
        0
    } else if cells[0].key >= key {
        0
    } else {
        1 + spec_cell_idx(cells.subrange(1, cells.len() as int), key)
    }
}

/// `spec_cell_idx` is the boundary between the keys below `key` and the rest.
pub proof fn lemma_cell_idx_bounds(cells: Seq<CellV>, key: u32)
    ensures
        0 <= spec_cell_idx(cells, key) <= cells.len(),
        forall|i: int| 0 <= i < spec_cell_idx(cells, key) ==> cells[i].key < key,
        spec_cell_idx(cells, key) < cells.len() ==> cells[spec_cell_idx(cells, key)].key >= key,
    decreases cells.len(),
{
    if cells.len() == 0 {
    } else if cells[0].key >= key {
    } else {
        let rest = cells.subrange(1, cells.len() as int);
        lemma_cell_idx_bounds(rest, key);
        assert forall|i: int| 0 <= i < spec_cell_idx(cells, key) implies cells[i].key < key by {
            if i > 0 {
                assert(cells[i] == rest[i - 1]);
            }
        }
    }
}

/// Any index with the boundary property is `spec_cell_idx`.
pub proof fn lemma_cell_idx_unique(cells: Seq<CellV>, key: u32, r: int)
    requires
        0 <= r <= cells.len(),
        forall|i: int| 0 <= i < r ==> cells[i].key < key,
        r < cells.len() ==> cells[r].key >= key,
    ensures
        r == spec_cell_idx(cells, key),
{
    let idx = spec_cell_idx(cells, key);
    lemma_cell_idx_bounds(cells, key);
    if r < idx {
        assert(cells[r].key < key);
        assert(cells[r].key >= key);
    } else if idx < r {
        assert(cells[idx].key < key);
        assert(cells[idx].key >= key);
    }
}

/// In a sorted run, a key occurs somewhere iff it occurs at `spec_cell_idx`.
pub proof fn lemma_cell_idx_contains(cells: Seq<CellV>, key: u32)
    requires
        keys_sorted(cells),
    ensures
        leaf_contains_key(cells, key) <==> (spec_cell_idx(cells, key) < cells.len()
            && cells[spec_cell_idx(cells, key)].key == key),
{
    let idx = spec_cell_idx(cells, key);
    lemma_cell_idx_bounds(cells, key);
    if leaf_contains_key(cells, key) {
        let j = choose|j: int| 0 <= j < cells.len() && cells[j].key == key;
        assert(j >= idx);
        if j > idx {
            assert(cells[idx].key < cells[j].key);
        }
    }
}

impl Leaf {
    /// Structural well-formedness of the cells alone: capacity respected,
    /// keys strictly increasing, every row of the fixed width, and the page
    /// links encodable.
    pub open spec fn cells_ok(l: LeafV) -> bool {
        &&& l.cells.len() <= MAX_CELLS
        &&& keys_sorted(l.cells)
        &&& forall|i: int| 0 <= i < l.cells.len() ==> (#[trigger] l.cells[i]).row.len() == ROW_SIZE
        &&& match l.parent {
            None => true,
            Some(p) => p < 0x1_0000_0000,
        }
        &&& match l.next {
            None => true,
            Some(p) => 0 < p < 0x1_0000_0000,
        }
    }

    /// Full well-formedness: additionally, exactly the root lacks a parent.
    pub open spec fn wf_v(l: LeafV) -> bool {
        &&& Self::cells_ok(l)
        &&& l.is_root <==> l.parent is None
    }

    pub open spec fn wf(&self) -> bool {
        Self::wf_v(self@)
    }

    /// A fresh, empty leaf.
    pub fn new(is_root: bool, parent: Option<usize>, next: Option<usize>) -> (r: Self)
        ensures
            r@ == (LeafV { is_root, parent, next, cells: Seq::<CellV>::empty() }),
    {
        let r = Self { is_root, parent, next, cells: Vec::new() };
        proof {
            assert(r@.cells =~= Seq::<CellV>::empty());
        }
        r
    }

    /// Number of cells held.
    pub fn size(&self) -> (r: usize)
        ensures
            r == self@.cells.len(),
    {
        self.cells.len()
    }

    /// The largest key held; the cells are sorted, so it sits at the end.
    pub fn key_max(&self) -> (r: u32)
        requires
            self@.cells.len() > 0,
        ensures
            r == self@.cells.last().key,
    {
        self.cells[self.cells.len() - 1].key
    }

    /// Binary search for the smallest cell index whose key is `>= key`.
    pub fn search_cell_idx_by_key(&self, key: u32) -> (r: usize)
        requires
            keys_sorted(self@.cells),
        ensures
            r == spec_cell_idx(self@.cells, key),
    {
        let ghost cells = self@.cells;
        let mut lower: usize = 0;
        let mut upper: usize = self.cells.len();
        while lower < upper
            invariant
                lower <= upper <= cells.len(),
                cells.len() == self@.cells.len(),
                cells == self@.cells,
                keys_sorted(cells),
                forall|i: int| 0 <= i < lower ==> cells[i].key < key,
                forall|i: int| upper <= i < cells.len() ==> cells[i].key >= key,
            decreases upper - lower,
        {
            let mid = lower + (upper - lower) / 2;
            let key_mid = self.cells[mid].key;
            if key == key_mid {
                proof {
                    assert forall|i: int| 0 <= i < mid implies cells[i].key < key by {
                        assert(cells[i].key < cells[mid as int].key);
                    }
                    lemma_cell_idx_unique(cells, key, mid as int);
                }
                return mid;
            } else if key > key_mid {
                lower = mid + 1;
            } else {
                upper = mid;
            }
        }
        proof {
            lemma_cell_idx_unique(cells, key, lower as int);
        }
        lower
    }

    /// Insert a (key, row) cell in key order.  A key already present is
    /// rejected first; a full leaf is reported so that the caller can split.
    pub fn insert_row(&mut self, key: u32, row: &Vec<u8>) -> (r: Result<(), ExecErr>)
        requires
            Self::cells_ok(old(self)@),
            row@.len() == ROW_SIZE,
        ensures
            leaf_contains_key(old(self)@.cells, key) ==> (r matches Err(e) && e is DuplicateKey
                && final(self)@ == old(self)@),
            !leaf_contains_key(old(self)@.cells, key) && old(self)@.cells.len() == MAX_CELLS
                ==> (r matches Err(e) && e is LeafNodeFull && final(self)@ == old(self)@),
            !leaf_contains_key(old(self)@.cells, key) && old(self)@.cells.len() < MAX_CELLS ==> {
                &&& r is Ok
                &&& final(self)@ == (LeafV {
                    cells: old(self)@.cells.insert(
                        spec_cell_idx(old(self)@.cells, key),
                        CellV { key, row: row@ },
                    ),
                    ..old(self)@
                })
                &&& Self::cells_ok(final(self)@)
            },
    {
        let ghost old_cells = self@.cells;
        let idx = self.search_cell_idx_by_key(key);
        proof {
            lemma_cell_idx_bounds(old_cells, key);
            lemma_cell_idx_contains(old_cells, key);
        }
        if idx < self.cells.len() && self.cells[idx].key == key {
            return Err(ExecErr::DuplicateKey(String::from_str("Error: Duplicate key.")));
        }
        if self.cells.len() >= MAX_CELLS {
            return Err(ExecErr::LeafNodeFull(String::from_str("Leaf full")));
        }
        let row_copy = read_bytes_from(row, 0, row.len());
        proof {
            assert(row_copy@ =~= row@);
        }
        self.cells.insert(idx, Cell { key, row: row_copy });
        proof {
            let new_cells = old_cells.insert(idx as int, CellV { key, row: row@ });
            assert(self@.cells =~= new_cells);
            assert forall|i: int, j: int| 0 <= i < j < new_cells.len() implies new_cells[i].key
                < new_cells[j].key by {
                let ii = if i < idx {
                    i
                } else {
                    i - 1
                };
                let jj = if j < idx {
                    j
                } else {
                    j - 1
                };
                if i == idx {
                    assert(new_cells[j] == old_cells[jj]);
                } else if j == idx {
                    assert(new_cells[i] == old_cells[ii]);
                } else {
                    assert(new_cells[i] == old_cells[ii]);
                    assert(new_cells[j] == old_cells[jj]);
                }
            }
        }
        Ok(())
    }

    /// Insert into a full leaf by splitting: the combined, ordered cells are
    /// divided at `SPLIT_IDX`; `self` keeps the left part and links to the
    /// returned right sibling, which takes over the old next pointer.
    pub fn insert_row_and_split(&mut self, key: u32, row: &Vec<u8>, pg_idx_new: usize) -> (r:
        Leaf)
        requires
            Self::cells_ok(old(self)@),
            row@.len() == ROW_SIZE,
            old(self)@.cells.len() == MAX_CELLS,
            !leaf_contains_key(old(self)@.cells, key),
            0 < pg_idx_new < 0x1_0000_0000,
        ensures
            ({
                let combined = old(self)@.cells.insert(
                    spec_cell_idx(old(self)@.cells, key),
                    CellV { key, row: row@ },
                );
                &&& final(self)@ == (LeafV {
                    next: Some(pg_idx_new),
                    cells: combined.subrange(0, SPLIT_IDX as int),
                    ..old(self)@
                })
                &&& r@ == (LeafV {
                    is_root: false,
                    parent: old(self)@.parent,
                    next: old(self)@.next,
                    cells: combined.subrange(SPLIT_IDX as int, combined.len() as int),
                })
                &&& Self::cells_ok(final(self)@)
                &&& Self::cells_ok(r@)
                &&& final(self)@.cells.len() == SPLIT_IDX
                &&& r@.cells.len() == MAX_CELLS + 1 - SPLIT_IDX
            }),
    {
        let ghost old_cells = self@.cells;
        let idx = self.search_cell_idx_by_key(key);
        proof {
            lemma_cell_idx_bounds(old_cells, key);
            lemma_cell_idx_contains(old_cells, key);
        }
        let row_copy = read_bytes_from(row, 0, row.len());
        proof {
            assert(row_copy@ =~= row@);
        }
        self.cells.insert(idx, Cell { key, row: row_copy });
        let ghost combined = old_cells.insert(idx as int, CellV { key, row: row@ });
        proof {
            assert(self@.cells =~= combined);
            assert forall|i: int, j: int| 0 <= i < j < combined.len() implies combined[i].key
                < combined[j].key by {
                let ii = if i < idx {
                    i
                } else {
                    i - 1
                };
                let jj = if j < idx {
                    j
                } else {
                    j - 1
                };
                if i == idx {
                    assert(combined[j] == old_cells[jj]);
                } else if j == idx {
                    assert(combined[i] == old_cells[ii]);
                } else {
                    assert(combined[i] == old_cells[ii]);
                    assert(combined[j] == old_cells[jj]);
                }
            }
        }
        let mut upper: Vec<Cell> = Vec::new();
        let mut i: usize = SPLIT_IDX;
        while i < self.cells.len()
            invariant
                SPLIT_IDX <= i <= self@.cells.len(),
                self@.cells == combined,
                combined.len() == MAX_CELLS + 1,
                forall|k: int| 0 <= k < combined.len() ==> (#[trigger] combined[k]).row.len()
                    == ROW_SIZE,
                cells_view(upper@) =~~= combined.subrange(SPLIT_IDX as int, i as int),
            decreases self@.cells.len() - i,
        {
            let row_i = read_bytes_from(&self.cells[i].row, 0, self.cells[i].row.len());
            let key_i = self.cells[i].key;
            proof {
                assert(row_i@ =~= combined[i as int].row);
            }
            let ghost up_old = upper@;
            let ghost i0 = i as int;
            upper.push(Cell { key: key_i, row: row_i });
            i = i + 1;
            proof {
                let up = cells_view(upper@);
                let sub = combined.subrange(SPLIT_IDX as int, i as int);
                assert(upper@ == up_old.push(Cell { key: key_i, row: row_i }));
                assert(up.len() == upper@.len());
                assert(upper@.len() == up_old.len() + 1);
                assert(cells_view(up_old).len() == up_old.len());
                assert(cells_view(up_old).len() == i0 - SPLIT_IDX);
                assert(sub.len() == i - SPLIT_IDX);
                assert(up.len() == sub.len());
                assert forall|k: int| 0 <= k < up.len() implies up[k] =~~= sub[k] by {
                    if k < up.len() - 1 {
                        assert(up[k] == cells_view(up_old)[k]);
                    } else {
                        assert(up[k] == CellV { key: key_i, row: row_i@ });
                    }
                }
                assert(up =~~= sub);
            }
        }
        self.cells.truncate(SPLIT_IDX);
        proof {
            assert(self@.cells =~~= combined.subrange(0, SPLIT_IDX as int));
        }
        let next_old = self.next;
        self.next = Some(pg_idx_new);
        let r = Leaf { is_root: false, parent: self.parent, next: next_old, cells: upper };
        proof {
            lemma_leaf_consts();
            let lower = combined.subrange(0, SPLIT_IDX as int);
            let upper_v = combined.subrange(SPLIT_IDX as int, combined.len() as int);
            assert(self@.cells =~~= lower);
            assert(cells_view(upper@) =~~= upper_v);
            assert(final(self)@ =~~= (LeafV {
                next: Some(pg_idx_new),
                cells: lower,
                ..old(self)@
            }));
            assert(r@ =~~= (LeafV {
                is_root: false,
                parent: old(self)@.parent,
                next: old(self)@.next,
                cells: upper_v,
            }));
            assert forall|a: int, b: int| 0 <= a < b < lower.len() implies lower[a].key
                < lower[b].key by {
                assert(combined[a].key < combined[b].key);
            }
            assert forall|a: int, b: int| 0 <= a < b < upper_v.len() implies upper_v[a].key
                < upper_v[b].key by {
                assert(combined[SPLIT_IDX + a].key < combined[SPLIT_IDX + b].key);
            }
            assert forall|a: int| 0 <= a < lower.len() implies (#[trigger] lower[a]).row.len()
                == ROW_SIZE by {
                assert(combined[a].row.len() == ROW_SIZE);
            }
            assert forall|a: int| 0 <= a < upper_v.len() implies (#[trigger] upper_v[a]).row.len()
                == ROW_SIZE by {
                assert(combined[SPLIT_IDX + a].row.len() == ROW_SIZE);
            }
        }
        r
    }

    /// The cell at the position `key` would occupy, if that position holds a
    /// cell: the first cell with a key `>= key`.
    pub fn find_row(&self, key: u32) -> (r: Result<&Cell, ExecErr>)
        requires
            keys_sorted(self@.cells),
        ensures
            ({
                let idx = spec_cell_idx(self@.cells, key);
                match r {
                    Ok(c) => idx < self@.cells.len() && c@ == self@.cells[idx],
                    Err(e) => idx == self@.cells.len() && e is CellNotFound,
                }
            }),
    {
        let idx = self.search_cell_idx_by_key(key);
        proof {
            lemma_cell_idx_bounds(self@.cells, key);
        }
        if idx >= self.cells.len() {
            return Err(ExecErr::CellNotFound(String::from_str("Cell not found")));
        }
        Ok(&self.cells[idx])
    }
}

/// The page field holding an optional page number: zero when absent.
pub open spec fn opt_page(p: Option<usize>) -> u32 {
    match p {
        None => 0u32,
        Some(v) => v as u32,
    }
}

/// The byte form of one cell: big-endian key, then the packed row.
pub open spec fn spec_cell_bytes(c: CellV) -> Seq<u8> {
    be32(c.key) + c.row
}

/// The byte form of a run of cells, in order.
pub open spec fn spec_cells_bytes(cells: Seq<CellV>) -> Seq<u8>
    decreases cells.len(),
{
    if cells.len() == 0 {
        Seq::empty()
    } else {
        spec_cells_bytes(cells.drop_last()) + spec_cell_bytes(cells.last())
    }
}

/// The full page image of a leaf: node type, root flag, parent, next, cell
/// count, the cells, and zero padding out to the page size.
pub open spec fn spec_leaf_bytes(l: LeafV) -> Seq<u8>
    recommends
        Leaf::cells_ok(l),
{
    let body = seq![1u8] + seq![bool_byte(l.is_root)] + be32(opt_page(l.parent)) + be32(
        opt_page(l.next),
    ) + be32(l.cells.len() as u32) + spec_cells_bytes(l.cells);
    body + zeroes((PAGE_SIZE - body.len()) as nat)
}

/// The cell stored at slot `i` of a leaf page.
pub open spec fn spec_cell_of_bytes(b: Seq<u8>, i: int) -> CellV {
    CellV {
        key: be32_val(b.subrange(HEADER_SIZE + CELL_SIZE * i, HEADER_SIZE + CELL_SIZE * i + 4)),
        row: b.subrange(HEADER_SIZE + CELL_SIZE * i + 4, HEADER_SIZE + CELL_SIZE * (i + 1)),
    }
}

/// The leaf stored by a page image, or nothing when the cell count exceeds
/// the leaf capacity.  The root flag decides how the parent field is read:
/// only a non-root node has a parent.
pub open spec fn spec_leaf_of_bytes(b: Seq<u8>) -> Option<LeafV>
    recommends
        b.len() == PAGE_SIZE,
{
    let is_root = b[1] != 0;
    let parent = if is_root {
        None
    } else {
        Some(be32_val(b.subrange(2, 6)) as usize)
    };
    let next = match be32_opt_val(b.subrange(6, 10)) {
        None => None,
        Some(v) => Some(v as usize),
    };
    let n = be32_val(b.subrange(10, 14)) as int;
    if n > MAX_CELLS {
        None
    } else {
        Some(
            LeafV {
                is_root,
                parent,
                next,
                cells: Seq::new(n as nat, |i: int| spec_cell_of_bytes(b, i)),
            },
        )
    }
}

/// A run of fixed-width cells occupies `CELL_SIZE` bytes per cell.
pub proof fn lemma_cells_bytes_len(cells: Seq<CellV>)
    requires
        forall|i: int| 0 <= i < cells.len() ==> (#[trigger] cells[i]).row.len() == ROW_SIZE,
    ensures
        spec_cells_bytes(cells).len() == CELL_SIZE * cells.len(),
    decreases cells.len(),
{
    lemma_leaf_consts();
    if cells.len() == 0 {
    } else {
        lemma_cells_bytes_len(cells.drop_last());
        assert(cells.last().row.len() == ROW_SIZE);
    }
}

/// Slot `i` of the encoded run holds exactly the bytes of cell `i`.
pub proof fn lemma_cells_bytes_index(cells: Seq<CellV>, i: int)
    requires
        forall|k: int| 0 <= k < cells.len() ==> (#[trigger] cells[k]).row.len() == ROW_SIZE,
        0 <= i < cells.len(),
    ensures
        spec_cells_bytes(cells).subrange(CELL_SIZE * i, CELL_SIZE * (i + 1)) == spec_cell_bytes(
            cells[i],
        ),
    decreases cells.len(),
{
    lemma_leaf_consts();
    lemma_cells_bytes_len(cells);
    lemma_cells_bytes_len(cells.drop_last());
    if i == cells.len() - 1 {
        assert(spec_cells_bytes(cells).subrange(CELL_SIZE * i, CELL_SIZE * (i + 1))
            =~= spec_cell_bytes(cells.last()));
    } else {
        lemma_cells_bytes_index(cells.drop_last(), i);
        assert(spec_cells_bytes(cells).subrange(CELL_SIZE * i, CELL_SIZE * (i + 1))
            =~= spec_cells_bytes(cells.drop_last()).subrange(CELL_SIZE * i, CELL_SIZE * (i + 1)));
    }
}

/// Decoding an encoded well-formed leaf yields the leaf back.
pub proof fn lemma_leaf_round_trip(l: LeafV)
    requires
        Leaf::wf_v(l),
    ensures
        spec_leaf_bytes(l).len() == PAGE_SIZE,
        spec_leaf_of_bytes(spec_leaf_bytes(l)) == Some(l),
{
    lemma_leaf_consts();
    lemma_cells_bytes_len(l.cells);
    let b = spec_leaf_bytes(l);
    assert(b.len() == PAGE_SIZE);
    assert(b[1] == bool_byte(l.is_root));
    assert(b.subrange(2, 6) =~= be32(opt_page(l.parent)));
    assert(b.subrange(6, 10) =~= be32(opt_page(l.next)));
    assert(b.subrange(10, 14) =~= be32(l.cells.len() as u32));
    lemma_be32_round_trip(opt_page(l.parent));
    lemma_be32_round_trip(opt_page(l.next));
    lemma_be32_round_trip(l.cells.len() as u32);
    let d = spec_leaf_of_bytes(b);
    assert(be32_val(b.subrange(10, 14)) as int == l.cells.len());
    let is_root = b[1] != 0;
    assert(is_root == l.is_root);
    if l.is_root {
        assert((if is_root { None } else { Some(be32_val(b.subrange(2, 6)) as usize) })
            == l.parent);
    } else {
        let p = l.parent.unwrap();
        assert(opt_page(l.parent) == p as u32);
        assert(be32_val(b.subrange(2, 6)) as usize == p);
    }
    match l.next {
        None => {
            assert(be32_opt_val(b.subrange(6, 10)) is None);
        },
        Some(p) => {
            assert(opt_page(l.next) == p as u32);
            assert(p as u32 != 0);
            assert(be32_opt_val(b.subrange(6, 10)) == Some(p as u32));
        },
    }
    let cells = Seq::new(l.cells.len(), |i: int| spec_cell_of_bytes(b, i));
    assert forall|i: int| 0 <= i < l.cells.len() implies cells[i] == l.cells[i] by {
        lemma_cells_bytes_index(l.cells, i);
        let enc = spec_cells_bytes(l.cells);
        assert(l.cells[i].row.len() == ROW_SIZE);
        assert(CELL_SIZE * i + CELL_SIZE == CELL_SIZE * (i + 1)) by (nonlinear_arith);
        assert(CELL_SIZE * (i + 1) <= CELL_SIZE * l.cells.len()) by (nonlinear_arith)
            requires
                i + 1 <= l.cells.len(),
                CELL_SIZE == 295,
        ;
        assert(b.subrange(HEADER_SIZE as int, HEADER_SIZE + CELL_SIZE * l.cells.len()) =~= enc);
        assert(b.subrange(HEADER_SIZE + CELL_SIZE * i, HEADER_SIZE + CELL_SIZE * i + 4)
            =~= enc.subrange(CELL_SIZE * i, CELL_SIZE * (i + 1)).subrange(0, 4));
        assert(b.subrange(HEADER_SIZE + CELL_SIZE * i + 4, HEADER_SIZE + CELL_SIZE * (i + 1))
            =~= enc.subrange(CELL_SIZE * i, CELL_SIZE * (i + 1)).subrange(4, CELL_SIZE as int));
        assert(spec_cell_bytes(l.cells[i]).subrange(0, 4) =~= be32(l.cells[i].key));
        assert(spec_cell_bytes(l.cells[i]).subrange(4, CELL_SIZE as int) =~= l.cells[i].row);
        lemma_be32_round_trip(l.cells[i].key);
        assert(cells[i] =~= l.cells[i]);
    }
    assert(cells =~~= l.cells);
    assert(d == Some(l));
}

impl Leaf {
    /// Encode the leaf into its page image.
    pub fn serialize(&self) -> (r: Vec<u8>)
        requires
            Self::cells_ok(self@),
        ensures
            r@ == spec_leaf_bytes(self@),
            r@.len() == PAGE_SIZE,
    {
        proof {
            lemma_leaf_consts();
            lemma_cells_bytes_len(self@.cells);
        }
        let mut buf: Vec<u8> = Vec::new();
        write_bool_to(&mut buf, true);
        write_bool_to(&mut buf, self.is_root);
        match self.parent {
            None => write_opt_u32_to(&mut buf, None),
            Some(p) => write_opt_u32_to(&mut buf, Some(p as u32)),
        }
        match self.next {
            None => write_opt_u32_to(&mut buf, None),
            Some(p) => write_opt_u32_to(&mut buf, Some(p as u32)),
        }
        write_opt_u32_to(&mut buf, Some(self.cells.len() as u32));
        let ghost header = seq![1u8] + seq![bool_byte(self@.is_root)] + be32(
            opt_page(self@.parent),
        ) + be32(opt_page(self@.next)) + be32(self@.cells.len() as u32);
        proof {
            assert(buf@ =~= header);
        }
        let mut i: usize = 0;
        while i < self.cells.len()
            invariant
                Self::cells_ok(self@),
                i <= self@.cells.len(),
                header == seq![1u8] + seq![bool_byte(self@.is_root)] + be32(opt_page(self@.parent))
                    + be32(opt_page(self@.next)) + be32(self@.cells.len() as u32),
                buf@ == header + spec_cells_bytes(self@.cells.subrange(0, i as int)),
            decreases self@.cells.len() - i,
        {
            let ghost pre = self@.cells.subrange(0, i as int);
            write_opt_u32_to(&mut buf, Some(self.cells[i].key));
            write_bytes_to(&mut buf, &self.cells[i].row);
            i = i + 1;
            proof {
                let cur = self@.cells.subrange(0, i as int);
                assert(cur.drop_last() =~= pre);
                assert(cur.last() == self@.cells[i - 1]);
                assert(spec_cells_bytes(cur) == spec_cells_bytes(pre) + spec_cell_bytes(
                    self@.cells[i - 1],
                ));
                assert(buf@ =~= header + spec_cells_bytes(cur));
            }
        }
        proof {
            assert(self@.cells.subrange(0, self@.cells.len() as int) =~= self@.cells);
            assert(buf@.len() == HEADER_SIZE + CELL_SIZE * self@.cells.len());
            assert(CELL_SIZE * self@.cells.len() <= CELL_SIZE * MAX_CELLS) by (nonlinear_arith)
                requires
                    self@.cells.len() <= MAX_CELLS,
                    CELL_SIZE == 295,
            ;
        }
        pad_zeroes_to(&mut buf, PAGE_SIZE);
        proof {
            assert(buf@ =~= spec_leaf_bytes(self@));
        }
        buf
    }

    /// Decode a leaf from its page image; a cell count beyond the leaf
    /// capacity is refused as a corrupt page.
    pub fn new_from_page(page: &Vec<u8>) -> (r: Result<Self, ExecErr>)
        requires
            page@.len() == PAGE_SIZE,
        ensures
            match r {
                Ok(l) => spec_leaf_of_bytes(page@) == Some(l@),
                Err(e) => spec_leaf_of_bytes(page@) is None && e is NodeError,
            },
    {
        proof {
            lemma_leaf_consts();
        }
        let is_root = read_bool_from(page, 1);
        let parent: Option<usize> = if is_root {
            None
        } else {
            Some(read_u32_at(page, 2) as usize)
        };
        let next: Option<usize> = match read_u32_from(page, 6) {
            None => None,
            Some(v) => Some(v as usize),
        };
        let n = read_u32_at(page, 10);
        if n > MAX_CELLS as u32 {
            return Err(ExecErr::NodeError(String::from_str("Corrupt page: leaf overflow")));
        }
        let n = n as usize;
        let mut cells: Vec<Cell> = Vec::new();
        let mut i: usize = 0;
        while i < n
            invariant
                page@.len() == PAGE_SIZE,
                n <= MAX_CELLS,
                MAX_CELLS == 13,
                CELL_SIZE == 295,
                i <= n,
                cells@.len() == i,
                forall|k: int| 0 <= k < i ==> (#[trigger] cells@[k])@ =~~= spec_cell_of_bytes(
                    page@,
                    k,
                ),
            decreases n - i,
        {
            let pos = HEADER_SIZE + CELL_SIZE * i;
            let key = read_u32_at(page, pos);
            let row = read_bytes_from(page, pos + 4, ROW_SIZE);
            proof {
                assert(HEADER_SIZE + CELL_SIZE * i + 4 + ROW_SIZE == HEADER_SIZE + CELL_SIZE * (i
                    + 1));
            }
            cells.push(Cell { key, row });
            i = i + 1;
            proof {
                assert(cells@[i - 1]@ =~~= spec_cell_of_bytes(page@, i - 1));
            }
        }
        let r = Leaf { is_root, parent, next, cells };
        proof {
            assert(r@.cells =~~= Seq::new(n as nat, |k: int| spec_cell_of_bytes(page@, k)));
        }
        Ok(r)
    }

    /// Check well-formedness of a decoded leaf, for validation at open.
    pub fn check_wf(&self) -> (b: bool)
        ensures
            b == Self::wf_v(self@),
    {
        if self.cells.len() > MAX_CELLS {
            return false;
        }
        match self.parent {
            Some(p) => {
                if self.is_root {
                    return false;
                }
                if !((p as u64) < 0x1_0000_0000u64) {
                    return false;
                }
            },
            None => {
                if !self.is_root {
                    return false;
                }
            },
        }
        match self.next {
            Some(p) => {
                if !(0 < p && (p as u64) < 0x1_0000_0000u64) {
                    return false;
                }
            },
            None => {},
        }
        let mut i: usize = 0;
        while i < self.cells.len()
            invariant
                i <= self@.cells.len(),
                forall|k: int| 0 <= k < i ==> (#[trigger] self@.cells[k]).row.len() == ROW_SIZE,
                forall|a: int, b2: int| 0 <= a < b2 < i ==> self@.cells[a].key
                    < self@.cells[b2].key,
            decreases self@.cells.len() - i,
        {
            if self.cells[i].row.len() != ROW_SIZE {
                proof {
                    assert(self@.cells[i as int].row.len() != ROW_SIZE);
                }
                return false;
            }
            if i > 0 && self.cells[i - 1].key >= self.cells[i].key {
                proof {
                    assert(self@.cells[i - 1].key >= self@.cells[i as int].key);
                }
                return false;
            }
            proof {
                assert forall|a: int, b2: int| 0 <= a < b2 < i + 1 implies self@.cells[a].key
                    < self@.cells[b2].key by {
                    if b2 == i {
                        if a < i - 1 {
                            assert(self@.cells[a].key < self@.cells[i - 1].key);
                        }
                    }
                }
            }
            i = i + 1;
        }
        true
    }
}

} // verus!
