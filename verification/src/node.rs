//! The leaf node: the on-page container of ordered (key, row) cells.

use vstd::prelude::*;

use crate::row::{Row, RowV};
use crate::LEAF_NODE_MAX_CELLS;

verus! {

/// One (key, row) pair of a leaf node.  Inside a well-formed node the key
/// equals the row's id.
pub struct Cell(pub u32, pub Row);

impl View for Cell {
    type V = (u32, RowV);

    open spec fn view(&self) -> (u32, RowV) {
        (self.0, self.1@)
    }
}

impl Cell {
    pub fn set_key(&mut self, key: u32)
        ensures
            final(self).0 == key,
            final(self).1 == old(self).1,
    {
        self.0 = key;
    }

    pub fn set_val(&mut self, val: &Row)
        ensures
            final(self).0 == old(self).0,
            final(self).1@ == val@,
    {
        self.1 = val.duplicate();
    }
}

/// The header every node carries: whether it is the root, and the page
/// number of its parent (unused while the tree is a single leaf).
pub struct NodeHeader {
    pub is_root: bool,
    pub parent_ptr: u32,
}

/// Mathematical value of a leaf node.
pub ghost struct NodeV {
    pub is_root: bool,
    pub parent_ptr: u32,
    pub cells: Seq<(u32, RowV)>,
}

impl NodeV {
    /// Key of the cell at position `i`.
    pub open spec fn key_at(self, i: int) -> u32 {
        self.cells[i].0
    }

    /// Row of the cell at position `i`.
    pub open spec fn row_at(self, i: int) -> RowV {
        self.cells[i].1
    }

    /// Keys strictly increase across the cells.
    pub open spec fn sorted(self) -> bool {
        forall|i: int, j: int|
            0 <= i < j < self.cells.len() ==> #[trigger] self.key_at(i) < #[trigger] self.key_at(j)
    }

    /// Every cell holds a well-formed row whose id is the cell's key.
    pub open spec fn cells_wf(self) -> bool {
        forall|i: int|
            0 <= i < self.cells.len() ==> (#[trigger] self.cells[i]).1.wf() && self.cells[i].0
                == self.cells[i].1.id
    }

    /// The node invariant: capacity respected, rows well formed, keys
    /// strictly increasing and equal to their rows' ids.
    pub open spec fn wf(self) -> bool {
        &&& self.cells.len() <= LEAF_NODE_MAX_CELLS
        &&& self.cells_wf()
        &&& self.sorted()
    }

    /// Whether some cell carries `key`.
    pub open spec fn has_key(self, key: u32) -> bool {
        exists|i: int| 0 <= i < self.cells.len() && #[trigger] self.key_at(i) == key
    }
}

/// The logical contents of one page.  The tree stops at a single leaf;
/// further variants are the anticipated extension point.
pub enum Node {
    Leaf { header: NodeHeader, num_cells: u32, cells: Vec<Cell> },
}

impl View for Node {
    type V = NodeV;

    open spec fn view(&self) -> NodeV {
        match self {
            Node::Leaf { header, cells, .. } => NodeV {
                is_root: header.is_root,
                parent_ptr: header.parent_ptr,
                cells: cells@.map_values(|c: Cell| c@),
            },
        }
    }
}

impl Node {
    /// The stored cell count agrees with the number of cells held.
    pub open spec fn count_ok(self) -> bool {
        match self {
            Node::Leaf { num_cells, cells, .. } => num_cells == cells@.len(),
        }
    }

    /// The node invariant: count in step with the cells, and the logical
    /// value well formed.
    pub open spec fn wf(self) -> bool {
        self.count_ok() && self@.wf()
    }

    /// A fresh empty leaf: marked root, no parent, no cells.
    pub fn create_leaf() -> (n: Node)
        ensures
            n.wf(),
            n@.is_root == true,
            n@.parent_ptr == 0u32,
            n@.cells.len() == 0,
    {
        let n = Node::Leaf {
            header: NodeHeader { is_root: true, parent_ptr: 0 },
            num_cells: 0,
            cells: Vec::new(),
        };
        proof {
            assert(n@.cells =~= Seq::<(u32, RowV)>::empty());
        }
        n
    }

    /// Insert `(key, val)` at position `cell_num`, shifting the cells at
    /// and after that position one place right.
    pub fn insert(&mut self, cell_num: u32, key: u32, val: &Row)
        requires
            old(self).count_ok(),
            cell_num <= old(self)@.cells.len(),
            old(self)@.cells.len() < LEAF_NODE_MAX_CELLS,
        ensures
            final(self).count_ok(),
            final(self)@.is_root == old(self)@.is_root,
            final(self)@.parent_ptr == old(self)@.parent_ptr,
            final(self)@.cells == old(self)@.cells.insert(cell_num as int, (key, val@)),
    {
        match self {
            Node::Leaf { num_cells, cells, .. } => {
                cells.insert(cell_num as usize, Cell(key, val.duplicate()));
                *num_cells = *num_cells + 1;
                proof {
                    assert(cells@.map_values(|c: Cell| c@) =~= old(
                        self,
                    )@.cells.insert(cell_num as int, (key, val@)));
                }
            },
        }
    }

    /// Number of cells currently held.
    pub fn cell_count(&self) -> (n: u32)
        requires
            self.count_ok(),
        ensures
            n == self@.cells.len(),
    {
        match self {
            Node::Leaf { num_cells, .. } => *num_cells,
        }
    }

    /// Ordered-array search.  Returns `(found, index)`: on `found`, `index`
    /// is the unique position holding `key`; otherwise it is the position
    /// at which a new cell with `key` keeps the order.
    pub fn binary_search(&self, key: u32) -> (r: (bool, usize))
        requires
            self.count_ok(),
            self@.wf(),
        ensures
            r.1 <= self@.cells.len(),
            forall|i: int| 0 <= i < r.1 ==> #[trigger] self@.key_at(i) < key,
            forall|i: int| r.1 <= i < self@.cells.len() ==> #[trigger] self@.key_at(i) >= key,
            r.0 <==> (r.1 < self@.cells.len() && self@.key_at(r.1 as int) == key),
            r.0 <==> self@.has_key(key),
    {
        match self {
            Node::Leaf { cells, .. } => {
                let mut lo: usize = 0;
                let mut hi: usize = cells.len();
                while lo < hi
                    invariant
                        lo <= hi <= cells@.len(),
                        self.count_ok(),
                        self@.wf(),
                        cells@.map_values(|c: Cell| c@) == self@.cells,
                        forall|i: int| 0 <= i < lo ==> #[trigger] self@.key_at(i) < key,
                        forall|i: int|
                            hi <= i < self@.cells.len() ==> #[trigger] self@.key_at(i) >= key,
                    decreases hi - lo,
                {
                    let mid: usize = lo + (hi - lo) / 2;
                    let mid_key: u32 = cells[mid].0;
                    proof {
                        assert(self@.key_at(mid as int) == mid_key);
                    }
                    if mid_key < key {
                        lo = mid + 1;
                    } else {
                        hi = mid;
                    }
                }
                let found: bool = lo < cells.len() && cells[lo].0 == key;
                proof {
                    if found {
                        assert(self@.key_at(lo as int) == key);
                        assert(self@.has_key(key));
                    }
                    if self@.has_key(key) {
                        let w = choose|i: int|
                            0 <= i < self@.cells.len() && #[trigger] self@.key_at(i) == key;
                        assert(!(w < lo) && !(lo < w && self@.key_at(w) > key));
                        if w > lo {
                            assert(self@.key_at(lo as int) < self@.key_at(w));
                        }
                        assert(w == lo);
                        assert(found);
                    }
                }
                (found, lo)
            },
        }
    }
}

} // verus!
