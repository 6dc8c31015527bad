//! The table and its cursors.
//!
//! A table owns a pager and names the root page, always page 0 here.  A
//! cursor is a plain position — a page number, a cell number and an
//! end-of-table flag — and borrows the table only for the one operation it
//! performs.

use vstd::prelude::*;

use crate::codec::{lemma_node_round_trip, node_bytes, node_of_bytes};
use crate::node::Node;
use crate::pager::{Pager, PagerError};
use crate::row::{Row, RowV};
use crate::{LEAF_NODE_MAX_CELLS, PAGE_SIZE, TABLE_MAX_PAGES};

verus! {

/// The table: a pager and the page number of the root node.
pub struct Table {
    pub pager: Pager,
    pub root_page_num: u32,
}

impl Table {
    /// The root node.
    pub open spec fn root(self) -> Node {
        self.pager.page_at(self.root_page_num as int)
    }

    /// The cells of the root node: the whole contents of the table, as
    /// (key, row) pairs in ascending key order.
    pub open spec fn rows(self) -> Seq<(u32, RowV)> {
        self.root()@.cells
    }

    /// The table invariant: a well-formed pager, the root at page 0 and
    /// resident from open to close.
    pub open spec fn wf(self) -> bool {
        &&& self.pager.wf()
        &&& self.root_page_num == 0
        &&& self.pager.resident(0)
    }

    /// Wrap a pager whose root page is already resident.
    pub fn new(pager: Pager) -> (t: Table)
        requires
            pager.wf(),
            pager.resident(0),
        ensures
            t.wf(),
            t.pager == pager,
            t.root_page_num == 0,
    {
        Table { root_page_num: 0, pager }
    }

    /// A cursor at the position of `key` if present, else at the position
    /// where `key` would be inserted to keep the order.  Callers tell the
    /// two apart by comparing the cell's key with `key`.
    pub fn find(&self, key: u32) -> (c: Cursor)
        requires
            self.wf(),
        ensures
            c.wf(*self),
            c.page_num == self.root_page_num,
            !c.end_of_table,
            forall|i: int| 0 <= i < c.cell_num ==> #[trigger] self.root()@.key_at(i) < key,
            forall|i: int|
                c.cell_num <= i < self.rows().len() ==> #[trigger] self.root()@.key_at(i) >= key,
            (c.cell_num < self.rows().len() && self.root()@.key_at(c.cell_num as int) == key)
                <==> self.root()@.has_key(key),
    {
        let root = self.pager.get_page(self.root_page_num as usize);
        let (_found, index) = root.binary_search(key);
        Cursor {
            page_num: self.root_page_num,
            cell_num: index as u32,
            end_of_table: false,
        }
    }

    /// A cursor at the first cell; at the end already when the table is
    /// empty.
    pub fn start(&self) -> (c: Cursor)
        requires
            self.wf(),
        ensures
            c.wf(*self),
            c.page_num == self.root_page_num,
            c.cell_num == 0,
            c.end_of_table <==> self.rows().len() == 0,
    {
        let root = self.pager.get_page(self.root_page_num as usize);
        let end_of_table: bool = root.cell_count() == 0;
        Cursor { page_num: self.root_page_num, cell_num: 0, end_of_table }
    }

    /// A cursor one past the last cell.
    pub fn end(&self) -> (c: Cursor)
        requires
            self.wf(),
        ensures
            c.wf(*self),
            c.page_num == self.root_page_num,
            c.cell_num == self.rows().len(),
            c.end_of_table,
    {
        let root = self.pager.get_page(self.root_page_num as usize);
        let cell_num: u32 = root.cell_count();
        Cursor { page_num: self.root_page_num, cell_num, end_of_table: true }
    }
}

/// A position in the table: a page number, a cell number inside that page,
/// and whether the position is past the last cell.
pub struct Cursor {
    pub page_num: u32,
    pub cell_num: u32,
    pub end_of_table: bool,
}

impl Cursor {
    /// The cursor points into the root page of `t`, at or before its end.
    pub open spec fn wf(self, t: Table) -> bool {
        self.page_num == t.root_page_num && self.cell_num <= t.rows().len()
    }

    /// Borrow the row under the cursor.
    pub fn get_value<'a>(&self, table: &'a Table) -> (r: &'a Row)
        requires
            table.wf(),
            self.wf(*table),
            (self.cell_num as int) < table.rows().len(),
        ensures
            r@ == table.rows()[self.cell_num as int].1,
    {
        let page = self.page_num as usize;
        let node = table.pager.get_page(page);
        match node {
            Node::Leaf { cells, .. } => {
                proof {
                    assert(cells@.map_values(|c: crate::node::Cell| c@)[self.cell_num as int]
                        == cells@[self.cell_num as int]@);
                }
                &cells[self.cell_num as usize].1
            },
        }
    }

    /// Overwrite the row under the cursor, keeping the cell's key.  The
    /// table invariant survives exactly when the new row's id is that key.
    pub fn set_value(&self, table: &mut Table, val: &Row)
        requires
            old(table).wf(),
            self.wf(*old(table)),
            (self.cell_num as int) < old(table).rows().len(),
            val.wf(),
        ensures
            final(table).rows() == old(table).rows().update(
                self.cell_num as int,
                (old(table).rows()[self.cell_num as int].0, val@),
            ),
            final(table).root_page_num == old(table).root_page_num,
            final(table).pager.disk@ == old(table).pager.disk@,
            final(table).pager.num_pages == old(table).pager.num_pages,
            final(table).pager.resident(0),
            final(table).root().count_ok(),
            val@.id == old(table).rows()[self.cell_num as int].0 ==> final(table).wf(),
    {
        let page = self.page_num as usize;
        let mut node = table.pager.take_page(page);
        let ghost oldnode = node;
        match &mut node {
            Node::Leaf { cells, .. } => {
                cells[self.cell_num as usize].set_val(val);
                proof {
                    assert(cells@.map_values(|c: crate::node::Cell| c@) =~= oldnode@.cells.update(
                        self.cell_num as int,
                        (oldnode@.cells[self.cell_num as int].0, val@),
                    ));
                }
            },
        }
        table.pager.put_page(page, node);
        proof {
            let t = *table;
            assert(t.pager.pages@.len() == TABLE_MAX_PAGES);
            assert forall|i: int| #[trigger] t.pager.resident(i) implies t.pager.page_at(i).wf()
                || i == 0 by {
                if i != 0 {
                    assert(old(table).pager.resident(i));
                }
            }
            assert forall|i: int|
                t.pager.num_pages <= i < t.pager.pages@.len() implies !(#[trigger] t.pager.resident(
                i,
            )) by {
                assert(i != 0);
                assert(t.pager.pages@[i] == old(table).pager.pages@[i]);
                assert(!old(table).pager.resident(i));
            }
            if val@.id == old(table).rows()[self.cell_num as int].0 {
                let oldv = oldnode@;
                let newv = t.root()@;
                assert(newv.cells == oldv.cells.update(
                    self.cell_num as int,
                    (oldv.cells[self.cell_num as int].0, val@),
                ));
                assert forall|i: int, j: int| 0 <= i < j < newv.cells.len() implies #[trigger] newv
                    .key_at(i) < #[trigger] newv.key_at(j) by {
                    assert(newv.key_at(i) == oldv.key_at(i));
                    assert(newv.key_at(j) == oldv.key_at(j));
                }
                assert forall|i: int| 0 <= i < newv.cells.len() implies (#[trigger] newv.cells[i]).1.wf()
                    && newv.cells[i].0 == newv.cells[i].1.id by {
                    if i != self.cell_num as int {
                        assert(newv.cells[i] == oldv.cells[i]);
                    }
                }
                assert(t.root().wf());
                assert forall|i: int| #[trigger] t.pager.resident(i) implies t.pager.page_at(
                    i,
                ).wf() by {
                    if i != 0 {
                        assert(old(table).pager.resident(i));
                    }
                }
            }
        }
    }

    /// Step to the next cell; past the last cell the end flag comes on.
    pub fn advance(&mut self, table: &Table)
        requires
            table.wf(),
            old(self).wf(*table),
            (old(self).cell_num as int) < table.rows().len(),
        ensures
            final(self).page_num == old(self).page_num,
            final(self).cell_num == old(self).cell_num + 1,
            final(self).end_of_table <==> (final(self).cell_num as int) >= table.rows().len(),
            final(self).wf(*table),
    {
        let page = self.page_num as usize;
        let node = table.pager.get_page(page);
        let count: u32 = node.cell_count();
        self.cell_num = self.cell_num + 1;
        if self.cell_num >= count {
            self.end_of_table = true;
        } else {
            self.end_of_table = false;
        }
    }

    /// Insert `(key, val)` at the cursor's position.  The position must be
    /// the one `Table::find` gives for a key not yet present: everything
    /// before it smaller, everything from it on larger.
    pub fn insert(&self, table: &mut Table, key: u32, val: &Row)
        requires
            old(table).wf(),
            self.wf(*old(table)),
            val.wf(),
            key == val@.id,
            old(table).rows().len() < LEAF_NODE_MAX_CELLS,
            forall|i: int| 0 <= i < self.cell_num ==> #[trigger] old(table).root()@.key_at(i) < key,
            forall|i: int|
                self.cell_num <= i < old(table).rows().len() ==> #[trigger] old(
                    table,
                ).root()@.key_at(i) > key,
        ensures
            final(table).wf(),
            final(table).rows() == old(table).rows().insert(self.cell_num as int, (key, val@)),
            final(table).root_page_num == old(table).root_page_num,
            final(table).pager.disk@ == old(table).pager.disk@,
            final(table).pager.num_pages == old(table).pager.num_pages,
    {
        let page = self.page_num as usize;
        let mut node = table.pager.take_page(page);
        let ghost oldnode = node;
        node.insert(self.cell_num, key, val);
        table.pager.put_page(page, node);
        proof {
            let t = *table;
            let oldv = oldnode@;
            let newv = t.root()@;
            assert(newv.cells == oldv.cells.insert(self.cell_num as int, (key, val@)));
            assert forall|i: int, j: int| 0 <= i < j < newv.cells.len() implies #[trigger] newv
                .key_at(i) < #[trigger] newv.key_at(j) by {
                let c = self.cell_num as int;
                if i < c && j < c {
                    assert(newv.key_at(i) == oldv.key_at(i));
                    assert(newv.key_at(j) == oldv.key_at(j));
                } else if i < c && j == c {
                    assert(newv.key_at(i) == oldv.key_at(i));
                } else if i < c && j > c {
                    assert(newv.key_at(i) == oldv.key_at(i));
                    assert(newv.key_at(j) == oldv.key_at(j - 1));
                    if c <= j - 1 {
                        assert(oldv.key_at(j - 1) > key);
                    }
                } else if i == c && j > c {
                    assert(newv.key_at(j) == oldv.key_at(j - 1));
                } else {
                    assert(newv.key_at(i) == oldv.key_at(i - 1));
                    assert(newv.key_at(j) == oldv.key_at(j - 1));
                }
            }
            assert forall|i: int| 0 <= i < newv.cells.len() implies (#[trigger] newv.cells[i]).1.wf()
                && newv.cells[i].0 == newv.cells[i].1.id by {
                let c = self.cell_num as int;
                if i < c {
                    assert(newv.cells[i] == oldv.cells[i]);
                } else if i > c {
                    assert(newv.cells[i] == oldv.cells[i - 1]);
                }
            }
            assert(t.root().wf());
            assert forall|i: int| #[trigger] t.pager.resident(i) implies t.pager.page_at(i).wf() by {
                if i != 0 {
                    assert(old(table).pager.resident(i));
                }
            }
            assert forall|i: int|
                t.pager.num_pages <= i < t.pager.pages@.len() implies !(#[trigger] t.pager.resident(
                i,
            )) by {
                assert(i != 0);
                assert(t.pager.pages@[i] == old(table).pager.pages@[i]);
                assert(!old(table).pager.resident(i));
            }
        }
    }
}

impl Table {
    /// The keys of the root node in order, for rendering the tree.
    pub fn root_keys(&self) -> (keys: Vec<u32>)
        requires
            self.wf(),
        ensures
            keys@.len() == self.rows().len(),
            forall|i: int| 0 <= i < keys@.len() ==> keys@[i] == self.rows()[i].0,
    {
        let root = self.pager.get_page(self.root_page_num as usize);
        match root {
            Node::Leaf { cells, .. } => {
                let mut keys: Vec<u32> = Vec::new();
                let mut i: usize = 0;
                while i < cells.len()
                    invariant
                        i <= cells@.len(),
                        cells@.map_values(|c: crate::node::Cell| c@) == self.rows(),
                        keys@.len() == i,
                        forall|j: int| 0 <= j < i ==> keys@[j] == self.rows()[j].0,
                    decreases cells@.len() - i,
                {
                    proof {
                        assert(cells@.map_values(|c: crate::node::Cell| c@)[i as int]
                            == cells@[i as int]@);
                    }
                    keys.push(cells[i].0);
                    i = i + 1;
                }
                keys
            },
        }
    }
}

/// Open a database over the bytes of its backing file: build the pager and
/// materialize the root page, decoding it when the file holds it and
/// creating an empty leaf for a fresh database.
pub fn db_open(file_bytes: Vec<u8>) -> (r: Result<Table, PagerError>)
    ensures
        file_bytes@.len() as int % (PAGE_SIZE as int) != 0 ==> r == Err::<Table, PagerError>(
            PagerError::CorruptFile,
        ),
        file_bytes@.len() as int % (PAGE_SIZE as int) == 0 && file_bytes@.len() as int / (
        PAGE_SIZE as int) > TABLE_MAX_PAGES ==> r == Err::<Table, PagerError>(
            PagerError::OutOfBounds,
        ),
        file_bytes@.len() == 0 ==> match r {
            Ok(t) => t.wf() && t.rows().len() == 0 && t.pager.num_pages == 1
                && t.pager.disk@ == file_bytes@,
            Err(_) => false,
        },
        0 < file_bytes@.len() && file_bytes@.len() as int % (PAGE_SIZE as int) == 0
            && file_bytes@.len() as int / (PAGE_SIZE as int) <= TABLE_MAX_PAGES ==> match r {
            Ok(t) => {
                &&& t.wf()
                &&& Some(t.root()@) == node_of_bytes(
                    file_bytes@.subrange(0, PAGE_SIZE as int),
                )
                &&& t.pager.num_pages == file_bytes@.len() as int / (PAGE_SIZE as int)
                &&& t.pager.disk@ == file_bytes@
            },
            Err(e) => e == PagerError::CorruptFile && node_of_bytes(
                file_bytes@.subrange(0, PAGE_SIZE as int),
            ) is None,
        },
{
    let ghost flen = file_bytes@.len() as int;
    let mut pager = match Pager::new(file_bytes) {
        Ok(p) => p,
        Err(e) => {
            return Err(e);
        },
    };
    match pager.ensure_resident(0) {
        Ok(()) => {},
        Err(e) => {
            proof {
                assert(pager.disk_pages() > 0);
                assert(pager.disk@.subrange(0 * PAGE_SIZE, (0 + 1) * PAGE_SIZE)
                    =~= pager.disk@.subrange(0, PAGE_SIZE as int));
            }
            return Err(e);
        },
    }
    proof {
        if flen > 0 && flen % (PAGE_SIZE as int) == 0 && flen / (PAGE_SIZE as int)
            <= TABLE_MAX_PAGES {
            assert(pager.disk@.subrange(0 * PAGE_SIZE, (0 + 1) * PAGE_SIZE)
                =~= pager.disk@.subrange(0, PAGE_SIZE as int));
        }
    }
    Ok(Table::new(pager))
}

/// Serialize the whole database for a clean close: every page at its
/// natural offset, always a whole number of pages.
pub fn db_close(table: &Table) -> (out: Vec<u8>)
    requires
        table.wf(),
    ensures
        out@.len() == table.pager.num_pages * PAGE_SIZE,
        out@.len() as int % (PAGE_SIZE as int) == 0,
        forall|i: int|
            0 <= i < table.pager.num_pages ==> #[trigger] out@.subrange(
                i * PAGE_SIZE,
                (i + 1) * PAGE_SIZE,
            ) == table.pager.page_image(i),
        out@.subrange(0, PAGE_SIZE as int) == node_bytes(table.root()@),
{
    let out = table.pager.close_image();
    proof {
        assert(out@.subrange(0 * PAGE_SIZE, (0 + 1) * PAGE_SIZE) == table.pager.page_image(0));
        assert(out@.subrange(0, PAGE_SIZE as int) =~= out@.subrange(
            0 * PAGE_SIZE,
            (0 + 1) * PAGE_SIZE,
        ));
        assert(table.pager.page_image(0) == node_bytes(table.root()@));
    }
    out
}

/// Closing and reopening preserves the table: the root page of the closed
/// image decodes back to the very root node, so a reopened database holds
/// exactly the rows the closed one held.
pub proof fn lemma_close_then_open_preserves_rows(t: Table)
    requires
        t.wf(),
    ensures
        node_of_bytes(t.pager.page_image(0)) == Some(t.root()@),
        node_of_bytes(t.pager.page_image(0))->Some_0.cells == t.rows(),
{
    assert(t.pager.page_image(0) == node_bytes(t.root()@));
    lemma_node_round_trip(t.root()@);
}

/// A row written through a cursor and read back at the same position is
/// the row that was written: both for an insertion at the position and for
/// an overwrite of the cell there.
pub proof fn lemma_write_then_read(rows: Seq<(u32, RowV)>, i: int, key: u32, r: RowV)
    ensures
        0 <= i <= rows.len() ==> rows.insert(i, (key, r))[i] == (key, r),
        0 <= i < rows.len() ==> rows.update(i, (rows[i].0, r))[i].1 == r,
{
}

} // verus!
