//! The byte format: rows, cells and whole leaf nodes as fixed-size images.
//!
//! A row serializes to exactly `ROW_SIZE` bytes: the id as a little-endian
//! u32, a one-byte username length, the username zero-padded to 32 bytes, a
//! one-byte email length and the email zero-padded to 255 bytes.  A node
//! serializes to exactly `PAGE_SIZE` bytes: a one-byte `is_root` flag, the
//! parent pointer and the cell count as little-endian u32s, then the cells
//! back to back, then zeros.  Encoding is deterministic: a logical value
//! has exactly one image.

use vstd::prelude::*;

use vstd::bytes::{
    lemma_auto_spec_u32_to_from_le_bytes, spec_u32_from_le_bytes, spec_u32_to_le_bytes,
    u32_from_le_bytes, u32_to_le_bytes,
};
use vstd::slice::slice_subrange;

use crate::node::{Cell, Node, NodeHeader, NodeV};
use crate::row::{Row, RowV};
use crate::{CELL_SIZE, LEAF_NODE_HEADER_SIZE, LEAF_NODE_MAX_CELLS, MAX_EMAIL_LENGTH,
    MAX_UNAME_LENGTH, PAGE_SIZE, ROW_SIZE};

verus! {

/// How decoding a byte image can fail.
#[derive(Debug, PartialEq, Eq, Structural, Clone, Copy)]
pub enum CodecError {
    /// The input holds fewer bytes than the decoded shape needs.
    UnexpectedEof,
    /// A decoded row carries a column length past its buffer.
    CorruptRow,
    /// A decoded page is no valid leaf node image.
    CorruptFile,
}

/// `n` zero bytes.
pub open spec fn zeros(n: int) -> Seq<u8> {
    Seq::new(n as nat, |i: int| 0u8)
}

/// `s` zero-padded on the right to exactly `n` bytes.
pub open spec fn pad(s: Seq<u8>, n: int) -> Seq<u8> {
    s + zeros(n - s.len())
}

/// The `ROW_SIZE`-byte image of a row.
pub open spec fn row_bytes(r: RowV) -> Seq<u8> {
    spec_u32_to_le_bytes(r.id) + seq![r.username.len() as u8] + pad(
        r.username,
        MAX_UNAME_LENGTH as int,
    ) + seq![r.email.len() as u8] + pad(r.email, MAX_EMAIL_LENGTH as int)
}

pub proof fn lemma_row_bytes_len(r: RowV)
    requires
        r.wf(),
    ensures
        row_bytes(r).len() == ROW_SIZE,
{
    lemma_auto_spec_u32_to_from_le_bytes();
}

/// The row a `ROW_SIZE`-byte image decodes to, or `None` when a column
/// length runs past its buffer.
pub open spec fn row_of_bytes(b: Seq<u8>) -> Option<RowV>
    recommends
        b.len() == ROW_SIZE,
{
    let id = spec_u32_from_le_bytes(b.subrange(0, 4));
    let ulen = b[4] as int;
    let elen = b[37] as int;
    if ulen > MAX_UNAME_LENGTH {
        None
    } else {
        Some(
            RowV {
                id,
                username: b.subrange(5, 5 + ulen),
                email: b.subrange(38, 38 + elen),
            },
        )
    }
}

/// Decoding inverts encoding: a well-formed row read back from its own
/// image is itself.
pub proof fn lemma_row_round_trip(r: RowV)
    requires
        r.wf(),
    ensures
        row_bytes(r).len() == ROW_SIZE,
        row_of_bytes(row_bytes(r)) == Some(r),
{
    lemma_auto_spec_u32_to_from_le_bytes();
    let b = row_bytes(r);
    let ulen = r.username.len() as int;
    let elen = r.email.len() as int;
    assert(b.subrange(0, 4) =~= spec_u32_to_le_bytes(r.id));
    assert(b[4] == r.username.len() as u8);
    assert(b[37] == r.email.len() as u8);
    assert(b.subrange(5, 5 + ulen) =~= r.username);
    assert(b.subrange(38, 38 + elen) =~= r.email);
}

/// Append the image of `data` zero-padded to `width` bytes.
fn push_padded(out: &mut Vec<u8>, data: &Vec<u8>, width: usize)
    requires
        data@.len() <= width,
    ensures
        final(out)@ == old(out)@ + pad(data@, width as int),
{
    let ghost base = out@;
    let mut i: usize = 0;
    while i < width
        invariant
            i <= width,
            data@.len() <= width,
            out@ == base + pad(data@, width as int).take(i as int),
        decreases width - i,
    {
        if i < data.len() {
            out.push(data[i]);
        } else {
            out.push(0u8);
        }
        i = i + 1;
        proof {
            assert(out@ =~= base + pad(data@, width as int).take(i as int));
        }
    }
    proof {
        assert(out@ =~= base + pad(data@, width as int));
    }
}

/// Append the little-endian image of `x`.
fn push_u32_le(out: &mut Vec<u8>, x: u32)
    ensures
        final(out)@ == old(out)@ + spec_u32_to_le_bytes(x),
{
    let mut b = u32_to_le_bytes(x);
    out.append(&mut b);
}

/// Append the `ROW_SIZE`-byte image of `r`.
pub fn encode_row(r: &Row, out: &mut Vec<u8>)
    requires
        r.wf(),
    ensures
        final(out)@ == old(out)@ + row_bytes(r@),
        final(out)@.len() == old(out)@.len() + ROW_SIZE,
{
    proof {
        lemma_row_bytes_len(r@);
    }
    push_u32_le(out, r.id);
    out.push(r.username.len() as u8);
    push_padded(out, &r.username, MAX_UNAME_LENGTH);
    out.push(r.email.len() as u8);
    push_padded(out, &r.email, MAX_EMAIL_LENGTH);
    proof {
        assert(out@ =~= old(out)@ + row_bytes(r@));
    }
}

/// Copy `b[off .. off + n]` into a fresh vector.
fn copy_range(b: &[u8], off: usize, n: usize) -> (out: Vec<u8>)
    requires
        off + n <= b@.len(),
    ensures
        out@ == b@.subrange(off as int, off as int + n as int),
{
    let blen: usize = b.len();
    let mut out: Vec<u8> = Vec::new();
    let mut i: usize = 0;
    while i < n
        invariant
            i <= n,
            off + n <= blen == b@.len(),
            out@ == b@.subrange(off as int, off as int + i as int),
        decreases n - i,
    {
        out.push(b[off + i]);
        i = i + 1;
        proof {
            assert(out@ =~= b@.subrange(off as int, off as int + i as int));
        }
    }
    out
}

/// Decode the row image at `b[off .. off + ROW_SIZE]`.
pub fn decode_row_at(b: &[u8], off: usize) -> (r: Result<Row, CodecError>)
    requires
        off + ROW_SIZE <= b@.len(),
    ensures
        match r {
            Ok(row) => {
                &&& row.wf()
                &&& row_of_bytes(b@.subrange(off as int, off as int + ROW_SIZE as int)) == Some(
                    row@,
                )
            },
            Err(e) => {
                &&& e == CodecError::CorruptRow
                &&& row_of_bytes(b@.subrange(off as int, off as int + ROW_SIZE as int)) is None
            },
        },
{
    let ghost img = b@.subrange(off as int, off as int + ROW_SIZE as int);
    let blen: usize = b.len();
    let id = u32_from_le_bytes(slice_subrange(b, off, off + 4));
    proof {
        assert(b@.subrange(off as int, off as int + 4) =~= img.subrange(0, 4));
    }
    let ulen: u8 = b[off + 4];
    proof {
        assert(img[4] == b@[off as int + 4]);
    }
    if ulen as usize > MAX_UNAME_LENGTH {
        return Err(CodecError::CorruptRow);
    }
    let elen: u8 = b[off + 37];
    proof {
        assert(img[37] == b@[off as int + 37]);
    }
    let username = copy_range(b, off + 5, ulen as usize);
    let email = copy_range(b, off + 38, elen as usize);
    proof {
        assert(username@ =~= img.subrange(5, 5 + ulen as int));
        assert(email@ =~= img.subrange(38, 38 + elen as int));
    }
    Ok(Row { id, username, email })
}

/// Decode one row from the front of `b`, as the public row codec: too few
/// bytes is `UnexpectedEof`, a bad column length `CorruptRow`.
pub fn decode_row(b: &[u8]) -> (r: Result<Row, CodecError>)
    ensures
        b@.len() < ROW_SIZE ==> r == Err::<Row, CodecError>(CodecError::UnexpectedEof),
        b@.len() >= ROW_SIZE ==> match r {
            Ok(row) => row.wf() && row_of_bytes(b@.take(ROW_SIZE as int)) == Some(row@),
            Err(e) => e == CodecError::CorruptRow && row_of_bytes(b@.take(ROW_SIZE as int)) is None,
        },
{
    if b.len() < ROW_SIZE {
        return Err(CodecError::UnexpectedEof);
    }
    let r = decode_row_at(b, 0);
    proof {
        assert(b@.subrange(0, ROW_SIZE as int) =~= b@.take(ROW_SIZE as int));
    }
    r
}

/// Every row in the cell sequence is well formed.
pub open spec fn rows_wf(cs: Seq<(u32, RowV)>) -> bool {
    forall|i: int| 0 <= i < cs.len() ==> (#[trigger] cs[i]).1.wf()
}

/// The `CELL_SIZE`-byte image of one cell: the key, then the row.
pub open spec fn cell_bytes(c: (u32, RowV)) -> Seq<u8> {
    spec_u32_to_le_bytes(c.0) + row_bytes(c.1)
}

/// The cells of a node back to back.
pub open spec fn cells_bytes(cs: Seq<(u32, RowV)>) -> Seq<u8>
    decreases cs.len(),
{
    if cs.len() == 0 {
        Seq::empty()
    } else {
        cell_bytes(cs[0]) + cells_bytes(cs.skip(1))
    }
}

pub proof fn lemma_cell_bytes_len(c: (u32, RowV))
    requires
        c.1.wf(),
    ensures
        cell_bytes(c).len() == CELL_SIZE,
{
    lemma_auto_spec_u32_to_from_le_bytes();
    lemma_row_bytes_len(c.1);
}

pub proof fn lemma_cells_bytes_len(cs: Seq<(u32, RowV)>)
    requires
        rows_wf(cs),
    ensures
        cells_bytes(cs).len() == CELL_SIZE * cs.len(),
    decreases cs.len(),
{
    if cs.len() == 0 {
    } else {
        lemma_cell_bytes_len(cs[0]);
        assert(rows_wf(cs.skip(1))) by {
            assert forall|i: int| 0 <= i < cs.skip(1).len() implies (#[trigger] cs.skip(1)[i]).1.wf() by {
                assert(cs.skip(1)[i] == cs[i + 1]);
            }
        }
        lemma_cells_bytes_len(cs.skip(1));
    }
}

pub proof fn lemma_cells_bytes_snoc(cs: Seq<(u32, RowV)>, c: (u32, RowV))
    ensures
        cells_bytes(cs.push(c)) == cells_bytes(cs) + cell_bytes(c),
    decreases cs.len(),
{
    if cs.len() == 0 {
        assert(cs.push(c)[0] == c);
        assert(cs.push(c).skip(1) =~= Seq::<(u32, RowV)>::empty());
        assert(cells_bytes(cs.push(c)) =~= cells_bytes(cs) + cell_bytes(c));
    } else {
        assert(cs.push(c)[0] == cs[0]);
        assert(cs.push(c).skip(1) =~= cs.skip(1).push(c));
        lemma_cells_bytes_snoc(cs.skip(1), c);
        assert(cells_bytes(cs.push(c)) == cell_bytes(cs[0]) + cells_bytes(cs.push(c).skip(1)));
        assert(cells_bytes(cs.push(c).skip(1)) == cells_bytes(cs.skip(1)) + cell_bytes(c));
        assert(cells_bytes(cs) == cell_bytes(cs[0]) + cells_bytes(cs.skip(1)));
        assert(cell_bytes(cs[0]) + (cells_bytes(cs.skip(1)) + cell_bytes(c)) =~= (cell_bytes(cs[0])
            + cells_bytes(cs.skip(1))) + cell_bytes(c));
    }
}

pub proof fn lemma_cells_bytes_index(cs: Seq<(u32, RowV)>, i: int)
    requires
        rows_wf(cs),
        0 <= i < cs.len(),
    ensures
        cells_bytes(cs).subrange(CELL_SIZE * i, CELL_SIZE * (i + 1)) == cell_bytes(cs[i]),
    decreases i,
{
    lemma_cells_bytes_len(cs);
    lemma_cell_bytes_len(cs[0]);
    assert(rows_wf(cs.skip(1))) by {
        assert forall|k: int| 0 <= k < cs.skip(1).len() implies (#[trigger] cs.skip(1)[k]).1.wf() by {
            assert(cs.skip(1)[k] == cs[k + 1]);
        }
    }
    lemma_cells_bytes_len(cs.skip(1));
    if i == 0 {
        assert(cells_bytes(cs).subrange(0, CELL_SIZE as int) =~= cell_bytes(cs[0]));
    } else {
        lemma_cells_bytes_index(cs.skip(1), i - 1);
        assert(cs.skip(1)[i - 1] == cs[i]);
        assert(cells_bytes(cs).subrange(CELL_SIZE * i, CELL_SIZE * (i + 1)) =~= cells_bytes(
            cs.skip(1),
        ).subrange(CELL_SIZE * (i - 1), CELL_SIZE * i));
    }
}

/// The `PAGE_SIZE`-byte image of a node: flag byte, parent pointer, cell
/// count, the cells, then zeros.
pub open spec fn node_bytes(n: NodeV) -> Seq<u8> {
    seq![if n.is_root { 1u8 } else { 0u8 }] + spec_u32_to_le_bytes(n.parent_ptr)
        + spec_u32_to_le_bytes(n.cells.len() as u32) + cells_bytes(n.cells) + zeros(
        PAGE_SIZE - LEAF_NODE_HEADER_SIZE - CELL_SIZE * n.cells.len(),
    )
}

pub proof fn lemma_node_bytes_len(n: NodeV)
    requires
        n.wf(),
    ensures
        node_bytes(n).len() == PAGE_SIZE,
{
    lemma_auto_spec_u32_to_from_le_bytes();
    assert(rows_wf(n.cells));
    lemma_cells_bytes_len(n.cells);
}

/// The `CELL_SIZE`-byte slice of a page image where cell `i` sits.
pub open spec fn cell_img(b: Seq<u8>, i: int) -> Seq<u8> {
    b.subrange(
        LEAF_NODE_HEADER_SIZE + CELL_SIZE * i,
        LEAF_NODE_HEADER_SIZE + CELL_SIZE * (i + 1),
    )
}

/// The cell a `CELL_SIZE`-byte image decodes to: `None` when the row is
/// corrupt or the key differs from the row's id.
pub open spec fn cell_of_bytes(b: Seq<u8>) -> Option<(u32, RowV)>
    recommends
        b.len() == CELL_SIZE,
{
    let key = spec_u32_from_le_bytes(b.subrange(0, 4));
    let row = row_of_bytes(b.subrange(4, CELL_SIZE as int));
    if row is Some && key == row->Some_0.id {
        Some((key, row->Some_0))
    } else {
        None
    }
}

/// The first `n` cell slots of the page image all decode.
pub open spec fn cells_ok(b: Seq<u8>, n: int) -> bool {
    forall|i: int| 0 <= i < n ==> cell_of_bytes(#[trigger] cell_img(b, i)) is Some
}

/// The first `n` cell slots of the page image, decoded.
pub open spec fn parsed_cells(b: Seq<u8>, n: int) -> Seq<(u32, RowV)> {
    Seq::new(n as nat, |i: int| cell_of_bytes(cell_img(b, i))->Some_0)
}

/// The node a `PAGE_SIZE`-byte image decodes to, or `None` when the image
/// breaks the node invariant in any way.
pub open spec fn node_of_bytes(b: Seq<u8>) -> Option<NodeV>
    recommends
        b.len() == PAGE_SIZE,
{
    let ncells = spec_u32_from_le_bytes(b.subrange(5, 9)) as int;
    if b[0] != 0 && b[0] != 1 {
        None
    } else if ncells > LEAF_NODE_MAX_CELLS {
        None
    } else if !cells_ok(b, ncells) {
        None
    } else {
        let n = NodeV {
            is_root: b[0] == 1,
            parent_ptr: spec_u32_from_le_bytes(b.subrange(1, 5)),
            cells: parsed_cells(b, ncells),
        };
        if n.sorted() {
            Some(n)
        } else {
            None
        }
    }
}

/// Decoding inverts encoding for one cell.
pub proof fn lemma_cell_round_trip(c: (u32, RowV))
    requires
        c.1.wf(),
        c.0 == c.1.id,
    ensures
        cell_of_bytes(cell_bytes(c)) == Some(c),
{
    lemma_auto_spec_u32_to_from_le_bytes();
    lemma_row_bytes_len(c.1);
    let b = cell_bytes(c);
    assert(b.subrange(0, 4) =~= spec_u32_to_le_bytes(c.0));
    assert(b.subrange(4, CELL_SIZE as int) =~= row_bytes(c.1));
    lemma_row_round_trip(c.1);
}

/// Decoding inverts encoding: a well-formed node read back from its own
/// page image is itself.
pub proof fn lemma_node_round_trip(n: NodeV)
    requires
        n.wf(),
    ensures
        node_bytes(n).len() == PAGE_SIZE,
        node_of_bytes(node_bytes(n)) == Some(n),
{
    lemma_auto_spec_u32_to_from_le_bytes();
    lemma_node_bytes_len(n);
    assert(rows_wf(n.cells));
    lemma_cells_bytes_len(n.cells);
    let b = node_bytes(n);
    let nc = n.cells.len() as int;
    assert(b[0] == if n.is_root { 1u8 } else { 0u8 });
    assert(b.subrange(1, 5) =~= spec_u32_to_le_bytes(n.parent_ptr));
    assert(b.subrange(5, 9) =~= spec_u32_to_le_bytes(n.cells.len() as u32));
    assert(spec_u32_from_le_bytes(b.subrange(5, 9)) == nc);
    assert forall|i: int| 0 <= i < nc implies cell_of_bytes(#[trigger] cell_img(b, i)) == Some(
        n.cells[i],
    ) by {
        lemma_cells_bytes_index(n.cells, i);
        assert(cell_img(b, i) =~= cells_bytes(n.cells).subrange(
            CELL_SIZE * i,
            CELL_SIZE * (i + 1),
        ));
        lemma_cell_round_trip(n.cells[i]);
    }
    assert(cells_ok(b, nc));
    assert(parsed_cells(b, nc) =~= n.cells);
    let m = node_of_bytes(b)->Some_0;
    assert(node_of_bytes(b) == Some(n));
}

/// Append the `PAGE_SIZE`-byte image of `n`.
pub fn encode_node(n: &Node, out: &mut Vec<u8>)
    requires
        n.wf(),
    ensures
        final(out)@ == old(out)@ + node_bytes(n@),
        final(out)@.len() == old(out)@.len() + PAGE_SIZE,
{
    proof {
        lemma_node_bytes_len(n@);
        assert(rows_wf(n@.cells));
        lemma_cells_bytes_len(n@.cells);
    }
    let ghost base = out@;
    match n {
        Node::Leaf { header, num_cells, cells } => {
            if header.is_root {
                out.push(1u8);
            } else {
                out.push(0u8);
            }
            push_u32_le(out, header.parent_ptr);
            push_u32_le(out, *num_cells);
            let ghost prefix = out@;
            proof {
                assert(n@.cells.take(0) =~= Seq::<(u32, RowV)>::empty());
            }
            let mut i: usize = 0;
            while i < cells.len()
                invariant
                    i <= cells@.len(),
                    n.wf(),
                    cells@.map_values(|c: Cell| c@) == n@.cells,
                    out@ == prefix + cells_bytes(n@.cells.take(i as int)),
                decreases cells@.len() - i,
            {
                let c: &Cell = &cells[i];
                proof {
                    assert(c@ == n@.cells[i as int]);
                    assert(n@.cells[i as int].1.wf());
                }
                push_u32_le(out, c.0);
                encode_row(&c.1, out);
                proof {
                    assert(n@.cells.take(i + 1) =~= n@.cells.take(i as int).push(
                        n@.cells[i as int],
                    ));
                    lemma_cells_bytes_snoc(n@.cells.take(i as int), n@.cells[i as int]);
                    assert(out@ =~= prefix + cells_bytes(n@.cells.take(i + 1)));
                }
                i = i + 1;
            }
            proof {
                assert(n@.cells.take(n@.cells.len() as int) =~= n@.cells);
            }
            let ghost mid = out@;
            let pad_len: usize = PAGE_SIZE - LEAF_NODE_HEADER_SIZE - CELL_SIZE * cells.len();
            let mut j: usize = 0;
            while j < pad_len
                invariant
                    j <= pad_len,
                    out@ == mid + zeros(j as int),
                decreases pad_len - j,
            {
                out.push(0u8);
                j = j + 1;
                proof {
                    assert(out@ =~= mid + zeros(j as int));
                }
            }
            proof {
                assert(zeros(pad_len as int) =~= zeros(
                    PAGE_SIZE - LEAF_NODE_HEADER_SIZE - CELL_SIZE * n@.cells.len(),
                ));
                assert(out@ =~= base + node_bytes(n@));
            }
        },
    }
}

/// Decode the page image at `b[off .. off + PAGE_SIZE]`.  Any way the
/// image breaks the node invariant is reported as a corrupt file.
pub fn decode_node(b: &[u8], off: usize) -> (r: Result<Node, CodecError>)
    requires
        off + PAGE_SIZE <= b@.len(),
    ensures
        match r {
            Ok(node) => {
                &&& node.wf()
                &&& node_of_bytes(b@.subrange(off as int, off as int + PAGE_SIZE as int))
                    == Some(node@)
            },
            Err(e) => {
                &&& e == CodecError::CorruptFile
                &&& node_of_bytes(b@.subrange(off as int, off as int + PAGE_SIZE as int)) is None
            },
        },
{
    let ghost img = b@.subrange(off as int, off as int + PAGE_SIZE as int);
    let blen: usize = b.len();
    let flag: u8 = b[off];
    proof {
        assert(img[0] == b@[off as int]);
    }
    if flag > 1 {
        return Err(CodecError::CorruptFile);
    }
    let parent = u32_from_le_bytes(slice_subrange(b, off + 1, off + 5));
    let ncells_u32 = u32_from_le_bytes(slice_subrange(b, off + 5, off + 9));
    proof {
        assert(b@.subrange(off + 1, off + 5) =~= img.subrange(1, 5));
        assert(b@.subrange(off + 5, off + 9) =~= img.subrange(5, 9));
    }
    if ncells_u32 as usize > LEAF_NODE_MAX_CELLS {
        return Err(CodecError::CorruptFile);
    }
    let ncells: usize = ncells_u32 as usize;
    let mut cells: Vec<Cell> = Vec::new();
    let mut i: usize = 0;
    while i < ncells
        invariant
            i <= ncells <= LEAF_NODE_MAX_CELLS,
            off + PAGE_SIZE <= blen == b@.len(),
            img == b@.subrange(off as int, off as int + PAGE_SIZE as int),
            spec_u32_from_le_bytes(img.subrange(5, 9)) == ncells,
            cells@.len() == i,
            forall|j: int| 0 <= j < i ==> cell_of_bytes(#[trigger] cell_img(img, j)) is Some,
            cells@.map_values(|c: Cell| c@) == parsed_cells(img, i as int),
            forall|j: int|
                0 <= j < i ==> (#[trigger] cells@[j])@.1.wf() && cells@[j]@.0 == cells@[j]@.1.id,
            forall|j: int, k: int|
                0 <= j < k < i ==> (#[trigger] cells@[j])@.0 < (#[trigger] cells@[k])@.0,
        decreases ncells - i,
    {
        let cell_off: usize = off + LEAF_NODE_HEADER_SIZE + CELL_SIZE * i;
        let key = u32_from_le_bytes(slice_subrange(b, cell_off, cell_off + 4));
        let ghost ci = cell_img(img, i as int);
        proof {
            assert(ci =~= b@.subrange(cell_off as int, cell_off as int + CELL_SIZE as int));
            assert(ci.subrange(0, 4) =~= b@.subrange(cell_off as int, cell_off as int + 4));
            assert(ci.subrange(4, CELL_SIZE as int) =~= b@.subrange(
                cell_off as int + 4,
                cell_off as int + 4 + ROW_SIZE as int,
            ));
        }
        let row = match decode_row_at(b, cell_off + 4) {
            Ok(row) => row,
            Err(_) => {
                proof {
                    assert(cell_of_bytes(cell_img(img, i as int)) is None);
                    assert(!cells_ok(img, ncells as int));
                }
                return Err(CodecError::CorruptFile);
            },
        };
        if key != row.id {
            proof {
                assert(cell_of_bytes(cell_img(img, i as int)) is None);
                assert(!cells_ok(img, ncells as int));
            }
            return Err(CodecError::CorruptFile);
        }
        proof {
            assert(cell_of_bytes(cell_img(img, i as int)) == Some((key, row@)));
        }
        if i > 0 {
            let prev: u32 = cells[i - 1].0;
            proof {
                assert(cells@.map_values(|c: Cell| c@)[i - 1] == cells@[i - 1]@);
                assert(parsed_cells(img, i as int)[i - 1] == cell_of_bytes(
                    cell_img(img, i - 1),
                )->Some_0);
                assert(cell_of_bytes(cell_img(img, i - 1))->Some_0.0 == prev);
            }
            if key <= prev {
                proof {
                    if cells_ok(img, ncells as int) {
                        let m = NodeV {
                            is_root: img[0] == 1,
                            parent_ptr: spec_u32_from_le_bytes(img.subrange(1, 5)),
                            cells: parsed_cells(img, ncells as int),
                        };
                        assert(m.cells[i - 1] == cell_of_bytes(cell_img(img, i - 1))->Some_0);
                        assert(m.cells[i as int] == cell_of_bytes(cell_img(img, i as int))->Some_0);
                        assert(m.key_at(i - 1) == prev);
                        assert(m.key_at(i as int) == key);
                        assert(!m.sorted());
                    }
                }
                return Err(CodecError::CorruptFile);
            }
        }
        let ghost pre = cells@;
        cells.push(Cell(key, row));
        proof {
            assert forall|j: int| 0 <= j < i + 1 implies cells@.map_values(|c: Cell| c@)[j]
                == #[trigger] parsed_cells(img, i + 1)[j] by {
                if j < i {
                    assert(cells@[j] == pre[j]);
                    assert(pre.map_values(|c: Cell| c@)[j] == pre[j]@);
                    assert(parsed_cells(img, i as int)[j] == cell_of_bytes(
                        cell_img(img, j),
                    )->Some_0);
                    assert(parsed_cells(img, i + 1)[j] == cell_of_bytes(cell_img(img, j))->Some_0);
                } else {
                    assert(cells@[j] == Cell(key, row));
                }
            }
            assert(cells@.map_values(|c: Cell| c@) =~= parsed_cells(img, i + 1));
        }
        i = i + 1;
    }
    let node = Node::Leaf {
        header: NodeHeader { is_root: flag == 1, parent_ptr: parent },
        num_cells: ncells_u32,
        cells,
    };
    proof {
        assert(parsed_cells(img, ncells as int) =~= node@.cells);
        assert forall|j: int, k: int| 0 <= j < k < node@.cells.len() implies #[trigger] node@.key_at(
            j,
        ) < #[trigger] node@.key_at(k) by {
            assert(node@.cells[j] == cells@[j]@);
            assert(node@.cells[k] == cells@[k]@);
        }
        assert forall|j: int| 0 <= j < node@.cells.len() implies (#[trigger] node@.cells[j]).1.wf()
            && node@.cells[j].0 == node@.cells[j].1.id by {
            assert(node@.cells[j] == cells@[j]@);
        }
        assert(node.wf());
        assert(node_of_bytes(img) == Some(node@));
    }
    Ok(node)
}

} // verus!
