//! The statement layer: one input line parsed into an operation, and the
//! operations run against the table.
//!
//! A line is split on ASCII whitespace.  `insert <id> <username> <email>`
//! becomes a row — the id must parse as a signed 32-bit integer and be
//! non-negative, the username must fit 32 bytes and the email 255 —
//! and `select` asks for every row in ascending id order.  A line opening
//! with `.` is a meta-command.

use vstd::prelude::*;

use crate::row::{clip, Row, RowV};
use crate::table::Table;
use crate::{LEAF_NODE_MAX_CELLS, MAX_EMAIL_LENGTH, MAX_UNAME_LENGTH};

verus! {

/// How parsing one input line can fail.
#[derive(Debug, PartialEq, Eq, Structural, Clone, Copy)]
pub enum ParseError {
    /// The line opens with no known keyword or meta-command.
    Unrecognized,
    /// An insert misses arguments or its id is no 32-bit integer.
    InvalidSyntax,
    /// A username over 32 bytes or an email over 255.
    StringTooLong,
    /// An id that parsed but is negative.
    NegativeID,
}

/// A recognized meta-command.
#[derive(Debug, PartialEq, Eq, Structural, Clone, Copy)]
pub enum MetaCommand {
    /// Flush everything and end the session.
    Exit,
    /// Print the compile-time sizes.
    PrintConstants,
    /// Print the root node.
    PrintTree,
}

/// One parsed statement.
pub enum Statement {
    Insert(Row),
    Select,
}

/// How executing a statement can fail.
#[derive(Debug, PartialEq, Eq, Structural, Clone, Copy)]
pub enum ExecuteError {
    /// The inserted id equals an existing row's id.
    DuplicateKey,
    /// The single leaf already holds its greatest cell count.
    TableFull,
}

/// ASCII whitespace, what the tokenizer splits on.
pub open spec fn is_space(c: u8) -> bool {
    c == 32 || c == 9 || c == 10 || c == 11 || c == 12 || c == 13
}

/// Length of the leading whitespace-free run.
pub open spec fn token_len(s: Seq<u8>) -> int
    decreases s.len(),
{
    if s.len() == 0 || is_space(s[0]) {
        0
    } else {
        1 + token_len(s.skip(1))
    }
}

pub proof fn lemma_token_len_bounds(s: Seq<u8>)
    ensures
        0 <= token_len(s) <= s.len(),
    decreases s.len(),
{
    if s.len() == 0 || is_space(s[0]) {
    } else {
        lemma_token_len_bounds(s.skip(1));
    }
}

/// The leading run is exactly `k` long when its bytes are no whitespace
/// and the byte after it is, or the input ends there.
pub proof fn lemma_token_len_is(s: Seq<u8>, k: int)
    requires
        0 <= k <= s.len(),
        forall|j: int| 0 <= j < k ==> !is_space(#[trigger] s[j]),
        k == s.len() || is_space(s[k]),
    ensures
        token_len(s) == k,
    decreases k,
{
    if k == 0 {
    } else {
        assert(!is_space(s[0]));
        lemma_token_len_is(s.skip(1), k - 1);
    }
}

/// The whitespace-separated tokens of a line, in order.
pub open spec fn tokens_of(s: Seq<u8>) -> Seq<Seq<u8>>
    decreases s.len(),
    via tokens_of_decreases
{
    if s.len() == 0 {
        Seq::empty()
    } else if is_space(s[0]) {
        tokens_of(s.skip(1))
    } else {
        seq![s.take(token_len(s))] + tokens_of(s.skip(token_len(s)))
    }
}

#[via_fn]
proof fn tokens_of_decreases(s: Seq<u8>) {
    if s.len() != 0 && !is_space(s[0]) {
        lemma_token_len_bounds(s);
        lemma_token_len_bounds(s.skip(1));
        assert(token_len(s) == 1 + token_len(s.skip(1)));
        assert(token_len(s) >= 1);
    }
}

fn is_space_byte(c: u8) -> (r: bool)
    ensures
        r == is_space(c),
{
    c == 32 || c == 9 || c == 10 || c == 11 || c == 12 || c == 13
}

/// Split a line into its whitespace-separated tokens.
pub fn tokenize(s: &[u8]) -> (out: Vec<Vec<u8>>)
    ensures
        out@.map_values(|t: Vec<u8>| t@) == tokens_of(s@),
{
    let slen: usize = s.len();
    let mut out: Vec<Vec<u8>> = Vec::new();
    let mut i: usize = 0;
    proof {
        assert(s@.skip(0) =~= s@);
        assert(out@.map_values(|t: Vec<u8>| t@) + tokens_of(s@) =~= tokens_of(s@));
    }
    while i < slen
        invariant
            i <= slen == s@.len(),
            tokens_of(s@) == out@.map_values(|t: Vec<u8>| t@) + tokens_of(s@.skip(i as int)),
        decreases slen - i,
    {
        if is_space_byte(s[i]) {
            proof {
                assert(s@.skip(i as int).skip(1) =~= s@.skip(i as int + 1));
            }
            i = i + 1;
        } else {
            let start: usize = i;
            let mut tok: Vec<u8> = Vec::new();
            tok.push(s[i]);
            i = i + 1;
            while i < slen && !is_space_byte(s[i])
                invariant
                    start < i <= slen == s@.len(),
                    tok@ == s@.subrange(start as int, i as int),
                    forall|j: int| start <= j < i ==> !is_space(#[trigger] s@[j]),
                decreases slen - i,
            {
                tok.push(s[i]);
                i = i + 1;
                proof {
                    assert(tok@ =~= s@.subrange(start as int, i as int));
                }
            }
            let ghost pre = out@;
            out.push(tok);
            proof {
                let t = s@.skip(start as int);
                lemma_token_len_is(t, i - start);
                assert(tokens_of(t) == seq![t.take(i - start)] + tokens_of(t.skip(i - start)));
                assert(t.take(i - start) =~= tok@);
                assert(t.skip(i - start) =~= s@.skip(i as int));
                assert(out@.map_values(|t2: Vec<u8>| t2@) =~= pre.map_values(|t2: Vec<u8>| t2@)
                    + seq![tok@]);
                assert(pre.map_values(|t2: Vec<u8>| t2@) + (seq![tok@] + tokens_of(
                    s@.skip(i as int),
                )) =~= (pre.map_values(|t2: Vec<u8>| t2@) + seq![tok@]) + tokens_of(
                    s@.skip(i as int),
                ));
            }
        }
    }
    proof {
        assert(s@.skip(slen as int).len() == 0);
        assert(out@.map_values(|t: Vec<u8>| t@) + tokens_of(s@.skip(slen as int)) =~= out@
            .map_values(|t: Vec<u8>| t@));
    }
    out
}

/// A decimal digit.
pub open spec fn is_digit(c: u8) -> bool {
    48 <= c <= 57
}

/// Every byte is a decimal digit.
pub open spec fn all_digits(s: Seq<u8>) -> bool {
    forall|i: int| 0 <= i < s.len() ==> is_digit(#[trigger] s[i])
}

/// Value of a run of decimal digits.
pub open spec fn digits_value(s: Seq<u8>) -> int
    recommends
        all_digits(s),
    decreases s.len(),
{
    if s.len() == 0 {
        0
    } else {
        digits_value(s.take(s.len() - 1)) * 10 + (s[s.len() - 1] - 48)
    }
}

pub proof fn lemma_digits_value_nonneg(s: Seq<u8>)
    requires
        all_digits(s),
    ensures
        digits_value(s) >= 0,
    decreases s.len(),
{
    if s.len() > 0 {
        assert(all_digits(s.take(s.len() - 1))) by {
            assert(forall|i: int|
                0 <= i < s.len() - 1 ==> s.take(s.len() - 1)[i] == #[trigger] s[i]);
        }
        lemma_digits_value_nonneg(s.take(s.len() - 1));
    }
}

/// The signed integer a token denotes, mirroring a 32-bit parse: an
/// optional sign, then at least one digit and nothing else, the value
/// within the 32-bit range.
pub open spec fn parse_i32_spec(t: Seq<u8>) -> Option<int> {
    let has_sign = t.len() > 0 && (t[0] == 43 || t[0] == 45);
    let neg = t.len() > 0 && t[0] == 45;
    let digits = if has_sign {
        t.skip(1)
    } else {
        t
    };
    if digits.len() == 0 || !all_digits(digits) {
        None
    } else {
        let v = if neg {
            -digits_value(digits)
        } else {
            digits_value(digits)
        };
        if -0x8000_0000 <= v < 0x8000_0000 {
            Some(v)
        } else {
            None
        }
    }
}

/// Parse a token as a signed 32-bit integer.
pub fn parse_i32(t: &[u8]) -> (r: Option<i32>)
    ensures
        match r {
            Some(v) => parse_i32_spec(t@) == Some(v as int),
            None => parse_i32_spec(t@) is None,
        },
{
    let tlen: usize = t.len();
    let mut i: usize = 0;
    let mut neg: bool = false;
    if tlen > 0 && (t[0] == 43 || t[0] == 45) {
        neg = t[0] == 45;
        i = 1;
    }
    if i == tlen {
        return None;
    }
    let start: usize = i;
    let ghost digits = t@.skip(start as int);
    proof {
        assert(t@.skip(0) =~= t@);
    }
    let mut acc: u64 = 0;
    let mut overflow: bool = false;
    while i < tlen
        invariant
            start <= i <= tlen == t@.len(),
            digits == t@.skip(start as int),
            start == (if t@.len() > 0 && (t@[0] == 43 || t@[0] == 45) {
                1int
            } else {
                0int
            }),
            neg == (t@.len() > 0 && t@[0] == 45),
            forall|j: int| start <= j < i ==> is_digit(#[trigger] t@[j]),
            !overflow ==> acc < 0x1_0000_0000 && acc == digits_value(
                t@.subrange(start as int, i as int),
            ),
            overflow ==> digits_value(t@.subrange(start as int, i as int)) >= 0x1_0000_0000,
        decreases tlen - i,
    {
        let c: u8 = t[i];
        if c < 48 || c > 57 {
            proof {
                assert(digits[i - start] == t@[i as int]);
                assert(!is_digit(digits[i - start]));
                assert(!all_digits(digits));
                assert(t@.skip(0) =~= t@);
                assert(parse_i32_spec(t@) is None);
            }
            return None;
        }
        let d: u64 = (c - 48) as u64;
        let ghost prefix = t@.subrange(start as int, i as int);
        let ghost prefix1 = t@.subrange(start as int, i as int + 1);
        proof {
            assert(prefix1.take(prefix1.len() - 1) =~= prefix);
            assert(prefix1[prefix1.len() - 1] == t@[i as int]);
            assert(digits_value(prefix1) == digits_value(prefix) * 10 + (c - 48));
            assert(all_digits(prefix)) by {
                assert(forall|j: int| 0 <= j < prefix.len() ==> prefix[j] == #[trigger] t@[
                    j + start]);
            }
            lemma_digits_value_nonneg(prefix);
        }
        if !overflow {
            acc = acc * 10 + d;
            if acc >= 0x1_0000_0000 {
                overflow = true;
            }
        }
        i = i + 1;
    }
    proof {
        assert(t@.subrange(start as int, tlen as int) =~= digits);
        assert(all_digits(digits));
        assert(digits.len() > 0);
    }
    if overflow {
        return None;
    }
    if neg {
        if acc > 0x8000_0000 {
            return None;
        }
        if acc == 0x8000_0000 {
            return Some(i32::MIN);
        }
        let v: i32 = -(acc as i32);
        Some(v)
    } else {
        if acc > 0x7FFF_FFFF {
            return None;
        }
        Some(acc as i32)
    }
}

/// `p` is a prefix of `s`.
pub open spec fn starts_with(s: Seq<u8>, p: Seq<u8>) -> bool {
    s.len() >= p.len() && s.take(p.len() as int) == p
}

/// The bytes of `insert`.
pub open spec fn insert_kw() -> Seq<u8> {
    seq![105u8, 110u8, 115u8, 101u8, 114u8, 116u8]
}

/// The bytes of `select`.
pub open spec fn select_kw() -> Seq<u8> {
    seq![115u8, 101u8, 108u8, 101u8, 99u8, 116u8]
}

/// The bytes of `.exit`.
pub open spec fn exit_kw() -> Seq<u8> {
    seq![46u8, 101u8, 120u8, 105u8, 116u8]
}

/// The bytes of `.constants`.
pub open spec fn constants_kw() -> Seq<u8> {
    seq![46u8, 99u8, 111u8, 110u8, 115u8, 116u8, 97u8, 110u8, 116u8, 115u8]
}

/// The bytes of `.btree`.
pub open spec fn btree_kw() -> Seq<u8> {
    seq![46u8, 98u8, 116u8, 114u8, 101u8, 101u8]
}

/// Whether `p` opens `s`.
fn has_prefix(s: &[u8], p: &[u8]) -> (r: bool)
    ensures
        r == starts_with(s@, p@),
{
    let plen: usize = p.len();
    if s.len() < plen {
        return false;
    }
    let mut i: usize = 0;
    while i < plen
        invariant
            i <= plen <= s@.len(),
            plen == p@.len(),
            forall|j: int| 0 <= j < i ==> s@[j] == p@[j],
        decreases plen - i,
    {
        if s[i] != p[i] {
            proof {
                assert(s@.take(p@.len() as int)[i as int] != p@[i as int]);
            }
            return false;
        }
        i = i + 1;
    }
    proof {
        assert(s@.take(p@.len() as int) =~= p@);
    }
    true
}

/// Parse a line opening with `.` into a meta-command.
pub fn do_meta_command(input: &[u8]) -> (r: Result<MetaCommand, ParseError>)
    ensures
        starts_with(input@, exit_kw()) ==> r == Ok::<MetaCommand, ParseError>(MetaCommand::Exit),
        !starts_with(input@, exit_kw()) && starts_with(input@, constants_kw()) ==> r == Ok::<
            MetaCommand,
            ParseError,
        >(MetaCommand::PrintConstants),
        !starts_with(input@, exit_kw()) && !starts_with(input@, constants_kw()) && starts_with(
            input@,
            btree_kw(),
        ) ==> r == Ok::<MetaCommand, ParseError>(MetaCommand::PrintTree),
        !starts_with(input@, exit_kw()) && !starts_with(input@, constants_kw()) && !starts_with(
            input@,
            btree_kw(),
        ) ==> r == Err::<MetaCommand, ParseError>(ParseError::Unrecognized),
{
    let exit: Vec<u8> = vec![46u8, 101u8, 120u8, 105u8, 116u8];
    let constants: Vec<u8> = vec![
        46u8,
        99u8,
        111u8,
        110u8,
        115u8,
        116u8,
        97u8,
        110u8,
        116u8,
        115u8,
    ];
    let btree: Vec<u8> = vec![46u8, 98u8, 116u8, 114u8, 101u8, 101u8];
    proof {
        assert(exit@ =~= exit_kw());
        assert(constants@ =~= constants_kw());
        assert(btree@ =~= btree_kw());
    }
    if has_prefix(input, exit.as_slice()) {
        Ok(MetaCommand::Exit)
    } else if has_prefix(input, constants.as_slice()) {
        Ok(MetaCommand::PrintConstants)
    } else if has_prefix(input, btree.as_slice()) {
        Ok(MetaCommand::PrintTree)
    } else {
        Err(ParseError::Unrecognized)
    }
}

/// Parse one line into a statement.
///
/// A line opening with `insert` is split into tokens; the token after the
/// keyword must parse as a signed 32-bit integer and be non-negative, the
/// next must fit 32 bytes and the one after it 255; anything further is
/// ignored.  A line opening with `select` selects.  Anything else is
/// unrecognized.
pub fn prepare_statement(input: &[u8]) -> (r: Result<Statement, ParseError>)
    ensures
        ({
            let toks = tokens_of(input@);
            &&& (starts_with(input@, insert_kw()) ==> {
                &&& (toks.len() < 4 ==> r == Err::<Statement, ParseError>(
                    ParseError::InvalidSyntax,
                ))
                &&& (toks.len() >= 4 ==> {
                    let id = parse_i32_spec(toks[1]);
                    &&& (id is None ==> r == Err::<Statement, ParseError>(
                        ParseError::InvalidSyntax,
                    ))
                    &&& (id is Some && id->Some_0 < 0 ==> r == Err::<Statement, ParseError>(
                        ParseError::NegativeID,
                    ))
                    &&& (id is Some && id->Some_0 >= 0 && (toks[2].len() > MAX_UNAME_LENGTH
                        || toks[3].len() > MAX_EMAIL_LENGTH) ==> r == Err::<Statement, ParseError>(
                        ParseError::StringTooLong,
                    ))
                    &&& (id is Some && id->Some_0 >= 0 && toks[2].len() <= MAX_UNAME_LENGTH
                        && toks[3].len() <= MAX_EMAIL_LENGTH ==> match r {
                        Ok(Statement::Insert(row)) => {
                            &&& row.wf()
                            &&& row@.id == id->Some_0
                            &&& row@.username == toks[2]
                            &&& row@.email == toks[3]
                        },
                        _ => false,
                    })
                })
            })
            &&& (!starts_with(input@, insert_kw()) && starts_with(input@, select_kw()) ==> r
                matches Ok(Statement::Select))
            &&& (!starts_with(input@, insert_kw()) && !starts_with(input@, select_kw()) ==> r
                == Err::<Statement, ParseError>(ParseError::Unrecognized))
        }),
{
    let insert: Vec<u8> = vec![105u8, 110u8, 115u8, 101u8, 114u8, 116u8];
    let select: Vec<u8> = vec![115u8, 101u8, 108u8, 101u8, 99u8, 116u8];
    proof {
        assert(insert@ =~= insert_kw());
        assert(select@ =~= select_kw());
    }
    if has_prefix(input, insert.as_slice()) {
        let toks = tokenize(input);
        if toks.len() < 4 {
            return Err(ParseError::InvalidSyntax);
        }
        proof {
            assert(toks@.map_values(|t: Vec<u8>| t@)[1] == toks@[1]@);
            assert(toks@.map_values(|t: Vec<u8>| t@)[2] == toks@[2]@);
            assert(toks@.map_values(|t: Vec<u8>| t@)[3] == toks@[3]@);
        }
        let id: i32 = match parse_i32(toks[1].as_slice()) {
            Some(v) => v,
            None => {
                return Err(ParseError::InvalidSyntax);
            },
        };
        if id < 0 {
            return Err(ParseError::NegativeID);
        }
        if toks[2].len() > MAX_UNAME_LENGTH || toks[3].len() > MAX_EMAIL_LENGTH {
            return Err(ParseError::StringTooLong);
        }
        let row = Row::new(id as u32, toks[2].as_slice(), toks[3].as_slice());
        proof {
            assert(clip(toks@[2]@, MAX_UNAME_LENGTH as int) == toks@[2]@);
            assert(clip(toks@[3]@, MAX_EMAIL_LENGTH as int) == toks@[3]@);
        }
        Ok(Statement::Insert(row))
    } else if has_prefix(input, select.as_slice()) {
        Ok(Statement::Select)
    } else {
        Err(ParseError::Unrecognized)
    }
}

/// The position in an ordered cell sequence at which `key` sits or would
/// be inserted: the number of keys below it.
pub open spec fn insert_pos(cells: Seq<(u32, RowV)>, key: u32) -> int
    decreases cells.len(),
{
    if cells.len() == 0 {
        0
    } else if cells[0].0 < key {
        1 + insert_pos(cells.skip(1), key)
    } else {
        0
    }
}

/// In a sorted cell sequence, the position with everything below it
/// smaller and everything from it on at least `key` is `insert_pos`.
pub proof fn lemma_insert_pos_is(cells: Seq<(u32, RowV)>, key: u32, c: int)
    requires
        0 <= c <= cells.len(),
        forall|i: int| 0 <= i < c ==> (#[trigger] cells[i]).0 < key,
        forall|i: int| c <= i < cells.len() ==> (#[trigger] cells[i]).0 >= key,
    ensures
        insert_pos(cells, key) == c,
    decreases c,
{
    if cells.len() == 0 {
    } else if c == 0 {
        assert(cells[0].0 >= key);
    } else {
        assert(cells[0].0 < key);
        assert forall|i: int| 0 <= i < c - 1 implies (#[trigger] cells.skip(1)[i]).0 < key by {
            assert(cells.skip(1)[i] == cells[i + 1]);
        }
        assert forall|i: int| c - 1 <= i < cells.skip(1).len() implies (#[trigger] cells.skip(
            1,
        )[i]).0 >= key by {
            assert(cells.skip(1)[i] == cells[i + 1]);
        }
        lemma_insert_pos_is(cells.skip(1), key, c - 1);
    }
}

/// Insert a row: full table first, then duplicate key, else the row goes
/// in at its ordered position.
pub fn execute_insert(row: &Row, table: &mut Table) -> (r: Result<(), ExecuteError>)
    requires
        old(table).wf(),
        row.wf(),
    ensures
        final(table).wf(),
        old(table).rows().len() >= LEAF_NODE_MAX_CELLS ==> r == Err::<(), ExecuteError>(
            ExecuteError::TableFull,
        ) && *final(table) == *old(table),
        old(table).rows().len() < LEAF_NODE_MAX_CELLS && old(table).root()@.has_key(row@.id)
            ==> r == Err::<(), ExecuteError>(ExecuteError::DuplicateKey) && *final(table) == *old(
            table,
        ),
        old(table).rows().len() < LEAF_NODE_MAX_CELLS && !old(table).root()@.has_key(row@.id)
            ==> r is Ok && final(table).rows() == old(table).rows().insert(
            insert_pos(old(table).rows(), row@.id),
            (row@.id, row@),
        ),
        final(table).root_page_num == old(table).root_page_num,
        final(table).pager.disk@ == old(table).pager.disk@,
        final(table).pager.num_pages == old(table).pager.num_pages,
{
    let root = table.pager.get_page(table.root_page_num as usize);
    let num_cells: u32 = root.cell_count();
    if num_cells as usize >= LEAF_NODE_MAX_CELLS {
        return Err(ExecuteError::TableFull);
    }
    let key_to_insert: u32 = row.id;
    let cursor = table.find(key_to_insert);
    if cursor.cell_num < num_cells {
        let existing = cursor.get_value(table);
        if existing.id == key_to_insert {
            proof {
                assert(table.root()@.key_at(cursor.cell_num as int) == key_to_insert);
                assert(table.root()@.has_key(key_to_insert));
            }
            return Err(ExecuteError::DuplicateKey);
        }
    }
    proof {
        assert forall|i: int|
            cursor.cell_num <= i < table.rows().len() implies #[trigger] table.root()@.key_at(i)
            > key_to_insert by {
            if i == cursor.cell_num as int {
                assert(table.root()@.cells[i].0 == table.root()@.cells[i].1.id);
            } else {
                assert(table.root()@.key_at(cursor.cell_num as int) >= key_to_insert);
                assert(table.root()@.key_at(cursor.cell_num as int) < table.root()@.key_at(i));
            }
        }
        if table.root()@.has_key(key_to_insert) {
            let w = choose|i: int|
                0 <= i < table.rows().len() && #[trigger] table.root()@.key_at(i) == key_to_insert;
            assert(false);
        }
        assert forall|i: int| 0 <= i < cursor.cell_num implies (#[trigger] table.rows()[i]).0
            < key_to_insert by {
            assert(table.root()@.key_at(i) < key_to_insert);
        }
        assert forall|i: int|
            cursor.cell_num <= i < table.rows().len() implies (#[trigger] table.rows()[i]).0
            >= key_to_insert by {
            assert(table.root()@.key_at(i) > key_to_insert);
        }
        lemma_insert_pos_is(table.rows(), key_to_insert, cursor.cell_num as int);
    }
    cursor.insert(table, key_to_insert, row);
    Ok(())
}

/// Every row of the table, in ascending id order.  The output is a pure
/// function of the table's contents: selecting twice from an unchanged
/// table yields identical rows.
pub fn execute_select(table: &Table) -> (out: Vec<Row>)
    requires
        table.wf(),
    ensures
        out@.len() == table.rows().len(),
        forall|i: int| 0 <= i < out@.len() ==> (#[trigger] out@[i])@ == table.rows()[i].1,
{
    let mut out: Vec<Row> = Vec::new();
    let mut cursor = table.start();
    while !cursor.end_of_table
        invariant
            table.wf(),
            cursor.wf(*table),
            cursor.cell_num == out@.len(),
            cursor.end_of_table <==> (cursor.cell_num as int) >= table.rows().len(),
            forall|i: int| 0 <= i < out@.len() ==> (#[trigger] out@[i])@ == table.rows()[i].1,
        decreases table.rows().len() - cursor.cell_num,
    {
        let r = cursor.get_value(table);
        out.push(r.duplicate());
        cursor.advance(table);
    }
    out
}

/// Repeated selects on an unchanged table produce identical output: any
/// two row sequences that both mirror the table's cells — as every result
/// of `execute_select` must — are equal.
pub proof fn lemma_select_deterministic(
    rows1: Seq<RowV>,
    rows2: Seq<RowV>,
    cells: Seq<(u32, RowV)>,
)
    requires
        rows1.len() == cells.len(),
        rows2.len() == cells.len(),
        forall|i: int| 0 <= i < cells.len() ==> rows1[i] == (#[trigger] cells[i]).1,
        forall|i: int| 0 <= i < cells.len() ==> rows2[i] == (#[trigger] cells[i]).1,
    ensures
        rows1 == rows2,
{
    assert forall|i: int| 0 <= i < rows1.len() implies rows1[i] == rows2[i] by {
        assert(rows1[i] == cells[i].1);
        assert(rows2[i] == cells[i].1);
    }
    assert(rows1 =~= rows2);
}

/// The visible outcome of one executed statement.
pub enum StatementResult {
    /// An insert went through.
    Inserted,
    /// A select's rows, in ascending id order.
    Selected(Vec<Row>),
}

/// Run one parsed statement against the table.
pub fn execute_statement(statement: Statement, table: &mut Table) -> (r: Result<
    StatementResult,
    ExecuteError,
>)
    requires
        old(table).wf(),
        statement matches Statement::Insert(row) ==> row.wf(),
    ensures
        final(table).wf(),
        statement matches Statement::Insert(row) ==> {
            &&& (old(table).rows().len() >= LEAF_NODE_MAX_CELLS ==> r == Err::<
                StatementResult,
                ExecuteError,
            >(ExecuteError::TableFull) && *final(table) == *old(table))
            &&& (old(table).rows().len() < LEAF_NODE_MAX_CELLS && old(table).root()@.has_key(
                row@.id,
            ) ==> r == Err::<StatementResult, ExecuteError>(ExecuteError::DuplicateKey)
                && *final(table) == *old(table))
            &&& (old(table).rows().len() < LEAF_NODE_MAX_CELLS && !old(table).root()@.has_key(
                row@.id,
            ) ==> (r matches Ok(StatementResult::Inserted)) && final(table).rows() == old(
                table,
            ).rows().insert(insert_pos(old(table).rows(), row@.id), (row@.id, row@)))
        },
        statement matches Statement::Select ==> *final(table) == *old(table) && match r {
            Ok(StatementResult::Selected(rows)) => rows@.len() == old(table).rows().len()
                && forall|i: int|
                0 <= i < rows@.len() ==> (#[trigger] rows@[i])@ == old(table).rows()[i].1,
            _ => false,
        },
{
    match statement {
        Statement::Insert(row) => match execute_insert(&row, table) {
            Ok(()) => Ok(StatementResult::Inserted),
            Err(e) => Err(e),
        },
        Statement::Select => Ok(StatementResult::Selected(execute_select(table))),
    }
}

} // verus!
