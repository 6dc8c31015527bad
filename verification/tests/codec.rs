//! The byte format: row images, page images, and their round trips.

use leafdb::codec::{decode_row, encode_row, CodecError};
use leafdb::pager::PagerError;
use leafdb::row::Row;
use leafdb::table::{db_close, db_open};
use leafdb::{PAGE_SIZE, ROW_SIZE};

fn encode_to_vec(row: &Row) -> Vec<u8> {
    let mut out: Vec<u8> = Vec::new();
    encode_row(row, &mut out);
    out
}

#[test]
fn row_image_is_exactly_row_size() {
    let row = Row::new(7, b"alice", b"a@x");
    let bytes = encode_to_vec(&row);
    assert_eq!(bytes.len(), ROW_SIZE);
    assert_eq!(ROW_SIZE, 293);
}

#[test]
fn row_image_layout_is_pinned() {
    let row = Row::new(0x01020304, b"ab", b"xyz");
    let bytes = encode_to_vec(&row);
    // id, little endian
    assert_eq!(&bytes[0..4], &[0x04, 0x03, 0x02, 0x01]);
    // username length, then the username zero-padded to 32 bytes
    assert_eq!(bytes[4], 2);
    assert_eq!(&bytes[5..7], b"ab");
    assert!(bytes[7..37].iter().all(|&b| b == 0));
    // email length, then the email zero-padded to 255 bytes
    assert_eq!(bytes[37], 3);
    assert_eq!(&bytes[38..41], b"xyz");
    assert!(bytes[41..293].iter().all(|&b| b == 0));
}

#[test]
fn row_round_trips_through_its_image() {
    let row = Row::new(42, b"alice", b"alice@example.com");
    let bytes = encode_to_vec(&row);
    let back = decode_row(&bytes).unwrap();
    assert_eq!(back.id, 42);
    assert_eq!(back.username, b"alice".to_vec());
    assert_eq!(back.email, b"alice@example.com".to_vec());
}

#[test]
fn row_round_trips_at_the_length_limits() {
    let username = [b'u'; 32];
    let email = [b'e'; 255];
    let row = Row::new(u32::MAX, &username, &email);
    let bytes = encode_to_vec(&row);
    assert_eq!(bytes.len(), ROW_SIZE);
    let back = decode_row(&bytes).unwrap();
    assert_eq!(back.id, u32::MAX);
    assert_eq!(back.username.len(), 32);
    assert_eq!(back.email.len(), 255);
    assert_eq!(back.username, username.to_vec());
    assert_eq!(back.email, email.to_vec());
}

#[test]
fn row_round_trip_preserves_non_utf8_bytes() {
    let row = Row::new(1, &[0xff, 0xfe], &[0x80]);
    let bytes = encode_to_vec(&row);
    let back = decode_row(&bytes).unwrap();
    assert_eq!(back.username, vec![0xff, 0xfe]);
    assert_eq!(back.email, vec![0x80]);
}

#[test]
fn short_input_is_unexpected_eof() {
    let bytes = vec![0u8; ROW_SIZE - 1];
    assert!(matches!(decode_row(&bytes), Err(CodecError::UnexpectedEof)));
}

#[test]
fn oversized_username_length_is_corrupt_row() {
    let row = Row::new(1, b"a", b"b");
    let mut bytes = encode_to_vec(&row);
    bytes[4] = 33;
    assert!(matches!(decode_row(&bytes), Err(CodecError::CorruptRow)));
}

#[test]
fn encoding_is_deterministic() {
    let a = Row::new(9, b"bob", b"b@x");
    let b = Row::new(9, b"bob", b"b@x");
    assert_eq!(encode_to_vec(&a), encode_to_vec(&b));
}

#[test]
fn closed_file_is_whole_pages_and_reopens() {
    let mut table = db_open(Vec::new()).unwrap();
    let row = Row::new(5, b"eve", b"e@x");
    leafdb::statement::execute_insert(&row, &mut table).unwrap();
    let image = db_close(&table);
    assert_eq!(image.len() % PAGE_SIZE, 0);
    assert_eq!(image.len(), PAGE_SIZE);
    let reopened = db_open(image).unwrap();
    let rows = leafdb::statement::execute_select(&reopened);
    assert_eq!(rows.len(), 1);
    assert_eq!(rows[0].id, 5);
    assert_eq!(rows[0].username, b"eve".to_vec());
    assert_eq!(rows[0].email, b"e@x".to_vec());
}

#[test]
fn corrupt_page_is_refused_at_open() {
    let mut image = vec![0u8; PAGE_SIZE];
    image[0] = 2; // no valid root flag
    assert!(matches!(db_open(image), Err(PagerError::CorruptFile)));
}

#[test]
fn partial_page_file_is_corrupt() {
    let image = vec![0u8; PAGE_SIZE - 1];
    assert!(matches!(db_open(image), Err(PagerError::CorruptFile)));
}

#[test]
fn file_past_the_page_cap_is_out_of_bounds() {
    let image = vec![0u8; PAGE_SIZE * 101];
    assert!(matches!(db_open(image), Err(PagerError::OutOfBounds)));
}

#[test]
fn node_with_overlarge_cell_count_is_corrupt() {
    let mut image = vec![0u8; PAGE_SIZE];
    image[0] = 1; // root leaf
    image[5] = 14; // cell count past LEAF_NODE_MAX_CELLS
    assert!(matches!(db_open(image), Err(PagerError::CorruptFile)));
}

#[test]
fn node_with_unsorted_keys_is_corrupt() {
    // build a valid two-row image, then swap the cells on disk
    let mut table = db_open(Vec::new()).unwrap();
    for id in [1u32, 2] {
        let row = Row::new(id, b"u", b"e@x");
        leafdb::statement::execute_insert(&row, &mut table).unwrap();
    }
    let image = db_close(&table);
    let mut swapped = image.clone();
    let cell = 9;
    swapped.copy_within(cell + 297..cell + 2 * 297, cell);
    swapped[cell + 297..cell + 2 * 297].copy_from_slice(&image[cell..cell + 297]);
    assert!(matches!(db_open(swapped), Err(PagerError::CorruptFile)));
}
