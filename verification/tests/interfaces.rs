use aera::interfaces::tcp_interface::{
    le_bytes_to_i64, le_bytes_to_string, le_bytes_to_u64, message_size_prefix,
};
use aera::interfaces::CommIds;
use aera::str_map::StrMap;

#[test]
fn comm_ids_insert_then_lookup() {
    let mut ids = CommIds::new();
    ids.insert(7, "h");
    ids.insert(9, "co1");
    assert_eq!(ids.get_id("h"), 7);
    assert_eq!(ids.get_name(7), "h");
    assert_eq!(ids.get_id("co1"), 9);
    assert_eq!(ids.get_name(9), "co1");
    ids.insert(7, "hand");
    assert_eq!(ids.get_name(7), "hand");
    assert_eq!(ids.get_id("h"), 7);
    assert_eq!(ids.get_id("hand"), 7);
}

#[test]
fn comm_ids_insert_all_later_pairs_win() {
    let mut ids = CommIds::new();
    ids.insert_all(&vec![
        ("move".to_string(), 1),
        ("grab".to_string(), 2),
        ("move".to_string(), 3),
        ("release".to_string(), 2),
    ]);
    assert_eq!(ids.get_id("move"), 3);
    assert_eq!(ids.get_id("grab"), 2);
    assert_eq!(ids.get_id("release"), 2);
    assert_eq!(ids.get_name(1), "move");
    assert_eq!(ids.get_name(3), "move");
    assert_eq!(ids.get_name(2), "release");
}

#[test]
fn comm_ids_insert_map() {
    let mut m: StrMap<i32> = StrMap::new();
    m.insert("h".to_string(), 1);
    m.insert("c".to_string(), 2);
    let mut ids = CommIds::new();
    ids.insert(1, "old");
    ids.insert_map(&m);
    assert_eq!(ids.get_id("h"), 1);
    assert_eq!(ids.get_id("c"), 2);
    assert_eq!(ids.get_id("old"), 1);
    assert_eq!(ids.get_name(1), "h");
    assert_eq!(ids.get_name(2), "c");
}

#[test]
fn little_endian_unsigned() {
    assert_eq!(le_bytes_to_u64(&[1, 0, 0, 0, 0, 0, 0, 0]), 1);
    assert_eq!(le_bytes_to_u64(&[0, 1, 0, 0, 0, 0, 0, 0]), 256);
    assert_eq!(le_bytes_to_u64(&[0xff; 8]), u64::MAX);
    let x: u64 = 0x0123_4567_89ab_cdef;
    assert_eq!(le_bytes_to_u64(&x.to_le_bytes()), x);
}

#[test]
fn little_endian_signed() {
    assert_eq!(le_bytes_to_i64(&[0xff; 8]), -1);
    assert_eq!(le_bytes_to_i64(&[0, 0, 0, 0, 0, 0, 0, 0x80]), i64::MIN);
    assert_eq!(le_bytes_to_i64(&[0xff, 0xff, 0xff, 0xff, 0xff, 0xff, 0xff, 0x7f]), i64::MAX);
    assert_eq!(le_bytes_to_i64(&42i64.to_le_bytes()), 42);
    assert_eq!(le_bytes_to_i64(&(-7i64).to_le_bytes()), -7);
}

#[test]
fn utf8_text() {
    assert_eq!(le_bytes_to_string("héllo".as_bytes()), "héllo");
    assert_eq!(le_bytes_to_string(&[]), "");
}

#[test]
fn size_prefix_round_trip() {
    let p = message_size_prefix(300);
    assert_eq!(p, vec![44, 1, 0, 0, 0, 0, 0, 0]);
    assert_eq!(le_bytes_to_u64(&p), 300);
    assert_eq!(message_size_prefix(0), vec![0; 8]);
    let n: usize = 123_456_789;
    assert_eq!(message_size_prefix(n), (n as u64).to_le_bytes().to_vec());
}
