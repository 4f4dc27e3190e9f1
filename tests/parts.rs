use hashfile::compact::{compact, read_value};
use hashfile::flush::merge_flush;
use hashfile::lookup::{is_searchable, lookup};
use hashfile::memtable::Memtable;
use hashfile::record::{encode_record, pad_line, parse_record, Record};
use hashfile::text::{find_byte, parse_decimal, push_decimal};
use hashfile::{hash, Error};

#[test]
fn hash_is_siphash_of_the_bytes() {
    let mut h = siphasher::sip::SipHasher::new();
    std::hash::Hasher::write(&mut h, b"hello");
    assert_eq!(hash(b"hello"), std::hash::Hasher::finish(&h));
    assert_eq!(hash(b"hello"), hash(b"hello"));
    assert_ne!(hash(b"hello"), hash(b"hellp"));
}

#[test]
fn decimal_digits() {
    let mut out = b"x".to_vec();
    push_decimal(&mut out, 0);
    push_decimal(&mut out, 1234567890);
    assert_eq!(out, b"x01234567890".to_vec());
    let mut big = Vec::new();
    push_decimal(&mut big, u64::MAX);
    assert_eq!(big, b"18446744073709551615".to_vec());
}

#[test]
fn decimal_parse() {
    let s = b"a42b18446744073709551615c18446744073709551616";
    assert_eq!(parse_decimal(s, 1, 3), Some(42));
    assert_eq!(parse_decimal(s, 4, 24), Some(u64::MAX));
    assert_eq!(parse_decimal(s, 25, 45), None);
    assert_eq!(parse_decimal(s, 0, 3), None);
    assert_eq!(parse_decimal(s, 1, 1), None);
}

#[test]
fn find_separator() {
    let s = b"ab\0cd\0";
    assert_eq!(find_byte(s, 0, 0), 2);
    assert_eq!(find_byte(s, 0, 3), 5);
    assert_eq!(find_byte(s, b'z', 0), 6);
}

#[test]
fn record_encoding() {
    let r = Record { key: b"key".to_vec(), offset: 120, count: 3 };
    assert_eq!(encode_record(&r), b"key\x00120\x003".to_vec());
}

#[test]
fn record_padding() {
    let mut w: usize = 8;
    assert_eq!(pad_line(b"abc".to_vec(), &mut w), b"abc\0\0\0\0\0".to_vec());
    assert_eq!(w, 8);
    assert_eq!(pad_line(b"abcdefghij".to_vec(), &mut w), b"abcdefghij".to_vec());
    assert_eq!(w, 10);
}

#[test]
fn record_parse() {
    let r = parse_record(b"key\x00120\x003\0\0\0").unwrap();
    assert_eq!(r.key, b"key".to_vec());
    assert_eq!(r.offset, 120);
    assert_eq!(r.count, 3);
    let r = parse_record(b"\x000\x000").unwrap();
    assert_eq!(r.key, Vec::<u8>::new());
    assert!(parse_record(b"key\x00120").is_none());
    assert!(parse_record(b"key\x0012x\x003").is_none());
    assert!(parse_record(b"key\x00120\x003\x00z").is_none());
    assert!(parse_record(b"key\x00\x003").is_none());
    assert!(parse_record(b"").is_none());
}

#[test]
fn memtable_orders_and_counts() {
    let mut m = Memtable::new();
    m.insert(b"b".to_vec(), b"1".to_vec());
    m.insert(b"a".to_vec(), b"2".to_vec());
    m.insert(b"b".to_vec(), b"3".to_vec());
    assert_eq!(m.len(), 2);
    let entries = m.drain();
    assert_eq!(m.len(), 0);
    assert!(entries[0].digest < entries[1].digest);
    let b = entries.iter().find(|e| e.key == b"b".to_vec()).unwrap();
    assert_eq!(b.value, b"3".to_vec());
    assert_eq!(b.count, 1);
    let a = entries.iter().find(|e| e.key == b"a".to_vec()).unwrap();
    assert_eq!(a.count, 0);
}

#[test]
fn merge_into_empty_index() {
    let mut m = Memtable::new();
    m.insert(b"k".to_vec(), b"val".to_vec());
    let entries = m.drain();
    let mut data = b"old\n".to_vec();
    let mut w: usize = 0;
    let lines = merge_flush(&Vec::new(), &entries, &mut data, &mut w);
    assert_eq!(lines, vec![b"k\x004\x000".to_vec()]);
    assert_eq!(data, b"old\nval\n".to_vec());
    assert_eq!(w, 5);
}

#[test]
fn merge_replaces_and_skips() {
    let mut m = Memtable::new();
    m.insert(b"k".to_vec(), b"new".to_vec());
    let entries = m.drain();
    let index = vec![b"not a record".to_vec(), b"k\x000\x002\0\0".to_vec()];
    let mut data = b"old\n".to_vec();
    let mut w: usize = 7;
    let lines = merge_flush(&index, &entries, &mut data, &mut w);
    assert_eq!(lines, vec![b"k\x004\x003\0\0".to_vec()]);
    assert_eq!(data, b"old\nnew\n".to_vec());
    assert_eq!(w, 7);
}

#[test]
fn compaction_rewrites_offsets() {
    let index = vec![b"a\x004\x001".to_vec(), b"bb\x000\x000".to_vec(), b"junk".to_vec()];
    let data = b"xyz\nhello\nstale\n".to_vec();
    let (lines, new_data, w) = compact(&index, &data, 2);
    assert_eq!(new_data, b"hello\nxyz\n".to_vec());
    assert_eq!(lines, vec![b"a\x000\x001\0".to_vec(), b"bb\x006\x000".to_vec()]);
    assert_eq!(w, 6);
}

#[test]
fn value_reading() {
    let data = b"one\ntwo\nlast".to_vec();
    assert_eq!(read_value(&data, 4), b"two".to_vec());
    assert_eq!(read_value(&data, 8), b"last".to_vec());
    assert_eq!(read_value(&data, 99), Vec::<u8>::new());
}

#[test]
fn lookup_reports_corrupt_line() {
    let lines = vec![b"garbage!".to_vec()];
    let data = b"v\n".to_vec();
    assert!(!is_searchable(&lines, 8));
    assert_eq!(lookup(&lines, &data, 8, b"k"), Err(Error::CorruptRecord));
}

#[test]
fn lookup_with_empty_data_finds_nothing() {
    let lines = vec![b"k\x000\x000".to_vec()];
    assert!(is_searchable(&lines, 5));
    assert_eq!(lookup(&lines, &Vec::new(), 5, b"k"), Ok(None));
    assert_eq!(lookup(&lines, &b"v\n".to_vec(), 5, b"k"), Ok(Some((b"v".to_vec(), 0))));
}
