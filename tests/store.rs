use hashfile::hash;
use hashfile::hash_file::HashFile;
use hashfile::Error;

fn store_with_capacity(c: usize) -> HashFile {
    HashFile::new().set_capacity(c)
}

fn put(s: &mut HashFile, k: &str, v: &str) {
    assert_eq!(s.insert(k.as_bytes().to_vec(), v.as_bytes().to_vec()), Ok(()));
}

fn get(s: &HashFile, k: &str) -> Option<(String, usize)> {
    s.get(k.as_bytes())
        .unwrap()
        .map(|(v, c)| (String::from_utf8(v).unwrap(), c))
}

#[test]
fn example_scenario_capacity_two() {
    let mut s = store_with_capacity(2);
    put(&mut s, "1", "A");
    put(&mut s, "2", "B");
    assert_eq!(s.buffered(), 2);
    put(&mut s, "3", "C");
    assert_eq!(s.buffered(), 0);
    assert_eq!(s.index_lines().len(), 3);
    s.finalize();
    assert_eq!(get(&s, "1"), Some(("A".to_string(), 0)));
    assert_eq!(get(&s, "2"), Some(("B".to_string(), 0)));
    assert_eq!(get(&s, "3"), Some(("C".to_string(), 0)));
    assert_eq!(get(&s, "4"), None);
}

#[test]
fn round_trip_many_keys() {
    let mut s = store_with_capacity(3);
    for i in 0..40 {
        put(&mut s, &format!("key{}", i), &format!("value-{}", i * 7));
    }
    s.finalize();
    for i in 0..40 {
        assert_eq!(get(&s, &format!("key{}", i)), Some((format!("value-{}", i * 7), 0)));
    }
    assert_eq!(get(&s, "key40"), None);
    assert_eq!(get(&s, ""), None);
}

#[test]
fn round_trip_latest_value_wins() {
    let mut s = store_with_capacity(2);
    put(&mut s, "a", "1");
    put(&mut s, "b", "2");
    put(&mut s, "a", "3");
    put(&mut s, "c", "4");
    put(&mut s, "a", "5");
    s.finalize();
    assert_eq!(get(&s, "a"), Some(("5".to_string(), 2)));
    assert_eq!(get(&s, "b"), Some(("2".to_string(), 0)));
    assert_eq!(get(&s, "c"), Some(("4".to_string(), 0)));
}

#[test]
fn overwrite_count_across_flushes() {
    let mut s = store_with_capacity(1);
    for n in 0..5 {
        put(&mut s, "k", &format!("v{}", n));
        put(&mut s, &format!("other{}", n), "x");
    }
    s.finalize();
    assert_eq!(get(&s, "k"), Some(("v4".to_string(), 4)));
}

#[test]
fn overwrite_count_within_buffer() {
    let mut s = HashFile::new();
    put(&mut s, "k", "a");
    put(&mut s, "k", "b");
    put(&mut s, "k", "c");
    assert_eq!(s.buffered(), 1);
    s.finalize();
    assert_eq!(get(&s, "k"), Some(("c".to_string(), 2)));
}

#[test]
fn overwrite_count_over_finalizes() {
    let mut s = HashFile::new();
    for n in 0..4 {
        put(&mut s, "same", &format!("{}", n));
        s.finalize();
    }
    assert_eq!(get(&s, "same"), Some(("3".to_string(), 3)));
}

#[test]
fn capacity_triggers_one_flush() {
    let c = 3;
    let mut s = store_with_capacity(c);
    for i in 0..c {
        put(&mut s, &format!("k{}", i), "v");
        assert_eq!(s.buffered(), i + 1);
        assert_eq!(s.index_lines().len(), 0);
    }
    put(&mut s, "k3", "v");
    assert_eq!(s.buffered(), 0);
    assert_eq!(s.index_lines().len(), c + 1);
    put(&mut s, "k4", "v");
    assert_eq!(s.buffered(), 1);
    assert_eq!(s.index_lines().len(), c + 1);
}

#[test]
fn finalize_twice_is_byte_identical() {
    let mut s = store_with_capacity(2);
    for i in 0..9 {
        put(&mut s, &format!("{}", i * 31), &format!("val{}", i));
    }
    put(&mut s, "31", "again");
    s.finalize();
    let index1 = s.index_lines().clone();
    let data1 = s.data().clone();
    s.finalize();
    assert_eq!(s.index_lines(), &index1);
    assert_eq!(s.data(), &data1);
}

#[test]
fn uniform_width_after_finalize() {
    let mut s = store_with_capacity(2);
    put(&mut s, "short", "v");
    put(&mut s, "a-much-longer-key-than-the-others", "value");
    put(&mut s, "k", "a value of some length");
    s.finalize();
    let w = s.line_length();
    assert!(w >= "a-much-longer-key-than-the-others\u{0}0\u{0}0".len());
    let widest = s
        .index_lines()
        .iter()
        .map(|l| l.len() - l.iter().rev().take_while(|b| **b == 0).count())
        .max()
        .unwrap();
    assert_eq!(widest, w);
    let size: usize = s.index_lines().iter().map(|l| l.len() + 1).sum();
    assert_eq!(size % (w + 1), 0);
    for l in s.index_lines() {
        assert_eq!(l.len(), w);
    }
}

#[test]
fn digests_sorted_after_finalize() {
    let mut s = store_with_capacity(4);
    for i in 0..25 {
        put(&mut s, &format!("item-{}", i), "v");
    }
    s.finalize();
    let digests: Vec<u64> = s
        .index_lines()
        .iter()
        .map(|l| {
            let end = l.iter().position(|b| *b == 0).unwrap();
            hash(&l[..end])
        })
        .collect();
    assert_eq!(digests.len(), 25);
    for w in digests.windows(2) {
        assert!(w[0] < w[1]);
    }
}

#[test]
fn compaction_drops_overwritten_values() {
    let mut s = HashFile::new();
    put(&mut s, "K", "AAAAAAAA");
    s.finalize();
    assert_eq!(s.data(), &b"AAAAAAAA\n".to_vec());
    put(&mut s, "K", "B");
    s.finalize();
    assert_eq!(s.data(), &b"B\n".to_vec());
    assert_eq!(get(&s, "K"), Some(("B".to_string(), 1)));
}

#[test]
fn key_with_separator_is_refused() {
    let mut s = HashFile::new();
    assert_eq!(s.insert(b"a\0b".to_vec(), b"v".to_vec()), Err(Error::KeyNotStorable));
    assert_eq!(s.insert(b"a\nb".to_vec(), b"v".to_vec()), Err(Error::KeyNotStorable));
    assert_eq!(s.buffered(), 0);
}

#[test]
fn value_with_newline_is_refused() {
    let mut s = HashFile::new();
    assert_eq!(s.insert(b"k".to_vec(), b"two\nlines".to_vec()), Err(Error::ValueNotStorable));
    assert_eq!(s.buffered(), 0);
}

#[test]
fn lookup_before_finalize_is_refused() {
    let mut s = HashFile::new();
    assert_eq!(s.get(b"k"), Ok(None));
    put(&mut s, "k", "v");
    assert_eq!(s.get(b"k"), Err(Error::NotFinalized));
    s.finalize();
    assert_eq!(get(&s, "k"), Some(("v".to_string(), 0)));
}

#[test]
fn empty_store_finds_nothing() {
    let mut s = HashFile::new();
    s.finalize();
    assert_eq!(s.index_lines().len(), 0);
    assert_eq!(s.data().len(), 0);
    assert_eq!(get(&s, "anything"), None);
}

#[test]
fn reopened_files_answer_lookups() {
    let mut s = store_with_capacity(2);
    put(&mut s, "x", "1");
    put(&mut s, "y", "22");
    put(&mut s, "z", "333");
    s.finalize();
    let reopened = HashFile::open(s.index_lines().clone(), s.data().clone()).unwrap();
    assert!(reopened.is_finalized());
    assert_eq!(reopened.line_length(), s.line_length());
    assert_eq!(get(&reopened, "y"), Some(("22".to_string(), 0)));
}

#[test]
fn reopened_unfinalized_files_need_finalize() {
    let mut index = vec![b"k\x000\x000".to_vec(), b"longer-key\x002\x000".to_vec()];
    if hash(b"longer-key") < hash(b"k") {
        index.swap(0, 1);
    }
    let data = b"v\nw\n".to_vec();
    let mut s = HashFile::open(index, data).unwrap();
    assert_eq!(s.line_length(), 14);
    assert!(!s.is_finalized());
    assert_eq!(s.get(b"k"), Err(Error::NotFinalized));
    s.finalize();
    assert_eq!(get(&s, "k"), Some(("v".to_string(), 0)));
    assert_eq!(get(&s, "longer-key"), Some(("w".to_string(), 0)));
}

#[test]
fn corrupt_lines_are_dropped_by_finalize() {
    let index = vec![b"garbage".to_vec(), b"k\x000\x005".to_vec()];
    let data = b"val\n".to_vec();
    let mut s = HashFile::open(index, data).unwrap();
    s.finalize();
    assert_eq!(s.index_lines().len(), 1);
    assert_eq!(get(&s, "k"), Some(("val".to_string(), 5)));
}

#[test]
fn open_refuses_out_of_order_index() {
    let mut index = vec![b"k\x000\x000".to_vec(), b"longer-key\x002\x000".to_vec()];
    if hash(b"longer-key") > hash(b"k") {
        index.swap(0, 1);
    }
    let data = b"v\nw\n".to_vec();
    assert!(matches!(HashFile::open(index, data), Err(Error::IndexOutOfOrder)));
}

#[test]
fn open_refuses_dangling_offset() {
    let index = vec![b"k\x007\x000".to_vec()];
    let data = b"short\n".to_vec();
    assert!(matches!(HashFile::open(index, data), Err(Error::DanglingOffset)));
    let index = vec![b"k\x000\x000".to_vec()];
    let data = b"no terminator".to_vec();
    assert!(matches!(HashFile::open(index, data), Err(Error::DanglingOffset)));
}
