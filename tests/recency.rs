use app_launcher::recency::{CacheError, RecencyStore, DEFAULT_CAPACITY};

fn store_of(names: &[&str], capacity: usize) -> RecencyStore {
    RecencyStore::from_names(names.iter().map(|s| s.to_string()).collect(), capacity).unwrap()
}

fn contents(s: &RecencyStore) -> Vec<String> {
    (0..s.len()).map(|i| s.get(i).to_string()).collect()
}

#[test]
fn launching_a_new_name_evicts_the_oldest() {
    let mut s = store_of(&["a", "b", "c"], 3);
    s.record("d");
    assert_eq!(contents(&s), vec!["d", "a", "b"]);
}

#[test]
fn launching_a_present_name_moves_it_to_the_front() {
    let mut s = store_of(&["a", "b"], 3);
    s.record("b");
    assert_eq!(contents(&s), vec!["b", "a"]);
    s.record("b");
    assert_eq!(contents(&s), vec!["b", "a"]);
}

#[test]
fn launching_a_present_name_keeps_the_length() {
    let mut s = store_of(&["a", "b", "c"], 5);
    s.record("c");
    assert_eq!(contents(&s), vec!["c", "a", "b"]);
    assert_eq!(s.len(), 3);
}

#[test]
fn many_launches_keep_the_last_distinct_names() {
    let mut s = RecencyStore::with_capacity(3);
    for id in ["a", "b", "a", "c", "d", "b", "b", "e", "d"] {
        s.record(id);
    }
    assert_eq!(contents(&s), vec!["d", "e", "b"]);
}

#[test]
fn default_store_keeps_ten_names() {
    let mut s = RecencyStore::new();
    assert_eq!(s.capacity(), DEFAULT_CAPACITY);
    assert_eq!(DEFAULT_CAPACITY, 10);
    for i in 0..15 {
        s.record(&format!("app{}", i));
    }
    assert_eq!(s.len(), 10);
    assert_eq!(s.get(0), "app14");
    assert_eq!(s.get(9), "app5");
}

#[test]
fn zero_capacity_store_stays_empty() {
    let mut s = RecencyStore::with_capacity(0);
    s.record("a");
    assert_eq!(s.len(), 0);
}

#[test]
fn persisted_store_reads_back_the_same() {
    let s = store_of(&["Firefox", "Files", "Été"], 10);
    let bytes = s.to_bytes().unwrap();
    let back = RecencyStore::from_bytes(&bytes, 10).unwrap();
    assert_eq!(contents(&back), contents(&s));
}

#[test]
fn empty_store_round_trips() {
    let s = RecencyStore::new();
    let bytes = s.to_bytes().unwrap();
    assert_eq!(bytes, vec![0u8; 8]);
    let back = RecencyStore::from_bytes(&bytes, 10).unwrap();
    assert_eq!(back.len(), 0);
}

#[test]
fn persisted_form_is_counted_strings() {
    let s = store_of(&["ab", "é"], 10);
    let bytes = s.to_bytes().unwrap();
    let mut expected = vec![2u8, 0, 0, 0, 0, 0, 0, 0];
    expected.extend_from_slice(&[2, 0, 0, 0, 0, 0, 0, 0, b'a', b'b']);
    expected.extend_from_slice(&[2, 0, 0, 0, 0, 0, 0, 0, 0xc3, 0xa9]);
    assert_eq!(bytes, expected);
}

#[test]
fn garbage_bytes_are_a_decode_error() {
    assert_eq!(RecencyStore::from_bytes(&[1, 2, 3], 10).err(), Some(CacheError::Decode));
    let mut bad_utf8 = vec![1u8, 0, 0, 0, 0, 0, 0, 0, 1, 0, 0, 0, 0, 0, 0, 0];
    bad_utf8.push(0xff);
    assert_eq!(RecencyStore::from_bytes(&bad_utf8, 10).err(), Some(CacheError::Decode));
}

#[test]
fn repeated_names_are_invalid() {
    let s = RecencyStore::from_names(vec!["a".to_string(), "b".to_string(), "a".to_string()], 10);
    assert_eq!(s.err(), Some(CacheError::Invalid));
}

#[test]
fn too_many_names_are_invalid() {
    let big = store_of(&["a", "b", "c"], 3);
    let bytes = big.to_bytes().unwrap();
    assert_eq!(RecencyStore::from_bytes(&bytes, 2).err(), Some(CacheError::Invalid));
    assert!(RecencyStore::from_bytes(&bytes, 3).is_ok());
}

#[test]
fn load_falls_back_to_empty() {
    let s = RecencyStore::load_or_empty(None, 10);
    assert_eq!(s.len(), 0);
    let s = RecencyStore::load_or_empty(Some(&[9, 9]), 10);
    assert_eq!(s.len(), 0);
    let good = store_of(&["x"], 10).to_bytes().unwrap();
    let s = RecencyStore::load_or_empty(Some(&good), 10);
    assert_eq!(contents(&s), vec!["x"]);
}

#[test]
fn bytes_after_the_encoded_names_are_ignored() {
    let mut bytes = store_of(&["a", "b"], 10).to_bytes().unwrap();
    bytes.extend_from_slice(&[7, 7, 7]);
    let back = RecencyStore::from_bytes(&bytes, 10).unwrap();
    assert_eq!(contents(&back), vec!["a", "b"]);
}
