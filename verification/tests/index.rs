use actionkv::index::{bytes_eq, Index};

#[test]
fn new_index_is_empty() {
    let index = Index::new();
    assert_eq!(index.len(), 0);
    assert_eq!(index.get(b"a"), None);
}

#[test]
fn index_insert_overwrites_the_offset_of_a_key() {
    let mut index = Index::new();
    index.insert(b"a".to_vec(), 0);
    index.insert(b"b".to_vec(), 14);
    index.insert(b"a".to_vec(), 28);
    assert_eq!(index.len(), 2);
    assert_eq!(index.get(b"a"), Some(28));
    assert_eq!(index.get(b"b"), Some(14));
    assert_eq!(index.get(b"ab"), None);
    assert_eq!(index.get(b""), None);
}

#[test]
fn index_keys_are_exact_byte_strings() {
    let mut index = Index::new();
    index.insert(vec![], 1);
    index.insert(vec![0], 2);
    index.insert(vec![0, 0], 3);
    assert_eq!(index.len(), 3);
    assert_eq!(index.get(&[]), Some(1));
    assert_eq!(index.get(&[0]), Some(2));
    assert_eq!(index.get(&[0, 0]), Some(3));
    assert_eq!(index.get(&[0, 0, 0]), None);
    assert_eq!(index.get(&[1]), None);
}

#[test]
fn bytes_eq_compares_length_and_content() {
    assert!(bytes_eq(b"", b""));
    assert!(bytes_eq(b"abc", b"abc"));
    assert!(!bytes_eq(b"abc", b"abd"));
    assert!(!bytes_eq(b"abc", b"ab"));
    assert!(!bytes_eq(b"", b"a"));
}
