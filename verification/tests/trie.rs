use lsmlite::ssindex::trie::{Trie, TrieNode};

fn make_trie(entries: &[(&[u8], u64)]) -> Trie {
    let mut trie = Trie::new(entries.len());
    for (key, offset) in entries {
        trie.insert(key, *offset);
    }
    trie
}

fn roundtrip(trie: Trie) -> Trie {
    let blob = trie.serialize();
    Trie::deserialize_from_disk(&blob)
}

#[test]
fn empty_trie_returns_none() {
    let trie = Trie::new(0);
    assert_eq!(trie.get(b"key"), None);
}

#[test]
fn single_key_insert_and_get() {
    let trie = make_trie(&[(b"hello", 42)]);
    assert_eq!(trie.get(b"hello"), Some(42));
}

#[test]
fn missing_key_returns_none() {
    let trie = make_trie(&[(b"hello", 42)]);
    assert_eq!(trie.get(b"world"), None);
}

#[test]
fn prefix_of_key_is_not_terminal() {
    // "hell" is a prefix of "hello" - must not be found.
    let trie = make_trie(&[(b"hello", 42)]);
    assert_eq!(trie.get(b"hell"), None);
}

#[test]
fn extension_beyond_key_returns_none() {
    let trie = make_trie(&[(b"hello", 42)]);
    assert_eq!(trie.get(b"helloworld"), None);
}

#[test]
fn multiple_disjoint_keys() {
    let trie = make_trie(&[(b"apple", 1), (b"banana", 2), (b"cherry", 3)]);
    assert_eq!(trie.get(b"apple"), Some(1));
    assert_eq!(trie.get(b"banana"), Some(2));
    assert_eq!(trie.get(b"cherry"), Some(3));
    assert_eq!(trie.get(b"appl"), None);
}

#[test]
fn shared_prefix_keys() {
    let trie = make_trie(&[(b"foo", 10), (b"foobar", 20), (b"foobaz", 30)]);
    assert_eq!(trie.get(b"foo"), Some(10));
    assert_eq!(trie.get(b"foobar"), Some(20));
    assert_eq!(trie.get(b"foobaz"), Some(30));
    assert_eq!(trie.get(b"fooba"), None);
}

#[test]
fn key_is_prefix_of_another_both_inserted() {
    let trie = make_trie(&[(b"ab", 5), (b"abc", 6)]);
    assert_eq!(trie.get(b"ab"), Some(5));
    assert_eq!(trie.get(b"abc"), Some(6));
    assert_eq!(trie.get(b"a"), None);
    assert_eq!(trie.get(b"abcd"), None);
}

#[test]
fn insert_out_of_order_keys() {
    // Children must remain sorted regardless of insertion order.
    let trie = make_trie(&[(b"z", 100), (b"a", 1), (b"m", 50)]);
    assert_eq!(trie.get(b"z"), Some(100));
    assert_eq!(trie.get(b"a"), Some(1));
    assert_eq!(trie.get(b"m"), Some(50));
}

#[test]
fn offset_zero_is_valid() {
    let trie = make_trie(&[(b"key", 0)]);
    assert_eq!(trie.get(b"key"), Some(0));
}

#[test]
fn max_offset_below_msb() {
    // Max valid offset is 2^63 - 1 (MSB reserved for WORD_END_FLAG).
    let max_offset = (1_u64 << 63) - 1;
    let trie = make_trie(&[(b"key", max_offset)]);
    assert_eq!(trie.get(b"key"), Some(max_offset));
}

#[test]
fn roundtrip_empty_trie() {
    let trie = Trie::new(0);
    let restored = roundtrip(trie);
    assert_eq!(restored.get(b"anything"), None);
}

#[test]
fn roundtrip_single_key() {
    let trie = make_trie(&[(b"hello", 42)]);
    let restored = roundtrip(trie);
    assert_eq!(restored.get(b"hello"), Some(42));
    assert_eq!(restored.get(b"world"), None);
    assert_eq!(restored.get(b"hell"), None);
}

#[test]
fn roundtrip_multiple_disjoint_keys() {
    let trie = make_trie(&[(b"apple", 1), (b"banana", 2), (b"cherry", 3)]);
    let restored = roundtrip(trie);
    assert_eq!(restored.get(b"apple"), Some(1));
    assert_eq!(restored.get(b"banana"), Some(2));
    assert_eq!(restored.get(b"cherry"), Some(3));
}

#[test]
fn roundtrip_shared_prefix_keys() {
    let trie = make_trie(&[(b"foo", 10), (b"foobar", 20), (b"foobaz", 30)]);
    let restored = roundtrip(trie);
    assert_eq!(restored.get(b"foo"), Some(10));
    assert_eq!(restored.get(b"foobar"), Some(20));
    assert_eq!(restored.get(b"foobaz"), Some(30));
    assert_eq!(restored.get(b"fooba"), None);
}

#[test]
fn roundtrip_prefix_and_extension_both_inserted() {
    let trie = make_trie(&[(b"ab", 5), (b"abc", 6)]);
    let restored = roundtrip(trie);
    assert_eq!(restored.get(b"ab"), Some(5));
    assert_eq!(restored.get(b"abc"), Some(6));
    assert_eq!(restored.get(b"a"), None);
}

#[test]
fn roundtrip_out_of_order_keys() {
    let trie = make_trie(&[(b"z", 100), (b"a", 1), (b"m", 50)]);
    let restored = roundtrip(trie);
    assert_eq!(restored.get(b"z"), Some(100));
    assert_eq!(restored.get(b"a"), Some(1));
    assert_eq!(restored.get(b"m"), Some(50));
}

#[test]
fn first_and_last_key() {
    let trie = make_trie(&[(b"m", 1), (b"ma", 2), (b"c", 3), (b"zz", 4), (b"z", 5)]);
    assert!(trie.is_spanned());
    assert_eq!(trie.min_key(), Some(b"c".to_vec()));
    assert_eq!(trie.max_key(), Some(b"zz".to_vec()));
    let empty = Trie::new(0);
    assert!(empty.is_spanned());
    assert_eq!(empty.min_key(), None);
    assert_eq!(empty.max_key(), None);
    let with_empty_key = make_trie(&[(b"", 7), (b"a", 8)]);
    assert_eq!(with_empty_key.get(b""), Some(7));
    assert_eq!(with_empty_key.min_key(), Some(Vec::new()));
    assert_eq!(with_empty_key.max_key(), Some(b"a".to_vec()));
}

#[test]
fn the_last_offset_of_a_key_stays() {
    let trie = make_trie(&[(b"key", 1), (b"key", 2)]);
    assert_eq!(trie.get(b"key"), Some(2));
}

#[test]
fn the_highest_bit_of_an_offset_is_not_kept() {
    let trie = make_trie(&[(b"key", (1_u64 << 63) | 5)]);
    assert_eq!(trie.get(b"key"), Some(5));
}

#[test]
fn bytes_of_a_small_trie() {
    let trie = make_trie(&[(b"a", 9)]);
    assert_eq!(
        trie.serialize(),
        vec![
            0, 0, 0, 2, // two nodes
            1, 0, 0, 0, 0, 0, 0, 0, 0, b'a', 0, 0, 0, 1, // the root
            0, 0x80, 0, 0, 0, 0, 0, 0, 9, // the end of "a"
        ]
    );
}

#[test]
fn a_node_with_all_but_one_byte_behind_it_is_read_back() {
    let mut trie = Trie::new(255);
    for c in 0..255u8 {
        trie.insert(&[c], c as u64);
    }
    let restored = roundtrip(trie);
    for c in 0..255u8 {
        assert_eq!(restored.get(&[c]), Some(c as u64));
    }
    assert_eq!(restored.get(&[255]), None);
}

#[test]
fn bytes_that_hold_no_trie_are_told() {
    let blob = make_trie(&[(b"ab", 9)]).serialize();
    assert!(Trie::is_serialized(&blob));
    for cut in 0..blob.len() {
        assert!(!Trie::is_serialized(&blob[..cut]));
    }
    assert!(Trie::deserialize_from_disk(&blob).is_walkable());
    // The root leads to a node that is not there.
    let mut broken = blob.clone();
    broken[17] = 9;
    assert!(Trie::is_serialized(&broken));
    assert!(!Trie::deserialize_from_disk(&broken).is_walkable());
    assert!(!Trie::deserialize_from_disk(&broken).is_spanned());
    // The root leads to itself.
    let mut looped = blob;
    looped[17] = 0;
    assert!(Trie::deserialize_from_disk(&looped).is_walkable());
    assert!(!Trie::deserialize_from_disk(&looped).is_spanned());
}

#[test]
fn a_node_between_other_bytes_is_read_back() {
    let mut node = TrieNode::default();
    node.insert_child(0, b'b', 2);
    node.insert_child(0, b'a', 1);
    node.set_offset(77);
    assert_eq!(node.get_child_idx(b'a'), Ok(1));
    assert_eq!(node.get_child_idx(b'c'), Err(2));
    let mut buffer = vec![9, 9, 9];
    node.serialize_into_buffer(&mut buffer);
    assert_eq!(node.serialized_size(), 9 + 5 * 2);
    assert_eq!(buffer.len(), 3 + node.serialized_size());
    buffer.push(8);
    let mut offset = 3;
    let read = TrieNode::deserialize_from_disk(&buffer, &mut offset);
    assert_eq!(offset, 3 + 19);
    assert_eq!(read.get_offset(), Some(77));
    assert_eq!(read.get_child_idx(b'a'), Ok(1));
    assert_eq!(read.get_child_idx(b'b'), Ok(2));
    let mut again = Vec::new();
    read.serialize_into_buffer(&mut again);
    assert_eq!(&buffer[3..22], &again[..]);
}

#[test]
fn a_default_trie_is_empty() {
    let trie = Trie::default();
    assert_eq!(trie.node_count(), 0);
    assert_eq!(trie.get(b""), None);
}
