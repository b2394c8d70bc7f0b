use file_compressor::fnv::{FNV1a, FNV1aBuilder};
use file_compressor::map::{ByteMap, CountMap};
use file_compressor::node::Node;
use std::hash::{BuildHasher, Hasher};

#[test]
fn count_map_counts() {
    let mut map = CountMap::new();
    assert_eq!(map.get(7), 0);
    map.increment_count(7);
    map.increment_count(7);
    map.increment_count_by(255, 40);
    assert_eq!(map.get(7), 2);
    assert_eq!(map.get(255), 40);
    assert_eq!(map.get(0), 0);
    let copy = map.get_copy();
    assert_eq!(copy[7], 2);
    assert_eq!(copy[255], 40);
    assert_eq!(copy.iter().sum::<u64>(), 42);
}

#[test]
fn byte_map_holds_one_value_per_byte() {
    let mut map: ByteMap<String> = ByteMap::new();
    assert_eq!(map.get(0), &None);
    assert_eq!(map.get(255), &None);
    map.insert("zero".to_string(), 0);
    map.insert("last".to_string(), 255);
    map.insert("again".to_string(), 0);
    assert_eq!(map.get(0), &Some("again".to_string()));
    assert_eq!(map.get(255), &Some("last".to_string()));
    assert_eq!(map.remove(0), Some("again".to_string()));
    assert_eq!(map.remove(0), None);
    assert_eq!(map.get(0), &None);
    assert_eq!(map.get(255), &Some("last".to_string()));
}

#[test]
fn node_accessors() {
    let mut leaf = Node::new(b'q', 9);
    assert_eq!(leaf.get_byte(), Some(b'q'));
    assert_eq!(leaf.get_freq(), 9);
    assert!(leaf.get_left().is_none());
    assert!(leaf.get_right().is_none());

    let fork = Node::new_huffman(Node::new(b'a', 1), Node::new(b'b', 2), 3);
    assert_eq!(fork.get_byte(), None);
    assert_eq!(fork.get_freq(), 3);
    assert_eq!(fork.get_left().unwrap().get_byte(), Some(b'a'));
    assert_eq!(fork.get_right().unwrap().get_byte(), Some(b'b'));

    leaf.set_left(Node::new(b'l', 1));
    leaf.set_right(Node::new(b'r', 2));
    assert_eq!(leaf.get_left().unwrap().get_byte(), Some(b'l'));
    assert_eq!(leaf.get_right().unwrap().get_byte(), Some(b'r'));
    assert_eq!(leaf.get_byte(), Some(b'q'));
    assert_eq!(leaf.get_freq(), 9);
}

#[test]
fn nodes_compare_by_frequency_the_rarer_the_greater() {
    let rare = Node::new(b'a', 1);
    let common = Node::new(b'b', 10);
    let other = Node::new(b'c', 10);
    assert!(rare > common);
    assert!(common < rare);
    assert!(common == other);
    assert!(common >= other && common <= other);
    assert!(rare != common);
}

#[test]
fn fnv1a_known_digests() {
    let mut h = FNV1a::new();
    assert_eq!(h.finish(), 0x811c9dc5);
    h.write(b"a");
    assert_eq!(h.finish(), 0xe40c292c);

    let mut h = FNV1a::new();
    h.write(b"foobar");
    assert_eq!(h.finish(), 0xbf9cf968);

    let mut h = FNV1aBuilder.build_hasher();
    h.write(b"foo");
    h.write(b"bar");
    assert_eq!(h.finish(), 0xbf9cf968);
    h.write(b"");
    assert_eq!(h.finish(), 0xbf9cf968);
}

#[test]
fn byte_map_copies_and_modifies() {
    let mut map: ByteMap<u32> = ByteMap::new();
    map.modify_or_default(3, |v| *v += 1, 10);
    assert_eq!(map.get(3), &Some(10));
    map.modify_or_default(3, |v| *v += 1, 10);
    map.modify_or_default(3, |v| *v *= 2, 10);
    assert_eq!(map.get(3), &Some(22));
    let copy = map.get_copy();
    assert_eq!(copy.len(), 256);
    assert_eq!(copy[3], Some(22));
    assert_eq!(copy.iter().filter(|slot| slot.is_some()).count(), 1);
}
