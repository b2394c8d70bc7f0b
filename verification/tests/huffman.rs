use file_compressor::error::Error;
use file_compressor::huffman::{
    chunk_size, count, count_chunked, count_single_thread, merge_counts, Huffman,
};
use file_compressor::map::CountMap;
use file_compressor::node::Node;

fn round_trip(data: &[u8]) -> Vec<u8> {
    let packed = Huffman::encode(data);
    let mut out = Vec::new();
    assert_eq!(Huffman::decode(&packed, &mut out), Ok(()));
    assert_eq!(out, data);
    packed
}

fn leaves(node: &Node, depth: usize, out: &mut Vec<(u8, u64, usize)>) {
    match (node.get_left(), node.get_right()) {
        (None, None) => out.push((node.get_byte().unwrap(), node.get_freq(), depth)),
        (left, right) => {
            assert_eq!(node.get_byte(), None);
            let (left, right) = (left.unwrap(), right.unwrap());
            assert_eq!(node.get_freq(), left.get_freq() + right.get_freq());
            leaves(left, depth + 1, out);
            leaves(right, depth + 1, out);
        }
    }
}

#[test]
fn empty_input_is_its_length_alone() {
    let packed = Huffman::encode(b"");
    assert_eq!(packed, vec![0u8; 8]);
    let mut out = Vec::new();
    assert_eq!(Huffman::decode(&packed, &mut out), Ok(()));
    assert!(out.is_empty());
}

#[test]
fn single_valued_input_spends_one_bit_per_symbol() {
    let data = vec![0x41u8; 1000];
    let packed = round_trip(&data);
    // 64 bits of length, 9 bits of tree, 1000 bits of codes, padding
    assert_eq!(packed.len(), (64 + 9 + 1000 + 7) / 8);
    assert_eq!(&packed[..8], &[0, 0, 0, 0, 0, 0, 0x03, 0xE8]);
    // the tree: leaf flag, then 0x41; the codes: all zero
    assert_eq!(packed[8], 0b1010_0000);
    assert_eq!(packed[9], 0b1000_0000);
    assert!(packed[10..].iter().all(|b| *b == 0));

    let table = count(&data);
    let mut heap = Huffman::create_node_heap(&table);
    assert_eq!(heap.size(), 1);
    let root = Huffman::build_tree(&mut heap);
    assert_eq!(heap.size(), 0);
    assert_eq!(root.get_byte(), Some(0x41));
    assert_eq!(root.get_freq(), 1000);
    assert!(root.get_left().is_none() && root.get_right().is_none());
    let codes = Huffman::generate_codes(&root);
    assert_eq!(codes.get(0x41), &Some(vec![false]));
    assert_eq!(codes.get(0x42), &None);
}

#[test]
fn two_symbols_wire_format_is_bit_exact() {
    let packed = Huffman::encode(b"aab");
    // length 3; tree: 0, then the rarer 'b' on the left (1 01100010), 'a' on the right (1 01100001);
    // codes: a = 1, b = 0: 1 1 0
    let mut expected = vec![0, 0, 0, 0, 0, 0, 0, 3];
    // 0 1 01100010 1 01100001 110 + padding: 0101_1000 1010_1100 0011_1000
    expected.extend([0b0101_1000, 0b1010_1100, 0b0011_1000]);
    assert_eq!(packed, expected);
    let mut out = Vec::new();
    assert_eq!(Huffman::decode(&packed, &mut out), Ok(()));
    assert_eq!(out, b"aab");
}

#[test]
fn huffman_assorted_inputs_round_trip() {
    round_trip(b"a");
    round_trip(b"ab");
    round_trip(b"abracadabra");
    round_trip(b"the quick brown fox jumps over the lazy dog");
    let all: Vec<u8> = (0..=255u8).collect();
    round_trip(&all);
    let mut skewed = Vec::new();
    for i in 0..=255u32 {
        for _ in 0..(i % 17) * (i % 5) + 1 {
            skewed.push(i as u8);
        }
    }
    round_trip(&skewed);
}

#[test]
fn unbalanced_frequencies_round_trip() {
    // frequencies 1, 1, 2, 4, 8, ... make the tree a chain
    let mut data = Vec::new();
    for sym in 0..18u32 {
        let n = if sym == 0 { 1 } else { 1usize << (sym - 1) };
        data.extend(std::iter::repeat(sym as u8).take(n));
    }
    round_trip(&data);
}

#[test]
fn build_tree_keeps_the_leaves_and_sums_the_frequencies() {
    let data = b"abracadabra";
    let table = count(data);
    let mut heap = Huffman::create_node_heap(&table);
    assert_eq!(heap.size(), 5);
    let root = Huffman::build_tree(&mut heap);
    assert_eq!(heap.size(), 0);
    assert_eq!(root.get_freq(), 11);
    let mut found = Vec::new();
    leaves(&root, 0, &mut found);
    let mut seen: Vec<(u8, u64)> = found.iter().map(|l| (l.0, l.1)).collect();
    seen.sort();
    assert_eq!(seen, vec![(b'a', 5), (b'b', 2), (b'c', 1), (b'd', 1), (b'r', 2)]);
    // the greedy merge gives the minimal weighted path length: 23 bits for "abracadabra"
    let cost: u64 = found.iter().map(|l| l.1 * l.2 as u64).sum();
    assert_eq!(cost, 23);
}

#[test]
fn recursive_and_stack_traversal_give_the_same_codes() {
    let data = b"this is an example of a huffman tree";
    let table = count(data);
    let mut heap = Huffman::create_node_heap(&table);
    let root = Huffman::build_tree(&mut heap);
    let recursive = Huffman::generate_codes(&root);
    let stacked = Huffman::gen_codes__safe(&root);
    let mut found = Vec::new();
    leaves(&root, 0, &mut found);
    for byte in 0..=255u8 {
        assert_eq!(recursive.get(byte), stacked.get(byte));
        let depth = found.iter().find(|l| l.0 == byte).map(|l| l.2);
        assert_eq!(recursive.get(byte).as_ref().map(|c| c.len()), depth);
    }
}

#[test]
fn codes_follow_the_tree_left_zero_right_one() {
    let left = Node::new(b'x', 1);
    let right = Node::new_huffman(Node::new(b'y', 1), Node::new(b'z', 2), 3);
    let root = Node::new_huffman(left, right, 4);
    let codes = Huffman::generate_codes(&root);
    assert_eq!(codes.get(b'x'), &Some(vec![false]));
    assert_eq!(codes.get(b'y'), &Some(vec![true, false]));
    assert_eq!(codes.get(b'z'), &Some(vec![true, true]));
    assert_eq!(codes.get(b'w'), &None);
    let stacked = Huffman::gen_codes__safe(&root);
    assert_eq!(stacked.get(b'y'), &Some(vec![true, false]));
}

#[test]
fn huffman_decoding_appends_to_the_output() {
    let packed = Huffman::encode(b"hello");
    let mut out = b">> ".to_vec();
    assert_eq!(Huffman::decode(&packed, &mut out), Ok(()));
    assert_eq!(out, b">> hello");
}

#[test]
fn huffman_truncated_input_stops_cleanly() {
    let packed = Huffman::encode(b"abracadabra abracadabra");
    for cut in 0..packed.len() {
        let mut out = Vec::new();
        assert_eq!(Huffman::decode(&packed[..cut], &mut out), Ok(()));
        assert!(b"abracadabra abracadabra".starts_with(&out));
    }
    let mut out = Vec::new();
    assert_eq!(Huffman::decode(&[], &mut out), Ok(()));
    assert!(out.is_empty());
}

#[test]
fn tree_deeper_than_any_code_tree_is_corrupt() {
    // length 1, then nothing but forks
    let mut stream = vec![0, 0, 0, 0, 0, 0, 0, 1];
    stream.extend(vec![0u8; 40]);
    let mut out = Vec::new();
    assert_eq!(Huffman::decode(&stream, &mut out), Err(Error::CorruptStream));
    assert!(out.is_empty());

    // 255 forks are not too deep: the stream just ends inside the tree
    let mut stream = vec![0, 0, 0, 0, 0, 0, 0, 1];
    stream.extend(vec![0u8; 31]);
    let mut out = Vec::new();
    assert_eq!(Huffman::decode(&stream, &mut out), Ok(()));
    assert!(out.is_empty());
}

#[test]
fn counting_in_one_go_and_in_chunks_agree() {
    let mut data = Vec::new();
    let mut x: u32 = 7;
    for _ in 0..100_000 {
        x = x.wrapping_mul(1103515245).wrapping_add(12345);
        data.push((x >> 16) as u8 & 0x3f);
    }
    let whole = count(&data);
    for threads in [1usize, 2, 3, 8, 1000] {
        let mut single = CountMap::new();
        count_single_thread(&mut single, &data);
        let mut chunked = CountMap::new();
        count_chunked(&mut chunked, &data, threads);
        assert_eq!(single.get_copy(), whole.get_copy());
        assert_eq!(chunked.get_copy(), whole.get_copy());
        assert_eq!(Huffman::create_freq_table(&data, threads).get_copy(), whole.get_copy());
    }
    let total: u64 = whole.get_copy().iter().sum();
    assert_eq!(total, 100_000);
    assert_eq!(whole.get(0x40), 0);
}

#[test]
fn long_pages_take_the_chunked_path() {
    let data: Vec<u8> = (0..700_000u32).map(|i| (i % 251) as u8).collect();
    let table = Huffman::create_freq_table(&data, 4);
    assert_eq!(table.get_copy(), count(&data).get_copy());
    assert_eq!(table.get(0), 2789);
    assert_eq!(table.get(250), 2788);
    assert_eq!(table.get(251), 0);
}

#[test]
fn merging_adds_slot_by_slot() {
    let mut a = count(b"aab");
    let b = count(b"abc");
    merge_counts(&mut a, &b);
    assert_eq!(a.get(b'a'), 3);
    assert_eq!(a.get(b'b'), 2);
    assert_eq!(a.get(b'c'), 1);
    assert_eq!(a.get(b'd'), 0);
}

#[test]
fn chunks_are_one_longer_than_an_even_share() {
    assert_eq!(chunk_size(10, 3), 4);
    assert_eq!(chunk_size(0, 5), 1);
    assert_eq!(chunk_size(320_000, 8), 40_001);
    assert_eq!(chunk_size(usize::MAX, 1), usize::MAX);
    assert_eq!(chunk_size(usize::MAX, 2), usize::MAX / 2 + 1);
}

#[test]
fn a_table_counted_elsewhere_gives_the_same_stream() {
    let data: Vec<u8> = (0..50_000u32).map(|i| ((i * i) % 13) as u8 * 3).collect();
    let table = Huffman::create_freq_table(&data, 3);
    assert_eq!(Huffman::encode_counted(&data, &table), Huffman::encode(&data));
    let mut chunked = CountMap::new();
    count_chunked(&mut chunked, &data, 7);
    let packed = Huffman::encode_counted(&data, &chunked);
    let mut out = Vec::new();
    assert_eq!(Huffman::decode(&packed, &mut out), Ok(()));
    assert_eq!(out, data);
    assert_eq!(Huffman::encode_counted(b"", &CountMap::new()), vec![0u8; 8]);
}

#[test]
fn any_number_of_workers_counts_the_same() {
    let data: Vec<u8> = (0..1000u32).map(|i| (i % 200) as u8).collect();
    let whole = count(&data).get_copy();
    for workers in [1usize, 4, usize::MAX / 80_000, usize::MAX / 80_000 + 1, usize::MAX] {
        assert_eq!(Huffman::create_freq_table(&data, workers).get_copy(), whole);
        let mut chunked = CountMap::new();
        count_chunked(&mut chunked, &data, workers);
        assert_eq!(chunked.get_copy(), whole);
    }
}

#[test]
fn codes_are_prefix_free() {
    let data = b"a man a plan a canal panama";
    let table = count(data);
    let mut heap = Huffman::create_node_heap(&table);
    let root = Huffman::build_tree(&mut heap);
    let codes = Huffman::gen_codes__safe(&root);
    let held: Vec<&Vec<bool>> = (0..=255u8).filter_map(|b| codes.get(b).as_ref()).collect();
    assert_eq!(held.len(), 7);
    for (i, a) in held.iter().enumerate() {
        for (j, b) in held.iter().enumerate() {
            if i != j {
                assert!(!b.starts_with(a));
            }
        }
    }
}

#[test]
fn large_skewed_input_round_trips_and_shrinks() {
    let mut data = Vec::new();
    let mut x: u64 = 0x9E3779B97F4A7C15;
    for _ in 0..300_000 {
        x ^= x << 13;
        x ^= x >> 7;
        x ^= x << 17;
        // a skewed alphabet: small values are far more frequent
        let r = (x >> 40) as u32 % 1000;
        let byte = if r < 600 { 0 } else if r < 850 { 1 } else if r < 950 { (r % 7) as u8 + 2 } else { (x >> 8) as u8 };
        data.push(byte);
    }
    let packed = round_trip(&data);
    assert!(packed.len() < data.len() / 2);
}
