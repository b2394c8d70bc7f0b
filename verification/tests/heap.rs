use file_compressor::heap::Heap;
use file_compressor::node::Node;

#[test]
fn heap_test_1() {
    let mut heap = Heap::new(vec![4, 7, 2, 3, 4]);
    assert_eq!(heap.remove(), Some(7));
    assert_eq!(heap.remove(), Some(4));
    assert_eq!(heap.remove(), Some(4));
    assert_eq!(heap.remove(), Some(3));
    assert_eq!(heap.remove(), Some(2));
}

#[test]
fn test_empty() {
    let mut heap: Heap<i32> = Heap::new(vec![]);
    assert_eq!(heap.remove(), None);
}

#[test]
fn heap_of_one_item() {
    let mut heap = Heap::new(vec![9u64]);
    assert_eq!(heap.size(), 1);
    assert_eq!(heap.remove(), Some(9));
    assert_eq!(heap.size(), 0);
    assert_eq!(heap.remove(), None);
    heap.insert(1);
    assert_eq!(heap.remove(), Some(1));
}

#[test]
fn inserts_and_removals_keep_the_order() {
    let mut heap: Heap<u32> = Heap::new(Vec::new());
    let mut x: u32 = 12345;
    let mut held: Vec<u32> = Vec::new();
    for round in 0..2000 {
        x = x.wrapping_mul(1664525).wrapping_add(1013904223);
        if round % 3 == 2 {
            let top = heap.remove();
            let max = held.iter().copied().max();
            assert_eq!(top, max);
            if let Some(m) = max {
                let at = held.iter().position(|v| *v == m).unwrap();
                held.swap_remove(at);
            }
        } else {
            heap.insert(x >> 20);
            held.push(x >> 20);
        }
        assert_eq!(heap.size(), held.len());
    }
    let mut last = u32::MAX;
    while let Some(v) = heap.remove() {
        assert!(v <= last);
        last = v;
    }
}

#[test]
fn heap_of_nodes_hands_out_the_rarest_first() {
    let mut heap = Heap::new(vec![Node::new(b'a', 5), Node::new(b'b', 1), Node::new(b'c', 3)]);
    assert_eq!(heap.remove().unwrap().get_byte(), Some(b'b'));
    assert_eq!(heap.remove().unwrap().get_byte(), Some(b'c'));
    assert_eq!(heap.remove().unwrap().get_byte(), Some(b'a'));
    assert!(heap.remove().is_none());
}
