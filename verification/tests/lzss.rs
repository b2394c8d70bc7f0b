use file_compressor::error::Error;
use file_compressor::lzss::{Output, LZSS};

fn round_trip(data: &[u8]) {
    let packed = LZSS::write_output(data);
    let mut out = Vec::new();
    assert_eq!(LZSS::read_input(&packed, &mut out), Ok(()));
    assert_eq!(out, data);
}

#[test]
fn match_policy_prefers_the_nearest_longest_run() {
    assert_eq!(LZSS::search_buffer(b"abcabcabc", 3), (3, 3));
    assert_eq!(LZSS::search_buffer(b"abcabcabc", 6), (3, 3));
    assert_eq!(LZSS::search_buffer(b"abcabcabc", 0), (0, 0));
    assert_eq!(LZSS::search_buffer(b"abcabcabc", 9), (0, 0));
    assert_eq!(LZSS::search_buffer(b"abcabcabc", 1), (0, 0));
    // two candidates of equal length: the nearer one stays
    assert_eq!(LZSS::search_buffer(b"abcXabcYabc", 8), (4, 3));
    // a farther candidate wins only when strictly longer
    assert_eq!(LZSS::search_buffer(b"abcdXabcYabcd", 9), (9, 4));
    // two matching bytes are not enough
    assert_eq!(LZSS::search_buffer(b"abXab", 3), (0, 0));
}

#[test]
fn match_length_is_capped_at_fifteen() {
    let mut data = Vec::new();
    for _ in 0..2 {
        for i in 0..40u8 {
            data.push(i);
        }
    }
    assert_eq!(LZSS::search_buffer(&data, 40), (40, 15));
}

#[test]
fn encode_emits_literals_then_references() {
    let tokens = LZSS::encode(b"abcabcabc", 9);
    assert_eq!(
        tokens,
        vec![
            Output::Literal(b'a'),
            Output::Literal(b'b'),
            Output::Literal(b'c'),
            Output::Reference { offset: 3, length: 3 },
            Output::Reference { offset: 3, length: 3 },
        ]
    );
    assert_eq!(LZSS::encode(b"abcabcabc", 4).len(), 4);
    assert_eq!(LZSS::encode(b"", 0), Vec::<Output>::new());
}

#[test]
fn wire_format_is_bit_exact() {
    let packed = LZSS::write_output(b"abcabc");
    // 1 01100001 | 1 01100010 | 1 01100011 | 0 000000000011 0011 | 0000
    assert_eq!(
        packed,
        vec![0b1011_0000, 0b1101_1000, 0b1010_1100, 0b0110_0000, 0b0000_0011, 0b0011_0000]
    );
}

#[test]
fn lzss_empty_input_round_trips() {
    assert_eq!(LZSS::write_output(b""), Vec::<u8>::new());
    round_trip(b"");
}

#[test]
fn lzss_assorted_inputs_round_trip() {
    round_trip(b"a");
    round_trip(b"abcabcabc");
    round_trip(b"the quick brown fox jumps over the lazy dog, the quick brown fox");
    let all: Vec<u8> = (0..=255u8).collect();
    round_trip(&all);
    let mut long = Vec::new();
    for i in 0..20000u32 {
        long.push((i % 7) as u8 ^ (i / 300) as u8);
    }
    round_trip(&long);
    round_trip(&vec![0x41u8; 1000]);
}

#[test]
fn lzss_decoding_appends_to_the_output() {
    let packed = LZSS::write_output(b"xyzxyz");
    let mut out = b"head:".to_vec();
    assert_eq!(LZSS::read_input(&packed, &mut out), Ok(()));
    assert_eq!(out, b"head:xyzxyz");
}

#[test]
fn lzss_truncated_input_stops_cleanly() {
    let packed = LZSS::write_output(b"abcdef");
    let mut out = Vec::new();
    assert_eq!(LZSS::read_input(&packed[..3], &mut out), Ok(()));
    assert_eq!(out, b"ab");
}

#[test]
fn unreplayable_reference_is_corrupt() {
    // literal 'a', then a reference with offset 2 when one byte is out
    // 1 01100001 | 0 000000000010 0001 | padding
    let stream = [0b1011_0000, 0b1000_0000, 0b0001_0000, 0b1000_0000];
    let mut out = Vec::new();
    assert_eq!(LZSS::read_input(&stream, &mut out), Err(Error::CorruptStream));
    assert_eq!(out, b"a");

    // a run longer than its offset
    // 1 01100001 | 0 000000000001 0010
    let stream = [0b1011_0000, 0b1000_0000, 0b0000_1001, 0b0000_0000];
    let mut out = Vec::new();
    assert_eq!(LZSS::read_input(&stream, &mut out), Err(Error::CorruptStream));
    assert_eq!(out, b"a");
}

fn distinct_triples(n: usize) -> Vec<u8> {
    // bytes in which no run of three repeats: each block of two bytes spells a counter
    let mut data = Vec::new();
    let mut k: u32 = 0;
    while data.len() < n {
        data.push(0x80 | (k >> 7) as u8);
        data.push((k & 0x7f) as u8);
        k += 1;
    }
    data.truncate(n);
    data
}

#[test]
fn farthest_offset_is_taken_for_corruption() {
    let mut data = b"\xffab".to_vec();
    data.extend(distinct_triples(4092));
    data.extend(b"\xffab");
    assert_eq!(LZSS::search_buffer(&data, 4095), (4095, 3));
    let packed = LZSS::write_output(&data);
    let mut out = Vec::new();
    assert_eq!(LZSS::read_input(&packed, &mut out), Err(Error::CorruptStream));
    assert_eq!(out, &data[..4095]);
}

#[test]
fn window_forgets_bytes_older_than_its_capacity() {
    let mut data = b"\xffab".to_vec();
    data.extend(distinct_triples(4093));
    data.extend(b"\xffab");
    assert_eq!(LZSS::search_buffer(&data, 4096), (0, 0));
    round_trip(&data);

    let mut near = b"\xffab".to_vec();
    near.extend(distinct_triples(4091));
    near.extend(b"\xffab");
    assert_eq!(LZSS::search_buffer(&near, 4094), (4094, 3));
    round_trip(&near);
}

#[test]
fn repetitive_input_shrinks() {
    let mut data = Vec::new();
    for i in 0..3000u32 {
        data.extend_from_slice(b"to be or not to be, ");
        data.push((i % 10) as u8 + b'0');
    }
    let packed = LZSS::write_output(&data);
    assert!(packed.len() < data.len() / 3);
    let mut out = Vec::new();
    assert_eq!(LZSS::read_input(&packed, &mut out), Ok(()));
    assert_eq!(out, data);
}
