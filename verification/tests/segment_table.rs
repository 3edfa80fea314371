//! The segment table codec.

use capnp_nonblock::table::{
    parse_segment_table, segment_table_length, serialize_segment_table, Parsed,
};

fn words(count: usize) -> Vec<u8> {
    vec![0; count * 8]
}

fn serialize(word_lengths: &[usize]) -> Vec<u8> {
    let segments: Vec<Vec<u8>> = word_lengths.iter().map(|&len| words(len)).collect();
    let mut table = vec![0xAA; 3];
    serialize_segment_table(&mut table, &segments);
    table
}

#[test]
fn test_parse_segment_table() {
    fn compare(expected: &[u64], buf: &[u8]) {
        let mut actual = Vec::new();
        assert!(parse_segment_table(buf, &mut actual).is_done());
        assert_eq!(expected, &*actual);
    }

    compare(&[0 * 8],
            &[0,0,0,0,   // 1 segments
              0,0,0,0]); // 0 words

    compare(&[1 * 8],
            &[0,0,0,0,   // 1 segments
              1,0,0,0]); // 1 word

    compare(&[1 * 8, 1 * 8],
            &[1,0,0,0,   // 2 segments
              1,0,0,0,   // 1 word
              1,0,0,0,   // 1 word
              0,0,0,0]); // padding

    compare(&[1 * 8, 1 * 8, 256 * 8],
            &[2,0,0,0,   // 3 segments
              1,0,0,0,   // 1 word
              1,0,0,0,   // 1 word
              0,1,0,0]); // 256 length

    compare(&[77 * 8, 23 * 8, 1 * 8, 99 * 8],
            &[3,0,0,0,    // 4 segments
              77,0,0,0,   // 77 word
              23,0,0,0,   // 23 words
              1,0,0,0,    // 1 word
              99,0,0,0,   // 99 words
              0,0,0,0]);  // padding
}

#[test]
fn test_parse_invalid_segment_table() {
    let mut v = Vec::new();
    assert!(parse_segment_table(&[255,1,0,0], &mut v).is_err());
    assert!(parse_segment_table(&[0,0,0,0], &mut v).is_incomplete());
    assert!(parse_segment_table(&[0,0,0,0, 0,0,0], &mut v).is_incomplete());
    assert!(parse_segment_table(&[1,0,0,0, 0,0,0,0, 0,0,0], &mut v).is_incomplete());
    assert!(parse_segment_table(&[255,255,255,255], &mut v).is_err());
}

#[test]
fn parse_hands_back_what_follows_the_table() {
    let mut lengths = vec![7];
    let input = [0, 0, 0, 0, 2, 0, 0, 0, 9, 8, 7];
    match parse_segment_table(&input, &mut lengths) {
        Parsed::Done(rest) => assert_eq!(&[9, 8, 7], rest),
        _ => panic!("a whole table"),
    }
    assert_eq!(vec![7, 16], lengths);

    // The padding of an even table is part of the table, whatever it holds.
    let mut lengths = Vec::new();
    let input = [1, 0, 0, 0, 1, 0, 0, 0, 3, 0, 0, 0, 0xde, 0xad, 0xbe, 0xef, 42];
    match parse_segment_table(&input, &mut lengths) {
        Parsed::Done(rest) => assert_eq!(&[42], rest),
        _ => panic!("a whole table"),
    }
    assert_eq!(vec![8, 24], lengths);
}

#[test]
fn parse_reads_fields_least_significant_byte_first() {
    let mut lengths = Vec::new();
    let input = [0, 0, 0, 0, 0x04, 0x03, 0x02, 0x01];
    assert!(parse_segment_table(&input, &mut lengths).is_done());
    assert_eq!(vec![0x0102_0304u64 * 8], lengths);

    let mut lengths = Vec::new();
    let input = [0, 0, 0, 0, 0xff, 0xff, 0xff, 0xff];
    assert!(parse_segment_table(&input, &mut lengths).is_done());
    assert_eq!(vec![0xffff_ffffu64 * 8], lengths);
}

#[test]
fn parse_says_how_much_is_missing() {
    fn hint(input: &[u8]) -> usize {
        let mut lengths = vec![1, 2];
        match parse_segment_table(input, &mut lengths) {
            Parsed::Incomplete(needed) => {
                assert_eq!(vec![1, 2], lengths);
                needed
            }
            _ => panic!("an incomplete table"),
        }
    }
    assert_eq!(4, hint(&[]));
    assert_eq!(3, hint(&[0]));
    assert_eq!(1, hint(&[0, 0, 0]));
    assert_eq!(4, hint(&[0, 0, 0, 0]));
    assert_eq!(1, hint(&[0, 0, 0, 0, 0, 0, 0]));
    // Two segments: 16 bytes in all.
    assert_eq!(12, hint(&[1, 0, 0, 0]));
    assert_eq!(5, hint(&[1, 0, 0, 0, 0, 0, 0, 0, 0, 0, 0]));
    assert_eq!(4, hint(&[1, 0, 0, 0, 1, 0, 0, 0, 1, 0, 0, 0]));
    assert_eq!(1, hint(&[1, 0, 0, 0, 1, 0, 0, 0, 1, 0, 0, 0, 0, 0, 0]));
    // Three segments: 16 bytes in all.
    assert_eq!(8, hint(&[2, 0, 0, 0, 1, 0, 0, 0]));
}

#[test]
fn parse_rejects_a_count_of_none_or_too_many() {
    fn count(input: &[u8]) -> u32 {
        let mut lengths = vec![5];
        match parse_segment_table(input, &mut lengths) {
            Parsed::Error(count) => {
                assert_eq!(vec![5], lengths);
                count
            }
            _ => panic!("a rejected table"),
        }
    }
    assert_eq!(512, count(&[255, 1, 0, 0]));
    assert_eq!(512, count(&[255, 1, 0, 0, 1, 2, 3, 4, 5, 6, 7, 8]));
    assert_eq!(0, count(&[255, 255, 255, 255]));
    assert_eq!(0, count(&[255, 255, 255, 255, 0, 0, 0, 0]));
    assert_eq!(513, count(&[0, 2, 0, 0]));
    assert_eq!(0x8000_0000, count(&[255, 255, 255, 127]));
}

#[test]
fn parse_accepts_the_largest_count() {
    // 511 segments: the count field holds 510.
    let mut input = vec![254, 1, 0, 0];
    for index in 0..511u32 {
        input.extend_from_slice(&index.to_le_bytes());
    }
    assert_eq!(2048, input.len());
    let mut lengths = Vec::new();
    match parse_segment_table(&input, &mut lengths) {
        Parsed::Done(rest) => assert!(rest.is_empty()),
        _ => panic!("a whole table"),
    }
    let expected: Vec<u64> = (0..511u64).map(|index| index * 8).collect();
    assert_eq!(expected, lengths);

    let short = &input[..2047];
    let mut lengths = Vec::new();
    match parse_segment_table(short, &mut lengths) {
        Parsed::Incomplete(needed) => assert_eq!(1, needed),
        _ => panic!("an incomplete table"),
    }
    assert!(lengths.is_empty());
}

#[test]
fn parse_accepts_a_single_empty_segment() {
    let mut lengths = Vec::new();
    match parse_segment_table(&[0, 0, 0, 0, 0, 0, 0, 0], &mut lengths) {
        Parsed::Done(rest) => assert!(rest.is_empty()),
        _ => panic!("a whole table"),
    }
    assert_eq!(vec![0], lengths);
}

#[test]
fn serialize_writes_count_lengths_and_padding() {
    assert_eq!(vec![0, 0, 0, 0, 1, 0, 0, 0], serialize(&[1]));
    assert_eq!(vec![0, 0, 0, 0, 0, 0, 0, 0], serialize(&[0]));
    assert_eq!(
        vec![1, 0, 0, 0, 1, 0, 0, 0, 1, 0, 0, 0, 0, 0, 0, 0],
        serialize(&[1, 1])
    );
    assert_eq!(
        vec![2, 0, 0, 0, 1, 0, 0, 0, 1, 0, 0, 0, 0, 1, 0, 0],
        serialize(&[1, 1, 256])
    );
    assert_eq!(
        vec![3, 0, 0, 0, 77, 0, 0, 0, 23, 0, 0, 0, 1, 0, 0, 0, 99, 0, 0, 0, 0, 0, 0, 0],
        serialize(&[77, 23, 1, 99])
    );
    // 0x1234 words: the field holds the low byte first.
    assert_eq!(vec![0, 0, 0, 0, 0x34, 0x12, 0, 0], serialize(&[0x1234]));
}

#[test]
fn serialize_replaces_what_the_buffer_held() {
    let segments = vec![words(2)];
    let mut table = vec![9; 100];
    serialize_segment_table(&mut table, &segments);
    assert_eq!(vec![0, 0, 0, 0, 2, 0, 0, 0], table);
}

#[test]
fn table_length_follows_the_formula() {
    assert_eq!(8, segment_table_length(1));
    assert_eq!(16, segment_table_length(2));
    assert_eq!(16, segment_table_length(3));
    assert_eq!(24, segment_table_length(4));
    assert_eq!(2048, segment_table_length(511));
    for count in 1..=600usize {
        let expected = 4 * count + if count % 2 == 0 { 8 } else { 4 };
        assert_eq!(expected, segment_table_length(count));
        assert_eq!(0, segment_table_length(count) % 8);
        assert_eq!((4 * (count + 1) + 7) / 8 * 8, segment_table_length(count));
    }
}

#[test]
fn serialized_table_is_as_long_as_the_formula_says() {
    for count in 1..=40usize {
        let lengths: Vec<usize> = (0..count).collect();
        assert_eq!(segment_table_length(count), serialize(&lengths).len());
    }
}

#[test]
fn parse_undoes_serialize() {
    for count in [1usize, 2, 3, 4, 5, 16, 17, 100, 510, 511] {
        let word_lengths: Vec<usize> = (0..count).map(|index| (index * 7 + 1) % 50).collect();
        let table = serialize(&word_lengths);
        let mut lengths = Vec::new();
        match parse_segment_table(&table, &mut lengths) {
            Parsed::Done(rest) => assert!(rest.is_empty()),
            _ => panic!("a whole table"),
        }
        let expected: Vec<u64> = word_lengths.iter().map(|&len| len as u64 * 8).collect();
        assert_eq!(expected, lengths);
    }
}

#[test]
fn parse_refuses_what_serialize_writes_for_too_many_segments() {
    let word_lengths = vec![1usize; 512];
    let table = serialize(&word_lengths);
    let mut lengths = Vec::new();
    match parse_segment_table(&table, &mut lengths) {
        Parsed::Error(count) => assert_eq!(512, count),
        _ => panic!("a rejected table"),
    }
}
