use indexed_bucket::bytes::{concat_bytes, prefix_successor, tail_from, to_length_prefixed};
use indexed_bucket::record::{decode_record, encode_record, index_key, Record};

#[test]
fn length_prefix_is_two_big_endian_bytes() {
    assert_eq!(to_length_prefixed(b"ab"), vec![0u8, 2, 97, 98]);
    assert_eq!(to_length_prefixed(b""), vec![0u8, 0]);
    let long = vec![7u8; 300];
    let framed = to_length_prefixed(&long);
    assert_eq!(framed[0], 1);
    assert_eq!(framed[1], 44);
    assert_eq!(framed.len(), 302);
}

#[test]
fn concat_and_tail_are_plain_byte_operations() {
    assert_eq!(concat_bytes(b"ab", b"cd"), b"abcd".to_vec());
    assert_eq!(tail_from(b"abcd", 2), b"cd".to_vec());
}

#[test]
fn successor_steps_the_last_growable_byte() {
    assert_eq!(prefix_successor(&[1, 2, 3]), Some(vec![1u8, 2, 4]));
    assert_eq!(prefix_successor(&[1, 255, 255]), Some(vec![2u8]));
    assert_eq!(prefix_successor(&[255, 255]), None);
    assert_eq!(prefix_successor(&[]), None);
}

#[test]
fn encoding_is_two_framed_segments() {
    let r = Record { category: b"ab".to_vec(), name: b"c".to_vec() };
    assert_eq!(encode_record(&r), vec![0u8, 2, 97, 98, 0, 1, 99]);
}

#[test]
fn codec_round_trips() {
    let r = Record { category: b"fruit".to_vec(), name: b"apple".to_vec() };
    let encoded = encode_record(&r);
    assert_eq!(decode_record(&encoded), Some(r));
}

#[test]
fn malformed_bytes_are_rejected() {
    // too short for a header
    assert_eq!(decode_record(&[0]), None);
    // header promises more bytes than there are
    assert_eq!(decode_record(&[0, 5, 1, 2]), None);
    // trailing garbage after the two segments
    assert_eq!(decode_record(&[0, 1, 97, 0, 1, 98, 9]), None);
    // a valid encoding parses
    assert!(decode_record(&[0, 1, 97, 0, 1, 98]).is_some());
}

#[test]
fn index_key_is_the_category() {
    let r = Record { category: b"veg".to_vec(), name: b"leek".to_vec() };
    assert_eq!(index_key(&r), b"veg".to_vec());
}
