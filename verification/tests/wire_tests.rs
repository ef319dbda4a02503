use tcp::packet::Packate;
use tcp::wire::{decode_packet, encode_buffer, encode_packet, DecodeError};

fn sample() -> Packate {
    Packate {
        source_port: 1,
        destination_port: 2,
        source_ip_address: b"a".to_vec(),
        destination_ip_address: b"b".to_vec(),
        window: 3,
        syn_flag: 1,
        fyn_flag: 0,
        sequence_number: 5,
        ack_number: 6,
        message: b"hi".to_vec(),
        packate_size: 7,
        checksum: 8,
    }
}

fn sample_bytes() -> Vec<u8> {
    let mut b = vec![1, 0, 2, 0];
    b.extend_from_slice(&[1, 0, 0, 0, 0, 0, 0, 0, b'a']);
    b.extend_from_slice(&[1, 0, 0, 0, 0, 0, 0, 0, b'b']);
    b.extend_from_slice(&[3, 0, 1, 0]);
    b.extend_from_slice(&[5, 0, 0, 0, 6, 0, 0, 0]);
    b.extend_from_slice(&[2, 0, 0, 0, 0, 0, 0, 0, b'h', b'i']);
    b.extend_from_slice(&[7, 0, 0, 0, 8, 0]);
    b
}

#[test]
fn encoding_lays_fields_out_in_order() {
    assert_eq!(encode_packet(&sample()), sample_bytes());
}

#[test]
fn decoding_reads_the_encoding_back() {
    assert_eq!(decode_packet(&sample_bytes()), Ok(sample()));
}

#[test]
fn decoding_ignores_trailing_bytes() {
    let mut b = sample_bytes();
    b.extend_from_slice(&[9, 9, 9]);
    assert_eq!(decode_packet(&b), Ok(sample()));
}

#[test]
fn decoding_a_truncated_packet_fails() {
    let b = sample_bytes();
    assert_eq!(decode_packet(&b[..b.len() - 1]), Err(DecodeError::Malformed));
    assert_eq!(decode_packet(&[]), Err(DecodeError::Malformed));
}

#[test]
fn decoding_rejects_text_that_is_not_utf8() {
    let mut b = sample_bytes();
    // the byte of the source address
    b[12] = 0xff;
    assert_eq!(decode_packet(&b), Err(DecodeError::Malformed));
}

#[test]
fn round_trip_of_a_packet_with_longer_texts() {
    let mut p = sample();
    p.source_ip_address = "192.168.1.20".as_bytes().to_vec();
    p.message = "ciao à tutti".as_bytes().to_vec();
    p.sequence_number = u32::MAX;
    assert_eq!(decode_packet(&encode_packet(&p)), Ok(p));
}

#[test]
fn encode_buffer_encodes_each_packet_in_order() {
    let a = sample();
    let mut b = sample();
    b.sequence_number = 99;
    let out = encode_buffer(&vec![a.clone(), b.clone()]);
    assert_eq!(out, vec![encode_packet(&a), encode_packet(&b)]);
    assert_eq!(encode_buffer(&vec![]), Vec::<Vec<u8>>::new());
}
