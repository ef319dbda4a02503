use tcp::checksum::checksum_of_bytes;
use tcp::packet::{size_of_packet, Packate};
use tcp::wire::{calculate_checksum, encode_packet};

#[test]
fn checksum_of_even_length_data() {
    assert_eq!(checksum_of_bytes(&[0x45, 0x00, 0x00, 0x1c]), 0xbae3);
}

#[test]
fn checksum_adds_a_last_odd_byte_as_it_is() {
    assert_eq!(checksum_of_bytes(&[0x01, 0x02, 0x03]), 0xfefa);
}

#[test]
fn checksum_folds_carries_back_in() {
    assert_eq!(checksum_of_bytes(&[0xff, 0xff, 0x00, 0x02]), 0xfffd);
}

#[test]
fn checksum_of_nothing_is_all_ones() {
    assert_eq!(checksum_of_bytes(&[]), 0xffff);
}

#[test]
fn checksum_of_many_words_folds_repeatedly() {
    let data = vec![0xffu8; 1000];
    // 500 words of 0xffff fold to 0xffff; its complement is 0.
    assert_eq!(checksum_of_bytes(&data), 0x0000);
}

fn sample() -> Packate {
    Packate {
        source_port: 1,
        destination_port: 2,
        source_ip_address: b"a".to_vec(),
        destination_ip_address: b"b".to_vec(),
        window: 3,
        syn_flag: 1,
        fyn_flag: 0,
        sequence_number: 5,
        ack_number: 6,
        message: b"hi".to_vec(),
        packate_size: 7,
        checksum: 8,
    }
}

#[test]
fn calculate_checksum_covers_the_wire_form() {
    let mut p = sample();
    let expected = checksum_of_bytes(&encode_packet(&p));
    calculate_checksum(&mut p);
    assert_eq!(p.checksum, expected);
    let mut q = sample();
    q.checksum = expected;
    assert_eq!(p, q);
}

#[test]
fn packet_size_adds_the_three_lengths() {
    assert_eq!(size_of_packet(&b"127.0.0.1".to_vec(), &b"10.0.0.2".to_vec(), &b"hello".to_vec()), 26 + 9 + 8 + 5);
    assert_eq!(size_of_packet(&vec![], &vec![], &vec![]), 26);
}
