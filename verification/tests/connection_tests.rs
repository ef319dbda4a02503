use tcp::connection::{Arrival, Connection, Delivery, Typed};
use tcp::packet::Packate;
use tcp::wire::{decode_packet, encode_packet};

fn conn() -> Connection {
    Connection::from_draws(2000, 3000, b"127.0.0.1".to_vec(), b"127.0.0.2".to_vec(), 150, 500, 120)
}

fn from_peer(seq: u32, ack: u32, syn: u8, message: &str) -> Packate {
    Packate {
        source_port: 3000,
        destination_port: 2000,
        source_ip_address: b"127.0.0.2".to_vec(),
        destination_ip_address: b"127.0.0.1".to_vec(),
        window: 130,
        syn_flag: syn,
        fyn_flag: 0,
        sequence_number: seq,
        ack_number: ack,
        message: message.as_bytes().to_vec(),
        packate_size: 26 + 18 + message.len() as u32,
        checksum: 0,
    }
}

#[test]
fn a_new_connection_draws_its_numbers_in_range() {
    for _ in 0..50 {
        let c = Connection::new(1, 2, b"a".to_vec(), b"b".to_vec());
        assert!((100..=200).contains(&c.packate_to_send.window));
        assert!((100..=200).contains(&c.packate_to_receive.window));
        assert!((100..=1000).contains(&c.current_sequence_number));
        assert_eq!(c.packate_to_send.sequence_number, c.current_sequence_number);
        assert_eq!(c.packate_to_send.syn_flag, 1);
        assert_eq!(c.packate_to_receive.syn_flag, 0);
        assert_eq!(c.done_three_way_hand_shake, 0);
    }
}

#[test]
fn from_draws_sets_up_both_packets() {
    let c = conn();
    assert_eq!(c.packate_to_send.source_port, 2000);
    assert_eq!(c.packate_to_send.destination_port, 3000);
    assert_eq!(c.packate_to_send.window, 150);
    assert_eq!(c.packate_to_send.sequence_number, 500);
    assert_eq!(c.packate_to_receive.source_port, 3000);
    assert_eq!(c.packate_to_receive.source_ip_address, b"127.0.0.2".to_vec());
    assert_eq!(c.packate_to_receive.window, 120);
    assert_eq!(c.current_sequence_number, 500);
    assert!(c.memory_of_packate.is_empty());
}

#[test]
fn the_first_line_starts_the_handshake() {
    let mut c = conn();
    match c.on_input(&b"hello\n".to_vec()) {
        Typed::Handshake(bytes) => {
            let p = decode_packet(&bytes).unwrap();
            assert_eq!(p.syn_flag, 1);
            assert_eq!(p.sequence_number, 500);
        }
        _ => panic!("expected a handshake"),
    }
    assert_eq!(c.done_three_way_hand_shake, 1);
    assert!(c.awaiting_answer());
    c.record_reply(from_peer(700, 501, 1, ""));
    assert!(!c.awaiting_answer());
    let ack = decode_packet(&c.finish_transmitting_three_way_handshake()).unwrap();
    assert_eq!(ack.syn_flag, 0);
    assert_eq!(ack.ack_number, 701);
    assert_eq!(ack.sequence_number, 0);
    assert_eq!(c.initial_sequence_number, 700);
}

#[test]
fn an_empty_line_does_nothing() {
    let mut c = conn();
    assert!(matches!(c.on_input(&vec![]), Typed::Idle));
    assert_eq!(c.done_three_way_hand_shake, 0);
}

#[test]
fn a_request_to_synchronise_is_answered() {
    let mut c = conn();
    match c.on_receive(Some(from_peer(800, 0, 1, ""))) {
        Arrival::Handshake(bytes) => {
            let p = decode_packet(&bytes).unwrap();
            assert_eq!(p.syn_flag, 1);
            assert_eq!(p.ack_number, 801);
        }
        _ => panic!("expected a handshake"),
    }
    assert_eq!(c.expected_sequence_number, 800);
    assert_eq!(c.initial_sequence_number, 800);
    assert!(c.awaiting_acknowledgement());
    c.record_reply(from_peer(0, 501, 0, ""));
    assert!(!c.awaiting_acknowledgement());
    c.finish_receiving_three_way_handshake();
    assert_eq!(c.packate_to_send.syn_flag, 0);
    assert_eq!(c.done_three_way_hand_shake, 1);
}

fn connected() -> Connection {
    let mut c = conn();
    c.done_three_way_hand_shake = 1;
    c.packate_to_send.syn_flag = 0;
    c
}

#[test]
fn a_short_line_goes_in_one_packet_and_is_kept() {
    let mut c = connected();
    match c.on_input(&b"ciao\n".to_vec()) {
        Typed::Transmit(packets) => {
            assert_eq!(packets.len(), 1);
            let p = decode_packet(&packets[0]).unwrap();
            assert_eq!(p.message, b"ciao\n".to_vec());
            assert_eq!(p.sequence_number, 500);
            assert_eq!(p.packate_size, 26 + 9 + 9 + 5);
            assert_eq!(p.ack_number, 0);
            assert_eq!(p.syn_flag, 0);
        }
        _ => panic!("expected a transmission"),
    }
    assert_eq!(c.current_sequence_number, 500 + 49);
    assert_eq!(c.memory_of_packate.len(), 1);
}

#[test]
fn a_long_line_goes_in_segments() {
    let mut c = connected();
    let line = b"0123456789abcdefghij!\n".to_vec();
    match c.on_input(&line) {
        Typed::Transmit(packets) => {
            let ps: Vec<Packate> = packets.iter().map(|b| decode_packet(b).unwrap()).collect();
            assert_eq!(ps.len(), 3);
            assert_eq!(ps[0].message, b"0123456789".to_vec());
            assert_eq!(ps[2].message, b"!\n".to_vec());
            assert_eq!(ps[1].sequence_number, 500 + 54);
            assert_eq!(c.memory_of_packate, ps);
        }
        _ => panic!("expected a transmission"),
    }
    assert_eq!(c.current_sequence_number, 500 + 54 + 54 + 46);
    assert_eq!(c.packate_to_send.message, line);
}

#[test]
fn an_acknowledgement_of_everything_forgets_what_was_sent() {
    let mut c = connected();
    let _ = c.on_input(&b"ciao\n".to_vec());
    assert!(c.retransmission().is_some());
    assert!(matches!(c.on_receive(Some(from_peer(0, 549, 0, ""))), Arrival::Acknowledged));
    assert!(c.memory_of_packate.is_empty());
    assert!(c.retransmission().is_none());
}

#[test]
fn retransmission_resends_what_waits() {
    let mut c = connected();
    let _ = c.on_input(&b"ciao\n".to_vec());
    let again = c.retransmission().unwrap();
    assert_eq!(again, vec![encode_packet(&c.memory_of_packate[0])]);
}

#[test]
fn data_is_stored_then_delivered_with_an_acknowledgement() {
    let mut c = connected();
    c.expected_sequence_number = 40;
    let second = from_peer(90, 0, 0, "world");
    let first = from_peer(40, 0, 0, "hello ");
    assert!(matches!(c.on_receive(Some(second)), Arrival::Stored));
    assert!(matches!(c.on_receive(Some(first)), Arrival::Stored));
    assert_eq!(c.expected_sequence_number, 40 + 49 + 50);
    match c.deliver() {
        Delivery::Delivered(text, ack) => {
            assert_eq!(text, b"hello world".to_vec());
            let a = decode_packet(&ack).unwrap();
            assert_eq!(a.ack_number, 139);
            assert!(a.message.is_empty());
        }
        _ => panic!("expected a delivery"),
    }
    assert!(c.received_packates.is_empty());
    assert_eq!(c.packate_to_send.ack_number, 0);
    assert!(matches!(c.deliver(), Delivery::Nothing));
}

#[test]
fn a_gap_drops_the_batch() {
    let mut c = connected();
    let _ = c.on_receive(Some(from_peer(40, 0, 0, "a")));
    let _ = c.on_receive(Some(from_peer(400, 0, 0, "b")));
    assert!(matches!(c.deliver(), Delivery::Gap));
    assert!(c.received_packates.is_empty());
}

#[test]
fn a_failed_receive_acts_on_the_last_packet_again() {
    let mut c = connected();
    let _ = c.on_receive(Some(from_peer(40, 0, 0, "a")));
    assert!(matches!(c.on_receive(None), Arrival::Stored));
    assert_eq!(c.received_packates.len(), 2);
    assert_eq!(c.expected_sequence_number, 45);
}

#[test]
fn two_ends_complete_the_three_way_handshake() {
    let mut a = Connection::from_draws(2000, 3000, b"127.0.0.1".to_vec(), b"127.0.0.2".to_vec(), 150, 500, 120);
    let mut b = Connection::from_draws(3000, 2000, b"127.0.0.2".to_vec(), b"127.0.0.1".to_vec(), 160, 900, 110);
    let request = match a.on_input(&b"hi\n".to_vec()) {
        Typed::Handshake(bytes) => bytes,
        _ => panic!("expected a request"),
    };
    let answer = match b.on_receive(Some(decode_packet(&request).unwrap())) {
        Arrival::Handshake(bytes) => bytes,
        _ => panic!("expected an answer"),
    };
    assert!(a.awaiting_answer());
    a.record_reply(decode_packet(&answer).unwrap());
    assert!(!a.awaiting_answer());
    let ack = a.finish_transmitting_three_way_handshake();
    assert!(b.awaiting_acknowledgement());
    b.record_reply(decode_packet(&ack).unwrap());
    assert!(!b.awaiting_acknowledgement());
    b.finish_receiving_three_way_handshake();
    assert_eq!(a.done_three_way_hand_shake, 1);
    assert_eq!(b.done_three_way_hand_shake, 1);
    assert_eq!(a.packate_to_send.syn_flag, 0);
    assert_eq!(b.packate_to_send.syn_flag, 0);
    assert_eq!(a.initial_sequence_number, 900);
    assert_eq!(b.initial_sequence_number, 500);
    assert_eq!(b.expected_sequence_number, 500);
}

#[test]
fn acknowledging_the_largest_sequence_number_wraps_to_zero() {
    let mut c = conn();
    match c.on_receive(Some(from_peer(u32::MAX, 0, 1, ""))) {
        Arrival::Handshake(bytes) => assert_eq!(decode_packet(&bytes).unwrap().ack_number, 0),
        _ => panic!("expected a handshake"),
    }
}
