use tcp::packet::Packate;
use tcp::reassembly::{print_messages, sort_by_sequence_number};
use tcp::segment::{cuts_fall_between_characters, split_string};

fn outgoing(message: &str) -> Packate {
    Packate {
        source_port: 4000,
        destination_port: 5000,
        source_ip_address: b"1.1.1.1".to_vec(),
        destination_ip_address: b"2.2.2.2".to_vec(),
        window: 150,
        syn_flag: 0,
        fyn_flag: 0,
        sequence_number: 7,
        ack_number: 0,
        message: message.as_bytes().to_vec(),
        packate_size: 0,
        checksum: 0,
    }
}

#[test]
fn split_string_cuts_ten_byte_segments() {
    let p = outgoing("abcdefghijklmnopqrstuvwxy");
    let mut memory = vec![outgoing("old")];
    let mut sn: u32 = 100;
    let segs = split_string(&p, &mut memory, &mut sn);
    let messages: Vec<&[u8]> = segs.iter().map(|s| s.message.as_slice()).collect();
    assert_eq!(messages, vec![&b"abcdefghij"[..], &b"klmnopqrst"[..], &b"uvwxy"[..]]);
    let seqs: Vec<u32> = segs.iter().map(|s| s.sequence_number).collect();
    assert_eq!(seqs, vec![100, 150, 200]);
    let sizes: Vec<u32> = segs.iter().map(|s| s.packate_size).collect();
    assert_eq!(sizes, vec![50, 50, 45]);
    assert_eq!(sn, 245);
    assert_eq!(memory.len(), 4);
    assert_eq!(memory[1..].to_vec(), segs);
    for s in &segs {
        assert_eq!(s.source_port, 4000);
        assert_eq!(s.window, 150);
    }
}

#[test]
fn split_string_of_an_empty_message_sends_nothing() {
    let p = outgoing("");
    let mut memory = vec![];
    let mut sn: u32 = 3;
    assert!(split_string(&p, &mut memory, &mut sn).is_empty());
    assert_eq!(sn, 3);
    assert!(memory.is_empty());
}

#[test]
fn split_string_wraps_sequence_numbers() {
    let p = outgoing("abcdefghijkl");
    let mut memory = vec![];
    let mut sn: u32 = u32::MAX - 9;
    let segs = split_string(&p, &mut memory, &mut sn);
    assert_eq!(segs[0].sequence_number, u32::MAX - 9);
    assert_eq!(segs[1].sequence_number, 40);
    assert_eq!(sn, 40 + 42);
}

#[test]
fn cuts_must_fall_between_characters() {
    assert!(cuts_fall_between_characters(&"abcdefghijklmnopqrstu".as_bytes().to_vec()));
    // 'à' takes two bytes, at 9 and 10: the cut at 10 splits it
    assert!(!cuts_fall_between_characters(&"abcdefghià".as_bytes().to_vec()));
    assert!(cuts_fall_between_characters(&"abcdefghij€".as_bytes().to_vec()));
    assert!(cuts_fall_between_characters(&"short".as_bytes().to_vec()));
}

#[test]
fn segments_in_any_order_read_back_as_the_message() {
    let text = "the quick brown fox jumps over the lazy dog";
    let p = outgoing(text);
    let mut memory = vec![];
    let mut sn: u32 = 1000;
    let segs = split_string(&p, &mut memory, &mut sn);
    let mut shuffled = vec![segs[3].clone(), segs[0].clone(), segs[4].clone(), segs[2].clone(), segs[1].clone()];
    let (code, shown) = print_messages(&mut shuffled);
    assert_eq!(code, 0);
    assert_eq!(shown, text.as_bytes().to_vec());
    assert!(shuffled.is_empty());
}

#[test]
fn a_missing_segment_drops_the_batch() {
    let p = outgoing("abcdefghijklmnopqrstuvwxyz");
    let mut memory = vec![];
    let mut sn: u32 = 10;
    let segs = split_string(&p, &mut memory, &mut sn);
    let mut batch = vec![segs[2].clone(), segs[0].clone()];
    assert_eq!(print_messages(&mut batch), (255, vec![]));
    assert!(batch.is_empty());
}

#[test]
fn a_single_packet_reads_as_its_message() {
    let mut batch = vec![outgoing("ciao\n")];
    assert_eq!(print_messages(&mut batch), (0, b"ciao\n".to_vec()));
}

#[test]
fn sorting_keeps_ties_in_arrival_order() {
    let mut a = outgoing("a");
    a.sequence_number = 5;
    let mut b = outgoing("b");
    b.sequence_number = 1;
    let mut c = outgoing("c");
    c.sequence_number = 5;
    let mut d = outgoing("d");
    d.sequence_number = 3;
    let mut v = vec![a.clone(), b.clone(), c.clone(), d.clone()];
    sort_by_sequence_number(&mut v);
    assert_eq!(v, vec![b, d, a, c]);
}

#[test]
fn arrival_order_does_not_change_what_a_batch_reads_as() {
    let p = outgoing("arrival order does not matter here");
    let mut memory = vec![];
    let mut sn: u32 = 7;
    let segs = split_string(&p, &mut memory, &mut sn);
    let mut forward = segs.clone();
    let mut backward: Vec<_> = segs.iter().rev().cloned().collect();
    assert_eq!(print_messages(&mut forward), print_messages(&mut backward));
}
