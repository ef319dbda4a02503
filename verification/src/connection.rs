//! The decisions of one end of a connection: what it does with a packet that
//! arrives, with a line the user typed, when the receive timer runs out and
//! when the acknowledgement timer runs out. The caller does the waiting,
//! sending and printing, and hands each outcome back.
//!
//! Sequence and acknowledgement numbers wrap around at 2^32: adding a size or
//! one to `u32::MAX` gives a small number, never a panic.
use crate::packet::{
    add32, size_of_packet, texts_are_utf8, views, Packate, PacketView, MAX_SEGMENT_PAYLOAD,
};
use crate::reassembly::{print_messages, reading, stable_order};
use crate::reassembly::lemma_concat_messages_single;
use crate::segment::{
    concat_messages, cuts_on_char_boundaries, lemma_segments_are_utf8, lemma_segments_carry_message, segment_count, segment_seq, segments_of,
    split_string,
};
use vstd::utf8::valid_utf8;
use crate::wire::{byte_views, encode_buffer, encode_packet, encoding, wire_forms};
use rand::Rng;
use vstd::prelude::*;

verus! {

/// The least window a new connection advertises.
pub const WINDOW_LOW: u32 = 100;

/// The greatest window a new connection advertises.
pub const WINDOW_HIGH: u32 = 200;

/// The least first sequence number of a new connection.
pub const FIRST_SEQUENCE_LOW: u32 = 100;

/// The greatest first sequence number of a new connection.
pub const FIRST_SEQUENCE_HIGH: u32 = 1000;

/// `rand::thread_rng().gen_range(low..=high)`: a number drawn from the thread's
/// generator between `low` and `high`, both included. It panics on an empty
/// range, which `requires` leaves out; it also panics when the operating
/// system's random source cannot seed the generator, which no argument can
/// rule out. Which number comes out is left open.
#[verifier::external_body]
fn draw_between(low: u32, high: u32) -> (r: u32)
    requires
        low <= high,
    ensures
        low <= r <= high,
{
    rand::thread_rng().gen_range(low..=high)
}

/// The state of one end.
pub struct Connection {
    /// The packet this end sends next; its fields persist between sends.
    pub packate_to_send: Packate,
    /// The last packet that arrived.
    pub packate_to_receive: Packate,
    /// Packets sent and not yet acknowledged.
    pub memory_of_packate: Vec<Packate>,
    /// Data packets that arrived and were not read yet.
    pub received_packates: Vec<Packate>,
    /// 1 once the handshake was done or started, else 0.
    pub done_three_way_hand_shake: u8,
    pub initial_sequence_number: u32,
    /// The sequence number that the next acknowledgement of this end carries.
    pub expected_sequence_number: u32,
    /// The sequence number of the next data packet this end sends.
    pub current_sequence_number: u32,
}

/// A connection as a mathematical value.
pub struct ConnectionView {
    pub packate_to_send: PacketView,
    pub packate_to_receive: PacketView,
    pub memory_of_packate: Seq<PacketView>,
    pub received_packates: Seq<PacketView>,
    pub done_three_way_hand_shake: u8,
    pub initial_sequence_number: u32,
    pub expected_sequence_number: u32,
    pub current_sequence_number: u32,
}

impl View for Connection {
    type V = ConnectionView;

    open spec fn view(&self) -> ConnectionView {
        ConnectionView {
            packate_to_send: self.packate_to_send@,
            packate_to_receive: self.packate_to_receive@,
            memory_of_packate: views(self.memory_of_packate@),
            received_packates: views(self.received_packates@),
            done_three_way_hand_shake: self.done_three_way_hand_shake,
            initial_sequence_number: self.initial_sequence_number,
            expected_sequence_number: self.expected_sequence_number,
            current_sequence_number: self.current_sequence_number,
        }
    }
}

/// What to do with a packet that arrived.
pub enum Arrival {
    /// The peer asks to synchronise: send these bytes, the answer, and wait for
    /// its acknowledgement.
    Handshake(Vec<u8>),
    /// The peer acknowledged everything sent so far: restart the
    /// acknowledgement timer.
    Acknowledged,
    /// A data packet, kept to be read later.
    Stored,
}

/// What to do with a line the user typed.
pub enum Typed {
    /// Nothing was typed.
    Idle,
    /// No handshake was done yet: send these bytes, the request, until the
    /// peer answers; keep the line for later.
    Handshake(Vec<u8>),
    /// Send these packets' bytes in order, restart the acknowledgement timer
    /// and forget the line.
    Transmit(Vec<Vec<u8>>),
}

/// What reading the stored packets gave.
pub enum Delivery {
    /// No packet was stored.
    Nothing,
    /// A packet is missing: the batch was dropped.
    Gap,
    /// The message, and the bytes of the acknowledgement to send for it.
    Delivered(Vec<u8>, Vec<u8>),
}

/// A packet with its addresses and ports, advertising `window`.
pub open spec fn fresh_packet(
    source_port: u16,
    destination_port: u16,
    source: Seq<u8>,
    destination: Seq<u8>,
    window: u16,
    syn_flag: u8,
    sequence_number: u32,
) -> PacketView {
    PacketView {
        source_port,
        destination_port,
        source_ip_address: source,
        destination_ip_address: destination,
        window,
        syn_flag,
        fyn_flag: 0,
        sequence_number,
        ack_number: 0,
        message: Seq::empty(),
        packate_size: 0,
        checksum: 0,
    }
}

/// The packet that the handshake's answer carries: the outgoing packet asking
/// to synchronise and acknowledging the peer's sequence number plus one.
pub open spec fn handshake_answer(c: ConnectionView) -> PacketView {
    PacketView {
        syn_flag: 1,
        ack_number: add32(c.packate_to_receive.sequence_number as int, 1),
        ..c.packate_to_send
    }
}

/// The data packet that carries a short `message` from `c`.
pub open spec fn data_packet(c: ConnectionView, message: Seq<u8>) -> PacketView {
    PacketView {
        message,
        syn_flag: 0,
        packate_size: crate::packet::declared_size(
            c.packate_to_send.source_ip_address,
            c.packate_to_send.destination_ip_address,
            message,
        ),
        ack_number: 0,
        sequence_number: c.current_sequence_number,
        ..c.packate_to_send
    }
}

/// The acknowledgement that `c` sends once it read a batch: no message, the
/// expected sequence number acknowledged.
pub open spec fn acknowledgement(c: ConnectionView) -> PacketView {
    PacketView {
        message: Seq::empty(),
        ack_number: c.expected_sequence_number,
        ..c.packate_to_send
    }
}

/// The view of what arrived: a packet, or nothing when the receive failed.
pub open spec fn arrived_view(arrived: Option<Packate>) -> Option<PacketView> {
    match arrived {
        Some(p) => Some(p@),
        None => None,
    }
}

/// The connection once `arrived` is taken in, before it is acted on: a packet
/// replaces the last one and its size is added to the expected sequence
/// number; a failed receive changes nothing.
pub open spec fn taken_in(c: ConnectionView, arrived: Option<PacketView>) -> ConnectionView {
    match arrived {
        Some(p) => ConnectionView {
            packate_to_receive: p,
            expected_sequence_number: add32(c.expected_sequence_number as int, p.packate_size as int),
            ..c
        },
        None => c,
    }
}

/// The connection after acting on the last packet that arrived: a request to
/// synchronise is answered and numbers the next expected data by its sequence
/// number; an acknowledgement of everything sent forgets the sent packets;
/// anything else is stored to be read.
pub open spec fn after_arrival(c: ConnectionView) -> ConnectionView {
    let incoming = c.packate_to_receive;
    if incoming.syn_flag == 1 {
        ConnectionView {
            packate_to_send: handshake_answer(c),
            expected_sequence_number: incoming.sequence_number,
            initial_sequence_number: incoming.sequence_number,
            ..c
        }
    } else if incoming.ack_number == c.current_sequence_number {
        ConnectionView { memory_of_packate: Seq::empty(), ..c }
    } else {
        ConnectionView { received_packates: c.received_packates.push(incoming), ..c }
    }
}

/// The outgoing packet with the typed `line` as its message, no longer asking
/// to synchronise.
pub open spec fn with_line(c: ConnectionView, line: Seq<u8>) -> PacketView {
    PacketView { message: line, syn_flag: 0, ..c.packate_to_send }
}

/// The connection after a line that is to be sent: a short line goes in one
/// data packet, a long one in segments; either way what goes out is kept
/// until acknowledged and the next sequence number moves past it.
pub open spec fn after_line(c: ConnectionView, line: Seq<u8>) -> ConnectionView {
    if line.len() <= MAX_SEGMENT_PAYLOAD {
        let pkt = data_packet(c, line);
        ConnectionView {
            packate_to_send: pkt,
            memory_of_packate: c.memory_of_packate.push(pkt),
            current_sequence_number: add32(c.current_sequence_number as int, pkt.packate_size as int),
            ..c
        }
    } else {
        let base = with_line(c, line);
        ConnectionView {
            packate_to_send: base,
            memory_of_packate: c.memory_of_packate + segments_of(base, c.current_sequence_number),
            current_sequence_number: segment_seq(
                base,
                c.current_sequence_number,
                segment_count(line.len()),
            ),
            ..c
        }
    }
}

/// The packets that a line that is to be sent goes out in.
pub open spec fn packets_for_line(c: ConnectionView, line: Seq<u8>) -> Seq<PacketView> {
    if line.len() <= MAX_SEGMENT_PAYLOAD {
        seq![data_packet(c, line)]
    } else {
        segments_of(with_line(c, line), c.current_sequence_number)
    }
}

/// An acknowledgement of everything sent leaves nothing to send again: after
/// such a packet arrives, `retransmission` has nothing.
pub proof fn lemma_acknowledged_leaves_nothing_to_resend(
    c: ConnectionView,
    arrived: Option<PacketView>,
)
    requires
        taken_in(c, arrived).packate_to_receive.syn_flag != 1,
        taken_in(c, arrived).packate_to_receive.ack_number == c.current_sequence_number,
    ensures
        after_arrival(taken_in(c, arrived)).memory_of_packate.len() == 0,
{
}

/// What a line is sent in is kept until acknowledged, after what was kept
/// before, and the next sequence number moves past all of it: the first packet
/// is numbered with the old next sequence number.
pub proof fn lemma_sent_packets_are_kept(c: ConnectionView, line: Seq<u8>)
    requires
        line.len() > 0,
    ensures
        after_line(c, line).memory_of_packate == c.memory_of_packate + packets_for_line(c, line),
        packets_for_line(c, line)[0].sequence_number == c.current_sequence_number,
        packets_for_line(c, line).len() >= 1,
{
    if line.len() <= MAX_SEGMENT_PAYLOAD {
        assert(c.memory_of_packate.push(data_packet(c, line)) =~= c.memory_of_packate + seq![
            data_packet(c, line),
        ]);
    } else {
        assert(segment_count(line.len()) >= 1);
    }
}

/// What a typed line is sent in carries exactly the line: the packets'
/// messages one after the other are the line; none asks to synchronise or
/// acknowledges anything beyond the outgoing packet's own acknowledgement
/// (0 for a short line); each goes to the peer; and each is followed by the
/// one whose sequence number its own plus its size gives.
pub proof fn lemma_line_is_carried_whole(c: ConnectionView, line: Seq<u8>)
    requires
        line.len() > 0,
    ensures
        concat_messages(packets_for_line(c, line)) == line,
        forall|i: int|
            0 <= i < packets_for_line(c, line).len() ==> (#[trigger] packets_for_line(c, line)[i]).syn_flag
                == 0 && packets_for_line(c, line)[i].destination_ip_address
                == c.packate_to_send.destination_ip_address && packets_for_line(c, line)[i].source_ip_address
                == c.packate_to_send.source_ip_address,
        line.len() <= MAX_SEGMENT_PAYLOAD ==> packets_for_line(c, line)[0].ack_number == 0,
        forall|i: int|
            0 <= i < packets_for_line(c, line).len() - 1 ==> add32(
                #[trigger] packets_for_line(c, line)[i].sequence_number as int,
                packets_for_line(c, line)[i].packate_size as int,
            ) == packets_for_line(c, line)[i + 1].sequence_number,
{
    if line.len() <= MAX_SEGMENT_PAYLOAD {
        lemma_concat_messages_single(data_packet(c, line));
    } else {
        lemma_segments_carry_message(with_line(c, line), c.current_sequence_number);
    }
}

/// The expected sequence number advances by the declared size of each packet
/// that arrives, wrapping at 2^32, except that a request to synchronise sets it
/// to the request's own number; a failed receive leaves it as it was unless
/// the last packet asked to synchronise.
pub proof fn lemma_arrival_expected_number(c: ConnectionView, arrived: Option<PacketView>)
    ensures
        ({
            let incoming = taken_in(c, arrived).packate_to_receive;
            let next = after_arrival(taken_in(c, arrived));
            &&& incoming.syn_flag == 1 ==> next.expected_sequence_number == incoming.sequence_number
            &&& incoming.syn_flag != 1 ==> next.expected_sequence_number as int == match arrived {
                Some(p) => (c.expected_sequence_number + p.packate_size) % 0x1_0000_0000,
                None => c.expected_sequence_number as int,
            }
        }),
{
}

/// Whether every packet of `s` has UTF-8 texts.
pub open spec fn all_texts_utf8(s: Seq<PacketView>) -> bool {
    forall|i: int| 0 <= i < s.len() ==> texts_are_utf8(#[trigger] s[i])
}

/// The connection's invariant: every packet it holds has UTF-8 texts, as the
/// texts typed, given on the command line or read from the wire are. Every
/// method keeps it, given UTF-8 input.
pub open spec fn well_formed(c: ConnectionView) -> bool {
    &&& texts_are_utf8(c.packate_to_send)
    &&& texts_are_utf8(c.packate_to_receive)
    &&& all_texts_utf8(c.memory_of_packate)
    &&& all_texts_utf8(c.received_packates)
}

/// The connection once it started a handshake: the outgoing packet asks to
/// synchronise and the handshake counts as started.
pub open spec fn started_handshake(c: ConnectionView) -> ConnectionView {
    ConnectionView {
        packate_to_send: PacketView { syn_flag: 1, ..c.packate_to_send },
        done_three_way_hand_shake: 1,
        ..c
    }
}

/// The connection with `reply` as the last packet that arrived.
pub open spec fn with_reply(c: ConnectionView, reply: PacketView) -> ConnectionView {
    ConnectionView { packate_to_receive: reply, ..c }
}

/// The connection once the handshake that answered the peer ended.
pub open spec fn finished_receiving(c: ConnectionView) -> ConnectionView {
    ConnectionView {
        packate_to_send: PacketView { syn_flag: 0, ..c.packate_to_send },
        done_three_way_hand_shake: 1,
        ..c
    }
}

/// The connection once the handshake it started ended: it remembers the
/// peer's sequence number and acknowledges it plus one (wrapping at 2^32),
/// with sequence number 0 and no request to synchronise.
pub open spec fn finished_transmitting(c: ConnectionView) -> ConnectionView {
    ConnectionView {
        initial_sequence_number: c.packate_to_receive.sequence_number,
        packate_to_send: PacketView {
            syn_flag: 0,
            ack_number: add32(c.packate_to_receive.sequence_number as int, 1),
            sequence_number: 0,
            ..c.packate_to_send
        },
        ..c
    }
}

/// Whether the answer of `c` to a request still waits for its acknowledgement.
pub open spec fn waits_for_acknowledgement(c: ConnectionView) -> bool {
    c.packate_to_receive.ack_number != add32(c.packate_to_send.sequence_number as int, 1)
}

/// Whether the request of `c` still waits for the peer's answer.
pub open spec fn waits_for_answer(c: ConnectionView) -> bool {
    c.packate_to_receive.syn_flag == 0
}

/// The three-way handshake, played between an end `a` that starts it and an
/// end `b` that answers, each packet arriving as it was sent: `a`'s request
/// makes `b` answer with its own request acknowledging `a`'s sequence number
/// plus one; that answer ends `a`'s wait, and `a`'s acknowledgement of `b`'s
/// sequence number plus one ends `b`'s wait. Both ends then count the
/// handshake as done, neither asks to synchronise any more, and each
/// remembers the other's sequence number. Sequence numbers wrap at 2^32.
pub proof fn lemma_three_way_handshake(a: ConnectionView, b: ConnectionView)
    requires
        a.done_three_way_hand_shake == 0,
    ensures
        ({
            let a1 = started_handshake(a);
            let request = a1.packate_to_send;
            let b1 = after_arrival(taken_in(b, Some(request)));
            let answer = b1.packate_to_send;
            let a2 = with_reply(a1, answer);
            let a3 = finished_transmitting(a2);
            let ack = a3.packate_to_send;
            let b2 = with_reply(b1, ack);
            let b3 = finished_receiving(b2);
            &&& answer.syn_flag == 1
            &&& answer.ack_number == add32(a.packate_to_send.sequence_number as int, 1)
            &&& !waits_for_answer(a2)
            &&& ack.ack_number == add32(b.packate_to_send.sequence_number as int, 1)
            &&& !waits_for_acknowledgement(b2)
            &&& a3.done_three_way_hand_shake == 1 && b3.done_three_way_hand_shake == 1
            &&& a3.packate_to_send.syn_flag == 0 && b3.packate_to_send.syn_flag == 0
            &&& a3.initial_sequence_number == b.packate_to_send.sequence_number
            &&& b3.initial_sequence_number == a.packate_to_send.sequence_number
            &&& b3.expected_sequence_number == a.packate_to_send.sequence_number
        }),
{
}

/// Sending a UTF-8 line keeps the connection's invariant.
proof fn lemma_line_keeps_well_formed(c: ConnectionView, line: Seq<u8>)
    requires
        well_formed(c),
        valid_utf8(line),
        line.len() > MAX_SEGMENT_PAYLOAD ==> cuts_on_char_boundaries(line),
    ensures
        well_formed(after_line(c, line)),
{
    let next = after_line(c, line);
    if line.len() <= MAX_SEGMENT_PAYLOAD {
        let pkt = data_packet(c, line);
        assert forall|i: int| 0 <= i < next.memory_of_packate.len() implies texts_are_utf8(
            #[trigger] next.memory_of_packate[i],
        ) by {
            if i < c.memory_of_packate.len() {
                assert(next.memory_of_packate[i] == c.memory_of_packate[i]);
            }
        }
    } else {
        let base = with_line(c, line);
        let segs = segments_of(base, c.current_sequence_number);
        lemma_segments_are_utf8(base, c.current_sequence_number);
        assert forall|i: int| 0 <= i < next.memory_of_packate.len() implies texts_are_utf8(
            #[trigger] next.memory_of_packate[i],
        ) by {
            if i < c.memory_of_packate.len() {
                assert(next.memory_of_packate[i] == c.memory_of_packate[i]);
            } else {
                assert(next.memory_of_packate[i] == segs[i - c.memory_of_packate.len()]);
            }
        }
    }
}

/// No arrival loses data that was stored to be read: the stored packets
/// before it begin the stored packets after it, at most one is added, and an
/// added one is the data packet that arrived. Sent packets are kept unless the
/// packet that arrived acknowledges everything sent, in which case all are
/// forgotten.
pub proof fn lemma_arrival_keeps_received_data(c: ConnectionView, arrived: Option<PacketView>)
    ensures
        ({
            let incoming = taken_in(c, arrived).packate_to_receive;
            let next = after_arrival(taken_in(c, arrived));
            &&& c.received_packates.is_prefix_of(next.received_packates)
            &&& next.received_packates.len() <= c.received_packates.len() + 1
            &&& next.received_packates.len() == c.received_packates.len() + 1 ==> (
            next.received_packates.last() == incoming && incoming.syn_flag != 1
                && incoming.ack_number != c.current_sequence_number)
            &&& (incoming.syn_flag != 1 && incoming.ack_number != c.current_sequence_number)
                ==> next.received_packates.len() == c.received_packates.len() + 1
            &&& next.memory_of_packate == c.memory_of_packate || (next.memory_of_packate.len() == 0
                && incoming.syn_flag != 1 && incoming.ack_number == c.current_sequence_number)
        }),
{
}

/// A fresh packet goes from the `source` address and port to the `destination`
/// address and port, carries no message and acknowledges nothing.
pub proof fn lemma_fresh_packet_addressing(
    source_port: u16,
    destination_port: u16,
    source: Seq<u8>,
    destination: Seq<u8>,
    window: u16,
    syn_flag: u8,
    sequence_number: u32,
)
    ensures
        ({
            let p = fresh_packet(source_port, destination_port, source, destination, window, syn_flag, sequence_number);
            &&& p.source_port == source_port && p.destination_port == destination_port
            &&& p.source_ip_address == source && p.destination_ip_address == destination
            &&& p.window == window && p.syn_flag == syn_flag && p.sequence_number == sequence_number
            &&& p.message.len() == 0 && p.ack_number == 0
        }),
{
}

impl Connection {
    /// A connection from `my_port` at `my_ip` to `his_port` at `his_ip`, with
    /// its outgoing window, first sequence number and incoming window given.
    pub fn from_draws(
        my_port: u16,
        his_port: u16,
        my_ip: Vec<u8>,
        his_ip: Vec<u8>,
        send_window: u16,
        first_sequence_number: u32,
        receive_window: u16,
    ) -> (c: Connection)
        ensures
            c@.packate_to_send.source_port == my_port && c@.packate_to_send.destination_port == his_port,
            c@.packate_to_receive.source_port == his_port && c@.packate_to_receive.destination_port == my_port,
            valid_utf8(my_ip@) && valid_utf8(his_ip@) ==> well_formed(c@),
            c@.packate_to_send.source_ip_address == my_ip@,
            c@.packate_to_send.destination_ip_address == his_ip@,
            c@.packate_to_receive.source_ip_address == his_ip@,
            c@.packate_to_receive.destination_ip_address == my_ip@,
            c@ == (ConnectionView {
                packate_to_send: fresh_packet(my_port, his_port, my_ip@, his_ip@, send_window, 1, first_sequence_number),
                packate_to_receive: fresh_packet(his_port, my_port, his_ip@, my_ip@, receive_window, 0, 0),
                memory_of_packate: Seq::empty(),
                received_packates: Seq::empty(),
                done_three_way_hand_shake: 0,
                initial_sequence_number: 0,
                expected_sequence_number: 0,
                current_sequence_number: first_sequence_number,
            }),
    {
        let packate_to_send = Packate {
            source_port: my_port,
            destination_port: his_port,
            source_ip_address: crate::packet::copy_bytes(&my_ip),
            destination_ip_address: crate::packet::copy_bytes(&his_ip),
            window: send_window,
            syn_flag: 1,
            fyn_flag: 0,
            sequence_number: first_sequence_number,
            ack_number: 0,
            message: Vec::new(),
            packate_size: 0,
            checksum: 0,
        };
        let packate_to_receive = Packate {
            source_port: his_port,
            destination_port: my_port,
            source_ip_address: his_ip,
            destination_ip_address: my_ip,
            window: receive_window,
            syn_flag: 0,
            fyn_flag: 0,
            sequence_number: 0,
            ack_number: 0,
            message: Vec::new(),
            packate_size: 0,
            checksum: 0,
        };
        let c = Connection {
            packate_to_send,
            packate_to_receive,
            memory_of_packate: Vec::new(),
            received_packates: Vec::new(),
            done_three_way_hand_shake: 0,
            initial_sequence_number: 0,
            expected_sequence_number: 0,
            current_sequence_number: first_sequence_number,
        };
        assert(c@.packate_to_send.message =~= Seq::<u8>::empty());
        assert(c@.packate_to_receive.message =~= Seq::<u8>::empty());
        assert(c@.memory_of_packate =~= Seq::<PacketView>::empty());
        assert(c@.received_packates =~= Seq::<PacketView>::empty());
        c
    }

    /// A new connection: both windows drawn between 100 and 200, the first
    /// sequence number between 100 and 1000.
    pub fn new(my_port: u16, his_port: u16, my_ip: Vec<u8>, his_ip: Vec<u8>) -> (c: Connection)
        ensures
            c@.packate_to_send.source_port == my_port && c@.packate_to_send.destination_port == his_port,
            c@.packate_to_receive.source_port == his_port && c@.packate_to_receive.destination_port == my_port,
            valid_utf8(my_ip@) && valid_utf8(his_ip@) ==> well_formed(c@),
            c@.packate_to_send.source_ip_address == my_ip@,
            c@.packate_to_send.destination_ip_address == his_ip@,
            c@.packate_to_receive.source_ip_address == his_ip@,
            c@.packate_to_receive.destination_ip_address == my_ip@,
            WINDOW_LOW <= c@.packate_to_send.window <= WINDOW_HIGH,
            FIRST_SEQUENCE_LOW <= c@.current_sequence_number <= FIRST_SEQUENCE_HIGH,
            WINDOW_LOW <= c@.packate_to_receive.window <= WINDOW_HIGH,
            c@ == (ConnectionView {
                packate_to_send: fresh_packet(my_port, his_port, my_ip@, his_ip@, c@.packate_to_send.window, 1, c@.current_sequence_number),
                packate_to_receive: fresh_packet(his_port, my_port, his_ip@, my_ip@, c@.packate_to_receive.window, 0, 0),
                memory_of_packate: Seq::empty(),
                received_packates: Seq::empty(),
                done_three_way_hand_shake: 0,
                initial_sequence_number: 0,
                expected_sequence_number: 0,
                current_sequence_number: c@.current_sequence_number,
            }),
    {
        let send_window = draw_between(WINDOW_LOW, WINDOW_HIGH) as u16;
        let first = draw_between(FIRST_SEQUENCE_LOW, FIRST_SEQUENCE_HIGH);
        let receive_window = draw_between(WINDOW_LOW, WINDOW_HIGH) as u16;
        Connection::from_draws(my_port, his_port, my_ip, his_ip, send_window, first, receive_window)
    }

    /// Acts on a packet that arrived, or on a failed receive (`None`), which
    /// acts on the last packet again. Sequence numbers wrap at 2^32: the
    /// expected sequence number, and the answer's acknowledgement of a request
    /// numbered `u32::MAX`, which is 0.
    pub fn on_receive(&mut self, arrived: Option<Packate>) -> (a: Arrival)
        ensures
            final(self)@ == after_arrival(taken_in(old(self)@, arrived_view(arrived))),
            well_formed(old(self)@) && (arrived matches Some(p) ==> texts_are_utf8(p@))
                ==> well_formed(final(self)@),
            match a {
                Arrival::Handshake(bytes) => taken_in(old(self)@, arrived_view(arrived)).packate_to_receive.syn_flag == 1
                    && bytes@ == encoding(final(self)@.packate_to_send),
                Arrival::Acknowledged => taken_in(old(self)@, arrived_view(arrived)).packate_to_receive.syn_flag != 1
                    && taken_in(old(self)@, arrived_view(arrived)).packate_to_receive.ack_number
                    == old(self)@.current_sequence_number,
                Arrival::Stored => taken_in(old(self)@, arrived_view(arrived)).packate_to_receive.syn_flag != 1
                    && taken_in(old(self)@, arrived_view(arrived)).packate_to_receive.ack_number
                    != old(self)@.current_sequence_number,
            },
    {
        match arrived {
            Some(p) => {
                self.packate_to_receive = p;
                self.expected_sequence_number = crate::packet::add_wrapping(
                    self.expected_sequence_number,
                    self.packate_to_receive.packate_size,
                );
            },
            None => {},
        }
        if self.packate_to_receive.syn_flag == 1 {
            self.expected_sequence_number = self.packate_to_receive.sequence_number;
            self.packate_to_send.syn_flag = 1;
            self.packate_to_send.ack_number = crate::packet::add_wrapping(
                self.packate_to_receive.sequence_number,
                1,
            );
            self.initial_sequence_number = self.packate_to_receive.sequence_number;
            Arrival::Handshake(encode_packet(&self.packate_to_send))
        } else if self.packate_to_receive.ack_number == self.current_sequence_number {
            self.memory_of_packate.clear();
            proof {
                assert(views(self.memory_of_packate@) =~= Seq::<PacketView>::empty());
            }
            Arrival::Acknowledged
        } else {
            let ghost before = self.received_packates@;
            self.received_packates.push(self.packate_to_receive.duplicate());
            proof {
                assert(views(self.received_packates@) =~= views(before).push(self.packate_to_receive@));
                assert(views(self.received_packates@).last() == self.packate_to_receive@);
            }
            Arrival::Stored
        }
    }

    /// Whether the answer to a request to synchronise still waits for its
    /// acknowledgement: the last packet does not acknowledge the outgoing
    /// sequence number plus one, wrapping at 2^32.
    pub fn awaiting_acknowledgement(&self) -> (b: bool)
        ensures
            b == waits_for_acknowledgement(self@),
    {
        self.packate_to_receive.ack_number != crate::packet::add_wrapping(
            self.packate_to_send.sequence_number,
            1,
        )
    }

    /// Takes in the peer's reply during a handshake.
    pub fn record_reply(&mut self, reply: Packate)
        ensures
            final(self)@ == with_reply(old(self)@, reply@),
            well_formed(old(self)@) && texts_are_utf8(reply@) ==> well_formed(final(self)@),
    {
        self.packate_to_receive = reply;
    }

    /// Ends the handshake that answered the peer: the outgoing packet no longer
    /// asks to synchronise and the handshake counts as done.
    pub fn finish_receiving_three_way_handshake(&mut self)
        ensures
            final(self)@ == finished_receiving(old(self)@),
            well_formed(old(self)@) ==> well_formed(final(self)@),
    {
        self.packate_to_send.syn_flag = 0;
        self.done_three_way_hand_shake = 1;
    }

    /// Whether the request to synchronise still waits for the peer's own
    /// request: the last packet does not ask to synchronise.
    pub fn awaiting_answer(&self) -> (b: bool)
        ensures
            b == waits_for_answer(self@),
    {
        self.packate_to_receive.syn_flag == 0
    }

    /// Ends the handshake that this end started: remembers the peer's sequence
    /// number, acknowledges it plus one with sequence number 0 and no request
    /// to synchronise, and gives the bytes of that acknowledgement. The
    /// acknowledgement wraps at 2^32: a peer numbered `u32::MAX` is
    /// acknowledged with 0.
    pub fn finish_transmitting_three_way_handshake(&mut self) -> (bytes: Vec<u8>)
        ensures
            final(self)@ == finished_transmitting(old(self)@),
            well_formed(old(self)@) ==> well_formed(final(self)@),
            bytes@ == encoding(final(self)@.packate_to_send),
    {
        self.initial_sequence_number = self.packate_to_receive.sequence_number;
        self.packate_to_send.syn_flag = 0;
        self.packate_to_send.ack_number = crate::packet::add_wrapping(
            self.packate_to_receive.sequence_number,
            1,
        );
        self.packate_to_send.sequence_number = 0;
        encode_packet(&self.packate_to_send)
    }

    /// Acts on a line the user typed. Before the handshake it starts one and
    /// keeps the line; after it, it sends the line: a short one in a data
    /// packet, a long one cut into segments.
    pub fn on_input(&mut self, line: &Vec<u8>) -> (t: Typed)
        requires
            old(self).done_three_way_hand_shake != 0 && line@.len() > MAX_SEGMENT_PAYLOAD
                ==> cuts_on_char_boundaries(line@),
        ensures
            line@.len() == 0 ==> t is Idle && final(self)@ == old(self)@,
            well_formed(old(self)@) && valid_utf8(line@) ==> well_formed(final(self)@),
            line@.len() > 0 && old(self)@.done_three_way_hand_shake == 0 ==> (final(self)@ == started_handshake(old(self)@) && (t matches Typed::Handshake(bytes) && bytes@ == encoding(final(self)@.packate_to_send))),
            line@.len() > 0 && old(self)@.done_three_way_hand_shake != 0 ==> (final(self)@ == after_line(old(self)@, line@)
                && (t matches Typed::Transmit(packets) && byte_views(packets@) == wire_forms(packets_for_line(old(self)@, line@)))),
    {
        if line.len() == 0 {
            return Typed::Idle;
        }
        if self.done_three_way_hand_shake == 0 {
            self.done_three_way_hand_shake = 1;
            self.packate_to_send.syn_flag = 1;
            return Typed::Handshake(encode_packet(&self.packate_to_send));
        }
        let ghost c = self@;
        proof {
            if well_formed(c) && valid_utf8(line@) {
                lemma_line_keeps_well_formed(c, line@);
            }
        }
        self.packate_to_send.message = crate::packet::copy_bytes(line);
        self.packate_to_send.syn_flag = 0;
        if line.len() <= MAX_SEGMENT_PAYLOAD {
            self.packate_to_send.packate_size = size_of_packet(
                &self.packate_to_send.source_ip_address,
                &self.packate_to_send.destination_ip_address,
                &self.packate_to_send.message,
            );
            self.packate_to_send.ack_number = 0;
            self.packate_to_send.sequence_number = self.current_sequence_number;
            self.current_sequence_number = crate::packet::add_wrapping(
                self.current_sequence_number,
                self.packate_to_send.packate_size,
            );
            assert(self@.packate_to_send == data_packet(c, line@));
            let bytes = encode_packet(&self.packate_to_send);
            let ghost before = self.memory_of_packate@;
            self.memory_of_packate.push(self.packate_to_send.duplicate());
            proof {
                assert(views(self.memory_of_packate@) =~= views(before).push(self.packate_to_send@));
            }
            let mut packets: Vec<Vec<u8>> = Vec::new();
            packets.push(bytes);
            proof {
                assert(byte_views(packets@) =~= wire_forms(seq![data_packet(c, line@)]));
            }
            Typed::Transmit(packets)
        } else {
            assert(self@.packate_to_send == with_line(c, line@));
            let segments = split_string(
                &self.packate_to_send,
                &mut self.memory_of_packate,
                &mut self.current_sequence_number,
            );
            Typed::Transmit(encode_buffer(&segments))
        }
    }

    /// Reads the stored packets once the receive timer ran out. When a batch
    /// reads through, the outgoing packet loses its message and the bytes of
    /// an acknowledgement of the expected sequence number come back; in every
    /// case the batch is dropped.
    pub fn deliver(&mut self) -> (d: Delivery)
        ensures
            well_formed(old(self)@) ==> well_formed(final(self)@),
            old(self)@.received_packates.len() == 0 ==> d is Nothing && final(self)@ == old(self)@,
            old(self)@.received_packates.len() > 0 ==> exists|code: u8, text: Seq<u8>|
                #[trigger] reading(old(self)@.received_packates, stable_order(old(self)@.received_packates), code, text) && (code == 0 ==> (
                d matches Delivery::Delivered(shown, ack) && shown@ == text && ack@ == encoding(
                    acknowledgement(old(self)@),
                ) && final(self)@ == (ConnectionView {
                    packate_to_send: PacketView { message: Seq::empty(), ack_number: 0, ..old(self)@.packate_to_send },
                    received_packates: Seq::empty(),
                    ..old(self)@
                }))) && (code != 0 ==> (d is Gap && final(self)@ == (ConnectionView {
                    received_packates: Seq::empty(),
                    ..old(self)@
                }))),
    {
        if self.received_packates.len() == 0 {
            return Delivery::Nothing;
        }
        let ghost c = self@;
        let (code, text) = print_messages(&mut self.received_packates);
        assert(reading(c.received_packates, stable_order(c.received_packates), code, text@));
        assert(views(self.received_packates@) =~= Seq::<PacketView>::empty());
        if code == 0 {
            self.packate_to_send.message = Vec::new();
            self.packate_to_send.ack_number = self.expected_sequence_number;
            assert(self@.packate_to_send =~= acknowledgement(c));
            let ack = encode_packet(&self.packate_to_send);
            self.packate_to_send.ack_number = 0;
            Delivery::Delivered(text, ack)
        } else {
            Delivery::Gap
        }
    }

    /// The bytes of every packet still waiting for its acknowledgement, to send
    /// again once the acknowledgement timer ran out; `None` when none waits.
    pub fn retransmission(&self) -> (r: Option<Vec<Vec<u8>>>)
        ensures
            r is None <==> self@.memory_of_packate.len() == 0,
            r matches Some(packets) ==> byte_views(packets@) == wire_forms(self@.memory_of_packate),
    {
        if self.memory_of_packate.len() == 0 {
            None
        } else {
            Some(encode_buffer(&self.memory_of_packate))
        }
    }
}

} // verus!
