//! The packet that both ends exchange, and its mathematical view.
use vstd::arithmetic::div_mod::lemma_add_mod_noop;
use vstd::prelude::*;
use vstd::utf8::valid_utf8;

verus! {

/// The bytes that every packet takes besides its two addresses and its
/// message; a packet's declared size adds those three lengths to it.
pub const MINIMUM_PACKET_SIZE: u32 = 26;

/// The longest message that travels in a single packet; a longer one is cut
/// into segments of at most this many bytes.
pub const MAX_SEGMENT_PAYLOAD: usize = 10;

/// One packet. The two addresses and the message hold the UTF-8 bytes of their
/// text.
#[derive(Clone, Debug, PartialEq, Eq)]
pub struct Packate {
    pub source_port: u16,
    pub destination_port: u16,
    pub source_ip_address: Vec<u8>,
    pub destination_ip_address: Vec<u8>,
    pub window: u16,
    pub syn_flag: u8,
    pub fyn_flag: u8,
    pub sequence_number: u32,
    pub ack_number: u32,
    pub message: Vec<u8>,
    pub packate_size: u32,
    pub checksum: u16,
}

/// A packet as a mathematical value.
pub struct PacketView {
    pub source_port: u16,
    pub destination_port: u16,
    pub source_ip_address: Seq<u8>,
    pub destination_ip_address: Seq<u8>,
    pub window: u16,
    pub syn_flag: u8,
    pub fyn_flag: u8,
    pub sequence_number: u32,
    pub ack_number: u32,
    pub message: Seq<u8>,
    pub packate_size: u32,
    pub checksum: u16,
}

impl View for Packate {
    type V = PacketView;

    open spec fn view(&self) -> PacketView {
        PacketView {
            source_port: self.source_port,
            destination_port: self.destination_port,
            source_ip_address: self.source_ip_address@,
            destination_ip_address: self.destination_ip_address@,
            window: self.window,
            syn_flag: self.syn_flag,
            fyn_flag: self.fyn_flag,
            sequence_number: self.sequence_number,
            ack_number: self.ack_number,
            message: self.message@,
            packate_size: self.packate_size,
            checksum: self.checksum,
        }
    }
}

/// Whether the two addresses and the message of `v` are valid UTF-8, as the
/// texts they stand for are.
pub open spec fn texts_are_utf8(v: PacketView) -> bool {
    &&& valid_utf8(v.source_ip_address)
    &&& valid_utf8(v.destination_ip_address)
    &&& valid_utf8(v.message)
}

/// The views of a sequence of packets, one for one.
pub open spec fn views(s: Seq<Packate>) -> Seq<PacketView> {
    s.map_values(|p: Packate| p@)
}

/// `a + b` on 32-bit words, wrapping around at 2^32 as sequence numbers do.
pub open spec fn add32(a: int, b: int) -> u32 {
    ((a + b) % 0x1_0000_0000) as u32
}

/// The size that a packet with these addresses and this message declares:
/// the fixed part plus the three lengths, wrapping at 2^32.
pub open spec fn declared_size(source: Seq<u8>, destination: Seq<u8>, message: Seq<u8>) -> u32 {
    add32(MINIMUM_PACKET_SIZE + source.len() + destination.len(), message.len() as int)
}

/// While it does not wrap, the declared size is the fixed part plus the
/// lengths of the two addresses and of the message: each byte of each of them
/// counts once.
pub proof fn lemma_declared_size_counts_every_byte(
    source: Seq<u8>,
    destination: Seq<u8>,
    message: Seq<u8>,
)
    requires
        26 + source.len() + destination.len() + message.len() < 0x1_0000_0000,
    ensures
        declared_size(source, destination, message) == 26 + source.len() + destination.len()
            + message.len(),
{
}

/// A byte for byte copy of `v`.
pub fn copy_bytes(v: &Vec<u8>) -> (r: Vec<u8>)
    ensures
        r@ == v@,
{
    let r = v.clone();
    assert(r@ =~= v@);
    r
}

impl Packate {
    /// A copy of this packet.
    pub fn duplicate(&self) -> (r: Packate)
        ensures
            r@ == self@,
    {
        Packate {
            source_port: self.source_port,
            destination_port: self.destination_port,
            source_ip_address: copy_bytes(&self.source_ip_address),
            destination_ip_address: copy_bytes(&self.destination_ip_address),
            window: self.window,
            syn_flag: self.syn_flag,
            fyn_flag: self.fyn_flag,
            sequence_number: self.sequence_number,
            ack_number: self.ack_number,
            message: copy_bytes(&self.message),
            packate_size: self.packate_size,
            checksum: self.checksum,
        }
    }
}

/// Reducing the left operand first does not change a sum modulo `m`, nor
/// does reducing the right one.
proof fn lemma_mod_absorbs_left(x: int, y: int, m: int)
    requires
        m > 0,
    ensures
        ((x % m) + (y % m)) % m == (x + y) % m,
        ((x % m) + y) % m == (x + y) % m,
{
    lemma_add_mod_noop(x, y, m);
    lemma_add_mod_noop(x % m, y, m);
    vstd::arithmetic::div_mod::lemma_mod_twice(x, m);
}

/// A length taken as a 32-bit word, as a cast to `u32` does.
fn length_word(n: usize) -> (r: u32)
    ensures
        r as int == n as int % 0x1_0000_0000,
{
    let wide = n as u64;
    (wide % 0x1_0000_0000) as u32
}

/// `a + b`, wrapping around at 2^32.
pub(crate) fn add_wrapping(a: u32, b: u32) -> (r: u32)
    ensures
        r as int == (a + b) % 0x1_0000_0000,
{
    a.wrapping_add(b)
}

/// The size that a packet with these addresses and this message declares.
pub fn size_of_packet(source: &Vec<u8>, destination: &Vec<u8>, message: &Vec<u8>) -> (s: u32)
    ensures
        s == declared_size(source@, destination@, message@),
{
    let ghost m: int = 0x1_0000_0000;
    let ghost la = source@.len() as int;
    let ghost lb = destination@.len() as int;
    let ghost lc = message@.len() as int;
    let s1 = add_wrapping(MINIMUM_PACKET_SIZE, length_word(source.len()));
    assert(s1 == (26 + la) % m) by {
        lemma_mod_absorbs_left(26, la, m);
    }
    let s2 = add_wrapping(s1, length_word(destination.len()));
    assert(s2 == (26 + la + lb) % m) by {
        lemma_mod_absorbs_left(26 + la, lb, m);
    }
    let s3 = add_wrapping(s2, length_word(message.len()));
    assert(s3 == (26 + la + lb + lc) % m) by {
        lemma_mod_absorbs_left(26 + la + lb, lc, m);
    }
    s3
}

} // verus!
