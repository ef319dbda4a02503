//! The wire form of a packet: its fields in order, integers as little-endian
//! words, each text as a 64-bit little-endian length and then its bytes. The
//! bytes themselves are produced and read by `bincode`.
use crate::checksum::{checksum_of_bytes, internet_checksum};
use crate::packet::{texts_are_utf8, Packate, PacketView};
use vstd::utf8::valid_utf8;
use vstd::arithmetic::div_mod::lemma_fundamental_div_mod;
use vstd::prelude::*;

verus! {

/// `256` to the power `n`.
pub open spec fn pow256(n: nat) -> nat
    decreases n,
{
    if n == 0 {
        1
    } else {
        256 * pow256((n - 1) as nat)
    }
}

/// The `n` low bytes of `x`, least significant first.
pub open spec fn le_bytes(x: nat, n: nat) -> Seq<u8>
    decreases n,
{
    if n == 0 {
        Seq::empty()
    } else {
        seq![(x % 256) as u8] + le_bytes(x / 256, (n - 1) as nat)
    }
}

/// The number whose bytes, least significant first, are `s`.
pub open spec fn le_value(s: Seq<u8>) -> nat
    decreases s.len(),
{
    if s.len() == 0 {
        0
    } else {
        s[0] as nat + 256 * le_value(s.drop_first())
    }
}

/// A text on the wire: its length as eight little-endian bytes, then its bytes.
pub open spec fn length_prefixed(s: Seq<u8>) -> Seq<u8> {
    le_bytes(s.len(), 8) + s
}

/// The bytes that stand for a packet on the wire.
pub open spec fn encoding(v: PacketView) -> Seq<u8> {
    le_bytes(v.source_port as nat, 2) + (le_bytes(v.destination_port as nat, 2) + (
    length_prefixed(v.source_ip_address) + (length_prefixed(v.destination_ip_address) + (
    le_bytes(v.window as nat, 2) + (le_bytes(v.syn_flag as nat, 1) + (le_bytes(
        v.fyn_flag as nat,
        1,
    ) + (le_bytes(v.sequence_number as nat, 4) + (le_bytes(v.ack_number as nat, 4) + (
    length_prefixed(v.message) + (le_bytes(v.packate_size as nat, 4) + le_bytes(
        v.checksum as nat,
        2,
    )))))))))))
}

/// `le_bytes` gives exactly `n` bytes.
pub proof fn lemma_le_bytes_len(x: nat, n: nat)
    ensures
        le_bytes(x, n).len() == n,
    decreases n,
{
    if n > 0 {
        lemma_le_bytes_len(x / 256, (n - 1) as nat);
    }
}

/// Reading back the `n` low bytes of a number below `256^n` gives the number.
pub proof fn lemma_le_value_of_bytes(x: nat, n: nat)
    requires
        x < pow256(n),
    ensures
        le_value(le_bytes(x, n)) == x,
    decreases n,
{
    if n > 0 {
        let rest = le_bytes(x / 256, (n - 1) as nat);
        let p = pow256((n - 1) as nat);
        lemma_fundamental_div_mod(x as int, 256);
        assert(x / 256 < p) by (nonlinear_arith)
            requires
                x < 256 * p,
                x == 256 * (x / 256) + x % 256,
                0 <= x % 256,
        ;
        lemma_le_value_of_bytes(x / 256, (n - 1) as nat);
        assert(le_bytes(x, n).drop_first() =~= rest);
    }
}

/// A concatenation that begins `b` splits into a part that begins `b` and a
/// rest that begins what follows that part.
proof fn lemma_peel(a: Seq<u8>, rest: Seq<u8>, b: Seq<u8>)
    requires
        (a + rest).is_prefix_of(b),
    ensures
        a.is_prefix_of(b),
        rest.is_prefix_of(b.skip(a.len() as int)),
{
    assert(a =~= (a + rest).subrange(0, a.len() as int));
    assert(rest =~= (a + rest).subrange(a.len() as int, (a + rest).len() as int));
    assert(a =~= b.subrange(0, a.len() as int));
    assert(rest =~= b.skip(a.len() as int).subrange(0, rest.len() as int));
}

/// Two sequences of one length that both begin `b` are equal.
proof fn lemma_same_prefix(a1: Seq<u8>, a2: Seq<u8>, b: Seq<u8>)
    requires
        a1.is_prefix_of(b),
        a2.is_prefix_of(b),
        a1.len() == a2.len(),
    ensures
        a1 == a2,
{
    assert(a1 =~= a2);
}

/// Two fixed-width fields read from the front of the same bytes are equal,
/// and what follows each begins the rest of the bytes.
proof fn lemma_number_field(x1: nat, x2: nat, n: nat, r1: Seq<u8>, r2: Seq<u8>, b: Seq<u8>)
    requires
        (le_bytes(x1, n) + r1).is_prefix_of(b),
        (le_bytes(x2, n) + r2).is_prefix_of(b),
        x1 < pow256(n),
        x2 < pow256(n),
    ensures
        x1 == x2,
        r1.is_prefix_of(b.skip(n as int)),
        r2.is_prefix_of(b.skip(n as int)),
{
    lemma_le_bytes_len(x1, n);
    lemma_le_bytes_len(x2, n);
    lemma_peel(le_bytes(x1, n), r1, b);
    lemma_peel(le_bytes(x2, n), r2, b);
    lemma_same_prefix(le_bytes(x1, n), le_bytes(x2, n), b);
    lemma_le_value_of_bytes(x1, n);
    lemma_le_value_of_bytes(x2, n);
}

/// Two texts read from the front of the same bytes are equal, and what
/// follows each begins the rest of the bytes.
proof fn lemma_text_field(s1: Seq<u8>, s2: Seq<u8>, r1: Seq<u8>, r2: Seq<u8>, b: Seq<u8>)
    requires
        (length_prefixed(s1) + r1).is_prefix_of(b),
        (length_prefixed(s2) + r2).is_prefix_of(b),
        b.len() < pow256(8),
    ensures
        s1 == s2,
        r1.is_prefix_of(b.skip(8 + s1.len() as int)),
        r2.is_prefix_of(b.skip(8 + s1.len() as int)),
{
    lemma_le_bytes_len(s1.len(), 8);
    lemma_le_bytes_len(s2.len(), 8);
    lemma_peel(length_prefixed(s1), r1, b);
    lemma_peel(length_prefixed(s2), r2, b);
    lemma_number_field(s1.len(), s2.len(), 8, s1, s2, b);
    lemma_same_prefix(s1, s2, b.skip(8));
    assert(b.skip(8 + s1.len() as int) =~= b.skip(length_prefixed(s1).len() as int));
}

/// The wire form is prefix-free: bytes begin with the wire form of at most one
/// packet.
pub proof fn lemma_encoding_prefix_free(v1: PacketView, v2: PacketView, b: Seq<u8>)
    requires
        encoding(v1).is_prefix_of(b),
        encoding(v2).is_prefix_of(b),
        b.len() < pow256(8),
    ensures
        v1 == v2,
{
    reveal_with_fuel(pow256, 9);
    assert(pow256(1) == 0x100 && pow256(2) == 0x1_0000 && pow256(4) == 0x1_0000_0000);
    let r10_1 = le_bytes(v1.packate_size as nat, 4) + le_bytes(v1.checksum as nat, 2);
    let r10_2 = le_bytes(v2.packate_size as nat, 4) + le_bytes(v2.checksum as nat, 2);
    let r9_1 = length_prefixed(v1.message) + r10_1;
    let r9_2 = length_prefixed(v2.message) + r10_2;
    let r8_1 = le_bytes(v1.ack_number as nat, 4) + r9_1;
    let r8_2 = le_bytes(v2.ack_number as nat, 4) + r9_2;
    let r7_1 = le_bytes(v1.sequence_number as nat, 4) + r8_1;
    let r7_2 = le_bytes(v2.sequence_number as nat, 4) + r8_2;
    let r6_1 = le_bytes(v1.fyn_flag as nat, 1) + r7_1;
    let r6_2 = le_bytes(v2.fyn_flag as nat, 1) + r7_2;
    let r5_1 = le_bytes(v1.syn_flag as nat, 1) + r6_1;
    let r5_2 = le_bytes(v2.syn_flag as nat, 1) + r6_2;
    let r4_1 = le_bytes(v1.window as nat, 2) + r5_1;
    let r4_2 = le_bytes(v2.window as nat, 2) + r5_2;
    let r3_1 = length_prefixed(v1.destination_ip_address) + r4_1;
    let r3_2 = length_prefixed(v2.destination_ip_address) + r4_2;
    let r2_1 = length_prefixed(v1.source_ip_address) + r3_1;
    let r2_2 = length_prefixed(v2.source_ip_address) + r3_2;
    let r1_1 = le_bytes(v1.destination_port as nat, 2) + r2_1;
    let r1_2 = le_bytes(v2.destination_port as nat, 2) + r2_2;
    lemma_number_field(v1.source_port as nat, v2.source_port as nat, 2, r1_1, r1_2, b);
    let b1 = b.skip(2);
    lemma_number_field(v1.destination_port as nat, v2.destination_port as nat, 2, r2_1, r2_2, b1);
    let b2 = b1.skip(2);
    lemma_text_field(v1.source_ip_address, v2.source_ip_address, r3_1, r3_2, b2);
    let b3 = b2.skip(8 + v1.source_ip_address.len() as int);
    lemma_text_field(v1.destination_ip_address, v2.destination_ip_address, r4_1, r4_2, b3);
    let b4 = b3.skip(8 + v1.destination_ip_address.len() as int);
    lemma_number_field(v1.window as nat, v2.window as nat, 2, r5_1, r5_2, b4);
    let b5 = b4.skip(2);
    lemma_number_field(v1.syn_flag as nat, v2.syn_flag as nat, 1, r6_1, r6_2, b5);
    let b6 = b5.skip(1);
    lemma_number_field(v1.fyn_flag as nat, v2.fyn_flag as nat, 1, r7_1, r7_2, b6);
    let b7 = b6.skip(1);
    lemma_number_field(v1.sequence_number as nat, v2.sequence_number as nat, 4, r8_1, r8_2, b7);
    let b8 = b7.skip(4);
    lemma_number_field(v1.ack_number as nat, v2.ack_number as nat, 4, r9_1, r9_2, b8);
    let b9 = b8.skip(4);
    lemma_text_field(v1.message, v2.message, r10_1, r10_2, b9);
    let b10 = b9.skip(8 + v1.message.len() as int);
    let e1 = le_bytes(v1.checksum as nat, 2);
    let e2 = le_bytes(v2.checksum as nat, 2);
    lemma_number_field(v1.packate_size as nat, v2.packate_size as nat, 4, e1, e2, b10);
    let b11 = b10.skip(4);
    assert(e1 + Seq::<u8>::empty() =~= e1);
    assert(e2 + Seq::<u8>::empty() =~= e2);
    lemma_number_field(v1.checksum as nat, v2.checksum as nat, 2, Seq::empty(), Seq::empty(), b11);
}

/// Reading a packet succeeds on the wire form of at most one packet: what
/// bytes decode as is unique.
pub proof fn lemma_decoding_unique(bytes: Seq<u8>, v1: PacketView, v2: PacketView)
    requires
        decodes_as(bytes, v1),
        decodes_as(bytes, v2),
        bytes.len() < pow256(8),
    ensures
        v1 == v2,
{
    lemma_encoding_prefix_free(v1, v2, bytes);
}

/// Whether `bytes` begin with the wire form of `v`, whose texts are UTF-8:
/// exactly when reading a packet from `bytes` gives `v`.
pub open spec fn decodes_as(bytes: Seq<u8>, v: PacketView) -> bool {
    &&& encoding(v).is_prefix_of(bytes)
    &&& texts_are_utf8(v)
}

/// Why bytes could not be read as a packet.
#[derive(Debug, PartialEq, Eq)]
pub enum DecodeError {
    /// The bytes do not begin with the wire form of a packet whose texts are
    /// UTF-8.
    Malformed,
}

#[verifier::external_type_specification]
#[verifier::external_body]
pub struct ExBincodeErrorKind(bincode::ErrorKind);

/// `bincode::serialize` on the packet's fields in order. Its documented
/// format, with fixed-width little-endian integers and each text (a sequence of
/// bytes) preceded by its length as a `u64`, is `encoding`; writing into a
/// growing `Vec` with no size limit does not fail.
#[verifier::external_body]
fn bincode_serialize(p: &Packate) -> (r: Result<Vec<u8>, Box<bincode::ErrorKind>>)
    ensures
        r is Ok,
        r matches Ok(bytes) ==> bytes@ == encoding(p@),
{
    bincode::serialize(&(
        p.source_port, p.destination_port, &p.source_ip_address, &p.destination_ip_address,
        p.window, p.syn_flag, p.fyn_flag, p.sequence_number, p.ack_number, &p.message,
        p.packate_size, p.checksum,
    ))
}

/// The packet fields as `bincode` reads them, the texts as `String`s.
type WireFields = (u16, u16, String, String, u16, u8, u8, u32, u32, String, u32, u16);

/// `bincode::deserialize` of the packet's fields in order, the texts as
/// `String`s, handed back with each text as its bytes. It reads the fields in
/// order from the front, fails when the bytes run out or a text is not UTF-8
/// (`String::from_utf8`, whose test is vstd's `valid_utf8`), and leaves
/// trailing bytes unread: so it succeeds exactly when the bytes
/// begin with the encoding of a packet whose texts are UTF-8, and then gives
/// that packet.
#[verifier::external_body]
fn bincode_deserialize(bytes: &[u8]) -> (r: Result<Packate, Box<bincode::ErrorKind>>)
    ensures
        r matches Ok(p) ==> encoding(p@).is_prefix_of(bytes@) && valid_utf8(p.source_ip_address@)
            && valid_utf8(p.destination_ip_address@) && valid_utf8(p.message@),
        forall|v: PacketView|
            #[trigger] encoding(v).is_prefix_of(bytes@) && valid_utf8(v.source_ip_address)
                && valid_utf8(v.destination_ip_address) && valid_utf8(v.message) ==> r is Ok,
{
    match bincode::deserialize::<WireFields>(bytes) {
        Ok(f) => Ok(Packate {
            source_port: f.0, destination_port: f.1, source_ip_address: f.2.into_bytes(),
            destination_ip_address: f.3.into_bytes(), window: f.4, syn_flag: f.5, fyn_flag: f.6,
            sequence_number: f.7, ack_number: f.8, message: f.9.into_bytes(), packate_size: f.10,
            checksum: f.11,
        }),
        Err(e) => Err(e),
    }
}

/// The wire form of `p`.
pub fn encode_packet(p: &Packate) -> (bytes: Vec<u8>)
    ensures
        bytes@ == encoding(p@),
{
    match bincode_serialize(p) {
        Ok(bytes) => bytes,
        Err(_) => {
            proof {
                assert(false);
            }
            Vec::new()
        },
    }
}

/// The packet whose wire form begins `bytes`; trailing bytes are ignored.
pub fn decode_packet(bytes: &[u8]) -> (r: Result<Packate, DecodeError>)
    ensures
        r matches Ok(p) ==> decodes_as(bytes@, p@),
        r is Ok <==> exists|v: PacketView| decodes_as(bytes@, v),
{
    match bincode_deserialize(bytes) {
        Ok(p) => Ok(p),
        Err(_) => {
            assert(forall|v: PacketView| !decodes_as(bytes@, v));
            Err(DecodeError::Malformed)
        },
    }
}

/// Sets the packet's checksum to the checksum of its wire form as it stood
/// before, checksum field included.
pub fn calculate_checksum(packate_to_calculate_checksum: &mut Packate)
    ensures
        final(packate_to_calculate_checksum)@ == (PacketView {
            checksum: internet_checksum(encoding(old(packate_to_calculate_checksum)@)),
            ..old(packate_to_calculate_checksum)@
        }),
{
    let data = encode_packet(packate_to_calculate_checksum);
    packate_to_calculate_checksum.checksum = checksum_of_bytes(data.as_slice());
}

/// Reading back the wire form of a packet whose texts are UTF-8 gives that
/// packet and no other.
pub proof fn lemma_decode_encode(v: PacketView)
    requires
        texts_are_utf8(v),
        encoding(v).len() < pow256(8),
    ensures
        decodes_as(encoding(v), v),
        forall|w: PacketView| #[trigger] decodes_as(encoding(v), w) ==> w == v,
{
    assert(encoding(v).is_prefix_of(encoding(v))) by {
        assert(encoding(v) =~= encoding(v).subrange(0, encoding(v).len() as int));
    }
    assert forall|w: PacketView| #[trigger] decodes_as(encoding(v), w) implies w == v by {
        lemma_decoding_unique(encoding(v), w, v);
    }
}

/// The wire forms of `s`, one for one.
pub open spec fn wire_forms(s: Seq<PacketView>) -> Seq<Seq<u8>> {
    s.map_values(|v: PacketView| encoding(v))
}

/// The contents of byte buffers, one for one.
pub open spec fn byte_views(s: Seq<Vec<u8>>) -> Seq<Seq<u8>> {
    s.map_values(|b: Vec<u8>| b@)
}

/// The wire form of each packet of `mem`, in order.
pub fn encode_buffer(mem: &Vec<Packate>) -> (r: Vec<Vec<u8>>)
    ensures
        byte_views(r@) == wire_forms(crate::packet::views(mem@)),
{
    let mut r: Vec<Vec<u8>> = Vec::new();
    let mut i: usize = 0;
    while i < mem.len()
        invariant
            i <= mem@.len(),
            byte_views(r@) =~= wire_forms(crate::packet::views(mem@)).take(i as int),
        decreases mem@.len() - i,
    {
        let ghost before = r@;
        r.push(encode_packet(&mem[i]));
        assert(byte_views(r@) =~= byte_views(before).push(encoding(mem@[i as int]@)));
        i = i + 1;
    }
    r
}

} // verus!
