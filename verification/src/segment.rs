//! Cutting a long message into numbered segments of at most ten bytes each.
use crate::packet::{
    add32, declared_size, size_of_packet, texts_are_utf8, views, Packate, PacketView,
    MAX_SEGMENT_PAYLOAD,
};
use vstd::utf8::{
    is_char_boundary_iff_not_is_continuation_byte, is_char_boundary_start_end_of_seq,
    valid_utf8, valid_utf8_split,
};
use vstd::prelude::*;
use vstd::slice::{slice_subrange, slice_to_vec};

verus! {

/// Whether `i` falls between two characters of the UTF-8 text `b`: it is an
/// end of the text, or the byte there does not continue a character.
pub open spec fn is_char_boundary(b: Seq<u8>, i: int) -> bool {
    ||| i == 0
    ||| i == b.len()
    ||| (0 <= i < b.len() && (b[i] < 0x80 || b[i] >= 0xC0))
}

/// Whether every cut between ten-byte segments of `b` falls between two
/// characters; slicing a text elsewhere panics.
pub open spec fn cuts_on_char_boundaries(b: Seq<u8>) -> bool {
    forall|k: int| 0 < k && 10 * k < b.len() ==> #[trigger] is_char_boundary(b, 10 * k)
}

/// How many segments a message of `n` bytes takes.
pub open spec fn segment_count(n: nat) -> nat {
    (n + 9) / 10
}

/// The `k`-th ten-byte piece of `message`; the last one may be shorter.
pub open spec fn payload(message: Seq<u8>, k: int) -> Seq<u8> {
    let start = 10 * k;
    let end = if start + 10 <= message.len() {
        start + 10
    } else {
        message.len() as int
    };
    message.subrange(start, end)
}

/// The size that the `k`-th segment of `p` declares.
pub open spec fn segment_size(p: PacketView, k: int) -> u32 {
    declared_size(p.source_ip_address, p.destination_ip_address, payload(p.message, k))
}

/// The sequence number of the `k`-th segment of `p` when the first takes `sn`:
/// each next one adds the size of the one before, wrapping at 2^32. With `k`
/// the number of segments, it is the next free sequence number.
pub open spec fn segment_seq(p: PacketView, sn: u32, k: nat) -> u32
    decreases k,
{
    if k == 0 {
        sn
    } else {
        add32(segment_seq(p, sn, (k - 1) as nat) as int, segment_size(p, k - 1) as int)
    }
}

/// The `k`-th segment of `p`: `p` with the `k`-th piece of its message, its
/// sequence number and its size.
pub open spec fn segment(p: PacketView, sn: u32, k: int) -> PacketView {
    PacketView {
        message: payload(p.message, k),
        sequence_number: segment_seq(p, sn, k as nat),
        packate_size: segment_size(p, k),
        ..p
    }
}

/// All the segments of `p`, in order, the first numbered `sn`.
pub open spec fn segments_of(p: PacketView, sn: u32) -> Seq<PacketView> {
    Seq::new(segment_count(p.message.len()), |k: int| segment(p, sn, k))
}

/// The messages of `s`, one after the other.
pub open spec fn concat_messages(s: Seq<PacketView>) -> Seq<u8>
    decreases s.len(),
{
    if s.len() == 0 {
        Seq::empty()
    } else {
        concat_messages(s.drop_last()) + s.last().message
    }
}

/// The messages of the first `j` segments of `p` are the first `10 * j` bytes
/// of its message, or all of it.
proof fn lemma_concat_prefix(p: PacketView, sn: u32, j: nat)
    requires
        j <= segment_count(p.message.len()),
    ensures
        concat_messages(segments_of(p, sn).take(j as int)) == p.message.subrange(
            0,
            if 10 * j <= p.message.len() {
                (10 * j) as int
            } else {
                p.message.len() as int
            },
        ),
    decreases j,
{
    let segs = segments_of(p, sn);
    if j == 0 {
        assert(segs.take(0) =~= Seq::<PacketView>::empty());
        assert(p.message.subrange(0, 0) =~= Seq::<u8>::empty());
    } else {
        lemma_concat_prefix(p, sn, (j - 1) as nat);
        assert(segs.take(j as int).drop_last() =~= segs.take(j - 1));
        assert(10 * (j - 1) < p.message.len()) by (nonlinear_arith)
            requires
                j <= (p.message.len() + 9) / 10,
                j >= 1,
        ;
        assert(segs.take(j as int).last() == segment(p, sn, j - 1));
        let end = if 10 * j <= p.message.len() {
            (10 * j) as int
        } else {
            p.message.len() as int
        };
        assert(p.message.subrange(0, 10 * (j - 1)) + p.message.subrange(10 * (j - 1), end)
            =~= p.message.subrange(0, end));
    }
}

/// Cutting a message into segments loses nothing: the segments' messages, one
/// after the other, are the message; each has between one and ten bytes; and
/// each segment is followed by the one whose sequence number its own plus its
/// size gives.
pub proof fn lemma_segments_carry_message(p: PacketView, sn: u32)
    ensures
        concat_messages(segments_of(p, sn)) == p.message,
        forall|k: int|
            0 <= k < segment_count(p.message.len()) ==> 0 < #[trigger] payload(p.message, k).len()
                <= 10,
        forall|k: int|
            0 <= k < segment_count(p.message.len()) - 1 ==> add32(
                #[trigger] segments_of(p, sn)[k].sequence_number as int,
                segments_of(p, sn)[k].packate_size as int,
            ) == segments_of(p, sn)[k + 1].sequence_number,
{
    let n = p.message.len();
    let count = segment_count(n);
    lemma_concat_prefix(p, sn, count);
    assert(segments_of(p, sn).take(count as int) =~= segments_of(p, sn));
    assert(10 * count >= n) by (nonlinear_arith)
        requires
            count == (n + 9) / 10,
    ;
    assert(p.message.subrange(0, n as int) =~= p.message);
    assert forall|k: int| 0 <= k < count implies 0 < #[trigger] payload(p.message, k).len() <= 10 by {
        assert(10 * k < n) by (nonlinear_arith)
            requires
                0 <= k < count,
                count == (n + 9) / 10,
        ;
    }
}

/// A piece cut between two characters of a UTF-8 text is UTF-8.
proof fn lemma_payload_utf8(m: Seq<u8>, k: int)
    requires
        valid_utf8(m),
        cuts_on_char_boundaries(m),
        0 <= k,
        10 * k < m.len(),
    ensures
        valid_utf8(payload(m, k)),
{
    let a = 10 * k;
    let b = if a + 10 <= m.len() {
        a + 10
    } else {
        m.len() as int
    };
    is_char_boundary_start_end_of_seq(m);
    if b < m.len() {
        assert(is_char_boundary(m, 10 * (k + 1)));
        is_char_boundary_iff_not_is_continuation_byte(m, b);
    }
    valid_utf8_split(m, b);
    let pre = m.subrange(0, b);
    is_char_boundary_start_end_of_seq(pre);
    if a > 0 {
        assert(is_char_boundary(m, 10 * k));
        assert(pre[a] == m[a]);
        is_char_boundary_iff_not_is_continuation_byte(pre, a);
    }
    valid_utf8_split(pre, a);
    assert(pre.subrange(a, pre.len() as int) =~= m.subrange(a, b));
}

/// In a UTF-8 text, a position is between two characters exactly where vstd's
/// `is_char_boundary` (and so `str::is_char_boundary`) says a character starts
/// or the text ends: every byte that does not continue a character, whatever
/// the width of the character it starts, is a place to cut.
pub proof fn lemma_cut_agrees_with_utf8(b: Seq<u8>, i: int)
    requires
        valid_utf8(b),
        0 <= i <= b.len(),
    ensures
        is_char_boundary(b, i) <==> vstd::utf8::is_char_boundary(b, i),
{
    is_char_boundary_start_end_of_seq(b);
    if 0 < i < b.len() {
        is_char_boundary_iff_not_is_continuation_byte(b, i);
    }
}

/// A UTF-8 text may be cut into ten-byte segments exactly when every
/// multiple of ten inside it is a character boundary in vstd's sense.
pub proof fn lemma_cuts_agree_with_utf8(b: Seq<u8>)
    requires
        valid_utf8(b),
    ensures
        cuts_on_char_boundaries(b) <==> forall|k: int|
            0 < k && 10 * k < b.len() ==> #[trigger] vstd::utf8::is_char_boundary(b, 10 * k),
{
    assert forall|k: int|
        #![trigger is_char_boundary(b, 10 * k)]
        #![trigger vstd::utf8::is_char_boundary(b, 10 * k)]
        0 < k && 10 * k < b.len() implies is_char_boundary(b, 10 * k)
            == vstd::utf8::is_char_boundary(b, 10 * k) by {
        lemma_cut_agrees_with_utf8(b, 10 * k);
    }
}

/// Cutting a packet whose texts are UTF-8 between characters gives segments
/// whose texts are UTF-8.
pub proof fn lemma_segments_are_utf8(p: PacketView, sn: u32)
    requires
        texts_are_utf8(p),
        cuts_on_char_boundaries(p.message),
    ensures
        forall|k: int|
            0 <= k < segment_count(p.message.len()) ==> texts_are_utf8(
                #[trigger] segments_of(p, sn)[k],
            ),
{
    assert forall|k: int| 0 <= k < segment_count(p.message.len()) implies texts_are_utf8(
        #[trigger] segments_of(p, sn)[k],
    ) by {
        assert(10 * k < p.message.len()) by (nonlinear_arith)
            requires
                0 <= k < segment_count(p.message.len()),
                segment_count(p.message.len()) == (p.message.len() + 9) / 10,
        ;
        lemma_payload_utf8(p.message, k);
    }
}

/// Whether every cut between ten-byte segments of `message` falls between two
/// characters, so that `split_string` may cut it.
pub fn cuts_fall_between_characters(message: &Vec<u8>) -> (ok: bool)
    ensures
        ok == cuts_on_char_boundaries(message@),
{
    let n = message.len();
    let mut i: usize = MAX_SEGMENT_PAYLOAD;
    while i < n
        invariant
            n == message@.len(),
            i >= 10,
            i < n ==> i % 10 == 0,
            forall|k: int|
                0 < k && 10 * k < i && 10 * k < n ==> #[trigger] is_char_boundary(message@, 10 * k),
        decreases n - i,
    {
        let b = message[i];
        if b >= 0x80 && b < 0xC0 {
            let ghost k = i as int / 10;
            assert(10 * k == i);
            assert(!is_char_boundary(message@, 10 * k));
            return false;
        }
        let ghost old_i = i as int;
        if n - i > MAX_SEGMENT_PAYLOAD {
            i = i + MAX_SEGMENT_PAYLOAD;
        } else {
            i = n;
        }
        assert forall|k: int|
            0 < k && 10 * k < i && 10 * k < n implies #[trigger] is_char_boundary(message@, 10 * k) by {
            if 10 * k >= old_i {
                assert(10 * k == old_i) by (nonlinear_arith)
                    requires
                        10 * k >= old_i,
                        10 * k < i,
                        i <= old_i + 10,
                        old_i % 10 == 0,
                ;
            }
        }
    }
    true
}

/// Cuts the message of `to_send` into segments of at most ten bytes, numbered
/// from `*sn` on, each a copy of `to_send` with its piece, its sequence number
/// and its size; appends them to `memory`, advances `*sn` past them, and
/// returns them in order.
pub fn split_string(to_send: &Packate, memory: &mut Vec<Packate>, sn: &mut u32) -> (segments: Vec<
    Packate,
>)
    requires
        cuts_on_char_boundaries(to_send.message@),
    ensures
        views(segments@) == segments_of(to_send@, *old(sn)),
        views(final(memory)@) == views(old(memory)@) + segments_of(to_send@, *old(sn)),
        *final(sn) == segment_seq(to_send@, *old(sn), segment_count(to_send.message@.len())),
{
    let ghost p = to_send@;
    let ghost sn0 = *sn;
    let n = to_send.message.len();
    let mut sub = to_send.duplicate();
    let mut segments: Vec<Packate> = Vec::new();
    let mut start: usize = 0;
    while start < n
        invariant
            p == to_send@,
            n == p.message.len(),
            start <= n,
            start < n ==> start == 10 * segments@.len(),
            start == n ==> segments@.len() == segment_count(n as nat),
            views(segments@) =~= segments_of(p, sn0).take(segments@.len() as int),
            segments@.len() <= segment_count(n as nat),
            views(memory@) =~= views(old(memory)@) + views(segments@),
            *sn == segment_seq(p, sn0, segments@.len() as nat),
            sub@ == (PacketView { message: sub@.message, sequence_number: sub@.sequence_number, packate_size: sub@.packate_size, ..p }),
        decreases n - start,
    {
        let ghost k = segments@.len() as int;
        let end = if n - start > MAX_SEGMENT_PAYLOAD {
            start + MAX_SEGMENT_PAYLOAD
        } else {
            n
        };
        assert(k < segment_count(n as nat)) by (nonlinear_arith)
            requires
                start == 10 * k,
                start < n,
        ;
        sub.message = slice_to_vec(slice_subrange(to_send.message.as_slice(), start, end));
        assert(sub.message@ == payload(p.message, k));
        sub.sequence_number = *sn;
        sub.packate_size = size_of_packet(
            &sub.source_ip_address,
            &sub.destination_ip_address,
            &sub.message,
        );
        assert(sub@ == segment(p, sn0, k));
        *sn = crate::packet::add_wrapping(*sn, sub.packate_size);
        let ghost memory_before = memory@;
        let ghost segments_before = segments@;
        memory.push(sub.duplicate());
        segments.push(sub.duplicate());
        assert(views(memory@) =~= views(memory_before).push(sub@));
        assert(views(segments@) =~= views(segments_before).push(sub@));
        start = end;
        assert(start == n ==> segments@.len() == segment_count(n as nat)) by (nonlinear_arith)
            requires
                start == n ==> 10 * k < n <= 10 * k + 10,
                segments@.len() == k + 1,
        ;
    }
    segments
}

} // verus!
