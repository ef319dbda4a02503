//! Putting received segments back in order and reading the message they carry.
use crate::packet::{add32, views, Packate, PacketView};
use crate::segment::{
    concat_messages, lemma_segments_carry_message, payload, segment_count, segment_seq, segment_size,
    segments_of,
};
use crate::packet::MINIMUM_PACKET_SIZE;
use vstd::prelude::*;

verus! {

/// Whether `perm` lists each index below `n` exactly once.
pub open spec fn is_permutation(perm: Seq<int>, n: nat) -> bool {
    &&& perm.len() == n
    &&& forall|i: int| 0 <= i < n ==> 0 <= #[trigger] perm[i] < n
    &&& forall|i: int, j: int|
        0 <= i < n && 0 <= j < n && i != j ==> #[trigger] perm[i] != #[trigger] perm[j]
}

/// The items of `s` in the order that `perm` lists their indices.
pub open spec fn permuted<A>(s: Seq<A>, perm: Seq<int>) -> Seq<A> {
    Seq::new(perm.len(), |i: int| s[perm[i]])
}

/// Whether the sequence numbers of `s` never go down.
pub open spec fn sorted_by_sequence(s: Seq<PacketView>) -> bool {
    forall|i: int, j: int|
        0 <= i < j < s.len() ==> #[trigger] s[i].sequence_number <= #[trigger] s[j].sequence_number
}

/// Whether `perm` keeps packets of `s` with equal sequence numbers in the order
/// they had.
pub open spec fn keeps_order_of_ties(s: Seq<PacketView>, perm: Seq<int>) -> bool {
    forall|i: int, j: int|
        0 <= i < j < perm.len() && s[perm[i]].sequence_number == s[perm[j]].sequence_number
            ==> #[trigger] perm[i] < #[trigger] perm[j]
}

/// Whether `perm` sorts `s` by sequence number, stably.
pub open spec fn sorts_stably(s: Seq<PacketView>, perm: Seq<int>) -> bool {
    &&& is_permutation(perm, s.len())
    &&& sorted_by_sequence(permuted(s, perm))
    &&& keeps_order_of_ties(s, perm)
}

/// Whether each packet of `s` but the last is followed by the one whose
/// sequence number its own plus its size gives, wrapping at 2^32.
pub open spec fn is_contiguous(s: Seq<PacketView>) -> bool {
    forall|i: int|
        0 <= i < s.len() - 1 ==> add32(
            #[trigger] s[i].sequence_number as int,
            s[i].packate_size as int,
        ) == s[i + 1].sequence_number
}

/// What reading a batch `s` of received packets gives, once `perm` has sorted
/// it: code 0 and the messages in order when no packet is missing, else code
/// 255 and nothing.
pub open spec fn reading(s: Seq<PacketView>, perm: Seq<int>, code: u8, text: Seq<u8>) -> bool {
    let sorted = permuted(s, perm);
    &&& sorts_stably(s, perm)
    &&& code == (if is_contiguous(sorted) {
        0u8
    } else {
        255u8
    })
    &&& text == (if is_contiguous(sorted) {
        concat_messages(sorted)
    } else {
        Seq::empty()
    })
}

/// The order that sorts `s` by sequence number stably; there is exactly one
/// (see `lemma_stable_sort_unique`).
pub open spec fn stable_order(s: Seq<PacketView>) -> Seq<int> {
    choose|perm: Seq<int>| sorts_stably(s, perm)
}

/// Sorts `vec` by sequence number with adjacent exchanges, keeping packets
/// with equal sequence numbers in the order they came.
pub fn sort_by_sequence_number(vec: &mut Vec<Packate>)
    ensures
        sorts_stably(views(old(vec)@), stable_order(views(old(vec)@))),
        views(final(vec)@) == permuted(views(old(vec)@), stable_order(views(old(vec)@))),
{
    let ghost input = views(vec@);
    let ghost mut perm: Seq<int> = Seq::new(vec@.len(), |i: int| i);
    let len = vec.len();
    assert(views(vec@) =~= permuted(input, perm));
    let mut i: usize = 0;
    while i < len
        invariant
            vec@.len() == len,
            input.len() == len,
            i <= len,
            is_permutation(perm, len as nat),
            views(vec@) == permuted(input, perm),
            keeps_order_of_ties(input, perm),
            forall|a: int, b: int|
                len - i <= a < b < len ==> #[trigger] vec@[a].sequence_number
                    <= #[trigger] vec@[b].sequence_number,
            forall|a: int, b: int|
                0 <= a < len - i <= b < len ==> #[trigger] vec@[a].sequence_number
                    <= #[trigger] vec@[b].sequence_number,
        decreases len - i,
    {
        let mut j: usize = 0;
        while j < len - i - 1
            invariant
                vec@.len() == len,
                input.len() == len,
                i < len,
                j <= len - i - 1,
                is_permutation(perm, len as nat),
                views(vec@) == permuted(input, perm),
                keeps_order_of_ties(input, perm),
                forall|a: int, b: int|
                    len - i <= a < b < len ==> #[trigger] vec@[a].sequence_number
                        <= #[trigger] vec@[b].sequence_number,
                forall|a: int, b: int|
                    0 <= a < len - i <= b < len ==> #[trigger] vec@[a].sequence_number
                        <= #[trigger] vec@[b].sequence_number,
                forall|a: int| 0 <= a < j ==> #[trigger] vec@[a].sequence_number <= vec@[j as int].sequence_number,
            decreases len - i - 1 - j,
        {
            if vec[j].sequence_number > vec[j + 1].sequence_number {
                let ghost before = vec@;
                let ghost old_perm = perm;
                let later = vec.remove(j + 1);
                vec.insert(j, later);
                proof {
                    perm = old_perm.update(j as int, old_perm[j + 1]).update(j + 1, old_perm[j as int]);
                    assert(vec@ =~= before.update(j as int, before[j + 1]).update(j + 1, before[j as int]));
                    assert forall|k: int| 0 <= k < len implies #[trigger] views(vec@)[k]
                        == permuted(input, perm)[k] by {
                        let pk = if k == j { j + 1 } else if k == j + 1 { j as int } else { k };
                        assert(vec@[k] == before[pk]);
                        assert(views(before)[pk] == permuted(input, old_perm)[pk]);
                    }
                    assert(views(vec@) =~= permuted(input, perm));
                    assert forall|a: int, b: int|
                        0 <= a < b < perm.len() && input[perm[a]].sequence_number
                            == input[perm[b]].sequence_number implies #[trigger] perm[a]
                        < #[trigger] perm[b] by {
                        let pa = if a == j { j + 1 } else if a == j + 1 { j as int } else { a };
                        let pb = if b == j { j + 1 } else if b == j + 1 { j as int } else { b };
                        assert(perm[a] == old_perm[pa]);
                        assert(perm[b] == old_perm[pb]);
                        assert(views(before)[pa] == input[old_perm[pa]]);
                        assert(views(before)[pb] == input[old_perm[pb]]);
                        if pa < pb {
                        } else {
                            assert(a == j && b == j + 1);
                        }
                    }
                }
            }
            j = j + 1;
        }
        i = i + 1;
    }
    assert(sorted_by_sequence(permuted(input, perm))) by {
        assert forall|a: int, b: int| 0 <= a < b < len implies #[trigger] permuted(input, perm)[a].sequence_number
            <= #[trigger] permuted(input, perm)[b].sequence_number by {
            assert(views(vec@)[a] == permuted(input, perm)[a]);
            assert(views(vec@)[b] == permuted(input, perm)[b]);
        }
    }
    assert(sorts_stably(input, perm));
    proof {
        lemma_stable_sort_unique(input, perm, stable_order(input));
    }
}

/// An injective map from the indices below `n` to the numbers below `m`
/// needs `n <= m`.
proof fn lemma_injection_bound(q: Seq<int>, n: nat, m: int)
    requires
        m >= 0,
        q.len() == n,
        forall|i: int| 0 <= i < n ==> 0 <= #[trigger] q[i] < m,
        forall|i: int, j: int| 0 <= i < n && 0 <= j < n && i != j ==> #[trigger] q[i] != #[trigger] q[j],
    ensures
        n <= m,
    decreases n,
{
    if n > 0 {
        let last = q[n - 1];
        assert(0 <= last < m);
        let smaller = Seq::new((n - 1) as nat, |i: int| if q[i] < last { q[i] } else { q[i] - 1 });
        assert forall|i: int, j: int|
            0 <= i < n - 1 && 0 <= j < n - 1 && i != j implies #[trigger] smaller[i] != #[trigger] smaller[j] by {
            assert(q[i] != q[j]);
            assert(q[i] != last && q[j] != last);
        }
        assert forall|i: int| 0 <= i < n - 1 implies 0 <= #[trigger] smaller[i] < m - 1 by {
            assert(q[i] != last);
        }
        lemma_injection_bound(smaller, (n - 1) as nat, m - 1);
    }
}

/// A permutation lists every index below `n`.
pub proof fn lemma_permutation_onto(p: Seq<int>, n: nat, x: int)
    requires
        is_permutation(p, n),
        0 <= x < n,
    ensures
        exists|i: int| 0 <= i < n && #[trigger] p[i] == x,
{
    if !(exists|i: int| 0 <= i < n && #[trigger] p[i] == x) {
        let q = Seq::new(n, |i: int| if p[i] < x { p[i] } else { p[i] - 1 });
        assert forall|i: int, j: int|
            0 <= i < n && 0 <= j < n && i != j implies #[trigger] q[i] != #[trigger] q[j] by {
            assert(p[i] != p[j]);
            assert(p[i] != x && p[j] != x);
        }
        assert forall|i: int| 0 <= i < n implies 0 <= #[trigger] q[i] < n - 1 by {
            assert(p[i] != x);
        }
        lemma_injection_bound(q, n, n - 1);
    }
}

/// In a stable sort, a packet comes before another exactly when its sequence
/// number is smaller, or equal and it came first.
proof fn lemma_stable_order(s: Seq<PacketView>, p: Seq<int>, i: int, j: int)
    requires
        sorts_stably(s, p),
        0 <= i < j < p.len(),
    ensures
        s[p[i]].sequence_number < s[p[j]].sequence_number || (s[p[i]].sequence_number
            == s[p[j]].sequence_number && p[i] < p[j]),
{
    assert(permuted(s, p)[i] == s[p[i]]);
    assert(permuted(s, p)[j] == s[p[j]]);
}

/// Two stable sorts of one batch agree on the first `i + 1` places.
proof fn lemma_stable_sorts_agree(s: Seq<PacketView>, p1: Seq<int>, p2: Seq<int>, i: int)
    requires
        sorts_stably(s, p1),
        sorts_stably(s, p2),
        0 <= i < s.len(),
    ensures
        forall|k: int| 0 <= k <= i ==> #[trigger] p1[k] == p2[k],
    decreases i,
{
    let n = s.len();
    if i > 0 {
        lemma_stable_sorts_agree(s, p1, p2, i - 1);
    }
    let x = p1[i];
    let y = p2[i];
    if x != y {
        lemma_permutation_onto(p1, n, y);
        lemma_permutation_onto(p2, n, x);
        let j = choose|j: int| 0 <= j < n && #[trigger] p1[j] == y;
        let k = choose|k: int| 0 <= k < n && #[trigger] p2[k] == x;
        if j < i {
            assert(p2[j] == y);
        }
        if k < i {
            assert(p1[k] == x);
        }
        lemma_stable_order(s, p1, i, j);
        lemma_stable_order(s, p2, i, k);
    }
}

/// A batch has only one stable sort by sequence number: what reading it gives
/// is determined by the batch alone.
pub proof fn lemma_stable_sort_unique(s: Seq<PacketView>, p1: Seq<int>, p2: Seq<int>)
    requires
        sorts_stably(s, p1),
        sorts_stably(s, p2),
    ensures
        p1 == p2,
{
    if s.len() > 0 {
        lemma_stable_sorts_agree(s, p1, p2, s.len() - 1);
    }
    assert(p1 =~= p2);
}

/// Whether no two packets of `s` carry the same sequence number.
pub open spec fn distinct_sequence_numbers(s: Seq<PacketView>) -> bool {
    forall|i: int, j: int|
        0 <= i < s.len() && 0 <= j < s.len() && i != j ==> #[trigger] s[i].sequence_number
            != #[trigger] s[j].sequence_number
}

/// The order in which packets arrive does not change what a batch reads as,
/// when no two carry the same sequence number: a batch shuffled by any
/// permutation `q` sorts into the same packets, so reading it gives the same
/// code and text.
pub proof fn lemma_arrival_order_irrelevant(
    s: Seq<PacketView>,
    q: Seq<int>,
    p1: Seq<int>,
    p2: Seq<int>,
)
    requires
        distinct_sequence_numbers(s),
        is_permutation(q, s.len()),
        sorts_stably(s, p1),
        sorts_stably(permuted(s, q), p2),
    ensures
        permuted(permuted(s, q), p2) == permuted(s, p1),
        forall|code: u8, text: Seq<u8>|
            #[trigger] reading(permuted(s, q), p2, code, text) <==> reading(s, p1, code, text),
{
    let n = s.len();
    let t = permuted(s, q);
    let c = Seq::new(n, |i: int| q[p2[i]]);
    assert forall|i: int| 0 <= i < n implies #[trigger] permuted(t, p2)[i] == permuted(s, c)[i] by {}
    assert(permuted(t, p2) =~= permuted(s, c));
    assert(is_permutation(c, n));
    assert forall|i: int, j: int|
        0 <= i < j < c.len() && s[c[i]].sequence_number == s[c[j]].sequence_number implies #[trigger] c[i]
        < #[trigger] c[j] by {
        assert(c[i] != c[j]);
    }
    assert(sorts_stably(s, c));
    lemma_stable_sort_unique(s, c, p1);
}

/// Reading a batch gives code 0 exactly when, after sorting, every packet but
/// the last is followed by the one whose sequence number its own plus its size
/// gives (wrapping at 2^32); any single break anywhere makes it code 255 with
/// no text.
pub proof fn lemma_reading_detects_every_gap(
    s: Seq<PacketView>,
    perm: Seq<int>,
    code: u8,
    text: Seq<u8>,
)
    requires
        reading(s, perm, code, text),
    ensures
        code == 0 <==> forall|i: int|
            0 <= i < s.len() - 1 ==> add32(
                #[trigger] permuted(s, perm)[i].sequence_number as int,
                permuted(s, perm)[i].packate_size as int,
            ) == permuted(s, perm)[i + 1].sequence_number,
        code == 0 || code == 255,
        code == 255 ==> text.len() == 0,
        (exists|i: int|
            0 <= i < s.len() - 1 && add32(
                #[trigger] permuted(s, perm)[i].sequence_number as int,
                permuted(s, perm)[i].packate_size as int,
            ) != permuted(s, perm)[i + 1].sequence_number) ==> code == 255 && text.len() == 0,
{
    assert(permuted(s, perm).len() == s.len());
}

/// The messages of two batches one after the other are the messages of the
/// first followed by those of the second.
pub proof fn lemma_concat_messages_split(s1: Seq<PacketView>, s2: Seq<PacketView>)
    ensures
        concat_messages(s1 + s2) == concat_messages(s1) + concat_messages(s2),
    decreases s2.len(),
{
    if s2.len() == 0 {
        assert(s1 + s2 =~= s1);
        assert(concat_messages(s1) + Seq::<u8>::empty() =~= concat_messages(s1));
    } else {
        lemma_concat_messages_split(s1, s2.drop_last());
        assert((s1 + s2).drop_last() =~= s1 + s2.drop_last());
        assert(concat_messages(s1) + concat_messages(s2.drop_last()) + s2.last().message
            =~= concat_messages(s1) + (concat_messages(s2.drop_last()) + s2.last().message));
    }
}

/// The messages of a single packet are its message.
pub proof fn lemma_concat_messages_single(p: PacketView)
    ensures
        concat_messages(seq![p]) == p.message,
{
    assert(seq![p].drop_last() =~= Seq::<PacketView>::empty());
    assert(concat_messages(Seq::<PacketView>::empty()) == Seq::<u8>::empty());
    assert(seq![p].last() == p);
    assert(Seq::<u8>::empty() + p.message =~= p.message);
}

/// Appends the bytes of `src` to `dst`.
pub fn append_bytes(dst: &mut Vec<u8>, src: &Vec<u8>)
    ensures
        final(dst)@ == old(dst)@ + src@,
{
    dst.extend_from_slice(src.as_slice());
    assert(final(dst)@ =~= old(dst)@ + src@);
}

/// Reads a batch of received packets: sorts it by sequence number, checks that
/// no packet is missing between the first and the last, and empties it. The
/// result is code 0 and the messages one after the other, or code 255 and no
/// text when a packet is missing.
pub fn print_messages(vec: &mut Vec<Packate>) -> (result: (u8, Vec<u8>))
    requires
        old(vec).len() > 0,
    ensures
        final(vec)@.len() == 0,
        reading(views(old(vec)@), stable_order(views(old(vec)@)), result.0, result.1@),
{
    let ghost input = views(vec@);
    sort_by_sequence_number(vec);
    let ghost perm = stable_order(input);
    let ghost sorted = permuted(input, perm);
    assert(sorts_stably(input, perm) && views(vec@) == sorted);
    assert(vec@.len() == views(vec@).len());
    let len = vec.len();
    let mut i: usize = 0;
    while i < len - 1
        invariant
            len == vec@.len(),
            len > 0,
            i <= len - 1,
            sorts_stably(input, perm),
            perm == stable_order(input),
            sorted == permuted(input, perm),
            input == views(old(vec)@),
            views(vec@) == sorted,
            forall|k: int|
                0 <= k < i ==> add32(
                    #[trigger] sorted[k].sequence_number as int,
                    sorted[k].packate_size as int,
                ) == sorted[k + 1].sequence_number,
        decreases len - 1 - i,
    {
        assert(views(vec@)[i as int] == vec@[i as int]@);
        assert(views(vec@)[i + 1] == vec@[i + 1]@);
        assert(sorted[i as int] == vec@[i as int]@);
        assert(sorted[i + 1] == vec@[i + 1]@);
        let next = crate::packet::add_wrapping(vec[i].sequence_number, vec[i].packate_size);
        if next != vec[i + 1].sequence_number {
            vec.clear();
            assert(add32(sorted[i as int].sequence_number as int, sorted[i as int].packate_size as int)
                == next);
            assert(!is_contiguous(sorted));
            let result = (255u8, Vec::new());
            assert(result.1@ =~= Seq::<u8>::empty());
            assert(reading(views(old(vec)@), perm, result.0, result.1@));
            return result;
        }
        i = i + 1;
    }
    assert(is_contiguous(sorted));
    let mut text: Vec<u8> = Vec::new();
    let mut k: usize = 0;
    while k < len
        invariant
            len == vec@.len(),
            k <= len,
            views(vec@) == sorted,
            text@ == concat_messages(sorted.take(k as int)),
        decreases len - k,
    {
        assert(views(vec@)[k as int] == vec@[k as int]@);
        append_bytes(&mut text, &vec[k].message);
        assert(sorted.take(k + 1).drop_last() =~= sorted.take(k as int));
        k = k + 1;
    }
    assert(sorted.take(len as int) =~= sorted);
    vec.clear();
    assert(reading(input, perm, 0u8, text@));
    let result = (0u8, text);
    assert(reading(views(old(vec)@), perm, result.0, result.1@));
    result
}

/// The size of the `k`-th segment of `p` before any wrapping at 2^32.
pub open spec fn raw_segment_size(p: PacketView, k: int) -> int {
    MINIMUM_PACKET_SIZE + p.source_ip_address.len() + p.destination_ip_address.len() + payload(
        p.message,
        k,
    ).len()
}

/// How far the `k`-th segment of `p` lies past the first in sequence numbers,
/// before any wrapping at 2^32.
pub open spec fn raw_offset(p: PacketView, k: nat) -> int
    decreases k,
{
    if k == 0 {
        0
    } else {
        raw_offset(p, (k - 1) as nat) + raw_segment_size(p, k - 1)
    }
}

/// Offsets grow with the index.
proof fn lemma_raw_offset_grows(p: PacketView, j: nat, k: nat)
    requires
        j < k,
    ensures
        raw_offset(p, j) + MINIMUM_PACKET_SIZE <= raw_offset(p, k),
    decreases k,
{
    if j + 1 < k {
        lemma_raw_offset_grows(p, j, (k - 1) as nat);
    }
}

/// While no sequence number wraps, the `k`-th segment is numbered its offset
/// past the first.
proof fn lemma_segment_seq_unwrapped(p: PacketView, sn: u32, k: nat)
    requires
        sn + raw_offset(p, k) < 0x1_0000_0000,
    ensures
        segment_seq(p, sn, k) == sn + raw_offset(p, k),
    decreases k,
{
    if k > 0 {
        lemma_raw_offset_grows(p, (k - 1) as nat, k);
        lemma_segment_seq_unwrapped(p, sn, (k - 1) as nat);
        assert(segment_size(p, k - 1) == raw_segment_size(p, k - 1));
    }
}

/// A permutation that never goes down lists the indices in order.
proof fn lemma_increasing_permutation(c: Seq<int>, n: nat, i: int)
    requires
        is_permutation(c, n),
        forall|a: int, b: int| 0 <= a < b < n ==> #[trigger] c[a] < #[trigger] c[b],
        0 <= i < n,
    ensures
        c[i] == i,
{
    lemma_permutation_at_least(c, n, i);
    lemma_permutation_at_most(c, n, i);
}

proof fn lemma_permutation_at_least(c: Seq<int>, n: nat, i: int)
    requires
        is_permutation(c, n),
        forall|a: int, b: int| 0 <= a < b < n ==> #[trigger] c[a] < #[trigger] c[b],
        0 <= i < n,
    ensures
        c[i] >= i,
    decreases i,
{
    if i > 0 {
        lemma_permutation_at_least(c, n, i - 1);
        assert(c[i - 1] < c[i]);
    }
}

proof fn lemma_permutation_at_most(c: Seq<int>, n: nat, i: int)
    requires
        is_permutation(c, n),
        forall|a: int, b: int| 0 <= a < b < n ==> #[trigger] c[a] < #[trigger] c[b],
        0 <= i < n,
    ensures
        c[i] <= i,
    decreases n - i,
{
    if i + 1 < n {
        lemma_permutation_at_most(c, n, i + 1);
        assert(c[i] < c[i + 1]);
    }
}

/// Segments arrive in any order and are read back as the message they were cut
/// from: reading all the segments of a non-empty message, shuffled by any
/// permutation `order`, gives code 0 and the message, as long as the last
/// segment's sequence number did not wrap around 2^32.
pub proof fn lemma_reassembly(
    p: PacketView,
    sn: u32,
    order: Seq<int>,
    perm: Seq<int>,
    code: u8,
    text: Seq<u8>,
)
    requires
        p.message.len() > 0,
        sn + raw_offset(p, (segment_count(p.message.len()) - 1) as nat) < 0x1_0000_0000,
        is_permutation(order, segment_count(p.message.len())),
        reading(permuted(segments_of(p, sn), order), perm, code, text),
    ensures
        code == 0,
        text == p.message,
{
    let n = segment_count(p.message.len());
    let segs = segments_of(p, sn);
    let shuffled = permuted(segs, order);
    let sorted = permuted(shuffled, perm);
    let c = Seq::new(n, |i: int| order[perm[i]]);
    assert(n >= 1) by (nonlinear_arith)
        requires
            n == (p.message.len() + 9) / 10,
            p.message.len() > 0,
    ;
    assert forall|k: int| 0 <= k < n implies #[trigger] segs[k].sequence_number == sn + raw_offset(
        p,
        k as nat,
    ) by {
        if k < n - 1 {
            lemma_raw_offset_grows(p, k as nat, (n - 1) as nat);
        }
        lemma_segment_seq_unwrapped(p, sn, k as nat);
    }
    assert forall|a: int, b: int| 0 <= a < b < n implies #[trigger] segs[a].sequence_number
        < #[trigger] segs[b].sequence_number by {
        lemma_raw_offset_grows(p, a as nat, b as nat);
    }
    assert(is_permutation(c, n));
    assert forall|i: int| 0 <= i < n implies #[trigger] sorted[i] == segs[c[i]] by {}
    assert forall|a: int, b: int| 0 <= a < b < n implies #[trigger] c[a] < #[trigger] c[b] by {
        assert(sorted[a].sequence_number <= sorted[b].sequence_number);
        assert(sorted[a] == segs[c[a]]);
        assert(sorted[b] == segs[c[b]]);
        if c[b] < c[a] {
            assert(segs[c[b]].sequence_number < segs[c[a]].sequence_number);
        }
    }
    assert forall|i: int| 0 <= i < n implies #[trigger] sorted[i] == segs[i] by {
        lemma_increasing_permutation(c, n, i);
    }
    assert(sorted =~= segs);
    lemma_segments_carry_message(p, sn);
}

} // verus!
