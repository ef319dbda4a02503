//! The 16-bit ones'-complement checksum that a packet carries over its own
//! encoding.
use vstd::arithmetic::div_mod::{lemma_add_mod_noop, lemma_fundamental_div_mod, lemma_mod_multiples_vanish, lemma_small_mod};
use vstd::prelude::*;

verus! {

/// Adds the carries above the low 16 bits back into the low 16 bits until no
/// carry is left: the end-around carry of ones'-complement addition.
pub open spec fn fold_carries(s: nat) -> nat
    decreases s,
{
    if s < 0x10000 {
        s
    } else {
        proof {
            lemma_fundamental_div_mod(s as int, 0x10000);
        }
        fold_carries(s % 0x10000 + s / 0x10000)
    }
}

/// The big-endian 16-bit word made of the bytes at `2 * k` and `2 * k + 1`.
pub open spec fn word_at(data: Seq<u8>, k: int) -> nat {
    (data[2 * k] as nat) * 256 + (data[2 * k + 1] as nat)
}

/// The plain sum of the first `k` big-endian words of `data`.
pub open spec fn sum_of_words(data: Seq<u8>, k: nat) -> nat
    decreases k,
{
    if k == 0 {
        0
    } else {
        sum_of_words(data, (k - 1) as nat) + word_at(data, k - 1)
    }
}

/// The plain sum of all the words of `data`; a last byte left over by an odd
/// length is added as it is, as a value below 256.
pub open spec fn sum_of_bytes(data: Seq<u8>) -> nat {
    sum_of_words(data, data.len() / 2) + if data.len() % 2 == 1 {
        data[data.len() - 1] as nat
    } else {
        0
    }
}

/// The checksum of `data`: the ones' complement of its folded word sum.
pub open spec fn internet_checksum(data: Seq<u8>) -> u16 {
    (0xFFFF - fold_carries(sum_of_bytes(data))) as u16
}

/// What folding keeps: the result fits in 16 bits, is congruent to the input
/// modulo 0xFFFF, and is zero exactly when the input is zero.
pub proof fn lemma_fold_carries(s: nat)
    ensures
        fold_carries(s) < 0x10000,
        fold_carries(s) % 0xFFFF == s % 0xFFFF,
        fold_carries(s) == 0 <==> s == 0,
    decreases s,
{
    if s >= 0x10000 {
        let q = s / 0x10000;
        let t = s % 0x10000 + q;
        lemma_fundamental_div_mod(s as int, 0x10000);
        assert(s == 0xFFFF * q + t);
        lemma_mod_multiples_vanish(q as int, t as int, 0xFFFF);
        lemma_fold_carries(t);
    }
}

/// Folding part of a sum early does not change the folded total.
pub proof fn lemma_fold_absorbs(a: nat, b: nat)
    ensures
        fold_carries(fold_carries(a) + b) == fold_carries(a + b),
{
    let fa = fold_carries(a);
    let x = fold_carries(fa + b);
    let y = fold_carries(a + b);
    lemma_fold_carries(a);
    lemma_fold_carries(fa + b);
    lemma_fold_carries(a + b);
    lemma_add_mod_noop(fa as int, b as int, 0xFFFF);
    lemma_add_mod_noop(a as int, b as int, 0xFFFF);
    assert(x % 0xFFFF == y % 0xFFFF);
    if x < 0xFFFF {
        lemma_small_mod(x, 0xFFFF);
    }
    if y < 0xFFFF {
        lemma_small_mod(y, 0xFFFF);
    }
    assert((0xFFFFnat) % 0xFFFF == 0);
}

/// The first `k` words are the same in `data` and in any longer sequence that
/// begins with it.
proof fn lemma_sum_of_words_prefix(data: Seq<u8>, more: Seq<u8>, k: nat)
    requires
        2 * k <= data.len(),
    ensures
        sum_of_words(data + more, k) == sum_of_words(data, k),
    decreases k,
{
    if k > 0 {
        lemma_sum_of_words_prefix(data, more, (k - 1) as nat);
    }
}

/// The checksum of no data is all ones.
pub proof fn lemma_checksum_of_nothing()
    ensures
        internet_checksum(Seq::empty()) == 0xFFFF,
{
}

/// Appending a big-endian word to data of even length adds the word to the
/// checksummed sum in ones'-complement arithmetic: every word counts.
pub proof fn lemma_checksum_appends_word(data: Seq<u8>, hi: u8, lo: u8)
    requires
        data.len() % 2 == 0,
    ensures
        0xFFFF - internet_checksum(data + seq![hi, lo]) == fold_carries(
            (0xFFFF - internet_checksum(data)) as nat + (hi as nat) * 256 + lo as nat,
        ),
{
    let longer = data + seq![hi, lo];
    let k = data.len() / 2;
    assert(longer.len() / 2 == k + 1);
    lemma_sum_of_words_prefix(data, seq![hi, lo], k);
    assert(word_at(longer, k as int) == (hi as nat) * 256 + lo as nat);
    lemma_fold_carries(sum_of_bytes(data));
    lemma_fold_carries(sum_of_bytes(longer));
    lemma_fold_absorbs(sum_of_bytes(data), (hi as nat) * 256 + lo as nat);
}

/// Appending a last byte to data of even length adds that byte, as a value
/// below 256, to the checksummed sum in ones'-complement arithmetic.
pub proof fn lemma_checksum_appends_last_byte(data: Seq<u8>, b: u8)
    requires
        data.len() % 2 == 0,
    ensures
        0xFFFF - internet_checksum(data.push(b)) == fold_carries(
            (0xFFFF - internet_checksum(data)) as nat + b as nat,
        ),
{
    let longer = data.push(b);
    let k = data.len() / 2;
    assert(longer.len() / 2 == k);
    assert(longer =~= data + seq![b]);
    lemma_sum_of_words_prefix(data, seq![b], k);
    lemma_fold_carries(sum_of_bytes(data));
    lemma_fold_carries(sum_of_bytes(longer));
    lemma_fold_absorbs(sum_of_bytes(data), b as nat);
}

/// Folds every carry of `s` into its low 16 bits.
fn fold_sum(s: u32) -> (r: u32)
    ensures
        r == fold_carries(s as nat),
        r < 0x10000,
{
    let mut sum = s;
    while sum >> 16 != 0
        invariant
            fold_carries(sum as nat) == fold_carries(s as nat),
        decreases sum,
    {
        assert(sum >> 16 == sum / 0x10000) by (bit_vector);
        assert(sum & 0xFFFF == sum % 0x10000) by (bit_vector);
        sum = (sum & 0xFFFF) + (sum >> 16);
    }
    assert(sum >> 16 == 0 ==> sum < 0x10000) by (bit_vector);
    sum
}

/// The 16-bit ones'-complement checksum of `data`, read as big-endian words.
pub fn checksum_of_bytes(data: &[u8]) -> (c: u16)
    ensures
        c == internet_checksum(data@),
{
    let n = data.len();
    let pairs_end = n - n % 2;
    let mut sum: u32 = 0;
    let mut i: usize = 0;
    while i < pairs_end
        invariant
            n == data@.len(),
            pairs_end == n - n % 2,
            i % 2 == 0,
            i <= pairs_end,
            sum < 0x10000,
            sum == fold_carries(sum_of_words(data@, (i / 2) as nat)),
        decreases pairs_end - i,
    {
        let hi = data[i];
        let lo = data[i + 1];
        let word = (hi as u16) << 8 | (lo as u16);
        assert(((hi as u16) << 8 | (lo as u16)) == (hi as u16) * 256 + (lo as u16)) by (bit_vector);
        proof {
            lemma_fold_absorbs(sum_of_words(data@, (i / 2) as nat), word as nat);
            assert(sum_of_words(data@, (i / 2 + 1) as nat) == sum_of_words(data@, (i / 2) as nat)
                + word as nat);
        }
        sum = fold_sum(sum + word as u32);
        i = i + 2;
    }
    if n % 2 != 0 {
        let last = data[n - 1];
        proof {
            lemma_fold_absorbs(sum_of_words(data@, (n / 2) as nat), last as nat);
        }
        sum = fold_sum(sum + (last as u16) as u32);
    }
    let folded = sum as u16;
    assert(!folded == 0xFFFF - folded) by (bit_vector);
    !folded
}

} // verus!
