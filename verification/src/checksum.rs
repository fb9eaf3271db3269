//! Internet checksum (RFC 1071): the one's-complement sum of a byte string
//! read as big-endian 16-bit words, an odd trailing byte padded on the right.

use vstd::prelude::*;

verus! {

/// The big-endian 16-bit word that starts at byte `i`.
pub open spec fn be_word(data: Seq<u8>, i: int) -> nat {
    (data[i] as nat) * 256 + (data[i + 1] as nat)
}

/// Plain (unbounded) sum of the first `k` whole words of `data`.
pub open spec fn words_sum(data: Seq<u8>, k: nat) -> nat
    decreases k,
{
    if k == 0 {
        0
    } else {
        words_sum(data, (k - 1) as nat) + be_word(data, 2 * (k - 1))
    }
}

/// Plain (unbounded) sum of every word of `data`; an odd last byte counts
/// as the high half of a word whose low half is zero.
pub open spec fn ones_sum(data: Seq<u8>) -> nat {
    words_sum(data, data.len() / 2) + if data.len() % 2 == 1 {
        (data[data.len() - 1] as nat) * 256
    } else {
        0
    }
}

/// What `accumulate` returns: the running sum modulo 2^32.
pub open spec fn accumulate_spec(acc: u32, data: Seq<u8>) -> u32 {
    ((acc as nat + ones_sum(data)) % 0x1_0000_0000) as u32
}

/// Carry folding: add the high half into the low half until the value
/// fits in 16 bits.
pub open spec fn fold_spec(x: nat) -> nat
    decreases x,
{
    if x <= 0xffff {
        x
    } else {
        fold_spec(x % 0x10000 + x / 0x10000)
    }
}

/// The folded one's-complement sum of `data`.
pub open spec fn sum_spec(data: Seq<u8>) -> u16 {
    fold_spec(accumulate_spec(0, data) as nat) as u16
}

pub proof fn lemma_fold_bounds(x: nat)
    ensures
        fold_spec(x) <= 0xffff,
        fold_spec(x) % 0xffff == x % 0xffff,
        fold_spec(x) == 0 <==> x == 0,
    decreases x,
{
    if x > 0xffff {
        let y = x % 0x10000 + x / 0x10000;
        assert(x == 0x10000 * (x / 0x10000) + x % 0x10000);
        assert(y < x);
        assert(y > 0);
        lemma_fold_bounds(y);
        assert(x % 0xffff == y % 0xffff) by {
            vstd::arithmetic::div_mod::lemma_fundamental_div_mod(x as int, 0x10000);
            let q = x / 0x10000;
            let r = x % 0x10000;
            assert(x == 0xffff * q + (q + r));
            vstd::arithmetic::div_mod::lemma_mod_multiples_vanish(q as int, (q + r) as int, 0xffff);
        }
    }
}

/// Fold carries until `sum` fits in 16 bits. RFC 1071.
pub fn fold(sum: u32) -> (r: u16)
    ensures
        r as nat == fold_spec(sum as nat),
{
    let mut s: u32 = sum;
    while s > 0xffff
        invariant
            fold_spec(s as nat) == fold_spec(sum as nat),
        decreases s,
    {
        let lo: u32 = s & 0xffff;
        let hi: u32 = s >> 16;
        assert(lo == s % 0x10000 && hi == s / 0x10000) by (bit_vector)
            requires
                lo == s & 0xffff,
                hi == s >> 16,
        ;
        s = lo + hi;
    }
    s as u16
}


/// Appending a word to the counted prefix adds it to the sum.
proof fn lemma_words_sum_step(data: Seq<u8>, k: nat)
    ensures
        words_sum(data, k + 1) == words_sum(data, k) + be_word(data, 2 * k as int),
{
}

/// One's-complement sum of `data` as 16-bit big-endian words, added to
/// `acc` modulo 2^32. Does not fold, so a pseudo-header and a datagram can
/// share one accumulator.
pub fn accumulate(acc: u32, data: &[u8]) -> (r: u32)
    ensures
        r == accumulate_spec(acc, data@),
{
    let mut a: u32 = acc;
    let mut i: usize = 0;
    let n: usize = data.len();
    while i + 1 < n
        invariant
            n == data@.len(),
            i % 2 == 0,
            i <= n,
            a == ((acc as nat + words_sum(data@, (i / 2) as nat)) % 0x1_0000_0000) as u32,
        decreases n - i,
    {
        let w: u32 = (data[i] as u32) * 256 + (data[i + 1] as u32);
        proof {
            lemma_words_sum_step(data@, (i / 2) as nat);
            assert(2 * (i / 2) == i);
            vstd::arithmetic::div_mod::lemma_add_mod_noop(
                acc as int + words_sum(data@, (i / 2) as nat) as int,
                w as int,
                0x1_0000_0000,
            );
            vstd::arithmetic::div_mod::lemma_mod_twice(w as int, 0x1_0000_0000);
        }
        a = a.wrapping_add(w);
        i = i + 2;
        assert(((i - 2) / 2) as nat + 1 == (i / 2) as nat);
    }
    assert(i / 2 == n / 2);
    if i < n {
        let w: u32 = (data[i] as u32) * 256;
        proof {
            vstd::arithmetic::div_mod::lemma_add_mod_noop(
                acc as int + words_sum(data@, (i / 2) as nat) as int,
                w as int,
                0x1_0000_0000,
            );
            vstd::arithmetic::div_mod::lemma_mod_twice(w as int, 0x1_0000_0000);
        }
        a = a.wrapping_add(w);
    }
    a
}

/// One's-complement sum of `data` as 16-bit big-endian words.
pub fn sum(data: &[u8]) -> (r: u16)
    ensures
        r == sum_spec(data@),
{
    fold(accumulate(0, data))
}

/// Value to store in a checksum field: the complement of `sum`, computed
/// with the field itself zeroed in `data`.
pub fn checksum(data: &[u8]) -> (r: u16)
    ensures
        r == 0xffff - sum_spec(data@),
{
    let s = sum(data);
    let r: u16 = !s;
    assert(r == 0xffff - s) by (bit_vector)
        requires
            r == !s,
    ;
    r
}

/// A header or message is valid iff its one's-complement sum is all ones.
pub fn valid(data: &[u8]) -> (r: bool)
    ensures
        r == (sum_spec(data@) == 0xffff),
{
    sum(data) == 0xffff
}


proof fn lemma_words_sum_bound(data: Seq<u8>, k: nat)
    requires
        2 * k <= data.len(),
    ensures
        words_sum(data, k) <= k * 0xffff,
    decreases k,
{
    if k > 0 {
        lemma_words_sum_bound(data, (k - 1) as nat);
    }
}

/// Replacing the word at even offset `j` by `(hi, lo)` changes the sum of
/// any prefix that covers it by the difference of the two words.
proof fn lemma_words_sum_update(data: Seq<u8>, j: int, hi: u8, lo: u8, k: nat)
    requires
        0 <= j,
        j % 2 == 0,
        j + 1 < data.len(),
        2 * k <= data.len(),
    ensures
        ({
            let d2 = data.update(j, hi).update(j + 1, lo);
            words_sum(d2, k) + (if j / 2 < k { be_word(data, j) } else { 0 }) == words_sum(data, k)
                + (if j / 2 < k { (hi as nat) * 256 + lo as nat } else { 0 })
        }),
    decreases k,
{
    if k > 0 {
        lemma_words_sum_update(data, j, hi, lo, (k - 1) as nat);
        let d2 = data.update(j, hi).update(j + 1, lo);
        let m = 2 * (k - 1);
        if m == j {
            assert(be_word(d2, m) == (hi as nat) * 256 + lo as nat);
        } else {
            assert(m + 1 != j && m != j + 1 && m + 1 != j + 1);
            assert(be_word(d2, m) == be_word(data, m));
        }
    }
}

/// Storing a word at an even offset changes the plain sum by the
/// difference between the new word and the old one.
pub proof fn lemma_ones_sum_store(data: Seq<u8>, k: int, hi: u8, lo: u8)
    requires
        0 <= k,
        k % 2 == 0,
        k + 1 < data.len(),
    ensures
        ones_sum(data.update(k, hi).update(k + 1, lo)) + be_word(data, k) == ones_sum(data)
            + (hi as nat) * 256 + lo as nat,
{
    let d2 = data.update(k, hi).update(k + 1, lo);
    let n = data.len();
    lemma_words_sum_update(data, k, hi, lo, n / 2);
    if n % 2 == 1 {
        assert(d2[n - 1] == data[n - 1]);
    }
}

/// Sums of messages up to 64 KiB stay far below 2^32.
pub proof fn lemma_ones_sum_small(data: Seq<u8>)
    requires
        data.len() <= 0x10000,
    ensures
        ones_sum(data) <= 0x8000 * 0xffff,
{
    let half = data.len() / 2;
    lemma_words_sum_bound(data, half);
    assert(half * 0xffff <= 0x8000 * 0xffff) by (nonlinear_arith)
        requires
            half <= 0x8000,
    ;
}

/// Below 128 KiB the plain sum still fits in 32 bits.
pub proof fn lemma_ones_sum_fits(data: Seq<u8>)
    requires
        data.len() < 0x20000,
    ensures
        ones_sum(data) < 0x1_0000_0000,
{
    let half = data.len() / 2;
    lemma_words_sum_bound(data, half);
    assert(half * 0xffff <= 0xffff * 0xffff) by (nonlinear_arith)
        requires
            half <= 0xffff,
    ;
}

/// The first `j` words of `x + y` are those of `x` while they lie in `x`.
proof fn lemma_words_sum_prefix(x: Seq<u8>, y: Seq<u8>, j: nat)
    requires
        2 * j <= x.len(),
    ensures
        words_sum(x + y, j) == words_sum(x, j),
    decreases j,
{
    if j > 0 {
        lemma_words_sum_prefix(x, y, (j - 1) as nat);
        assert((x + y)[2 * (j - 1)] == x[2 * (j - 1)]);
        assert((x + y)[2 * (j - 1) + 1] == x[2 * (j - 1) + 1]);
    }
}

/// Past an even-length `x`, the words of `x + y` are those of `y`.
proof fn lemma_words_sum_concat(x: Seq<u8>, y: Seq<u8>, k: nat)
    requires
        x.len() % 2 == 0,
        2 * k <= y.len(),
    ensures
        words_sum(x + y, (x.len() / 2 + k) as nat) == words_sum(x, x.len() / 2) + words_sum(y, k),
    decreases k,
{
    if k == 0 {
        lemma_words_sum_prefix(x, y, x.len() / 2);
    } else {
        lemma_words_sum_concat(x, y, (k - 1) as nat);
        let m = 2 * (k - 1);
        assert(2 * ((x.len() / 2 + k - 1) as int) == x.len() + m);
        assert((x + y)[x.len() + m] == y[m]);
        assert((x + y)[x.len() + m + 1] == y[m + 1]);
    }
}

/// After an even-length `x`, the plain sum of `x + y` is the sum of the
/// two plain sums.
pub proof fn lemma_ones_sum_concat(x: Seq<u8>, y: Seq<u8>)
    requires
        x.len() % 2 == 0,
    ensures
        ones_sum(x + y) == ones_sum(x) + ones_sum(y),
{
    let n = (x + y).len();
    assert(n / 2 == x.len() / 2 + y.len() / 2);
    lemma_words_sum_concat(x, y, y.len() / 2);
    if y.len() % 2 == 1 {
        assert((x + y)[n - 1] == y[y.len() - 1]);
    }
}

/// Accumulating an even-length piece and then another is accumulating the
/// two joined.
pub proof fn lemma_accumulate_concat(acc: u32, x: Seq<u8>, y: Seq<u8>)
    requires
        x.len() % 2 == 0,
    ensures
        accumulate_spec(accumulate_spec(acc, x), y) == accumulate_spec(acc, x + y),
{
    lemma_ones_sum_concat(x, y);
    vstd::arithmetic::div_mod::lemma_add_mod_noop(acc as int + ones_sum(x), ones_sum(y) as int, 0x1_0000_0000);
    vstd::arithmetic::div_mod::lemma_mod_twice(ones_sum(y) as int, 0x1_0000_0000);
    vstd::arithmetic::div_mod::lemma_add_mod_noop(acc as int + ones_sum(x), 0, 0x1_0000_0000);
    vstd::arithmetic::div_mod::lemma_mod_twice(acc as int + ones_sum(x), 0x1_0000_0000);
}

/// Adding the complement of the folded sum (or all ones in place of a zero
/// complement) to a total makes the folded total all ones.
pub proof fn lemma_fold_complement(t: nat, v: nat)
    requires
        v == 0xffff - fold_spec(t) || (fold_spec(t) == 0xffff && v == 0xffff),
    ensures
        fold_spec(t + v) == 0xffff,
{
    lemma_fold_bounds(t);
    let s = fold_spec(t);
    let t2 = t + v;
    assert(t2 % 0xffff == 0) by {
        vstd::arithmetic::div_mod::lemma_fundamental_div_mod(t as int, 0xffff);
        let q = t / 0xffff;
        if s < 0xffff {
            vstd::arithmetic::div_mod::lemma_small_mod(s, 0xffff);
            assert(t2 == 0xffff * (q + 1));
            vstd::arithmetic::div_mod::lemma_mod_multiples_basic((q + 1) as int, 0xffff);
            assert(0xffff * (q + 1) == (q + 1) * 0xffff) by (nonlinear_arith);
        } else {
            if v == 0 {
                assert(t2 == 0xffff * q);
                vstd::arithmetic::div_mod::lemma_mod_multiples_basic(q as int, 0xffff);
                assert(0xffff * q == q * 0xffff) by (nonlinear_arith);
            } else {
                assert(t2 == 0xffff * (q + 1));
                vstd::arithmetic::div_mod::lemma_mod_multiples_basic((q + 1) as int, 0xffff);
                assert(0xffff * (q + 1) == (q + 1) * 0xffff) by (nonlinear_arith);
            }
        }
    }
    assert(t2 > 0);
    lemma_fold_bounds(t2);
}

/// A message whose checksum field (two zero bytes at an even offset) is
/// filled with `checksum` of the message verifies: its one's-complement sum
/// is all ones. Below 128 KiB the 32-bit accumulator cannot wrap.
pub proof fn lemma_checksum_stored_verifies(data: Seq<u8>, k: int)
    requires
        0 <= k,
        k % 2 == 0,
        k + 1 < data.len(),
        data.len() < 0x20000,
        data[k] == 0,
        data[k + 1] == 0,
    ensures
        ({
            let c = 0xffff - sum_spec(data);
            sum_spec(data.update(k, (c / 256) as u8).update(k + 1, (c % 256) as u8)) == 0xffff
        }),
{
    let c: int = 0xffff - sum_spec(data);
    let hi = (c / 256) as u8;
    let lo = (c % 256) as u8;
    let d2 = data.update(k, hi).update(k + 1, lo);
    lemma_ones_sum_fits(data);
    lemma_ones_sum_fits(d2);
    lemma_ones_sum_store(data, k, hi, lo);
    lemma_fold_bounds(ones_sum(data));
    assert(ones_sum(d2) == ones_sum(data) + c);
    lemma_fold_complement(ones_sum(data), c as nat);
}


/// The 12-byte IPv4 pseudo-header of RFC 768 / RFC 793: source, destination,
/// a zero byte, the protocol number and the transport length.
pub open spec fn pseudo_header_spec(src: Seq<u8>, dst: Seq<u8>, proto: u8, len: u16) -> Seq<u8> {
    src + dst + seq![0u8, proto, (len / 256) as u8, (len % 256) as u8]
}

/// The folded sum of a pseudo-header followed by a transport segment, as
/// two `accumulate` calls sharing one accumulator compute it.
pub open spec fn transport_sum_spec(pseudo: Seq<u8>, seg: Seq<u8>) -> u16 {
    fold_spec((ones_sum(pseudo) + ones_sum(seg)) % 0x1_0000_0000) as u16
}

pub proof fn lemma_accumulate_chain(a: Seq<u8>, b: Seq<u8>)
    ensures
        accumulate_spec(accumulate_spec(0, a), b) == ((ones_sum(a) + ones_sum(b))
            % 0x1_0000_0000) as u32,
{
    vstd::arithmetic::div_mod::lemma_add_mod_noop(ones_sum(a) as int, ones_sum(b) as int, 0x1_0000_0000);
    vstd::arithmetic::div_mod::lemma_mod_twice(ones_sum(b) as int, 0x1_0000_0000);
}

/// Fold of the pseudo-header and segment sums.
pub fn transport_sum(pseudo: &[u8], seg: &[u8]) -> (r: u16)
    ensures
        r == transport_sum_spec(pseudo@, seg@),
{
    proof {
        lemma_accumulate_chain(pseudo@, seg@);
    }
    fold(accumulate(accumulate(0, pseudo), seg))
}

/// A segment whose checksum field (two zero bytes at an even offset) is
/// filled with the complement of the pseudo-header-plus-segment sum, or
/// with all ones where that complement is zero, verifies against the same
/// pseudo-header. Holds for segments up to 64 KiB behind a 12-byte
/// pseudo-header.
pub proof fn lemma_transport_stored_verifies(pseudo: Seq<u8>, seg: Seq<u8>, k: int, v: u16)
    requires
        pseudo.len() == 12,
        0 <= k,
        k % 2 == 0,
        k + 1 < seg.len(),
        seg.len() <= 0x10000,
        seg[k] == 0,
        seg[k + 1] == 0,
        v == 0xffff - transport_sum_spec(pseudo, seg) || (transport_sum_spec(pseudo, seg)
            == 0xffff && v == 0xffff),
    ensures
        transport_sum_spec(pseudo, seg.update(k, (v / 256) as u8).update(k + 1, (v % 256) as u8))
            == 0xffff,
{
    let hi = (v / 256) as u8;
    let lo = (v % 256) as u8;
    let s2 = seg.update(k, hi).update(k + 1, lo);
    lemma_ones_sum_small(pseudo);
    lemma_ones_sum_small(seg);
    lemma_ones_sum_small(s2);
    lemma_ones_sum_store(seg, k, hi, lo);
    let t = ones_sum(pseudo) + ones_sum(seg);
    assert(t < 0x1_0000_0000);
    assert(ones_sum(pseudo) + ones_sum(s2) == t + v);
    lemma_fold_bounds(t);
    lemma_fold_complement(t, v as nat);
}

} // verus!
