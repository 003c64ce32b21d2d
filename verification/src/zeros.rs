//! Framing the binary file of zeros, and sampling the zeros evenly.
//!
//! The file starts with a 4-byte header, followed by 32-bit little-endian
//! words, each the bit pattern of one ordinate of a zero; a trailing
//! incomplete word is ignored. After filtering, sorting and removing
//! near-duplicates, `n_zeros` of the ordinates are taken at an even stride
//! from the start.

use vstd::prelude::*;

verus! {

/// Size of the header that precedes the words.
pub const HEADER_LEN: usize = 4;

/// The 32-bit value of four bytes read least significant first.
pub open spec fn le_word(b0: u8, b1: u8, b2: u8, b3: u8) -> int {
    b0 + 256 * b1 + 65536 * b2 + 16777216 * b3
}

/// Word `k` after the header of `data`.
pub open spec fn word_at(data: Seq<u8>, k: int) -> int {
    le_word(data[4 + 4 * k], data[5 + 4 * k], data[6 + 4 * k], data[7 + 4 * k])
}

/// Splits what follows the header into little-endian words, dropping an
/// incomplete last word.
pub fn decode_le_words(data: &Vec<u8>) -> (words: Vec<u32>)
    requires
        data.len() >= HEADER_LEN,
    ensures
        words.len() == (data.len() - 4) / 4,
        forall|k: int| 0 <= k < words.len() ==> #[trigger] words@[k] == word_at(data@, k),
        forall|k: int|
            0 <= k < words.len() ==> #[trigger] words@[k] == data@[4 + 4 * k] as int + 256 * (data@[5 + 4 * k] as int)
                + 65536 * (data@[6 + 4 * k] as int) + 16777216 * (data@[7 + 4 * k] as int),
        forall|k: int|
            0 <= k < words.len() ==> {
                &&& #[trigger] words@[k] % 256 == data@[4 + 4 * k]
                &&& (words@[k] / 256) % 256 == data@[5 + 4 * k]
                &&& (words@[k] / 65536) % 256 == data@[6 + 4 * k]
                &&& words@[k] / 16777216 == data@[7 + 4 * k]
            },
{
    let count = (data.len() - HEADER_LEN) / 4;
    let mut words: Vec<u32> = Vec::new();
    let mut k: usize = 0;
    while k < count
        invariant
            data.len() >= 4,
            count == (data.len() - 4) / 4,
            k <= count,
            words.len() == k,
            forall|m: int| 0 <= m < k ==> #[trigger] words@[m] == word_at(data@, m),
        decreases count - k,
    {
        let base = HEADER_LEN + 4 * k;
        assert(base + 3 < data.len()) by {
            assert(4 * (k + 1) <= 4 * count);
            vstd::arithmetic::div_mod::lemma_fundamental_div_mod((data.len() - 4) as int, 4);
        }
        let b0 = data[base] as u32;
        let b1 = data[base + 1] as u32;
        let b2 = data[base + 2] as u32;
        let b3 = data[base + 3] as u32;
        let w = b0 + 256 * b1 + 65536 * b2 + 16777216 * b3;
        words.push(w);
        k = k + 1;
    }
    assert forall|k: int| 0 <= k < words.len() implies {
        &&& #[trigger] words@[k] % 256 == data@[4 + 4 * k]
        &&& (words@[k] / 256) % 256 == data@[5 + 4 * k]
        &&& (words@[k] / 65536) % 256 == data@[6 + 4 * k]
        &&& words@[k] / 16777216 == data@[7 + 4 * k]
    } by {
        lemma_word_gives_back_bytes(data@[4 + 4 * k], data@[5 + 4 * k], data@[6 + 4 * k], data@[7 + 4 * k]);
    }
    words
}

/// A word decoded from four bytes gives the same four bytes back, least
/// significant first, each in `0..256`: the bytes are read unsigned, and no
/// byte leaks into another.
pub proof fn lemma_word_gives_back_bytes(b0: u8, b1: u8, b2: u8, b3: u8)
    ensures
        0 <= le_word(b0, b1, b2, b3) < 4294967296,
        le_word(b0, b1, b2, b3) == b0 as int + 256 * (b1 as int) + 65536 * (b2 as int) + 16777216 * (b3 as int),
        le_word(b0, b1, b2, b3) % 256 == b0,
        (le_word(b0, b1, b2, b3) / 256) % 256 == b1,
        (le_word(b0, b1, b2, b3) / 65536) % 256 == b2,
        le_word(b0, b1, b2, b3) / 16777216 == b3,
{
    let w = b0 as int + 256 * (b1 as int) + 65536 * (b2 as int) + 16777216 * (b3 as int);
    let r1 = b1 as int + 256 * (b2 as int) + 65536 * (b3 as int);
    let r2 = b2 as int + 256 * (b3 as int);
    assert(w == r1 * 256 + b0);
    vstd::arithmetic::div_mod::lemma_fundamental_div_mod_converse(w, 256, r1, b0 as int);
    assert(r1 == r2 * 256 + b1);
    vstd::arithmetic::div_mod::lemma_fundamental_div_mod_converse(r1, 256, r2, b1 as int);
    assert(w == r2 * 65536 + (b0 + 256 * b1));
    vstd::arithmetic::div_mod::lemma_fundamental_div_mod_converse(w, 65536, r2, b0 + 256 * b1);
    vstd::arithmetic::div_mod::lemma_fundamental_div_mod_converse(r2, 256, b3 as int, b2 as int);
    assert(w == (b3 as int) * 16777216 + (b0 + 256 * b1 + 65536 * b2));
    vstd::arithmetic::div_mod::lemma_fundamental_div_mod_converse(w, 16777216, b3 as int, b0 + 256 * b1 + 65536 * b2);
}

/// The stride at which `n_zeros` values are taken from `len` ones.
pub open spec fn sample_stride(len: int, n_zeros: int) -> int {
    len / if n_zeros < len { n_zeros } else { len }
}

proof fn lemma_stride(len: int, take: int)
    requires
        0 < take <= len,
    ensures
        len / take >= 1,
        take * (len / take) <= len,
{
    vstd::arithmetic::div_mod::lemma_fundamental_div_mod(len, take);
    vstd::arithmetic::div_mod::lemma_mod_bound(len, take);
    let q = len / take;
    let r = len % take;
    assert(take * q <= len);
    assert(q >= 1) by (nonlinear_arith)
        requires
            len == take * q + r,
            0 <= r < take,
            take <= len,
    ;
}

/// Position in the input of value `i` of a sample of `n_zeros` values taken
/// from `len` ones.
pub open spec fn sample_position(i: int, len: int, n_zeros: int) -> int {
    i * sample_stride(len, n_zeros)
}

proof fn lemma_sample_position_in_range(i: int, len: int, n_zeros: int)
    requires
        len > 0,
        n_zeros > 0,
        0 <= i < if n_zeros < len { n_zeros } else { len },
    ensures
        0 <= sample_position(i, len, n_zeros) < len,
{
    let take = if n_zeros < len { n_zeros } else { len };
    lemma_stride(len, take);
    let s = sample_stride(len, n_zeros);
    assert(0 <= i * s < len) by (nonlinear_arith)
        requires
            0 <= i < take,
            s >= 1,
            take * s <= len,
    ;
}

/// Takes `min(n_zeros, values.len())` values at an even stride from the
/// start: value `i` of the result is `values[i * stride]`, where the stride
/// is `values.len() / min(n_zeros, values.len())`.
pub fn sample_evenly<T: Copy>(values: &Vec<T>, n_zeros: usize) -> (sampled: Vec<T>)
    requires
        n_zeros > 0,
        values.len() > 0,
    ensures
        sampled.len() == if n_zeros < values.len() { n_zeros } else { values.len() },
        forall|i: int|
            0 <= i < sampled.len() ==> #[trigger] sample_position(i, values.len() as int, n_zeros as int) < values.len(),
        forall|i: int|
            0 <= i < sampled.len() ==> #[trigger] sampled@[i] == values@[sample_position(i, values.len() as int, n_zeros as int)],
        forall|i: int|
            0 <= i < sampled.len() ==> #[trigger] sampled@[i] == values@[i * ((values.len() as int) / (if n_zeros < values.len() {
                n_zeros as int
            } else {
                values.len() as int
            }))],
{
    let take = if n_zeros < values.len() { n_zeros } else { values.len() };
    let step = values.len() / take;
    proof {
        lemma_stride(values.len() as int, take as int);
    }
    let mut sampled: Vec<T> = Vec::new();
    let mut i: usize = 0;
    while i < take
        invariant
            take > 0,
            take <= values.len(),
            take == if n_zeros < values.len() { n_zeros } else { values.len() },
            step == sample_stride(values.len() as int, n_zeros as int),
            step >= 1,
            take * step <= values.len(),
            i <= take,
            sampled.len() == i,
            forall|m: int|
                0 <= m < i ==> #[trigger] sampled@[m] == values@[sample_position(m, values.len() as int, n_zeros as int)],
        decreases take - i,
    {
        assert(i * step < values.len()) by (nonlinear_arith)
            requires
                i < take,
                step >= 1,
                take * step <= values.len(),
        ;
        let ghost before = sampled@;
        sampled.push(values[i * step]);
        assert forall|m: int|
            0 <= m < i + 1 implies #[trigger] sampled@[m] == values@[sample_position(m, values.len() as int, n_zeros as int)] by {
            if m < i {
                assert(sampled@[m] == before[m]);
            } else {
                assert(sample_position(m, values.len() as int, n_zeros as int) == i * step);
            }
        }
        i = i + 1;
    }
    assert forall|m: int| 0 <= m < sampled.len() implies #[trigger] sample_position(m, values.len() as int, n_zeros as int) < values.len() by {
        lemma_sample_position_in_range(m, values.len() as int, n_zeros as int);
    }
    sampled
}

/// Sampling keeps the order of the values and never takes one twice: the
/// positions taken increase strictly. Asking for at least as many values as
/// there are takes them all.
pub proof fn lemma_sampling_keeps_order(len: int, n_zeros: int, i: int, j: int)
    requires
        len > 0,
        n_zeros > 0,
        0 <= i < j,
    ensures
        i * sample_stride(len, n_zeros) < j * sample_stride(len, n_zeros),
        n_zeros >= len ==> sample_stride(len, n_zeros) == 1,
{
    let take = if n_zeros < len { n_zeros } else { len };
    lemma_stride(len, take);
    let s = sample_stride(len, n_zeros);
    assert(i * s < j * s) by (nonlinear_arith)
        requires
            s >= 1,
            i < j,
    ;
    if n_zeros >= len {
        vstd::arithmetic::div_mod::lemma_div_by_self(len);
    }
}

} // verus!
