//! FxHash-64 over UTF-8 bytes and the prefix Bloom filter used to stop
//! phrase matching early.

use vstd::prelude::*;
use vstd::utf8::{encode_scalar, encode_utf8};

verus! {

/// FxHash-64 seed constant.
pub const FX_SEED: u64 = 0x517cc1b727220a95;

/// Bloom filter size in bits (2^17 bits, 16 KiB).
pub const BLOOM_BITS: u64 = 131072;

/// Bloom filter size in 64-bit words.
pub const BLOOM_WORDS: usize = 2048;

/// One FxHash round: rotate left by 5, mix in the byte, multiply by the seed.
pub open spec fn fx_step(h: u64, b: u8) -> u64 {
    (((h << 5u64) | (h >> 59u64)) ^ (b as u64)).wrapping_mul(FX_SEED)
}

/// FxHash rounds over `bytes`, starting from state `h`.
pub open spec fn fx_fold(h: u64, bytes: Seq<u8>) -> u64
    decreases bytes.len(),
{
    if bytes.len() == 0 {
        h
    } else {
        fx_fold(fx_step(h, bytes[0]), bytes.drop_first())
    }
}

/// FxHash-64 of a byte sequence.
pub open spec fn fx_hash_spec(bytes: Seq<u8>) -> u64 {
    fx_fold(0, bytes)
}

/// FxHash-64 of the UTF-8 encoding of a character sequence.
pub open spec fn key_hash(k: Seq<char>) -> u64 {
    fx_hash_spec(encode_utf8(k))
}

pub proof fn lemma_fx_fold_concat(h: u64, a: Seq<u8>, b: Seq<u8>)
    ensures
        fx_fold(h, a + b) == fx_fold(fx_fold(h, a), b),
    decreases a.len(),
{
    if a.len() == 0 {
        assert(a + b =~= b);
    } else {
        assert((a + b).drop_first() =~= a.drop_first() + b);
        lemma_fx_fold_concat(fx_step(h, a[0]), a.drop_first(), b);
    }
}

pub proof fn lemma_encode_utf8_push(k: Seq<char>, c: char)
    ensures
        encode_utf8(k.push(c)) == encode_utf8(k) + encode_scalar(c as u32),
    decreases k.len(),
{
    if k.len() == 0 {
        assert(k.push(c).drop_first() =~= Seq::<char>::empty());
        assert(encode_utf8(Seq::<char>::empty()) =~= Seq::<u8>::empty());
        assert(encode_utf8(k) =~= Seq::<u8>::empty());
        assert(encode_scalar(c as u32) + Seq::<u8>::empty() =~= encode_scalar(c as u32));
        assert(Seq::<u8>::empty() + encode_scalar(c as u32) =~= encode_scalar(c as u32));
    } else {
        assert(k.push(c).drop_first() =~= k.drop_first().push(c));
        lemma_encode_utf8_push(k.drop_first(), c);
        assert(encode_scalar(k[0] as u32) + (encode_utf8(k.drop_first()) + encode_scalar(c as u32))
            =~= (encode_scalar(k[0] as u32) + encode_utf8(k.drop_first())) + encode_scalar(c as u32));
    }
}

/// The hash of a key extended by one character continues from the hash of
/// the key.
pub proof fn lemma_key_hash_push(k: Seq<char>, c: char)
    ensures
        key_hash(k.push(c)) == fx_fold(key_hash(k), encode_scalar(c as u32)),
{
    lemma_encode_utf8_push(k, c);
    lemma_fx_fold_concat(0, encode_utf8(k), encode_scalar(c as u32));
}

pub proof fn lemma_key_hash_empty()
    ensures
        key_hash(Seq::<char>::empty()) == 0,
{
    assert(encode_utf8(Seq::<char>::empty()) =~= Seq::<u8>::empty());
}

/// The UTF-8 encoding of a character.
pub fn utf8_bytes(c: char) -> (v: Vec<u8>)
    ensures
        v@ == encode_scalar(c as u32),
{
    proof {
        vstd::utf8::char_is_scalar(c);
    }
    let x = c as u32;
    let mut v: Vec<u8> = Vec::new();
    if x <= 0x7F {
        v.push((x & 0x7F) as u8);
    } else if x <= 0x7FF {
        v.push(0xC0 | ((x >> 6) & 0x1F) as u8);
        v.push(0x80 | (x & 0x3F) as u8);
    } else if x <= 0xFFFF {
        v.push(0xE0 | ((x >> 12) & 0x0F) as u8);
        v.push(0x80 | ((x >> 6) & 0x3F) as u8);
        v.push(0x80 | (x & 0x3F) as u8);
    } else {
        v.push(0xF0 | ((x >> 18) & 0x7) as u8);
        v.push(0x80 | ((x >> 12) & 0x3F) as u8);
        v.push(0x80 | ((x >> 6) & 0x3F) as u8);
        v.push(0x80 | (x & 0x3F) as u8);
    }
    assert(v@ =~= encode_scalar(x));
    v
}

/// Continue FxHash-64 from state `h` over `bytes`.
pub fn fx_extend(h: u64, bytes: &[u8]) -> (r: u64)
    ensures
        r == fx_fold(h, bytes@),
{
    let mut hash = h;
    let mut i: usize = 0;
    while i < bytes.len()
        invariant
            i <= bytes@.len(),
            hash == fx_fold(h, bytes@.take(i as int)),
        decreases bytes@.len() - i,
    {
        let b = bytes[i];
        proof {
            lemma_fx_fold_concat(h, bytes@.take(i as int), seq![b]);
            assert(bytes@.take(i as int) + seq![b] =~= bytes@.take(i + 1));
            assert(seq![b].drop_first() =~= Seq::<u8>::empty());
            assert(fx_fold(hash, seq![b]) == fx_fold(fx_step(hash, b), Seq::<u8>::empty()));
        }
        hash = (((hash << 5u64) | (hash >> 59u64)) ^ (b as u64)).wrapping_mul(FX_SEED);
        i = i + 1;
    }
    assert(bytes@.take(i as int) =~= bytes@);
    hash
}

/// FxHash-64 of a byte slice.
pub fn fx_hash(bytes: &[u8]) -> (r: u64)
    ensures
        r == fx_hash_spec(bytes@),
{
    fx_extend(0, bytes)
}

/// Continue a key hash by one character.
pub fn fx_extend_char(h: u64, c: char) -> (r: u64)
    ensures
        r == fx_fold(h, encode_scalar(c as u32)),
{
    let bytes = utf8_bytes(c);
    fx_extend(h, bytes.as_slice())
}

/// First probe position of a hash.
pub open spec fn bloom_idx1(h: u64) -> u64 {
    h & 0x1FFFF
}

/// Second probe position of a hash.
pub open spec fn bloom_idx2(h: u64) -> u64 {
    (h >> 17u64) & 0x1FFFF
}

/// Whether bit `i` of the filter is set.
pub open spec fn bit_set(bloom: Seq<u64>, i: u64) -> bool {
    (bloom[(i / 64) as int] & (1u64 << (i % 64))) != 0
}

/// Whether the filter reports `h` as possibly present.
pub open spec fn bloom_has(bloom: Seq<u64>, h: u64) -> bool {
    bit_set(bloom, bloom_idx1(h)) && bit_set(bloom, bloom_idx2(h))
}

pub proof fn lemma_bloom_idx_bound(h: u64)
    ensures
        bloom_idx1(h) < BLOOM_BITS,
        bloom_idx2(h) < BLOOM_BITS,
{
    assert(h & 0x1FFFF < 131072) by (bit_vector);
    assert((h >> 17u64) & 0x1FFFF < 131072) by (bit_vector);
}

/// Check if a hash matches the Bloom filter (two bit probes).
pub fn bloom_check(bloom: &[u64], hash: u64) -> (r: bool)
    requires
        bloom@.len() >= BLOOM_WORDS,
    ensures
        r == bloom_has(bloom@, hash),
{
    proof {
        lemma_bloom_idx_bound(hash);
    }
    let idx1 = hash & 0x1FFFF;
    let idx2 = (hash >> 17u64) & 0x1FFFF;
    let w1 = bloom[(idx1 / 64) as usize];
    let w2 = bloom[(idx2 / 64) as usize];
    (w1 & (1u64 << (idx1 % 64))) != 0 && (w2 & (1u64 << (idx2 % 64))) != 0
}

proof fn lemma_or_bit(x: u64, s: u64, t: u64)
    requires
        s < 64,
        t < 64,
    ensures
        ((x | (1u64 << s)) & (1u64 << t) != 0) <==> (x & (1u64 << t) != 0 || s == t),
{
    assert(s < 64 && t < 64 ==> (((x | (1u64 << s)) & (1u64 << t) != 0) <==> (x & (1u64 << t)
        != 0 || s == t))) by (bit_vector);
}

/// Whether inserting hash `h` sets bit `bit`.
pub open spec fn hits(h: u64, bit: u64) -> bool {
    bloom_idx1(h) == bit || bloom_idx2(h) == bit
}

/// Whether some proper prefix of one of the first `i` phrase keys of `v`
/// sets bit `bit`.
pub open spec fn prefix_bit(v: Seq<(Vec<char>, Vec<char>)>, i: int, bit: u64) -> bool {
    exists|a: int, n: int|
        0 <= a < i && 1 <= n < v[a].0@.len() && #[trigger] hits(key_hash(v[a].0@.take(n)), bit)
}

/// A filter of zero words has no bit set.
pub proof fn lemma_zero_filter(b: Seq<u64>, bit: u64)
    requires
        b.len() == BLOOM_WORDS,
        bit < BLOOM_BITS,
        forall|w: int| 0 <= w < BLOOM_WORDS ==> #[trigger] b[w] == 0,
    ensures
        !bit_set(b, bit),
{
    let t = bit % 64;
    assert(b[(bit / 64) as int] == 0);
    assert(t < 64 ==> 0u64 & (1u64 << t) == 0) by (bit_vector);
}

/// Set bit `i` of the filter.
fn bloom_set_bit(bloom: &mut Vec<u64>, i: u64)
    requires
        old(bloom)@.len() == BLOOM_WORDS,
        i < BLOOM_BITS,
    ensures
        final(bloom)@.len() == BLOOM_WORDS,
        forall|j: u64|
            j < BLOOM_BITS ==> (#[trigger] bit_set(final(bloom)@, j) <==> bit_set(old(bloom)@, j)
                || j == i),
{
    let w = (i / 64) as usize;
    let old_word = bloom[w];
    let mask = 1u64 << (i % 64);
    bloom.set(w, old_word | mask);
    proof {
        assert forall|j: u64| j < BLOOM_BITS implies (#[trigger] bit_set(bloom@, j) <==> bit_set(
            old(bloom)@,
            j,
        ) || j == i) by {
            if (j / 64) as int == w as int {
                lemma_or_bit(old_word, i % 64, j % 64);
                assert(j == i <==> j % 64 == i % 64);
            }
        }
    }
}

/// Insert a hash into the filter.
pub fn bloom_insert(bloom: &mut Vec<u64>, hash: u64)
    requires
        old(bloom)@.len() == BLOOM_WORDS,
    ensures
        final(bloom)@.len() == BLOOM_WORDS,
        bloom_has(final(bloom)@, hash),
        forall|j: u64|
            j < BLOOM_BITS ==> (#[trigger] bit_set(final(bloom)@, j) <==> bit_set(old(bloom)@, j)
                || hits(hash, j)),
        forall|h: u64| #[trigger] bloom_has(old(bloom)@, h) ==> bloom_has(final(bloom)@, h),
{
    proof {
        lemma_bloom_idx_bound(hash);
    }
    let ghost b0 = bloom@;
    bloom_set_bit(bloom, hash & 0x1FFFF);
    let ghost b1 = bloom@;
    bloom_set_bit(bloom, (hash >> 17u64) & 0x1FFFF);
    proof {
        assert(bit_set(b1, bloom_idx1(hash)));
        assert forall|h: u64| #[trigger] bloom_has(b0, h) implies bloom_has(bloom@, h) by {
            lemma_bloom_idx_bound(h);
            assert(bit_set(b1, bloom_idx1(h)));
            assert(bit_set(b1, bloom_idx2(h)));
        }
        assert forall|j: u64| j < BLOOM_BITS implies (#[trigger] bit_set(bloom@, j) <==> bit_set(b0, j)
            || hits(hash, j)) by {
            assert(bit_set(b1, j) <==> bit_set(b0, j) || j == bloom_idx1(hash));
        }
    }
}

} // verus!
