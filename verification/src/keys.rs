//! Lexicographic order on phrase keys (by code point), with its laws and an
//! executable comparison.

use vstd::prelude::*;

verus! {

/// Strict lexicographic order on character sequences, comparing code points.
/// For UTF-8 text this is the same order as byte-wise string comparison.
pub open spec fn lex_lt(a: Seq<char>, b: Seq<char>) -> bool
    decreases a.len(),
{
    if a.len() == 0 {
        b.len() > 0
    } else if b.len() == 0 {
        false
    } else if a[0] != b[0] {
        (a[0] as u32) < (b[0] as u32)
    } else {
        lex_lt(a.drop_first(), b.drop_first())
    }
}

pub proof fn lemma_char_u32_injective(a: char, b: char)
    requires
        a as u32 == b as u32,
    ensures
        a == b,
{
    vstd::utf8::char_u32_cast(a, a as u32);
    vstd::utf8::char_u32_cast(b, b as u32);
}

pub proof fn lemma_lex_irreflexive(a: Seq<char>)
    ensures
        !lex_lt(a, a),
    decreases a.len(),
{
    if a.len() > 0 {
        lemma_lex_irreflexive(a.drop_first());
    }
}

pub proof fn lemma_lex_asymmetric(a: Seq<char>, b: Seq<char>)
    requires
        lex_lt(a, b),
    ensures
        !lex_lt(b, a),
    decreases a.len(),
{
    if a.len() > 0 && b.len() > 0 && a[0] == b[0] {
        lemma_lex_asymmetric(a.drop_first(), b.drop_first());
    }
}

pub proof fn lemma_lex_total(a: Seq<char>, b: Seq<char>)
    requires
        a != b,
    ensures
        lex_lt(a, b) || lex_lt(b, a),
    decreases a.len(),
{
    if a.len() > 0 && b.len() > 0 {
        if a[0] == b[0] {
            if a.drop_first() == b.drop_first() {
                assert(a =~= seq![a[0]] + a.drop_first());
                assert(b =~= seq![b[0]] + b.drop_first());
            }
            lemma_lex_total(a.drop_first(), b.drop_first());
        } else if a[0] as u32 == b[0] as u32 {
            lemma_char_u32_injective(a[0], b[0]);
        }
    } else if a.len() == 0 && b.len() == 0 {
        assert(a =~= b);
    }
}

pub proof fn lemma_lex_transitive(a: Seq<char>, b: Seq<char>, c: Seq<char>)
    requires
        lex_lt(a, b),
        lex_lt(b, c),
    ensures
        lex_lt(a, c),
    decreases a.len(),
{
    if a.len() > 0 && b.len() > 0 && c.len() > 0 {
        if a[0] == b[0] && b[0] == c[0] {
            lemma_lex_transitive(a.drop_first(), b.drop_first(), c.drop_first());
        } else if a[0] != c[0] && a[0] as u32 == c[0] as u32 {
            lemma_char_u32_injective(a[0], c[0]);
        }
    }
}

/// Keys in lexicographic order have non-decreasing first characters.
pub proof fn lemma_lex_first_char(a: Seq<char>, b: Seq<char>)
    requires
        lex_lt(a, b),
        a.len() > 0,
        b.len() > 0,
    ensures
        (a[0] as u32) <= (b[0] as u32),
{
}

/// A common prefix does not change the order.
pub proof fn lemma_lex_skip_common(a: Seq<char>, b: Seq<char>, k: int)
    requires
        0 <= k <= a.len(),
        k <= b.len(),
        a.take(k) == b.take(k),
    ensures
        lex_lt(a, b) == lex_lt(a.skip(k), b.skip(k)),
    decreases k,
{
    if k > 0 {
        assert(a[0] == a.take(k)[0]);
        assert(b[0] == b.take(k)[0]);
        assert(a.drop_first().take(k - 1) =~= a.take(k).drop_first());
        assert(b.drop_first().take(k - 1) =~= b.take(k).drop_first());
        lemma_lex_skip_common(a.drop_first(), b.drop_first(), k - 1);
        assert(a.drop_first().skip(k - 1) =~= a.skip(k));
        assert(b.drop_first().skip(k - 1) =~= b.skip(k));
    } else {
        assert(a.skip(0) =~= a);
        assert(b.skip(0) =~= b);
    }
}

/// Result of comparing two keys.
#[derive(Clone, Copy, PartialEq, Eq, Debug, Structural)]
pub enum KeyOrder {
    Less,
    Equal,
    Greater,
}

/// Compare `key` with the characters `s[lo..hi]`.
pub fn compare_key(key: &Vec<char>, s: &Vec<char>, lo: usize, hi: usize) -> (r: KeyOrder)
    requires
        lo <= hi <= s@.len(),
    ensures
        (r == KeyOrder::Less) == lex_lt(key@, s@.subrange(lo as int, hi as int)),
        (r == KeyOrder::Equal) == (key@ == s@.subrange(lo as int, hi as int)),
        (r == KeyOrder::Greater) == lex_lt(s@.subrange(lo as int, hi as int), key@),
{
    let ghost t = s@.subrange(lo as int, hi as int);
    let n = hi - lo;
    let mut i: usize = 0;
    while i < key.len() && i < n
        invariant
            0 <= i <= key@.len(),
            i <= n,
            n == hi - lo,
            lo <= hi <= s@.len(),
            t == s@.subrange(lo as int, hi as int),
            key@.take(i as int) =~= t.take(i as int),
        decreases key@.len() - i,
    {
        let a = key[i];
        let b = s[lo + i];
        if a != b {
            proof {
                lemma_lex_skip_common(key@, t, i as int);
                lemma_lex_skip_common(t, key@, i as int);
                assert(key@.skip(i as int)[0] == a);
                assert(t.skip(i as int)[0] == b);
                if a as u32 == b as u32 {
                    lemma_char_u32_injective(a, b);
                }
                assert(key@[i as int] != t[i as int]);
            }
            if (a as u32) < (b as u32) {
                return KeyOrder::Less;
            } else {
                return KeyOrder::Greater;
            }
        }
        i = i + 1;
        assert(key@.take(i as int) =~= t.take(i as int)) by {
            assert(key@.take(i as int) =~= key@.take(i - 1).push(a));
            assert(t.take(i as int) =~= t.take(i - 1).push(b));
        }
    }
    proof {
        lemma_lex_skip_common(key@, t, i as int);
        lemma_lex_skip_common(t, key@, i as int);
    }
    if key.len() == n {
        assert(key@ =~= t) by {
            assert(key@ =~= key@.take(i as int));
            assert(t =~= t.take(i as int));
        }
        proof {
            lemma_lex_irreflexive(key@);
        }
        KeyOrder::Equal
    } else if i == key.len() {
        assert(key@.skip(i as int).len() == 0);
        assert(key@ != t);
        KeyOrder::Less
    } else {
        assert(t.skip(i as int).len() == 0);
        assert(key@ != t);
        KeyOrder::Greater
    }
}

} // verus!
