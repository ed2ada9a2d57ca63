//! Mathematical model of a conversion dictionary and of greedy
//! longest-match conversion over it.

use vstd::prelude::*;

verus! {

/// A conversion dictionary: single-character mappings and multi-character
/// (phrase) mappings.
pub struct DictModel {
    /// One character mapped to one character.
    pub single: Map<char, char>,
    /// Phrase keys mapped to replacement text (every key that is not a
    /// one-to-one character pair).
    pub multi: Map<Seq<char>, Seq<char>>,
}

/// Whether a character is encoded as a single ASCII byte.
pub open spec fn is_ascii_char(c: char) -> bool {
    (c as u32) < 0x80
}

impl DictModel {
    /// The single-character mapping of `c`, if it has a usable one.
    /// A mapping to U+0000 is stored as "no mapping" in the packed table
    /// layout and therefore counts as absent.
    pub open spec fn mapped(self, c: char) -> Option<char> {
        if self.single.contains_key(c) && self.single[c] != '\0' {
            Some(self.single[c])
        } else {
            None
        }
    }

    /// Whether some phrase key starts with `c`.
    pub open spec fn starts_multi(self, c: char) -> bool {
        exists|k: Seq<char>| #[trigger] self.multi.contains_key(k) && k.len() > 0 && k[0] == c
    }

    /// Whether `c` has an entry that can change text: a usable single
    /// mapping, or the start of a phrase key.
    pub open spec fn needs_conversion(self, c: char) -> bool {
        self.mapped(c) is Some || self.starts_multi(c)
    }

    /// The length of the longest phrase key that is a prefix of `t` and has
    /// at most `n` characters (0 when there is none).
    pub open spec fn longest_key_len(self, t: Seq<char>, n: nat) -> nat
        decreases n,
    {
        if n == 0 {
            0
        } else if n <= t.len() && self.multi.contains_key(t.take(n as int)) {
            n
        } else {
            self.longest_key_len(t, (n - 1) as nat)
        }
    }

    /// Dictionary matching at the start of non-empty `t`: the longest
    /// phrase key that is a prefix of `t` wins; failing that, the
    /// single-character mapping; failing that, the character is copied.
    /// Gives the emitted text and the number of input characters consumed.
    pub open spec fn match_step(self, t: Seq<char>) -> (Seq<char>, nat) {
        let c = t[0];
        let l = self.longest_key_len(t, t.len());
        if l > 0 {
            (self.multi[t.take(l as int)], l)
        } else {
            match self.mapped(c) {
                Some(m) => (seq![m], 1),
                None => (seq![c], 1),
            }
        }
    }

    /// One step of conversion at the start of non-empty `t`: ASCII
    /// characters are copied, every other character is matched against the
    /// dictionary.
    pub open spec fn step(self, t: Seq<char>) -> (Seq<char>, nat) {
        if is_ascii_char(t[0]) {
            (seq![t[0]], 1)
        } else {
            self.match_step(t)
        }
    }

    /// Greedy left-to-right conversion of `s`.
    pub open spec fn convert(self, s: Seq<char>) -> Seq<char>
        decreases s.len(),
    {
        if s.len() == 0 {
            seq![]
        } else {
            proof {
                self.lemma_longest_key_len_bound(s, s.len());
            }
            let (o, n) = self.step(s);
            o + self.convert(s.skip(n as int))
        }
    }

    pub proof fn lemma_longest_key_len_bound(self, t: Seq<char>, n: nat)
        ensures
            self.longest_key_len(t, n) <= n,
            self.longest_key_len(t, n) <= t.len() || self.longest_key_len(t, n) == 0,
            self.longest_key_len(t, n) > 0 ==> self.multi.contains_key(
                t.take(self.longest_key_len(t, n) as int),
            ),
        decreases n,
    {
        if n > 0 {
            self.lemma_longest_key_len_bound(t, (n - 1) as nat);
        }
    }

    /// The step consumes at least one and at most all characters.
    pub proof fn lemma_step_progress(self, t: Seq<char>)
        requires
            t.len() > 0,
        ensures
            1 <= self.step(t).1 <= t.len(),
    {
        self.lemma_longest_key_len_bound(t, t.len());
    }

    /// Without a phrase key starting at `t[0]`, no key is a prefix of `t`.
    pub proof fn lemma_no_key_without_start(self, t: Seq<char>, n: nat)
        requires
            t.len() > 0,
            !self.starts_multi(t[0]),
        ensures
            self.longest_key_len(t, n) == 0,
    {
        self.lemma_longest_key_len_bound(t, n);
        let l = self.longest_key_len(t, n);
        if l > 0 {
            let k = t.take(l as int);
            assert(self.multi.contains_key(k) && k.len() > 0 && k[0] == t[0]);
        }
    }

    /// When no key longer than `m` (up to `n`) is a prefix of `t`, the longest
    /// match up to `n` is the longest match up to `m`.
    pub proof fn lemma_longest_stable(self, t: Seq<char>, m: nat, n: nat)
        requires
            m <= n,
            forall|l: nat|
                m < l <= n && l <= t.len() ==> !#[trigger] self.multi.contains_key(t.take(l as int)),
        ensures
            self.longest_key_len(t, n) == self.longest_key_len(t, m),
        decreases n,
    {
        if n > m {
            self.lemma_longest_stable(t, m, (n - 1) as nat);
        }
    }

    /// A character that needs no conversion is copied by a step.
    pub proof fn lemma_step_identity(self, t: Seq<char>)
        requires
            t.len() > 0,
            !self.needs_conversion(t[0]) || is_ascii_char(t[0]),
        ensures
            self.step(t) == (seq![t[0]], 1nat),
    {
        if !is_ascii_char(t[0]) {
            self.lemma_no_key_without_start(t, t.len());
        }
    }
}

/// Conversion leaves text unchanged when each of its characters is ASCII or
/// needs no conversion.
pub proof fn lemma_convert_unchanged(d: DictModel, s: Seq<char>)
    requires
        forall|i: int| 0 <= i < s.len() ==> is_ascii_char(#[trigger] s[i]) || !d.needs_conversion(s[i]),
    ensures
        d.convert(s) == s,
    decreases s.len(),
{
    if s.len() > 0 {
        d.lemma_step_identity(s);
        let r = s.skip(1);
        assert forall|i: int| 0 <= i < r.len() implies is_ascii_char(#[trigger] r[i]) || !d.needs_conversion(r[i]) by {
            assert(r[i] == s[i + 1]);
        }
        lemma_convert_unchanged(d, r);
        assert(seq![s[0]] + r =~= s);
    }
}

/// ASCII text is returned unchanged, whatever the dictionary.
pub proof fn lemma_convert_ascii_unchanged(d: DictModel, s: Seq<char>)
    requires
        forall|i: int| 0 <= i < s.len() ==> is_ascii_char(#[trigger] s[i]),
    ensures
        d.convert(s) == s,
{
    lemma_convert_unchanged(d, s);
}

/// A non-ASCII character that starts no phrase key is replaced by its
/// single mapping, if it has one, and the rest is converted on.
pub proof fn lemma_convert_single(d: DictModel, s: Seq<char>)
    requires
        s.len() > 0,
        !is_ascii_char(s[0]),
        !d.starts_multi(s[0]),
    ensures
        d.convert(s) == (match d.mapped(s[0]) {
            Some(m) => seq![m],
            None => seq![s[0]],
        }) + d.convert(s.skip(1)),
{
    d.lemma_no_key_without_start(s, s.len());
}

/// When no phrase key is a prefix of the text, a non-ASCII first character
/// is replaced by its single mapping (or copied when it has none, or when it
/// maps to U+0000), whether or not it starts some longer phrase key, and the
/// rest is converted on.
pub proof fn lemma_convert_no_phrase_prefix(d: DictModel, s: Seq<char>)
    requires
        s.len() > 0,
        !is_ascii_char(s[0]),
        forall|l: int| 1 <= l <= s.len() ==> !#[trigger] d.multi.contains_key(s.take(l)),
    ensures
        d.single.contains_key(s[0]) && d.single[s[0]] != '\0' ==> d.convert(s) == seq![d.single[s[0]]]
            + d.convert(s.skip(1)),
        !(d.single.contains_key(s[0]) && d.single[s[0]] != '\0') ==> d.convert(s) == seq![s[0]]
            + d.convert(s.skip(1)),
{
    d.lemma_longest_key_len_bound(s, s.len());
    let l = d.longest_key_len(s, s.len());
    if l > 0 {
        assert(d.multi.contains_key(s.take(l as int)));
    }
}

/// The longest phrase key that is a prefix of the text is replaced by its
/// value, and the rest is converted on.
pub proof fn lemma_convert_longest_phrase(d: DictModel, s: Seq<char>, k: Seq<char>)
    requires
        k.len() > 0,
        k.len() <= s.len(),
        s.take(k.len() as int) == k,
        !is_ascii_char(s[0]),
        d.multi.contains_key(k),
        forall|l: nat|
            k.len() < l <= s.len() ==> !#[trigger] d.multi.contains_key(s.take(l as int)),
    ensures
        d.convert(s) == d.multi[k] + d.convert(s.skip(k.len() as int)),
{
    d.lemma_longest_stable(s, k.len(), s.len());
    assert(d.longest_key_len(s, k.len()) == k.len());
}

/// Conversion of a non-empty text is the first step's output followed by the
/// conversion of the rest.
pub proof fn lemma_convert_unfold(d: DictModel, s: Seq<char>)
    requires
        s.len() > 0,
    ensures
        d.convert(s) == d.step(s).0 + d.convert(s.skip(d.step(s).1 as int)),
        1 <= d.step(s).1 <= s.len(),
{
    d.lemma_step_progress(s);
}

} // verus!
