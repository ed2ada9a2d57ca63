//! The converter: greedy longest-match conversion over the tables of one
//! direction.

use std::borrow::Cow;
use vstd::prelude::*;
use crate::bloom::{bloom_check, fx_extend_char, key_hash, lemma_key_hash_empty, lemma_key_hash_push};
use crate::config::ConvertType;
use crate::dict::Tables;
use crate::dict_data::dictionary_for;
use crate::parse::dict_from_text;
use crate::tables::{build_tables, tables_for};
use crate::model::{is_ascii_char, DictModel};
use crate::text::{push_char, push_chars, str_to_chars};

verus! {

/// The converter. Holds the lookup tables of the configured direction.
pub struct STConverter {
    tables: Tables,
}

impl STConverter {
    #[verifier::type_invariant]
    spec fn inv(&self) -> bool {
        self.tables.wf()
    }

    /// The dictionary this converter applies.
    pub closed spec fn dict(&self) -> DictModel {
        self.tables.model()
    }

    /// Create a converter for the given direction, with its built-in
    /// dictionary.
    pub fn new(convert_type: ConvertType) -> (c: Self)
        ensures
            c.dict() == dictionary_for(convert_type),
    {
        STConverter { tables: tables_for(convert_type) }
    }

    /// Create a converter for the dictionary that `text` describes (one
    /// `key:value` mapping per line).
    pub fn with_dictionary(text: &str) -> (c: Self)
        ensures
            c.dict() == dict_from_text(text@),
    {
        STConverter { tables: build_tables(text) }
    }

    /// Convert `input` and return a new `String`.
    pub fn convert(&self, input: &str) -> (r: String)
        ensures
            r@ == self.dict().convert(input@),
    {
        let mut out = String::new();
        self.convert_to(input, &mut out);
        assert(out@ =~= Seq::<char>::empty() + self.dict().convert(input@));
        out
    }

    /// Convert `input`, appending the result to `out`.
    pub fn convert_to(&self, input: &str, out: &mut String)
        ensures
            final(out)@ == old(out)@ + self.dict().convert(input@),
    {
        proof {
            use_type_invariant(self);
        }
        let ghost d = self.dict();
        let s = str_to_chars(input);
        let n = s.len();
        let mut i: usize = 0;
        assert(s@.skip(0) =~= s@);
        while i < n
            invariant
                self.tables.wf(),
                d == self.tables.model(),
                n == s@.len(),
                s@ == input@,
                i <= n,
                old(out)@ + d.convert(s@) =~= out@ + d.convert(s@.skip(i as int)),
            decreases n - i,
        {
            let ghost t = s@.skip(i as int);
            let ghost before = out@;
            proof {
                crate::model::lemma_convert_unfold(d, t);
            }
            let c = s[i];
            assert(t[0] == c);
            let next: usize;
            if (c as u32) < 0x80 {
                push_char(out, c);
                next = i + 1;
            } else {
                match self.tables.lookup_unified(c) {
                    None => {
                        proof {
                            d.lemma_no_key_without_start(t, t.len());
                        }
                        push_char(out, c);
                        next = i + 1;
                    },
                    Some(u) => {
                        if !u.multi_start {
                            proof {
                                d.lemma_no_key_without_start(t, t.len());
                            }
                            match u.mapped {
                                Some(m) => push_char(out, m),
                                None => push_char(out, c),
                            }
                            next = i + 1;
                        } else {
                            next = self.greedy_match(&s, i, u.mapped, out);
                        }
                    },
                }
            }
            proof {
                assert(out@ == before + d.step(t).0);
                assert(next == i + d.step(t).1);
                assert(t.skip(d.step(t).1 as int) =~= s@.skip(next as int));
                assert(out@ + d.convert(s@.skip(next as int)) =~= before + d.convert(t));
            }
            i = next;
        }
        assert(s@.skip(n as int) =~= Seq::<char>::empty());
    }

    /// Convert and return a `Cow`: borrows `input` exactly when conversion
    /// leaves it unchanged.
    pub fn convert_cow<'a>(&self, input: &'a str) -> (r: Cow<'a, str>)
        ensures
            r@ == self.dict().convert(input@),
            (r matches Cow::Borrowed(_)) <==> self.dict().convert(input@) == input@,
            r matches Cow::Borrowed(b) ==> b == input,
    {
        proof {
            use_type_invariant(self);
        }
        let ghost d = self.dict();
        let s = str_to_chars(input);
        let mut needs = false;
        let mut i: usize = 0;
        while i < s.len()
            invariant_except_break
                !needs,
            invariant
                self.tables.wf(),
                d == self.tables.model(),
                s@ == input@,
                i <= s@.len(),
                forall|j: int| 0 <= j < i ==> !d.needs_conversion(#[trigger] s@[j]),
            ensures
                needs ==> i < s@.len() && d.needs_conversion(s@[i as int]),
                !needs ==> i == s@.len(),
            decreases s@.len() - i,
        {
            let c = s[i];
            match self.tables.lookup_unified(c) {
                None => {},
                Some(u) => {
                    if u.mapped.is_some() || u.multi_start {
                        needs = true;
                        break;
                    }
                },
            }
            i = i + 1;
        }
        if !needs {
            proof {
                assert forall|j: int| 0 <= j < input@.len() implies crate::model::is_ascii_char(
                    #[trigger] input@[j],
                ) || !d.needs_conversion(input@[j]) by {
                    assert(!d.needs_conversion(s@[j]));
                }
                crate::model::lemma_convert_unchanged(d, input@);
            }
            return Cow::Borrowed(input);
        }
        // Some character may change; convert, and borrow if nothing did.
        let out = self.convert(input);
        let unchanged = input.to_owned();
        if out == unchanged {
            return Cow::Borrowed(input);
        }
        Cow::Owned(out)
    }

    /// Greedy longest match at `s[start]`: emits the longest phrase key's
    /// replacement, else the single mapping, else the character; returns the
    /// position after what was consumed. The output always grows.
    fn greedy_match(
        &self,
        s: &Vec<char>,
        start: usize,
        single_mapped: Option<char>,
        out: &mut String,
    ) -> (next: usize)
        requires
            self.tables.wf(),
            start < s@.len(),
            single_mapped == self.tables.model().mapped(s@[start as int]),
        ensures
            final(out)@ == old(out)@ + self.tables.model().match_step(s@.skip(start as int)).0,
            next == start + self.tables.model().match_step(s@.skip(start as int)).1,
            final(out)@.len() > old(out)@.len(),
            start < next <= s@.len(),
    {
        let ghost d = self.tables.model();
        let ghost t = s@.skip(start as int);
        let n = s.len();
        let first = s[start];
        let (gs, ge) = self.tables.get_multi_group(first);
        assert(t[0] == first);
        if gs == ge {
            proof {
                if d.starts_multi(first) {
                    let k = choose|k: Seq<char>| #[trigger] d.multi.contains_key(k) && k.len() > 0 && k[0] == first;
                    let j = choose|j: int| 0 <= j < self.tables.multi@.len() && #[trigger] self.tables.mkey(j) == k;
                    assert(self.tables.mkey(j)[0] == first);
                }
                d.lemma_no_key_without_start(t, t.len());
            }
            match single_mapped {
                Some(c) => push_char(out, c),
                None => push_char(out, first),
            }
            return start + 1;
        }
        // Every phrase key whose first character is `first` lies in the group.
        let mut best_len: usize = 0;
        let mut best_idx: usize = 0;
        let mut pos: usize = start + 1;
        let mut count: usize = 1;
        proof {
            lemma_key_hash_empty();
            lemma_key_hash_push(Seq::<char>::empty(), first);
            assert(Seq::<char>::empty().push(first) =~= s@.subrange(start as int, pos as int));
        }
        let mut h: u64 = fx_extend_char(0, first);
        if let Some(j) = self.tables.lookup_multi_in_group(gs, ge, s, start, pos) {
            best_len = 1;
            best_idx = j;
        }
        proof {
            assert(t.take(1) =~= s@.subrange(start as int, pos as int));
            assert(d.longest_key_len(t, 0) == 0);
            if best_len == 0 {
                self.lemma_absent_key(s, start, pos, gs, ge);
            }
        }
        while count < self.tables.max_key_len && pos < n && bloom_check(self.tables.prefix_bloom.as_slice(), h)
            invariant
                self.tables.wf(),
                d == self.tables.model(),
                n == s@.len(),
                t == s@.skip(start as int),
                t[0] == first,
                start < pos <= n,
                count == pos - start,
                1 <= count <= self.tables.max_key_len,
                gs <= ge <= self.tables.multi@.len(),
                forall|j: int| gs <= j < ge ==> (#[trigger] self.tables.mkey(j))[0] == first,
                forall|j: int|
                    0 <= j < self.tables.multi@.len() && (#[trigger] self.tables.mkey(j))[0] == first ==> gs <= j < ge,
                h == key_hash(s@.subrange(start as int, pos as int)),
                best_len == d.longest_key_len(t, count as nat),
                best_len > 0 ==> gs <= best_idx < ge && self.tables.mkey(best_idx as int) == t.take(
                    best_len as int,
                ),
            decreases n - pos,
        {
            let c = s[pos];
            proof {
                lemma_key_hash_push(s@.subrange(start as int, pos as int), c);
                assert(s@.subrange(start as int, pos as int).push(c) =~= s@.subrange(
                    start as int,
                    pos + 1,
                ));
            }
            h = fx_extend_char(h, c);
            pos = pos + 1;
            count = count + 1;
            assert(t.take(count as int) =~= s@.subrange(start as int, pos as int));
            match self.tables.lookup_multi_in_group(gs, ge, s, start, pos) {
                Some(j) => {
                    best_len = count;
                    best_idx = j;
                },
                None => {
                    proof {
                        self.lemma_absent_key(s, start, pos, gs, ge);
                    }
                },
            }
        }
        proof {
            self.lemma_no_longer_key(s, start, pos, count, h);
            d.lemma_longest_stable(t, count as nat, t.len());
            d.lemma_longest_key_len_bound(t, t.len());
        }
        if best_len > 0 {
            let v = &self.tables.multi[best_idx].1;
            proof {
                assert(d.multi[t.take(best_len as int)] == v@);
            }
            push_chars(out, v);
            start + best_len
        } else {
            match single_mapped {
                Some(c) => push_char(out, c),
                None => push_char(out, first),
            }
            start + 1
        }
    }

    /// A key absent from the group of its first character is absent from
    /// the dictionary.
    proof fn lemma_absent_key(
        &self,
        s: &Vec<char>,
        start: usize,
        pos: usize,
        gs: usize,
        ge: usize,
    )
        requires
            self.tables.wf(),
            start < pos <= s@.len(),
            gs <= ge <= self.tables.multi@.len(),
            forall|j: int|
                0 <= j < self.tables.multi@.len() && (#[trigger] self.tables.mkey(j))[0]
                    == s@[start as int] ==> gs <= j < ge,
            forall|j: int|
                gs <= j < ge ==> #[trigger] self.tables.mkey(j) != s@.subrange(start as int, pos as int),
        ensures
            !self.tables.model().multi.contains_key(s@.subrange(start as int, pos as int)),
    {
        let k = s@.subrange(start as int, pos as int);
        if self.tables.model().multi.contains_key(k) {
            let j = choose|j: int| 0 <= j < self.tables.multi@.len() && #[trigger] self.tables.mkey(j) == k;
            assert(self.tables.mkey(j)[0] == s@[start as int]);
        }
    }

    /// When matching stopped, no key longer than `count` is a prefix of the
    /// text at `start`.
    proof fn lemma_no_longer_key(&self, s: &Vec<char>, start: usize, pos: usize, count: usize, h: u64)
        requires
            self.tables.wf(),
            start < pos <= s@.len(),
            count == pos - start,
            1 <= count <= self.tables.max_key_len,
            h == key_hash(s@.subrange(start as int, pos as int)),
            !(count < self.tables.max_key_len && pos < s@.len() && crate::bloom::bloom_has(
                self.tables.prefix_bloom@,
                h,
            )),
        ensures
            forall|l: nat|
                count < l <= s@.skip(start as int).len()
                    ==> !#[trigger] self.tables.model().multi.contains_key(
                    s@.skip(start as int).take(l as int),
                ),
    {
        let t = s@.skip(start as int);
        let tables = &self.tables;
        assert forall|l: nat|
            count < l <= t.len() implies !#[trigger] tables.model().multi.contains_key(
            t.take(l as int),
        ) by {
            let k = t.take(l as int);
            if tables.model().multi.contains_key(k) {
                let j = choose|j: int| 0 <= j < tables.multi@.len() && #[trigger] tables.mkey(j) == k;
                assert(tables.mkey(j).len() == l);
                assert(k.take(count as int) =~= s@.subrange(start as int, pos as int));
                assert(crate::bloom::bloom_has(tables.prefix_bloom@, key_hash(tables.mkey(j).take(count as int))));
            }
        }
    }
}

impl Clone for STConverter {
    fn clone(&self) -> (r: Self)
        ensures
            r.dict() == self.dict(),
    {
        proof {
            use_type_invariant(self);
        }
        STConverter { tables: self.tables.duplicate() }
    }
}

/// Simple one-shot conversion function.
pub fn convert(input: &str, convert_type: ConvertType) -> (r: String)
    ensures
        r@ == dictionary_for(convert_type).convert(input@),
{
    STConverter::new(convert_type).convert(input)
}

/// One-shot conversion appending to an existing buffer.
pub fn convert_to(input: &str, convert_type: ConvertType, out: &mut String)
    ensures
        final(out)@ == old(out)@ + dictionary_for(convert_type).convert(input@),
{
    STConverter::new(convert_type).convert_to(input, out);
}

} // verus!
