//! Building the lookup tables of a direction from dictionary text.

use vstd::prelude::*;
use crate::keys::{
    compare_key, lemma_char_u32_injective, lemma_lex_asymmetric, lemma_lex_first_char,
    lemma_lex_irreflexive, lemma_lex_total, lemma_lex_transitive, lex_lt, KeyOrder,
};
use crate::parse::{
    dict_entries, dict_from_text, is_single_entry, lemma_index_of_absent,
    lemma_index_of_found, line_entry, multi_map, opt_seq, parse_line, single_map,
};
use crate::bloom::{
    bit_set, bloom_has, bloom_insert, fx_extend_char, hits, key_hash, lemma_key_hash_empty,
    lemma_key_hash_push, lemma_zero_filter, prefix_bit, BLOOM_BITS, BLOOM_WORDS,
};
use crate::dict::{Group, Tables, lower_bound, mapped_code, pack, unified_entry_ok, unified_ok, MULTI_START_BIT};
use crate::config::ConvertType;
use crate::dict_data::{dictionary_for, raw_text};
use crate::model::DictModel;
use crate::text::str_to_chars;

verus! {

/// A table of single-character mappings `(key code point, mapped code point)`,
/// sorted strictly by key, holding exactly the mappings of `m`.
pub open spec fn singles_ok(u: Seq<(u32, u32)>, m: Map<char, char>) -> bool {
    &&& forall|i: int, j: int| 0 <= i < j < u.len() ==> #[trigger] u[i].0 < #[trigger] u[j].0
    &&& forall|i: int|
        0 <= i < u.len() ==> vstd::utf8::is_scalar(#[trigger] u[i].0) && m.contains_key(
            u[i].0 as char,
        ) && u[i].1 == m[u[i].0 as char] as u32
    &&& forall|c: char| #[trigger] m.contains_key(c) ==> exists|i: int| 0 <= i < u.len() && #[trigger] u[i].0 == c as u32
}

/// A phrase table sorted strictly by key, with non-empty keys, holding
/// exactly the mappings of `m`.
pub open spec fn phrases_ok(v: Seq<(Vec<char>, Vec<char>)>, m: Map<Seq<char>, Seq<char>>) -> bool {
    &&& forall|i: int, j: int| 0 <= i < j < v.len() ==> lex_lt(#[trigger] v[i].0@, #[trigger] v[j].0@)
    &&& forall|i: int| 0 <= i < v.len() ==> (#[trigger] v[i]).0@.len() >= 1
    &&& forall|i: int| 0 <= i < v.len() ==> (#[trigger] v[i]).1@.len() >= 1
    &&& forall|i: int|
        0 <= i < v.len() ==> m.contains_key((#[trigger] v[i]).0@) && m[v[i].0@] == v[i].1@
    &&& forall|k: Seq<char>| #[trigger] m.contains_key(k) ==> exists|i: int| 0 <= i < v.len() && #[trigger] v[i].0@ == k
}

/// First position whose key is not below `key` in lexicographic order.
fn lower_bound_key(v: &Vec<(Vec<char>, Vec<char>)>, key: &Vec<char>) -> (r: usize)
    requires
        forall|i: int, j: int| 0 <= i < j < v@.len() ==> lex_lt(#[trigger] v@[i].0@, #[trigger] v@[j].0@),
    ensures
        r <= v@.len(),
        forall|i: int| 0 <= i < r ==> lex_lt(#[trigger] v@[i].0@, key@),
        forall|i: int| r <= i < v@.len() ==> !lex_lt(#[trigger] v@[i].0@, key@),
{
    let mut lo: usize = 0;
    let mut hi: usize = v.len();
    assert(key@.subrange(0, key@.len() as int) =~= key@);
    while lo < hi
        invariant
            0 <= lo <= hi <= v@.len(),
            key@.subrange(0, key@.len() as int) == key@,
            forall|i: int, j: int| 0 <= i < j < v@.len() ==> lex_lt(#[trigger] v@[i].0@, #[trigger] v@[j].0@),
            forall|i: int| 0 <= i < lo ==> lex_lt(#[trigger] v@[i].0@, key@),
            forall|i: int| hi <= i < v@.len() ==> !lex_lt(#[trigger] v@[i].0@, key@),
        decreases hi - lo,
    {
        let mid = lo + (hi - lo) / 2;
        let ghost km = v@[mid as int].0@;
        match compare_key(&v[mid].0, key, 0, key.len()) {
            KeyOrder::Less => {
                assert forall|i: int| 0 <= i < mid + 1 implies lex_lt(#[trigger] v@[i].0@, key@) by {
                    if i < mid {
                        lemma_lex_transitive(v@[i].0@, km, key@);
                    }
                }
                lo = mid + 1;
            },
            _ => {
                assert forall|i: int| mid <= i < v@.len() implies !lex_lt(#[trigger] v@[i].0@, key@) by {
                    if i > mid {
                        if lex_lt(v@[i].0@, key@) {
                            lemma_lex_transitive(km, v@[i].0@, key@);
                            lemma_lex_irreflexive(key@);
                            if km == key@ {
                                lemma_lex_asymmetric(km, v@[i].0@);
                            } else {
                                lemma_lex_asymmetric(key@, km);
                            }
                        }
                    } else {
                        lemma_lex_irreflexive(key@);
                        if km != key@ {
                            lemma_lex_asymmetric(key@, km);
                        }
                    }
                }
                hi = mid;
            },
        }
    }
    lo
}

/// Add the single mapping `c -> v` unless `c` already has one.
fn add_single(u: &mut Vec<(u32, u32)>, Ghost(m): Ghost<Map<char, char>>, c: char, v: char) -> (r: Ghost<
    Map<char, char>,
>)
    requires
        singles_ok(old(u)@, m),
    ensures
        r@ == (if m.contains_key(c) {
            m
        } else {
            m.insert(c, v)
        }),
        singles_ok(final(u)@, r@),
{
    let cp = c as u32;
    proof {
        vstd::utf8::char_is_scalar(c);
        vstd::utf8::char_u32_cast(c, cp);
    }
    let idx = lower_bound(u, cp);
    if idx < u.len() && u[idx].0 == cp {
        assert(m.contains_key(u@[idx as int].0 as char));
        return Ghost(m);
    }
    proof {
        if m.contains_key(c) {
            let i = choose|i: int| 0 <= i < u@.len() && #[trigger] u@[i].0 == c as u32;
            assert(false);
        }
    }
    let ghost old_u = u@;
    u.insert(idx, (cp, v as u32));
    let ghost m2 = m.insert(c, v);
    proof {
        assert forall|i: int, j: int| 0 <= i < j < u@.len() implies #[trigger] u@[i].0 < #[trigger] u@[j].0 by {
            if j < idx {
                assert(u@[i] == old_u[i] && u@[j] == old_u[j]);
            } else if j == idx {
                assert(u@[i] == old_u[i]);
            } else if i < idx {
                assert(u@[i] == old_u[i] && u@[j] == old_u[j - 1]);
            } else if i == idx {
                assert(u@[j] == old_u[j - 1]);
            } else {
                assert(u@[i] == old_u[i - 1] && u@[j] == old_u[j - 1]);
            }
        }
        assert forall|i: int| 0 <= i < u@.len() implies vstd::utf8::is_scalar(#[trigger] u@[i].0)
            && m2.contains_key(u@[i].0 as char) && u@[i].1 == m2[u@[i].0 as char] as u32 by {
            if i < idx {
                assert(u@[i] == old_u[i]);
                if old_u[i].0 as char == c {
                    vstd::utf8::char_u32_cast(c, cp);
                }
            } else if i > idx {
                assert(u@[i] == old_u[i - 1]);
                if old_u[i - 1].0 as char == c {
                    vstd::utf8::char_u32_cast(c, cp);
                }
            }
        }
        assert forall|d: char| #[trigger] m2.contains_key(d) implies exists|i: int|
            0 <= i < u@.len() && #[trigger] u@[i].0 == d as u32 by {
            if d == c {
                assert(u@[idx as int].0 == c as u32);
            } else {
                let i = choose|i: int| 0 <= i < old_u.len() && #[trigger] old_u[i].0 == d as u32;
                if i < idx {
                    assert(u@[i] == old_u[i]);
                } else {
                    assert(u@[i + 1] == old_u[i]);
                }
            }
        }
    }
    Ghost(m2)
}

/// Add the phrase mapping `key -> val` unless `key` already has one.
fn add_phrase(
    v: &mut Vec<(Vec<char>, Vec<char>)>,
    Ghost(m): Ghost<Map<Seq<char>, Seq<char>>>,
    key: Vec<char>,
    val: Vec<char>,
) -> (r: Ghost<Map<Seq<char>, Seq<char>>>)
    requires
        phrases_ok(old(v)@, m),
        key@.len() >= 1,
        val@.len() >= 1,
    ensures
        r@ == (if m.contains_key(key@) {
            m
        } else {
            m.insert(key@, val@)
        }),
        phrases_ok(final(v)@, r@),
{
    let idx = lower_bound_key(v, &key);
    if idx < v.len() {
        assert(key@.subrange(0, key@.len() as int) =~= key@);
        if compare_key(&v[idx].0, &key, 0, key.len()) == KeyOrder::Equal {
            return Ghost(m);
        }
    }
    let ghost k = key@;
    let ghost old_v = v@;
    proof {
        if m.contains_key(k) {
            let i = choose|i: int| 0 <= i < old_v.len() && #[trigger] old_v[i].0@ == k;
            if i < idx {
                lemma_lex_irreflexive(k);
            } else if i > idx {
                lemma_lex_total(old_v[idx as int].0@, k);
                lemma_lex_transitive(k, old_v[idx as int].0@, old_v[i].0@);
                lemma_lex_irreflexive(k);
            }
            assert(false);
        }
        if idx < old_v.len() {
            lemma_lex_total(old_v[idx as int].0@, k);
        }
        assert forall|i: int| idx <= i < old_v.len() implies lex_lt(k, #[trigger] old_v[i].0@) by {
            if i > idx {
                lemma_lex_transitive(k, old_v[idx as int].0@, old_v[i].0@);
            }
        }
    }
    let ghost m2 = m.insert(k, val@);
    let ghost vv = val@;
    v.insert(idx, (key, val));
    proof {
        assert(v@[idx as int].0@ == k);
        assert(v@[idx as int].1@ == vv);
        assert forall|i: int, j: int| 0 <= i < j < v@.len() implies lex_lt(#[trigger] v@[i].0@, #[trigger] v@[j].0@) by {
            if j < idx {
                assert(v@[i] == old_v[i] && v@[j] == old_v[j]);
            } else if j == idx {
                assert(v@[i] == old_v[i]);
            } else if i < idx {
                assert(v@[i] == old_v[i] && v@[j] == old_v[j - 1]);
                assert(lex_lt(k, old_v[j - 1].0@));
                lemma_lex_transitive(old_v[i].0@, k, old_v[j - 1].0@);
            } else if i == idx {
                assert(v@[j] == old_v[j - 1]);
                assert(lex_lt(k, old_v[j - 1].0@));
            } else {
                assert(v@[i] == old_v[i - 1] && v@[j] == old_v[j - 1]);
            }
        }
        assert forall|i: int| 0 <= i < v@.len() implies (#[trigger] v@[i]).0@.len() >= 1
            && v@[i].1@.len() >= 1 by {
            if i < idx {
                assert(v@[i] == old_v[i]);
            } else if i > idx {
                assert(v@[i] == old_v[i - 1]);
            }
        }
        assert forall|i: int| 0 <= i < v@.len() implies m2.contains_key((#[trigger] v@[i]).0@)
            && m2[v@[i].0@] == v@[i].1@ by {
            if i < idx {
                assert(v@[i] == old_v[i]);
            } else if i > idx {
                assert(v@[i] == old_v[i - 1]);
            }
        }
        assert forall|q: Seq<char>| #[trigger] m2.contains_key(q) implies exists|i: int|
            0 <= i < v@.len() && #[trigger] v@[i].0@ == q by {
            if q == k {
                assert(v@[idx as int].0@ == k);
            } else {
                let i = choose|i: int| 0 <= i < old_v.len() && #[trigger] old_v[i].0@ == q;
                if i < idx {
                    assert(v@[i] == old_v[i]);
                } else {
                    assert(v@[i + 1] == old_v[i]);
                }
            }
        }
    }
    Ghost(m2)
}

/// The single-character and phrase mappings of a dictionary text, each
/// sorted by key, first occurrence of a key winning.
pub struct ParsedDict {
    pub singles: Vec<(u32, u32)>,
    pub phrases: Vec<(Vec<char>, Vec<char>)>,
}

/// Parse dictionary text into its sorted single-character and phrase tables.
pub fn parse_dict(text: &str) -> (r: ParsedDict)
    ensures
        singles_ok(r.singles@, dict_from_text(text@).single),
        phrases_ok(r.phrases@, dict_from_text(text@).multi),
{
    let s = str_to_chars(text);
    let n = s.len();
    let mut singles: Vec<(u32, u32)> = Vec::new();
    let mut phrases: Vec<(Vec<char>, Vec<char>)> = Vec::new();
    let ghost mut processed: Seq<(Seq<char>, Seq<char>)> = Seq::empty();
    let mut sm: Ghost<Map<char, char>> = Ghost(Map::empty());
    let mut mm: Ghost<Map<Seq<char>, Seq<char>>> = Ghost(Map::empty());
    let mut pos: usize = 0;
    assert(s@.skip(0) =~= s@);
    loop
        invariant_except_break
            dict_entries(s@) == processed + dict_entries(s@.skip(pos as int)),
        invariant
            n == s@.len(),
            s@ == text@,
            pos <= n,
            sm@ == single_map(processed),
            mm@ == multi_map(processed),
            singles_ok(singles@, sm@),
            phrases_ok(phrases@, mm@),
        ensures
            dict_entries(s@) == processed,
            sm@ == single_map(processed),
            mm@ == multi_map(processed),
            singles_ok(singles@, sm@),
            phrases_ok(phrases@, mm@),
        decreases n - pos,
    {
        let ghost rest = s@.skip(pos as int);
        let mut e = pos;
        while e < n && s[e] != '\n'
            invariant
                pos <= e <= n,
                n == s@.len(),
                forall|m: int| pos <= m < e ==> s@[m] != '\n',
            decreases n - e,
        {
            e = e + 1;
        }
        let entry = parse_line(&s, pos, e);
        proof {
            if e < n {
                lemma_index_of_found(rest, '\n', e - pos);
                assert(rest.take(e - pos) =~= s@.subrange(pos as int, e as int));
                assert(rest.skip(e - pos + 1) =~= s@.skip(e + 1));
            } else {
                lemma_index_of_absent(rest, '\n');
                assert(rest =~= s@.subrange(pos as int, e as int));
            }
        }
        let ghost prev = processed;
        let ghost line = s@.subrange(pos as int, e as int);
        match entry {
            Some((key, val)) => {
                let ghost ent = (key@, val@);
                proof {
                    processed = prev.push(ent);
                    assert(processed.drop_last() =~= prev);
                    assert(opt_seq(line_entry(line)) =~= seq![ent]);
                    assert(prev + opt_seq(line_entry(line)) =~= processed);
                }
                if key.len() == 1 && val.len() == 1 {
                    assert(is_single_entry(ent));
                    assert(ent.0[0] == key@[0]);
                    sm = add_single(&mut singles, sm, key[0], val[0]);
                } else {
                    assert(!is_single_entry(ent));
                    mm = add_phrase(&mut phrases, mm, key, val);
                }
            },
            None => {
                proof {
                    assert(prev + opt_seq(line_entry(line)) =~= processed);
                }
            },
        }
        if e == n {
            proof {
                assert(dict_entries(rest) == opt_seq(line_entry(line)));
                assert(dict_entries(s@) =~= processed);
            }
            break;
        }
        proof {
            assert(dict_entries(rest) == opt_seq(line_entry(line)) + dict_entries(s@.skip(e + 1)));
            assert(dict_entries(s@) =~= processed + dict_entries(s@.skip(e + 1)));
        }
        pos = e + 1;
    }
    ParsedDict { singles, phrases }
}

/// Some phrase among the first `i` starts with `c`.
pub open spec fn started(v: Seq<(Vec<char>, Vec<char>)>, c: char, i: int) -> bool {
    exists|j: int| 0 <= j < i && (#[trigger] v[j]).0@[0] == c
}

/// Some entry of `u` is keyed by `c`.
pub open spec fn has_entry(u: Seq<(u32, u32)>, c: char) -> bool {
    exists|a: int| 0 <= a < u.len() && #[trigger] u[a].0 == c as u32
}

/// The unified table after marking the phrase starts of the first `i` phrases.
pub open spec fn partial_unified_ok(
    u: Seq<(u32, u32)>,
    d: DictModel,
    v: Seq<(Vec<char>, Vec<char>)>,
    i: int,
) -> bool {
    &&& forall|a: int, b: int| 0 <= a < b < u.len() ==> #[trigger] u[a].0 < #[trigger] u[b].0
    &&& forall|a: int|
        0 <= a < u.len() ==> {
            let e = #[trigger] u[a];
            let c = e.0 as char;
            &&& vstd::utf8::is_scalar(e.0)
            &&& (d.single.contains_key(c) || started(v, c, i))
            &&& e.1 == pack(mapped_code(d, c), started(v, c, i))
        }
    &&& forall|c: char| (d.single.contains_key(c) || started(v, c, i)) ==> #[trigger] has_entry(u, c)
}

proof fn lemma_set_start_bit(x: u32)
    requires
        x <= 0x10FFFF,
    ensures
        pack(x, false) | MULTI_START_BIT == pack(x, true),
        pack(x, true) | MULTI_START_BIT == pack(x, true),
        pack(0, true) == MULTI_START_BIT,
{
    assert(x <= 0x10FFFF ==> (x | 0x8000_0000u32) | 0x8000_0000u32 == x | 0x8000_0000u32) by (bit_vector);
    assert(0u32 | 0x8000_0000u32 == 0x8000_0000u32) by (bit_vector);
}

/// The unified table: every single mapping, packed with the flag telling
/// whether its character starts a phrase key, plus an entry for each phrase
/// start without a single mapping.
fn build_unified(
    singles: Vec<(u32, u32)>,
    phrases: &Vec<(Vec<char>, Vec<char>)>,
    Ghost(d): Ghost<DictModel>,
) -> (u: Vec<(u32, u32)>)
    requires
        singles_ok(singles@, d.single),
        phrases_ok(phrases@, d.multi),
    ensures
        unified_ok(u@, d),
{
    let mut u = singles;
    let n = phrases.len();
    let mut i: usize = 0;
    proof {
        assert forall|a: int| 0 <= a < u@.len() implies {
            let e = #[trigger] u@[a];
            let c = e.0 as char;
            &&& vstd::utf8::is_scalar(e.0)
            &&& (d.single.contains_key(c) || started(phrases@, c, 0))
            &&& e.1 == pack(mapped_code(d, c), started(phrases@, c, 0))
        } by {
            let c = u@[a].0 as char;
            vstd::utf8::char_is_scalar(d.single[c]);
            vstd::utf8::char_u32_cast(c, u@[a].0);
        }
    }
    while i < n
        invariant
            n == phrases@.len(),
            i <= n,
            phrases_ok(phrases@, d.multi),
            partial_unified_ok(u@, d, phrases@, i as int),
        decreases n - i,
    {
        let ghost old_u = u@;
        let key = &phrases[i].0;
        assert(phrases@[i as int].0@.len() >= 1);
        let c = key[0];
        let cp = c as u32;
        proof {
            vstd::utf8::char_is_scalar(c);
            vstd::utf8::char_u32_cast(c, cp);
            assert forall|c2: char| started(phrases@, c2, i + 1) == (started(phrases@, c2, i as int) || c2 == c) by {
                if c2 == c {
                    assert(phrases@[i as int].0@[0] == c);
                }
                if started(phrases@, c2, i + 1) && !started(phrases@, c2, i as int) {
                    let j = choose|j: int| 0 <= j < i + 1 && (#[trigger] phrases@[j]).0@[0] == c2;
                    assert(j == i);
                }
            }
        }
        let idx = lower_bound(&u, cp);
        if idx < u.len() && u[idx].0 == cp {
            let val = u[idx].1;
            proof {
                vstd::utf8::char_u32_cast(c, cp);
                let mc = mapped_code(d, c);
                if d.single.contains_key(c) {
                    vstd::utf8::char_is_scalar(d.single[c]);
                }
                lemma_set_start_bit(mc);
            }
            u.set(idx, (cp, val | MULTI_START_BIT));
            proof {
                assert forall|a: int| 0 <= a < u@.len() implies {
                    let e = #[trigger] u@[a];
                    let c2 = e.0 as char;
                    &&& vstd::utf8::is_scalar(e.0)
                    &&& (d.single.contains_key(c2) || started(phrases@, c2, i + 1))
                    &&& e.1 == pack(mapped_code(d, c2), started(phrases@, c2, i + 1))
                } by {
                    if a != idx {
                        assert(u@[a] == old_u[a]);
                        if old_u[a].0 as char == c {
                            vstd::utf8::char_u32_cast(c, cp);
                            assert(old_u[a].0 == old_u[idx as int].0);
                        }
                    }
                }
                assert forall|c2: char|
                    (d.single.contains_key(c2) || started(phrases@, c2, i + 1)) implies #[trigger] has_entry(u@, c2) by {
                    if c2 == c {
                        assert(u@[idx as int].0 == c2 as u32);
                    } else {
                        assert(has_entry(old_u, c2));
                        let a = choose|a: int| 0 <= a < old_u.len() && #[trigger] old_u[a].0 == c2 as u32;
                        assert(u@[a].0 == old_u[a].0);
                    }
                }
            }
        } else {
            proof {
                if d.single.contains_key(c) || started(phrases@, c, i as int) {
                    assert(has_entry(old_u, c));
                    let a = choose|a: int| 0 <= a < old_u.len() && #[trigger] old_u[a].0 == c as u32;
                    if a > idx {
                        assert(old_u[idx as int].0 < old_u[a].0);
                    }
                    assert(false);
                }
                lemma_set_start_bit(0);
            }
            u.insert(idx, (cp, MULTI_START_BIT));
            proof {
                assert forall|a: int, b: int| 0 <= a < b < u@.len() implies #[trigger] u@[a].0 < #[trigger] u@[b].0 by {
                    if b < idx {
                        assert(u@[a] == old_u[a] && u@[b] == old_u[b]);
                    } else if b == idx {
                        assert(u@[a] == old_u[a]);
                    } else if a < idx {
                        assert(u@[a] == old_u[a] && u@[b] == old_u[b - 1]);
                    } else if a == idx {
                        assert(u@[b] == old_u[b - 1]);
                    } else {
                        assert(u@[a] == old_u[a - 1] && u@[b] == old_u[b - 1]);
                    }
                }
                assert forall|a: int| 0 <= a < u@.len() implies {
                    let e = #[trigger] u@[a];
                    let c2 = e.0 as char;
                    &&& vstd::utf8::is_scalar(e.0)
                    &&& (d.single.contains_key(c2) || started(phrases@, c2, i + 1))
                    &&& e.1 == pack(mapped_code(d, c2), started(phrases@, c2, i + 1))
                } by {
                    if a == idx {
                        vstd::utf8::char_u32_cast(c, cp);
                    } else {
                        let a0 = if a < idx { a } else { a - 1 };
                        assert(u@[a] == old_u[a0]);
                        if old_u[a0].0 as char == c {
                            vstd::utf8::char_u32_cast(c, cp);
                            vstd::utf8::char_u32_cast(old_u[a0].0 as char, old_u[a0].0);
                        }
                    }
                }
                assert forall|c2: char|
                    (d.single.contains_key(c2) || started(phrases@, c2, i + 1)) implies #[trigger] has_entry(u@, c2) by {
                    if c2 == c {
                        assert(u@[idx as int].0 == c2 as u32);
                    } else {
                        assert(has_entry(old_u, c2));
                        let a = choose|a: int| 0 <= a < old_u.len() && #[trigger] old_u[a].0 == c2 as u32;
                        if a < idx {
                            assert(u@[a] == old_u[a]);
                        } else {
                            assert(u@[a + 1] == old_u[a]);
                        }
                    }
                }
            }
        }
        i = i + 1;
    }
    proof {
        assert forall|c: char| started(phrases@, c, n as int) == d.starts_multi(c) by {
            if started(phrases@, c, n as int) {
                let j = choose|j: int| 0 <= j < n && (#[trigger] phrases@[j]).0@[0] == c;
                let k = phrases@[j].0@;
                assert(d.multi.contains_key(k) && k.len() > 0 && k[0] == c);
            }
            if d.starts_multi(c) {
                let k = choose|k: Seq<char>| #[trigger] d.multi.contains_key(k) && k.len() > 0 && k[0] == c;
                let j = choose|j: int| 0 <= j < phrases@.len() && #[trigger] phrases@[j].0@ == k;
                assert(phrases@[j].0@[0] == c);
            }
        }
        assert forall|a: int| 0 <= a < u@.len() implies unified_entry_ok(d, #[trigger] u@[a]) by {
            let c = u@[a].0 as char;
            assert(started(phrases@, c, n as int) == d.starts_multi(c));
        }
        assert forall|c: char| (#[trigger] d.single.contains_key(c) || d.starts_multi(c)) implies exists|a: int|
            0 <= a < u@.len() && #[trigger] u@[a].0 == c as u32 by {
            assert(started(phrases@, c, n as int) == d.starts_multi(c));
            assert(has_entry(u@, c));
        }
    }
    u
}

/// Phrase `j` lies in some group's range.
pub open spec fn in_group(g: Seq<(u32, Group)>, j: int) -> bool {
    exists|a: int| 0 <= a < g.len() && #[trigger] g[a].1.start <= j < g[a].1.start + g[a].1.count
}

/// Groups sorted strictly by first code point, each a non-empty run of
/// phrases with that first character, together covering phrases `0..n`.
pub open spec fn groups_ok(g: Seq<(u32, Group)>, v: Seq<(Vec<char>, Vec<char>)>, n: int) -> bool {
    &&& forall|a: int, b: int| 0 <= a < b < g.len() ==> #[trigger] g[a].0 < #[trigger] g[b].0
    &&& forall|a: int|
        0 <= a < g.len() ==> {
            let e = #[trigger] g[a];
            &&& e.1.count >= 1
            &&& e.1.start + e.1.count <= n
            &&& forall|j: int| e.1.start <= j < e.1.start + e.1.count ==> (#[trigger] v[j]).0@[0] as u32 == e.0
        }
    &&& forall|j: int| 0 <= j < n ==> #[trigger] in_group(g, j)
    &&& g.len() == 0 ==> n == 0
    &&& g.len() > 0 ==> g[0].1.start == 0 && g[g.len() - 1].1.start + g[g.len() - 1].1.count == n
    &&& forall|a: int| 0 <= a < g.len() - 1 ==> #[trigger] g[a + 1].1.start == g[a].1.start + g[a].1.count
}

/// Partition the (sorted) phrase table into groups by first character.
fn build_groups(phrases: &Vec<(Vec<char>, Vec<char>)>) -> (g: Vec<(u32, Group)>)
    requires
        forall|i: int, j: int|
            0 <= i < j < phrases@.len() ==> lex_lt(#[trigger] phrases@[i].0@, #[trigger] phrases@[j].0@),
        forall|i: int| 0 <= i < phrases@.len() ==> (#[trigger] phrases@[i]).0@.len() >= 1,
    ensures
        groups_ok(g@, phrases@, phrases@.len() as int),
{
    let n = phrases.len();
    let mut groups: Vec<(u32, Group)> = Vec::new();
    let mut i: usize = 0;
    while i < n
        invariant
            n == phrases@.len(),
            i <= n,
            forall|a: int, j: int|
                0 <= a < j < phrases@.len() ==> lex_lt(#[trigger] phrases@[a].0@, #[trigger] phrases@[j].0@),
            forall|a: int| 0 <= a < phrases@.len() ==> (#[trigger] phrases@[a]).0@.len() >= 1,
            groups_ok(groups@, phrases@, i as int),
            i < n ==> forall|a: int|
                0 <= a < groups@.len() ==> #[trigger] groups@[a].0 < phrases@[i as int].0@[0] as u32,
        decreases n - i,
    {
        let fc = phrases[i].0[0];
        let start = i;
        while i < n && phrases[i].0[0] == fc
            invariant
                n == phrases@.len(),
                start <= i <= n,
                start < n,
                fc == phrases@[start as int].0@[0],
                forall|a: int| 0 <= a < phrases@.len() ==> (#[trigger] phrases@[a]).0@.len() >= 1,
                forall|j: int| start <= j < i ==> (#[trigger] phrases@[j]).0@[0] == fc,
            decreases n - i,
        {
            i = i + 1;
        }
        let ghost old_g = groups@;
        groups.push((fc as u32, Group { start, count: i - start }));
        proof {
            assert(i > start) by {
                assert(phrases@[start as int].0@[0] == fc);
            }
            let e = groups@[groups@.len() - 1];
            assert forall|a: int, b: int| 0 <= a < b < groups@.len() implies #[trigger] groups@[a].0
                < #[trigger] groups@[b].0 by {
                if b < old_g.len() {
                    assert(groups@[a] == old_g[a] && groups@[b] == old_g[b]);
                } else {
                    assert(groups@[a] == old_g[a]);
                }
            }
            assert forall|a: int| 0 <= a < groups@.len() implies {
                let e = #[trigger] groups@[a];
                &&& e.1.count >= 1
                &&& e.1.start + e.1.count <= i
                &&& forall|j: int| e.1.start <= j < e.1.start + e.1.count ==> (#[trigger] phrases@[j]).0@[0] as u32 == e.0
            } by {
                if a < old_g.len() {
                    assert(groups@[a] == old_g[a]);
                }
            }
            assert forall|a: int| 0 <= a < groups@.len() - 1 implies #[trigger] groups@[a + 1].1.start
                == groups@[a].1.start + groups@[a].1.count by {
                if a + 1 < old_g.len() {
                    assert(groups@[a] == old_g[a] && groups@[a + 1] == old_g[a + 1]);
                } else {
                    assert(groups@[a] == old_g[a]);
                }
            }
            if old_g.len() > 0 {
                assert(groups@[0] == old_g[0]);
            }
            assert forall|j: int| 0 <= j < i implies #[trigger] in_group(groups@, j) by {
                if j < start {
                    assert(in_group(old_g, j));
                    let a = choose|a: int| 0 <= a < old_g.len() && #[trigger] old_g[a].1.start <= j < old_g[a].1.start + old_g[a].1.count;
                    assert(groups@[a] == old_g[a]);
                } else {
                    assert(groups@[old_g.len() as int].1.start <= j < groups@[old_g.len() as int].1.start + groups@[old_g.len() as int].1.count);
                }
            }
            if i < n {
                let k0 = phrases@[i - 1].0@;
                let k1 = phrases@[i as int].0@;
                lemma_lex_first_char(k0, k1);
                assert(k0[0] == fc);
                if k1[0] as u32 == fc as u32 {
                    lemma_char_u32_injective(k1[0], fc);
                }
                assert forall|a: int| 0 <= a < groups@.len() implies #[trigger] groups@[a].0
                    < phrases@[i as int].0@[0] as u32 by {
                    if a < old_g.len() {
                        assert(groups@[a] == old_g[a]);
                    }
                }
            }
        }
    }
    groups
}

/// Every proper prefix of every key among the first `i` phrases is in the
/// filter.
pub open spec fn prefixes_in(b: Seq<u64>, v: Seq<(Vec<char>, Vec<char>)>, i: int) -> bool {
    forall|a: int, n: int|
        0 <= a < i && 1 <= n < v[a].0@.len() ==> bloom_has(b, #[trigger] key_hash(#[trigger] v[a].0@.take(n)))
}

/// Some proper prefix of `k` no longer than `j` characters sets bit `bit`.
pub open spec fn key_prefix_bit(k: Seq<char>, j: int, bit: u64) -> bool {
    exists|m: int| 1 <= m <= j && #[trigger] hits(key_hash(k.take(m)), bit)
}

/// The Bloom filter over all proper prefixes of all phrase keys: a bit is
/// set exactly when inserting some such prefix sets it.
fn build_bloom(phrases: &Vec<(Vec<char>, Vec<char>)>) -> (b: Vec<u64>)
    ensures
        b@.len() == BLOOM_WORDS,
        prefixes_in(b@, phrases@, phrases@.len() as int),
        phrases@.len() == 0 ==> forall|w: int| 0 <= w < BLOOM_WORDS ==> #[trigger] b@[w] == 0,
        forall|bit: u64|
            bit < BLOOM_BITS ==> (#[trigger] bit_set(b@, bit) <==> prefix_bit(
                phrases@,
                phrases@.len() as int,
                bit,
            )),
{
    let mut bloom: Vec<u64> = Vec::new();
    let mut w: usize = 0;
    while w < BLOOM_WORDS
        invariant
            w <= BLOOM_WORDS,
            bloom@.len() == w,
            forall|x: int| 0 <= x < w ==> #[trigger] bloom@[x] == 0,
        decreases BLOOM_WORDS - w,
    {
        bloom.push(0);
        w = w + 1;
    }
    proof {
        assert forall|bit: u64| bit < BLOOM_BITS implies !#[trigger] bit_set(bloom@, bit) by {
            lemma_zero_filter(bloom@, bit);
        }
    }
    let n = phrases.len();
    let mut i: usize = 0;
    while i < n
        invariant
            n == phrases@.len(),
            i <= n,
            bloom@.len() == BLOOM_WORDS,
            prefixes_in(bloom@, phrases@, i as int),
            n == 0 ==> forall|x: int| 0 <= x < BLOOM_WORDS ==> #[trigger] bloom@[x] == 0,
            forall|bit: u64|
                bit < BLOOM_BITS ==> (#[trigger] bit_set(bloom@, bit) <==> prefix_bit(
                    phrases@,
                    i as int,
                    bit,
                )),
        decreases n - i,
    {
        let key = &phrases[i].0;
        let len = key.len();
        let mut h: u64 = 0;
        let mut j: usize = 0;
        proof {
            lemma_key_hash_empty();
            assert(key@.take(0) =~= Seq::<char>::empty());
        }
        while j + 1 < len
            invariant
                n == phrases@.len(),
                i < n,
                key@ == phrases@[i as int].0@,
                len == key@.len(),
                j + 1 <= len || len == 0,
                j <= len,
                bloom@.len() == BLOOM_WORDS,
                h == key_hash(key@.take(j as int)),
                prefixes_in(bloom@, phrases@, i as int),
                forall|m: int| 1 <= m <= j ==> bloom_has(bloom@, #[trigger] key_hash(key@.take(m))),
                forall|bit: u64|
                    bit < BLOOM_BITS ==> (#[trigger] bit_set(bloom@, bit) <==> prefix_bit(
                        phrases@,
                        i as int,
                        bit,
                    ) || key_prefix_bit(key@, j as int, bit)),
            decreases len - j,
        {
            let c = key[j];
            proof {
                lemma_key_hash_push(key@.take(j as int), c);
                assert(key@.take(j as int).push(c) =~= key@.take(j + 1));
            }
            h = fx_extend_char(h, c);
            j = j + 1;
            let ghost before = bloom@;
            bloom_insert(&mut bloom, h);
            proof {
                assert forall|a: int, m: int|
                    0 <= a < i && 1 <= m < phrases@[a].0@.len() implies bloom_has(
                    bloom@,
                    #[trigger] key_hash(#[trigger] phrases@[a].0@.take(m)),
                ) by {
                    assert(bloom_has(before, key_hash(phrases@[a].0@.take(m))));
                }
                assert forall|m: int| 1 <= m <= j implies bloom_has(bloom@, #[trigger] key_hash(key@.take(m))) by {
                    if m < j {
                        assert(bloom_has(before, key_hash(key@.take(m))));
                    }
                }
                assert forall|bit: u64| bit < BLOOM_BITS implies (#[trigger] bit_set(bloom@, bit)
                    <==> prefix_bit(phrases@, i as int, bit) || key_prefix_bit(key@, j as int, bit)) by {
                    if key_prefix_bit(key@, j as int, bit) {
                        let m = choose|m: int| 1 <= m <= j && #[trigger] hits(key_hash(key@.take(m)), bit);
                        if m < j {
                            assert(key_prefix_bit(key@, j - 1, bit));
                        }
                    }
                    if hits(h, bit) {
                        assert(hits(key_hash(key@.take(j as int)), bit));
                    }
                    if key_prefix_bit(key@, j - 1, bit) {
                        let m = choose|m: int| 1 <= m <= j - 1 && #[trigger] hits(key_hash(key@.take(m)), bit);
                        assert(hits(key_hash(key@.take(m)), bit));
                    }
                }
            }
        }
        proof {
            assert forall|a: int, m: int|
                0 <= a < i + 1 && 1 <= m < phrases@[a].0@.len() implies bloom_has(
                bloom@,
                #[trigger] key_hash(#[trigger] phrases@[a].0@.take(m)),
            ) by {
                if a == i {
                    assert(bloom_has(bloom@, key_hash(key@.take(m))));
                }
            }
            assert forall|bit: u64| bit < BLOOM_BITS implies (#[trigger] bit_set(bloom@, bit)
                <==> prefix_bit(phrases@, i + 1, bit)) by {
                if prefix_bit(phrases@, i + 1, bit) {
                    let (a, m) = choose|a: int, m: int|
                        0 <= a < i + 1 && 1 <= m < phrases@[a].0@.len() && #[trigger] hits(
                            key_hash(phrases@[a].0@.take(m)),
                            bit,
                        );
                    if a < i {
                        assert(prefix_bit(phrases@, i as int, bit));
                    } else {
                        assert(hits(key_hash(key@.take(m)), bit));
                        assert(key_prefix_bit(key@, j as int, bit));
                    }
                }
                if prefix_bit(phrases@, i as int, bit) {
                    let (a, m) = choose|a: int, m: int|
                        0 <= a < i && 1 <= m < phrases@[a].0@.len() && #[trigger] hits(
                            key_hash(phrases@[a].0@.take(m)),
                            bit,
                        );
                    assert(hits(key_hash(phrases@[a].0@.take(m)), bit));
                }
                if key_prefix_bit(key@, j as int, bit) {
                    let m = choose|m: int| 1 <= m <= j && #[trigger] hits(key_hash(key@.take(m)), bit);
                    assert(hits(key_hash(phrases@[i as int].0@.take(m)), bit));
                }
            }
        }
        i = i + 1;
    }
    bloom
}

/// The largest key length, or 1 when there are no phrases.
fn max_key_len(phrases: &Vec<(Vec<char>, Vec<char>)>) -> (r: usize)
    requires
        forall|i: int| 0 <= i < phrases@.len() ==> (#[trigger] phrases@[i]).0@.len() >= 1,
    ensures
        r >= 1,
        phrases@.len() == 0 ==> r == 1,
        forall|i: int| 0 <= i < phrases@.len() ==> (#[trigger] phrases@[i]).0@.len() <= r,
        phrases@.len() > 0 ==> exists|i: int| 0 <= i < phrases@.len() && (#[trigger] phrases@[i]).0@.len() == r,
{
    let n = phrases.len();
    if n == 0 {
        return 1;
    }
    let mut best = phrases[0].0.len();
    let mut i: usize = 1;
    while i < n
        invariant
            n == phrases@.len(),
            1 <= i <= n,
            forall|a: int| 0 <= a < i ==> (#[trigger] phrases@[a]).0@.len() <= best,
            exists|a: int| 0 <= a < i && (#[trigger] phrases@[a]).0@.len() == best,
        decreases n - i,
    {
        let l = phrases[i].0.len();
        if l > best {
            best = l;
        }
        i = i + 1;
    }
    assert(phrases@[0].0@.len() >= 1);
    best
}

/// Build the lookup tables of the dictionary that `text` describes.
pub fn build_tables(text: &str) -> (t: Tables)
    ensures
        t.wf(),
        t.model() == dict_from_text(text@),
{
    let ghost d = dict_from_text(text@);
    let parsed = parse_dict(text);
    let ParsedDict { singles, phrases } = parsed;
    let unified = build_unified(singles, &phrases, Ghost(d));
    let multi_groups = build_groups(&phrases);
    let prefix_bloom = build_bloom(&phrases);
    let max_key_len = max_key_len(&phrases);
    let n = unified.len();
    let (min_key, max_key) = if n > 0 {
        (unified[0].0, unified[n - 1].0)
    } else {
        (0, 0)
    };
    let t = Tables {
        unified,
        min_key,
        max_key,
        multi: phrases,
        multi_groups,
        prefix_bloom,
        max_key_len,
        single_map: Ghost(d.single),
        multi_map: Ghost(d.multi),
    };
    proof {
        assert(t.model() == d);
        assert(t.unified_wf());
        assert forall|i: int, j: int|
            0 <= i < j < t.multi@.len() implies lex_lt(#[trigger] t.mkey(i), #[trigger] t.mkey(j)) by {
            assert(lex_lt(t.multi@[i].0@, t.multi@[j].0@));
        }
        assert forall|i: int| 0 <= i < t.multi@.len() implies 1 <= #[trigger] t.mkey(i).len() <= t.max_key_len by {
            assert(t.multi@[i].0@.len() >= 1);
        }
        assert forall|i: int| 0 <= i < t.multi@.len() implies t.multi_map@.contains_key(#[trigger] t.mkey(i))
            && t.multi_map@[t.mkey(i)] == t.mval(i) by {
            assert(d.multi.contains_key(t.multi@[i].0@));
        }
        assert forall|k: Seq<char>| #[trigger] t.multi_map@.contains_key(k) implies exists|i: int|
            0 <= i < t.multi@.len() && #[trigger] t.mkey(i) == k by {
            let i = choose|i: int| 0 <= i < t.multi@.len() && #[trigger] t.multi@[i].0@ == k;
            assert(t.mkey(i) == k);
        }
        assert forall|i: int| 0 <= i < t.multi@.len() implies #[trigger] t.mval(i).len() >= 1 by {
            assert(t.multi@[i].1@.len() >= 1);
        }
        if t.multi@.len() > 0 {
            let i = choose|i: int| 0 <= i < t.multi@.len() && (#[trigger] t.multi@[i]).0@.len() == t.max_key_len;
            assert(t.mkey(i).len() == t.max_key_len);
        }
        assert(t.multi_wf());
        assert forall|g: int| 0 <= g < t.multi_groups@.len() implies {
            let e = #[trigger] t.multi_groups@[g];
            &&& e.1.count >= 1
            &&& e.1.start + e.1.count <= t.multi@.len()
            &&& forall|j: int| e.1.start <= j < e.1.start + e.1.count ==> (#[trigger] t.mkey(j))[0] as u32 == e.0
        } by {
            let e = t.multi_groups@[g];
            assert forall|j: int| e.1.start <= j < e.1.start + e.1.count implies (#[trigger] t.mkey(j))[0] as u32 == e.0 by {
                assert(t.multi@[j].0@[0] as u32 == e.0);
            }
        }
        assert forall|j: int| 0 <= j < t.multi@.len() implies #[trigger] t.in_some_group(j) by {
            assert(in_group(t.multi_groups@, j));
        }
        assert forall|g: int| 0 <= g < t.multi_groups@.len() - 1 implies t.multi_groups@[g + 1].1.start
            == #[trigger] t.group_end(g) by {
            assert(t.multi_groups@[g + 1].1.start == t.multi_groups@[g].1.start + t.multi_groups@[g].1.count);
        }
        assert(t.groups_wf());
        assert forall|i: int, m: int|
            0 <= i < t.multi@.len() && 1 <= m < t.mkey(i).len() implies bloom_has(
            t.prefix_bloom@,
            #[trigger] key_hash(#[trigger] t.mkey(i).take(m)),
        ) by {
            assert(bloom_has(t.prefix_bloom@, key_hash(t.multi@[i].0@.take(m))));
        }
        assert(t.bloom_wf());
    }
    t
}

/// The lookup tables of a conversion direction's built-in dictionary.
pub fn tables_for(ct: ConvertType) -> (t: Tables)
    ensures
        t.wf(),
        t.model() == dictionary_for(ct),
{
    build_tables(raw_text(ct))
}

} // verus!
