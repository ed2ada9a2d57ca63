//! Lookup tables for one conversion direction, their invariant, and the
//! lookups the converter performs on them.
//!
//! Layout:
//! - a sorted unified table `(key code point, packed value)` merging the
//!   single-character mapping and the "starts a phrase key" flag, so one
//!   binary search answers both;
//! - the phrase table sorted by key, partitioned into groups by first
//!   character;
//! - a Bloom filter over every proper prefix of every phrase key.

use vstd::prelude::*;
use crate::bloom::{bit_set, bloom_has, hits, key_hash, prefix_bit, BLOOM_BITS, BLOOM_WORDS};
use crate::keys::{
    compare_key, lemma_char_u32_injective, lemma_lex_irreflexive, lemma_lex_transitive, lex_lt,
    KeyOrder,
};
use crate::model::DictModel;

verus! {

/// Bit flag in a unified value: the key character starts a phrase key.
pub const MULTI_START_BIT: u32 = 0x8000_0000;

/// Mask of the mapped character's code point in a unified value.
pub const CHAR_MASK: u32 = 0x1F_FFFF;

/// Packed unified value: the mapped code point (0 for none) and the
/// phrase-start flag.
pub open spec fn pack(mapped_cp: u32, multi_start: bool) -> u32 {
    if multi_start {
        mapped_cp | MULTI_START_BIT
    } else {
        mapped_cp
    }
}

pub proof fn lemma_pack_decode(v: u32, m: bool)
    requires
        v <= 0x10FFFF,
    ensures
        pack(v, m) & CHAR_MASK == v,
        (pack(v, m) & MULTI_START_BIT != 0) == m,
{
    assert(v <= 0x10FFFF ==> (v | 0x8000_0000u32) & 0x1F_FFFFu32 == v) by (bit_vector);
    assert(v <= 0x10FFFF ==> v & 0x1F_FFFFu32 == v) by (bit_vector);
    assert((v | 0x8000_0000u32) & 0x8000_0000u32 != 0) by (bit_vector);
    assert(v <= 0x10FFFF ==> v & 0x8000_0000u32 == 0) by (bit_vector);
}

/// The code point stored for an optional single mapping (0 for none).
pub open spec fn mapped_code(d: DictModel, c: char) -> u32 {
    if d.single.contains_key(c) {
        d.single[c] as u32
    } else {
        0
    }
}

/// A unified entry is the packed record of the character it is keyed by.
pub open spec fn unified_entry_ok(d: DictModel, e: (u32, u32)) -> bool {
    let c = e.0 as char;
    &&& vstd::utf8::is_scalar(e.0)
    &&& (d.single.contains_key(c) || d.starts_multi(c))
    &&& e.1 == pack(mapped_code(d, c), d.starts_multi(c))
}

/// A unified table sorted strictly by key holding one entry for each
/// character with a single mapping or starting a phrase key.
pub open spec fn unified_ok(u: Seq<(u32, u32)>, d: DictModel) -> bool {
    &&& forall|i: int, j: int| 0 <= i < j < u.len() ==> #[trigger] u[i].0 < #[trigger] u[j].0
    &&& forall|i: int| 0 <= i < u.len() ==> unified_entry_ok(d, #[trigger] u[i])
    &&& forall|c: char|
        (#[trigger] d.single.contains_key(c) || d.starts_multi(c)) ==> exists|i: int|
            0 <= i < u.len() && #[trigger] u[i].0 == c as u32
}

/// A run of phrases sharing their first character: the index of its first
/// phrase and the number of phrases.
#[derive(Clone, Copy)]
pub struct Group {
    pub start: usize,
    pub count: usize,
}

/// Tables bundle for a single conversion direction.
pub struct Tables {
    /// Sorted unified table: (key code point, packed value).
    pub unified: Vec<(u32, u32)>,
    /// Smallest and largest unified key, for the range guard.
    pub min_key: u32,
    pub max_key: u32,
    /// Phrase mappings, sorted by key.
    pub multi: Vec<(Vec<char>, Vec<char>)>,
    /// Phrase groups by first character: (first code point, start, count).
    pub multi_groups: Vec<(u32, Group)>,
    /// Bloom filter over all proper prefixes of phrase keys.
    pub prefix_bloom: Vec<u64>,
    /// Largest character count of any phrase key (1 when there is none).
    pub max_key_len: usize,
    /// The single-character mappings the unified table encodes.
    pub single_map: Ghost<Map<char, char>>,
    /// The phrase mappings the phrase table holds.
    pub multi_map: Ghost<Map<Seq<char>, Seq<char>>>,
}

impl Tables {
    pub open spec fn model(&self) -> DictModel {
        DictModel { single: self.single_map@, multi: self.multi_map@ }
    }

    pub open spec fn mkey(&self, i: int) -> Seq<char> {
        self.multi@[i].0@
    }

    pub open spec fn mval(&self, i: int) -> Seq<char> {
        self.multi@[i].1@
    }

    pub open spec fn unified_wf(&self) -> bool {
        &&& unified_ok(self.unified@, self.model())
        &&& self.unified@.len() > 0 ==> self.min_key == self.unified@[0].0 && self.max_key
            == self.unified@[self.unified@.len() - 1].0
        &&& self.unified@.len() == 0 ==> self.min_key == 0 && self.max_key == 0
    }

    pub open spec fn multi_wf(&self) -> bool {
        &&& self.max_key_len >= 1
        &&& forall|i: int, j: int|
            0 <= i < j < self.multi@.len() ==> lex_lt(#[trigger] self.mkey(i), #[trigger] self.mkey(j))
        &&& forall|i: int|
            0 <= i < self.multi@.len() ==> 1 <= #[trigger] self.mkey(i).len() <= self.max_key_len
        &&& forall|i: int| 0 <= i < self.multi@.len() ==> #[trigger] self.mval(i).len() >= 1
        &&& self.multi@.len() == 0 ==> self.max_key_len == 1
        &&& self.multi@.len() > 0 ==> exists|i: int|
            0 <= i < self.multi@.len() && #[trigger] self.mkey(i).len() == self.max_key_len
        &&& forall|i: int|
            0 <= i < self.multi@.len() ==> self.multi_map@.contains_key(#[trigger] self.mkey(i))
                && self.multi_map@[self.mkey(i)] == self.mval(i)
        &&& forall|k: Seq<char>|
            #[trigger] self.multi_map@.contains_key(k) ==> exists|i: int|
                0 <= i < self.multi@.len() && #[trigger] self.mkey(i) == k
    }

    pub open spec fn groups_wf(&self) -> bool {
        &&& forall|a: int, b: int|
            0 <= a < b < self.multi_groups@.len() ==> #[trigger] self.multi_groups@[a].0
                < #[trigger] self.multi_groups@[b].0
        &&& forall|g: int|
            0 <= g < self.multi_groups@.len() ==> {
                let e = #[trigger] self.multi_groups@[g];
                &&& e.1.count >= 1
                &&& e.1.start + e.1.count <= self.multi@.len()
                &&& forall|j: int| e.1.start <= j < e.1.start + e.1.count ==> (#[trigger] self.mkey(j))[0] as u32 == e.0
            }
        &&& forall|j: int| 0 <= j < self.multi@.len() ==> #[trigger] self.in_some_group(j)
        &&& self.multi_groups@.len() == 0 ==> self.multi@.len() == 0
        &&& self.multi_groups@.len() > 0 ==> self.multi_groups@[0].1.start == 0
            && self.group_end(self.multi_groups@.len() - 1) == self.multi@.len()
        &&& forall|g: int|
            0 <= g < self.multi_groups@.len() - 1 ==> self.multi_groups@[g + 1].1.start
                == #[trigger] self.group_end(g)
    }

    /// The index after the last phrase of group `g`.
    pub open spec fn group_end(&self, g: int) -> int {
        self.multi_groups@[g].1.start + self.multi_groups@[g].1.count
    }

    /// Phrase `j` lies in some group's range.
    pub open spec fn in_some_group(&self, j: int) -> bool {
        exists|g: int|
            0 <= g < self.multi_groups@.len() && #[trigger] self.multi_groups@[g].1.start <= j
                < self.multi_groups@[g].1.start + self.multi_groups@[g].1.count
    }

    pub open spec fn bloom_wf(&self) -> bool {
        &&& self.prefix_bloom@.len() == BLOOM_WORDS
        &&& forall|i: int, n: int|
            0 <= i < self.multi@.len() && 1 <= n < self.mkey(i).len() ==> bloom_has(
                self.prefix_bloom@,
                #[trigger] key_hash(#[trigger] self.mkey(i).take(n)),
            )
        &&& self.multi@.len() == 0 ==> forall|w: int|
            0 <= w < BLOOM_WORDS ==> #[trigger] self.prefix_bloom@[w] == 0
        &&& forall|bit: u64|
            bit < BLOOM_BITS ==> (#[trigger] bit_set(self.prefix_bloom@, bit) <==> prefix_bit(
                self.multi@,
                self.multi@.len() as int,
                bit,
            ))
    }

    pub open spec fn wf(&self) -> bool {
        &&& self.unified_wf()
        &&& self.multi_wf()
        &&& self.groups_wf()
        &&& self.bloom_wf()
    }
}

/// A copy of `v`.
fn copy_vec<T: Copy>(v: &Vec<T>) -> (r: Vec<T>)
    ensures
        r@ == v@,
{
    let mut r: Vec<T> = Vec::new();
    let mut i: usize = 0;
    while i < v.len()
        invariant
            i <= v@.len(),
            r@ == v@.take(i as int),
        decreases v@.len() - i,
    {
        r.push(v[i]);
        i = i + 1;
        assert(r@ =~= v@.take(i as int));
    }
    assert(v@.take(i as int) =~= v@);
    r
}

impl Tables {
    /// A copy of the tables.
    pub fn duplicate(&self) -> (r: Tables)
        requires
            self.wf(),
        ensures
            r.wf(),
            r.model() == self.model(),
    {
        let mut multi: Vec<(Vec<char>, Vec<char>)> = Vec::new();
        let mut i: usize = 0;
        while i < self.multi.len()
            invariant
                i <= self.multi@.len(),
                multi@.len() == i,
                forall|j: int| 0 <= j < i ==> (#[trigger] multi@[j]).0@ == self.mkey(j) && multi@[j].1@ == self.mval(j),
            decreases self.multi@.len() - i,
        {
            multi.push((copy_vec(&self.multi[i].0), copy_vec(&self.multi[i].1)));
            i = i + 1;
        }
        let r = Tables {
            unified: copy_vec(&self.unified),
            min_key: self.min_key,
            max_key: self.max_key,
            multi,
            multi_groups: copy_vec(&self.multi_groups),
            prefix_bloom: copy_vec(&self.prefix_bloom),
            max_key_len: self.max_key_len,
            single_map: Ghost(self.single_map@),
            multi_map: Ghost(self.multi_map@),
        };
        assert forall|j: int| 0 <= j < r.multi@.len() implies #[trigger] r.mkey(j) == self.mkey(j) && r.mval(j) == self.mval(j) by {
            assert(multi@[j].0@ == self.mkey(j));
        }
        assert(r.unified_wf());
        assert(r.multi_wf()) by {
            if r.multi@.len() > 0 {
                let i = choose|i: int| 0 <= i < self.multi@.len() && #[trigger] self.mkey(i).len() == self.max_key_len;
                assert(r.mkey(i) == self.mkey(i));
            }
            assert forall|k: Seq<char>| #[trigger] r.multi_map@.contains_key(k) implies exists|i: int|
                0 <= i < r.multi@.len() && #[trigger] r.mkey(i) == k by {
                let i = choose|i: int| 0 <= i < self.multi@.len() && #[trigger] self.mkey(i) == k;
                assert(r.mkey(i) == self.mkey(i));
            }
        }
        assert(r.groups_wf()) by {
            assert forall|g: int| 0 <= g < r.multi_groups@.len() implies {
                let e = #[trigger] r.multi_groups@[g];
                &&& e.1.count >= 1
                &&& e.1.start + e.1.count <= r.multi@.len()
                &&& forall|j: int| e.1.start <= j < e.1.start + e.1.count ==> (#[trigger] r.mkey(j))[0] as u32 == e.0
            } by {
                let e = r.multi_groups@[g];
                assert(e == self.multi_groups@[g]);
                assert forall|j: int| e.1.start <= j < e.1.start + e.1.count implies (#[trigger] r.mkey(j))[0] as u32 == e.0 by {
                    assert(r.mkey(j) == self.mkey(j));
                }
            }
            assert forall|j: int| 0 <= j < r.multi@.len() implies #[trigger] r.in_some_group(j) by {
                assert(self.in_some_group(j));
                let g = choose|g: int|
                    0 <= g < self.multi_groups@.len() && #[trigger] self.multi_groups@[g].1.start <= j
                        < self.multi_groups@[g].1.start + self.multi_groups@[g].1.count;
                assert(r.multi_groups@[g] == self.multi_groups@[g]);
            }
            assert forall|g: int| 0 <= g < r.multi_groups@.len() - 1 implies r.multi_groups@[g + 1].1.start
                == #[trigger] r.group_end(g) by {
                assert(self.multi_groups@[g + 1].1.start == self.group_end(g));
            }
        }
        assert(r.bloom_wf()) by {
            assert forall|i: int, n: int|
                0 <= i < r.multi@.len() && 1 <= n < r.mkey(i).len() implies bloom_has(
                r.prefix_bloom@,
                #[trigger] key_hash(#[trigger] r.mkey(i).take(n)),
            ) by {
                assert(r.mkey(i) == self.mkey(i));
            }
            let len = r.multi@.len() as int;
            assert forall|bit: u64| bit < BLOOM_BITS implies (#[trigger] bit_set(r.prefix_bloom@, bit)
                <==> prefix_bit(r.multi@, len, bit)) by {
                if prefix_bit(r.multi@, len, bit) {
                    let (a, n) = choose|a: int, n: int|
                        0 <= a < len && 1 <= n < r.multi@[a].0@.len() && #[trigger] hits(
                            key_hash(r.multi@[a].0@.take(n)),
                            bit,
                        );
                    assert(r.mkey(a) == self.mkey(a));
                    assert(hits(key_hash(self.multi@[a].0@.take(n)), bit));
                }
                if prefix_bit(self.multi@, len, bit) {
                    let (a, n) = choose|a: int, n: int|
                        0 <= a < len && 1 <= n < self.multi@[a].0@.len() && #[trigger] hits(
                            key_hash(self.multi@[a].0@.take(n)),
                            bit,
                        );
                    assert(r.mkey(a) == self.mkey(a));
                    assert(hits(key_hash(r.multi@[a].0@.take(n)), bit));
                }
            }
        }
        r
    }
}

/// Total number of phrases in the groups `g`.
pub open spec fn counts_sum(g: Seq<(u32, Group)>) -> int
    decreases g.len(),
{
    if g.len() == 0 {
        0
    } else {
        counts_sum(g.drop_last()) + g.last().1.count
    }
}

impl Tables {
    /// The phrase groups partition the phrase table: they are contiguous,
    /// start at phrase 0, end at the last phrase, and their sizes add up to
    /// the number of phrases.
    pub proof fn lemma_groups_partition(&self)
        requires
            self.groups_wf(),
        ensures
            counts_sum(self.multi_groups@) == self.multi@.len(),
    {
        let g = self.multi_groups@;
        if g.len() > 0 {
            self.lemma_groups_prefix_sum(g.len() as int);
            assert(g.take(g.len() as int) =~= g);
        }
    }

    proof fn lemma_groups_prefix_sum(&self, k: int)
        requires
            self.groups_wf(),
            1 <= k <= self.multi_groups@.len(),
        ensures
            counts_sum(self.multi_groups@.take(k)) == self.group_end(k - 1),
        decreases k,
    {
        let g = self.multi_groups@;
        assert(g.take(k).drop_last() =~= g.take(k - 1));
        assert(counts_sum(g.take(k)) == counts_sum(g.take(k - 1)) + g.take(k).last().1.count);
        if k > 1 {
            self.lemma_groups_prefix_sum(k - 1);
            assert(self.multi_groups@[(k - 2) + 1].1.start == self.group_end(k - 2));
            assert(g.take(k).last() == g[k - 1]);
        } else {
            assert(g.take(0) =~= Seq::<(u32, Group)>::empty());
            assert(counts_sum(g.take(0)) == 0);
            assert(g.take(k).last() == g[0]);
            assert(g[0].1.start == 0);
        }
    }
}

/// Result of looking up a character in the unified table.
#[derive(Clone, Copy)]
pub struct UnifiedLookup {
    /// Mapped character (`None` if no single-character mapping exists).
    pub mapped: Option<char>,
    /// Whether this character starts a phrase key.
    pub multi_start: bool,
}

/// `char::from_u32`: the character with code point `v`, or `None` when `v`
/// is not a Unicode scalar value (a surrogate or above U+10FFFF).
#[verifier::external_body]
fn char_from_u32(v: u32) -> (r: Option<char>)
    ensures
        r == (if vstd::utf8::is_scalar(v) {
            Some(v as char)
        } else {
            None::<char>
        }),
{
    char::from_u32(v)
}

/// First position whose key is not below `key`, in a table sorted strictly
/// by its first component.
pub fn lower_bound<V>(u: &Vec<(u32, V)>, key: u32) -> (r: usize)
    requires
        forall|i: int, j: int| 0 <= i < j < u@.len() ==> #[trigger] u@[i].0 < #[trigger] u@[j].0,
    ensures
        r <= u@.len(),
        forall|i: int| 0 <= i < r ==> #[trigger] u@[i].0 < key,
        forall|i: int| r <= i < u@.len() ==> #[trigger] u@[i].0 >= key,
{
    let mut lo: usize = 0;
    let mut hi: usize = u.len();
    while lo < hi
        invariant
            0 <= lo <= hi <= u@.len(),
            forall|i: int, j: int| 0 <= i < j < u@.len() ==> #[trigger] u@[i].0 < #[trigger] u@[j].0,
            forall|i: int| 0 <= i < lo ==> #[trigger] u@[i].0 < key,
            forall|i: int| hi <= i < u@.len() ==> #[trigger] u@[i].0 >= key,
        decreases hi - lo,
    {
        let mid = lo + (hi - lo) / 2;
        if u[mid].0 < key {
            assert forall|i: int| 0 <= i < mid + 1 implies #[trigger] u@[i].0 < key by {
                if i < mid {
                    assert(u@[i].0 < u@[mid as int].0);
                }
            }
            lo = mid + 1;
        } else {
            assert forall|i: int| mid <= i < u@.len() implies #[trigger] u@[i].0 >= key by {
                if i > mid {
                    assert(u@[mid as int].0 < u@[i].0);
                }
            }
            hi = mid;
        }
    }
    lo
}

/// Binary search for `key` in a table sorted strictly by its first component.
fn search_by_key<V>(u: &Vec<(u32, V)>, key: u32) -> (r: Option<usize>)
    requires
        forall|i: int, j: int| 0 <= i < j < u@.len() ==> #[trigger] u@[i].0 < #[trigger] u@[j].0,
    ensures
        match r {
            Some(i) => i < u@.len() && u@[i as int].0 == key,
            None => forall|i: int| 0 <= i < u@.len() ==> #[trigger] u@[i].0 != key,
        },
{
    let idx = lower_bound(u, key);
    if idx < u.len() && u[idx].0 == key {
        Some(idx)
    } else {
        assert forall|i: int| 0 <= i < u@.len() implies #[trigger] u@[i].0 != key by {
            if i > idx {
                assert(u@[idx as int].0 < u@[i].0);
            }
        }
        None
    }
}

impl Tables {
    /// One binary search in the unified table: the single mapping and the
    /// phrase-start flag of `c`, or `None` when `c` has neither entry.
    pub fn lookup_unified(&self, c: char) -> (r: Option<UnifiedLookup>)
        requires
            self.unified_wf(),
        ensures
            r is None <==> !(self.single_map@.contains_key(c) || self.model().starts_multi(c)),
            r matches Some(u) ==> u.mapped == self.model().mapped(c) && u.multi_start
                == self.model().starts_multi(c),
    {
        let cp = c as u32;
        if cp < self.min_key || cp > self.max_key {
            proof {
                if self.single_map@.contains_key(c) || self.model().starts_multi(c) {
                    let i = choose|i: int| 0 <= i < self.unified@.len() && #[trigger] self.unified@[i].0 == c as u32;
                    let last = self.unified@.len() - 1;
                    if i > 0 {
                        assert(self.unified@[0].0 < self.unified@[i].0);
                    }
                    if i < last {
                        assert(self.unified@[i].0 < self.unified@[last].0);
                    }
                }
            }
            return None;
        }
        match search_by_key(&self.unified, cp) {
            Some(i) => {
                let val = self.unified[i].1;
                let ghost d = self.model();
                proof {
                    assert(unified_entry_ok(d, self.unified@[i as int]));
                    vstd::utf8::char_u32_cast(c, cp);
                    vstd::utf8::char_is_scalar(c);
                    if d.single.contains_key(c) {
                        vstd::utf8::char_is_scalar(d.single[c]);
                    }
                    lemma_pack_decode(mapped_code(d, c), d.starts_multi(c));
                }
                let mapped_cp = val & CHAR_MASK;
                let mapped = if mapped_cp != 0 {
                    proof {
                        vstd::utf8::char_u32_cast(d.single[c], mapped_cp);
                        vstd::utf8::char_is_scalar(d.single[c]);
                    }
                    char_from_u32(mapped_cp)
                } else {
                    proof {
                        if d.single.contains_key(c) {
                            lemma_char_u32_injective(d.single[c], '\0');
                        }
                    }
                    None
                };
                let multi_start = (val & MULTI_START_BIT) != 0;
                Some(UnifiedLookup { mapped, multi_start })
            },
            None => None,
        }
    }

    /// The index range of the phrase group whose keys start with `first`
    /// (empty when there is none).
    pub fn get_multi_group(&self, first: char) -> (r: (usize, usize))
        requires
            self.multi_wf(),
            self.groups_wf(),
        ensures
            r.0 <= r.1 <= self.multi@.len(),
            forall|j: int| r.0 <= j < r.1 ==> (#[trigger] self.mkey(j))[0] == first,
            forall|j: int|
                0 <= j < self.multi@.len() && (#[trigger] self.mkey(j))[0] == first ==> r.0 <= j
                    < r.1,
    {
        let cp = first as u32;
        match search_by_key(&self.multi_groups, cp) {
            Some(g) => {
                let n = self.multi.len();
                let group = self.multi_groups[g].1;
                let start = group.start;
                let count = group.count;
                proof {
                    let e = self.multi_groups@[g as int];
                    assert(start + count <= n);
                    assert forall|j: int| start <= j < start + count implies (#[trigger] self.mkey(
                        j,
                    ))[0] == first by {
                        assert(self.mkey(j)[0] as u32 == e.0);
                        lemma_char_u32_injective(self.mkey(j)[0], first);
                    }
                    assert forall|j: int|
                        0 <= j < self.multi@.len() && (#[trigger] self.mkey(j))[0]
                            == first implies start <= j < start + count by {
                        assert(self.in_some_group(j));
                        let g2 = choose|g2: int|
                            0 <= g2 < self.multi_groups@.len() && #[trigger] self.multi_groups@[g2].1.start
                                <= j < self.multi_groups@[g2].1.start + self.multi_groups@[g2].1.count;
                        let e2 = self.multi_groups@[g2];
                        assert(self.mkey(j)[0] as u32 == e2.0);
                        if g2 < g {
                            assert(self.multi_groups@[g2].0 < self.multi_groups@[g as int].0);
                        } else if g2 > g {
                            assert(self.multi_groups@[g as int].0 < self.multi_groups@[g2].0);
                        }
                    }
                }
                (start, start + count)
            },
            None => {
                proof {
                    assert forall|j: int|
                        0 <= j < self.multi@.len() && (#[trigger] self.mkey(j))[0]
                            == first implies false by {
                        assert(self.in_some_group(j));
                        let g2 = choose|g2: int|
                            0 <= g2 < self.multi_groups@.len() && #[trigger] self.multi_groups@[g2].1.start
                                <= j < self.multi_groups@[g2].1.start + self.multi_groups@[g2].1.count;
                        assert(self.mkey(j)[0] as u32 == self.multi_groups@[g2].0);
                    }
                }
                (0, 0)
            },
        }
    }

    /// Binary search for the phrase key `s[lo..hi]` among phrases
    /// `start..end`, which are sorted by key.
    pub fn lookup_multi_in_group(
        &self,
        start: usize,
        end: usize,
        s: &Vec<char>,
        lo: usize,
        hi: usize,
    ) -> (r: Option<usize>)
        requires
            self.multi_wf(),
            start <= end <= self.multi@.len(),
            lo <= hi <= s@.len(),
        ensures
            match r {
                Some(i) => start <= i < end && self.mkey(i as int) == s@.subrange(
                    lo as int,
                    hi as int,
                ),
                None => forall|j: int|
                    start <= j < end ==> #[trigger] self.mkey(j) != s@.subrange(lo as int, hi as int),
            },
    {
        let ghost t = s@.subrange(lo as int, hi as int);
        let mut a = start;
        let mut b = end;
        while a < b
            invariant
                start <= a <= b <= end <= self.multi@.len(),
                lo <= hi <= s@.len(),
                t == s@.subrange(lo as int, hi as int),
                self.multi_wf(),
                forall|j: int| start <= j < a ==> lex_lt(#[trigger] self.mkey(j), t),
                forall|j: int| b <= j < end ==> lex_lt(t, #[trigger] self.mkey(j)),
            decreases b - a,
        {
            let mid = a + (b - a) / 2;
            match compare_key(&self.multi[mid].0, s, lo, hi) {
                KeyOrder::Equal => {
                    return Some(mid);
                },
                KeyOrder::Less => {
                    assert forall|j: int| start <= j < mid + 1 implies lex_lt(
                        #[trigger] self.mkey(j),
                        t,
                    ) by {
                        if j < mid {
                            lemma_lex_transitive(self.mkey(j), self.mkey(mid as int), t);
                        }
                    }
                    a = mid + 1;
                },
                KeyOrder::Greater => {
                    assert forall|j: int| mid <= j < end implies lex_lt(
                        t,
                        #[trigger] self.mkey(j),
                    ) by {
                        if j > mid {
                            lemma_lex_transitive(t, self.mkey(mid as int), self.mkey(j));
                        }
                    }
                    b = mid;
                },
            }
        }
        proof {
            assert forall|j: int| start <= j < end implies #[trigger] self.mkey(j) != t by {
                lemma_lex_irreflexive(t);
            }
        }
        None
    }
}

} // verus!
