//! The dictionary text format and its parser.
//!
//! One mapping per line, `key:value`. Lines are trimmed of whitespace; empty
//! lines, lines starting with `#`, lines without `:`, lines with an empty key
//! or value, and lines whose key equals their value are skipped. A line with
//! a one-character key and a one-character value is a single-character
//! mapping; every other line is a phrase mapping. When a key occurs more than
//! once, its first occurrence wins.

use vstd::prelude::*;
use crate::model::DictModel;

verus! {

/// Unicode `White_Space`, as `char::is_whitespace` defines it.
pub open spec fn is_whitespace(c: char) -> bool {
    let v = c as u32;
    ||| 0x09 <= v <= 0x0D
    ||| v == 0x20
    ||| v == 0x85
    ||| v == 0xA0
    ||| v == 0x1680
    ||| 0x2000 <= v <= 0x200A
    ||| v == 0x2028
    ||| v == 0x2029
    ||| v == 0x202F
    ||| v == 0x205F
    ||| v == 0x3000
}

/// The code points of the Unicode `White_Space` property, which
/// `str::trim` strips.
pub open spec fn white_space_code_points() -> Set<u32> {
    set![
        0x0009u32, 0x000Au32, 0x000Bu32, 0x000Cu32, 0x000Du32, 0x0020u32, 0x0085u32, 0x00A0u32,
        0x1680u32, 0x2000u32, 0x2001u32, 0x2002u32, 0x2003u32, 0x2004u32, 0x2005u32, 0x2006u32,
        0x2007u32, 0x2008u32, 0x2009u32, 0x200Au32, 0x2028u32, 0x2029u32, 0x202Fu32, 0x205Fu32,
        0x3000u32,
    ]
}

/// `s` without leading whitespace.
pub open spec fn trim_start(s: Seq<char>) -> Seq<char>
    decreases s.len(),
{
    if s.len() > 0 && is_whitespace(s[0]) {
        trim_start(s.drop_first())
    } else {
        s
    }
}

/// `s` without trailing whitespace.
pub open spec fn trim_end(s: Seq<char>) -> Seq<char>
    decreases s.len(),
{
    if s.len() > 0 && is_whitespace(s.last()) {
        trim_end(s.drop_last())
    } else {
        s
    }
}

/// `s` without leading and trailing whitespace.
pub open spec fn trim(s: Seq<char>) -> Seq<char> {
    trim_end(trim_start(s))
}

/// Trimming removes a character on its own exactly when it is Unicode
/// `White_Space`.
pub proof fn lemma_trim_char(c: char)
    ensures
        trim(seq![c]).len() == 0 <==> white_space_code_points().contains(c as u32),
{
    let e = Seq::<char>::empty();
    assert(seq![c].drop_first() =~= e);
    assert(trim_start(e) == e && trim_end(e) == e);
    if is_whitespace(c) {
        assert(trim_start(seq![c]) == trim_start(e));
    } else {
        assert(trim_start(seq![c]) == seq![c]);
        assert(seq![c].last() == c);
        assert(trim_end(seq![c]) == seq![c]);
    }
    assert(white_space_code_points().contains(c as u32) <==> is_whitespace(c));
}

proof fn lemma_trim_push(s: Seq<char>, w: char)
    requires
        is_whitespace(w),
    ensures
        trim(s.push(w)) == trim(s),
    decreases s.len(),
{
    let e = Seq::<char>::empty();
    assert(trim_start(e) == e && trim_end(e) == e);
    if s.len() == 0 {
        assert(s.push(w).drop_first() =~= e);
        assert(s =~= e);
        assert(trim_start(s.push(w)) == trim_start(e));
    } else if is_whitespace(s[0]) {
        assert(s.push(w).drop_first() =~= s.drop_first().push(w));
        lemma_trim_push(s.drop_first(), w);
        assert(trim_start(s.push(w)) == trim_start(s.drop_first().push(w)));
        assert(trim_start(s) == trim_start(s.drop_first()));
    } else {
        assert(s.push(w)[0] == s[0]);
        assert(trim_start(s.push(w)) == s.push(w));
        assert(trim_start(s) == s);
        assert(s.push(w).drop_last() =~= s);
        assert(s.push(w).last() == w);
        assert(trim_end(s.push(w)) == trim_end(s));
    }
}

/// Padding a dictionary line with Unicode `White_Space` on either side
/// leaves the mapping it gives unchanged.
pub proof fn lemma_line_padding(line: Seq<char>, w: char)
    requires
        white_space_code_points().contains(w as u32),
    ensures
        line_entry(seq![w] + line) == line_entry(line),
        line_entry(line.push(w)) == line_entry(line),
{
    assert(white_space_code_points().contains(w as u32) ==> is_whitespace(w));
    assert((seq![w] + line).drop_first() =~= line);
    lemma_trim_push(line, w);
}

/// Index of the first occurrence of `c` in `s`, or -1.
pub open spec fn index_of(s: Seq<char>, c: char) -> int
    decreases s.len(),
{
    if s.len() == 0 {
        -1
    } else if s[0] == c {
        0
    } else {
        let r = index_of(s.drop_first(), c);
        if r < 0 {
            -1
        } else {
            r + 1
        }
    }
}

/// The mapping a single line holds, if any.
pub open spec fn line_entry(line: Seq<char>) -> Option<(Seq<char>, Seq<char>)> {
    let t = trim(line);
    if t.len() == 0 || t[0] == '#' {
        None
    } else {
        let j = index_of(t, ':');
        if j < 0 {
            None
        } else {
            let key = t.take(j);
            let val = t.skip(j + 1);
            if key.len() == 0 || val.len() == 0 || key == val {
                None
            } else {
                Some((key, val))
            }
        }
    }
}

pub open spec fn opt_seq<A>(o: Option<A>) -> Seq<A> {
    match o {
        Some(a) => seq![a],
        None => seq![],
    }
}

/// The mappings of a dictionary text, in order (lines split at `\n`).
pub open spec fn dict_entries(text: Seq<char>) -> Seq<(Seq<char>, Seq<char>)>
    decreases text.len(),
{
    let i = index_of(text, '\n');
    if i < 0 {
        opt_seq(line_entry(text))
    } else {
        proof {
            lemma_index_of_bound(text, '\n');
        }
        opt_seq(line_entry(text.take(i))) + dict_entries(text.skip(i + 1))
    }
}

/// A one-character key mapped to a one-character value.
pub open spec fn is_single_entry(e: (Seq<char>, Seq<char>)) -> bool {
    e.0.len() == 1 && e.1.len() == 1
}

/// Single-character mappings of `es`; the first mapping of a key wins.
pub open spec fn single_map(es: Seq<(Seq<char>, Seq<char>)>) -> Map<char, char>
    decreases es.len(),
{
    if es.len() == 0 {
        Map::empty()
    } else {
        let m = single_map(es.drop_last());
        let e = es.last();
        if is_single_entry(e) && !m.contains_key(e.0[0]) {
            m.insert(e.0[0], e.1[0])
        } else {
            m
        }
    }
}

/// Phrase mappings of `es`; the first mapping of a key wins.
pub open spec fn multi_map(es: Seq<(Seq<char>, Seq<char>)>) -> Map<Seq<char>, Seq<char>>
    decreases es.len(),
{
    if es.len() == 0 {
        Map::empty()
    } else {
        let m = multi_map(es.drop_last());
        let e = es.last();
        if !is_single_entry(e) && !m.contains_key(e.0) {
            m.insert(e.0, e.1)
        } else {
            m
        }
    }
}

/// The dictionary a text describes.
pub open spec fn dict_from_text(text: Seq<char>) -> DictModel {
    DictModel { single: single_map(dict_entries(text)), multi: multi_map(dict_entries(text)) }
}

pub proof fn lemma_index_of_bound(s: Seq<char>, c: char)
    ensures
        -1 <= index_of(s, c) < s.len(),
        index_of(s, c) >= 0 ==> s[index_of(s, c)] == c,
    decreases s.len(),
{
    if s.len() > 0 && s[0] != c {
        lemma_index_of_bound(s.drop_first(), c);
    }
}

pub proof fn lemma_index_of_found(s: Seq<char>, c: char, j: int)
    requires
        0 <= j < s.len(),
        s[j] == c,
        forall|k: int| 0 <= k < j ==> s[k] != c,
    ensures
        index_of(s, c) == j,
    decreases j,
{
    if j > 0 {
        lemma_index_of_found(s.drop_first(), c, j - 1);
    }
}

pub proof fn lemma_index_of_absent(s: Seq<char>, c: char)
    requires
        forall|k: int| 0 <= k < s.len() ==> s[k] != c,
    ensures
        index_of(s, c) == -1,
    decreases s.len(),
{
    if s.len() > 0 {
        lemma_index_of_absent(s.drop_first(), c);
    }
}

/// Unicode `White_Space`.
pub fn is_whitespace_char(c: char) -> (r: bool)
    ensures
        r == is_whitespace(c),
{
    let v = c as u32;
    (0x09 <= v && v <= 0x0D) || v == 0x20 || v == 0x85 || v == 0xA0 || v == 0x1680 || (0x2000 <= v
        && v <= 0x200A) || v == 0x2028 || v == 0x2029 || v == 0x202F || v == 0x205F || v == 0x3000
}

/// The characters `s[a..b]`.
pub fn copy_range(s: &Vec<char>, a: usize, b: usize) -> (v: Vec<char>)
    requires
        a <= b <= s@.len(),
    ensures
        v@ == s@.subrange(a as int, b as int),
{
    let mut v: Vec<char> = Vec::new();
    let mut i = a;
    while i < b
        invariant
            a <= i <= b <= s@.len(),
            v@ == s@.subrange(a as int, i as int),
        decreases b - i,
    {
        v.push(s[i]);
        i = i + 1;
        assert(v@ =~= s@.subrange(a as int, i as int));
    }
    v
}

/// Whether `s[a1..b1]` and `s[a2..b2]` are the same characters.
fn range_eq(s: &Vec<char>, a1: usize, b1: usize, a2: usize, b2: usize) -> (r: bool)
    requires
        a1 <= b1 <= s@.len(),
        a2 <= b2 <= s@.len(),
    ensures
        r == (s@.subrange(a1 as int, b1 as int) == s@.subrange(a2 as int, b2 as int)),
{
    if b1 - a1 != b2 - a2 {
        assert(s@.subrange(a1 as int, b1 as int).len() != s@.subrange(a2 as int, b2 as int).len());
        return false;
    }
    let n = b1 - a1;
    let mut i: usize = 0;
    while i < n
        invariant
            n == b1 - a1,
            n == b2 - a2,
            a1 <= b1 <= s@.len(),
            a2 <= b2 <= s@.len(),
            i <= n,
            s@.subrange(a1 as int, a1 + i) =~= s@.subrange(a2 as int, a2 + i),
        decreases n - i,
    {
        if s[a1 + i] != s[a2 + i] {
            assert(s@.subrange(a1 as int, b1 as int)[i as int] != s@.subrange(a2 as int, b2 as int)[i as int]);
            return false;
        }
        i = i + 1;
        assert(s@.subrange(a1 as int, a1 + i) =~= s@.subrange(a1 as int, a1 + i - 1).push(s@[a1 + i - 1]));
        assert(s@.subrange(a2 as int, a2 + i) =~= s@.subrange(a2 as int, a2 + i - 1).push(s@[a2 + i - 1]));
    }
    assert(s@.subrange(a1 as int, b1 as int) =~= s@.subrange(a2 as int, b2 as int));
    true
}

/// The mapping the line `s[a..b]` holds, if any.
pub fn parse_line(s: &Vec<char>, a: usize, b: usize) -> (r: Option<(Vec<char>, Vec<char>)>)
    requires
        a <= b <= s@.len(),
    ensures
        match r {
            Some(e) => line_entry(s@.subrange(a as int, b as int)) == Some((e.0@, e.1@)),
            None => line_entry(s@.subrange(a as int, b as int)) is None,
        },
{
    let ghost line = s@.subrange(a as int, b as int);
    let mut ta = a;
    while ta < b && is_whitespace_char(s[ta])
        invariant
            a <= ta <= b <= s@.len(),
            trim_start(line) == trim_start(s@.subrange(ta as int, b as int)),
        decreases b - ta,
    {
        assert(s@.subrange(ta as int, b as int).drop_first() =~= s@.subrange(ta + 1, b as int));
        ta = ta + 1;
    }
    assert(trim_start(line) == s@.subrange(ta as int, b as int));
    let mut tb = b;
    while tb > ta && is_whitespace_char(s[tb - 1])
        invariant
            a <= ta <= tb <= b <= s@.len(),
            trim(line) == trim_end(s@.subrange(ta as int, tb as int)),
        decreases tb - ta,
    {
        assert(s@.subrange(ta as int, tb as int).drop_last() =~= s@.subrange(ta as int, tb - 1));
        tb = tb - 1;
    }
    let ghost t = s@.subrange(ta as int, tb as int);
    assert(trim(line) == t);
    if ta == tb || s[ta] == '#' {
        return None;
    }
    let mut k = ta;
    while k < tb && s[k] != ':'
        invariant
            ta <= k <= tb <= s@.len(),
            forall|m: int| ta <= m < k ==> s@[m] != ':',
        decreases tb - k,
    {
        k = k + 1;
    }
    if k == tb {
        proof {
            lemma_index_of_absent(t, ':');
        }
        return None;
    }
    proof {
        lemma_index_of_found(t, ':', k - ta);
        assert(t.take(k - ta) =~= s@.subrange(ta as int, k as int));
        assert(t.skip(k - ta + 1) =~= s@.subrange(k + 1, tb as int));
    }
    if k == ta || k + 1 == tb || range_eq(s, ta, k, k + 1, tb) {
        return None;
    }
    let key = copy_range(s, ta, k);
    let val = copy_range(s, k + 1, tb);
    Some((key, val))
}

} // verus!
