//! Character-level helpers shared by the compiler, the matcher and the
//! conversion functions: whitespace trimming, decimal digits, character
//! vectors and leftmost substring search, each tied to a spec-level
//! definition over `Seq<char>`.

use vstd::prelude::*;

verus! {

/// The Unicode `White_Space` characters, as `str::trim` removes them.
pub open spec fn is_whitespace_char(c: char) -> bool {
    c == '\u{0009}' || c == '\u{000A}' || c == '\u{000B}' || c == '\u{000C}' || c == '\u{000D}'
        || c == '\u{0020}' || c == '\u{0085}' || c == '\u{00A0}' || c == '\u{1680}' || c
        == '\u{2000}' || c == '\u{2001}' || c == '\u{2002}' || c == '\u{2003}' || c == '\u{2004}'
        || c == '\u{2005}' || c == '\u{2006}' || c == '\u{2007}' || c == '\u{2008}' || c
        == '\u{2009}' || c == '\u{200A}' || c == '\u{2028}' || c == '\u{2029}' || c == '\u{202F}'
        || c == '\u{205F}' || c == '\u{3000}'
}

pub fn is_whitespace(c: char) -> (r: bool)
    ensures
        r == is_whitespace_char(c),
{
    c == '\u{0009}' || c == '\u{000A}' || c == '\u{000B}' || c == '\u{000C}' || c == '\u{000D}'
        || c == '\u{0020}' || c == '\u{0085}' || c == '\u{00A0}' || c == '\u{1680}' || c
        == '\u{2000}' || c == '\u{2001}' || c == '\u{2002}' || c == '\u{2003}' || c == '\u{2004}'
        || c == '\u{2005}' || c == '\u{2006}' || c == '\u{2007}' || c == '\u{2008}' || c
        == '\u{2009}' || c == '\u{200A}' || c == '\u{2028}' || c == '\u{2029}' || c == '\u{202F}'
        || c == '\u{205F}' || c == '\u{3000}'
}

/// The sequence with leading whitespace removed.
pub open spec fn spec_trim_start(s: Seq<char>) -> Seq<char>
    decreases s.len(),
{
    if s.len() > 0 && is_whitespace_char(s[0]) {
        spec_trim_start(s.drop_first())
    } else {
        s
    }
}

/// The sequence with trailing whitespace removed.
pub open spec fn spec_trim_end(s: Seq<char>) -> Seq<char>
    decreases s.len(),
{
    if s.len() > 0 && is_whitespace_char(s.last()) {
        spec_trim_end(s.drop_last())
    } else {
        s
    }
}

/// The sequence with whitespace removed from both ends, as `str::trim`.
pub open spec fn spec_trim(s: Seq<char>) -> Seq<char> {
    spec_trim_end(spec_trim_start(s))
}

proof fn lemma_trim_start_skip(s: Seq<char>, k: int)
    requires
        0 <= k <= s.len(),
        forall|i: int| 0 <= i < k ==> is_whitespace_char(s[i]),
        k == s.len() || !is_whitespace_char(s[k]),
    ensures
        spec_trim_start(s) == s.skip(k),
    decreases k,
{
    if k == 0 {
        assert(s.skip(0) =~= s);
    } else {
        lemma_trim_start_skip(s.drop_first(), k - 1);
        assert(s.drop_first().skip(k - 1) =~= s.skip(k));
    }
}

proof fn lemma_trim_end_take(s: Seq<char>, k: int)
    requires
        0 <= k <= s.len(),
        forall|i: int| k <= i < s.len() ==> is_whitespace_char(s[i]),
        k == 0 || !is_whitespace_char(s[k - 1]),
    ensures
        spec_trim_end(s) == s.take(k),
    decreases s.len() - k,
{
    if k == s.len() {
        assert(s.take(k) =~= s);
    } else {
        lemma_trim_end_take(s.drop_last(), k);
        assert(s.drop_last().take(k) =~= s.take(k));
    }
}

/// Bounds of the trimmed middle of `v@.subrange(lo, hi)`: the pair `(a, b)`
/// such that `v@.subrange(a, b)` is that subrange with whitespace removed
/// from both ends.
pub fn trim_bounds_range(v: &Vec<char>, lo: usize, hi: usize) -> (r: (usize, usize))
    requires
        lo <= hi <= v@.len(),
    ensures
        lo <= r.0 <= r.1 <= hi,
        spec_trim(v@.subrange(lo as int, hi as int)) == v@.subrange(r.0 as int, r.1 as int),
{
    let ghost s = v@.subrange(lo as int, hi as int);
    let mut a: usize = lo;
    while a < hi && is_whitespace(v[a])
        invariant
            lo <= a <= hi <= v@.len(),
            s == v@.subrange(lo as int, hi as int),
            forall|i: int| lo <= i < a ==> is_whitespace_char(v@[i]),
        decreases hi - a,
    {
        a = a + 1;
    }
    proof {
        assert forall|i: int| 0 <= i < a - lo implies is_whitespace_char(s[i]) by {
            assert(s[i] == v@[i + lo]);
        }
        if a < hi {
            assert(s[a - lo] == v@[a as int]);
        }
        lemma_trim_start_skip(s, a - lo);
    }
    let mut b: usize = hi;
    while b > a && is_whitespace(v[b - 1])
        invariant
            a <= b <= hi,
            hi <= v@.len(),
            forall|i: int| b <= i < hi ==> is_whitespace_char(v@[i]),
        decreases b,
    {
        b = b - 1;
    }
    proof {
        let t = spec_trim_start(s);
        assert(t == s.skip(a - lo));
        assert forall|i: int| b - a <= i < t.len() implies is_whitespace_char(t[i]) by {
            assert(t[i] == s[i + (a - lo)]);
            assert(s[i + (a - lo)] == v@[i + a]);
        }
        if b > a {
            assert(t[b - a - 1] == s[b - 1 - lo]);
            assert(s[b - 1 - lo] == v@[b - 1]);
        }
        lemma_trim_end_take(t, b - a);
        assert(t.take(b - a) =~= v@.subrange(a as int, b as int));
    }
    (a, b)
}

/// An ASCII decimal digit.
pub open spec fn is_digit_char(c: char) -> bool {
    48 <= c as u32 <= 57
}

pub fn is_digit(c: char) -> (r: bool)
    ensures
        r == is_digit_char(c),
{
    let u = c as u32;
    48 <= u && u <= 57
}

/// The numeric value of an ASCII decimal digit.
pub open spec fn digit_val(c: char) -> nat {
    (c as u32 - 48) as nat
}

/// The characters of `s`, in order.
pub fn str_to_chars(s: &str) -> (v: Vec<char>)
    ensures
        v@ == s@,
{
    let len = s.unicode_len();
    let mut v: Vec<char> = Vec::new();
    let mut i: usize = 0;
    while i < len
        invariant
            0 <= i <= len,
            len == s@.len(),
            v@ == s@.take(i as int),
        decreases len - i,
    {
        let c = s.get_char(i);
        v.push(c);
        proof {
            assert(v@ =~= s@.take(i + 1));
        }
        i = i + 1;
    }
    proof {
        assert(s@.take(len as int) =~= s@);
    }
    v
}

/// Whether the characters of `a` equal the characters of `b`.
pub fn str_eq(a: &str, b: &str) -> (r: bool)
    ensures
        r == (a@ == b@),
{
    let alen = a.unicode_len();
    let blen = b.unicode_len();
    if alen != blen {
        return false;
    }
    let mut i: usize = 0;
    while i < alen
        invariant
            0 <= i <= alen,
            alen == a@.len(),
            alen == b@.len(),
            forall|j: int| 0 <= j < i ==> a@[j] == b@[j],
        decreases alen - i,
    {
        if a.get_char(i) != b.get_char(i) {
            return false;
        }
        i = i + 1;
    }
    proof {
        assert(a@ =~= b@);
    }
    true
}

/// `needle` occurs in `hay` at position `i`.
pub open spec fn occurs_at(hay: Seq<char>, needle: Seq<char>, i: int) -> bool {
    0 <= i && i + needle.len() <= hay.len() && hay.subrange(i, i + needle.len()) == needle
}

/// The position of the leftmost occurrence of `needle` in `hay` at or after
/// `from`, if any.
pub open spec fn spec_find(hay: Seq<char>, needle: Seq<char>, from: int) -> Option<int>
    decreases hay.len() - from + 1,
{
    if from < 0 || from + needle.len() > hay.len() {
        None
    } else if occurs_at(hay, needle, from) {
        Some(from)
    } else {
        spec_find(hay, needle, from + 1)
    }
}

/// Every position the search skips holds no occurrence, and the position
/// returned holds one.
pub proof fn lemma_spec_find_props(hay: Seq<char>, needle: Seq<char>, from: int)
    requires
        from >= 0,
    ensures
        spec_find(hay, needle, from) matches Some(j) ==> from <= j && occurs_at(hay, needle, j)
            && (forall|i: int| from <= i < j ==> !occurs_at(hay, needle, i)),
        spec_find(hay, needle, from) is None ==> forall|i: int|
            i >= from ==> !occurs_at(hay, needle, i),
    decreases hay.len() - from + 1,
{
    if from + needle.len() > hay.len() {
    } else if occurs_at(hay, needle, from) {
    } else {
        lemma_spec_find_props(hay, needle, from + 1);
    }
}

/// A first occurrence pins the search result down.
pub proof fn lemma_spec_find_exact(hay: Seq<char>, needle: Seq<char>, from: int, j: int)
    requires
        0 <= from <= j,
        occurs_at(hay, needle, j),
        forall|i: int| from <= i < j ==> !occurs_at(hay, needle, i),
    ensures
        spec_find(hay, needle, from) == Some(j),
    decreases j - from,
{
    if from < j {
        lemma_spec_find_exact(hay, needle, from + 1, j);
    }
}

/// An occurrence in a suffix is an occurrence in the whole, shifted.
pub proof fn lemma_occurs_shift(s: Seq<char>, n: Seq<char>, c: int, i: int)
    requires
        0 <= c <= s.len(),
        0 <= i,
    ensures
        occurs_at(s, n, c + i) == occurs_at(s.skip(c), n, i),
{
    if c + i + n.len() <= s.len() {
        assert(s.subrange(c + i, c + i + n.len()) =~= s.skip(c).subrange(i, i + n.len()));
    }
}

/// Searching the whole string from `c` is searching its suffix from the
/// start.
pub proof fn lemma_spec_find_skip(s: Seq<char>, n: Seq<char>, c: int)
    requires
        0 <= c <= s.len(),
    ensures
        match spec_find(s, n, c) {
            Some(j) => c <= j && spec_find(s.skip(c), n, 0) == Some(j - c),
            None => spec_find(s.skip(c), n, 0) is None,
        },
{
    lemma_spec_find_props(s, n, c);
    lemma_spec_find_props(s.skip(c), n, 0);
    match spec_find(s, n, c) {
        Some(j) => {
            lemma_occurs_shift(s, n, c, j - c);
            assert forall|i: int| 0 <= i < j - c implies !occurs_at(s.skip(c), n, i) by {
                lemma_occurs_shift(s, n, c, i);
            }
            lemma_spec_find_exact(s.skip(c), n, 0, j - c);
        },
        None => {
            match spec_find(s.skip(c), n, 0) {
                Some(j2) => {
                    lemma_occurs_shift(s, n, c, j2);
                },
                None => {},
            }
        },
    }
}

/// Leftmost occurrence of `needle` in `hay`, searching from `from`.
pub fn find_from(hay: &Vec<char>, needle: &Vec<char>, from: usize) -> (r: Option<usize>)
    requires
        from <= hay@.len(),
    ensures
        match r {
            Some(j) => spec_find(hay@, needle@, from as int) == Some(j as int),
            None => spec_find(hay@, needle@, from as int) is None,
        },
{
    let hlen = hay.len();
    let nlen = needle.len();
    if nlen > hlen - from {
        return None;
    }
    let mut i: usize = from;
    while i <= hlen - nlen
        invariant
            from <= i <= hlen - nlen + 1,
            nlen <= hlen,
            hlen == hay@.len(),
            nlen == needle@.len(),
            spec_find(hay@, needle@, from as int) == spec_find(hay@, needle@, i as int),
        decreases hlen - i,
    {
        let mut j: usize = 0;
        let mut matched: bool = true;
        while matched && j < nlen
            invariant
                0 <= j <= nlen,
                i + nlen <= hlen,
                hlen == hay@.len(),
                nlen == needle@.len(),
                matched ==> (forall|t: int| 0 <= t < j ==> hay@[i + t] == needle@[t]),
                !matched ==> j < nlen && hay@[i + j] != needle@[j as int],
            decreases nlen - j + (if matched {
                1int
            } else {
                0int
            }),
        {
            if hay[i + j] != needle[j] {
                matched = false;
            } else {
                j = j + 1;
            }
        }
        if matched {
            proof {
                assert(hay@.subrange(i as int, i + nlen) =~= needle@);
            }
            return Some(i);
        }
        proof {
            if occurs_at(hay@, needle@, i as int) {
                assert(hay@.subrange(i as int, i + nlen)[j as int] == hay@[i + j]);
                assert(false);
            }
        }
        i = i + 1;
    }
    proof {
        assert(spec_find(hay@, needle@, i as int) is None);
    }
    None
}

} // verus!
