//! The multi-value capture engine: splits a captured region on a separator,
//! eagerly into a vector or lazily through forward-only iterators.

use vstd::prelude::*;

use crate::text::find_from;
use crate::text::lemma_spec_find_props;
use crate::text::lemma_spec_find_skip;
use crate::text::spec_find;
use crate::text::str_to_chars;

verus! {

/// The elements a region splits into.  With a non-empty separator the
/// pieces lie between leftmost, non-overlapping separator occurrences; the
/// piece after the last separator is kept only when non-empty, and in
/// skip-repeated mode (`multi`) every empty piece is dropped.  With an empty
/// separator the region splits into one element per character, and the
/// skip-repeated flag changes nothing, since no piece is empty.
pub open spec fn split_elems(region: Seq<char>, sep: Seq<char>, multi: bool) -> Seq<Seq<char>>
    decreases region.len(),
{
    if sep.len() == 0 {
        Seq::new(region.len(), |i: int| seq![region[i]])
    } else {
        match spec_find(region, sep, 0) {
            None => if region.len() == 0 {
                Seq::empty()
            } else {
                seq![region]
            },
            Some(j) => if 0 <= j && j + sep.len() <= region.len() {
                let rest = split_elems(region.skip(j + sep.len()), sep, multi);
                if multi && j == 0 {
                    rest
                } else {
                    seq![region.take(j)] + rest
                }
            } else {
                // the search never returns an out-of-range position
                Seq::empty()
            },
        }
    }
}

/// An iterator over the elements of a region split on a separator.
///
/// Produced for lazy `{:<sep>:0}` captures: each call of [`next`] performs
/// one incremental search step and never pre-scans the whole region.  The
/// iterator is forward-only; a fresh iterator over the same region is needed
/// to restart.
///
/// [`next`]: ParseIter::next
#[derive(Debug)]
pub struct ParseIter<'a> {
    string: &'a str,
    chars: Vec<char>,
    sep: Vec<char>,
    is_multi: bool,
    cursor: usize,
    done: bool,
}

impl<'a> ParseIter<'a> {
    /// The iterator's fields never go stale: the character vector mirrors
    /// the region and the cursor stays within it, or one past once spent.
    #[verifier::type_invariant]
    closed spec fn wf(&self) -> bool {
        self.chars@ == self.string@ && self.cursor <= self.chars@.len()
    }

    /// The region this iterator walks.
    pub closed spec fn region(&self) -> Seq<char> {
        self.string@
    }

    /// The separator it splits on.
    pub closed spec fn separator(&self) -> Seq<char> {
        self.sep@
    }

    /// Whether runs of consecutive separators collapse.
    pub closed spec fn multi(&self) -> bool {
        self.is_multi
    }

    /// The elements not yet returned, in order.
    pub closed spec fn remaining(&self) -> Seq<Seq<char>> {
        if !self.done {
            split_elems(self.string@.skip(self.cursor as int), self.sep@, self.is_multi)
        } else {
            Seq::empty()
        }
    }

    /// Creates an iterator over the elements of `string` split on
    /// `separator`.
    pub fn new(string: &'a str, separator: &str, is_multi: bool) -> (r: Self)
        ensures
            r.region() == string@,
            r.separator() == separator@,
            r.multi() == is_multi,
            r.remaining() == split_elems(string@, separator@, is_multi),
    {
        let chars = str_to_chars(string);
        let sep = str_to_chars(separator);
        let r = ParseIter { string, chars, sep, is_multi, cursor: 0, done: false };
        proof {
            assert(string@.skip(0) =~= string@);
        }
        r
    }

    /// The next element, or `None` once the region is spent.  Each element
    /// is a slice of the region, so nothing is converted or copied before
    /// the caller asks for it.
    pub fn next(&mut self) -> (r: Option<&'a str>)
        ensures
            final(self).region() == old(self).region(),
            final(self).separator() == old(self).separator(),
            final(self).multi() == old(self).multi(),
            match r {
                Some(s) => old(self).remaining().len() > 0 && s@ == old(self).remaining()[0]
                    && final(self).remaining() == old(self).remaining().skip(1),
                None => old(self).remaining().len() == 0 && final(self).remaining().len() == 0,
            },
    {
        proof {
            use_type_invariant(&*self);
        }
        let string = self.string;
        let len = self.chars.len();
        if self.done {
            return None;
        }
        if self.sep.len() == 0 {
            // one element per character
            let c = self.cursor;
            proof {
                assert(self.remaining() =~= Seq::new(
                    string@.skip(c as int).len(),
                    |i: int| seq![string@.skip(c as int)[i]],
                ));
            }
            if c == len {
                self.done = true;
                return None;
            }
            self.cursor = c + 1;
            let piece = string.substring_char(c, c + 1);
            proof {
                assert(piece@ =~= seq![string@[c as int]]);
                assert(self.remaining() =~= Seq::new(
                    string@.skip(c + 1).len(),
                    |i: int| seq![string@.skip(c + 1)[i]],
                ));
                assert(self.remaining() =~= old(self).remaining().skip(1));
            }
            return Some(piece);
        }
        let ghost entry_remaining = old(self).remaining();
        loop
            invariant
                self.wf(),
                self.string == string,
                self.chars@ == old(self).chars@,
                self.sep@ == old(self).sep@,
                self.is_multi == old(self).is_multi,
                self.sep@.len() > 0,
                len == self.chars@.len(),
                !self.done,
                self.cursor <= len,
                split_elems(string@.skip(self.cursor as int), self.sep@, self.is_multi)
                    == entry_remaining,
            decreases len - self.cursor,
        {
            let c = self.cursor;
            let ghost suffix = string@.skip(c as int);
            match find_from(&self.chars, &self.sep, c) {
                Some(j) => {
                    proof {
                        lemma_spec_find_skip(string@, self.sep@, c as int);
                        lemma_spec_find_props(string@, self.sep@, c as int);
                        assert(suffix.skip(j - c + self.sep@.len()) =~= string@.skip(
                            j + self.sep@.len(),
                        ));
                        assert(suffix.take(j - c) =~= string@.subrange(c as int, j as int));
                    }
                    let sep_len = self.sep.len();
                    self.cursor = j + sep_len;
                    if !self.is_multi || j > c {
                        let piece = string.substring_char(c, j);
                        proof {
                            assert(entry_remaining == seq![piece@] + split_elems(
                                string@.skip(self.cursor as int),
                                self.sep@,
                                self.is_multi,
                            ));
                            assert(entry_remaining.skip(1) =~= split_elems(
                                string@.skip(self.cursor as int),
                                self.sep@,
                                self.is_multi,
                            ));
                            assert(entry_remaining[0] == piece@);
                        }
                        return Some(piece);
                    }
                    // skip-repeated mode: an empty piece is dropped
                },
                None => {
                    proof {
                        lemma_spec_find_skip(string@, self.sep@, c as int);
                    }
                    self.done = true;
                    if c < len {
                        let piece = string.substring_char(c, len);
                        proof {
                            assert(piece@ =~= suffix);
                            assert(entry_remaining == seq![suffix]);
                            assert(entry_remaining.skip(1) =~= Seq::<Seq<char>>::empty());
                            assert(entry_remaining[0] == piece@);
                        }
                        return Some(piece);
                    }
                    proof {
                        assert(suffix =~= Seq::<char>::empty());
                        assert(entry_remaining =~= Seq::<Seq<char>>::empty());
                    }
                    return None;
                },
            }
        }
    }
}

/// Law: how many elements a region can split into.  With an empty separator
/// the count is exactly the region's length.  Otherwise every element after
/// the first costs a separator, and in skip-repeated mode a non-empty
/// element besides, so the count never exceeds one more than the region's
/// length divided by that cost, and never the region's length itself.
pub proof fn lemma_split_count_bound(region: Seq<char>, sep: Seq<char>, multi: bool)
    ensures
        sep.len() == 0 ==> split_elems(region, sep, multi).len() == region.len(),
        sep.len() > 0 && !multi ==> split_elems(region, sep, multi).len() <= 1 + region.len() as int
            / sep.len() as int,
        sep.len() > 0 && multi ==> split_elems(region, sep, multi).len() <= 1 + region.len() as int
            / (sep.len() + 1) as int,
        sep.len() > 0 ==> split_elems(region, sep, multi).len() <= region.len(),
    decreases region.len(),
{
    let n = region.len() as int;
    if sep.len() > 0 {
        let sl = sep.len() as int;
        vstd::arithmetic::div_mod::lemma_div_pos_is_pos(n, sl);
        vstd::arithmetic::div_mod::lemma_div_pos_is_pos(n, sl + 1);
        match spec_find(region, sep, 0) {
            None => {},
            Some(j) => {
                crate::text::lemma_spec_find_props(region, sep, 0);
                let rem = region.skip(j + sep.len());
                lemma_split_count_bound(rem, sep, multi);
                let m = rem.len() as int;
                if !multi {
                    vstd::arithmetic::div_mod::lemma_div_is_ordered(m, n - sl, sl);
                    vstd::arithmetic::div_mod::lemma_div_minus_one(n, sl);
                } else {
                    if j == 0 {
                        vstd::arithmetic::div_mod::lemma_div_is_ordered(m, n, sl + 1);
                    } else {
                        vstd::arithmetic::div_mod::lemma_div_is_ordered(m, n - (sl + 1), sl + 1);
                        vstd::arithmetic::div_mod::lemma_div_minus_one(n, sl + 1);
                    }
                }
            },
        }
    }
}

impl<'a> ParseIter<'a> {
    /// A hint at how many elements are still to come: the lower bound never
    /// exceeds their number and the upper bound never falls below it.  The
    /// bounds are exact in character mode; otherwise only an upper bound
    /// can be had without pre-scanning the region, by dividing what is left
    /// of it by each further element's least cost in characters.
    pub fn size_hint(&self) -> (r: (usize, Option<usize>))
        ensures
            r.0 <= self.remaining().len(),
            r.1 matches Some(ub) && self.remaining().len() <= ub && ub <= self.region().len() + 1,
            self.separator().len() == 0 ==> r.0 == self.remaining().len(),
    {
        proof {
            use_type_invariant(&*self);
        }
        let len = self.chars.len();
        if self.done {
            return (0, Some(0));
        }
        let left = len - self.cursor;
        let ghost suffix = self.string@.skip(self.cursor as int);
        proof {
            lemma_split_count_bound(suffix, self.sep@, self.is_multi);
        }
        if self.sep.len() == 0 {
            return (left, Some(left));
        }
        if left == 0 {
            return (0, Some(0));
        }
        let sl = self.sep.len();
        let q = if self.is_multi {
            if sl >= left {
                0
            } else {
                left / (sl + 1)
            }
        } else {
            left / sl
        };
        proof {
            if self.is_multi && sl >= left {
                vstd::arithmetic::div_mod::lemma_basic_div(left as int, sl + 1);
            }
            vstd::arithmetic::div_mod::lemma_div_nonincreasing(left as int, sl as int);
        }
        if q < left {
            (0, Some(q + 1))
        } else {
            (0, Some(left))
        }
    }
}

/// The elements of `region` split on `separator`, eagerly, in order.
pub fn split_all<'a>(region: &'a str, separator: &str, is_multi: bool) -> (r: Vec<&'a str>)
    ensures
        r.deep_view() == split_elems(region@, separator@, is_multi),
{
    let mut it = ParseIter::new(region, separator, is_multi);
    let mut out: Vec<&'a str> = Vec::new();
    proof {
        assert(out.deep_view() =~= Seq::<Seq<char>>::empty());
        assert(out.deep_view() + it.remaining() =~= split_elems(region@, separator@, is_multi));
    }
    loop
        invariant
            it.region() == region@,
            it.separator() == separator@,
            it.multi() == is_multi,
            out.deep_view() + it.remaining() == split_elems(region@, separator@, is_multi),
        decreases it.remaining().len(),
    {
        let ghost out0 = out.deep_view();
        let ghost rem0 = it.remaining();
        match it.next() {
            Some(piece) => {
                out.push(piece);
                proof {
                    assert(out.deep_view() =~= out0.push(piece@));
                    assert(out.deep_view() + it.remaining() =~= out0 + rem0);
                }
            },
            None => {
                proof {
                    assert(out.deep_view() + it.remaining() =~= out.deep_view());
                }
                return out;
            },
        }
    }
}

/// An iterator over the characters of a region, from either end.
///
/// Produced for lazy captures with an empty separator, where every element
/// is a single character; unlike [`ParseIter`] it can also walk backwards.
#[derive(Debug)]
pub struct ParseChars<'a> {
    string: &'a str,
    front: usize,
    back: usize,
}

impl<'a> ParseChars<'a> {
    /// The cursors stay within the region, front never past back.
    #[verifier::type_invariant]
    closed spec fn wf(&self) -> bool {
        self.front <= self.back <= self.string@.len()
    }

    /// The characters not yet returned, in order.
    pub closed spec fn remaining(&self) -> Seq<char> {
        self.string@.subrange(self.front as int, self.back as int)
    }

    /// Creates an iterator over every character of `string`.
    pub fn new(string: &'a str) -> (r: Self)
        ensures
            r.remaining() == string@,
    {
        let len = string.unicode_len();
        let r = ParseChars { string, front: 0, back: len };
        proof {
            assert(r.remaining() =~= string@);
        }
        r
    }

    /// The next character from the front, as a one-character slice.
    pub fn next(&mut self) -> (r: Option<&'a str>)
        ensures
            match r {
                Some(s) => old(self).remaining().len() > 0 && s@ == seq![
                    old(self).remaining()[0],
                ] && final(self).remaining() == old(self).remaining().skip(1),
                None => old(self).remaining().len() == 0 && final(self).remaining().len() == 0,
            },
    {
        proof {
            use_type_invariant(&*self);
        }
        if self.front == self.back {
            return None;
        }
        let string = self.string;
        let f = self.front;
        self.front = f + 1;
        let piece = string.substring_char(f, f + 1);
        proof {
            assert(piece@ =~= seq![old(self).remaining()[0]]);
            assert(self.remaining() =~= old(self).remaining().skip(1));
        }
        Some(piece)
    }

    /// The next character from the back, as a one-character slice.
    pub fn next_back(&mut self) -> (r: Option<&'a str>)
        ensures
            match r {
                Some(s) => old(self).remaining().len() > 0 && s@ == seq![
                    old(self).remaining().last(),
                ] && final(self).remaining() == old(self).remaining().drop_last(),
                None => old(self).remaining().len() == 0 && final(self).remaining().len() == 0,
            },
    {
        proof {
            use_type_invariant(&*self);
        }
        if self.front == self.back {
            return None;
        }
        let string = self.string;
        let b = self.back;
        self.back = b - 1;
        let piece = string.substring_char(b - 1, b);
        proof {
            assert(piece@ =~= seq![old(self).remaining().last()]);
            assert(self.remaining() =~= old(self).remaining().drop_last());
        }
        Some(piece)
    }

    /// The exact number of characters left, as both bounds of a hint.
    pub fn size_hint(&self) -> (r: (usize, Option<usize>))
        ensures
            r.0 == self.remaining().len(),
            r.1 == Some(r.0),
    {
        proof {
            use_type_invariant(self);
        }
        let n = self.back - self.front;
        (n, Some(n))
    }

    /// How many characters are left.
    pub fn count(self) -> (r: usize)
        ensures
            r == self.remaining().len(),
    {
        proof {
            use_type_invariant(&self);
        }
        self.back - self.front
    }

    /// The last character, as a one-character slice.
    pub fn last(self) -> (r: Option<&'a str>)
        ensures
            match r {
                Some(s) => self.remaining().len() > 0 && s@ == seq![self.remaining().last()],
                None => self.remaining().len() == 0,
            },
    {
        let mut this = self;
        this.next_back()
    }
}

} // verus!
