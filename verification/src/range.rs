use vstd::prelude::*;

use crate::text::usize_decimal;

verus! {

/// A half-open interval `[start, end)` of byte positions.
///
/// `std::ops::Range` is not used because it is not `Copy`.
#[derive(Clone, Copy, Debug, PartialEq, Eq)]
pub struct Range {
    start: usize,
    end: usize,
}

impl Range {
    /// The first position of the range.
    pub closed spec fn start_spec(self) -> usize {
        self.start
    }

    /// The position one past the last one of the range.
    pub closed spec fn end_spec(self) -> usize {
        self.end
    }

    /// Every range ends no earlier than it starts.
    #[verifier::type_invariant]
    pub open spec fn well_formed(self) -> bool {
        self.start_spec() <= self.end_spec()
    }

    /// Whether `x` lies in the range.
    pub open spec fn covers(self, x: int) -> bool {
        self.start_spec() <= x < self.end_spec()
    }

    /// The number of positions in the range.
    pub open spec fn len_spec(self) -> int {
        self.end_spec() - self.start_spec()
    }

    /// The positions of the range, as a set.
    pub open spec fn positions(self) -> Set<int> {
        Set::new(|x: int| self.covers(x))
    }

    /// Two ranges with the same bounds are the same value.
    pub proof fn lemma_bounds_determine(a: Range, b: Range)
        requires
            a.start_spec() == b.start_spec(),
            a.end_spec() == b.end_spec(),
        ensures
            a == b,
    {
    }

    /// Creates the range that starts at `start` and holds `len` positions.
    pub fn new(start: usize, len: usize) -> (r: Range)
        requires
            start + len <= usize::MAX,
        ensures
            r.start_spec() == start,
            r.end_spec() == start + len,
    {
        Range { start, end: start + len }
    }

    /// Creates the range `[r.start, r.end)`; the range must not be empty.
    pub fn from(r: std::ops::Range<usize>) -> (res: Range)
        requires
            r.start < r.end,
        ensures
            res.start_spec() == r.start,
            res.end_spec() == r.end,
    {
        Range { start: r.start, end: r.end }
    }

    /// The first position of the range.
    pub fn start(&self) -> (s: usize)
        ensures
            s == self.start_spec(),
            s <= self.end_spec(),
    {
        proof {
            use_type_invariant(self);
        }
        self.start
    }

    /// The position one past the last one of the range.
    pub fn end(&self) -> (e: usize)
        ensures
            e == self.end_spec(),
            self.start_spec() <= e,
    {
        proof {
            use_type_invariant(self);
        }
        self.end
    }

    /// The number of positions in the range.
    pub fn len(&self) -> (l: usize)
        ensures
            l == self.len_spec(),
            self.start_spec() <= self.end_spec(),
    {
        proof {
            use_type_invariant(self);
        }
        self.end - self.start
    }

    /// Whether the range holds no position.
    pub fn is_empty(&self) -> (b: bool)
        ensures
            b == (self.start_spec() == self.end_spec()),
            b == (self.len_spec() == 0),
            self.start_spec() <= self.end_spec(),
    {
        proof {
            use_type_invariant(self);
        }
        self.start == self.end
    }

    /// Empties the range, keeping its start.
    pub fn clear(&mut self)
        ensures
            final(self).start_spec() == old(self).start_spec(),
            final(self).end_spec() == old(self).start_spec(),
    {
        self.end = self.start;
    }

    /// Makes the range hold `len` positions from its start.
    pub fn set_len(&mut self, len: usize)
        requires
            old(self).start_spec() + len <= usize::MAX,
        ensures
            final(self).start_spec() == old(self).start_spec(),
            final(self).end_spec() == old(self).start_spec() + len,
    {
        self.end = self.start + len;
    }

    /// Whether `val` lies in the range.
    pub fn contains(&self, val: usize) -> (b: bool)
        ensures
            b == self.covers(val as int),
    {
        val >= self.start && val < self.end
    }
    /// The text of the range: its first and last positions, in brackets.
    pub open spec fn text(self) -> Seq<char> {
        "["@ + crate::text::decimal(self.start_spec() as nat) + ", "@ + crate::text::decimal(
            (self.end_spec() - 1) as nat,
        ) + "]"@
    }

    /// The text of the range: its first and last positions, in brackets. The range must not
    /// end at position 0, which has no position before it.
    pub fn describe(&self) -> (text: String)
        requires
            self.end_spec() > 0,
        ensures
            text@ == self.text(),
    {
        let mut text = String::from_str("[");
        text.append(usize_decimal(self.start).as_str());
        text.append(", ");
        text.append(usize_decimal(self.end - 1).as_str());
        text.append("]");
        text
    }
}

} // verus!
