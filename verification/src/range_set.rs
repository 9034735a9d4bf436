use vstd::prelude::*;
use vstd::set_lib::{set_int_range, lemma_int_range};

use crate::range::Range;

verus! {

/// The positions covered by some range of `s`.
pub open spec fn seq_positions(s: Seq<Range>) -> Set<int> {
    Set::new(|x: int| exists|i: int| 0 <= i < s.len() && (#[trigger] s[i]).covers(x))
}

/// The canonical form of a range set: every range holds at least one position, and
/// every range ends strictly before the next one starts, so that no two ranges
/// overlap or touch.
pub open spec fn seq_wf(s: Seq<Range>) -> bool {
    &&& forall|i: int| 0 <= i < s.len() ==> (#[trigger] s[i]).start_spec() < s[i].end_spec()
    &&& forall|i: int, j: int|
        0 <= i < j < s.len() ==> (#[trigger] s[i]).end_spec() < (#[trigger] s[j]).start_spec()
}

/// The sum of the lengths of the ranges of `s`.
pub open spec fn total_len(s: Seq<Range>) -> int
    decreases s.len(),
{
    if s.len() == 0 {
        0
    } else {
        total_len(s.drop_last()) + s.last().len_spec()
    }
}

/// The canonical form of a set of positions: the sequence of ranges in canonical form that
/// covers exactly those positions.
pub open spec fn canonical_ranges(positions: Set<int>) -> Seq<Range> {
    choose|s: Seq<Range>| seq_wf(s) && seq_positions(s) == positions
}

/// Whether `[run.0, run.1)` is the first run of consecutive positions of `positions`: it is
/// not empty, every position of `positions` is at least `run.0`, and `run.1` is the first
/// position from `run.0` on that `positions` lacks.
pub open spec fn is_first_run(positions: Set<int>, run: (int, int)) -> bool {
    &&& run.0 < run.1
    &&& forall|x: int| run.0 <= x < run.1 ==> #[trigger] positions.contains(x)
    &&& !positions.contains(run.1)
    &&& forall|x: int| #[trigger] positions.contains(x) ==> run.0 <= x
}

/// The first run of consecutive positions of `positions`.
pub open spec fn first_run(positions: Set<int>) -> (int, int) {
    choose|run: (int, int)| is_first_run(positions, run)
}

/// The texts of the ranges of `s`, one after the other.
pub open spec fn ranges_text(s: Seq<Range>) -> Seq<char>
    decreases s.len(),
{
    if s.len() == 0 {
        Seq::empty()
    } else {
        ranges_text(s.drop_last()) + s.last().text()
    }
}

/// A set of positions, held as a sorted list of disjoint ranges.
#[derive(Debug, PartialEq)]
pub struct RangeSet {
    ranges: Vec<Range>,
}

/// Membership in the positions of a concatenation.
pub(crate) proof fn lemma_positions_concat(a: Seq<Range>, b: Seq<Range>)
    ensures
        seq_positions(a + b) == seq_positions(a).union(seq_positions(b)),
{
    let c = a + b;
    assert forall|x: int| seq_positions(c).contains(x) implies seq_positions(a).union(
        seq_positions(b),
    ).contains(x) by {
        let i = choose|i: int| 0 <= i < c.len() && (#[trigger] c[i]).covers(x);
        if i < a.len() {
            assert(a[i] == c[i]);
        } else {
            assert(b[i - a.len()] == c[i]);
        }
    }
    assert forall|x: int| seq_positions(a).union(seq_positions(b)).contains(x) implies seq_positions(
        c,
    ).contains(x) by {
        if seq_positions(a).contains(x) {
            let i = choose|i: int| 0 <= i < a.len() && (#[trigger] a[i]).covers(x);
            assert(c[i] == a[i]);
        } else {
            let i = choose|i: int| 0 <= i < b.len() && (#[trigger] b[i]).covers(x);
            assert(c[i + a.len()] == b[i]);
        }
    }
    assert(seq_positions(c) =~= seq_positions(a).union(seq_positions(b)));
}

/// The positions of a single range.
proof fn lemma_positions_single(r: Range)
    ensures
        seq_positions(seq![r]) == r.positions(),
{
    assert forall|x: int| seq_positions(seq![r]).contains(x) implies r.positions().contains(x) by {
        let i = choose|i: int| 0 <= i < 1 && (#[trigger] seq![r][i]).covers(x);
    }
    assert forall|x: int| r.positions().contains(x) implies seq_positions(seq![r]).contains(x) by {
        assert(seq![r][0] == r);
    }
    assert(seq_positions(seq![r]) =~= r.positions());
}

/// The positions of the empty sequence.
proof fn lemma_positions_empty(s: Seq<Range>)
    requires
        s.len() == 0,
    ensures
        seq_positions(s) == Set::<int>::empty(),
{
    assert(seq_positions(s) =~= Set::<int>::empty());
}

/// In canonical form, a position below the start of range `i` lies in no range from `i` on.
proof fn lemma_below_start(s: Seq<Range>, i: int, x: int)
    requires
        seq_wf(s),
        0 <= i < s.len(),
        x < s[i].start_spec(),
    ensures
        forall|k: int| i <= k < s.len() ==> !(#[trigger] s[k]).covers(x),
{
    assert forall|k: int| i <= k < s.len() implies !(#[trigger] s[k]).covers(x) by {
        if k > i {
            assert(s[i].end_spec() < s[k].start_spec());
        }
    }
}

/// In canonical form, the total length of the ranges is bounded by the end of the last one,
/// and equals the number of positions covered.
proof fn lemma_total_len(s: Seq<Range>)
    requires
        seq_wf(s),
    ensures
        seq_positions(s).finite(),
        seq_positions(s).len() == total_len(s),
        s.len() > 0 ==> total_len(s) <= s.last().end_spec(),
        total_len(s) >= 0,
    decreases s.len(),
{
    if s.len() == 0 {
        lemma_positions_empty(s);
    } else {
        let p = s.drop_last();
        let r = s.last();
        assert(seq_wf(p));
        lemma_total_len(p);
        assert(s == p + seq![r]);
        lemma_positions_concat(p, seq![r]);
        lemma_positions_single(r);
        lemma_int_range(r.start_spec() as int, r.end_spec() as int);
        assert(r.positions() =~= set_int_range(r.start_spec() as int, r.end_spec() as int));
        assert(seq_positions(p).disjoint(r.positions())) by {
            assert forall|x: int| seq_positions(p).contains(x) implies !r.positions().contains(x) by {
                let i = choose|i: int| 0 <= i < p.len() && (#[trigger] p[i]).covers(x);
                assert(s[i] == p[i]);
                assert(s[i].end_spec() < s[s.len() - 1].start_spec());
            }
        }
        vstd::set_lib::lemma_set_disjoint_lens(seq_positions(p), r.positions());
        if p.len() > 0 {
            assert(p.last() == s[s.len() - 2]);
            assert(s[s.len() - 2].end_spec() < s[s.len() - 1].start_spec());
        }
    }
}

/// The positions of `s` split at two cut points.
proof fn lemma_positions_split3(s: Seq<Range>, i: int, j: int)
    requires
        0 <= i <= j <= s.len(),
    ensures
        seq_positions(s) == seq_positions(s.subrange(0, i)).union(
            seq_positions(s.subrange(i, j)),
        ).union(seq_positions(s.subrange(j, s.len() as int))),
{
    let a = s.subrange(0, i);
    let b = s.subrange(i, j);
    let c = s.subrange(j, s.len() as int);
    assert(s =~= a + b + c);
    lemma_positions_concat(a + b, c);
    lemma_positions_concat(a, b);
}

/// Replacing the ranges `s[i..j)` by the single range `r`, which fits strictly between its
/// neighbours, keeps the canonical form.
proof fn lemma_splice(s: Seq<Range>, i: int, j: int, r: Range)
    requires
        seq_wf(s),
        0 <= i <= j <= s.len(),
        r.start_spec() < r.end_spec(),
        i > 0 ==> s[i - 1].end_spec() < r.start_spec(),
        j < s.len() ==> r.end_spec() < s[j].start_spec(),
    ensures
        seq_wf(s.subrange(0, i) + seq![r] + s.subrange(j, s.len() as int)),
        seq_positions(s.subrange(0, i) + seq![r] + s.subrange(j, s.len() as int)) == seq_positions(
            s.subrange(0, i),
        ).union(r.positions()).union(seq_positions(s.subrange(j, s.len() as int))),
{
    let n = s.len() as int;
    let a = s.subrange(0, i);
    let c = s.subrange(j, n);
    let t = a + seq![r] + c;
    lemma_positions_concat(a + seq![r], c);
    lemma_positions_concat(a, seq![r]);
    lemma_positions_single(r);
    assert forall|k: int| 0 <= k < t.len() implies (#[trigger] t[k]).start_spec() < t[k].end_spec() by {
        if k < i {
            assert(t[k] == s[k]);
        } else if k > i {
            assert(t[k] == s[k - i - 1 + j]);
        }
    }
    assert forall|x: int, y: int| 0 <= x < y < t.len() implies (#[trigger] t[x]).end_spec() < (
    #[trigger] t[y]).start_spec() by {
        if x < i {
            assert(t[x] == s[x]);
            if y < i {
                assert(t[y] == s[y]);
            } else if y == i {
                if x < i - 1 {
                    assert(s[x].end_spec() < s[i - 1].start_spec());
                }
            } else {
                assert(t[y] == s[y - i - 1 + j]);
            }
        } else if x == i {
            assert(t[y] == s[y - i - 1 + j]);
            if y - i - 1 + j > j {
                assert(s[j].end_spec() < s[y - i - 1 + j].start_spec());
            }
        } else {
            assert(t[x] == s[x - i - 1 + j]);
            assert(t[y] == s[y - i - 1 + j]);
        }
    }
}

/// Ranges that each lose the positions of `t` cover together what the ranges they come from cover
/// outside `t`.
proof fn lemma_elementwise_difference(a: Seq<Range>, b: Seq<Range>, t: Set<int>)
    requires
        a.len() == b.len(),
        forall|k: int| 0 <= k < a.len() ==> (#[trigger] a[k]).positions() == b[k].positions().difference(t),
    ensures
        seq_positions(a) == seq_positions(b).difference(t),
{
    assert forall|x: int| seq_positions(a).contains(x) implies seq_positions(b).difference(t).contains(x) by {
        let k = choose|k: int| 0 <= k < a.len() && (#[trigger] a[k]).covers(x);
        assert(a[k].positions().contains(x));
        assert(b[k].covers(x));
    }
    assert forall|x: int| seq_positions(b).difference(t).contains(x) implies seq_positions(a).contains(x) by {
        let k = choose|k: int| 0 <= k < b.len() && (#[trigger] b[k]).covers(x);
        assert(b[k].positions().difference(t).contains(x));
        assert(a[k].positions().contains(x));
        assert(a[k].covers(x));
    }
    assert(seq_positions(a) =~= seq_positions(b).difference(t));
}

/// The shape of the result of removing the positions of `r` from `s`: the ranges before
/// index `i` and from index `j` on each lose the positions of `r` but keep within their
/// bounds, and the ranges `s[i..j)` are replaced by the ranges `m`, which cover what they
/// covered outside `r` and lie within their bounds.
proof fn lemma_difference_shape(
    s: Seq<Range>,
    r: Range,
    i: int,
    j: int,
    p: Seq<Range>,
    m: Seq<Range>,
    q: Seq<Range>,
)
    requires
        seq_wf(s),
        0 <= i <= j <= s.len(),
        p.len() == i,
        q.len() == s.len() - j,
        forall|k: int|
            0 <= k < i ==> {
                &&& s[k].start_spec() <= (#[trigger] p[k]).start_spec()
                &&& p[k].start_spec() < p[k].end_spec()
                &&& p[k].end_spec() <= s[k].end_spec()
                &&& p[k].positions() == s[k].positions().difference(r.positions())
            },
        forall|k: int|
            0 <= k < q.len() ==> {
                &&& s[k + j].start_spec() <= (#[trigger] q[k]).start_spec()
                &&& q[k].start_spec() < q[k].end_spec()
                &&& q[k].end_spec() <= s[k + j].end_spec()
                &&& q[k].positions() == s[k + j].positions().difference(r.positions())
            },
        seq_wf(m),
        m.len() > 0 ==> i < j,
        forall|k: int|
            0 <= k < m.len() ==> s[i].start_spec() <= (#[trigger] m[k]).start_spec() && m[k].end_spec()
                <= s[j - 1].end_spec(),
        seq_positions(m) == seq_positions(s.subrange(i, j)).difference(r.positions()),
    ensures
        seq_wf(p + m + q),
        seq_positions(p + m + q) == seq_positions(s).difference(r.positions()),
{
    let n = s.len() as int;
    let t = p + m + q;
    let rp = r.positions();
    lemma_positions_concat(p + m, q);
    lemma_positions_concat(p, m);
    lemma_positions_split3(s, i, j);
    let s0 = s.subrange(0, i);
    let s2 = s.subrange(j, n);
    assert forall|k: int| 0 <= k < p.len() implies (#[trigger] p[k]).positions() == s0[k].positions().difference(rp) by {
        assert(s0[k] == s[k]);
    }
    lemma_elementwise_difference(p, s0, rp);
    assert forall|k: int| 0 <= k < q.len() implies (#[trigger] q[k]).positions() == s2[k].positions().difference(rp) by {
        assert(s2[k] == s[k + j]);
    }
    lemma_elementwise_difference(q, s2, rp);
    assert(seq_positions(t) =~= seq_positions(s).difference(rp));
    let pm = p.len() + m.len();
    assert forall|k: int| 0 <= k < t.len() implies (#[trigger] t[k]).start_spec() < t[k].end_spec() by {
        if k < i {
            assert(t[k] == p[k]);
        } else if k < pm {
            assert(t[k] == m[k - i]);
        } else {
            assert(t[k] == q[k - pm]);
        }
    }
    assert forall|x: int, y: int| 0 <= x < y < t.len() implies (#[trigger] t[x]).end_spec() < (
    #[trigger] t[y]).start_spec() by {
        if x < i {
            assert(t[x] == p[x]);
            if y < i {
                assert(t[y] == p[y]);
                assert(s[x].end_spec() < s[y].start_spec());
            } else if y < pm {
                assert(t[y] == m[y - i]);
                assert(s[x].end_spec() < s[i].start_spec());
            } else {
                assert(t[y] == q[y - pm]);
                assert(s[x].end_spec() < s[y - pm + j].start_spec());
            }
        } else if x < pm {
            assert(t[x] == m[x - i]);
            if y < pm {
                assert(t[y] == m[y - i]);
            } else {
                assert(t[y] == q[y - pm]);
                if j - 1 < y - pm + j {
                    assert(s[j - 1].end_spec() < s[y - pm + j].start_spec());
                }
            }
        } else {
            assert(t[x] == q[x - pm]);
            assert(t[y] == q[y - pm]);
            assert(s[x - pm + j].end_spec() < s[y - pm + j].start_spec());
        }
    }
}

/// Whether `b` is what is left of `a` once the positions of `r`, which reach past the start
/// of `a` and past its end, are removed: the part of `a` before `r`.
pub open spec fn trimmed_before(a: Range, b: Range, r: Range) -> bool {
    &&& a.start_spec() < r.start_spec()
    &&& a.end_spec() <= r.end_spec()
    &&& b.start_spec() == a.start_spec()
    &&& b.end_spec() == if a.end_spec() < r.start_spec() {
        a.end_spec()
    } else {
        r.start_spec()
    }
}

/// The facts that `lemma_difference_shape` needs of a range that keeps within the range it comes from.
proof fn lemma_shrunk(a: Range, b: Range, r: Range)
    requires
        a.start_spec() <= b.start_spec(),
        b.start_spec() < b.end_spec(),
        b.end_spec() <= a.end_spec(),
        forall|x: int| b.covers(x) <==> (a.covers(x) && !r.covers(x)),
    ensures
        b.positions() == a.positions().difference(r.positions()),
{
    assert(b.positions() =~= a.positions().difference(r.positions()));
}

/// Adds the positions of `range` to the ranges, keeping them in canonical form.
fn add_range_to(ranges: &mut Vec<Range>, range: Range)
    requires
        seq_wf(old(ranges)@),
    ensures
        seq_wf(final(ranges)@),
        seq_positions(final(ranges)@) == seq_positions(old(ranges)@).union(range.positions()),
{
    proof {
        use_type_invariant(&range);
    }
    if range.is_empty() {
        proof {
            assert(range.positions() =~= Set::<int>::empty());
            assert(seq_positions(ranges@).union(range.positions()) =~= seq_positions(ranges@));
        }
        return;
    }
    let ghost s = ranges@;
    let n = ranges.len();
    let mut index: usize = 0;
    while index < n
        invariant
            ranges@ == s,
            old(ranges)@ == s,
            n == s.len(),
            index <= n,
            seq_wf(s),
            range.start_spec() < range.end_spec(),
            forall|k: int| 0 <= k < index ==> (#[trigger] s[k]).end_spec() < range.start_spec(),
        decreases n - index,
    {
        let cur = ranges[index];
        if range.end() < cur.start() {
            // the new range lies strictly between the ranges passed and this one
            ranges.insert(index, range);
            proof {
                let i = index as int;
                lemma_splice(s, i, i, range);
                lemma_positions_split3(s, i, i);
                lemma_positions_empty(s.subrange(i, i));
                assert(ranges@ =~= s.subrange(0, i) + seq![range] + s.subrange(i, n as int));
                assert(seq_positions(ranges@) =~= seq_positions(old(ranges)@).union(range.positions()));
            }
            return;
        } else if range.start() <= cur.end() && cur.start() <= range.end() {
            // the new range overlaps or touches this one: merge it with all it reaches
            let mut new_range = range;
            let ghost i = index as int;
            let ghost mut j: int = index as int;
            while index < ranges.len() && ranges[index].start() <= new_range.end()
                invariant
                    seq_wf(s),
                    old(ranges)@ == s,
                    n == s.len(),
                    i == index,
                    0 <= i <= j <= n,
                    i < n,
                    ranges@ == s.subrange(0, i) + s.subrange(j, n as int),
                    range.start_spec() < range.end_spec(),
                    range.start_spec() <= s[i].end_spec(),
                    s[i].start_spec() <= range.end_spec(),
                    forall|k: int| 0 <= k < i ==> (#[trigger] s[k]).end_spec() < range.start_spec(),
                    forall|k: int| i <= k < j ==> (#[trigger] s[k]).start_spec() <= range.end_spec(),
                    j == i ==> new_range == range,
                    j > i ==> new_range.start_spec() == (if range.start_spec() < s[i].start_spec() {
                        range.start_spec()
                    } else {
                        s[i].start_spec()
                    }),
                    j > i ==> new_range.end_spec() == (if range.end_spec() > s[j - 1].end_spec() {
                        range.end_spec()
                    } else {
                        s[j - 1].end_spec()
                    }),
                decreases n - j,
            {
                let cur = ranges[index];
                proof {
                    assert(cur == s[j]);
                    if j > i {
                        assert(s[j - 1].end_spec() < s[j].start_spec());
                        assert(s[i].end_spec() < s[j].start_spec());
                    }
                }
                let new_end = if new_range.end() > cur.end() {
                    new_range.end()
                } else {
                    cur.end()
                };
                let new_start = if new_range.start() < cur.start() {
                    new_range.start()
                } else {
                    cur.start()
                };
                new_range = Range::from(new_start..new_end);
                ranges.remove(index);
                proof {
                    assert(ranges@ =~= s.subrange(0, i) + s.subrange(j + 1, n as int));
                    j = j + 1;
                }
            }
            proof {
                if j == i {
                    assert(ranges@[i] == s[i]);
                }
                assert(j > i);
                if j < n {
                    assert(ranges@[i] == s[j]);
                }
                if i > 0 {
                    assert(s[i - 1].end_spec() < s[i].start_spec());
                }
            }
            ranges.insert(index, new_range);
            proof {
                lemma_splice(s, i, j, new_range);
                lemma_positions_split3(s, i, j);
                assert(ranges@ =~= s.subrange(0, i) + seq![new_range] + s.subrange(j, n as int));
                let mid = s.subrange(i, j);
                assert forall|x: int| new_range.covers(x) implies #[trigger] seq_positions(mid).union(
                    range.positions(),
                ).contains(x) by {
                    if x < range.start_spec() {
                        assert(mid[0] == s[i]);
                        assert(mid[0].covers(x));
                    } else if x >= range.end_spec() {
                        assert(mid[j - i - 1] == s[j - 1]);
                        assert(mid[j - i - 1].covers(x));
                    } else {
                        assert(range.positions().contains(x));
                    }
                }
                assert forall|x: int| seq_positions(mid).union(range.positions()).contains(x) implies #[trigger] new_range.covers(x) by {
                    if !range.covers(x) {
                        let k = choose|k: int| 0 <= k < mid.len() && (#[trigger] mid[k]).covers(x);
                        assert(mid[k] == s[i + k]);
                        if i + k > i {
                            assert(s[i].end_spec() < s[i + k].start_spec());
                        }
                        if i + k < j - 1 {
                            assert(s[i + k].end_spec() < s[j - 1].start_spec());
                        }
                    }
                }
                assert(seq_positions(mid).union(range.positions()) =~= new_range.positions());
                assert(seq_positions(ranges@) =~= seq_positions(old(ranges)@).union(range.positions()));
            }
            return;
        }
        index = index + 1;
    }
    // the new range lies after everything else
    ranges.push(range);
    proof {
        let nn = n as int;
        if nn > 0 {
            assert(s[nn - 1].end_spec() < range.start_spec());
        }
        lemma_splice(s, nn, nn, range);
        lemma_positions_split3(s, nn, nn);
        lemma_positions_empty(s.subrange(nn, nn));
        assert(ranges@ =~= s.subrange(0, nn) + seq![range] + s.subrange(nn, nn));
        assert(seq_positions(ranges@) =~= seq_positions(old(ranges)@).union(range.positions()));
    }
}

/// Removes the positions of `to_sub` from the ranges, keeping them in canonical form.
fn subtract_range_from(ranges: &mut Vec<Range>, to_sub: Range)
    requires
        seq_wf(old(ranges)@),
    ensures
        seq_wf(final(ranges)@),
        seq_positions(final(ranges)@) == seq_positions(old(ranges)@).difference(to_sub.positions()),
{
    proof {
        use_type_invariant(&to_sub);
    }
    if to_sub.len() == 0 {
        proof {
            assert(seq_positions(ranges@).difference(to_sub.positions()) =~= seq_positions(ranges@));
        }
        return;
    }
    let ghost s = ranges@;
    let n = ranges.len();
    let mut index: usize = 0;
    while index < n
        invariant
            old(ranges)@ == s,
            seq_wf(s),
            n == s.len(),
            ranges@.len() == n,
            index <= n,
            to_sub.start_spec() < to_sub.end_spec(),
            forall|k: int| index <= k < n ==> #[trigger] ranges@[k] == s[k],
            forall|k: int| 0 <= k < index ==> trimmed_before(s[k], #[trigger] ranges@[k], to_sub),
        decreases n - index,
    {
        let ghost v = ranges@;
        let ghost i = index as int;
        proof {
            assert forall|k: int| 0 <= k < i implies {
                &&& s[k].start_spec() <= (#[trigger] v[k]).start_spec()
                &&& v[k].start_spec() < v[k].end_spec()
                &&& v[k].end_spec() <= s[k].end_spec()
                &&& v[k].positions() == s[k].positions().difference(to_sub.positions())
            } by {
                assert(trimmed_before(s[k], v[k], to_sub));
                lemma_shrunk(s[k], v[k], to_sub);
            }
        }
        let cur = ranges[index];
        if to_sub.end() <= cur.start() {
            // the remaining ranges lie past the one to remove
            proof {
                let q = s.subrange(i, n as int);
                assert forall|k: int| 0 <= k < q.len() implies {
                    &&& s[k + i].start_spec() <= (#[trigger] q[k]).start_spec()
                    &&& q[k].start_spec() < q[k].end_spec()
                    &&& q[k].end_spec() <= s[k + i].end_spec()
                    &&& q[k].positions() == s[k + i].positions().difference(to_sub.positions())
                } by {
                    assert(q[k] == s[k + i]);
                    if k > 0 {
                        assert(s[i].end_spec() < s[k + i].start_spec());
                    }
                    lemma_shrunk(s[k + i], q[k], to_sub);
                }
                lemma_positions_empty(seq![]);
                lemma_positions_empty(s.subrange(i, i));
                assert(seq_positions(seq![]) =~= seq_positions(s.subrange(i, i)).difference(
                    to_sub.positions(),
                ));
                lemma_difference_shape(s, to_sub, i, i, v.subrange(0, i), seq![], q);
                assert(ranges@ =~= v.subrange(0, i) + seq![] + q);
            }
            return;
        }
        if to_sub.start() <= cur.start() && cur.start() < to_sub.end() {
            // the range to remove starts before this range and reaches into it: drop the
            // ranges that it covers entirely and cut the start of the next one
            let ghost mut j: int = i;
            while index < ranges.len() && ranges[index].end() <= to_sub.end()
                invariant
                    seq_wf(s),
                    n == s.len(),
                    i == index,
                    0 <= i <= j <= n,
                    i < n,
                    v.len() == n,
                    ranges@ == v.subrange(0, i) + s.subrange(j, n as int),
                    to_sub.start_spec() <= s[i].start_spec(),
                    forall|k: int| i <= k < j ==> (#[trigger] s[k]).end_spec() <= to_sub.end_spec(),
                decreases n - j,
            {
                proof {
                    assert(ranges@[i] == s[j]);
                }
                ranges.remove(index);
                proof {
                    assert(ranges@ =~= v.subrange(0, i) + s.subrange(j + 1, n as int));
                    j = j + 1;
                }
            }
            let ghost cut = index < ranges.len() && ranges@[i].start_spec() < to_sub.end_spec();
            if index < ranges.len() && ranges[index].start() < to_sub.end() {
                let e = ranges[index].end();
                ranges.set(index, Range::from(to_sub.end()..e));
            }
            proof {
                let q = ranges@.subrange(i, ranges@.len() as int);
                assert(q.len() == n - j);
                assert forall|k: int| 0 <= k < q.len() implies {
                    &&& s[k + j].start_spec() <= (#[trigger] q[k]).start_spec()
                    &&& q[k].start_spec() < q[k].end_spec()
                    &&& q[k].end_spec() <= s[k + j].end_spec()
                    &&& q[k].positions() == s[k + j].positions().difference(to_sub.positions())
                } by {
                    if k > 0 {
                        assert(q[k] == s[k + j]);
                        assert(s[j].end_spec() < s[k + j].start_spec());
                        assert(to_sub.end_spec() < s[j].end_spec());
                    } else if !cut {
                        assert(q[k] == s[k + j]);
                    }
                    lemma_shrunk(s[k + j], q[k], to_sub);
                }
                let mid = s.subrange(i, j);
                assert forall|x: int| seq_positions(mid).contains(x) implies to_sub.covers(x) by {
                    let k = choose|k: int| 0 <= k < mid.len() && (#[trigger] mid[k]).covers(x);
                    assert(mid[k] == s[i + k]);
                    if k > 0 {
                        assert(s[i].end_spec() < s[i + k].start_spec());
                    }
                }
                lemma_positions_empty(seq![]);
                assert(seq_positions(seq![]) =~= seq_positions(mid).difference(to_sub.positions()));
                lemma_difference_shape(s, to_sub, i, j, v.subrange(0, i), seq![], q);
                assert(ranges@ =~= v.subrange(0, i) + seq![] + q);
            }
            return;
        } else if to_sub.end() < cur.end() {
            // the range to remove punches a hole into this range
            let first_range = Range::from(cur.start()..to_sub.start());
            let second_range = Range::from(to_sub.end()..cur.end());
            ranges.set(index, second_range);
            ranges.insert(index, first_range);
            proof {
                let m = seq![first_range, second_range];
                let q = s.subrange(i + 1, n as int);
                assert forall|k: int| 0 <= k < q.len() implies {
                    &&& s[k + i + 1].start_spec() <= (#[trigger] q[k]).start_spec()
                    &&& q[k].start_spec() < q[k].end_spec()
                    &&& q[k].end_spec() <= s[k + i + 1].end_spec()
                    &&& q[k].positions() == s[k + i + 1].positions().difference(to_sub.positions())
                } by {
                    assert(q[k] == s[k + i + 1]);
                    assert(s[i].end_spec() < s[k + i + 1].start_spec());
                    lemma_shrunk(s[k + i + 1], q[k], to_sub);
                }
                assert(seq_wf(m)) by {
                    assert(m[0] == first_range);
                    assert(m[1] == second_range);
                }
                let mid = s.subrange(i, i + 1);
                assert(mid =~= seq![cur]);
                lemma_positions_single(cur);
                assert forall|x: int| seq_positions(m).contains(x) <==> seq_positions(mid).difference(
                    to_sub.positions(),
                ).contains(x) by {
                    if seq_positions(m).contains(x) {
                        let k = choose|k: int| 0 <= k < m.len() && (#[trigger] m[k]).covers(x);
                    }
                    if cur.covers(x) && !to_sub.covers(x) {
                        if x < to_sub.start_spec() {
                            assert(m[0].covers(x));
                        } else {
                            assert(m[1].covers(x));
                        }
                    }
                }
                assert(seq_positions(m) =~= seq_positions(mid).difference(to_sub.positions()));
                lemma_difference_shape(s, to_sub, i, i + 1, v.subrange(0, i), m, q);
                assert(ranges@ =~= v.subrange(0, i) + m + q);
            }
            return;
        } else if to_sub.start() < cur.end() {
            // the range to remove cuts the end of this range
            ranges.set(index, Range::from(cur.start()..to_sub.start()));
        }
        index = index + 1;
    }
    proof {
        let v = ranges@;
        let nn = n as int;
        assert forall|k: int| 0 <= k < nn implies {
            &&& s[k].start_spec() <= (#[trigger] v[k]).start_spec()
            &&& v[k].start_spec() < v[k].end_spec()
            &&& v[k].end_spec() <= s[k].end_spec()
            &&& v[k].positions() == s[k].positions().difference(to_sub.positions())
        } by {
            assert(trimmed_before(s[k], v[k], to_sub));
            lemma_shrunk(s[k], v[k], to_sub);
        }
        lemma_positions_empty(seq![]);
        lemma_positions_empty(s.subrange(nn, nn));
        assert(seq_positions(seq![]) =~= seq_positions(s.subrange(nn, nn)).difference(
            to_sub.positions(),
        ));
        lemma_difference_shape(s, to_sub, nn, nn, v, seq![], seq![]);
        assert(ranges@ =~= v + seq![] + seq![]);
    }
}

impl View for RangeSet {
    type V = Set<int>;

    /// The positions that the set holds.
    open spec fn view(&self) -> Set<int> {
        seq_positions(self.ranges_spec())
    }
}

impl RangeSet {
    /// The ranges of the set, in order.
    pub closed spec fn ranges_spec(self) -> Seq<Range> {
        self.ranges@
    }

    /// The set is in canonical form.
    #[verifier::type_invariant]
    pub open spec fn wf(self) -> bool {
        seq_wf(self.ranges_spec())
    }

    /// Creates an empty set.
    pub fn new() -> (s: RangeSet)
        ensures
            s.wf(),
            s.ranges_spec().len() == 0,
            s@ == Set::<int>::empty(),
    {
        let s = RangeSet { ranges: Vec::new() };
        proof {
            lemma_positions_empty(s.ranges@);
        }
        s
    }

    /// Whether the set holds no position.
    pub fn is_empty(&self) -> (b: bool)
        ensures
            b == (self@ == Set::<int>::empty()),
            b == (self.ranges_spec().len() == 0),
    {
        proof {
            use_type_invariant(self);
        }
        proof {
            if self.ranges@.len() > 0 {
                let r = self.ranges@[0];
                assert(r.covers(r.start_spec() as int));
                assert(self@.contains(r.start_spec() as int));
            } else {
                lemma_positions_empty(self.ranges@);
            }
        }
        self.ranges.is_empty()
    }

    /// The number of positions that the set holds.
    pub fn len(&self) -> (l: usize)
        ensures
            l == total_len(self.ranges_spec()),
            self@.finite(),
            l == self@.len(),
    {
        proof {
            use_type_invariant(self);
        }
        proof {
            lemma_total_len(self.ranges@);
        }
        let mut sum: usize = 0;
        let mut i: usize = 0;
        while i < self.ranges.len()
            invariant
                seq_wf(self.ranges@),
                i <= self.ranges@.len(),
                sum == total_len(self.ranges@.subrange(0, i as int)),
            decreases self.ranges@.len() - i,
        {
            let ghost pre = self.ranges@.subrange(0, i as int);
            let ghost next = self.ranges@.subrange(0, i + 1);
            proof {
                assert(next.drop_last() == pre);
                assert(seq_wf(next));
                lemma_total_len(next);
                assert(next.last() == self.ranges@[i as int]);
            }
            sum = sum + self.ranges[i].len();
            i = i + 1;
        }
        proof {
            assert(self.ranges@.subrange(0, i as int) == self.ranges@);
        }
        sum
    }

    /// Whether `value` lies in the set.
    pub fn contains(&self, value: usize) -> (b: bool)
        ensures
            b == self@.contains(value as int),
    {
        let mut i: usize = 0;
        while i < self.ranges.len()
            invariant
                i <= self.ranges@.len(),
                forall|k: int| 0 <= k < i ==> !(#[trigger] self.ranges@[k]).covers(value as int),
            decreases self.ranges@.len() - i,
        {
            if self.ranges[i].contains(value) {
                return true;
            }
            i = i + 1;
        }
        false
    }
    /// The number of positions from `value` on that the set holds without a gap: the
    /// set holds `value, value + 1, ..., value + l - 1` and not `value + l`. It is zero when
    /// `value` is not in the set.
    pub fn contained_length_from_value(&self, value: usize) -> (l: usize)
        ensures
            forall|k: int| 0 <= k < l ==> #[trigger] self@.contains(value + k),
            !self@.contains(value + l),
            value + l <= usize::MAX,
    {
        proof {
            use_type_invariant(self);
        }
        let mut i: usize = 0;
        while i < self.ranges.len() && value >= self.ranges[i].start()
            invariant
                seq_wf(self.ranges@),
                i <= self.ranges@.len(),
                forall|k: int| 0 <= k < i ==> !(#[trigger] self.ranges@[k]).covers(value as int),
            decreases self.ranges@.len() - i,
        {
            if self.ranges[i].contains(value) {
                let r = self.ranges[i];
                let l = r.end() - value;
                proof {
                    let s = self.ranges@;
                    assert forall|k: int| 0 <= k < l implies #[trigger] self@.contains(value + k) by {
                        assert(s[i as int].covers(value + k));
                    }
                    assert forall|k: int| 0 <= k < s.len() implies !(#[trigger] s[k]).covers(
                        r.end_spec() as int,
                    ) by {
                        if k < i {
                            assert(s[k].end_spec() < s[i as int].start_spec());
                        } else if k > i {
                            assert(s[i as int].end_spec() < s[k].start_spec());
                        }
                    }
                }
                return l;
            }
            i = i + 1;
        }
        proof {
            if i < self.ranges@.len() {
                lemma_below_start(self.ranges@, i as int, value as int);
            }
        }
        0
    }

    /// Whether every position of `other` lies in the set.
    pub fn contains_range_set(&self, other: &RangeSet) -> (b: bool)
        ensures
            b == other@.subset_of(self@),
    {
        proof {
            use_type_invariant(self);
            use_type_invariant(other);
        }
        let mut j: usize = 0;
        while j < other.ranges.len()
            invariant
                self.wf(),
                other.wf(),
                j <= other.ranges@.len(),
                forall|k: int, x: int|
                    0 <= k < j && #[trigger] other.ranges@[k].covers(x) ==> self@.contains(x),
            decreases other.ranges@.len() - j,
        {
            let r = other.ranges[j];
            let c = self.contained_length_from_value(r.start());
            if c < r.len() {
                proof {
                    let x = r.start_spec() + c;
                    assert(other.ranges@[j as int].covers(x));
                    assert(other@.contains(x));
                }
                return false;
            }
            proof {
                assert forall|x: int| #[trigger] other.ranges@[j as int].covers(x) implies self@.contains(x) by {
                    assert(self@.contains(r.start_spec() + (x - r.start_spec())));
                }
            }
            j = j + 1;
        }
        proof {
            assert forall|x: int| other@.contains(x) implies self@.contains(x) by {
                let k = choose|k: int| 0 <= k < other.ranges@.len() && (#[trigger] other.ranges@[k]).covers(x);
                assert(other.ranges@[k].covers(x));
            }
        }
        true
    }
    /// Adds the positions of `range` to the set.
    pub fn add_range(&mut self, range: Range)
        ensures
            final(self)@ == old(self)@.union(range.positions()),
    {
        proof {
            use_type_invariant(&*self);
        }
        let mut ranges = Vec::new();
        std::mem::swap(&mut ranges, &mut self.ranges);
        add_range_to(&mut ranges, range);
        self.ranges = ranges;
    }

    /// Removes the positions of `to_sub` from the set.
    pub fn subtract_range(&mut self, to_sub: Range)
        ensures
            final(self)@ == old(self)@.difference(to_sub.positions()),
    {
        proof {
            use_type_invariant(&*self);
        }
        let mut ranges = Vec::new();
        std::mem::swap(&mut ranges, &mut self.ranges);
        subtract_range_from(&mut ranges, to_sub);
        self.ranges = ranges;
    }

    /// Adds every position of `other` to the set.
    pub fn add_range_set(&mut self, other: &RangeSet)
        ensures
            final(self)@ == old(self)@.union(other@),
    {
        let mut j: usize = 0;
        while j < other.ranges.len()
            invariant
                j <= other.ranges@.len(),
                self@ == old(self)@.union(seq_positions(other.ranges@.subrange(0, j as int))),
            decreases other.ranges@.len() - j,
        {
            self.add_range(other.ranges[j]);
            proof {
                let o = other.ranges@;
                lemma_positions_concat(o.subrange(0, j as int), seq![o[j as int]]);
                lemma_positions_single(o[j as int]);
                assert(o.subrange(0, j + 1) =~= o.subrange(0, j as int) + seq![o[j as int]]);
                assert(self@ =~= old(self)@.union(seq_positions(o.subrange(0, j + 1))));
            }
            j = j + 1;
        }
        proof {
            assert(other.ranges@.subrange(0, j as int) =~= other.ranges@);
        }
    }

    /// Removes every position of `other` from the set.
    pub fn subtract_range_set(&mut self, other: &RangeSet)
        ensures
            final(self)@ == old(self)@.difference(other@),
    {
        let mut j: usize = 0;
        while j < other.ranges.len()
            invariant
                j <= other.ranges@.len(),
                self@ == old(self)@.difference(seq_positions(other.ranges@.subrange(0, j as int))),
            decreases other.ranges@.len() - j,
        {
            self.subtract_range(other.ranges[j]);
            proof {
                let o = other.ranges@;
                lemma_positions_concat(o.subrange(0, j as int), seq![o[j as int]]);
                lemma_positions_single(o[j as int]);
                assert(o.subrange(0, j + 1) =~= o.subrange(0, j as int) + seq![o[j as int]]);
                assert(self@ =~= old(self)@.difference(seq_positions(o.subrange(0, j + 1))));
            }
            j = j + 1;
        }
        proof {
            assert(other.ranges@.subrange(0, j as int) =~= other.ranges@);
        }
    }

    /// The positions that the set and `other` both hold.
    pub fn intersection(&self, other: &RangeSet) -> (result: RangeSet)
        ensures
            result@ == self@.intersect(other@),
    {
        proof {
            use_type_invariant(self);
            use_type_invariant(other);
        }
        let mut result = RangeSet::new();
        let mut self_index: usize = 0;
        let mut other_index: usize = 0;
        let ghost a = self.ranges@;
        let ghost b = other.ranges@;
        while self_index < self.ranges.len() && other_index < other.ranges.len()
            invariant
                seq_wf(a),
                seq_wf(b),
                a == self.ranges@,
                b == other.ranges@,
                self_index <= a.len(),
                other_index <= b.len(),
                result@ == self@.intersect(other@).intersect(
                    seq_positions(a.subrange(0, self_index as int)).union(
                        seq_positions(b.subrange(0, other_index as int)),
                    ),
                ),
            decreases a.len() - self_index + b.len() - other_index,
        {
            let self_range = self.ranges[self_index];
            let other_range = other.ranges[other_index];
            let ghost i = self_index as int;
            let ghost j = other_index as int;
            proof {
                lemma_positions_concat(a.subrange(0, i), seq![a[i]]);
                lemma_positions_single(a[i]);
                assert(a.subrange(0, i + 1) =~= a.subrange(0, i) + seq![a[i]]);
                lemma_positions_concat(b.subrange(0, j), seq![b[j]]);
                lemma_positions_single(b[j]);
                assert(b.subrange(0, j + 1) =~= b.subrange(0, j) + seq![b[j]]);
            }
            if self_range.end() <= other_range.start() {
                // this range of `self` ends before the rest of `other` starts
                self_index = self_index + 1;
                proof {
                    assert forall|x: int| self@.intersect(other@).contains(x) && a[i].covers(x)
                        implies seq_positions(b.subrange(0, j)).contains(x) by {
                        let k = choose|k: int| 0 <= k < b.len() && (#[trigger] b[k]).covers(x);
                        if k >= j {
                            if k > j {
                                assert(b[j].end_spec() < b[k].start_spec());
                            }
                        } else {
                            assert(b.subrange(0, j)[k] == b[k]);
                        }
                    }
                    assert(result@ =~= self@.intersect(other@).intersect(
                        seq_positions(a.subrange(0, self_index as int)).union(
                            seq_positions(b.subrange(0, other_index as int)),
                        ),
                    ));
                }
            } else if other_range.end() <= self_range.start() {
                // this range of `other` ends before the rest of `self` starts
                other_index = other_index + 1;
                proof {
                    assert forall|x: int| self@.intersect(other@).contains(x) && b[j].covers(x)
                        implies seq_positions(a.subrange(0, i)).contains(x) by {
                        let k = choose|k: int| 0 <= k < a.len() && (#[trigger] a[k]).covers(x);
                        if k >= i {
                            if k > i {
                                assert(a[i].end_spec() < a[k].start_spec());
                            }
                        } else {
                            assert(a.subrange(0, i)[k] == a[k]);
                        }
                    }
                    assert(result@ =~= self@.intersect(other@).intersect(
                        seq_positions(a.subrange(0, self_index as int)).union(
                            seq_positions(b.subrange(0, other_index as int)),
                        ),
                    ));
                }
            } else {
                // the two ranges overlap: add their common part and move past the one that
                // ends first
                let new_start = if self_range.start() > other_range.start() {
                    self_range.start()
                } else {
                    other_range.start()
                };
                let new_end = if self_range.end() < other_range.end() {
                    self_range.end()
                } else {
                    other_range.end()
                };
                let new_range = Range::from(new_start..new_end);
                result.add_range(new_range);
                proof {
                    assert forall|x: int| new_range.covers(x) implies self@.contains(x) && other@.contains(x) by {
                        assert(a[i].covers(x));
                        assert(b[j].covers(x));
                    }
                }
                if self_range.end() <= other_range.end() {
                    self_index = self_index + 1;
                    proof {
                        assert forall|x: int| self@.intersect(other@).contains(x) && a[i].covers(x)
                            implies seq_positions(b.subrange(0, j)).contains(x) || new_range.covers(x) by {
                            let k = choose|k: int| 0 <= k < b.len() && (#[trigger] b[k]).covers(x);
                            if k > j {
                                assert(b[j].end_spec() < b[k].start_spec());
                            } else if k < j {
                                assert(b.subrange(0, j)[k] == b[k]);
                            }
                        }
                        assert(result@ =~= self@.intersect(other@).intersect(
                            seq_positions(a.subrange(0, self_index as int)).union(
                                seq_positions(b.subrange(0, other_index as int)),
                            ),
                        ));
                    }
                } else {
                    other_index = other_index + 1;
                    proof {
                        assert forall|x: int| self@.intersect(other@).contains(x) && b[j].covers(x)
                            implies seq_positions(a.subrange(0, i)).contains(x) || new_range.covers(x) by {
                            let k = choose|k: int| 0 <= k < a.len() && (#[trigger] a[k]).covers(x);
                            if k > i {
                                assert(a[i].end_spec() < a[k].start_spec());
                            } else if k < i {
                                assert(a.subrange(0, i)[k] == a[k]);
                            }
                        }
                        assert(result@ =~= self@.intersect(other@).intersect(
                            seq_positions(a.subrange(0, self_index as int)).union(
                                seq_positions(b.subrange(0, other_index as int)),
                            ),
                        ));
                    }
                }
            }
        }
        proof {
            if self_index == a.len() {
                assert(a.subrange(0, self_index as int) =~= a);
            } else {
                assert(b.subrange(0, other_index as int) =~= b);
            }
            assert(result@ =~= self@.intersect(other@));
        }
        result
    }
    /// The text of the set: the texts of its ranges, in parentheses.
    pub fn describe(&self) -> (text: String)
        ensures
            text@ == "("@ + ranges_text(self.ranges_spec()) + ")"@,
    {
        proof {
            use_type_invariant(self);
        }
        let mut text = String::from_str("(");
        let mut i: usize = 0;
        while i < self.ranges.len()
            invariant
                seq_wf(self.ranges@),
                i <= self.ranges@.len(),
                text@ == "("@ + ranges_text(self.ranges@.subrange(0, i as int)),
            decreases self.ranges@.len() - i,
        {
            let r = self.ranges[i];
            proof {
                let next = self.ranges@.subrange(0, i + 1);
                assert(next.drop_last() == self.ranges@.subrange(0, i as int));
                assert(next.last() == r);
            }
            text.append(r.describe().as_str());
            i = i + 1;
        }
        proof {
            assert(self.ranges@.subrange(0, i as int) == self.ranges@);
        }
        text.append(")");
        text
    }

    /// Creates the set of the positions of all `ranges`.
    pub fn from(ranges: Vec<Range>) -> (res: RangeSet)
        ensures
            res@ == seq_positions(ranges@),
    {
        let mut res = RangeSet::new();
        let mut i: usize = 0;
        while i < ranges.len()
            invariant
                i <= ranges@.len(),
                res@ == seq_positions(ranges@.subrange(0, i as int)),
            decreases ranges@.len() - i,
        {
            res.add_range(ranges[i]);
            proof {
                let o = ranges@;
                lemma_positions_concat(o.subrange(0, i as int), seq![o[i as int]]);
                lemma_positions_single(o[i as int]);
                assert(o.subrange(0, i + 1) =~= o.subrange(0, i as int) + seq![o[i as int]]);
            }
            i = i + 1;
        }
        proof {
            assert(ranges@.subrange(0, i as int) =~= ranges@);
        }
        res
    }

    /// The range at position `index` in the order of the set.
    pub fn get(&self, index: usize) -> (r: Range)
        requires
            index < self.ranges_spec().len(),
        ensures
            r == self.ranges_spec()[index as int],
    {
        self.ranges[index]
    }

    /// The ranges of the set, in order.
    pub fn iter(&self) -> (it: std::slice::Iter<'_, Range>)
        ensures
            vstd::std_specs::slice::into_iter_elts(it) == self.ranges_spec(),
    {
        self.ranges.as_slice().iter()
    }

    /// The ranges of the set, in order.
    pub fn into_ranges(self) -> (v: Vec<Range>)
        ensures
            v@ == self.ranges_spec(),
    {
        self.ranges
    }

    /// The positions that the set or `other` holds, as a new set.
    pub fn union(&self, other: &RangeSet) -> (res: RangeSet)
        ensures
            res@ == self@.union(other@),
    {
        let mut res = self.clone();
        res.add_range_set(other);
        res
    }

    /// The positions that the set holds and `other` does not, as a new set.
    pub fn difference(&self, other: &RangeSet) -> (res: RangeSet)
        ensures
            res@ == self@.difference(other@),
    {
        let mut res = self.clone();
        res.subtract_range_set(other);
        res
    }
}

impl std::ops::AddAssign<Range> for RangeSet {
    /// Adds the positions of `range` to the set.
    fn add_assign(&mut self, range: Range)
        ensures
            final(self)@ == old(self)@.union(range.positions()),
    {
        self.add_range(range);
    }
}

impl<'a> std::ops::AddAssign<&'a RangeSet> for RangeSet {
    /// Adds every position of `other` to the set.
    fn add_assign(&mut self, other: &'a RangeSet)
        ensures
            final(self)@ == old(self)@.union(other@),
    {
        self.add_range_set(other);
    }
}

impl std::ops::SubAssign<Range> for RangeSet {
    /// Removes the positions of `range` from the set.
    fn sub_assign(&mut self, range: Range)
        ensures
            final(self)@ == old(self)@.difference(range.positions()),
    {
        self.subtract_range(range);
    }
}

impl<'a> std::ops::SubAssign<&'a RangeSet> for RangeSet {
    /// Removes every position of `other` from the set.
    fn sub_assign(&mut self, other: &'a RangeSet)
        ensures
            final(self)@ == old(self)@.difference(other@),
    {
        self.subtract_range_set(other);
    }
}

/// In canonical form, the ranges after the first cover what the whole sequence covers
/// beyond the first range.
proof fn lemma_positions_drop_first(s: Seq<Range>)
    requires
        seq_wf(s),
        s.len() > 0,
    ensures
        seq_positions(s.drop_first()) == seq_positions(s).difference(s[0].positions()),
        forall|x: int| #[trigger] seq_positions(s).contains(x) ==> s[0].start_spec() <= x,
        !seq_positions(s).contains(s[0].end_spec() as int),
{
    let t = s.drop_first();
    assert forall|x: int| seq_positions(t).contains(x) implies seq_positions(s).difference(
        s[0].positions(),
    ).contains(x) by {
        let k = choose|k: int| 0 <= k < t.len() && (#[trigger] t[k]).covers(x);
        assert(t[k] == s[k + 1]);
        assert(s[0].end_spec() < s[k + 1].start_spec());
    }
    assert forall|x: int| seq_positions(s).difference(s[0].positions()).contains(x) implies seq_positions(t).contains(x) by {
        let k = choose|k: int| 0 <= k < s.len() && (#[trigger] s[k]).covers(x);
        assert(k != 0);
        assert(t[k - 1] == s[k]);
    }
    assert(seq_positions(t) =~= seq_positions(s).difference(s[0].positions()));
    assert forall|x: int| #[trigger] seq_positions(s).contains(x) implies s[0].start_spec() <= x by {
        let k = choose|k: int| 0 <= k < s.len() && (#[trigger] s[k]).covers(x);
        if k > 0 {
            assert(s[0].end_spec() < s[k].start_spec());
        }
    }
    assert forall|k: int| 0 <= k < s.len() implies !(#[trigger] s[k]).covers(s[0].end_spec() as int) by {
        if k > 0 {
            assert(s[0].end_spec() < s[k].start_spec());
        }
    }
}

/// Two sequences in canonical form that cover the same positions are the same sequence.
proof fn lemma_seq_canonical_unique(a: Seq<Range>, b: Seq<Range>)
    requires
        seq_wf(a),
        seq_wf(b),
        seq_positions(a) == seq_positions(b),
    ensures
        a == b,
    decreases a.len(),
{
    if a.len() == 0 || b.len() == 0 {
        if a.len() > 0 {
            assert(a[0].covers(a[0].start_spec() as int));
            assert(seq_positions(a).contains(a[0].start_spec() as int));
            lemma_positions_empty(b);
        } else if b.len() > 0 {
            assert(b[0].covers(b[0].start_spec() as int));
            assert(seq_positions(b).contains(b[0].start_spec() as int));
            lemma_positions_empty(a);
        }
        assert(a =~= b);
    } else {
        lemma_positions_drop_first(a);
        lemma_positions_drop_first(b);
        let (a0, b0) = (a[0], b[0]);
        assert(a0.covers(a0.start_spec() as int));
        assert(seq_positions(a).contains(a0.start_spec() as int));
        assert(b0.covers(b0.start_spec() as int));
        assert(seq_positions(b).contains(b0.start_spec() as int));
        assert(a0.start_spec() == b0.start_spec());
        if a0.end_spec() < b0.end_spec() {
            assert(b0.covers(a0.end_spec() as int));
            assert(seq_positions(b).contains(a0.end_spec() as int));
        }
        if b0.end_spec() < a0.end_spec() {
            assert(a0.covers(b0.end_spec() as int));
            assert(seq_positions(a).contains(b0.end_spec() as int));
        }
        Range::lemma_bounds_determine(a0, b0);
        assert(a0.positions() =~= b0.positions());
        let (ta, tb) = (a.drop_first(), b.drop_first());
        assert(seq_wf(ta));
        assert(seq_wf(tb));
        lemma_seq_canonical_unique(ta, tb);
        assert forall|k: int| 0 <= k < a.len() implies a[k] == b[k] by {
            if k > 0 {
                assert(a[k] == ta[k - 1]);
                assert(b[k] == tb[k - 1]);
            }
        }
        assert(a =~= b);
    }
}

/// A set of positions has exactly one canonical form: two range sets that hold the same
/// positions hold the same ranges, in the same order.
pub proof fn lemma_canonical_unique(a: RangeSet, b: RangeSet)
    requires
        a.wf(),
        b.wf(),
        a@ == b@,
    ensures
        a.ranges_spec() == b.ranges_spec(),
{
    lemma_seq_canonical_unique(a.ranges_spec(), b.ranges_spec());
}

/// The ranges of a set are the canonical form of its positions.
pub proof fn lemma_ranges_canonical(s: RangeSet)
    requires
        s.wf(),
    ensures
        s.ranges_spec() == canonical_ranges(s@),
{
    let r = s.ranges_spec();
    assert(seq_wf(r) && seq_positions(r) == s@);
    let c = canonical_ranges(s@);
    lemma_seq_canonical_unique(c, r);
}

/// The first range of a non-empty set is its first run of consecutive positions.
pub proof fn lemma_first_range_is_first_run(s: RangeSet)
    requires
        s.wf(),
        s.ranges_spec().len() > 0,
    ensures
        first_run(s@) == (s.ranges_spec()[0].start_spec() as int, s.ranges_spec()[0].end_spec() as int),
{
    let r = s.ranges_spec();
    lemma_positions_drop_first(r);
    let run = (r[0].start_spec() as int, r[0].end_spec() as int);
    assert forall|x: int| run.0 <= x < run.1 implies #[trigger] s@.contains(x) by {
        assert(r[0].covers(x));
    }
    assert(is_first_run(s@, run));
    let c = first_run(s@);
    assert(is_first_run(s@, c));
    assert(s@.contains(c.0));
    assert(s@.contains(run.0));
    assert(c.0 == run.0);
    if c.1 < run.1 {
        assert(s@.contains(c.1));
    }
    if run.1 < c.1 {
        assert(s@.contains(run.1));
    }
}

/// A value lies in a set exactly when the run of consecutive positions of the set from that
/// value on (what `contained_length_from_value` returns) is not empty.
pub proof fn lemma_run_positive_iff_member(positions: Set<int>, value: int, run: int)
    requires
        run >= 0,
        forall|k: int| 0 <= k < run ==> #[trigger] positions.contains(value + k),
        !positions.contains(value + run),
    ensures
        (run > 0) == positions.contains(value),
{
    if run > 0 {
        assert(positions.contains(value + 0));
    }
}

/// The ranges of a set are ordered by their start, and each ends before the next starts.
pub proof fn lemma_ranges_sorted(s: RangeSet)
    requires
        s.wf(),
    ensures
        forall|i: int, j: int|
            0 <= i < j < s.ranges_spec().len() ==> (#[trigger] s.ranges_spec()[i]).start_spec()
                < (#[trigger] s.ranges_spec()[j]).start_spec(),
{
    let r = s.ranges_spec();
    assert forall|i: int, j: int| 0 <= i < j < r.len() implies (#[trigger] r[i]).start_spec() < (
    #[trigger] r[j]).start_spec() by {
        assert(r[i].end_spec() < r[j].start_spec());
    }
}

/// Adding a range whose positions the set already holds leaves the set's ranges unchanged.
pub proof fn lemma_add_covered_range(before: RangeSet, r: Range, after: RangeSet)
    requires
        before.wf(),
        after.wf(),
        r.positions().subset_of(before@),
        after@ == before@.union(r.positions()),
    ensures
        after.ranges_spec() == before.ranges_spec(),
{
    assert(after@ =~= before@);
    lemma_canonical_unique(after, before);
}

/// Removing the positions of a range that the set holds and adding the range back gives the
/// set's ranges back.
pub proof fn lemma_subtract_then_add(
    before: RangeSet,
    r: Range,
    middle: RangeSet,
    after: RangeSet,
)
    requires
        before.wf(),
        middle.wf(),
        after.wf(),
        r.positions().subset_of(before@),
        middle@ == before@.difference(r.positions()),
        after@ == middle@.union(r.positions()),
    ensures
        after.ranges_spec() == before.ranges_spec(),
{
    assert(after@ =~= before@);
    lemma_canonical_unique(after, before);
}

/// Adding a range none of whose positions the set holds and removing it again gives the
/// set's ranges back.
pub proof fn lemma_add_then_subtract(
    before: RangeSet,
    r: Range,
    middle: RangeSet,
    after: RangeSet,
)
    requires
        before.wf(),
        middle.wf(),
        after.wf(),
        r.positions().disjoint(before@),
        middle@ == before@.union(r.positions()),
        after@ == middle@.difference(r.positions()),
    ensures
        after.ranges_spec() == before.ranges_spec(),
{
    assert(after@ =~= before@);
    lemma_canonical_unique(after, before);
}

impl Default for RangeSet {
    /// An empty set.
    fn default() -> (s: Self)
        ensures
            s@ == Set::<int>::empty(),
            s.ranges_spec().len() == 0,
    {
        RangeSet::new()
    }
}

impl Clone for RangeSet {
    /// A copy of the set, with the same ranges.
    fn clone(&self) -> (res: Self)
        ensures
            res.ranges_spec() == self.ranges_spec(),
            res@ == self@,
    {
        proof {
            use_type_invariant(self);
        }
        let mut ranges: Vec<Range> = Vec::new();
        let mut i: usize = 0;
        while i < self.ranges.len()
            invariant
                i <= self.ranges@.len(),
                ranges@ == self.ranges@.subrange(0, i as int),
            decreases self.ranges@.len() - i,
        {
            ranges.push(self.ranges[i]);
            proof {
                assert(ranges@ =~= self.ranges@.subrange(0, i + 1));
            }
            i = i + 1;
        }
        proof {
            assert(ranges@ =~= self.ranges@);
        }
        RangeSet { ranges }
    }
}

} // verus!
