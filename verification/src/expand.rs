//! Expansion of a parsed frame-sequence into concrete frame numbers.
//!
//! Each part contributes a run of frames:
//!
//! * a single literal contributes itself;
//! * a plain range counts from `left` to `right`, one by one, in either
//!   direction;
//! * a stepped range strides from `left` towards `right` and keeps the final
//!   bound only when the stride lands on it exactly;
//! * a binary-split range lists the two bounds first and then repeatedly
//!   bisects the widest remaining gaps, so that a few early frames already
//!   cover the whole range.
//!
//! The contributions are concatenated in source order and deduplicated,
//! keeping the first occurrence of every value.

use vstd::prelude::*;
use vstd::seq_lib::seq_to_set_distributes_over_add;

use crate::frame_sequence_parser::{
    FrameSequencePart, RangeModifier, SpecPart, SpecRangeModifier, part_wf, parts_wf,
};

verus! {

/// The views of the frames a run produced.
pub open spec fn as_ints(s: Seq<isize>) -> Seq<int> {
    s.map_values(|x: isize| x as int)
}

// ---------------------------------------------------------------------------
// What each kind of part expands to.
// ---------------------------------------------------------------------------

/// A plain range: every integer from `left` to `right` inclusive, walking
/// towards `right`.
pub open spec fn range_frames(left: int, right: int) -> Seq<int> {
    if left <= right {
        Seq::new((right - left + 1) as nat, |i: int| left + i)
    } else {
        Seq::new((left - right + 1) as nat, |i: int| left - i)
    }
}

/// A stepped range: from `left` towards `right` in strides of `step`,
/// keeping `right` only when a stride lands on it exactly.
pub open spec fn stepped_frames(left: int, right: int, step: int) -> Seq<int>
    recommends
        step >= 1,
{
    if left <= right {
        Seq::new(((right - left) / step + 1) as nat, |i: int| left + i * step)
    } else {
        Seq::new(((left - right) / step + 1) as nat, |i: int| left - i * step)
    }
}

/// The midpoint of a gap, rounded towards the lower bound.
pub open spec fn mid_of(a: int, b: int) -> int {
    a + (b - a) / 2
}

/// What one gap `(a, b)` of the fence-post list contributes to the next
/// fence-post list: `a` itself, plus the midpoint when the gap still splits.
pub open spec fn gap_posts(a: int, b: int) -> Seq<int> {
    if a < mid_of(a, b) {
        seq![a, mid_of(a, b)]
    } else {
        seq![a]
    }
}

/// What one gap `(a, b)` contributes to the output: the midpoint when the
/// gap still splits, nothing otherwise.
pub open spec fn gap_mids(a: int, b: int) -> Seq<int> {
    if a < mid_of(a, b) {
        seq![mid_of(a, b)]
    } else {
        seq![]
    }
}

/// The first `k` gaps' contributions to the next fence-post list.
pub open spec fn pass_posts_upto(s: Seq<int>, k: int) -> Seq<int>
    decreases k,
    when 0 <= k < s.len()
{
    if k <= 0 {
        seq![]
    } else {
        pass_posts_upto(s, k - 1) + gap_posts(s[k - 1], s[k])
    }
}

/// The first `k` gaps' contributions to the output.
pub open spec fn pass_mids_upto(s: Seq<int>, k: int) -> Seq<int>
    decreases k,
    when 0 <= k < s.len()
{
    if k <= 0 {
        seq![]
    } else {
        pass_mids_upto(s, k - 1) + gap_mids(s[k - 1], s[k])
    }
}

/// One bisection pass over the whole fence-post list: every gap's
/// contribution, and the final endpoint kept.
pub open spec fn pass_posts(s: Seq<int>) -> Seq<int>
    recommends
        s.len() >= 1,
{
    pass_posts_upto(s, s.len() - 1) + seq![s.last()]
}

/// The midpoints one bisection pass appends to the output, in order.
pub open spec fn pass_mids(s: Seq<int>) -> Seq<int>
    recommends
        s.len() >= 1,
{
    pass_mids_upto(s, s.len() - 1)
}

/// Adjacent elements are strictly increasing.
pub open spec fn adj_inc(s: Seq<int>) -> bool {
    forall|k: int| 0 <= k < s.len() - 1 ==> #[trigger] s[k] < s[k + 1]
}

/// All midpoints that repeated bisection passes append, until every integer
/// of the range is a fence post.
pub open spec fn chop_frames(s: Seq<int>, width: int) -> Seq<int>
    decreases width - s.len(),
    when 2 <= s.len() && adj_inc(s) && width == s.last() - s[0] + 1
    via chop_frames_decreases
{
    if s.len() >= width {
        seq![]
    } else {
        pass_mids(s) + chop_frames(pass_posts(s), width)
    }
}

#[via_fn]
proof fn chop_frames_decreases(s: Seq<int>, width: int) {
    if s.len() < width {
        lemma_pass_shape(s);
        lemma_pass_progress(s, width);
        lemma_adj_inc_span(pass_posts(s));
    }
}

/// A binary-split range: both bounds first, then the midpoints in the order
/// bisection finds them; a reversed range lists the same frames in reverse.
pub open spec fn binary_split_frames(left: int, right: int) -> Seq<int> {
    if left < right {
        seq![left, right] + chop_frames(seq![left, right], right - left + 1)
    } else if left > right {
        (seq![right, left] + chop_frames(seq![right, left], left - right + 1)).reverse()
    } else {
        seq![left]
    }
}

/// The frames one part contributes.
pub open spec fn expand_part_frames(p: SpecPart) -> Seq<int> {
    match p {
        SpecPart::Frame(f) => seq![f],
        SpecPart::FrameRange { left, right, modifier } => match modifier {
            Option::None => range_frames(left, right),
            Option::Some(SpecRangeModifier::Step(st)) => stepped_frames(left, right, st),
            Option::Some(SpecRangeModifier::Binary) => binary_split_frames(left, right),
        },
    }
}

/// The concatenation, in source order, of every part's contribution.
pub open spec fn expand_parts_frames(ps: Seq<SpecPart>) -> Seq<int>
    decreases ps.len(),
{
    if ps.len() == 0 {
        seq![]
    } else {
        expand_parts_frames(ps.drop_last()) + expand_part_frames(ps.last())
    }
}

/// Stable deduplication: keeps the first occurrence of every value, in
/// order.
pub open spec fn dedup_frames(s: Seq<int>) -> Seq<int>
    decreases s.len(),
{
    if s.len() == 0 {
        seq![]
    } else {
        let rest = dedup_frames(s.drop_last());
        if s.drop_last().contains(s.last()) {
            rest
        } else {
            rest.push(s.last())
        }
    }
}

// ---------------------------------------------------------------------------
// Facts about fence posts and bisection passes.
// ---------------------------------------------------------------------------

/// Strictly increasing adjacent elements make the whole list strictly
/// increasing, and the span bounds its length.
pub proof fn lemma_adj_inc_mono(s: Seq<int>, i: int, j: int)
    requires
        adj_inc(s),
        0 <= i <= j < s.len(),
    ensures
        s[j] - s[i] >= j - i,
        i < j ==> s[i] < s[j],
    decreases j - i,
{
    if i < j {
        lemma_adj_inc_mono(s, i, j - 1);
    }
}

/// An adjacent-increasing list fits inside its span.
pub proof fn lemma_adj_inc_span(s: Seq<int>)
    requires
        adj_inc(s),
        s.len() >= 1,
    ensures
        s.len() <= s.last() - s[0] + 1,
{
    lemma_adj_inc_mono(s, 0, s.len() - 1);
}

/// Where the midpoint of a gap falls.
pub proof fn lemma_mid(a: int, b: int)
    requires
        a < b,
    ensures
        a <= mid_of(a, b),
        mid_of(a, b) < b,
        b - a >= 2 ==> a < mid_of(a, b),
        b - a == 1 ==> mid_of(a, b) == a,
{
}

/// The gap between fence posts `j` and `j + 1` is still splittable.
pub open spec fn wide_gap(s: Seq<int>, j: int) -> bool {
    s[j + 1] - s[j] >= 2
}

/// Some gap among the first `k` is still splittable.
pub open spec fn has_wide_gap(s: Seq<int>, k: int) -> bool {
    exists|j: int| 0 <= j < k && #[trigger] wide_gap(s, j)
}

/// Everything one partial bisection pass guarantees, by induction over the
/// number of gaps processed.
#[verifier::rlimit(60)]
proof fn lemma_pass_upto(s: Seq<int>, k: int)
    requires
        adj_inc(s),
        2 <= s.len(),
        1 <= k <= s.len() - 1,
    ensures
        ({
            let up = pass_posts_upto(s, k);
            let um = pass_mids_upto(s, k);
            &&& up.len() == k + um.len()
            &&& 1 <= up.len()
            &&& up[0] == s[0]
            &&& adj_inc(up)
            &&& up.last() < s[k]
            &&& up.to_set() == s.take(k).to_set().union(um.to_set())
            &&& adj_inc(um)
            &&& (forall|t: int| 0 <= t < um.len() ==> s[0] < #[trigger] um[t] < s[k])
            &&& (forall|t: int| 0 <= t < um.len() ==> !s.contains(#[trigger] um[t]))
            &&& (has_wide_gap(s, k) ==> um.len() >= 1)
        }),
    decreases k,
{
    let a = s[k - 1];
    let b = s[k];
    assert(a < b);
    lemma_mid(a, b);
    let m = mid_of(a, b);
    let up = pass_posts_upto(s, k);
    let um = pass_mids_upto(s, k);
    if a < m {
        assert(!s.contains(m)) by {
            assert forall|u: int| 0 <= u < s.len() implies s[u] != m by {
                if u <= k - 1 {
                    lemma_adj_inc_mono(s, u, k - 1);
                } else {
                    lemma_adj_inc_mono(s, k, u);
                }
            }
        }
    }
    if k == 1 {
        assert(pass_posts_upto(s, 0) == Seq::<int>::empty());
        assert(pass_mids_upto(s, 0) == Seq::<int>::empty());
        assert(up =~= gap_posts(a, b));
        assert(um =~= gap_mids(a, b));
        assert(s.take(1) =~= seq![s[0]]);
        assert(up.to_set() =~= s.take(1).to_set().union(um.to_set())) by {
            assert(up.contains(s[0])) by {
                assert(up[0] == s[0]);
            }
            assert(s.take(1).contains(s[0])) by {
                assert(s.take(1)[0] == s[0]);
            }
            if a < m {
                assert(up.contains(m)) by {
                    assert(up[1] == m);
                }
                assert(um.contains(m)) by {
                    assert(um[0] == m);
                }
                assert forall|x: int| up.contains(x) implies s.take(1).to_set().union(
                    um.to_set(),
                ).contains(x) by {
                    let t = choose|t: int| 0 <= t < up.len() && up[t] == x;
                    assert(t == 0 || t == 1);
                }
                assert forall|x: int| um.contains(x) implies up.contains(x) by {
                    let t = choose|t: int| 0 <= t < um.len() && um[t] == x;
                    assert(t == 0);
                }
            } else {
                assert forall|x: int| up.contains(x) implies s.take(1).to_set().union(
                    um.to_set(),
                ).contains(x) by {
                    let t = choose|t: int| 0 <= t < up.len() && up[t] == x;
                    assert(t == 0);
                }
                assert(um.len() == 0);
            }
        }
    } else {
        lemma_pass_upto(s, k - 1);
        let up0 = pass_posts_upto(s, k - 1);
        let um0 = pass_mids_upto(s, k - 1);
        assert(up == up0 + gap_posts(a, b));
        assert(um == um0 + gap_mids(a, b));
        // Lengths.
        assert(up.len() == k + um.len());
        // First element.
        assert(up[0] == up0[0]);
        // Adjacent increase of the new fence posts.
        assert(adj_inc(up)) by {
            assert forall|t: int| 0 <= t < up.len() - 1 implies #[trigger] up[t] < up[t + 1] by {
                if t < up0.len() - 1 {
                    assert(up[t] == up0[t] && up[t + 1] == up0[t + 1]);
                } else if t == up0.len() - 1 {
                    assert(up[t] == up0.last());
                    assert(up[t + 1] == a);
                } else {
                    assert(up[t] == a && up[t + 1] == m);
                }
            }
        }
        assert(up.last() < s[k]) by {
            if a < m {
                assert(up.last() == m);
            } else {
                assert(up.last() == a);
            }
        }
        // Adjacent increase and bounds of the midpoints.
        assert forall|t: int| 0 <= t < um.len() implies s[0] < #[trigger] um[t] < s[k] by {
            if t < um0.len() {
                assert(um[t] == um0[t]);
                assert(um0[t] < s[k - 1]);
            } else {
                assert(um[t] == m);
                lemma_adj_inc_mono(s, 0, k - 1);
            }
        }
        assert(adj_inc(um)) by {
            assert forall|t: int| 0 <= t < um.len() - 1 implies #[trigger] um[t] < um[t + 1] by {
                if t < um0.len() - 1 {
                    assert(um[t] == um0[t] && um[t + 1] == um0[t + 1]);
                } else {
                    assert(t == um0.len() - 1 && um.len() == um0.len() + 1);
                    assert(um[t] == um0[t] && um[t + 1] == m);
                    assert(um0[t] < s[k - 1]);
                }
            }
        }
        assert forall|t: int| 0 <= t < um.len() implies !s.contains(#[trigger] um[t]) by {
            if t < um0.len() {
                assert(um[t] == um0[t]);
            } else {
                assert(um[t] == m);
            }
        }
        // Contents.
        seq_to_set_distributes_over_add(up0, gap_posts(a, b));
        seq_to_set_distributes_over_add(um0, gap_mids(a, b));
        assert(s.take(k) =~= s.take(k - 1).push(a));
        assert(up.to_set() =~= s.take(k).to_set().union(um.to_set())) by {
            assert(up.to_set() =~= up0.to_set().union(gap_posts(a, b).to_set()));
            assert(um.to_set() =~= um0.to_set().union(gap_mids(a, b).to_set()));
            assert(s.take(k).to_set() =~= s.take(k - 1).to_set().insert(a)) by {
                Seq::lemma_push_to_set_commute(s.take(k - 1), a);
            }
            assert(gap_posts(a, b).contains(a)) by {
                assert(gap_posts(a, b)[0] == a);
            }
            if a < m {
                assert(gap_posts(a, b).contains(m)) by {
                    assert(gap_posts(a, b)[1] == m);
                }
                assert(gap_mids(a, b).contains(m)) by {
                    assert(gap_mids(a, b)[0] == m);
                }
                assert forall|x: int| gap_posts(a, b).contains(x) implies x == a || x == m by {
                    let t = choose|t: int| 0 <= t < gap_posts(a, b).len() && gap_posts(a, b)[t]
                        == x;
                }
                assert forall|x: int| gap_mids(a, b).contains(x) implies x == m by {
                    let t = choose|t: int| 0 <= t < gap_mids(a, b).len() && gap_mids(a, b)[t]
                        == x;
                }
            } else {
                assert forall|x: int| gap_posts(a, b).contains(x) implies x == a by {
                    let t = choose|t: int| 0 <= t < gap_posts(a, b).len() && gap_posts(a, b)[t]
                        == x;
                }
                assert(gap_mids(a, b).len() == 0);
            }
        }
        // Progress.
        if has_wide_gap(s, k) {
            let j = choose|j: int| 0 <= j < k && #[trigger] wide_gap(s, j);
            if j < k - 1 {
                assert(has_wide_gap(s, k - 1));
            } else {
                lemma_mid(a, b);
                assert(um.len() == um0.len() + 1);
            }
        }
    }
}

/// Everything one whole bisection pass guarantees.
pub proof fn lemma_pass_shape(s: Seq<int>)
    requires
        adj_inc(s),
        2 <= s.len(),
    ensures
        ({
            let p = pass_posts(s);
            let mids = pass_mids(s);
            &&& p.len() == s.len() + mids.len()
            &&& p[0] == s[0]
            &&& p.last() == s.last()
            &&& adj_inc(p)
            &&& p.to_set() == s.to_set().union(mids.to_set())
            &&& adj_inc(mids)
            &&& (forall|t: int| 0 <= t < mids.len() ==> s[0] < #[trigger] mids[t] < s.last())
            &&& (forall|t: int| 0 <= t < mids.len() ==> !s.contains(#[trigger] mids[t]))
        }),
{
    let k = s.len() - 1;
    lemma_pass_upto(s, k);
    let up = pass_posts_upto(s, k);
    let um = pass_mids_upto(s, k);
    let p = pass_posts(s);
    assert(p == up + seq![s.last()]);
    assert(p.last() == s.last());
    assert(p[0] == up[0]);
    assert(adj_inc(p)) by {
        assert forall|t: int| 0 <= t < p.len() - 1 implies #[trigger] p[t] < p[t + 1] by {
            if t < up.len() - 1 {
                assert(p[t] == up[t] && p[t + 1] == up[t + 1]);
            } else {
                assert(p[t] == up.last() && p[t + 1] == s.last());
            }
        }
    }
    seq_to_set_distributes_over_add(up, seq![s.last()]);
    assert(p.to_set() =~= s.to_set().union(um.to_set())) by {
        assert(s =~= s.take(k).push(s.last()));
        assert(s.take(k).push(s.last()).to_set() =~= s.take(k).to_set().insert(s.last())) by {
            Seq::lemma_push_to_set_commute(s.take(k), s.last());
        }
        assert(seq![s.last()].contains(s.last())) by {
            assert(seq![s.last()][0] == s.last());
        }
        assert forall|x: int| seq![s.last()].contains(x) implies x == s.last() by {
            let t = choose|t: int| 0 <= t < 1 && seq![s.last()][t] == x;
        }
    }
}

/// A fence-post list that is too short for its span still has a splittable
/// gap, so a pass strictly grows it.
pub proof fn lemma_pass_progress(s: Seq<int>, width: int)
    requires
        adj_inc(s),
        2 <= s.len(),
        width == s.last() - s[0] + 1,
        s.len() < width,
    ensures
        pass_posts(s).len() > s.len(),
{
    lemma_pass_shape(s);
    if !has_wide_gap(s, s.len() - 1) {
        assert forall|j: int| 0 <= j < s.len() implies #[trigger] s[j] == s[0] + j by {
            lemma_all_narrow(s, j);
        }
        assert(s.last() == s[0] + s.len() - 1);
        assert(false);
    }
    lemma_pass_upto(s, s.len() - 1);
}

/// Gap bounds of a partial bisection pass: with every gap of `s` at most
/// `g`, the first `k` gaps' contributions keep every new gap at most
/// `(g + 1) / 2`, the old gap halved rounding up.
proof fn lemma_pass_upto_gaps(s: Seq<int>, g: int, k: int)
    requires
        adj_inc(s),
        2 <= s.len(),
        1 <= k <= s.len() - 1,
        g >= 1,
        forall|j: int| 0 <= j < s.len() - 1 ==> #[trigger] s[j + 1] - s[j] <= g,
    ensures
        ({
            let up = pass_posts_upto(s, k);
            let half = (g + 1) / 2;
            &&& up.len() >= 1
            &&& (forall|t: int| 0 <= t < up.len() - 1 ==> #[trigger] up[t + 1] - up[t] <= half)
            &&& s[k] - up.last() <= half
        }),
    decreases k,
{
    let a = s[k - 1];
    let b = s[k];
    let d = b - a;
    lemma_mid(a, b);
    let m = mid_of(a, b);
    let half = (g + 1) / 2;
    assert(s[k - 1 + 1] - s[k - 1] <= g);
    assert(m - a == d / 2);
    assert(b - m == d - d / 2);
    assert(d - d / 2 <= half) by {
        vstd::arithmetic::div_mod::lemma_fundamental_div_mod(d, 2);
        vstd::arithmetic::div_mod::lemma_fundamental_div_mod(g + 1, 2);
    }
    assert(d / 2 <= half) by {
        vstd::arithmetic::div_mod::lemma_fundamental_div_mod(d, 2);
        vstd::arithmetic::div_mod::lemma_fundamental_div_mod(g + 1, 2);
    }
    if k == 1 {
        assert(pass_posts_upto(s, 0) == Seq::<int>::empty());
        assert(pass_posts_upto(s, 1) =~= gap_posts(a, b));
    } else {
        lemma_pass_upto_gaps(s, g, k - 1);
        let up0 = pass_posts_upto(s, k - 1);
        let up = pass_posts_upto(s, k);
        assert(up == up0 + gap_posts(a, b));
        assert forall|t: int| 0 <= t < up.len() - 1 implies #[trigger] up[t + 1] - up[t]
            <= half by {
            if t < up0.len() - 1 {
                assert(up[t] == up0[t] && up[t + 1] == up0[t + 1]);
            } else if t == up0.len() - 1 {
                assert(up[t] == up0.last());
                assert(up[t + 1] == a);
            } else {
                assert(up[t] == a && up[t + 1] == m);
            }
        }
    }
}

/// The coverage guarantee of bisection: one whole pass leaves no gap
/// between neighbouring fence posts wider than half the widest gap before
/// it, rounded up.  The frames a binary-split ordering emits early
/// therefore close in on every point of the range by halves.
pub proof fn lemma_pass_halves_gaps(s: Seq<int>, g: int)
    requires
        adj_inc(s),
        2 <= s.len(),
        g >= 1,
        forall|j: int| 0 <= j < s.len() - 1 ==> #[trigger] s[j + 1] - s[j] <= g,
    ensures
        forall|t: int|
            0 <= t < pass_posts(s).len() - 1 ==> #[trigger] pass_posts(s)[t + 1] - pass_posts(
                s,
            )[t] <= (g + 1) / 2,
{
    let k = s.len() - 1;
    lemma_pass_upto_gaps(s, g, k);
    let up = pass_posts_upto(s, k);
    let p = pass_posts(s);
    assert(p == up + seq![s.last()]);
    assert forall|t: int| 0 <= t < p.len() - 1 implies #[trigger] p[t + 1] - p[t] <= (g + 1)
        / 2 by {
        if t < up.len() - 1 {
            assert(p[t] == up[t] && p[t + 1] == up[t + 1]);
        } else {
            assert(p[t] == up.last() && p[t + 1] == s.last());
        }
    }
}

/// The set of every integer from `a` to `b` inclusive.
pub open spec fn int_range_set(a: int, b: int) -> Set<int> {
    Set::new(|x: int| a <= x <= b)
}

/// An adjacent-increasing list has no duplicates.
pub proof fn lemma_adj_inc_no_dup(s: Seq<int>)
    requires
        adj_inc(s),
    ensures
        s.no_duplicates(),
{
    assert forall|i: int, j: int| 0 <= i < s.len() && 0 <= j < s.len() && i != j implies s[i]
        != s[j] by {
        if i < j {
            lemma_adj_inc_mono(s, i, j);
        } else {
            lemma_adj_inc_mono(s, j, i);
        }
    }
}

/// Repeated bisection, starting from fence posts `s` and the frames `acc`
/// already listed, ends up listing exactly the integers of the span, each
/// once.
#[verifier::rlimit(60)]
proof fn lemma_chop_invariant(s: Seq<int>, width: int, acc: Seq<int>)
    requires
        adj_inc(s),
        2 <= s.len(),
        width == s.last() - s[0] + 1,
        acc.no_duplicates(),
        acc.to_set() == s.to_set(),
    ensures
        (acc + chop_frames(s, width)).no_duplicates(),
        (acc + chop_frames(s, width)).to_set() == int_range_set(s[0], s.last()),
        acc.len() + chop_frames(s, width).len() == width,
    decreases width - s.len(),
{
    lemma_adj_inc_span(s);
    lemma_adj_inc_no_dup(s);
    if s.len() >= width {
        // Saturated: every integer of the span is a fence post.
        assert(chop_frames(s, width) == Seq::<int>::empty());
        assert(acc + chop_frames(s, width) =~= acc);
        assert forall|j: int| 0 <= j < s.len() implies #[trigger] s[j] == s[0] + j by {
            lemma_adj_inc_mono(s, 0, j);
            lemma_adj_inc_mono(s, j, s.len() - 1);
        }
        assert(s.to_set() =~= int_range_set(s[0], s.last())) by {
            assert forall|x: int| int_range_set(s[0], s.last()).contains(x) implies s.contains(
                x,
            ) by {
                assert(s[x - s[0]] == x);
            }
        }
        assert(acc.len() == width) by {
            acc.unique_seq_to_set();
            s.unique_seq_to_set();
        }
    } else {
        lemma_pass_shape(s);
        lemma_pass_progress(s, width);
        let p = pass_posts(s);
        let mids = pass_mids(s);
        lemma_adj_inc_span(p);
        assert(chop_frames(s, width) == mids + chop_frames(p, width));
        let acc2 = acc + mids;
        assert(acc2.no_duplicates()) by {
            lemma_adj_inc_no_dup(mids);
            assert forall|i: int, j: int|
                0 <= i < acc.len() && 0 <= j < mids.len() implies acc[i] != mids[j] by {
                assert(acc.to_set().contains(acc[i]));
                assert(s.contains(acc[i]));
                assert(!s.contains(mids[j]));
            }
            vstd::seq_lib::lemma_no_dup_in_concat(acc, mids);
        }
        assert(acc2.to_set() == p.to_set()) by {
            seq_to_set_distributes_over_add(acc, mids);
            assert(acc2.to_set() =~= p.to_set());
        }
        lemma_chop_invariant(p, width, acc2);
        assert(acc + chop_frames(s, width) =~= acc2 + chop_frames(p, width));
    }
}

/// The binary-split ordering of an ascending range `(a, b)` starts with the
/// two endpoints and is a permutation of all the integers from `a` to `b`.
pub proof fn lemma_binary_split_permutation(a: int, b: int)
    requires
        a < b,
    ensures
        binary_split_frames(a, b).len() == b - a + 1,
        binary_split_frames(a, b)[0] == a,
        binary_split_frames(a, b)[1] == b,
        binary_split_frames(a, b).no_duplicates(),
        binary_split_frames(a, b).to_set() == int_range_set(a, b),
{
    let s0 = seq![a, b];
    assert(s0.last() == b && s0[0] == a);
    assert(adj_inc(s0));
    assert(s0.no_duplicates());
    lemma_chop_invariant(s0, b - a + 1, s0);
    assert(binary_split_frames(a, b) == s0 + chop_frames(s0, b - a + 1));
}

/// Without a splittable gap, the list counts up one by one.
proof fn lemma_all_narrow(s: Seq<int>, j: int)
    requires
        adj_inc(s),
        2 <= s.len(),
        !has_wide_gap(s, s.len() - 1),
        0 <= j < s.len(),
    ensures
        s[j] == s[0] + j,
    decreases j,
{
    if j > 0 {
        lemma_all_narrow(s, j - 1);
        assert(!wide_gap(s, j - 1));
        assert(s[j - 1] < s[j]);
    }
}

// ---------------------------------------------------------------------------
// Laws of expansion and deduplication.
// ---------------------------------------------------------------------------

/// A plain range and its reversed range are mirror images: `3-1` lists
/// exactly the frames of `1-3`, back to front.
pub proof fn lemma_range_mirror(left: int, right: int)
    ensures
        range_frames(left, right) == range_frames(right, left).reverse(),
{
    assert(range_frames(left, right) =~= range_frames(right, left).reverse());
}

/// An expression that parses as one plain range `a-b` with `a != b` —
/// `parse_frame_sequence`'s contract fixes its result as the deduplicated
/// expansion below — yields exactly the consecutive integers from `a` to
/// `b` inclusive, ascending when `a < b` and descending when `a > b`, and
/// the reversed range `b-a` yields the same run back to front.
pub proof fn lemma_plain_range_run(a: int, b: int)
    requires
        a != b,
    ensures
        ({
            let run = dedup_frames(
                expand_parts_frames(
                    seq![SpecPart::FrameRange { left: a, right: b, modifier: None }],
                ),
            );
            let back = dedup_frames(
                expand_parts_frames(
                    seq![SpecPart::FrameRange { left: b, right: a, modifier: None }],
                ),
            );
            &&& run == range_frames(a, b)
            &&& run.len() == (if a < b {
                b - a + 1
            } else {
                a - b + 1
            })
            &&& (forall|t: int|
                0 <= t < run.len() ==> #[trigger] run[t] == (if a < b {
                    a + t
                } else {
                    a - t
                }))
            &&& back == run.reverse()
        }),
{
    let p1 = seq![SpecPart::FrameRange { left: a, right: b, modifier: None }];
    let p2 = seq![SpecPart::FrameRange { left: b, right: a, modifier: None }];
    assert(p1.drop_last() =~= Seq::<SpecPart>::empty());
    assert(p2.drop_last() =~= Seq::<SpecPart>::empty());
    assert(expand_parts_frames(Seq::<SpecPart>::empty()) == Seq::<int>::empty());
    assert(expand_parts_frames(p1) == expand_parts_frames(p1.drop_last()) + expand_part_frames(
        p1.last(),
    ));
    assert(expand_parts_frames(p2) == expand_parts_frames(p2.drop_last()) + expand_part_frames(
        p2.last(),
    ));
    assert(expand_parts_frames(p1) =~= range_frames(a, b));
    assert(expand_parts_frames(p2) =~= range_frames(b, a));
    lemma_range_no_dup(a, b);
    lemma_range_no_dup(b, a);
    lemma_dedup_of_no_dup(range_frames(a, b));
    lemma_dedup_of_no_dup(range_frames(b, a));
    lemma_range_mirror(b, a);
}

/// A plain range repeats no value.
proof fn lemma_range_no_dup(a: int, b: int)
    ensures
        range_frames(a, b).no_duplicates(),
{
}

/// Deduplication keeps exactly the values of its input.
pub proof fn lemma_dedup_set(s: Seq<int>)
    ensures
        dedup_frames(s).to_set() == s.to_set(),
    decreases s.len(),
{
    if s.len() == 0 {
        assert(dedup_frames(s).to_set() =~= s.to_set());
    } else {
        let dl = s.drop_last();
        lemma_dedup_set(dl);
        assert(s =~= dl.push(s.last()));
        Seq::lemma_push_to_set_commute(dl, s.last());
        if dl.contains(s.last()) {
            assert(dedup_frames(s).to_set() =~= s.to_set()) by {
                assert(dl.to_set().contains(s.last()));
            }
        } else {
            Seq::lemma_push_to_set_commute(dedup_frames(dl), s.last());
            assert(dedup_frames(s).to_set() =~= s.to_set());
        }
    }
}

/// Deduplication leaves no duplicates.
pub proof fn lemma_dedup_no_duplicates(s: Seq<int>)
    ensures
        dedup_frames(s).no_duplicates(),
    decreases s.len(),
{
    if s.len() > 0 {
        let dl = s.drop_last();
        lemma_dedup_no_duplicates(dl);
        if !dl.contains(s.last()) {
            lemma_dedup_set(dl);
            let d = dedup_frames(dl);
            assert(!d.contains(s.last())) by {
                if d.contains(s.last()) {
                    assert(d.to_set().contains(s.last()));
                }
            }
            assert forall|i: int, j: int|
                0 <= i < d.push(s.last()).len() && 0 <= j < d.push(s.last()).len() && i
                    != j implies d.push(s.last())[i] != d.push(s.last())[j] by {
                if i < d.len() && j < d.len() {
                } else if i < d.len() {
                    assert(d.push(s.last())[i] == d[i]);
                    assert(d.contains(d[i]));
                } else if j < d.len() {
                    assert(d.push(s.last())[j] == d[j]);
                    assert(d.contains(d[j]));
                }
            }
        }
    }
}

/// A list without duplicates deduplicates to itself.
pub proof fn lemma_dedup_of_no_dup(s: Seq<int>)
    requires
        s.no_duplicates(),
    ensures
        dedup_frames(s) == s,
    decreases s.len(),
{
    if s.len() > 0 {
        let dl = s.drop_last();
        lemma_dedup_of_no_dup(dl);
        assert(!dl.contains(s.last())) by {
            if dl.contains(s.last()) {
                let t = choose|t: int| 0 <= t < dl.len() && #[trigger] dl[t] == s.last();
                assert(s[t] == s[s.len() - 1]);
            }
        }
        assert(dedup_frames(s) =~= s);
    }
}

/// Deduplicating twice is the same as deduplicating once.
pub proof fn lemma_dedup_idempotent(s: Seq<int>)
    ensures
        dedup_frames(dedup_frames(s)) == dedup_frames(s),
{
    lemma_dedup_no_duplicates(s);
    lemma_dedup_of_no_dup(dedup_frames(s));
}

/// A stepped range starts at `left`, stays between its bounds, and keeps
/// the final bound exactly when the stride lands on it: the last frame is
/// within one stride of `right`, and equals `right` exactly when `step`
/// divides the span.
pub proof fn lemma_step_truncation(left: int, right: int, step: int)
    requires
        step >= 1,
    ensures
        ({
            let s = stepped_frames(left, right, step);
            &&& s.len() >= 1
            &&& s.first() == left
            &&& (left <= right ==> (forall|t: int| 0 <= t < s.len() ==> left <= #[trigger] s[t]
                <= right) && right - s.last() == (right - left) % step)
            &&& (left > right ==> (forall|t: int| 0 <= t < s.len() ==> right <= #[trigger] s[t]
                <= left) && s.last() - right == (left - right) % step)
            &&& (s.last() == right <==> (if left <= right {
                right - left
            } else {
                left - right
            }) % step == 0)
        }),
{
    let s = stepped_frames(left, right, step);
    let g = if left <= right {
        right - left
    } else {
        left - right
    };
    let q = g / step;
    vstd::arithmetic::div_mod::lemma_fundamental_div_mod(g, step);
    assert(0 <= g % step < step);
    assert(q >= 0) by (nonlinear_arith)
        requires
            g >= 0,
            step >= 1,
            g == step * q + g % step,
            0 <= g % step < step,
    ;
    assert(s.len() == q + 1);
    assert(s.first() == left);
    assert forall|t: int| 0 <= t < s.len() implies (if left <= right {
        left <= #[trigger] s[t] <= right
    } else {
        right <= s[t] <= left
    }) by {
        assert(0 <= t * step <= q * step) by (nonlinear_arith)
            requires
                0 <= t <= q,
                step >= 1,
        ;
        assert(q * step <= g) by (nonlinear_arith)
            requires
                g == step * q + g % step,
                g % step >= 0,
        ;
    }
    assert(q * step == g - g % step) by (nonlinear_arith)
        requires
            g == step * q + g % step,
    ;
    if left <= right {
        assert(s.last() == left + q * step);
    } else {
        assert(s.last() == left - q * step);
    }
}

/// Every part is a single frame literal.
pub open spec fn frames_only(ps: Seq<SpecPart>) -> bool {
    forall|k: int| 0 <= k < ps.len() ==> #[trigger] ps[k] matches SpecPart::Frame(_)
}

/// The literals of a sequence of single-frame parts.
pub open spec fn frame_literals(ps: Seq<SpecPart>) -> Seq<int> {
    ps.map_values(
        |p: SpecPart|
            match p {
                SpecPart::Frame(f) => f,
                _ => 0,
            },
    )
}

/// An expression of single frame literals expands to exactly those
/// literals, so after deduplication its length is the number of distinct
/// literals.
pub proof fn lemma_frames_only_expansion(ps: Seq<SpecPart>)
    requires
        frames_only(ps),
    ensures
        expand_parts_frames(ps) == frame_literals(ps),
        dedup_frames(expand_parts_frames(ps)).len() == frame_literals(ps).to_set().len(),
    decreases ps.len(),
{
    if ps.len() == 0 {
        assert(expand_parts_frames(ps) =~= frame_literals(ps));
    } else {
        let dl = ps.drop_last();
        assert(frames_only(dl)) by {
            assert forall|k: int| 0 <= k < dl.len() implies #[trigger] dl[k] matches
                SpecPart::Frame(_) by {
                assert(dl[k] == ps[k]);
            }
        }
        lemma_frames_only_expansion(dl);
        assert(ps.last() matches SpecPart::Frame(_));
        assert(expand_parts_frames(ps) =~= frame_literals(ps));
    }
    lemma_dedup_no_duplicates(expand_parts_frames(ps));
    lemma_dedup_set(expand_parts_frames(ps));
    dedup_frames(expand_parts_frames(ps)).unique_seq_to_set();
}

// ---------------------------------------------------------------------------
// The executable expansion.
// ---------------------------------------------------------------------------

/// A copy of `v` in reverse order.
fn reversed(v: &Vec<isize>) -> (out: Vec<isize>)
    ensures
        as_ints(out@) == as_ints(v@).reverse(),
{
    let n = v.len();
    let mut out: Vec<isize> = Vec::new();
    let mut k: usize = 0;
    while k < n
        invariant
            n == v@.len(),
            k <= n,
            out@.len() == k,
            forall|t: int| 0 <= t < k ==> #[trigger] out@[t] == v@[n - 1 - t],
        decreases n - k,
    {
        out.push(v[n - 1 - k]);
        k = k + 1;
    }
    proof {
        assert(as_ints(out@) =~= as_ints(v@).reverse());
    }
    out
}

/// Runs bisection passes over the fence posts in `seq` until every integer
/// of their span is a fence post, appending each midpoint to `result` in
/// the order it is found.  Afterwards `seq` holds every integer of the
/// span, in ascending order.
#[verifier::rlimit(80)]
pub fn chop(seq: &mut Vec<isize>, result: &mut Vec<isize>, width: u128)
    requires
        2 <= old(seq)@.len(),
        adj_inc(as_ints(old(seq)@)),
        width as int == as_ints(old(seq)@).last() - as_ints(old(seq)@)[0] + 1,
    ensures
        as_ints(final(result)@) == as_ints(old(result)@) + chop_frames(
            as_ints(old(seq)@),
            width as int,
        ),
        as_ints(final(seq)@).len() == width as int,
        forall|t: int|
            0 <= t < width as int ==> as_ints(final(seq)@)[t] == as_ints(old(seq)@)[0] + t,
{
    let ghost p_init = as_ints(old(seq)@);
    let ghost r_init = as_ints(old(result)@);
    while (seq.len() as u128) < width
        invariant
            2 <= seq@.len(),
            adj_inc(as_ints(seq@)),
            width as int == as_ints(seq@).last() - as_ints(seq@)[0] + 1,
            as_ints(seq@)[0] == p_init[0],
            as_ints(seq@).last() == p_init.last(),
            2 <= p_init.len(),
            adj_inc(p_init),
            width as int == p_init.last() - p_init[0] + 1,
            r_init + chop_frames(p_init, width as int) == as_ints(result@) + chop_frames(
                as_ints(seq@),
                width as int,
            ),
        decreases width as int - seq@.len(),
    {
        let ghost p0 = as_ints(seq@);
        let ghost r0 = as_ints(result@);
        proof {
            lemma_pass_shape(p0);
            lemma_pass_progress(p0, width as int);
            lemma_adj_inc_span(pass_posts(p0));
        }
        let n = seq.len();
        let mut new_posts: Vec<isize> = Vec::new();
        let mut i: usize = 0;
        proof {
            assert(as_ints(new_posts@) =~= pass_posts_upto(p0, 0));
            assert(as_ints(result@) =~= r0 + pass_mids_upto(p0, 0));
        }
        while i < n - 1
            invariant
                n == seq@.len(),
                2 <= n,
                i <= n - 1,
                p0 == as_ints(seq@),
                adj_inc(p0),
                as_ints(new_posts@) == pass_posts_upto(p0, i as int),
                as_ints(result@) == r0 + pass_mids_upto(p0, i as int),
            decreases n - 1 - i,
        {
            let a = seq[i];
            let b = seq[i + 1];
            proof {
                assert(p0[i as int] < p0[i + 1]);
                lemma_mid(a as int, b as int);
            }
            let g: u128 = ((b as i128) - (a as i128)) as u128;
            let h: u128 = g / 2;
            let m: isize = ((a as i128) + (h as i128)) as isize;
            proof {
                assert(m as int == mid_of(a as int, b as int));
            }
            if a < m {
                new_posts.push(a);
                new_posts.push(m);
                result.push(m);
            } else {
                new_posts.push(a);
            }
            proof {
                let gp = gap_posts(p0[i as int], p0[i + 1]);
                let gm = gap_mids(p0[i as int], p0[i + 1]);
                assert(pass_posts_upto(p0, i + 1) == pass_posts_upto(p0, i as int) + gp);
                assert(pass_mids_upto(p0, i + 1) == pass_mids_upto(p0, i as int) + gm);
                if a < m {
                    assert(gp =~= seq![a as int, m as int]);
                    assert(gm =~= seq![m as int]);
                } else {
                    assert(gp =~= seq![a as int]);
                    assert(gm =~= Seq::<int>::empty());
                }
                assert(as_ints(new_posts@) =~= pass_posts_upto(p0, i as int) + gp);
                assert(as_ints(result@) =~= (r0 + pass_mids_upto(p0, i as int)) + gm);
                assert((r0 + pass_mids_upto(p0, i as int)) + gm =~= r0 + (pass_mids_upto(
                    p0,
                    i as int,
                ) + gm));
                assert(as_ints(new_posts@) =~= pass_posts_upto(p0, i + 1));
                assert(as_ints(result@) =~= r0 + pass_mids_upto(p0, i + 1));
            }
            i = i + 1;
        }
        new_posts.push(seq[n - 1]);
        proof {
            assert(as_ints(new_posts@) =~= pass_posts(p0));
            assert(as_ints(result@) =~= r0 + pass_mids(p0));
        }
        *seq = new_posts;
        proof {
            assert(chop_frames(p0, width as int) == pass_mids(p0) + chop_frames(
                pass_posts(p0),
                width as int,
            ));
            assert(r0 + (pass_mids(p0) + chop_frames(pass_posts(p0), width as int)) =~= (r0
                + pass_mids(p0)) + chop_frames(pass_posts(p0), width as int));
        }
    }
    proof {
        assert(chop_frames(as_ints(seq@), width as int) == Seq::<int>::empty());
        assert(as_ints(result@) + Seq::<int>::empty() =~= as_ints(result@));
        let s = as_ints(seq@);
        lemma_adj_inc_span(s);
        assert(s.len() == width as int);
        assert forall|t: int| 0 <= t < width as int implies s[t] == p_init[0] + t by {
            lemma_adj_inc_mono(s, 0, t);
            lemma_adj_inc_mono(s, t, s.len() - 1);
        }
    }
}

/// The binary-split expansion of a range: both bounds first, then the
/// midpoints of ever finer bisections, so that early frames already sample
/// the whole range.
pub fn binary_seq(range: (isize, isize)) -> (result: Vec<isize>)
    ensures
        as_ints(result@) == binary_split_frames(range.0 as int, range.1 as int),
{
    if range.0 < range.1 {
        let mut seq_posts: Vec<isize> = Vec::new();
        seq_posts.push(range.0);
        seq_posts.push(range.1);
        let mut result: Vec<isize> = Vec::new();
        result.push(range.0);
        result.push(range.1);
        let width: u128 = (((range.1 as i128) - (range.0 as i128)) + 1) as u128;
        proof {
            assert(as_ints(seq_posts@) =~= seq![range.0 as int, range.1 as int]);
            assert(as_ints(result@) =~= seq![range.0 as int, range.1 as int]);
        }
        chop(&mut seq_posts, &mut result, width);
        result
    } else if range.0 > range.1 {
        let mut seq_posts: Vec<isize> = Vec::new();
        seq_posts.push(range.1);
        seq_posts.push(range.0);
        let mut result: Vec<isize> = Vec::new();
        result.push(range.1);
        result.push(range.0);
        let width: u128 = (((range.0 as i128) - (range.1 as i128)) + 1) as u128;
        proof {
            assert(as_ints(seq_posts@) =~= seq![range.1 as int, range.0 as int]);
            assert(as_ints(result@) =~= seq![range.1 as int, range.0 as int]);
        }
        chop(&mut seq_posts, &mut result, width);
        reversed(&result)
    } else {
        let result: Vec<isize> = vec![range.0];
        proof {
            assert(as_ints(result@) =~= seq![range.0 as int]);
        }
        result
    }
}

/// Every integer from `left` to `right` inclusive, walking towards
/// `right`.
fn expand_plain_range(left: isize, right: isize) -> (frames: Vec<isize>)
    ensures
        as_ints(frames@) == range_frames(left as int, right as int),
{
    let mut out: Vec<isize> = Vec::new();
    if left <= right {
        let count: u128 = (((right as i128) - (left as i128)) + 1) as u128;
        let mut k: u128 = 0;
        while k < count
            invariant
                count == right as int - left as int + 1,
                k <= count,
                out@.len() == k,
                forall|t: int| 0 <= t < k ==> #[trigger] out@[t] as int == left as int + t,
            decreases count - k,
        {
            let val: isize = ((left as i128) + (k as i128)) as isize;
            out.push(val);
            k = k + 1;
        }
        proof {
            assert(as_ints(out@) =~= range_frames(left as int, right as int));
        }
    } else {
        let count: u128 = (((left as i128) - (right as i128)) + 1) as u128;
        let mut k: u128 = 0;
        while k < count
            invariant
                count == left as int - right as int + 1,
                k <= count,
                out@.len() == k,
                forall|t: int| 0 <= t < k ==> #[trigger] out@[t] as int == left as int - t,
            decreases count - k,
        {
            let val: isize = ((left as i128) - (k as i128)) as isize;
            out.push(val);
            k = k + 1;
        }
        proof {
            assert(as_ints(out@) =~= range_frames(left as int, right as int));
        }
    }
    out
}

/// From `left` in strides of `step` towards `right`; the final bound is
/// kept only when a stride lands on it exactly.
fn expand_stepped_range(left: isize, right: isize, step: isize) -> (frames: Vec<isize>)
    requires
        step >= 1,
    ensures
        as_ints(frames@) == stepped_frames(left as int, right as int, step as int),
{
    let st: u128 = step as u128;
    let mut out: Vec<isize> = Vec::new();
    if left <= right {
        let g: u128 = ((right as i128) - (left as i128)) as u128;
        let q: u128 = g / st;
        proof {
            vstd::arithmetic::div_mod::lemma_fundamental_div_mod(g as int, st as int);
        }
        let count: u128 = q + 1;
        let mut k: u128 = 0;
        while k < count
            invariant
                st == step as int,
                1 <= st,
                g == right as int - left as int,
                q == g as int / st as int,
                st * q + g as int % st as int == g,
                0 <= g as int % st as int,
                count == q + 1,
                k <= count,
                out@.len() == k,
                forall|t: int|
                    0 <= t < k ==> #[trigger] out@[t] as int == left as int + t * (step as int),
            decreases count - k,
        {
            proof {
                assert(k as int * st as int <= q as int * st as int) by (nonlinear_arith)
                    requires
                        k as int <= q as int,
                        st as int >= 1,
                ;
            }
            let off: u128 = k * st;
            let val: isize = ((left as i128) + (off as i128)) as isize;
            out.push(val);
            k = k + 1;
        }
        proof {
            assert(as_ints(out@) =~= stepped_frames(left as int, right as int, step as int));
        }
    } else {
        let g: u128 = ((left as i128) - (right as i128)) as u128;
        let q: u128 = g / st;
        proof {
            vstd::arithmetic::div_mod::lemma_fundamental_div_mod(g as int, st as int);
        }
        let count: u128 = q + 1;
        let mut k: u128 = 0;
        while k < count
            invariant
                st == step as int,
                1 <= st,
                g == left as int - right as int,
                q == g as int / st as int,
                st * q + g as int % st as int == g,
                0 <= g as int % st as int,
                count == q + 1,
                k <= count,
                out@.len() == k,
                forall|t: int|
                    0 <= t < k ==> #[trigger] out@[t] as int == left as int - t * (step as int),
            decreases count - k,
        {
            proof {
                assert(k as int * st as int <= q as int * st as int) by (nonlinear_arith)
                    requires
                        k as int <= q as int,
                        st as int >= 1,
                ;
            }
            let off: u128 = k * st;
            let val: isize = ((left as i128) - (off as i128)) as isize;
            out.push(val);
            k = k + 1;
        }
        proof {
            assert(as_ints(out@) =~= stepped_frames(left as int, right as int, step as int));
        }
    }
    out
}

/// Expands the parsed parts into the concatenation of their contributions,
/// in source order, duplicates still included.
pub fn frame_sequence_token_tree_to_frames(parts: &Vec<FrameSequencePart>) -> (frames: Vec<
    isize,
>)
    requires
        parts_wf(crate::frame_sequence_parser::spec_parts_of(parts@)),
    ensures
        as_ints(frames@) == expand_parts_frames(
            crate::frame_sequence_parser::spec_parts_of(parts@),
        ),
{
    let ghost gps = crate::frame_sequence_parser::spec_parts_of(parts@);
    let mut out: Vec<isize> = Vec::new();
    let mut i: usize = 0;
    proof {
        assert(as_ints(out@) =~= expand_parts_frames(gps.take(0)));
    }
    while i < parts.len()
        invariant
            gps == crate::frame_sequence_parser::spec_parts_of(parts@),
            parts_wf(gps),
            i <= parts@.len(),
            as_ints(out@) == expand_parts_frames(gps.take(i as int)),
        decreases parts@.len() - i,
    {
        let p = parts[i];
        proof {
            assert(gps[i as int] == p@);
            assert(part_wf(gps[i as int]));
        }
        let mut chunk: Vec<isize> = match p {
            FrameSequencePart::Frame(f) => {
                let mut c: Vec<isize> = Vec::new();
                c.push(f);
                proof {
                    assert(as_ints(c@) =~= seq![f as int]);
                }
                c
            },
            FrameSequencePart::FrameRange { left, right, modifier } => match modifier {
                None => expand_plain_range(left, right),
                Some(RangeModifier::Step(st)) => expand_stepped_range(left, right, st),
                Some(RangeModifier::Binary) => binary_seq((left, right)),
            },
        };
        proof {
            assert(as_ints(chunk@) == expand_part_frames(gps[i as int]));
        }
        out.append(&mut chunk);
        proof {
            assert(gps.take(i + 1).drop_last() =~= gps.take(i as int));
            assert(gps.take(i + 1).last() == gps[i as int]);
            assert(as_ints(out@) =~= expand_parts_frames(gps.take(i as int))
                + expand_part_frames(gps[i as int]));
        }
        i = i + 1;
    }
    proof {
        assert(gps.take(gps.len() as int) =~= gps);
    }
    out
}

/// Keeps the first occurrence of every frame, in order.
pub fn remove_duplicates(elements: Vec<isize>) -> (out: Vec<isize>)
    ensures
        as_ints(out@) == dedup_frames(as_ints(elements@)),
{
    let ghost all = as_ints(elements@);
    let mut out: Vec<isize> = Vec::new();
    let mut i: usize = 0;
    proof {
        assert(as_ints(out@) =~= dedup_frames(all.take(0)));
    }
    while i < elements.len()
        invariant
            all == as_ints(elements@),
            i <= elements@.len(),
            as_ints(out@) == dedup_frames(all.take(i as int)),
        decreases elements@.len() - i,
    {
        let e = elements[i];
        let mut seen = false;
        let mut j: usize = 0;
        while j < i
            invariant
                all == as_ints(elements@),
                j <= i <= elements@.len(),
                seen == all.take(j as int).contains(e as int),
            decreases i - j,
        {
            proof {
                assert(all.take(j + 1).drop_last() =~= all.take(j as int));
                assert(all.take(j + 1).last() == all[j as int]);
            }
            if elements[j] == e {
                seen = true;
                proof {
                    assert(all.take(j + 1)[j as int] == e as int);
                }
            } else {
                proof {
                    if all.take(j + 1).contains(e as int) {
                        let t = choose|t: int|
                            0 <= t < j + 1 && #[trigger] all.take(j + 1)[t] == e as int;
                        assert(all.take(j as int)[t] == e as int);
                    }
                }
            }
            j = j + 1;
        }
        proof {
            assert(all.take(i + 1).drop_last() =~= all.take(i as int));
            assert(all.take(i + 1).last() == all[i as int]);
        }
        if !seen {
            out.push(e);
            proof {
                assert(as_ints(out@) =~= dedup_frames(all.take(i as int)).push(e as int));
            }
        }
        i = i + 1;
    }
    proof {
        assert(all.take(all.len() as int) =~= all);
    }
    out
}

} // verus!
