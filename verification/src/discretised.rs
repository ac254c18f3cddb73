//! The discretised membership function: an ordered, deduplicated set of
//! samples with interpolated lookup, approximate alpha-cut search, peak
//! detection and centroid defuzzification.

use vstd::prelude::*;
use crate::points::{Extended, Interval, SamplePoint, SCALE, UNDEFINED, X_LIMIT};
use crate::errors::FuzzyError;
use crate::prototype::T1MFPrototype;
use crate::text::{decimal, decimal_of};
use vstd::arithmetic::mul::{lemma_mul_inequality, lemma_mul_nonnegative, lemma_mul_upper_bound};
use vstd::arithmetic::div_mod::{
    lemma_div_nonincreasing,
    lemma_div_is_ordered, lemma_div_multiples_vanish, lemma_fundamental_div_mod, lemma_mod_bound,
};

verus! {

/// All samples of the sequence are well formed.
pub open spec fn all_wf(s: Seq<SamplePoint>) -> bool {
    forall|i: int| 0 <= i < s.len() ==> #[trigger] s[i].wf()
}

/// The samples are in strictly ascending domain order: in particular no two
/// share a domain value.
pub open spec fn strictly_sorted(s: Seq<SamplePoint>) -> bool {
    forall|i: int, j: int| 0 <= i < j < s.len() ==> #[trigger] s[i].x < #[trigger] s[j].x
}

/// The sample `p` occurs (domain value and degree both) in `s`.
pub open spec fn appears_in(s: Seq<SamplePoint>, p: SamplePoint) -> bool {
    exists|j: int| 0 <= j < s.len() && #[trigger] s[j] == p
}

/// Some sample of `s` sits at domain value `x`.
pub open spec fn x_retained(s: Seq<SamplePoint>, x: int) -> bool {
    exists|i: int| 0 <= i < s.len() && #[trigger] s[i].x == x
}

/// `s` is the sorted, deduplicated version of `orig`: strictly ascending by
/// domain value; every retained sample occurs in `orig` and carries the
/// greatest degree that `orig` holds at its domain value; and every domain
/// value of `orig` is retained.
pub open spec fn is_merged_sort_of(orig: Seq<SamplePoint>, s: Seq<SamplePoint>) -> bool {
    &&& strictly_sorted(s)
    &&& forall|i: int| 0 <= i < s.len() ==> appears_in(orig, #[trigger] s[i])
    &&& forall|i: int, j: int|
        0 <= i < s.len() && 0 <= j < orig.len() && #[trigger] orig[j].x == #[trigger] s[i].x
            ==> orig[j].degree <= s[i].degree
    &&& forall|j: int| 0 <= j < orig.len() ==> x_retained(s, (#[trigger] orig[j]).x as int)
}

/// A strictly sorted sequence is its own sorted, deduplicated version.
pub proof fn lemma_sorted_fixpoint(s: Seq<SamplePoint>)
    requires
        strictly_sorted(s),
    ensures
        is_merged_sort_of(s, s),
{
    assert forall|i: int| 0 <= i < s.len() implies appears_in(s, #[trigger] s[i]) by {
        assert(0 <= i < s.len() && s[i] == s[i]);
    }
    assert forall|j: int| 0 <= j < s.len() implies x_retained(s, (#[trigger] s[j]).x as int) by {
        assert(0 <= j < s.len() && s[j].x == s[j].x);
    }
    assert forall|i: int, j: int|
        0 <= i < s.len() && 0 <= j < s.len() && #[trigger] s[j].x == #[trigger] s[i].x implies s[
        j
    ].degree <= s[i].degree by {
        if i < j {
            assert(s[i].x < s[j].x);
        } else if j < i {
            assert(s[j].x < s[i].x);
        }
    }
}

/// Linear interpolation of the degree at `x` between the samples `p0` and
/// `p1`, in fixed point: the division truncates towards the degree of `p0`.
/// Meaningful for `p0.x < x < p1.x`.
pub open spec fn interp_at(p0: SamplePoint, p1: SamplePoint, x: int) -> int {
    if p0.degree <= p1.degree {
        p0.degree + ((p1.degree - p0.degree) * (x - p0.x)) / (p1.x - p0.x)
    } else {
        p0.degree - ((p0.degree - p1.degree) * (x - p0.x)) / (p1.x - p0.x)
    }
}

/// The scan of the sorted sample sequence from index `i` on: at the first
/// sample right of `x`, interpolate against its left neighbour (or take its
/// degree when it has none); at a sample exactly at `x`, take its degree;
/// past the end, the undefined sentinel.
pub open spec fn scan_fs_from(s: Seq<SamplePoint>, x: int, i: nat) -> int
    decreases s.len() - i,
{
    if i >= s.len() {
        UNDEFINED as int
    } else if s[i as int].x > x {
        if i == 0 {
            s[0].degree as int
        } else {
            interp_at(s[i - 1], s[i as int], x)
        }
    } else if s[i as int].x == x {
        s[i as int].degree as int
    } else {
        scan_fs_from(s, x, (i + 1) as nat)
    }
}

/// The midpoint of `a` and `b`, the division truncating towards zero.
pub open spec fn mid_of(a: int, b: int) -> int {
    if a + b >= 0 {
        (a + b) / 2
    } else {
        -((-(a + b)) / 2)
    }
}

/// The domain value of the last sample of the contiguous run of degree
/// `ymax` that starts at index `i` (meaningful when sample `i` has that
/// degree).
pub open spec fn plateau_end(s: Seq<SamplePoint>, ymax: int, i: nat) -> int
    decreases s.len() - i,
{
    if i + 1 < s.len() && s[i as int + 1].degree == ymax {
        plateau_end(s, ymax, (i + 1) as nat)
    } else if i < s.len() {
        s[i as int].x as int
    } else {
        0
    }
}

/// The peak scan from index `i` on, with running maximum degree `ymax`
/// first reached at `xpeak`: a strictly greater degree moves the running
/// maximum; the first tie yields the midpoint between `xpeak` and the end
/// of the tied run; exhaustion yields `xpeak`.
pub open spec fn peak_from(s: Seq<SamplePoint>, ymax: int, xpeak: int, i: nat) -> int
    decreases s.len() - i,
{
    if i >= s.len() {
        xpeak
    } else if s[i as int].degree > ymax {
        peak_from(s, s[i as int].degree as int, s[i as int].x as int, (i + 1) as nat)
    } else if s[i as int].degree == ymax {
        mid_of(xpeak, plateau_end(s, ymax, i))
    } else {
        peak_from(s, ymax, xpeak, (i + 1) as nat)
    }
}

/// The sum of `x * degree` over the samples.
pub open spec fn weighted_sum(s: Seq<SamplePoint>) -> int
    decreases s.len(),
{
    if s.len() == 0 {
        0
    } else {
        weighted_sum(s.drop_last()) + s.last().x * s.last().degree
    }
}

/// The sum of the degrees of the samples.
pub open spec fn degree_sum(s: Seq<SamplePoint>) -> int
    decreases s.len(),
{
    if s.len() == 0 {
        0
    } else {
        degree_sum(s.drop_last()) + s.last().degree
    }
}

/// One line of the human-readable listing: `degree / x`.
pub open spec fn listing_line(p: SamplePoint) -> Seq<char> {
    decimal_of(p.degree as int) + (" / ")@ + decimal_of(p.x as int) + ("\n")@
}

/// The human-readable listing of the samples, one line each.
pub open spec fn listing_of(s: Seq<SamplePoint>) -> Seq<char>
    decreases s.len(),
{
    if s.len() == 0 {
        Seq::empty()
    } else {
        listing_of(s.drop_last()) + listing_line(s.last())
    }
}

/// One row of the export table: `x,degree`.
pub open spec fn row_line(p: SamplePoint) -> Seq<char> {
    decimal_of(p.x as int) + (",")@ + decimal_of(p.degree as int) + ("\n")@
}

/// The export table of the samples, one `x,degree` row each.
pub open spec fn rows_of(s: Seq<SamplePoint>) -> Seq<char>
    decreases s.len(),
{
    if s.len() == 0 {
        Seq::empty()
    } else {
        rows_of(s.drop_last()) + row_line(s.last())
    }
}

/// The resampled export table from probe index `i` on: one `x,fs(x)` row
/// per probe position `low + i * step`, `n` probes in all.
pub open spec fn highres_rows(m: T1MFDiscretised, low: int, step: int, i: nat, n: nat) -> Seq<char>
    decreases n - i,
{
    if i >= n {
        Seq::empty()
    } else {
        decimal_of(low + i * step) + (",")@ + decimal_of(m.fs_of(low + i * step)) + ("\n")@
            + highres_rows(m, low, step, (i + 1) as nat, n)
    }
}

/// The domain value of the first sample at or after index `i` whose degree
/// is exactly 1.0, or 0 when there is none.
pub open spec fn first_one_from(s: Seq<SamplePoint>, i: nat) -> int
    decreases s.len() - i,
{
    if i >= s.len() {
        0
    } else if s[i as int].degree == SCALE {
        s[i as int].x as int
    } else {
        first_one_from(s, (i + 1) as nat)
    }
}

/// The domain value of the last sample at or before index `i` whose degree
/// is exactly 1.0, or 0 when there is none.
pub open spec fn last_one_downfrom(s: Seq<SamplePoint>, i: int) -> int
    decreases i + 1,
{
    if i < 0 || i >= s.len() {
        0
    } else if s[i].degree == SCALE {
        s[i].x as int
    } else {
        last_one_downfrom(s, i - 1)
    }
}

/// The discretised type-1 membership function. Samples may be inserted in
/// any order; every query first restores the sorted, deduplicated shape.
pub struct T1MFDiscretised {
    /// Identifier, immutable after construction.
    pub name: String,
    /// True only immediately after a sort with no intervening insertion.
    pub sorted: bool,
    /// Saturates membership to 1.0 left of `left_shoulder_start`.
    pub left_shoulder: bool,
    pub right_shoulder: bool,
    pub left_shoulder_start: i64,
    pub right_shoulder_start: i64,
    /// Number of probe steps of the approximate alpha-cut search.
    pub alpha_cut_disc_level: usize,
    /// Alpha-cut bounds closer than this collapse to a single point.
    pub alpha_cut_precision_limit: i64,
    /// Cached support, refreshed by each sort, bounds forced infinite by the
    /// shoulder setters.
    pub support: Interval,
    pub set: Vec<SamplePoint>,
}

impl T1MFDiscretised {
    /// The structural invariant: samples in range, the dirty flag truthful,
    /// and the search parameters within their machine limits.
    pub open spec fn wf(self) -> bool {
        &&& all_wf(self.set@)
        &&& (self.sorted ==> strictly_sorted(self.set@))
        &&& 2 <= self.alpha_cut_disc_level <= 1_000_000_000
        &&& 0 <= self.alpha_cut_precision_limit
    }

    /// Everything but the sample vector, the dirty flag and the cached
    /// support is unchanged.
    pub open spec fn same_config(self, other: T1MFDiscretised) -> bool {
        &&& other.name@ == self.name@
        &&& other.left_shoulder == self.left_shoulder
        &&& other.right_shoulder == self.right_shoulder
        &&& other.left_shoulder_start == self.left_shoulder_start
        &&& other.right_shoulder_start == self.right_shoulder_start
        &&& other.alpha_cut_disc_level == self.alpha_cut_disc_level
        &&& other.alpha_cut_precision_limit == self.alpha_cut_precision_limit
    }

    /// How a sort-triggering query takes `pre` to `post`: a no-op on an
    /// empty or already sorted set, otherwise the sample vector is replaced
    /// by its sorted, deduplicated version, the flag set and the cached
    /// support refreshed from the new first and last sample.
    pub open spec fn sort_transition(pre: T1MFDiscretised, post: T1MFDiscretised) -> bool {
        &&& pre.same_config(post)
        &&& (pre.sorted || pre.set@.len() == 0 ==> post == pre)
        &&& (pre.set@.len() > 0 ==> {
            &&& post.sorted
            &&& is_merged_sort_of(pre.set@, post.set@)
            &&& post.set@.len() > 0
        })
        &&& (pre.set@.len() > 0 && !pre.sorted ==> post.support == (Interval {
            low: Extended::Fin(post.set@.first().x),
            high: Extended::Fin(post.set@.last().x),
        }))
    }

    /// The support recomputed from the sample set: the span from first to
    /// last sample, with a shoulder forcing its bound to infinity (a left
    /// shoulder takes precedence over a right one), and `[0, 0]` for an
    /// empty set. Meaningful once the set is sorted.
    pub open spec fn spec_support(self) -> Interval {
        if self.set@.len() == 0 {
            Interval { low: Extended::Fin(0), high: Extended::Fin(0) }
        } else if self.left_shoulder {
            Interval { low: Extended::NegInf, high: Extended::Fin(self.set@.last().x) }
        } else if self.right_shoulder {
            Interval { low: Extended::Fin(self.set@.first().x), high: Extended::PosInf }
        } else {
            Interval {
                low: Extended::Fin(self.set@.first().x),
                high: Extended::Fin(self.set@.last().x),
            }
        }
    }

    /// Whether `x` lies outside the support span (infinite bounds excluded
    /// by the shoulder flags). Meaningful for a nonempty sorted set.
    pub open spec fn out_of_support(self, x: int) -> bool {
        if self.left_shoulder {
            x > self.set@.last().x
        } else if self.right_shoulder {
            x < self.set@.first().x
        } else {
            x < self.set@.first().x || x > self.set@.last().x
        }
    }

    /// The membership degree at `x` of the sorted set: the undefined
    /// sentinel on an empty set; 1.0 in a saturated shoulder region; 0
    /// outside the support; otherwise the scan with interpolation.
    pub open spec fn fs_of(self, x: int) -> int {
        if self.set@.len() == 0 {
            UNDEFINED as int
        } else if self.left_shoulder && x < self.left_shoulder_start {
            SCALE as int
        } else if self.right_shoulder && x > self.right_shoulder_start {
            SCALE as int
        } else if self.out_of_support(x) {
            0
        } else {
            scan_fs_from(self.set@, x, 0)
        }
    }

    /// The left bound found by the alpha-cut probe scan: the first of the
    /// `alpha_cut_disc_level` probe positions `low + i * step`, left to
    /// right, whose membership degree reaches `alpha`; `low` if none does.
    pub open spec fn probe_left_from(self, low: int, step: int, alpha: int, i: nat) -> int
        decreases self.alpha_cut_disc_level - i,
    {
        if i >= self.alpha_cut_disc_level {
            low
        } else if self.fs_of(low + i * step) >= alpha {
            low + i * step
        } else {
            self.probe_left_from(low, step, alpha, (i + 1) as nat)
        }
    }

    /// The right bound found by the alpha-cut probe scan: the first of the
    /// probe positions `high - i * step`, right to left, whose membership
    /// degree reaches `alpha`; `high` if none does.
    pub open spec fn probe_right_from(self, high: int, step: int, alpha: int, i: nat) -> int
        decreases self.alpha_cut_disc_level - i,
    {
        if i >= self.alpha_cut_disc_level {
            high
        } else if self.fs_of(high - i * step) >= alpha {
            high - i * step
        } else {
            self.probe_right_from(high, step, alpha, (i + 1) as nat)
        }
    }

    /// The alpha-cut of the sorted set. Alpha 0: the support verbatim.
    /// Alpha 1: the span of the first and last samples of degree exactly
    /// 1.0, both bounds defaulting to 0 when there is none. Otherwise an
    /// approximate two-sided probe search over the support, the two bounds
    /// collapsing to the left one when they come closer than the precision
    /// limit; with a shoulder the support cannot be partitioned into finite
    /// probes, and no interval is determined.
    pub open spec fn alpha_cut_of(self, alpha: int) -> Option<Interval> {
        if alpha == 0 {
            Some(self.spec_support())
        } else if alpha == SCALE {
            Some(
                Interval {
                    low: Extended::Fin(first_one_from(self.set@, 0) as i64),
                    high: Extended::Fin(
                        last_one_downfrom(self.set@, self.set@.len() as int - 1) as i64,
                    ),
                },
            )
        } else if self.left_shoulder || self.right_shoulder {
            None
        } else {
            let low = if self.set@.len() == 0 {
                0
            } else {
                self.set@.first().x as int
            };
            let high = if self.set@.len() == 0 {
                0
            } else {
                self.set@.last().x as int
            };
            let step = (high - low) / (self.alpha_cut_disc_level - 1);
            let l = self.probe_left_from(low, step, alpha, 0);
            let r = self.probe_right_from(high, step, alpha, 0);
            let d = if l >= r {
                l - r
            } else {
                r - l
            };
            if d < self.alpha_cut_precision_limit {
                Some(Interval { low: Extended::Fin(l as i64), high: Extended::Fin(l as i64) })
            } else {
                Some(Interval { low: Extended::Fin(l as i64), high: Extended::Fin(r as i64) })
            }
        }
    }

    /// Establishes the sorted, deduplicated invariant; a no-op if already
    /// sorted or empty. Adjacent samples with equal domain values are merged
    /// keeping the greater degree, and the cached support is refreshed.
    #[verifier::rlimit(50)]
    pub fn sort(&mut self)
        requires
            old(self).wf(),
        ensures
            final(self).wf(),
            Self::sort_transition(*old(self), *final(self)),
    {
        if self.sorted || self.set.len() == 0 {
            proof {
                if self.set@.len() > 0 {
                    lemma_sorted_fixpoint(self.set@);
                }
            }
            return;
        }
        let ghost orig = self.set@;
        let n = self.set.len();
        let mut result: Vec<SamplePoint> = Vec::new();
        let mut k: usize = 0;
        while k < n
            invariant
                n == self.set@.len(),
                orig == self.set@,
                all_wf(orig),
                k <= n,
                is_merged_sort_of(orig.take(k as int), result@),
                all_wf(result@),
            decreases n - k,
        {
            let p = self.set[k];
            let ghost pre = result@;
            let mut j: usize = 0;
            while j < result.len() && result[j].x < p.x
                invariant
                    result@ == pre,
                    j <= result@.len(),
                    forall|t: int| 0 <= t < j ==> (#[trigger] result@[t]).x < p.x,
                decreases result@.len() - j,
            {
                j = j + 1;
            }
            proof {
                assert(orig.take(k as int + 1) =~= orig.take(k as int).push(p));
            }
            let ghost taken = orig.take(k as int + 1);
            if j < result.len() && result[j].x == p.x {
                let q = if p.degree > result[j].degree {
                    p
                } else {
                    result[j]
                };
                let ghost kept = result@[j as int];
                result[j] = q;
                proof {
                    let post = result@;
                    assert(post =~= pre.update(j as int, q));
                    assert forall|i: int| 0 <= i < post.len() implies appears_in(
                        taken,
                        #[trigger] post[i],
                    ) by {
                        if i == j {
                            if p.degree > kept.degree {
                                assert(taken[k as int] == post[i]);
                            } else {
                                assert(appears_in(orig.take(k as int), kept));
                                let w = choose|w: int|
                                    0 <= w < orig.take(k as int).len() && orig.take(k as int)[w]
                                        == kept;
                                assert(taken[w] == post[i]);
                            }
                        } else {
                            assert(appears_in(orig.take(k as int), pre[i]));
                            let w = choose|w: int|
                                0 <= w < orig.take(k as int).len() && orig.take(k as int)[w]
                                    == pre[i];
                            assert(taken[w] == post[i]);
                        }
                    }
                    assert forall|i: int, t: int|
                        0 <= i < post.len() && 0 <= t < taken.len() && #[trigger] taken[t].x
                            == #[trigger] post[i].x implies taken[t].degree <= post[i].degree by {
                        if t < k as int {
                            assert(orig.take(k as int)[t] == taken[t]);
                            if i == j {
                                assert(orig.take(k as int)[t].degree <= pre[i].degree);
                            } else {
                                assert(orig.take(k as int)[t].degree <= pre[i].degree);
                            }
                        } else {
                            assert(taken[t] == p);
                            if i != j {
                                assert(strictly_sorted(pre));
                                if i < j as int {
                                    assert(pre[i].x < pre[j as int].x);
                                } else {
                                    assert(pre[j as int].x < pre[i].x);
                                }
                                assert(false);
                            }
                        }
                    }
                    assert forall|t: int| 0 <= t < taken.len() implies x_retained(
                        post,
                        (#[trigger] taken[t]).x as int,
                    ) by {
                        if t < k as int {
                            assert(x_retained(pre, orig.take(k as int)[t].x as int));
                            let w = choose|w: int|
                                0 <= w < pre.len() && pre[w].x == orig.take(k as int)[t].x;
                            assert(post[w].x == taken[t].x);
                        } else {
                            assert(post[j as int].x == p.x);
                        }
                    }
                }
            } else {
                result.insert(j, p);
                proof {
                    let post = result@;
                    assert(post =~= pre.insert(j as int, p));
                    // No earlier sample sits at p.x: the scan passed strictly
                    // smaller values and stopped at a strictly larger one.
                    assert forall|t: int| 0 <= t < pre.len() implies (#[trigger] pre[t]).x != p.x by {
                        if t < j as int {
                            assert(pre[t].x < p.x);
                        } else if j < pre.len() {
                            if t > j as int {
                                assert(pre[j as int].x < pre[t].x);
                            }
                        }
                    }
                    assert(strictly_sorted(post)) by {
                        assert forall|a: int, b: int| 0 <= a < b < post.len() implies (
                        #[trigger] post[a]).x < (#[trigger] post[b]).x by {
                            if b < j as int {
                                assert(post[a] == pre[a] && post[b] == pre[b]);
                            } else if a > j as int {
                                assert(post[a] == pre[a - 1] && post[b] == pre[b - 1]);
                            } else if a == j as int {
                                assert(post[b] == pre[b - 1]);
                                assert(j as int <= b - 1);
                            } else if b == j as int {
                                assert(post[a] == pre[a]);
                                assert(pre[a].x < p.x);
                            } else {
                                // a < j < b
                                assert(post[a] == pre[a] && post[b] == pre[b - 1]);
                                assert(pre[a].x < p.x);
                                assert(j as int <= b - 1);
                            }
                        }
                    }
                    assert forall|i: int| 0 <= i < post.len() implies appears_in(
                        taken,
                        #[trigger] post[i],
                    ) by {
                        if i == j as int {
                            assert(taken[k as int] == post[i]);
                        } else {
                            let e = if i < j as int {
                                pre[i]
                            } else {
                                pre[i - 1]
                            };
                            assert(post[i] == e);
                            assert(appears_in(orig.take(k as int), e));
                            let w = choose|w: int|
                                0 <= w < orig.take(k as int).len() && orig.take(k as int)[w] == e;
                            assert(taken[w] == post[i]);
                        }
                    }
                    assert forall|i: int, t: int|
                        0 <= i < post.len() && 0 <= t < taken.len() && #[trigger] taken[t].x
                            == #[trigger] post[i].x implies taken[t].degree <= post[i].degree by {
                        if i == j as int {
                            // post[i] is p itself; taken[t] is an original
                            // sample at p.x, so t must be k (earlier ones
                            // were all retained at another value or the scan
                            // would have found p.x).
                            if t < k as int {
                                assert(orig.take(k as int)[t] == taken[t]);
                                assert(x_retained(pre, taken[t].x as int));
                                let w = choose|w: int|
                                    0 <= w < pre.len() && pre[w].x == taken[t].x;
                                assert(pre[w].x == p.x);
                                assert(false);
                            } else {
                                assert(taken[t] == p);
                            }
                        } else {
                            let e = if i < j as int {
                                pre[i]
                            } else {
                                pre[i - 1]
                            };
                            assert(post[i] == e);
                            if t < k as int {
                                assert(orig.take(k as int)[t] == taken[t]);
                            } else {
                                assert(taken[t] == p);
                                assert(e.x != p.x);
                                assert(false);
                            }
                        }
                    }
                    assert forall|t: int| 0 <= t < taken.len() implies x_retained(
                        post,
                        (#[trigger] taken[t]).x as int,
                    ) by {
                        if t < k as int {
                            assert(x_retained(pre, orig.take(k as int)[t].x as int));
                            let w = choose|w: int|
                                0 <= w < pre.len() && pre[w].x == orig.take(k as int)[t].x;
                            let w2 = if w < j as int {
                                w
                            } else {
                                w + 1
                            };
                            assert(post[w2].x == taken[t].x);
                        } else {
                            assert(post[j as int].x == p.x);
                        }
                    }
                }
            }
            k = k + 1;
        }
        proof {
            assert(orig.take(n as int) =~= orig);
            // The original set is not empty, so neither is its merged sort.
            assert(x_retained(result@, orig[0].x as int));
        }
        let first = result[0].x;
        let last = result[result.len() - 1].x;
        self.support = Interval { low: Extended::Fin(first), high: Extended::Fin(last) };
        self.set = result;
        self.sorted = true;
    }

    /// Creates a discretised membership function, optionally seeded with an
    /// initial sample list, which is sorted and deduplicated at once.
    pub fn new(name: String, points: Option<Vec<SamplePoint>>) -> (r: T1MFDiscretised)
        requires
            points matches Some(ps) ==> all_wf(ps@),
        ensures
            r.wf(),
            r.name@ == name@,
            !r.left_shoulder,
            !r.right_shoulder,
            r.alpha_cut_disc_level == 60,
            r.alpha_cut_precision_limit == 10_000,
            points is None ==> r.set@.len() == 0 && !r.sorted && r.support == (Interval {
                low: Extended::Fin(0),
                high: Extended::Fin(0),
            }),
            points matches Some(ps) ==> (ps@.len() == 0 ==> r.set@.len() == 0 && !r.sorted
                && r.support == (Interval { low: Extended::Fin(0), high: Extended::Fin(0) })),
            points matches Some(ps) ==> (ps@.len() > 0 ==> r.sorted && is_merged_sort_of(
                ps@,
                r.set@,
            ) && r.support == (Interval {
                low: Extended::Fin(r.set@.first().x),
                high: Extended::Fin(r.set@.last().x),
            })),
    {
        let mut instance = T1MFDiscretised {
            name,
            sorted: false,
            left_shoulder: false,
            right_shoulder: false,
            left_shoulder_start: 0,
            right_shoulder_start: 0,
            alpha_cut_disc_level: 60,
            alpha_cut_precision_limit: 10_000,
            support: Interval { low: Extended::Fin(0), high: Extended::Fin(0) },
            set: Vec::new(),
        };
        if let Some(ps) = points {
            let ghost given = ps@;
            instance.add_points(ps);
            proof {
                assert(instance.set@ =~= given);
            }
            instance.sort();
        }
        instance
    }

    /// Adds a single sample; the set becomes unsorted.
    pub fn add_point(&mut self, p: SamplePoint)
        requires
            old(self).wf(),
            p.wf(),
        ensures
            final(self).wf(),
            old(self).same_config(*final(self)),
            final(self).set@ == old(self).set@.push(p),
            !final(self).sorted,
            final(self).support == old(self).support,
    {
        self.set.push(p);
        self.sorted = false;
    }

    /// Adds every sample of the list; the set becomes unsorted.
    pub fn add_points(&mut self, ps: Vec<SamplePoint>)
        requires
            old(self).wf(),
            all_wf(ps@),
        ensures
            final(self).wf(),
            old(self).same_config(*final(self)),
            final(self).set@ == old(self).set@ + ps@,
            !final(self).sorted,
            final(self).support == old(self).support,
    {
        let mut i: usize = 0;
        while i < ps.len()
            invariant
                old(self).wf(),
                all_wf(ps@),
                i <= ps@.len(),
                old(self).same_config(*self),
                self.set@ == old(self).set@ + ps@.take(i as int),
                i == 0 ==> self.sorted == old(self).sorted,
                i > 0 ==> !self.sorted,
                self.support == old(self).support,
                all_wf(self.set@),
                self.sorted ==> strictly_sorted(self.set@),
            decreases ps@.len() - i,
        {
            let p = ps[i];
            self.set.push(p);
            self.sorted = false;
            i = i + 1;
            proof {
                assert(self.set@ =~= old(self).set@ + ps@.take(i as int));
            }
        }
        self.sorted = false;
        proof {
            assert(self.set@ =~= old(self).set@ + ps@);
        }
    }

    /// The current number of probe steps of the alpha-cut search.
    pub fn get_alpha_cut_discretisation_level(&self) -> (r: usize)
        ensures
            r == self.alpha_cut_disc_level,
    {
        self.alpha_cut_disc_level
    }

    /// Sets the number of probe steps of the alpha-cut search. At least two
    /// steps are needed to span the support, and the count is capped so the
    /// probe positions stay within machine range.
    pub fn set_alpha_cut_discretisation_level(&mut self, level: usize)
        requires
            old(self).wf(),
            2 <= level <= 1_000_000_000,
        ensures
            final(self).wf(),
            *final(self) == (T1MFDiscretised { alpha_cut_disc_level: level, ..*old(self) }),
    {
        self.alpha_cut_disc_level = level;
    }

    /// The number of samples currently held (duplicates included until the
    /// next sort-triggering query).
    pub fn get_number_of_points(&self) -> (r: usize)
        ensures
            r == self.set@.len(),
    {
        self.set.len()
    }

    /// Marks the set as a left shoulder: membership saturates to 1.0 left of
    /// `shoulder_start` and the lower support bound becomes infinite. A
    /// later call simply overwrites the threshold.
    pub fn set_left_shoulder_set(&mut self, shoulder_start: i64)
        requires
            old(self).wf(),
        ensures
            final(self).wf(),
            *final(self) == (T1MFDiscretised {
                left_shoulder: true,
                left_shoulder_start: shoulder_start,
                support: Interval { low: Extended::NegInf, high: old(self).support.high },
                ..*old(self)
            }),
    {
        self.left_shoulder = true;
        self.left_shoulder_start = shoulder_start;
        self.support = Interval { low: Extended::NegInf, high: self.support.high };
    }

    /// Marks the set as a right shoulder: membership saturates to 1.0 right
    /// of `shoulder_start` and the upper support bound becomes infinite.
    pub fn set_right_shoulder_set(&mut self, shoulder_start: i64)
        requires
            old(self).wf(),
        ensures
            final(self).wf(),
            *final(self) == (T1MFDiscretised {
                right_shoulder: true,
                right_shoulder_start: shoulder_start,
                support: Interval { low: old(self).support.low, high: Extended::PosInf },
                ..*old(self)
            }),
    {
        self.right_shoulder = true;
        self.right_shoulder_start = shoulder_start;
        self.support = Interval { low: self.support.low, high: Extended::PosInf };
    }

    /// Linear interpolation of the degree at `x` between the samples at
    /// indices `left` and `right`, exact in fixed point up to the final
    /// truncating division. The result lies between the two degrees.
    pub fn interpolate(&self, left: usize, x: i64, right: usize) -> (r: i64)
        requires
            self.wf(),
            left < self.set@.len(),
            right < self.set@.len(),
            self.set@[left as int].x < x < self.set@[right as int].x,
        ensures
            r == interp_at(self.set@[left as int], self.set@[right as int], x as int),
            0 <= r <= SCALE,
    {
        proof {
            assert(self.set@[left as int].wf());
            assert(self.set@[right as int].wf());
        }
        let p0 = self.set[left];
        let p1 = self.set[right];
        let den = (p1.x - p0.x) as u64;
        let dx = (x - p0.x) as u64;
        if p0.degree <= p1.degree {
            let dv = p1.degree - p0.degree;
            proof {
                lemma_mul_upper_bound(dv as int, SCALE as int, dx as int, 2 * X_LIMIT as int);
            }
            let num = (dv as u64) * dx;
            let q = num / den;
            proof {
                lemma_mul_inequality(dx as int, den as int, dv as int);
                lemma_div_is_ordered(num as int, dv * den, den as int);
                lemma_div_multiples_vanish(dv as int, den as int);
            }
            p0.degree + (q as i64)
        } else {
            let dv = p0.degree - p1.degree;
            proof {
                lemma_mul_upper_bound(dv as int, SCALE as int, dx as int, 2 * X_LIMIT as int);
            }
            let num = (dv as u64) * dx;
            let q = num / den;
            proof {
                lemma_mul_inequality(dx as int, den as int, dv as int);
                lemma_div_is_ordered(num as int, dv * den, den as int);
                lemma_div_multiples_vanish(dv as int, den as int);
            }
            p0.degree - (q as i64)
        }
    }

    /// The membership degree at `x`, over an already sorted set.
    fn fs_on_sorted(&self, x: i64) -> (r: i64)
        requires
            self.wf(),
            self.set@.len() > 0 ==> strictly_sorted(self.set@),
        ensures
            r == self.fs_of(x as int),
            UNDEFINED <= r <= SCALE,
    {
        if self.set.len() == 0 {
            return UNDEFINED;
        }
        if self.left_shoulder && x < self.left_shoulder_start {
            return SCALE;
        }
        if self.right_shoulder && x > self.right_shoulder_start {
            return SCALE;
        }
        let first = self.set[0].x;
        let last = self.set[self.set.len() - 1].x;
        let outside = if self.left_shoulder {
            x > last
        } else if self.right_shoulder {
            x < first
        } else {
            x < first || x > last
        };
        proof {
            assert(outside == self.out_of_support(x as int));
        }
        if outside {
            return 0;
        }
        let n = self.set.len();
        let mut i: usize = 0;
        while i < n
            invariant
                self.wf(),
                strictly_sorted(self.set@),
                n == self.set@.len(),
                n > 0,
                i <= n,
                self.fs_of(x as int) == scan_fs_from(self.set@, x as int, i as nat),
                forall|t: int| 0 <= t < i ==> (#[trigger] self.set@[t]).x < x,
            decreases n - i,
        {
            proof {
                assert(self.set@[i as int].wf());
            }
            if self.set[i].x > x {
                if i == 0 {
                    return self.set[0].degree;
                }
                return self.interpolate(i - 1, x, i);
            } else if self.set[i].x == x {
                return self.set[i].degree;
            }
            i = i + 1;
        }
        UNDEFINED
    }

    /// The membership degree at `x`: the undefined sentinel (-1.0 in fixed
    /// point) on an empty set; 1.0 in a saturated shoulder region; 0 outside
    /// the support; the sample's own degree exactly at a sample; linear
    /// interpolation strictly between two samples. Sorts the set first.
    pub fn get_fs(&mut self, x: i64) -> (r: i64)
        requires
            old(self).wf(),
        ensures
            final(self).wf(),
            Self::sort_transition(*old(self), *final(self)),
            r == final(self).fs_of(x as int),
            UNDEFINED <= r <= SCALE,
    {
        self.sort();
        self.fs_on_sorted(x)
    }

    /// The support recomputed from the (freshly sorted) sample set: first to
    /// last sample, a shoulder forcing its bound to infinity, `[0, 0]` for
    /// an empty set.
    pub fn get_support(&mut self) -> (r: Interval)
        requires
            old(self).wf(),
        ensures
            final(self).wf(),
            Self::sort_transition(*old(self), *final(self)),
            r == final(self).spec_support(),
    {
        if self.set.len() == 0 {
            return Interval { low: Extended::Fin(0), high: Extended::Fin(0) };
        }
        self.sort();
        let first = self.set[0].x;
        let last = self.set[self.set.len() - 1].x;
        if self.left_shoulder {
            Interval { low: Extended::NegInf, high: Extended::Fin(last) }
        } else if self.right_shoulder {
            Interval { low: Extended::Fin(first), high: Extended::PosInf }
        } else {
            Interval { low: Extended::Fin(first), high: Extended::Fin(last) }
        }
    }

    /// The sorted, deduplicated samples, as a fresh vector.
    pub fn get_points(&mut self) -> (r: Vec<SamplePoint>)
        requires
            old(self).wf(),
        ensures
            final(self).wf(),
            Self::sort_transition(*old(self), *final(self)),
            r@ == final(self).set@,
    {
        self.sort();
        let mut out: Vec<SamplePoint> = Vec::new();
        let mut i: usize = 0;
        while i < self.set.len()
            invariant
                i <= self.set@.len(),
                out@ == self.set@.take(i as int),
            decreases self.set@.len() - i,
        {
            out.push(self.set[i]);
            i = i + 1;
            proof {
                assert(out@ =~= self.set@.take(i as int));
            }
        }
        proof {
            assert(out@ =~= self.set@);
        }
        out
    }

    /// The sample at the given index of the sorted, deduplicated set, or
    /// nothing when the index is out of range.
    pub fn get_point_at(&mut self, index: usize) -> (r: Option<SamplePoint>)
        requires
            old(self).wf(),
        ensures
            final(self).wf(),
            Self::sort_transition(*old(self), *final(self)),
            index < final(self).set@.len() ==> r == Some(final(self).set@[index as int]),
            index >= final(self).set@.len() ==> r is None,
    {
        self.sort();
        if index < self.set.len() {
            Some(self.set[index])
        } else {
            None
        }
    }

    /// The domain interval where membership reaches `alpha`. Alpha 0: the
    /// support verbatim. Alpha 1: the span of the samples of degree exactly
    /// 1.0, both bounds defaulting to 0 when there is none. Otherwise an
    /// approximate two-sided probe search over the support, which assumes a
    /// unimodal shape; the bounds collapse to one point when closer than the
    /// precision limit, and with a shoulder the infinite support cannot be
    /// probed, so no interval is determined. Sorts the set first.
    pub fn get_alpha_cut(&mut self, alpha: i64) -> (r: Option<Interval>)
        requires
            old(self).wf(),
            0 <= alpha <= SCALE,
        ensures
            final(self).wf(),
            Self::sort_transition(*old(self), *final(self)),
            r == final(self).alpha_cut_of(alpha as int),
    {
        self.sort();
        if alpha == 0 {
            if self.set.len() == 0 {
                return Some(Interval { low: Extended::Fin(0), high: Extended::Fin(0) });
            }
            let first = self.set[0].x;
            let last = self.set[self.set.len() - 1].x;
            if self.left_shoulder {
                return Some(Interval { low: Extended::NegInf, high: Extended::Fin(last) });
            }
            if self.right_shoulder {
                return Some(Interval { low: Extended::Fin(first), high: Extended::PosInf });
            }
            return Some(Interval { low: Extended::Fin(first), high: Extended::Fin(last) });
        }
        let n = self.set.len();
        if alpha == SCALE {
            let mut i: usize = 0;
            while i < n && self.set[i].degree != SCALE
                invariant
                    self.wf(),
                    n == self.set@.len(),
                    i <= n,
                    first_one_from(self.set@, 0) == first_one_from(self.set@, i as nat),
                decreases n - i,
            {
                i = i + 1;
            }
            let left: i64 = if i < n {
                self.set[i].x
            } else {
                0
            };
            let mut j: usize = n;
            while j > 0 && self.set[j - 1].degree != SCALE
                invariant
                    self.wf(),
                    n == self.set@.len(),
                    j <= n,
                    last_one_downfrom(self.set@, n as int - 1) == last_one_downfrom(
                        self.set@,
                        j as int - 1,
                    ),
                decreases j,
            {
                j = j - 1;
            }
            let right: i64 = if j > 0 {
                self.set[j - 1].x
            } else {
                0
            };
            return Some(Interval { low: Extended::Fin(left), high: Extended::Fin(right) });
        }
        if self.left_shoulder || self.right_shoulder {
            return None;
        }
        let mut low: i64 = 0;
        let mut high: i64 = 0;
        if n > 0 {
            proof {
                assert(self.set@[0].wf());
                assert(self.set@[n as int - 1].wf());
                if n > 1 {
                    assert(self.set@[0].x < self.set@[n as int - 1].x);
                }
            }
            low = self.set[0].x;
            high = self.set[n - 1].x;
        }
        let level = self.alpha_cut_disc_level;
        proof {
            lemma_fundamental_div_mod((high - low) as int, level as int - 1);
            lemma_mod_bound((high - low) as int, level as int - 1);
            lemma_div_nonincreasing((high - low) as int, level as int - 1);
        }
        let step = (((high - low) as u64) / ((level - 1) as u64)) as i64;
        let mut left_val = low;
        let mut cur = low;
        let mut i: usize = 0;
        let mut found = false;
        while i < level && !found
            invariant
                self.wf(),
                self.set@.len() > 0 ==> strictly_sorted(self.set@),
                level == self.alpha_cut_disc_level,
                -X_LIMIT <= low <= high <= X_LIMIT,
                0 <= step <= 2 * X_LIMIT,
                (level as int - 1) * (step as int) <= high - low,
                i <= level,
                low <= left_val <= high,
                !found ==> left_val == low,
                !found ==> cur == low + i as int * step,
                !found ==> self.probe_left_from(low as int, step as int, alpha as int, 0)
                    == self.probe_left_from(low as int, step as int, alpha as int, i as nat),
                found ==> self.probe_left_from(low as int, step as int, alpha as int, 0)
                    == left_val,
            decreases level - i,
        {
            proof {
                lemma_mul_inequality(i as int, level as int - 1, step as int);
                lemma_mul_nonnegative(i as int, step as int);
            }
            let f = self.fs_on_sorted(cur);
            if f >= alpha {
                left_val = cur;
                found = true;
                proof {
                    assert(self.probe_left_from(low as int, step as int, alpha as int, i as nat)
                        == cur);
                }
            } else {
                proof {
                    assert((i as int + 1) * step == i as int * step + step) by (nonlinear_arith);
                    assert(self.probe_left_from(low as int, step as int, alpha as int, i as nat)
                        == self.probe_left_from(
                        low as int,
                        step as int,
                        alpha as int,
                        (i + 1) as nat,
                    ));
                }
                cur = cur + step;
            }
            i = i + 1;
        }
        proof {
            if !found {
                assert(self.probe_left_from(low as int, step as int, alpha as int, level as nat)
                    == low);
            }
        }
        let mut right_val = high;
        let mut rcur = high;
        let mut k: usize = 0;
        let mut rfound = false;
        while k < level && !rfound
            invariant
                self.wf(),
                self.set@.len() > 0 ==> strictly_sorted(self.set@),
                level == self.alpha_cut_disc_level,
                -X_LIMIT <= low <= high <= X_LIMIT,
                0 <= step <= 2 * X_LIMIT,
                (level as int - 1) * (step as int) <= high - low,
                k <= level,
                low <= right_val <= high,
                !rfound ==> right_val == high,
                !rfound ==> rcur == high - k as int * step,
                !rfound ==> self.probe_right_from(high as int, step as int, alpha as int, 0)
                    == self.probe_right_from(high as int, step as int, alpha as int, k as nat),
                rfound ==> self.probe_right_from(high as int, step as int, alpha as int, 0)
                    == right_val,
            decreases level - k,
        {
            proof {
                lemma_mul_inequality(k as int, level as int - 1, step as int);
                lemma_mul_nonnegative(k as int, step as int);
            }
            let f = self.fs_on_sorted(rcur);
            if f >= alpha {
                right_val = rcur;
                rfound = true;
                proof {
                    assert(self.probe_right_from(high as int, step as int, alpha as int, k as nat)
                        == rcur);
                }
            } else {
                proof {
                    assert((k as int + 1) * step == k as int * step + step) by (nonlinear_arith);
                    assert(self.probe_right_from(high as int, step as int, alpha as int, k as nat)
                        == self.probe_right_from(
                        high as int,
                        step as int,
                        alpha as int,
                        (k + 1) as nat,
                    ));
                }
                rcur = rcur - step;
            }
            k = k + 1;
        }
        proof {
            if !rfound {
                assert(self.probe_right_from(high as int, step as int, alpha as int, level as nat)
                    == high);
            }
        }
        let diff = if left_val >= right_val {
            left_val - right_val
        } else {
            right_val - left_val
        };
        if diff < self.alpha_cut_precision_limit {
            Some(Interval { low: Extended::Fin(left_val), high: Extended::Fin(left_val) })
        } else {
            Some(Interval { low: Extended::Fin(left_val), high: Extended::Fin(right_val) })
        }
    }

    /// The domain value of maximum degree: scans the sorted set tracking the
    /// running maximum; on the first tie with the running maximum, the
    /// midpoint of that contiguous plateau is returned. Disjoint plateaus at
    /// the same maximum are not disambiguated: only the run at the first tie
    /// counts.
    pub fn get_peak(&mut self) -> (r: Option<i64>)
        requires
            old(self).wf(),
        ensures
            final(self).wf(),
            Self::sort_transition(*old(self), *final(self)),
            final(self).set@.len() == 0 ==> r is None,
            final(self).set@.len() > 0 ==> (r matches Some(v) && v == peak_from(
                final(self).set@,
                final(self).set@[0].degree as int,
                final(self).set@[0].x as int,
                1,
            )),
    {
        self.sort();
        if self.set.len() == 0 {
            return None;
        }
        proof {
            assert(self.set@[0].wf());
        }
        let mut y_max = self.set[0].degree;
        let mut x_peak = self.set[0].x;
        let n = self.set.len();
        let ghost y0 = self.set@[0].degree as int;
        let ghost x0 = self.set@[0].x as int;
        let mut i: usize = 1;
        while i < n
            invariant
                self.wf(),
                Self::sort_transition(*old(self), *self),
                n == self.set@.len(),
                0 < n,
                1 <= i <= n,
                y0 == self.set@[0].degree as int,
                x0 == self.set@[0].x as int,
                -X_LIMIT <= x_peak <= X_LIMIT,
                0 <= y_max <= SCALE,
                peak_from(self.set@, y0, x0, 1) == peak_from(
                    self.set@,
                    y_max as int,
                    x_peak as int,
                    i as nat,
                ),
            decreases n - i,
        {
            proof {
                assert(self.set@[i as int].wf());
            }
            let d = self.set[i].degree;
            if d > y_max {
                y_max = d;
                x_peak = self.set[i].x;
                i = i + 1;
            } else if d == y_max {
                let ghost start = i as nat;
                proof {
                    assert(peak_from(self.set@, y0, x0, 1) == peak_from(
                        self.set@,
                        y_max as int,
                        x_peak as int,
                        start,
                    ));
                }
                let mut second_x = self.set[i].x;
                while i < n && self.set[i].degree == y_max
                    invariant
                        self.wf(),
                        n == self.set@.len(),
                        start <= i <= n,
                        -X_LIMIT <= second_x <= X_LIMIT,
                        (i < n && self.set@[i as int].degree == y_max) ==> plateau_end(
                            self.set@,
                            y_max as int,
                            start,
                        ) == plateau_end(self.set@, y_max as int, i as nat),
                        !(i < n && self.set@[i as int].degree == y_max) ==> plateau_end(
                            self.set@,
                            y_max as int,
                            start,
                        ) == second_x,
                    decreases n - i,
                {
                    proof {
                        assert(self.set@[i as int].wf());
                    }
                    second_x = self.set[i].x;
                    i = i + 1;
                }
                let s = x_peak + second_x;
                let mid = if s >= 0 {
                    ((s as u64) / 2) as i64
                } else {
                    -((((-s) as u64) / 2) as i64)
                };
                proof {
                    assert(plateau_end(self.set@, y_max as int, start) == second_x);
                    assert(peak_from(self.set@, y_max as int, x_peak as int, start) == mid_of(
                        x_peak as int,
                        second_x as int,
                    ));
                    assert(mid == mid_of(x_peak as int, second_x as int));
                }
                return Some(mid);
            } else {
                i = i + 1;
            }
        }
        Some(x_peak)
    }

    /// The degree-weighted average of the domain values (the division
    /// truncating towards zero), or 0 when every degree is zero.
    pub open spec fn centroid_of(self) -> int {
        let num = weighted_sum(self.set@);
        let den = degree_sum(self.set@);
        if den == 0 {
            0
        } else if num >= 0 {
            num / den
        } else {
            -((-num) / den)
        }
    }

    /// The centroid defuzzification of the sorted, deduplicated set: the sum
    /// of `x * degree` over all samples divided by the sum of the degrees,
    /// or 0 for a fully degenerate set whose degrees are all zero. Sorts the
    /// set first.
    pub fn get_defuzzified_centroid(&mut self) -> (r: i64)
        requires
            old(self).wf(),
        ensures
            final(self).wf(),
            Self::sort_transition(*old(self), *final(self)),
            r == final(self).centroid_of(),
            -X_LIMIT <= r <= X_LIMIT,
    {
        self.sort();
        let n = self.set.len();
        let mut num: i128 = 0;
        let mut den: i128 = 0;
        let mut i: usize = 0;
        while i < n
            invariant
                self.wf(),
                n == self.set@.len(),
                i <= n,
                num == weighted_sum(self.set@.take(i as int)),
                den == degree_sum(self.set@.take(i as int)),
                0 <= den <= 1_000_000 * (i as int),
                -1_000_000_000_000 * den <= num <= 1_000_000_000_000 * den,
            decreases n - i,
        {
            proof {
                assert(self.set@[i as int].wf());
            }
            let p = self.set[i];
            proof {
                let x = p.x as int;
                let d = p.degree as int;
                assert(-1_000_000_000_000 * d <= x * d <= 1_000_000_000_000 * d)
                    by (nonlinear_arith)
                    requires
                        -1_000_000_000_000 <= x <= 1_000_000_000_000,
                        0 <= d,
                ;
                assert(-1_000_000_000_000_000_000 <= x * d <= 1_000_000_000_000_000_000)
                    by (nonlinear_arith)
                    requires
                        -1_000_000_000_000 <= x <= 1_000_000_000_000,
                        0 <= d <= 1_000_000,
                ;
                assert(self.set@.take(i as int + 1).drop_last() =~= self.set@.take(i as int));
            }
            num = num + (p.x as i128) * (p.degree as i128);
            den = den + (p.degree as i128);
            i = i + 1;
        }
        proof {
            assert(self.set@.take(n as int) =~= self.set@);
        }
        if den == 0 {
            return 0;
        }
        proof {
            if num >= 0 {
                lemma_div_is_ordered(num as int, 1_000_000_000_000 * (den as int), den as int);
                lemma_div_multiples_vanish(1_000_000_000_000, den as int);
                lemma_div_is_ordered(0, num as int, den as int);
            } else {
                lemma_div_is_ordered(-num as int, 1_000_000_000_000 * (den as int), den as int);
                lemma_div_multiples_vanish(1_000_000_000_000, den as int);
                lemma_div_is_ordered(0, -num as int, den as int);
            }
        }
        if num >= 0 {
            ((num as u128) / (den as u128)) as i64
        } else {
            -((((-num) as u128) / (den as u128)) as i64)
        }
    }

    /// Ordering comparison is present in the shared interface but
    /// deliberately unimplemented on this variant: it always fails.
    pub fn compare_to<M: T1MFPrototype>(&self, _other: &M) -> (r: Result<i32, FuzzyError>)
        ensures
            r == Err::<i32, FuzzyError>(FuzzyError::UnsupportedCapability),
    {
        Err(FuzzyError::UnsupportedCapability)
    }

    /// A human-readable listing of the sorted, deduplicated samples, one
    /// `degree / x` line each, in fixed-point units. Sorts the set first.
    pub fn to_string_rep(&mut self) -> (r: String)
        requires
            old(self).wf(),
        ensures
            final(self).wf(),
            Self::sort_transition(*old(self), *final(self)),
            r@ == listing_of(final(self).set@),
    {
        self.sort();
        let mut out = String::new();
        let mut i: usize = 0;
        while i < self.set.len()
            invariant
                self.wf(),
                i <= self.set@.len(),
                out@ == listing_of(self.set@.take(i as int)),
            decreases self.set@.len() - i,
        {
            let d = decimal(self.set[i].degree);
            out.append(d.as_str());
            out.append(" / ");
            let x = decimal(self.set[i].x);
            out.append(x.as_str());
            out.append("\n");
            i = i + 1;
            proof {
                assert(self.set@.take(i as int).drop_last() =~= self.set@.take(i as int - 1));
                assert(out@ =~= listing_of(self.set@.take(i as int)));
            }
        }
        proof {
            assert(self.set@.take(self.set@.len() as int) =~= self.set@);
        }
        out
    }

    /// The export table of the sorted, deduplicated samples: one `x,degree`
    /// row per sample, in fixed-point units. The surrounding program appends
    /// this to its output file. Sorts the set first.
    pub fn export_rows(&mut self) -> (r: String)
        requires
            old(self).wf(),
        ensures
            final(self).wf(),
            Self::sort_transition(*old(self), *final(self)),
            r@ == rows_of(final(self).set@),
    {
        self.sort();
        let mut out = String::new();
        let mut i: usize = 0;
        while i < self.set.len()
            invariant
                self.wf(),
                i <= self.set@.len(),
                out@ == rows_of(self.set@.take(i as int)),
            decreases self.set@.len() - i,
        {
            let x = decimal(self.set[i].x);
            out.append(x.as_str());
            out.append(",");
            let d = decimal(self.set[i].degree);
            out.append(d.as_str());
            out.append("\n");
            i = i + 1;
            proof {
                assert(self.set@.take(i as int).drop_last() =~= self.set@.take(i as int - 1));
                assert(out@ =~= rows_of(self.set@.take(i as int)));
            }
        }
        proof {
            assert(self.set@.take(self.set@.len() as int) =~= self.set@);
        }
        out
    }
    /// The resampled export table over the support span: the probe
    /// positions partition first-to-last into `resolution - 1` even steps
    /// (in fixed point, the step truncated), one `x,fs(x)` row per probe.
    pub open spec fn highres_of(self, resolution: nat) -> Seq<char> {
        let low = if self.set@.len() == 0 {
            0int
        } else {
            self.set@.first().x as int
        };
        let high = if self.set@.len() == 0 {
            0int
        } else {
            self.set@.last().x as int
        };
        let step = (high - low) / (resolution - 1);
        highres_rows(self, low, step, 0, resolution)
    }

    /// The resampled export table: the support span partitioned into
    /// `resolution` evenly spaced probes, one `x,fs(x)` row each, in fixed
    /// point. The surrounding program appends this to its output file. With
    /// a shoulder the infinite support cannot be resampled, and no table is
    /// determined. Sorts the set first.
    pub fn export_rows_high_res(&mut self, resolution: usize) -> (r: Option<String>)
        requires
            old(self).wf(),
            2 <= resolution <= 1_000_000_000,
        ensures
            final(self).wf(),
            Self::sort_transition(*old(self), *final(self)),
            final(self).left_shoulder || final(self).right_shoulder ==> r is None,
            !final(self).left_shoulder && !final(self).right_shoulder ==> (r matches Some(t) && t@
                == final(self).highres_of(resolution as nat)),
    {
        self.sort();
        if self.left_shoulder || self.right_shoulder {
            return None;
        }
        let n = self.set.len();
        let mut low: i64 = 0;
        let mut high: i64 = 0;
        if n > 0 {
            proof {
                assert(self.set@[0].wf());
                assert(self.set@[n as int - 1].wf());
                if n > 1 {
                    assert(self.set@[0].x < self.set@[n as int - 1].x);
                }
            }
            low = self.set[0].x;
            high = self.set[n - 1].x;
        }
        proof {
            lemma_fundamental_div_mod((high - low) as int, resolution as int - 1);
            lemma_mod_bound((high - low) as int, resolution as int - 1);
            lemma_div_nonincreasing((high - low) as int, resolution as int - 1);
        }
        let step = (((high - low) as u64) / ((resolution - 1) as u64)) as i64;
        let mut out = String::new();
        let mut cur = low;
        let mut i: usize = 0;
        while i < resolution
            invariant
                self.wf(),
                self.set@.len() > 0 ==> strictly_sorted(self.set@),
                !self.left_shoulder && !self.right_shoulder,
                -X_LIMIT <= low <= high <= X_LIMIT,
                0 <= step <= 2 * X_LIMIT,
                (resolution as int - 1) * (step as int) <= high - low,
                i <= resolution,
                cur == low + i as int * step,
                highres_rows(*self, low as int, step as int, 0, resolution as nat) == out@
                    + highres_rows(*self, low as int, step as int, i as nat, resolution as nat),
            decreases resolution - i,
        {
            proof {
                lemma_mul_inequality(i as int, resolution as int - 1, step as int);
                lemma_mul_nonnegative(i as int, step as int);
            }
            let ghost before = out@;
            let f = self.fs_on_sorted(cur);
            let xs = decimal(cur);
            out.append(xs.as_str());
            out.append(",");
            let fs = decimal(f);
            out.append(fs.as_str());
            out.append("\n");
            proof {
                assert((i as int + 1) * step == i as int * step + step) by (nonlinear_arith);
                assert(out@ =~= before + (decimal_of(low + i as int * step) + (",")@ + decimal_of(
                    self.fs_of(low + i as int * step),
                ) + ("\n")@));
                assert(highres_rows(*self, low as int, step as int, 0, resolution as nat) =~= out@
                    + highres_rows(
                    *self,
                    low as int,
                    step as int,
                    (i + 1) as nat,
                    resolution as nat,
                ));
            }
            cur = cur + step;
            i = i + 1;
        }
        proof {
            assert(highres_rows(*self, low as int, step as int, resolution as nat, resolution as nat)
                =~= Seq::<char>::empty());
            assert(out@ =~= highres_rows(*self, low as int, step as int, 0, resolution as nat));
        }
        Some(out)
    }
}

impl T1MFPrototype for T1MFDiscretised {
    open spec fn spec_name(&self) -> Seq<char> {
        self.name@
    }

    open spec fn spec_cached_support(&self) -> Interval {
        self.support
    }

    open spec fn spec_left_shoulder(&self) -> bool {
        self.left_shoulder
    }

    open spec fn spec_right_shoulder(&self) -> bool {
        self.right_shoulder
    }

    fn name(&self) -> &str {
        self.name.as_str()
    }

    fn get_support(&self) -> Interval {
        self.support
    }

    fn is_left_shoulder(&self) -> bool {
        self.left_shoulder
    }

    fn is_right_shoulder(&self) -> bool {
        self.right_shoulder
    }
}

} // verus!
