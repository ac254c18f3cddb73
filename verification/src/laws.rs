//! Laws of the discretised sample set, stated and proved once for every
//! input.

use vstd::prelude::*;
use crate::discretised::{
    appears_in, first_one_from, interp_at, is_merged_sort_of, last_one_downfrom, scan_fs_from,
    strictly_sorted, x_retained, T1MFDiscretised,
};
use crate::points::{Extended, Interval, SamplePoint, SCALE};

verus! {

/// Uniqueness: in a sorted, deduplicated sample set, no two retained
/// samples share a domain value.
pub proof fn lemma_retained_x_unique(orig: Seq<SamplePoint>, s: Seq<SamplePoint>)
    requires
        is_merged_sort_of(orig, s),
    ensures
        forall|i: int, j: int|
            0 <= i < s.len() && 0 <= j < s.len() && i != j ==> #[trigger] s[i].x
                != #[trigger] s[j].x,
{
}

proof fn lemma_scan_exact(s: Seq<SamplePoint>, x: int, i: int, j: nat)
    requires
        strictly_sorted(s),
        0 <= i < s.len(),
        s[i].x == x,
        j <= i,
    ensures
        scan_fs_from(s, x, j) == s[i].degree,
    decreases i - j,
{
    if j < i {
        assert(s[j as int].x < s[i].x);
        lemma_scan_exact(s, x, i, (j + 1) as nat);
    }
}

/// Exactness: looked up exactly at a retained sample's domain value (and
/// away from any saturated shoulder region), the membership degree is that
/// sample's own degree.
pub proof fn lemma_fs_exact_at_sample(m: T1MFDiscretised, i: int, x: int)
    requires
        m.wf(),
        strictly_sorted(m.set@),
        0 <= i < m.set@.len(),
        m.set@[i].x == x,
        !(m.left_shoulder && x < m.left_shoulder_start),
        !(m.right_shoulder && x > m.right_shoulder_start),
    ensures
        m.fs_of(x) == m.set@[i].degree,
{
    assert(m.set@[0].x <= m.set@[i].x);
    assert(m.set@[i].x <= m.set@[m.set@.len() - 1].x);
    lemma_scan_exact(m.set@, x, i, 0);
}

proof fn lemma_scan_interp(s: Seq<SamplePoint>, x: int, i: int, j: nat)
    requires
        strictly_sorted(s),
        0 <= i,
        i + 1 < s.len(),
        s[i].x < x < s[i + 1].x,
        j <= i + 1,
    ensures
        scan_fs_from(s, x, j) == interp_at(s[i], s[i + 1], x),
    decreases i + 1 - j,
{
    if j < i + 1 {
        assert(s[j as int].x <= s[i].x);
        lemma_scan_interp(s, x, i, (j + 1) as nat);
    }
}

/// Interpolation law: strictly between two adjacent retained samples (and
/// away from any saturated shoulder region), the membership degree is the
/// fixed-point linear interpolation between their degrees.
pub proof fn lemma_fs_interpolates(m: T1MFDiscretised, i: int, x: int)
    requires
        m.wf(),
        strictly_sorted(m.set@),
        0 <= i,
        i + 1 < m.set@.len(),
        m.set@[i].x < x < m.set@[i + 1].x,
        !(m.left_shoulder && x < m.left_shoulder_start),
        !(m.right_shoulder && x > m.right_shoulder_start),
    ensures
        m.fs_of(x) == interp_at(m.set@[i], m.set@[i + 1], x),
{
    assert(m.set@[0].x <= m.set@[i].x);
    assert(m.set@[i + 1].x <= m.set@[m.set@.len() - 1].x);
    lemma_scan_interp(m.set@, x, i, 0);
}

/// Boundary policy, outer half: outside the support span (and away from any
/// saturated shoulder region) the membership degree is exactly zero.
pub proof fn lemma_fs_outside_support_zero(m: T1MFDiscretised, x: int)
    requires
        m.wf(),
        m.set@.len() > 0,
        m.out_of_support(x),
        !(m.left_shoulder && x < m.left_shoulder_start),
        !(m.right_shoulder && x > m.right_shoulder_start),
    ensures
        m.fs_of(x) == 0,
{
}

/// Boundary policy, shoulder half: left of a left shoulder's threshold the
/// membership degree saturates to exactly 1.0, whatever the samples hold.
pub proof fn lemma_fs_left_shoulder_one(m: T1MFDiscretised, x: int)
    requires
        m.wf(),
        m.set@.len() > 0,
        m.left_shoulder,
        x < m.left_shoulder_start,
    ensures
        m.fs_of(x) == SCALE,
{
}

/// Alpha-cut endpoint at zero: the cut at alpha 0 is the support verbatim.
pub proof fn lemma_alpha_cut_at_zero(m: T1MFDiscretised)
    ensures
        m.alpha_cut_of(0) == Some(m.spec_support()),
{
}

proof fn lemma_first_one_none(s: Seq<SamplePoint>, i: nat)
    requires
        forall|t: int| 0 <= t < s.len() ==> (#[trigger] s[t]).degree != SCALE,
    ensures
        first_one_from(s, i) == 0,
    decreases s.len() - i,
{
    if i < s.len() {
        lemma_first_one_none(s, (i + 1) as nat);
    }
}

proof fn lemma_last_one_none(s: Seq<SamplePoint>, i: int)
    requires
        forall|t: int| 0 <= t < s.len() ==> (#[trigger] s[t]).degree != SCALE,
    ensures
        last_one_downfrom(s, i) == 0,
    decreases i + 1,
{
    if 0 <= i < s.len() {
        lemma_last_one_none(s, i - 1);
    }
}

/// Alpha-cut endpoint at one: when no sample's degree is exactly 1.0, both
/// bounds of the cut at alpha 1 default to zero.
pub proof fn lemma_alpha_cut_at_one_defaults(m: T1MFDiscretised)
    requires
        forall|t: int| 0 <= t < m.set@.len() ==> (#[trigger] m.set@[t]).degree != SCALE,
    ensures
        m.alpha_cut_of(SCALE as int) == Some(
            Interval { low: Extended::Fin(0), high: Extended::Fin(0) },
        ),
{
    lemma_first_one_none(m.set@, 0);
    lemma_last_one_none(m.set@, m.set@.len() as int - 1);
}

/// Merge law: when exactly two inserted samples share a domain value, the
/// sorted, deduplicated set retains that domain value once, with the
/// greater of the two degrees.
pub proof fn lemma_merge_collapses_to_max(
    orig: Seq<SamplePoint>,
    s: Seq<SamplePoint>,
    j1: int,
    j2: int,
)
    requires
        is_merged_sort_of(orig, s),
        0 <= j1 < j2 < orig.len(),
        orig[j1].x == orig[j2].x,
        forall|k: int| 0 <= k < orig.len() && (#[trigger] orig[k]).x == orig[j1].x ==> k == j1 || k
            == j2,
    ensures
        exists|i: int|
            0 <= i < s.len() && (#[trigger] s[i]).x == orig[j1].x && s[i].degree == (
            if orig[j1].degree >= orig[j2].degree {
                orig[j1].degree
            } else {
                orig[j2].degree
            }),
        forall|i1: int, i2: int|
            0 <= i1 < s.len() && 0 <= i2 < s.len() && (#[trigger] s[i1]).x == orig[j1].x && (
            #[trigger] s[i2]).x == orig[j1].x ==> i1 == i2,
{
    assert(x_retained(s, orig[j1].x as int));
    let i = choose|i: int| 0 <= i < s.len() && #[trigger] s[i].x == orig[j1].x;
    assert(appears_in(orig, s[i]));
    let k = choose|k: int| 0 <= k < orig.len() && #[trigger] orig[k] == s[i];
    assert(orig[k].x == orig[j1].x);
    assert(k == j1 || k == j2);
    assert(orig[j1].degree <= s[i].degree);
    assert(orig[j2].degree <= s[i].degree);
    assert forall|i1: int, i2: int|
        0 <= i1 < s.len() && 0 <= i2 < s.len() && (#[trigger] s[i1]).x == orig[j1].x && (
        #[trigger] s[i2]).x == orig[j1].x implies i1 == i2 by {
        if i1 < i2 {
            assert(s[i1].x < s[i2].x);
        } else if i2 < i1 {
            assert(s[i2].x < s[i1].x);
        }
    }
}

/// The first `i` samples of `a` and `b` agree.
spec fn prefix_eq(a: Seq<SamplePoint>, b: Seq<SamplePoint>, i: int) -> bool {
    forall|t: int| 0 <= t < i ==> t < b.len() && #[trigger] a[t] == b[t]
}

proof fn lemma_merged_pointwise(
    orig: Seq<SamplePoint>,
    a: Seq<SamplePoint>,
    b: Seq<SamplePoint>,
    i: int,
)
    requires
        is_merged_sort_of(orig, a),
        is_merged_sort_of(orig, b),
        0 <= i < a.len(),
        prefix_eq(a, b, i),
    ensures
        i < b.len(),
        a[i] == b[i],
{
    assert(appears_in(orig, a[i]));
    let k = choose|k: int| 0 <= k < orig.len() && #[trigger] orig[k] == a[i];
    assert(x_retained(b, orig[k].x as int));
    let j = choose|j: int| 0 <= j < b.len() && #[trigger] b[j].x == orig[k].x;
    // The degrees at the shared domain value agree: each is at most the
    // other by the two maximality clauses.
    assert(a[i].degree <= b[j].degree);
    assert(appears_in(orig, b[j]));
    let k2 = choose|k2: int| 0 <= k2 < orig.len() && #[trigger] orig[k2] == b[j];
    assert(orig[k2].x == a[i].x);
    assert(b[j].degree <= a[i].degree);
    assert(a[i].x == b[j].x && a[i].degree == b[j].degree);
    assert(a[i] == b[j]);
    if j < i {
        assert(a[j] == b[j]);
        assert(a[j].x == a[i].x);
        assert(false);
    } else if j > i {
        assert(appears_in(orig, b[i]));
        let k3 = choose|k3: int| 0 <= k3 < orig.len() && #[trigger] orig[k3] == b[i];
        assert(x_retained(a, orig[k3].x as int));
        let i2 = choose|i2: int| 0 <= i2 < a.len() && #[trigger] a[i2].x == orig[k3].x;
        if i2 < i {
            assert(a[i2] == b[i2]);
            assert(b[i2].x == b[i].x);
            assert(false);
        } else if i2 == i {
            assert(b[i].x < b[j].x);
            assert(false);
        } else {
            assert(a[i].x < a[i2].x);
            assert(b[i].x < b[j].x);
            assert(false);
        }
    }
}

proof fn lemma_merged_prefix(
    orig: Seq<SamplePoint>,
    a: Seq<SamplePoint>,
    b: Seq<SamplePoint>,
    i: int,
)
    requires
        is_merged_sort_of(orig, a),
        is_merged_sort_of(orig, b),
        0 <= i <= a.len(),
    ensures
        prefix_eq(a, b, i),
    decreases i,
{
    if i > 0 {
        lemma_merged_prefix(orig, a, b, i - 1);
        lemma_merged_pointwise(orig, a, b, i - 1);
    }
}

/// Idempotence: the sorted, deduplicated version of a sample list is
/// unique, so a second sort-triggering query changes nothing. (A strictly
/// sorted set is its own sorted version: `lemma_sorted_fixpoint`.)
pub proof fn lemma_merged_sort_unique(
    orig: Seq<SamplePoint>,
    a: Seq<SamplePoint>,
    b: Seq<SamplePoint>,
)
    requires
        is_merged_sort_of(orig, a),
        is_merged_sort_of(orig, b),
    ensures
        a == b,
{
    lemma_merged_prefix(orig, a, b, a.len() as int);
    lemma_merged_prefix(orig, b, a, b.len() as int);
    if a.len() > 0 {
        assert(a[a.len() - 1] == b[a.len() - 1]);
    }
    if b.len() > 0 {
        assert(b[b.len() - 1] == a[b.len() - 1]);
    }
    assert(a.len() == b.len());
    assert forall|t: int| 0 <= t < a.len() implies a[t] == b[t] by {
        assert(prefix_eq(a, b, a.len() as int));
    }
    assert(a =~= b);
}

} // verus!

