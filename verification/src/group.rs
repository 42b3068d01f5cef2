//! Run-length grouping: consecutive dark rows become line segments.

use vstd::prelude::*;

verus! {

/// Length of the run of `true`s beginning at index `i` of `mask`
/// (0 when `i` is out of range or `mask[i]` is `false`).
pub open spec fn run_len(mask: Seq<bool>, i: int) -> int
    decreases mask.len() - i,
{
    if i < 0 || i >= mask.len() || !mask[i] {
        0
    } else {
        1 + run_len(mask, i + 1)
    }
}

/// A run is never negative and never reaches past the end of the mask.
pub proof fn lemma_run_len_bounds(mask: Seq<bool>, i: int)
    requires
        0 <= i <= mask.len(),
    ensures
        0 <= run_len(mask, i) <= mask.len() - i,
    decreases mask.len() - i,
{
    if i < mask.len() && mask[i] {
        lemma_run_len_bounds(mask, i + 1);
    }
}

/// The maximal runs of `true`s in `mask` at or after index `i`, in order,
/// each as `(start_row, thickness)`.
pub open spec fn runs_from(mask: Seq<bool>, i: int) -> Seq<(int, int)>
    decreases mask.len() - i,
    via runs_from_decreases
{
    if i < 0 || i >= mask.len() {
        Seq::empty()
    } else if !mask[i] {
        runs_from(mask, i + 1)
    } else {
        seq![(i, run_len(mask, i))] + runs_from(mask, i + run_len(mask, i))
    }
}

#[via_fn]
proof fn runs_from_decreases(mask: Seq<bool>, i: int) {
    if 0 <= i < mask.len() && mask[i] {
        lemma_run_len_bounds(mask, i);
        lemma_run_len_bounds(mask, i + 1);
    }
}

/// Every position of a run holds `true`.
pub proof fn lemma_run_true(mask: Seq<bool>, i: int, j: int)
    requires
        0 <= i <= j < i + run_len(mask, i),
    ensures
        mask[j],
    decreases j - i,
{
    if j > i {
        lemma_run_true(mask, i + 1, j);
    }
}

/// A run ends at the end of the mask or at a `false` entry.
pub proof fn lemma_run_end(mask: Seq<bool>, i: int)
    requires
        0 <= i <= mask.len(),
    ensures
        i + run_len(mask, i) == mask.len() || !mask[i + run_len(mask, i)],
    decreases mask.len() - i,
{
    lemma_run_len_bounds(mask, i);
    if i < mask.len() && mask[i] {
        lemma_run_end(mask, i + 1);
    }
}

/// A stretch of `true`s from `i` up to an end (`e` is the mask's end or a
/// `false` entry) is exactly the run starting at `i`.
pub proof fn lemma_run_extent(mask: Seq<bool>, i: int, e: int)
    requires
        0 <= i <= e <= mask.len(),
        forall|j: int| i <= j < e ==> mask[j],
        e == mask.len() || !mask[e],
    ensures
        run_len(mask, i) == e - i,
    decreases e - i,
{
    if i < e {
        lemma_run_extent(mask, i + 1, e);
    }
}

/// Segment `k` of the grouping from index `i` starts at or after `i`, has
/// positive thickness, and ends within the mask.
pub proof fn lemma_runs_elem(mask: Seq<bool>, i: int, k: int)
    requires
        0 <= i <= mask.len(),
        0 <= k < runs_from(mask, i).len(),
    ensures
        i <= runs_from(mask, i)[k].0,
        1 <= runs_from(mask, i)[k].1,
        runs_from(mask, i)[k].0 + runs_from(mask, i)[k].1 <= mask.len(),
    decreases mask.len() - i,
{
    if !mask[i] {
        lemma_runs_elem(mask, i + 1, k);
    } else {
        let rl = run_len(mask, i);
        lemma_run_len_bounds(mask, i);
        lemma_run_len_bounds(mask, i + 1);
        let rest = runs_from(mask, i + rl);
        if k == 0 {
            assert(runs_from(mask, i)[0] == (i, rl));
        } else {
            assert(runs_from(mask, i)[k] == rest[k - 1]);
            lemma_runs_elem(mask, i + rl, k - 1);
        }
    }
}

/// Segment `k` of the grouping from index `i` ends strictly before segment
/// `k + 1` begins: the runs come in increasing order, separated by gaps.
pub proof fn lemma_runs_sorted(mask: Seq<bool>, i: int, k: int)
    requires
        0 <= i <= mask.len(),
        0 <= k < runs_from(mask, i).len() - 1,
    ensures
        runs_from(mask, i)[k].0 + runs_from(mask, i)[k].1 < runs_from(mask, i)[k + 1].0,
    decreases mask.len() - i,
{
    if !mask[i] {
        lemma_runs_sorted(mask, i + 1, k);
    } else {
        let rl = run_len(mask, i);
        lemma_run_len_bounds(mask, i);
        lemma_run_len_bounds(mask, i + 1);
        lemma_run_end(mask, i);
        let rest = runs_from(mask, i + rl);
        assert(rest.len() > 0);
        assert(i + rl < mask.len());
        assert(!mask[i + rl]);
        assert(rest == runs_from(mask, i + rl + 1));
        if k == 0 {
            assert(runs_from(mask, i)[0] == (i, rl));
            assert(runs_from(mask, i)[1] == rest[0]);
            lemma_runs_elem(mask, i + rl + 1, 0);
        } else {
            assert(runs_from(mask, i)[k] == rest[k - 1]);
            assert(runs_from(mask, i)[k + 1] == rest[k]);
            lemma_runs_sorted(mask, i + rl + 1, k - 1);
        }
    }
}

/// The segments produced from index `i` on are well formed: each starts at
/// or after `i`, has positive thickness, ends within the mask, and each ends
/// strictly before the next begins (a `false` gap separates them).
pub proof fn lemma_runs_wf(mask: Seq<bool>, i: int)
    requires
        0 <= i <= mask.len(),
    ensures
        forall|k: int|
            0 <= k < runs_from(mask, i).len() ==> {
                let seg = #[trigger] runs_from(mask, i)[k];
                i <= seg.0 && 1 <= seg.1 && seg.0 + seg.1 <= mask.len()
            },
        forall|k: int|
            0 <= k < runs_from(mask, i).len() - 1 ==> (#[trigger] runs_from(mask, i)[k]).0
                + runs_from(mask, i)[k].1 < runs_from(mask, i)[k + 1].0,
{
    assert forall|k: int| 0 <= k < runs_from(mask, i).len() implies {
        let seg = #[trigger] runs_from(mask, i)[k];
        i <= seg.0 && 1 <= seg.1 && seg.0 + seg.1 <= mask.len()
    } by {
        lemma_runs_elem(mask, i, k);
    }
    assert forall|k: int|
        0 <= k < runs_from(mask, i).len() - 1 implies (#[trigger] runs_from(mask, i)[k]).0
            + runs_from(mask, i)[k].1 < runs_from(mask, i)[k + 1].0 by {
        lemma_runs_sorted(mask, i, k);
    }
}

/// A position covered by segment `k` of the grouping holds `true`.
proof fn lemma_covered_is_true(mask: Seq<bool>, i: int, k: int, r: int)
    requires
        0 <= i <= mask.len(),
        0 <= k < runs_from(mask, i).len(),
        runs_from(mask, i)[k].0 <= r < runs_from(mask, i)[k].0 + runs_from(mask, i)[k].1,
    ensures
        mask[r],
    decreases mask.len() - i,
{
    if !mask[i] {
        lemma_covered_is_true(mask, i + 1, k, r);
    } else {
        let rl = run_len(mask, i);
        lemma_run_len_bounds(mask, i);
        lemma_run_len_bounds(mask, i + 1);
        let rest = runs_from(mask, i + rl);
        if k == 0 {
            assert(runs_from(mask, i)[0] == (i, rl));
            lemma_run_true(mask, i, r);
        } else {
            assert(runs_from(mask, i)[k] == rest[k - 1]);
            lemma_covered_is_true(mask, i + rl, k - 1, r);
        }
    }
}

/// A `true` position at or after `i` is covered by some segment of the
/// grouping from `i`.
proof fn lemma_true_is_covered(mask: Seq<bool>, i: int, r: int)
    requires
        0 <= i <= r < mask.len(),
        mask[r],
    ensures
        exists|k: int|
            0 <= k < runs_from(mask, i).len() && (#[trigger] runs_from(mask, i)[k]).0 <= r
                < runs_from(mask, i)[k].0 + runs_from(mask, i)[k].1,
    decreases r - i,
{
    let rs = runs_from(mask, i);
    if !mask[i] {
        lemma_true_is_covered(mask, i + 1, r);
        let k = choose|k: int|
            0 <= k < runs_from(mask, i + 1).len() && (#[trigger] runs_from(mask, i + 1)[k]).0
                <= r < runs_from(mask, i + 1)[k].0 + runs_from(mask, i + 1)[k].1;
        assert(0 <= k < rs.len() && rs[k].0 <= r < rs[k].0 + rs[k].1);
    } else {
        let rl = run_len(mask, i);
        lemma_run_len_bounds(mask, i);
        lemma_run_len_bounds(mask, i + 1);
        lemma_run_end(mask, i);
        let rest = runs_from(mask, i + rl);
        if r < i + rl {
            assert(rs[0] == (i, rl));
            assert(0 <= 0 < rs.len() && rs[0].0 <= r < rs[0].0 + rs[0].1);
        } else {
            lemma_true_is_covered(mask, i + rl, r);
            let k = choose|k: int|
                0 <= k < rest.len() && (#[trigger] rest[k]).0 <= r < rest[k].0 + rest[k].1;
            assert(rs[k + 1] == rest[k]);
            assert(0 <= k + 1 < rs.len() && rs[k + 1].0 <= r < rs[k + 1].0 + rs[k + 1].1);
        }
    }
}

/// For any `r` at or after `i`, `mask[r]` holds exactly when some segment of
/// `runs_from(mask, i)` covers `r`.
pub proof fn lemma_runs_cover(mask: Seq<bool>, i: int, r: int)
    requires
        0 <= i <= r < mask.len(),
    ensures
        mask[r] <==> exists|k: int|
            0 <= k < runs_from(mask, i).len() && (#[trigger] runs_from(mask, i)[k]).0 <= r
                < runs_from(mask, i)[k].0 + runs_from(mask, i)[k].1,
{
    if mask[r] {
        lemma_true_is_covered(mask, i, r);
    } else {
        assert forall|k: int|
            0 <= k < runs_from(mask, i).len() implies !((#[trigger] runs_from(mask, i)[k]).0
                <= r < runs_from(mask, i)[k].0 + runs_from(mask, i)[k].1) by {
            if runs_from(mask, i)[k].0 <= r < runs_from(mask, i)[k].0 + runs_from(mask, i)[k].1 {
                lemma_covered_is_true(mask, i, k, r);
            }
        }
    }
}

/// The segments a grouping returns, as pairs of mathematical integers.
pub open spec fn seg_view(segs: Seq<(usize, usize)>) -> Seq<(int, int)> {
    segs.map_values(|p: (usize, usize)| (p.0 as int, p.1 as int))
}

/// Groups the maximal runs of `true`s of a dark-row mask into line segments
/// `(start_row, thickness)`, in increasing order of start row.
pub fn group_lines(mask: &Vec<bool>) -> (segs: Vec<(usize, usize)>)
    ensures
        seg_view(segs@) == runs_from(mask@, 0),
{
    let n: usize = mask.len();
    let mut segs: Vec<(usize, usize)> = Vec::new();
    let mut i: usize = 0;
    while i < n
        invariant
            i <= n,
            n == mask@.len(),
            seg_view(segs@) + runs_from(mask@, i as int) == runs_from(mask@, 0),
        decreases n - i,
    {
        if mask[i] {
            let start = i;
            let mut thickness: usize = 1;
            i = i + 1;
            while i < n && mask[i]
                invariant
                    n == mask@.len(),
                    start < i <= n,
                    thickness == i - start,
                    mask@[start as int],
                    forall|j: int| start <= j < i ==> mask@[j],
                decreases n - i,
            {
                thickness = thickness + 1;
                i = i + 1;
            }
            proof {
                lemma_run_extent(mask@, start as int, i as int);
                assert(runs_from(mask@, start as int) == seq![(start as int, thickness as int)]
                    + runs_from(mask@, i as int));
                assert(seg_view(segs@.push((start, thickness))) =~= seg_view(segs@) + seq![(
                start as int, thickness as int)]);
            }
            segs.push((start, thickness));
        } else {
            proof {
                assert(runs_from(mask@, i as int) == runs_from(mask@, i + 1));
            }
            i = i + 1;
        }
    }
    proof {
        assert(runs_from(mask@, n as int) =~= Seq::<(int, int)>::empty());
        assert(seg_view(segs@) + runs_from(mask@, n as int) =~= seg_view(segs@));
    }
    segs
}


/// The mask a segment list stands for: `true` exactly at the positions some
/// segment covers.
pub open spec fn mask_of(segs: Seq<(int, int)>, len: int) -> Seq<bool> {
    Seq::new(
        len as nat,
        |r: int| exists|k: int| 0 <= k < segs.len() && (#[trigger] segs[k]).0 <= r < segs[k].0
            + segs[k].1,
    )
}

/// Round trip: writing each segment's run of `true`s back in order, with
/// `false` everywhere else, reproduces the grouped mask exactly.
pub proof fn lemma_round_trip(mask: Seq<bool>)
    ensures
        mask_of(runs_from(mask, 0), mask.len() as int) == mask,
{
    let rebuilt = mask_of(runs_from(mask, 0), mask.len() as int);
    assert forall|r: int| 0 <= r < mask.len() implies rebuilt[r] == mask[r] by {
        lemma_runs_cover(mask, 0, r);
    }
    assert(rebuilt =~= mask);
}

/// A mask with no `true` entry yields no segments.
pub proof fn lemma_all_false_no_runs(mask: Seq<bool>)
    requires
        forall|i: int| 0 <= i < mask.len() ==> !mask[i],
    ensures
        runs_from(mask, 0) == Seq::<(int, int)>::empty(),
{
    if runs_from(mask, 0).len() > 0 {
        let seg = runs_from(mask, 0)[0];
        lemma_runs_elem(mask, 0, 0);
        lemma_covered_is_true(mask, 0, 0, seg.0);
    }
}

/// A mask ending inside an open run of `true`s still has that run emitted:
/// the last segment closes exactly at the end of the mask.
pub proof fn lemma_open_run_emitted(mask: Seq<bool>)
    requires
        mask.len() > 0,
        mask[mask.len() - 1],
    ensures
        runs_from(mask, 0).len() > 0,
        ({
            let rs = runs_from(mask, 0);
            rs[rs.len() - 1].0 + rs[rs.len() - 1].1 == mask.len()
        }),
{
    let rs = runs_from(mask, 0);
    let last: int = mask.len() - 1;
    lemma_true_is_covered(mask, 0, last);
    let k = choose|k: int|
        0 <= k < rs.len() && (#[trigger] rs[k]).0 <= last < rs[k].0 + rs[k].1;
    lemma_runs_elem(mask, 0, k);
    assert(rs[k].0 + rs[k].1 == mask.len());
    if k < rs.len() - 1 {
        // A later segment would have to start past the end of the mask.
        lemma_runs_sorted(mask, 0, k);
        lemma_runs_elem(mask, 0, k + 1);
    }
}

} // verus!
