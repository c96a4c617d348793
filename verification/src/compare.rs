//! Thresholded all-pairs (or cross-collection) comparison of sketches.
//!
//! The work splits by rows: a row compares one sketch of the first
//! collection against a range of the second. Self-comparison of one
//! collection evaluates only the strict upper triangle, so no sketch meets
//! itself and no pair is evaluated twice.

use vstd::prelude::*;

use crate::lz_dict::lemma_sim_percent_bounds;
use crate::lz_dict::sim_percent_spec;
use crate::lz_dict::LZDict;

verus! {

/// Every sketch of the collection satisfies the sketch invariant.
pub open spec fn all_wf(ds: Seq<LZDict>) -> bool {
    forall|k: int| 0 <= k < ds.len() ==> (#[trigger] ds[k]).wf()
}

/// The emitted results `(i, j, similarity)` of comparing row `i` of `a`
/// against columns `j0..` of `b`, in ascending column order: a pair is
/// emitted exactly when its rounded percentage similarity reaches the
/// threshold.
pub open spec fn row_pairs(
    a: Seq<LZDict>,
    b: Seq<LZDict>,
    threshold: u32,
    i: int,
    j: int,
) -> Seq<(usize, usize, u32)>
    decreases b.len() - j,
    when 0 <= j <= b.len()
{
    if j >= b.len() {
        Seq::empty()
    } else {
        let s = sim_percent_spec(a[i]@, b[j]@);
        let rest = row_pairs(a, b, threshold, i, j + 1);
        if s >= threshold {
            seq![(i as usize, j as usize, s as u32)] + rest
        } else {
            rest
        }
    }
}

/// The emitted results of rows `i..` of `a`: each row `i` is compared from
/// column `i + 1` when the two collections are the same one (strict upper
/// triangle), and from column 0 otherwise (full cross product).
pub open spec fn pairs_from(
    a: Seq<LZDict>,
    b: Seq<LZDict>,
    same: bool,
    threshold: u32,
    i: int,
) -> Seq<(usize, usize, u32)>
    decreases a.len() - i,
    when 0 <= i <= a.len() && (same ==> a == b)
{
    if i >= a.len() {
        Seq::empty()
    } else {
        row_pairs(a, b, threshold, i, if same { i + 1 } else { 0 }) + pairs_from(
            a,
            b,
            same,
            threshold,
            i + 1,
        )
    }
}

/// Compare the sketch at row `i` of `dicts_a` against `dicts_b`, emitting
/// each pair whose rounded percentage similarity reaches the threshold.
pub fn compare_row(
    dicts_a: &Vec<LZDict>,
    dicts_b: &Vec<LZDict>,
    same: bool,
    threshold: u32,
    i: usize,
) -> (r: Vec<(usize, usize, u32)>)
    requires
        all_wf(dicts_a@),
        all_wf(dicts_b@),
        i < dicts_a@.len(),
        same ==> dicts_a@ == dicts_b@,
    ensures
        r@ == row_pairs(
            dicts_a@,
            dicts_b@,
            threshold,
            i as int,
            if same {
                i + 1
            } else {
                0
            },
        ),
{
    let ghost a = dicts_a@;
    let ghost b = dicts_b@;
    let n_a = dicts_a.len();
    proof {
        assert(i < n_a);
    }
    let j_start: usize = if same {
        i + 1
    } else {
        0
    };
    let mut r: Vec<(usize, usize, u32)> = Vec::new();
    let mut j: usize = j_start;
    while j < dicts_b.len()
        invariant
            all_wf(a),
            all_wf(b),
            a == dicts_a@,
            b == dicts_b@,
            i < a.len(),
            j_start <= j <= b.len(),
            row_pairs(a, b, threshold, i as int, j_start as int) == r@ + row_pairs(
                a,
                b,
                threshold,
                i as int,
                j as int,
            ),
        decreases b.len() - j,
    {
        let s = dicts_a[i].similarity_percent(&dicts_b[j]);
        let ghost r0 = r@;
        if s >= threshold {
            r.push((i, j, s));
        }
        proof {
            let ss = sim_percent_spec(a[i as int]@, b[j as int]@);
            lemma_sim_percent_bounds(a[i as int]@, b[j as int]@);
            if ss >= threshold {
                assert(r@ =~= r0 + seq![(i, j, s)]);
                assert(row_pairs(a, b, threshold, i as int, j as int) == seq![(i, j, s)]
                    + row_pairs(a, b, threshold, i as int, j + 1));
                assert(r0 + (seq![(i, j, s)] + row_pairs(a, b, threshold, i as int, j + 1)) =~= (r0
                    + seq![(i, j, s)]) + row_pairs(a, b, threshold, i as int, j + 1));
            }
        }
        j = j + 1;
    }
    proof {
        assert(row_pairs(a, b, threshold, i as int, b.len() as int) =~= Seq::<(
            usize,
            usize,
            u32,
        )>::empty());
        assert(r@ + Seq::<(usize, usize, u32)>::empty() =~= r@);
    }
    r
}

/// Compare two collections of sketches pairwise, emitting every pair whose
/// rounded percentage similarity reaches the threshold. `same` says the two
/// collections are the same underlying one, in which case only unordered
/// pairs `(i, j)` with `i < j` are evaluated.
pub fn compare_all(
    dicts_a: &Vec<LZDict>,
    dicts_b: &Vec<LZDict>,
    same: bool,
    threshold: u32,
) -> (r: Vec<(usize, usize, u32)>)
    requires
        all_wf(dicts_a@),
        all_wf(dicts_b@),
        same ==> dicts_a@ == dicts_b@,
    ensures
        r@ == pairs_from(dicts_a@, dicts_b@, same, threshold, 0),
{
    let ghost a = dicts_a@;
    let ghost b = dicts_b@;
    let mut r: Vec<(usize, usize, u32)> = Vec::new();
    let mut i: usize = 0;
    while i < dicts_a.len()
        invariant
            all_wf(a),
            all_wf(b),
            a == dicts_a@,
            b == dicts_b@,
            same ==> a == b,
            i <= a.len(),
            pairs_from(a, b, same, threshold, 0) == r@ + pairs_from(a, b, same, threshold, i as int),
        decreases a.len() - i,
    {
        let mut row = compare_row(dicts_a, dicts_b, same, threshold, i);
        let ghost r0 = r@;
        let ghost rowv = row@;
        r.append(&mut row);
        proof {
            assert(pairs_from(a, b, same, threshold, i as int) == rowv + pairs_from(
                a,
                b,
                same,
                threshold,
                i + 1,
            ));
            assert(r0 + (rowv + pairs_from(a, b, same, threshold, i + 1)) =~= (r0 + rowv)
                + pairs_from(a, b, same, threshold, i + 1));
        }
        i = i + 1;
    }
    proof {
        assert(pairs_from(a, b, same, threshold, a.len() as int) =~= Seq::<(
            usize,
            usize,
            u32,
        )>::empty());
        assert(r@ + Seq::<(usize, usize, u32)>::empty() =~= r@);
    }
    r
}

/// A result stands in a row's output exactly when its column lies in the
/// row's range, its similarity is the rounded percentage of the two
/// sketches, and that similarity reaches the threshold.
pub proof fn lemma_row_pairs_membership(
    a: Seq<LZDict>,
    b: Seq<LZDict>,
    threshold: u32,
    i: int,
    j0: int,
    p: (usize, usize, u32),
)
    requires
        0 <= i < a.len(),
        0 <= j0 <= b.len(),
        a.len() <= usize::MAX,
        b.len() <= usize::MAX,
    ensures
        row_pairs(a, b, threshold, i, j0).contains(p) <==> {
            &&& p.0 == i
            &&& j0 <= p.1 < b.len()
            &&& p.2 == sim_percent_spec(a[i]@, b[p.1 as int]@)
            &&& p.2 >= threshold
        },
    decreases b.len() - j0,
{
    broadcast use vstd::seq_lib::lemma_seq_concat_contains_all_elements;
    broadcast use vstd::seq_lib::lemma_seq_empty_contains_nothing;

    if j0 < b.len() {
        lemma_row_pairs_membership(a, b, threshold, i, j0 + 1, p);
        let s = sim_percent_spec(a[i]@, b[j0]@);
        lemma_sim_percent_bounds(a[i]@, b[j0]@);
        if s >= threshold {
            let head = (i as usize, j0 as usize, s as u32);
            assert(seq![head].contains(p) <==> p == head) by {
                assert(seq![head][0] == head);
            }
        }
    }
}

/// A result stands in the batch output exactly when its row and column are
/// valid (and, for self-comparison, lie in the strict upper triangle: no
/// self-pair, no mirrored pair), its similarity is the rounded percentage of
/// the two sketches, and that similarity reaches the threshold.
pub proof fn lemma_pairs_membership(
    a: Seq<LZDict>,
    b: Seq<LZDict>,
    same: bool,
    threshold: u32,
    i0: int,
    p: (usize, usize, u32),
)
    requires
        0 <= i0 <= a.len(),
        a.len() <= usize::MAX,
        b.len() <= usize::MAX,
        same ==> a == b,
    ensures
        pairs_from(a, b, same, threshold, i0).contains(p) <==> {
            &&& i0 <= p.0 < a.len()
            &&& p.1 < b.len()
            &&& same ==> p.0 < p.1
            &&& p.2 == sim_percent_spec(a[p.0 as int]@, b[p.1 as int]@)
            &&& p.2 >= threshold
        },
    decreases a.len() - i0,
{
    broadcast use vstd::seq_lib::lemma_seq_concat_contains_all_elements;
    broadcast use vstd::seq_lib::lemma_seq_empty_contains_nothing;

    if i0 < a.len() {
        lemma_pairs_membership(a, b, same, threshold, i0 + 1, p);
        let j0: int = if same {
            i0 + 1
        } else {
            0
        };
        lemma_row_pairs_membership(a, b, threshold, i0, j0, p);
    }
}

/// A row's output never repeats a result.
proof fn lemma_row_pairs_no_dup(a: Seq<LZDict>, b: Seq<LZDict>, threshold: u32, i: int, j0: int)
    requires
        0 <= i < a.len(),
        0 <= j0 <= b.len(),
        a.len() <= usize::MAX,
        b.len() <= usize::MAX,
    ensures
        row_pairs(a, b, threshold, i, j0).no_duplicates(),
    decreases b.len() - j0,
{
    if j0 < b.len() {
        lemma_row_pairs_no_dup(a, b, threshold, i, j0 + 1);
        let s = sim_percent_spec(a[i]@, b[j0]@);
        lemma_sim_percent_bounds(a[i]@, b[j0]@);
        if s >= threshold {
            let head = (i as usize, j0 as usize, s as u32);
            let rest = row_pairs(a, b, threshold, i, j0 + 1);
            lemma_row_pairs_membership(a, b, threshold, i, j0 + 1, head);
            assert(!rest.contains(head));
            assert(forall|p: int, q: int|
                0 <= p < seq![head].len() && 0 <= q < rest.len() ==> seq![head][p] != rest[q]) by {
                assert(forall|q: int| 0 <= q < rest.len() ==> rest.contains(#[trigger] rest[q]));
            }
            vstd::seq_lib::lemma_no_dup_in_concat(seq![head], rest);
        }
    }
}

/// The batch output never repeats a result: together with the membership
/// law, every pair is evaluated and emitted at most once.
pub proof fn lemma_pairs_no_dup(a: Seq<LZDict>, b: Seq<LZDict>, same: bool, threshold: u32, i0: int)
    requires
        0 <= i0 <= a.len(),
        a.len() <= usize::MAX,
        b.len() <= usize::MAX,
        same ==> a == b,
    ensures
        pairs_from(a, b, same, threshold, i0).no_duplicates(),
    decreases a.len() - i0,
{
    if i0 < a.len() {
        lemma_pairs_no_dup(a, b, same, threshold, i0 + 1);
        let j0: int = if same {
            i0 + 1
        } else {
            0
        };
        lemma_row_pairs_no_dup(a, b, threshold, i0, j0);
        let row = row_pairs(a, b, threshold, i0, j0);
        let rest = pairs_from(a, b, same, threshold, i0 + 1);
        assert(forall|p: int, q: int| 0 <= p < row.len() && 0 <= q < rest.len() ==> row[p]
            != rest[q]) by {
            assert(forall|p: int| 0 <= p < row.len() ==> row.contains(#[trigger] row[p]));
            assert(forall|q: int| 0 <= q < rest.len() ==> rest.contains(#[trigger] rest[q]));
            assert(forall|p: (usize, usize, u32)| #[trigger] row.contains(p) ==> p.0 == i0) by {
                assert forall|p: (usize, usize, u32)| #[trigger] row.contains(p) implies p.0
                    == i0 by {
                    lemma_row_pairs_membership(a, b, threshold, i0, j0, p);
                }
            }
            assert(forall|p: (usize, usize, u32)| #[trigger] rest.contains(p) ==> p.0 >= i0 + 1)
                by {
                assert forall|p: (usize, usize, u32)| #[trigger] rest.contains(p) implies p.0 >= i0
                    + 1 by {
                    lemma_pairs_membership(a, b, same, threshold, i0 + 1, p);
                }
            }
        }
        vstd::seq_lib::lemma_no_dup_in_concat(row, rest);
    }
}

/// Raising the threshold can only shrink the result set: every result
/// emitted at the higher threshold is emitted at the lower one too.
pub proof fn lemma_threshold_monotone(
    a: Seq<LZDict>,
    b: Seq<LZDict>,
    same: bool,
    t_low: u32,
    t_high: u32,
    p: (usize, usize, u32),
)
    requires
        t_low <= t_high,
        a.len() <= usize::MAX,
        b.len() <= usize::MAX,
        same ==> a == b,
        pairs_from(a, b, same, t_high, 0).contains(p),
    ensures
        pairs_from(a, b, same, t_low, 0).contains(p),
{
    lemma_pairs_membership(a, b, same, t_high, 0, p);
    lemma_pairs_membership(a, b, same, t_low, 0, p);
}

/// Row `j0..` of a self-comparison with threshold 0 emits one result per
/// column: every pair is evaluated and none is withheld.
proof fn lemma_row_pairs_full_len(a: Seq<LZDict>, b: Seq<LZDict>, i: int, j0: int)
    requires
        0 <= i < a.len(),
        0 <= j0 <= b.len(),
    ensures
        row_pairs(a, b, 0, i, j0).len() == b.len() - j0,
    decreases b.len() - j0,
{
    if j0 < b.len() {
        lemma_row_pairs_full_len(a, b, i, j0 + 1);
        lemma_sim_percent_bounds(a[i]@, b[j0]@);
    }
}

/// Self-comparison of `n` sketches with threshold 0 evaluates and emits
/// exactly `n * (n - 1) / 2` pairs: the strict upper triangle.
pub proof fn lemma_self_pairs_count(a: Seq<LZDict>, i0: int)
    requires
        0 <= i0 <= a.len(),
    ensures
        pairs_from(a, a, true, 0, i0).len() == (a.len() - i0) * (a.len() - i0 - 1) / 2,
    decreases a.len() - i0,
{
    let n = a.len() as int;
    if i0 < n {
        lemma_self_pairs_count(a, i0 + 1);
        lemma_row_pairs_full_len(a, a, i0, i0 + 1);
        assert((n - i0 - 1) + (n - i0 - 1) * (n - i0 - 2) / 2 == (n - i0) * (n - i0 - 1) / 2)
            by (nonlinear_arith)
            requires
                i0 < n,
        ;
    } else {
        assert((n - i0) * (n - i0 - 1) / 2 == 0) by (nonlinear_arith)
            requires
                i0 == n,
        ;
    }
}

/// The batch output is exactly the concatenation of its rows' outputs, in
/// row order: how the rows are partitioned across workers cannot change
/// which pairs are emitted.
pub proof fn lemma_pairs_decompose(a: Seq<LZDict>, b: Seq<LZDict>, same: bool, threshold: u32, i: int)
    requires
        0 <= i < a.len(),
        same ==> a == b,
    ensures
        pairs_from(a, b, same, threshold, i) == row_pairs(
            a,
            b,
            threshold,
            i,
            if same {
                i + 1
            } else {
                0
            },
        ) + pairs_from(a, b, same, threshold, i + 1),
{
}

} // verus!
