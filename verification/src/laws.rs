//! What holds of the metrics across inputs and across functions.
use crate::contingency::{
    adjusted_rand_fraction, ari_denominator, ari_numerator, cell_label, label_of,
    lemma_ari_bounds, lemma_pair_counts_order, same_cell_pairs, same_label_pairs,
};
use crate::pair_metrics::{
    agreeing_pairs, both_rel, precision_fraction, rand_fraction, recall_fraction, together_in_both,
    together_pairs,
};
use crate::partition::{co_clustered, community, label_or_zero};
use crate::pairs::{
    any_pair, lemma_all_pairs_len, lemma_pair_total_mono, lemma_pair_total_step,
    lemma_pairs_finite, lemma_pairs_len_eq_iff, pair_total, pairs_where, symmetric,
};
use crate::tally::{
    counts_of, label_count, lemma_label_count_none, lemma_label_count_same, lemma_marginal_counts,
    marginal_sum, same_label,
};
use vstd::relations::injective;
use vstd::set_lib::{
    lemma_len_subset, lemma_set_disjoint_lens, lemma_set_intersect_union_lens,
    lemma_set_subset_finite,
};
use vstd::prelude::*;

verus! {

/// A partition compared with itself has Rand index 1.
pub proof fn law_rand_index_of_identical(a: Map<u64, usize>)
    requires
        a.dom().finite(),
    ensures
        rand_fraction(a, a).0 == rand_fraction(a, a).1,
{
    lemma_all_pairs_len(a.dom());
    assert(agreeing_pairs(a, a) =~= pairs_where(a.dom(), any_pair()));
}

/// Over the same nodes, the Rand index does not depend on which partition
/// comes first.
pub proof fn law_rand_index_symmetric(a: Map<u64, usize>, b: Map<u64, usize>)
    requires
        a.dom() == b.dom(),
    ensures
        rand_fraction(a, b) == rand_fraction(b, a),
{
    assert(agreeing_pairs(a, b) =~= agreeing_pairs(b, a));
}

/// Over the same nodes, the precision of `predicted` against `truth` is the
/// recall of `truth` against `predicted`.
pub proof fn law_precision_is_swapped_recall(predicted: Map<u64, usize>, truth: Map<u64, usize>)
    requires
        predicted.dom() == truth.dom(),
    ensures
        precision_fraction(predicted, truth) == recall_fraction(truth, predicted),
{
}

/// A partition compared with itself has adjusted Rand index 1.
pub proof fn law_adjusted_rand_index_of_identical(a: Map<u64, usize>)
    ensures
        adjusted_rand_fraction(a, a).0 == adjusted_rand_fraction(a, a).1,
{
    assert(same_cell_pairs(a, a) =~= same_label_pairs(a, a));
    let x = same_label_pairs(a, a).len() as int;
    let t = pair_total(a.dom().len() as int);
    assert(ari_numerator(x, x, x, t) == ari_denominator(x, x, t)) by (nonlinear_arith);
}

/// Over the same nodes, the adjusted Rand index does not depend on which
/// partition comes first.
pub proof fn law_adjusted_rand_index_symmetric(a: Map<u64, usize>, b: Map<u64, usize>)
    requires
        a.dom() == b.dom(),
    ensures
        adjusted_rand_fraction(a, b) == adjusted_rand_fraction(b, a),
{
    assert(same_cell_pairs(a, b) =~= same_cell_pairs(b, a));
    assert(same_label_pairs(a, a) =~= same_label_pairs(b, a));
    assert(same_label_pairs(a, b) =~= same_label_pairs(b, b));
    let s = same_cell_pairs(a, b).len() as int;
    let x = same_label_pairs(a, a).len() as int;
    let y = same_label_pairs(a, b).len() as int;
    let t = pair_total(a.dom().len() as int);
    assert(ari_numerator(s, x, y, t) == ari_numerator(s, y, x, t)) by (nonlinear_arith);
    assert(ari_denominator(x, y, t) == ari_denominator(y, x, t)) by (nonlinear_arith);
}

/// The contingency table of a partition against itself is diagonal: no node
/// falls in a cell of two different communities, and the cell of community
/// `l` with itself holds as many nodes as the row (and the column) of `l`.
pub proof fn law_contingency_of_identical(a: Map<u64, usize>, l: usize, m: usize)
    ensures
        l != m ==> label_count(a.dom(), cell_label(a, a), (l, m)) == 0,
        label_count(a.dom(), cell_label(a, a), (l, l)) == label_count(a.dom(), label_of(a), l),
{
    lemma_label_count_same(a.dom(), cell_label(a, a), (l, l), label_of(a), l);
    if l != m {
        lemma_label_count_none(a.dom(), cell_label(a, a), (l, m));
    }
}

/// Where `b` holds every node of `a`, the Rand index that compares pairs
/// one by one and the contingency table agree: the agreeing pairs are those
/// sharing a cell plus those sharing neither a row nor a column, that is
/// `T + 2 S - A - B` in the table's pair counts.
pub proof fn law_rand_index_from_table(a: Map<u64, usize>, b: Map<u64, usize>)
    requires
        a.dom().finite(),
        a.dom().subset_of(b.dom()),
    ensures
        agreeing_pairs(a, b).len() == pair_total(a.dom().len() as int) + 2 * same_cell_pairs(
            a,
            b,
        ).len() - same_label_pairs(a, a).len() - same_label_pairs(a, b).len(),
        a.dom().len() >= 2 ==> rand_fraction(a, b).0 == pair_total(a.dom().len() as int) + 2
            * same_cell_pairs(a, b).len() - same_label_pairs(a, a).len() - same_label_pairs(
            a,
            b,
        ).len() && rand_fraction(a, b).1 == pair_total(a.dom().len() as int),
{
    let nodes = a.dom();
    let rs = same_label_pairs(a, a);
    let cs = same_label_pairs(a, b);
    let ss = same_cell_pairs(a, b);
    let all = pairs_where(nodes, any_pair());
    let agree = agreeing_pairs(a, b);
    lemma_pair_counts_order(a, b);
    lemma_all_pairs_len(nodes);
    lemma_pairs_finite(nodes, same_label(label_of(a)));
    lemma_pairs_finite(nodes, same_label(label_of(b)));
    lemma_pairs_finite(nodes, same_label(cell_label(a, b)));
    let union = rs + cs;
    let apart = all.difference(union);
    assert(rs.intersect(cs) =~= ss);
    lemma_set_intersect_union_lens(rs, cs);
    assert(union.subset_of(all));
    assert(all =~= union + apart);
    lemma_set_subset_finite(all, apart);
    lemma_set_disjoint_lens(union, apart);
    assert(agree =~= ss + apart);
    lemma_set_disjoint_lens(ss, apart);
}

/// The contingency table's margins: over any listing of the cells such as
/// `contingency_table` returns, the cells in the row of community `l` of `a`
/// hold as many nodes as that community, and the cells in the column of
/// community `l` of `b` as many as that one.
pub proof fn law_table_margins(
    a: Map<u64, usize>,
    b: Map<u64, usize>,
    cells: Seq<((usize, usize), u64)>,
    l: usize,
)
    requires
        a.dom().finite(),
        counts_of(cells, a.dom(), cell_label(a, b)),
    ensures
        marginal_sum(cells, |k: (usize, usize)| k.0, l) == label_count(a.dom(), label_of(a), l),
        marginal_sum(cells, |k: (usize, usize)| k.1, l) == label_count(a.dom(), label_of(b), l),
{
    let row = |k: (usize, usize)| k.0;
    let col = |k: (usize, usize)| k.1;
    lemma_marginal_counts(cells, a.dom(), cell_label(a, b), row, l);
    lemma_marginal_counts(cells, a.dom(), cell_label(a, b), col, l);
    lemma_label_count_same(a.dom(), |x: u64| row(cell_label(a, b)(x)), l, label_of(a), l);
    lemma_label_count_same(a.dom(), |x: u64| col(cell_label(a, b)(x)), l, label_of(b), l);
}

/// `p` with every community `c` renamed `f(c)`.
pub open spec fn relabel(p: Map<u64, usize>, f: spec_fn(usize) -> usize) -> Map<u64, usize> {
    Map::new(|u: u64| p.dom().contains(u), |u: u64| f(p[u]))
}

/// Renaming a partition's communities one-to-one groups the nodes as before.
proof fn lemma_relabel_co_clustered(p: Map<u64, usize>, f: spec_fn(usize) -> usize)
    requires
        injective(f),
    ensures
        relabel(p, f).dom() == p.dom(),
        forall|x: u64, y: u64| #[trigger] co_clustered(relabel(p, f), x, y) == co_clustered(p, x, y),
{
    assert(relabel(p, f).dom() =~= p.dom());
    assert forall|x: u64, y: u64| #[trigger] co_clustered(relabel(p, f), x, y) == co_clustered(p, x, y) by {
        if p.dom().contains(x) && p.dom().contains(y) {
            assert(f(p[x]) == f(p[y]) ==> p[x] == p[y]);
        }
    }
}

/// Renaming the communities of either partition one-to-one leaves the Rand
/// index unchanged: only which nodes share a community counts.
pub proof fn law_rand_index_relabel(a: Map<u64, usize>, b: Map<u64, usize>, f: spec_fn(usize) -> usize)
    requires
        injective(f),
    ensures
        rand_fraction(relabel(a, f), b) == rand_fraction(a, b),
        rand_fraction(a, relabel(b, f)) == rand_fraction(a, b),
{
    lemma_relabel_co_clustered(a, f);
    lemma_relabel_co_clustered(b, f);
    assert(agreeing_pairs(relabel(a, f), b) =~= agreeing_pairs(a, b));
    assert(agreeing_pairs(a, relabel(b, f)) =~= agreeing_pairs(a, b));
}

/// The Rand index reads the second partition only on the nodes of the
/// first: two second partitions that agree there give the same index.
pub proof fn law_rand_index_ignores_other_nodes(
    a: Map<u64, usize>,
    b: Map<u64, usize>,
    b2: Map<u64, usize>,
)
    requires
        forall|u: u64| a.dom().contains(u) ==> #[trigger] community(b, u) == community(b2, u),
    ensures
        rand_fraction(a, b) == rand_fraction(a, b2),
{
    assert(agreeing_pairs(a, b) =~= agreeing_pairs(a, b2));
}

/// A coarser truth never lowers the precision: the predicted pairs stay the
/// same and those that the truth confirms can only grow.
pub proof fn law_precision_coarser_truth(
    predicted: Map<u64, usize>,
    truth: Map<u64, usize>,
    coarser: Map<u64, usize>,
)
    requires
        predicted.dom().finite(),
        forall|u: u64, v: u64|
            predicted.dom().contains(u) && predicted.dom().contains(v) && #[trigger] co_clustered(
                truth,
                u,
                v,
            ) ==> co_clustered(coarser, u, v),
    ensures
        precision_fraction(predicted, truth).1 == precision_fraction(predicted, coarser).1,
        precision_fraction(predicted, truth).0 <= precision_fraction(predicted, coarser).0,
{
    let nodes = predicted.dom();
    let small = together_in_both(nodes, predicted, truth);
    let large = together_in_both(nodes, predicted, coarser);
    assert(symmetric(both_rel(predicted, coarser)));
    lemma_pairs_finite(nodes, both_rel(predicted, coarser));
    lemma_len_subset(small, large);
}

/// A coarser prediction never lowers the recall: the true pairs stay the
/// same and those that the prediction recovers can only grow.
pub proof fn law_recall_coarser_prediction(
    predicted: Map<u64, usize>,
    coarser: Map<u64, usize>,
    truth: Map<u64, usize>,
)
    requires
        predicted.dom().finite(),
        coarser.dom() == predicted.dom(),
        forall|u: u64, v: u64|
            predicted.dom().contains(u) && predicted.dom().contains(v) && #[trigger] co_clustered(
                predicted,
                u,
                v,
            ) ==> co_clustered(coarser, u, v),
    ensures
        recall_fraction(predicted, truth).1 == recall_fraction(coarser, truth).1,
        recall_fraction(predicted, truth).0 <= recall_fraction(coarser, truth).0,
{
    let nodes = predicted.dom();
    let small = together_in_both(nodes, truth, predicted);
    let large = together_in_both(nodes, truth, coarser);
    assert(symmetric(both_rel(truth, coarser)));
    lemma_pairs_finite(nodes, both_rel(truth, coarser));
    lemma_len_subset(small, large);
}

/// Outside its degenerate cases the adjusted Rand index is
/// `(S - A B / T) / ((A + B) / 2 - A B / T)` of the pair counts: `S` pairs of
/// nodes of `a` sharing a cell, `A` sharing a community of `a`, `B` sharing a
/// community of `b`, `T` pairs in all. Cross-multiplied by `2 T`, the value
/// `num / den` satisfies `num (T (A + B) - 2 A B) == den (2 T S - 2 A B)`,
/// with `den > 0`; in the degenerate cases (fewer than two nodes, or
/// `T (A + B) == 2 A B`) both sides are 0.
pub proof fn law_adjusted_rand_index_value(a: Map<u64, usize>, b: Map<u64, usize>)
    requires
        a.dom().finite(),
    ensures
        adjusted_rand_fraction(a, b).1 > 0,
        ({
            let s = same_cell_pairs(a, b).len() as int;
            let x = same_label_pairs(a, a).len() as int;
            let y = same_label_pairs(a, b).len() as int;
            let t = pair_total(a.dom().len() as int);
            adjusted_rand_fraction(a, b).0 * (t * (x + y) - 2 * x * y) == adjusted_rand_fraction(
                a,
                b,
            ).1 * (2 * t * s - 2 * x * y)
        }),
{
    let s = same_cell_pairs(a, b).len() as int;
    let x = same_label_pairs(a, a).len() as int;
    let y = same_label_pairs(a, b).len() as int;
    let n = a.dom().len() as int;
    let t = pair_total(n);
    lemma_degenerate_counts(a, b);
    let r = adjusted_rand_fraction(a, b);
    if n >= 2 && t * (x + y) - 2 * x * y != 0 {
        assert(r.0 == 2 * t * s - 2 * x * y);
        assert(r.1 == t * (x + y) - 2 * x * y);
        assert(r.0 * (t * (x + y) - 2 * x * y) == r.1 * (2 * t * s - 2 * x * y)) by (nonlinear_arith)
            requires
                r.0 == 2 * t * s - 2 * x * y,
                r.1 == t * (x + y) - 2 * x * y,
        ;
    }
}

/// Where the denominator of the adjusted Rand index vanishes (or there are
/// fewer than two nodes) its numerator vanishes too, and the denominator is
/// otherwise positive.
proof fn lemma_degenerate_counts(a: Map<u64, usize>, b: Map<u64, usize>)
    requires
        a.dom().finite(),
    ensures
        ({
            let s = same_cell_pairs(a, b).len() as int;
            let x = same_label_pairs(a, a).len() as int;
            let y = same_label_pairs(a, b).len() as int;
            let n = a.dom().len() as int;
            let t = pair_total(n);
            &&& (n < 2 || t * (x + y) - 2 * x * y == 0) ==> t * (x + y) - 2 * x * y == 0 && 2 * t
                * s - 2 * x * y == 0
            &&& t * (x + y) - 2 * x * y >= 0
        }),
{
    let s = same_cell_pairs(a, b).len() as int;
    let x = same_label_pairs(a, a).len() as int;
    let y = same_label_pairs(a, b).len() as int;
    let n = a.dom().len() as int;
    let t = pair_total(n);
    lemma_pair_counts_order(a, b);
    lemma_ari_bounds(s, x, y, t);
    if n < 2 {
        assert(t == 0) by (nonlinear_arith)
            requires
                0 <= n < 2,
                t == n * (n - 1) / 2,
        ;
    } else if t * (x + y) - 2 * x * y == 0 {
        lemma_pair_total_mono(2, n);
        lemma_pair_total_step(1);
        lemma_pair_total_step(0);
        assert(ari_denominator(x, y, t) == x * (t - y) + y * (t - x)) by (nonlinear_arith);
        assert(x * (t - y) >= 0 && y * (t - x) >= 0) by (nonlinear_arith)
            requires
                0 <= x <= t,
                0 <= y <= t,
        ;
        assert((x == 0 && y == 0) || (x == t && y == t)) by (nonlinear_arith)
            requires
                x * (t - y) == 0,
                y * (t - x) == 0,
                0 <= x <= t,
                0 <= y <= t,
                t >= 1,
        ;
        assert(2 * t * s - 2 * x * y == 0) by (nonlinear_arith)
            requires
                (x == 0 && y == 0 && s == 0) || (x == t && y == t && s == t),
        ;
    }
}

/// The adjusted Rand index is the Rand index corrected for chance: with `R`
/// the Rand index's count of agreeing pairs and `E = T - A - B + 2 A B / T`
/// the count that chance alone would give, `ARI (T - E) == R - E`. Stated for
/// a second partition that holds every node of the first (so that both
/// metrics see the same communities), and multiplied through by `T`.
pub proof fn law_adjusted_rand_index_from_rand_index(a: Map<u64, usize>, b: Map<u64, usize>)
    requires
        a.dom().finite(),
        a.dom().subset_of(b.dom()),
    ensures
        ({
            let x = same_label_pairs(a, a).len() as int;
            let y = same_label_pairs(a, b).len() as int;
            let t = pair_total(a.dom().len() as int);
            let chance = t * t - t * (x + y) + 2 * x * y;
            adjusted_rand_fraction(a, b).0 * (t * t - chance) == adjusted_rand_fraction(a, b).1 * (t
                * rand_fraction(a, b).0 - chance)
        }),
{
    let s = same_cell_pairs(a, b).len() as int;
    let x = same_label_pairs(a, a).len() as int;
    let y = same_label_pairs(a, b).len() as int;
    let n = a.dom().len() as int;
    let t = pair_total(n);
    let chance = t * t - t * (x + y) + 2 * x * y;
    law_adjusted_rand_index_value(a, b);
    lemma_degenerate_counts(a, b);
    let r = adjusted_rand_fraction(a, b);
    let agree = rand_fraction(a, b).0;
    if n < 2 {
        lemma_pair_counts_order(a, b);
        assert(t == 0) by (nonlinear_arith)
            requires
                0 <= n < 2,
                t == n * (n - 1) / 2,
        ;
    } else {
        law_rand_index_from_table(a, b);
        assert(agree == t + 2 * s - x - y);
    }
    assert(t * t - chance == t * (x + y) - 2 * x * y) by (nonlinear_arith)
        requires
            chance == t * t - t * (x + y) + 2 * x * y,
    ;
    assert(n >= 2 ==> t * agree - chance == 2 * t * s - 2 * x * y) by (nonlinear_arith)
        requires
            chance == t * t - t * (x + y) + 2 * x * y,
            n >= 2 ==> agree == t + 2 * s - x - y,
    ;
    if n < 2 {
        assert(r.0 * (t * t - chance) == 0 && r.1 * (t * agree - chance) == 0) by (nonlinear_arith)
            requires
                t == 0,
                x == 0,
                y == 0,
                chance == t * t - t * (x + y) + 2 * x * y,
        ;
    }
}

/// All nodes of `a` share one community of `p` (a missing node standing in
/// community `0`).
pub open spec fn one_community(a: Map<u64, usize>, p: Map<u64, usize>) -> bool {
    forall|u: u64, v: u64|
        a.dom().contains(u) && a.dom().contains(v) ==> #[trigger] label_or_zero(p, u)
            == #[trigger] label_or_zero(p, v)
}

/// Where one partition puts all the nodes in one community and the other
/// does not, the adjusted Rand index is 0: the agreement is exactly what
/// chance gives.
pub proof fn law_adjusted_rand_index_one_community(a: Map<u64, usize>, b: Map<u64, usize>)
    requires
        a.dom().finite(),
        one_community(a, a) != one_community(a, b),
    ensures
        adjusted_rand_fraction(a, b).0 == 0,
        adjusted_rand_fraction(a, b).1 > 0,
{
    let nodes = a.dom();
    let row = same_label(label_of(a));
    let col = same_label(label_of(b));
    let cell = same_label(cell_label(a, b));
    let s = same_cell_pairs(a, b).len() as int;
    let x = same_label_pairs(a, a).len() as int;
    let y = same_label_pairs(a, b).len() as int;
    let n = nodes.len() as int;
    let t = pair_total(n);
    assert(symmetric(row));
    assert(symmetric(col));
    assert(symmetric(any_pair()));
    lemma_pairs_len_eq_iff(nodes, any_pair(), row);
    lemma_pairs_len_eq_iff(nodes, any_pair(), col);
    lemma_all_pairs_len(nodes);
    lemma_pair_counts_order(a, b);
    lemma_degenerate_counts(a, b);
    // Some two distinct nodes are apart in one of the partitions.
    let (u, v) = if one_community(a, a) {
        choose|u: u64, v: u64|
            nodes.contains(u) && nodes.contains(v) && label_or_zero(b, u) != label_or_zero(b, v)
    } else {
        choose|u: u64, v: u64|
            nodes.contains(u) && nodes.contains(v) && label_or_zero(a, u) != label_or_zero(a, v)
    };
    assert(nodes.contains(u) && nodes.contains(v) && u != v);
    assert(n >= 2) by {
        vstd::set_lib::lemma_len_subset(set![u, v], nodes);
    }
    if one_community(a, a) {
        assert(x == t) by {
            assert forall|p: u64, q: u64|
                nodes.contains(p) && nodes.contains(q) && p != q && #[trigger] any_pair()(p, q)
                    implies row(p, q) by {
                assert(label_or_zero(a, p) == label_or_zero(a, q));
            }
        }
        assert(y < t) by {
            assert(!col(u, v));
            assert(any_pair()(u, v));
        }
        assert(same_cell_pairs(a, b) =~= same_label_pairs(a, b)) by {
            assert forall|e: (u64, u64)| same_label_pairs(a, b).contains(e) implies same_cell_pairs(
                a,
                b,
            ).contains(e) by {
                assert(label_or_zero(a, e.0) == label_or_zero(a, e.1));
            }
        }
        assert(t * (x + y) - 2 * x * y == t * (t - y) && t * (t - y) > 0) by (nonlinear_arith)
            requires
                x == t,
                y < t,
                t >= 1,
        ;
        assert(2 * t * s - 2 * x * y == 0) by (nonlinear_arith)
            requires
                x == t,
                s == y,
        ;
    } else {
        assert(y == t) by {
            assert forall|p: u64, q: u64|
                nodes.contains(p) && nodes.contains(q) && p != q && #[trigger] any_pair()(p, q)
                    implies col(p, q) by {
                assert(label_or_zero(b, p) == label_or_zero(b, q));
            }
        }
        assert(x < t) by {
            assert(!row(u, v));
            assert(any_pair()(u, v));
        }
        assert(same_cell_pairs(a, b) =~= same_label_pairs(a, a)) by {
            assert forall|e: (u64, u64)| same_label_pairs(a, a).contains(e) implies same_cell_pairs(
                a,
                b,
            ).contains(e) by {
                assert(label_or_zero(b, e.0) == label_or_zero(b, e.1));
            }
        }
        assert(t * (x + y) - 2 * x * y == t * (t - x) && t * (t - x) > 0) by (nonlinear_arith)
            requires
                y == t,
                x < t,
                t >= 1,
        ;
        assert(2 * t * s - 2 * x * y == 0) by (nonlinear_arith)
            requires
                y == t,
                s == x,
        ;
    }
    lemma_pair_total_mono(2, n);
    lemma_pair_total_step(1);
    lemma_pair_total_step(0);
}

/// Where the truth holds every predicted node, pairwise precision and recall
/// read off the contingency table of `predicted` against `truth`: with `S`
/// the pairs sharing a cell, `A` those sharing a predicted community and `B`
/// those sharing a true one, the precision is `S / A` and the recall
/// `S / B` (each 1 where its denominator is 0).
pub proof fn law_precision_recall_from_table(predicted: Map<u64, usize>, truth: Map<u64, usize>)
    requires
        predicted.dom().subset_of(truth.dom()),
    ensures
        ({
            let s = same_cell_pairs(predicted, truth).len() as int;
            let x = same_label_pairs(predicted, predicted).len() as int;
            let y = same_label_pairs(predicted, truth).len() as int;
            &&& precision_fraction(predicted, truth) == (if x == 0 {
                (1int, 1int)
            } else {
                (s, x)
            })
            &&& recall_fraction(predicted, truth) == (if y == 0 {
                (1int, 1int)
            } else {
                (s, y)
            })
        }),
{
    let nodes = predicted.dom();
    assert(together_pairs(nodes, predicted) =~= same_label_pairs(predicted, predicted));
    assert(together_pairs(nodes, truth) =~= same_label_pairs(predicted, truth));
    assert(together_in_both(nodes, predicted, truth) =~= same_cell_pairs(predicted, truth));
    assert(together_in_both(nodes, truth, predicted) =~= same_cell_pairs(predicted, truth));
}

} // verus!
