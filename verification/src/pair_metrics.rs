//! Metrics that count pairs of nodes: the Rand index, pairwise precision and
//! pairwise recall.
use crate::pairs::{
    first_nodes, lemma_first_nodes_ends, lemma_first_nodes_step, lemma_pair_total_mono,
    lemma_pair_total_step, lemma_pairs_insert_len, lemma_pairs_len_eq_iff, lemma_partners_insert,
    lemma_all_pairs_len, pair_total, pairs_where, partners, any_pair, symmetric,
};
use crate::partition::{co_clustered, community, Partition};
use vstd::prelude::*;

verus! {

/// A fraction `num / den`, the exact value of a metric in `[0, 1]`.
pub struct Ratio {
    pub num: u64,
    pub den: u64,
}

/// Two nodes are treated alike by `a` and by `b`: both partitions put them
/// together, or both keep them apart.
pub open spec fn agree_rel(a: Map<u64, usize>, b: Map<u64, usize>) -> spec_fn(u64, u64) -> bool {
    |u: u64, v: u64| co_clustered(a, u, v) == co_clustered(b, u, v)
}

/// Two nodes are put together by `p`.
pub open spec fn co_rel(p: Map<u64, usize>) -> spec_fn(u64, u64) -> bool {
    |u: u64, v: u64| co_clustered(p, u, v)
}

/// Two nodes are put together by `p` and by `q`.
pub open spec fn both_rel(p: Map<u64, usize>, q: Map<u64, usize>) -> spec_fn(u64, u64) -> bool {
    |u: u64, v: u64| co_clustered(p, u, v) && co_clustered(q, u, v)
}

/// The pairs of nodes of `a` on which `a` and `b` agree.
pub open spec fn agreeing_pairs(a: Map<u64, usize>, b: Map<u64, usize>) -> Set<(u64, u64)> {
    pairs_where(a.dom(), agree_rel(a, b))
}

/// The pairs of nodes of `nodes` that `p` puts together.
pub open spec fn together_pairs(nodes: Set<u64>, p: Map<u64, usize>) -> Set<(u64, u64)> {
    pairs_where(nodes, co_rel(p))
}

/// The pairs of nodes of `nodes` that both `p` and `q` put together.
pub open spec fn together_in_both(nodes: Set<u64>, p: Map<u64, usize>, q: Map<u64, usize>) -> Set<
    (u64, u64),
> {
    pairs_where(nodes, both_rel(p, q))
}

/// The exact Rand index of `a` against `b`: `(agreeing pairs, all pairs)`
/// over the nodes of `a`, or 1 where `a` has fewer than two nodes.
pub open spec fn rand_fraction(a: Map<u64, usize>, b: Map<u64, usize>) -> (int, int) {
    let n = a.dom().len() as int;
    if n < 2 {
        (1, 1)
    } else {
        (agreeing_pairs(a, b).len() as int, pair_total(n))
    }
}

/// The exact pairwise precision of `predicted` against `truth`, over the
/// nodes of `predicted`: `(pairs together in both, pairs together in
/// predicted)`, or 1 where `predicted` puts no pair together.
pub open spec fn precision_fraction(predicted: Map<u64, usize>, truth: Map<u64, usize>) -> (int, int) {
    let positive = together_pairs(predicted.dom(), predicted).len() as int;
    if positive == 0 {
        (1, 1)
    } else {
        (together_in_both(predicted.dom(), predicted, truth).len() as int, positive)
    }
}

/// The exact pairwise recall of `predicted` against `truth`, over the nodes
/// of `predicted`: `(pairs together in both, pairs together in truth)`, or 1
/// where `truth` puts no pair of them together.
pub open spec fn recall_fraction(predicted: Map<u64, usize>, truth: Map<u64, usize>) -> (int, int) {
    let positive = together_pairs(predicted.dom(), truth).len() as int;
    if positive == 0 {
        (1, 1)
    } else {
        (together_in_both(predicted.dom(), truth, predicted).len() as int, positive)
    }
}

/// Whether two looked-up communities are the same (two missing ones are).
fn same_community(x: Option<usize>, y: Option<usize>) -> (r: bool)
    ensures
        r == (x == y),
{
    match (x, y) {
        (Some(u), Some(v)) => u == v,
        (None, None) => true,
        _ => false,
    }
}

/// The community of each of `nodes` in `p`.
fn communities(p: &Partition, nodes: &Vec<u64>) -> (cs: Vec<Option<usize>>)
    ensures
        cs@.len() == nodes@.len(),
        forall|i: int| 0 <= i < nodes@.len() ==> cs@[i] == community(p@, #[trigger] nodes@[i]),
{
    let mut cs: Vec<Option<usize>> = Vec::new();
    for i in 0..nodes.len()
        invariant
            cs@.len() == i,
            forall|k: int| 0 <= k < i ==> cs@[k] == community(p@, #[trigger] nodes@[k]),
    {
        cs.push(p.community_of(nodes[i]));
    }
    cs
}

/// The Rand index of two partitions: the fraction of pairs of distinct nodes
/// of `partition_a` on which the two partitions agree, either both putting
/// the pair in one community or both keeping it apart. A node that
/// `partition_b` does not hold counts as a community of its own kind there:
/// two such nodes are together, and apart from every node that it holds.
/// With fewer than two nodes the index is 1.
pub fn rand_index(partition_a: &Partition, partition_b: &Partition) -> (r: Ratio)
    requires
        pair_total(partition_a@.dom().len() as int) <= u64::MAX,
    ensures
        r.den > 0,
        r.num <= r.den,
        r.num == rand_fraction(partition_a@, partition_b@).0,
        r.den == rand_fraction(partition_a@, partition_b@).1,
        (r.num == r.den) <==> (forall|x: u64, y: u64|
            partition_a@.dom().contains(x) && partition_a@.dom().contains(y) && x != y
                ==> #[trigger] co_clustered(partition_a@, x, y) == co_clustered(
                partition_b@,
                x,
                y,
            )),
{
    let ghost a = partition_a@;
    let ghost b = partition_b@;
    let ghost rel = agree_rel(a, b);
    let nodes = partition_a.nodes();
    let n = nodes.len();
    proof {
        assert(symmetric(rel));
        assert(symmetric(any_pair()));
        lemma_all_pairs_len(a.dom());
        lemma_pairs_len_eq_iff(a.dom(), any_pair(), rel);
        lemma_pair_total_step(n as int);
        if (forall|x: u64, y: u64|
            a.dom().contains(x) && a.dom().contains(y) && x != y ==> #[trigger] co_clustered(
                a,
                x,
                y,
            ) == co_clustered(b, x, y)) {
            assert forall|x: u64, y: u64|
                a.dom().contains(x) && a.dom().contains(y) && x != y && #[trigger] any_pair()(
                    x,
                    y,
                ) implies rel(x, y) by {
                assert(co_clustered(a, x, y) == co_clustered(b, x, y));
            }
        }
    }
    if n < 2 {
        proof {
            assert(pair_total(n as int) == 0) by (nonlinear_arith)
                requires
                    0 <= n < 2,
            ;
        }
        return Ratio { num: 1, den: 1 };
    }
    let ca = communities(partition_a, &nodes);
    let cb = communities(partition_b, &nodes);
    let mut agree: u64 = 0;
    let mut total: u64 = 0;
    proof {
        lemma_first_nodes_ends(nodes@, 0);
        assert(pairs_where(first_nodes(nodes@, 0), rel) =~= Set::empty());
    }
    for j in 0..n
        invariant
            n == nodes@.len(),
            nodes@.no_duplicates(),
            nodes@.to_set() == a.dom(),
            ca@.len() == n,
            cb@.len() == n,
            forall|k: int| 0 <= k < n ==> ca@[k] == community(a, #[trigger] nodes@[k]),
            forall|k: int| 0 <= k < n ==> cb@[k] == community(b, #[trigger] nodes@[k]),
            pair_total(n as int) <= u64::MAX,
            symmetric(rel),
            rel == agree_rel(a, b),
            agree == pairs_where(first_nodes(nodes@, j as int), rel).len(),
            total == pair_total(j as int),
            agree <= total,
    {
        proof {
            lemma_first_nodes_step(nodes@, j as int);
            lemma_first_nodes_ends(nodes@, 0);
            lemma_pair_total_step(j as int);
            lemma_pair_total_mono(j + 1, n as int);
            assert(partners(first_nodes(nodes@, 0), nodes@[j as int], rel) =~= Set::empty());
        }
        for i in 0..j
            invariant
                n == nodes@.len(),
                j < n,
                nodes@.no_duplicates(),
                ca@.len() == n,
                cb@.len() == n,
                forall|k: int| 0 <= k < n ==> ca@[k] == community(a, #[trigger] nodes@[k]),
                forall|k: int| 0 <= k < n ==> cb@[k] == community(b, #[trigger] nodes@[k]),
                pair_total(j as int) + j <= u64::MAX,
                rel == agree_rel(a, b),
                agree == pairs_where(first_nodes(nodes@, j as int), rel).len() + partners(
                    first_nodes(nodes@, i as int),
                    nodes@[j as int],
                    rel,
                ).len(),
                total == pair_total(j as int) + i,
                agree <= total,
        {
            proof {
                lemma_first_nodes_step(nodes@, i as int);
                lemma_partners_insert(
                    first_nodes(nodes@, i as int),
                    nodes@[i as int],
                    nodes@[j as int],
                    rel,
                );
            }
            let a_same = same_community(ca[i], ca[j]);
            let b_same = same_community(cb[i], cb[j]);
            if a_same == b_same {
                agree = agree + 1;
            }
            total = total + 1;
        }
        proof {
            lemma_pairs_insert_len(first_nodes(nodes@, j as int), nodes@[j as int], rel);
        }
    }
    proof {
        lemma_first_nodes_ends(nodes@, n as int);
        lemma_pair_total_mono(2, n as int);
        lemma_pair_total_step(0);
        lemma_pair_total_step(1);
        if (forall|x: u64, y: u64|
            a.dom().contains(x) && a.dom().contains(y) && x != y && #[trigger] any_pair()(x, y)
                ==> rel(x, y)) {
            assert forall|x: u64, y: u64|
                a.dom().contains(x) && a.dom().contains(y) && x != y implies #[trigger] co_clustered(
                a,
                x,
                y,
            ) == co_clustered(b, x, y) by {
                assert(any_pair()(x, y));
            }
        }
    }
    Ratio { num: agree, den: total }
}

/// Over the pairs of distinct nodes of `nodes`: how many `p` puts together,
/// and how many of those `q` puts together too.
fn count_together(p: &Partition, q: &Partition, nodes: &Vec<u64>) -> (r: (u64, u64))
    requires
        nodes@.no_duplicates(),
        pair_total(nodes@.len() as int) <= u64::MAX,
    ensures
        r.0 == pairs_where(nodes@.to_set(), co_rel(p@)).len(),
        r.1 == pairs_where(nodes@.to_set(), both_rel(p@, q@)).len(),
        r.1 <= r.0,
{
    let ghost outer = co_rel(p@);
    let ghost inner = both_rel(p@, q@);
    let n = nodes.len();
    let cp = communities(p, nodes);
    let cq = communities(q, nodes);
    let mut together: u64 = 0;
    let mut both: u64 = 0;
    proof {
        assert(symmetric(outer));
        assert(symmetric(inner));
        lemma_first_nodes_ends(nodes@, 0);
        assert(pairs_where(first_nodes(nodes@, 0), outer) =~= Set::empty());
        assert(pairs_where(first_nodes(nodes@, 0), inner) =~= Set::empty());
        lemma_pair_total_step(0);
    }
    for j in 0..n
        invariant
            n == nodes@.len(),
            nodes@.no_duplicates(),
            cp@.len() == n,
            cq@.len() == n,
            forall|k: int| 0 <= k < n ==> cp@[k] == community(p@, #[trigger] nodes@[k]),
            forall|k: int| 0 <= k < n ==> cq@[k] == community(q@, #[trigger] nodes@[k]),
            pair_total(n as int) <= u64::MAX,
            symmetric(outer),
            symmetric(inner),
            outer == co_rel(p@),
            inner == both_rel(p@, q@),
            together == pairs_where(first_nodes(nodes@, j as int), outer).len(),
            both == pairs_where(first_nodes(nodes@, j as int), inner).len(),
            both <= together,
            together <= pair_total(j as int),
    {
        proof {
            lemma_first_nodes_step(nodes@, j as int);
            lemma_first_nodes_ends(nodes@, 0);
            lemma_pair_total_step(j as int);
            lemma_pair_total_mono(j + 1, n as int);
            assert(partners(first_nodes(nodes@, 0), nodes@[j as int], outer) =~= Set::empty());
            assert(partners(first_nodes(nodes@, 0), nodes@[j as int], inner) =~= Set::empty());
        }
        for i in 0..j
            invariant
                n == nodes@.len(),
                j < n,
                nodes@.no_duplicates(),
                cp@.len() == n,
                cq@.len() == n,
                forall|k: int| 0 <= k < n ==> cp@[k] == community(p@, #[trigger] nodes@[k]),
                forall|k: int| 0 <= k < n ==> cq@[k] == community(q@, #[trigger] nodes@[k]),
                pair_total(j as int) + j <= u64::MAX,
                outer == co_rel(p@),
                inner == both_rel(p@, q@),
                together == pairs_where(first_nodes(nodes@, j as int), outer).len() + partners(
                    first_nodes(nodes@, i as int),
                    nodes@[j as int],
                    outer,
                ).len(),
                both == pairs_where(first_nodes(nodes@, j as int), inner).len() + partners(
                    first_nodes(nodes@, i as int),
                    nodes@[j as int],
                    inner,
                ).len(),
                both <= together,
                together <= pair_total(j as int) + i,
        {
            proof {
                lemma_first_nodes_step(nodes@, i as int);
                lemma_partners_insert(
                    first_nodes(nodes@, i as int),
                    nodes@[i as int],
                    nodes@[j as int],
                    outer,
                );
                lemma_partners_insert(
                    first_nodes(nodes@, i as int),
                    nodes@[i as int],
                    nodes@[j as int],
                    inner,
                );
            }
            let p_same = same_community(cp[i], cp[j]);
            if p_same {
                together = together + 1;
                let q_same = same_community(cq[i], cq[j]);
                if q_same {
                    both = both + 1;
                }
            }
        }
        proof {
            lemma_pairs_insert_len(first_nodes(nodes@, j as int), nodes@[j as int], outer);
            lemma_pairs_insert_len(first_nodes(nodes@, j as int), nodes@[j as int], inner);
        }
    }
    proof {
        lemma_first_nodes_ends(nodes@, n as int);
    }
    (together, both)
}

/// Pairwise precision: of the pairs of distinct nodes of `predicted` that
/// `predicted` puts in one community, the fraction that `truth` puts in one
/// community too. With no such pair (fewer than two nodes, or every node
/// alone) the precision is 1.
pub fn pairwise_precision(predicted: &Partition, truth: &Partition) -> (r: Ratio)
    requires
        pair_total(predicted@.dom().len() as int) <= u64::MAX,
    ensures
        r.den > 0,
        r.num <= r.den,
        r.num == precision_fraction(predicted@, truth@).0,
        r.den == precision_fraction(predicted@, truth@).1,
        (r.num == r.den) <==> (forall|x: u64, y: u64|
            predicted@.dom().contains(x) && predicted@.dom().contains(y) && x != y
                && #[trigger] co_clustered(predicted@, x, y) ==> co_clustered(truth@, x, y)),
{
    let ghost dom = predicted@.dom();
    let ghost outer = co_rel(predicted@);
    let ghost inner = both_rel(predicted@, truth@);
    let nodes = predicted.nodes();
    let n = nodes.len();
    proof {
        assert(symmetric(outer));
        assert(symmetric(inner));
        assert(symmetric(any_pair()));
        lemma_all_pairs_len(dom);
        lemma_pairs_len_eq_iff(dom, any_pair(), outer);
        lemma_pairs_len_eq_iff(dom, outer, inner);
        if (forall|x: u64, y: u64|
            dom.contains(x) && dom.contains(y) && x != y && #[trigger] co_clustered(predicted@, x, y)
                ==> co_clustered(truth@, x, y)) {
            assert forall|x: u64, y: u64|
                dom.contains(x) && dom.contains(y) && x != y && #[trigger] outer(x, y) implies inner(
                x,
                y,
            ) by {
                assert(co_clustered(predicted@, x, y));
            }
        }
        if (forall|x: u64, y: u64|
            dom.contains(x) && dom.contains(y) && x != y && #[trigger] outer(x, y) ==> inner(x, y)) {
            assert forall|x: u64, y: u64|
                dom.contains(x) && dom.contains(y) && x != y && #[trigger] co_clustered(predicted@, x, y)
                implies co_clustered(truth@, x, y) by {
                assert(outer(x, y));
            }
        }
    }
    if n < 2 {
        proof {
            assert(pair_total(n as int) == 0) by (nonlinear_arith)
                requires
                    0 <= n < 2,
            ;
        }
        return Ratio { num: 1, den: 1 };
    }
    let (predicted_positive, true_positive) = count_together(predicted, truth, &nodes);
    if predicted_positive == 0 {
        return Ratio { num: 1, den: 1 };
    }
    Ratio { num: true_positive, den: predicted_positive }
}

/// Pairwise recall: of the pairs of distinct nodes of `predicted` that
/// `truth` puts in one community, the fraction that `predicted` puts in one
/// community too. With no such pair (fewer than two nodes, or every node
/// alone in `truth`) the recall is 1.
pub fn pairwise_recall(predicted: &Partition, truth: &Partition) -> (r: Ratio)
    requires
        pair_total(predicted@.dom().len() as int) <= u64::MAX,
    ensures
        r.den > 0,
        r.num <= r.den,
        r.num == recall_fraction(predicted@, truth@).0,
        r.den == recall_fraction(predicted@, truth@).1,
        (r.num == r.den) <==> (forall|x: u64, y: u64|
            predicted@.dom().contains(x) && predicted@.dom().contains(y) && x != y
                && #[trigger] co_clustered(truth@, x, y) ==> co_clustered(predicted@, x, y)),
{
    let ghost dom = predicted@.dom();
    let ghost outer = co_rel(truth@);
    let ghost inner = both_rel(truth@, predicted@);
    let nodes = predicted.nodes();
    let n = nodes.len();
    proof {
        assert(symmetric(outer));
        assert(symmetric(inner));
        assert(symmetric(any_pair()));
        lemma_all_pairs_len(dom);
        lemma_pairs_len_eq_iff(dom, any_pair(), outer);
        lemma_pairs_len_eq_iff(dom, outer, inner);
        if (forall|x: u64, y: u64|
            dom.contains(x) && dom.contains(y) && x != y && #[trigger] co_clustered(truth@, x, y)
                ==> co_clustered(predicted@, x, y)) {
            assert forall|x: u64, y: u64|
                dom.contains(x) && dom.contains(y) && x != y && #[trigger] outer(x, y) implies inner(
                x,
                y,
            ) by {
                assert(co_clustered(truth@, x, y));
            }
        }
        if (forall|x: u64, y: u64|
            dom.contains(x) && dom.contains(y) && x != y && #[trigger] outer(x, y) ==> inner(x, y)) {
            assert forall|x: u64, y: u64|
                dom.contains(x) && dom.contains(y) && x != y && #[trigger] co_clustered(truth@, x, y)
                implies co_clustered(predicted@, x, y) by {
                assert(outer(x, y));
            }
        }
    }
    if n < 2 {
        proof {
            assert(pair_total(n as int) == 0) by (nonlinear_arith)
                requires
                    0 <= n < 2,
            ;
        }
        return Ratio { num: 1, den: 1 };
    }
    let (condition_positive, true_positive) = count_together(truth, predicted, &nodes);
    if condition_positive == 0 {
        return Ratio { num: 1, den: 1 };
    }
    Ratio { num: true_positive, den: condition_positive }
}

} // verus!
