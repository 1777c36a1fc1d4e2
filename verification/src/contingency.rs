//! The contingency table of two partitions, and the adjusted Rand index
//! computed from it.
use crate::pairs::{
    any_pair, ordered_pair, first_nodes, lemma_all_pairs_len, lemma_first_nodes_ends, lemma_first_nodes_step,
    lemma_pair_total_mono, lemma_pair_total_step, lemma_pairs_finite, lemma_pairs_len_eq_iff,
    pair_total, pairs_where, symmetric,
};
use crate::partition::{label_or_zero, Partition};
use crate::tally::{
    cell_counts_contents, choose2, counts_of, label_counts_contents, lemma_counts_bounded,
    lemma_listed_counts, lemma_map_counts_insert, lemma_sum_is_pair_count, map_counts, same_label,
    sum_choose2, sum_pair_totals, CellCounts, LabelCounts,
};
use vstd::prelude::*;
use vstd::set_lib::{lemma_set_empty_equivalency_len, lemma_subset_equality};

verus! {

/// The cell of node `x`: its community in `a` and its community in `b`, a
/// missing node standing in community `0`.
pub open spec fn cell_label(a: Map<u64, usize>, b: Map<u64, usize>) -> spec_fn(u64) -> (usize, usize) {
    |x: u64| (label_or_zero(a, x), label_or_zero(b, x))
}

/// The community of node `x` in `p`, a missing node standing in community `0`.
pub open spec fn label_of(p: Map<u64, usize>) -> spec_fn(u64) -> usize {
    |x: u64| label_or_zero(p, x)
}

/// The pairs of nodes of `a` that share a cell.
pub open spec fn same_cell_pairs(a: Map<u64, usize>, b: Map<u64, usize>) -> Set<(u64, u64)> {
    pairs_where(a.dom(), same_label(cell_label(a, b)))
}

/// The pairs of nodes of `a` that `p` puts in one community.
pub open spec fn same_label_pairs(a: Map<u64, usize>, p: Map<u64, usize>) -> Set<(u64, u64)> {
    pairs_where(a.dom(), same_label(label_of(p)))
}

/// The contingency table of two partitions over the nodes of the first:
/// how many nodes fall in each cell `(community in a, community in b)`, in
/// each community of `a` (rows) and in each community of `b` (columns).
pub struct ContingencyTable {
    /// The number of nodes.
    pub nodes: u64,
    /// One entry per occupied cell, with the number of nodes in it.
    pub cells: Vec<((usize, usize), u64)>,
    /// One entry per community of `a`, with its number of nodes.
    pub rows: Vec<(usize, u64)>,
    /// One entry per community of `b` among the nodes of `a`, with its number of nodes.
    pub cols: Vec<(usize, u64)>,
}

/// Builds the contingency table of `partition_a` against `partition_b` over
/// the nodes of `partition_a`; a node that `partition_b` does not hold goes
/// to its community `0`. Besides the counts, the table's sums of "count
/// choose 2" are the numbers of node pairs that share a cell, a row or a
/// column.
pub fn contingency_table(partition_a: &Partition, partition_b: &Partition) -> (t: ContingencyTable)
    ensures
        partition_a@.dom().finite(),
        t.nodes == partition_a@.dom().len(),
        counts_of(t.cells@, partition_a@.dom(), cell_label(partition_a@, partition_b@)),
        counts_of(t.rows@, partition_a@.dom(), label_of(partition_a@)),
        counts_of(t.cols@, partition_a@.dom(), label_of(partition_b@)),
        sum_pair_totals(t.cells@) == same_cell_pairs(partition_a@, partition_b@).len(),
        sum_pair_totals(t.rows@) == same_label_pairs(partition_a@, partition_a@).len(),
        sum_pair_totals(t.cols@) == same_label_pairs(partition_a@, partition_b@).len(),
{
    let nodes = partition_a.nodes();
    tabulate(partition_a, partition_b, &nodes)
}

/// The contingency table over `nodes`, the nodes of `partition_a`.
fn tabulate(partition_a: &Partition, partition_b: &Partition, nodes: &Vec<u64>) -> (t: ContingencyTable)
    requires
        nodes@.no_duplicates(),
        nodes@.to_set() == partition_a@.dom(),
        partition_a@.dom().finite(),
        nodes@.len() == partition_a@.dom().len(),
    ensures
        partition_a@.dom().finite(),
        t.nodes == partition_a@.dom().len(),
        counts_of(t.cells@, partition_a@.dom(), cell_label(partition_a@, partition_b@)),
        counts_of(t.rows@, partition_a@.dom(), label_of(partition_a@)),
        counts_of(t.cols@, partition_a@.dom(), label_of(partition_b@)),
        sum_pair_totals(t.cells@) == same_cell_pairs(partition_a@, partition_b@).len(),
        sum_pair_totals(t.rows@) == same_label_pairs(partition_a@, partition_a@).len(),
        sum_pair_totals(t.cols@) == same_label_pairs(partition_a@, partition_b@).len(),
{
    let ghost a = partition_a@;
    let ghost b = partition_b@;
    let n = nodes.len();
    let mut cells = CellCounts::new();
    let mut rows = LabelCounts::new();
    let mut cols = LabelCounts::new();
    proof {
        lemma_first_nodes_ends(nodes@, 0);
    }
    for i in 0..n
        invariant
            n == nodes@.len(),
            nodes@.no_duplicates(),
            nodes@.to_set() == a.dom(),
            a.dom().len() == n,
            a == partition_a@,
            b == partition_b@,
            map_counts(cell_counts_contents(cells), first_nodes(nodes@, i as int), cell_label(a, b)),
            map_counts(label_counts_contents(rows), first_nodes(nodes@, i as int), label_of(a)),
            map_counts(label_counts_contents(cols), first_nodes(nodes@, i as int), label_of(b)),
    {
        let node = nodes[i];
        let ghost done = first_nodes(nodes@, i as int);
        proof {
            lemma_first_nodes_step(nodes@, i as int);
            nodes@.take(i as int).lemma_cardinality_of_set();
            lemma_map_counts_insert(cell_counts_contents(cells), done, node, cell_label(a, b));
            lemma_map_counts_insert(label_counts_contents(rows), done, node, label_of(a));
            lemma_map_counts_insert(label_counts_contents(cols), done, node, label_of(b));
        }
        let row = partition_a.community_of(node).unwrap_or(0);
        let col = partition_b.community_of(node).unwrap_or(0);
        let in_cell = cells.get((row, col)).unwrap_or(0);
        cells.set((row, col), in_cell + 1);
        let in_row = rows.get(row).unwrap_or(0);
        rows.set(row, in_row + 1);
        let in_col = cols.get(col).unwrap_or(0);
        cols.set(col, in_col + 1);
    }
    let cell_list = cells.entries();
    let row_list = rows.entries();
    let col_list = cols.entries();
    proof {
        lemma_first_nodes_ends(nodes@, n as int);
        lemma_listed_counts(cell_list@, cell_counts_contents(cells), a.dom(), cell_label(a, b));
        lemma_listed_counts(row_list@, label_counts_contents(rows), a.dom(), label_of(a));
        lemma_listed_counts(col_list@, label_counts_contents(cols), a.dom(), label_of(b));
        lemma_sum_is_pair_count(cell_list@, a.dom(), cell_label(a, b));
        lemma_sum_is_pair_count(row_list@, a.dom(), label_of(a));
        lemma_sum_is_pair_count(col_list@, a.dom(), label_of(b));
    }
    ContingencyTable { nodes: n as u64, cells: cell_list, rows: row_list, cols: col_list }
}

/// A fraction `num / den` with `den > 0`, the exact value of a metric that
/// can be negative.
pub struct SignedRatio {
    pub num: i128,
    pub den: i128,
}

/// `2 T S - 2 A B`, where `S`, `A`, `B` and `T` count the node pairs that
/// share a cell, a row, a column, and all node pairs.
pub open spec fn ari_numerator(s: int, x: int, y: int, t: int) -> int {
    2 * t * s - 2 * x * y
}

/// `T (A + B) - 2 A B`. The adjusted Rand index
/// `(S - A B / T) / ((A + B) / 2 - A B / T)` is the numerator over this,
/// both sides multiplied by `2 T`.
pub open spec fn ari_denominator(x: int, y: int, t: int) -> int {
    t * (x + y) - 2 * x * y
}

/// How the four pair counts of two partitions stand to each other: the
/// pairs sharing a cell are those sharing both a row and a column, and all
/// are among the `n` choose 2 pairs.
pub proof fn lemma_pair_counts_order(a: Map<u64, usize>, b: Map<u64, usize>)
    requires
        a.dom().finite(),
    ensures
        same_cell_pairs(a, b).len() <= same_label_pairs(a, a).len(),
        same_cell_pairs(a, b).len() <= same_label_pairs(a, b).len(),
        same_label_pairs(a, a).len() <= pair_total(a.dom().len() as int),
        same_label_pairs(a, b).len() <= pair_total(a.dom().len() as int),
        same_label_pairs(a, a).len() + same_label_pairs(a, b).len() - same_cell_pairs(a, b).len()
            <= pair_total(a.dom().len() as int),
{
    let nodes = a.dom();
    let cell = same_label(cell_label(a, b));
    let row = same_label(label_of(a));
    let col = same_label(label_of(b));
    assert(symmetric(cell));
    assert(symmetric(row));
    assert(symmetric(col));
    assert(symmetric(any_pair()));
    lemma_pairs_len_eq_iff(nodes, row, cell);
    lemma_pairs_len_eq_iff(nodes, col, cell);
    lemma_pairs_len_eq_iff(nodes, any_pair(), row);
    lemma_pairs_len_eq_iff(nodes, any_pair(), col);
    lemma_all_pairs_len(nodes);
    lemma_pairs_finite(nodes, row);
    lemma_pairs_finite(nodes, col);
    let r = pairs_where(nodes, row);
    let c = pairs_where(nodes, col);
    assert(r.intersect(c) =~= pairs_where(nodes, cell));
    vstd::set_lib::lemma_set_intersect_union_lens(r, c);
    vstd::set_lib::lemma_len_subset(r + c, pairs_where(nodes, any_pair()));
}

/// With the counts ordered as they are, the fraction lies in `[-1, 1]` and
/// its denominator is not negative.
pub proof fn lemma_ari_bounds(s: int, x: int, y: int, t: int)
    requires
        0 <= s <= x <= t,
        s <= y <= t,
        x + y - s <= t,
    ensures
        ari_denominator(x, y, t) >= 0,
        ari_numerator(s, x, y, t) <= ari_denominator(x, y, t),
        -ari_denominator(x, y, t) <= ari_numerator(s, x, y, t),
{
    assert(x * (t - y) >= 0) by (nonlinear_arith)
        requires
            x >= 0,
            t - y >= 0,
    ;
    assert(y * (t - x) >= 0) by (nonlinear_arith)
        requires
            y >= 0,
            t - x >= 0,
    ;
    assert(ari_denominator(x, y, t) == x * (t - y) + y * (t - x)) by (nonlinear_arith);
    assert(t * (x + y - 2 * s) >= 0) by (nonlinear_arith)
        requires
            t >= 0,
            x + y - 2 * s >= 0,
    ;
    assert(ari_denominator(x, y, t) - ari_numerator(s, x, y, t) == t * (x + y - 2 * s))
        by (nonlinear_arith);
    let u = x + y - s;
    let w = x + y + 2 * s;
    assert(t * w >= u * w) by (nonlinear_arith)
        requires
            t >= u,
            w >= 0,
    ;
    assert(u * w == (x - y) * (x - y) + 4 * x * y + s * (x - s) + s * (y - s)) by (nonlinear_arith)
        requires
            u == x + y - s,
            w == x + y + 2 * s,
    ;
    assert((x - y) * (x - y) >= 0) by (nonlinear_arith);
    assert(s * (x - s) >= 0) by (nonlinear_arith)
        requires
            s >= 0,
            x - s >= 0,
    ;
    assert(s * (y - s) >= 0) by (nonlinear_arith)
        requires
            s >= 0,
            y - s >= 0,
    ;
    assert(ari_numerator(s, x, y, t) + ari_denominator(x, y, t) == t * w - 4 * x * y)
        by (nonlinear_arith)
        requires
            w == x + y + 2 * s,
    ;
}

/// The exact adjusted Rand index of `a` against `b`, as `(numerator,
/// denominator)`: 1 where there are fewer than two nodes or where the
/// denominator vanishes (both partitions put every pair together), and
/// `ari_numerator / ari_denominator` of the pair counts otherwise.
pub open spec fn adjusted_rand_fraction(a: Map<u64, usize>, b: Map<u64, usize>) -> (int, int) {
    let n = a.dom().len() as int;
    let s = same_cell_pairs(a, b).len() as int;
    let x = same_label_pairs(a, a).len() as int;
    let y = same_label_pairs(a, b).len() as int;
    let t = pair_total(n);
    if n < 2 || ari_denominator(x, y, t) == 0 {
        (1, 1)
    } else {
        (ari_numerator(s, x, y, t), ari_denominator(x, y, t))
    }
}

/// Each count `c` of a table over `n` nodes has `c (c - 1)` at most `n (n - 1)`.
proof fn lemma_count_products<K>(entries: Seq<(K, u64)>, nodes: Set<u64>, lab: spec_fn(u64) -> K)
    requires
        nodes.finite(),
        counts_of(entries, nodes, lab),
        nodes.len() * (nodes.len() - 1) <= u64::MAX,
    ensures
        forall|i: int|
            0 <= i < entries.len() ==> #[trigger] entries[i].1 * (entries[i].1 - 1) <= u64::MAX,
{
    lemma_counts_bounded(entries, nodes, lab);
    let n = nodes.len() as int;
    assert forall|i: int| 0 <= i < entries.len() implies #[trigger] entries[i].1 * (entries[i].1 - 1)
        <= u64::MAX by {
        let c = entries[i].1 as int;
        assert(c * (c - 1) <= n * (n - 1)) by (nonlinear_arith)
            requires
                1 <= c <= n,
        ;
    }
}

/// The adjusted Rand index of two partitions, exactly: the Rand index
/// corrected for the agreement that chance alone would give, computed from
/// the contingency table. It is 1 for identical partitions, near 0 for
/// unrelated ones, and never outside `[-1, 1]`; with fewer than two nodes,
/// or where both partitions put every pair together, it is 1.
pub fn adjusted_rand_index(partition_a: &Partition, partition_b: &Partition) -> (r: SignedRatio)
    requires
        partition_a@.dom().len() * (partition_a@.dom().len() - 1) <= u64::MAX,
    ensures
        r.num == adjusted_rand_fraction(partition_a@, partition_b@).0,
        r.den == adjusted_rand_fraction(partition_a@, partition_b@).1,
        r.den > 0,
        -r.den <= r.num <= r.den,
        (r.num == r.den) <==> same_grouping(partition_a@, partition_b@),
{
    let ghost a = partition_a@;
    let ghost b = partition_b@;
    let nodes = partition_a.nodes();
    let n = nodes.len();
    proof {
        lemma_adjusted_rand_one_iff(a, b);
    }
    if n < 2 {
        return SignedRatio { num: 1, den: 1 };
    }
    let table = tabulate(partition_a, partition_b, &nodes);
    let ghost nn = n as int;
    proof {
        lemma_pair_counts_order(a, b);
        lemma_all_pairs_len(a.dom());
        lemma_count_products(table.cells@, a.dom(), cell_label(a, b));
        lemma_count_products(table.rows@, a.dom(), label_of(a));
        lemma_count_products(table.cols@, a.dom(), label_of(b));
        assert(pair_total(nn) <= u64::MAX);
    }
    let sum_comb_nij = sum_choose2(&table.cells);
    let sum_comb_a = sum_choose2(&table.rows);
    let sum_comb_b = sum_choose2(&table.cols);
    let total_comb = choose2(table.nodes);
    if total_comb == 0 {
        proof {
            lemma_pair_total_mono(2, nn);
            lemma_pair_total_step(1);
        }
        return SignedRatio { num: 1, den: 1 };
    }
    let s = sum_comb_nij as i128;
    let x = sum_comb_a as i128;
    let y = sum_comb_b as i128;
    let t = total_comb as i128;
    proof {
        lemma_ari_bounds(s as int, x as int, y as int, t as int);
        assert(t <= 0x7fff_ffff_ffff_ffff);
        assert(2 * t * s <= 2 * (t * t) && 2 * x * y <= 2 * (t * t) && t * (x + y) <= 2 * (t * t)
            && 0 <= 2 * t * s && 0 <= 2 * x * y && 0 <= t * (x + y)) by (nonlinear_arith)
            requires
                0 <= s <= t,
                0 <= x <= t,
                0 <= y <= t,
        ;
        assert(t * t <= 0x7fff_ffff_ffff_ffff * 0x7fff_ffff_ffff_ffff) by (nonlinear_arith)
            requires
                0 <= t <= 0x7fff_ffff_ffff_ffff,
        ;
    }
    let chance = 2 * x * y;
    let den = t * (x + y) - chance;
    if den == 0 {
        return SignedRatio { num: 1, den: 1 };
    }
    SignedRatio { num: 2 * t * s - chance, den }
}

/// `a` and `b` group the nodes of `a` alike: any two of them share a
/// community in `a` exactly when they share one in `b` (a missing node
/// standing in community `0`).
pub open spec fn same_grouping(a: Map<u64, usize>, b: Map<u64, usize>) -> bool {
    forall|x: u64, y: u64|
        a.dom().contains(x) && a.dom().contains(y) && x != y ==> ((#[trigger] label_or_zero(a, x)
            == #[trigger] label_or_zero(a, y)) == (label_or_zero(b, x) == label_or_zero(b, y)))
}

/// The adjusted Rand index is 1 exactly when the two partitions group the
/// nodes alike.
pub proof fn lemma_adjusted_rand_one_iff(a: Map<u64, usize>, b: Map<u64, usize>)
    requires
        a.dom().finite(),
    ensures
        (adjusted_rand_fraction(a, b).0 == adjusted_rand_fraction(a, b).1) <==> same_grouping(a, b),
{
    let nodes = a.dom();
    let row = same_label(label_of(a));
    let col = same_label(label_of(b));
    let cell = same_label(cell_label(a, b));
    let rs = pairs_where(nodes, row);
    let cs = pairs_where(nodes, col);
    let ss = pairs_where(nodes, cell);
    let all = pairs_where(nodes, any_pair());
    let n = nodes.len() as int;
    let s = ss.len() as int;
    let x = rs.len() as int;
    let y = cs.len() as int;
    let t = pair_total(n);
    assert(symmetric(row));
    assert(symmetric(col));
    assert(symmetric(cell));
    assert(symmetric(any_pair()));
    lemma_pair_counts_order(a, b);
    lemma_pairs_len_eq_iff(nodes, row, cell);
    lemma_pairs_len_eq_iff(nodes, col, cell);
    lemma_pairs_len_eq_iff(nodes, any_pair(), row);
    lemma_pairs_len_eq_iff(nodes, any_pair(), col);
    lemma_all_pairs_len(nodes);
    lemma_pairs_finite(nodes, row);
    lemma_pairs_finite(nodes, col);
    lemma_pairs_finite(nodes, cell);
    assert(rs.intersect(cs) =~= ss);
    lemma_ari_bounds(s, x, y, t);
    // Grouping alike is the same as the row pairs being the column pairs.
    if same_grouping(a, b) {
        assert(rs =~= cs);
    }
    if rs == cs {
        assert forall|u: u64, v: u64| nodes.contains(u) && nodes.contains(v) && u != v implies ((
        #[trigger] label_or_zero(a, u) == #[trigger] label_or_zero(a, v)) == (label_or_zero(b, u)
            == label_or_zero(b, v))) by {
            assert(rs.contains(ordered_pair(u, v)) == cs.contains(ordered_pair(u, v)));
        }
    }
    // Each way round, through the counts.
    if rs == cs {
        assert(ss =~= rs);
        assert(ari_numerator(x, x, x, t) == ari_denominator(x, x, t)) by (nonlinear_arith);
    }
    if adjusted_rand_fraction(a, b).0 == adjusted_rand_fraction(a, b).1 {
        if n < 2 {
            assert(t == 0) by (nonlinear_arith)
                requires
                    0 <= n < 2,
                    t == n * (n - 1) / 2,
            ;
            lemma_set_empty_equivalency_len(rs);
            lemma_set_empty_equivalency_len(cs);
            assert(rs =~= cs);
        } else {
            lemma_pair_total_mono(2, n);
            lemma_pair_total_step(1);
            lemma_pair_total_step(0);
            if ari_denominator(x, y, t) == 0 {
                assert(x * (t - y) >= 0 && y * (t - x) >= 0) by (nonlinear_arith)
                    requires
                        0 <= x <= t,
                        0 <= y <= t,
                ;
                assert(ari_denominator(x, y, t) == x * (t - y) + y * (t - x)) by (nonlinear_arith);
                assert((x == 0 && y == 0) || (x == t && y == t)) by (nonlinear_arith)
                    requires
                        x * (t - y) == 0,
                        y * (t - x) == 0,
                        0 <= x <= t,
                        0 <= y <= t,
                        t >= 1,
                ;
                if x == 0 {
                    lemma_set_empty_equivalency_len(rs);
                    lemma_set_empty_equivalency_len(cs);
                    assert(rs =~= cs);
                } else {
                    lemma_subset_equality(rs, all);
                    lemma_subset_equality(cs, all);
                }
            } else {
                assert(ari_denominator(x, y, t) - ari_numerator(s, x, y, t) == t * (x + y - 2 * s))
                    by (nonlinear_arith);
                assert(x + y - 2 * s == 0) by (nonlinear_arith)
                    requires
                        t * (x + y - 2 * s) == 0,
                        t >= 1,
                ;
                lemma_subset_equality(ss, rs);
                lemma_subset_equality(ss, cs);
            }
        }
    }
}

} // verus!
