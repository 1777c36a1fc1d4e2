use grafeo_metrics::contingency::{adjusted_rand_index, contingency_table};
use grafeo_metrics::pair_metrics::{pairwise_precision, pairwise_recall, rand_index};
use grafeo_metrics::partition::Partition;

fn partition(pairs: &[(u64, usize)]) -> Partition {
    Partition::from_pairs(&pairs.to_vec())
}

fn count_of<K: PartialEq + Copy>(entries: &[(K, u64)], key: K) -> u64 {
    entries.iter().find(|e| e.0 == key).map(|e| e.1).unwrap_or(0)
}

#[test]
fn rand_index_counts_agreeing_pairs() {
    let a = partition(&[(0, 0), (1, 0), (2, 0), (3, 1), (4, 1), (5, 1)]);
    let b = partition(&[(0, 0), (1, 0), (2, 1), (3, 1), (4, 2), (5, 2)]);
    let r = rand_index(&a, &b);
    assert_eq!((r.num, r.den), (10, 15));
}

#[test]
fn rand_index_of_shifted_partitions() {
    let a = partition(&[(0, 0), (1, 0), (2, 1), (3, 1), (4, 2), (5, 2)]);
    let b = partition(&[(0, 0), (1, 1), (2, 1), (3, 2), (4, 2), (5, 0)]);
    let r = rand_index(&a, &b);
    assert_eq!((r.num, r.den), (9, 15));
}

#[test]
fn rand_index_treats_missing_nodes_as_together() {
    // b holds only node 0: nodes 1 and 2 are both missing there, hence together.
    let a = partition(&[(0, 0), (1, 0), (2, 1)]);
    let b = partition(&[(0, 5)]);
    let r = rand_index(&a, &b);
    assert_eq!((r.num, r.den), (1, 3));
}

#[test]
fn rand_index_is_symmetric_on_same_nodes() {
    let a = partition(&[(0, 0), (1, 0), (2, 1), (3, 1), (4, 2)]);
    let b = partition(&[(0, 3), (1, 4), (2, 4), (3, 4), (4, 3)]);
    let ab = rand_index(&a, &b);
    let ba = rand_index(&b, &a);
    assert_eq!((ab.num, ab.den), (ba.num, ba.den));
}

#[test]
fn rand_index_is_one_for_relabelled_partition() {
    let a = partition(&[(0, 0), (1, 0), (2, 1), (3, 1)]);
    let b = partition(&[(0, 7), (1, 7), (2, 3), (3, 3)]);
    let r = rand_index(&a, &b);
    assert_eq!(r.num, r.den);
}

#[test]
fn adjusted_rand_index_exact_value() {
    let a = partition(&[(0, 0), (1, 0), (2, 0), (3, 1), (4, 1), (5, 1)]);
    let b = partition(&[(0, 0), (1, 0), (2, 1), (3, 1), (4, 2), (5, 2)]);
    let r = adjusted_rand_index(&a, &b);
    // S = 2, A = 6, B = 3, T = 15: (2*15*2 - 2*6*3) / (15*9 - 2*6*3)
    assert_eq!((r.num, r.den), (24, 99));
}

#[test]
fn adjusted_rand_index_can_be_negative() {
    let a = partition(&[(0, 0), (1, 0), (2, 1), (3, 1), (4, 2), (5, 2)]);
    let b = partition(&[(0, 0), (1, 1), (2, 1), (3, 2), (4, 2), (5, 0)]);
    let r = adjusted_rand_index(&a, &b);
    assert_eq!((r.num, r.den), (-18, 72));
}

#[test]
fn adjusted_rand_index_puts_missing_nodes_in_community_zero() {
    let a = partition(&[(0, 0), (1, 0), (2, 1)]);
    let b = partition(&[(0, 5)]);
    let r = adjusted_rand_index(&a, &b);
    // cells (0,5), (0,0), (1,0): S = 0, A = 1, B = 1, T = 3
    assert_eq!((r.num, r.den), (-2, 4));
}

#[test]
fn adjusted_rand_index_of_one_cluster_each_is_one() {
    let a = partition(&[(0, 2), (1, 2), (2, 2)]);
    let b = partition(&[(0, 9), (1, 9), (2, 9)]);
    let r = adjusted_rand_index(&a, &b);
    assert_eq!((r.num, r.den), (1, 1));
}

#[test]
fn adjusted_rand_index_of_identical_is_one() {
    let a = partition(&[(0, 0), (1, 0), (2, 1), (3, 1), (4, 1), (5, 2)]);
    let r = adjusted_rand_index(&a, &a);
    assert_eq!(r.num, r.den);
}

#[test]
fn adjusted_rand_index_is_symmetric_on_same_nodes() {
    let a = partition(&[(0, 0), (1, 0), (2, 1), (3, 1), (4, 2)]);
    let b = partition(&[(0, 3), (1, 4), (2, 4), (3, 4), (4, 3)]);
    let ab = adjusted_rand_index(&a, &b);
    let ba = adjusted_rand_index(&b, &a);
    assert_eq!((ab.num, ab.den), (ba.num, ba.den));
}

#[test]
fn precision_of_coarser_prediction() {
    let predicted = partition(&[(0, 0), (1, 0), (2, 0), (3, 0)]);
    let truth = partition(&[(0, 0), (1, 0), (2, 1), (3, 1)]);
    let p = pairwise_precision(&predicted, &truth);
    assert_eq!((p.num, p.den), (2, 6));
    let r = pairwise_recall(&predicted, &truth);
    assert_eq!((r.num, r.den), (2, 2));
}

#[test]
fn recall_of_singleton_prediction_is_zero() {
    let predicted = partition(&[(0, 0), (1, 1), (2, 2), (3, 3)]);
    let truth = partition(&[(0, 0), (1, 0), (2, 1), (3, 1)]);
    let r = pairwise_recall(&predicted, &truth);
    assert_eq!((r.num, r.den), (0, 2));
    let p = pairwise_precision(&predicted, &truth);
    assert_eq!((p.num, p.den), (1, 1));
}

#[test]
fn precision_is_recall_with_roles_swapped() {
    let p = partition(&[(0, 0), (1, 0), (2, 0), (3, 1), (4, 1)]);
    let t = partition(&[(0, 0), (1, 0), (2, 1), (3, 1), (4, 1)]);
    let prec = pairwise_precision(&p, &t);
    let rec = pairwise_recall(&t, &p);
    assert_eq!((prec.num, prec.den), (rec.num, rec.den));
    assert_eq!((prec.num, prec.den), (2, 4));
}

#[test]
fn contingency_table_counts() {
    let a = partition(&[(0, 0), (1, 0), (2, 0), (3, 1), (4, 1), (5, 1)]);
    let b = partition(&[(0, 0), (1, 0), (2, 1), (3, 1), (4, 2), (5, 2)]);
    let t = contingency_table(&a, &b);
    assert_eq!(t.nodes, 6);
    assert_eq!(t.cells.len(), 4);
    assert_eq!(count_of(&t.cells, (0, 0)), 2);
    assert_eq!(count_of(&t.cells, (0, 1)), 1);
    assert_eq!(count_of(&t.cells, (1, 1)), 1);
    assert_eq!(count_of(&t.cells, (1, 2)), 2);
    assert_eq!(t.rows.len(), 2);
    assert_eq!(count_of(&t.rows, 0), 3);
    assert_eq!(count_of(&t.rows, 1), 3);
    assert_eq!(t.cols.len(), 3);
    assert_eq!(count_of(&t.cols, 0), 2);
    assert_eq!(count_of(&t.cols, 1), 2);
    assert_eq!(count_of(&t.cols, 2), 2);
}

#[test]
fn contingency_table_of_identical_is_diagonal() {
    let a = partition(&[(0, 4), (1, 4), (2, 1), (3, 7), (4, 7), (5, 7)]);
    let t = contingency_table(&a, &a);
    for &((x, y), c) in &t.cells {
        assert_eq!(x, y);
        assert_eq!(c, count_of(&t.rows, x));
        assert_eq!(c, count_of(&t.cols, y));
    }
    assert_eq!(t.cells.len(), 3);
}

#[test]
fn contingency_table_missing_node_goes_to_zero() {
    let a = partition(&[(0, 3), (1, 3)]);
    let b = partition(&[(0, 6)]);
    let t = contingency_table(&a, &b);
    assert_eq!(count_of(&t.cells, (3, 6)), 1);
    assert_eq!(count_of(&t.cells, (3, 0)), 1);
    assert_eq!(count_of(&t.cols, 0), 1);
}

#[test]
fn partition_later_pair_replaces_earlier() {
    let p = partition(&[(1, 0), (2, 5), (1, 3)]);
    assert_eq!(p.node_count(), 2);
    assert_eq!(p.community_of(1), Some(3));
    assert_eq!(p.community_of(2), Some(5));
    assert_eq!(p.community_of(9), None);
    let mut nodes = p.nodes();
    nodes.sort();
    assert_eq!(nodes, vec![1, 2]);
}

#[test]
fn two_nodes_minimum_for_pair_metrics() {
    let a = partition(&[(0, 0), (1, 1)]);
    let b = partition(&[(0, 0), (1, 0)]);
    let r = rand_index(&a, &b);
    assert_eq!((r.num, r.den), (0, 1));
    let p = pairwise_precision(&b, &a);
    assert_eq!((p.num, p.den), (0, 1));
}

fn choose2(c: u64) -> u64 {
    c * c.saturating_sub(1) / 2
}

#[test]
fn rand_index_matches_contingency_counts() {
    let a = partition(&[(0, 0), (1, 0), (2, 1), (3, 1), (4, 1), (5, 2), (6, 2)]);
    let b = partition(&[(0, 1), (1, 1), (2, 1), (3, 0), (4, 0), (5, 0), (6, 4)]);
    let t = contingency_table(&a, &b);
    let s: u64 = t.cells.iter().map(|e| choose2(e.1)).sum();
    let x: u64 = t.rows.iter().map(|e| choose2(e.1)).sum();
    let y: u64 = t.cols.iter().map(|e| choose2(e.1)).sum();
    let all = choose2(t.nodes);
    let r = rand_index(&a, &b);
    assert_eq!(r.num, all + 2 * s - x - y);
    assert_eq!(r.den, all);
}

#[test]
fn rand_index_of_identical_is_one() {
    let a = partition(&[(0, 3), (1, 1), (2, 3), (3, 2), (4, 1)]);
    let r = rand_index(&a, &a);
    assert_eq!((r.num, r.den), (10, 10));
}

#[test]
fn adjusted_rand_index_is_one_for_relabelled_partition() {
    let a = partition(&[(0, 0), (1, 0), (2, 1), (3, 1), (4, 2)]);
    let b = partition(&[(0, 5), (1, 5), (2, 8), (3, 8), (4, 1)]);
    let r = adjusted_rand_index(&a, &b);
    assert_eq!(r.num, r.den);
}

#[test]
fn adjusted_rand_index_of_all_singletons_is_one() {
    let a = partition(&[(0, 0), (1, 1), (2, 2)]);
    let b = partition(&[(0, 4), (1, 5), (2, 6)]);
    let r = adjusted_rand_index(&a, &b);
    assert_eq!((r.num, r.den), (1, 1));
}

#[test]
fn contingency_rows_and_columns_sum_their_cells() {
    let a = partition(&[(0, 0), (1, 0), (2, 1), (3, 1), (4, 1), (5, 2), (6, 2), (7, 0)]);
    let b = partition(&[(0, 1), (1, 1), (2, 1), (3, 0), (4, 0), (5, 0), (6, 4)]);
    let t = contingency_table(&a, &b);
    for &(row, count) in &t.rows {
        let sum: u64 = t.cells.iter().filter(|e| (e.0).0 == row).map(|e| e.1).sum();
        assert_eq!(sum, count);
    }
    for &(col, count) in &t.cols {
        let sum: u64 = t.cells.iter().filter(|e| (e.0).1 == col).map(|e| e.1).sum();
        assert_eq!(sum, count);
    }
    let total: u64 = t.cells.iter().map(|e| e.1).sum();
    assert_eq!(total, t.nodes);
    assert_eq!(t.nodes, 8);
}

#[test]
fn rand_index_unchanged_by_renaming_communities() {
    let a = partition(&[(0, 0), (1, 0), (2, 1), (3, 2), (4, 2)]);
    let renamed = partition(&[(0, 9), (1, 9), (2, 4), (3, 0), (4, 0)]);
    let b = partition(&[(0, 1), (1, 2), (2, 2), (3, 2), (4, 1)]);
    let r1 = rand_index(&a, &b);
    let r2 = rand_index(&renamed, &b);
    let r3 = rand_index(&b, &renamed);
    let r4 = rand_index(&b, &a);
    assert_eq!((r1.num, r1.den), (r2.num, r2.den));
    assert_eq!((r3.num, r3.den), (r4.num, r4.den));
}

#[test]
fn rand_index_ignores_second_partition_outside_first() {
    let a = partition(&[(0, 0), (1, 0), (2, 1)]);
    let b = partition(&[(0, 1), (1, 2), (2, 2)]);
    let b_more = partition(&[(0, 1), (1, 2), (2, 2), (7, 1), (8, 2)]);
    let r1 = rand_index(&a, &b);
    let r2 = rand_index(&a, &b_more);
    assert_eq!((r1.num, r1.den), (r2.num, r2.den));
    assert_eq!((r1.num, r1.den), (1, 3));
}

#[test]
fn precision_not_lower_with_coarser_truth() {
    let predicted = partition(&[(0, 0), (1, 0), (2, 0), (3, 1), (4, 1)]);
    let truth = partition(&[(0, 0), (1, 1), (2, 1), (3, 2), (4, 3)]);
    let coarser = partition(&[(0, 0), (1, 0), (2, 0), (3, 2), (4, 3)]);
    let p1 = pairwise_precision(&predicted, &truth);
    let p2 = pairwise_precision(&predicted, &coarser);
    assert_eq!(p1.den, p2.den);
    assert!(p1.num <= p2.num);
    assert_eq!((p1.num, p1.den), (1, 4));
    assert_eq!((p2.num, p2.den), (3, 4));
}

#[test]
fn recall_not_lower_with_coarser_prediction() {
    let predicted = partition(&[(0, 0), (1, 1), (2, 1), (3, 2), (4, 3)]);
    let coarser = partition(&[(0, 0), (1, 0), (2, 0), (3, 2), (4, 2)]);
    let truth = partition(&[(0, 5), (1, 5), (2, 5), (3, 6), (4, 6)]);
    let r1 = pairwise_recall(&predicted, &truth);
    let r2 = pairwise_recall(&coarser, &truth);
    assert_eq!(r1.den, r2.den);
    assert!(r1.num <= r2.num);
    assert_eq!((r1.num, r1.den), (1, 4));
    assert_eq!((r2.num, r2.den), (4, 4));
}
