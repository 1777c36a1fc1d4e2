use grafeo_metrics::contingency::{adjusted_rand_index, contingency_table, ContingencyTable, SignedRatio};
use grafeo_metrics::pair_metrics::{pairwise_precision, pairwise_recall, rand_index, Ratio};
use grafeo_metrics::partition::Partition;

/// Builds a partition from pairs of (node id, community).
fn partition(pairs: &[(u64, usize)]) -> Partition {
    Partition::from_pairs(&pairs.to_vec())
}

fn value(r: &Ratio) -> f64 {
    r.num as f64 / r.den as f64
}

fn signed_value(r: &SignedRatio) -> f64 {
    r.num as f64 / r.den as f64
}

fn count_of<K: PartialEq + Copy>(entries: &[(K, u64)], key: K) -> u64 {
    entries.iter().find(|e| e.0 == key).map(|e| e.1).unwrap_or(0)
}

/// Normalized mutual information from a contingency table, in floating point.
fn nmi(table: &ContingencyTable) -> f64 {
    let n = table.nodes;
    if n == 0 {
        return 1.0;
    }
    let n_f = n as f64;
    let mut mi = 0.0f64;
    for &((a, b), n_ij) in &table.cells {
        let a_i = count_of(&table.rows, a) as f64;
        let b_j = count_of(&table.cols, b) as f64;
        let n_ij_f = n_ij as f64;
        mi += (n_ij_f / n_f) * (n_f * n_ij_f / (a_i * b_j)).ln();
    }
    let entropy = |entries: &Vec<(usize, u64)>| -> f64 {
        entries
            .iter()
            .map(|&(_, c)| {
                let p = c as f64 / n_f;
                if p > 0.0 { -p * p.ln() } else { 0.0 }
            })
            .sum()
    };
    let h_a = entropy(&table.rows);
    let h_b = entropy(&table.cols);
    let denom = (h_a + h_b) / 2.0;
    if denom < 1e-15 {
        return 1.0;
    }
    mi / denom
}

#[test]
fn test_rand_index_identical() {
    let a = partition(&[(0, 0), (1, 0), (2, 1), (3, 1)]);
    let b = partition(&[(0, 0), (1, 0), (2, 1), (3, 1)]);
    let ri = value(&rand_index(&a, &b));
    assert!((ri - 1.0).abs() < 1e-10, "Identical partitions should give RI=1.0, got {ri}");
}

#[test]
fn test_rand_index_different() {
    let a = partition(&[(0, 0), (1, 0), (2, 0), (3, 0)]);
    let b = partition(&[(0, 0), (1, 1), (2, 2), (3, 3)]);
    let ri = value(&rand_index(&a, &b));
    assert!((ri).abs() < 1e-10, "Maximally different should give RI=0.0, got {ri}");
}

#[test]
fn test_adjusted_rand_index_identical() {
    let a = partition(&[(0, 0), (1, 0), (2, 1), (3, 1)]);
    let b = partition(&[(0, 0), (1, 0), (2, 1), (3, 1)]);
    let ari = signed_value(&adjusted_rand_index(&a, &b));
    assert!((ari - 1.0).abs() < 1e-10, "Identical partitions should give ARI=1.0, got {ari}");
}

#[test]
fn test_adjusted_rand_index_random() {
    let a = partition(&[(0, 0), (1, 0), (2, 1), (3, 1), (4, 2), (5, 2)]);
    let b = partition(&[(0, 0), (1, 1), (2, 1), (3, 2), (4, 2), (5, 0)]);
    let ari = signed_value(&adjusted_rand_index(&a, &b));
    assert!(ari < 0.5, "Shifted partitions should have low ARI, got {ari}");
}

#[test]
fn test_nmi_identical() {
    let a = partition(&[(0, 0), (1, 0), (2, 1), (3, 1)]);
    let b = partition(&[(0, 0), (1, 0), (2, 1), (3, 1)]);
    let nmi = nmi(&contingency_table(&a, &b));
    assert!((nmi - 1.0).abs() < 1e-10, "Identical partitions should give NMI=1.0, got {nmi}");
}

#[test]
fn test_nmi_all_one_cluster() {
    let a = partition(&[(0, 0), (1, 0), (2, 0)]);
    let b = partition(&[(0, 0), (1, 0), (2, 0)]);
    let nmi = nmi(&contingency_table(&a, &b));
    assert!(
        (nmi - 1.0).abs() < 1e-10,
        "Identical single-cluster partitions should give NMI=1.0, got {nmi}"
    );
}

#[test]
fn test_pairwise_precision_perfect() {
    let predicted = partition(&[(0, 0), (1, 0), (2, 1), (3, 1)]);
    let truth = partition(&[(0, 0), (1, 0), (2, 1), (3, 1)]);
    let prec = value(&pairwise_precision(&predicted, &truth));
    assert!((prec - 1.0).abs() < 1e-10, "Perfect prediction should give precision=1.0, got {prec}");
}

#[test]
fn test_pairwise_recall_perfect() {
    let predicted = partition(&[(0, 0), (1, 0), (2, 1), (3, 1)]);
    let truth = partition(&[(0, 0), (1, 0), (2, 1), (3, 1)]);
    let rec = value(&pairwise_recall(&predicted, &truth));
    assert!((rec - 1.0).abs() < 1e-10, "Perfect prediction should give recall=1.0, got {rec}");
}

#[test]
fn test_pairwise_precision_refinement() {
    let predicted = partition(&[(0, 0), (1, 1), (2, 2), (3, 3)]);
    let truth = partition(&[(0, 0), (1, 0), (2, 1), (3, 1)]);
    let prec = value(&pairwise_precision(&predicted, &truth));
    assert!((prec - 1.0).abs() < 1e-10, "Singleton prediction should give precision=1.0, got {prec}");
}

#[test]
fn test_pairwise_recall_refinement() {
    let predicted = partition(&[(0, 0), (1, 1), (2, 2), (3, 3)]);
    let truth = partition(&[(0, 0), (1, 0), (2, 1), (3, 1)]);
    let rec = value(&pairwise_recall(&predicted, &truth));
    assert!(rec.abs() < 1e-10, "Singleton prediction should give recall=0.0, got {rec}");
}

#[test]
fn test_metrics_different_block_counts() {
    let a = partition(&[(0, 0), (1, 0), (2, 0), (3, 1), (4, 1), (5, 1)]);
    let b = partition(&[(0, 0), (1, 0), (2, 1), (3, 1), (4, 2), (5, 2)]);

    let ri = value(&rand_index(&a, &b));
    let ari = signed_value(&adjusted_rand_index(&a, &b));
    let nmi = nmi(&contingency_table(&a, &b));

    assert!((0.0..=1.0).contains(&ri), "RI out of bounds: {ri}");
    assert!((-1.0..=1.0).contains(&ari), "ARI out of bounds: {ari}");
    assert!((0.0..=1.0).contains(&nmi), "NMI out of bounds: {nmi}");
}

#[test]
fn test_empty_partition() {
    let a = partition(&[]);
    let b = partition(&[]);

    assert!((value(&rand_index(&a, &b)) - 1.0).abs() < 1e-10);
    assert!((signed_value(&adjusted_rand_index(&a, &b)) - 1.0).abs() < 1e-10);
    assert!((nmi(&contingency_table(&a, &b)) - 1.0).abs() < 1e-10);
    assert!((value(&pairwise_precision(&a, &b)) - 1.0).abs() < 1e-10);
    assert!((value(&pairwise_recall(&a, &b)) - 1.0).abs() < 1e-10);
}

#[test]
fn test_single_node() {
    let a = partition(&[(0, 0)]);
    let b = partition(&[(0, 0)]);

    assert!((value(&rand_index(&a, &b)) - 1.0).abs() < 1e-10);
    assert!((signed_value(&adjusted_rand_index(&a, &b)) - 1.0).abs() < 1e-10);
}
