//! Counting nodes by label, in grafeo's hash maps, and what such counts say
//! about pairs of nodes.
use crate::pairs::{
    any_pair, lemma_all_pairs_len, lemma_pair_total_step, lemma_pairs_finite, pair_total,
    pairs_where, symmetric,
};
use grafeo_common::utils::hash::FxHashMap;
use vstd::prelude::*;

verus! {

/// How many of `nodes` carry the label `k`.
pub open spec fn label_count<K>(nodes: Set<u64>, lab: spec_fn(u64) -> K, k: K) -> nat {
    nodes.filter(|x: u64| lab(x) == k).len()
}

/// Two nodes carry one label.
pub open spec fn same_label<K>(lab: spec_fn(u64) -> K) -> spec_fn(u64, u64) -> bool {
    |u: u64, v: u64| lab(u) == lab(v)
}

/// `entries` lists each label that some node of `nodes` carries, once, with
/// the (positive) number of nodes that carry it.
pub open spec fn counts_of<K>(entries: Seq<(K, u64)>, nodes: Set<u64>, lab: spec_fn(u64) -> K) -> bool {
    &&& forall|i: int, j: int|
        0 <= i < j < entries.len() ==> #[trigger] entries[i].0 != #[trigger] entries[j].0
    &&& forall|i: int|
        0 <= i < entries.len() ==> #[trigger] entries[i].1 == label_count(nodes, lab, entries[i].0)
            && entries[i].1 > 0
    &&& forall|x: u64|
        nodes.contains(x) ==> exists|i: int| 0 <= i < entries.len() && #[trigger] entries[i].0 == lab(x)
}

/// The sum, over the entries, of their count choose 2.
pub open spec fn sum_pair_totals<K>(entries: Seq<(K, u64)>) -> int
    decreases entries.len(),
{
    if entries.len() == 0 {
        0
    } else {
        sum_pair_totals(entries.drop_last()) + pair_total(entries.last().1 as int)
    }
}

/// Adding a node changes the count of its own label by one and no other count.
pub proof fn lemma_label_count_insert<K>(nodes: Set<u64>, x: u64, lab: spec_fn(u64) -> K, k: K)
    requires
        nodes.finite(),
        !nodes.contains(x),
    ensures
        label_count(nodes, lab, k) <= nodes.len(),
        label_count(nodes.insert(x), lab, k) == label_count(nodes, lab, k) + (if lab(x) == k {
            1int
        } else {
            0int
        }),
{
    nodes.lemma_len_filter(|y: u64| lab(y) == k);
    if lab(x) == k {
        assert(nodes.insert(x).filter(|y: u64| lab(y) == k) =~= nodes.filter(|y: u64| lab(y) == k).insert(x));
    } else {
        assert(nodes.insert(x).filter(|y: u64| lab(y) == k) =~= nodes.filter(|y: u64| lab(y) == k));
    }
}

/// Two labellings that single out the same nodes give the same count.
pub proof fn lemma_label_count_same<K, L>(
    nodes: Set<u64>,
    lab1: spec_fn(u64) -> K,
    k1: K,
    lab2: spec_fn(u64) -> L,
    k2: L,
)
    requires
        forall|x: u64| nodes.contains(x) ==> ((lab1(x) == k1) <==> (lab2(x) == k2)),
    ensures
        label_count(nodes, lab1, k1) == label_count(nodes, lab2, k2),
{
    assert(nodes.filter(|y: u64| lab1(y) == k1) =~= nodes.filter(|y: u64| lab2(y) == k2));
}

/// Where no node carries the label, its count is 0.
pub proof fn lemma_label_count_none<K>(nodes: Set<u64>, lab: spec_fn(u64) -> K, k: K)
    requires
        forall|x: u64| nodes.contains(x) ==> lab(x) != k,
    ensures
        label_count(nodes, lab, k) == 0,
{
    assert(nodes.filter(|y: u64| lab(y) == k) =~= Set::empty());
}

/// Dropping the last entry of a complete tally leaves a complete tally of
/// the nodes whose label is not the last entry's.
proof fn lemma_counts_drop_last<K>(entries: Seq<(K, u64)>, nodes: Set<u64>, lab: spec_fn(u64) -> K)
    requires
        nodes.finite(),
        entries.len() > 0,
        counts_of(entries, nodes, lab),
    ensures
        nodes.filter(|y: u64| lab(y) != entries.last().0).finite(),
        counts_of(entries.drop_last(), nodes.filter(|y: u64| lab(y) != entries.last().0), lab),
{
    let last = entries.last();
    let front = entries.drop_last();
    let rest = nodes.filter(|y: u64| lab(y) != last.0);
    nodes.lemma_len_filter(|y: u64| lab(y) != last.0);
    assert forall|i: int| 0 <= i < front.len() implies #[trigger] front[i].1 == label_count(
        rest,
        lab,
        front[i].0,
    ) && front[i].1 > 0 by {
        assert(entries[i].0 != entries[entries.len() - 1].0);
        assert(rest.filter(|y: u64| lab(y) == front[i].0) =~= nodes.filter(
            |y: u64| lab(y) == front[i].0,
        ));
    }
    assert forall|y: u64| rest.contains(y) implies exists|i: int|
        0 <= i < front.len() && #[trigger] front[i].0 == lab(y) by {
        let k = choose|k: int| 0 <= k < entries.len() && #[trigger] entries[k].0 == lab(y);
        assert(front[k].0 == lab(y));
    }
    assert forall|i: int, j: int| 0 <= i < j < front.len() implies #[trigger] front[i].0
        != #[trigger] front[j].0 by {
        assert(entries[i].0 != entries[j].0);
    }
}

/// The grouping identity: over a complete tally, the counts' "choose 2" add
/// up to the number of pairs of nodes that carry one label.
pub proof fn lemma_sum_is_pair_count<K>(entries: Seq<(K, u64)>, nodes: Set<u64>, lab: spec_fn(u64) -> K)
    requires
        nodes.finite(),
        counts_of(entries, nodes, lab),
    ensures
        sum_pair_totals(entries) == pairs_where(nodes, same_label(lab)).len(),
    decreases entries.len(),
{
    let same = same_label(lab);
    assert(symmetric(same));
    lemma_pairs_finite(nodes, same);
    if entries.len() == 0 {
        assert forall|e: (u64, u64)| !#[trigger] pairs_where(nodes, same).contains(e) by {
            if nodes.contains(e.0) {
                let k = choose|k: int| 0 <= k < entries.len() && #[trigger] entries[k].0 == lab(e.0);
            }
        }
        assert(pairs_where(nodes, same) =~= Set::empty());
    } else {
        let last = entries.last();
        let rest = nodes.filter(|y: u64| lab(y) != last.0);
        let group = nodes.filter(|y: u64| lab(y) == last.0);
        lemma_counts_drop_last(entries, nodes, lab);
        lemma_sum_is_pair_count(entries.drop_last(), rest, lab);
        nodes.lemma_len_filter(|y: u64| lab(y) == last.0);
        lemma_all_pairs_len(group);
        lemma_pairs_finite(rest, same);
        let within = pairs_where(group, any_pair());
        let outside = pairs_where(rest, same);
        assert(pairs_where(nodes, same) =~= outside + within);
        assert(outside.disjoint(within));
        vstd::set_lib::lemma_set_disjoint_lens(outside, within);
        assert(last.1 == group.len());
    }
}

/// The sum of the counts of the entries whose label `proj` maps to `l`.
pub open spec fn marginal_sum<K, L>(entries: Seq<(K, u64)>, proj: spec_fn(K) -> L, l: L) -> int
    decreases entries.len(),
{
    if entries.len() == 0 {
        0
    } else {
        marginal_sum(entries.drop_last(), proj, l) + (if proj(entries.last().0) == l {
            entries.last().1 as int
        } else {
            0
        })
    }
}

/// Grouping the labels of a complete tally by `proj`: the counts of the
/// labels that `proj` maps to `l` add up to the number of nodes whose
/// label `proj` maps to `l`.
pub proof fn lemma_marginal_counts<K, L>(
    entries: Seq<(K, u64)>,
    nodes: Set<u64>,
    lab: spec_fn(u64) -> K,
    proj: spec_fn(K) -> L,
    l: L,
)
    requires
        nodes.finite(),
        counts_of(entries, nodes, lab),
    ensures
        marginal_sum(entries, proj, l) == label_count(nodes, |x: u64| proj(lab(x)), l),
    decreases entries.len(),
{
    let grouped = |x: u64| proj(lab(x));
    if entries.len() == 0 {
        let none = nodes.filter(|y: u64| grouped(y) == l);
        assert forall|y: u64| !#[trigger] none.contains(y) by {
            if nodes.contains(y) {
                let k = choose|k: int| 0 <= k < entries.len() && #[trigger] entries[k].0 == lab(y);
            }
        }
        assert(none =~= Set::empty());
    } else {
        let last = entries.last();
        let front = entries.drop_last();
        let rest = nodes.filter(|y: u64| lab(y) != last.0);
        lemma_counts_drop_last(entries, nodes, lab);
        lemma_marginal_counts(front, rest, lab, proj, l);
        let mine = nodes.filter(|y: u64| lab(y) == last.0);
        let before = rest.filter(|y: u64| grouped(y) == l);
        let after = nodes.filter(|y: u64| grouped(y) == l);
        nodes.lemma_len_filter(|y: u64| lab(y) == last.0);
        rest.lemma_len_filter(|y: u64| grouped(y) == l);
        assert(label_count(rest, grouped, l) == before.len());
        assert(label_count(nodes, grouped, l) == after.len());
        assert(last.1 == mine.len());
        if proj(last.0) == l {
            assert(after =~= before + mine);
            assert(before.disjoint(mine));
            vstd::set_lib::lemma_set_disjoint_lens(before, mine);
        } else {
            assert(after =~= before);
        }
    }
}

/// Every count is at most the number of nodes.
pub proof fn lemma_counts_bounded<K>(entries: Seq<(K, u64)>, nodes: Set<u64>, lab: spec_fn(u64) -> K)
    requires
        nodes.finite(),
        counts_of(entries, nodes, lab),
    ensures
        forall|i: int| 0 <= i < entries.len() ==> #[trigger] entries[i].1 <= nodes.len(),
{
    assert forall|i: int| 0 <= i < entries.len() implies #[trigger] entries[i].1 <= nodes.len() by {
        nodes.lemma_len_filter(|y: u64| lab(y) == entries[i].0);
    }
}

/// The sum of the first `i` terms is at most the whole sum, and one more term adds its own.
pub proof fn lemma_sum_prefix<K>(entries: Seq<(K, u64)>, i: int)
    requires
        0 <= i < entries.len(),
    ensures
        sum_pair_totals(entries.take(i + 1)) == sum_pair_totals(entries.take(i)) + pair_total(
            entries[i].1 as int,
        ),
        sum_pair_totals(entries.take(i + 1)) <= sum_pair_totals(entries),
        pair_total(entries[i].1 as int) >= 0,
    decreases entries.len(),
{
    assert(entries.take(i + 1).drop_last() =~= entries.take(i));
    lemma_pair_total_step(entries[i].1 as int);
    lemma_pair_total_step(entries.last().1 as int);
    if i == entries.len() - 1 {
        assert(entries.take(i + 1) =~= entries);
    } else {
        lemma_sum_prefix(entries.drop_last(), i);
        assert(entries.drop_last().take(i + 1) =~= entries.take(i + 1));
        assert(entries.drop_last().take(i) =~= entries.take(i));
    }
}

/// The sum, over the entries, of their count choose 2.
pub fn sum_choose2<K>(entries: &Vec<(K, u64)>) -> (total: u64)
    requires
        sum_pair_totals(entries@) <= u64::MAX,
        forall|i: int| 0 <= i < entries@.len() ==> #[trigger] entries@[i].1 * (entries@[i].1 - 1) <= u64::MAX,
    ensures
        total == sum_pair_totals(entries@),
{
    let mut total: u64 = 0;
    let n = entries.len();
    assert(entries@.take(0) =~= Seq::<(K, u64)>::empty());
    for i in 0..n
        invariant
            n == entries@.len(),
            sum_pair_totals(entries@) <= u64::MAX,
            forall|k: int| 0 <= k < entries@.len() ==> #[trigger] entries@[k].1 * (entries@[k].1 - 1) <= u64::MAX,
            total == sum_pair_totals(entries@.take(i as int)),
    {
        proof {
            lemma_sum_prefix(entries@, i as int);
        }
        total = total + choose2(entries[i].1);
    }
    assert(entries@.take(n as int) =~= entries@);
    total
}

/// `n` choose 2.
pub fn choose2(n: u64) -> (r: u64)
    requires
        n * (n - 1) <= u64::MAX,
    ensures
        r == pair_total(n as int),
{
    if n < 2 {
        proof {
            assert(pair_total(n as int) == 0) by (nonlinear_arith)
                requires
                    0 <= n < 2,
            ;
        }
        0
    } else {
        n * (n - 1) / 2
    }
}

/// `m` maps each label that some node of `nodes` carries, and no other, to
/// the number of nodes that carry it.
pub open spec fn map_counts<K>(m: Map<K, u64>, nodes: Set<u64>, lab: spec_fn(u64) -> K) -> bool {
    &&& forall|k: K| #[trigger] m.dom().contains(k) ==> m[k] == label_count(nodes, lab, k) && m[k] > 0
    &&& forall|x: u64| nodes.contains(x) ==> #[trigger] m.dom().contains(lab(x))
}

/// `entries` lists the entries of `m`, each once.
pub open spec fn lists<K>(entries: Seq<(K, u64)>, m: Map<K, u64>) -> bool {
    &&& forall|i: int, j: int|
        0 <= i < j < entries.len() ==> #[trigger] entries[i].0 != #[trigger] entries[j].0
    &&& forall|i: int|
        0 <= i < entries.len() ==> #[trigger] m.dom().contains(entries[i].0) && m[entries[i].0]
            == entries[i].1
    &&& forall|k: K| #[trigger] m.dom().contains(k) ==> exists|i: int| 0 <= i < entries.len() && entries[i].0 == k
}

/// Counting one more node `x`: its label's count goes from what the map
/// holds (0 where the label is new) up by one.
pub proof fn lemma_map_counts_insert<K>(m: Map<K, u64>, nodes: Set<u64>, x: u64, lab: spec_fn(u64) -> K)
    requires
        nodes.finite(),
        !nodes.contains(x),
        nodes.len() < u64::MAX,
        map_counts(m, nodes, lab),
    ensures
        ({
            let c = if m.dom().contains(lab(x)) { m[lab(x)] } else { 0 };
            &&& c == label_count(nodes, lab, lab(x))
            &&& c < u64::MAX
            &&& map_counts(m.insert(lab(x), (c + 1) as u64), nodes.insert(x), lab)
        }),
{
    let k = lab(x);
    if !m.dom().contains(k) && label_count(nodes, lab, k) > 0 {
        let y = nodes.filter(|y: u64| lab(y) == k).choose();
        assert(nodes.filter(|y: u64| lab(y) == k).contains(y));
    }
    lemma_label_count_insert(nodes, x, lab, k);
    assert forall|j: K| #[trigger] label_count(nodes.insert(x), lab, j) == label_count(nodes, lab, j)
        + (if k == j {
        1int
    } else {
        0int
    }) by {
        lemma_label_count_insert(nodes, x, lab, j);
    }
}

/// A complete listing of a complete count map is a complete tally.
pub proof fn lemma_listed_counts<K>(
    entries: Seq<(K, u64)>,
    m: Map<K, u64>,
    nodes: Set<u64>,
    lab: spec_fn(u64) -> K,
)
    requires
        lists(entries, m),
        map_counts(m, nodes, lab),
    ensures
        counts_of(entries, nodes, lab),
{
    assert forall|x: u64| nodes.contains(x) implies exists|i: int|
        0 <= i < entries.len() && #[trigger] entries[i].0 == lab(x) by {
        assert(m.dom().contains(lab(x)));
        let i = choose|i: int| 0 <= i < entries.len() && entries[i].0 == lab(x);
        assert(entries[i].0 == lab(x));
    }
    assert forall|i: int| 0 <= i < entries.len() implies #[trigger] entries[i].1 == label_count(
        nodes,
        lab,
        entries[i].0,
    ) && entries[i].1 > 0 by {
        assert(m.dom().contains(entries[i].0));
    }
}

/// Node counts per cell `(community in a, community in b)`, kept in a
/// grafeo `FxHashMap<(usize, usize), u64>` as the original's contingency
/// table is. What the map holds is named by [`cell_counts_contents`]; the map
/// operations are trusted to act on it as `hashbrown` documents.
#[verifier::external_body]
pub struct CellCounts {
    map: FxHashMap<(usize, usize), u64>,
}

/// What a cell count map holds.
pub uninterp spec fn cell_counts_contents(c: CellCounts) -> Map<(usize, usize), u64>;

impl CellCounts {
    /// `FxHashMap::default`: no counts.
    #[verifier::external_body]
    pub(crate) fn new() -> (c: CellCounts)
        ensures
            cell_counts_contents(c) =~= Map::empty(),
    {
        CellCounts { map: FxHashMap::default() }
    }

    /// `HashMap::get`, the count copied out.
    #[verifier::external_body]
    pub(crate) fn get(&self, key: (usize, usize)) -> (r: Option<u64>)
        ensures
            r == (if cell_counts_contents(*self).dom().contains(key) {
                Some(cell_counts_contents(*self)[key])
            } else {
                None
            }),
    {
        self.map.get(&key).copied()
    }

    /// `HashMap::insert`: the key's count becomes `count`.
    #[verifier::external_body]
    pub(crate) fn set(&mut self, key: (usize, usize), count: u64)
        ensures
            cell_counts_contents(*final(self)) == cell_counts_contents(*old(self)).insert(key, count),
    {
        self.map.insert(key, count);
    }

    /// `HashMap::iter`, collected: every entry once, in the map's own order.
    #[verifier::external_body]
    pub(crate) fn entries(&self) -> (v: Vec<((usize, usize), u64)>)
        ensures
            lists(v@, cell_counts_contents(*self)),
    {
        self.map.iter().map(|(k, c)| (*k, *c)).collect()
    }
}

/// Node counts per community, kept in a grafeo `FxHashMap<usize, u64>` as
/// the original's row and column sums are. What the map holds is named by
/// [`label_counts_contents`]; the map operations are trusted to act on it as
/// `hashbrown` documents.
#[verifier::external_body]
pub struct LabelCounts {
    map: FxHashMap<usize, u64>,
}

/// What a community count map holds.
pub uninterp spec fn label_counts_contents(c: LabelCounts) -> Map<usize, u64>;

impl LabelCounts {
    /// `FxHashMap::default`: no counts.
    #[verifier::external_body]
    pub(crate) fn new() -> (c: LabelCounts)
        ensures
            label_counts_contents(c) =~= Map::empty(),
    {
        LabelCounts { map: FxHashMap::default() }
    }

    /// `HashMap::get`, the count copied out.
    #[verifier::external_body]
    pub(crate) fn get(&self, key: usize) -> (r: Option<u64>)
        ensures
            r == (if label_counts_contents(*self).dom().contains(key) {
                Some(label_counts_contents(*self)[key])
            } else {
                None
            }),
    {
        self.map.get(&key).copied()
    }

    /// `HashMap::insert`: the key's count becomes `count`.
    #[verifier::external_body]
    pub(crate) fn set(&mut self, key: usize, count: u64)
        ensures
            label_counts_contents(*final(self)) == label_counts_contents(*old(self)).insert(key, count),
    {
        self.map.insert(key, count);
    }

    /// `HashMap::iter`, collected: every entry once, in the map's own order.
    #[verifier::external_body]
    pub(crate) fn entries(&self) -> (v: Vec<(usize, u64)>)
        ensures
            lists(v@, label_counts_contents(*self)),
    {
        self.map.iter().map(|(k, c)| (*k, *c)).collect()
    }
}

} // verus!
