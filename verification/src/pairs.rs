//! Unordered pairs of distinct nodes, counted as finite sets.
use vstd::prelude::*;
use vstd::relations::injective_on;
use vstd::set_lib::*;

verus! {

/// The unordered pair `{x, y}` written with its smaller node first.
pub open spec fn ordered_pair(x: u64, y: u64) -> (u64, u64) {
    if x < y {
        (x, y)
    } else {
        (y, x)
    }
}

/// The unordered pairs of distinct nodes of `nodes` that `rel` holds of.
pub open spec fn pairs_where(nodes: Set<u64>, rel: spec_fn(u64, u64) -> bool) -> Set<(u64, u64)> {
    Set::new(
        |e: (u64, u64)| e.0 < e.1 && nodes.contains(e.0) && nodes.contains(e.1) && rel(e.0, e.1),
    )
}

/// A relation on nodes that does not care about the order of its arguments.
pub open spec fn symmetric(rel: spec_fn(u64, u64) -> bool) -> bool {
    forall|u: u64, v: u64| #[trigger] rel(u, v) == rel(v, u)
}

/// The nodes of `nodes` that stand in `rel` to `x`.
pub open spec fn partners(nodes: Set<u64>, x: u64, rel: spec_fn(u64, u64) -> bool) -> Set<u64> {
    nodes.filter(|y: u64| rel(y, x))
}

/// The relation that holds of every pair.
pub open spec fn any_pair() -> spec_fn(u64, u64) -> bool {
    |u: u64, v: u64| true
}

/// Adding a node `x` to `nodes` adds exactly the pairs that `x` forms with its partners.
proof fn lemma_pairs_insert_split(nodes: Set<u64>, x: u64, rel: spec_fn(u64, u64) -> bool)
    requires
        !nodes.contains(x),
        symmetric(rel),
    ensures
        pairs_where(nodes.insert(x), rel) == pairs_where(nodes, rel) + partners(nodes, x, rel).map(
            |y: u64| ordered_pair(x, y),
        ),
        pairs_where(nodes, rel).disjoint(
            partners(nodes, x, rel).map(|y: u64| ordered_pair(x, y)),
        ),
        injective_on(|y: u64| ordered_pair(x, y), partners(nodes, x, rel)),
{
    let f = |y: u64| ordered_pair(x, y);
    let big = pairs_where(nodes.insert(x), rel);
    let small = pairs_where(nodes, rel);
    let new = partners(nodes, x, rel).map(f);
    assert forall|e: (u64, u64)| big.contains(e) implies (small + new).contains(e) by {
        if e.0 == x {
            assert(rel(e.1, x) == rel(x, e.1));
            assert(partners(nodes, x, rel).contains(e.1));
            assert(f(e.1) == e);
        } else if e.1 == x {
            assert(partners(nodes, x, rel).contains(e.0));
            assert(f(e.0) == e);
        }
    }
    assert forall|e: (u64, u64)| (small + new).contains(e) implies big.contains(e) by {
        if new.contains(e) {
            let y = choose|y: u64| partners(nodes, x, rel).contains(y) && f(y) == e;
            assert(rel(y, x) == rel(x, y));
        }
    }
    assert(big =~= small + new);
    assert forall|e: (u64, u64)| small.contains(e) implies !new.contains(e) by {
        if new.contains(e) {
            let y = choose|y: u64| partners(nodes, x, rel).contains(y) && f(y) == e;
        }
    }
}

/// The pairs of a finite set of nodes form a finite set.
pub proof fn lemma_pairs_finite(nodes: Set<u64>, rel: spec_fn(u64, u64) -> bool)
    requires
        nodes.finite(),
        symmetric(rel),
    ensures
        pairs_where(nodes, rel).finite(),
    decreases nodes.len(),
{
    if nodes.len() == 0 {
        assert(nodes =~= Set::empty());
        assert(pairs_where(nodes, rel) =~= Set::empty());
    } else {
        let x = nodes.choose();
        let rest = nodes.remove(x);
        lemma_pairs_finite(rest, rel);
        lemma_pairs_insert_split(rest, x, rel);
        assert(rest.insert(x) =~= nodes);
        partners(rest, x, rel).lemma_len_filter(|y: u64| rel(y, x));
        partners(rest, x, rel).lemma_map_finite(|y: u64| ordered_pair(x, y));
    }
}

/// Adding a node adds as many pairs as the node has partners.
pub proof fn lemma_pairs_insert_len(nodes: Set<u64>, x: u64, rel: spec_fn(u64, u64) -> bool)
    requires
        nodes.finite(),
        !nodes.contains(x),
        symmetric(rel),
    ensures
        pairs_where(nodes.insert(x), rel).finite(),
        pairs_where(nodes.insert(x), rel).len() == pairs_where(nodes, rel).len() + partners(
            nodes,
            x,
            rel,
        ).len(),
{
    lemma_pairs_finite(nodes, rel);
    lemma_pairs_finite(nodes.insert(x), rel);
    lemma_pairs_insert_split(nodes, x, rel);
    nodes.lemma_len_filter(|y: u64| rel(y, x));
    lemma_map_size(
        partners(nodes, x, rel),
        partners(nodes, x, rel).map(|y: u64| ordered_pair(x, y)),
        |y: u64| ordered_pair(x, y),
    );
    lemma_set_disjoint_lens(
        pairs_where(nodes, rel),
        partners(nodes, x, rel).map(|y: u64| ordered_pair(x, y)),
    );
}


/// `n` choose 2: the number of unordered pairs of `n` things.
pub open spec fn pair_total(n: int) -> int {
    n * (n - 1) / 2
}

/// One more thing makes `n` more pairs.
pub proof fn lemma_pair_total_step(n: int)
    requires
        n >= 0,
    ensures
        pair_total(n + 1) == pair_total(n) + n,
        pair_total(n) >= 0,
{
    assert((n + 1) * n == n * (n - 1) + 2 * n) by (nonlinear_arith);
    assert(n * (n - 1) >= 0) by (nonlinear_arith)
        requires
            n >= 0,
    ;
}

/// More things never make fewer pairs.
pub proof fn lemma_pair_total_mono(m: int, n: int)
    requires
        0 <= m <= n,
    ensures
        0 <= pair_total(m) <= pair_total(n),
    decreases n - m,
{
    lemma_pair_total_step(m);
    if m < n {
        lemma_pair_total_step(n - 1);
        lemma_pair_total_mono(m, n - 1);
    }
}

/// A finite set of `n` nodes has `n` choose 2 unordered pairs.
pub proof fn lemma_all_pairs_len(nodes: Set<u64>)
    requires
        nodes.finite(),
    ensures
        pairs_where(nodes, any_pair()).finite(),
        pairs_where(nodes, any_pair()).len() == pair_total(nodes.len() as int),
    decreases nodes.len(),
{
    lemma_pairs_finite(nodes, any_pair());
    if nodes.len() == 0 {
        assert(nodes =~= Set::empty());
        assert(pairs_where(nodes, any_pair()) =~= Set::empty());
    } else {
        let x = nodes.choose();
        let rest = nodes.remove(x);
        lemma_all_pairs_len(rest);
        lemma_pairs_insert_len(rest, x, any_pair());
        assert(rest.insert(x) =~= nodes);
        assert(partners(rest, x, any_pair()) =~= rest);
        lemma_pair_total_step(rest.len() as int);
    }
}

/// Growing the set of candidate partners by one node `y` adds `y` as a
/// partner exactly when `rel` holds of it.
pub proof fn lemma_partners_insert(nodes: Set<u64>, y: u64, x: u64, rel: spec_fn(u64, u64) -> bool)
    requires
        nodes.finite(),
        !nodes.contains(y),
    ensures
        partners(nodes, x, rel).finite(),
        partners(nodes.insert(y), x, rel).finite(),
        partners(nodes.insert(y), x, rel).len() == partners(nodes, x, rel).len() + (if rel(y, x) {
            1int
        } else {
            0int
        }),
{
    nodes.lemma_len_filter(|z: u64| rel(z, x));
    nodes.insert(y).lemma_len_filter(|z: u64| rel(z, x));
    if rel(y, x) {
        assert(partners(nodes.insert(y), x, rel) =~= partners(nodes, x, rel).insert(y));
    } else {
        assert(partners(nodes.insert(y), x, rel) =~= partners(nodes, x, rel));
    }
}

/// Where `inner` implies `outer`, the pairs of `inner` are among those of
/// `outer`, and there are as many of them exactly when every pair of
/// distinct nodes that `outer` holds of is one that `inner` holds of.
pub proof fn lemma_pairs_len_eq_iff(
    nodes: Set<u64>,
    outer: spec_fn(u64, u64) -> bool,
    inner: spec_fn(u64, u64) -> bool,
)
    requires
        nodes.finite(),
        symmetric(outer),
        symmetric(inner),
        forall|u: u64, v: u64| #[trigger] inner(u, v) ==> outer(u, v),
    ensures
        pairs_where(nodes, inner).subset_of(pairs_where(nodes, outer)),
        pairs_where(nodes, inner).len() <= pairs_where(nodes, outer).len(),
        (pairs_where(nodes, inner).len() == pairs_where(nodes, outer).len()) <==> (forall|
            x: u64,
            y: u64,
        |
            nodes.contains(x) && nodes.contains(y) && x != y && #[trigger] outer(x, y) ==> inner(
                x,
                y,
            )),
{
    let pi = pairs_where(nodes, inner);
    let po = pairs_where(nodes, outer);
    lemma_pairs_finite(nodes, outer);
    vstd::set_lib::lemma_len_subset(pi, po);
    if pi.len() == po.len() {
        lemma_subset_equality(pi, po);
        assert forall|x: u64, y: u64|
            nodes.contains(x) && nodes.contains(y) && x != y && #[trigger] outer(x, y) implies inner(
            x,
            y,
        ) by {
            assert(outer(y, x) == outer(x, y));
            assert(inner(y, x) == inner(x, y));
            assert(po.contains(ordered_pair(x, y)));
        }
    }
    if forall|x: u64, y: u64|
        nodes.contains(x) && nodes.contains(y) && x != y && #[trigger] outer(x, y) ==> inner(x, y) {
        assert(pi =~= po);
    }
}

/// The first `i` nodes of a list, as a set.
pub open spec fn first_nodes(ks: Seq<u64>, i: int) -> Set<u64> {
    ks.take(i).to_set()
}

/// Taking one more node of a list without repeats adds a node not yet taken.
pub proof fn lemma_first_nodes_step(ks: Seq<u64>, i: int)
    requires
        ks.no_duplicates(),
        0 <= i < ks.len(),
    ensures
        first_nodes(ks, i).finite(),
        !first_nodes(ks, i).contains(ks[i]),
        first_nodes(ks, i + 1) == first_nodes(ks, i).insert(ks[i]),
{
    vstd::seq_lib::seq_to_set_is_finite(ks.take(i));
    assert(ks.take(i + 1) =~= ks.take(i).push(ks[i]));
    ks.take(i).lemma_push_to_set_commute(ks[i]);
    if first_nodes(ks, i).contains(ks[i]) {
        let k = choose|k: int| 0 <= k < ks.take(i).len() && ks.take(i)[k] == ks[i];
        assert(ks[k] == ks[i]);
    }
}

/// The first nodes of a list are finite, none at first and all at the end.
pub proof fn lemma_first_nodes_ends(ks: Seq<u64>, i: int)
    requires
        0 <= i <= ks.len(),
    ensures
        first_nodes(ks, i).finite(),
        first_nodes(ks, 0) == Set::<u64>::empty(),
        first_nodes(ks, ks.len() as int) == ks.to_set(),
{
    vstd::seq_lib::seq_to_set_is_finite(ks.take(i));
    assert(ks.take(0) =~= Seq::<u64>::empty());
    assert(first_nodes(ks, 0) =~= Set::<u64>::empty());
    assert(ks.take(ks.len() as int) =~= ks);
}

} // verus!
