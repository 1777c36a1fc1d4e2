//! A partition of nodes into communities, held in grafeo's hash map.
use grafeo_common::types::NodeId;
use grafeo_common::utils::hash::FxHashMap;
use vstd::prelude::*;

verus! {

/// An assignment of nodes (by their raw id) to community labels.
///
/// The assignment is kept in a `grafeo_common` `FxHashMap<NodeId, usize>`,
/// which Verus does not see into: what the map holds is named by
/// [`partition_contents`], and the few map operations used here are
/// trusted to act on that content as `hashbrown`'s documentation says.
#[verifier::external_body]
pub struct Partition {
    map: FxHashMap<NodeId, usize>,
}

/// The content of a partition: each node id in it, with its community label.
pub uninterp spec fn partition_contents(p: Partition) -> Map<u64, usize>;

impl View for Partition {
    type V = Map<u64, usize>;

    open spec fn view(&self) -> Map<u64, usize> {
        partition_contents(*self)
    }
}

/// The community of `x` in `p`, or `None` where `p` does not hold `x`.
pub open spec fn community(p: Map<u64, usize>, x: u64) -> Option<usize> {
    if p.dom().contains(x) {
        Some(p[x])
    } else {
        None
    }
}

/// `x` and `y` look the same to `p`: both in one community, or both missing.
pub open spec fn co_clustered(p: Map<u64, usize>, x: u64, y: u64) -> bool {
    community(p, x) == community(p, y)
}

/// The community of `x` in `p`, with `0` standing for a node that `p` does not hold.
pub open spec fn label_or_zero(p: Map<u64, usize>, x: u64) -> usize {
    match community(p, x) {
        Some(c) => c,
        None => 0,
    }
}

/// The map that inserting `pairs` one after another builds: a later pair for
/// the same node replaces an earlier one.
pub open spec fn map_of_pairs(pairs: Seq<(u64, usize)>) -> Map<u64, usize>
    decreases pairs.len(),
{
    if pairs.len() == 0 {
        Map::empty()
    } else {
        map_of_pairs(pairs.drop_last()).insert(pairs.last().0, pairs.last().1)
    }
}

impl Partition {
    /// `FxHashMap::default`: a map with no entries.
    #[verifier::external_body]
    fn empty() -> (p: Partition)
        ensures
            partition_contents(p) =~= Map::empty(),
    {
        Partition { map: FxHashMap::default() }
    }

    /// `HashMap::insert` under `NodeId::new(node)`: the node's label becomes
    /// `community`, whether or not the node was there before.
    #[verifier::external_body]
    fn put(&mut self, node: u64, community: usize)
        ensures
            partition_contents(*final(self)) == partition_contents(*old(self)).insert(node, community),
    {
        self.map.insert(NodeId::new(node), community);
    }

    /// `HashMap::get` under `NodeId::new(node)`, the label copied out.
    #[verifier::external_body]
    fn lookup(&self, node: u64) -> (c: Option<usize>)
        ensures
            c == community(partition_contents(*self), node),
    {
        self.map.get(&NodeId::new(node)).copied()
    }

    /// `HashMap::keys`, each `NodeId` turned into its raw id: every node of
    /// the map once, in the map's own (unspecified) order.
    #[verifier::external_body]
    fn node_ids(&self) -> (ids: Vec<u64>)
        ensures
            ids@.no_duplicates(),
            ids@.to_set() == partition_contents(*self).dom(),
    {
        self.map.keys().map(|id| id.0).collect()
    }

    /// `HashMap::len`: the number of nodes in the map.
    #[verifier::external_body]
    fn size(&self) -> (n: usize)
        ensures
            n == partition_contents(*self).dom().len(),
    {
        self.map.len()
    }

    /// Builds a partition from `(node, community)` pairs; where a node occurs
    /// more than once, its last pair counts.
    pub fn from_pairs(pairs: &Vec<(u64, usize)>) -> (p: Partition)
        ensures
            p@ == map_of_pairs(pairs@),
    {
        let mut p = Partition::empty();
        let n = pairs.len();
        for i in 0..n
            invariant
                n == pairs@.len(),
                p@ == map_of_pairs(pairs@.take(i as int)),
        {
            assert(pairs@.take(i + 1).drop_last() =~= pairs@.take(i as int));
            p.put(pairs[i].0, pairs[i].1);
        }
        assert(pairs@.take(n as int) =~= pairs@);
        p
    }

    /// The number of nodes that the partition assigns.
    pub fn node_count(&self) -> (n: usize)
        ensures
            n == self@.dom().len(),
    {
        self.size()
    }

    /// The community of `node`, or `None` where the partition does not hold it.
    pub fn community_of(&self, node: u64) -> (c: Option<usize>)
        ensures
            c == community(self@, node),
    {
        self.lookup(node)
    }

    /// The nodes of the partition, each once, in the map's own order.
    pub fn nodes(&self) -> (ids: Vec<u64>)
        ensures
            ids@.no_duplicates(),
            ids@.to_set() == self@.dom(),
            self@.dom().finite(),
            ids@.len() == self@.dom().len(),
    {
        let ids = self.node_ids();
        proof {
            vstd::seq_lib::seq_to_set_is_finite(ids@);
            ids@.unique_seq_to_set();
        }
        ids
    }
}

} // verus!
