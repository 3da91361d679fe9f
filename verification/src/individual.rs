//! A genetic individual: one owned expression tree together with a cached
//! node count, kept equal to the true depth-first count by every operation
//! of this library that touches the tree.

use vstd::prelude::*;

use crate::gen::{generate_tree, GenConfig, TreeGen, TreeGenMode};
use crate::tree::{
    depth_bounded, leaves_at_least, leaves_exactly_at, lemma_prune_size, prune, prune_rec, size,
    Node,
};

verus! {

/// A candidate program: a tree plus cached derived statistics.
#[derive(Debug)]
pub struct Individual {
    /// The contained tree, starting at its root node.
    pub tree: Node,
    /// Cached number of nodes of `tree`; kept accurate by this library's
    /// operations, to be recomputed after any direct mutation of `tree`.
    pub nodes_count: usize,
}

impl Individual {
    /// The cache invariant: the cached count equals the true depth-first
    /// node count of the tree. Established at construction and restored by
    /// every mutating operation of this library; direct mutation of `tree`
    /// breaks it until `recalculate_metadata` runs.
    pub open spec fn valid(&self) -> bool {
        self.nodes_count == size(self.tree@)
    }

    /// Generate a new tree under the given generator and configuration and
    /// wrap it, computing its metadata.
    pub fn new(tg: &mut TreeGen, config: &GenConfig) -> (r: Individual)
        requires
            old(tg).wf(),
            config.wf(),
        ensures
            r.valid(),
            final(tg).wf(),
            old(tg).same_policy(final(tg)),
            depth_bounded(r.tree@, old(tg).spec_cap() as nat),
            size(r.tree@) < usize::MAX ==> leaves_at_least(r.tree@, old(tg).spec_min_depth()),
            old(tg).spec_mode() matches TreeGenMode::Perfect(c) ==> (size(r.tree@) < usize::MAX
                ==> leaves_exactly_at(r.tree@, c as nat)),
    {
        let (tree, count) = generate_tree(tg, config);
        Individual { tree, nodes_count: count }
    }

    /// Wrap an existing tree, computing its metadata.
    pub fn new_from_tree(tree: Node) -> (r: Individual)
        requires
            size(tree@) <= usize::MAX,
        ensures
            r.valid(),
            r.tree == tree,
    {
        let mut indv = Individual { tree, nodes_count: 0 };
        indv.recalculate_metadata();
        indv
    }

    /// The cached number of nodes in the tree, read without traversal.
    pub fn nodes_count(&self) -> (r: usize)
        ensures
            r == self.nodes_count,
    {
        self.nodes_count
    }

    /// Recompute the cached metadata from the tree itself.
    pub fn recalculate_metadata(&mut self)
        requires
            size(old(self).tree@) <= usize::MAX,
        ensures
            final(self).tree == old(self).tree,
            final(self).valid(),
    {
        self.nodes_count = self.tree.count_nodes();
    }

    /// Prune the tree so that no branch runs past depth `max_depth`: every
    /// node at that depth that still has children is replaced by the first
    /// leaf found by descending its first children, so no leaf survives
    /// beyond `max_depth`. The metadata is recomputed afterwards.
    pub fn prune_at(&mut self, max_depth: usize)
        requires
            size(old(self).tree@) <= usize::MAX,
        ensures
            final(self).tree@ == prune(old(self).tree@, max_depth as nat),
            final(self).valid(),
    {
        prune_rec(&mut self.tree, max_depth);
        proof {
            lemma_prune_size(old(self).tree@, max_depth as nat);
        }
        self.recalculate_metadata();
    }
}

} // verus!
