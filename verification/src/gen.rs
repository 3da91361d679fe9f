//! Depth-controlled tree generation: a `TreeGen` couples a depth policy
//! with a pseudo-random source and answers, for each node under
//! construction, whether recursion must stop and emit a terminal.

use vstd::prelude::*;

use crate::random::random_below;
use crate::tree::{
    depth_bounded, leaves_at_least, leaves_exactly_at, lemma_depth_bounded_mono,
    lemma_nodes_view_index,
    lemma_nodes_view_push, lemma_size_forest_snoc, node_view, nodes_view, size, size_forest,
    size_prefix, Node, NodeView,
};

verus! {

/// An error of this library.
#[derive(Clone, Copy, Debug, PartialEq, Eq, Structural)]
pub enum GpError {
    /// A depth range whose minimum exceeds its maximum.
    InvalidDepthRange,
}

/// Which depth policy a `TreeGen` applies.
#[derive(Clone, Copy, Debug, PartialEq, Eq, Structural)]
pub enum TreeGenMode {
    /// Every leaf sits at exactly the chosen depth, drawn once at
    /// construction from `[min_depth, max_depth]`.
    Perfect(usize),
    /// Leaves are emitted at random between `min_depth` and `max_depth`,
    /// with `max_depth` as an absolute cap.
    Full,
    /// As `Full`, but capped by a depth chosen once at construction from
    /// `[min_depth, max_depth]`.
    FullRanged(usize),
}

/// Configures the depth and shape of generated trees. The mode is fixed at
/// construction; the wrapped random source serves both the leaf decisions
/// and the caller's own draws.
pub struct TreeGen {
    mode: TreeGenMode,
    rng: rand::rngs::SmallRng,
    min_depth: usize,
    max_depth: usize,
}

impl TreeGen {
    /// Which depth policy this generator applies.
    pub closed spec fn spec_mode(&self) -> TreeGenMode {
        self.mode
    }

    /// The minimum depth of trees to generate.
    pub closed spec fn spec_min_depth(&self) -> int {
        self.min_depth as int
    }

    /// The maximum depth of trees to generate.
    pub closed spec fn spec_max_depth(&self) -> int {
        self.max_depth as int
    }

    /// The absolute depth cap of this generator: the chosen depth where one
    /// was drawn at construction, `max_depth` otherwise.
    pub open spec fn spec_cap(&self) -> int {
        match self.spec_mode() {
            TreeGenMode::Perfect(c) => c as int,
            TreeGenMode::Full => self.spec_max_depth(),
            TreeGenMode::FullRanged(c) => c as int,
        }
    }

    /// The generator's invariant: an ordered depth range, with any chosen
    /// depth inside it.
    pub open spec fn wf(&self) -> bool {
        &&& self.spec_min_depth() <= self.spec_max_depth()
        &&& self.spec_min_depth() <= self.spec_cap() <= self.spec_max_depth()
    }

    /// The depth policy is fixed: only the random source advances.
    pub open spec fn same_policy(&self, other: &TreeGen) -> bool {
        &&& self.spec_mode() == other.spec_mode()
        &&& self.spec_min_depth() == other.spec_min_depth()
        &&& self.spec_max_depth() == other.spec_max_depth()
    }

    /// Generate perfect trees: all leaves at one depth, drawn uniformly
    /// from `[min_depth, max_depth]` at construction.
    pub fn perfect(rng: rand::rngs::SmallRng, min_depth: usize, max_depth: usize) -> (r: Result<
        TreeGen,
        GpError,
    >)
        ensures
            r is Ok <==> min_depth <= max_depth,
            r matches Ok(tg) ==> tg.wf() && tg.spec_min_depth() == min_depth
                && tg.spec_max_depth() == max_depth && (tg.spec_mode() matches
                TreeGenMode::Perfect(c) && min_depth <= c <= max_depth),
            r matches Err(e) ==> e == GpError::InvalidDepthRange,
    {
        if min_depth > max_depth {
            return Err(GpError::InvalidDepthRange);
        }
        let mut rng = rng;
        let chosen = draw_in_range(&mut rng, min_depth, max_depth);
        Ok(TreeGen { mode: TreeGenMode::Perfect(chosen), rng, min_depth, max_depth })
    }

    /// Generate full trees: leaves at varying depths, decided per node,
    /// with `max_depth` as an absolute cap.
    pub fn full(rng: rand::rngs::SmallRng, min_depth: usize, max_depth: usize) -> (r: Result<
        TreeGen,
        GpError,
    >)
        ensures
            r is Ok <==> min_depth <= max_depth,
            r matches Ok(tg) ==> tg.wf() && tg.spec_min_depth() == min_depth
                && tg.spec_max_depth() == max_depth && tg.spec_mode() == TreeGenMode::Full,
            r matches Err(e) ==> e == GpError::InvalidDepthRange,
    {
        if min_depth > max_depth {
            return Err(GpError::InvalidDepthRange);
        }
        Ok(TreeGen { mode: TreeGenMode::Full, rng, min_depth, max_depth })
    }

    /// Generate full trees capped by a depth drawn uniformly from
    /// `[min_depth, max_depth]` at construction.
    pub fn full_ranged(rng: rand::rngs::SmallRng, min_depth: usize, max_depth: usize) -> (r:
        Result<TreeGen, GpError>)
        ensures
            r is Ok <==> min_depth <= max_depth,
            r matches Ok(tg) ==> tg.wf() && tg.spec_min_depth() == min_depth
                && tg.spec_max_depth() == max_depth && (tg.spec_mode() matches
                TreeGenMode::FullRanged(c) && min_depth <= c <= max_depth),
            r matches Err(e) ==> e == GpError::InvalidDepthRange,
    {
        if min_depth > max_depth {
            return Err(GpError::InvalidDepthRange);
        }
        let mut rng = rng;
        let chosen = draw_in_range(&mut rng, min_depth, max_depth);
        Ok(TreeGen { mode: TreeGenMode::FullRanged(chosen), rng, min_depth, max_depth })
    }

    /// Choose once, with even odds, between `perfect` and `full_ranged`.
    pub fn half_and_half(rng: rand::rngs::SmallRng, min_depth: usize, max_depth: usize) -> (r:
        Result<TreeGen, GpError>)
        ensures
            r is Ok <==> min_depth <= max_depth,
            r matches Ok(tg) ==> tg.wf() && tg.spec_min_depth() == min_depth
                && tg.spec_max_depth() == max_depth && ((tg.spec_mode() matches
                TreeGenMode::Perfect(c) && min_depth <= c <= max_depth) || (tg.spec_mode() matches
                TreeGenMode::FullRanged(c) && min_depth <= c <= max_depth)),
            r matches Err(e) ==> e == GpError::InvalidDepthRange,
    {
        if min_depth > max_depth {
            return Err(GpError::InvalidDepthRange);
        }
        let mut rng = rng;
        let coin = random_below(&mut rng, 2);
        if coin == 0 {
            Self::perfect(rng, min_depth, max_depth)
        } else {
            Self::full_ranged(rng, min_depth, max_depth)
        }
    }

    /// Whether node construction at `current_depth` must stop and emit a
    /// terminal. Under `Perfect` the answer is exact; under the
    /// probabilistic modes a leaf is forced at the cap, refused below
    /// `min_depth`, and decided by a `1 / (cap - min_depth)` draw between
    /// the two (with a zero-width interval treated as a forced leaf).
    pub fn have_reached_a_leaf(&mut self, current_depth: usize) -> (r: bool)
        requires
            old(self).wf(),
        ensures
            final(self).wf(),
            old(self).same_policy(final(self)),
            old(self).spec_mode() matches TreeGenMode::Perfect(c) ==> (r <==> current_depth == c),
            current_depth == old(self).spec_cap() ==> r,
            current_depth < old(self).spec_min_depth() ==> !r,
    {
        match self.mode {
            TreeGenMode::Perfect(chosen_depth) => current_depth == chosen_depth,
            TreeGenMode::Full => {
                if current_depth == self.max_depth {
                    true
                } else if current_depth >= self.min_depth {
                    let depth_interval = self.max_depth - self.min_depth;
                    if depth_interval == 0 {
                        true
                    } else {
                        random_below(&mut self.rng, depth_interval) == 0
                    }
                } else {
                    false
                }
            },
            TreeGenMode::FullRanged(chosen_depth) => {
                if current_depth == chosen_depth {
                    true
                } else if current_depth >= self.min_depth {
                    let depth_interval = chosen_depth - self.min_depth;
                    if depth_interval == 0 {
                        true
                    } else {
                        random_below(&mut self.rng, depth_interval) == 0
                    }
                } else {
                    false
                }
            },
        }
    }

    /// A draw from the wrapped random source: this generator serves the
    /// domain's own choices as well as the leaf decisions.
    pub fn random_below(&mut self, n: usize) -> (r: usize)
        requires
            n > 0,
        ensures
            r < n,
            old(self).same_policy(final(self)),
            old(self).wf() ==> final(self).wf(),
    {
        random_below(&mut self.rng, n)
    }
}

/// What a domain hands to tree generation: how many children an internal
/// node gets and how many distinct symbols may be drawn.
pub struct GenConfig {
    /// Number of children of an internal node; at least one.
    pub arity: usize,
    /// Number of distinct node symbols; at least one.
    pub symbol_kinds: usize,
}

impl GenConfig {
    pub open spec fn wf(&self) -> bool {
        self.arity >= 1 && self.symbol_kinds >= 1
    }
}

/// Build a random tree under the generator's depth policy, together with
/// its exact node count. Leaves never lie beyond the generator's cap, and
/// under `Perfect` every leaf sits at the chosen depth (unless the tree hit
/// the machine's node-count limit, where siblings are elided).
pub fn generate_tree(tg: &mut TreeGen, config: &GenConfig) -> (r: (Node, usize))
    requires
        old(tg).wf(),
        config.wf(),
    ensures
        final(tg).wf(),
        old(tg).same_policy(final(tg)),
        r.1 == size(r.0@),
        depth_bounded(r.0@, old(tg).spec_cap() as nat),
        r.1 < usize::MAX ==> leaves_at_least(r.0@, old(tg).spec_min_depth()),
        old(tg).spec_mode() matches TreeGenMode::Perfect(c) ==> (r.1 < usize::MAX
            ==> leaves_exactly_at(r.0@, c as nat)),
{
    generate_at(tg, config, 0)
}

fn generate_at(tg: &mut TreeGen, config: &GenConfig, depth: usize) -> (r: (Node, usize))
    requires
        old(tg).wf(),
        config.wf(),
        depth <= old(tg).spec_cap(),
    ensures
        final(tg).wf(),
        old(tg).same_policy(final(tg)),
        r.1 == size(r.0@),
        depth_bounded(r.0@, (old(tg).spec_cap() - depth) as nat),
        r.1 < usize::MAX ==> leaves_at_least(r.0@, old(tg).spec_min_depth() - depth),
        old(tg).spec_mode() matches TreeGenMode::Perfect(c) ==> (r.1 < usize::MAX
            ==> leaves_exactly_at(r.0@, (c - depth) as nat)),
    decreases old(tg).spec_cap() - depth,
{
    let ghost cap = old(tg).spec_cap();
    let ghost mn = old(tg).spec_min_depth();
    let ghost mode0 = old(tg).spec_mode();
    let leaf = tg.have_reached_a_leaf(depth);
    if leaf {
        let sym = tg.random_below(config.symbol_kinds);
        let n = Node::leaf(sym as u64);
        proof {
            assert(size(n@) == 1) by {
                assert(size_prefix(n@.children, 0) == 0);
            }
            assert(mn - depth <= 0);
            assert(leaves_at_least(n@, mn - depth));
        }
        (n, 1)
    } else {
        let (c0, cc0) = generate_at(tg, config, depth + 1);
        if cc0 == usize::MAX {
            proof {
                lemma_depth_bounded_mono(c0@, (cap - depth - 1) as nat, (cap - depth) as nat);
            }
            return (c0, cc0);
        }
        let mut children: Vec<Node> = Vec::new();
        let mut count: usize = 1 + cc0;
        children.push(c0);
        proof {
            lemma_nodes_view_push(Seq::<Node>::empty(), c0);
            assert(nodes_view(Seq::<Node>::empty()) =~= Seq::<NodeView>::empty());
            assert(children@ =~= Seq::<Node>::empty().push(c0));
            assert(nodes_view(children@) =~= Seq::<NodeView>::empty().push(node_view(c0)));
            lemma_size_forest_snoc(Seq::<NodeView>::empty(), node_view(c0));
            assert(size_prefix(Seq::<NodeView>::empty(), 0) == 0);
            assert(c0@ == node_view(c0));
            assert(size_forest(nodes_view(children@)) == size(c0@));
            assert(nodes_view(children@)[0] == node_view(c0));
        }
        let mut a: usize = 1;
        while a < config.arity
            invariant
                1 <= a <= config.arity,
                config.wf(),
                tg.wf(),
                old(tg).same_policy(tg),
                depth < old(tg).spec_cap(),
                1 <= children.len() <= a,
                count == 1 + size_forest(nodes_view(children@)),
                forall|i: int|
                    0 <= i < children.len() ==> depth_bounded(
                        #[trigger] nodes_view(children@)[i],
                        (old(tg).spec_cap() - depth - 1) as nat,
                    ),
                forall|i: int|
                    0 <= i < children.len() ==> leaves_at_least(
                        #[trigger] nodes_view(children@)[i],
                        old(tg).spec_min_depth() - depth - 1,
                    ),
                old(tg).spec_mode() matches TreeGenMode::Perfect(c) ==> forall|i: int|
                    0 <= i < children.len() ==> leaves_exactly_at(
                        #[trigger] nodes_view(children@)[i],
                        (c - depth - 1) as nat,
                    ),
            ensures
                tg.wf(),
                old(tg).same_policy(tg),
                1 <= children.len(),
                count == 1 + size_forest(nodes_view(children@)),
                forall|i: int|
                    0 <= i < children.len() ==> depth_bounded(
                        #[trigger] nodes_view(children@)[i],
                        (old(tg).spec_cap() - depth - 1) as nat,
                    ),
                forall|i: int|
                    0 <= i < children.len() ==> leaves_at_least(
                        #[trigger] nodes_view(children@)[i],
                        old(tg).spec_min_depth() - depth - 1,
                    ),
                old(tg).spec_mode() matches TreeGenMode::Perfect(c) ==> forall|i: int|
                    0 <= i < children.len() ==> leaves_exactly_at(
                        #[trigger] nodes_view(children@)[i],
                        (c - depth - 1) as nat,
                    ),
            decreases config.arity - a,
        {
            let (cn, ccn) = generate_at(tg, config, depth + 1);
            if count <= usize::MAX - ccn {
                let ghost prev = children@;
                count = count + ccn;
                children.push(cn);
                proof {
                    lemma_nodes_view_push(prev, cn);
                    lemma_size_forest_snoc(nodes_view(prev), node_view(cn));
                    lemma_nodes_view_index(children@);
                    assert(ccn < usize::MAX);
                    assert(cn@ == node_view(cn));
                    assert forall|i: int| 0 <= i < children.len() implies leaves_at_least(
                        #[trigger] nodes_view(children@)[i],
                        old(tg).spec_min_depth() - depth - 1,
                    ) by {
                        if i < children@.len() - 1 {
                            assert(nodes_view(children@)[i] == nodes_view(prev)[i]);
                        } else {
                            assert(nodes_view(children@)[i] == node_view(cn));
                        }
                    }
                }
            } else {
                break;
            }
            a = a + 1;
        }
        let sym = tg.random_below(config.symbol_kinds);
        let ghost cviews = nodes_view(children@);
        proof {
            lemma_nodes_view_index(children@);
            assert(cviews.len() >= 1);
            assert(forall|i: int|
                0 <= i < cviews.len() ==> depth_bounded(
                    #[trigger] cviews[i],
                    (cap - depth - 1) as nat,
                ));
        }
        let n = Node::branch(sym as u64, children);
        proof {
            assert(n@.children == cviews);
            assert(size(n@) == 1 + size_forest(cviews));
            let d = (cap - depth) as nat;
            assert((d - 1) as nat == (cap - depth - 1) as nat);
            assert forall|i: int| 0 <= i < n@.children.len() implies depth_bounded(
                #[trigger] n@.children[i],
                (d - 1) as nat,
            ) by {
                assert(n@.children[i] == cviews[i]);
            }
            assert(depth_bounded(n@, d));
            assert forall|i: int| 0 <= i < n@.children.len() implies leaves_at_least(
                #[trigger] n@.children[i],
                mn - depth - 1,
            ) by {
                assert(n@.children[i] == cviews[i]);
            }
            assert(leaves_at_least(n@, mn - depth));
            match mode0 {
                TreeGenMode::Perfect(c) => {
                    let e = (c - depth) as nat;
                    assert((e - 1) as nat == (c - depth - 1) as nat);
                    assert forall|i: int| 0 <= i < n@.children.len() implies leaves_exactly_at(
                        #[trigger] n@.children[i],
                        (e - 1) as nat,
                    ) by {
                        assert(n@.children[i] == cviews[i]);
                    }
                    assert(leaves_exactly_at(n@, e));
                },
                _ => {},
            }
        }
        (n, count)
    }
}

/// A uniform draw from the inclusive range `[lo, hi]`.
fn draw_in_range(rng: &mut rand::rngs::SmallRng, lo: usize, hi: usize) -> (r: usize)
    requires
        lo <= hi,
    ensures
        lo <= r <= hi,
{
    let span = hi - lo;
    if span == usize::MAX {
        random_below(rng, usize::MAX)
    } else {
        lo + random_below(rng, span + 1)
    }
}

} // verus!
