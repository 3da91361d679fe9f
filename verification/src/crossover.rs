//! Crossover (mating) between genetic individuals: subtrees at drawn
//! pre-order positions are exchanged in place, in one of three modes.

use vstd::prelude::*;

use crate::individual::Individual;
use crate::random::random_below;
use crate::tree::{
    lemma_nodes_view_index, lemma_replace_size, node_view, lemma_size_forest_cons, lemma_size_prefix_mono,
    lemma_subtree_size, node_at_mut, nodes_view, prune, replace_at, size, size_forest,
    size_prefix, subtree_at, subtree_in, Node, NodeView,
};

verus! {

/// The trees after a one-point exchange: each tree receives the subtree
/// that sat at the drawn index of the other.
pub open spec fn one_point_result(t1: NodeView, t2: NodeView, i1: int, i2: int) -> (
    NodeView,
    NodeView,
) {
    (replace_at(t1, i1, subtree_at(t2, i2)), replace_at(t2, i2, subtree_at(t1, i1)))
}

/// The trees after a hard-prune exchange: the one-point exchange, with the
/// first tree pruned to `k` levels below its root afterwards.
pub open spec fn hard_prune_result(t1: NodeView, t2: NodeView, i1: int, i2: int, k: nat) -> (
    NodeView,
    NodeView,
) {
    (prune(one_point_result(t1, t2, i1, i2).0, k), one_point_result(t1, t2, i1, i2).1)
}

/// Whether `r1`, `r2` are exactly the trees a one-point exchange at
/// `(i1, i2)` leaves behind.
pub open spec fn one_point_result_is(
    t1: NodeView,
    t2: NodeView,
    i1: int,
    i2: int,
    r1: NodeView,
    r2: NodeView,
) -> bool {
    r1 == one_point_result(t1, t2, i1, i2).0 && r2 == one_point_result(t1, t2, i1, i2).1
}

/// Whether `r1`, `r2` are exactly the trees a hard-prune exchange at
/// `(i1, i2)` under the depth cap `max_depth` leaves behind.
pub open spec fn hard_prune_result_is(
    t1: NodeView,
    t2: NodeView,
    i1: int,
    i2: int,
    max_depth: nat,
    r1: NodeView,
    r2: NodeView,
) -> bool {
    r1 == hard_prune_result(t1, t2, i1, i2, max_depth).0 && r2 == hard_prune_result(
        t1,
        t2,
        i1,
        i2,
        max_depth,
    ).1
}

/// One-point crossover redistributes the two trees' nodes but creates and
/// destroys none: the total count across the pair is preserved.
pub proof fn lemma_one_point_preserves_size(t1: NodeView, t2: NodeView, i1: int, i2: int)
    requires
        0 <= i1 < size(t1),
        0 <= i2 < size(t2),
    ensures
        size(one_point_result(t1, t2, i1, i2).0) + size(one_point_result(t1, t2, i1, i2).1)
            == size(t1) + size(t2),
{
    lemma_subtree_size(t1, i1);
    lemma_subtree_size(t2, i2);
    lemma_replace_size(t1, i1, subtree_at(t2, i2));
    lemma_replace_size(t2, i2, subtree_at(t1, i1));
}

/// Hard-prune crossover prunes the first individual only: the second is
/// left exactly as plain one-point crossover would have left it.
pub proof fn lemma_hard_prune_matches_one_point(
    t1: NodeView,
    t2: NodeView,
    i1: int,
    i2: int,
    k: nat,
)
    ensures
        hard_prune_result(t1, t2, i1, i2, k).1 == one_point_result(t1, t2, i1, i2).1,
{
}

/// The running state of the leaf-biased selection walk over the second
/// tree: the pre-order index of the match if one was found, the soft
/// target (decremented at every node whose classification misses the
/// coin), and the count of matching nodes passed so far.
pub ghost struct PickState {
    pub found: Option<int>,
    pub target: int,
    pub counter: int,
}

/// One step of the leaf-biased walk at the node `t`, whose root has
/// pre-order index `base` in the whole tree. A node whose leaf/internal
/// classification misses `leaf` lowers the target; a matching node is
/// selected when the match counter equals the current target. The
/// selection is deliberately not uniform over matching nodes: the
/// decrement couples the miss count into the match target.
pub open spec fn pick(t: NodeView, leaf: bool, st: PickState, base: int) -> PickState
    decreases t,
{
    if st.found is Some {
        st
    } else if (t.children.len() == 0) != leaf {
        pick_forest(
            t.children,
            leaf,
            PickState { found: st.found, target: st.target - 1, counter: st.counter },
            base + 1,
        )
    } else if st.counter == st.target {
        PickState { found: Some(base), target: st.target, counter: st.counter }
    } else {
        pick_forest(
            t.children,
            leaf,
            PickState { found: st.found, target: st.target, counter: st.counter + 1 },
            base + 1,
        )
    }
}

/// The walk continued over a forest, left to right.
pub open spec fn pick_forest(s: Seq<NodeView>, leaf: bool, st: PickState, base: int) -> PickState
    decreases s,
{
    if s.len() == 0 {
        st
    } else {
        pick_forest(s.drop_first(), leaf, pick(s[0], leaf, st, base), base + size(s[0]))
    }
}

/// The walk moves the target down and the counter up by at most the number
/// of nodes it visits, and never disturbs an already-found match.
pub proof fn lemma_pick_bounds(t: NodeView, leaf: bool, st: PickState, base: int)
    ensures
        st.found is Some ==> pick(t, leaf, st, base) == st,
        st.target - size(t) <= pick(t, leaf, st, base).target <= st.target,
        st.counter <= pick(t, leaf, st, base).counter <= st.counter + size(t),
    decreases t,
{
    lemma_size_forest_cons_of(t);
    if st.found is None && (t.children.len() == 0) != leaf {
        lemma_pick_forest_bounds(
            t.children,
            leaf,
            PickState { found: st.found, target: st.target - 1, counter: st.counter },
            base + 1,
        );
    } else if st.found is None && st.counter != st.target {
        lemma_pick_forest_bounds(
            t.children,
            leaf,
            PickState { found: st.found, target: st.target, counter: st.counter + 1 },
            base + 1,
        );
    }
}

pub proof fn lemma_pick_forest_bounds(s: Seq<NodeView>, leaf: bool, st: PickState, base: int)
    ensures
        st.found is Some ==> pick_forest(s, leaf, st, base) == st,
        st.target - size_forest(s) <= pick_forest(s, leaf, st, base).target <= st.target,
        st.counter <= pick_forest(s, leaf, st, base).counter <= st.counter + size_forest(s),
    decreases s,
{
    if s.len() == 0 {
        assert(size_prefix(s, 0) == 0);
    } else {
        lemma_size_forest_cons(s);
        lemma_pick_bounds(s[0], leaf, st, base);
        lemma_pick_forest_bounds(s.drop_first(), leaf, pick(s[0], leaf, st, base), base + size(
            s[0],
        ));
    }
}

/// A helper: the size identity between a node and its child forest.
proof fn lemma_size_forest_cons_of(t: NodeView)
    ensures
        size(t) == 1 + size_forest(t.children),
{
}

/// When the walk finds a match, the match lies inside the walked subtree
/// and its leaf/internal classification agrees with the coin.
pub proof fn lemma_pick_found(t: NodeView, leaf: bool, st: PickState, base: int)
    requires
        st.found is None,
        pick(t, leaf, st, base).found is Some,
    ensures
        base <= pick(t, leaf, st, base).found->Some_0 < base + size(t),
        (subtree_at(t, pick(t, leaf, st, base).found->Some_0 - base).children.len() == 0) == leaf,
    decreases t,
{
    lemma_size_forest_cons_of(t);
    if (t.children.len() == 0) != leaf {
        lemma_pick_forest_found(
            t.children,
            leaf,
            PickState { found: st.found, target: st.target - 1, counter: st.counter },
            base + 1,
        );
    } else if st.counter == st.target {
    } else {
        lemma_pick_forest_found(
            t.children,
            leaf,
            PickState { found: st.found, target: st.target, counter: st.counter + 1 },
            base + 1,
        );
    }
}

pub proof fn lemma_pick_forest_found(s: Seq<NodeView>, leaf: bool, st: PickState, base: int)
    requires
        st.found is None,
        pick_forest(s, leaf, st, base).found is Some,
    ensures
        base <= pick_forest(s, leaf, st, base).found->Some_0 < base + size_forest(s),
        (subtree_in(s, pick_forest(s, leaf, st, base).found->Some_0 - base).children.len() == 0)
            == leaf,
    decreases s,
{
    lemma_size_forest_cons(s);
    let st1 = pick(s[0], leaf, st, base);
    if st1.found is Some {
        lemma_pick_forest_bounds(s.drop_first(), leaf, st1, base + size(s[0]));
        lemma_pick_found(s[0], leaf, st, base);
    } else {
        lemma_pick_forest_found(s.drop_first(), leaf, st1, base + size(s[0]));
    }
}

/// The crossover mode in use. See `Crossover`.
#[derive(Clone, Copy, Debug, PartialEq, Eq, Structural)]
pub enum CrossoverMode {
    /// Corresponds to `Crossover::one_point`.
    OnePoint,
    /// Corresponds to `Crossover::one_point_leaf_biased`; carries the leaf
    /// bias as a numerator and denominator.
    OnePointLeafBiased(u32, u32),
    /// Corresponds to `Crossover::hard_prune`; carries the depth cap.
    HardPrune(usize),
}

/// Configures crossover (mating) between individuals. Stateless across
/// invocations: all randomness comes from the source passed to `mate`.
pub struct Crossover {
    mode: CrossoverMode,
}

impl Crossover {
    /// The crossover mode this operator applies.
    pub closed spec fn spec_mode(&self) -> CrossoverMode {
        self.mode
    }

    /// The operator's invariant: the parameters a mode carries lie in
    /// their ranges. Every constructor establishes it.
    pub open spec fn wf(&self) -> bool {
        self.spec_mode() matches CrossoverMode::OnePointLeafBiased(n, d) ==> 0 < d && n <= d
    }

    /// An operator that swaps the subtree at a random position of one
    /// individual with one at a random position of a second individual.
    pub fn one_point() -> (r: Crossover)
        ensures
            r.spec_mode() == CrossoverMode::OnePoint,
            r.wf(),
    {
        Crossover { mode: CrossoverMode::OnePoint }
    }

    /// As `one_point`, but each swap point is a terminal with probability
    /// `bias_num / bias_den`, an internal node otherwise.
    pub fn one_point_leaf_biased(bias_num: u32, bias_den: u32) -> (r: Crossover)
        requires
            0 < bias_den,
            bias_num <= bias_den,
        ensures
            r.spec_mode() == CrossoverMode::OnePointLeafBiased(bias_num, bias_den),
            r.wf(),
    {
        Crossover { mode: CrossoverMode::OnePointLeafBiased(bias_num, bias_den) }
    }

    /// As `one_point`, with the first individual afterwards pruned at
    /// `max_depth`: overflowing subtrees are replaced by the first leaf
    /// they contain.
    pub fn hard_prune(max_depth: usize) -> (r: Crossover)
        ensures
            r.spec_mode() == CrossoverMode::HardPrune(max_depth),
            r.wf(),
    {
        Crossover { mode: CrossoverMode::HardPrune(max_depth) }
    }

    /// Crossover (mate) two individuals in place according to the
    /// configured mode, drawing the coin and both pre-order positions from
    /// the given random source. Both caches are accurate afterwards; under
    /// the exchanging modes the pair's total node count is preserved.
    pub fn mate(
        &self,
        indv1: &mut Individual,
        indv2: &mut Individual,
        rng: &mut rand::rngs::SmallRng,
    )
        requires
            self.wf(),
            old(indv1).valid(),
            old(indv2).valid(),
            size(old(indv1).tree@) + size(old(indv2).tree@) <= usize::MAX,
        ensures
            final(indv1).valid(),
            final(indv2).valid(),
            self.spec_mode() == CrossoverMode::OnePoint ==> ({
                &&& final(indv1).nodes_count + final(indv2).nodes_count == old(indv1).nodes_count
                    + old(indv2).nodes_count
                &&& exists|i1: int, i2: int|
                    #![auto]
                    0 <= i1 < size(old(indv1).tree@) && 0 <= i2 < size(old(indv2).tree@)
                        && one_point_result_is(
                        old(indv1).tree@,
                        old(indv2).tree@,
                        i1,
                        i2,
                        final(indv1).tree@,
                        final(indv2).tree@,
                    )
            }),
            self.spec_mode() matches CrossoverMode::HardPrune(k) ==> (exists|i1: int, i2: int|
                #![auto]
                0 <= i1 < size(old(indv1).tree@) && 0 <= i2 < size(old(indv2).tree@)
                    && hard_prune_result_is(
                    old(indv1).tree@,
                    old(indv2).tree@,
                    i1,
                    i2,
                    k as nat,
                    final(indv1).tree@,
                    final(indv2).tree@,
                )),
            self.spec_mode() matches CrossoverMode::OnePointLeafBiased(n, d) ==> ({
                &&& final(indv1).nodes_count + final(indv2).nodes_count == old(indv1).nodes_count
                    + old(indv2).nodes_count
                &&& exists|leaf: bool, i1: int, i2: int|
                    #![auto]
                    0 <= i1 < size(old(indv1).tree@) && 0 <= i2 < size(old(indv2).tree@)
                        && leaf_biased_result_is(
                        old(indv1).tree@,
                        old(indv2).tree@,
                        leaf,
                        i1,
                        i2,
                        final(indv1).tree@,
                        final(indv2).tree@,
                    )
            }),
    {
        let ghost t1 = indv1.tree@;
        let ghost t2 = indv2.tree@;
        let c1 = indv1.nodes_count();
        let c2 = indv2.nodes_count();
        match self.mode {
            CrossoverMode::OnePoint => {
                let i1 = random_below(rng, c1);
                let i2 = random_below(rng, c2);
                one_point_at(indv1, indv2, i1, i2);
                proof {
                    let w1 = i1 as int;
                    let w2 = i2 as int;
                    assert(0 <= w1 < size(t1) && 0 <= w2 < size(t2) && one_point_result_is(
                        t1,
                        t2,
                        w1,
                        w2,
                        indv1.tree@,
                        indv2.tree@,
                    ));
                }
            },
            CrossoverMode::OnePointLeafBiased(bias_num, bias_den) => {
                let leaf = random_below(rng, bias_den as usize) < bias_num as usize;
                let i1 = random_below(rng, c1);
                let i2 = random_below(rng, c2);
                one_point_leaf_biased_at(indv1, indv2, leaf, i1, i2);
                proof {
                    let w1 = i1 as int;
                    let w2 = i2 as int;
                    assert(0 <= w1 < size(t1) && 0 <= w2 < size(t2) && leaf_biased_result_is(
                        t1,
                        t2,
                        leaf,
                        w1,
                        w2,
                        indv1.tree@,
                        indv2.tree@,
                    ));
                }
            },
            CrossoverMode::HardPrune(max_depth) => {
                let i1 = random_below(rng, c1);
                let i2 = random_below(rng, c2);
                one_point_at(indv1, indv2, i1, i2);
                indv1.prune_at(max_depth);
                proof {
                    let w1 = i1 as int;
                    let w2 = i2 as int;
                    assert(0 <= w1 < size(t1) && 0 <= w2 < size(t2) && hard_prune_result_is(
                        t1,
                        t2,
                        w1,
                        w2,
                        max_depth as nat,
                        indv1.tree@,
                        indv2.tree@,
                    ));
                }
            },
        }
    }
}

/// The found component of an exec walk result, as the walk spec sees it.
pub open spec fn found_of(o: Option<usize>) -> Option<int> {
    match o {
        Some(ix) => Some(ix as int),
        None => None,
    }
}

/// Run the leaf-biased walk over the tree rooted at `t`, whose root has
/// pre-order index `base`; the signed target may go below zero, exactly as
/// a wrapping soft target would never match again.
fn pick_node(t: &Node, leaf: bool, target: i128, counter: i128, base: usize) -> (r: (
    Option<usize>,
    i128,
    i128,
))
    requires
        base + size(t@) <= usize::MAX,
        0 <= counter,
        counter + size(t@) <= i128::MAX,
        target - size(t@) >= i128::MIN,
    ensures
        (PickState { found: found_of(r.0), target: r.1 as int, counter: r.2 as int }) == pick(
            t@,
            leaf,
            (PickState { found: None, target: target as int, counter: counter as int }),
            base as int,
        ),
    decreases size(t@), 0nat,
{
    proof {
        lemma_nodes_view_index(t.children@);
        lemma_size_forest_cons_of(t@);
    }
    let is_l = t.children.len() == 0;
    if is_l != leaf {
        pick_children(&t.children, leaf, target - 1, counter, base + 1)
    } else if counter == target {
        (Some(base), target, counter)
    } else {
        pick_children(&t.children, leaf, target, counter + 1, base + 1)
    }
}

/// The walk continued over a node's children, left to right, stopping at
/// the first match.
fn pick_children(children: &Vec<Node>, leaf: bool, target: i128, counter: i128, base: usize) -> (r:
    (Option<usize>, i128, i128))
    requires
        base + size_forest(nodes_view(children@)) <= usize::MAX,
        0 <= counter,
        counter + size_forest(nodes_view(children@)) <= i128::MAX,
        target - size_forest(nodes_view(children@)) >= i128::MIN,
    ensures
        (PickState { found: found_of(r.0), target: r.1 as int, counter: r.2 as int })
            == pick_forest(
            nodes_view(children@),
            leaf,
            (PickState { found: None, target: target as int, counter: counter as int }),
            base as int,
        ),
    decreases size_forest(nodes_view(children@)), 1nat,
{
    proof {
        lemma_nodes_view_index(children@);
    }
    let ghost s = nodes_view(children@);
    let ghost st0 = PickState { found: None, target: target as int, counter: counter as int };
    let len = children.len();
    let mut j: usize = 0;
    let mut found: Option<usize> = None;
    let mut cur_target = target;
    let mut cur_counter = counter;
    let mut cur_base = base;
    proof {
        assert(size_prefix(s, 0) == 0);
        assert(s.skip(0) =~= s);
    }
    while j < len
        invariant_except_break
            found is None,
            cur_base == base + size_prefix(s, j as int),
            counter <= cur_counter <= counter + size_prefix(s, j as int),
            target - size_prefix(s, j as int) <= cur_target <= target,
            pick_forest(s, leaf, st0, base as int) == pick_forest(
                s.skip(j as int),
                leaf,
                (PickState {
                    found: None,
                    target: cur_target as int,
                    counter: cur_counter as int,
                }),
                cur_base as int,
            ),
        invariant
            j <= len,
            s == nodes_view(children@),
            s.len() == len,
            len == children.len(),
            base + size_forest(s) <= usize::MAX,
            counter >= 0,
            counter + size_forest(s) <= i128::MAX,
            target - size_forest(s) >= i128::MIN,
        ensures
            found is None ==> j == len && pick_forest(s, leaf, st0, base as int) == pick_forest(
                s.skip(j as int),
                leaf,
                (PickState {
                    found: None,
                    target: cur_target as int,
                    counter: cur_counter as int,
                }),
                cur_base as int,
            ),
            found matches Some(ix) ==> pick_forest(s, leaf, st0, base as int) == (PickState {
                found: Some(ix as int),
                target: cur_target as int,
                counter: cur_counter as int,
            }),
        decreases len - j,
    {
        let ghost stj = PickState {
            found: None,
            target: cur_target as int,
            counter: cur_counter as int,
        };
        proof {
            lemma_nodes_view_index(children@);
            assert(size_prefix(s, j + 1) == size_prefix(s, j as int) + size(s[j as int]));
            lemma_size_prefix_mono(s, j + 1, s.len() as int);
            lemma_size_forest_cons_of(s[j as int]);
            lemma_pick_bounds(s[j as int], leaf, stj, cur_base as int);
            assert(s.skip(j as int)[0] == s[j as int]);
            assert(s.skip(j as int).drop_first() =~= s.skip(j + 1));
            assert(node_view(children@[j as int]) == s[j as int]);
            assert(cur_base + size(s[j as int]) <= usize::MAX);
            assert(cur_counter + size(s[j as int]) <= i128::MAX);
            assert(cur_target - size(s[j as int]) >= i128::MIN);
        }
        let (f, nt, nc) = pick_node(&children[j], leaf, cur_target, cur_counter, cur_base);
        let ghost stn = pick(s[j as int], leaf, stj, cur_base as int);
        cur_target = nt;
        cur_counter = nc;
        if f.is_some() {
            proof {
                assert(stn == (PickState {
                    found: found_of(f),
                    target: nt as int,
                    counter: nc as int,
                }));
                assert(stn.found is Some);
                lemma_pick_forest_bounds(s.skip(j + 1), leaf, stn, cur_base as int + size(
                    s[j as int],
                ));
                assert(pick_forest(s.skip(j as int), leaf, stj, cur_base as int) == stn);
                assert(pick_forest(s, leaf, st0, base as int) == stn);
            }
            found = f;
            break;
        }
        let cnt = children[j].count_nodes();
        cur_base = cur_base + cnt;
        j = j + 1;
    }
    proof {
        if found is None {
            assert(s.skip(j as int) =~= Seq::<NodeView>::empty());
        }
    }
    (found, cur_target, cur_counter)
}

/// Exchange the subtree at pre-order index `i1` of the first individual
/// with the one at `i2` of the second, recomputing both caches.
pub fn one_point_at(indv1: &mut Individual, indv2: &mut Individual, i1: usize, i2: usize)
    requires
        old(indv1).valid(),
        old(indv2).valid(),
        i1 < old(indv1).nodes_count,
        i2 < old(indv2).nodes_count,
        size(old(indv1).tree@) + size(old(indv2).tree@) <= usize::MAX,
    ensures
        final(indv1).valid(),
        final(indv2).valid(),
        final(indv1).tree@ == one_point_result(
            old(indv1).tree@,
            old(indv2).tree@,
            i1 as int,
            i2 as int,
        ).0,
        final(indv2).tree@ == one_point_result(
            old(indv1).tree@,
            old(indv2).tree@,
            i1 as int,
            i2 as int,
        ).1,
        final(indv1).nodes_count + final(indv2).nodes_count == old(indv1).nodes_count + old(
            indv2,
        ).nodes_count,
{
    let ghost t1 = indv1.tree@;
    let ghost t2 = indv2.tree@;
    proof {
        lemma_subtree_size(t1, i1 as int);
        lemma_subtree_size(t2, i2 as int);
        assert forall|x: NodeView| #[trigger]
            size(replace_at(t1, i1 as int, x)) == size(t1) - size(subtree_at(t1, i1 as int))
                + size(x) by {
            lemma_replace_size(t1, i1 as int, x);
        }
        assert forall|x: NodeView| #[trigger]
            size(replace_at(t2, i2 as int, x)) == size(t2) - size(subtree_at(t2, i2 as int))
                + size(x) by {
            lemma_replace_size(t2, i2 as int, x);
        }
    }
    let r1 = node_at_mut(&mut indv1.tree, i1);
    let r2 = node_at_mut(&mut indv2.tree, i2);
    core::mem::swap(r1, r2);
    indv1.recalculate_metadata();
    indv2.recalculate_metadata();
}

/// What a leaf-biased exchange leaves behind: the trees unchanged when the
/// walk over the second tree runs out without a match, the one-point
/// exchange at the matched index otherwise.
pub open spec fn leaf_biased_result_is(
    t1: NodeView,
    t2: NodeView,
    leaf: bool,
    i1: int,
    i2: int,
    r1: NodeView,
    r2: NodeView,
) -> bool {
    match pick(t2, leaf, PickState { found: None, target: i2, counter: 0 }, 0).found {
        Option::None => r1 == t1 && r2 == t2,
        Option::Some(j2) => r1 == one_point_result(t1, t2, i1, j2).0 && r2 == one_point_result(
            t1,
            t2,
            i1,
            j2,
        ).1,
    }
}

/// Exchange under a decided coin: walk the second tree for a node whose
/// leaf/internal classification matches the coin, counting the soft target
/// down at every miss, and exchange the match with the node at pre-order
/// index `i1` of the first individual; when the walk runs out, nothing is
/// exchanged. Both caches are recomputed unconditionally either way.
pub fn one_point_leaf_biased_at(
    indv1: &mut Individual,
    indv2: &mut Individual,
    leaf: bool,
    i1: usize,
    i2: usize,
)
    requires
        old(indv1).valid(),
        old(indv2).valid(),
        i1 < old(indv1).nodes_count,
        i2 < old(indv2).nodes_count,
        size(old(indv1).tree@) + size(old(indv2).tree@) <= usize::MAX,
    ensures
        final(indv1).valid(),
        final(indv2).valid(),
        leaf_biased_result_is(
            old(indv1).tree@,
            old(indv2).tree@,
            leaf,
            i1 as int,
            i2 as int,
            final(indv1).tree@,
            final(indv2).tree@,
        ),
        final(indv1).nodes_count + final(indv2).nodes_count == old(indv1).nodes_count + old(
            indv2,
        ).nodes_count,
{
    let ghost t2 = indv2.tree@;
    let ghost st0 = PickState { found: None, target: i2 as int, counter: 0 };
    proof {
        assert(size(t2) <= usize::MAX);
    }
    let (f, _target_left, _matches_passed) = pick_node(&indv2.tree, leaf, i2 as i128, 0, 0);
    match f {
        Option::None => {
            indv1.recalculate_metadata();
            indv2.recalculate_metadata();
        },
        Option::Some(j2) => {
            proof {
                lemma_pick_found(t2, leaf, st0, 0);
            }
            one_point_at(indv1, indv2, i1, j2);
        },
    }
}

} // verus!
