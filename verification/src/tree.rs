//! Expression trees for genetic programs: an owned recursive node type,
//! its mathematical view, and the depth-first traversal primitives that
//! counting, subtree exchange and pruning are built on.
//!
//! The canonical indexing scheme is depth-first pre-order: node `i` is the
//! i-th node visited in a walk that sees a parent before its children and
//! the children in order, 0-indexed.

use vstd::prelude::*;

verus! {

/// Mathematical model of a tree node: a payload symbol and the ordered
/// sequence of child subtrees.
#[verifier::ext_equal]
pub ghost struct NodeView {
    pub symbol: u64,
    pub children: Seq<NodeView>,
}

/// One node of an owned expression tree. A node exclusively owns its
/// children, so the structure is acyclic by construction; a node with no
/// children is a terminal (leaf).
#[derive(Debug)]
pub struct Node {
    /// Domain payload: which operator or terminal this node stands for.
    pub symbol: u64,
    /// The ordered, owned child subtrees.
    pub children: Vec<Node>,
}

/// The model of an exec node: the same symbol over the children's models.
pub open spec fn node_view(n: Node) -> NodeView
    decreases n,
{
    proof {
        assert(decreases_to!(n => n.children));
        assert(decreases_to!(n.children => n.children@));
    }
    NodeView { symbol: n.symbol, children: nodes_view(n.children@) }
}

/// The models of a sequence of exec nodes, in order.
pub open spec fn nodes_view(s: Seq<Node>) -> Seq<NodeView>
    decreases s,
{
    if s.len() == 0 {
        Seq::empty()
    } else {
        seq![node_view(s[0])] + nodes_view(s.drop_first())
    }
}

impl View for Node {
    type V = NodeView;

    open spec fn view(&self) -> NodeView {
        node_view(*self)
    }
}

/// Total number of nodes in the tree: the root plus all descendants.
pub open spec fn size(t: NodeView) -> nat
    decreases t,
{
    1 + size_prefix(t.children, t.children.len() as int)
}

/// Total number of nodes in the first `j` subtrees of `s`.
pub open spec fn size_prefix(s: Seq<NodeView>, j: int) -> nat
    decreases s, j,
{
    if j <= 0 || j > s.len() {
        0
    } else {
        size_prefix(s, j - 1) + size(s[j - 1])
    }
}

pub broadcast proof fn lemma_nodes_view_index(s: Seq<Node>)
    ensures
        (#[trigger] nodes_view(s)).len() == s.len(),
        forall|i: int| 0 <= i < s.len() ==> nodes_view(s)[i] == node_view(s[i]),
    decreases s,
{
    if s.len() > 0 {
        lemma_nodes_view_index(s.drop_first());
    }
}

/// Total number of nodes in the whole forest `s`.
pub open spec fn size_forest(s: Seq<NodeView>) -> nat {
    size_prefix(s, s.len() as int)
}

pub proof fn lemma_size_prefix_mono(s: Seq<NodeView>, j1: int, j2: int)
    requires
        0 <= j1 <= j2 <= s.len(),
    ensures
        size_prefix(s, j1) <= size_prefix(s, j2),
    decreases j2,
{
    if j1 < j2 {
        lemma_size_prefix_mono(s, j1, j2 - 1);
    }
}

pub proof fn lemma_size_prefix_shift(s: Seq<NodeView>, j: int)
    requires
        1 <= j <= s.len(),
    ensures
        size_prefix(s, j) == size(s[0]) + size_prefix(s.drop_first(), j - 1),
    decreases j,
{
    if j == 1 {
        assert(size_prefix(s, 0) == 0);
        assert(size_prefix(s.drop_first(), 0) == 0);
    } else {
        lemma_size_prefix_shift(s, j - 1);
        assert(s.drop_first()[j - 2] == s[j - 1]);
        assert(size_prefix(s.drop_first(), j - 1) == size_prefix(s.drop_first(), j - 2) + size(
            s.drop_first()[j - 2],
        ));
    }
}

pub proof fn lemma_size_forest_cons(s: Seq<NodeView>)
    requires
        s.len() > 0,
    ensures
        size_forest(s) == size(s[0]) + size_forest(s.drop_first()),
{
    lemma_size_prefix_shift(s, s.len() as int);
}

pub proof fn lemma_size_forest_push_front(a: NodeView, rest: Seq<NodeView>)
    ensures
        size_forest(seq![a] + rest) == size(a) + size_forest(rest),
{
    let s = seq![a] + rest;
    assert(s.drop_first() =~= rest);
    lemma_size_forest_cons(s);
}

pub proof fn lemma_size_prefix_push(s: Seq<NodeView>, v: NodeView, j: int)
    requires
        0 <= j <= s.len(),
    ensures
        size_prefix(s.push(v), j) == size_prefix(s, j),
    decreases j,
{
    if j > 0 {
        lemma_size_prefix_push(s, v, j - 1);
        assert(s.push(v)[j - 1] == s[j - 1]);
    }
}

pub proof fn lemma_size_forest_snoc(s: Seq<NodeView>, v: NodeView)
    ensures
        size_forest(s.push(v)) == size_forest(s) + size(v),
{
    lemma_size_prefix_push(s, v, s.len() as int);
    assert(s.push(v)[s.len() as int] == v);
}

/// A child subtree holds strictly fewer nodes than its parent.
pub proof fn lemma_child_size(t: NodeView, j: int)
    requires
        0 <= j < t.children.len(),
    ensures
        size(t.children[j]) + size_prefix(t.children, j) <= size_forest(t.children),
        size(t.children[j]) < size(t),
{
    lemma_size_prefix_mono(t.children, j + 1, t.children.len() as int);
}

pub proof fn lemma_nodes_view_update(s: Seq<Node>, j: int, v: Node)
    requires
        0 <= j < s.len(),
    ensures
        nodes_view(s.update(j, v)) =~= nodes_view(s).update(j, node_view(v)),
    decreases s,
{
    lemma_nodes_view_index(s);
    lemma_nodes_view_index(s.update(j, v));
    assert forall|i: int| 0 <= i < s.len() implies nodes_view(s.update(j, v))[i] == nodes_view(
        s,
    ).update(j, node_view(v))[i] by {
        if i == j {
            assert(s.update(j, v)[i] == v);
        } else {
            assert(s.update(j, v)[i] == s[i]);
        }
    }
}

/// The subtree whose root sits at pre-order index `i` of `t`.
pub open spec fn subtree_at(t: NodeView, i: int) -> NodeView
    recommends
        0 <= i < size(t),
    decreases t,
{
    if i == 0 {
        t
    } else {
        subtree_in(t.children, i - 1)
    }
}

/// The subtree at pre-order index `i` of the forest `s`, where the nodes of
/// `s[0]` come first, then those of `s[1]`, and so on.
pub open spec fn subtree_in(s: Seq<NodeView>, i: int) -> NodeView
    recommends
        0 <= i < size_prefix(s, s.len() as int),
    decreases s,
{
    if s.len() == 0 {
        NodeView { symbol: 0, children: Seq::empty() }
    } else if i < size(s[0]) {
        subtree_at(s[0], i)
    } else {
        subtree_in(s.drop_first(), i - size(s[0]))
    }
}

/// `t` with the subtree at pre-order index `i` replaced by `r`.
pub open spec fn replace_at(t: NodeView, i: int, r: NodeView) -> NodeView
    recommends
        0 <= i < size(t),
    decreases t,
{
    if i == 0 {
        r
    } else {
        NodeView { symbol: t.symbol, children: replace_in(t.children, i - 1, r) }
    }
}

/// The forest `s` with the subtree at pre-order index `i` replaced by `r`.
pub open spec fn replace_in(s: Seq<NodeView>, i: int, r: NodeView) -> Seq<NodeView>
    recommends
        0 <= i < size_prefix(s, s.len() as int),
    decreases s,
{
    if s.len() == 0 {
        s
    } else if i < size(s[0]) {
        seq![replace_at(s[0], i, r)] + s.drop_first()
    } else {
        seq![s[0]] + replace_in(s.drop_first(), i - size(s[0]), r)
    }
}

/// Navigating a forest by pre-order index: an index that falls inside the
/// `j`-th subtree selects, and replaces, within that subtree.
pub proof fn lemma_forest_at_child(s: Seq<NodeView>, j: int, i: int, r: NodeView)
    requires
        0 <= j < s.len(),
        size_prefix(s, j) <= i < size_prefix(s, j) + size(s[j]),
    ensures
        subtree_in(s, i) == subtree_at(s[j], i - size_prefix(s, j)),
        replace_in(s, i, r) =~= s.update(j, replace_at(s[j], i - size_prefix(s, j), r)),
    decreases j,
{
    if j == 0 {
        assert(size_prefix(s, 0) == 0);
        assert(replace_in(s, i, r) == seq![replace_at(s[0], i, r)] + s.drop_first());
        assert(replace_in(s, i, r) =~= s.update(0, replace_at(s[0], i, r)));
    } else {
        lemma_size_prefix_shift(s, j);
        lemma_size_prefix_mono(s, 1, j);
        assert(size_prefix(s, 0) == 0);
        assert(size_prefix(s, 1) == size(s[0]));
        lemma_forest_at_child(s.drop_first(), j - 1, i - size(s[0]), r);
        assert(replace_in(s, i, r) =~= s.update(j, replace_at(s[j], i - size_prefix(s, j), r)));
    }
}

/// Replacing the subtree at index `i` removes its nodes and adds those of
/// the replacement; no other node is created or destroyed.
pub proof fn lemma_replace_size(t: NodeView, i: int, r: NodeView)
    requires
        0 <= i < size(t),
    ensures
        size(replace_at(t, i, r)) == size(t) - size(subtree_at(t, i)) + size(r),
    decreases t,
{
    if i > 0 {
        lemma_replace_size_forest(t.children, i - 1, r);
    }
}

pub proof fn lemma_replace_size_forest(s: Seq<NodeView>, i: int, r: NodeView)
    requires
        0 <= i < size_forest(s),
    ensures
        size_forest(replace_in(s, i, r)) == size_forest(s) - size(subtree_in(s, i)) + size(r),
    decreases s,
{
    lemma_size_forest_cons(s);
    if i < size(s[0]) {
        lemma_replace_size(s[0], i, r);
        lemma_size_forest_push_front(replace_at(s[0], i, r), s.drop_first());
    } else {
        lemma_replace_size_forest(s.drop_first(), i - size(s[0]), r);
        lemma_size_forest_push_front(s[0], replace_in(s.drop_first(), i - size(s[0]), r));
    }
}

/// The first leaf reachable from `t` by always descending into the first
/// child.
pub open spec fn first_leaf_of(t: NodeView) -> NodeView
    decreases t,
{
    if t.children.len() == 0 {
        t
    } else {
        first_leaf_of(t.children[0])
    }
}

/// Depth-bounded pruning with `k` levels left: at the cutoff an internal
/// node is replaced by its first leaf; above it every child is pruned with
/// one level less.
pub open spec fn prune(t: NodeView, k: nat) -> NodeView
    decreases t,
{
    if k == 0 {
        if t.children.len() == 0 {
            t
        } else {
            first_leaf_of(t)
        }
    } else {
        NodeView { symbol: t.symbol, children: prune_all(t.children, (k - 1) as nat) }
    }
}

/// Every subtree of the forest pruned with `k` levels left.
pub open spec fn prune_all(s: Seq<NodeView>, k: nat) -> Seq<NodeView>
    decreases s,
{
    if s.len() == 0 {
        s
    } else {
        seq![prune(s[0], k)] + prune_all(s.drop_first(), k)
    }
}

/// Every node of `t` lies at depth `d` or less; equivalently, the longest
/// root-to-leaf path has at most `d` edges.
pub open spec fn depth_bounded(t: NodeView, d: nat) -> bool
    decreases t,
{
    if t.children.len() == 0 {
        true
    } else {
        d > 0 && forall|i: int|
            0 <= i < t.children.len() ==> depth_bounded(#[trigger] t.children[i], (d - 1) as nat)
    }
}

/// Every leaf of `t` lies at exactly depth `d`.
pub open spec fn leaves_exactly_at(t: NodeView, d: nat) -> bool
    decreases t,
{
    if t.children.len() == 0 {
        d == 0
    } else {
        d > 0 && forall|i: int|
            0 <= i < t.children.len() ==> leaves_exactly_at(
                #[trigger] t.children[i],
                (d - 1) as nat,
            )
    }
}

pub proof fn lemma_nodes_view_push(s: Seq<Node>, v: Node)
    ensures
        nodes_view(s.push(v)) =~= nodes_view(s).push(node_view(v)),
    decreases s,
{
    if s.len() == 0 {
        assert(s.push(v).drop_first() =~= s);
        assert(s.push(v)[0] == v);
    } else {
        assert(s.push(v).drop_first() =~= s.drop_first().push(v));
        assert(s.push(v)[0] == s[0]);
        lemma_nodes_view_push(s.drop_first(), v);
    }
}

/// A depth bound is monotone: a tree no deeper than `d1` is no deeper than
/// any larger bound.
pub proof fn lemma_depth_bounded_mono(t: NodeView, d1: nat, d2: nat)
    requires
        depth_bounded(t, d1),
        d1 <= d2,
    ensures
        depth_bounded(t, d2),
    decreases t,
{
    if t.children.len() > 0 {
        assert forall|i: int| 0 <= i < t.children.len() implies depth_bounded(
            #[trigger] t.children[i],
            (d2 - 1) as nat,
        ) by {
            lemma_depth_bounded_mono(t.children[i], (d1 - 1) as nat, (d2 - 1) as nat);
        }
    }
}

/// Any subtree holds at least one node, and no more than the whole tree.
pub proof fn lemma_subtree_size(t: NodeView, i: int)
    requires
        0 <= i < size(t),
    ensures
        1 <= size(subtree_at(t, i)) <= size(t),
    decreases t,
{
    if i > 0 {
        lemma_subtree_size_forest(t.children, i - 1);
    }
}

pub proof fn lemma_subtree_size_forest(s: Seq<NodeView>, i: int)
    requires
        0 <= i < size_forest(s),
    ensures
        1 <= size(subtree_in(s, i)) <= size_forest(s),
    decreases s,
{
    lemma_size_forest_cons(s);
    if i < size(s[0]) {
        lemma_subtree_size(s[0], i);
    } else {
        lemma_subtree_size_forest(s.drop_first(), i - size(s[0]));
    }
}

pub proof fn lemma_first_leaf_is_leaf(t: NodeView)
    ensures
        first_leaf_of(t).children.len() == 0,
    decreases t,
{
    if t.children.len() > 0 {
        lemma_first_leaf_is_leaf(t.children[0]);
    }
}

pub proof fn lemma_prune_all_index(s: Seq<NodeView>, k: nat)
    ensures
        prune_all(s, k).len() == s.len(),
        forall|i: int| 0 <= i < s.len() ==> prune_all(s, k)[i] == prune(s[i], k),
    decreases s,
{
    if s.len() > 0 {
        lemma_prune_all_index(s.drop_first(), k);
    }
}

/// After pruning with `k` levels left, every node lies at depth `k` or
/// less, so no node at the cutoff depth or beyond still has children.
pub proof fn lemma_prune_depth(t: NodeView, k: nat)
    ensures
        depth_bounded(prune(t, k), k),
    decreases t,
{
    if k == 0 {
        lemma_first_leaf_is_leaf(t);
    } else {
        lemma_prune_all_index(t.children, (k - 1) as nat);
        assert forall|i: int| 0 <= i < prune(t, k).children.len() implies depth_bounded(
            #[trigger] prune(t, k).children[i],
            (k - 1) as nat,
        ) by {
            lemma_prune_depth(t.children[i], (k - 1) as nat);
        }
    }
}

/// Pruning is idempotent: pruning an already-pruned tree at the same depth
/// changes nothing.
pub proof fn lemma_prune_idempotent(t: NodeView, k: nat)
    ensures
        prune(prune(t, k), k) == prune(t, k),
    decreases t,
{
    if k == 0 {
        if t.children.len() > 0 {
            lemma_first_leaf_is_leaf(t);
        }
    } else {
        lemma_prune_all_index(t.children, (k - 1) as nat);
        lemma_prune_all_index(prune(t, k).children, (k - 1) as nat);
        assert forall|i: int| 0 <= i < t.children.len() implies prune(
            prune(t.children[i], (k - 1) as nat),
            (k - 1) as nat,
        ) == prune(t.children[i], (k - 1) as nat) by {
            lemma_prune_idempotent(t.children[i], (k - 1) as nat);
        }
        assert(prune(prune(t, k), k).children =~= prune(t, k).children);
        assert(prune(prune(t, k), k) =~= prune(t, k));
    }
}

/// Pruning never adds a node.
pub proof fn lemma_prune_size(t: NodeView, k: nat)
    ensures
        1 <= size(prune(t, k)) <= size(t),
    decreases t,
{
    if k == 0 {
        if t.children.len() > 0 {
            lemma_first_leaf_is_leaf(t);
            lemma_child_size(t, 0);
        }
    } else {
        lemma_prune_size_forest(t.children, (k - 1) as nat);
    }
}

pub proof fn lemma_prune_size_forest(s: Seq<NodeView>, k: nat)
    ensures
        size_forest(prune_all(s, k)) <= size_forest(s),
    decreases s,
{
    if s.len() > 0 {
        lemma_size_forest_cons(s);
        lemma_prune_size(s[0], k);
        lemma_prune_size_forest(s.drop_first(), k);
        lemma_size_forest_push_front(prune(s[0], k), prune_all(s.drop_first(), k));
    } else {
        assert(prune_all(s, k) =~= s);
    }
}

/// Prune this tree in place with `k` levels left below the root: every
/// internal node reached at the cutoff is replaced by its first leaf.
pub fn prune_rec(n: &mut Node, k: usize)
    ensures
        final(n)@ == prune(old(n)@, k as nat),
    decreases size(old(n)@),
{
    proof {
        lemma_nodes_view_index(n.children@);
    }
    if k == 0 {
        if n.children.len() > 0 {
            let sym = first_leaf(n).symbol;
            proof {
                lemma_first_leaf_is_leaf(n@);
            }
            let lf = Node::leaf(sym);
            proof {
                assert(lf@ =~= first_leaf_of(n@));
            }
            *n = lf;
        }
    } else {
        let ghost t0 = n@;
        let len = n.children.len();
        let mut j: usize = 0;
        while j < len
            invariant
                j <= len,
                k >= 1,
                n.children.len() == len,
                t0.children.len() == len,
                n@.symbol == t0.symbol,
                size(t0) <= size(old(n)@),
                forall|t: int| 0 <= t < j ==> n@.children[t] == prune(t0.children[t], (k - 1) as nat),
                forall|t: int| j <= t < len ==> n@.children[t] == t0.children[t],
            decreases len - j,
        {
            proof {
                lemma_nodes_view_index(n.children@);
                lemma_child_size(t0, j as int);
            }
            let ghost prev = n.children@;
            prune_rec(&mut n.children[j], k - 1);
            proof {
                lemma_nodes_view_update(prev, j as int, n.children@[j as int]);
                lemma_nodes_view_index(n.children@);
                assert(n.children@ =~= prev.update(j as int, n.children@[j as int]));
            }
            j = j + 1;
        }
        proof {
            lemma_nodes_view_index(n.children@);
            lemma_prune_all_index(t0.children, (k - 1) as nat);
            assert(n@.children =~= prune_all(t0.children, (k - 1) as nat));
            assert(n@ =~= prune(t0, k as nat));
        }
    }
}

/// No leaf of `t` lies at a depth shallower than `d`.
pub open spec fn leaves_at_least(t: NodeView, d: int) -> bool
    decreases t,
{
    if t.children.len() == 0 {
        d <= 0
    } else {
        forall|i: int| 0 <= i < t.children.len() ==> leaves_at_least(#[trigger] t.children[i], d - 1)
    }
}

impl Node {
    /// A terminal node: the given symbol and no children.
    pub fn leaf(symbol: u64) -> (r: Node)
        ensures
            r@ == (NodeView { symbol, children: Seq::<NodeView>::empty() }),
    {
        let r = Node { symbol, children: Vec::new() };
        proof {
            assert(r@.children =~= Seq::<NodeView>::empty());
        }
        r
    }

    /// An internal node owning the given children, in order.
    pub fn branch(symbol: u64, children: Vec<Node>) -> (r: Node)
        ensures
            r@ == (NodeView { symbol, children: nodes_view(children@) }),
    {
        Node { symbol, children }
    }

    /// How many immediate children this node has; zero means it is a leaf.
    pub fn count_children(&self) -> (r: usize)
        ensures
            r == self@.children.len(),
    {
        proof {
            lemma_nodes_view_index(self.children@);
        }
        self.children.len()
    }

    /// The total number of nodes of this tree, counted depth-first.
    pub fn count_nodes(&self) -> (r: usize)
        requires
            size(self@) <= usize::MAX,
        ensures
            r == size(self@),
        decreases size(self@),
    {
        proof {
            lemma_nodes_view_index(self.children@);
        }
        let ghost s = self@.children;
        let n = self.children.len();
        let mut acc: usize = 1;
        let mut j: usize = 0;
        while j < n
            invariant
                j <= n,
                n == self.children.len(),
                s == self@.children,
                s.len() == n,
                size(self@) <= usize::MAX,
                acc == 1 + size_prefix(s, j as int),
            decreases n - j,
        {
            proof {
                lemma_nodes_view_index(self.children@);
                lemma_child_size(self@, j as int);
            }
            let c = self.children[j].count_nodes();
            acc = acc + c;
            j = j + 1;
        }
        acc
    }
}

/// A mutable borrow of the node at pre-order index `i` of `n`: the visitor
/// of the find-and-act traversal, with the in-place action left to the
/// caller through the returned borrow.
pub fn node_at_mut(n: &mut Node, i: usize) -> (r: &mut Node)
    requires
        i < size(old(n)@),
        size(old(n)@) <= usize::MAX,
    ensures
        (*r)@ == subtree_at(old(n)@, i as int),
        final(n)@ == replace_at(old(n)@, i as int, (*final(r))@),
    decreases size(old(n)@),
{
    proof {
        lemma_nodes_view_index(n.children@);
    }
    if i == 0 {
        return n;
    }
    let ghost s = n@.children;
    let ghost t0 = n@;
    let len = n.children.len();
    let mut j: usize = 0;
    let mut rem: usize = i - 1;
    loop
        invariant
            *n == *old(n),
            s == n@.children,
            len == n.children.len(),
            s.len() == len,
            size(n@) <= usize::MAX,
            j < len,
            rem == i - 1 - size_prefix(s, j as int),
            size_prefix(s, j as int) <= i - 1 < size_forest(s),
        ensures
            *n == *old(n),
            j < len,
            rem == i - 1 - size_prefix(s, j as int),
            rem < size(s[j as int]),
        decreases len - j,
    {
        proof {
            lemma_nodes_view_index(n.children@);
            lemma_child_size(n@, j as int);
        }
        let c = n.children[j].count_nodes();
        if rem < c {
            break;
        }
        rem = rem - c;
        j = j + 1;
        proof {
            if j == len {
                assert(size_prefix(s, j as int) == size_forest(s));
                assert(false);
            }
        }
    }
    proof {
        lemma_nodes_view_index(n.children@);
        lemma_child_size(n@, j as int);
        assert forall|x: NodeView|
            replace_in(s, i - 1, x) =~= s.update(j as int, replace_at(s[j as int], rem as int, x))
            && subtree_in(s, i - 1) == subtree_at(s[j as int], rem as int) by {
            lemma_forest_at_child(s, j as int, i - 1, x);
        }
        assert forall|v: Node|
            nodes_view(#[trigger] n.children@.update(j as int, v)) =~= nodes_view(
                n.children@,
            ).update(j as int, node_view(v)) by {
            lemma_nodes_view_update(n.children@, j as int, v);
        }
    }
    let r = node_at_mut(&mut n.children[j], rem);
    r
}

/// The first leaf reachable from `node` by always descending into the
/// first child; `node` itself if it is already a leaf.
pub fn first_leaf(node: &Node) -> (r: &Node)
    ensures
        r@ == first_leaf_of(node@),
        r@.children.len() == 0,
    decreases size(node@),
{
    proof {
        lemma_nodes_view_index(node.children@);
    }
    if node.children.is_empty() {
        node
    } else {
        proof {
            lemma_child_size(node@, 0);
        }
        first_leaf(&node.children[0])
    }
}

} // verus!
