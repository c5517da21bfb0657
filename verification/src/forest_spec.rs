//! Mathematical model of the forest: a map from node id to node, with
//! the ancestor relation, well-formedness (every node reaches a root),
//! and the deterministic effect of each operation on the map.  Both
//! forest implementations and both replica variants are specified
//! against this one model.

use vstd::prelude::*;

use crate::ops::ID;
use crate::ops::Op;
use crate::ops::OpContent;

verus! {

/// A forest node: its parent (`None` for a root) and the soft deletion
/// flag.  Deleted nodes stay addressable.
#[derive(Debug, Clone, Copy, PartialEq, Eq, Structural)]
pub struct TreeNode {
    pub parent: Option<ID>,
    pub deleted: bool,
}

/// The forest with no nodes.
pub open spec fn empty_forest() -> Map<ID, TreeNode> {
    Map::empty()
}

/// Following `x`'s parent chain reaches a root in at most `fuel` steps.
pub open spec fn reaches_root(m: Map<ID, TreeNode>, x: ID, fuel: nat) -> bool
    decreases fuel,
{
    m.dom().contains(x) && match m[x].parent {
        None => true,
        Some(p) => fuel > 0 && reaches_root(m, p, (fuel - 1) as nat),
    }
}

/// Every parent pointer lands in the map, and every node's parent chain
/// ends at a root: the parent graph is a forest (in particular acyclic).
pub open spec fn forest_wf(m: Map<ID, TreeNode>) -> bool {
    &&& forall|x: ID| #[trigger]
        m.dom().contains(x) ==> match m[x].parent {
            Some(p) => m.dom().contains(p),
            None => true,
        }
    &&& forall|x: ID| #[trigger]
        m.dom().contains(x) ==> exists|n: nat| reaches_root(m, x, n)
}

/// `a` lies on `b`'s parent chain (including `a == b`) within `fuel` steps.
pub open spec fn anc_within(m: Map<ID, TreeNode>, a: ID, b: ID, fuel: nat) -> bool
    decreases fuel,
{
    a == b || (fuel > 0 && m.dom().contains(b) && match m[b].parent {
        Some(p) => anc_within(m, a, p, (fuel - 1) as nat),
        None => false,
    })
}

/// `a` is `b` itself or a transitive ancestor of `b`.
pub open spec fn is_ancestor(m: Map<ID, TreeNode>, a: ID, b: ID) -> bool {
    exists|n: nat| anc_within(m, a, b, n)
}

/// No node is a transitive ancestor of itself: reparenting a node under
/// one of its own descendants is never recorded.
pub open spec fn acyclic(m: Map<ID, TreeNode>) -> bool {
    forall|x: ID| #[trigger]
        m.dom().contains(x) ==> match m[x].parent {
            Some(p) => !is_ancestor(m, x, p),
            None => true,
        }
}

pub proof fn lemma_reaches_root_mono(m: Map<ID, TreeNode>, x: ID, n: nat, n2: nat)
    requires
        reaches_root(m, x, n),
        n <= n2,
    ensures
        reaches_root(m, x, n2),
    decreases n,
{
    match m[x].parent {
        None => {},
        Some(p) => {
            lemma_reaches_root_mono(m, p, (n - 1) as nat, (n2 - 1) as nat);
        },
    }
}

pub proof fn lemma_anc_within_mono(m: Map<ID, TreeNode>, a: ID, b: ID, n: nat, n2: nat)
    requires
        anc_within(m, a, b, n),
        n <= n2,
    ensures
        anc_within(m, a, b, n2),
    decreases n,
{
    if a != b {
        match m[b].parent {
            None => {},
            Some(p) => {
                lemma_anc_within_mono(m, a, p, (n - 1) as nat, (n2 - 1) as nat);
            },
        }
    }
}

/// Unfolding of the ancestor relation by one step of `b`'s chain.
pub proof fn lemma_ancestor_unfold(m: Map<ID, TreeNode>, a: ID, b: ID)
    requires
        m.dom().contains(b),
        a != b,
    ensures
        is_ancestor(m, a, b) == match m[b].parent {
            Some(p) => is_ancestor(m, a, p),
            None => false,
        },
{
    match m[b].parent {
        None => {
            if is_ancestor(m, a, b) {
                let n = choose|n: nat| anc_within(m, a, b, n);
                assert(!anc_within(m, a, b, n));
            }
        },
        Some(p) => {
            if is_ancestor(m, a, b) {
                let n = choose|n: nat| anc_within(m, a, b, n);
                assert(anc_within(m, a, p, (n - 1) as nat));
            }
            if is_ancestor(m, a, p) {
                let n = choose|n: nat| anc_within(m, a, p, n);
                assert(anc_within(m, a, b, n + 1));
            }
        },
    }
}

/// On a parent-closed map, ancestors of a member are members.
pub proof fn lemma_ancestor_in_dom(m: Map<ID, TreeNode>, a: ID, b: ID, n: nat)
    requires
        forall|x: ID| #[trigger]
            m.dom().contains(x) ==> match m[x].parent {
                Some(p) => m.dom().contains(p),
                None => true,
            },
        m.dom().contains(b),
        anc_within(m, a, b, n),
    ensures
        m.dom().contains(a),
    decreases n,
{
    if a != b {
        match m[b].parent {
            Some(p) => {
                lemma_ancestor_in_dom(m, a, p, (n - 1) as nat);
            },
            None => {},
        }
    }
}

/// An ancestor of a root-reaching node reaches the root within the same
/// fuel; a proper ancestor within strictly less.
pub proof fn lemma_ancestor_reaches(m: Map<ID, TreeNode>, a: ID, b: ID, k: nat, n: nat)
    requires
        anc_within(m, a, b, k),
        reaches_root(m, b, n),
    ensures
        reaches_root(m, a, n),
        a != b ==> n > 0 && reaches_root(m, a, (n - 1) as nat),
    decreases k,
{
    if a != b {
        let p = m[b].parent->Some_0;
        lemma_ancestor_reaches(m, a, p, (k - 1) as nat, (n - 1) as nat);
        lemma_reaches_root_mono(m, a, (n - 1) as nat, n);
    }
}

/// A root-reaching node is not an ancestor of its own parent.
proof fn lemma_no_cycle_at(m: Map<ID, TreeNode>, x: ID, p: ID, k: nat, n: nat)
    requires
        reaches_root(m, x, n),
        m[x].parent == Some(p),
    ensures
        !anc_within(m, x, p, k),
    decreases n,
{
    if anc_within(m, x, p, k) {
        assert(n > 0 && reaches_root(m, p, (n - 1) as nat));
        lemma_ancestor_reaches(m, x, p, k, (n - 1) as nat);
        if x == p {
            // the chain x -> x never reaches a root
            lemma_no_cycle_at(m, x, p, k, (n - 1) as nat);
        } else {
            assert(n - 1 > 0 && reaches_root(m, x, (n - 2) as nat));
            lemma_no_cycle_at(m, x, p, k, (n - 2) as nat);
        }
    }
}

/// A well-formed forest is acyclic.
pub proof fn lemma_wf_acyclic(m: Map<ID, TreeNode>)
    requires
        forest_wf(m),
    ensures
        acyclic(m),
{
    assert forall|x: ID| #[trigger] m.dom().contains(x)
        implies match m[x].parent {
            Some(p) => !is_ancestor(m, x, p),
            None => true,
        } by {
        match m[x].parent {
            Some(p) => {
                if is_ancestor(m, x, p) {
                    let k = choose|k: nat| anc_within(m, x, p, k);
                    let n = choose|n: nat| reaches_root(m, x, n);
                    lemma_no_cycle_at(m, x, p, k, n);
                }
            },
            None => {},
        }
    }
}

/// A chain that avoids `v` survives any update of `v`'s entry.
pub proof fn lemma_reaches_root_insert_other(
    m: Map<ID, TreeNode>,
    v: ID,
    nd: TreeNode,
    x: ID,
    n: nat,
)
    requires
        reaches_root(m, x, n),
        !is_ancestor(m, v, x),
    ensures
        reaches_root(m.insert(v, nd), x, n),
    decreases n,
{
    assert(x != v) by {
        if x == v {
            assert(anc_within(m, v, x, 0));
        }
    }
    match m[x].parent {
        None => {},
        Some(p) => {
            assert(!is_ancestor(m, v, p)) by {
                if is_ancestor(m, v, p) {
                    let k = choose|k: nat| anc_within(m, v, p, k);
                    assert(anc_within(m, v, x, k + 1));
                }
            }
            lemma_reaches_root_insert_other(m, v, nd, p, (n - 1) as nat);
        },
    }
}

/// A chain through `v` survives an update of `v`'s entry that still
/// reaches a root.
pub proof fn lemma_reaches_root_insert_through(
    m: Map<ID, TreeNode>,
    v: ID,
    nd: TreeNode,
    x: ID,
    k: nat,
    nn: nat,
)
    requires
        anc_within(m, v, x, k),
        reaches_root(m.insert(v, nd), v, nn),
    ensures
        reaches_root(m.insert(v, nd), x, nn + k),
    decreases k,
{
    if x == v {
        lemma_reaches_root_mono(m.insert(v, nd), x, nn, nn + k);
    } else {
        let p = m[x].parent->Some_0;
        lemma_reaches_root_insert_through(m, v, nd, p, (k - 1) as nat, nn);
        assert(reaches_root(m.insert(v, nd), p, (nn + k - 1) as nat));
    }
}

/// Reparenting `node` under an existing `par` that it is not an
/// ancestor of keeps the forest well formed.
pub proof fn lemma_insert_parent_wf(m: Map<ID, TreeNode>, node: ID, par: ID, d: bool)
    requires
        forest_wf(m),
        m.dom().contains(par),
        !is_ancestor(m, node, par),
    ensures
        forest_wf(m.insert(node, TreeNode { parent: Some(par), deleted: d })),
{
    let m2 = m.insert(node, TreeNode { parent: Some(par), deleted: d });
    let np = choose|n: nat| reaches_root(m, par, n);
    lemma_reaches_root_insert_other(m, node, TreeNode { parent: Some(par), deleted: d }, par, np);
    assert(reaches_root(m2, node, np + 1));
    assert forall|x: ID| #[trigger] m2.dom().contains(x)
        implies exists|n: nat| reaches_root(m2, x, n) by {
        if x == node {
            assert(reaches_root(m2, x, np + 1));
        } else {
            let nx = choose|n: nat| reaches_root(m, x, n);
            if is_ancestor(m, node, x) {
                let k = choose|k: nat| anc_within(m, node, x, k);
                lemma_reaches_root_insert_through(
                    m, node, TreeNode { parent: Some(par), deleted: d }, x, k, np + 1);
                assert(reaches_root(m2, x, np + 1 + k));
            } else {
                lemma_reaches_root_insert_other(
                    m, node, TreeNode { parent: Some(par), deleted: d }, x, nx);
                assert(reaches_root(m2, x, nx));
            }
        }
    }
}

/// Making `node` a root keeps the forest well formed.
pub proof fn lemma_insert_root_wf(m: Map<ID, TreeNode>, node: ID, d: bool)
    requires
        forest_wf(m),
    ensures
        forest_wf(m.insert(node, TreeNode { parent: None, deleted: d })),
{
    let nd = TreeNode { parent: None, deleted: d };
    let m2 = m.insert(node, nd);
    assert(reaches_root(m2, node, 0));
    assert forall|x: ID| #[trigger] m2.dom().contains(x)
        implies exists|n: nat| reaches_root(m2, x, n) by {
        if x == node {
            assert(reaches_root(m2, x, 0));
        } else {
            let nx = choose|n: nat| reaches_root(m, x, n);
            if is_ancestor(m, node, x) {
                let k = choose|k: nat| anc_within(m, node, x, k);
                lemma_reaches_root_insert_through(m, node, nd, x, k, 0);
            } else {
                lemma_reaches_root_insert_other(m, node, nd, x, nx);
            }
        }
    }
}

/// Chains only read parent pointers: maps that agree on domain and
/// parents agree on reachability and ancestry.
pub proof fn lemma_reaches_root_parents_agree(
    m1: Map<ID, TreeNode>,
    m2: Map<ID, TreeNode>,
    x: ID,
    n: nat,
)
    requires
        m1.dom() == m2.dom(),
        forall|y: ID| #[trigger] m1.dom().contains(y) ==> m1[y].parent == m2[y].parent,
        reaches_root(m1, x, n),
    ensures
        reaches_root(m2, x, n),
    decreases n,
{
    match m1[x].parent {
        None => {},
        Some(p) => {
            lemma_reaches_root_parents_agree(m1, m2, p, (n - 1) as nat);
        },
    }
}

pub proof fn lemma_anc_within_parents_agree(
    m1: Map<ID, TreeNode>,
    m2: Map<ID, TreeNode>,
    a: ID,
    b: ID,
    n: nat,
)
    requires
        m1.dom() == m2.dom(),
        forall|y: ID| #[trigger] m1.dom().contains(y) ==> m1[y].parent == m2[y].parent,
        anc_within(m1, a, b, n),
    ensures
        anc_within(m2, a, b, n),
    decreases n,
{
    if a != b {
        let p = m1[b].parent->Some_0;
        lemma_anc_within_parents_agree(m1, m2, a, p, (n - 1) as nat);
    }
}

pub proof fn lemma_wf_parents_agree(m1: Map<ID, TreeNode>, m2: Map<ID, TreeNode>)
    requires
        m1.dom() == m2.dom(),
        forall|y: ID| #[trigger] m1.dom().contains(y) ==> m1[y].parent == m2[y].parent,
        forest_wf(m1),
    ensures
        forest_wf(m2),
{
    assert forall|x: ID| #[trigger] m2.dom().contains(x)
        implies exists|n: nat| reaches_root(m2, x, n) by {
        let n = choose|n: nat| reaches_root(m1, x, n);
        lemma_reaches_root_parents_agree(m1, m2, x, n);
    }
}

/// The deletion flag an upsert of `node` keeps: preserved when the node
/// exists, `false` for a fresh node.
pub open spec fn kept_flag(m: Map<ID, TreeNode>, node: ID) -> bool {
    if m.dom().contains(node) {
        m[node].deleted
    } else {
        false
    }
}

/// Whether a move is free of the cyclic-move error.
pub open spec fn mov_allowed(m: Map<ID, TreeNode>, node: ID, parent: Option<ID>) -> bool {
    match parent {
        None => true,
        Some(p) => !(m.dom().contains(node) && is_ancestor(m, node, p)),
    }
}

/// The effect of `mov(node, parent)` on the map.  A cyclic move leaves
/// the map unchanged; any other move upserts the node, keeping its
/// deletion flag.
pub open spec fn apply_mov(m: Map<ID, TreeNode>, node: ID, parent: Option<ID>) -> Map<
    ID,
    TreeNode,
> {
    match parent {
        None => m.insert(node, TreeNode { parent: None, deleted: kept_flag(m, node) }),
        Some(p) => if m.dom().contains(node) && is_ancestor(m, node, p) {
            m
        } else {
            m.insert(node, TreeNode { parent: Some(p), deleted: kept_flag(m, node) })
        },
    }
}

/// The effect of `delete` / `undo_delete` on the map.
pub open spec fn apply_flag(m: Map<ID, TreeNode>, target: ID, flag: bool) -> Map<ID, TreeNode> {
    m.insert(target, TreeNode { parent: m[target].parent, deleted: flag })
}

/// The effect of one operation on the map: a `New` or `Move` moves, a
/// `Delete` sets the flag.
pub open spec fn apply_op(m: Map<ID, TreeNode>, op: Op) -> Map<ID, TreeNode> {
    match op.content {
        OpContent::New { parent } => apply_mov(m, op.id, parent),
        OpContent::Move { target, parent } => apply_mov(m, target, parent),
        OpContent::Delete(target) => apply_flag(m, target, true),
    }
}

/// The forest obtained by replaying a sequence of operations in order,
/// starting from the empty map.
pub open spec fn replay(ops: Seq<Op>) -> Map<ID, TreeNode>
    decreases ops.len(),
{
    if ops.len() == 0 {
        Map::empty()
    } else {
        apply_op(replay(ops.drop_last()), ops.last())
    }
}

/// A move with an existing parent keeps the forest well formed.
pub proof fn lemma_apply_mov_wf(m: Map<ID, TreeNode>, node: ID, parent: Option<ID>)
    requires
        forest_wf(m),
        parent matches Some(p) ==> m.dom().contains(p),
    ensures
        forest_wf(apply_mov(m, node, parent)),
{
    match parent {
        None => {
            lemma_insert_root_wf(m, node, kept_flag(m, node));
        },
        Some(p) => {
            if m.dom().contains(node) && is_ancestor(m, node, p) {
            } else {
                assert(!is_ancestor(m, node, p)) by {
                    if is_ancestor(m, node, p) {
                        let k = choose|k: nat| anc_within(m, node, p, k);
                        lemma_ancestor_in_dom(m, node, p, k);
                    }
                }
                lemma_insert_parent_wf(m, node, p, kept_flag(m, node));
            }
        },
    }
}

/// Setting a deletion flag of an existing node keeps the forest well
/// formed.
pub proof fn lemma_apply_flag_wf(m: Map<ID, TreeNode>, target: ID, flag: bool)
    requires
        forest_wf(m),
        m.dom().contains(target),
    ensures
        forest_wf(apply_flag(m, target, flag)),
        apply_flag(m, target, flag).dom() == m.dom(),
{
    let m2 = apply_flag(m, target, flag);
    assert(m2.dom() =~= m.dom());
    lemma_wf_parents_agree(m, m2);
}

} // verus!
