//! Rewinding by reverse replay.  When a merge rewinds by undoing moves
//! (instead of restoring a snapshot), the forest passes through states
//! that are not exact replays: nodes created in the undone suffix stay
//! in the map, and a cleared deletion flag may hide an older delete.
//! This module defines the two state relations those intermediate
//! forests satisfy and proves that replaying the re-sorted tail from
//! such a state reaches exactly the replay of the full sequence.

use vstd::prelude::*;

use crate::forest_spec::anc_within;
use crate::forest_spec::apply_flag;
use crate::forest_spec::apply_mov;
use crate::forest_spec::apply_op;
use crate::forest_spec::forest_wf;
use crate::forest_spec::is_ancestor;
use crate::forest_spec::kept_flag;
use crate::forest_spec::reaches_root;
use crate::forest_spec::replay;
use crate::forest_spec::lemma_ancestor_in_dom;
use crate::forest_spec::lemma_wf_acyclic;
use crate::forest_spec::TreeNode;
use crate::ops::closed_set;
use crate::ops::has_new_below;
use crate::ops::sorted_strict;
use crate::ops::ID;
use crate::ops::Op;
use crate::ops::OpContent;
use crate::replay::has_delete;
use crate::replay::new_ids;
use crate::replay::lemma_prefix_closed;
use crate::replay::lemma_replay_props;
use crate::replay::lemma_replay_step;
use crate::replay::lemma_step_refs;

verus! {

/// The parent a `New` operation creates its node under.
pub open spec fn new_parent_of(op: Op) -> Option<ID> {
    match op.content {
        OpContent::New { parent } => parent,
        _ => None,
    }
}

/// The forest `m` simulates the replay of `kept` while `pending` is
/// still to be applied: nodes created by `kept` carry the replayed
/// parents; extra nodes are exactly creations of `pending`; a set
/// deletion flag is always justified by some delete, and a flag the
/// replay has set but `m` has not will be set again by a delete in
/// `pending`.
pub open spec fn sim_rel(m: Map<ID, TreeNode>, kept: Seq<Op>, pending: Seq<Op>) -> bool {
    let r = replay(kept);
    &&& forall|x: ID| #[trigger] new_ids(kept).contains(x) ==> m.dom().contains(x)
    &&& forall|x: ID| #[trigger]
        m.dom().contains(x) ==> new_ids(kept).contains(x) || new_ids(pending).contains(x)
    &&& forall|x: ID| #[trigger]
        new_ids(kept).contains(x) ==> m[x].parent == r[x].parent
    &&& forall|x: ID| #[trigger]
        m.dom().contains(x) && m[x].deleted ==> has_delete(kept, x) || has_delete(pending, x)
    &&& forall|x: ID| #[trigger]
        new_ids(kept).contains(x) && r[x].deleted && !m[x].deleted ==> has_delete(pending, x)
}

/// A forest that is exactly the replay of `kept` simulates it for any
/// pending tail.
pub proof fn lemma_rest_sim(kept: Seq<Op>, pending: Seq<Op>)
    requires
        sorted_strict(kept),
        closed_set(kept.to_set()),
    ensures
        sim_rel(replay(kept), kept, pending),
{
    lemma_replay_props(kept);
}

/// Ancestry walks from a node of `r`'s domain read the same parents in
/// `m` and in `r`, when the two agree there and `r` is parent-closed.
pub proof fn lemma_region_anc_agree(
    m: Map<ID, TreeNode>,
    r: Map<ID, TreeNode>,
    a: ID,
    b: ID,
    n: nat,
)
    requires
        forall|x: ID| #[trigger]
            r.dom().contains(x) ==> m.dom().contains(x) && m[x].parent == r[x].parent,
        forall|x: ID| #[trigger]
            r.dom().contains(x) ==> match r[x].parent {
                Some(p) => r.dom().contains(p),
                None => true,
            },
        r.dom().contains(b),
    ensures
        anc_within(m, a, b, n) == anc_within(r, a, b, n),
    decreases n,
{
    if a != b && n > 0 {
        match r[b].parent {
            None => {},
            Some(p) => {
                lemma_region_anc_agree(m, r, a, p, (n - 1) as nat);
            },
        }
    }
}

/// Root chains of `r` survive in `m` under the same agreement.
pub proof fn lemma_region_reach(m: Map<ID, TreeNode>, r: Map<ID, TreeNode>, x: ID, n: nat)
    requires
        forall|y: ID| #[trigger]
            r.dom().contains(y) ==> m.dom().contains(y) && m[y].parent == r[y].parent,
        reaches_root(r, x, n),
    ensures
        reaches_root(m, x, n),
    decreases n,
{
    match r[x].parent {
        None => {},
        Some(p) => {
            lemma_region_reach(m, r, p, (n - 1) as nat);
        },
    }
}

/// A chain of the updated map from the updated node is already a chain
/// of the base map: only the node's own outgoing edge changed, and the
/// chain ends on first contact.
proof fn lemma_anc_insert_target(m: Map<ID, TreeNode>, v: ID, nd: TreeNode, b: ID, n: nat)
    requires
        anc_within(m.insert(v, nd), v, b, n),
    ensures
        anc_within(m, v, b, n),
    decreases n,
{
    if v != b {
        let m2 = m.insert(v, nd);
        let p = m2[b].parent->0;
        lemma_anc_insert_target(m, v, nd, p, (n - 1) as nat);
    }
}

/// `new_ids` of a pushed sequence.
pub proof fn lemma_new_ids_push(s: Seq<Op>, op: Op)
    ensures
        new_ids(s.push(op)) =~= if op.content matches OpContent::New { .. } {
            new_ids(s).insert(op.id)
        } else {
            new_ids(s)
        },
{
    let s2 = s.push(op);
    assert forall|x: ID| #[trigger] new_ids(s2).contains(x)
        implies (if op.content matches OpContent::New { .. } {
            new_ids(s).insert(op.id)
        } else {
            new_ids(s)
        }).contains(x) by {
        let j = choose|j: int|
            0 <= j < s2.len() && (#[trigger] s2[j].content matches OpContent::New { .. })
                && s2[j].id == x;
        if j < s.len() {
            assert(s[j] == s2[j]);
            assert(new_ids(s).contains(x));
        }
    }
    assert forall|x: ID|
        (if op.content matches OpContent::New { .. } {
            new_ids(s).insert(op.id)
        } else {
            new_ids(s)
        }).contains(x) implies #[trigger] new_ids(s2).contains(x) by {
        if new_ids(s).contains(x) {
            let j = choose|j: int|
                0 <= j < s.len() && (#[trigger] s[j].content matches OpContent::New { .. })
                    && s[j].id == x;
            assert(s2[j] == s[j]);
        } else {
            assert(s2[s.len() as int] == op);
        }
    }
}

/// Creations found in one sequence are found in any sequence holding
/// at least its operations.
pub proof fn lemma_new_ids_subset(s1: Seq<Op>, s2: Seq<Op>)
    requires
        forall|x: Op| s1.to_set().contains(x) ==> #[trigger] s2.to_set().contains(x),
    ensures
        forall|x: ID| #[trigger] new_ids(s1).contains(x) ==> new_ids(s2).contains(x),
{
    assert forall|x: ID| #[trigger] new_ids(s1).contains(x)
        implies new_ids(s2).contains(x) by {
        let j = choose|j: int|
            0 <= j < s1.len() && (#[trigger] s1[j].content matches OpContent::New { .. })
                && s1[j].id == x;
        assert(s1.to_set().contains(s1[j])) by {
            assert(s1[j] == s1[j]);
        }
        assert(s2.to_set().contains(s1[j]));
        let j2 = choose|j2: int| 0 <= j2 < s2.len() && s2[j2] == s1[j];
    }
}

/// Deletes found in one sequence are found in any sequence holding at
/// least its operations.
pub proof fn lemma_has_delete_subset(s1: Seq<Op>, s2: Seq<Op>, x: ID)
    requires
        has_delete(s1, x),
        forall|y: Op| s1.to_set().contains(y) ==> #[trigger] s2.to_set().contains(y),
    ensures
        has_delete(s2, x),
{
    let j = choose|j: int| 0 <= j < s1.len() && #[trigger] s1[j].content == OpContent::Delete(x);
    assert(s1.to_set().contains(s1[j])) by {
        assert(s1[j] == s1[j]);
    }
    assert(s2.to_set().contains(s1[j]));
    let j2 = choose|j2: int| 0 <= j2 < s2.len() && s2[j2] == s1[j];
}

/// One simulation step: applying the next pending operation to the
/// simulating forest matches moving it into the kept prefix.  Also
/// names the membership facts an executable caller needs.
pub proof fn lemma_sim_step(m: Map<ID, TreeNode>, kept: Seq<Op>, pending: Seq<Op>)
    requires
        sim_rel(m, kept, pending),
        pending.len() > 0,
        sorted_strict(kept + pending),
        closed_set((kept + pending).to_set()),
    ensures
        sim_rel(apply_op(m, pending[0]), kept.push(pending[0]), pending.drop_first()),
        match pending[0].content {
            OpContent::New { parent } => match parent {
                Some(p) => m.dom().contains(p),
                None => true,
            },
            OpContent::Move { target, parent } => m.dom().contains(target)
                && new_ids(kept).contains(target) && m[target].parent
                == replay(kept)[target].parent && match parent {
                Some(p) => m.dom().contains(p),
                None => true,
            },
            OpContent::Delete(target) => m.dom().contains(target) && new_ids(kept).contains(
                target,
            ),
        },
{
    let s = kept + pending;
    let i = kept.len() as int;
    let op = pending[0];
    let r = replay(kept);
    assert(s.take(i) =~= kept);
    assert(s[i] == op);
    lemma_prefix_closed(s, i);
    lemma_replay_props(kept);
    lemma_step_refs(s, i);
    assert(s.to_set().contains(op)) by {
        assert(s[i] == op);
    }
    let kept2 = kept.push(op);
    let pending2 = pending.drop_first();
    assert(kept2.drop_last() =~= kept);
    assert(kept2.last() == op);
    let r2 = replay(kept2);
    assert(r2 == apply_op(r, op));
    let m2 = apply_op(m, op);
    lemma_new_ids_push(kept, op);
    // transfers of `has_delete` across the moved operation
    assert forall|x: ID| has_delete(kept, x) implies #[trigger] has_delete(kept2, x) by {
        let j = choose|j: int|
            0 <= j < kept.len() && #[trigger] kept[j].content == OpContent::Delete(x);
        assert(kept2[j].content == OpContent::Delete(x));
    }
    assert forall|x: ID| has_delete(pending, x) && op.content != OpContent::Delete(x)
        implies #[trigger] has_delete(pending2, x) by {
        let j = choose|j: int|
            0 <= j < pending.len() && #[trigger] pending[j].content == OpContent::Delete(x);
        assert(j > 0);
        assert(pending2[j - 1].content == OpContent::Delete(x));
    }
    assert forall|x: ID| #[trigger] has_delete(pending2, x) implies has_delete(pending, x) by {
        let j = choose|j: int|
            0 <= j < pending2.len() && #[trigger] pending2[j].content == OpContent::Delete(x);
        assert(pending[j + 1].content == OpContent::Delete(x));
    }
    assert forall|x: ID| new_ids(pending2).contains(x)
        implies #[trigger] new_ids(pending).contains(x) by {
        let j = choose|j: int|
            0 <= j < pending2.len() && (#[trigger] pending2[j].content
                matches OpContent::New { .. }) && pending2[j].id == x;
        assert(pending[j + 1] == pending2[j]);
    }
    assert forall|x: ID| new_ids(pending).contains(x)
        implies x == op.id || #[trigger] new_ids(pending2).contains(x) by {
        let j = choose|j: int|
            0 <= j < pending.len() && (#[trigger] pending[j].content
                matches OpContent::New { .. }) && pending[j].id == x;
        if j > 0 {
            assert(pending2[j - 1] == pending[j]);
        }
    }
    // the region agreement needed for ancestry checks
    assert forall|x: ID| #[trigger] r.dom().contains(x)
        implies m.dom().contains(x) && m[x].parent == r[x].parent by {
        assert(new_ids(kept).contains(x));
    }
    match op.content {
        OpContent::Move { target, parent } => {
            assert(has_new_below(s.to_set(), target, op.id));
            assert(new_ids(kept).contains(target));
            assert(m.dom().contains(target) && r.dom().contains(target));
            if parent is Some {
                assert(has_new_below(s.to_set(), parent->0, op.id));
                assert(new_ids(kept).contains(parent->0));
            }
            // the cycle checks agree between `m` and the replay
            match parent {
                Some(p) => {
                    assert(is_ancestor(m, target, p) == is_ancestor(r, target, p)) by {
                        if is_ancestor(m, target, p) {
                            let n = choose|n: nat| anc_within(m, target, p, n);
                            lemma_region_anc_agree(m, r, target, p, n);
                        }
                        if is_ancestor(r, target, p) {
                            let n = choose|n: nat| anc_within(r, target, p, n);
                            lemma_region_anc_agree(m, r, target, p, n);
                        }
                    }
                },
                None => {},
            }
            assert(sim_rel(m2, kept2, pending2)) by {
                lemma_sim_common(m, kept, pending, op, target);
            }
        },
        OpContent::Delete(target) => {
            assert(has_new_below(s.to_set(), target, op.id));
            assert(new_ids(kept).contains(target));
            assert(m.dom().contains(target));
            assert(has_delete(kept2, target)) by {
                assert(kept2[kept.len() as int].content == OpContent::Delete(target));
            }
            assert(sim_rel(m2, kept2, pending2)) by {
                lemma_sim_common(m, kept, pending, op, target);
            }
        },
        OpContent::New { parent } => {
            let id = op.id;
            assert(!new_ids(kept).contains(id));
            assert(!r.dom().contains(id));
            if parent is Some {
                assert(has_new_below(s.to_set(), parent->0, op.id));
                assert(new_ids(kept).contains(parent->0));
                assert(m.dom().contains(parent->0));
                // a stale node cannot be an ancestor of the parent:
                // the walk stays inside the replayed region
                assert(!is_ancestor(m, id, parent->0)) by {
                    if is_ancestor(m, id, parent->0) {
                        let n = choose|n: nat| anc_within(m, id, parent->0, n);
                        lemma_region_anc_agree(m, r, id, parent->0, n);
                        lemma_ancestor_in_dom(r, id, parent->0, n);
                    }
                }
            }
            assert(sim_rel(m2, kept2, pending2)) by {
                lemma_sim_common(m, kept, pending, op, id);
            }
        },
    }
}

/// The clause-by-clause checks shared by the three cases of
/// `lemma_sim_step`; `touched` is the node the operation writes.
#[verifier::spinoff_prover]
proof fn lemma_sim_common(m: Map<ID, TreeNode>, kept: Seq<Op>, pending: Seq<Op>, op: Op, touched: ID)
    requires
        sim_rel(m, kept, pending),
        pending.len() > 0,
        op == pending[0],
        sorted_strict(kept + pending),
        closed_set((kept + pending).to_set()),
        match op.content {
            OpContent::New { parent } => touched == op.id && !new_ids(kept).contains(op.id)
                && !replay(kept).dom().contains(op.id) && (m.dom().contains(op.id)
                ==> match parent {
                Some(p) => !is_ancestor(m, op.id, p),
                None => true,
            }),
            OpContent::Move { target, parent } => touched == target && new_ids(kept).contains(
                target,
            ) && m.dom().contains(target) && replay(kept).dom().contains(target) && match parent {
                Some(p) => is_ancestor(m, target, p) == is_ancestor(replay(kept), target, p),
                None => true,
            },
            OpContent::Delete(target) => touched == target && new_ids(kept).contains(target)
                && m.dom().contains(target) && replay(kept).dom().contains(target),
        },
        replay(kept).dom() == new_ids(kept),
        forall|x: ID| #[trigger]
            replay(kept).dom().contains(x) ==> replay(kept)[x].deleted == has_delete(kept, x),
        new_ids(kept.push(op)) == if op.content matches OpContent::New { .. } {
            new_ids(kept).insert(op.id)
        } else {
            new_ids(kept)
        },
        replay(kept.push(op)) == apply_op(replay(kept), op),
        forall|x: ID| has_delete(kept, x) ==> #[trigger] has_delete(kept.push(op), x),
        forall|x: ID|
            has_delete(pending, x) && op.content != OpContent::Delete(x) ==> #[trigger] has_delete(
                pending.drop_first(),
                x,
            ),
        forall|x: ID| #[trigger]
            has_delete(pending.drop_first(), x) ==> has_delete(pending, x),
        forall|x: ID|
            new_ids(pending.drop_first()).contains(x) ==> #[trigger] new_ids(pending).contains(x),
        forall|x: ID| #[trigger]
            new_ids(pending).contains(x) ==> x == op.id || new_ids(pending.drop_first()).contains(
                x,
            ),
        op.content matches OpContent::Delete(t) ==> has_delete(kept.push(op), t),
    ensures
        sim_rel(apply_op(m, op), kept.push(op), pending.drop_first()),
{
    let r = replay(kept);
    let m2 = apply_op(m, op);
    let kept2 = kept.push(op);
    let pending2 = pending.drop_first();
    let r2 = replay(kept2);
    assert(pending.to_set().contains(op)) by {
        assert(pending[0] == op);
    }
    match op.content {
        OpContent::New { parent } => {
            assert(new_ids(pending).contains(op.id)) by {
                assert(pending[0].content matches OpContent::New { .. } && pending[0].id
                    == op.id);
            }
            assert(m2 == m.insert(
                op.id,
                TreeNode { parent, deleted: kept_flag(m, op.id) },
            ));
            assert(r2 == r.insert(op.id, TreeNode { parent, deleted: false }));
        },
        OpContent::Move { target, parent } => {
            match parent {
                Some(p) => {
                    if r.dom().contains(target) && is_ancestor(r, target, p) {
                        assert(m2 == m && r2 == r);
                    } else {
                        assert(m2 == m.insert(
                            target,
                            TreeNode { parent, deleted: kept_flag(m, target) },
                        ));
                        assert(r2 == r.insert(
                            target,
                            TreeNode { parent, deleted: kept_flag(r, target) },
                        ));
                    }
                },
                None => {
                    assert(m2 == m.insert(
                        target,
                        TreeNode { parent: None, deleted: kept_flag(m, target) },
                    ));
                    assert(r2 == r.insert(
                        target,
                        TreeNode { parent: None, deleted: kept_flag(r, target) },
                    ));
                },
            }
        },
        OpContent::Delete(target) => {
            assert(m2 == apply_flag(m, target, true));
            assert(r2 == apply_flag(r, target, true));
        },
    }
    assert forall|x: ID| #[trigger] new_ids(kept2).contains(x)
        implies m2.dom().contains(x) by {
        if x != touched {
            assert(new_ids(kept).contains(x));
        }
    }
    assert forall|x: ID| #[trigger] m2.dom().contains(x)
        implies new_ids(kept2).contains(x) || new_ids(pending2).contains(x) by {
        if x != touched {
            assert(m.dom().contains(x));
            if new_ids(pending).contains(x) && !new_ids(kept).contains(x) {
                if x == op.id {
                    assert(op.content matches OpContent::New { .. } ==> new_ids(kept2).contains(
                        x,
                    ));
                    if !(op.content matches OpContent::New { .. }) {
                        let j = choose|j: int|
                            0 <= j < pending.len() && (#[trigger] pending[j].content
                                matches OpContent::New { .. }) && pending[j].id == x;
                        assert(j > 0);
                        assert(pending2[j - 1] == pending[j]);
                        assert(new_ids(pending2).contains(x));
                    }
                }
            }
        } else {
            match op.content {
                OpContent::New { .. } => {
                    assert(new_ids(kept2).contains(op.id));
                },
                _ => {
                    assert(new_ids(kept).contains(touched));
                },
            }
        }
    }
    assert forall|x: ID| #[trigger] new_ids(kept2).contains(x)
        implies m2[x].parent == r2[x].parent by {
        if x != touched {
            assert(new_ids(kept).contains(x));
            assert(m2[x] == m[x] && r2[x] == r[x]);
        }
    }
    assert forall|x: ID| #[trigger] m2.dom().contains(x) && m2[x].deleted
        implies has_delete(kept2, x) || has_delete(pending2, x) by {
        if x == touched && (op.content matches OpContent::Delete(t)) {
        } else {
            let fl = if x == touched {
                kept_flag(m, x)
            } else {
                m2[x].deleted
            };
            assert(m.dom().contains(x) && m[x].deleted) by {
                if x == touched {
                    assert(m2[x].deleted == kept_flag(m, x));
                    assert(kept_flag(m, x) ==> m.dom().contains(x) && m[x].deleted);
                }
            }
            if has_delete(pending, x) {
                if op.content == OpContent::Delete(x) {
                    assert(x == touched);
                    assert(has_delete(kept2, x));
                } else {
                    assert(has_delete(pending2, x));
                }
            }
        }
    }
    assert forall|x: ID| #[trigger] new_ids(kept2).contains(x) && r2[x].deleted
        && !m2[x].deleted implies has_delete(pending2, x) by {
        if x == touched {
            match op.content {
                OpContent::New { .. } => {
                    assert(r2[x].deleted == false);
                },
                OpContent::Move { target, parent } => {
                    if m2 == m && r2 == r {
                        assert(has_delete(pending, x));
                        assert(op.content != OpContent::Delete(x));
                    } else {
                        assert(r2[x].deleted == kept_flag(r, x) && m2[x].deleted == kept_flag(
                            m,
                            x,
                        ));
                        assert(r[x].deleted && !m[x].deleted);
                        assert(has_delete(pending, x));
                        assert(op.content != OpContent::Delete(x));
                    }
                },
                OpContent::Delete(target) => {
                    assert(m2[x].deleted);
                },
            }
        } else {
            assert(new_ids(kept).contains(x));
            assert(r2[x] == r[x] && m2[x] == m[x]);
            assert(has_delete(pending, x));
            assert(op.content != OpContent::Delete(x));
        }
    }
}

/// The forest `m` is the full replay of `all` rewound down to the
/// prefix of length `k`: nodes created by the prefix carry the
/// prefix-replay parents, nodes created by the undone suffix remain
/// (their undo is a no-op) parked under their creation parent, set
/// deletion flags are justified somewhere in `all`, and a flag the
/// prefix replay holds but `m` lost will be restored by a delete in
/// the suffix.
pub open spec fn revert_rel(m: Map<ID, TreeNode>, all: Seq<Op>, k: int) -> bool {
    &&& 0 <= k <= all.len()
    &&& m.dom() == new_ids(all)
    &&& forall|x: ID| #[trigger]
        new_ids(all.take(k)).contains(x) ==> m[x].parent == replay(all.take(k))[x].parent
    &&& forall|q: int|
        k <= q < all.len() && (#[trigger] all[q].content matches OpContent::New { .. })
            ==> m[all[q].id].parent == new_parent_of(all[q])
    &&& forall|x: ID| #[trigger]
        m.dom().contains(x) && m[x].deleted ==> has_delete(all, x)
    &&& forall|x: ID| #[trigger]
        new_ids(all.take(k)).contains(x) && replay(all.take(k))[x].deleted && !m[x].deleted
            ==> has_delete(all.subrange(k, all.len() as int), x)
}

/// The full replay is the rewind relation at the full length.
pub proof fn lemma_revert_start(all: Seq<Op>)
    requires
        sorted_strict(all),
        closed_set(all.to_set()),
    ensures
        revert_rel(replay(all), all, all.len() as int),
{
    lemma_replay_props(all);
    assert(all.take(all.len() as int) =~= all);
    assert(all.subrange(all.len() as int, all.len() as int) =~= Seq::<Op>::empty());
}

/// One rewind step: undoing the operation at position `k - 1`.  A
/// `Move` is undone by moving the target back under its recorded old
/// parent (always free of the cyclic-move error), a `Delete` by
/// clearing the flag, a `New` by doing nothing.
pub proof fn lemma_revert_step(m: Map<ID, TreeNode>, all: Seq<Op>, k: int, opold: Option<ID>)
    requires
        revert_rel(m, all, k),
        sorted_strict(all),
        closed_set(all.to_set()),
        1 <= k <= all.len(),
        all[k - 1].content matches OpContent::Move { target, .. } ==> opold == replay(
            all.take(k - 1),
        )[target].parent,
    ensures
        match all[k - 1].content {
            OpContent::New { .. } => revert_rel(m, all, k - 1),
            OpContent::Move { target, .. } => {
                &&& m.dom().contains(target)
                &&& (opold matches Some(q) ==> m.dom().contains(q))
                &&& crate::forest_spec::mov_allowed(m, target, opold)
                &&& revert_rel(apply_mov(m, target, opold), all, k - 1)
            },
            OpContent::Delete(target) => {
                &&& m.dom().contains(target)
                &&& revert_rel(apply_flag(m, target, false), all, k - 1)
            },
        },
{
    let op = all[k - 1];
    let rk = replay(all.take(k));
    let rk1 = replay(all.take(k - 1));
    lemma_prefix_closed(all, k);
    lemma_prefix_closed(all, k - 1);
    lemma_replay_props(all.take(k));
    lemma_replay_props(all.take(k - 1));
    lemma_replay_step(all, k - 1);
    assert(rk == apply_op(rk1, op));
    lemma_step_refs(all, k - 1);
    assert(all.to_set().contains(op)) by {
        assert(all[k - 1] == op);
    }
    assert(all.take(k) =~= all.take(k - 1).push(op));
    lemma_new_ids_push(all.take(k - 1), op);
    // creations of the shorter prefix are creations of the longer one
    assert forall|x: ID| #[trigger] new_ids(all.take(k - 1)).contains(x)
        implies new_ids(all.take(k)).contains(x) && x != op.id by {
        let j = choose|j: int|
            0 <= j < all.take(k - 1).len() && (#[trigger] all.take(k - 1)[j].content
                matches OpContent::New { .. }) && all.take(k - 1)[j].id == x;
        assert(all.take(k)[j] == all.take(k - 1)[j]);
        assert(all[j].id.lt_spec(all[k - 1].id));
    }
    // the deletion-flag debt shifts by one position
    assert forall|x: ID| has_delete(all.subrange(k, all.len() as int), x)
        implies #[trigger] has_delete(all.subrange(k - 1, all.len() as int), x) by {
        let j = choose|j: int|
            0 <= j < all.subrange(k, all.len() as int).len() && #[trigger] all.subrange(
                k,
                all.len() as int,
            )[j].content == OpContent::Delete(x);
        assert(all.subrange(k - 1, all.len() as int)[j + 1].content == OpContent::Delete(x));
    }
    // the region of the shorter prefix agrees between `m` and its replay
    assert forall|x: ID| #[trigger] rk.dom().contains(x)
        implies m.dom().contains(x) && m[x].parent == rk[x].parent by {
        assert(new_ids(all.take(k)).contains(x));
        assert(new_ids(all).contains(x)) by {
            lemma_new_ids_subset(all.take(k), all);
            assert(forall|y: Op|
                all.take(k).to_set().contains(y) ==> #[trigger] all.to_set().contains(y));
        }
    }
    match op.content {
        OpContent::New { parent } => {
            assert(!new_ids(all.take(k - 1)).contains(op.id));
            assert(!rk1.dom().contains(op.id));
            assert(rk == rk1.insert(op.id, TreeNode { parent, deleted: false }));
            assert(revert_rel(m, all, k - 1)) by {
                assert forall|x: ID| #[trigger] new_ids(all.take(k - 1)).contains(x)
                    implies m[x].parent == rk1[x].parent by {
                    assert(new_ids(all.take(k)).contains(x));
                    assert(m[x].parent == rk[x].parent);
                    assert(rk[x] == rk1[x]);
                }
                assert forall|q: int|
                    k - 1 <= q < all.len() && (#[trigger] all[q].content
                        matches OpContent::New { .. })
                    implies m[all[q].id].parent == new_parent_of(all[q]) by {
                    if q == k - 1 {
                        assert(new_ids(all.take(k)).contains(op.id)) by {
                            assert(all.take(k)[k - 1] == op);
                        }
                        assert(m[op.id].parent == rk[op.id].parent);
                    }
                }
                assert forall|x: ID|
                    #[trigger] new_ids(all.take(k - 1)).contains(x) && rk1[x].deleted
                        && !m[x].deleted
                    implies has_delete(all.subrange(k - 1, all.len() as int), x) by {
                    assert(x != op.id);
                    assert(rk[x] == rk1[x]);
                    assert(new_ids(all.take(k)).contains(x));
                }
            }
        },
        OpContent::Delete(target) => {
            assert(has_new_below(all.to_set(), target, op.id));
            assert(new_ids(all.take(k - 1)).contains(target));
            assert(m.dom().contains(target)) by {
                lemma_new_ids_subset(all.take(k - 1), all);
                assert(forall|y: Op|
                    all.take(k - 1).to_set().contains(y) ==> #[trigger] all.to_set().contains(
                        y,
                    ));
            }
            assert(rk == apply_flag(rk1, target, true));
            let m2 = apply_flag(m, target, false);
            assert(revert_rel(m2, all, k - 1)) by {
                assert(m2.dom() =~= m.dom());
                assert forall|x: ID| #[trigger] new_ids(all.take(k - 1)).contains(x)
                    implies m2[x].parent == rk1[x].parent by {
                    assert(new_ids(all.take(k)).contains(x));
                    assert(m[x].parent == rk[x].parent);
                    if x == target {
                        assert(m2[x].parent == m[x].parent);
                        assert(rk[x].parent == rk1[x].parent);
                    } else {
                        assert(rk[x] == rk1[x]);
                    }
                }
                assert forall|q: int|
                    k - 1 <= q < all.len() && (#[trigger] all[q].content
                        matches OpContent::New { .. })
                    implies m2[all[q].id].parent == new_parent_of(all[q]) by {
                    if q > k - 1 {
                        if all[q].id == target {
                            // the target's creation sits before the delete
                            let jn = choose|n: Op|
                                all.to_set().contains(n) && (n.content
                                    matches OpContent::New { .. }) && n.id == target
                                    && #[trigger] n.id.lt_spec(op.id);
                            assert(all[q].id.lt_spec(all[q].id)) by {
                                let jq = choose|j: int|
                                    0 <= j < all.len() && all[j] == jn;
                                if jq < q {
                                    assert(all[jq].id.lt_spec(all[q].id));
                                } else if jq > q {
                                    assert(all[q].id.lt_spec(all[jq].id));
                                }
                            }
                        }
                        assert(m2[all[q].id] == m[all[q].id]);
                    }
                }
                assert forall|x: ID|
                    #[trigger] new_ids(all.take(k - 1)).contains(x) && rk1[x].deleted
                        && !m2[x].deleted
                    implies has_delete(all.subrange(k - 1, all.len() as int), x) by {
                    if x == target {
                        assert(all.subrange(k - 1, all.len() as int)[0].content
                            == OpContent::Delete(x));
                    } else {
                        assert(rk[x] == rk1[x]);
                        assert(m2[x] == m[x]);
                        assert(new_ids(all.take(k)).contains(x));
                    }
                }
            }
        },
        OpContent::Move { target, parent } => {
            assert(has_new_below(all.to_set(), target, op.id));
            assert(new_ids(all.take(k - 1)).contains(target));
            assert(rk1.dom().contains(target));
            assert(rk1[target].parent == opold);
            assert(m.dom().contains(target)) by {
                lemma_new_ids_subset(all.take(k - 1), all);
                assert(forall|y: Op|
                    all.take(k - 1).to_set().contains(y) ==> #[trigger] all.to_set().contains(
                        y,
                    ));
            }
            assert(opold matches Some(q) ==> m.dom().contains(q) && rk.dom().contains(q)) by {
                if let Some(q) = opold {
                    assert(rk1.dom().contains(q));
                    assert(new_ids(all.take(k - 1)).contains(q));
                    assert(new_ids(all.take(k)).contains(q));
                    lemma_new_ids_subset(all.take(k), all);
                    assert(forall|y: Op|
                        all.take(k).to_set().contains(y) ==> #[trigger] all.to_set().contains(
                            y,
                        ));
                }
            }
            // moving the target back can never announce a cycle
            assert(crate::forest_spec::mov_allowed(m, target, opold)) by {
                if let Some(q) = opold {
                    if is_ancestor(m, target, q) {
                        let n = choose|n: nat| anc_within(m, target, q, n);
                        lemma_region_anc_agree(m, rk, target, q, n);
                        assert(anc_within(rk, target, q, n));
                        lemma_wf_acyclic(rk1);
                        if rk == rk1 {
                        } else {
                            match parent {
                                Some(pp) => {
                                    lemma_anc_insert_target(
                                        rk1,
                                        target,
                                        TreeNode {
                                            parent: Some(pp),
                                            deleted: kept_flag(rk1, target),
                                        },
                                        q,
                                        n,
                                    );
                                },
                                None => {
                                    lemma_anc_insert_target(
                                        rk1,
                                        target,
                                        TreeNode {
                                            parent: None,
                                            deleted: kept_flag(rk1, target),
                                        },
                                        q,
                                        n,
                                    );
                                },
                            }
                        }
                        assert(anc_within(rk1, target, q, n));
                        assert(is_ancestor(rk1, target, q));
                    }
                }
            }
            let m2 = apply_mov(m, target, opold);
            assert(m2 == m.insert(
                target,
                TreeNode { parent: opold, deleted: kept_flag(m, target) },
            ));
            assert(kept_flag(m, target) == m[target].deleted);
            assert(revert_rel(m2, all, k - 1)) by {
                assert(m2.dom() =~= m.dom());
                assert forall|x: ID| #[trigger] new_ids(all.take(k - 1)).contains(x)
                    implies m2[x].parent == rk1[x].parent by {
                    if x == target {
                        assert(m2[x].parent == opold);
                    } else {
                        assert(m2[x] == m[x]);
                        assert(new_ids(all.take(k)).contains(x));
                        assert(m[x].parent == rk[x].parent);
                        assert(rk[x] == rk1[x]) by {
                            if rk != rk1 {
                                assert(rk == rk1.insert(
                                    target,
                                    TreeNode {
                                        parent,
                                        deleted: kept_flag(rk1, target),
                                    },
                                ) || rk == rk1.insert(
                                    target,
                                    TreeNode {
                                        parent: None,
                                        deleted: kept_flag(rk1, target),
                                    },
                                ));
                            }
                        }
                    }
                }
                assert forall|q2: int|
                    k - 1 <= q2 < all.len() && (#[trigger] all[q2].content
                        matches OpContent::New { .. })
                    implies m2[all[q2].id].parent == new_parent_of(all[q2]) by {
                    if all[q2].id == target {
                        let jn = choose|n: Op|
                            all.to_set().contains(n) && (n.content
                                matches OpContent::New { .. }) && n.id == target
                                && #[trigger] n.id.lt_spec(op.id);
                        let jq = choose|j: int| 0 <= j < all.len() && all[j] == jn;
                        assert(all[q2].id.lt_spec(all[q2].id)) by {
                            if jq < q2 {
                                assert(all[jq].id.lt_spec(all[q2].id));
                            } else if jq > q2 {
                                assert(all[q2].id.lt_spec(all[jq].id));
                            }
                        }
                    }
                    assert(m2[all[q2].id] == m[all[q2].id]);
                }
                assert forall|x: ID| #[trigger] m2.dom().contains(x) && m2[x].deleted
                    implies has_delete(all, x) by {
                    if x == target {
                        assert(m2[x].deleted == m[target].deleted);
                    }
                }
                assert forall|x: ID|
                    #[trigger] new_ids(all.take(k - 1)).contains(x) && rk1[x].deleted
                        && !m2[x].deleted
                    implies has_delete(all.subrange(k - 1, all.len() as int), x) by {
                    assert(new_ids(all.take(k)).contains(x));
                    assert(rk[x].deleted == rk1[x].deleted) by {
                        if x == target && rk != rk1 {
                            assert(rk[x].deleted == kept_flag(rk1, target));
                        }
                    }
                    assert(m2[x].deleted == m[x].deleted);
                }
            }
        },
    }
}

/// A rewound forest is well formed: prefix-created nodes reach roots
/// along the prefix replay, and parked suffix creations hang from
/// strictly earlier creations.
pub proof fn lemma_revert_wf(m: Map<ID, TreeNode>, all: Seq<Op>, k: int)
    requires
        revert_rel(m, all, k),
        sorted_strict(all),
        closed_set(all.to_set()),
    ensures
        forest_wf(m),
{
    lemma_prefix_closed(all, k);
    lemma_replay_props(all.take(k));
    let rk = replay(all.take(k));
    assert forall|x: ID| #[trigger] rk.dom().contains(x)
        implies m.dom().contains(x) && m[x].parent == rk[x].parent by {
        assert(new_ids(all.take(k)).contains(x));
        lemma_new_ids_subset(all.take(k), all);
        assert(forall|y: Op|
            all.take(k).to_set().contains(y) ==> #[trigger] all.to_set().contains(y));
    }
    assert forall|x: ID| #[trigger] m.dom().contains(x)
        implies match m[x].parent {
            Some(p) => m.dom().contains(p),
            None => true,
        } by {
        let q = choose|q: int|
            0 <= q < all.len() && (#[trigger] all[q].content matches OpContent::New { .. })
                && all[q].id == x;
        lemma_revert_reach(m, all, k, q);
    }
    assert forall|x: ID| #[trigger] m.dom().contains(x)
        implies exists|n: nat| reaches_root(m, x, n) by {
        let q = choose|q: int|
            0 <= q < all.len() && (#[trigger] all[q].content matches OpContent::New { .. })
                && all[q].id == x;
        lemma_revert_reach(m, all, k, q);
    }
}

/// The node created at position `q` reaches a root in the rewound
/// forest, by induction over creation positions.
proof fn lemma_revert_reach(m: Map<ID, TreeNode>, all: Seq<Op>, k: int, q: int)
    requires
        revert_rel(m, all, k),
        sorted_strict(all),
        closed_set(all.to_set()),
        0 <= q < all.len(),
        all[q].content matches OpContent::New { .. },
    ensures
        exists|n: nat| reaches_root(m, all[q].id, n),
        match m[all[q].id].parent {
            Some(p) => m.dom().contains(p),
            None => true,
        },
    decreases q,
{
    let x = all[q].id;
    assert(m.dom().contains(x)) by {
        assert(new_ids(all).contains(x));
    }
    lemma_prefix_closed(all, k);
    lemma_replay_props(all.take(k));
    let rk = replay(all.take(k));
    assert forall|y: ID| #[trigger] rk.dom().contains(y)
        implies m.dom().contains(y) && m[y].parent == rk[y].parent by {
        assert(new_ids(all.take(k)).contains(y));
        lemma_new_ids_subset(all.take(k), all);
        assert(forall|z: Op|
            all.take(k).to_set().contains(z) ==> #[trigger] all.to_set().contains(z));
    }
    if q < k {
        assert(new_ids(all.take(k)).contains(x)) by {
            assert(all.take(k)[q] == all[q]);
        }
        assert(rk.dom().contains(x));
        let n = choose|n: nat| reaches_root(rk, x, n);
        lemma_region_reach(m, rk, x, n);
        assert(reaches_root(m, x, n));
        match m[x].parent {
            Some(p) => {
                assert(rk.dom().contains(p));
            },
            None => {},
        }
    } else {
        assert(m[x].parent == new_parent_of(all[q]));
        match new_parent_of(all[q]) {
            None => {
                assert(reaches_root(m, x, 0));
            },
            Some(p) => {
                assert(all.to_set().contains(all[q])) by {
                    assert(all[q] == all[q]);
                }
                assert(has_new_below(all.to_set(), p, all[q].id));
                let np = choose|n: Op|
                    all.to_set().contains(n) && (n.content matches OpContent::New { .. })
                        && n.id == p && #[trigger] n.id.lt_spec(all[q].id);
                let qp = choose|j: int| 0 <= j < all.len() && all[j] == np;
                assert(qp < q) by {
                    if qp > q {
                        assert(all[q].id.lt_spec(all[qp].id));
                    } else if qp == q {
                        assert(all[q].id.lt_spec(all[q].id));
                    }
                }
                lemma_revert_reach(m, all, k, qp);
                let n = choose|n: nat| reaches_root(m, p, n);
                assert(m.dom().contains(p)) by {
                    assert(new_ids(all).contains(p)) by {
                        assert(all[qp].content matches OpContent::New { .. } && all[qp].id
                            == p);
                    }
                }
                assert(reaches_root(m, x, n + 1));
            },
        }
    }
}

/// Handing the rewound forest to the replay of the merged tail: the
/// rewind relation at the cut implies the simulation relation for any
/// tail holding at least the undone suffix.
pub proof fn lemma_revert_to_sim(m: Map<ID, TreeNode>, all: Seq<Op>, k: int, tail: Seq<Op>)
    requires
        revert_rel(m, all, k),
        sorted_strict(all),
        closed_set(all.to_set()),
        forall|y: Op|
            all.subrange(k, all.len() as int).to_set().contains(y) ==> #[trigger] tail.to_set().contains(y),
    ensures
        sim_rel(m, all.take(k), tail),
{
    let kept = all.take(k);
    let suffix = all.subrange(k, all.len() as int);
    lemma_prefix_closed(all, k);
    lemma_replay_props(kept);
    assert forall|x: ID| #[trigger] new_ids(kept).contains(x)
        implies m.dom().contains(x) by {
        lemma_new_ids_subset(kept, all);
        assert(forall|y: Op|
            kept.to_set().contains(y) ==> #[trigger] all.to_set().contains(y));
    }
    assert forall|x: ID| #[trigger] m.dom().contains(x)
        implies new_ids(kept).contains(x) || new_ids(tail).contains(x) by {
        let q = choose|q: int|
            0 <= q < all.len() && (#[trigger] all[q].content matches OpContent::New { .. })
                && all[q].id == x;
        if q < k {
            assert(kept[q] == all[q]);
            assert(new_ids(kept).contains(x));
        } else {
            assert(new_ids(suffix).contains(x)) by {
                assert(suffix[q - k] == all[q]);
            }
            lemma_new_ids_subset(suffix, tail);
        }
    }
    assert forall|x: ID| #[trigger] m.dom().contains(x) && m[x].deleted
        implies has_delete(kept, x) || has_delete(tail, x) by {
        let j = choose|j: int|
            0 <= j < all.len() && #[trigger] all[j].content == OpContent::Delete(x);
        if j < k {
            assert(kept[j].content == OpContent::Delete(x));
        } else {
            assert(has_delete(suffix, x)) by {
                assert(suffix[j - k].content == OpContent::Delete(x));
            }
            lemma_has_delete_subset(suffix, tail, x);
        }
    }
    assert forall|x: ID|
        #[trigger] new_ids(kept).contains(x) && replay(kept)[x].deleted && !m[x].deleted
        implies has_delete(tail, x) by {
        assert(has_delete(suffix, x));
        lemma_has_delete_subset(suffix, tail, x);
    }
}

/// The simulation closes: with nothing pending, the forest is exactly
/// the replay of the kept sequence.
pub proof fn lemma_sim_done(m: Map<ID, TreeNode>, kept: Seq<Op>)
    requires
        sim_rel(m, kept, Seq::empty()),
        sorted_strict(kept),
        closed_set(kept.to_set()),
    ensures
        m == replay(kept),
{
    lemma_replay_props(kept);
    let r = replay(kept);
    assert(new_ids(Seq::<Op>::empty()) =~= Set::<ID>::empty());
    assert forall|x: ID| true implies !has_delete(Seq::<Op>::empty(), x) by {
        if has_delete(Seq::<Op>::empty(), x) {
            let j = choose|j: int|
                0 <= j < 0 && #[trigger] Seq::<Op>::empty()[j].content == OpContent::Delete(x);
        }
    }
    assert(m =~= r) by {
        assert forall|x: ID| #[trigger] m.dom().contains(x) == r.dom().contains(x) by {
            if m.dom().contains(x) {
                assert(new_ids(kept).contains(x));
            }
            if r.dom().contains(x) {
                assert(new_ids(kept).contains(x));
            }
        }
        assert forall|x: ID| m.dom().contains(x) implies #[trigger] m[x] == r[x] by {
            assert(new_ids(kept).contains(x));
            assert(m[x].parent == r[x].parent);
            assert(m[x].deleted ==> has_delete(kept, x));
            assert(r[x].deleted == has_delete(kept, x));
            assert(m[x].deleted == r[x].deleted);
        }
    }
}

} // verus!
