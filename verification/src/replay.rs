//! Properties of replaying an id-sorted, reference-closed operation
//! sequence: the domain of the resulting forest is exactly the set of
//! created ids, the forest stays well formed, and a node is deleted
//! exactly when some `Delete` in the sequence names it.

use vstd::prelude::*;

use crate::forest_spec::apply_op;
use crate::forest_spec::forest_wf;
use crate::forest_spec::is_ancestor;
use crate::forest_spec::kept_flag;
use crate::forest_spec::replay;
use crate::forest_spec::lemma_apply_mov_wf;
use crate::forest_spec::lemma_apply_flag_wf;
use crate::ops::closed_set;
use crate::ops::has_new_below;
use crate::ops::sorted_strict;
use crate::ops::ID;
use crate::ops::Op;
use crate::ops::OpContent;

verus! {

/// The ids created by the `New` operations of the sequence.
pub open spec fn new_ids(s: Seq<Op>) -> Set<ID> {
    Set::new(
        |i: ID|
            exists|j: int|
                0 <= j < s.len() && (#[trigger] s[j].content matches OpContent::New { .. })
                    && s[j].id == i,
    )
}

/// Some operation of the sequence deletes `x`.
pub open spec fn has_delete(s: Seq<Op>, x: ID) -> bool {
    exists|j: int| 0 <= j < s.len() && #[trigger] s[j].content == OpContent::Delete(x)
}

/// A prefix of a sorted sequence with a closed element set has a closed
/// element set itself: every reference witness has a smaller id and so
/// sits in the prefix.
pub proof fn lemma_prefix_closed(s: Seq<Op>, i: int)
    requires
        sorted_strict(s),
        closed_set(s.to_set()),
        0 <= i <= s.len(),
    ensures
        sorted_strict(s.take(i)),
        closed_set(s.take(i).to_set()),
{
    let p = s.take(i);
    assert forall|op: Op| #[trigger] p.to_set().contains(op) implies match op.content {
        OpContent::New { parent } => match parent {
            Some(q) => has_new_below(p.to_set(), q, op.id),
            None => true,
        },
        OpContent::Move { target, parent } => has_new_below(p.to_set(), target, op.id)
            && match parent {
                Some(q) => has_new_below(p.to_set(), q, op.id),
                None => true,
            },
        OpContent::Delete(target) => has_new_below(p.to_set(), target, op.id),
    } by {
        let jop = choose|j: int| 0 <= j < p.len() && p[j] == op;
        assert(s[jop] == op);
        assert(s.to_set().contains(op));
        lemma_witness_in_prefix(s, i, op);
    }
}

/// Every `has_new_below` witness for an operation of a prefix lies in
/// the prefix.
proof fn lemma_witness_in_prefix(s: Seq<Op>, i: int, op: Op)
    requires
        sorted_strict(s),
        closed_set(s.to_set()),
        0 <= i <= s.len(),
        s.take(i).to_set().contains(op),
    ensures
        forall|r: ID|
            has_new_below(s.to_set(), r, op.id) ==> #[trigger] has_new_below(
                s.take(i).to_set(),
                r,
                op.id,
            ),
{
    let p = s.take(i);
    let jop = choose|j: int| 0 <= j < p.len() && p[j] == op;
    assert forall|r: ID| has_new_below(s.to_set(), r, op.id)
        implies #[trigger] has_new_below(p.to_set(), r, op.id) by {
        let n = choose|n: Op|
            s.to_set().contains(n) && (n.content matches OpContent::New { .. }) && n.id == r
                && #[trigger] n.id.lt_spec(op.id);
        let jn = choose|j: int| 0 <= j < s.len() && s[j] == n;
        assert(n.id.lt_spec(s[jop].id));
        if jn >= i {
            assert(s[jop].id.lt_spec(s[jn].id) || jop == jn);
        }
        assert(p[jn] == n);
        assert(p.to_set().contains(n));
    }
}

/// All ids occurring in a prefix are strictly below the id at the cut.
proof fn lemma_new_ids_bounded(s: Seq<Op>, i: int)
    requires
        sorted_strict(s),
        0 <= i < s.len(),
    ensures
        forall|x: ID| #[trigger] new_ids(s.take(i)).contains(x) ==> x.lt_spec(s[i].id),
{
    assert forall|x: ID| #[trigger] new_ids(s.take(i)).contains(x)
        implies x.lt_spec(s[i].id) by {
        let j = choose|j: int|
            0 <= j < s.take(i).len() && (#[trigger] s.take(i)[j].content matches OpContent::New {
                ..
            }) && s.take(i)[j].id == x;
        assert(s[j].id.lt_spec(s[i].id));
    }
}

/// Replaying a sorted, closed sequence: the domain is the set of
/// created ids, the forest is well formed, and the deletion flags are
/// exactly the ids some `Delete` names.
pub proof fn lemma_replay_props(s: Seq<Op>)
    requires
        sorted_strict(s),
        closed_set(s.to_set()),
    ensures
        replay(s).dom() =~= new_ids(s),
        forest_wf(replay(s)),
        forall|x: ID| #[trigger]
            replay(s).dom().contains(x) ==> replay(s)[x].deleted == has_delete(s, x),
    decreases s.len(),
{
    if s.len() == 0 {
        assert(replay(s).dom() =~= new_ids(s));
    } else {
        let s0 = s.drop_last();
        let op = s.last();
        let i = s.len() - 1;
        assert(s0 =~= s.take(i));
        lemma_prefix_closed(s, i);
        lemma_replay_props(s0);
        let m0 = replay(s0);
        let m1 = replay(s);
        assert(m1 == apply_op(m0, op));
        lemma_new_ids_bounded(s, i);
        assert(s.to_set().contains(op)) by {
            assert(s[i] == op);
        }
        // every reference of `op` is an already-created id
        assert forall|r: ID| has_new_below(s.to_set(), r, op.id)
            implies #[trigger] m0.dom().contains(r) by {
            let n = choose|n: Op|
                s.to_set().contains(n) && (n.content matches OpContent::New { .. }) && n.id == r
                    && #[trigger] n.id.lt_spec(op.id);
            let jn = choose|j: int| 0 <= j < s.len() && s[j] == n;
            if jn == i {
                assert(n == op);
            } else {
                assert(s0[jn] == n);
                assert(new_ids(s0).contains(r));
            }
        }
        match op.content {
            OpContent::New { parent } => {
                assert(!m0.dom().contains(op.id));
                lemma_apply_mov_wf(m0, op.id, parent);
                assert(m1.dom() =~= new_ids(s)) by {
                    assert forall|x: ID| #[trigger] new_ids(s).contains(x)
                        implies m1.dom().contains(x) by {
                        let j = choose|j: int|
                            0 <= j < s.len() && (#[trigger] s[j].content
                                matches OpContent::New { .. }) && s[j].id == x;
                        if j < i {
                            assert(s0[j] == s[j]);
                            assert(new_ids(s0).contains(x));
                        }
                    }
                    assert forall|x: ID| #[trigger] m1.dom().contains(x)
                        implies new_ids(s).contains(x) by {
                        if x == op.id {
                            assert(s[i].content matches OpContent::New { .. } && s[i].id == x);
                        } else {
                            let j = choose|j: int|
                                0 <= j < s0.len() && (#[trigger] s0[j].content
                                    matches OpContent::New { .. }) && s0[j].id == x;
                            assert(s[j] == s0[j]);
                        }
                    }
                }
                assert forall|x: ID| #[trigger] m1.dom().contains(x)
                    implies m1[x].deleted == has_delete(s, x) by {
                    if x == op.id {
                        assert(m1[x].deleted == false);
                        if has_delete(s, x) {
                            let j = choose|j: int|
                                0 <= j < s.len() && #[trigger] s[j].content
                                    == OpContent::Delete(x);
                            assert(s.to_set().contains(s[j]));
                            let n = choose|n: Op|
                                s.to_set().contains(n) && (n.content
                                    matches OpContent::New { .. }) && n.id == x
                                    && #[trigger] n.id.lt_spec(s[j].id);
                            let jn = choose|jj: int| 0 <= jj < s.len() && s[jj] == n;
                            // the only `New` with this id is `op` itself,
                            // whose id cannot be below the delete's id
                            if jn < i {
                                assert(new_ids(s0).contains(x));
                                assert(x.lt_spec(op.id));
                            } else {
                                assert(n == op);
                                if j < i {
                                    assert(s[j].id.lt_spec(s[i].id));
                                } else {
                                    assert(s[j] == op);
                                }
                            }
                        }
                        assert(!has_delete(s, x));
                    } else {
                        assert(m1[x] == m0[x]);
                        assert(has_delete(s0, x) ==> has_delete(s, x)) by {
                            if has_delete(s0, x) {
                                let j = choose|j: int|
                                    0 <= j < s0.len() && #[trigger] s0[j].content
                                        == OpContent::Delete(x);
                                assert(s[j].content == OpContent::Delete(x));
                            }
                        }
                        assert(has_delete(s, x) ==> has_delete(s0, x)) by {
                            if has_delete(s, x) {
                                let j = choose|j: int|
                                    0 <= j < s.len() && #[trigger] s[j].content
                                        == OpContent::Delete(x);
                                assert(j < i);
                                assert(s0[j].content == OpContent::Delete(x));
                            }
                        }
                    }
                }
            },
            OpContent::Move { target, parent } => {
                assert(m0.dom().contains(target));
                lemma_apply_mov_wf(m0, target, parent);
                assert(m1.dom() =~= m0.dom());
                assert(new_ids(s) =~= new_ids(s0)) by {
                    assert forall|x: ID| #[trigger] new_ids(s).contains(x)
                        implies new_ids(s0).contains(x) by {
                        let j = choose|j: int|
                            0 <= j < s.len() && (#[trigger] s[j].content
                                matches OpContent::New { .. }) && s[j].id == x;
                        assert(j < i);
                        assert(s0[j] == s[j]);
                    }
                    assert forall|x: ID| #[trigger] new_ids(s0).contains(x)
                        implies new_ids(s).contains(x) by {
                        let j = choose|j: int|
                            0 <= j < s0.len() && (#[trigger] s0[j].content
                                matches OpContent::New { .. }) && s0[j].id == x;
                        assert(s[j] == s0[j]);
                    }
                }
                assert forall|x: ID| #[trigger] m1.dom().contains(x)
                    implies m1[x].deleted == has_delete(s, x) by {
                    if m1[x] == m0[x] {
                    } else {
                        assert(x == target);
                        assert(m1[x].deleted == kept_flag(m0, target));
                    }
                    assert(has_delete(s, x) == has_delete(s0, x)) by {
                        lemma_delete_unchanged(s, x);
                    }
                }
            },
            OpContent::Delete(target) => {
                assert(m0.dom().contains(target));
                lemma_apply_flag_wf(m0, target, true);
                assert(m1.dom() =~= m0.dom());
                assert(new_ids(s) =~= new_ids(s0)) by {
                    assert forall|x: ID| #[trigger] new_ids(s).contains(x)
                        implies new_ids(s0).contains(x) by {
                        let j = choose|j: int|
                            0 <= j < s.len() && (#[trigger] s[j].content
                                matches OpContent::New { .. }) && s[j].id == x;
                        assert(j < i);
                        assert(s0[j] == s[j]);
                    }
                    assert forall|x: ID| #[trigger] new_ids(s0).contains(x)
                        implies new_ids(s).contains(x) by {
                        let j = choose|j: int|
                            0 <= j < s0.len() && (#[trigger] s0[j].content
                                matches OpContent::New { .. }) && s0[j].id == x;
                        assert(s[j] == s0[j]);
                    }
                }
                assert forall|x: ID| #[trigger] m1.dom().contains(x)
                    implies m1[x].deleted == has_delete(s, x) by {
                    if x == target {
                        assert(m1[x].deleted);
                        assert(s[i].content == OpContent::Delete(x));
                    } else {
                        assert(m1[x] == m0[x]);
                        assert(has_delete(s, x) == has_delete(s0, x)) by {
                            assert(s[i].content != OpContent::Delete(x));
                            lemma_delete_unchanged(s, x);
                        }
                    }
                }
            },
        }
    }
}

/// When the last entry does not delete `x`, dropping it leaves
/// `has_delete` unchanged.
proof fn lemma_delete_unchanged(s: Seq<Op>, x: ID)
    requires
        s.len() > 0,
        s.last().content != OpContent::Delete(x),
    ensures
        has_delete(s, x) == has_delete(s.drop_last(), x),
{
    let s0 = s.drop_last();
    if has_delete(s, x) {
        let j = choose|j: int| 0 <= j < s.len() && #[trigger] s[j].content == OpContent::Delete(x);
        assert(j < s.len() - 1);
        assert(s0[j].content == OpContent::Delete(x));
    }
    if has_delete(s0, x) {
        let j = choose|j: int|
            0 <= j < s0.len() && #[trigger] s0[j].content == OpContent::Delete(x);
        assert(s[j].content == OpContent::Delete(x));
    }
}

/// One step of replay: the prefix of length `i + 1` is the prefix of
/// length `i` with `s[i]` applied.
pub proof fn lemma_replay_step(s: Seq<Op>, i: int)
    requires
        0 <= i < s.len(),
    ensures
        replay(s.take(i + 1)) == apply_op(replay(s.take(i)), s[i]),
{
    let p = s.take(i + 1);
    assert(p.drop_last() =~= s.take(i));
    assert(p.last() == s[i]);
}

/// The references of the operation at position `i` of a sorted, closed
/// sequence are already created by the prefix before it.
pub proof fn lemma_step_refs(s: Seq<Op>, i: int)
    requires
        sorted_strict(s),
        closed_set(s.to_set()),
        0 <= i < s.len(),
    ensures
        forall|r: ID|
            has_new_below(s.to_set(), r, s[i].id) ==> #[trigger] new_ids(s.take(i)).contains(r),
        !new_ids(s.take(i)).contains(s[i].id),
{
    lemma_new_ids_bounded(s, i);
    assert forall|r: ID| has_new_below(s.to_set(), r, s[i].id)
        implies #[trigger] new_ids(s.take(i)).contains(r) by {
        let n = choose|n: Op|
            s.to_set().contains(n) && (n.content matches OpContent::New { .. }) && n.id == r
                && #[trigger] n.id.lt_spec(s[i].id);
        let jn = choose|j: int| 0 <= j < s.len() && s[j] == n;
        if jn >= i {
            assert(s[i].id.lt_spec(s[jn].id) || jn == i);
        }
        assert(s.take(i)[jn] == n);
    }
}

} // verus!
