//! The convergence laws of the replicas, proved from the invariants
//! the replica operations maintain: a well-formed replica's forest is
//! the replay of the unique id-sorted arrangement of its operation
//! set, so the forest is a function of that set alone.

use vstd::prelude::*;

use crate::crdt_snapshot;
use crate::crdt_undo;
use crate::forest_spec::acyclic;
use crate::forest_spec::replay;
use crate::forest_spec::lemma_wf_acyclic;
use crate::ops::lemma_sorted_unique_by_set;
use crate::ops::ID;
use crate::ops::Op;
use crate::ops::OpContent;
use crate::replay::lemma_replay_props;

verus! {

/// Replicas that know the same operations present the same forest,
/// whatever order merges brought the operations in.
pub proof fn lemma_convergence(a: &crdt_snapshot::Crdt, b: &crdt_snapshot::Crdt)
    requires
        a.wf(),
        b.wf(),
        a.op_set() == b.op_set(),
    ensures
        a.forest_view() == b.forest_view(),
{
    a.lemma_state();
    b.lemma_state();
    lemma_sorted_unique_by_set(a.sorted_view(), b.sorted_view());
}

/// Convergence of the undo-rewind replicas.
pub proof fn lemma_convergence_undo(a: &crdt_undo::Crdt, b: &crdt_undo::Crdt)
    requires
        a.wf(),
        b.wf(),
        a.op_set() == b.op_set(),
    ensures
        a.forest_view() == b.forest_view(),
{
    a.lemma_state();
    b.lemma_state();
    lemma_sorted_unique_by_set(a.sorted_view(), b.sorted_view());
}

/// Cross-variant equivalence: a snapshot-rewind replica and an
/// undo-rewind replica holding the same operation set present the
/// same forest.
pub proof fn lemma_cross_variant(a: &crdt_snapshot::Crdt, b: &crdt_undo::Crdt)
    requires
        a.wf(),
        b.wf(),
        a.op_set() == b.op_set(),
    ensures
        a.forest_view() == b.forest_view(),
{
    a.lemma_state();
    b.lemma_state();
    lemma_sorted_unique_by_set(a.sorted_view(), b.sorted_view());
}

/// Pair-merge commutativity: after `a` merges `b`'s operations and
/// `b` then merges the result, the two replicas hold the same set and
/// so the same forest, for any prior histories.
pub proof fn lemma_pair_merge_commutativity(
    a1: &crdt_snapshot::Crdt,
    b1: &crdt_snapshot::Crdt,
    a0: Set<Op>,
    b0: Set<Op>,
)
    requires
        a1.wf(),
        b1.wf(),
        a1.op_set() == a0 + b0,
        b1.op_set() == b0 + a1.op_set(),
    ensures
        a1.forest_view() == b1.forest_view(),
{
    assert(b0 + (a0 + b0) =~= a0 + b0);
    lemma_convergence(a1, b1);
}

/// Pair-merge commutativity of the undo-rewind replicas.
pub proof fn lemma_pair_merge_commutativity_undo(
    a1: &crdt_undo::Crdt,
    b1: &crdt_undo::Crdt,
    a0: Set<Op>,
    b0: Set<Op>,
)
    requires
        a1.wf(),
        b1.wf(),
        a1.op_set() == a0 + b0,
        b1.op_set() == b0 + a1.op_set(),
    ensures
        a1.forest_view() == b1.forest_view(),
{
    assert(b0 + (a0 + b0) =~= a0 + b0);
    lemma_convergence_undo(a1, b1);
}

/// After applying any operation set, no node is its own transitive
/// ancestor.
pub proof fn lemma_no_self_ancestor(a: &crdt_snapshot::Crdt)
    requires
        a.wf(),
    ensures
        acyclic(a.forest_view()),
{
    a.lemma_state();
    lemma_replay_props(a.sorted_view());
    lemma_wf_acyclic(a.forest_view());
}

/// The same, for the undo-rewind replica.
pub proof fn lemma_no_self_ancestor_undo(a: &crdt_undo::Crdt)
    requires
        a.wf(),
    ensures
        acyclic(a.forest_view()),
{
    a.lemma_state();
    lemma_replay_props(a.sorted_view());
    lemma_wf_acyclic(a.forest_view());
}

/// Merging a replica whose per-client logs are no longer than ours
/// brings nothing new: its operations are already known, so `merge`'s
/// unchanged-state clause applies.  A conceptual self-merge (equal
/// logs) is the special case of equal lengths.
pub proof fn lemma_empty_delta_is_known(a: &crdt_snapshot::Crdt, b: &crdt_snapshot::Crdt)
    requires
        a.wf(),
        b.wf(),
        a.compatible(b),
        forall|c: u64| #[trigger]
            crate::ops::log_of(b.log_view(), c).len() <= crate::ops::log_of(
                a.log_view(),
                c,
            ).len(),
    ensures
        b.op_set().subset_of(a.op_set()),
{
    a.lemma_state();
    b.lemma_state();
    crate::ops::lemma_shorter_logs_are_known(a.log_view(), b.log_view());
}

/// The same, for the undo-rewind replicas.
pub proof fn lemma_empty_delta_is_known_undo(a: &crdt_undo::Crdt, b: &crdt_undo::Crdt)
    requires
        a.wf(),
        b.wf(),
        a.compatible(b),
        forall|c: u64| #[trigger]
            crate::ops::log_of(b.log_view(), c).len() <= crate::ops::log_of(
                a.log_view(),
                c,
            ).len(),
    ensures
        b.op_set().subset_of(a.op_set()),
{
    a.lemma_state();
    b.lemma_state();
    crate::ops::lemma_shorter_logs_are_known(a.log_view(), b.log_view());
}

/// A `New` for `r` sits strictly before position `p` of the sorted
/// view.
pub open spec fn created_before(s: Seq<Op>, r: ID, p: int) -> bool {
    exists|q: int|
        0 <= q < p && (#[trigger] s[q].content matches OpContent::New { .. }) && s[q].id == r
}

/// Every id an operation of a sorted, reference-closed sequence names
/// was created by a `New` at an earlier position.
pub proof fn lemma_refs_positional(s: Seq<Op>)
    requires
        crate::ops::sorted_strict(s),
        crate::ops::closed_set(s.to_set()),
    ensures
        forall|p: int|
            0 <= p < s.len() ==> match (#[trigger] s[p]).content {
                OpContent::New { parent } => match parent {
                    Some(pp) => created_before(s, pp, p),
                    None => true,
                },
                OpContent::Move { target, parent } => created_before(s, target, p)
                    && match parent {
                    Some(pp) => created_before(s, pp, p),
                    None => true,
                },
                OpContent::Delete(target) => created_before(s, target, p),
            },
{
    assert forall|p: int, r: ID|
        0 <= p < s.len() && crate::ops::has_new_below(s.to_set(), r, s[p].id)
        implies #[trigger] created_before(s, r, p) by {
        let n = choose|n: Op|
            s.to_set().contains(n) && (n.content matches OpContent::New { .. }) && n.id == r
                && #[trigger] n.id.lt_spec(s[p].id);
        let q = choose|q: int| 0 <= q < s.len() && s[q] == n;
        if q >= p {
            assert(s[p].id.lt_spec(s[q].id) || q == p);
        }
    }
    assert forall|p: int| 0 <= p < s.len()
        implies match (#[trigger] s[p]).content {
            OpContent::New { parent } => match parent {
                Some(pp) => created_before(s, pp, p),
                None => true,
            },
            OpContent::Move { target, parent } => created_before(s, target, p) && match parent {
                Some(pp) => created_before(s, pp, p),
                None => true,
            },
            OpContent::Delete(target) => created_before(s, target, p),
        } by {
        assert(s.to_set().contains(s[p]));
    }
}


/// Every id a sorted-view operation references was created by a `New`
/// at an earlier position.
pub proof fn lemma_references_created_earlier(a: &crdt_snapshot::Crdt)
    requires
        a.wf(),
    ensures
        forall|p: int|
            0 <= p < a.sorted_view().len() ==> match (#[trigger] a.sorted_view()[p]).content {
                OpContent::New { parent } => match parent {
                    Some(pp) => created_before(a.sorted_view(), pp, p),
                    None => true,
                },
                OpContent::Move { target, parent } => created_before(a.sorted_view(), target, p)
                    && match parent {
                    Some(pp) => created_before(a.sorted_view(), pp, p),
                    None => true,
                },
                OpContent::Delete(target) => created_before(a.sorted_view(), target, p),
            },
{
    a.lemma_state();
    lemma_refs_positional(a.sorted_view());
}

/// The same, for the undo-rewind replica.
pub proof fn lemma_references_created_earlier_undo(a: &crdt_undo::Crdt)
    requires
        a.wf(),
    ensures
        forall|p: int|
            0 <= p < a.sorted_view().len() ==> match (#[trigger] a.sorted_view()[p]).content {
                OpContent::New { parent } => match parent {
                    Some(pp) => created_before(a.sorted_view(), pp, p),
                    None => true,
                },
                OpContent::Move { target, parent } => created_before(a.sorted_view(), target, p)
                    && match parent {
                    Some(pp) => created_before(a.sorted_view(), pp, p),
                    None => true,
                },
                OpContent::Delete(target) => created_before(a.sorted_view(), target, p),
            },
{
    a.lemma_state();
    lemma_refs_positional(a.sorted_view());
}

} // verus!
