//! The undo-rewind replica.  Same outward contract as the snapshot variant,
//! but no snapshot cache: each applied `Move` records the parent it
//! overwrote, and a merge rewinds by reverse-applying the sorted tail
//! before replaying the merged tail.

use vstd::prelude::*;

use crate::forest_spec::apply_flag;
use crate::forest_spec::apply_mov;
use crate::forest_spec::apply_op;
use crate::forest_spec::forest_wf;
use crate::forest_spec::replay;
use crate::forest_spec::empty_forest;
use crate::forest_spec::TreeNode;
use crate::mut_tree::Forest;
use crate::ops::client_ops_ok;
use crate::ops::closed_set;
use crate::ops::has_new_below;
use crate::ops::log_op_set;
use crate::ops::log_wf;
use crate::ops::logs_compatible;
use crate::ops::sort_ops;
use crate::ops::copy_ops;
use crate::ops::sorted_strict;
use crate::ops::lemma_closed_insert;
use crate::replay::lemma_replay_props;
use crate::replay::new_ids;
use crate::rewind::lemma_rest_sim;
use crate::rewind::lemma_revert_start;
use crate::rewind::lemma_revert_step;
use crate::rewind::lemma_revert_to_sim;
use crate::rewind::lemma_revert_wf;
use crate::rewind::lemma_sim_done;
use crate::rewind::lemma_sim_step;
use crate::rewind::revert_rel;
use crate::rewind::sim_rel;

pub use crate::ops::ID;
pub use crate::ops::Op;
pub use crate::ops::OpContent;

verus! {

/// A sorted-log entry: the operation plus, for moves, the parent the
/// target had just before this operation was applied.
#[derive(Debug, Clone, Copy)]
struct OpTuple {
    op: Op,
    old_parent: Option<ID>,
}

/// The bare operations of a tuple sequence.
spec fn ops_of(s: Seq<OpTuple>) -> Seq<Op> {
    s.map_values(|t: OpTuple| t.op)
}

/// The recorded old parents match what each move overwrote, for every
/// position below `upto`.
spec fn old_parents_ok(s: Seq<OpTuple>, upto: int) -> bool {
    forall|i: int|
        0 <= i < upto && i < s.len() && (#[trigger] s[i].op.content
            matches OpContent::Move { .. }) ==> s[i].old_parent == replay(ops_of(s).take(i))[
            match s[i].op.content {
                OpContent::Move { target, .. } => target,
                _ => s[i].op.id,
            }
        ].parent
}

/// A replica of the tree using undo rewind.
pub struct Crdt {
    forest: Forest,
    client: u64,
    next_lamport: u32,
    log: std::collections::HashMap<u64, Vec<Op>>,
    /// the clients the log has entries for
    clients: Vec<u64>,
    /// ops sorted by id, each with the old parent seen at apply time
    sorted_ops: Vec<OpTuple>,
    /// the end of the applied prefix of `sorted_ops`
    applied_end: usize,
}

impl Crdt {
    /// The replica's identity.
    pub closed spec fn client_spec(&self) -> u64 {
        self.client
    }

    /// The per-client log.
    pub closed spec fn log_view(&self) -> Map<u64, Seq<Op>> {
        self.log@.map_values(|v: Vec<Op>| v@)
    }

    /// All known operations, sorted by id.
    pub closed spec fn sorted_view(&self) -> Seq<Op> {
        ops_of(self.sorted_ops@)
    }

    /// All known operations.
    pub open spec fn op_set(&self) -> Set<Op> {
        self.sorted_view().to_set()
    }

    /// The forest the replica currently presents.
    pub closed spec fn forest_view(&self) -> Map<ID, TreeNode> {
        self.forest@
    }

    /// The id the next local operation will carry.
    pub closed spec fn next_id(&self) -> ID {
        ID { lamport: self.next_lamport, client: self.client }
    }

    /// The replica can still mint ids.
    pub open spec fn can_issue(&self) -> bool {
        self.next_id().lamport < u32::MAX
    }

    /// The id names a node: some known `New` created it.
    pub open spec fn has_node(&self, i: ID) -> bool {
        exists|n: Op|
            self.op_set().contains(n) && (n.content matches OpContent::New { .. }) && n.id == i
    }

    /// The two replicas agree on their common log prefixes.
    pub open spec fn compatible(&self, other: &Crdt) -> bool {
        logs_compatible(self.log_view(), other.log_view())
    }

    spec fn inv_base(&self) -> bool {
        &&& log_wf(self.log_view())
        &&& self.sorted_view().to_set() == log_op_set(self.log_view())
        &&& sorted_strict(self.sorted_view())
        &&& closed_set(self.sorted_view().to_set())
        &&& forall|op: Op|
            self.sorted_view().to_set().contains(op) ==> (#[trigger] op.id).lamport
                < self.next_lamport
        &&& self.clients@.to_set() == self.log@.dom()
        &&& self.clients@.no_duplicates()
    }

    /// The replica invariant: the log is well shaped, the sorted view
    /// holds exactly the log's operations in strict id order with all
    /// references created below them, every applied move recorded the
    /// parent it overwrote, and the forest is the replay of the sorted
    /// view.
    pub closed spec fn wf(&self) -> bool {
        &&& self.inv_base()
        &&& old_parents_ok(self.sorted_ops@, self.sorted_ops@.len() as int)
        &&& self.applied_end == self.sorted_ops@.len()
        &&& self.forest@ == replay(self.sorted_view())
    }

    /// What a well-formed replica's parts satisfy, for reasoning about
    /// convergence and merge enabling from outside.
    pub proof fn lemma_state(&self)
        requires
            self.wf(),
        ensures
            sorted_strict(self.sorted_view()),
            closed_set(self.op_set()),
            self.op_set() == self.sorted_view().to_set(),
            self.op_set() == log_op_set(self.log_view()),
            log_wf(self.log_view()),
            self.forest_view() == replay(self.sorted_view()),
            crate::ops::ids_distinct(self.op_set()),
            forall|op: Op|
                self.op_set().contains(op) ==> (#[trigger] op.id).lamport
                    < self.next_id().lamport,
    {
        crate::ops::lemma_log_set_distinct(self.log_view());
    }

    /// A fresh, empty replica with the given identity.
    pub fn new(client: u64) -> (r: Crdt)
        ensures
            r.wf(),
            r.client_spec() == client,
            r.op_set() == Set::<Op>::empty(),
            r.sorted_view() == Seq::<Op>::empty(),
            r.log_view() == crate::ops::empty_log(),
            r.next_id() == (ID { lamport: 0, client }),
            r.forest_view() == empty_forest(),
    {
        let r = Crdt {
            forest: Forest::new(),
            client,
            next_lamport: 0,
            log: std::collections::HashMap::new(),
            clients: Vec::new(),
            sorted_ops: Vec::new(),
            applied_end: 0,
        };
        proof {
            assert(r.sorted_view() =~= Seq::<Op>::empty());
            assert(r.sorted_view().to_set() =~= Set::<Op>::empty());
            assert(log_op_set(r.log_view()) =~= Set::<Op>::empty());
            assert(r.clients@.to_set() =~= Set::<u64>::empty());
            assert(r.log@.dom() =~= Set::<u64>::empty());
            assert(r.log_view() =~= crate::ops::empty_log());
        }
        r
    }

    /// The forest the replica currently presents.
    pub fn forest(&self) -> (r: &Forest)
        ensures
            r@ == self.forest_view(),
    {
        &self.forest
    }

    /// Apply every unapplied operation of the sorted view to the
    /// forest, recording for each move the parent it overwrites.
    fn apply_pending_ops(&mut self)
        requires
            old(self).inv_base(),
            old_parents_ok(old(self).sorted_ops@, old(self).applied_end as int),
            old(self).applied_end <= old(self).sorted_ops@.len(),
            forest_wf(old(self).forest@),
            sim_rel(
                old(self).forest@,
                old(self).sorted_view().take(old(self).applied_end as int),
                old(self).sorted_view().skip(old(self).applied_end as int),
            ),
        ensures
            final(self).wf(),
            final(self).sorted_view() == old(self).sorted_view(),
            final(self).log == old(self).log,
            final(self).clients == old(self).clients,
            final(self).client == old(self).client,
            final(self).next_lamport == old(self).next_lamport,
    {
        let ghost ops = self.sorted_view();
        let mut i = self.applied_end;
        while i < self.sorted_ops.len()
            invariant
                self.inv_base(),
                i <= self.sorted_ops@.len(),
                self.sorted_view() == ops,
                old_parents_ok(self.sorted_ops@, i as int),
                forest_wf(self.forest@),
                sim_rel(self.forest@, ops.take(i as int), ops.skip(i as int)),
                self.sorted_ops@.len() == old(self).sorted_ops@.len(),
                self.log == old(self).log,
                self.clients == old(self).clients,
                self.client == old(self).client,
                self.next_lamport == old(self).next_lamport,
            decreases self.sorted_ops@.len() - i,
        {
            let ghost k = i as int;
            let ghost m = self.forest@;
            proof {
                assert(ops.take(k) + ops.skip(k) =~= ops);
                assert(ops.skip(k)[0] == ops[k]);
                lemma_sim_step(m, ops.take(k), ops.skip(k));
                assert(ops.take(k).push(ops[k]) =~= ops.take(k + 1));
                assert(ops.skip(k).drop_first() =~= ops.skip(k + 1));
                assert(ops_of(self.sorted_ops@)[k] == self.sorted_ops@[k].op);
            }
            let tup = self.sorted_ops[i];
            let op = tup.op;
            match op.content {
                OpContent::New { parent } => {
                    let _ = self.forest.mov(op.id, parent);
                },
                OpContent::Move { target, parent } => {
                    let node = self.forest.get(&target);
                    let oldp = match node {
                        Some(n) => n.parent,
                        None => None,
                    };
                    proof {
                        assert(oldp == replay(ops.take(k))[target].parent);
                    }
                    let mut t2 = tup;
                    t2.old_parent = oldp;
                    let ghost pre = self.sorted_ops@;
                    self.sorted_ops.set(i, t2);
                    proof {
                        assert(ops_of(self.sorted_ops@) =~= ops_of(pre));
                        assert forall|j: int|
                            0 <= j < k + 1 && (#[trigger] self.sorted_ops@[j].op.content
                                matches OpContent::Move { .. })
                            implies self.sorted_ops@[j].old_parent == replay(
                                ops_of(self.sorted_ops@).take(j),
                            )[
                                match self.sorted_ops@[j].op.content {
                                    OpContent::Move { target: t3, .. } => t3,
                                    _ => self.sorted_ops@[j].op.id,
                                }
                            ].parent by {
                            if j < k {
                                assert(self.sorted_ops@[j] == pre[j]);
                            }
                            assert(ops_of(self.sorted_ops@).take(j) =~= ops.take(j));
                        }
                    }
                    let _ = self.forest.mov(target, parent);
                },
                OpContent::Delete(target) => {
                    self.forest.delete(target);
                },
            }
            proof {
                assert(sim_rel(self.forest@, ops.take(k + 1), ops.skip(k + 1)));
                assert forall|j: int|
                    0 <= j < k + 1 && j < self.sorted_ops@.len()
                        && (#[trigger] self.sorted_ops@[j].op.content
                        matches OpContent::Move { .. })
                    implies self.sorted_ops@[j].old_parent == replay(
                        ops_of(self.sorted_ops@).take(j),
                    )[
                        match self.sorted_ops@[j].op.content {
                            OpContent::Move { target: t3, .. } => t3,
                            _ => self.sorted_ops@[j].op.id,
                        }
                    ].parent by {
                    assert(ops_of(self.sorted_ops@).take(j) =~= ops.take(j));
                }
            }
            i += 1;
        }
        self.applied_end = i;
        proof {
            assert(ops.take(i as int) =~= ops);
            assert(ops.skip(i as int) =~= Seq::<Op>::empty());
            lemma_sim_done(self.forest@, ops);
        }
    }

    /// Mint the next id, record the operation in the log and the sorted
    /// view, and apply it.
    fn commit_local_op(&mut self, content: OpContent) -> (id: ID)
        requires
            old(self).wf(),
            old(self).can_issue(),
            match content {
                OpContent::New { parent } => match parent {
                    Some(p) => old(self).has_node(p),
                    None => true,
                },
                OpContent::Move { target, parent } => old(self).has_node(target)
                    && match parent {
                        Some(p) => old(self).has_node(p),
                        None => true,
                    },
                OpContent::Delete(target) => old(self).has_node(target),
            },
        ensures
            final(self).wf(),
            final(self).client_spec() == old(self).client_spec(),
            id == old(self).next_id(),
            final(self).next_id() == (ID {
                lamport: (old(self).next_id().lamport + 1) as u32,
                client: old(self).client_spec(),
            }),
            final(self).op_set() == old(self).op_set().insert(Op { id, content }),
            final(self).sorted_view() == old(self).sorted_view().push(Op { id, content }),
            final(self).forest_view() == apply_op(old(self).forest_view(), Op { id, content }),
            final(self).log_view() == old(self).log_view().insert(
                old(self).client_spec(),
                crate::ops::log_of(old(self).log_view(), old(self).client_spec()).push(
                    Op { id, content },
                ),
            ),
            forall|x: Op| old(self).op_set().contains(x) ==> (#[trigger] x.id).lt_spec(id),
            forall|i2: ID| old(self).has_node(i2) ==> final(self).has_node(i2),
    {
        proof {
            broadcast use vstd::std_specs::hash::group_hash_axioms;

        }
        let id = ID { lamport: self.next_lamport, client: self.client };
        self.next_lamport = self.next_lamport + 1;
        let op = Op { id, content };
        proof {
            assert forall|x: Op| old(self).op_set().contains(x)
                implies x.id.lt_spec(id) by {
                assert(x.id.lamport < id.lamport);
            }
        }
        let (mut entry, had) = match self.log.get(&self.client) {
            Some(v) => (copy_ops(v), true),
            None => (Vec::new(), false),
        };
        let ghost old_entry = entry@;
        entry.push(op);
        self.log.insert(self.client, entry);
        if !had {
            self.clients.push(self.client);
        }
        let ghost old_sv = self.sorted_view();
        let ghost old_tuples = self.sorted_ops@;
        self.sorted_ops.push(OpTuple { op, old_parent: None });
        proof {
            let c = self.client;
            let oldl = old(self).log_view();
            let newl = self.log_view();
            let sv = self.sorted_view();
            assert(sv =~= old_sv.push(op)) by {
                assert(self.sorted_ops@ == old_tuples.push(OpTuple { op, old_parent: None }));
                assert forall|j: int| 0 <= j < sv.len()
                    implies sv[j] == old_sv.push(op)[j] by {
                    if j < old_tuples.len() {
                        assert(sv[j] == old_tuples[j].op);
                    }
                }
            }
            assert(old_entry == crate::ops::log_of(oldl, c));
            assert(newl == oldl.insert(c, old_entry.push(op))) by {
                assert(self.log@.dom() == old(self).log@.dom().insert(c));
                assert(newl =~= oldl.insert(c, old_entry.push(op))) by {
                    assert forall|c2: u64| #[trigger] newl.dom().contains(c2)
                        implies newl[c2] == oldl.insert(c, old_entry.push(op))[c2] by {
                        if c2 == c {
                            assert(self.log@[c]@ == old_entry.push(op));
                        } else {
                            assert(self.log@[c2] == old(self).log@[c2]);
                        }
                    }
                }
            }
            assert(sv.to_set() =~= old_sv.to_set().insert(op)) by {
                assert forall|x: Op| sv.to_set().contains(x)
                    implies old_sv.to_set().insert(op).contains(x) by {
                    let ix = choose|ix: int| 0 <= ix < sv.len() && sv[ix] == x;
                    if ix < old_sv.len() {
                        assert(old_sv[ix] == x);
                    }
                }
                assert forall|x: Op| old_sv.to_set().insert(op).contains(x)
                    implies sv.to_set().contains(x) by {
                    if x == op {
                        assert(sv[sv.len() - 1] == op);
                    } else {
                        let ix = choose|ix: int| 0 <= ix < old_sv.len() && old_sv[ix] == x;
                        assert(sv[ix] == x);
                    }
                }
            }
            assert(log_op_set(newl) =~= log_op_set(oldl).insert(op)) by {
                assert forall|x: Op| log_op_set(newl).contains(x)
                    implies log_op_set(oldl).insert(op).contains(x) by {
                    if x.id.client == c {
                        let ix = choose|ix: int|
                            0 <= ix < newl[c].len() && newl[c][ix] == x;
                        if ix < old_entry.len() {
                            assert(old_entry[ix] == x);
                            assert(oldl.dom().contains(c));
                            assert(oldl[c].contains(x));
                        } else {
                            assert(x == op);
                        }
                    } else {
                        assert(newl[x.id.client] == oldl[x.id.client]);
                    }
                }
                assert forall|x: Op| log_op_set(oldl).insert(op).contains(x)
                    implies log_op_set(newl).contains(x) by {
                    if x == op {
                        assert(newl[c][old_entry.len() as int] == op);
                    } else {
                        let c2 = x.id.client;
                        let ix = choose|ix: int|
                            0 <= ix < oldl[c2].len() && oldl[c2][ix] == x;
                        if c2 == c {
                            assert(oldl.dom().contains(c));
                            assert(newl[c][ix] == x);
                        } else {
                            assert(newl[c2] == oldl[c2]);
                        }
                    }
                }
            }
            assert(client_ops_ok(newl[c], c)) by {
                let e = newl[c];
                assert(e == old_entry.push(op));
                assert forall|i2: int, j2: int| #![trigger e[i2].id.lamport, e[j2].id.lamport]
                    0 <= i2 < j2 < e.len()
                    implies e[i2].id.lamport < e[j2].id.lamport by {
                    if j2 == e.len() - 1 {
                        if oldl.dom().contains(c) {
                            assert(log_op_set(oldl).contains(old_entry[i2]));
                            assert(old(self).op_set().contains(old_entry[i2]));
                        }
                    } else {
                        assert(client_ops_ok(crate::ops::log_of(oldl, c), c));
                    }
                }
                assert forall|i2: int| 0 <= i2 < e.len()
                    implies (#[trigger] e[i2]).id.client == c by {
                    if i2 < e.len() - 1 {
                        assert(client_ops_ok(crate::ops::log_of(oldl, c), c));
                    }
                }
            }
            assert(log_wf(newl)) by {
                assert forall|c2: u64| #[trigger] newl.dom().contains(c2)
                    implies client_ops_ok(newl[c2], c2) && newl[c2].len() > 0 by {
                    if c2 != c {
                        assert(newl[c2] == oldl[c2]);
                    }
                }
            }
            assert(self.clients@.to_set() =~= self.log@.dom()) by {
                if !old(self).log@.dom().contains(c) {
                    crate::ops::lemma_push_u64_set(old(self).clients@, c);
                }
            }
            assert(self.clients@.no_duplicates()) by {
                if !old(self).log@.dom().contains(c) {
                    assert(!old(self).clients@.to_set().contains(c));
                    assert(forall|j: int|
                        0 <= j < old(self).clients@.len() ==> #[trigger] old(
                            self,
                        ).clients@[j] != c);
                }
            }
            assert(sorted_strict(sv)) by {
                assert forall|i2: int, j2: int| #![trigger sv[i2].id.lt_spec(sv[j2].id)]
                    0 <= i2 < j2 < sv.len()
                    implies sv[i2].id.lt_spec(sv[j2].id) by {
                    if j2 == sv.len() - 1 {
                        assert(old_sv.to_set().contains(old_sv[i2]));
                        assert(old(self).op_set().contains(old_sv[i2]));
                    } else {
                        assert(old_sv[i2].id.lt_spec(old_sv[j2].id));
                    }
                }
            }
            assert(closed_set(sv.to_set())) by {
                assert forall|r2: ID|
                    old(self).has_node(r2) implies has_new_below(
                    old(self).op_set(),
                    r2,
                    op.id,
                ) by {
                    let n = choose|n: Op|
                        old(self).op_set().contains(n) && (n.content
                            matches OpContent::New { .. }) && n.id == r2;
                    assert(n.id.lt_spec(op.id));
                }
                lemma_closed_insert(old(self).op_set(), op);
                assert(sv.to_set() == old(self).op_set().insert(op));
            }
            assert forall|x: Op| sv.to_set().contains(x)
                implies (#[trigger] x.id).lamport < self.next_lamport by {
                if x != op {
                    assert(old(self).op_set().contains(x));
                }
            }
            // the applied prefix is the old sorted view, which the old
            // forest replays exactly
            assert(sv.take(old_sv.len() as int) =~= old_sv);
            assert(old_parents_ok(self.sorted_ops@, self.applied_end as int)) by {
                assert forall|j: int|
                    0 <= j < self.applied_end && j < self.sorted_ops@.len()
                        && (#[trigger] self.sorted_ops@[j].op.content
                        matches OpContent::Move { .. })
                    implies self.sorted_ops@[j].old_parent == replay(
                        ops_of(self.sorted_ops@).take(j),
                    )[
                        match self.sorted_ops@[j].op.content {
                            OpContent::Move { target: t3, .. } => t3,
                            _ => self.sorted_ops@[j].op.id,
                        }
                    ].parent by {
                    assert(self.sorted_ops@[j] == old_tuples[j]);
                    assert(ops_of(self.sorted_ops@).take(j) =~= ops_of(old_tuples).take(j));
                }
            }
            assert(forest_wf(self.forest@)) by {
                lemma_replay_props(old_sv);
            }
            lemma_rest_sim(old_sv, sv.skip(old_sv.len() as int));
            assert(sv.take(self.applied_end as int) == old_sv);
        }
        self.apply_pending_ops();
        proof {
            assert forall|i2: ID| old(self).has_node(i2)
                implies final(self).has_node(i2) by {
                let n = choose|n: Op|
                    old(self).op_set().contains(n) && (n.content matches OpContent::New { .. })
                        && n.id == i2;
                assert(final(self).op_set().contains(n));
            }
            let op = Op { id, content };
            assert(final(self).sorted_view() =~= old(self).sorted_view().push(op));
            assert(final(self).forest_view() == apply_op(old(self).forest_view(), op)) by {
                let nsv = final(self).sorted_view();
                let osv = old(self).sorted_view();
                assert(final(self).forest_view() == replay(nsv));
                assert(nsv.drop_last() =~= osv);
                assert(nsv.last() == op);
                assert(replay(nsv) == apply_op(replay(osv), op));
                assert(old(self).forest_view() == replay(osv));
            }
        }
        id
    }

    /// Create a node under `parent` (or a new root), returning its id:
    /// the id of the recorded `New` operation.
    pub fn new_node(&mut self, parent: Option<ID>) -> (id: ID)
        requires
            old(self).wf(),
            old(self).can_issue(),
            parent matches Some(p) ==> old(self).has_node(p),
        ensures
            final(self).wf(),
            final(self).client_spec() == old(self).client_spec(),
            id == old(self).next_id(),
            final(self).next_id() == (ID {
                lamport: (old(self).next_id().lamport + 1) as u32,
                client: old(self).client_spec(),
            }),
            final(self).op_set() == old(self).op_set().insert(
                Op { id, content: OpContent::New { parent } },
            ),
            final(self).sorted_view() == old(self).sorted_view().push(
                Op { id, content: OpContent::New { parent } },
            ),
            final(self).forest_view() == apply_mov(old(self).forest_view(), id, parent),
            final(self).log_view() == old(self).log_view().insert(
                old(self).client_spec(),
                crate::ops::log_of(old(self).log_view(), old(self).client_spec()).push(
                    Op { id, content: OpContent::New { parent } },
                ),
            ),
            forall|x: Op| old(self).op_set().contains(x) ==> (#[trigger] x.id).lt_spec(id),
            forall|i2: ID| old(self).has_node(i2) ==> final(self).has_node(i2),
            final(self).has_node(id),
    {
        let id = self.commit_local_op(OpContent::New { parent });
        proof {
            let op = Op { id, content: OpContent::New { parent } };
            assert(final(self).op_set().contains(op));
        }
        id
    }

    /// Reparent `target` under `parent` (or make it a root).  If the
    /// move would create a cycle at replay time it silently has no
    /// effect on the forest, but stays in the log.
    pub fn mov(&mut self, target: ID, parent: Option<ID>)
        requires
            old(self).wf(),
            old(self).can_issue(),
            old(self).has_node(target),
            parent matches Some(p) ==> old(self).has_node(p),
        ensures
            final(self).wf(),
            final(self).client_spec() == old(self).client_spec(),
            final(self).next_id() == (ID {
                lamport: (old(self).next_id().lamport + 1) as u32,
                client: old(self).client_spec(),
            }),
            final(self).op_set() == old(self).op_set().insert(
                Op { id: old(self).next_id(), content: OpContent::Move { target, parent } },
            ),
            final(self).sorted_view() == old(self).sorted_view().push(
                Op { id: old(self).next_id(), content: OpContent::Move { target, parent } },
            ),
            final(self).forest_view() == apply_mov(old(self).forest_view(), target, parent),
            final(self).log_view() == old(self).log_view().insert(
                old(self).client_spec(),
                crate::ops::log_of(old(self).log_view(), old(self).client_spec()).push(
                    Op { id: old(self).next_id(), content: OpContent::Move { target, parent } },
                ),
            ),
            forall|x: Op|
                old(self).op_set().contains(x) ==> (#[trigger] x.id).lt_spec(old(self).next_id()),
            forall|i2: ID| old(self).has_node(i2) ==> final(self).has_node(i2),
    {
        let _ = self.commit_local_op(OpContent::Move { target, parent });
    }

    /// Rewind the sorted view to just before `id` by reverse-applying
    /// the tail: each move goes back to its recorded old parent, each
    /// delete is cleared, each creation is left in place (its replay
    /// will re-adopt it).  Returns the undone operations.  The id must
    /// be one the replica has never seen.
    #[verifier::rlimit(100)]
    #[verifier::spinoff_prover]
    fn revert_until(&mut self, id: &ID) -> (r: Vec<Op>)
        requires
            sorted_strict(old(self).sorted_view()),
            closed_set(old(self).sorted_view().to_set()),
            old_parents_ok(old(self).sorted_ops@, old(self).sorted_ops@.len() as int),
            old(self).applied_end == old(self).sorted_ops@.len(),
            old(self).forest@ == replay(old(self).sorted_view()),
            forall|op: Op| old(self).op_set().contains(op) ==> (#[trigger] op.id) != *id,
        ensures
            final(self).sorted_ops@ == old(self).sorted_ops@.take(
                final(self).sorted_ops@.len() as int,
            ),
            r@ == old(self).sorted_view().subrange(
                final(self).sorted_ops@.len() as int,
                old(self).sorted_view().len() as int,
            ),
            forall|j: int|
                0 <= j < final(self).sorted_ops@.len() ==> (#[trigger] old(
                    self,
                ).sorted_view()[j].id).lt_spec(*id),
            forall|j: int|
                final(self).sorted_ops@.len() <= j < old(self).sorted_view().len() ==> !(
                #[trigger] old(self).sorted_view()[j].id).lt_spec(*id),
            revert_rel(
                final(self).forest@,
                old(self).sorted_view(),
                final(self).sorted_ops@.len() as int,
            ),
            forest_wf(final(self).forest@),
            final(self).applied_end == final(self).sorted_ops@.len(),
            final(self).log == old(self).log,
            final(self).clients == old(self).clients,
            final(self).client == old(self).client,
            final(self).next_lamport == old(self).next_lamport,
    {
        let ghost all = self.sorted_view();
        let ghost all_tuples = self.sorted_ops@;
        let trim = Self::find_trim(&self.sorted_ops, id);
        proof {
            lemma_revert_start(all);
            lemma_replay_props(all);
            assert(all_tuples.take(all_tuples.len() as int) =~= all_tuples);
        }
        let mut out_rev: Vec<Op> = Vec::new();
        while self.sorted_ops.len() > trim
            invariant
                trim <= self.sorted_ops@.len() <= all.len(),
                all == ops_of(all_tuples),
                sorted_strict(all),
                closed_set(all.to_set()),
                old_parents_ok(all_tuples, all_tuples.len() as int),
                self.sorted_ops@ == all_tuples.take(self.sorted_ops@.len() as int),
                revert_rel(self.forest@, all, self.sorted_ops@.len() as int),
                forest_wf(self.forest@),
                out_rev@.len() == all.len() - self.sorted_ops@.len(),
                forall|t: int|
                    0 <= t < out_rev@.len() ==> #[trigger] out_rev@[t] == all[all.len() - 1
                        - t],
                self.log == old(self).log,
                self.clients == old(self).clients,
                self.client == old(self).client,
                self.next_lamport == old(self).next_lamport,
            decreases self.sorted_ops@.len(),
        {
            let ghost k = self.sorted_ops@.len() as int;
            let ghost m = self.forest@;
            let tup = match self.sorted_ops.pop() {
                Some(t) => t,
                None => vstd::pervasive::unreached(),
            };
            proof {
                assert(tup == all_tuples[k - 1]);
                assert(self.sorted_ops@ =~= all_tuples.take(k - 1));
                assert(all[k - 1] == all_tuples[k - 1].op);
                assert(ops_of(all_tuples).take(k - 1) =~= all.take(k - 1));
                lemma_revert_step(m, all, k, tup.old_parent);
            }
            match tup.op.content {
                OpContent::New { .. } => {},
                OpContent::Move { target, .. } => {
                    let _ = self.forest.mov(target, tup.old_parent);
                },
                OpContent::Delete(target) => {
                    self.forest.undo_delete(target);
                },
            }
            proof {
                assert(revert_rel(self.forest@, all, k - 1));
                lemma_revert_wf(self.forest@, all, k - 1);
            }
            out_rev.push(tup.op);
        }
        self.applied_end = self.sorted_ops.len();
        // the undone operations, oldest first
        let out = crate::ops::reverse_ops(&out_rev);
        proof {
            assert(out@ =~= all.subrange(trim as int, all.len() as int));
        }
        out
    }

    /// The entry the merged log keeps for a client: the longer of the
    /// two replicas' entries for it.
    pub open spec fn longer_entry(a: Map<u64, Seq<Op>>, b: Map<u64, Seq<Op>>, c: u64) -> Seq<Op> {
        if crate::ops::log_of(b, c).len() > crate::ops::log_of(a, c).len() {
            crate::ops::log_of(b, c)
        } else {
            crate::ops::log_of(a, c)
        }
    }

    /// Merge every operation the other replica knows into this one.
    /// The incoming delta is appended per client; if it is empty the
    /// replica is left untouched.  Otherwise the replica reverse-applies
    /// its tail back to just before the earliest incoming id, re-sorts,
    /// and replays, so that the forest is again the replay of the
    /// id-sorted union of all known operations.
    #[verifier::rlimit(100)]
    pub fn merge(&mut self, other: &Crdt)
        requires
            old(self).wf(),
            other.wf(),
            old(self).compatible(other),
        ensures
            final(self).wf(),
            final(self).client_spec() == old(self).client_spec(),
            final(self).op_set() == old(self).op_set() + other.op_set(),
            final(self).compatible(other),
            forall|c: u64| #[trigger]
                crate::ops::log_of(final(self).log_view(), c) == Self::longer_entry(
                    old(self).log_view(),
                    other.log_view(),
                    c,
                ),
            other.op_set().subset_of(old(self).op_set()) ==> *final(self) == *old(self),
            forall|op: Op|
                final(self).op_set().contains(op) ==> (#[trigger] op.id).lamport
                    < final(self).next_id().lamport,
            final(self).next_id().lamport >= old(self).next_id().lamport,
    {
        proof {
            broadcast use vstd::std_specs::hash::group_hash_axioms;

        }
        let ghost a_log = old(self).log_view();
        let ghost b_log = other.log_view();
        let ghost old_set = old(self).op_set();
        let ghost oth_set = other.op_set();
        let ghost peers = other.clients@;
        proof {
            old(self).lemma_state();
            other.lemma_state();
            assert(b_log.dom() =~= other.log@.dom());
        }
        let mut ans: Vec<Op> = Vec::new();
        let n_entries = other.clients.len();
        for e in 0..n_entries
            invariant
                other.wf(),
                old(self).wf(),
                a_log == old(self).log_view(),
                b_log == other.log_view(),
                old_set == old(self).op_set(),
                oth_set == other.op_set(),
                logs_compatible(a_log, b_log),
                n_entries == peers.len(),
                other.clients@ == peers,
                peers.no_duplicates(),
                peers.to_set() == other.log@.dom(),
                b_log.dom() == other.log@.dom(),
                forall|x: Op| #[trigger]
                    oth_set.contains(x) ==> x.id.lamport < other.next_lamport,
                // frame: only the log, the client list and the lamport
                // counter change
                self.sorted_ops == old(self).sorted_ops,
                self.forest == old(self).forest,
                self.applied_end == old(self).applied_end,
                self.client == old(self).client,
                self.next_lamport >= old(self).next_lamport,
                // log evolution
                forall|i: int|
                    e <= i < peers.len() ==> crate::ops::log_of(
                        self.log_view(),
                        #[trigger] peers[i],
                    ) == crate::ops::log_of(a_log, peers[i]),
                forall|i: int|
                    0 <= i < e ==> crate::ops::log_of(self.log_view(), #[trigger] peers[i])
                        == Self::longer_entry(a_log, b_log, peers[i]),
                forall|c: u64|
                    !(#[trigger] b_log.dom().contains(c)) ==> crate::ops::log_of(
                        self.log_view(),
                        c,
                    ) == crate::ops::log_of(a_log, c),
                forall|c: u64| #[trigger]
                    self.log_view().dom().contains(c) ==> a_log.dom().contains(c)
                        || b_log.dom().contains(c),
                log_wf(self.log_view()),
                self.clients@.to_set() == self.log@.dom(),
                self.clients@.no_duplicates(),
                log_op_set(self.log_view()) == old_set + ans@.to_set(),
                // the collected delta
                forall|i: int|
                    0 <= i < ans@.len() ==> oth_set.contains(#[trigger] ans@[i])
                        && !old_set.contains(ans@[i]),
                forall|i: int, j: int| #![trigger ans@[i].id, ans@[j].id]
                    0 <= i < j < ans@.len() ==> ans@[i].id != ans@[j].id,
                forall|i: int|
                    0 <= i < ans@.len() ==> exists|e2: int|
                        0 <= e2 < e && (#[trigger] ans@[i]).id.client == peers[e2],
                forall|i: int|
                    0 <= i < ans@.len() ==> (#[trigger] ans@[i]).id.lamport < self.next_lamport,
                ans@.len() == 0 ==> self.log == old(self).log && self.clients == old(
                    self,
                ).clients && self.next_lamport == old(self).next_lamport,
        {
            proof {
                broadcast use vstd::std_specs::hash::group_hash_axioms;

                assert(peers.to_set().contains(peers[e as int])) by {
                    assert(peers[e as int] == peers[e as int]);
                }
            }
            let c = other.clients[e];
            let ghost b_c = b_log[c];
            let ops_c = match other.log.get(&c) {
                Some(v) => v,
                None => vstd::pervasive::unreached(),
            };
            proof {
                assert(ops_c@ == b_c);
            }
            let (cur_entry, had) = match self.log.get(&c) {
                Some(v) => (copy_ops(v), true),
                None => (Vec::new(), false),
            };
            let ghost a_c = crate::ops::log_of(a_log, c);
            proof {
                assert(had == self.log@.dom().contains(c));
                assert(cur_entry@ == crate::ops::log_of(self.log_view(), c));
                assert(cur_entry@ == a_c);
            }
            let self_start = cur_entry.len();
            if ops_c.len() > self_start {
                proof {
                    if a_log.dom().contains(c) {
                        assert(a_log[c].is_prefix_of(b_log[c]) || b_log[c].is_prefix_of(
                            a_log[c],
                        ));
                    }
                    assert(a_c.is_prefix_of(b_c));
                }
                let mut entry = cur_entry;
                let mut k = self_start;
                let ghost ans0 = ans@;
                let ghost pre_log = self.log;
                let ghost pre_clients = self.clients;
                let ghost pre_lamport = self.next_lamport;
                while k < ops_c.len()
                    invariant
                        other.wf(),
                        old(self).wf(),
                        b_log == other.log_view(),
                        oth_set == other.op_set(),
                        old_set == old(self).op_set(),
                        b_c == b_log[c],
                        b_log.dom().contains(c),
                        ops_c@ == b_c,
                        a_c.is_prefix_of(b_c),
                        a_c.len() == self_start,
                        self_start <= k <= b_c.len(),
                        self_start < b_c.len(),
                        entry@ == b_c.take(k as int),
                        ans@ == ans0 + b_c.subrange(self_start as int, k as int),
                        self.log == pre_log,
                        self.clients == pre_clients,
                        self.sorted_ops == old(self).sorted_ops,
                        self.forest == old(self).forest,
                        self.applied_end == old(self).applied_end,
                        self.client == old(self).client,
                        self.next_lamport >= pre_lamport,
                        forall|i: int|
                            0 <= i < ans@.len() ==> (#[trigger] ans@[i]).id.lamport
                                < self.next_lamport,
                        forall|x: Op| #[trigger]
                            oth_set.contains(x) ==> x.id.lamport < other.next_lamport,
                    decreases b_c.len() - k,
                {
                    let op = ops_c[k];
                    proof {
                        assert(b_c[k as int].id.client == c);
                        assert(log_op_set(b_log).contains(op));
                        assert(oth_set.contains(op));
                    }
                    entry.push(op);
                    ans.push(op);
                    proof {
                        assert(entry@ =~= b_c.take(k + 1));
                        assert(ans@ =~= ans0 + b_c.subrange(self_start as int, k + 1));
                    }
                    if op.id.lamport >= self.next_lamport {
                        self.next_lamport = op.id.lamport + 1;
                    }
                    k += 1;
                }
                proof {
                    assert(entry@ =~= b_c);
                }
                self.log.insert(c, entry);
                if !had {
                    self.clients.push(c);
                }
                proof {
                    broadcast use vstd::std_specs::hash::group_hash_axioms;

                    let prev_view = pre_log@.map_values(|v: Vec<Op>| v@);
                    let delta = b_c.subrange(self_start as int, b_c.len() as int);
                    assert(self.log@ == pre_log@.insert(c, entry));
                    assert(self.log_view() == prev_view.insert(c, b_c)) by {
                        assert(self.log_view() =~= prev_view.insert(c, b_c)) by {
                            assert forall|c2: u64| #[trigger] self.log_view().dom().contains(c2)
                                implies self.log_view()[c2] == prev_view.insert(c, b_c)[c2] by {
                                if c2 == c {
                                    assert(self.log@[c]@ == b_c);
                                } else {
                                    assert(self.log@[c2] == pre_log@[c2]);
                                }
                            }
                        }
                    }
                    assert(crate::ops::log_of(prev_view, c) == a_c);
                    assert(a_c + delta =~= b_c);
                    assert forall|i: int| 0 <= i < delta.len()
                        implies (#[trigger] delta[i]).id.client == c by {
                        assert(b_c[self_start + i].id.client == c);
                    }
                    crate::ops::lemma_log_append(prev_view, c, delta);
                    assert(self.log_view() == prev_view.insert(c, a_c + delta)) by {
                        assert(prev_view.insert(c, a_c + delta) =~= prev_view.insert(c, b_c));
                    }
                    assert(ans@.take(ans0.len() as int) =~= ans0);
                    assert(ans@.subrange(ans0.len() as int, ans@.len() as int) =~= delta);
                    crate::ops::lemma_split_set(ans@, ans0.len() as int);
                    assert(log_op_set(self.log_view()) =~= old_set + ans@.to_set());
                    // incoming ops are new to this replica
                    assert forall|i: int| ans0.len() <= i < ans@.len()
                        implies !old_set.contains(#[trigger] ans@[i]) by {
                        let x = ans@[i];
                        let kx = self_start + (i - ans0.len());
                        assert(x == b_c[kx]);
                        if old_set.contains(x) {
                            assert(log_op_set(a_log).contains(x));
                            let ix = choose|ix: int| 0 <= ix < a_c.len() && a_c[ix] == x;
                            assert(b_c[ix] == x);
                            assert(client_ops_ok(b_c, c));
                            assert(b_c[ix].id.lamport < b_c[kx].id.lamport);
                        }
                    }
                    // distinct ids within the grown delta
                    assert forall|i: int, j: int| #![trigger ans@[i].id, ans@[j].id]
                        0 <= i < j < ans@.len() implies ans@[i].id != ans@[j].id by {
                        if i < ans0.len() && j >= ans0.len() {
                            let e2 = choose|e2: int|
                                0 <= e2 < e && ans0[i].id.client == peers[e2];
                            assert(ans@[j].id.client == c);
                            assert(peers[e2] != c);
                        } else if i >= ans0.len() {
                            assert(client_ops_ok(b_c, c));
                            let ki = self_start + (i - ans0.len());
                            let kj = self_start + (j - ans0.len());
                            assert(b_c[ki].id.lamport < b_c[kj].id.lamport);
                        }
                    }
                    assert(crate::ops::log_of(self.log_view(), c) == Self::longer_entry(
                        a_log,
                        b_log,
                        c,
                    ));
                    assert(log_wf(self.log_view())) by {
                        assert forall|c2: u64| #[trigger] self.log_view().dom().contains(c2)
                            implies client_ops_ok(self.log_view()[c2], c2)
                                && self.log_view()[c2].len() > 0 by {
                            if c2 == c {
                                assert(self.log_view()[c] == b_c);
                                assert(client_ops_ok(b_c, c));
                            } else {
                                assert(self.log_view()[c2] == prev_view[c2]);
                            }
                        }
                    }
                    assert(self.clients@.to_set() =~= self.log@.dom()) by {
                        if !had {
                            crate::ops::lemma_push_u64_set(pre_clients@, c);
                        }
                    }
                    assert(self.clients@.no_duplicates()) by {
                        if !had {
                            assert(!pre_clients@.to_set().contains(c));
                            assert(forall|j: int|
                                0 <= j < pre_clients@.len() ==> #[trigger] pre_clients@[j]
                                    != c);
                        }
                    }
                    assert forall|i: int| 0 <= i < ans@.len()
                        implies exists|e2: int|
                            0 <= e2 < e + 1 && (#[trigger] ans@[i]).id.client == peers[e2] by {
                        if i < ans0.len() {
                            let e2 = choose|e2: int|
                                0 <= e2 < e && ans0[i].id.client == peers[e2];
                            assert(0 <= e2 < e + 1 && ans@[i].id.client == peers[e2]);
                        } else {
                            assert(ans@[i].id.client == c && peers[e as int] == c);
                        }
                    }
                }
            } else {
                proof {
                    assert(crate::ops::log_of(self.log_view(), c) == Self::longer_entry(
                        a_log,
                        b_log,
                        c,
                    ));
                }
            }
        }
        proof {
            // everything the other replica knows is now in the log
            assert forall|x: Op| oth_set.contains(x)
                implies (old_set + ans@.to_set()).contains(x) by {
                let c = x.id.client;
                let ix = choose|ix: int| 0 <= ix < b_log[c].len() && b_log[c][ix] == x;
                assert(peers.to_set().contains(c));
                let e2 = choose|e2: int| 0 <= e2 < peers.len() && peers[e2] == c;
                let lng = Self::longer_entry(a_log, b_log, c);
                assert(crate::ops::log_of(self.log_view(), c) == lng);
                if lng == crate::ops::log_of(b_log, c) {
                    assert(lng[ix] == x);
                } else {
                    assert(b_log[c].is_prefix_of(a_log[c]) || a_log[c].is_prefix_of(b_log[c]));
                    assert(b_log[c].is_prefix_of(lng));
                    assert(lng[ix] == b_log[c].subrange(0, b_log[c].len() as int)[ix]);
                }
                assert(self.log_view().dom().contains(c));
                assert(log_op_set(self.log_view()).contains(x));
            }
        }
        let ghost merged_log = self.log;
        let ghost merged_clients = self.clients;
        proof {
            // the merged log keeps, for every client, the longer entry
            assert forall|c: u64|
                #[trigger] crate::ops::log_of(self.log_view(), c) == Self::longer_entry(
                a_log,
                b_log,
                c,
            ) by {
                if b_log.dom().contains(c) {
                    assert(peers.to_set().contains(c));
                    let e2 = choose|e2: int| 0 <= e2 < peers.len() && peers[e2] == c;
                    assert(crate::ops::log_of(self.log_view(), peers[e2])
                        == Self::longer_entry(a_log, b_log, peers[e2]));
                }
            }
            // and therefore stays compatible with the other replica
            assert(logs_compatible(self.log_view(), b_log)) by {
                assert forall|c: u64|
                    #![trigger self.log_view().dom().contains(c), b_log.dom().contains(c)]
                    self.log_view().dom().contains(c) && b_log.dom().contains(c)
                    implies (self.log_view()[c].is_prefix_of(b_log[c])
                        || b_log[c].is_prefix_of(self.log_view()[c])) by {
                    let mc = self.log_view()[c];
                    assert(mc == Self::longer_entry(a_log, b_log, c));
                    if mc == crate::ops::log_of(b_log, c) {
                        assert(b_log[c].is_prefix_of(mc)) by {
                            assert(b_log[c] =~= mc.subrange(0, b_log[c].len() as int));
                        }
                    } else {
                        if a_log.dom().contains(c) {
                            assert(a_log[c].is_prefix_of(b_log[c]) || b_log[c].is_prefix_of(
                                a_log[c],
                            ));
                            if a_log[c].is_prefix_of(b_log[c]) {
                                assert(a_log[c].len() == b_log[c].len());
                                assert(a_log[c] =~= b_log[c]);
                            }
                            assert(b_log[c].is_prefix_of(mc));
                        } else {
                            assert(crate::ops::log_of(b_log, c).len() == 0);
                            assert(b_log[c].len() == 0);
                            assert(b_log[c].is_prefix_of(mc)) by {
                                assert(b_log[c] =~= mc.subrange(0, 0));
                            }
                        }
                    }
                }
            }
        }
        if ans.len() == 0 {
            proof {
                assert(ans@.to_set() =~= Set::<Op>::empty());
                assert(oth_set.subset_of(old_set));
                assert(old_set + oth_set =~= old_set);
                assert(self.log == old(self).log);
            }
            return;
        }
        proof {
            assert(!oth_set.subset_of(old_set)) by {
                assert(oth_set.contains(ans@[0]) && !old_set.contains(ans@[0]));
            }
        }
        proof {
            crate::ops::lemma_closed_union(old_set, oth_set);
            assert(old_set + ans@.to_set() =~= old_set + oth_set);
            assert forall|op: Op| self.op_set().contains(op)
                implies (#[trigger] op.id).lamport < self.next_lamport by {
                assert(old(self).op_set().contains(op));
            }
        }
        self.rewind_and_replay(ans);
        proof {
            assert(final(self).op_set() =~= old_set + oth_set);
            assert(final(self).log == merged_log);
            assert forall|op: Op| final(self).op_set().contains(op)
                implies (#[trigger] op.id).lamport < final(self).next_id().lamport by {
                assert(final(self).wf());
            }
        }
    }


    /// Sort the incoming delta, rewind past its earliest id by reverse
    /// replay, merge the undone tail back in, and replay.
    #[verifier::rlimit(100)]
    #[verifier::spinoff_prover]
    fn rewind_and_replay(&mut self, ans: Vec<Op>)
        requires
            sorted_strict(old(self).sorted_view()),
            closed_set(old(self).sorted_view().to_set()),
            old_parents_ok(old(self).sorted_ops@, old(self).sorted_ops@.len() as int),
            old(self).applied_end == old(self).sorted_ops@.len(),
            old(self).forest@ == replay(old(self).sorted_view()),
            log_wf(old(self).log_view()),
            log_op_set(old(self).log_view()) == old(self).op_set() + ans@.to_set(),
            old(self).clients@.to_set() == old(self).log@.dom(),
            old(self).clients@.no_duplicates(),
            ans@.len() > 0,
            closed_set(old(self).op_set() + ans@.to_set()),
            forall|i: int| 0 <= i < ans@.len() ==> !old(self).op_set().contains(#[trigger] ans@[i]),
            forall|i: int, j: int| #![trigger ans@[i].id, ans@[j].id]
                0 <= i < j < ans@.len() ==> ans@[i].id != ans@[j].id,
            forall|i: int|
                0 <= i < ans@.len() ==> (#[trigger] ans@[i]).id.lamport < old(self).next_lamport,
            forall|op: Op|
                old(self).op_set().contains(op) ==> (#[trigger] op.id).lamport < old(
                    self,
                ).next_lamport,
        ensures
            final(self).wf(),
            final(self).client == old(self).client,
            final(self).log == old(self).log,
            final(self).clients == old(self).clients,
            final(self).next_lamport == old(self).next_lamport,
            final(self).op_set() == old(self).op_set() + ans@.to_set(),
    {
        let ghost old_set = old(self).op_set();
        let ghost union = old_set + ans@.to_set();
        let ghost pre_sort = ans@;
        proof {
            assert forall|x: Op| #[trigger] pre_sort.to_set().contains(x)
                implies x.id.lamport < old(self).next_lamport by {
                let i = choose|i: int| 0 <= i < ans@.len() && ans@[i] == x;
            }
        }
        let mut ans = sort_ops(ans);
        let ghost inc_set = ans@.to_set();
        proof {
            broadcast use vstd::seq_lib::group_to_multiset_ensures;

            assert(inc_set =~= pre_sort.to_set()) by {
                assert forall|x: Op| inc_set.contains(x) == pre_sort.to_set().contains(x) by {
                    assert(ans@.contains(x) == (ans@.to_multiset().count(x) > 0));
                    assert(pre_sort.contains(x) == (pre_sort.to_multiset().count(x) > 0));
                }
            }
            assert(pre_sort.no_duplicates()) by {
                assert forall|i: int, j: int|
                    0 <= i < pre_sort.len() && 0 <= j < pre_sort.len() && i != j
                    implies pre_sort[i] != pre_sort[j] by {
                    if i < j {
                        assert(pre_sort[i].id != pre_sort[j].id);
                    } else {
                        assert(pre_sort[j].id != pre_sort[i].id);
                    }
                }
            }
            assert(ans@.no_duplicates()) by {
                pre_sort.lemma_multiset_has_no_duplicates();
                ans@.lemma_multiset_has_no_duplicates_conv();
            }
            assert(log_op_set(self.log_view()) == old_set + inc_set);
            crate::ops::lemma_log_set_distinct(self.log_view());
            assert(crate::ops::ids_distinct(old_set + inc_set));
            assert(old_set.disjoint(inc_set)) by {
                assert forall|x: Op| inc_set.contains(x)
                    implies !old_set.contains(x) by {
                    let i = choose|i: int| 0 <= i < pre_sort.len() && pre_sort[i] == x;
                }
            }
            assert(old_set + inc_set =~= union);
            assert(sorted_strict(ans@)) by {
                assert forall|i: int, j: int| #![trigger ans@[i].id.lt_spec(ans@[j].id)]
                    0 <= i < j < ans@.len()
                    implies ans@[i].id.lt_spec(ans@[j].id) by {
                    assert(ans@[i].id.le_spec(ans@[j].id));
                    if ans@[i].id == ans@[j].id {
                        assert((old_set + inc_set).contains(ans@[i]));
                        assert((old_set + inc_set).contains(ans@[j]));
                        assert(ans@[i] == ans@[j]);
                    }
                }
            }
            assert(closed_set(union)) by {
                assert(union =~= old_set + pre_sort.to_set());
            }
            assert forall|x: Op| union.contains(x)
                implies (#[trigger] x.id).lamport < self.next_lamport by {
                if old_set.contains(x) {
                } else {
                    assert((old_set + inc_set).contains(x));
                    assert(inc_set.contains(x));
                    assert(pre_sort.to_set().contains(x));
                }
            }
        }
        let start_id = ans[0].id;
        proof {
            assert(forall|i: int|
                0 <= i < ans@.len() ==> start_id.le_spec((#[trigger] ans@[i]).id));
            assert(inc_set.contains(ans@[0]));
            // the start id is new to this replica
            assert forall|op: Op| old_set.contains(op)
                implies (#[trigger] op.id) != start_id by {
                if op.id == start_id {
                    assert((old_set + inc_set).contains(op));
                    assert((old_set + inc_set).contains(ans@[0]));
                    assert(op == ans@[0]);
                }
            }
        }
        let ghost sv0 = self.sorted_view();
        let mut popped = self.revert_until(&start_id);
        let ghost trim = self.sorted_ops@.len() as int;
        let ghost kept_tuples = self.sorted_ops@;
        proof {
            assert(popped@ == sv0.subrange(trim, sv0.len() as int));
        }
        let ghost inc_seq = ans@;
        ans.append(&mut popped);
        let ghost combined = ans@;
        let ans2 = sort_ops(ans);
        proof {
            assert(combined == inc_seq + sv0.subrange(trim, sv0.len() as int));
            crate::ops::lemma_merge_tail_shape(inc_seq, sv0, trim, ans2@, old_set);
            assert(ans2@.to_set() == inc_set + sv0.subrange(trim, sv0.len() as int).to_set())
                by {
                assert(inc_seq.to_set() == inc_set);
            }
        }
        let ghost kept_ops = ops_of(kept_tuples);
        proof {
            assert(kept_ops =~= sv0.take(trim)) by {
                assert forall|j: int| 0 <= j < trim
                    implies kept_ops[j] == sv0.take(trim)[j] by {
                    assert(kept_tuples[j].op == sv0[j]);
                }
            }
            // every merged-tail id sits strictly above every kept id
            assert forall|x: Op| #[trigger] ans2@.to_set().contains(x)
                implies start_id.le_spec(x.id) by {
                let suffix = sv0.subrange(trim, sv0.len() as int);
                if inc_set.contains(x) {
                    let i = choose|i: int| 0 <= i < inc_seq.len() && inc_seq[i] == x;
                } else {
                    assert(suffix.to_set().contains(x));
                    let i = choose|i: int| 0 <= i < suffix.len() && suffix[i] == x;
                    assert(x == sv0[trim + i]);
                    assert(!sv0[trim + i].id.lt_spec(start_id));
                    if x.id != start_id {
                        assert(start_id.lt_spec(x.id) || x.id.lt_spec(start_id)) by {
                            assert(x.id.lamport != start_id.lamport || x.id.client
                                != start_id.client);
                        }
                    }
                }
            }
        }
        let ghost rew_forest = self.forest@;
        let n2 = ans2.len();
        let mut k2: usize = 0;
        while k2 < n2
            invariant
                k2 <= n2,
                n2 == ans2@.len(),
                self.sorted_ops@.len() == kept_tuples.len() + k2,
                self.sorted_ops@.take(kept_tuples.len() as int) == kept_tuples,
                forall|j: int|
                    0 <= j < k2 ==> #[trigger] self.sorted_ops@[kept_tuples.len() + j]
                        == (OpTuple { op: ans2@[j], old_parent: None }),
                self.forest@ == rew_forest,
                self.log == old(self).log,
                self.clients == old(self).clients,
                self.client == old(self).client,
                self.next_lamport == old(self).next_lamport,
                self.applied_end == kept_tuples.len(),
            decreases n2 - k2,
        {
            let ghost pre = self.sorted_ops@;
            self.sorted_ops.push(OpTuple { op: ans2[k2], old_parent: None });
            proof {
                assert(self.sorted_ops@.take(kept_tuples.len() as int) =~= pre.take(
                    kept_tuples.len() as int,
                ));
            }
            k2 += 1;
        }
        proof {
            let new_ops = ops_of(self.sorted_ops@);
            let suffix = sv0.subrange(trim, sv0.len() as int);
            assert(new_ops =~= kept_ops + ans2@) by {
                assert forall|j: int| 0 <= j < new_ops.len()
                    implies new_ops[j] == (kept_ops + ans2@)[j] by {
                    if j < trim {
                        assert(self.sorted_ops@[j] == kept_tuples[j]) by {
                            assert(self.sorted_ops@.take(kept_tuples.len() as int)[j]
                                == kept_tuples[j]);
                        }
                    } else {
                        assert(self.sorted_ops@[kept_tuples.len() + (j - trim)] == (OpTuple {
                            op: ans2@[j - trim],
                            old_parent: None,
                        }));
                        assert(kept_tuples.len() + (j - trim) == j);
                    }
                }
            }
            assert(sorted_strict(new_ops)) by {
                assert forall|i: int, j: int| #![trigger new_ops[i].id.lt_spec(new_ops[j].id)]
                    0 <= i < j < new_ops.len()
                    implies new_ops[i].id.lt_spec(new_ops[j].id) by {
                    if j < trim {
                        assert(new_ops[i] == sv0[i] && new_ops[j] == sv0[j]);
                        assert(sv0[i].id.lt_spec(sv0[j].id));
                    } else if i < trim && j >= trim {
                        assert(new_ops[i] == sv0[i]);
                        assert(sv0[i].id.lt_spec(start_id));
                        assert(new_ops[j] == ans2@[j - trim]);
                        assert(ans2@.to_set().contains(ans2@[j - trim]));
                        assert(start_id.le_spec(ans2@[j - trim].id));
                    } else {
                        assert(new_ops[i] == ans2@[i - trim] && new_ops[j] == ans2@[j - trim]);
                        assert(ans2@[i - trim].id.lt_spec(ans2@[j - trim].id));
                    }
                }
            }
            assert(new_ops.to_set() =~= union) by {
                crate::ops::lemma_split_set(new_ops, trim);
                assert(new_ops.take(trim) =~= kept_ops);
                assert(new_ops.subrange(trim, new_ops.len() as int) =~= ans2@);
                crate::ops::lemma_split_set(sv0, trim);
                assert(sv0.take(trim).to_set() + suffix.to_set() =~= sv0.to_set());
                assert(ans2@.to_set() == inc_set + suffix.to_set());
                assert(new_ops.to_set() =~= sv0.to_set() + inc_set);
                assert(sv0.to_set() == old_set);
                assert(old_set + inc_set =~= union);
            }
            assert(log_op_set(self.log_view()) == old_set + inc_set);
            assert(new_ops.to_set() == log_op_set(self.log_view())) by {
                assert(old_set + inc_set =~= union);
            }
            assert(closed_set(new_ops.to_set()));
            assert(old_parents_ok(self.sorted_ops@, self.applied_end as int)) by {
                assert forall|j: int|
                    0 <= j < self.applied_end && j < self.sorted_ops@.len()
                        && (#[trigger] self.sorted_ops@[j].op.content
                        matches OpContent::Move { .. })
                    implies self.sorted_ops@[j].old_parent == replay(
                        ops_of(self.sorted_ops@).take(j),
                    )[
                        match self.sorted_ops@[j].op.content {
                            OpContent::Move { target: t3, .. } => t3,
                            _ => self.sorted_ops@[j].op.id,
                        }
                    ].parent by {
                    assert(self.sorted_ops@[j] == kept_tuples[j]) by {
                        assert(self.sorted_ops@.take(kept_tuples.len() as int)[j]
                            == kept_tuples[j]);
                    }
                    assert(kept_tuples[j] == old(self).sorted_ops@[j]) by {
                        assert(kept_tuples == old(self).sorted_ops@.take(trim));
                    }
                    assert(ops_of(self.sorted_ops@).take(j) =~= sv0.take(j)) by {
                        assert forall|u: int| 0 <= u < j
                            implies ops_of(self.sorted_ops@)[u] == sv0[u] by {
                            assert(self.sorted_ops@[u] == kept_tuples[u]) by {
                                assert(self.sorted_ops@.take(kept_tuples.len() as int)[u]
                                    == kept_tuples[u]);
                            }
                        }
                    }
                    assert(ops_of(old(self).sorted_ops@).take(j) =~= sv0.take(j));
                }
            }
            // hand the rewound forest to the replay of the merged tail
            assert forall|y: Op| suffix.to_set().contains(y)
                implies #[trigger] ans2@.to_set().contains(y) by {
                assert(ans2@.to_set() == inc_set + suffix.to_set());
            }
            lemma_revert_to_sim(rew_forest, sv0, trim, ans2@);
            assert(new_ops.take(trim) == sv0.take(trim)) by {
                assert(new_ops.take(trim) =~= sv0.take(trim));
            }
            assert(new_ops.skip(trim) == ans2@) by {
                assert(new_ops.skip(trim) =~= ans2@);
            }
            assert(sim_rel(self.forest@, new_ops.take(trim), new_ops.skip(trim)));
            assert forall|op: Op| new_ops.to_set().contains(op)
                implies (#[trigger] op.id).lamport < self.next_lamport by {
                assert(union.contains(op));
            }
        }
        self.apply_pending_ops();
        proof {
            assert(final(self).op_set() =~= old_set + pre_sort.to_set());
        }
    }

    /// The first position whose id is at or above `id`, by binary
    /// search.
    fn find_trim(s: &Vec<OpTuple>, id: &ID) -> (i: usize)
        requires
            sorted_strict(ops_of(s@)),
        ensures
            i <= s@.len(),
            forall|j: int| 0 <= j < i ==> (#[trigger] ops_of(s@)[j].id).lt_spec(*id),
            forall|j: int|
                i <= j < s@.len() ==> !(#[trigger] ops_of(s@)[j].id).lt_spec(*id),
    {
        let ghost all = ops_of(s@);
        let mut lo: usize = 0;
        let mut hi: usize = s.len();
        while lo < hi
            invariant
                lo <= hi <= all.len(),
                all == ops_of(s@),
                sorted_strict(all),
                forall|j: int| 0 <= j < lo ==> (#[trigger] all[j].id).lt_spec(*id),
                forall|j: int| hi <= j < all.len() ==> !(#[trigger] all[j].id).lt_spec(*id),
            decreases hi - lo,
        {
            let mid = lo + (hi - lo) / 2;
            proof {
                assert(ops_of(s@)[mid as int] == s@[mid as int].op);
            }
            if s[mid].op.id.lt(id) {
                assert forall|j: int| 0 <= j < mid + 1
                    implies (#[trigger] all[j].id).lt_spec(*id) by {
                    if j < mid {
                        assert(all[j].id.lt_spec(all[mid as int].id));
                    }
                }
                lo = mid + 1;
            } else {
                assert forall|j: int| mid <= j < all.len()
                    implies !(#[trigger] all[j].id).lt_spec(*id) by {
                    if j > mid {
                        assert(all[mid as int].id.lt_spec(all[j].id));
                    }
                }
                hi = mid;
            }
        }
        lo
    }

    /// Mark `target` deleted.
    pub fn delete(&mut self, target: ID)
        requires
            old(self).wf(),
            old(self).can_issue(),
            old(self).has_node(target),
        ensures
            final(self).wf(),
            final(self).client_spec() == old(self).client_spec(),
            final(self).next_id() == (ID {
                lamport: (old(self).next_id().lamport + 1) as u32,
                client: old(self).client_spec(),
            }),
            final(self).op_set() == old(self).op_set().insert(
                Op { id: old(self).next_id(), content: OpContent::Delete(target) },
            ),
            final(self).sorted_view() == old(self).sorted_view().push(
                Op { id: old(self).next_id(), content: OpContent::Delete(target) },
            ),
            final(self).forest_view() == apply_flag(old(self).forest_view(), target, true),
            final(self).log_view() == old(self).log_view().insert(
                old(self).client_spec(),
                crate::ops::log_of(old(self).log_view(), old(self).client_spec()).push(
                    Op { id: old(self).next_id(), content: OpContent::Delete(target) },
                ),
            ),
            forall|x: Op|
                old(self).op_set().contains(x) ==> (#[trigger] x.id).lt_spec(old(self).next_id()),
            forall|i2: ID| old(self).has_node(i2) ==> final(self).has_node(i2),
    {
        let _ = self.commit_local_op(OpContent::Delete(target));
    }
}

} // verus!
