//! The snapshot-rewind replica.  Local edits append operations to the
//! per-client log and to the id-sorted view, which is replayed into the
//! forest; every applied operation pushes a snapshot into the
//! log-spaced cache.  A merge rewinds by restoring the latest snapshot
//! at or before the earliest incoming operation and replays the sorted
//! union, so replicas knowing the same operations converge.

use vstd::prelude::*;

use crate::forest_spec::apply_flag;
use crate::forest_spec::apply_mov;
use crate::forest_spec::apply_op;
use crate::forest_spec::empty_forest;
use crate::forest_spec::replay;
use crate::forest_spec::TreeNode;
use crate::log_spaced_snapshots::LogSpacedSnapshots;
use crate::ops::client_ops_ok;
use crate::ops::empty_log;
use crate::ops::closed_set;
use crate::ops::has_new_below;
use crate::ops::log_op_set;
use crate::ops::log_wf;
use crate::ops::logs_compatible;
use crate::ops::op_capacity;
use crate::ops::sort_ops;
use crate::ops::find_ge;
use crate::ops::sorted_strict;
use crate::ops::lemma_closed_insert;
use crate::replay::lemma_prefix_closed;
use crate::replay::lemma_replay_props;
use crate::replay::lemma_replay_step;
use crate::replay::lemma_step_refs;
use crate::replay::new_ids;
use crate::tree::Forest;

pub use crate::ops::ID;
pub use crate::ops::Op;
pub use crate::ops::OpContent;

verus! {

/// The per-client log as a map from client id to that client's
/// operation sequence.
pub uninterp spec fn im_log_view(m: im::HashMap<u64, Vec<Op>>) -> Map<u64, Seq<Op>>;

/// Relies on im::HashMap::new: the new map is empty.
#[verifier::external_body]
fn im_log_new() -> (r: im::HashMap<u64, Vec<Op>>)
    ensures
        im_log_view(r) == empty_log(),
{
    im::HashMap::new()
}

/// Relies on im::HashMap::get (plus a vector copy): the operations
/// stored under the client, or nothing when the client is unknown.
#[verifier::external_body]
fn im_log_get(m: &im::HashMap<u64, Vec<Op>>, c: u64) -> (r: Option<Vec<Op>>)
    ensures
        r matches Some(v) ==> im_log_view(*m).dom().contains(c) && v@ == im_log_view(*m)[c],
        r is None ==> !im_log_view(*m).dom().contains(c),
{
    m.get(&c).cloned()
}

/// Relies on im::HashMap::insert: maps the client to the operations,
/// leaving every other client unchanged.
#[verifier::external_body]
fn im_log_insert(m: &mut im::HashMap<u64, Vec<Op>>, c: u64, ops_vec: Vec<Op>)
    ensures
        im_log_view(*final(m)) == im_log_view(*old(m)).insert(c, ops_vec@),
{
    m.insert(c, ops_vec);
}

/// Relies on im::HashMap::iter (plus copying each entry out): every
/// entry of the map exactly once, in unspecified order.
#[verifier::external_body]
fn im_log_entries(m: &im::HashMap<u64, Vec<Op>>) -> (r: Vec<(u64, Vec<Op>)>)
    ensures
        forall|i: int|
            0 <= i < r@.len() ==> im_log_view(*m).dom().contains((#[trigger] r@[i]).0)
                && r@[i].1@ == im_log_view(*m)[r@[i].0],
        forall|i: int, j: int| #![trigger r@[i].0, r@[j].0]
            0 <= i < j < r@.len() ==> r@[i].0 != r@[j].0,
        forall|c: u64| #[trigger]
            im_log_view(*m).dom().contains(c) ==> exists|i: int| 0 <= i < r@.len() && r@[i].0 == c,
{
    m.iter().map(|pair: (&u64, &Vec<Op>)| (*pair.0, pair.1.clone())).collect()
}

/// A replica of the tree using snapshot rewind.
pub struct Crdt {
    forest: Forest,
    cache: LogSpacedSnapshots<ID, Forest>,
    client: u64,
    next_lamport: u32,
    log: im::HashMap<u64, Vec<Op>>,
    /// ops sorted by id
    sorted_ops: Vec<Op>,
    /// the end of the applied prefix of `sorted_ops`
    applied_end: usize,
}

impl Crdt {
    /// The replica's identity.
    pub closed spec fn client_spec(&self) -> u64 {
        self.client
    }

    /// The per-client log.
    pub closed spec fn log_view(&self) -> Map<u64, Seq<Op>> {
        im_log_view(self.log)
    }

    /// All known operations, sorted by id.
    pub closed spec fn sorted_view(&self) -> Seq<Op> {
        self.sorted_ops@
    }

    /// All known operations.
    pub open spec fn op_set(&self) -> Set<Op> {
        self.sorted_view().to_set()
    }

    /// The forest the replica currently presents.
    pub closed spec fn forest_view(&self) -> Map<ID, TreeNode> {
        self.forest@
    }

    /// The id the next local operation will carry.
    pub closed spec fn next_id(&self) -> ID {
        ID { lamport: self.next_lamport, client: self.client }
    }

    /// The replica can still mint ids and hold one more operation.
    pub open spec fn can_issue(&self) -> bool {
        self.next_id().lamport < u32::MAX && self.sorted_view().len() < op_capacity()
    }

    /// The id names a node: some known `New` created it.
    pub open spec fn has_node(&self, i: ID) -> bool {
        exists|n: Op|
            self.op_set().contains(n) && (n.content matches OpContent::New { .. }) && n.id == i
    }

    /// The two replicas agree on their common log prefixes.
    pub open spec fn compatible(&self, other: &Crdt) -> bool {
        logs_compatible(self.log_view(), other.log_view())
    }

    spec fn inv_base(&self) -> bool {
        &&& log_wf(self.log_view())
        &&& self.sorted_view().to_set() == log_op_set(self.log_view())
        &&& sorted_strict(self.sorted_view())
        &&& closed_set(self.sorted_view().to_set())
        &&& forall|op: Op|
            self.sorted_view().to_set().contains(op) ==> (#[trigger] op.id).lamport
                < self.next_lamport
        &&& self.sorted_view().len() <= op_capacity()
    }

    spec fn covers_to(&self, k: int) -> bool {
        &&& 0 <= k <= self.sorted_view().len()
        &&& self.forest@ == replay(self.sorted_view().take(k))
        &&& self.cache.wf()
        &&& self.cache.density() == 2
        &&& self.cache.versions().len() == k
        &&& forall|i: int|
            0 <= i < k ==> self.cache.versions()[i] == (#[trigger] self.sorted_view()[i]).id
        &&& forall|j: int|
            0 <= j < k && (#[trigger] self.cache.slots()[j]) is Some ==> (
            self.cache.slots()[j]->0)@ == replay(self.sorted_view().take(j + 1))
    }

    /// The replica invariant: the log is well shaped, the sorted view
    /// holds exactly the log's operations in strict id order with all
    /// references created below them, the forest is the replay of the
    /// sorted view, and every cached snapshot is the replay of the
    /// prefix it is keyed at.
    pub closed spec fn wf(&self) -> bool {
        &&& self.inv_base()
        &&& self.covers_to(self.sorted_view().len() as int)
        &&& self.applied_end == self.sorted_view().len()
    }

    /// What a well-formed replica's parts satisfy, for reasoning about
    /// convergence and merge enabling from outside.
    pub proof fn lemma_state(&self)
        requires
            self.wf(),
        ensures
            sorted_strict(self.sorted_view()),
            closed_set(self.op_set()),
            self.op_set() == self.sorted_view().to_set(),
            self.op_set() == log_op_set(self.log_view()),
            log_wf(self.log_view()),
            self.forest_view() == replay(self.sorted_view()),
            crate::ops::ids_distinct(self.op_set()),
            forall|op: Op|
                self.op_set().contains(op) ==> (#[trigger] op.id).lamport
                    < self.next_id().lamport,
    {
        assert(self.sorted_view().take(self.sorted_view().len() as int) =~= self.sorted_view());
        crate::ops::lemma_log_set_distinct(self.log_view());
    }

    /// A fresh, empty replica with the given identity.
    pub fn new(client: u64) -> (r: Crdt)
        ensures
            r.wf(),
            r.client_spec() == client,
            r.op_set() == Set::<Op>::empty(),
            r.sorted_view() == Seq::<Op>::empty(),
            r.log_view() == empty_log(),
            r.next_id() == (ID { lamport: 0, client }),
            r.forest_view() == empty_forest(),
    {
        let r = Crdt {
            forest: Forest::new(),
            cache: LogSpacedSnapshots::new(2),
            client,
            next_lamport: 0,
            log: im_log_new(),
            sorted_ops: Vec::new(),
            applied_end: 0,
        };
        proof {
            assert(r.sorted_view().to_set() =~= Set::<Op>::empty());
            assert(log_op_set(r.log_view()) =~= Set::<Op>::empty());
            assert(r.sorted_view().take(0) =~= Seq::<Op>::empty());
        }
        r
    }

    /// The forest the replica currently presents.
    pub fn forest(&self) -> (r: &Forest)
        ensures
            r@ == self.forest_view(),
    {
        &self.forest
    }

    /// Apply every unapplied operation of the sorted view to the
    /// forest, pushing one snapshot per operation into the cache.
    fn apply_pending_ops(&mut self)
        requires
            old(self).inv_base(),
            old(self).covers_to(old(self).applied_end as int),
            old(self).applied_end <= old(self).sorted_view().len(),
        ensures
            final(self).wf(),
            final(self).sorted_ops == old(self).sorted_ops,
            final(self).log == old(self).log,
            final(self).client == old(self).client,
            final(self).next_lamport == old(self).next_lamport,
    {
        let mut i = self.applied_end;
        while i < self.sorted_ops.len()
            invariant
                self.inv_base(),
                self.covers_to(i as int),
                i <= self.sorted_view().len(),
                self.sorted_ops == old(self).sorted_ops,
                self.log == old(self).log,
                self.client == old(self).client,
                self.next_lamport == old(self).next_lamport,
            decreases self.sorted_ops.len() - i,
        {
            let ghost sv = self.sorted_view();
            let ghost k = i as int;
            proof {
                lemma_prefix_closed(sv, k);
                lemma_replay_props(sv.take(k));
                lemma_step_refs(sv, k);
                lemma_replay_step(sv, k);
                lemma_prefix_closed(sv, k + 1);
                lemma_replay_props(sv.take(k + 1));
                assert(sv.to_set().contains(sv[k]));
            }
            let op = self.sorted_ops[i];
            match op.content {
                OpContent::New { parent } => {
                    proof {
                        if parent is Some {
                            assert(has_new_below(sv.to_set(), parent->0, op.id));
                        }
                    }
                    let _ = self.forest.mov(op.id, parent);
                },
                OpContent::Move { target, parent } => {
                    proof {
                        assert(has_new_below(sv.to_set(), target, op.id));
                        if parent is Some {
                            assert(has_new_below(sv.to_set(), parent->0, op.id));
                        }
                    }
                    let _ = self.forest.mov(target, parent);
                },
                OpContent::Delete(target) => {
                    proof {
                        assert(has_new_below(sv.to_set(), target, op.id));
                    }
                    self.forest.delete(target);
                },
            }
            assert(self.forest@ == replay(sv.take(k + 1)));
            let snap = self.forest.duplicate();
            proof {
                vstd::arithmetic::power2::lemma2_to64();
                assert(vstd::arithmetic::power2::pow2(2) == 4);
                if i > 0 {
                    assert(self.cache.versions().last() == sv[k - 1].id);
                    assert(sv[k - 1].id.lt_spec(sv[k].id));
                }
            }
            let ghost pre_slots = self.cache.slots();
            let ghost pre_vers = self.cache.versions();
            let ghost snap_view = snap@;
            self.cache.push(op.id, snap);
            proof {
                let sl2 = self.cache.slots();
                assert forall|j: int| 0 <= j < k + 1 && (#[trigger] sl2[j]) is Some
                    implies (sl2[j]->0)@ == replay(sv.take(j + 1)) by {
                    let n0 = pre_vers.len() as usize;
                    let delta = crate::log_spaced_snapshots::delta_of(n0, 2);
                    crate::log_spaced_snapshots::lemma_delta_pos(n0, 2);
                    assert(pre_slots.len() == k);
                    if delta <= n0 {
                        let upd = pre_slots.update(n0 - delta, None);
                        assert(sl2 == upd.push(Some(snap)));
                        if j == k {
                            assert(sl2[j] == Some(snap));
                        } else {
                            assert(sl2[j] == upd[j]);
                            assert(upd[j] == pre_slots[j] || upd[j] is None);
                        }
                    } else {
                        assert(sl2 == pre_slots.push(Some(snap)));
                        if j == k {
                            assert(sl2[j] == Some(snap));
                        } else {
                            assert(sl2[j] == pre_slots[j]);
                        }
                    }
                }
                assert forall|i2: int| 0 <= i2 < k + 1
                    implies self.cache.versions()[i2] == (#[trigger] sv[i2]).id by {
                    if i2 < k {
                        assert(self.cache.versions()[i2] == pre_vers[i2]);
                    }
                }
            }
            i += 1;
        }
        self.applied_end = i;
        proof {
            assert(self.sorted_view().take(self.sorted_view().len() as int)
                =~= self.sorted_view());
        }
    }

    /// Mint the next id, record the operation in the log and the sorted
    /// view, and apply it.  A local operation always carries the
    /// greatest id seen, so the sorted view stays sorted.
    fn commit_local_op(&mut self, content: OpContent) -> (id: ID)
        requires
            old(self).wf(),
            old(self).can_issue(),
            match content {
                OpContent::New { parent } => match parent {
                    Some(p) => old(self).has_node(p),
                    None => true,
                },
                OpContent::Move { target, parent } => old(self).has_node(target)
                    && match parent {
                        Some(p) => old(self).has_node(p),
                        None => true,
                    },
                OpContent::Delete(target) => old(self).has_node(target),
            },
        ensures
            final(self).wf(),
            final(self).client_spec() == old(self).client_spec(),
            id == old(self).next_id(),
            final(self).next_id() == (ID {
                lamport: (old(self).next_id().lamport + 1) as u32,
                client: old(self).client_spec(),
            }),
            final(self).op_set() == old(self).op_set().insert(Op { id, content }),
            final(self).sorted_view() == old(self).sorted_view().push(Op { id, content }),
            final(self).forest_view() == apply_op(old(self).forest_view(), Op { id, content }),
            final(self).log_view() == old(self).log_view().insert(
                old(self).client_spec(),
                crate::ops::log_of(old(self).log_view(), old(self).client_spec()).push(
                    Op { id, content },
                ),
            ),
            forall|x: Op| old(self).op_set().contains(x) ==> (#[trigger] x.id).lt_spec(id),
            forall|i2: ID| old(self).has_node(i2) ==> final(self).has_node(i2),
    {
        let id = ID { lamport: self.next_lamport, client: self.client };
        self.next_lamport = self.next_lamport + 1;
        let op = Op { id, content };
        proof {
            // every known operation sits strictly below the new id
            assert forall|x: Op| old(self).op_set().contains(x)
                implies x.id.lt_spec(id) by {
                assert(x.id.lamport < id.lamport);
            }
        }
        let mut entry = match im_log_get(&self.log, self.client) {
            Some(v) => v,
            None => Vec::new(),
        };
        let ghost old_entry = entry@;
        entry.push(op);
        im_log_insert(&mut self.log, self.client, entry);
        let ghost old_sv = self.sorted_ops@;
        self.sorted_ops.push(op);
        proof {
            let c = self.client;
            let oldl = old(self).log_view();
            let newl = self.log_view();
            let sv = self.sorted_view();
            assert(sv =~= old_sv.push(op));
            // the old entry is exactly the old log's entry for `c`
            assert(old_entry == crate::ops::log_of(oldl, c));
            // the sorted view's element set gains exactly `op`
            assert(sv.to_set() =~= old_sv.to_set().insert(op)) by {
                assert forall|x: Op| sv.to_set().contains(x)
                    implies old_sv.to_set().insert(op).contains(x) by {
                    let ix = choose|ix: int| 0 <= ix < sv.len() && sv[ix] == x;
                    if ix < old_sv.len() {
                        assert(old_sv[ix] == x);
                    }
                }
                assert forall|x: Op| old_sv.to_set().insert(op).contains(x)
                    implies sv.to_set().contains(x) by {
                    if x == op {
                        assert(sv[sv.len() - 1] == op);
                    } else {
                        let ix = choose|ix: int| 0 <= ix < old_sv.len() && old_sv[ix] == x;
                        assert(sv[ix] == x);
                    }
                }
            }
            // the log's operation set gains exactly `op`
            assert(log_op_set(newl) =~= log_op_set(oldl).insert(op)) by {
                assert(newl == oldl.insert(c, old_entry.push(op)));
                assert forall|x: Op| log_op_set(newl).contains(x)
                    implies log_op_set(oldl).insert(op).contains(x) by {
                    if x.id.client == c {
                        let ix = choose|ix: int|
                            0 <= ix < newl[c].len() && newl[c][ix] == x;
                        if ix < old_entry.len() {
                            assert(old_entry[ix] == x);
                            assert(oldl.dom().contains(c));
                            assert(oldl[c].contains(x));
                        } else {
                            assert(x == op);
                        }
                    }
                }
                assert forall|x: Op| log_op_set(oldl).insert(op).contains(x)
                    implies log_op_set(newl).contains(x) by {
                    if x == op {
                        assert(newl[c][old_entry.len() as int] == op);
                    } else {
                        let c2 = x.id.client;
                        let ix = choose|ix: int|
                            0 <= ix < oldl[c2].len() && oldl[c2][ix] == x;
                        if c2 == c {
                            assert(oldl.dom().contains(c));
                            assert(newl[c][ix] == x);
                        } else {
                            assert(newl[c2] == oldl[c2]);
                        }
                    }
                }
            }
            // the log entry for `c` keeps its shape
            assert(client_ops_ok(newl[c], c)) by {
                let e = newl[c];
                assert(e == old_entry.push(op));
                assert forall|i2: int, j2: int| #![trigger e[i2].id.lamport, e[j2].id.lamport]
                    0 <= i2 < j2 < e.len()
                    implies e[i2].id.lamport < e[j2].id.lamport by {
                    if j2 == e.len() - 1 {
                        if oldl.dom().contains(c) {
                            assert(log_op_set(oldl).contains(old_entry[i2]));
                            assert(old(self).op_set().contains(old_entry[i2]));
                        }
                    } else {
                        assert(client_ops_ok(crate::ops::log_of(oldl, c), c));
                    }
                }
                assert forall|i2: int| 0 <= i2 < e.len()
                    implies (#[trigger] e[i2]).id.client == c by {
                    if i2 < e.len() - 1 {
                        assert(client_ops_ok(crate::ops::log_of(oldl, c), c));
                    }
                }
            }
            assert(log_wf(newl)) by {
                assert forall|c2: u64| #[trigger] newl.dom().contains(c2)
                    implies client_ops_ok(newl[c2], c2) && newl[c2].len() > 0 by {
                    if c2 != c {
                        assert(newl[c2] == oldl[c2]);
                    }
                }
            }
            // sortedness: the new operation's id is the greatest
            assert(sorted_strict(sv)) by {
                assert forall|i2: int, j2: int| #![trigger sv[i2].id.lt_spec(sv[j2].id)]
                    0 <= i2 < j2 < sv.len()
                    implies sv[i2].id.lt_spec(sv[j2].id) by {
                    if j2 == sv.len() - 1 {
                        assert(old_sv.to_set().contains(old_sv[i2]));
                        assert(old(self).op_set().contains(old_sv[i2]));
                    } else {
                        assert(old_sv[i2].id.lt_spec(old_sv[j2].id));
                    }
                }
            }
            // closure: the new operation's references are known nodes
            assert(closed_set(sv.to_set())) by {
                assert forall|r: ID|
                    old(self).has_node(r) implies has_new_below(
                    old(self).op_set(),
                    r,
                    op.id,
                ) by {
                    let n = choose|n: Op|
                        old(self).op_set().contains(n) && (n.content
                            matches OpContent::New { .. }) && n.id == r;
                    assert(n.id.lt_spec(op.id));
                }
                lemma_closed_insert(old(self).op_set(), op);
                assert(sv.to_set() == old(self).op_set().insert(op));
            }
            // lamport bound
            assert forall|x: Op| sv.to_set().contains(x)
                implies (#[trigger] x.id).lamport < self.next_lamport by {
                if x != op {
                    assert(old(self).op_set().contains(x));
                }
            }
            // the applied prefix is exactly the old sorted view
            assert(sv.take(old_sv.len() as int) =~= old_sv);
            assert(old_sv.take(old_sv.len() as int) =~= old_sv);
            assert forall|j: int| 0 <= j < old_sv.len()
                implies #[trigger] sv.take(j + 1) == old_sv.take(j + 1) by {
                assert(sv.take(j + 1) =~= old_sv.take(j + 1));
            }
            assert(self.covers_to(self.applied_end as int));
        }
        self.apply_pending_ops();
        proof {
            assert forall|i2: ID| old(self).has_node(i2)
                implies final(self).has_node(i2) by {
                let n = choose|n: Op|
                    old(self).op_set().contains(n) && (n.content matches OpContent::New { .. })
                        && n.id == i2;
                assert(final(self).op_set().contains(n));
            }
            let op = Op { id, content };
            assert(final(self).sorted_view() =~= old(self).sorted_view().push(op));
            assert(final(self).forest_view() == apply_op(old(self).forest_view(), op)) by {
                let nsv = final(self).sorted_view();
                let osv = old(self).sorted_view();
                assert(nsv.take(nsv.len() as int) =~= nsv);
                assert(final(self).forest_view() == replay(nsv));
                assert(nsv.drop_last() =~= osv);
                assert(nsv.last() == op);
                assert(replay(nsv) == apply_op(replay(osv), op));
                assert(osv.take(osv.len() as int) =~= osv);
                assert(old(self).forest_view() == replay(osv));
            }
        }
        id
    }

    /// Create a node under `parent` (or a new root), returning its id:
    /// the id of the recorded `New` operation.
    pub fn new_node(&mut self, parent: Option<ID>) -> (id: ID)
        requires
            old(self).wf(),
            old(self).can_issue(),
            parent matches Some(p) ==> old(self).has_node(p),
        ensures
            final(self).wf(),
            final(self).client_spec() == old(self).client_spec(),
            id == old(self).next_id(),
            final(self).next_id() == (ID {
                lamport: (old(self).next_id().lamport + 1) as u32,
                client: old(self).client_spec(),
            }),
            final(self).op_set() == old(self).op_set().insert(
                Op { id, content: OpContent::New { parent } },
            ),
            final(self).sorted_view() == old(self).sorted_view().push(
                Op { id, content: OpContent::New { parent } },
            ),
            final(self).forest_view() == apply_mov(old(self).forest_view(), id, parent),
            final(self).log_view() == old(self).log_view().insert(
                old(self).client_spec(),
                crate::ops::log_of(old(self).log_view(), old(self).client_spec()).push(
                    Op { id, content: OpContent::New { parent } },
                ),
            ),
            forall|x: Op| old(self).op_set().contains(x) ==> (#[trigger] x.id).lt_spec(id),
            forall|i2: ID| old(self).has_node(i2) ==> final(self).has_node(i2),
            final(self).has_node(id),
    {
        let id = self.commit_local_op(OpContent::New { parent });
        proof {
            let op = Op { id, content: OpContent::New { parent } };
            assert(final(self).op_set().contains(op));
        }
        id
    }

    /// Reparent `target` under `parent` (or make it a root).  If the
    /// move would create a cycle at replay time it silently has no
    /// effect on the forest, but stays in the log.
    pub fn mov(&mut self, target: ID, parent: Option<ID>)
        requires
            old(self).wf(),
            old(self).can_issue(),
            old(self).has_node(target),
            parent matches Some(p) ==> old(self).has_node(p),
        ensures
            final(self).wf(),
            final(self).client_spec() == old(self).client_spec(),
            final(self).next_id() == (ID {
                lamport: (old(self).next_id().lamport + 1) as u32,
                client: old(self).client_spec(),
            }),
            final(self).op_set() == old(self).op_set().insert(
                Op { id: old(self).next_id(), content: OpContent::Move { target, parent } },
            ),
            final(self).sorted_view() == old(self).sorted_view().push(
                Op { id: old(self).next_id(), content: OpContent::Move { target, parent } },
            ),
            final(self).forest_view() == apply_mov(old(self).forest_view(), target, parent),
            final(self).log_view() == old(self).log_view().insert(
                old(self).client_spec(),
                crate::ops::log_of(old(self).log_view(), old(self).client_spec()).push(
                    Op { id: old(self).next_id(), content: OpContent::Move { target, parent } },
                ),
            ),
            forall|x: Op|
                old(self).op_set().contains(x) ==> (#[trigger] x.id).lt_spec(old(self).next_id()),
            forall|i2: ID| old(self).has_node(i2) ==> final(self).has_node(i2),
    {
        let _ = self.commit_local_op(OpContent::Move { target, parent });
    }

    /// The entry the merged log keeps for a client: the longer of the
    /// two replicas' entries for it.
    pub open spec fn longer_entry(a: Map<u64, Seq<Op>>, b: Map<u64, Seq<Op>>, c: u64) -> Seq<Op> {
        if crate::ops::log_of(b, c).len() > crate::ops::log_of(a, c).len() {
            crate::ops::log_of(b, c)
        } else {
            crate::ops::log_of(a, c)
        }
    }

    /// Merge every operation the other replica knows into this one.
    /// The incoming delta is appended per client; if it is empty the
    /// replica is left untouched.  Otherwise the replica rewinds to the
    /// latest snapshot at or before the earliest incoming id (or to the
    /// empty forest), re-sorts, and replays, so that the forest is
    /// again the replay of the id-sorted union of all known operations.
    #[verifier::rlimit(100)]
    pub fn merge(&mut self, other: &Crdt)
        requires
            old(self).wf(),
            other.wf(),
            old(self).compatible(other),
            old(self).sorted_view().len() + other.sorted_view().len() <= op_capacity(),
        ensures
            final(self).wf(),
            final(self).client_spec() == old(self).client_spec(),
            final(self).op_set() == old(self).op_set() + other.op_set(),
            final(self).compatible(other),
            forall|c: u64| #[trigger]
                crate::ops::log_of(final(self).log_view(), c) == Self::longer_entry(
                    old(self).log_view(),
                    other.log_view(),
                    c,
                ),
            other.op_set().subset_of(old(self).op_set()) ==> *final(self) == *old(self),
            forall|op: Op|
                final(self).op_set().contains(op) ==> (#[trigger] op.id).lamport
                    < final(self).next_id().lamport,
            final(self).next_id().lamport >= old(self).next_id().lamport,
            final(self).sorted_view().len() <= old(self).sorted_view().len() + other.sorted_view().len(),
    {
        let ghost a_log = old(self).log_view();
        let ghost b_log = other.log_view();
        let ghost old_set = old(self).op_set();
        let ghost oth_set = other.op_set();
        proof {
            old(self).lemma_state();
            other.lemma_state();
        }
        let entries = im_log_entries(&other.log);
        let ghost entries_seq = entries@;
        let mut ans: Vec<Op> = Vec::new();
        let n_entries = entries.len();
        for e in 0..n_entries
            invariant
                other.wf(),
                old(self).wf(),
                a_log == old(self).log_view(),
                b_log == other.log_view(),
                old_set == old(self).op_set(),
                oth_set == other.op_set(),
                logs_compatible(a_log, b_log),
                n_entries == entries_seq.len(),
                entries@ == entries_seq,
                forall|i: int|
                    0 <= i < entries_seq.len() ==> b_log.dom().contains(
                        (#[trigger] entries_seq[i]).0,
                    ) && entries_seq[i].1@ == b_log[entries_seq[i].0],
                forall|i: int, j: int| #![trigger entries_seq[i].0, entries_seq[j].0]
                    0 <= i < j < entries_seq.len() ==> entries_seq[i].0 != entries_seq[j].0,
                forall|c: u64| #[trigger]
                    b_log.dom().contains(c) ==> exists|i: int|
                        0 <= i < entries_seq.len() && entries_seq[i].0 == c,
                // frame: only the log and the lamport counter change
                self.sorted_ops == old(self).sorted_ops,
                self.forest == old(self).forest,
                self.cache == old(self).cache,
                self.applied_end == old(self).applied_end,
                self.client == old(self).client,
                self.next_lamport >= old(self).next_lamport,
                // log evolution: processed entries hold the longer log,
                // unprocessed ones are untouched
                forall|i: int|
                    e <= i < entries_seq.len() ==> crate::ops::log_of(
                        self.log_view(),
                        (#[trigger] entries_seq[i]).0,
                    ) == crate::ops::log_of(a_log, entries_seq[i].0),
                forall|i: int|
                    0 <= i < e ==> crate::ops::log_of(
                        self.log_view(),
                        (#[trigger] entries_seq[i]).0,
                    ) == Self::longer_entry(a_log, b_log, entries_seq[i].0),
                forall|c: u64|
                    !(#[trigger] b_log.dom().contains(c)) ==> crate::ops::log_of(
                        self.log_view(),
                        c,
                    ) == crate::ops::log_of(a_log, c),
                forall|c: u64| #[trigger]
                    self.log_view().dom().contains(c) ==> a_log.dom().contains(c)
                        || b_log.dom().contains(c),
                log_wf(self.log_view()),
                log_op_set(self.log_view()) == old_set + ans@.to_set(),
                // the collected delta
                forall|i: int|
                    0 <= i < ans@.len() ==> oth_set.contains(#[trigger] ans@[i])
                        && !old_set.contains(ans@[i]),
                forall|i: int, j: int| #![trigger ans@[i].id, ans@[j].id]
                    0 <= i < j < ans@.len() ==> ans@[i].id != ans@[j].id,
                forall|i: int|
                    0 <= i < ans@.len() ==> exists|e2: int|
                        0 <= e2 < e && (#[trigger] ans@[i]).id.client == entries_seq[e2].0,
                forall|i: int|
                    0 <= i < ans@.len() ==> (#[trigger] ans@[i]).id.lamport < self.next_lamport,
                ans@.len() == 0 ==> self.log == old(self).log && self.next_lamport == old(
                    self,
                ).next_lamport,
        {
            let pair = &entries[e];
            let c = pair.0;
            let ops_c = &pair.1;
            let ghost b_c = b_log[c];
            let cur_entry = match im_log_get(&self.log, c) {
                Some(v) => v,
                None => Vec::new(),
            };
            let ghost a_c = crate::ops::log_of(a_log, c);
            proof {
                assert(cur_entry@ == crate::ops::log_of(self.log_view(), c));
                assert(cur_entry@ == a_c);
            }
            let self_start = cur_entry.len();
            if ops_c.len() > self_start {
                proof {
                    // the shorter local entry is a prefix of the incoming one
                    if a_log.dom().contains(c) {
                        assert(a_log[c].is_prefix_of(b_log[c]) || b_log[c].is_prefix_of(
                            a_log[c],
                        ));
                    }
                    assert(a_c.is_prefix_of(b_c));
                }
                let mut entry = cur_entry;
                let mut k = self_start;
                let ghost ans0 = ans@;
                let ghost pre_log = self.log;
                let ghost pre_lamport = self.next_lamport;
                while k < ops_c.len()
                    invariant
                        other.wf(),
                        old(self).wf(),
                        b_log == other.log_view(),
                        oth_set == other.op_set(),
                        old_set == old(self).op_set(),
                        b_c == b_log[c],
                        b_log.dom().contains(c),
                        ops_c@ == b_c,
                        a_c.is_prefix_of(b_c),
                        a_c.len() == self_start,
                        self_start <= k <= b_c.len(),
                        self_start < b_c.len(),
                        entry@ == b_c.take(k as int),
                        ans@ == ans0 + b_c.subrange(self_start as int, k as int),
                        self.log == pre_log,
                        self.sorted_ops == old(self).sorted_ops,
                        self.forest == old(self).forest,
                        self.cache == old(self).cache,
                        self.applied_end == old(self).applied_end,
                        self.client == old(self).client,
                        self.next_lamport >= pre_lamport,
                        forall|i: int|
                            0 <= i < ans@.len() ==> (#[trigger] ans@[i]).id.lamport
                                < self.next_lamport,
                        forall|x: Op| #[trigger]
                            oth_set.contains(x) ==> x.id.lamport < other.next_lamport,
                    decreases b_c.len() - k,
                {
                    let op = ops_c[k];
                    proof {
                        assert(other.inv_base());
                        assert(b_c[k as int].id.client == c);
                        assert(log_op_set(b_log).contains(op));
                        assert(oth_set.contains(op));
                    }
                    entry.push(op);
                    ans.push(op);
                    proof {
                        assert(entry@ =~= b_c.take(k + 1));
                        assert(ans@ =~= ans0 + b_c.subrange(self_start as int, k + 1));
                    }
                    if op.id.lamport >= self.next_lamport {
                        self.next_lamport = op.id.lamport + 1;
                    }
                    k += 1;
                }
                proof {
                    assert(entry@ =~= b_c);
                }
                im_log_insert(&mut self.log, c, entry);
                proof {
                    let prev_view = im_log_view(pre_log);
                    let delta = b_c.subrange(self_start as int, b_c.len() as int);
                    assert(crate::ops::log_of(prev_view, c) == a_c);
                    assert(a_c + delta =~= b_c);
                    assert forall|i: int| 0 <= i < delta.len()
                        implies (#[trigger] delta[i]).id.client == c by {
                        assert(b_c[self_start + i].id.client == c);
                    }
                    crate::ops::lemma_log_append(prev_view, c, delta);
                    assert(self.log_view() == prev_view.insert(c, a_c + delta));
                    assert(self.log_view() == prev_view.insert(c, b_c));
                    // the new ans segment is exactly the delta
                    assert(ans@.take(ans0.len() as int) =~= ans0);
                    assert(ans@.subrange(ans0.len() as int, ans@.len() as int) =~= delta);
                    crate::ops::lemma_split_set(ans@, ans0.len() as int);
                    assert(log_op_set(self.log_view()) =~= old_set + ans@.to_set());
                    // incoming ops are new to this replica
                    assert forall|i: int| ans0.len() <= i < ans@.len()
                        implies !old_set.contains(#[trigger] ans@[i]) by {
                        let x = ans@[i];
                        let kx = self_start + (i - ans0.len());
                        assert(x == b_c[kx]);
                        if old_set.contains(x) {
                            assert(old(self).inv_base());
                            assert(log_op_set(a_log).contains(x));
                            let ix = choose|ix: int| 0 <= ix < a_c.len() && a_c[ix] == x;
                            assert(b_c[ix] == x);
                            assert(client_ops_ok(b_c, c));
                            assert(b_c[ix].id.lamport < b_c[kx].id.lamport);
                        }
                    }
                    // distinct ids within the grown delta
                    assert forall|i: int, j: int| #![trigger ans@[i].id, ans@[j].id]
                        0 <= i < j < ans@.len() implies ans@[i].id != ans@[j].id by {
                        if i < ans0.len() && j >= ans0.len() {
                            let e2 = choose|e2: int|
                                0 <= e2 < e && ans0[i].id.client == entries_seq[e2].0;
                            assert(ans@[j].id.client == c);
                            assert(entries_seq[e2].0 != c);
                        } else if i >= ans0.len() {
                            assert(client_ops_ok(b_c, c));
                            let ki = self_start + (i - ans0.len());
                            let kj = self_start + (j - ans0.len());
                            assert(b_c[ki].id.lamport < b_c[kj].id.lamport);
                        }
                    }
                    // the processed entry now holds the longer log
                    assert(crate::ops::log_of(self.log_view(), c) == Self::longer_entry(
                        a_log,
                        b_log,
                        c,
                    ));
                    assert(log_wf(self.log_view())) by {
                        assert forall|c2: u64| #[trigger] self.log_view().dom().contains(c2)
                            implies client_ops_ok(self.log_view()[c2], c2)
                                && self.log_view()[c2].len() > 0 by {
                            if c2 == c {
                                assert(self.log_view()[c] == b_c);
                                assert(client_ops_ok(b_c, c));
                            } else {
                                assert(self.log_view()[c2] == prev_view[c2]);
                            }
                        }
                    }
                    assert forall|i: int| 0 <= i < ans@.len()
                        implies exists|e2: int|
                            0 <= e2 < e + 1 && (#[trigger] ans@[i]).id.client
                                == entries_seq[e2].0 by {
                        if i < ans0.len() {
                            let e2 = choose|e2: int|
                                0 <= e2 < e && ans0[i].id.client == entries_seq[e2].0;
                            assert(0 <= e2 < e + 1 && ans@[i].id.client == entries_seq[e2].0);
                        } else {
                            assert(ans@[i].id.client == c && entries_seq[e as int].0 == c);
                        }
                    }
                }
            } else {
                proof {
                    // nothing incoming for this client: the local entry,
                    // being at least as long, is the longer one
                    assert(crate::ops::log_of(self.log_view(), c) == Self::longer_entry(
                        a_log,
                        b_log,
                        c,
                    ));
                }
            }
        }
        proof {
            // everything the other replica knows is now in the log
            assert forall|x: Op| oth_set.contains(x)
                implies (old_set + ans@.to_set()).contains(x) by {
            assert(other.inv_base());
                let c = x.id.client;
                let ix = choose|ix: int| 0 <= ix < b_log[c].len() && b_log[c][ix] == x;
                let e2 = choose|e2: int|
                    0 <= e2 < entries_seq.len() && entries_seq[e2].0 == c;
                let lng = Self::longer_entry(a_log, b_log, c);
                assert(crate::ops::log_of(self.log_view(), c) == lng);
                if lng == crate::ops::log_of(b_log, c) {
                    assert(lng[ix] == x);
                } else {
                    assert(b_log[c].is_prefix_of(a_log[c]) || a_log[c].is_prefix_of(b_log[c]));
                    assert(b_log[c].is_prefix_of(lng));
                    assert(lng[ix] == b_log[c].subrange(0, b_log[c].len() as int)[ix]);
                }
                assert(self.log_view().dom().contains(c));
                assert(log_op_set(self.log_view()).contains(x));
            }
        }
        let ghost merged_log = self.log;
        proof {
            // the merged log keeps, for every client, the longer entry
            assert forall|c: u64|
                #[trigger] crate::ops::log_of(im_log_view(merged_log), c) == Self::longer_entry(
                a_log,
                b_log,
                c,
            ) by {
                if b_log.dom().contains(c) {
                    let e2 = choose|e2: int|
                        0 <= e2 < entries_seq.len() && entries_seq[e2].0 == c;
                    assert(crate::ops::log_of(self.log_view(), entries_seq[e2].0)
                        == Self::longer_entry(a_log, b_log, entries_seq[e2].0));
                }
            }
            // and therefore stays compatible with the other replica
            assert(logs_compatible(im_log_view(merged_log), b_log)) by {
                assert forall|c: u64|
                    #![trigger im_log_view(merged_log).dom().contains(c), b_log.dom().contains(c)]
                    im_log_view(merged_log).dom().contains(c) && b_log.dom().contains(c)
                    implies (im_log_view(merged_log)[c].is_prefix_of(b_log[c])
                        || b_log[c].is_prefix_of(im_log_view(merged_log)[c])) by {
                    let mc = im_log_view(merged_log)[c];
                    assert(mc == Self::longer_entry(a_log, b_log, c));
                    if mc == crate::ops::log_of(b_log, c) {
                        assert(b_log[c].is_prefix_of(mc)) by {
                            assert(b_log[c] =~= mc.subrange(0, b_log[c].len() as int));
                        }
                    } else {
                        // the local entry was at least as long
                        if a_log.dom().contains(c) {
                            assert(a_log[c].is_prefix_of(b_log[c]) || b_log[c].is_prefix_of(
                                a_log[c],
                            ));
                            if a_log[c].is_prefix_of(b_log[c]) {
                                assert(a_log[c].len() == b_log[c].len());
                                assert(a_log[c] =~= b_log[c]);
                            }
                            assert(b_log[c].is_prefix_of(mc));
                        } else {
                            assert(crate::ops::log_of(b_log, c).len() == 0);
                            assert(b_log[c].len() == 0);
                            assert(b_log[c].is_prefix_of(mc)) by {
                                assert(b_log[c] =~= mc.subrange(0, 0));
                            }
                        }
                    }
                }
            }
        }
        if ans.len() == 0 {
            proof {
                assert(ans@.to_set() =~= Set::<Op>::empty());
                assert(oth_set.subset_of(old_set));
                assert(old_set + oth_set =~= old_set);
                assert(self.log == old(self).log);
                assert(self.log_view() == a_log);
                assert forall|c: u64|
                    #[trigger] crate::ops::log_of(self.log_view(), c) == Self::longer_entry(
                        a_log,
                        b_log,
                        c,
                    ) by {
                    if b_log.dom().contains(c) {
                        let e2 = choose|e2: int|
                            0 <= e2 < entries_seq.len() && entries_seq[e2].0 == c;
                        assert(crate::ops::log_of(self.log_view(), entries_seq[e2].0)
                            == Self::longer_entry(a_log, b_log, entries_seq[e2].0));
                    }
                }
            }
            return;
        }
        proof {
            assert(!oth_set.subset_of(old_set)) by {
                assert(oth_set.contains(ans@[0]) && !old_set.contains(ans@[0]));
            }
        }
        proof {
            // enable the rewind helper from the merged-log facts
            crate::ops::lemma_closed_union(old_set, oth_set);
            assert(old_set + ans@.to_set() =~= old_set + oth_set);
            assert forall|op: Op| self.op_set().contains(op)
                implies (#[trigger] op.id).lamport < self.next_lamport by {
                assert(old(self).op_set().contains(op));
            }
            // the delta is no larger than the other replica's history
            crate::ops::lemma_sorted_strict_no_duplicates(other.sorted_view());
            other.sorted_view().unique_seq_to_set();
            assert(ans@.no_duplicates()) by {
                assert forall|i: int, j: int|
                    0 <= i < ans@.len() && 0 <= j < ans@.len() && i != j
                    implies ans@[i] != ans@[j] by {
                    if i < j {
                        assert(ans@[i].id != ans@[j].id);
                    } else {
                        assert(ans@[j].id != ans@[i].id);
                    }
                }
            }
            ans@.unique_seq_to_set();
            assert(ans@.to_set().subset_of(oth_set)) by {
                assert forall|x: Op| ans@.to_set().contains(x)
                    implies oth_set.contains(x) by {
                    let i = choose|i: int| 0 <= i < ans@.len() && ans@[i] == x;
                }
            }
            vstd::set_lib::lemma_len_subset(ans@.to_set(), oth_set);
            assert(ans@.len() <= other.sorted_view().len());
        }
        self.rewind_and_replay(ans);
        proof {
            assert(final(self).op_set() =~= old_set + oth_set);
            assert(final(self).log == merged_log);
            assert forall|op: Op| final(self).op_set().contains(op)
                implies (#[trigger] op.id).lamport < final(self).next_id().lamport by {
                assert(final(self).wf());
            }
        }
    }

    /// Sort the incoming delta, restore the latest snapshot at or
    /// before its earliest id (or start from the empty forest), merge
    /// the displaced tail back in, and replay.
    #[verifier::rlimit(100)]
    #[verifier::spinoff_prover]
    fn rewind_and_replay(&mut self, ans: Vec<Op>)
        requires
            sorted_strict(old(self).sorted_view()),
            closed_set(old(self).sorted_view().to_set()),
            old(self).applied_end == old(self).sorted_view().len(),
            old(self).covers_to(old(self).sorted_view().len() as int),
            log_wf(old(self).log_view()),
            log_op_set(old(self).log_view()) == old(self).op_set() + ans@.to_set(),
            ans@.len() > 0,
            closed_set(old(self).op_set() + ans@.to_set()),
            forall|i: int| 0 <= i < ans@.len() ==> !old(self).op_set().contains(#[trigger] ans@[i]),
            forall|i: int, j: int| #![trigger ans@[i].id, ans@[j].id]
                0 <= i < j < ans@.len() ==> ans@[i].id != ans@[j].id,
            forall|i: int|
                0 <= i < ans@.len() ==> (#[trigger] ans@[i]).id.lamport < old(self).next_lamport,
            forall|op: Op|
                old(self).op_set().contains(op) ==> (#[trigger] op.id).lamport < old(
                    self,
                ).next_lamport,
            old(self).sorted_view().len() + ans@.len() <= op_capacity(),
        ensures
            final(self).wf(),
            final(self).client == old(self).client,
            final(self).log == old(self).log,
            final(self).next_lamport == old(self).next_lamport,
            final(self).op_set() == old(self).op_set() + ans@.to_set(),
            final(self).sorted_view().len() == old(self).sorted_view().len() + ans@.len(),
    {
        let ghost old_set = old(self).op_set();
        let ghost union = old_set + ans@.to_set();
        let ghost merged_log = self.log;
        let ghost pre_sort = ans@;
        proof {
            assert forall|x: Op| #[trigger] pre_sort.to_set().contains(x)
                implies x.id.lamport < old(self).next_lamport by {
                let i = choose|i: int| 0 <= i < ans@.len() && ans@[i] == x;
            }
        }
        let mut ans = sort_ops(ans);
        let ghost inc_set = ans@.to_set();
        proof {
            broadcast use vstd::seq_lib::group_to_multiset_ensures;

            // sorting preserves the element set and freedom from duplicates
            assert(inc_set =~= pre_sort.to_set()) by {
                assert forall|x: Op| inc_set.contains(x) == pre_sort.to_set().contains(x) by {
                    assert(ans@.contains(x) == (ans@.to_multiset().count(x) > 0));
                    assert(pre_sort.contains(x) == (pre_sort.to_multiset().count(x) > 0));
                }
            }
            assert(pre_sort.no_duplicates()) by {
                assert forall|i: int, j: int|
                    0 <= i < pre_sort.len() && 0 <= j < pre_sort.len() && i != j
                    implies pre_sort[i] != pre_sort[j] by {
                    if i < j {
                        assert(pre_sort[i].id != pre_sort[j].id);
                    } else {
                        assert(pre_sort[j].id != pre_sort[i].id);
                    }
                }
            }
            assert(ans@.no_duplicates()) by {
                pre_sort.lemma_multiset_has_no_duplicates();
                ans@.lemma_multiset_has_no_duplicates_conv();
            }
            // the union's ids are distinct, so the sorted delta is
            // strictly sorted
            assert(log_op_set(self.log_view()) == old_set + inc_set);
            crate::ops::lemma_log_set_distinct(self.log_view());
            assert(crate::ops::ids_distinct(old_set + inc_set));
            assert(old_set.disjoint(inc_set)) by {
                assert forall|x: Op| inc_set.contains(x)
                    implies !old_set.contains(x) by {
                    let i = choose|i: int| 0 <= i < pre_sort.len() && pre_sort[i] == x;
                }
            }
            assert(old_set + inc_set =~= union);
            assert(sorted_strict(ans@)) by {
                assert forall|i: int, j: int| #![trigger ans@[i].id.lt_spec(ans@[j].id)]
                    0 <= i < j < ans@.len()
                    implies ans@[i].id.lt_spec(ans@[j].id) by {
                    assert(ans@[i].id.le_spec(ans@[j].id));
                    if ans@[i].id == ans@[j].id {
                        assert((old_set + inc_set).contains(ans@[i]));
                        assert((old_set + inc_set).contains(ans@[j]));
                        assert(ans@[i] == ans@[j]);
                    }
                }
            }
            // the union is reference-closed
            assert(closed_set(union)) by {
                assert(union =~= old_set + pre_sort.to_set());
            }
            // every known or incoming lamport sits below the counter
            assert forall|x: Op| union.contains(x)
                implies (#[trigger] x.id).lamport < self.next_lamport by {
                if !old_set.contains(x) {
                    assert((old_set + inc_set).contains(x));
                    assert(inc_set.contains(x));
                    assert(pre_sort.to_set().contains(x));
                }
            }
        }
        let start_id = ans[0].id;
        proof {
            assert(forall|i: int|
                0 <= i < ans@.len() ==> start_id.le_spec((#[trigger] ans@[i]).id));
            assert(inc_set.contains(ans@[0]));
        }
        let ghost pre_sort_sorted = ans@;
        let ghost inc_set_len = ans@.len() as int;
        let ghost sv0 = self.sorted_ops@;
        let ghost pre_cache = self.cache;
        let ghost pre_lamport2 = self.next_lamport;
        match self.cache.pop_till_snapshot_lte(&start_id) {
            Some((rid, snapshot)) => {
                let snap_forest = snapshot.duplicate();
                let ghost jr = self.cache.versions().len() - 1;
                proof {
                    assert(rid == sv0[jr].id);
                    assert(snap_forest@ == replay(sv0.take(jr + 1)));
                    // every delta id sits strictly above the restored id
                    assert forall|x: Op| inc_set.contains(x)
                        implies rid.lt_spec(#[trigger] x.id) by {
                        let i = choose|i: int| 0 <= i < ans@.len() && ans@[i] == x;
                        assert(start_id.le_spec(x.id));
                        if rid == x.id {
                            assert(sv0.to_set().contains(sv0[jr]));
                            assert((old_set + inc_set).contains(sv0[jr]));
                            assert((old_set + inc_set).contains(x));
                            assert(x == sv0[jr]);
                        }
                    }
                }
                let ghost cache2 = self.cache;
                let ghost snap_view = snap_forest@;
                let last = find_ge(&self.sorted_ops, &rid);
                proof {
                    assert(last <= jr) by {
                        assert(!sv0[jr].id.lt_spec(rid));
                    }
                    assert(last >= jr) by {
                        if last < jr {
                            assert(sv0[last as int].id.lt_spec(sv0[jr].id));
                        }
                    }
                }
                let ghost ans_sorted = ans@;
                while self.sorted_ops.len() > last + 1
                    invariant
                        last + 1 <= self.sorted_ops@.len() <= sv0.len(),
                        last == jr,
                        self.sorted_ops@ == sv0.take(self.sorted_ops@.len() as int),
                        sorted_strict(sv0),
                        sv0.to_set().subset_of(old_set),
                        crate::ops::ids_distinct(old_set + inc_set),
                        old_set.disjoint(inc_set),
                        ans_sorted.to_set() == inc_set,
                        rid == sv0[jr].id,
                        forall|x: Op| inc_set.contains(x) ==> rid.lt_spec(#[trigger] x.id),
                        ans@.len() == ans_sorted.len() + (sv0.len() - self.sorted_ops@.len()),
                        ans_sorted.is_prefix_of(ans@),
                        ans@.to_set() == ans_sorted.to_set() + sv0.subrange(
                            self.sorted_ops@.len() as int,
                            sv0.len() as int,
                        ).to_set(),
                        forall|i: int, j: int| #![trigger ans@[i].id, ans@[j].id]
                            0 <= i < j < ans@.len() ==> ans@[i].id != ans@[j].id,
                        forall|i: int|
                            0 <= i < ans@.len() ==> rid.lt_spec((#[trigger] ans@[i]).id),
                        forall|i: int|
                            0 <= i < ans@.len() ==> (old_set + inc_set).contains(
                                #[trigger] ans@[i],
                            ),
                        self.cache == cache2,
                        self.log == merged_log,
                        self.forest == old(self).forest,
                        self.client == old(self).client,
                        self.next_lamport == pre_lamport2,
                    decreases self.sorted_ops@.len(),
                {
                    let ghost cur = self.sorted_ops@;
                    let ghost ans_before = ans@;
                    let op = self.sorted_ops.pop().unwrap();
                    ans.push(op);
                    proof {
                        let p = cur.len() - 1;
                        assert(op == sv0[p]);
                        assert(self.sorted_ops@ =~= sv0.take(p));
                        assert(sv0.to_set().contains(sv0[p])) by {
                            assert(sv0[p] == sv0[p]);
                        }
                        assert(ans@ == ans_before.push(op));
                        crate::ops::lemma_push_set(ans_before, op);
                        let tail_old = sv0.subrange(cur.len() as int, sv0.len() as int);
                        let tail_new = sv0.subrange(p, sv0.len() as int);
                        assert(tail_new.to_set() =~= tail_old.to_set().insert(op)) by {
                            assert forall|x: Op| tail_new.to_set().contains(x)
                                implies tail_old.to_set().insert(op).contains(x) by {
                                let i = choose|i: int|
                                    0 <= i < tail_new.len() && tail_new[i] == x;
                                if i > 0 {
                                    assert(tail_old[i - 1] == x);
                                }
                            }
                            assert forall|x: Op| tail_old.to_set().insert(op).contains(x)
                                implies tail_new.to_set().contains(x) by {
                                if x == op {
                                    assert(tail_new[0] == x);
                                } else {
                                    let i = choose|i: int|
                                        0 <= i < tail_old.len() && tail_old[i] == x;
                                    assert(tail_new[i + 1] == x);
                                }
                            }
                        }
                        assert(ans@.to_set() =~= ans_sorted.to_set() + tail_new.to_set()) by {
                            assert(ans@.to_set() == ans_before.to_set().insert(op));
                            assert(ans_before.to_set() == ans_sorted.to_set()
                                + tail_old.to_set());
                        }
                        assert(rid.lt_spec(op.id)) by {
                            assert(jr < p < sv0.len());
                            assert(sv0[jr].id.lt_spec(sv0[p].id));
                        }
                        assert(ans_sorted.is_prefix_of(ans@)) by {
                            assert(ans_sorted =~= ans@.subrange(0, ans_sorted.len() as int));
                        }
                        assert forall|i: int, j: int| #![trigger ans@[i].id, ans@[j].id]
                            0 <= i < j < ans@.len()
                            implies ans@[i].id != ans@[j].id by {
                            if j == ans@.len() - 1 {
                                let x = ans@[i];
                                assert(x == ans_before[i]);
                                if x.id == op.id {
                                    assert(ans_before.to_set().contains(x)) by {
                                        assert(ans_before[i] == x);
                                    }
                                    assert((old_set + inc_set).contains(x)) by {
                                        if inc_set.contains(x) {
                                        } else {
                                            assert(tail_old.to_set().contains(x));
                                            let ix = choose|ix: int|
                                                0 <= ix < tail_old.len() && tail_old[ix] == x;
                                            assert(sv0[cur.len() + ix] == x);
                                            assert(sv0.to_set().contains(x));
                                        }
                                    }
                                    assert((old_set + inc_set).contains(op));
                                    assert(x == op);
                                    if inc_set.contains(x) {
                                        assert(old_set.contains(op));
                                    } else {
                                        assert(tail_old.to_set().contains(x));
                                        let ix = choose|ix: int|
                                            0 <= ix < tail_old.len() && tail_old[ix] == x;
                                        assert(sv0[cur.len() + ix] == x);
                                        assert(sv0[p].id.lt_spec(sv0[cur.len() + ix].id));
                                    }
                                }
                            } else {
                                assert(ans@[i] == ans_before[i] && ans@[j] == ans_before[j]);
                            }
                        }
                    }
                }
                proof {
                    assert(self.sorted_ops@ == sv0.take(jr + 1));
                }
                self.forest = snap_forest;
                self.applied_end = self.sorted_ops.len();
                let ghost drained = ans@;
                let ans2 = sort_ops(ans);
                proof {
                    broadcast use vstd::seq_lib::group_to_multiset_ensures;

                    assert(ans2@.to_set() =~= drained.to_set()) by {
                        assert forall|x: Op|
                            ans2@.to_set().contains(x) == drained.to_set().contains(x) by {
                            assert(ans2@.contains(x) == (ans2@.to_multiset().count(x) > 0));
                            assert(drained.contains(x) == (drained.to_multiset().count(x) > 0));
                        }
                    }
                    assert(drained.no_duplicates()) by {
                        assert forall|i: int, j: int|
                            0 <= i < drained.len() && 0 <= j < drained.len() && i != j
                            implies drained[i] != drained[j] by {
                            if i < j {
                                assert(drained[i].id != drained[j].id);
                            } else {
                                assert(drained[j].id != drained[i].id);
                            }
                        }
                    }
                    assert(ans2@.no_duplicates()) by {
                        drained.lemma_multiset_has_no_duplicates();
                        ans2@.lemma_multiset_has_no_duplicates_conv();
                    }
                    assert(sorted_strict(ans2@)) by {
                        assert forall|i: int, j: int| #![trigger ans2@[i].id.lt_spec(ans2@[j].id)]
                            0 <= i < j < ans2@.len()
                            implies ans2@[i].id.lt_spec(ans2@[j].id) by {
                            assert(ans2@[i].id.le_spec(ans2@[j].id));
                            if ans2@[i].id == ans2@[j].id {
                                assert(drained.to_set().contains(ans2@[i]));
                                assert(drained.to_set().contains(ans2@[j]));
                                assert((old_set + inc_set).contains(ans2@[i]));
                                assert((old_set + inc_set).contains(ans2@[j]));
                            }
                        }
                    }
                    assert forall|x: Op| #[trigger] ans2@.to_set().contains(x)
                        implies rid.lt_spec(x.id) by {
                        let i = choose|i: int| 0 <= i < drained.len() && drained[i] == x;
                    }
                }
                let ghost prefix = self.sorted_ops@;
                let n2 = ans2.len();
                let mut k2: usize = 0;
                proof {
                    assert(prefix + ans2@.take(0) =~= prefix);
                }
                while k2 < n2
                    invariant
                        k2 <= n2,
                        n2 == ans2@.len(),
                        self.sorted_ops@ == prefix + ans2@.take(k2 as int),
                        self.forest@ == snap_view,
                        self.cache == cache2,
                        self.log == merged_log,
                        self.client == old(self).client,
                        self.next_lamport == pre_lamport2,
                        self.applied_end == jr + 1,
                    decreases n2 - k2,
                {
                    self.sorted_ops.push(ans2[k2]);
                    proof {
                        assert(self.sorted_ops@ =~= prefix + ans2@.take(k2 + 1));
                    }
                    k2 += 1;
                }
                proof {
                    assert(ans2@.take(n2 as int) =~= ans2@);
                    assert(self.sorted_ops@ == prefix + ans2@);
                    let sv = self.sorted_view();
                    // the new sorted view holds exactly the union
                    assert(sv.to_set() =~= union) by {
                        crate::ops::lemma_split_set(sv, jr + 1);
                        assert(sv.take(jr + 1) =~= sv0.take(jr + 1));
                        assert(sv.subrange(jr + 1, sv.len() as int) =~= ans2@);
                        crate::ops::lemma_split_set(sv0, jr + 1);
                        assert(sv0.take(jr + 1).to_set() + sv0.subrange(
                            jr + 1,
                            sv0.len() as int,
                        ).to_set() =~= sv0.to_set());
                        assert(ans2@.to_set() == inc_set + sv0.subrange(
                            jr + 1,
                            sv0.len() as int,
                        ).to_set());
                        assert(sv.to_set() =~= sv0.to_set() + inc_set);
                        assert(sv0.to_set() == old_set);
                        assert(old_set + inc_set =~= union);
                    }
                    // and stays strictly sorted across the join point
                    assert(sorted_strict(sv)) by {
                        assert forall|i: int, j: int| #![trigger sv[i].id.lt_spec(sv[j].id)]
                            0 <= i < j < sv.len()
                            implies sv[i].id.lt_spec(sv[j].id) by {
                            if j <= jr {
                                assert(sv[i] == sv0[i] && sv[j] == sv0[j]);
                                assert(sv0[i].id.lt_spec(sv0[j].id));
                            } else if i <= jr && j > jr {
                                assert(sv[j] == ans2@[j - (jr + 1)]);
                                assert(ans2@.to_set().contains(sv[j]));
                                assert(rid.lt_spec(sv[j].id));
                                assert(sv[i] == sv0[i]);
                                if i < jr {
                                    assert(sv0[i].id.lt_spec(sv0[jr].id));
                                }
                            } else {
                                assert(sv[i] == ans2@[i - (jr + 1)] && sv[j] == ans2@[j - (jr
                                    + 1)]);
                                assert(ans2@[i - (jr + 1)].id.lt_spec(ans2@[j - (jr + 1)].id));
                            }
                        }
                    }
                    assert(closed_set(sv.to_set()));
                    assert(log_op_set(self.log_view()) == old_set + inc_set);
                    assert(sv.to_set() == log_op_set(self.log_view()));
                    // capacity
                    assert(sv.len() <= crate::ops::op_capacity()) by {
                        assert(ans2@.len() == ans_sorted.len() + (sv0.len() - (jr + 1)));
                        assert(ans_sorted.len() == pre_sort.len());
                    }
                    assert(self.inv_base());
                    // the restored snapshot covers the kept prefix
                    assert(self.covers_to(self.applied_end as int)) by {
                        assert(self.forest@ == snap_view);
                        assert(snap_view == replay(sv0.take(jr + 1)));
                        assert(sv.take(jr + 1) =~= sv0.take(jr + 1));
                        assert(self.cache.versions() == pre_cache.versions().take(jr + 1));
                        assert(self.cache.slots() == pre_cache.slots().take(jr + 1));
                        assert forall|i: int| 0 <= i < jr + 1
                            implies self.cache.versions()[i] == (#[trigger] sv[i]).id by {
                            assert(pre_cache.versions()[i] == sv0[i].id);
                            assert(sv[i] == sv0[i]);
                        }
                        assert forall|j: int|
                            0 <= j < jr + 1 && (#[trigger] self.cache.slots()[j]) is Some
                            implies (self.cache.slots()[j]->0)@ == replay(sv.take(j + 1)) by {
                            assert(self.cache.slots()[j] == pre_cache.slots()[j]);
                            assert((pre_cache.slots()[j]->0)@ == replay(sv0.take(j + 1)));
                            assert(sv.take(j + 1) =~= sv0.take(j + 1));
                        }
                    }
                }
                self.apply_pending_ops();
                proof {
                    assert(final(self).op_set() =~= old_set + pre_sort.to_set());
                    assert(final(self).sorted_view().len() == old(self).sorted_view().len()
                        + pre_sort.len());
                }
            },
            None => {
                ans.append(&mut self.sorted_ops);
                proof {
                    assert(ans@ == pre_sort_sorted + sv0);
                }
                let ghost combined = ans@;
                let ans2 = sort_ops(ans);
                self.sorted_ops = ans2;
                self.applied_end = 0;
                self.forest = Forest::new();
                proof {
                    broadcast use vstd::seq_lib::group_to_multiset_ensures;

                    let sv = self.sorted_view();
                    assert(sv.to_set() =~= combined.to_set()) by {
                        assert forall|x: Op|
                            sv.to_set().contains(x) == combined.to_set().contains(x) by {
                            assert(sv.contains(x) == (sv.to_multiset().count(x) > 0));
                            assert(combined.contains(x) == (combined.to_multiset().count(x)
                                > 0));
                        }
                    }
                    assert(combined.to_set() =~= inc_set + sv0.to_set()) by {
                        crate::ops::lemma_split_set(combined, inc_set_len as int);
                        assert(combined.take(inc_set_len as int) =~= pre_sort_sorted);
                        assert(combined.subrange(inc_set_len as int, combined.len() as int)
                            =~= sv0);
                    }
                    assert(sv.to_set() =~= union);
                    // freedom from duplicates carries through the sort
                    assert(combined.no_duplicates()) by {
                        assert forall|i: int, j: int|
                            0 <= i < combined.len() && 0 <= j < combined.len() && i != j
                            implies combined[i] != combined[j] by {
                            let x = combined[i];
                            let y = combined[j];
                            if i < inc_set_len && j < inc_set_len {
                                if i < j {
                                    assert(pre_sort_sorted[i].id.lt_spec(pre_sort_sorted[j].id));
                                } else {
                                    assert(pre_sort_sorted[j].id.lt_spec(pre_sort_sorted[i].id));
                                }
                            } else if i >= inc_set_len && j >= inc_set_len {
                                if i < j {
                                    assert(sv0[i - inc_set_len].id.lt_spec(sv0[j
                                        - inc_set_len].id));
                                } else {
                                    assert(sv0[j - inc_set_len].id.lt_spec(sv0[i
                                        - inc_set_len].id));
                                }
                            } else if i < inc_set_len {
                                assert(inc_set.contains(x));
                                assert(sv0.to_set().contains(y)) by {
                                    assert(sv0[j - inc_set_len] == y);
                                }
                                assert(old_set.contains(y));
                            } else {
                                assert(inc_set.contains(y));
                                assert(sv0.to_set().contains(x)) by {
                                    assert(sv0[i - inc_set_len] == x);
                                }
                                assert(old_set.contains(x));
                            }
                        }
                    }
                    assert(sv.no_duplicates()) by {
                        combined.lemma_multiset_has_no_duplicates();
                        sv.lemma_multiset_has_no_duplicates_conv();
                    }
                    assert(sorted_strict(sv)) by {
                        assert forall|i: int, j: int| #![trigger sv[i].id.lt_spec(sv[j].id)]
                            0 <= i < j < sv.len()
                            implies sv[i].id.lt_spec(sv[j].id) by {
                            assert(sv[i].id.le_spec(sv[j].id));
                            if sv[i].id == sv[j].id {
                                assert(sv.to_set().contains(sv[i]));
                                assert(sv.to_set().contains(sv[j]));
                                assert(crate::ops::ids_distinct(union));
                                assert(sv[i] == sv[j]);
                            }
                        }
                    }
                    assert(closed_set(sv.to_set()));
                    assert(sv.to_set() == log_op_set(self.log_view()));
                    assert(sv.len() <= crate::ops::op_capacity()) by {
                        assert(combined.len() == inc_set_len + sv0.len());
                    }
                    assert(self.inv_base());
                    assert(self.covers_to(0)) by {
                        assert(sv.take(0) =~= Seq::<Op>::empty());
                        assert(self.forest@ == crate::forest_spec::empty_forest());
                    }
                }
                self.apply_pending_ops();
                proof {
                    assert(final(self).op_set() =~= old_set + pre_sort.to_set());
                    assert(final(self).sorted_view().len() == old(self).sorted_view().len()
                        + pre_sort.len());
                }
            },
        }
    }

    /// Mark `target` deleted.
    pub fn delete(&mut self, target: ID)
        requires
            old(self).wf(),
            old(self).can_issue(),
            old(self).has_node(target),
        ensures
            final(self).wf(),
            final(self).client_spec() == old(self).client_spec(),
            final(self).next_id() == (ID {
                lamport: (old(self).next_id().lamport + 1) as u32,
                client: old(self).client_spec(),
            }),
            final(self).op_set() == old(self).op_set().insert(
                Op { id: old(self).next_id(), content: OpContent::Delete(target) },
            ),
            final(self).sorted_view() == old(self).sorted_view().push(
                Op { id: old(self).next_id(), content: OpContent::Delete(target) },
            ),
            final(self).forest_view() == apply_flag(old(self).forest_view(), target, true),
            final(self).log_view() == old(self).log_view().insert(
                old(self).client_spec(),
                crate::ops::log_of(old(self).log_view(), old(self).client_spec()).push(
                    Op { id: old(self).next_id(), content: OpContent::Delete(target) },
                ),
            ),
            forall|x: Op|
                old(self).op_set().contains(x) ==> (#[trigger] x.id).lt_spec(old(self).next_id()),
            forall|i2: ID| old(self).has_node(i2) ==> final(self).has_node(i2),
    {
        let _ = self.commit_local_op(OpContent::Delete(target));
    }
}

} // verus!
