//! Operation identifiers and operations of the movable-tree CRDT,
//! together with the ordering and log-shape predicates that the replica
//! invariants are stated over.

use vstd::prelude::*;

verus! {

/// A Lamport-style operation identifier: ordered lexicographically by
/// `(lamport, client)`, globally unique because each replica owns a
/// distinct `client` value and issues strictly increasing `lamport`s.
#[derive(Debug, Clone, Copy, PartialEq, Eq, Structural, Hash, PartialOrd, Ord)]
pub struct ID {
    pub lamport: u32,
    pub client: u64,
}

impl ID {
    /// Strict lexicographic order on `(lamport, client)`.
    pub open spec fn lt_spec(self, other: ID) -> bool {
        self.lamport < other.lamport
            || (self.lamport == other.lamport && self.client < other.client)
    }

    pub open spec fn le_spec(self, other: ID) -> bool {
        self.lt_spec(other) || self == other
    }

    pub fn lt(&self, other: &ID) -> (r: bool)
        ensures
            r == self.lt_spec(*other),
    {
        self.lamport < other.lamport
            || (self.lamport == other.lamport && self.client < other.client)
    }

    pub fn le(&self, other: &ID) -> (r: bool)
        ensures
            r == self.le_spec(*other),
    {
        self.lamport < other.lamport
            || (self.lamport == other.lamport && self.client <= other.client)
    }
}

/// What an operation does: create a node, reparent a node, or mark one
/// deleted.  A `parent` of `None` denotes a root.
#[derive(Debug, Clone, Copy)]
pub enum OpContent {
    New { parent: Option<ID> },
    Move { target: ID, parent: Option<ID> },
    Delete(ID),
}

/// An operation: an identifier plus its content.  The node created by a
/// `New` is named by the operation's own id.
#[derive(Debug, Clone, Copy)]
pub struct Op {
    pub id: ID,
    pub content: OpContent,
}

/// The ids strictly increase along the sequence.
pub open spec fn sorted_strict(s: Seq<Op>) -> bool {
    forall|i: int, j: int| #![trigger s[i].id.lt_spec(s[j].id)]
        0 <= i < j < s.len() ==> s[i].id.lt_spec(s[j].id)
}

/// Non-strict sortedness, the form the sorting routine establishes.
pub open spec fn sorted_le(s: Seq<Op>) -> bool {
    forall|i: int, j: int| #![trigger s[i].id.le_spec(s[j].id)]
        0 <= i < j < s.len() ==> s[i].id.le_spec(s[j].id)
}

/// No two distinct operations of the set share an id.
pub open spec fn ids_distinct(s: Set<Op>) -> bool {
    forall|a: Op, b: Op|
        s.contains(a) && s.contains(b) && a.id == b.id ==> a == b
}

/// The set holds a `New` with id `i`, and `i` is below `bound`.
pub open spec fn has_new_below(s: Set<Op>, i: ID, bound: ID) -> bool {
    exists|n: Op|
        s.contains(n) && (n.content matches OpContent::New { .. }) && n.id == i
            && #[trigger] n.id.lt_spec(bound)
}

/// Every id an operation refers to was created by a `New` of the same
/// set with a strictly smaller id.
pub open spec fn closed_set(s: Set<Op>) -> bool {
    forall|op: Op| #[trigger]
        s.contains(op) ==> match op.content {
            OpContent::New { parent } => match parent {
                Some(p) => has_new_below(s, p, op.id),
                None => true,
            },
            OpContent::Move { target, parent } => has_new_below(s, target, op.id)
                && match parent {
                    Some(p) => has_new_below(s, p, op.id),
                    None => true,
                },
            OpContent::Delete(target) => has_new_below(s, target, op.id),
        }
}

/// A single client's log: every operation carries that client's id and
/// the lamports strictly increase along the log.
pub open spec fn client_ops_ok(s: Seq<Op>, c: u64) -> bool {
    &&& forall|i: int| 0 <= i < s.len() ==> (#[trigger] s[i]).id.client == c
    &&& forall|i: int, j: int| #![trigger s[i].id.lamport, s[j].id.lamport]
        0 <= i < j < s.len() ==> s[i].id.lamport < s[j].id.lamport
}

/// A per-client operation log, as a map from client id to that client's
/// operations: each entry is a well-shaped, non-empty client log.
pub open spec fn log_wf(l: Map<u64, Seq<Op>>) -> bool {
    forall|c: u64| #[trigger]
        l.dom().contains(c) ==> client_ops_ok(l[c], c) && l[c].len() > 0
}

/// All operations a log holds.  Under `log_wf` an operation can only
/// sit in its own client's entry.
pub open spec fn log_op_set(l: Map<u64, Seq<Op>>) -> Set<Op> {
    Set::new(|op: Op| l.dom().contains(op.id.client) && l[op.id.client].contains(op))
}

/// The client's entry, reading a missing entry as empty.
pub open spec fn log_of(l: Map<u64, Seq<Op>>, c: u64) -> Seq<Op> {
    if l.dom().contains(c) {
        l[c]
    } else {
        Seq::empty()
    }
}

/// Two logs agree on their common knowledge: for every client, one
/// entry is a prefix of the other.  This holds between any two replicas
/// of one system, because a client's log grows append-only and every
/// replica copies it verbatim.
pub open spec fn logs_compatible(a: Map<u64, Seq<Op>>, b: Map<u64, Seq<Op>>) -> bool {
    forall|c: u64| #![trigger a.dom().contains(c), b.dom().contains(c)]
        a.dom().contains(c) && b.dom().contains(c) ==> (a[c].is_prefix_of(b[c])
            || b[c].is_prefix_of(a[c]))
}

/// In a well-shaped log no two distinct operations share an id.
pub proof fn lemma_log_set_distinct(l: Map<u64, Seq<Op>>)
    requires
        log_wf(l),
    ensures
        ids_distinct(log_op_set(l)),
{
    assert forall|a: Op, b: Op|
        log_op_set(l).contains(a) && log_op_set(l).contains(b) && a.id == b.id
        implies a == b by {
        let c = a.id.client;
        let ia = choose|i: int| 0 <= i < l[c].len() && l[c][i] == a;
        let ib = choose|i: int| 0 <= i < l[c].len() && l[c][i] == b;
        if ia != ib {
            if ia < ib {
                assert(l[c][ia].id.lamport < l[c][ib].id.lamport);
            } else {
                assert(l[c][ib].id.lamport < l[c][ia].id.lamport);
            }
        }
    }
}

/// Reference closure survives union: each witness stays in the union.
pub proof fn lemma_closed_union(a: Set<Op>, b: Set<Op>)
    requires
        closed_set(a),
        closed_set(b),
    ensures
        closed_set(a + b),
{
    assert forall|i: ID, bound: ID|
        has_new_below(a, i, bound) || has_new_below(b, i, bound)
        implies #[trigger] has_new_below(a + b, i, bound) by {
        if has_new_below(a, i, bound) {
            let n = choose|n: Op|
                a.contains(n) && (n.content matches OpContent::New { .. }) && n.id == i
                    && #[trigger] n.id.lt_spec(bound);
            assert((a + b).contains(n));
        } else {
            let n = choose|n: Op|
                b.contains(n) && (n.content matches OpContent::New { .. }) && n.id == i
                    && #[trigger] n.id.lt_spec(bound);
            assert((a + b).contains(n));
        }
    }
}

/// The log of a replica that has seen nothing.
pub open spec fn empty_log() -> Map<u64, Seq<Op>> {
    Map::empty()
}

/// The prefix order on sequences is transitive.
pub proof fn lemma_prefix_trans(a: Seq<Op>, b: Seq<Op>, c: Seq<Op>)
    requires
        a.is_prefix_of(b),
        b.is_prefix_of(c),
    ensures
        a.is_prefix_of(c),
{
    assert(a =~= c.subrange(0, a.len() as int)) by {
        assert forall|i: int| 0 <= i < a.len() implies a[i] == c[i] by {
            assert(a[i] == b.subrange(0, a.len() as int)[i]);
            assert(b[i] == c.subrange(0, b.len() as int)[i]);
        }
    }
}

/// Replacing one client's entry by itself plus a suffix adds exactly
/// the suffix's operations to the log's set.
pub proof fn lemma_log_append(l: Map<u64, Seq<Op>>, c: u64, suffix: Seq<Op>)
    requires
        forall|i: int| 0 <= i < suffix.len() ==> (#[trigger] suffix[i]).id.client == c,
    ensures
        log_op_set(l.insert(c, log_of(l, c) + suffix)) =~= log_op_set(l) + suffix.to_set(),
{
    let l2 = l.insert(c, log_of(l, c) + suffix);
    let e0 = log_of(l, c);
    assert forall|x: Op| log_op_set(l2).contains(x)
        implies (log_op_set(l) + suffix.to_set()).contains(x) by {
        let c2 = x.id.client;
        if c2 == c {
            let ix = choose|ix: int| 0 <= ix < l2[c].len() && l2[c][ix] == x;
            if ix < e0.len() {
                assert(e0[ix] == x);
                assert(l.dom().contains(c) && l[c].contains(x));
            } else {
                assert(suffix[ix - e0.len()] == x);
            }
        }
    }
    assert forall|x: Op| (log_op_set(l) + suffix.to_set()).contains(x)
        implies log_op_set(l2).contains(x) by {
        let c2 = x.id.client;
        if suffix.to_set().contains(x) {
            let ix = choose|ix: int| 0 <= ix < suffix.len() && suffix[ix] == x;
            assert(c2 == c);
            assert(l2[c][e0.len() + ix] == x);
        } else {
            let ix = choose|ix: int| 0 <= ix < l[c2].len() && l[c2][ix] == x;
            if c2 == c {
                assert(l.dom().contains(c));
                assert(l2[c][ix] == x);
            } else {
                assert(l2[c2] == l[c2]);
            }
        }
    }
}

/// Pushing one element inserts it into the element set.
pub proof fn lemma_push_set(s: Seq<Op>, x: Op)
    ensures
        s.push(x).to_set() =~= s.to_set().insert(x),
{
    assert forall|y: Op| s.push(x).to_set().contains(y)
        implies s.to_set().insert(x).contains(y) by {
        let i = choose|i: int| 0 <= i < s.push(x).len() && s.push(x)[i] == y;
        if i < s.len() {
            assert(s[i] == y);
        }
    }
    assert forall|y: Op| s.to_set().insert(x).contains(y)
        implies s.push(x).to_set().contains(y) by {
        if y == x {
            assert(s.push(x)[s.len() as int] == y);
        } else {
            let i = choose|i: int| 0 <= i < s.len() && s[i] == y;
            assert(s.push(x)[i] == y);
        }
    }
}

/// Pushing one client id inserts it into the element set.
pub proof fn lemma_push_u64_set(s: Seq<u64>, x: u64)
    ensures
        s.push(x).to_set() =~= s.to_set().insert(x),
{
    assert forall|y: u64| s.push(x).to_set().contains(y)
        implies s.to_set().insert(x).contains(y) by {
        let i = choose|i: int| 0 <= i < s.push(x).len() && s.push(x)[i] == y;
        if i < s.len() {
            assert(s[i] == y);
        }
    }
    assert forall|y: u64| s.to_set().insert(x).contains(y)
        implies s.push(x).to_set().contains(y) by {
        if y == x {
            assert(s.push(x)[s.len() as int] == y);
        } else {
            let i = choose|i: int| 0 <= i < s.len() && s[i] == y;
            assert(s.push(x)[i] == y);
        }
    }
}

/// A sequence's element set splits at any cut.
pub proof fn lemma_split_set(s: Seq<Op>, k: int)
    requires
        0 <= k <= s.len(),
    ensures
        s.to_set() =~= s.take(k).to_set() + s.subrange(k, s.len() as int).to_set(),
{
    let a = s.take(k);
    let b = s.subrange(k, s.len() as int);
    assert forall|x: Op| s.to_set().contains(x)
        implies (a.to_set() + b.to_set()).contains(x) by {
        let i = choose|i: int| 0 <= i < s.len() && s[i] == x;
        if i < k {
            assert(a[i] == x);
        } else {
            assert(b[i - k] == x);
        }
    }
    assert forall|x: Op| (a.to_set() + b.to_set()).contains(x)
        implies s.to_set().contains(x) by {
        if a.to_set().contains(x) {
            let i = choose|i: int| 0 <= i < a.len() && a[i] == x;
            assert(s[i] == x);
        } else {
            let i = choose|i: int| 0 <= i < b.len() && b[i] == x;
            assert(s[i + k] == x);
        }
    }
}

/// When every entry of `b` is no longer than `a`'s, a compatible log
/// `b` holds no operation `a` lacks: the incoming delta of a merge is
/// empty exactly then, and the merge is a no-op.
pub proof fn lemma_shorter_logs_are_known(a: Map<u64, Seq<Op>>, b: Map<u64, Seq<Op>>)
    requires
        log_wf(a),
        log_wf(b),
        logs_compatible(a, b),
        forall|c: u64| #[trigger] log_of(b, c).len() <= log_of(a, c).len(),
    ensures
        log_op_set(b).subset_of(log_op_set(a)),
{
    assert forall|x: Op| log_op_set(b).contains(x)
        implies log_op_set(a).contains(x) by {
        let c = x.id.client;
        let ix = choose|ix: int| 0 <= ix < b[c].len() && b[c][ix] == x;
        assert(log_of(b, c).len() <= log_of(a, c).len());
        assert(a.dom().contains(c)) by {
            if !a.dom().contains(c) {
                assert(log_of(a, c).len() == 0);
            }
        }
        assert(b[c].is_prefix_of(a[c]) || a[c].is_prefix_of(b[c]));
        assert(b[c].is_prefix_of(a[c])) by {
            if a[c].is_prefix_of(b[c]) {
                assert(a[c].len() == b[c].len());
                assert(b[c] =~= a[c]);
            }
        }
        assert(a[c][ix] == b[c].subrange(0, b[c].len() as int)[ix]);
        assert(a[c].contains(x)) by {
            assert(a[c][ix] == x);
        }
    }
}

/// Sorting the concatenation of a fresh delta and an undone suffix:
/// the result holds exactly their operations, has no duplicates, and
/// is strictly sorted.
pub proof fn lemma_merge_tail_shape(
    inc_seq: Seq<Op>,
    sv0: Seq<Op>,
    trim: int,
    ans2: Seq<Op>,
    old_set: Set<Op>,
)
    requires
        sorted_strict(inc_seq),
        sorted_strict(sv0),
        0 <= trim <= sv0.len(),
        old_set == sv0.to_set(),
        old_set.disjoint(inc_seq.to_set()),
        ids_distinct(old_set + inc_seq.to_set()),
        ans2.to_multiset() == (inc_seq + sv0.subrange(trim, sv0.len() as int)).to_multiset(),
        sorted_le(ans2),
    ensures
        ans2.to_set() =~= inc_seq.to_set() + sv0.subrange(trim, sv0.len() as int).to_set(),
        ans2.no_duplicates(),
        sorted_strict(ans2),
{
    broadcast use vstd::seq_lib::group_to_multiset_ensures;

    let suffix = sv0.subrange(trim, sv0.len() as int);
    let combined = inc_seq + suffix;
    let cut = inc_seq.len() as int;
    assert(ans2.to_set() =~= combined.to_set()) by {
        assert forall|x: Op| ans2.to_set().contains(x) == combined.to_set().contains(x) by {
            assert(ans2.contains(x) == (ans2.to_multiset().count(x) > 0));
            assert(combined.contains(x) == (combined.to_multiset().count(x) > 0));
        }
    }
    assert(combined.to_set() =~= inc_seq.to_set() + suffix.to_set()) by {
        lemma_split_set(combined, cut);
        assert(combined.take(cut) =~= inc_seq);
        assert(combined.subrange(cut, combined.len() as int) =~= suffix);
    }
    assert(suffix.to_set().subset_of(old_set)) by {
        assert forall|x: Op| suffix.to_set().contains(x)
            implies old_set.contains(x) by {
            let i = choose|i: int| 0 <= i < suffix.len() && suffix[i] == x;
            assert(sv0[trim + i] == x);
            assert(sv0.to_set().contains(x));
        }
    }
    assert(combined.no_duplicates()) by {
        assert forall|i: int, j: int|
            0 <= i < combined.len() && 0 <= j < combined.len() && i != j
            implies combined[i] != combined[j] by {
            let x = combined[i];
            let y = combined[j];
            if i < cut && j < cut {
                if i < j {
                    assert(inc_seq[i].id.lt_spec(inc_seq[j].id));
                } else {
                    assert(inc_seq[j].id.lt_spec(inc_seq[i].id));
                }
            } else if i >= cut && j >= cut {
                if i < j {
                    assert(sv0[trim + (i - cut)].id.lt_spec(sv0[trim + (j - cut)].id));
                } else {
                    assert(sv0[trim + (j - cut)].id.lt_spec(sv0[trim + (i - cut)].id));
                }
            } else if i < cut {
                assert(inc_seq.to_set().contains(x)) by {
                    assert(inc_seq[i] == x);
                }
                assert(suffix.to_set().contains(y)) by {
                    assert(suffix[j - cut] == y);
                }
                assert(old_set.contains(y));
            } else {
                assert(inc_seq.to_set().contains(y)) by {
                    assert(inc_seq[j] == y);
                }
                assert(suffix.to_set().contains(x)) by {
                    assert(suffix[i - cut] == x);
                }
                assert(old_set.contains(x));
            }
        }
    }
    assert(ans2.no_duplicates()) by {
        combined.lemma_multiset_has_no_duplicates();
        ans2.lemma_multiset_has_no_duplicates_conv();
    }
    assert(sorted_strict(ans2)) by {
        assert forall|i: int, j: int| #![trigger ans2[i].id.lt_spec(ans2[j].id)]
            0 <= i < j < ans2.len()
            implies ans2[i].id.lt_spec(ans2[j].id) by {
            assert(ans2[i].id.le_spec(ans2[j].id));
            if ans2[i].id == ans2[j].id {
                assert(ans2.to_set().contains(ans2[i]));
                assert(ans2.to_set().contains(ans2[j]));
                assert((old_set + inc_seq.to_set()).contains(ans2[i]));
                assert((old_set + inc_seq.to_set()).contains(ans2[j]));
                assert(ans2[i] == ans2[j]);
            }
        }
    }
}

/// How many operations a replica can hold: far below the address-space
/// limit, so snapshot-cache arithmetic never overflows.
pub open spec fn op_capacity() -> int {
    usize::MAX as int / 8
}

/// Reference closure survives inserting an operation whose references
/// are created below it by the existing set.
pub proof fn lemma_closed_insert(s: Set<Op>, op: Op)
    requires
        closed_set(s),
        match op.content {
            OpContent::New { parent } => match parent {
                Some(p) => has_new_below(s, p, op.id),
                None => true,
            },
            OpContent::Move { target, parent } => has_new_below(s, target, op.id)
                && match parent {
                    Some(p) => has_new_below(s, p, op.id),
                    None => true,
                },
            OpContent::Delete(target) => has_new_below(s, target, op.id),
        },
    ensures
        closed_set(s.insert(op)),
{
    assert forall|i: ID, bound: ID|
        has_new_below(s, i, bound) implies #[trigger] has_new_below(s.insert(op), i, bound) by {
        let n = choose|n: Op|
            s.contains(n) && (n.content matches OpContent::New { .. }) && n.id == i
                && #[trigger] n.id.lt_spec(bound);
        assert(s.insert(op).contains(n));
    }
}

/// A strictly sorted sequence has no duplicate entries.
pub proof fn lemma_sorted_strict_no_duplicates(s: Seq<Op>)
    requires
        sorted_strict(s),
    ensures
        s.no_duplicates(),
{
    assert forall|i: int, j: int| 0 <= i < s.len() && 0 <= j < s.len() && i != j
        implies s[i] != s[j] by {
        if i < j {
            assert(s[i].id.lt_spec(s[j].id));
        } else {
            assert(s[j].id.lt_spec(s[i].id));
        }
    }
}

/// Dropping the first entry of a strictly sorted sequence removes
/// exactly that entry from the element set.
proof fn lemma_tail_to_set(s: Seq<Op>)
    requires
        sorted_strict(s),
        s.len() > 0,
    ensures
        s.drop_first().to_set() =~= s.to_set().remove(s[0]),
{
    let t = s.drop_first();
    assert forall|op: Op| t.to_set().contains(op)
        implies s.to_set().remove(s[0]).contains(op) by {
        let i = choose|i: int| 0 <= i < t.len() && t[i] == op;
        assert(s[i + 1] == op);
        assert(s[0].id.lt_spec(s[i + 1].id));
    }
    assert forall|op: Op| s.to_set().remove(s[0]).contains(op)
        implies t.to_set().contains(op) by {
        let i = choose|i: int| 0 <= i < s.len() && s[i] == op;
        if i == 0 {
            assert(op == s[0]);
        } else {
            assert(t[i - 1] == op);
        }
    }
}

/// Two strictly sorted sequences with the same element set are equal:
/// a set of operations has exactly one id-sorted arrangement.
pub proof fn lemma_sorted_unique_by_set(x: Seq<Op>, y: Seq<Op>)
    requires
        sorted_strict(x),
        sorted_strict(y),
        x.to_set() == y.to_set(),
    ensures
        x =~= y,
    decreases x.len(),
{
    if x.len() == 0 {
        if y.len() > 0 {
            assert(y.to_set().contains(y[0]));
            assert(x.to_set().contains(y[0]));
        }
    } else if y.len() == 0 {
        assert(x.to_set().contains(x[0]));
        assert(y.to_set().contains(x[0]));
    } else {
        assert(x.to_set().contains(x[0]));
        assert(y.to_set().contains(x[0]));
        let j = choose|j: int| 0 <= j < y.len() && y[j] == x[0];
        assert(y.to_set().contains(y[0]));
        assert(x.to_set().contains(y[0]));
        let i = choose|i: int| 0 <= i < x.len() && x[i] == y[0];
        if j > 0 {
            assert(y[0].id.lt_spec(y[j].id));
            if i > 0 {
                assert(x[0].id.lt_spec(x[i].id));
            }
        }
        assert(x[0] == y[0]);
        lemma_tail_to_set(x);
        lemma_tail_to_set(y);
        lemma_sorted_unique_by_set(x.drop_first(), y.drop_first());
        assert(x =~= seq![x[0]] + x.drop_first());
        assert(y =~= seq![y[0]] + y.drop_first());
    }
}

/// Sort operations by id, smallest first.  The result is a permutation
/// of the input (stated through the multiset of entries).
pub fn sort_ops(v: Vec<Op>) -> (r: Vec<Op>)
    ensures
        sorted_le(r@),
        r@.to_multiset() == v@.to_multiset(),
        r@.len() == v@.len(),
{
    broadcast use vstd::seq_lib::group_to_multiset_ensures;

    let mut out: Vec<Op> = Vec::new();
    let n = v.len();
    assert(v@.take(0) =~= Seq::<Op>::empty());
    assert(out@.to_multiset() =~= v@.take(0).to_multiset());
    for idx in 0..n
        invariant
            n == v@.len(),
            sorted_le(out@),
            out@.to_multiset() == v@.take(idx as int).to_multiset(),
            out@.len() == idx,
    {
        let x = v[idx];
        let mut k: usize = 0;
        while k < out.len() && !x.id.lt(&out[k].id)
            invariant
                k <= out@.len(),
                forall|j: int| 0 <= j < k ==> (#[trigger] out@[j].id).le_spec(x.id),
            decreases out@.len() - k,
        {
            k += 1;
        }
        let ghost old_out = out@;
        out.insert(k, x);
        proof {
            old_out.insert_ensures(k as int, x);
            assert(out@ == old_out.insert(k as int, x));
            vstd::seq_lib::to_multiset_insert(old_out, k as int, x);
            assert(out@.to_multiset() == old_out.to_multiset().insert(x));
            assert(v@.take(idx + 1) =~= v@.take(idx as int).push(v@[idx as int]));
            vstd::seq_lib::to_multiset_build(v@.take(idx as int), x);
            assert(v@.take(idx + 1).to_multiset() == v@.take(
                idx as int,
            ).to_multiset().insert(x));
            assert forall|i: int, j: int| #![trigger out@[i].id.le_spec(out@[j].id)]
                0 <= i < j < out@.len()
                implies out@[i].id.le_spec(out@[j].id) by {
                if j < k {
                    assert(out@[i] == old_out[i] && out@[j] == old_out[j]);
                    assert(old_out[i].id.le_spec(old_out[j].id));
                } else if i < k && j == k {
                    assert(out@[i] == old_out[i] && out@[j] == x);
                } else if i < k && j > k {
                    assert(out@[i] == old_out[i] && out@[j] == old_out[j - 1]);
                    assert(old_out[i].id.le_spec(x.id));
                    if j - 1 > i {
                        assert(old_out[i].id.le_spec(old_out[j - 1].id));
                    }
                } else if i == k {
                    assert(out@[i] == x && out@[j] == old_out[j - 1]);
                    assert(x.id.lt_spec(old_out[k as int].id));
                    if j - 1 > k {
                        assert(old_out[k as int].id.le_spec(old_out[j - 1].id));
                    }
                } else {
                    assert(out@[i] == old_out[i - 1] && out@[j] == old_out[j - 1]);
                    assert(old_out[i - 1].id.le_spec(old_out[j - 1].id));
                }
            }
        }
    }
    assert(v@.take(n as int) =~= v@);
    out
}

/// The first position whose id is at or above `id` in a strictly sorted
/// sequence, found by binary search.
pub fn find_ge(ops: &Vec<Op>, id: &ID) -> (i: usize)
    requires
        sorted_strict(ops@),
    ensures
        i <= ops@.len(),
        forall|j: int| 0 <= j < i ==> (#[trigger] ops@[j].id).lt_spec(*id),
        forall|j: int| i <= j < ops@.len() ==> !(#[trigger] ops@[j].id).lt_spec(*id),
{
    let mut lo: usize = 0;
    let mut hi: usize = ops.len();
    while lo < hi
        invariant
            lo <= hi <= ops@.len(),
            sorted_strict(ops@),
            forall|j: int| 0 <= j < lo ==> (#[trigger] ops@[j].id).lt_spec(*id),
            forall|j: int| hi <= j < ops@.len() ==> !(#[trigger] ops@[j].id).lt_spec(*id),
        decreases hi - lo,
    {
        let mid = lo + (hi - lo) / 2;
        if ops[mid].id.lt(id) {
            assert forall|j: int| 0 <= j < mid + 1
                implies (#[trigger] ops@[j].id).lt_spec(*id) by {
                if j < mid {
                    assert(ops@[j].id.lt_spec(ops@[mid as int].id));
                }
            }
            lo = mid + 1;
        } else {
            assert forall|j: int| mid <= j < ops@.len()
                implies !(#[trigger] ops@[j].id).lt_spec(*id) by {
                if j > mid {
                    assert(ops@[mid as int].id.lt_spec(ops@[j].id));
                }
            }
            hi = mid;
        }
    }
    lo
}

/// The same operations, newest first.
pub fn reverse_ops(v: &Vec<Op>) -> (r: Vec<Op>)
    ensures
        r@.len() == v@.len(),
        forall|u: int| 0 <= u < v@.len() ==> #[trigger] r@[u] == v@[v@.len() - 1 - u],
{
    let mut out: Vec<Op> = Vec::new();
    let n = v.len();
    for t in 0..n
        invariant
            n == v@.len(),
            out@.len() == t,
            forall|u: int| 0 <= u < t ==> #[trigger] out@[u] == v@[n - 1 - u],
    {
        out.push(v[n - 1 - t]);
    }
    out
}

/// Copy a vector of operations entry by entry.
pub fn copy_ops(v: &Vec<Op>) -> (r: Vec<Op>)
    ensures
        r@ == v@,
{
    let mut out: Vec<Op> = Vec::new();
    let n = v.len();
    for idx in 0..n
        invariant
            n == v@.len(),
            out@ =~= v@.take(idx as int),
    {
        out.push(v[idx]);
        assert(out@ =~= v@.take(idx + 1));
    }
    assert(v@.take(n as int) =~= v@);
    out
}

} // verus!
