//! The mutable forest: a plain hash map from node id to node, hashed
//! with fxhash.  Used by the undo-rewind replica, which never snapshots
//! and instead reverse-applies moves, so it needs `undo_delete` as well.

use vstd::prelude::*;

use crate::forest_spec::apply_flag;
use crate::forest_spec::apply_mov;
use crate::forest_spec::forest_wf;
use crate::forest_spec::is_ancestor;
use crate::forest_spec::anc_within;
use crate::forest_spec::mov_allowed;
use crate::forest_spec::reaches_root;
use crate::forest_spec::lemma_ancestor_unfold;
use crate::forest_spec::lemma_apply_flag_wf;
use crate::forest_spec::lemma_apply_mov_wf;
use crate::forest_spec::TreeNode;
use crate::ops::ID;

verus! {

#[verifier::external_type_specification]
#[verifier::external_body]
pub struct ExFxHasher(fxhash::FxHasher);

#[verifier::external_type_specification]
#[verifier::external_body]
#[verifier::reject_recursive_types(H)]
pub struct ExBuildHasherDefault<H>(core::hash::BuildHasherDefault<H>);

/// Relies on std HashMap::get with the fxhash hasher: returns the value
/// stored at the key, or nothing when the key is absent.  (The id key
/// type and hasher are outside vstd's hash-key model, so the map
/// methods are trusted here instead.)
#[verifier::external_body]
fn fx_get(
    m: &std::collections::HashMap<ID, TreeNode, fxhash::FxBuildHasher>,
    id: &ID,
) -> (r: Option<TreeNode>)
    ensures
        r == if m@.dom().contains(*id) {
            Some(m@[*id])
        } else {
            None::<TreeNode>
        },
{
    m.get(id).copied()
}

/// Relies on std HashMap::insert with the fxhash hasher: maps the key
/// to the value, leaving every other key unchanged.
#[verifier::external_body]
fn fx_insert(
    m: &mut std::collections::HashMap<ID, TreeNode, fxhash::FxBuildHasher>,
    id: ID,
    node: TreeNode,
)
    ensures
        (*final(m))@ == (*old(m))@.insert(id, node),
{
    m.insert(id, node);
}

/// Relies on std HashMap::default: the new map is empty.
#[verifier::external_body]
fn fx_new() -> (r: std::collections::HashMap<ID, TreeNode, fxhash::FxBuildHasher>)
    ensures
        r@ == crate::forest_spec::empty_forest(),
{
    fxhash::FxHashMap::default()
}

/// Relies on std HashMap's PartialEq: maps compare equal exactly when
/// they hold the same key-value pairs.
#[verifier::external_body]
fn fx_eq(
    a: &std::collections::HashMap<ID, TreeNode, fxhash::FxBuildHasher>,
    b: &std::collections::HashMap<ID, TreeNode, fxhash::FxBuildHasher>,
) -> (r: bool)
    ensures
        r == (a@ =~= b@),
{
    a == b
}

/// The forest's error: the one semantic failure is a cyclic move.
#[derive(Debug, Clone)]
pub enum Error {
    CyclicMoveErr,
}

/// A mutable forest of nodes keyed by id.
pub struct Forest {
    map: std::collections::HashMap<ID, TreeNode, fxhash::FxBuildHasher>,
}

impl View for Forest {
    type V = Map<ID, TreeNode>;

    closed spec fn view(&self) -> Map<ID, TreeNode> {
        self.map@
    }
}

impl PartialEq for Forest {
    /// Structural equality over the whole map.
    fn eq(&self, other: &Forest) -> (r: bool) {
        fx_eq(&self.map, &other.map)
    }
}

impl Eq for Forest {

}

impl vstd::std_specs::cmp::PartialEqSpecImpl for Forest {
    open spec fn obeys_eq_spec() -> bool {
        true
    }

    open spec fn eq_spec(&self, other: &Forest) -> bool {
        self@ == other@
    }
}

impl Default for Forest {
    /// An empty forest.
    fn default() -> (r: Forest)
        ensures
            r@ == crate::forest_spec::empty_forest(),
    {
        Forest::new()
    }
}

impl Forest {
    /// An empty forest.
    pub fn new() -> (r: Forest)
        ensures
            r@ == crate::forest_spec::empty_forest(),
    {
        Forest { map: fx_new() }
    }

    /// The node stored under `id`, if any.
    pub fn get(&self, id: &ID) -> (r: Option<TreeNode>)
        ensures
            r == if self@.dom().contains(*id) {
                Some(self@[*id])
            } else {
                None::<TreeNode>
            },
    {
        fx_get(&self.map, id)
    }

    /// Whether `maybe_ancestor` is `node_id` itself or one of its
    /// transitive ancestors, by walking the parent chain.
    fn is_ancestor_of(&self, maybe_ancestor: ID, node_id: ID) -> (r: bool)
        requires
            forest_wf(self@),
            self@.dom().contains(node_id),
        ensures
            r == is_ancestor(self@, maybe_ancestor, node_id),
    {
        let ghost m = self@;
        if maybe_ancestor == node_id {
            proof {
                assert(anc_within(m, maybe_ancestor, node_id, 0));
            }
            return true;
        }
        let mut cur = node_id;
        let ghost mut fuel: nat = choose|n: nat| reaches_root(m, cur, n);
        loop
            invariant
                m == self@,
                forest_wf(m),
                m.dom().contains(cur),
                reaches_root(m, cur, fuel),
                maybe_ancestor != cur,
                is_ancestor(m, maybe_ancestor, node_id) == is_ancestor(m, maybe_ancestor, cur),
            decreases fuel,
        {
            let node = self.get(&cur);
            let parent = match node {
                Some(n) => n.parent,
                None => None,
            };
            match parent {
                Some(p) => {
                    if p == maybe_ancestor {
                        proof {
                            assert(anc_within(m, maybe_ancestor, p, 0));
                            assert(anc_within(m, maybe_ancestor, cur, 1));
                        }
                        return true;
                    }
                    proof {
                        lemma_ancestor_unfold(m, maybe_ancestor, cur);
                        assert(fuel > 0 && reaches_root(m, p, (fuel - 1) as nat));
                        fuel = (fuel - 1) as nat;
                    }
                    cur = p;
                },
                None => {
                    proof {
                        lemma_ancestor_unfold(m, maybe_ancestor, cur);
                    }
                    return false;
                },
            }
        }
    }

    /// Move `node_id` under `parent_id`, creating the node when it is
    /// not yet in the map and keeping its deletion flag when it is.
    /// Returns the cyclic-move error, with the forest unchanged, when
    /// the node is an ancestor of the requested parent.  The parent
    /// must already exist.
    pub fn mov(&mut self, node_id: ID, parent_id: Option<ID>) -> (r: Result<(), Error>)
        requires
            forest_wf(old(self)@),
            parent_id matches Some(p) ==> old(self)@.dom().contains(p),
        ensures
            final(self)@ == apply_mov(old(self)@, node_id, parent_id),
            r is Ok <==> mov_allowed(old(self)@, node_id, parent_id),
            forest_wf(final(self)@),
    {
        proof {
            lemma_apply_mov_wf(old(self)@, node_id, parent_id);
        }
        let existing = self.get(&node_id);
        let (contained, deleted) = match existing {
            Some(n) => (true, n.deleted),
            None => (false, false),
        };
        match parent_id {
            None => {
                fx_insert(&mut self.map, node_id, TreeNode { parent: None, deleted });
                Ok(())
            },
            Some(parent) => {
                if contained && self.is_ancestor_of(node_id, parent) {
                    return Err(Error::CyclicMoveErr);
                }
                fx_insert(&mut self.map, node_id, TreeNode { parent: Some(parent), deleted });
                Ok(())
            },
        }
    }

    /// Mark an existing node deleted.  The node stays addressable.
    pub fn delete(&mut self, node_id: ID)
        requires
            forest_wf(old(self)@),
            old(self)@.dom().contains(node_id),
        ensures
            final(self)@ == apply_flag(old(self)@, node_id, true),
            forest_wf(final(self)@),
    {
        proof {
            lemma_apply_flag_wf(old(self)@, node_id, true);
        }
        let node = self.get(&node_id);
        let parent = match node {
            Some(n) => n.parent,
            None => None,
        };
        fx_insert(&mut self.map, node_id, TreeNode { parent, deleted: true });
    }

    /// Clear the deletion flag of an existing node: the reverse of
    /// `delete`, used when rewinding.
    pub fn undo_delete(&mut self, node_id: ID)
        requires
            forest_wf(old(self)@),
            old(self)@.dom().contains(node_id),
        ensures
            final(self)@ == apply_flag(old(self)@, node_id, false),
            forest_wf(final(self)@),
    {
        proof {
            lemma_apply_flag_wf(old(self)@, node_id, false);
        }
        let node = self.get(&node_id);
        let parent = match node {
            Some(n) => n.parent,
            None => None,
        };
        fx_insert(&mut self.map, node_id, TreeNode { parent, deleted: false });
    }
}

} // verus!
