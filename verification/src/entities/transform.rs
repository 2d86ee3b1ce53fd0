//! The transform hierarchy: one record per entity, and the manager that keeps
//! local and world positions in step across the tree.

use crate::app_core::math::vector2::Vector2;
use crate::entities::coherence::all_anchored;
use crate::entities::coherence::anchored;
use crate::entities::coherence::coherent;
use crate::entities::entity::Entity;
use std::collections::HashMap;
use std::collections::HashSet;
use vstd::prelude::*;
use vstd::std_specs::iter::IteratorSpec;

verus! {

broadcast use vstd::std_specs::hash::group_hash_axioms;

/// What a transform record holds, as plain mathematical values.
pub ghost struct TransformView {
    pub parent: Option<u128>,
    pub children: Set<u128>,
    pub local_position: Vector2,
    pub world_position: Vector2,
}

/// The spatial state of one entity.
#[derive(Debug)]
pub struct Transform {
    entity: Entity,
    parent: Option<Entity>,
    children: HashSet<u128>,
    local_position: Vector2,
    world_position: Vector2,
}

impl View for Transform {
    type V = TransformView;

    closed spec fn view(&self) -> TransformView {
        TransformView {
            parent: match self.parent {
                Some(p) => Some(p@),
                None => None,
            },
            children: self.children@,
            local_position: self.local_position,
            world_position: self.world_position,
        }
    }
}

/// The record of a freshly created entity standing at `position`.
pub open spec fn fresh(position: Vector2) -> TransformView {
    TransformView {
        parent: None,
        children: Set::empty(),
        local_position: position,
        world_position: position,
    }
}

/// The members of `set`, each once, in the order the set yields them.
fn members(set: &HashSet<u128>) -> (list: Vec<u128>)
    ensures
        list@.no_duplicates(),
        list@.to_set() == set@,
{
    let mut list: Vec<u128> = Vec::new();
    let ghost keys = set.iter().remaining();
    for k in it: set.iter()
        invariant
            it.seq() == keys,
            list@.len() == it.index(),
            forall|i: int| 0 <= i < list@.len() ==> list@[i] == *keys[i],
    {
        list.push(*k);
    }
    proof {
        assert(list@ =~= keys.unref());
        assert forall|i: int, j: int| 0 <= i < j < list@.len() implies list@[i] != list@[j] by {
            assert(keys[i] != keys[j]);
        }
    }
    list
}

/// The set that holds exactly the items of `list`.
fn collect(list: &Vec<u128>) -> (set: HashSet<u128>)
    ensures
        set@ == list@.to_set(),
{
    let mut set: HashSet<u128> = HashSet::new();
    let mut i: usize = 0;
    while i < list.len()
        invariant
            i <= list.len(),
            set@ =~= list@.take(i as int).to_set(),
        decreases list.len() - i,
    {
        set.insert(list[i]);
        proof {
            let a = list@.take(i as int);
            let b = list@.take(i + 1);
            assert(b =~= a.push(list@[i as int]));
            assert forall|e: u128| b.to_set().contains(e) <==> a.to_set().insert(list@[i as int]).contains(e) by {
                if a.contains(e) {
                    let q = choose|q: int| 0 <= q < a.len() && a[q] == e;
                    assert(b[q] == e);
                }
                if e == list@[i as int] {
                    assert(b[i as int] == e);
                }
            }
        }
        i += 1;
    }
    assert(list@.take(list@.len() as int) =~= list@);
    set
}

/// Which argument of an operation named an entity that is not registered.
#[derive(Clone, Copy, Debug, PartialEq, Eq, Structural)]
pub enum Role {
    /// The entity the operation was asked to act on.
    Target,
    /// The entity named as the new parent.
    Parent,
    /// The entity named as a child, or met as a child while moving a subtree.
    Child,
}

/// The one failure of the manager: an entity it was asked about is not
/// registered.
#[derive(Clone, Copy, Debug, PartialEq, Eq, Structural)]
pub struct NotFound {
    pub role: Role,
    pub entity: Entity,
}

/// The error for `entity` missing in the given role.
pub open spec fn missing(role: Role, entity: u128) -> NotFound {
    NotFound { role, entity: Entity(entity) }
}

/// The registry as a map from identifiers to records.
pub type Registry = Map<u128, TransformView>;

/// `to` is reached from `from` by following exactly `steps` child links,
/// each taken from a registered entity.
pub open spec fn reaches_in(m: Registry, from: u128, to: u128, steps: nat) -> bool
    decreases steps,
{
    if steps == 0 {
        from == to
    } else {
        exists|mid: u128|
            reaches_in(m, from, mid, (steps - 1) as nat) && m.contains_key(mid)
                && #[trigger] m[mid].children.contains(to)
    }
}

/// `to` is `from` itself or one of its descendants.
pub open spec fn reaches(m: Registry, from: u128, to: u128) -> bool {
    exists|steps: nat| reaches_in(m, from, to, steps)
}

/// `root` and all its descendants.
pub open spec fn subtree(m: Registry, root: u128) -> Set<u128> {
    Set::new(|e: u128| reaches(m, root, e))
}

/// Every descendant of `root` is registered.
pub open spec fn subtree_registered(m: Registry, root: u128) -> bool {
    forall|e: u128| reaches(m, root, e) ==> m.contains_key(e)
}

/// `record` moved in the world frame by `delta`; its local position stays.
pub open spec fn shifted(record: TransformView, delta: Vector2) -> TransformView {
    TransformView { world_position: record.world_position.spec_plus(delta), ..record }
}

/// The registry in which the world position of every member of `moved` is
/// shifted by `delta` and nothing else differs.
pub open spec fn shift_all(m: Registry, moved: Set<u128>, delta: Vector2) -> Registry {
    Map::new(
        |e: u128| m.contains_key(e),
        |e: u128|
            if moved.contains(e) {
                shifted(m[e], delta)
            } else {
                m[e]
            },
    )
}

/// The registry after `parent` was entered as the parent of `target`: the
/// target's local position is rebased on the parent's world position, so
/// that its world position stays what it was.
pub open spec fn with_parent(m: Registry, target: u128, parent: u128) -> Registry {
    m.insert(
        target,
        TransformView {
            parent: Some(parent),
            local_position: m[target].world_position.spec_minus(m[parent].world_position),
            ..m[target]
        },
    )
}

/// The registry after the link from `target` to its parent was cleared.
pub open spec fn without_parent(m: Registry, target: u128) -> Registry {
    m.insert(target, TransformView { parent: None, ..m[target] })
}

/// The registry after `child` was entered among the children of `target`.
pub open spec fn with_child_link(m: Registry, target: u128, child: u128) -> Registry {
    m.insert(target, TransformView { children: m[target].children.insert(child), ..m[target] })
}

/// The registry after `child` was attached under `target` in both directions.
pub open spec fn with_child(m: Registry, target: u128, child: u128) -> Registry {
    with_parent(with_child_link(m, target, child), child, target)
}

/// The registry after `child` was struck from the children of `target`.
pub open spec fn without_child(m: Registry, target: u128, child: u128) -> Registry {
    m.insert(target, TransformView { children: m[target].children.remove(child), ..m[target] })
}

/// The registry after the world position of `target` was set to `position`:
/// the whole subtree moves by the difference.
pub open spec fn with_world_position(m: Registry, target: u128, position: Vector2) -> Registry {
    shift_all(m, subtree(m, target), position.spec_minus(m[target].world_position))
}

/// The registry after the local position of `target` was set to `position`:
/// the whole subtree moves in the world frame by the difference.
pub open spec fn with_local_position(m: Registry, target: u128, position: Vector2) -> Registry {
    let moved = shift_all(m, subtree(m, target), position.spec_minus(m[target].local_position));
    moved.insert(target, TransformView { local_position: position, ..moved[target] })
}

/// A child of a registered descendant is a descendant.
pub proof fn lemma_reaches_child(m: Registry, root: u128, mid: u128, child: u128)
    requires
        reaches(m, root, mid),
        m.contains_key(mid),
        m[mid].children.contains(child),
    ensures
        reaches(m, root, child),
{
    let steps = choose|steps: nat| reaches_in(m, root, mid, steps);
    assert(reaches_in(m, root, child, steps + 1));
}

/// Every entity reaches itself.
pub proof fn lemma_reaches_self(m: Registry, root: u128)
    ensures
        reaches(m, root, root),
{
    assert(reaches_in(m, root, root, 0));
}

/// A set that holds `root` and, with each registered member, all its
/// children, holds everything reached from `root` in `steps` links.
proof fn lemma_closed_set_holds_reached(m: Registry, root: u128, s: Set<u128>, e: u128, steps: nat)
    requires
        s.contains(root),
        forall|x: u128, c: u128|
            s.contains(x) && m.contains_key(x) && #[trigger] m[x].children.contains(c)
                ==> s.contains(c),
        reaches_in(m, root, e, steps),
    ensures
        s.contains(e),
    decreases steps,
{
    if steps > 0 {
        let mid = choose|mid: u128|
            reaches_in(m, root, mid, (steps - 1) as nat) && m.contains_key(mid)
                && #[trigger] m[mid].children.contains(e);
        lemma_closed_set_holds_reached(m, root, s, mid, (steps - 1) as nat);
    }
}

/// A list without repetitions drawn from a finite set is no longer than the
/// set is large.
proof fn lemma_distinct_members_bound(list: Seq<u128>, all: Set<u128>)
    requires
        list.no_duplicates(),
        all.finite(),
        forall|k: int| 0 <= k < list.len() ==> all.contains(list[k]),
    ensures
        list.len() <= all.len(),
{
    list.unique_seq_to_set();
    assert(list.to_set().subset_of(all));
    vstd::set_lib::lemma_len_subset(list.to_set(), all);
}

impl Transform {
    /// The entity this record belongs to.
    pub closed spec fn owner(&self) -> u128 {
        self.entity@
    }

    /// A record for `entity` standing at `position`, with no parent and no
    /// children.
    pub fn new(entity: Entity, position: Vector2) -> (t: Self)
        ensures
            t.owner() == entity@,
            t@ == fresh(position),
    {
        Transform {
            entity,
            parent: None,
            children: HashSet::new(),
            local_position: position,
            world_position: position,
        }
    }

    /// The entity this record belongs to.
    pub fn entity(&self) -> (e: Entity)
        ensures
            e@ == self.owner(),
    {
        self.entity
    }

    /// The parent, if there is one.
    pub fn parent(&self) -> (p: Option<Entity>)
        ensures
            p is Some <==> self@.parent is Some,
            p matches Some(e) ==> self@.parent == Some(e@),
    {
        self.parent
    }

    /// The identifiers of the children.
    pub fn children(&self) -> (c: &HashSet<u128>)
        ensures
            c@ == self@.children,
    {
        &self.children
    }

    /// The position relative to the parent.
    pub fn local_position(&self) -> (v: Vector2)
        ensures
            v == self@.local_position,
    {
        self.local_position
    }

    /// The position in the world frame.
    pub fn world_position(&self) -> (v: Vector2)
        ensures
            v == self@.world_position,
    {
        self.world_position
    }
}

/// Owns the transform records of all registered entities.
#[derive(Debug)]
pub struct TransformManager {
    nodes: HashMap<u128, Transform>,
}

impl View for TransformManager {
    type V = Registry;

    closed spec fn view(&self) -> Registry {
        Map::new(|e: u128| self.nodes@.contains_key(e), |e: u128| self.nodes@[e]@)
    }
}

impl TransformManager {
    /// An empty registry.
    pub fn new() -> (manager: Self)
        ensures
            manager@ == Map::<u128, TransformView>::empty(),
    {
        let manager = TransformManager { nodes: HashMap::new() };
        assert(manager@ =~= Map::<u128, TransformView>::empty());
        manager
    }

    /// Registers `node_transform` under its entity and returns that entity.
    /// A record already held for the entity is replaced.
    pub fn add_node(&mut self, node_transform: Transform) -> (entity: Entity)
        ensures
            entity@ == node_transform.owner(),
            final(self)@ == old(self)@.insert(node_transform.owner(), node_transform@),
            coherent(old(self)@) && !old(self)@.contains_key(node_transform.owner())
                && node_transform@ == fresh(node_transform@.local_position) ==> coherent(
                final(self)@,
            ),
    {
        let node_entity = node_transform.entity;
        proof {
            if coherent(old(self)@) && !old(self)@.contains_key(node_transform.owner()) {
                crate::entities::coherence::lemma_add_node_keeps_coherence(
                    old(self)@,
                    node_transform.owner(),
                    node_transform@.local_position,
                );
            }
        }
        self.nodes.insert(node_entity.0, node_transform);
        assert(self@ =~= old(self)@.insert(node_transform.owner(), node_transform@));
        node_entity
    }

    /// Unregisters `target`. Links that other records hold to it stay.
    pub fn remove_node(&mut self, target: Entity) -> (r: Result<(), NotFound>)
        ensures
            r is Ok <==> old(self)@.contains_key(target@),
            r is Ok ==> final(self)@ == old(self)@.remove(target@),
            r matches Err(e) ==> e == missing(Role::Target, target@) && final(self)@ == old(self)@,
            all_anchored(old(self)@) ==> all_anchored(final(self)@),
    {
        match self.nodes.remove(&target.0) {
            Some(_) => {
                proof {
                    assert(self@ =~= old(self)@.remove(target@));
                    if all_anchored(old(self)@) {
                        crate::entities::coherence::lemma_remove_node_keeps_anchors(
                            old(self)@,
                            target@,
                        );
                    }
                }
                Ok(())
            },
            None => {
                assert(self@ =~= old(self)@);
                Err(NotFound { role: Role::Target, entity: target })
            },
        }
    }

    /// Makes `parent` the parent of `target`, rebasing the target's local
    /// position so that its world position is preserved. The parent's set
    /// of children is not touched.
    pub fn attach_parent(&mut self, target: Entity, parent: Entity) -> (r: Result<(), NotFound>)
        ensures
            r is Ok <==> old(self)@.contains_key(parent@) && old(self)@.contains_key(target@),
            r is Ok ==> final(self)@ == with_parent(old(self)@, target@, parent@),
            r is Ok ==> final(self)@[target@].world_position == old(self)@[target@].world_position,
            r is Ok ==> anchored(final(self)@, target@),
            r is Ok && all_anchored(old(self)@) ==> all_anchored(final(self)@),
            r matches Err(e) ==> final(self)@ == old(self)@ && e == (if old(self)@.contains_key(
                parent@,
            ) {
                missing(Role::Child, target@)
            } else {
                missing(Role::Parent, parent@)
            }),
    {
        let parent_world = match self.nodes.get(&parent.0) {
            Some(node) => node.world_position,
            None => {
                return Err(NotFound { role: Role::Parent, entity: parent });
            },
        };
        match self.nodes.remove(&target.0) {
            Some(mut node) => {
                proof {
                    crate::app_core::math::vector2::lemma_minus_then_plus(
                        node.world_position,
                        parent_world,
                    );
                }
                node.parent = Some(parent);
                node.local_position = node.world_position.minus(parent_world);
                self.nodes.insert(target.0, node);
                proof {
                    assert(self@ =~= with_parent(old(self)@, target@, parent@));
                    if all_anchored(old(self)@) {
                        crate::entities::coherence::lemma_attach_parent_keeps_anchors(
                            old(self)@,
                            target@,
                            parent@,
                        );
                    }
                }
                Ok(())
            },
            None => {
                assert(self@ =~= old(self)@);
                Err(NotFound { role: Role::Child, entity: target })
            },
        }
    }

    /// Clears the parent of `target`. Positions and children stay as they
    /// are.
    pub fn detach_parent(&mut self, target: Entity) -> (r: Result<(), NotFound>)
        ensures
            r is Ok <==> old(self)@.contains_key(target@),
            r is Ok ==> final(self)@ == without_parent(old(self)@, target@),
            r matches Err(e) ==> e == missing(Role::Target, target@) && final(self)@ == old(self)@,
            r is Ok && all_anchored(old(self)@) && old(self)@[target@].local_position == old(
                self,
            )@[target@].world_position ==> all_anchored(final(self)@),
    {
        match self.nodes.remove(&target.0) {
            Some(mut node) => {
                node.parent = None;
                self.nodes.insert(target.0, node);
                proof {
                    assert(self@ =~= without_parent(old(self)@, target@));
                    if all_anchored(old(self)@) && old(self)@[target@].local_position == old(
                        self,
                    )@[target@].world_position {
                        crate::entities::coherence::lemma_detach_parent_keeps_anchors(
                            old(self)@,
                            target@,
                        );
                    }
                }
                Ok(())
            },
            None => {
                assert(self@ =~= old(self)@);
                Err(NotFound { role: Role::Target, entity: target })
            },
        }
    }

    /// The parent of `target`, if it has one.
    pub fn get_parent(&self, target: Entity) -> (r: Result<Option<Entity>, NotFound>)
        ensures
            r is Ok <==> self@.contains_key(target@),
            r matches Ok(p) ==> (p is Some <==> self@[target@].parent is Some) && (p matches Some(e)
                ==> self@[target@].parent == Some(e@)),
            r matches Err(e) ==> e == missing(Role::Target, target@),
    {
        match self.nodes.get(&target.0) {
            Some(node) => Ok(node.parent),
            None => Err(NotFound { role: Role::Target, entity: target }),
        }
    }

    /// Enters `child` among the children of `target` and makes `target` the
    /// parent of `child`, preserving the child's world position.
    pub fn attach_child(&mut self, target: Entity, child: Entity) -> (r: Result<(), NotFound>)
        ensures
            r is Ok <==> old(self)@.contains_key(target@) && old(self)@.contains_key(child@),
            r is Ok ==> final(self)@ == with_child(old(self)@, target@, child@),
            r is Ok ==> final(self)@[child@].world_position == old(self)@[child@].world_position,
            r is Ok ==> anchored(final(self)@, child@),
            r is Ok && all_anchored(old(self)@) ==> all_anchored(final(self)@),
            r is Ok && coherent(old(self)@) && old(self)@[child@].parent is None && !reaches(
                old(self)@,
                child@,
                target@,
            ) ==> coherent(final(self)@),
            r matches Err(e) ==> final(self)@ == old(self)@ && e == (if old(self)@.contains_key(
                target@,
            ) {
                missing(Role::Child, child@)
            } else {
                missing(Role::Target, target@)
            }),
    {
        if !self.nodes.contains_key(&target.0) {
            return Err(NotFound { role: Role::Target, entity: target });
        }
        if !self.nodes.contains_key(&child.0) {
            return Err(NotFound { role: Role::Child, entity: child });
        }
        match self.nodes.remove(&target.0) {
            Some(mut node) => {
                node.children.insert(child.0);
                self.nodes.insert(target.0, node);
                assert(self@ =~= with_child_link(old(self)@, target@, child@));
            },
            None => {},
        }
        proof {
            if all_anchored(old(self)@) {
                crate::entities::coherence::lemma_attach_child_keeps_anchors(
                    old(self)@,
                    target@,
                    child@,
                );
            }
            if coherent(old(self)@) && old(self)@[child@].parent is None && !reaches(
                old(self)@,
                child@,
                target@,
            ) {
                crate::entities::coherence::lemma_attach_child_keeps_coherence(
                    old(self)@,
                    target@,
                    child@,
                );
            }
        }
        self.attach_parent(child, target)
    }

    /// Strikes `child` from the children of `target`. The child's own link
    /// to its parent stays.
    pub fn detach_child(&mut self, target: Entity, child: Entity) -> (r: Result<(), NotFound>)
        ensures
            r is Ok <==> old(self)@.contains_key(target@),
            r is Ok ==> final(self)@ == without_child(old(self)@, target@, child@),
            r matches Err(e) ==> e == missing(Role::Target, target@) && final(self)@ == old(self)@,
            all_anchored(old(self)@) ==> all_anchored(final(self)@),
    {
        match self.nodes.remove(&target.0) {
            Some(mut node) => {
                node.children.remove(&child.0);
                self.nodes.insert(target.0, node);
                proof {
                    assert(self@ =~= without_child(old(self)@, target@, child@));
                    if all_anchored(old(self)@) {
                        crate::entities::coherence::lemma_detach_child_keeps_anchors(
                            old(self)@,
                            target@,
                            child@,
                        );
                    }
                }
                Ok(())
            },
            None => {
                assert(self@ =~= old(self)@);
                Err(NotFound { role: Role::Target, entity: target })
            },
        }
    }

    /// A copy of the set of children of `target`, by identifier.
    pub fn get_children(&self, target: Entity) -> (r: Result<HashSet<u128>, NotFound>)
        ensures
            r is Ok <==> self@.contains_key(target@),
            r matches Ok(set) ==> set@ == self@[target@].children,
            r matches Err(e) ==> e == missing(Role::Target, target@),
    {
        match self.nodes.get(&target.0) {
            Some(node) => {
                let list = members(&node.children);
                Ok(collect(&list))
            },
            None => Err(NotFound { role: Role::Target, entity: target }),
        }
    }

    /// Only finitely many entities are registered.
    proof fn lemma_finite(&self)
        ensures
            self@.dom().finite(),
    {
        assert(self@.dom() =~= self.nodes@.dom());
    }

    /// `root` and its descendants, each once, or a descendant that is not
    /// registered. Every entity is visited once however the links run, so
    /// the walk ends on any registry.
    fn descendants(&self, root: u128) -> (r: Result<Vec<u128>, u128>)
        requires
            self@.contains_key(root),
        ensures
            r is Ok <==> subtree_registered(self@, root),
            r matches Ok(order) ==> order@.no_duplicates() && order@.to_set() == subtree(
                self@,
                root,
            ),
            r matches Err(c) ==> reaches(self@, root, c) && !self@.contains_key(c),
    {
        let mut order: Vec<u128> = Vec::new();
        let mut seen: HashSet<u128> = HashSet::new();
        order.push(root);
        seen.insert(root);
        proof {
            lemma_reaches_self(self@, root);
            assert(order@[0] == root);
        }
        let mut i: usize = 0;
        while i < order.len()
            invariant
                i <= order.len(),
                order@.no_duplicates(),
                forall|e: u128| seen@.contains(e) <==> order@.contains(e),
                seen@.contains(root),
                forall|k: int|
                    0 <= k < order.len() ==> self@.contains_key(#[trigger] order@[k]) && reaches(
                        self@,
                        root,
                        order@[k],
                    ),
                forall|k: int, c: u128|
                    0 <= k < i && #[trigger] self@[order@[k]].children.contains(c)
                        ==> seen@.contains(c),
            decreases self@.dom().len() - i,
        {
            proof {
                self.lemma_finite();
                lemma_distinct_members_bound(order@, self@.dom());
            }
            let current = order[i];
            let kids = match self.nodes.get(&current) {
                Some(node) => members(&node.children),
                None => Vec::new(),
            };
            let mut j: usize = 0;
            while j < kids.len()
                invariant
                    i < order.len(),
                    j <= kids.len(),
                    current == order@[i as int],
                    kids@.to_set() == self@[current].children,
                    order@.no_duplicates(),
                    forall|e: u128| seen@.contains(e) <==> order@.contains(e),
                    seen@.contains(root),
                    forall|k: int|
                        0 <= k < order.len() ==> self@.contains_key(#[trigger] order@[k])
                            && reaches(self@, root, order@[k]),
                    forall|k: int, c: u128|
                        0 <= k < i && #[trigger] self@[order@[k]].children.contains(c)
                            ==> seen@.contains(c),
                    forall|q: int| 0 <= q < j ==> seen@.contains(#[trigger] kids@[q]),
                decreases kids.len() - j,
            {
                let child = kids[j];
                proof {
                    assert(kids@.contains(child));
                    assert(kids@.to_set().contains(child));
                    lemma_reaches_child(self@, root, current, child);
                }
                if !self.nodes.contains_key(&child) {
                    return Err(child);
                }
                if !seen.contains(&child) {
                    let ghost before = order@;
                    seen.insert(child);
                    order.push(child);
                    proof {
                        assert forall|e: u128| seen@.contains(e) <==> order@.contains(e) by {
                            if before.contains(e) {
                                let q = choose|q: int| 0 <= q < before.len() && before[q] == e;
                                assert(order@[q] == e);
                            }
                            if e == child {
                                assert(order@[before.len() as int] == e);
                            }
                        }
                    }
                }
                j += 1;
            }
            proof {
                assert forall|c: u128| #[trigger]
                    self@[order@[i as int]].children.contains(c) implies seen@.contains(c) by {
                    assert(kids@.to_set().contains(c));
                    let q = choose|q: int| 0 <= q < kids@.len() && kids@[q] == c;
                    assert(seen@.contains(kids@[q]));
                }
            }
            i += 1;
        }
        proof {
            assert forall|x: u128, c: u128|
                seen@.contains(x) && self@.contains_key(x) && #[trigger] self@[x].children.contains(
                    c,
                ) implies seen@.contains(c) by {
                let k = choose|k: int| 0 <= k < order@.len() && order@[k] == x;
                assert(self@[order@[k]].children.contains(c));
            }
            assert forall|e: u128| reaches(self@, root, e) implies seen@.contains(e)
                && self@.contains_key(e) by {
                let steps = choose|steps: nat| reaches_in(self@, root, e, steps);
                lemma_closed_set_holds_reached(self@, root, seen@, e, steps);
                let k = choose|k: int| 0 <= k < order@.len() && order@[k] == e;
                assert(self@.contains_key(order@[k]));
            }
            assert forall|e: u128| order@.contains(e) implies reaches(self@, root, e) by {
                let k = choose|k: int| 0 <= k < order@.len() && order@[k] == e;
                assert(reaches(self@, root, order@[k]));
            }
            assert forall|e: u128| reaches(self@, root, e) implies self@.contains_key(e) by {
                assert(seen@.contains(e) && self@.contains_key(e));
            }
            assert(order@.to_set() =~= subtree(self@, root));
        }
        Ok(order)
    }

    /// Moves every entity of `order` by `delta` in the world frame.
    fn shift(&mut self, order: &Vec<u128>, delta: Vector2)
        requires
            order@.no_duplicates(),
            forall|k: int| 0 <= k < order.len() ==> old(self)@.contains_key(#[trigger] order@[k]),
        ensures
            final(self)@ == shift_all(old(self)@, order@.to_set(), delta),
    {
        let mut i: usize = 0;
        assert(self@ =~= shift_all(old(self)@, order@.take(0).to_set(), delta));
        while i < order.len()
            invariant
                i <= order.len(),
                order@.no_duplicates(),
                forall|k: int|
                    0 <= k < order.len() ==> old(self)@.contains_key(#[trigger] order@[k]),
                self@ == shift_all(old(self)@, order@.take(i as int).to_set(), delta),
            decreases order.len() - i,
        {
            let entity = order[i];
            let ghost before = self@;
            let ghost done = order@.take(i as int);
            let ghost next = order@.take(i + 1);
            proof {
                assert(old(self)@.contains_key(order@[i as int]));
                assert(before.contains_key(entity));
                assert(self.nodes@.contains_key(entity));
                if done.contains(entity) {
                    let q = choose|q: int| 0 <= q < done.len() && done[q] == entity;
                    assert(order@[q] == order@[i as int]);
                }
            }
            match self.nodes.remove(&entity) {
                Some(mut node) => {
                    assert(node@ == before[entity]);
                    node.world_position = node.world_position.plus(delta);
                    assert(node@ == shifted(before[entity], delta));
                    self.nodes.insert(entity, node);
                },
                None => {},
            }
            proof {
                assert(self@ =~= before.insert(entity, shifted(before[entity], delta)));
                assert forall|e: u128| next.to_set().contains(e) <==> (done.to_set().contains(e)
                    || e == entity) by {
                    if done.contains(e) {
                        let q = choose|q: int| 0 <= q < done.len() && done[q] == e;
                        assert(next[q] == e);
                    }
                    if e == entity {
                        assert(next[i as int] == e);
                    }
                    if next.contains(e) {
                        let q = choose|q: int| 0 <= q < next.len() && next[q] == e;
                        if q < i {
                            assert(done[q] == e);
                        }
                    }
                }
                assert(self@ =~= shift_all(old(self)@, next.to_set(), delta));
            }
            i += 1;
        }
        assert(order@.take(order@.len() as int) =~= order@);
    }

    /// Sets the local position of `target` and moves it and all its
    /// descendants in the world frame by the difference to the local
    /// position it had. Every entity of the subtree moves once, also where
    /// child links run in a circle or two entities list the same child.
    /// Nothing changes unless the whole subtree is registered.
    pub fn set_local_position(&mut self, target: Entity, position: Vector2) -> (r: Result<
        (),
        NotFound,
    >)
        ensures
            r is Ok <==> old(self)@.contains_key(target@) && subtree_registered(
                old(self)@,
                target@,
            ),
            r is Ok ==> final(self)@ == with_local_position(old(self)@, target@, position),
            r is Ok ==> final(self)@[target@].local_position == position,
            r is Ok && coherent(old(self)@) ==> coherent(final(self)@),
            r is Ok ==> forall|e: u128|
                reaches(old(self)@, target@, e) ==> (#[trigger] final(self)@[e]).world_position
                    == old(self)@[e].world_position.spec_plus(
                    position.spec_minus(old(self)@[target@].local_position),
                ),
            r matches Err(e) ==> final(self)@ == old(self)@ && !old(self)@.contains_key(e.entity@)
                && (if old(self)@.contains_key(target@) {
                e.role == Role::Child && reaches(old(self)@, target@, e.entity@)
            } else {
                e == missing(Role::Target, target@)
            }),
    {
        let local = match self.nodes.get(&target.0) {
            Some(node) => node.local_position,
            None => {
                return Err(NotFound { role: Role::Target, entity: target });
            },
        };
        let order = match self.descendants(target.0) {
            Ok(order) => order,
            Err(child) => {
                return Err(NotFound { role: Role::Child, entity: Entity(child) });
            },
        };
        proof {
            assert forall|k: int| 0 <= k < order.len() implies self@.contains_key(
                #[trigger] order@[k],
            ) by {
                assert(order@.to_set().contains(order@[k]));
            }
        }
        self.shift(&order, position.minus(local));
        match self.nodes.remove(&target.0) {
            Some(mut node) => {
                node.local_position = position;
                self.nodes.insert(target.0, node);
            },
            None => {},
        }
        proof {
            assert(self@ =~= with_local_position(old(self)@, target@, position));
            if coherent(old(self)@) {
                crate::entities::coherence::lemma_local_move_keeps_coherence(
                    old(self)@,
                    target@,
                    position,
                );
            }
        }
        Ok(())
    }

    /// Sets the world position of `target` and moves all its descendants in
    /// the world frame by the difference to the world position it had.
    /// Local positions stay. Every entity of the subtree moves once, also
    /// where child links run in a circle or two entities list the same
    /// child. Nothing changes unless the whole subtree is registered.
    pub fn set_world_position(&mut self, target: Entity, position: Vector2) -> (r: Result<
        (),
        NotFound,
    >)
        ensures
            r is Ok <==> old(self)@.contains_key(target@) && subtree_registered(
                old(self)@,
                target@,
            ),
            r is Ok ==> final(self)@ == with_world_position(old(self)@, target@, position),
            r is Ok ==> final(self)@[target@].world_position == position,
            r is Ok && coherent(old(self)@) ==> forall|e: u128|
                final(self)@.contains_key(e) && e != target@ ==> anchored(final(self)@, e),
            r is Ok ==> forall|e: u128|
                reaches(old(self)@, target@, e) ==> (#[trigger] final(self)@[e]).world_position
                    == old(self)@[e].world_position.spec_plus(
                    position.spec_minus(old(self)@[target@].world_position),
                ),
            r matches Err(e) ==> final(self)@ == old(self)@ && !old(self)@.contains_key(e.entity@)
                && (if old(self)@.contains_key(target@) {
                e.role == Role::Child && reaches(old(self)@, target@, e.entity@)
            } else {
                e == missing(Role::Target, target@)
            }),
    {
        let world = match self.nodes.get(&target.0) {
            Some(node) => node.world_position,
            None => {
                return Err(NotFound { role: Role::Target, entity: target });
            },
        };
        let order = match self.descendants(target.0) {
            Ok(order) => order,
            Err(child) => {
                return Err(NotFound { role: Role::Child, entity: Entity(child) });
            },
        };
        proof {
            assert forall|k: int| 0 <= k < order.len() implies self@.contains_key(
                #[trigger] order@[k],
            ) by {
                assert(order@.to_set().contains(order@[k]));
            }
            lemma_reaches_self(self@, target@);
            crate::app_core::math::vector2::lemma_minus_then_plus(position, world);
            if coherent(self@) {
                assert forall|e: u128|
                    self@.contains_key(e) && e != target@ implies anchored(
                    with_world_position(self@, target@, position),
                    e,
                ) by {
                    crate::entities::coherence::lemma_world_move_keeps_others_anchored(
                        self@,
                        target@,
                        position,
                        e,
                    );
                }
            }
        }
        self.shift(&order, position.minus(world));
        Ok(())
    }

    /// The position of `target` relative to its parent.
    pub fn get_local_position(&self, target: Entity) -> (r: Result<Vector2, NotFound>)
        ensures
            r is Ok <==> self@.contains_key(target@),
            r matches Ok(v) ==> v == self@[target@].local_position,
            r matches Err(e) ==> e == missing(Role::Target, target@),
    {
        match self.nodes.get(&target.0) {
            Some(node) => Ok(node.local_position),
            None => Err(NotFound { role: Role::Target, entity: target }),
        }
    }

    /// The position of `target` in the world frame.
    pub fn get_world_position(&self, target: Entity) -> (r: Result<Vector2, NotFound>)
        ensures
            r is Ok <==> self@.contains_key(target@),
            r matches Ok(v) ==> v == self@[target@].world_position,
            r matches Err(e) ==> e == missing(Role::Target, target@),
    {
        match self.nodes.get(&target.0) {
            Some(node) => Ok(node.world_position),
            None => Err(NotFound { role: Role::Target, entity: target }),
        }
    }
}

} // verus!
