//! When local and world positions agree across the hierarchy, and which
//! operations of the manager keep them in agreement.
//!
//! An entity is *anchored* when its world position is what its local
//! position and its parent say it should be. The laws below state, for each
//! operation, under which conditions a registry whose entities are all
//! anchored stays that way.

use crate::app_core::math::vector2::Vector2;
use crate::entities::transform::lemma_reaches_child;
use crate::entities::transform::reaches;
use crate::entities::transform::reaches_in;
use crate::entities::transform::shift_all;
use crate::entities::transform::subtree;
use crate::entities::transform::with_child;
use crate::entities::transform::with_child_link;
use crate::entities::transform::with_local_position;
use crate::entities::transform::with_parent;
use crate::entities::transform::with_world_position;
use crate::entities::transform::without_child;
use crate::entities::transform::without_parent;
use crate::entities::transform::Registry;
use crate::entities::transform::TransformView;
use vstd::prelude::*;

verus! {

/// The positions of `e` agree with its place in the hierarchy: without a
/// parent its local position is its world position; under a registered
/// parent its world position is the parent's plus its own local position.
pub open spec fn anchored(m: Registry, e: u128) -> bool {
    match m[e].parent {
        None => m[e].local_position == m[e].world_position,
        Some(p) => m.contains_key(p) ==> m[e].world_position == m[p].world_position.spec_plus(
            m[e].local_position,
        ),
    }
}

/// Every registered entity is anchored.
pub open spec fn all_anchored(m: Registry) -> bool {
    forall|e: u128| m.contains_key(e) ==> anchored(m, e)
}

/// `e` is registered and names `p` as its parent.
pub open spec fn child_of(m: Registry, e: u128, p: u128) -> bool {
    m.contains_key(e) && m[e].parent == Some(p)
}

/// Parent links and child links say the same, and name registered entities
/// only.
pub open spec fn linked(m: Registry) -> bool {
    &&& forall|e: u128, p: u128| #[trigger]
        child_of(m, e, p) ==> m.contains_key(p) && m[p].children.contains(e)
    &&& forall|p: u128, c: u128|
        m.contains_key(p) && #[trigger] m[p].children.contains(c) ==> m.contains_key(c)
            && m[c].parent == Some(p)
}

/// No entity has its parent among its descendants.
pub open spec fn acyclic(m: Registry) -> bool {
    forall|e: u128, p: u128| #[trigger] child_of(m, e, p) ==> !reaches(m, e, p)
}

/// The registry is a forest in which every entity is anchored.
pub open spec fn coherent(m: Registry) -> bool {
    &&& linked(m)
    &&& acyclic(m)
    &&& all_anchored(m)
}

/// Whatever is reached over the child links of `a` is reached over those of
/// `b`, if `b` has every child link that `a` has.
pub proof fn lemma_reaches_monotone(a: Registry, b: Registry, from: u128, to: u128, steps: nat)
    requires
        forall|e: u128, c: u128|
            a.contains_key(e) && #[trigger] a[e].children.contains(c) ==> b.contains_key(e)
                && b[e].children.contains(c),
        reaches_in(a, from, to, steps),
    ensures
        reaches_in(b, from, to, steps),
    decreases steps,
{
    if steps > 0 {
        let mid = choose|mid: u128|
            reaches_in(a, from, mid, (steps - 1) as nat) && a.contains_key(mid)
                && #[trigger] a[mid].children.contains(to);
        lemma_reaches_monotone(a, b, from, mid, (steps - 1) as nat);
        assert(b.contains_key(mid) && b[mid].children.contains(to));
    }
}

/// A descendant of a descendant is a descendant.
pub proof fn lemma_reaches_transitive(m: Registry, a: u128, b: u128, c: u128)
    requires
        reaches(m, a, b),
        reaches(m, b, c),
    ensures
        reaches(m, a, c),
{
    let steps = choose|steps: nat| reaches_in(m, b, c, steps);
    lemma_reaches_chain(m, a, b, c, steps);
}

proof fn lemma_reaches_chain(m: Registry, a: u128, b: u128, c: u128, steps: nat)
    requires
        reaches(m, a, b),
        reaches_in(m, b, c, steps),
    ensures
        reaches(m, a, c),
    decreases steps,
{
    if steps > 0 {
        let mid = choose|mid: u128|
            reaches_in(m, b, mid, (steps - 1) as nat) && m.contains_key(mid)
                && #[trigger] m[mid].children.contains(c);
        lemma_reaches_chain(m, a, b, mid, (steps - 1) as nat);
        lemma_reaches_child(m, a, mid, c);
    }
}

/// A walk over the links of `m` and one more link from `target` to `child`
/// either stays in `m`, or goes to `target` in `m` and ends in what `child`
/// reaches in `m`.
proof fn lemma_walk_over_new_link(
    m: Registry,
    target: u128,
    child: u128,
    from: u128,
    to: u128,
    steps: nat,
)
    requires
        m.contains_key(target),
        m.contains_key(child),
        reaches_in(with_child(m, target, child), from, to, steps),
    ensures
        reaches(m, from, to) || (reaches(m, from, target) && reaches(m, child, to)),
    decreases steps,
{
    let after = with_child(m, target, child);
    if steps == 0 {
        crate::entities::transform::lemma_reaches_self(m, from);
    } else {
        let mid = choose|mid: u128|
            reaches_in(after, from, mid, (steps - 1) as nat) && after.contains_key(mid)
                && #[trigger] after[mid].children.contains(to);
        lemma_walk_over_new_link(m, target, child, from, mid, (steps - 1) as nat);
        crate::entities::transform::lemma_reaches_self(m, child);
        assert(m.contains_key(mid));
        if m[mid].children.contains(to) {
            if reaches(m, from, mid) {
                lemma_reaches_child(m, from, mid, to);
            } else {
                lemma_reaches_child(m, child, mid, to);
            }
        } else {
            assert(mid == target && to == child);
        }
    }
}

/// In a registry whose links agree, a proper descendant of `root` has its
/// parent in the subtree of `root`.
proof fn lemma_parent_of_descendant(m: Registry, root: u128, e: u128)
    requires
        linked(m),
        reaches(m, root, e),
        e != root,
    ensures
        m.contains_key(e),
        m[e].parent is Some,
        reaches(m, root, m[e].parent->0),
{
    let steps = choose|steps: nat| reaches_in(m, root, e, steps);
    assert(steps > 0);
    let mid = choose|mid: u128|
        reaches_in(m, root, mid, (steps - 1) as nat) && m.contains_key(mid)
            && #[trigger] m[mid].children.contains(e);
    assert(m[e].parent == Some(mid));
    assert(reaches(m, root, mid));
}

/// Moving a whole subtree in the world frame leaves every entity but the
/// root of the subtree anchored.
proof fn lemma_subtree_shift_keeps_others_anchored(
    m: Registry,
    root: u128,
    delta: Vector2,
    e: u128,
)
    requires
        linked(m),
        all_anchored(m),
        m.contains_key(e),
        e != root,
    ensures
        anchored(shift_all(m, subtree(m, root), delta), e),
{
    let after = shift_all(m, subtree(m, root), delta);
    assert(anchored(m, e));
    if reaches(m, root, e) {
        lemma_parent_of_descendant(m, root, e);
        let p = m[e].parent->0;
        assert(m.contains_key(p));
        assert(subtree(m, root).contains(p));
        assert(subtree(m, root).contains(e));
        crate::app_core::math::vector2::lemma_plus_group(
            m[p].world_position,
            m[e].local_position,
            delta,
        );
        crate::app_core::math::vector2::lemma_plus_group(
            m[p].world_position,
            delta,
            m[e].local_position,
        );
        crate::app_core::math::vector2::lemma_plus_group(delta, m[e].local_position, delta);
    } else {
        assert(!subtree(m, root).contains(e));
        match m[e].parent {
            Some(p) => {
                assert(child_of(m, e, p));
                assert(m.contains_key(p) && m[p].children.contains(e));
                if reaches(m, root, p) {
                    lemma_reaches_child(m, root, p, e);
                }
                assert(!subtree(m, root).contains(p));
            },
            None => {},
        }
    }
}

/// Making `parent` the parent of `target` keeps every entity anchored, and
/// anchors `target` whether or not it was before.
pub proof fn lemma_attach_parent_keeps_anchors(m: Registry, target: u128, parent: u128)
    requires
        m.contains_key(target),
        m.contains_key(parent),
        forall|e: u128| m.contains_key(e) && e != target ==> anchored(m, e),
    ensures
        all_anchored(with_parent(m, target, parent)),
        with_parent(m, target, parent)[target].world_position == m[target].world_position,
{
    let after = with_parent(m, target, parent);
    crate::app_core::math::vector2::lemma_minus_then_plus(
        m[target].world_position,
        m[parent].world_position,
    );
    assert forall|e: u128| after.contains_key(e) implies anchored(after, e) by {
        if e != target {
            assert(anchored(m, e));
        }
    }
}

/// Attaching `child` under `target` keeps every entity anchored, and
/// anchors `child` whether or not it was before.
pub proof fn lemma_attach_child_keeps_anchors(m: Registry, target: u128, child: u128)
    requires
        m.contains_key(target),
        m.contains_key(child),
        forall|e: u128| m.contains_key(e) && e != child ==> anchored(m, e),
    ensures
        all_anchored(with_child(m, target, child)),
        with_child(m, target, child)[child].world_position == m[child].world_position,
{
    let mid = with_child_link(m, target, child);
    assert forall|e: u128| mid.contains_key(e) && e != child implies anchored(mid, e) by {
        assert(anchored(m, e));
    }
    lemma_attach_parent_keeps_anchors(mid, child, target);
}

/// Striking a child from a set of children keeps every entity anchored.
pub proof fn lemma_detach_child_keeps_anchors(m: Registry, target: u128, child: u128)
    requires
        m.contains_key(target),
        all_anchored(m),
    ensures
        all_anchored(without_child(m, target, child)),
{
    let after = without_child(m, target, child);
    assert forall|e: u128| after.contains_key(e) implies anchored(after, e) by {
        assert(anchored(m, e));
    }
}

/// Clearing the parent of `target` keeps every entity anchored when the
/// target's local and world positions coincide.
pub proof fn lemma_detach_parent_keeps_anchors(m: Registry, target: u128)
    requires
        m.contains_key(target),
        all_anchored(m),
        m[target].local_position == m[target].world_position,
    ensures
        all_anchored(without_parent(m, target)),
{
    let after = without_parent(m, target);
    assert forall|e: u128| after.contains_key(e) implies anchored(after, e) by {
        assert(anchored(m, e));
    }
}

/// Unregistering an entity keeps the remaining entities anchored.
pub proof fn lemma_remove_node_keeps_anchors(m: Registry, target: u128)
    requires
        all_anchored(m),
    ensures
        all_anchored(m.remove(target)),
{
    let after = m.remove(target);
    assert forall|e: u128| after.contains_key(e) implies anchored(after, e) by {
        assert(anchored(m, e));
    }
}

/// Registering a fresh record keeps every entity anchored, provided no
/// registered entity names the new one as its parent.
pub proof fn lemma_add_node_keeps_anchors(m: Registry, entity: u128, position: Vector2)
    requires
        all_anchored(m),
        forall|e: u128| m.contains_key(e) ==> m[e].parent != Some(entity),
    ensures
        all_anchored(m.insert(entity, crate::entities::transform::fresh(position))),
{
    let after = m.insert(entity, crate::entities::transform::fresh(position));
    assert forall|e: u128| after.contains_key(e) implies anchored(after, e) by {
        if e != entity {
            assert(anchored(m, e));
        }
    }
}

/// Setting the local position of an entity of a coherent registry leaves
/// the registry coherent: parentless entities still have equal local and
/// world positions, and every other entity still stands at its parent's
/// world position plus its own local position.
pub proof fn lemma_local_move_keeps_coherence(m: Registry, target: u128, position: Vector2)
    requires
        coherent(m),
        m.contains_key(target),
    ensures
        coherent(with_local_position(m, target, position)),
{
    let delta = position.spec_minus(m[target].local_position);
    let moved = shift_all(m, subtree(m, target), delta);
    let after = with_local_position(m, target, position);
    assert(after.dom() =~= m.dom());
    assert forall|e: u128| m.contains_key(e) implies m[e].children == after[e].children
        && m[e].parent == after[e].parent by {}
    assert forall|e: u128, p: u128| #[trigger] child_of(after, e, p) implies after.contains_key(p)
        && after[p].children.contains(e) by {
        assert(child_of(m, e, p));
    }
    assert forall|e: u128, p: u128| #[trigger] child_of(after, e, p) implies !reaches(
        after,
        e,
        p,
    ) by {
        assert(child_of(m, e, p));
        if reaches(after, e, p) {
            let steps = choose|steps: nat| reaches_in(after, e, p, steps);
            lemma_reaches_monotone(after, m, e, p, steps);
            assert(reaches(m, e, p));
        }
    }
    assert forall|e: u128| after.contains_key(e) implies anchored(after, e) by {
        if e != target {
            lemma_subtree_shift_keeps_others_anchored(m, target, delta, e);
            assert(after[e] == moved[e]);
            match m[e].parent {
                Some(p) => {
                    assert(child_of(m, e, p));
                    assert(after[p].world_position == moved[p].world_position);
                },
                None => {},
            }
        } else {
            assert(anchored(m, target));
            crate::entities::transform::lemma_reaches_self(m, target);
            assert(subtree(m, target).contains(target));
            crate::app_core::math::vector2::lemma_minus_then_plus(
                position,
                m[target].local_position,
            );
            match m[target].parent {
                Some(p) => {
                    assert(child_of(m, target, p));
                    assert(!reaches(m, target, p));
                    assert(!subtree(m, target).contains(p));
                    assert(p != target);
                    assert(after[p].world_position == m[p].world_position);
                    crate::app_core::math::vector2::lemma_plus_group(
                        m[p].world_position,
                        m[target].local_position,
                        delta,
                    );
                },
                None => {},
            }
        }
    }
}

/// Setting the world position of an entity of a coherent registry leaves
/// every other entity anchored. The entity itself keeps its local position
/// and so, unless it is set to where it stood, is no longer anchored.
pub proof fn lemma_world_move_keeps_others_anchored(
    m: Registry,
    target: u128,
    position: Vector2,
    e: u128,
)
    requires
        coherent(m),
        m.contains_key(target),
        m.contains_key(e),
        e != target,
    ensures
        anchored(with_world_position(m, target, position), e),
{
    lemma_subtree_shift_keeps_others_anchored(
        m,
        target,
        position.spec_minus(m[target].world_position),
        e,
    );
}

/// The registry without entities is coherent.
pub proof fn lemma_empty_is_coherent()
    ensures
        coherent(Map::<u128, TransformView>::empty()),
{
}

/// In a registry whose links agree, every descendant of a registered entity
/// is registered, so a move of the entity succeeds.
pub proof fn lemma_linked_subtree_registered(m: Registry, target: u128)
    requires
        linked(m),
        m.contains_key(target),
    ensures
        crate::entities::transform::subtree_registered(m, target),
{
    assert forall|e: u128| reaches(m, target, e) implies m.contains_key(e) by {
        if e != target {
            lemma_parent_of_descendant(m, target, e);
        }
    }
}

/// Registering a fresh record for an entity that is not registered keeps a
/// coherent registry coherent.
pub proof fn lemma_add_node_keeps_coherence(m: Registry, entity: u128, position: Vector2)
    requires
        coherent(m),
        !m.contains_key(entity),
    ensures
        coherent(m.insert(entity, crate::entities::transform::fresh(position))),
{
    let after = m.insert(entity, crate::entities::transform::fresh(position));
    assert forall|e: u128| m.contains_key(e) implies m[e].parent != Some(entity) by {
        if m[e].parent == Some(entity) {
            assert(child_of(m, e, entity));
        }
    }
    lemma_add_node_keeps_anchors(m, entity, position);
    assert forall|e: u128, p: u128| #[trigger] child_of(after, e, p) implies after.contains_key(p)
        && after[p].children.contains(e) && !reaches(after, e, p) by {
        assert(child_of(m, e, p));
        if reaches(after, e, p) {
            let steps = choose|steps: nat| reaches_in(after, e, p, steps);
            lemma_reaches_monotone(after, m, e, p, steps);
            assert(reaches(m, e, p));
        }
    }
}

/// Attaching a parentless entity under an entity that is not among its
/// descendants keeps a coherent registry coherent.
pub proof fn lemma_attach_child_keeps_coherence(m: Registry, target: u128, child: u128)
    requires
        coherent(m),
        m.contains_key(target),
        m.contains_key(child),
        m[child].parent is None,
        !reaches(m, child, target),
    ensures
        coherent(with_child(m, target, child)),
{
    let after = with_child(m, target, child);
    crate::entities::transform::lemma_reaches_self(m, child);
    assert(target != child);
    lemma_attach_child_keeps_anchors(m, target, child);
    assert forall|e: u128, p: u128| #[trigger] child_of(after, e, p) implies after.contains_key(p)
        && after[p].children.contains(e) && !reaches(after, e, p) by {
        if e != child {
            assert(child_of(m, e, p));
        }
        if reaches(after, e, p) {
            let steps = choose|steps: nat| reaches_in(after, e, p, steps);
            lemma_walk_over_new_link(m, target, child, e, p, steps);
            if e != child {
                assert(!reaches(m, e, p));
                lemma_reaches_child(m, child, p, e);
                lemma_reaches_transitive(m, child, e, target);
            }
        }
    }
    assert forall|p: u128, c: u128|
        after.contains_key(p) && #[trigger] after[p].children.contains(c) implies after.contains_key(
        c,
    ) && after[c].parent == Some(p) by {
        if !(p == target && c == child) {
            assert(m[p].children.contains(c));
            assert(m[c].parent == Some(p));
            assert(c != child);
        }
    }
}

} // verus!
