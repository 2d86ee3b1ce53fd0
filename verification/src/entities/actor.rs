//! Named actors and the registry that holds them by entity.

use crate::entities::entity::Entity;
use crate::entities::transform::missing;
use crate::entities::transform::NotFound;
use crate::entities::transform::Role;
use std::collections::HashMap;
use vstd::prelude::*;

verus! {

broadcast use vstd::std_specs::hash::group_hash_axioms;

/// What an actor holds, as plain mathematical values.
pub ghost struct ActorView {
    pub entity: u128,
    pub name: Seq<char>,
}

/// An entity together with the name it goes by.
#[derive(Debug)]
pub struct Actor {
    entity: Entity,
    name: String,
}

impl View for Actor {
    type V = ActorView;

    closed spec fn view(&self) -> ActorView {
        ActorView { entity: self.entity@, name: self.name@ }
    }
}

impl Actor {
    /// The actor for `entity` called `name`.
    pub fn new(entity: Entity, name: String) -> (actor: Self)
        ensures
            actor@ == (ActorView { entity: entity@, name: name@ }),
    {
        Actor { entity, name }
    }

    /// The entity of this actor.
    pub fn entity(&self) -> (e: Entity)
        ensures
            e@ == self@.entity,
    {
        self.entity
    }

    /// The name of this actor.
    pub fn name(&self) -> (name: &String)
        ensures
            name@ == self@.name,
    {
        &self.name
    }
}

/// Owns the actors of all registered entities.
#[derive(Debug)]
pub struct ActorManager {
    pub nodes: HashMap<u128, Actor>,
}

impl View for ActorManager {
    type V = Map<u128, ActorView>;

    open spec fn view(&self) -> Map<u128, ActorView> {
        Map::new(|e: u128| self.nodes@.contains_key(e), |e: u128| self.nodes@[e]@)
    }
}

impl ActorManager {
    /// An empty registry.
    pub fn new() -> (manager: Self)
        ensures
            manager@ == Map::<u128, ActorView>::empty(),
    {
        let manager = ActorManager { nodes: HashMap::new() };
        assert(manager@ =~= Map::<u128, ActorView>::empty());
        manager
    }

    /// Registers `node_actor` under its entity and returns that entity. An
    /// actor already held for the entity is replaced.
    pub fn add_node(&mut self, node_actor: Actor) -> (entity: Entity)
        ensures
            entity@ == node_actor@.entity,
            final(self)@ == old(self)@.insert(node_actor@.entity, node_actor@),
    {
        let node_entity = node_actor.entity;
        self.nodes.insert(node_entity.0, node_actor);
        assert(self@ =~= old(self)@.insert(node_actor@.entity, node_actor@));
        node_entity
    }

    /// Unregisters the actor of `target`.
    pub fn remove_node(&mut self, target: Entity) -> (r: Result<(), NotFound>)
        ensures
            r is Ok <==> old(self)@.contains_key(target@),
            r is Ok ==> final(self)@ == old(self)@.remove(target@),
            r matches Err(e) ==> e == missing(Role::Target, target@) && final(self)@ == old(self)@,
    {
        match self.nodes.remove(&target.0) {
            Some(_) => {
                assert(self@ =~= old(self)@.remove(target@));
                Ok(())
            },
            None => {
                assert(self@ =~= old(self)@);
                Err(NotFound { role: Role::Target, entity: target })
            },
        }
    }
}

} // verus!
