//! A world: a list of borrowed actors to which an actor is added only under
//! a name that no actor of the list bears.

use crate::entities::actor::Actor;
use crate::entities::actor::ActorView;
use vstd::prelude::*;

verus! {

/// Some actor of `actors` is called `name`.
pub open spec fn named(actors: Seq<ActorView>, name: Seq<char>) -> bool {
    exists|i: int| 0 <= i < actors.len() && (#[trigger] actors[i]).name == name
}

/// The actor at `i` is the first of `actors` called `name`.
pub open spec fn first_named(actors: Seq<ActorView>, name: Seq<char>, i: int) -> bool {
    &&& 0 <= i < actors.len()
    &&& actors[i].name == name
    &&& forall|j: int| 0 <= j < i ==> (#[trigger] actors[j]).name != name
}

/// No two actors of `actors` share a name.
pub open spec fn distinct_names(actors: Seq<ActorView>) -> bool {
    forall|i: int, j: int|
        0 <= i < j < actors.len() ==> (#[trigger] actors[i]).name != (#[trigger] actors[j]).name
}

/// The actors of an application, in the order they were added.
#[derive(Debug)]
pub struct World<'a> {
    pub actors: Vec<&'a mut Actor>,
}

impl<'a> View for World<'a> {
    type V = Seq<ActorView>;

    open spec fn view(&self) -> Seq<ActorView> {
        Seq::new(self.actors@.len(), |i: int| (*self.actors@[i])@)
    }
}

impl<'a> World<'a> {
    /// A world without actors.
    pub fn new() -> (world: Self)
        ensures
            world@ == Seq::<ActorView>::empty(),
    {
        let world = World { actors: Vec::new() };
        assert(world@ =~= Seq::<ActorView>::empty());
        world
    }

    /// The index of the first actor called `name`.
    fn find(&self, name: &String) -> (r: Option<usize>)
        ensures
            r is Some <==> named(self@, name@),
            r matches Some(i) ==> first_named(self@, name@, i as int),
    {
        let mut i: usize = 0;
        while i < self.actors.len()
            invariant
                i <= self.actors.len(),
                forall|j: int| 0 <= j < i ==> (#[trigger] self@[j]).name != name@,
            decreases self.actors.len() - i,
        {
            if *self.actors[i].name() == *name {
                assert(self@[i as int].name == name@);
                return Some(i);
            }
            i += 1;
        }
        None
    }

    /// Adds `actor` at the end, unless an actor of its name is there
    /// already.
    pub fn add_actor(&mut self, actor: &'a mut Actor)
        ensures
            final(self)@ == if named(old(self)@, old(actor)@.name) {
                old(self)@
            } else {
                old(self)@.push(old(actor)@)
            },
            distinct_names(old(self)@) ==> distinct_names(final(self)@),
    {
        if self.find(actor.name()).is_none() {
            self.actors.push(actor);
            assert(self@ =~= old(self)@.push(old(actor)@));
        }
    }

    /// Removes the first actor called `name`, if there is one.
    pub fn remove_actor(&mut self, name: String)
        ensures
            !named(old(self)@, name@) ==> final(self)@ == old(self)@,
            named(old(self)@, name@) ==> exists|i: int|
                first_named(old(self)@, name@, i) && final(self)@ == old(self)@.remove(i),
            distinct_names(old(self)@) ==> distinct_names(final(self)@) && !named(
                final(self)@,
                name@,
            ),
    {
        if let Some(index) = self.find(&name) {
            self.actors.remove(index);
            proof {
                assert(self@ =~= old(self)@.remove(index as int));
                assert(first_named(old(self)@, name@, index as int));
                if distinct_names(old(self)@) {
                    assert forall|j: int| 0 <= j < self@.len() implies (#[trigger] self@[j]).name
                        != name@ by {
                        if j < index {
                            assert(old(self)@[j].name != name@);
                        } else {
                            assert(old(self)@[j + 1].name != old(self)@[index as int].name);
                        }
                    }
                }
            }
        }
    }

    /// The place of the first actor called `name`, if there is one. What
    /// the caller leaves in that place is what the world holds there
    /// afterwards; the rest of the list stays.
    pub fn get_actor_by_name(&mut self, name: String) -> (r: Option<&mut &'a mut Actor>)
        ensures
            r is Some <==> named(old(self)@, name@),
            r matches Some(slot) ==> exists|i: int|
                first_named(old(self)@, name@, i) && (**slot)@ == old(self)@[i]
                    && final(self).actors@ == old(self).actors@.update(i, *final(slot)),
            r is None ==> final(self).actors@ == old(self).actors@,
    {
        match self.find(&name) {
            Some(index) => Some(&mut self.actors[index]),
            None => None,
        }
    }
}

} // verus!
