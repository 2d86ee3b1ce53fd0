//! A list of observers to call when something happened.

use vstd::prelude::*;

verus! {

/// Holds the observers that subscribed, in the order they did.
pub struct Observable<F: Fn()> {
    observers: Vec<F>,
}

impl<F: Fn()> View for Observable<F> {
    type V = Seq<F>;

    closed spec fn view(&self) -> Seq<F> {
        self.observers@
    }
}

impl<F: Fn()> Observable<F> {
    /// An observable without observers.
    pub fn new() -> (o: Self)
        ensures
            o@ == Seq::<F>::empty(),
    {
        Observable { observers: Vec::new() }
    }

    /// Adds `observer` after those that subscribed before.
    pub fn subscribe(&mut self, observer: F)
        ensures
            final(self)@ == old(self)@.push(observer),
    {
        self.observers.push(observer)
    }

    /// How many observers have subscribed.
    pub fn len(&self) -> (n: usize)
        ensures
            n == self@.len(),
    {
        self.observers.len()
    }

    /// Calls every observer once, in the order they subscribed. Each must be
    /// callable.
    pub fn notify(&self)
        requires
            forall|i: int| 0 <= i < self@.len() ==> call_requires(#[trigger] self@[i], ()),
        ensures
            forall|i: int| 0 <= i < self@.len() ==> call_ensures(#[trigger] self@[i], (), ()),
    {
        let mut i: usize = 0;
        while i < self.observers.len()
            invariant
                i <= self.observers.len(),
                forall|j: int| 0 <= j < self@.len() ==> call_requires(#[trigger] self@[j], ()),
                forall|j: int| 0 <= j < i ==> call_ensures(#[trigger] self@[j], (), ()),
            decreases self.observers.len() - i,
        {
            let observer = &self.observers[i];
            assert(call_requires(self@[i as int], ()));
            observer();
            i += 1;
        }
    }
}

} // verus!
