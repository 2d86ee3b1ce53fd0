//! A scene: the actors of an application and where they stand.

use crate::entities::actor::ActorManager;
use crate::entities::actor::ActorView;
use crate::entities::transform::TransformManager;
use crate::entities::transform::TransformView;
use vstd::prelude::*;

verus! {

/// The registries of one scene.
#[derive(Debug)]
pub struct Scene {
    pub actor_manager: ActorManager,
    pub transform_manager: TransformManager,
}

impl Scene {
    /// A scene without entities.
    pub fn new() -> (scene: Self)
        ensures
            scene.actor_manager@ == Map::<u128, ActorView>::empty(),
            scene.transform_manager@ == Map::<u128, TransformView>::empty(),
    {
        Scene { actor_manager: ActorManager::new(), transform_manager: TransformManager::new() }
    }
}

} // verus!
