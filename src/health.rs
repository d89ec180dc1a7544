use crate::actors::ActorDirectory;
use vstd::prelude::*;

verus! {

/// Hit points of an actor. It may drop to zero or below before the actor is removed.
#[derive(PartialEq, Eq, Structural, Copy, Clone, Debug)]
pub struct Health(pub i32);

impl ActorDirectory {
    /// Whether slot `i` holds an actor whose health is gone.
    pub open spec fn is_dead(self, i: int) -> bool {
        self.alive(i) && self.actor(i).health.0 <= 0
    }

    /// `after` is `before` with every dead actor removed; the others keep their slots.
    pub open spec fn despawns(before: Self, after: Self) -> bool {
        &&& after.actors@.len() == before.actors@.len()
        &&& forall|i: int|
            0 <= i < before.actors@.len() ==> #[trigger] after.actors@[i] == if before.is_dead(i) {
                None::<crate::actors::Actor>
            } else {
                before.actors@[i]
            }
    }

    /// Removes every actor whose health has dropped to zero or below; the
    /// others keep their slots.
    pub fn check_health_to_despawn(&mut self)
        ensures
            ActorDirectory::despawns(*old(self), *final(self)),
    {
        let ghost before = *self;
        let mut i: usize = 0;
        while i < self.actors.len()
            invariant
                self.actors@.len() == before.actors@.len(),
                0 <= i <= self.actors@.len(),
                forall|k: int|
                    0 <= k < i ==> #[trigger] self.actors@[k] == if before.is_dead(k) {
                        None::<crate::actors::Actor>
                    } else {
                        before.actors@[k]
                    },
                forall|k: int| i <= k < self.actors@.len() ==> #[trigger] self.actors@[k] == before.actors@[k],
            decreases self.actors@.len() - i,
        {
            let dead = match &self.actors[i] {
                Some(a) => a.health.0 <= 0,
                None => false,
            };
            if dead {
                self.actors.set(i, None);
            }
            i = i + 1;
        }
    }
}

} // verus!
