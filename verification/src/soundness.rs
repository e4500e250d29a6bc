//! Telling whether a tree that was put together elsewhere is well formed.
use crate::actor::Actor;
use crate::nodes::{Atom, SiblingsNodes};
use vstd::prelude::*;

verus! {

impl<V: Ord + Clone, A: Actor> SiblingsNodes<V, A> {
    /// Whether the numbers grow from sibling to sibling, here and below.
    pub fn is_sound(&self) -> (r: bool)
        ensures
            r == self.wf(),
        decreases *self,
    {
        let mut i: usize = 0;
        while i < self.slots.len()
            invariant
                i <= self.slots@.len(),
                forall|k: int, l: int|
                    0 <= k < l < i ==> (#[trigger] self.slots@[k]).0 < (
                    #[trigger] self.slots@[l]).0,
                forall|k: int| 0 <= k < i ==> (#[trigger] self.slots@[k]).1.below().wf(),
            decreases self.slots@.len() - i,
        {
            if i > 0 && self.slots[i - 1].0 >= self.slots[i].0 {
                assert(!self.wf());
                return false;
            }
            let fine = match &self.slots[i].1 {
                Atom::Node { payload, children } => children.is_sound(),
                Atom::MajorNode { minis, children } => children.is_sound(),
            };
            if !fine {
                assert(!self.slots@[i as int].1.below().wf());
                assert(!self.wf());
                return false;
            }
            i = i + 1;
        }
        true
    }
}

} // verus!
