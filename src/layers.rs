use vstd::prelude::*;
use crate::features::{Order, FEATURE_SIZE, NUM_FEATURES};
use crate::geometry::CELLS;

verus! {

/// A network layer that copies a feature tensor from one memory layout into another.
pub struct Transform;

impl Transform {
    pub fn new() -> Transform {
        Transform
    }

    /// Returns `input`, stored in the layout `I`, rearranged into the layout `O`.
    pub fn forward<I: Order, O: Order>(&self, input: &Vec<u8>) -> (output: Vec<u8>)
        requires
            input@.len() == FEATURE_SIZE,
        ensures
            output@.len() == FEATURE_SIZE,
            forall|c: int, i: int|
                0 <= c < NUM_FEATURES && 0 <= i < CELLS ==> #[trigger] output@[O::position(c, i)] == input@[I::position(c, i)],
    {
        let mut output: Vec<u8> = Vec::new();
        while output.len() < FEATURE_SIZE
            invariant
                output@.len() <= FEATURE_SIZE,
            decreases FEATURE_SIZE - output@.len(),
        {
            output.push(0);
        }
        let mut i: usize = 0;
        while i < CELLS
            invariant
                i <= CELLS,
                input@.len() == FEATURE_SIZE,
                output@.len() == FEATURE_SIZE,
                forall|d: int, k: int|
                    0 <= d < NUM_FEATURES && 0 <= k < i ==> #[trigger] output@[O::position(d, k)] == input@[I::position(d, k)],
            decreases CELLS - i,
        {
            let mut c: usize = 0;
            while c < NUM_FEATURES
                invariant
                    i < CELLS,
                    c <= NUM_FEATURES,
                    input@.len() == FEATURE_SIZE,
                    output@.len() == FEATURE_SIZE,
                    forall|d: int, k: int|
                        0 <= d < NUM_FEATURES && 0 <= k < i ==> #[trigger] output@[O::position(d, k)] == input@[I::position(d, k)],
                    forall|d: int| 0 <= d < c ==> #[trigger] output@[O::position(d, i as int)] == input@[I::position(d, i as int)],
                decreases NUM_FEATURES - c,
            {
                let from = I::index(c, i);
                let to = O::index(c, i);
                proof {
                    I::lemma_position_injective(c as int, i as int, c as int, i as int);
                    O::lemma_position_injective(c as int, i as int, c as int, i as int);
                }
                let ghost before = output@;
                output.set(to, input[from]);
                proof {
                    assert forall|d: int, k: int|
                        0 <= d < NUM_FEATURES && 0 <= k < i implies #[trigger] output@[O::position(d, k)]
                            == input@[I::position(d, k)] by {
                        O::lemma_position_injective(d, k, c as int, i as int);
                        assert(before[O::position(d, k)] == input@[I::position(d, k)]);
                    }
                    assert forall|d: int| 0 <= d <= c implies #[trigger] output@[O::position(d, i as int)]
                        == input@[I::position(d, i as int)] by {
                        O::lemma_position_injective(d, i as int, c as int, i as int);
                        if d < c {
                            assert(before[O::position(d, i as int)] == input@[I::position(d, i as int)]);
                        }
                    }
                }
                c = c + 1;
            }
            i = i + 1;
        }
        output
    }
}

} // verus!
