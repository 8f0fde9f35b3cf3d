//! The bookkeeping of a learning step: which tensors take part in the
//! gradient computation, and the checks that guard it.

use vstd::prelude::*;
use std::collections::HashSet;

use crate::error::TensorError;
use crate::shape::{Shape, shapes_equal};

verus! {

broadcast use vstd::std_specs::hash::group_hash_axioms;

/// What recording an operation on a source tensor asks for: whether its
/// gradient is needed at all, and whether the source is a trainable tensor
/// seen for the first time, whose optimizer step must then be scheduled.
#[derive(Clone, Copy, Debug, PartialEq, Eq, Structural)]
pub struct Requirement {
    pub required: bool,
    pub register_optimizer: bool,
}

/// Recording an operation on `src` that produced `deps`, with `followed`
/// the tensors followed so far: the requirement, and the tensors followed
/// afterwards. The gradient of `src` is needed when it is trainable or
/// already followed; then `src` and every dependent become followed. A
/// trainable source not followed before gets its optimizer step scheduled.
pub open spec fn spec_require(followed: Set<u64>, deps: Seq<u64>, src: u64, trainable: bool) -> (Requirement, Set<u64>) {
    let required = trainable || followed.contains(src);
    (
        Requirement { required, register_optimizer: trainable && !followed.contains(src) },
        if required { followed.insert(src).union(deps.to_set()) } else { followed },
    )
}

/// Recording never forgets a followed tensor; and once an operation on a
/// trainable tensor is recorded, every later operation on it needs its
/// gradient and schedules no second optimizer step.
pub proof fn lemma_optimizer_scheduled_once(
    followed: Set<u64>,
    first: Seq<u64>,
    second: Seq<u64>,
    src: u64,
    trainable: bool,
)
    ensures
        followed.subset_of(spec_require(followed, first, src, trainable).1),
        ({
            let after = spec_require(followed, first, src, true).1;
            let (r, _) = spec_require(after, second, src, trainable);
            r.required && !r.register_optimizer
        }),
{
}

/// The tensors (by identity) whose gradients a learning step computes.
pub struct AutogradTracker {
    members: HashSet<u64>,
}

impl AutogradTracker {
    /// The identities of the followed tensors.
    pub closed spec fn view(&self) -> Set<u64> {
        self.members@
    }

    /// A tracker that follows nothing.
    pub fn new() -> (r: AutogradTracker)
        ensures
            r.view() == Set::<u64>::empty(),
    {
        AutogradTracker { members: HashSet::new() }
    }

    /// Whether `tensor` is followed.
    pub fn tracks(&self, tensor: u64) -> (r: bool)
        ensures
            r == self.view().contains(tensor),
    {
        self.members.contains(&tensor)
    }

    /// Records that the tensors `deps` were computed from `src`. The
    /// gradient of `src` is needed when it is trainable or already followed;
    /// then `src` and every dependent become followed. A trainable source not
    /// followed before gets its optimizer step scheduled.
    pub fn require(&mut self, deps: &[u64], src: u64, trainable: bool) -> (r: Requirement)
        ensures
            (r, final(self).view()) == spec_require(old(self).view(), deps@, src, trainable),
    {
        let known = self.members.contains(&src);
        let register_optimizer = trainable && !known;
        if trainable || known {
            let ghost before = self.view();
            self.members.insert(src);
            let mut i: usize = 0;
            while i < deps.len()
                invariant
                    i <= deps@.len(),
                    self.view() == before.insert(src).union(deps@.take(i as int).to_set()),
                decreases deps@.len() - i,
            {
                self.members.insert(deps[i]);
                assert(deps@.take(i + 1) =~= deps@.take(i as int).push(deps[i as int]));
                assert forall|a: u64| deps@.take(i + 1).contains(a)
                    <==> deps@.take(i as int).contains(a) || a == deps[i as int] by {
                    if deps@.take(i + 1).contains(a) {
                        let k = choose|k: int| 0 <= k < i + 1 && #[trigger] deps@.take(i + 1)[k] == a;
                        if k < i {
                            assert(deps@.take(i as int)[k] == a);
                        }
                    }
                    if deps@.take(i as int).contains(a) {
                        let k = choose|k: int| 0 <= k < i && #[trigger] deps@.take(i as int)[k] == a;
                        assert(deps@.take(i + 1)[k] == a);
                    }
                    if a == deps[i as int] {
                        assert(deps@.take(i + 1)[i as int] == a);
                    }
                }
                assert forall|a: u64| #[trigger] deps@.take(i + 1).to_set().contains(a)
                    == deps@.take(i as int).to_set().insert(deps[i as int]).contains(a) by {
                    assert(deps@.take(i + 1).to_set().contains(a) == deps@.take(i + 1).contains(a));
                    assert(deps@.take(i as int).to_set().contains(a) == deps@.take(i as int).contains(a));
                }
                assert(deps@.take(i + 1).to_set() =~= deps@.take(i as int).to_set().insert(deps[i as int]));
                assert(self.view() =~= before.insert(src).union(deps@.take(i + 1).to_set()));
                i = i + 1;
            }
            assert(deps@.take(deps@.len() as int) =~= deps@);
            Requirement { required: true, register_optimizer }
        } else {
            Requirement { required: false, register_optimizer }
        }
    }
}

/// A loss must be a single value: shape `[1; 8]`, else `InvalidLossShape`.
pub fn check_loss_shape(shape: Shape) -> (r: Result<(), TensorError>)
    ensures
        r == if shape@ == seq![1u32, 1u32, 1u32, 1u32, 1u32, 1u32, 1u32, 1u32] {
            Ok::<(), TensorError>(())
        } else {
            Err(TensorError::InvalidLossShape)
        },
{
    let unit: Shape = [1, 1, 1, 1, 1, 1, 1, 1];
    assert(unit@ =~= seq![1u32, 1u32, 1u32, 1u32, 1u32, 1u32, 1u32, 1u32]);
    if shapes_equal(&shape, &unit) {
        Ok(())
    } else {
        Err(TensorError::InvalidLossShape)
    }
}

/// Writing into a tensor from the host: refused for a trainable tensor
/// while a learning step records (`TrainableWriteDuringLearning`).
pub fn validate_write(learning: bool, trainable: bool) -> (r: Result<(), TensorError>)
    ensures
        r == if learning && trainable {
            Err::<(), TensorError>(TensorError::TrainableWriteDuringLearning)
        } else {
            Ok(())
        },
{
    if learning && trainable {
        Err(TensorError::TrainableWriteDuringLearning)
    } else {
        Ok(())
    }
}

/// A loss compares a prediction with a target of the same shape, else
/// `ShapeMismatch`.
pub fn validate_shapes(prediction: Shape, target: Shape) -> (r: Result<(), TensorError>)
    ensures
        r == if prediction@ == target@ {
            Ok::<(), TensorError>(())
        } else {
            Err(TensorError::ShapeMismatch)
        },
{
    if shapes_equal(&prediction, &target) {
        Ok(())
    } else {
        Err(TensorError::ShapeMismatch)
    }
}

} // verus!
