use wgpu_tensor::autograd::{check_loss_shape, validate_shapes, validate_write, AutogradTracker, Requirement};
use wgpu_tensor::TensorError;

#[test]
fn tracker_follows_trainable_sources_and_dependents() {
    let mut tracker = AutogradTracker::new();
    assert!(!tracker.tracks(1));
    let r = tracker.require(&[10, 11], 1, true);
    assert_eq!(r, Requirement { required: true, register_optimizer: true });
    assert!(tracker.tracks(1) && tracker.tracks(10) && tracker.tracks(11));
    assert!(!tracker.tracks(12));
}

#[test]
fn tracker_registers_optimizer_once() {
    let mut tracker = AutogradTracker::new();
    tracker.require(&[10], 1, true);
    let r = tracker.require(&[20], 1, true);
    assert_eq!(r, Requirement { required: true, register_optimizer: false });
    assert!(tracker.tracks(20));
}

#[test]
fn tracker_follows_through_followed_intermediates() {
    let mut tracker = AutogradTracker::new();
    tracker.require(&[10], 1, true);
    let r = tracker.require(&[30], 10, false);
    assert_eq!(r, Requirement { required: true, register_optimizer: false });
    assert!(tracker.tracks(30));
}

#[test]
fn tracker_ignores_constants() {
    let mut tracker = AutogradTracker::new();
    let r = tracker.require(&[40, 41], 5, false);
    assert_eq!(r, Requirement { required: false, register_optimizer: false });
    assert!(!tracker.tracks(5) && !tracker.tracks(40) && !tracker.tracks(41));
}

#[test]
fn loss_must_be_a_single_value() {
    assert_eq!(check_loss_shape([1; 8]), Ok(()));
    assert_eq!(check_loss_shape([2, 1, 1, 1, 1, 1, 1, 1]), Err(TensorError::InvalidLossShape));
    assert_eq!(check_loss_shape([1, 1, 1, 1, 1, 1, 1, 0]), Err(TensorError::InvalidLossShape));
}

#[test]
fn trainable_writes_are_refused_while_learning() {
    assert_eq!(validate_write(true, true), Err(TensorError::TrainableWriteDuringLearning));
    assert_eq!(validate_write(true, false), Ok(()));
    assert_eq!(validate_write(false, true), Ok(()));
    assert_eq!(validate_write(false, false), Ok(()));
}

#[test]
fn loss_operands_must_agree() {
    assert_eq!(validate_shapes([3, 2, 1, 1, 1, 1, 1, 1], [3, 2, 1, 1, 1, 1, 1, 1]), Ok(()));
    assert_eq!(validate_shapes([3, 2, 1, 1, 1, 1, 1, 1], [2, 3, 1, 1, 1, 1, 1, 1]), Err(TensorError::ShapeMismatch));
}
