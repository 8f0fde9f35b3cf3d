use wgpu_tensor::indices::{AllDimensions, IntoIndices, ShapeDiff};
use wgpu_tensor::params::{BinaryOperation, ReductionOperation, UnaryOperation};
use wgpu_tensor::shape::{shapes_equal, IntoShape, Shape};

#[test]
fn shapes_from_leading_sizes() {
    assert_eq!(5u32.shape(), [5, 1, 1, 1, 1, 1, 1, 1]);
    assert_eq!((5u32,).shape(), [5, 1, 1, 1, 1, 1, 1, 1]);
    assert_eq!((2u32, 3u32).shape(), [2, 3, 1, 1, 1, 1, 1, 1]);
    assert_eq!((2u32, 3u32, 4u32).shape(), [2, 3, 4, 1, 1, 1, 1, 1]);
    assert_eq!((2u32, 3u32, 4u32, 5u32).shape(), [2, 3, 4, 5, 1, 1, 1, 1]);
    assert_eq!((2u32, 3u32, 4u32, 5u32, 6u32).shape(), [2, 3, 4, 5, 6, 1, 1, 1]);
    assert_eq!((2u32, 3u32, 4u32, 5u32, 6u32, 7u32).shape(), [2, 3, 4, 5, 6, 7, 1, 1]);
    assert_eq!((2u32, 3u32, 4u32, 5u32, 6u32, 7u32, 8u32).shape(), [2, 3, 4, 5, 6, 7, 8, 1]);
    assert_eq!((2u32, 3u32, 4u32, 5u32, 6u32, 7u32, 8u32, 9u32).shape(), [2, 3, 4, 5, 6, 7, 8, 9]);
    let full: Shape = [9, 8, 7, 6, 5, 4, 3, 2];
    assert_eq!(full.shape(), full);
}

#[test]
fn shapes_equal_compares_every_size() {
    assert!(shapes_equal(&[1, 2, 3, 4, 5, 6, 7, 8], &[1, 2, 3, 4, 5, 6, 7, 8]));
    assert!(!shapes_equal(&[1, 2, 3, 4, 5, 6, 7, 8], &[1, 2, 3, 4, 5, 6, 7, 9]));
    assert!(!shapes_equal(&[0; 8], &[1; 8]));
}

#[test]
fn indices_from_values() {
    assert_eq!(3usize.indices(), vec![3]);
    assert_eq!((4usize,).indices(), vec![4]);
    assert_eq!((1usize, 2usize).indices(), vec![1, 2]);
    assert_eq!((0usize, 5usize, 2usize).indices(), vec![0, 5, 2]);
    assert_eq!((1usize, 1usize, 2usize, 3usize).indices(), vec![1, 1, 2, 3]);
    assert_eq!((7usize, 6usize, 5usize, 4usize, 3usize).indices(), vec![7, 6, 5, 4, 3]);
    assert_eq!((0usize, 1usize, 2usize, 3usize, 4usize, 5usize).indices(), vec![0, 1, 2, 3, 4, 5]);
    assert_eq!((0usize, 1usize, 2usize, 3usize, 4usize, 5usize, 6usize).indices(), vec![0, 1, 2, 3, 4, 5, 6]);
    assert_eq!(
        (0usize, 1usize, 2usize, 3usize, 4usize, 5usize, 6usize, 7usize).indices(),
        vec![0, 1, 2, 3, 4, 5, 6, 7]
    );
    assert_eq!(AllDimensions.indices(), vec![0, 1, 2, 3, 4, 5, 6, 7]);
}

#[test]
fn shape_diff_lists_differing_dimensions() {
    let diff = ShapeDiff::new([1, 3, 1, 5, 1, 1, 1, 1], [2, 3, 4, 5, 1, 1, 1, 6]);
    assert_eq!(diff.lhs, [1, 3, 1, 5, 1, 1, 1, 1]);
    assert_eq!(diff.rhs, [2, 3, 4, 5, 1, 1, 1, 6]);
    assert_eq!(diff.indices(), vec![0, 2, 7]);
    assert_eq!(ShapeDiff::new([1; 8], [1; 8]).indices(), Vec::<usize>::new());
}

#[test]
fn operation_codes() {
    let binary = [
        BinaryOperation::ADD,
        BinaryOperation::SUBTRACT,
        BinaryOperation::MULTIPLY,
        BinaryOperation::DIVIDE,
        BinaryOperation::POWER,
        BinaryOperation::MINIMUM,
        BinaryOperation::MAXIMUM,
        BinaryOperation::REMAINDER,
        BinaryOperation::EQUAL,
    ];
    for (i, op) in binary.iter().enumerate() {
        assert_eq!(op.code(), i as u32);
    }
    let unary = [
        UnaryOperation::NEGATE,
        UnaryOperation::ABSOLUTE,
        UnaryOperation::RECIPROCAL,
        UnaryOperation::SQUARE_ROOT,
        UnaryOperation::RECIPROCAL_SQUARE_ROOT,
        UnaryOperation::EXPONENTIAL,
        UnaryOperation::LOGARITHM,
        UnaryOperation::COPY,
        UnaryOperation::SIGN,
    ];
    for (i, op) in unary.iter().enumerate() {
        assert_eq!(op.code(), i as u32);
    }
    let reduction = [
        ReductionOperation::SUM,
        ReductionOperation::PRODUCT,
        ReductionOperation::MINIMUM,
        ReductionOperation::MAXIMUM,
    ];
    for (i, op) in reduction.iter().enumerate() {
        assert_eq!(op.code(), i as u32);
    }
}
