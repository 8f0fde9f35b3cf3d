use wgpu_tensor::params::{ReductionOperation, ReductionParameters};
use wgpu_tensor::reduction::{
    cluster_shift, first_difference_index, mean_plan, reduction_pass, reduction_plan, ReductionPlan,
};
use wgpu_tensor::TensorError;

#[test]
fn cluster_shift_values() {
    assert_eq!(cluster_shift(0), 1);
    assert_eq!(cluster_shift(1), 1);
    assert_eq!(cluster_shift(2), 1);
    assert_eq!(cluster_shift(3), 2);
    assert_eq!(cluster_shift(4), 2);
    assert_eq!(cluster_shift(5), 3);
    assert_eq!(cluster_shift(100), 7);
    assert_eq!(cluster_shift(128), 7);
    assert_eq!(cluster_shift(129), 8);
    assert_eq!(cluster_shift(256), 8);
    assert_eq!(cluster_shift(1000), 8);
    assert_eq!(cluster_shift(u32::MAX), 8);
}

#[test]
fn reduction_pass_example() {
    let pass = reduction_pass(ReductionOperation::SUM, [10, 1000, 1, 1, 1, 1, 1, 1], 1).unwrap();
    assert_eq!(
        pass.params,
        ReductionParameters {
            operation: ReductionOperation::SUM,
            cluster_shift: 8,
            inner_size: 10,
            reduction_size: 1000,
            outer_size: 1,
        }
    );
    assert_eq!(pass.output_shape, [10, 4, 1, 1, 1, 1, 1, 1]);
    assert_eq!(pass.bucket, 256);
    assert_eq!(pass.workgroups, Some((40, 1, 1)));
}

#[test]
fn reduction_pass_outer_extent() {
    let pass = reduction_pass(ReductionOperation::MAXIMUM, [3, 5, 7, 2, 1, 1, 1, 1], 1).unwrap();
    assert_eq!(pass.params.inner_size, 3);
    assert_eq!(pass.params.reduction_size, 5);
    assert_eq!(pass.params.outer_size, 14);
    assert_eq!(pass.params.cluster_shift, 3);
    assert_eq!(pass.output_shape, [3, 1, 7, 2, 1, 1, 1, 1]);
    // 42 clusters, 32 per workgroup
    assert_eq!(pass.workgroups, Some((2, 1, 1)));
}

#[test]
fn reduction_pass_refuses_oversized_extents() {
    let r = reduction_pass(ReductionOperation::SUM, [65536, 65536, 2, 1, 1, 1, 1, 1], 2);
    assert!(matches!(r, Err(TensorError::OversizedDispatch)));
    let r = reduction_pass(ReductionOperation::SUM, [2, 65536, 65536, 1, 1, 1, 1, 1], 0);
    assert!(matches!(r, Err(TensorError::OversizedDispatch)));
}

#[test]
fn reduction_plan_chains_passes_until_target() {
    let plan = reduction_plan(ReductionOperation::SUM, [10, 1000, 1, 1, 1, 1, 1, 1], &[1]).unwrap();
    let passes = match plan {
        ReductionPlan::Passes(p) => p,
        ReductionPlan::Copy => panic!("expected passes"),
    };
    assert_eq!(passes.len(), 2);
    assert_eq!(passes[0].output_shape, [10, 4, 1, 1, 1, 1, 1, 1]);
    assert_eq!(passes[1].output_shape, [10, 1, 1, 1, 1, 1, 1, 1]);
    assert_eq!(passes[1].params.reduction_size, 4);
    assert_eq!(passes[1].params.cluster_shift, 2);
    assert_eq!(passes[1].workgroups, Some((1, 1, 1)));
}

#[test]
fn reduction_plan_over_several_dimensions() {
    let plan = reduction_plan(ReductionOperation::PRODUCT, [6, 1, 300, 2, 1, 1, 1, 1], &[0, 2]).unwrap();
    let passes = match plan {
        ReductionPlan::Passes(p) => p,
        ReductionPlan::Copy => panic!("expected passes"),
    };
    let shapes: Vec<[u32; 8]> = passes.iter().map(|p| p.output_shape).collect();
    assert_eq!(
        shapes,
        vec![
            [1, 1, 300, 2, 1, 1, 1, 1],
            [1, 1, 2, 2, 1, 1, 1, 1],
            [1, 1, 1, 2, 1, 1, 1, 1],
        ]
    );
    assert!(passes.iter().all(|p| p.params.operation == ReductionOperation::PRODUCT));
}

#[test]
fn reduction_plan_copy_when_nothing_to_reduce() {
    let plan = reduction_plan(ReductionOperation::MINIMUM, [10, 1, 1, 1, 1, 1, 1, 1], &[1, 3]).unwrap();
    assert!(matches!(plan, ReductionPlan::Copy));
    let plan = reduction_plan(ReductionOperation::MINIMUM, [10, 4, 1, 1, 1, 1, 1, 1], &[]).unwrap();
    assert!(matches!(plan, ReductionPlan::Copy));
}

#[test]
fn reduction_plan_refuses_bad_index() {
    let r = reduction_plan(ReductionOperation::SUM, [10, 4, 1, 1, 1, 1, 1, 1], &[0, 8]);
    assert!(matches!(r, Err(TensorError::IndexOutOfBounds)));
}

#[test]
fn reduction_plan_of_empty_dimension() {
    let plan = reduction_plan(ReductionOperation::SUM, [0, 3, 1, 1, 1, 1, 1, 1], &[0]).unwrap();
    let passes = match plan {
        ReductionPlan::Passes(p) => p,
        ReductionPlan::Copy => panic!("expected passes"),
    };
    assert_eq!(passes.len(), 1);
    assert_eq!(passes[0].output_shape, [1, 3, 1, 1, 1, 1, 1, 1]);
    assert_eq!(passes[0].params.reduction_size, 0);
}

#[test]
fn first_difference_index_finds_first() {
    assert_eq!(first_difference_index(&[1, 2, 3, 4, 5, 6, 7, 8], &[1, 2, 0, 4, 0, 6, 7, 8]), Some(2));
    assert_eq!(first_difference_index(&[1; 8], &[1; 8]), None);
    assert_eq!(first_difference_index(&[1; 8], &[1, 1, 1, 1, 1, 1, 1, 2]), Some(7));
}

#[test]
fn mean_plan_counts_averaged_elements() {
    assert_eq!(mean_plan([4, 6, 1, 1, 1, 1, 1, 1], &[0, 1]), Ok(([1, 1, 1, 1, 1, 1, 1, 1], 24)));
    assert_eq!(mean_plan([4, 6, 1, 1, 1, 1, 1, 1], &[1]), Ok(([4, 1, 1, 1, 1, 1, 1, 1], 6)));
    assert_eq!(mean_plan([4, 6, 1, 1, 1, 1, 1, 1], &[0, 0]), Ok(([1, 6, 1, 1, 1, 1, 1, 1], 4)));
    assert_eq!(mean_plan([4, 6, 1, 1, 1, 1, 1, 1], &[]), Ok(([4, 6, 1, 1, 1, 1, 1, 1], 1)));
    assert_eq!(mean_plan([4, 6, 1, 1, 1, 1, 1, 1], &[9]), Err(TensorError::IndexOutOfBounds));
    assert_eq!(
        mean_plan([65536, 65536, 1, 1, 1, 1, 1, 1], &[0, 1]),
        Err(TensorError::OversizedDispatch)
    );
}
