use wgpu_tensor::fastdiv::FastDivU32;
use wgpu_tensor::params::{BinaryOperation, UnaryOperation, UnaryParameters};
use wgpu_tensor::plans::{
    binary_plan, broadcast_plan, element_count, initialization_launch, lhs_gradient_product, matmul_plan,
    optimization_launch, rhs_gradient_product, unary_plan, GradientProduct,
};
use wgpu_tensor::TensorError;

fn div(d: u32, data: u32) -> (u32, u32, u32, u32) {
    let f = FastDivU32::create_div(d);
    (f.divisor, f.magic, f.shift, data)
}

fn word(f: &FastDivU32) -> (u32, u32, u32, u32) {
    (f.divisor, f.magic, f.shift, f.data)
}

#[test]
fn element_count_multiplies_sizes() {
    assert_eq!(element_count([2, 3, 4, 1, 1, 1, 1, 1], TensorError::OversizedTensor), Ok(24));
    assert_eq!(element_count([0, 70000, 70000, 1, 1, 1, 1, 1], TensorError::OversizedTensor), Ok(0));
    assert_eq!(
        element_count([65536, 65536, 1, 1, 1, 1, 1, 1], TensorError::OversizedDispatch),
        Err(TensorError::OversizedDispatch)
    );
    // a partial product that overflows fails even if a later size is zero
    assert_eq!(
        element_count([70000, 70000, 0, 1, 1, 1, 1, 1], TensorError::OversizedTensor),
        Err(TensorError::OversizedTensor)
    );
}

#[test]
fn unary_plan_small_tensor() {
    let plan = unary_plan(UnaryOperation::EXPONENTIAL, [1000, 1, 1, 1, 1, 1, 1, 1]).unwrap();
    assert_eq!(plan.output_shape, [1000, 1, 1, 1, 1, 1, 1, 1]);
    assert_eq!(plan.bucket, 4096);
    let launch = plan.launch.unwrap();
    assert_eq!(launch.params, UnaryParameters { length: 1000, operation: UnaryOperation::EXPONENTIAL });
    assert_eq!(launch.workgroups, (4, 1, 1));
}

#[test]
fn unary_plan_large_tensor_uses_square_grid() {
    let plan = unary_plan(UnaryOperation::NEGATE, [4096, 4096, 1, 1, 1, 1, 1, 1]).unwrap();
    assert_eq!(plan.bucket, 67_108_864);
    let launch = plan.launch.unwrap();
    assert_eq!(launch.params.length, 16_777_216);
    assert_eq!(launch.workgroups, (256, 256, 1));
}

#[test]
fn unary_plan_empty_tensor_has_no_launch() {
    let plan = unary_plan(UnaryOperation::COPY, [0, 5, 1, 1, 1, 1, 1, 1]).unwrap();
    assert_eq!(plan.bucket, 256);
    assert!(plan.launch.is_none());
}

#[test]
fn unary_plan_refuses_oversized_tensor() {
    let r = unary_plan(UnaryOperation::SIGN, [65536, 65536, 1, 1, 1, 1, 1, 1]);
    assert!(matches!(r, Err(TensorError::OversizedTensor)));
}

#[test]
fn binary_plan_broadcasts_shapes() {
    let plan = binary_plan(BinaryOperation::ADD, [2, 3, 1, 1, 1, 1, 1, 1], [2, 1, 1, 1, 1, 1, 1, 1]).unwrap();
    assert_eq!(plan.output_shape, [2, 3, 1, 1, 1, 1, 1, 1]);
    assert_eq!(plan.bucket, 256);
    let launch = plan.launch.unwrap();
    assert_eq!(launch.params.length, 6);
    assert_eq!(launch.params.operation, BinaryOperation::ADD);
    assert_eq!((launch.params.pad0, launch.params.pad1), (0, 0));
    assert_eq!(word(&launch.params.info.divisions[0]), div(2, 2));
    assert_eq!(word(&launch.params.info.divisions[1]), div(3, 3 | (1 << 16)));
    assert_eq!(launch.workgroups, (1, 1, 1));
}

#[test]
fn binary_plan_output_takes_larger_sizes() {
    let plan = binary_plan(BinaryOperation::MULTIPLY, [1, 5, 1, 1, 1, 1, 1, 1], [4, 1, 1, 1, 1, 1, 1, 3]).unwrap();
    assert_eq!(plan.output_shape, [4, 5, 1, 1, 1, 1, 1, 3]);
    assert_eq!(plan.launch.unwrap().params.length, 60);
}

#[test]
fn binary_plan_refuses_mismatched_shapes() {
    let r = binary_plan(BinaryOperation::SUBTRACT, [2, 1, 1, 1, 1, 1, 1, 1], [3, 1, 1, 1, 1, 1, 1, 1]);
    assert!(matches!(r, Err(TensorError::ShapeMismatch)));
}

#[test]
fn binary_plan_refuses_oversized_output() {
    let r = binary_plan(BinaryOperation::ADD, [65536, 1, 1, 1, 1, 1, 1, 1], [1, 65536, 1, 1, 1, 1, 1, 1]);
    assert!(matches!(r, Err(TensorError::OversizedDispatch)));
}

#[test]
fn binary_plan_empty_output_has_no_launch() {
    let plan = binary_plan(BinaryOperation::EQUAL, [0, 1, 1, 1, 1, 1, 1, 1], [1, 1, 1, 1, 1, 1, 1, 1]).unwrap();
    assert_eq!(plan.output_shape, [0, 1, 1, 1, 1, 1, 1, 1]);
    assert!(plan.launch.is_none());
}

#[test]
fn broadcast_plan_expands_source() {
    let plan = broadcast_plan([1, 3, 1, 1, 1, 1, 1, 1], [2, 3, 1, 1, 1, 1, 1, 1]).unwrap();
    assert_eq!(plan.output_shape, [2, 3, 1, 1, 1, 1, 1, 1]);
    assert_eq!(plan.bucket, 256);
    let launch = plan.launch.unwrap();
    assert_eq!(launch.params.length, 6);
    assert_eq!((launch.params.pad0, launch.params.pad1, launch.params.pad2), (0, 0, 0));
    assert_eq!(word(&launch.params.info.divisions[0]), div(2, 2));
    assert_eq!(word(&launch.params.info.divisions[1]), div(3, 2 | (3 << 16)));
    assert_eq!(launch.workgroups, (1, 1, 1));
}

#[test]
fn broadcast_plan_refuses_shrinking() {
    let r = broadcast_plan([2, 1, 1, 1, 1, 1, 1, 1], [3, 1, 1, 1, 1, 1, 1, 1]);
    assert!(matches!(r, Err(TensorError::ShapeMismatch)));
    let r = broadcast_plan([1, 1, 1, 1, 1, 1, 1, 1], [65536, 65536, 1, 1, 1, 1, 1, 1]);
    assert!(matches!(r, Err(TensorError::OversizedDispatch)));
}

#[test]
fn broadcast_plan_to_empty_target() {
    let plan = broadcast_plan([1, 1, 1, 1, 1, 1, 1, 1], [0, 1, 1, 1, 1, 1, 1, 1]).unwrap();
    assert!(plan.launch.is_none());
}

#[test]
fn initialization_and_optimization_launches() {
    assert_eq!(initialization_launch([300, 1, 1, 1, 1, 1, 1, 1]), Ok(Some((300, (2, 1, 1)))));
    assert_eq!(initialization_launch([0, 1, 1, 1, 1, 1, 1, 1]), Ok(None));
    assert_eq!(
        initialization_launch([65536, 65536, 1, 1, 1, 1, 1, 1]),
        Err(TensorError::OversizedTensor)
    );
    assert_eq!(optimization_launch([5, 1, 1, 1, 1, 1, 1, 1], [5, 1, 1, 1, 1, 1, 1, 1]), Ok(Some((5, (1, 1, 1)))));
    assert_eq!(
        optimization_launch([5, 1, 1, 1, 1, 1, 1, 1], [1, 5, 1, 1, 1, 1, 1, 1]),
        Err(TensorError::ShapeMismatch)
    );
}

#[test]
fn matmul_plan_plain() {
    // left: 3 columns, 2 rows; right: 4 columns, 3 rows
    let plan = matmul_plan([3, 2, 1, 1, 1, 1, 1, 1], [4, 3, 1, 1, 1, 1, 1, 1], false, false).unwrap();
    assert_eq!(plan.output_shape, [4, 2, 1, 1, 1, 1, 1, 1]);
    assert_eq!(plan.bucket, 256);
    let launch = plan.launch.unwrap();
    assert_eq!(launch.params.inner_size, 3);
    assert_eq!(launch.params.tile_count, 1);
    assert_eq!(launch.params.size, [4, 2]);
    let d = &launch.params.info.divisions;
    assert_eq!(word(&d[0]), div(1, 2));
    assert_eq!(word(&d[1]), div(1, 0));
    assert_eq!(word(&d[2]), (0, 0, 0, 0));
    assert_eq!(word(&d[3]), (0, 0, 0, 0));
    assert_eq!(launch.workgroups, (1, 1, 1));
}

#[test]
fn matmul_plan_transposed_and_batched() {
    // left transposed: stored 2 columns by 40 rows, used as 40 by 2;
    // right transposed: stored 40 by 33, used as 33 by 40
    let plan = matmul_plan([2, 40, 3, 1, 1, 1, 1, 1], [40, 33, 1, 1, 1, 1, 1, 1], true, true).unwrap();
    assert_eq!(plan.output_shape, [33, 2, 3, 1, 1, 1, 1, 1]);
    let launch = plan.launch.unwrap();
    assert_eq!(launch.params.inner_size, 40);
    assert_eq!(launch.params.size, [33, 2]);
    // tiles: ceil(33 / 16) = 3 by ceil(2 / 16) = 1, three batches
    assert_eq!(launch.params.tile_count, 9);
    let d = &launch.params.info.divisions;
    assert_eq!(word(&d[0]), div(3, 3));
    assert_eq!(word(&d[1]), div(1, 4));
    assert_eq!(word(&d[2]), div(3, 1));
    assert_eq!(d[3].data, 1);
    assert_eq!(launch.workgroups, (9, 1, 1));
}

#[test]
fn matmul_plan_refusals() {
    let r = matmul_plan([3, 2, 1, 1, 1, 1, 1, 1], [4, 4, 1, 1, 1, 1, 1, 1], false, false);
    assert!(matches!(r, Err(TensorError::IncompatibleMatrices)));
    let r = matmul_plan([3, 2, 2, 1, 1, 1, 1, 1], [4, 3, 3, 1, 1, 1, 1, 1], false, false);
    assert!(matches!(r, Err(TensorError::ShapeMismatch)));
}

#[test]
fn matmul_plan_empty_output() {
    let plan = matmul_plan([3, 0, 1, 1, 1, 1, 1, 1], [4, 3, 1, 1, 1, 1, 1, 1], false, false).unwrap();
    assert_eq!(plan.output_shape, [4, 0, 1, 1, 1, 1, 1, 1]);
    assert!(plan.launch.is_none());
}

#[test]
fn gradient_products_choose_order_and_transposes() {
    assert_eq!(
        lhs_gradient_product(false, false),
        GradientProduct { gradient_first: true, transpose_first: false, transpose_second: true }
    );
    assert_eq!(
        lhs_gradient_product(true, false),
        GradientProduct { gradient_first: false, transpose_first: false, transpose_second: true }
    );
    assert_eq!(
        rhs_gradient_product(false, false),
        GradientProduct { gradient_first: false, transpose_first: true, transpose_second: false }
    );
    assert_eq!(
        rhs_gradient_product(false, true),
        GradientProduct { gradient_first: true, transpose_first: true, transpose_second: false }
    );
}

/// Each operand's gradient product, planned like any product, has that
/// operand's shape.
#[test]
fn gradient_products_have_operand_shapes() {
    let lhs: [u32; 8] = [3, 2, 1, 1, 1, 1, 1, 1];
    let rhs: [u32; 8] = [4, 3, 1, 1, 1, 1, 1, 1];
    for &(tl, tr) in [(false, false), (true, false), (false, true), (true, true)].iter() {
        let l = if tl { [lhs[1], lhs[0], 1, 1, 1, 1, 1, 1] } else { lhs };
        let r = if tr { [rhs[1], rhs[0], 1, 1, 1, 1, 1, 1] } else { rhs };
        let out = matmul_plan(l, r, tl, tr).unwrap().output_shape;
        let g = lhs_gradient_product(tl, tr);
        let (a, b) = if g.gradient_first { (out, r) } else { (r, out) };
        assert_eq!(matmul_plan(a, b, g.transpose_first, g.transpose_second).unwrap().output_shape, l);
        let g = rhs_gradient_product(tl, tr);
        let (a, b) = if g.gradient_first { (out, l) } else { (l, out) };
        assert_eq!(matmul_plan(a, b, g.transpose_first, g.transpose_second).unwrap().output_shape, r);
    }
}
