//! What each kernel launch needs, decided from shapes alone: the output
//! shape, the pooled buffer size of the output, and (unless the output is
//! empty) the parameter block and the launch grid. The application encodes
//! exactly these launches.

use vstd::prelude::*;

use crate::broadcasting::{
    BroadcastInfo, spec_broadcast_dimension, merged_runs, block_layout, describes, free_words_zero,
};
use crate::dispatch::{element_launch_grid, element_grid, grid_for, workgroup_grid};
use crate::ints::{ceil_div, u32_div_ceil};
use crate::error::TensorError;
use crate::ints::{
    checked_product, lemma_checked_product_fails, lemma_checked_product_fits, lemma_checked_product_nonneg,
    lemma_checked_product_value, lemma_prefix_product_eight, lemma_prefix_product_grows, product_of_sizes,
};
use crate::indexing::prefix_product;
use crate::params::{
    BinaryOperation, BinaryParameters, BroadcastParameters, MatmulParameters, UnaryOperation,
    UnaryParameters,
};
use crate::shape::Shape;
use crate::tensor_size::{bucket_size, spec_bucket_size};

verus! {

/// A kernel launch: its parameter block and its grid of workgroups.
#[derive(Debug)]
pub struct Launch<P> {
    pub params: P,
    pub workgroups: (u32, u32, u32),
}

/// An operation that produces a new tensor: the output's shape, the pooled
/// buffer size to take it from, and the launch that fills it (none when the
/// output has no element).
#[derive(Debug)]
pub struct Plan<P> {
    pub output_shape: Shape,
    pub bucket: u64,
    pub launch: Option<Launch<P>>,
}

/// The element count of `shape` as a 32-bit number, or `error` if a partial
/// product leaves 32 bits.
pub open spec fn spec_element_count(shape: Seq<u32>, error: TensorError) -> Result<u32, TensorError> {
    match checked_product(shape, 8, u32::MAX as int) {
        None => Err(error),
        Some(n) => Ok(n as u32),
    }
}

/// The element count of `shape`, failing with `error` on overflow.
pub fn element_count(shape: Shape, error: TensorError) -> (r: Result<u32, TensorError>)
    ensures
        r == spec_element_count(shape@, error),
{
    let mut length: u32 = 1;
    let mut i: usize = 0;
    while i < 8
        invariant
            i <= 8,
            checked_product(shape@, i as int, u32::MAX as int) == Some(length as int),
        decreases 8 - i,
    {
        length = match length.checked_mul(shape[i]) {
            Some(v) => v,
            None => {
                proof {
                    lemma_checked_product_fails(shape@, i as int + 1, 8, u32::MAX as int);
                }
                return Err(error);
            },
        };
        i = i + 1;
    }
    Ok(length)
}

/// A unary operation on a tensor of shape `shape`: element count (failing
/// with `OversizedTensor`), then the output buffer, then one invocation per
/// element.
pub fn unary_plan(operation: UnaryOperation, shape: Shape) -> (r: Result<Plan<UnaryParameters>, TensorError>)
    ensures
        match spec_element_count(shape@, TensorError::OversizedTensor) {
            Err(e) => r == Err::<Plan<UnaryParameters>, TensorError>(e),
            Ok(length) => match spec_bucket_size(shape@) {
                Err(e) => r == Err::<Plan<UnaryParameters>, TensorError>(e),
                Ok(bucket) => r matches Ok(plan) && {
                    &&& plan.output_shape == shape
                    &&& plan.bucket == bucket
                    &&& (length == 0 <==> plan.launch is None)
                    &&& (plan.launch matches Some(l) ==> {
                        &&& l.params == UnaryParameters { length, operation }
                        &&& element_grid(length, Some(l.workgroups))
                    })
                },
            },
        },
{
    let length = element_count(shape, TensorError::OversizedTensor)?;
    let bucket = bucket_size(shape)?;
    let launch = match element_launch_grid(length) {
        None => None,
        Some(workgroups) => Some(Launch { params: UnaryParameters { length, operation }, workgroups }),
    };
    Ok(Plan { output_shape: shape, bucket, launch })
}

/// The output shape of an elementwise operation on shapes `lhs` and `rhs`
/// over their first `n` dimensions, with its element count: each dimension
/// broadcast in turn (`ShapeMismatch`), the count checked as it grows
/// (`OversizedDispatch`).
pub open spec fn broadcast_fold(lhs: Seq<u32>, rhs: Seq<u32>, n: int) -> Result<(Seq<u32>, int), TensorError>
    decreases n,
{
    if n <= 0 {
        Ok((Seq::empty(), 1))
    } else {
        match broadcast_fold(lhs, rhs, n - 1) {
            Err(e) => Err(e),
            Ok((dims, length)) => match spec_broadcast_dimension(lhs[n - 1], rhs[n - 1]) {
                Err(e) => Err(e),
                Ok(d) => if length * d > u32::MAX {
                    Err(TensorError::OversizedDispatch)
                } else {
                    Ok((dims.push(d), length * d))
                },
            },
        }
    }
}

proof fn lemma_broadcast_fold_failure_sticks(lhs: Seq<u32>, rhs: Seq<u32>, n: int, m: int)
    requires
        n <= m,
        broadcast_fold(lhs, rhs, n) is Err,
    ensures
        broadcast_fold(lhs, rhs, m) == broadcast_fold(lhs, rhs, n),
    decreases m - n,
{
    if m > n {
        lemma_broadcast_fold_failure_sticks(lhs, rhs, n, m - 1);
    }
}

pub(crate) proof fn lemma_broadcast_fold_facts(lhs: Seq<u32>, rhs: Seq<u32>, n: int)
    requires
        0 <= n,
    ensures
        broadcast_fold(lhs, rhs, n) matches Ok((dims, length)) ==> dims.len() == n && 0 <= length <= u32::MAX,
    decreases n,
{
    if n > 0 {
        lemma_broadcast_fold_facts(lhs, rhs, n - 1);
        if let Ok((dims, length)) = broadcast_fold(lhs, rhs, n - 1) {
            if let Ok(d) = spec_broadcast_dimension(lhs[n - 1], rhs[n - 1]) {
                assert(length * d >= 0) by (nonlinear_arith)
                    requires length >= 0, d >= 0;
            }
        }
    }
}

/// A binary elementwise operation on shapes `lhs` and `rhs`: the broadcast
/// output shape and count (`broadcast_fold`), then the output buffer; then,
/// unless the output is empty, the broadcast block of the two shapes and
/// one invocation per output element.
pub fn binary_plan(operation: BinaryOperation, lhs: Shape, rhs: Shape) -> (r: Result<Plan<BinaryParameters>, TensorError>)
    ensures
        match broadcast_fold(lhs@, rhs@, 8) {
            Err(e) => r == Err::<Plan<BinaryParameters>, TensorError>(e),
            Ok((out, length)) => match spec_bucket_size(out) {
                Err(e) => r == Err::<Plan<BinaryParameters>, TensorError>(e),
                Ok(bucket) => if length == 0 {
                    r matches Ok(plan) && plan.output_shape@ == out && plan.bucket == bucket && plan.launch is None
                } else {
                    match merged_runs(lhs@, rhs@, 0) {
                        Err(e) => r == Err::<Plan<BinaryParameters>, TensorError>(e),
                        Ok(runs) => r matches Ok(plan) && {
                            &&& plan.output_shape@ == out
                            &&& plan.bucket == bucket
                            &&& plan.launch matches Some(l) && {
                                &&& describes(l.params.info, block_layout(Seq::empty(), runs))
                                &&& free_words_zero(l.params.info)
                                &&& l.params.length == length
                                &&& l.params.operation == operation
                                &&& l.params.pad0 == 0 && l.params.pad1 == 0
                                &&& element_grid(length as u32, Some(l.workgroups))
                            }
                        },
                    }
                },
            },
        },
{
    let mut shape = lhs;
    let mut length: u32 = 1;
    let mut i: usize = 0;
    assert(shape@.take(0) =~= Seq::<u32>::empty());
    while i < 8
        invariant
            i <= 8,
            broadcast_fold(lhs@, rhs@, i as int) == Ok::<(Seq<u32>, int), TensorError>((shape@.take(i as int), length as int)),
            forall|j: int| i <= j < 8 ==> shape[j] == lhs[j],
        decreases 8 - i,
    {
        proof {
            if broadcast_fold(lhs@, rhs@, i + 1) is Err {
                lemma_broadcast_fold_failure_sticks(lhs@, rhs@, i + 1, 8);
            }
        }
        let ghost before = shape@.take(i as int);
        let d = BroadcastInfo::boradcast_dimension(shape[i], rhs[i])?;
        shape[i] = d;
        assert(shape@.take(i as int) =~= before);
        length = match length.checked_mul(d) {
            Some(v) => v,
            None => return Err(TensorError::OversizedDispatch),
        };
        assert(shape@.take(i + 1) =~= before.push(d));
        i = i + 1;
    }
    assert(shape@.take(8) =~= shape@);
    let bucket = bucket_size(shape)?;
    if length == 0 {
        return Ok(Plan { output_shape: shape, bucket, launch: None });
    }
    let info = BroadcastInfo::new(lhs, rhs)?;
    let params = BinaryParameters { info, length, operation, pad0: 0, pad1: 0 };
    let workgroups = match element_launch_grid(length) {
        Some(g) => g,
        None => return Ok(Plan { output_shape: shape, bucket, launch: None }),
    };
    Ok(Plan { output_shape: shape, bucket, launch: Some(Launch { params, workgroups }) })
}

/// The element count of broadcasting a tensor of shape `source` to shape
/// `target`, over their first `n` dimensions: each source dimension must be
/// one or the target's (`ShapeMismatch`), and the count is checked as it
/// grows (`OversizedDispatch`).
pub open spec fn expand_fold(source: Seq<u32>, target: Seq<u32>, n: int) -> Result<int, TensorError>
    decreases n,
{
    if n <= 0 {
        Ok(1)
    } else {
        match expand_fold(source, target, n - 1) {
            Err(e) => Err(e),
            Ok(length) => if source[n - 1] != 1 && source[n - 1] != target[n - 1] {
                Err(TensorError::ShapeMismatch)
            } else if length * target[n - 1] > u32::MAX {
                Err(TensorError::OversizedDispatch)
            } else {
                Ok(length * target[n - 1])
            },
        }
    }
}

proof fn lemma_expand_fold_failure_sticks(source: Seq<u32>, target: Seq<u32>, n: int, m: int)
    requires
        n <= m,
        expand_fold(source, target, n) is Err,
    ensures
        expand_fold(source, target, m) == expand_fold(source, target, n),
    decreases m - n,
{
    if m > n {
        lemma_expand_fold_failure_sticks(source, target, n, m - 1);
    }
}

/// Broadcasting a tensor of shape `source` to shape `target`: the element
/// count (`expand_fold`), then the output buffer; then, unless the output is
/// empty, the broadcast block of the two shapes and one invocation per
/// output element.
pub fn broadcast_plan(source: Shape, target: Shape) -> (r: Result<Plan<BroadcastParameters>, TensorError>)
    ensures
        match expand_fold(source@, target@, 8) {
            Err(e) => r == Err::<Plan<BroadcastParameters>, TensorError>(e),
            Ok(length) => match spec_bucket_size(target@) {
                Err(e) => r == Err::<Plan<BroadcastParameters>, TensorError>(e),
                Ok(bucket) => if length == 0 {
                    r matches Ok(plan) && plan.output_shape == target && plan.bucket == bucket && plan.launch is None
                } else {
                    match merged_runs(source@, target@, 0) {
                        Err(e) => r == Err::<Plan<BroadcastParameters>, TensorError>(e),
                        Ok(runs) => r matches Ok(plan) && {
                            &&& plan.output_shape == target
                            &&& plan.bucket == bucket
                            &&& plan.launch matches Some(l) && {
                                &&& describes(l.params.info, block_layout(Seq::empty(), runs))
                                &&& free_words_zero(l.params.info)
                                &&& l.params.length == length
                                &&& l.params.pad0 == 0 && l.params.pad1 == 0 && l.params.pad2 == 0
                                &&& element_grid(length as u32, Some(l.workgroups))
                            }
                        },
                    }
                },
            },
        },
{
    let mut length: u32 = 1;
    let mut i: usize = 0;
    while i < 8
        invariant
            i <= 8,
            expand_fold(source@, target@, i as int) == Ok::<int, TensorError>(length as int),
        decreases 8 - i,
    {
        proof {
            if expand_fold(source@, target@, i + 1) is Err {
                lemma_expand_fold_failure_sticks(source@, target@, i + 1, 8);
            }
        }
        if source[i] != 1 && source[i] != target[i] {
            return Err(TensorError::ShapeMismatch);
        }
        length = match length.checked_mul(target[i]) {
            Some(v) => v,
            None => return Err(TensorError::OversizedDispatch),
        };
        i = i + 1;
    }
    let bucket = bucket_size(target)?;
    if length == 0 {
        return Ok(Plan { output_shape: target, bucket, launch: None });
    }
    let info = BroadcastInfo::new(source, target)?;
    let params = BroadcastParameters { info, length, pad0: 0, pad1: 0, pad2: 0 };
    let workgroups = match element_launch_grid(length) {
        Some(g) => g,
        None => return Ok(Plan { output_shape: target, bucket, launch: None }),
    };
    Ok(Plan { output_shape: target, bucket, launch: Some(Launch { params, workgroups }) })
}

/// Filling a tensor of shape `shape` (with a constant or random values):
/// its element count (`OversizedTensor`), and for a nonempty tensor that
/// count with one invocation per element.
pub fn initialization_launch(shape: Shape) -> (r: Result<Option<(u32, (u32, u32, u32))>, TensorError>)
    ensures
        match spec_element_count(shape@, TensorError::OversizedTensor) {
            Err(e) => r == Err::<Option<(u32, (u32, u32, u32))>, TensorError>(e),
            Ok(length) => r matches Ok(launch) && (length == 0 <==> launch is None)
                && (launch matches Some((n, g)) ==> n == length && element_grid(length, Some(g))),
        },
{
    let length = element_count(shape, TensorError::OversizedTensor)?;
    match element_launch_grid(length) {
        None => Ok(None),
        Some(g) => Ok(Some((length, g))),
    }
}

/// Applying gradients of shape `gradients` to weights of shape `weights`:
/// the shapes must be equal (`ShapeMismatch`); then as
/// `initialization_launch` for that shape.
pub fn optimization_launch(gradients: Shape, weights: Shape) -> (r: Result<Option<(u32, (u32, u32, u32))>, TensorError>)
    ensures
        gradients@ != weights@ ==> r == Err::<Option<(u32, (u32, u32, u32))>, TensorError>(TensorError::ShapeMismatch),
        gradients@ == weights@ ==> match spec_element_count(gradients@, TensorError::OversizedTensor) {
            Err(e) => r == Err::<Option<(u32, (u32, u32, u32))>, TensorError>(e),
            Ok(length) => r matches Ok(launch) && (length == 0 <==> launch is None)
                && (launch matches Some((n, g)) ==> n == length && element_grid(length, Some(g))),
        },
{
    if !crate::shape::shapes_equal(&gradients, &weights) {
        return Err(TensorError::ShapeMismatch);
    }
    initialization_launch(gradients)
}

/// The matrix dimensions `(columns, rows)` an operand of shape `shape`
/// contributes, swapped when it is transposed.
pub open spec fn matrix_size(shape: Shape, transpose: bool) -> (u32, u32) {
    if transpose { (shape[1], shape[0]) } else { (shape[0], shape[1]) }
}

/// The batch dimensions `2..n` of a matrix product: each broadcast in turn.
pub open spec fn batch_fold(lhs: Seq<u32>, rhs: Seq<u32>, n: int) -> Result<Seq<u32>, TensorError>
    decreases n,
{
    if n <= 2 {
        Ok(Seq::empty())
    } else {
        match batch_fold(lhs, rhs, n - 1) {
            Err(e) => Err(e),
            Ok(dims) => match spec_broadcast_dimension(lhs[n - 1], rhs[n - 1]) {
                Err(e) => Err(e),
                Ok(d) => Ok(dims.push(d)),
            },
        }
    }
}

proof fn lemma_batch_fold_failure_sticks(lhs: Seq<u32>, rhs: Seq<u32>, n: int, m: int)
    requires
        n <= m,
        batch_fold(lhs, rhs, n) is Err,
    ensures
        batch_fold(lhs, rhs, m) == batch_fold(lhs, rhs, n),
    decreases m - n,
{
    if m > n {
        lemma_batch_fold_failure_sticks(lhs, rhs, n, m - 1);
    }
}

/// The output of a matrix product: the product matrix (`size` columns by
/// rows) then the broadcast batch dimensions.
pub open spec fn matmul_output(size: (u32, u32), batch: Seq<u32>) -> Seq<u32> {
    seq![size.0, size.1] + batch
}

/// A matrix product of `lhs` by `rhs` (either transposed): the inner sizes
/// must agree (`IncompatibleMatrices`), the batch dimensions broadcast
/// (`ShapeMismatch`); then the output buffer; then, unless the output is
/// empty, the count of 16-by-16 output tiles over all batches
/// (`OversizedDispatch`), the broadcast block with the two tile counts as
/// prefix and the transposition flags in its free words 2 and 3, and one
/// workgroup per tile.
#[verifier::loop_isolation(false)]
pub fn matmul_plan(lhs: Shape, rhs: Shape, transpose_lhs: bool, transpose_rhs: bool)
    -> (r: Result<Plan<MatmulParameters>, TensorError>)
    ensures
        ({
            let (lhs_columns, lhs_rows) = matrix_size(lhs, transpose_lhs);
            let (rhs_columns, rhs_rows) = matrix_size(rhs, transpose_rhs);
            let size = (rhs_columns, lhs_rows);
            if lhs_columns != rhs_rows {
                r == Err::<Plan<MatmulParameters>, TensorError>(TensorError::IncompatibleMatrices)
            } else {
                match batch_fold(lhs@, rhs@, 8) {
                    Err(e) => r == Err::<Plan<MatmulParameters>, TensorError>(e),
                    Ok(batch) => {
                        let out = matmul_output(size, batch);
                        match spec_bucket_size(out) {
                            Err(e) => r == Err::<Plan<MatmulParameters>, TensorError>(e),
                            Ok(bucket) => if out.contains(0u32) {
                                r matches Ok(plan) && plan.output_shape@ == out && plan.bucket == bucket && plan.launch is None
                            } else {
                                let tiles = seq![
                                    ceil_div(size.0 as int, 16) as u32,
                                    ceil_div(size.1 as int, 16) as u32,
                                ];
                                match checked_product(tiles + batch, 8, u32::MAX as int) {
                                    None => r == Err::<Plan<MatmulParameters>, TensorError>(TensorError::OversizedDispatch),
                                    Some(tile_count) => match merged_runs(lhs@, rhs@, 2) {
                                        Err(e) => r == Err::<Plan<MatmulParameters>, TensorError>(e),
                                        Ok(runs) => r matches Ok(plan) && {
                                            &&& plan.output_shape@ == out
                                            &&& plan.bucket == bucket
                                            &&& plan.launch matches Some(l) && {
                                                &&& describes(l.params.info, block_layout(tiles, runs))
                                                &&& l.params.info.divisions[2].data == (if transpose_lhs { 1u32 } else { 0u32 })
                                                &&& l.params.info.divisions[3].data == (if transpose_rhs { 1u32 } else { 0u32 })
                                                &&& forall|i: int| 4 <= i < 7 ==> #[trigger] l.params.info.divisions[i].data == 0
                                                &&& l.params.inner_size == lhs_columns
                                                &&& l.params.tile_count == tile_count
                                                &&& l.params.size == [size.0, size.1]
                                                &&& grid_for(tile_count as u32, Some(l.workgroups))
                                            }
                                        },
                                    },
                                }
                            },
                        }
                    },
                }
            }
        }),
{
    let lhs_matrix_shape = if transpose_lhs { [lhs[1], lhs[0]] } else { [lhs[0], lhs[1]] };
    let rhs_matrix_shape = if transpose_rhs { [rhs[1], rhs[0]] } else { [rhs[0], rhs[1]] };
    let lhs_columns = lhs_matrix_shape[0];
    let lhs_rows = lhs_matrix_shape[1];
    let rhs_columns = rhs_matrix_shape[0];
    let rhs_rows = rhs_matrix_shape[1];
    assert((lhs_columns, lhs_rows) == matrix_size(lhs, transpose_lhs));
    assert((rhs_columns, rhs_rows) == matrix_size(rhs, transpose_rhs));
    if lhs_columns != rhs_rows {
        return Err(TensorError::IncompatibleMatrices);
    }
    let inner_size = lhs_columns;
    let size = [rhs_columns, lhs_rows];

    let mut shape = lhs;
    shape[0] = size[0];
    shape[1] = size[1];
    let mut zero = size[0] == 0 || size[1] == 0;
    let mut index: usize = 2;
    assert(zero == (exists|j: int| 0 <= j < 2 && shape[j] == 0)) by {
        if size[0] == 0 {
            assert(shape[0] == 0);
        } else if size[1] == 0 {
            assert(shape[1] == 0);
        }
    }
    assert(shape@.subrange(2, 2) =~= Seq::<u32>::empty());
    while index < 8
        invariant
            2 <= index <= 8,
            shape[0] == size[0] && shape[1] == size[1],
            batch_fold(lhs@, rhs@, index as int) == Ok::<Seq<u32>, TensorError>(shape@.subrange(2, index as int)),
            zero == (exists|j: int| 0 <= j < index && shape[j] == 0),
        decreases 8 - index,
    {
        proof {
            if batch_fold(lhs@, rhs@, index + 1) is Err {
                lemma_batch_fold_failure_sticks(lhs@, rhs@, index + 1, 8);
            }
        }
        let ghost before = shape@.subrange(2, index as int);
        let ghost old_shape = shape@;
        let d = BroadcastInfo::boradcast_dimension(lhs[index], rhs[index])?;
        shape[index] = d;
        zero = zero || d == 0;
        assert(shape@.subrange(2, index as int) =~= before);
        assert(shape@.subrange(2, index + 1) =~= before.push(d));
        assert(forall|j: int| 0 <= j < index ==> shape[j] == old_shape[j]);
        assert(zero == (exists|j: int| 0 <= j < index + 1 && shape[j] == 0)) by {
            if d == 0 {
                assert(shape[index as int] == 0);
            }
            if exists|j: int| 0 <= j < index && old_shape[j] == 0 {
                let j = choose|j: int| 0 <= j < index && old_shape[j] == 0;
                assert(shape[j] == 0);
            }
        }
        index = index + 1;
    }
    let ghost batch = shape@.subrange(2, 8);
    assert(forall|j: int| 2 <= j < 8 ==> shape[j] == batch[j - 2]);
    assert(shape@ =~= matmul_output((size[0], size[1]), batch));
    assert(zero == shape@.contains(0u32)) by {
        if zero {
            let j = choose|j: int| 0 <= j < 8 && shape[j] == 0;
            assert(shape@[j] == 0u32);
        }
    }
    let bucket = bucket_size(shape)?;
    if zero {
        return Ok(Plan { output_shape: shape, bucket, launch: None });
    }

    let tiles = [u32_div_ceil(size[0], 16), u32_div_ceil(size[1], 16)];
    assert(tiles@ =~= seq![
        ceil_div(size[0] as int, 16) as u32,
        ceil_div(size[1] as int, 16) as u32,
    ]);
    assert(tiles[0] > 0 && tiles[1] > 0);
    let ghost counted = tiles@ + batch;
    let mut tile_count: u32 = 1;
    let mut k: usize = 0;
    while k < 8
        invariant
            k <= 8,
            counted.len() == 8,
            forall|j: int| 0 <= j < 2 ==> counted[j] == tiles[j],
            forall|j: int| 2 <= j < 8 ==> counted[j] == shape[j],
            forall|j: int| 0 <= j < 8 ==> counted[j] > 0,
            checked_product(counted, k as int, u32::MAX as int) == Some(tile_count as int),
            tile_count > 0,
        decreases 8 - k,
    {
        let factor = if k < 2 { tiles[k] } else { shape[k] };
        assert(factor == counted[k as int]);
        tile_count = match tile_count.checked_mul(factor) {
            Some(v) => {
                assert(v > 0) by (nonlinear_arith)
                    requires v == tile_count * factor, tile_count > 0, factor > 0;
                v
            },
            None => {
                proof {
                    lemma_checked_product_fails(counted, k as int + 1, 8, u32::MAX as int);
                }
                return Err(TensorError::OversizedDispatch);
            },
        };
        k = k + 1;
    }
    let mut info = BroadcastInfo::with_prefix(lhs, rhs, &tiles)?;
    info.set_data(0, if transpose_lhs { 1 } else { 0 });
    info.set_data(1, if transpose_rhs { 1 } else { 0 });
    let params = MatmulParameters { info, inner_size, tile_count, size };
    let workgroups = match workgroup_grid(tile_count) {
        Some(g) => g,
        None => return Ok(Plan { output_shape: shape, bucket, launch: None }),
    };
    Ok(Plan { output_shape: shape, bucket, launch: Some(Launch { params, workgroups }) })
}

/// A matrix size `(columns, rows)`, swapped when `transpose`.
pub open spec fn transposed(size: (u32, u32), transpose: bool) -> (u32, u32) {
    if transpose { (size.1, size.0) } else { size }
}

/// How the gradient of one factor of a matrix product is computed, as a
/// matrix product itself: whether the product's gradient is its first
/// factor (the other factor being the other operand), and whether each of
/// the two factors is transposed.
#[derive(Clone, Copy, Debug, PartialEq, Eq, Structural)]
pub struct GradientProduct {
    pub gradient_first: bool,
    pub transpose_first: bool,
    pub transpose_second: bool,
}

/// The gradient of the left operand of a product `lhs x rhs` (either
/// transposed): the product's gradient times the right operand transposed
/// back, or, for a transposed left operand, the right operand times the
/// transposed gradient.
pub open spec fn spec_lhs_gradient_product(transpose_lhs: bool, transpose_rhs: bool) -> GradientProduct {
    if transpose_lhs {
        GradientProduct { gradient_first: false, transpose_first: transpose_rhs, transpose_second: true }
    } else {
        GradientProduct { gradient_first: true, transpose_first: false, transpose_second: !transpose_rhs }
    }
}

/// The gradient of the right operand of a product `lhs x rhs` (either
/// transposed): the left operand transposed back times the product's
/// gradient, or, for a transposed right operand, the transposed gradient
/// times the left operand.
pub open spec fn spec_rhs_gradient_product(transpose_lhs: bool, transpose_rhs: bool) -> GradientProduct {
    if transpose_rhs {
        GradientProduct { gradient_first: true, transpose_first: true, transpose_second: transpose_lhs }
    } else {
        GradientProduct { gradient_first: false, transpose_first: !transpose_lhs, transpose_second: false }
    }
}

/// The product that gives the gradient of the left operand; see
/// `spec_lhs_gradient_product`.
pub fn lhs_gradient_product(transpose_lhs: bool, transpose_rhs: bool) -> (r: GradientProduct)
    ensures
        r == spec_lhs_gradient_product(transpose_lhs, transpose_rhs),
{
    if transpose_lhs {
        GradientProduct { gradient_first: false, transpose_first: transpose_rhs, transpose_second: true }
    } else {
        GradientProduct { gradient_first: true, transpose_first: false, transpose_second: !transpose_rhs }
    }
}

/// The product that gives the gradient of the right operand; see
/// `spec_rhs_gradient_product`.
pub fn rhs_gradient_product(transpose_lhs: bool, transpose_rhs: bool) -> (r: GradientProduct)
    ensures
        r == spec_rhs_gradient_product(transpose_lhs, transpose_rhs),
{
    if transpose_rhs {
        GradientProduct { gradient_first: true, transpose_first: true, transpose_second: transpose_lhs }
    } else {
        GradientProduct { gradient_first: false, transpose_first: !transpose_lhs, transpose_second: false }
    }
}

/// Whether the product `plan` of the product's gradient (matrix size
/// `output`) and an operand (matrix size `other`) is defined and has matrix
/// size `expected`.
pub open spec fn gradient_product_gives(plan: GradientProduct, output: (u32, u32), other: (u32, u32), expected: (u32, u32)) -> bool {
    let (first, second) = if plan.gradient_first { (output, other) } else { (other, output) };
    let a = transposed(first, plan.transpose_first);
    let b = transposed(second, plan.transpose_second);
    a.0 == b.1 && (b.0, a.1) == expected
}

/// The gradient products of a matrix product are well formed: for a
/// product of `lhs` (matrix size `lhs`, stored) by `rhs` whose inner sizes
/// agree, each operand's gradient product is defined and has exactly that
/// operand's stored matrix size.
pub proof fn lemma_gradient_products_fit(lhs: (u32, u32), rhs: (u32, u32), transpose_lhs: bool, transpose_rhs: bool)
    requires
        transposed(lhs, transpose_lhs).0 == transposed(rhs, transpose_rhs).1,
    ensures
        ({
            let output = (transposed(rhs, transpose_rhs).0, transposed(lhs, transpose_lhs).1);
            &&& gradient_product_gives(spec_lhs_gradient_product(transpose_lhs, transpose_rhs), output, rhs, lhs)
            &&& gradient_product_gives(spec_rhs_gradient_product(transpose_lhs, transpose_rhs), output, lhs, rhs)
        }),
{
}

/// The element count of a shape is the product of all eight of its sizes:
/// whenever it succeeds its value is that product, and it succeeds whenever
/// every size is positive and the product fits in 32 bits. So a unary,
/// fill or optimization launch covers every element of its tensor.
pub proof fn lemma_element_count_is_product(shape: Seq<u32>, error: TensorError)
    requires
        shape.len() == 8,
    ensures
        spec_element_count(shape, error) matches Ok(n) ==> n as int == product_of_sizes(shape),
        (forall|i: int| 0 <= i < 8 ==> #[trigger] shape[i] > 0) && product_of_sizes(shape) <= u32::MAX
            ==> spec_element_count(shape, error) == Ok::<u32, TensorError>(product_of_sizes(shape) as u32),
{
    lemma_prefix_product_eight(shape);
    lemma_checked_product_value(shape, 8, u32::MAX as int);
    if (forall|i: int| 0 <= i < 8 ==> #[trigger] shape[i] > 0) && product_of_sizes(shape) <= u32::MAX {
        lemma_checked_product_fits(shape, 8, u32::MAX as int);
    }
}

proof fn lemma_expand_fold_steps(source: Seq<u32>, target: Seq<u32>, n: int)
    requires
        0 <= n <= 8,
        source.len() == 8,
        target.len() == 8,
    ensures
        expand_fold(source, target, n) matches Ok(length) ==> {
            &&& length == prefix_product(target, n)
            &&& forall|k: int| 0 <= k < n ==> #[trigger] source[k] == 1 || source[k] == target[k]
        },
        (forall|k: int| 0 <= k < n ==> (#[trigger] source[k] == 1 || source[k] == target[k]) && target[k] > 0)
            && prefix_product(target, n) <= u32::MAX ==> expand_fold(source, target, n) == Ok::<int, TensorError>(
            prefix_product(target, n),
        ),
    decreases n,
{
    if n > 0 {
        lemma_expand_fold_steps(source, target, n - 1);
        if (forall|k: int| 0 <= k < n ==> (#[trigger] source[k] == 1 || source[k] == target[k]) && target[k] > 0)
            && prefix_product(target, n) <= u32::MAX {
            assert forall|i: int| 0 <= i < n implies #[trigger] target[i] > 0 by {
                assert(source[i] == 1 || source[i] == target[i]);
            }
            lemma_prefix_product_grows(target, n);
            assert(prefix_product(target, n - 1) <= prefix_product(target, n));
            assert(source[n - 1] == 1 || source[n - 1] == target[n - 1]);
        }
    }
}

/// Broadcasting writes every element of the target: when a broadcast of
/// `source` to `target` succeeds, every source size is one or the target's,
/// and the launch length is the target's element count (the product of all
/// eight target sizes); and it succeeds whenever each source size is one or
/// the target's, every target size is positive and the count fits in 32 bits.
pub proof fn lemma_broadcast_length_is_target_count(source: Seq<u32>, target: Seq<u32>)
    requires
        source.len() == 8,
        target.len() == 8,
    ensures
        expand_fold(source, target, 8) matches Ok(length) ==> {
            &&& length == product_of_sizes(target)
            &&& forall|k: int| 0 <= k < 8 ==> #[trigger] source[k] == 1 || source[k] == target[k]
        },
        (forall|k: int| 0 <= k < 8 ==> (#[trigger] source[k] == 1 || source[k] == target[k]) && target[k] > 0)
            && product_of_sizes(target) <= u32::MAX ==> expand_fold(source, target, 8) == Ok::<int, TensorError>(
            product_of_sizes(target),
        ),
{
    lemma_prefix_product_eight(target);
    lemma_expand_fold_steps(source, target, 8);
}

proof fn lemma_batch_fold_steps(lhs: Seq<u32>, rhs: Seq<u32>, n: int)
    requires
        2 <= n <= 8,
        lhs.len() == 8,
        rhs.len() == 8,
    ensures
        batch_fold(lhs, rhs, n) is Ok <==> forall|k: int|
            2 <= k < n ==> #[trigger] lhs[k] == rhs[k] || lhs[k] == 1 || rhs[k] == 1,
        batch_fold(lhs, rhs, n) matches Ok(batch) ==> {
            &&& batch.len() == n - 2
            &&& forall|k: int| 2 <= k < n ==> #[trigger] batch[k - 2] == if lhs[k] == 1 { rhs[k] } else { lhs[k] }
        },
    decreases n,
{
    if n > 2 {
        lemma_batch_fold_steps(lhs, rhs, n - 1);
        if batch_fold(lhs, rhs, n) is Ok {
            let batch = batch_fold(lhs, rhs, n)->Ok_0;
            let prev = batch_fold(lhs, rhs, n - 1)->Ok_0;
            assert forall|k: int| 2 <= k < n implies #[trigger] batch[k - 2] == if lhs[k] == 1 { rhs[k] } else { lhs[k] } by {
                if k < n - 1 {
                    assert(batch[k - 2] == prev[k - 2]);
                }
            }
        }
    }
}

/// A matrix product's batch dimensions are the broadcast of the operands'
/// batch dimensions: planning succeeds past them exactly when each pair of
/// sizes is equal or has a one, and then every batch size of the output
/// (dimensions 2 to 7) is the size that is not one (either, when equal),
/// after the product matrix's `size` in dimensions 0 and 1. Its tile count,
/// when it fits, is the product of the tiles of the matrix and the batch sizes.
pub proof fn lemma_matmul_output_is_broadcast(lhs: Seq<u32>, rhs: Seq<u32>, size: (u32, u32))
    requires
        lhs.len() == 8,
        rhs.len() == 8,
    ensures
        batch_fold(lhs, rhs, 8) is Ok <==> forall|k: int|
            2 <= k < 8 ==> #[trigger] lhs[k] == rhs[k] || lhs[k] == 1 || rhs[k] == 1,
        batch_fold(lhs, rhs, 8) matches Ok(batch) ==> {
            let out = matmul_output(size, batch);
            let tiles = seq![ceil_div(size.0 as int, 16) as u32, ceil_div(size.1 as int, 16) as u32];
            &&& out.len() == 8
            &&& out[0] == size.0 && out[1] == size.1
            &&& forall|k: int| 2 <= k < 8 ==> #[trigger] out[k] == if lhs[k] == 1 { rhs[k] } else { lhs[k] }
            &&& checked_product(tiles + batch, 8, u32::MAX as int) matches Some(t) ==> t == tiles[0] * tiles[1]
                * out[2] * out[3] * out[4] * out[5] * out[6] * out[7]
        },
{
    lemma_batch_fold_steps(lhs, rhs, 8);
    if let Ok(batch) = batch_fold(lhs, rhs, 8) {
        let out = matmul_output(size, batch);
        let tiles = seq![ceil_div(size.0 as int, 16) as u32, ceil_div(size.1 as int, 16) as u32];
        assert forall|k: int| 2 <= k < 8 implies #[trigger] out[k] == if lhs[k] == 1 { rhs[k] } else { lhs[k] } by {
            assert(out[k] == batch[k - 2]);
        }
        let counted = tiles + batch;
        lemma_checked_product_value(counted, 8, u32::MAX as int);
        lemma_prefix_product_eight(counted);
        assert(counted[0] == tiles[0] && counted[1] == tiles[1]);
        assert(forall|k: int| 2 <= k < 8 ==> counted[k] == out[k]);
    }
}

} // verus!
