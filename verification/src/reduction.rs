//! Reductions over tensor dimensions, planned as a chain of kernel passes.
//!
//! Each pass reduces the first dimension that still differs from the
//! requested output: clusters of up to 256 consecutive elements along it
//! (a power of two, at least two) combine into one, so a dimension of size
//! `n` shrinks to `ceil(n / cluster)` per pass until it reaches one.

use vstd::prelude::*;
use vstd::arithmetic::power2::*;
use vstd::bits::*;
use vstd::std_specs::bits::*;

use crate::dispatch::{grid_for, workgroup_grid};
use crate::error::TensorError;
use crate::fastdiv::{spec_floor_log2, lemma_floor_log2_bounds};
use crate::ints::{
    ceil_div, checked_product, lemma_checked_product_fails, lemma_checked_product_nonneg,
    lemma_checked_product_value, lemma_prefix_product_eight, lemma_prefix_product_split, product_of_sizes,
    spec_ceil_log2, u32_div_ceil, u32_next_power_of_two,
};
use crate::indexing::prefix_product;
use crate::params::{ReductionOperation, ReductionParameters};
use crate::shape::Shape;
use crate::tensor_size::{bucket_size, spec_bucket_size};

verus! {

/// log2 of the cluster size for reducing a dimension of size `r`: the
/// least power of two covering `min(r, 256)`, at least two.
pub open spec fn spec_cluster_shift(r: u32) -> u32 {
    let m: u32 = if r < 256 { r } else { 256 };
    if spec_ceil_log2(m as nat) < 1 { 1 } else { spec_ceil_log2(m as nat) as u32 }
}

proof fn lemma_ceil_log2_bound(x: nat)
    requires
        x <= 256,
    ensures
        spec_ceil_log2(x) <= 8,
{
    if x > 1 {
        lemma_floor_log2_bounds((x - 1) as nat);
        lemma2_to64();
        let f = spec_floor_log2((x - 1) as nat);
        if f >= 8 {
            if f > 8 {
                lemma_pow2_strictly_increases(8, f);
            }
            assert(false);
        }
    }
}

/// `trailing_zeros(2^k) == k`.
proof fn lemma_trailing_zeros_pow2(k: u32)
    requires
        k < 32,
    ensures
        u32_trailing_zeros(pow2(k as nat) as u32) == k,
{
    lemma_u32_pow2_no_overflow(k as nat);
    lemma_u32_shl_is_mul(1, k);
    let v = pow2(k as nat) as u32;
    assert(v == 1u32 << k);
    axiom_u32_trailing_zeros(v);
    let t = u32_trailing_zeros(v);
    assert(v != 0);
    if t < k {
        assert((v >> t) & 1u32 == 1u32);
        assert((v >> t) & 1u32 == 0u32) by (bit_vector)
            requires v == 1u32 << k, t < k, k < 32;
    } else if t > k {
        assert((v >> k) & 1u32 == 0u32);
        assert((v >> k) & 1u32 == 1u32) by (bit_vector)
            requires v == 1u32 << k, k < 32;
    }
}

/// log2 of the cluster size for reducing a dimension of size
/// `reduction_size`; see `spec_cluster_shift`.
pub fn cluster_shift(reduction_size: u32) -> (r: u32)
    ensures
        r == spec_cluster_shift(reduction_size),
        1 <= r <= 8,
{
    let m = if reduction_size < 256 { reduction_size } else { 256 };
    proof {
        lemma_ceil_log2_bound(m as nat);
        lemma2_to64();
        if spec_ceil_log2(m as nat) < 8 {
            lemma_pow2_strictly_increases(spec_ceil_log2(m as nat), 8);
        }
    }
    let p = u32_next_power_of_two(m);
    let q = if p > 2 { p } else { 2 };
    proof {
        let k = spec_ceil_log2(m as nat);
        if p > 2 {
            lemma_trailing_zeros_pow2(k as u32);
            if k < 1 {
                assert(pow2(k) == 1);
            }
        } else {
            assert(pow2(1) == 2);
            lemma_trailing_zeros_pow2(1);
            if k >= 2 {
                lemma_pow2_strictly_increases(1, k);
            }
        }
    }
    q.trailing_zeros()
}

/// The shape a reduction over `dimensions` produces from `shape`: each
/// listed dimension becomes one; an index past the eighth dimension fails
/// with `IndexOutOfBounds`.
pub open spec fn spec_reduced_shape(shape: Seq<u32>, dimensions: Seq<usize>) -> Result<Seq<u32>, TensorError> {
    if exists|k: int| 0 <= k < dimensions.len() && dimensions[k] >= 8 {
        Err(TensorError::IndexOutOfBounds)
    } else {
        Ok(Seq::new(8, |i: int| if dimensions.contains(i as usize) { 1u32 } else { shape[i] }))
    }
}

/// The size a dimension of size `r` keeps after one pass: `ceil(r / 2^s)`
/// for the cluster shift `s` of `r`, and one for an empty dimension.
pub open spec fn reduced_size(r: u32) -> int {
    ((if r > 1 { r as int } else { 1 }) - 1) / (pow2(spec_cluster_shift(r) as nat) as int) + 1
}

/// One reduction pass along dimension `d` of a tensor of shape `input`:
/// the extents before and after `d` (`OversizedDispatch` past 32 bits),
/// the output shape (`d` shrunk to `reduced_size`), its buffer, and the
/// number of clusters (`OversizedDispatch` past 32 bits) with the workgroups
/// that hold them, `256 >> shift` clusters each. The result holds the
/// parameter block, the output shape, its bucket and the workgroup count.
pub open spec fn spec_reduction_pass(operation: ReductionOperation, input: Seq<u32>, d: int)
    -> Result<(ReductionParameters, Seq<u32>, u64, u32), TensorError>
{
    let rs = input[d];
    match checked_product(input, d, u32::MAX as int) {
        None => Err(TensorError::OversizedDispatch),
        Some(inner) => match checked_product(input.skip(d + 1), 7 - d, u32::MAX as int) {
            None => Err(TensorError::OversizedDispatch),
            Some(outer) => {
                let shift = spec_cluster_shift(rs);
                let reduced = reduced_size(rs);
                let output = input.update(d, reduced as u32);
                match spec_bucket_size(output) {
                    Err(e) => Err(e),
                    Ok(bucket) => if inner * reduced > u32::MAX || inner * reduced * outer > u32::MAX {
                        Err(TensorError::OversizedDispatch)
                    } else {
                        Ok((
                            ReductionParameters {
                                operation,
                                cluster_shift: shift,
                                inner_size: inner as u32,
                                reduction_size: rs,
                                outer_size: outer as u32,
                            },
                            output,
                            bucket,
                            ceil_div(inner * reduced * outer, pow2((8 - shift) as nat) as int) as u32,
                        ))
                    },
                }
            },
        },
    }
}

/// The first dimension from `from` on where the shapes differ.
pub open spec fn first_difference(a: Seq<u32>, b: Seq<u32>, from: int) -> Option<int>
    decreases 8 - from,
{
    if from >= 8 {
        None
    } else if a[from] != b[from] {
        Some(from)
    } else {
        first_difference(a, b, from + 1)
    }
}

/// `target` is reachable from `input` by reductions: every dimension either
/// already matches or is to become one.
pub open spec fn reducible(input: Seq<u32>, target: Seq<u32>) -> bool {
    &&& input.len() == 8
    &&& target.len() == 8
    &&& forall|i: int| 0 <= i < 8 ==> #[trigger] input[i] == target[i] || target[i] == 1
}

/// How much reducing is left: over the dimensions that still differ, their
/// sizes plus one.
pub open spec fn pending(input: Seq<u32>, target: Seq<u32>, from: int) -> nat
    decreases 8 - from,
{
    if from >= 8 {
        0
    } else {
        (if input[from] != target[from] { input[from] as nat + 1 } else { 0 }) + pending(input, target, from + 1)
    }
}

/// The chain of passes that reduces a tensor of shape `input` to shape
/// `target`: one pass along the first differing dimension, then the chain
/// from that pass's output; no pass once the shapes agree.
pub open spec fn spec_reduction_passes(operation: ReductionOperation, input: Seq<u32>, target: Seq<u32>)
    -> Result<Seq<(ReductionParameters, Seq<u32>, u64, u32)>, TensorError>
    decreases pending(input, target, 0),
    when reducible(input, target)
    via reduction_passes_decreases
{
    match first_difference(input, target, 0) {
        None => Ok(Seq::empty()),
        Some(d) => match spec_reduction_pass(operation, input, d) {
            Err(e) => Err(e),
            Ok(pass) => match spec_reduction_passes(operation, pass.1, target) {
                Err(e) => Err(e),
                Ok(rest) => Ok(seq![pass] + rest),
            },
        },
    }
}

#[via_fn]
proof fn reduction_passes_decreases(operation: ReductionOperation, input: Seq<u32>, target: Seq<u32>) {
    if let Some(d) = first_difference(input, target, 0) {
        if let Ok(pass) = spec_reduction_pass(operation, input, d) {
            lemma_pass_shrinks(operation, input, target, d);
        }
    }
}

/// The first difference is a real difference, with nothing differing before it.
proof fn lemma_first_difference(a: Seq<u32>, b: Seq<u32>, from: int)
    requires
        0 <= from,
    ensures
        first_difference(a, b, from) matches Some(d) ==> from <= d < 8 && a[d] != b[d],
        first_difference(a, b, from) is None ==> forall|i: int| from <= i < 8 ==> a[i] == b[i],
    decreases 8 - from,
{
    if from < 8 && a[from] == b[from] {
        lemma_first_difference(a, b, from + 1);
    }
}

/// Changing dimension `d` changes `pending` by that dimension's share only.
proof fn lemma_pending_update(input: Seq<u32>, target: Seq<u32>, d: int, v: u32, from: int)
    requires
        0 <= from <= 8,
        0 <= d < 8,
        input.len() == 8,
    ensures
        pending(input.update(d, v), target, from) + (if from <= d && input[d] != target[d] { input[d] as nat + 1 } else { 0 })
            == pending(input, target, from) + (if from <= d && v != target[d] { v as nat + 1 } else { 0 }),
    decreases 8 - from,
{
    if from < 8 {
        lemma_pending_update(input, target, d, v, from + 1);
    }
}

/// A pass shrinks what is left to reduce, and keeps the target reachable.
proof fn lemma_pass_shrinks(operation: ReductionOperation, input: Seq<u32>, target: Seq<u32>, d: int)
    requires
        reducible(input, target),
        first_difference(input, target, 0) == Some(d),
        spec_reduction_pass(operation, input, d) is Ok,
    ensures
        spec_reduction_pass(operation, input, d) matches Ok(pass) && {
            &&& pending(pass.1, target, 0) < pending(input, target, 0)
            &&& reducible(pass.1, target)
            &&& pass.1 == input.update(d, reduced_size(input[d]) as u32)
        },
{
    lemma_first_difference(input, target, 0);
    let r = input[d];
    assert(target[d] == 1);
    let shift = spec_cluster_shift(r);
    lemma_cluster_shift_range(r);
    lemma_pow2_pos(shift as nat);
    lemma_pow2_unfold(shift as nat);
    if shift > 1 {
        lemma_pow2_strictly_increases(1, shift as nat);
    }
    lemma2_to64();
    let reduced = reduced_size(r);
    if r == 0 {
        assert(reduced == 1);
    } else {
        assert(r >= 2);
        assert(pow2(shift as nat) >= 2);
        assert((r - 1) / (pow2(shift as nat) as int) <= (r - 1) / 2) by {
            vstd::arithmetic::div_mod::lemma_div_is_ordered_by_denominator(r - 1, 2, pow2(shift as nat) as int);
        }
        assert(reduced < r);
    }
    assert(0 < reduced <= u32::MAX);
    lemma_pending_update(input, target, d, reduced as u32, 0);
}

proof fn lemma_cluster_shift_range(r: u32)
    ensures
        1 <= spec_cluster_shift(r) <= 8,
{
    let m: u32 = if r < 256 { r } else { 256 };
    lemma_ceil_log2_bound(m as nat);
}

/// One planned reduction pass: its parameter block, the shape and pooled
/// buffer size of its output, and its workgroup grid.
#[derive(Debug)]
pub struct ReductionPass {
    pub params: ReductionParameters,
    pub output_shape: Shape,
    pub bucket: u64,
    pub workgroups: Option<(u32, u32, u32)>,
}

/// A planned reduction: either nothing to reduce (the result is a copy of
/// the operand) or the chain of passes.
#[derive(Debug)]
pub enum ReductionPlan {
    Copy,
    Passes(Vec<ReductionPass>),
}

/// A planned pass is the pass the chain specifies.
pub open spec fn pass_matches(pass: ReductionPass, spec: (ReductionParameters, Seq<u32>, u64, u32)) -> bool {
    &&& pass.params == spec.0
    &&& pass.output_shape@ == spec.1
    &&& pass.bucket == spec.2
    &&& grid_for(spec.3, pass.workgroups)
}

/// Every planned pass is the pass the chain specifies, in order.
pub open spec fn passes_match(passes: Seq<ReductionPass>, specs: Seq<(ReductionParameters, Seq<u32>, u64, u32)>) -> bool {
    &&& passes.len() == specs.len()
    &&& forall|k: int| 0 <= k < passes.len() ==> pass_matches(#[trigger] passes[k], specs[k])
}

/// The chain result after passes `done` were already taken.
pub open spec fn after_passes(
    done: Seq<(ReductionParameters, Seq<u32>, u64, u32)>,
    rest: Result<Seq<(ReductionParameters, Seq<u32>, u64, u32)>, TensorError>,
) -> Result<Seq<(ReductionParameters, Seq<u32>, u64, u32)>, TensorError> {
    match rest {
        Err(e) => Err(e),
        Ok(more) => Ok(done + more),
    }
}

/// One reduction pass along dimension `dimension` of a tensor of shape
/// `input`; see `spec_reduction_pass`.
pub fn reduction_pass(operation: ReductionOperation, input: Shape, dimension: usize)
    -> (r: Result<ReductionPass, TensorError>)
    requires
        dimension < 8,
    ensures
        match spec_reduction_pass(operation, input@, dimension as int) {
            Err(e) => r == Err::<ReductionPass, TensorError>(e),
            Ok(p) => r matches Ok(pass) && pass_matches(pass, p),
        },
{
    let ghost d = dimension as int;
    let reduction_size = input[dimension];
    let mut inner_size: u32 = 1;
    let mut i: usize = 0;
    while i < dimension
        invariant
            i <= dimension < 8,
            d == dimension,
            checked_product(input@, i as int, u32::MAX as int) == Some(inner_size as int),
        decreases dimension - i,
    {
        inner_size = match inner_size.checked_mul(input[i]) {
            Some(v) => v,
            None => {
                proof {
                    lemma_checked_product_fails(input@, i as int + 1, d, u32::MAX as int);
                }
                return Err(TensorError::OversizedDispatch);
            },
        };
        i = i + 1;
    }
    let ghost after = input@.skip(d + 1);
    let mut outer_size: u32 = 1;
    let mut j: usize = dimension + 1;
    while j < 8
        invariant
            dimension < j <= 8,
            d == dimension,
            after == input@.skip(d + 1),
            checked_product(input@, d, u32::MAX as int) == Some(inner_size as int),
            checked_product(after, j - (d + 1), u32::MAX as int) == Some(outer_size as int),
        decreases 8 - j,
    {
        assert(after[j - (d + 1)] == input[j as int]);
        outer_size = match outer_size.checked_mul(input[j]) {
            Some(v) => v,
            None => {
                proof {
                    lemma_checked_product_fails(after, j - d, 7 - d, u32::MAX as int);
                }
                return Err(TensorError::OversizedDispatch);
            },
        };
        j = j + 1;
    }
    let shift = cluster_shift(reduction_size);
    let base = if reduction_size > 1 { reduction_size } else { 1 };
    let below = base - 1;
    proof {
        lemma_u32_shr_is_div(below, shift);
        lemma_pow2_pos(shift as nat);
        vstd::arithmetic::div_mod::lemma_div_is_ordered_by_denominator(below as int, 1, pow2(shift as nat) as int);
    }
    let reduced = (below >> shift) + 1;
    assert(reduced as int == reduced_size(reduction_size));
    let mut shape = input;
    shape[dimension] = reduced;
    assert(shape@ =~= input@.update(d, reduced));
    let bucket = bucket_size(shape)?;
    proof {
        lemma_checked_product_nonneg(input@, d, u32::MAX as int);
        lemma_checked_product_nonneg(after, 7 - d, u32::MAX as int);
    }
    let partial = match inner_size.checked_mul(reduced) {
        Some(v) => v,
        None => return Err(TensorError::OversizedDispatch),
    };
    let cluster_count = match partial.checked_mul(outer_size) {
        Some(v) => v,
        None => return Err(TensorError::OversizedDispatch),
    };
    proof {
        lemma_u32_shr_is_div(256u32, shift);
        lemma_pow2_subtracts(shift as nat, 8);
        lemma2_to64();
        lemma_pow2_pos((8 - shift) as nat);
    }
    let clusters_per_workgroup: u32 = 256u32 >> shift;
    assert(clusters_per_workgroup as int == pow2((8 - shift) as nat));
    let num_workgroups = u32_div_ceil(cluster_count, clusters_per_workgroup);
    let workgroups = workgroup_grid(num_workgroups);
    let params = ReductionParameters {
        operation,
        cluster_shift: shift,
        inner_size,
        reduction_size,
        outer_size,
    };
    Ok(ReductionPass { params, output_shape: shape, bucket, workgroups })
}

/// The first dimension where two shapes differ.
pub fn first_difference_index(a: &Shape, b: &Shape) -> (r: Option<usize>)
    ensures
        match first_difference(a@, b@, 0) {
            None => r is None,
            Some(d) => r == Some(d as usize),
        },
{
    let mut i: usize = 0;
    while i < 8
        invariant
            i <= 8,
            first_difference(a@, b@, 0) == first_difference(a@, b@, i as int),
        decreases 8 - i,
    {
        if a[i] != b[i] {
            return Some(i);
        }
        i = i + 1;
    }
    None
}

/// Reducing a tensor of shape `shape` over `dimensions`: the output shape
/// (`spec_reduced_shape`), then, if it differs from `shape`, the chain of
/// passes that reaches it; otherwise a copy.
pub fn reduction_plan(operation: ReductionOperation, shape: Shape, dimensions: &[usize])
    -> (r: Result<ReductionPlan, TensorError>)
    ensures
        match spec_reduced_shape(shape@, dimensions@) {
            Err(e) => r == Err::<ReductionPlan, TensorError>(e),
            Ok(target) => if first_difference(shape@, target, 0) is None {
                r matches Ok(ReductionPlan::Copy)
            } else {
                match spec_reduction_passes(operation, shape@, target) {
                    Err(e) => r == Err::<ReductionPlan, TensorError>(e),
                    Ok(passes) => r matches Ok(ReductionPlan::Passes(v)) && passes_match(v@, passes),
                }
            },
        },
{
    let mut output_shape = shape;
    let mut k: usize = 0;
    while k < dimensions.len()
        invariant
            k <= dimensions@.len(),
            forall|j: int| 0 <= j < k ==> dimensions@[j] < 8,
            forall|i: int| 0 <= i < 8 ==> #[trigger] output_shape[i]
                == if dimensions@.take(k as int).contains(i as usize) { 1u32 } else { shape[i] },
        decreases dimensions@.len() - k,
    {
        let index = dimensions[k];
        if index < 8 {
            output_shape[index] = 1;
        } else {
            return Err(TensorError::IndexOutOfBounds);
        }
        assert forall|i: int| 0 <= i < 8 implies #[trigger] output_shape[i]
            == if dimensions@.take(k + 1).contains(i as usize) { 1u32 } else { shape[i] } by {
            assert(dimensions@.take(k + 1) =~= dimensions@.take(k as int).push(index));
            if i as usize == index {
                assert(dimensions@.take(k + 1)[k as int] == index);
            }
        }
        k = k + 1;
    }
    assert(dimensions@.take(dimensions@.len() as int) =~= dimensions@);
    let ghost target = output_shape@;
    assert(spec_reduced_shape(shape@, dimensions@) == Ok::<Seq<u32>, TensorError>(target)) by {
        assert(target =~= Seq::new(8, |i: int| if dimensions@.contains(i as usize) { 1u32 } else { shape[i] }));
    }
    assert(reducible(shape@, target));

    if first_difference_index(&shape, &output_shape).is_none() {
        return Ok(ReductionPlan::Copy);
    }

    let mut passes: Vec<ReductionPass> = Vec::new();
    let ghost mut done: Seq<(ReductionParameters, Seq<u32>, u64, u32)> = Seq::empty();
    let mut current = shape;
    assert(done + spec_reduction_passes(operation, shape@, target)->Ok_0 =~= spec_reduction_passes(operation, shape@, target)->Ok_0);
    loop
        invariant
            target == output_shape@,
            spec_reduced_shape(shape@, dimensions@) == Ok::<Seq<u32>, TensorError>(target),
            first_difference(shape@, target, 0) is Some,
            reducible(current@, target),
            spec_reduction_passes(operation, shape@, target)
                == after_passes(done, spec_reduction_passes(operation, current@, target)),
            passes_match(passes@, done),
        decreases pending(current@, target, 0),
    {
        match first_difference_index(&current, &output_shape) {
            None => {
                assert(done + Seq::<(ReductionParameters, Seq<u32>, u64, u32)>::empty() =~= done);
                return Ok(ReductionPlan::Passes(passes));
            },
            Some(dimension) => {
                proof {
                    lemma_first_difference(current@, target, 0);
                }
                let pass = reduction_pass(operation, current, dimension)?;
                proof {
                    lemma_pass_shrinks(operation, current@, target, dimension as int);
                    let spec = spec_reduction_pass(operation, current@, dimension as int)->Ok_0;
                    let rest = spec_reduction_passes(operation, spec.1, target);
                    if let Ok(more) = rest {
                        assert(done.push(spec) + more =~= done + (seq![spec] + more));
                    }
                    done = done.push(spec);
                }
                current = pass.output_shape;
                passes.push(pass);
            },
        }
    }
}

/// A reduction chain ends exactly at the requested shape: it is empty
/// precisely when there is nothing to reduce, and otherwise its last pass
/// outputs `target`. Each pass starts from the previous pass's output.
pub proof fn lemma_reduction_reaches_target(operation: ReductionOperation, input: Seq<u32>, target: Seq<u32>)
    requires
        reducible(input, target),
    ensures
        spec_reduction_passes(operation, input, target) matches Ok(passes) ==> {
            &&& (passes.len() == 0 <==> input == target)
            &&& passes.len() > 0 ==> passes.last().1 == target
            &&& forall|k: int| 0 < k < passes.len() ==>
                (#[trigger] passes[k]).0.reduction_size == passes[k - 1].1[first_difference(passes[k - 1].1, target, 0)->Some_0]
        },
    decreases pending(input, target, 0),
{
    lemma_first_difference(input, target, 0);
    match first_difference(input, target, 0) {
        None => {
            assert(input =~= target);
        },
        Some(d) => {
            assert(input != target) by {
                assert(input[d] != target[d]);
            }
            if let Ok(pass) = spec_reduction_pass(operation, input, d) {
                lemma_pass_shrinks(operation, input, target, d);
                lemma_reduction_reaches_target(operation, pass.1, target);
                if let Ok(rest) = spec_reduction_passes(operation, pass.1, target) {
                    let passes = seq![pass] + rest;
                    assert forall|k: int| 0 < k < passes.len() implies
                        (#[trigger] passes[k]).0.reduction_size == passes[k - 1].1[first_difference(passes[k - 1].1, target, 0)->Some_0] by {
                        if k == 1 {
                            lemma_first_difference(pass.1, target, 0);
                            if let Some(d2) = first_difference(pass.1, target, 0) {
                                lemma_pass_input(operation, pass.1, d2);
                            }
                        } else {
                            assert(passes[k] == rest[k - 1]);
                            assert(passes[k - 1] == rest[k - 2]);
                        }
                    }
                }
            }
        },
    }
}

/// The reduced dimension of a pass is read from the pass's input.
proof fn lemma_pass_input(operation: ReductionOperation, input: Seq<u32>, d: int)
    ensures
        spec_reduction_pass(operation, input, d) matches Ok(pass) ==> pass.0.reduction_size == input[d],
{
}

/// The reduced shape and the number of elements each output of a mean
/// averages, over the first `n` listed dimensions: an index past the eighth
/// dimension fails with `IndexOutOfBounds`, a count past 32 bits with
/// `OversizedDispatch`; a dimension listed twice counts once.
pub open spec fn mean_fold(shape: Seq<u32>, dimensions: Seq<usize>, n: int) -> Result<(Seq<u32>, int), TensorError>
    decreases n,
{
    if n <= 0 {
        Ok((shape, 1))
    } else {
        match mean_fold(shape, dimensions, n - 1) {
            Err(e) => Err(e),
            Ok((output, count)) => {
                let index = dimensions[n - 1];
                if index >= 8 {
                    Err(TensorError::IndexOutOfBounds)
                } else if count * output[index as int] > u32::MAX {
                    Err(TensorError::OversizedDispatch)
                } else {
                    Ok((output.update(index as int, 1), count * output[index as int]))
                }
            },
        }
    }
}

proof fn lemma_mean_fold_failure_sticks(shape: Seq<u32>, dimensions: Seq<usize>, n: int, m: int)
    requires
        n <= m,
        mean_fold(shape, dimensions, n) is Err,
    ensures
        mean_fold(shape, dimensions, m) == mean_fold(shape, dimensions, n),
    decreases m - n,
{
    if m > n {
        lemma_mean_fold_failure_sticks(shape, dimensions, n, m - 1);
    }
}

/// The output shape and element count of a mean of a tensor of shape
/// `shape` over `dimensions`; see `mean_fold`.
pub fn mean_plan(shape: Shape, dimensions: &[usize]) -> (r: Result<(Shape, u32), TensorError>)
    ensures
        match mean_fold(shape@, dimensions@, dimensions@.len() as int) {
            Err(e) => r == Err::<(Shape, u32), TensorError>(e),
            Ok((output, count)) => r matches Ok((out, c)) && out@ == output && c == count,
        },
{
    let mut output_shape = shape;
    let mut count: u32 = 1;
    let mut k: usize = 0;
    while k < dimensions.len()
        invariant
            k <= dimensions@.len(),
            mean_fold(shape@, dimensions@, k as int) == Ok::<(Seq<u32>, int), TensorError>((output_shape@, count as int)),
        decreases dimensions@.len() - k,
    {
        proof {
            if mean_fold(shape@, dimensions@, k + 1) is Err {
                lemma_mean_fold_failure_sticks(shape@, dimensions@, k + 1, dimensions@.len() as int);
            }
        }
        let index = dimensions[k];
        if index >= 8 {
            return Err(TensorError::IndexOutOfBounds);
        }
        count = match count.checked_mul(output_shape[index]) {
            Some(v) => v,
            None => return Err(TensorError::OversizedDispatch),
        };
        output_shape[index] = 1;
        k = k + 1;
    }
    Ok((output_shape, count))
}

/// A reduction pass along dimension `d` walks the input's real layout:
/// its reduced extent is the size of `d`, its inner extent the product of
/// the sizes before `d`, and inner, reduced and outer extents together
/// cover every input element (their product is the product of all eight
/// sizes). Its output keeps every other size and shrinks `d` to the number
/// of clusters, the least count whose clusters of `2^shift` cover it.
pub proof fn lemma_reduction_pass_extents(operation: ReductionOperation, input: Seq<u32>, d: int)
    requires
        input.len() == 8,
        0 <= d < 8,
    ensures
        spec_reduction_pass(operation, input, d) matches Ok(pass) ==> {
            let p = pass.0;
            let out = pass.1;
            let cluster = pow2(p.cluster_shift as nat) as int;
            let r = if input[d] > 1 { input[d] as int } else { 1 };
            &&& p.operation == operation
            &&& p.reduction_size == input[d]
            &&& p.inner_size == prefix_product(input, d)
            &&& p.inner_size * p.reduction_size * p.outer_size == product_of_sizes(input)
            &&& out.len() == 8
            &&& forall|i: int| 0 <= i < 8 && i != d ==> #[trigger] out[i] == input[i]
            &&& (out[d] - 1) * cluster < r <= out[d] * cluster
        },
{
    if let Ok(pass) = spec_reduction_pass(operation, input, d) {
        let after = input.skip(d + 1);
        lemma_checked_product_value(input, d, u32::MAX as int);
        lemma_checked_product_value(after, 7 - d, u32::MAX as int);
        lemma_prefix_product_split(input, d + 1, 7 - d);
        lemma_prefix_product_eight(input);
        let inner = prefix_product(input, d);
        let outer = prefix_product(after, 7 - d);
        let v = input[d] as int;
        assert(prefix_product(input, d + 1) == inner * v);
        assert(inner * v * outer == (inner * v) * outer);
        let shift = spec_cluster_shift(input[d]);
        lemma_pow2_pos(shift as nat);
        let cluster = pow2(shift as nat) as int;
        let r = if input[d] > 1 { input[d] as int } else { 1 };
        let reduced = reduced_size(input[d]);
        vstd::arithmetic::div_mod::lemma_fundamental_div_mod(r - 1, cluster);
        vstd::arithmetic::div_mod::lemma_mod_pos_bound(r - 1, cluster);
        assert((reduced - 1) * cluster < r <= reduced * cluster) by (nonlinear_arith)
            requires
                reduced == (r - 1) / cluster + 1,
                r - 1 == cluster * ((r - 1) / cluster) + (r - 1) % cluster,
                0 <= (r - 1) % cluster < cluster,
        ;
        lemma_cluster_shift_range(input[d]);
        lemma2_to64();
        lemma_pow2_increases_to(shift as nat);
        assert(reduced <= u32::MAX) by (nonlinear_arith)
            requires reduced == (r - 1) / cluster + 1, r <= u32::MAX, cluster >= 1, r >= 1;
        lemma_checked_product_nonneg(input, d, u32::MAX as int);
        lemma_checked_product_nonneg(after, 7 - d, u32::MAX as int);
        assert(inner <= u32::MAX && outer <= u32::MAX);
        assert(pass.0.inner_size as int == inner);
        assert(pass.0.outer_size as int == outer);
        assert(pass.0.reduction_size as int == v);
        assert(pass.1[d] as int == reduced);
        assert(pass.0.inner_size * pass.0.reduction_size * pass.0.outer_size == product_of_sizes(input));
    }
}

proof fn lemma_pow2_increases_to(k: nat)
    ensures
        pow2(k) >= 1,
{
    lemma_pow2_pos(k);
}

/// The factors a mean divides by: the size of each listed dimension, one
/// for every other.
pub open spec fn listed_sizes(shape: Seq<u32>, dimensions: Seq<usize>) -> Seq<u32> {
    Seq::new(8, |i: int| if dimensions.contains(i as usize) { shape[i] } else { 1u32 })
}

/// Changing one factor of a product.
proof fn lemma_prefix_product_update(s: Seq<u32>, j: int, v: u32, n: int)
    requires
        0 <= j < n <= s.len(),
    ensures
        prefix_product(s.update(j, v), n) * s[j] == prefix_product(s, n) * v,
    decreases n,
{
    let t = s.update(j, v);
    if n - 1 == j {
        crate::indexing::lemma_prefix_product_agree(s, t, j);
        let p = prefix_product(s, j);
        assert(p * v * s[j] == p * s[j] * v) by (nonlinear_arith);
    } else {
        lemma_prefix_product_update(s, j, v, n - 1);
        let a = prefix_product(t, n - 1);
        let b = prefix_product(s, n - 1);
        let x = s[n - 1] as int;
        assert(t[n - 1] == s[n - 1]);
        assert(a * x * s[j] == b * x * v) by (nonlinear_arith)
            requires a * s[j] == b * v;
    }
}

proof fn lemma_mean_fold_steps(shape: Seq<u32>, dimensions: Seq<usize>, n: int)
    requires
        shape.len() == 8,
        0 <= n <= dimensions.len(),
    ensures
        mean_fold(shape, dimensions, n) matches Ok((out, count)) ==> {
            &&& forall|k: int| 0 <= k < n ==> #[trigger] dimensions[k] < 8
            &&& out == Seq::new(8, |i: int| if dimensions.take(n).contains(i as usize) { 1u32 } else { shape[i] })
            &&& count == prefix_product(listed_sizes(shape, dimensions.take(n)), 8)
        },
    decreases n,
{
    let taken = dimensions.take(n);
    if n == 0 {
        assert(taken =~= Seq::<usize>::empty());
        assert(shape =~= Seq::new(8, |i: int| if taken.contains(i as usize) { 1u32 } else { shape[i] }));
        assert(listed_sizes(shape, taken) =~= Seq::new(8, |i: int| 1u32));
        reveal_with_fuel(prefix_product, 9);
    } else {
        lemma_mean_fold_steps(shape, dimensions, n - 1);
        if let Ok((out, count)) = mean_fold(shape, dimensions, n) {
            let prev_taken = dimensions.take(n - 1);
            let (prev_out, prev_count) = mean_fold(shape, dimensions, n - 1)->Ok_0;
            let index = dimensions[n - 1];
            let j = index as int;
            assert(taken =~= prev_taken.push(index));
            assert forall|k: int| 0 <= k < n implies #[trigger] dimensions[k] < 8 by {
                if k < n - 1 {
                    assert(prev_taken[k] == dimensions[k]);
                }
            }
            assert forall|u: usize| #[trigger] taken.contains(u) <==> prev_taken.contains(u) || u == index by {
                if taken.contains(u) {
                    let k = choose|k: int| 0 <= k < taken.len() && taken[k] == u;
                    if k < n - 1 {
                        assert(prev_taken[k] == u);
                    }
                }
                if prev_taken.contains(u) {
                    let k = choose|k: int| 0 <= k < prev_taken.len() && prev_taken[k] == u;
                    assert(taken[k] == u);
                }
                if u == index {
                    assert(taken[n - 1] == u);
                }
            }
            assert(out =~= Seq::new(8, |i: int| if taken.contains(i as usize) { 1u32 } else { shape[i] }));
            let before = listed_sizes(shape, prev_taken);
            let after = listed_sizes(shape, taken);
            if prev_taken.contains(index) {
                assert(after =~= before);
                assert(prev_out[j] == 1);
            } else {
                assert(prev_out[j] == shape[j]);
                assert(before[j] == 1);
                assert(after =~= before.update(j, shape[j]));
                lemma_prefix_product_update(before, j, shape[j], 8);
            }
        }
    }
}

/// A mean over `dimensions` averages over exactly the listed dimensions:
/// when it succeeds every listed index is a dimension, the output has size
/// one along each listed dimension and keeps every other size, and the
/// count it divides by is the product of the sizes of the distinct listed
/// dimensions (so over all dimensions the output is a single value and the
/// count is the element count).
pub proof fn lemma_mean_counts_listed_dimensions(shape: Seq<u32>, dimensions: Seq<usize>)
    requires
        shape.len() == 8,
    ensures
        mean_fold(shape, dimensions, dimensions.len() as int) matches Ok((out, count)) ==> {
            &&& forall|k: int| 0 <= k < dimensions.len() ==> #[trigger] dimensions[k] < 8
            &&& out.len() == 8
            &&& forall|i: int| 0 <= i < 8 ==> #[trigger] out[i] == if dimensions.contains(i as usize) { 1u32 } else { shape[i] }
            &&& count == product_of_sizes(listed_sizes(shape, dimensions))
        },
{
    lemma_mean_fold_steps(shape, dimensions, dimensions.len() as int);
    assert(dimensions.take(dimensions.len() as int) =~= dimensions);
    lemma_prefix_product_eight(listed_sizes(shape, dimensions));
}

} // verus!
