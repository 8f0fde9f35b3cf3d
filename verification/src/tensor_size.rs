//! How many bytes a tensor occupies, and which pooled buffer size serves it.

use vstd::prelude::*;
use vstd::arithmetic::power2::*;
use vstd::arithmetic::div_mod::*;
use vstd::bits::*;
use vstd::std_specs::bits::*;

use crate::error::TensorError;
use crate::fastdiv::{spec_floor_log2, lemma_floor_log2_bounds, lemma_floor_log2_unique};
use crate::ints::{round_up, u64_checked_next_multiple_of, checked_product, lemma_checked_product_fails};
use crate::shape::Shape;

verus! {

/// Bytes per element: elements are 32-bit floats.
pub const ELEMENT_BYTES: u64 = 4;

/// The smallest buffer handed out for a temporary tensor.
pub const MIN_TEMPORARY_CAPACITY: u64 = 256;

/// Pooled buffer sizes are spaced at this many per power of two.
pub const BUCKETS_PER_OCTAVE: u64 = 4;

/// `wgpu::COPY_BUFFER_ALIGNMENT`: buffer copies and buffer sizes come in
/// multiples of it; wgpu-types defines it as 4.
#[verifier::external_body]
pub(crate) fn copy_buffer_alignment() -> (r: u64)
    ensures
        r == 4,
{
    wgpu::COPY_BUFFER_ALIGNMENT
}

/// The number of data bytes of a tensor of the given shape: four per
/// element, failing with `OversizedTensor` if the element count or the byte
/// count leaves 64 bits.
pub open spec fn spec_data_size(shape: Seq<u32>) -> Result<u64, TensorError> {
    match checked_product(shape, 8, u64::MAX as int) {
        None => Err(TensorError::OversizedTensor),
        Some(p) => if p * 4 > u64::MAX {
            Err(TensorError::OversizedTensor)
        } else {
            Ok((p * 4) as u64)
        },
    }
}

/// The buffer size for a tensor: its data size rounded up to the copy
/// alignment, and never zero (an empty tensor gets one aligned word).
pub open spec fn spec_buffer_size(shape: Seq<u32>) -> Result<u64, TensorError> {
    match spec_data_size(shape) {
        Err(e) => Err(e),
        Ok(d) => {
            let rounded = if round_up(d as int, 4) > u64::MAX { u64::MAX } else { round_up(d as int, 4) as u64 };
            Ok(if rounded == 0 { 4u64 } else { rounded })
        },
    }
}

/// The bucket width for a buffer of `required` bytes: a quarter of the
/// largest power of two not above it, and at least the copy alignment.
pub open spec fn bucket_width(required: u64) -> u64 {
    let octave = pow2(spec_floor_log2(required as nat));
    if octave / 4 > 4 { (octave / 4) as u64 } else { 4 }
}

/// The pooled buffer size for a temporary tensor: its buffer size, at least
/// `MIN_TEMPORARY_CAPACITY`, rounded up to its bucket width (or the largest
/// size if that does not fit).
pub open spec fn spec_bucket_size(shape: Seq<u32>) -> Result<u64, TensorError> {
    match spec_buffer_size(shape) {
        Err(e) => Err(e),
        Ok(b) => {
            let required: u64 = if b > 256 { b } else { 256 };
            let width = bucket_width(required);
            Ok(if round_up(required as int, width as int) > u64::MAX {
                u64::MAX
            } else {
                round_up(required as int, width as int) as u64
            })
        },
    }
}

/// The number of data bytes of a tensor of shape `shape`.
pub fn data_size(shape: Shape) -> (r: Result<u64, TensorError>)
    ensures
        r == spec_data_size(shape@),
{
    let mut product: u64 = 1;
    let mut i: usize = 0;
    while i < 8
        invariant
            i <= 8,
            checked_product(shape@, i as int, u64::MAX as int) == Some(product as int),
        decreases 8 - i,
    {
        product = match product.checked_mul(shape[i] as u64) {
            Some(p) => p,
            None => {
                proof {
                    lemma_checked_product_fails(shape@, i as int + 1, 8, u64::MAX as int);
                }
                return Err(TensorError::OversizedTensor);
            },
        };
        i = i + 1;
    }
    match product.checked_mul(ELEMENT_BYTES) {
        Some(bytes) => Ok(bytes),
        None => Err(TensorError::OversizedTensor),
    }
}

/// The size of the buffer that holds a tensor of shape `shape`; never zero.
pub fn buffer_size(shape: Shape) -> (r: Result<u64, TensorError>)
    ensures
        r == spec_buffer_size(shape@),
        r matches Ok(b) ==> b > 0,
{
    let alignment = copy_buffer_alignment();
    let size = data_size(shape)?;
    let rounded = match u64_checked_next_multiple_of(size, alignment) {
        Some(v) => v,
        None => u64::MAX,
    };
    if rounded == 0 {
        Ok(alignment)
    } else {
        Ok(rounded)
    }
}

/// `63 - leading_zeros(x)` is `floor_log2(x)` for a nonzero `x`.
proof fn lemma_u64_leading_zeros_log2(x: u64)
    requires
        x != 0,
    ensures
        u64_leading_zeros(x) < 64,
        63 - u64_leading_zeros(x) == spec_floor_log2(x as nat),
{
    axiom_u64_leading_zeros(x);
    let lz = u64_leading_zeros(x) as u64;
    let l: u64 = (63 - lz) as u64;
    let l1: u64 = (64 - lz) as u64;
    assert((x >> l) & 1u64 != 0u64);
    assert(x >> l1 == 0);
    assert(x >> l == 1) by (bit_vector)
        requires
            lz < 64,
            l == 63 - lz,
            l1 == 64 - lz,
            (x >> l) & 1u64 != 0u64,
            x >> l1 == 0,
    ;
    lemma_u64_shr_is_div(x, l);
    lemma_pow2_pos(l as nat);
    lemma_pow2_unfold(l as nat + 1);
    lemma_fundamental_div_mod(x as int, pow2(l as nat) as int);
    lemma_floor_log2_unique(x as nat, l as nat);
}

/// Rounding up to a positive multiple never goes below the value.
pub proof fn lemma_round_up_at_least(x: int, m: int)
    requires
        0 <= x,
        0 < m,
    ensures
        x <= round_up(x, m) < x + m,
        round_up(x, m) % m == 0,
{
    let q = (x + m - 1) / m;
    lemma_fundamental_div_mod(x + m - 1, m);
    assert(q * m == m * q) by (nonlinear_arith);
    lemma_mod_multiples_basic(q, m);
}

/// The pooled buffer size for a temporary tensor of shape `shape`.
pub fn bucket_size(shape: Shape) -> (r: Result<u64, TensorError>)
    ensures
        r == spec_bucket_size(shape@),
        r matches Ok(b) ==> b > 0,
{
    let buffer = buffer_size(shape)?;
    let required = if buffer > MIN_TEMPORARY_CAPACITY { buffer } else { MIN_TEMPORARY_CAPACITY };
    proof {
        lemma_u64_leading_zeros_log2(required);
        lemma_floor_log2_bounds(required as nat);
        lemma_u64_pow2_no_overflow(spec_floor_log2(required as nat));
        lemma_u64_shl_is_mul(1, (63 - u64_leading_zeros(required)) as u64);
    }
    let octave = 1u64 << ((u64::BITS - 1) - required.leading_zeros()) as u64;
    let quarter = octave / BUCKETS_PER_OCTAVE;
    let alignment = copy_buffer_alignment();
    let width = if quarter > alignment { quarter } else { alignment };
    assert(width == bucket_width(required));
    proof {
        lemma_round_up_at_least(required as int, width as int);
    }
    match u64_checked_next_multiple_of(required, width) {
        Some(size) => if size != 0 { Ok(size) } else { Ok(u64::MAX) },
        None => Ok(u64::MAX),
    }
}

/// A pooled buffer always holds the tensor it is handed to: the bucket
/// size of a shape exists exactly when its buffer size does, is at least
/// that buffer size and `MIN_TEMPORARY_CAPACITY`, and (unless it is the
/// largest size) exceeds the larger of the two by less than a quarter of it
/// plus the copy alignment.
pub proof fn lemma_bucket_holds_buffer(shape: Seq<u32>)
    ensures
        spec_bucket_size(shape) is Ok <==> spec_buffer_size(shape) is Ok,
        spec_bucket_size(shape) matches Ok(b) ==> {
            let s = spec_buffer_size(shape)->Ok_0;
            let required = if s > MIN_TEMPORARY_CAPACITY { s } else { MIN_TEMPORARY_CAPACITY };
            &&& s <= b
            &&& MIN_TEMPORARY_CAPACITY <= b
            &&& b < u64::MAX ==> b * 4 < required * 5 + 16
        },
{
    if let Ok(s) = spec_buffer_size(shape) {
        let required: u64 = if s > 256 { s } else { 256 };
        let width = bucket_width(required);
        lemma_floor_log2_bounds(required as nat);
        let octave = pow2(spec_floor_log2(required as nat));
        assert(width <= required / 4 + 4);
        lemma_round_up_at_least(required as int, width as int);
    }
}

} // verus!
