//! Which operand elements an output element of a broadcast operation
//! reads: once by the definition over all eight dimensions, once through
//! the merged dimensions of a broadcast block as the device computes it;
//! and the proof that the two agree.

use vstd::prelude::*;
use vstd::arithmetic::div_mod::*;

use vstd::wrapping::u32_specs::{wrapping_add, wrapping_mul, wrapping_sub};

use vstd::arithmetic::power2::*;
use vstd::bits::*;

use crate::broadcasting::{
    BroadcastInfo, Dimension, block_layout, compatible, describes, lane, lemma_lane_bound, lemma_merge_counts,
    lemma_run_product, lemma_unpack_pack, merge_dims, merged_runs, run_dimension, same_pattern, spec_broadcast_dimension,
    spec_pack,
};
use crate::error::TensorError;
use crate::fastdiv::{lemma_fast_div_exact, spec_create_div};
use crate::plans::{broadcast_fold, lemma_broadcast_fold_facts};

verus! {

/// The product of the first `k` sizes of `s`.
pub open spec fn prefix_product(s: Seq<u32>, k: int) -> int
    decreases k,
{
    if k <= 0 {
        1
    } else {
        prefix_product(s, k - 1) * s[k - 1]
    }
}

/// Coordinate `k` of element `e` of a tensor of shape `out`, dimension
/// zero varying fastest.
pub open spec fn coordinate(out: Seq<u32>, e: int, k: int) -> int {
    (e / prefix_product(out, k)) % (out[k] as int)
}

/// The element of an operand of shape `operand` that element `e` of the
/// broadcast output (shape `out`) reads, over the first `n` dimensions:
/// each dimension where the operand has size one contributes nothing, any
/// other contributes its coordinate times the operand's stride.
pub open spec fn operand_offset(operand: Seq<u32>, out: Seq<u32>, e: int, n: int) -> int
    decreases n,
{
    if n <= 0 {
        0
    } else {
        operand_offset(operand, out, e, n - 1) + if operand[n - 1] != 1 {
            coordinate(out, e, n - 1) * prefix_product(operand, n - 1)
        } else {
            0
        }
    }
}

/// The size of the dimension a run of sizes `(x, y)` becomes.
pub open spec fn run_size(run: (u32, u32)) -> int {
    if run.0 == 1 { run.1 as int } else { run.0 as int }
}

/// Whether the left (or, with `right`, the right) operand walks along a run.
pub open spec fn walks(run: (u32, u32), right: bool) -> bool {
    if right { run.1 != 1 } else { run.0 != 1 }
}

/// The product of the sizes of the runs.
pub open spec fn runs_product(runs: Seq<(u32, u32)>) -> int
    decreases runs.len(),
{
    if runs.len() == 0 {
        1
    } else {
        runs_product(runs.drop_last()) * run_size(runs.last())
    }
}

/// The product of the sizes of the runs an operand walks along: its
/// stride past those runs.
pub open spec fn walked_product(runs: Seq<(u32, u32)>, right: bool) -> int
    decreases runs.len(),
{
    if runs.len() == 0 {
        1
    } else {
        walked_product(runs.drop_last(), right) * if walks(runs.last(), right) { run_size(runs.last()) } else { 1 }
    }
}

/// The operand element output element `e` reads, through the runs: each
/// run the operand walks contributes `e`'s digit along it times the
/// operand's stride.
pub open spec fn runs_offset(runs: Seq<(u32, u32)>, e: int, right: bool) -> int
    decreases runs.len(),
{
    if runs.len() == 0 {
        0
    } else {
        let pre = runs.drop_last();
        runs_offset(pre, e, right) + if walks(runs.last(), right) {
            ((e / runs_product(pre)) % run_size(runs.last())) * walked_product(pre, right)
        } else {
            0
        }
    }
}

/// The runs a merge state stands for: the closed runs, then the open one.
pub open spec fn all_runs(open: Option<(u32, u32)>, closed: Seq<(u32, u32)>) -> Seq<(u32, u32)> {
    match open {
        Some(run) => closed.push(run),
        None => closed,
    }
}

proof fn lemma_product_nonneg_runs(runs: Seq<(u32, u32)>, right: bool)
    ensures
        runs_product(runs) >= 0,
        walked_product(runs, right) >= 0,
    decreases runs.len(),
{
    if runs.len() > 0 {
        lemma_product_nonneg_runs(runs.drop_last(), right);
        let a = runs_product(runs.drop_last());
        let b = walked_product(runs.drop_last(), right);
        let s = run_size(runs.last());
        assert(a * s >= 0 && b * s >= 0 && b * 1 >= 0) by (nonlinear_arith)
            requires a >= 0, b >= 0, s >= 0;
    }
}

/// Through the first `n` dimensions of two compatible shapes, the runs of
/// the merge stand for the dimensions: the output's leading product is the
/// runs' product, an operand's leading product is the product of the runs
/// it walks, and the element an output element reads is the same whether
/// counted by dimensions or by runs.
pub proof fn lemma_runs_match_dimensions(lhs: Seq<u32>, rhs: Seq<u32>, out: Seq<u32>, e: int, n: int, right: bool)
    requires
        0 <= n <= 8,
        lhs.len() == 8 && rhs.len() == 8 && out.len() == 8,
        forall|k: int| 0 <= k < 8 ==> spec_broadcast_dimension(#[trigger] lhs[k], rhs[k]) == Ok::<u32, crate::error::TensorError>(out[k]),
        forall|k: int| 0 <= k < 8 ==> #[trigger] out[k] > 0,
        0 <= e,
    ensures
        merge_dims(lhs, rhs, 0, n) matches Ok((open, closed)) ==> {
            let runs = all_runs(open, closed);
            let operand = if right { rhs } else { lhs };
            &&& prefix_product(out, n) == runs_product(runs)
            &&& prefix_product(operand, n) == walked_product(runs, right)
            &&& operand_offset(operand, out, e, n) == runs_offset(runs, e, right)
        },
    decreases n,
{
    if n > 0 {
        lemma_runs_match_dimensions(lhs, rhs, out, e, n - 1, right);
        let k = n - 1;
        let a = lhs[k];
        let b = rhs[k];
        let o = out[k];
        let operand = if right { rhs } else { lhs };
        let prev = merge_dims(lhs, rhs, 0, k);
        if let Ok((open, closed)) = prev {
            let runs = all_runs(open, closed);
            assert(spec_broadcast_dimension(a, b) == Ok::<u32, crate::error::TensorError>(o));
            assert(o > 0);
            lemma_product_nonneg_runs(runs, right);
            lemma_merge_counts(lhs, rhs, 0, k);
            lemma_prefix_product_positive(out, k);
            if a == 1 && b == 1 {
                assert(o == 1);
            } else {
                match open {
                    Some((x, y)) => {
                        if same_pattern(x, y, a, b) {
                            if !(x * a > u32::MAX || y * b > u32::MAX) {
                                lemma_extend_run(lhs, rhs, out, e, n, right, x, y, closed);
                            }
                        } else {
                            lemma_new_run(lhs, rhs, out, e, n, right, closed.push((x, y)));
                        }
                    },
                    None => {
                        lemma_new_run(lhs, rhs, out, e, n, right, closed);
                    },
                }
            }
        }
    }
}

/// The leading product of positive sizes is positive.
pub proof fn lemma_prefix_product_positive(s: Seq<u32>, k: int)
    requires
        k <= s.len(),
        forall|i: int| 0 <= i < k ==> #[trigger] s[i] > 0,
    ensures
        prefix_product(s, k) > 0,
    decreases k,
{
    if k > 0 {
        lemma_prefix_product_positive(s, k - 1);
        let p = prefix_product(s, k - 1);
        assert(p * s[k - 1] > 0) by (nonlinear_arith)
            requires p > 0, s[k - 1] > 0;
    }
}

/// A dimension that opens a new run appends that run.
proof fn lemma_new_run(lhs: Seq<u32>, rhs: Seq<u32>, out: Seq<u32>, e: int, n: int, right: bool, runs: Seq<(u32, u32)>)
    requires
        1 <= n <= 8,
        lhs.len() == 8 && rhs.len() == 8 && out.len() == 8,
        spec_broadcast_dimension(lhs[n - 1], rhs[n - 1]) == Ok::<u32, crate::error::TensorError>(out[n - 1]),
        !(lhs[n - 1] == 1 && rhs[n - 1] == 1),
        0 <= e,
        prefix_product(out, n - 1) == runs_product(runs),
        prefix_product(if right { rhs } else { lhs }, n - 1) == walked_product(runs, right),
        operand_offset(if right { rhs } else { lhs }, out, e, n - 1) == runs_offset(runs, e, right),
    ensures
        ({
            let grown = runs.push((lhs[n - 1], rhs[n - 1]));
            let operand = if right { rhs } else { lhs };
            &&& prefix_product(out, n) == runs_product(grown)
            &&& prefix_product(operand, n) == walked_product(grown, right)
            &&& operand_offset(operand, out, e, n) == runs_offset(grown, e, right)
        }),
{
    let k = n - 1;
    let run = (lhs[k], rhs[k]);
    let grown = runs.push(run);
    let operand = if right { rhs } else { lhs };
    assert(grown.drop_last() =~= runs);
    assert(run_size(run) == out[k] as int);
    assert(operand[k] != 1 ==> operand[k] as int == run_size(run));
    assert(walks(run, right) == (operand[k] != 1));
}

/// A dimension with the open run's pattern multiplies that run.
proof fn lemma_extend_run(
    lhs: Seq<u32>,
    rhs: Seq<u32>,
    out: Seq<u32>,
    e: int,
    n: int,
    right: bool,
    x: u32,
    y: u32,
    closed: Seq<(u32, u32)>,
)
    requires
        1 <= n <= 8,
        lhs.len() == 8 && rhs.len() == 8 && out.len() == 8,
        spec_broadcast_dimension(lhs[n - 1], rhs[n - 1]) == Ok::<u32, crate::error::TensorError>(out[n - 1]),
        out[n - 1] > 0,
        prefix_product(out, n - 1) > 0,
        compatible(x, y),
        x != 1 || y != 1,
        !(lhs[n - 1] == 1 && rhs[n - 1] == 1),
        same_pattern(x, y, lhs[n - 1], rhs[n - 1]),
        x * lhs[n - 1] <= u32::MAX,
        y * rhs[n - 1] <= u32::MAX,
        0 <= e,
        prefix_product(out, n - 1) == runs_product(closed.push((x, y))),
        prefix_product(if right { rhs } else { lhs }, n - 1) == walked_product(closed.push((x, y)), right),
        operand_offset(if right { rhs } else { lhs }, out, e, n - 1) == runs_offset(closed.push((x, y)), e, right),
    ensures
        ({
            let grown = closed.push(((x * lhs[n - 1]) as u32, (y * rhs[n - 1]) as u32));
            let operand = if right { rhs } else { lhs };
            &&& prefix_product(out, n) == runs_product(grown)
            &&& prefix_product(operand, n) == walked_product(grown, right)
            &&& operand_offset(operand, out, e, n) == runs_offset(grown, e, right)
        }),
{
    let k = n - 1;
    let a = lhs[k];
    let b = rhs[k];
    let o = out[k] as int;
    let old_run = (x, y);
    let new_run = ((x * a) as u32, (y * b) as u32);
    let before = closed.push(old_run);
    let grown = closed.push(new_run);
    let operand = if right { rhs } else { lhs };
    assert(before.drop_last() =~= closed);
    assert(grown.drop_last() =~= closed);
    lemma_product_nonneg_runs(closed, right);
    let q = runs_product(closed);
    let w = walked_product(closed, right);
    let s = run_size(old_run);
    // the merged run's size is the old size times this dimension's size
    assert(run_size(new_run) == s * o) by (nonlinear_arith)
        requires
            same_pattern(x, y, a, b),
            compatible(a, b),
            !(a == 1 && b == 1),
            o == if a == b { a as int } else if a == 1 { b as int } else { a as int },
            s == if x == 1 { y as int } else { x as int },
            run_size(new_run) == if (x * a) as u32 == 1 { (y * b) as u32 as int } else { (x * a) as u32 as int },
            x * a <= u32::MAX,
            y * b <= u32::MAX,
            x * a >= 0,
            y * b >= 0,
    {
        if x != 1 {
            assert(a != 1);
            assert(x * a != 1);
        } else {
            assert(a == 1);
        }
    }
    assert(walks(new_run, right) == walks(old_run, right)) by {
        lemma_run_product(x, y, a, b);
    }
    assert(walks(old_run, right) == (operand[k] != 1));
    assert(operand[k] != 1 ==> operand[k] as int == o);
    assert(s >= 0 && o >= 0);
    assert(runs_product(before) == q * s);
    // leading products
    assert(runs_product(grown) == q * (s * o));
    assert(prefix_product(out, n) == (q * s) * o);
    assert(q * (s * o) == (q * s) * o) by (nonlinear_arith);
    if walks(old_run, right) {
        assert(walked_product(grown, right) == w * (s * o));
        assert(prefix_product(operand, n) == (w * s) * o);
        assert(w * (s * o) == (w * s) * o) by (nonlinear_arith);
    } else {
        assert(walked_product(grown, right) == w * 1);
        assert(walked_product(before, right) == w * 1);
    }
    // offsets: the digit along the merged run splits into the old digit and
    // this dimension's coordinate
    if walks(old_run, right) {
        assert(s > 0 && q > 0) by (nonlinear_arith)
            requires q * s > 0, q >= 0, s >= 0;
        lemma_div_pos_is_pos(e, q);
        let t = e / q;
        lemma_mod_breakdown(t, s, o);
        lemma_div_denominator(e, q, s);
        assert(operand_offset(operand, out, e, n) == operand_offset(operand, out, e, k)
            + coordinate(out, e, k) * prefix_product(operand, k));
        assert(coordinate(out, e, k) == ((e / (q * s)) % o));
        assert(runs_offset(grown, e, right) == runs_offset(closed, e, right) + (t % (s * o)) * w);
        assert(runs_offset(before, e, right) == runs_offset(closed, e, right) + (t % s) * w);
        assert((t % (s * o)) * w == (t % s) * w + ((t / s) % o) * (w * s)) by (nonlinear_arith)
            requires t % (s * o) == s * ((t / s) % o) + t % s;
    } else {
        assert(runs_offset(grown, e, right) == runs_offset(closed, e, right));
        assert(runs_offset(before, e, right) == runs_offset(closed, e, right));
    }
}

/// The index of the last coordinate the device splits off: one below the
/// block's dimension count, and zero for a block of no dimension.
pub open spec fn top_dimension(info: BroadcastInfo) -> int {
    if info.divisions[0].data > 1 { info.divisions[0].data - 1 } else { 0 }
}

/// The device's split of flat index `index` along the first `n` dimensions
/// of the block, in 32-bit wrapping arithmetic: each step divides by the
/// dimension's prepared divisor and keeps the remainder as the coordinate.
/// The result holds the coordinates and the quotient left over.
pub open spec fn device_split(info: BroadcastInfo, index: u32, n: int) -> (Seq<u32>, u32)
    decreases n,
{
    if n <= 0 {
        (Seq::empty(), index)
    } else {
        let (digits, rest) = device_split(info, index, n - 1);
        let f = info.divisions[n - 1];
        let q = f.spec_fast_div(rest) as u32;
        (digits.push(wrapping_sub(rest, wrapping_mul(q, f.divisor))), q)
    }
}

/// The coordinates the device gives flat index `index`: the split along
/// all dimensions but the last, the quotient left over as the last
/// coordinate, and zeros after it.
pub open spec fn spec_coordinates(info: BroadcastInfo, index: u32) -> Seq<u32> {
    let top = top_dimension(info);
    let (digits, rest) = device_split(info, index, top);
    digits.push(rest) + Seq::new((7 - top) as nat, |i: int| 0u32)
}

/// Bit `i` of a mask lane: whether the operand walks along dimension `i`.
pub open spec fn lane_bit(lane: u32, i: int) -> u32 {
    (lane >> (i as u32)) & 1
}

/// The device's flat operand index from coordinates, in 32-bit wrapping
/// arithmetic, over dimensions `i..=top` (Horner's scheme from the last
/// dimension down): a dimension the operand walks multiplies by its size
/// and adds its coordinate, any other is skipped.
pub open spec fn device_flatten(info: BroadcastInfo, coords: Seq<u32>, lane: u32, top: int, i: int) -> u32
    decreases top - i,
{
    if i >= top {
        wrapping_mul(coords[top], lane_bit(lane, top))
    } else {
        let inner = device_flatten(info, coords, lane, top, i + 1);
        let walk = lane_bit(lane, i);
        let size = wrapping_add(1, wrapping_mul(walk, wrapping_sub(info.divisions[i].divisor, 1)));
        wrapping_add(wrapping_mul(inner, size), wrapping_mul(coords[i], walk))
    }
}

/// The flat indices into the left and right operands the device computes
/// from `coords`, with the mask lanes of word 1.
pub open spec fn spec_flatten_index(info: BroadcastInfo, coords: Seq<u32>) -> (u32, u32) {
    let masks = info.divisions[1].data;
    let top = top_dimension(info);
    (
        device_flatten(info, coords, masks & 0xFFFF, top, 0),
        device_flatten(info, coords, masks >> 16, top, 0),
    )
}

impl BroadcastInfo {
    /// The coordinates of output element `index` along the block's
    /// dimensions, as the elementwise kernels compute them.
    pub fn coordinates(&self, index: u32) -> (r: [u32; 8])
        requires
            self.divisions[0].data <= 8,
            forall|i: int| 0 <= i < 7 ==> #[trigger] self.divisions[i].shift < 32,
        ensures
            r@ == spec_coordinates(*self, index),
    {
        let num_dimensions = self.divisions[0].data;
        let max_dimension = (if num_dimensions > 1 { num_dimensions } else { 1 }) as usize - 1;
        let mut tensor_index: [u32; 8] = [0, 0, 0, 0, 0, 0, 0, 0];
        let mut rest = index;
        let mut i: usize = 0;
        while i < max_dimension
            invariant
                max_dimension == top_dimension(*self),
                max_dimension <= 7,
                i <= max_dimension,
                forall|j: int| 0 <= j < 7 ==> #[trigger] self.divisions[j].shift < 32,
                device_split(*self, index, i as int) == (tensor_index@.take(i as int), rest),
                forall|j: int| i <= j < 8 ==> tensor_index[j] == 0,
            decreases max_dimension - i,
        {
            let division = self.divisions[i];
            let quotient = division.fast_div(rest);
            let ghost before = tensor_index@.take(i as int);
            tensor_index[i] = rest.wrapping_sub(quotient.wrapping_mul(division.divisor));
            assert(tensor_index@.take(i + 1) =~= before.push(tensor_index[i as int]));
            rest = quotient;
            i = i + 1;
        }
        tensor_index[max_dimension] = rest;
        proof {
            let top = max_dimension as int;
            let (digits, last) = device_split(*self, index, top);
            assert(tensor_index@ =~= digits.push(last) + Seq::new((7 - top) as nat, |i: int| 0u32));
        }
        tensor_index
    }

    /// The flat indices into the left and right operands for output
    /// coordinates `tensor_index`, as the elementwise kernels compute them.
    pub fn flatten_index(&self, tensor_index: &[u32; 8]) -> (r: (u32, u32))
        requires
            self.divisions[0].data <= 8,
        ensures
            r == spec_flatten_index(*self, tensor_index@),
    {
        let masks = self.divisions[1].data;
        let lhs_mask = masks & 0xFFFF;
        let rhs_mask = masks >> 16;
        let num_dimensions = self.divisions[0].data;
        let max_index = (if num_dimensions > 1 { num_dimensions } else { 1 }) as usize - 1;
        let top_bit = max_index as u32;
        let mut lhs_flat = tensor_index[max_index].wrapping_mul((lhs_mask >> top_bit) & 1);
        let mut rhs_flat = tensor_index[max_index].wrapping_mul((rhs_mask >> top_bit) & 1);
        let mut i: usize = max_index;
        while i > 0
            invariant
                max_index == top_dimension(*self),
                max_index <= 7,
                i <= max_index,
                lhs_flat == device_flatten(*self, tensor_index@, lhs_mask, max_index as int, i as int),
                rhs_flat == device_flatten(*self, tensor_index@, rhs_mask, max_index as int, i as int),
            decreases i,
        {
            i = i - 1;
            let bit = i as u32;
            let divisor = self.divisions[i].divisor;
            let lhs_walk = (lhs_mask >> bit) & 1;
            let rhs_walk = (rhs_mask >> bit) & 1;
            let lhs_size = 1u32.wrapping_add(lhs_walk.wrapping_mul(divisor.wrapping_sub(1)));
            let rhs_size = 1u32.wrapping_add(rhs_walk.wrapping_mul(divisor.wrapping_sub(1)));
            lhs_flat = lhs_flat.wrapping_mul(lhs_size).wrapping_add(tensor_index[i].wrapping_mul(lhs_walk));
            rhs_flat = rhs_flat.wrapping_mul(rhs_size).wrapping_add(tensor_index[i].wrapping_mul(rhs_walk));
        }
        (lhs_flat, rhs_flat)
    }
}

/// The leading product only depends on the leading sizes.
pub(crate) proof fn lemma_prefix_product_agree(a: Seq<u32>, b: Seq<u32>, k: int)
    requires
        0 <= k <= a.len(),
        k <= b.len(),
        forall|i: int| 0 <= i < k ==> a[i] == b[i],
    ensures
        prefix_product(a, k) == prefix_product(b, k),
    decreases k,
{
    if k > 0 {
        lemma_prefix_product_agree(a, b, k - 1);
    }
}

/// The output shape of `broadcast_fold` holds the broadcast sizes, and
/// its count is their product.
proof fn lemma_broadcast_fold_shape(lhs: Seq<u32>, rhs: Seq<u32>, n: int)
    requires
        0 <= n,
    ensures
        broadcast_fold(lhs, rhs, n) matches Ok((dims, length)) ==> {
            &&& dims.len() == n
            &&& forall|k: int| 0 <= k < n ==> spec_broadcast_dimension(#[trigger] lhs[k], rhs[k]) == Ok::<u32, TensorError>(dims[k])
            &&& length == prefix_product(dims, n)
        },
    decreases n,
{
    if n > 0 {
        lemma_broadcast_fold_shape(lhs, rhs, n - 1);
        if let Ok((dims, length)) = broadcast_fold(lhs, rhs, n) {
            let (prev, prev_length) = broadcast_fold(lhs, rhs, n - 1)->Ok_0;
            assert(dims == prev.push(dims[n - 1]));
            lemma_prefix_product_agree(prev, dims, n - 1);
        }
    }
}

/// A positive product of sizes has only positive factors.
proof fn lemma_prefix_product_factors(s: Seq<u32>, k: int)
    requires
        0 <= k <= s.len(),
        prefix_product(s, k) > 0,
    ensures
        forall|i: int| 0 <= i < k ==> #[trigger] s[i] > 0,
    decreases k,
{
    if k > 0 {
        let p = prefix_product(s, k - 1);
        assert(p >= 0) by {
            lemma_prefix_product_nonneg(s, k - 1);
        }
        assert(p > 0 && s[k - 1] > 0) by (nonlinear_arith)
            requires p * s[k - 1] > 0, p >= 0, s[k - 1] >= 0;
        lemma_prefix_product_factors(s, k - 1);
    }
}

proof fn lemma_prefix_product_nonneg(s: Seq<u32>, k: int)
    ensures
        prefix_product(s, k) >= 0,
    decreases k,
{
    if k > 0 {
        lemma_prefix_product_nonneg(s, k - 1);
        let p = prefix_product(s, k - 1);
        assert(p * s[k - 1] >= 0) by (nonlinear_arith)
            requires p >= 0, s[k - 1] >= 0;
    }
}

/// The digit of `e` along run `g`: its coordinate in the merged dimension.
pub open spec fn run_digit(runs: Seq<(u32, u32)>, e: int, g: int) -> int {
    (e / runs_product(runs.take(g))) % run_size(runs[g])
}

/// The leading runs' product grows by one run at a time.
proof fn lemma_runs_product_take(runs: Seq<(u32, u32)>, g: int)
    requires
        0 <= g < runs.len(),
    ensures
        runs_product(runs.take(g + 1)) == runs_product(runs.take(g)) * run_size(runs[g]),
        walked_product(runs.take(g + 1), false) == walked_product(runs.take(g), false)
            * if walks(runs[g], false) { run_size(runs[g]) } else { 1 },
        walked_product(runs.take(g + 1), true) == walked_product(runs.take(g), true)
            * if walks(runs[g], true) { run_size(runs[g]) } else { 1 },
{
    assert(runs.take(g + 1).drop_last() =~= runs.take(g));
}

/// Every run of positive product has a positive size.
proof fn lemma_runs_positive(runs: Seq<(u32, u32)>)
    requires
        runs_product(runs) > 0,
    ensures
        forall|g: int| 0 <= g < runs.len() ==> run_size(#[trigger] runs[g]) > 0,
        forall|g: int| 0 <= g <= runs.len() ==> #[trigger] runs_product(runs.take(g)) > 0,
    decreases runs.len(),
{
    if runs.len() > 0 {
        let pre = runs.drop_last();
        lemma_product_nonneg_runs(pre, false);
        let p = runs_product(pre);
        let s = run_size(runs.last());
        assert(p > 0 && s > 0) by (nonlinear_arith)
            requires p * s > 0, p >= 0, s >= 0;
        lemma_runs_positive(pre);
        assert forall|g: int| 0 <= g < runs.len() implies run_size(#[trigger] runs[g]) > 0 by {
            if g < pre.len() {
                assert(runs[g] == pre[g]);
            }
        }
        assert forall|g: int| 0 <= g <= runs.len() implies #[trigger] runs_product(runs.take(g)) > 0 by {
            if g < runs.len() {
                assert(runs.take(g) =~= pre.take(g));
            } else {
                assert(runs.take(g) =~= runs);
            }
        }
    }
}

/// The block built from runs holds, for each of its first seven runs, the
/// prepared divisor of the run's size.
pub open spec fn runs_layout(runs: Seq<(u32, u32)>) -> Seq<Dimension> {
    block_layout(Seq::empty(), runs)
}

/// Splitting on the device gives the digits of `e` along the runs, and
/// leaves the quotient by the product of the runs split so far.
proof fn lemma_device_split(info: BroadcastInfo, runs: Seq<(u32, u32)>, e: u32, n: int)
    requires
        describes(info, runs_layout(runs)),
        0 <= n < runs.len(),
        n <= 7,
        runs_product(runs) > 0,
    ensures
        ({
            let (digits, rest) = device_split(info, e, n);
            &&& digits.len() == n
            &&& forall|g: int| 0 <= g < n ==> #[trigger] digits[g] as int == run_digit(runs, e as int, g)
            &&& rest as int == (e as int) / runs_product(runs.take(n))
        }),
    decreases n,
{
    lemma_runs_positive(runs);
    if n > 0 {
        lemma_device_split(info, runs, e, n - 1);
        let k = n - 1;
        let (digits, rest) = device_split(info, e, k);
        let layout = runs_layout(runs);
        assert(layout[k] == run_dimension(runs[k]));
        let size = run_size(runs[k]);
        assert(size > 0);
        assert(layout[k].0 as int == size);
        let f = info.divisions[k];
        let g = spec_create_div(size as u32);
        assert(f.divisor == g.divisor && f.magic == g.magic && f.shift == g.shift);
        assert(f.spec_fast_div(rest) == g.spec_fast_div(rest));
        lemma_fast_div_exact(size as u32, rest);
        let q = (rest as int) / size;
        lemma_fundamental_div_mod(rest as int, size);
        assert(0 <= q * size <= rest) by (nonlinear_arith)
            requires rest == size * q + (rest as int) % size, 0 <= (rest as int) % size, q >= 0, size > 0;
        let wm = wrapping_mul(q as u32, f.divisor);
        assert(wm as int == q * size);
        assert(q * size == size * q) by (nonlinear_arith);
        assert(rest - wm >= 0);
        assert(wrapping_sub(rest, wm) as int == rest - wm);
        assert(wrapping_sub(rest, wm) as int == (rest as int) % size);
        lemma_div_pos_is_pos(e as int, runs_product(runs.take(k)));
        lemma_div_denominator(e as int, runs_product(runs.take(k)), size);
        lemma_runs_product_take(runs, k);
        let (digits2, rest2) = device_split(info, e, n);
        assert(digits2 == digits.push(wrapping_sub(rest, wrapping_mul(q as u32, f.divisor))));
        assert forall|h: int| 0 <= h < n implies #[trigger] digits2[h] as int == run_digit(runs, e as int, h) by {
            if h < k {
                assert(digits2[h] == digits[h]);
            }
        }
    }
}

/// Bit `g` of a mask lane says whether the operand walks along dimension `g`.
proof fn lemma_lane_bits(dims: Seq<Dimension>, right: bool, g: int)
    requires
        0 <= g < dims.len() <= 16,
    ensures
        lane_bit(lane(dims, right) as u32, g) == if (if right { dims[g].2 } else { dims[g].1 }) { 1u32 } else { 0u32 },
    decreases dims.len(),
{
    let n = (dims.len() - 1) as u32;
    let pre = dims.drop_last();
    lemma_lane_bound(pre, right);
    lemma_lane_bound(dims, right);
    lemma_u32_pow2_no_overflow(n as nat);
    lemma_pow2_strictly_increases(n as nat, 16);
    lemma2_to64();
    lemma_u32_shl_is_mul(1, n);
    let a = lane(pre, right) as u32;
    let last = dims.last();
    let v: u32 = if (if right { last.2 } else { last.1 }) { 1 } else { 0 };
    assert(v * pow2(n as nat) <= pow2(n as nat)) by (nonlinear_arith)
        requires v <= 1;
    lemma_u32_shl_is_mul(v, n);
    assert(lane(dims, right) == a + (v << n));
    let whole = lane(dims, right) as u32;
    let gb = g as u32;
    if g < n {
        lemma_lane_bits(pre, right, g);
        assert(dims[g] == pre[g]);
        assert((whole >> gb) & 1 == (a >> gb) & 1) by (bit_vector)
            requires whole == a + (v << n), a < (1u32 << n), v <= 1, n < 16, gb < n;
    } else {
        assert((whole >> gb) & 1 == v) by (bit_vector)
            requires whole == a + (v << n), a < (1u32 << n), v <= 1, n < 16, gb == n;
    }
}

/// What an operand reads through runs is below its stride past them, and
/// that stride is at most the runs' product.
proof fn lemma_runs_offset_bound(runs: Seq<(u32, u32)>, e: int, right: bool)
    requires
        0 <= e,
        forall|g: int| 0 <= g < runs.len() ==> run_size(#[trigger] runs[g]) > 0,
    ensures
        0 <= runs_offset(runs, e, right) < walked_product(runs, right),
        1 <= walked_product(runs, right) <= runs_product(runs),
    decreases runs.len(),
{
    if runs.len() > 0 {
        let pre = runs.drop_last();
        assert forall|g: int| 0 <= g < pre.len() implies run_size(#[trigger] pre[g]) > 0 by {
            assert(pre[g] == runs[g]);
        }
        lemma_runs_offset_bound(pre, e, right);
        lemma_product_nonneg_runs(pre, right);
        let size = run_size(runs.last());
        assert(size > 0);
        let w = walked_product(pre, right);
        let p = runs_product(pre);
        let r = runs_offset(pre, e, right);
        if walks(runs.last(), right) {
            lemma_div_pos_is_pos(e, if p > 0 { p } else { 1 });
            let d = (e / p) % size;
            assert(0 <= d < size);
            assert(r + d * w < w * size) by (nonlinear_arith)
                requires 0 <= r < w, 0 <= d < size, w >= 1;
            assert(0 <= r + d * w) by (nonlinear_arith)
                requires 0 <= r, 0 <= d, w >= 1;
        }
        assert(w * (if walks(runs.last(), right) { size } else { 1 }) <= p * size) by (nonlinear_arith)
            requires 1 <= w <= p, size >= 1;
        assert(1 <= w * (if walks(runs.last(), right) { size } else { 1 })) by (nonlinear_arith)
            requires 1 <= w, size >= 1;
    }
}

/// Horner's scheme over the runs, from the last run `top` down to run `i`:
/// the value the device accumulates, in unbounded arithmetic.
pub open spec fn horner(runs: Seq<(u32, u32)>, e: int, right: bool, top: int, i: int) -> int
    decreases top - i,
{
    let walk = walks(runs[i], right);
    let coordinate = if walk { run_digit(runs, e, i) } else { 0 };
    if i >= top {
        coordinate
    } else {
        horner(runs, e, right, top, i + 1) * (if walk { run_size(runs[i]) } else { 1 }) + coordinate
    }
}

/// Horner's value from run `i` on, scaled by the stride before run `i`,
/// completes what the runs before `i` read to what all runs read.
proof fn lemma_horner(runs: Seq<(u32, u32)>, e: int, right: bool, i: int)
    requires
        runs.len() >= 1,
        0 <= i < runs.len(),
        0 <= e,
    ensures
        horner(runs, e, right, runs.len() - 1, i) * walked_product(runs.take(i), right)
            + runs_offset(runs.take(i), e, right) == runs_offset(runs, e, right),
    decreases runs.len() - i,
{
    let top = runs.len() - 1;
    let w = walked_product(runs.take(i), right);
    let walk = walks(runs[i], right);
    let size = run_size(runs[i]);
    let c = if walk { run_digit(runs, e, i) } else { 0 };
    lemma_runs_product_take(runs, i);
    assert(runs.take(i + 1).drop_last() =~= runs.take(i));
    assert(runs.take(i + 1).last() == runs[i]);
    assert(runs_offset(runs.take(i + 1), e, right) == runs_offset(runs.take(i), e, right) + c * w);
    if i == top {
        assert(runs.take(i + 1) =~= runs);
    } else {
        lemma_horner(runs, e, right, i + 1);
        let h1 = horner(runs, e, right, top, i + 1);
        let s = if walk { size } else { 1 };
        assert(walked_product(runs.take(i + 1), right) == w * s);
        assert((h1 * s + c) * w == h1 * (w * s) + c * w) by (nonlinear_arith);
    }
}

/// The device's wrapping Horner evaluation computes `horner` exactly when
/// the coordinates are the digits, the lanes say which runs are walked, the
/// divisors are the run sizes, and every partial value fits in 32 bits.
proof fn lemma_device_flatten(
    info: BroadcastInfo,
    runs: Seq<(u32, u32)>,
    coords: Seq<u32>,
    lane_word: u32,
    e: int,
    right: bool,
    i: int,
)
    requires
        runs.len() >= 1,
        0 <= i < runs.len() <= 8,
        0 <= e,
        forall|g: int| 0 <= g < runs.len() ==> run_size(#[trigger] runs[g]) > 0,
        forall|g: int| 0 <= g < runs.len() ==> #[trigger] coords[g] as int == run_digit(runs, e, g),
        forall|g: int| 0 <= g < runs.len() ==> #[trigger] lane_bit(lane_word, g) == if walks(runs[g], right) { 1u32 } else { 0u32 },
        forall|g: int| 0 <= g < runs.len() - 1 ==> #[trigger] info.divisions[g].divisor as int == run_size(runs[g]),
        forall|j: int| i <= j < runs.len() ==> 0 <= #[trigger] horner(runs, e, right, runs.len() - 1, j) <= u32::MAX,
    ensures
        device_flatten(info, coords, lane_word, runs.len() - 1, i) as int == horner(runs, e, right, runs.len() - 1, i),
    decreases runs.len() - i,
{
    let top = runs.len() - 1;
    let walk = lane_bit(lane_word, i);
    let c = if walks(runs[i], right) { run_digit(runs, e, i) } else { 0 };
    assert(coords[i] as int == run_digit(runs, e, i));
    assert(walk == if walks(runs[i], right) { 1u32 } else { 0u32 });
    assert(wrapping_mul(coords[i], walk) as int == c);
    if i < top {
        lemma_device_flatten(info, runs, coords, lane_word, e, right, i + 1);
        let inner = device_flatten(info, coords, lane_word, top, i + 1);
        let size = run_size(runs[i]);
        let divisor = info.divisions[i].divisor;
        assert(divisor as int == size);
        let s = wrapping_add(1, wrapping_mul(walk, wrapping_sub(divisor, 1)));
        assert(s as int == if walks(runs[i], right) { size } else { 1 });
        let h = horner(runs, e, right, top, i);
        let h1 = horner(runs, e, right, top, i + 1);
        assert(h == h1 * (s as int) + c);
        assert(0 <= h1 * (s as int) <= h) by (nonlinear_arith)
            requires h == h1 * (s as int) + c, 0 <= c, 0 <= h1, s >= 1;
        assert(wrapping_mul(inner, s) as int == h1 * (s as int));
    }
}


/// Horner's value is never negative.
proof fn lemma_horner_nonneg(runs: Seq<(u32, u32)>, e: int, right: bool, top: int, i: int)
    requires
        0 <= i <= top < runs.len(),
        forall|g: int| 0 <= g < runs.len() ==> run_size(#[trigger] runs[g]) > 0,
    ensures
        horner(runs, e, right, top, i) >= 0,
    decreases top - i,
{
    if i < top {
        lemma_horner_nonneg(runs, e, right, top, i + 1);
        let h1 = horner(runs, e, right, top, i + 1);
        let walk = walks(runs[i], right);
        let s = if walk { run_size(runs[i]) } else { 1 };
        let c = if walk { run_digit(runs, e, i) } else { 0 };
        assert(c >= 0);
        assert(h1 * s + c >= 0) by (nonlinear_arith)
            requires h1 >= 0, s >= 1, c >= 0;
    }
}

/// Every partial value of the device's Horner evaluation of an output
/// element fits in 32 bits: it is at most what the operand reads, which is
/// below the output's element count.
proof fn lemma_horner_fits(runs: Seq<(u32, u32)>, e: int, right: bool, j: int)
    requires
        0 <= j < runs.len(),
        0 <= e,
        runs_product(runs) <= u32::MAX,
        forall|g: int| 0 <= g < runs.len() ==> run_size(#[trigger] runs[g]) > 0,
    ensures
        0 <= horner(runs, e, right, runs.len() - 1, j) <= u32::MAX,
{
    let top = runs.len() - 1;
    lemma_horner(runs, e, right, j);
    lemma_horner_nonneg(runs, e, right, top, j);
    lemma_runs_offset_bound(runs, e, right);
    let pre = runs.take(j);
    assert forall|g: int| 0 <= g < pre.len() implies run_size(#[trigger] pre[g]) > 0 by {
        assert(pre[g] == runs[g]);
    }
    lemma_runs_offset_bound(pre, e, right);
    let h = horner(runs, e, right, top, j);
    let w = walked_product(pre, right);
    assert(h <= h * w) by (nonlinear_arith)
        requires h >= 0, w >= 1;
}

/// The law of the broadcast block. For every output element `e` of an
/// elementwise operation on shapes `lhs` and `rhs` whose block was built
/// from their merged runs, the operand elements the device reads (after
/// splitting `e` by the block's prepared divisors and flattening the
/// coordinates with its masks, all in 32-bit wrapping arithmetic) are the
/// elements the broadcast reads by definition: along each dimension where
/// an operand has size one it stays put, along any other it follows the
/// output's coordinate.
pub proof fn lemma_broadcast_index(lhs: Seq<u32>, rhs: Seq<u32>, info: BroadcastInfo, e: u32)
    requires
        lhs.len() == 8,
        rhs.len() == 8,
        broadcast_fold(lhs, rhs, 8) matches Ok((out, length)) && e < length,
        merged_runs(lhs, rhs, 0) matches Ok(runs) && describes(info, block_layout(Seq::empty(), runs)),
    ensures
        ({
            let out = broadcast_fold(lhs, rhs, 8)->Ok_0.0;
            let (left, right) = spec_flatten_index(info, spec_coordinates(info, e));
            &&& left as int == operand_offset(lhs, out, e as int, 8)
            &&& right as int == operand_offset(rhs, out, e as int, 8)
        }),
{
    let (out, length) = broadcast_fold(lhs, rhs, 8)->Ok_0;
    let runs = merged_runs(lhs, rhs, 0)->Ok_0;
    lemma_broadcast_fold_shape(lhs, rhs, 8);
    lemma_broadcast_fold_facts(lhs, rhs, 8);
    lemma_prefix_product_factors(out, 8);
    lemma_runs_match_dimensions(lhs, rhs, out, e as int, 8, false);
    lemma_runs_match_dimensions(lhs, rhs, out, e as int, 8, true);
    lemma_merge_counts(lhs, rhs, 0, 8);
    let m = runs.len() as int;
    assert(m <= 8);
    let dims = block_layout(Seq::empty(), runs);
    assert(dims =~= runs.map_values(|run: (u32, u32)| run_dimension(run)));
    assert(runs_product(runs) == length);
    let coords = spec_coordinates(info, e);
    let masks = info.divisions[1].data;
    lemma_unpack_pack(lane(dims, false) as u32, lane(dims, true) as u32);
    let left_word = masks & 0xFFFF;
    let right_word = masks >> 16;
    let lx = lane(dims, false) as u32;
    let ly = lane(dims, true) as u32;
    assert(lx & 0xFFFF == lx) by (bit_vector)
        requires lx < 0x10000;
    assert(ly & 0xFFFF == ly) by (bit_vector)
        requires ly < 0x10000;
    assert(left_word == lane(dims, false) as u32);
    assert(right_word == lane(dims, true) as u32);
    if m == 0 {
        assert(e == 0);
        assert(top_dimension(info) == 0);
        assert(device_split(info, e, 0) == (Seq::<u32>::empty(), e));
        assert(coords[0] == 0);
        let lb = lane_bit(left_word, 0);
        let rb = lane_bit(right_word, 0);
        assert((0 as nat) * (lb as nat) == 0 && (0 as nat) * (rb as nat) == 0) by (nonlinear_arith);
        assert(wrapping_mul(0, lb) == 0);
        assert(wrapping_mul(0, rb) == 0);
    } else {
        let top = m - 1;
        assert(top_dimension(info) == top);
        lemma_runs_positive(runs);
        assert(runs_layout(runs) == dims);
        lemma_device_split(info, runs, e, top);
        let (digits, rest) = device_split(info, e, top);
        // the quotient left over is the last digit
        lemma_runs_product_take(runs, top);
        assert(runs.take(m) =~= runs);
        let p = runs_product(runs.take(top));
        let size = run_size(runs[top]);
        assert(p > 0);
        lemma_fundamental_div_mod(e as int, p);
        lemma_mod_pos_bound(e as int, p);
        let q = (e as int) / p;
        assert(q < size) by (nonlinear_arith)
            requires e == p * q + (e as int) % p, (e as int) % p >= 0, e < p * size, p > 0;
        lemma_div_pos_is_pos(e as int, p);
        lemma_small_mod(q as nat, size as nat);
        assert(rest as int == run_digit(runs, e as int, top));
        assert forall|g: int| 0 <= g < runs.len() implies #[trigger] coords[g] as int == run_digit(runs, e as int, g) by {
            if g < top {
                assert(coords[g] == digits[g]);
            } else {
                assert(coords[g] == rest);
            }
        }
        assert forall|g: int| 0 <= g < runs.len() implies #[trigger] lane_bit(left_word, g) == if walks(runs[g], false) { 1u32 } else { 0u32 } by {
            lemma_lane_bits(dims, false, g);
        }
        assert forall|g: int| 0 <= g < runs.len() implies #[trigger] lane_bit(right_word, g) == if walks(runs[g], true) { 1u32 } else { 0u32 } by {
            lemma_lane_bits(dims, true, g);
        }
        assert forall|g: int| 0 <= g < runs.len() - 1 implies #[trigger] info.divisions[g].divisor as int == run_size(runs[g]) by {
            assert(dims[g].0 as int == run_size(runs[g]));
        }
        assert forall|j: int| 0 <= j < runs.len() implies 0 <= #[trigger] horner(runs, e as int, false, runs.len() - 1, j) <= u32::MAX by {
            lemma_horner_fits(runs, e as int, false, j);
        }
        assert forall|j: int| 0 <= j < runs.len() implies 0 <= #[trigger] horner(runs, e as int, true, runs.len() - 1, j) <= u32::MAX by {
            lemma_horner_fits(runs, e as int, true, j);
        }
        lemma_device_flatten(info, runs, coords, left_word, e as int, false, 0);
        lemma_device_flatten(info, runs, coords, right_word, e as int, true, 0);
        lemma_horner(runs, e as int, false, 0);
        lemma_horner(runs, e as int, true, 0);
        assert(runs.take(0) =~= Seq::<(u32, u32)>::empty());
    }
}

/// A leading product of positive sizes grows with the number of sizes.
proof fn lemma_prefix_product_monotone(s: Seq<u32>, j: int, k: int)
    requires
        0 <= j <= k <= s.len(),
        forall|i: int| 0 <= i < k ==> #[trigger] s[i] > 0,
    ensures
        prefix_product(s, j) <= prefix_product(s, k),
    decreases k - j,
{
    if j < k {
        lemma_prefix_product_monotone(s, j, k - 1);
        lemma_prefix_product_positive(s, k - 1);
        let p = prefix_product(s, k - 1);
        assert(p <= p * s[k - 1]) by (nonlinear_arith)
            requires p > 0, s[k - 1] > 0;
    }
}

/// Over the first `n` dimensions of two shapes whose broadcast has
/// positive sizes and fits in 32 bits, the merge of runs does not fail.
proof fn lemma_merge_succeeds(lhs: Seq<u32>, rhs: Seq<u32>, out: Seq<u32>, n: int)
    requires
        0 <= n <= 8,
        lhs.len() == 8 && rhs.len() == 8 && out.len() == 8,
        forall|k: int| 0 <= k < 8 ==> spec_broadcast_dimension(#[trigger] lhs[k], rhs[k]) == Ok::<u32, TensorError>(out[k]),
        forall|k: int| 0 <= k < 8 ==> #[trigger] out[k] > 0,
        prefix_product(out, 8) <= u32::MAX,
    ensures
        merge_dims(lhs, rhs, 0, n) is Ok,
    decreases n,
{
    if n > 0 {
        let k = n - 1;
        lemma_merge_succeeds(lhs, rhs, out, k);
        let a = lhs[k];
        let b = rhs[k];
        let o = out[k] as int;
        assert(spec_broadcast_dimension(a, b) == Ok::<u32, TensorError>(out[k]));
        let (open, closed) = merge_dims(lhs, rhs, 0, k)->Ok_0;
        if let Some((x, y)) = open {
            if compatible(a, b) && !(a == 1 && b == 1) && same_pattern(x, y, a, b) {
                lemma_merge_counts(lhs, rhs, 0, k);
                lemma_runs_match_dimensions(lhs, rhs, out, 0, k, false);
                lemma_prefix_product_positive(out, k);
                lemma_prefix_product_monotone(out, n, 8);
                let runs = closed.push((x, y));
                lemma_runs_positive(runs);
                assert(runs.drop_last() =~= closed);
                assert(runs.take(closed.len() as int) =~= closed);
                let c = runs_product(closed);
                let r = run_size((x, y));
                assert(c > 0);
                assert(prefix_product(out, n) == c * r * o);
                assert(r * o <= c * r * o) by (nonlinear_arith)
                    requires c >= 1, r >= 1, o >= 1;
                if x != 1 {
                    assert(a != 1 && o == a as int && r == x as int);
                    assert(x * a == r * o);
                } else {
                    assert(a == 1);
                    assert(x * a == 1);
                }
                if y != 1 {
                    assert(b != 1 && o == b as int && r == y as int);
                    assert(y * b == r * o);
                } else {
                    assert(b == 1);
                    assert(y * b == 1);
                }
                assert(1 <= r * o) by (nonlinear_arith)
                    requires r >= 1, o >= 1;
            }
        }
    }
}

/// Building the block never fails where the broadcast has elements: when
/// the broadcast shape of `lhs` and `rhs` exists and counts at least one
/// element, the merge of their runs succeeds.
pub proof fn lemma_broadcast_block_exists(lhs: Seq<u32>, rhs: Seq<u32>)
    requires
        lhs.len() == 8,
        rhs.len() == 8,
        broadcast_fold(lhs, rhs, 8) matches Ok((out, length)) && length > 0,
    ensures
        merged_runs(lhs, rhs, 0) is Ok,
{
    let (out, length) = broadcast_fold(lhs, rhs, 8)->Ok_0;
    lemma_broadcast_fold_shape(lhs, rhs, 8);
    lemma_broadcast_fold_facts(lhs, rhs, 8);
    lemma_prefix_product_factors(out, 8);
    lemma_merge_succeeds(lhs, rhs, out, 8);
}

} // verus!
