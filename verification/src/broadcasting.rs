//! The broadcast parameter block shared by the elementwise, broadcast and
//! matrix-product kernels.
//!
//! Runs of adjacent dimensions along which both operands behave alike (both
//! walk, or only one of them walks) are merged into one dimension, so that
//! the device splits a flat index into as few coordinates as possible. Each
//! merged dimension carries a prepared divisor; word 0 of the block counts
//! the dimensions and word 1 packs two 16-bit masks saying along which
//! dimensions the left and the right operand walk.

use vstd::prelude::*;
use vstd::arithmetic::power2::*;
use vstd::bits::*;

use crate::error::TensorError;
use crate::fastdiv::{FastDivU32, spec_create_div};
use crate::shape::Shape;

verus! {

/// The size of a dimension after broadcasting `a` against `b`.
pub open spec fn spec_broadcast_dimension(a: u32, b: u32) -> Result<u32, TensorError> {
    if a == b {
        Ok(a)
    } else if a == 1 {
        Ok(b)
    } else if b == 1 {
        Ok(a)
    } else {
        Err(TensorError::ShapeMismatch)
    }
}

/// Whether sizes `a` and `b` broadcast against each other.
pub open spec fn compatible(a: u32, b: u32) -> bool {
    a == b || a == 1 || b == 1
}

/// A merge in progress: the open run of dimensions, as the products of the
/// left and right sizes along it, and the runs already closed.
pub type MergeState = Result<(Option<(u32, u32)>, Seq<(u32, u32)>), TensorError>;

/// Whether a run with sizes `(x, y)` and a dimension with sizes `(a, b)`
/// move the same operands.
pub open spec fn same_pattern(x: u32, y: u32, a: u32, b: u32) -> bool {
    (x != 1) == (a != 1) && (y != 1) == (b != 1)
}

/// One step of the merge, for a dimension of sizes `a` (left) and `b`
/// (right): incompatible sizes fail; a dimension of size one on both sides
/// is skipped; a dimension with the open run's pattern extends the run
/// (failing if a product leaves 32 bits); any other dimension closes the
/// open run and opens a new one.
pub open spec fn merge_step(state: MergeState, a: u32, b: u32) -> MergeState {
    match state {
        Err(e) => Err(e),
        Ok((open, closed)) => {
            if !compatible(a, b) {
                Err(TensorError::ShapeMismatch)
            } else if a == 1 && b == 1 {
                Ok((open, closed))
            } else {
                match open {
                    Some((x, y)) => {
                        if same_pattern(x, y, a, b) {
                            if x * a > u32::MAX || y * b > u32::MAX {
                                Err(TensorError::OversizedDispatch)
                            } else {
                                Ok((Some(((x * a) as u32, (y * b) as u32)), closed))
                            }
                        } else {
                            Ok((Some((a, b)), closed.push((x, y))))
                        }
                    },
                    None => Ok((Some((a, b)), closed)),
                }
            }
        },
    }
}

/// The merge over dimensions `start..end` of the two shapes.
pub open spec fn merge_dims(lhs: Seq<u32>, rhs: Seq<u32>, start: int, end: int) -> MergeState
    decreases end - start,
{
    if end <= start {
        Ok((None, Seq::empty()))
    } else {
        merge_step(merge_dims(lhs, rhs, start, end - 1), lhs[end - 1], rhs[end - 1])
    }
}

/// The runs of dimensions `start..8` of the two shapes, left and right
/// sizes of each, or the first failure met on the way.
pub open spec fn merged_runs(lhs: Seq<u32>, rhs: Seq<u32>, start: int) -> Result<Seq<(u32, u32)>, TensorError> {
    match merge_dims(lhs, rhs, start, 8) {
        Err(e) => Err(e),
        Ok((open, closed)) => Ok(
            match open {
                Some(run) => closed.push(run),
                None => closed,
            },
        ),
    }
}

/// A dimension of a parameter block: its size, and whether the left and
/// the right operand walk along it.
pub type Dimension = (u32, bool, bool);

/// The dimension a run becomes.
pub open spec fn run_dimension(run: (u32, u32)) -> Dimension {
    (if run.0 == 1 { run.1 } else { run.0 }, run.0 != 1, run.1 != 1)
}

/// The dimensions of a block: the output-only `prefix` first, then the runs.
pub open spec fn block_layout(prefix: Seq<u32>, runs: Seq<(u32, u32)>) -> Seq<Dimension> {
    prefix.map_values(|p: u32| (p, false, false)) + runs.map_values(|run: (u32, u32)| run_dimension(run))
}

/// The mask lane of `dims`: bit `i` is set when the left (or, with
/// `right`, the right) operand walks along dimension `i`.
pub open spec fn lane(dims: Seq<Dimension>, right: bool) -> nat
    decreases dims.len(),
{
    if dims.len() == 0 {
        0
    } else {
        let last = dims.last();
        let walks = if right { last.2 } else { last.1 };
        lane(dims.drop_last(), right) + if walks { pow2((dims.len() - 1) as nat) } else { 0 }
    }
}

/// `x` and `y` in the low and high 16 bits of one word.
pub open spec fn spec_pack(x: u32, y: u32) -> u32 {
    (x & 0xFFFF) | ((y & 0xFFFF) << 16)
}

/// The block describes `dims`: word 0 is their count, word 1 packs the two
/// mask lanes, the other words are zero, and each of the first seven
/// dimensions of nonzero size holds its prepared divisor (others hold zeros).
pub open spec fn describes(info: BroadcastInfo, dims: Seq<Dimension>) -> bool {
    &&& info.divisions[0].data == dims.len()
    &&& lane(dims, false) < 0x10000
    &&& lane(dims, true) < 0x10000
    &&& info.divisions[1].data == spec_pack(lane(dims, false) as u32, lane(dims, true) as u32)
    &&& forall|i: int|
        0 <= i < 7 ==> {
            let f = #[trigger] info.divisions[i];
            if i < dims.len() && dims[i].0 != 0 {
                let g = spec_create_div(dims[i].0);
                f.divisor == g.divisor && f.magic == g.magic && f.shift == g.shift
            } else {
                f.divisor == 0 && f.magic == 0 && f.shift == 0
            }
        }
}

/// Words 2 to 6 of the block, free for the kernels' own flags, are zero.
pub open spec fn free_words_zero(info: BroadcastInfo) -> bool {
    forall|i: int| 2 <= i < 7 ==> #[trigger] info.divisions[i].data == 0
}

/// The lane of `dims` only has bits below their count.
pub proof fn lemma_lane_bound(dims: Seq<Dimension>, right: bool)
    ensures
        lane(dims, right) < pow2(dims.len() as nat),
    decreases dims.len(),
{
    if dims.len() == 0 {
        lemma2_to64();
    } else {
        lemma_lane_bound(dims.drop_last(), right);
        lemma_pow2_unfold(dims.len() as nat);
    }
}

/// A block of seven prepared divisors; see the module documentation.
#[derive(Clone, Copy, Debug)]
pub struct BroadcastInfo {
    pub divisions: [FastDivU32; 7],
}

/// Packs two 16-bit values into one word: `x` low, `y` high; bits above
/// 16 in either are dropped.
pub fn pack_2x_u16(v: [u32; 2]) -> (r: u32)
    ensures
        r == spec_pack(v[0], v[1]),
{
    (v[0] & 0xFFFF) | ((v[1] & 0xFFFF) << 16)
}

/// Splits a word into its low and high 16 bits.
pub fn unpack_2x_u16(v: u32) -> (r: [u32; 2])
    ensures
        r[0] == v & 0xFFFF,
        r[1] == v >> 16,
{
    [v & 0xFFFF, v >> 16]
}

/// Unpacking a packed pair gives back both values cut to 16 bits.
pub proof fn lemma_unpack_pack(x: u32, y: u32)
    ensures
        spec_pack(x, y) & 0xFFFF == x & 0xFFFF,
        spec_pack(x, y) >> 16 == y & 0xFFFF,
{
    assert(((x & 0xFFFF) | ((y & 0xFFFF) << 16)) & 0xFFFF == x & 0xFFFF) by (bit_vector);
    assert(((x & 0xFFFF) | ((y & 0xFFFF) << 16)) >> 16 == y & 0xFFFF) by (bit_vector);
}

/// Packing the two halves of a word gives back the word.
pub proof fn lemma_pack_unpack(v: u32)
    ensures
        spec_pack(v & 0xFFFF, v >> 16) == v,
{
    assert(((v & 0xFFFF) & 0xFFFF) | (((v >> 16) & 0xFFFF) << 16) == v) by (bit_vector);
}

/// Counts of a merge: it never holds more runs than dimensions it has seen,
/// and its open run always moves some operand along compatible sizes.
pub proof fn lemma_merge_counts(lhs: Seq<u32>, rhs: Seq<u32>, start: int, end: int)
    ensures
        merge_dims(lhs, rhs, start, end) matches Ok((open, closed)) ==> {
            &&& closed.len() + (if open is Some { 1int } else { 0int }) <= if end > start { end - start } else { 0 }
            &&& (open matches Some((x, y)) ==> (x != 1 || y != 1) && compatible(x, y))
        },
    decreases end - start,
{
    if end > start {
        lemma_merge_counts(lhs, rhs, start, end - 1);
        let prev = merge_dims(lhs, rhs, start, end - 1);
        let a = lhs[end - 1];
        let b = rhs[end - 1];
        if let Ok((Some((x, y)), closed)) = prev {
            if compatible(a, b) && !(a == 1 && b == 1) && same_pattern(x, y, a, b)
                && !(x * a > u32::MAX || y * b > u32::MAX) {
                lemma_run_product(x, y, a, b);
            }
        }
    }
}

/// A failure of the merge is final: scanning more dimensions keeps it.
proof fn lemma_merge_failure_sticks(lhs: Seq<u32>, rhs: Seq<u32>, start: int, mid: int, end: int)
    requires
        start <= mid <= end,
        merge_dims(lhs, rhs, start, mid) is Err,
    ensures
        merge_dims(lhs, rhs, start, end) == merge_dims(lhs, rhs, start, mid),
    decreases end - mid,
{
    if end > mid {
        lemma_merge_failure_sticks(lhs, rhs, start, mid, end - 1);
    }
}

/// Extending a run of pattern `(x, y)` by a dimension of the same pattern
/// keeps the pattern and the compatibility of its sizes.
pub proof fn lemma_run_product(x: u32, y: u32, a: u32, b: u32)
    requires
        compatible(a, b),
        compatible(x, y),
        x != 1 || y != 1,
        same_pattern(x, y, a, b),
        x * a <= u32::MAX,
        y * b <= u32::MAX,
    ensures
        ((x * a) as u32 != 1 || (y * b) as u32 != 1),
        compatible((x * a) as u32, (y * b) as u32),
        same_pattern((x * a) as u32, (y * b) as u32, a, b),
{
    assert(x != 1 && a != 1 ==> x * a != 1) by (nonlinear_arith)
        requires x >= 0, a >= 0;
    assert(y != 1 && b != 1 ==> y * b != 1) by (nonlinear_arith)
        requires y >= 0, b >= 0;
}

proof fn lemma_pow2_increases(a: nat, b: nat)
    requires
        a <= b,
    ensures
        pow2(a) <= pow2(b),
{
    if a < b {
        lemma_pow2_strictly_increases(a, b);
    }
}

/// Setting bit `n` of a lane whose bits all lie below `n` adds `2^n`.
proof fn lemma_set_lane_bit(m: u32, b: u32, n: u32)
    requires
        n < 16,
        b <= 1,
        m < pow2(n as nat),
    ensures
        m | (b << n) == m + b * pow2(n as nat),
        (b << n) == b * pow2(n as nat),
{
    lemma_u32_pow2_no_overflow(n as nat);
    lemma_u32_shl_is_mul(1, n);
    lemma_pow2_strictly_increases(n as nat, 16);
    lemma2_to64();
    assert(b * pow2(n as nat) <= pow2(n as nat)) by (nonlinear_arith)
        requires b <= 1;
    lemma_u32_shl_is_mul(b, n);
    assert(m | (b << n) == m + (b << n)) by (bit_vector)
        requires n < 16, b <= 1, m < (1u32 << n);
}

/// The words of a block with free word `index` set to `value`.
pub open spec fn with_data(words: Seq<FastDivU32>, index: int, value: u32) -> Seq<FastDivU32> {
    words.update(index, FastDivU32 { data: value, ..words[index] })
}

/// The words of a block with the prepared divisor of `dimension` stored in
/// slot `index` (its free word kept), if the block has such a slot and the
/// dimension is not empty; otherwise the words unchanged.
pub open spec fn with_divisor(words: Seq<FastDivU32>, index: int, dimension: u32) -> Seq<FastDivU32> {
    if 0 <= index < 7 && dimension != 0 {
        let g = spec_create_div(dimension);
        words.update(index, FastDivU32 { divisor: g.divisor, magic: g.magic, shift: g.shift, data: words[index].data })
    } else {
        words
    }
}

/// The words of a block after appending a dimension along which only the
/// output walks: its divisor in slot `n` (the old count), the masks
/// unchanged, the count one more.
pub open spec fn pushed_output_dimension(words: Seq<FastDivU32>, dimension: u32) -> Seq<FastDivU32> {
    let n = words[0].data;
    let stored = with_divisor(words, n as int, dimension);
    with_data(stored, 0, (n + 1) as u32)
}

/// The words of a block after appending a dimension of sizes `lhs` and
/// `rhs`: nothing for sizes one on both sides; otherwise the divisor of the
/// broadcast size in slot `n` (the old count), bit `n` of each mask lane
/// set for an operand whose size is not one, and the count one more.
pub open spec fn pushed_dimension(words: Seq<FastDivU32>, lhs: u32, rhs: u32) -> Seq<FastDivU32> {
    if lhs == 1 && rhs == 1 {
        words
    } else {
        let n = words[0].data;
        let stored = with_divisor(words, n as int, if lhs == 1 { rhs } else { lhs });
        let m = stored[1].data;
        let lhs_bit: u32 = if lhs != 1 { 1 } else { 0 };
        let rhs_bit: u32 = if rhs != 1 { 1 } else { 0 };
        let masks = spec_pack((m & 0xFFFF) | (lhs_bit << n), (m >> 16) | (rhs_bit << n));
        with_data(with_data(stored, 1, masks), 0, (n + 1) as u32)
    }
}

/// The broadcast size does not depend on the order of the operands.
pub proof fn lemma_broadcast_dimension_symmetric(a: u32, b: u32)
    ensures
        spec_broadcast_dimension(a, b) == spec_broadcast_dimension(b, a),
{
}

/// Appending a dimension of sizes `lhs` and `rhs` (not both one) to a
/// block that describes `dims` gives a block that describes `dims` with the
/// dimension the pair becomes.
proof fn lemma_pushed_dimension_describes(old_info: BroadcastInfo, info: BroadcastInfo, lhs: u32, rhs: u32, dims: Seq<Dimension>)
    requires
        describes(old_info, dims),
        dims.len() < 16,
        compatible(lhs, rhs),
        !(lhs == 1 && rhs == 1),
        info.divisions@ == pushed_dimension(old_info.divisions@, lhs, rhs),
    ensures
        describes(info, dims.push(run_dimension((lhs, rhs)))),
{
    let dims2 = dims.push(run_dimension((lhs, rhs)));
    let n = dims.len() as u32;
    let l0 = lane(dims, false) as u32;
    let l1 = lane(dims, true) as u32;
    lemma_lane_bound(dims, false);
    lemma_lane_bound(dims, true);
    lemma_pow2_strictly_increases(n as nat, 16);
    lemma2_to64();
    lemma_unpack_pack(l0, l1);
    assert(l0 & 0xFFFF == l0) by (bit_vector)
        requires l0 < 0x10000;
    assert(l1 & 0xFFFF == l1) by (bit_vector)
        requires l1 < 0x10000;
    let stored = with_divisor(old_info.divisions@, n as int, if lhs == 1 { rhs } else { lhs });
    assert(stored[1].data == old_info.divisions[1].data);
    let lhs_bit: u32 = if lhs != 1 { 1 } else { 0 };
    let rhs_bit: u32 = if rhs != 1 { 1 } else { 0 };
    lemma_set_lane_bit(l0, lhs_bit, n);
    lemma_set_lane_bit(l1, rhs_bit, n);
    lemma_pow2_unfold(n as nat + 1);
    lemma_pow2_increases(n as nat + 1, 16);
    assert(dims2.drop_last() =~= dims);
    assert(lane(dims2, false) == lane(dims, false) + lhs_bit * pow2(n as nat));
    assert(lane(dims2, true) == lane(dims, true) + rhs_bit * pow2(n as nat));
    assert(info.divisions[1].data == spec_pack(lane(dims2, false) as u32, lane(dims2, true) as u32));
    assert(info.divisions[0].data == dims2.len());
    assert forall|i: int| 0 <= i < 7 implies {
        let f = #[trigger] info.divisions[i];
        if i < dims2.len() && dims2[i].0 != 0 {
            let g = spec_create_div(dims2[i].0);
            f.divisor == g.divisor && f.magic == g.magic && f.shift == g.shift
        } else {
            f.divisor == 0 && f.magic == 0 && f.shift == 0
        }
    } by {
        assert(info.divisions[i] == info.divisions@[i]);
        assert(old_info.divisions[i] == old_info.divisions@[i]);
        if i < dims.len() {
            assert(dims2[i] == dims[i]);
        }
    }
}

impl BroadcastInfo {
    /// The block describing no dimension: all words zero.
    pub fn zeroed() -> (r: BroadcastInfo)
        ensures
            describes(r, Seq::empty()),
            free_words_zero(r),
    {
        let z = FastDivU32 { divisor: 0, magic: 0, shift: 0, data: 0 };
        assert(spec_pack(0, 0) == 0) by (bit_vector);
        BroadcastInfo { divisions: [z, z, z, z, z, z, z] }
    }

    /// Word 0 of the block: the number of dimensions.
    fn num_dimensions(&mut self) -> (r: &mut u32)
        ensures
            *r == old(self).divisions[0].data,
            final(self).divisions@ == old(self).divisions@.update(
                0,
                FastDivU32 { data: *final(r), ..old(self).divisions[0] },
            ),
    {
        &mut self.divisions[0].data
    }

    /// Word 1 of the block: the two packed mask lanes.
    fn masks(&mut self) -> (r: &mut u32)
        ensures
            *r == old(self).divisions[1].data,
            final(self).divisions@ == old(self).divisions@.update(
                1,
                FastDivU32 { data: *final(r), ..old(self).divisions[1] },
            ),
    {
        &mut self.divisions[1].data
    }

    /// Stores `value` in free word `slot` (word `slot + 2` of the block),
    /// where the kernels keep flags of their own.
    pub fn set_data(&mut self, slot: usize, value: u32)
        requires
            slot < 5,
        ensures
            final(self).divisions@ == old(self).divisions@.update(
                slot + 2,
                FastDivU32 { data: value, ..old(self).divisions[slot + 2] },
            ),
    {
        self.divisions[slot + 2].data = value;
    }

    /// Writes the prepared divisor of `dimension` into slot `index`, if the
    /// block has such a slot and the dimension is not empty.
    fn store_divisor(&mut self, index: usize, dimension: u32)
        ensures
            forall|i: int| 0 <= i < 7 ==> (#[trigger] final(self).divisions[i]).data == old(self).divisions[i].data,
            forall|i: int| 0 <= i < 7 && (i != index || dimension == 0) ==> #[trigger] final(self).divisions[i] == old(self).divisions[i],
            index < 7 && dimension != 0 ==> {
                let f = final(self).divisions[index as int];
                let g = spec_create_div(dimension);
                f.divisor == g.divisor && f.magic == g.magic && f.shift == g.shift
            },
    {
        if index < 7 {
            if dimension != 0 {
                let target = FastDivU32::create_div(dimension);
                self.divisions[index].divisor = target.divisor;
                self.divisions[index].magic = target.magic;
                self.divisions[index].shift = target.shift;
            }
        }
    }

    /// Appends a dimension along which only the output walks (a prefix
    /// dimension): its divisor, no mask bits.
    fn push_output_dimension(&mut self, dimension: u32, Ghost(dims): Ghost<Seq<Dimension>>)
        requires
            old(self).divisions[0].data < u32::MAX,
        ensures
            final(self).divisions@ == pushed_output_dimension(old(self).divisions@, dimension),
            describes(*old(self), dims) ==> describes(*final(self), dims.push((dimension, false, false))),
            forall|i: int| 2 <= i < 7 ==> (#[trigger] final(self).divisions[i]).data == old(self).divisions[i].data,
    {
        let ghost before = self.divisions@;
        let index = *self.num_dimensions() as usize;
        self.store_divisor(index, dimension);
        let ghost stored = self.divisions@;
        assert(stored =~= with_divisor(before, index as int, dimension));
        *self.num_dimensions() += 1;
        assert(self.divisions@ =~= pushed_output_dimension(before, dimension));
        proof {
            if describes(*old(self), dims) {
                let dims2 = dims.push((dimension, false, false));
                assert(dims2.drop_last() =~= dims);
                assert(lane(dims2, false) == lane(dims, false));
                assert(lane(dims2, true) == lane(dims, true));
                assert forall|i: int| 0 <= i < 7 implies {
                    let f = #[trigger] self.divisions[i];
                    if i < dims2.len() && dims2[i].0 != 0 {
                        let g = spec_create_div(dims2[i].0);
                        f.divisor == g.divisor && f.magic == g.magic && f.shift == g.shift
                    } else {
                        f.divisor == 0 && f.magic == 0 && f.shift == 0
                    }
                } by {
                    if i < dims.len() {
                        assert(dims2[i] == dims[i]);
                    }
                }
            }
        }
    }

    /// Appends a dimension of sizes `lhs` and `rhs`: its divisor, and a mask
    /// bit for each operand that walks along it. A dimension of size one on
    /// both sides is left out.
    fn push_dimension(&mut self, lhs: u32, rhs: u32, Ghost(dims): Ghost<Seq<Dimension>>) -> (r: Result<(), TensorError>)
        requires
            compatible(lhs, rhs),
            !(lhs == 1 && rhs == 1) ==> old(self).divisions[0].data < 32,
        ensures
            r == Ok::<(), TensorError>(()),
            final(self).divisions@ == pushed_dimension(old(self).divisions@, lhs, rhs),
            lhs == 1 && rhs == 1 ==> *final(self) == *old(self),
            describes(*old(self), dims) && dims.len() < 16 && !(lhs == 1 && rhs == 1)
                ==> describes(*final(self), dims.push(run_dimension((lhs, rhs)))),
            forall|i: int| 2 <= i < 7 ==> (#[trigger] final(self).divisions[i]).data == old(self).divisions[i].data,
    {
        if (lhs == 1) && (rhs == 1) {
            return Ok(());
        }
        let ghost before = self.divisions@;
        let dimension = Self::boradcast_dimension(lhs, rhs)?;
        let index = *self.num_dimensions() as usize;
        self.store_divisor(index, dimension);
        let ghost stored = self.divisions@;
        assert(stored =~= with_divisor(before, index as int, if lhs == 1 { rhs } else { lhs }));

        let n = *self.num_dimensions();
        let mut masks = unpack_2x_u16(*self.masks());
        let lhs_bit: u32 = if lhs != 1 { 1 } else { 0 };
        let rhs_bit: u32 = if rhs != 1 { 1 } else { 0 };
        masks[0] = masks[0] | (lhs_bit << n);
        masks[1] = masks[1] | (rhs_bit << n);
        *self.masks() = pack_2x_u16(masks);
        *self.num_dimensions() += 1;
        assert(self.divisions@ =~= pushed_dimension(before, lhs, rhs));
        proof {
            if describes(*old(self), dims) && dims.len() < 16 {
                lemma_pushed_dimension_describes(*old(self), *self, lhs, rhs, dims);
            }
        }
        Ok(())
    }

    /// The block for an elementwise operation on shapes `lhs` and `rhs`:
    /// `with_prefix` with no prefix.
    pub fn new(lhs: Shape, rhs: Shape) -> (r: Result<BroadcastInfo, TensorError>)
        ensures
            match merged_runs(lhs@, rhs@, 0) {
                Err(e) => r == Err::<BroadcastInfo, TensorError>(e),
                Ok(runs) => r matches Ok(info) && describes(info, block_layout(Seq::empty(), runs))
                    && free_words_zero(info),
            },
    {
        let empty: [u32; 0] = [];
        Self::with_prefix(lhs, rhs, &empty)
    }

    /// The block whose first dimensions are `prefix` (walked by the output
    /// only) and whose other dimensions are the merged runs of the two
    /// shapes from dimension `prefix.len()` on. Fails with the first failure
    /// of the merge: incompatible sizes, or a run longer than 32 bits.
    pub fn with_prefix(lhs: Shape, rhs: Shape, prefix: &[u32]) -> (r: Result<BroadcastInfo, TensorError>)
        requires
            prefix@.len() + 8 <= u32::MAX,
        ensures
            match merged_runs(lhs@, rhs@, prefix@.len() as int) {
                Err(e) => r == Err::<BroadcastInfo, TensorError>(e),
                Ok(runs) => r matches Ok(info) && describes(info, block_layout(prefix@, runs))
                    && free_words_zero(info),
            },
    {
        let mut accumulator: Option<(u32, u32)> = None;
        let mut params = BroadcastInfo::zeroed();
        let ghost start = prefix@.len() as int;

        let mut p: usize = 0;
        while p < prefix.len()
            invariant
                p <= prefix@.len(),
                prefix@.len() + 8 <= u32::MAX,
                describes(params, block_layout(prefix@.take(p as int), Seq::empty())),
                free_words_zero(params),
            decreases prefix@.len() - p,
        {
            let ghost before = block_layout(prefix@.take(p as int), Seq::empty());
            params.push_output_dimension(prefix[p], Ghost(before));
            assert(block_layout(prefix@.take(p + 1), Seq::empty()) =~= before.push((prefix@[p as int], false, false)));
            p = p + 1;
        }
        assert(prefix@.take(prefix@.len() as int) =~= prefix@);

        let ghost mut closed: Seq<(u32, u32)> = Seq::empty();
        let mut i: usize = prefix.len();
        while i < 8
            invariant
                start == prefix@.len(),
                start <= i,
                i <= 8 || i == start,
                prefix@.len() + 8 <= u32::MAX,
                merge_dims(lhs@, rhs@, start, i as int) == Ok::<(Option<(u32, u32)>, Seq<(u32, u32)>), TensorError>((accumulator, closed)),
                describes(params, block_layout(prefix@, closed)),
                free_words_zero(params),
            decreases 8 - i,
        {
            proof {
                lemma_merge_counts(lhs@, rhs@, start, i as int);
            }
            let a = lhs[i];
            let b = rhs[i];
            proof {
                if merge_dims(lhs@, rhs@, start, i + 1) is Err {
                    lemma_merge_failure_sticks(lhs@, rhs@, start, i + 1, 8);
                }
            }
            Self::boradcast_dimension(a, b)?;
            if !(a == 1 && b == 1) {
                match accumulator {
                    Some((acc_a, acc_b)) => {
                        if (acc_a != 1) == (a != 1) && (acc_b != 1) == (b != 1) {
                            let error = TensorError::OversizedDispatch;
                            let next_a = match acc_a.checked_mul(a) {
                                Some(v) => v,
                                None => return Err(error),
                            };
                            let next_b = match acc_b.checked_mul(b) {
                                Some(v) => v,
                                None => return Err(error),
                            };
                            accumulator = Some((next_a, next_b));
                        } else {
                            let ghost before = block_layout(prefix@, closed);
                            accumulator = Some((a, b));
                            Self::push_dimension(&mut params, acc_a, acc_b, Ghost(before))?;
                            proof {
                                assert(block_layout(prefix@, closed.push((acc_a, acc_b)))
                                    =~= before.push(run_dimension((acc_a, acc_b))));
                                closed = closed.push((acc_a, acc_b));
                            }
                        }
                    },
                    None => {
                        accumulator = Some((a, b));
                    },
                }
            }
            i = i + 1;
        }
        proof {
            lemma_merge_counts(lhs@, rhs@, start, 8);
        }
        if let Some((a, b)) = accumulator {
            let ghost before = block_layout(prefix@, closed);
            Self::push_dimension(&mut params, a, b, Ghost(before))?;
            assert(block_layout(prefix@, closed.push((a, b))) =~= before.push(run_dimension((a, b))));
        }
        Ok(params)
    }

    /// Sizes `a` and `b` broadcast to the size of the result: equal sizes
    /// stay, a size of one takes the other size, anything else fails.
    pub fn boradcast_dimension(a: u32, b: u32) -> (r: Result<u32, TensorError>)
        ensures
            r == spec_broadcast_dimension(a, b),
    {
        if a == b {
            Ok(a)
        } else if a == 1 {
            Ok(b)
        } else if b == 1 {
            Ok(a)
        } else {
            Err(TensorError::ShapeMismatch)
        }
    }
}

} // verus!
