//! Offsets in the mapped staging blocks that carry tensor data and kernel
//! parameters between the host and the device.

use vstd::prelude::*;

use crate::error::TensorError;
use vstd::arithmetic::div_mod::*;

use crate::ints::{round_up, u64_next_multiple_of};
use crate::tensor_size::lemma_round_up_at_least;

verus! {

/// Size of each staging block for tensor reads and writes.
pub const STAGING_BLOCK_SIZE: u64 = 4194304;

/// `wgpu::MAP_ALIGNMENT`: mapped ranges start at multiples of it;
/// wgpu-types defines it as 8.
#[verifier::external_body]
pub(crate) fn map_alignment() -> (r: u64)
    ensures
        r == 8,
{
    wgpu::MAP_ALIGNMENT
}

/// A piece of a staging block handed out for one copy: bytes
/// `start..end` of the current block; `swap` says that the previous block
/// (if there was one) is released and a fresh block is taken and mapped.
#[derive(Clone, Copy, Debug, PartialEq, Eq, Structural)]
pub struct ChunkStep {
    pub swap: bool,
    pub released_previous: bool,
    pub start: u64,
    pub end: u64,
}

/// Where an allocator stands in its current staging block.
#[derive(Clone, Copy, Debug, PartialEq, Eq, Structural)]
pub struct StagingCursor {
    pub has_block: bool,
    pub offset: u64,
}

/// The next chunk for up to `size` bytes: the offset moves to the next
/// mapping boundary (at most the block end); a full or missing block is
/// replaced by a fresh one (the offset restarting at zero when a block is
/// released); the chunk is as long as `size` or as what is left of the block.
pub open spec fn spec_chunk(cursor: StagingCursor, size: u64) -> (StagingCursor, ChunkStep) {
    let aligned = round_up(cursor.offset as int, 8);
    let offset: u64 = if aligned < STAGING_BLOCK_SIZE { aligned as u64 } else { STAGING_BLOCK_SIZE };
    let swap = !cursor.has_block || STAGING_BLOCK_SIZE - offset == 0;
    let released = swap && cursor.has_block;
    let start: u64 = if released { 0 } else { offset };
    let length: u64 = if size < STAGING_BLOCK_SIZE - start { size } else { (STAGING_BLOCK_SIZE - start) as u64 };
    let end = (start + length) as u64;
    (StagingCursor { has_block: true, offset: end }, ChunkStep { swap, released_previous: released, start, end })
}

impl StagingCursor {
    /// A cursor with no block yet.
    pub fn new() -> (r: StagingCursor)
        ensures
            r == (StagingCursor { has_block: false, offset: 0 }),
            r.wf(),
    {
        StagingCursor { has_block: false, offset: 0 }
    }

    /// The cursor is inside its block, and at the start while it has none.
    pub open spec fn wf(self) -> bool {
        &&& self.offset <= STAGING_BLOCK_SIZE
        &&& (self.has_block || self.offset == 0)
    }

    /// Hands out the next chunk for up to `size` bytes; see `spec_chunk`.
    pub fn chunk(&mut self, size: u64) -> (step: ChunkStep)
        requires
            old(self).wf(),
        ensures
            (*final(self), step) == spec_chunk(*old(self), size),
            final(self).wf(),
    {
        let alignment = map_alignment();
        proof {
            lemma_round_up_at_least(self.offset as int, 8);
        }
        let aligned = u64_next_multiple_of(self.offset, alignment);
        let offset = if aligned < STAGING_BLOCK_SIZE { aligned } else { STAGING_BLOCK_SIZE };
        let swap = !self.has_block || STAGING_BLOCK_SIZE - offset == 0;
        let released = swap && self.has_block;
        let start = if released { 0 } else { offset };
        let length = if size < STAGING_BLOCK_SIZE - start { size } else { STAGING_BLOCK_SIZE - start };
        let end = start + length;
        self.has_block = true;
        self.offset = end;
        ChunkStep { swap, released_previous: released, start, end }
    }

    /// The block is released (when the allocator is dropped).
    pub fn release(&mut self) -> (released: bool)
        ensures
            released == old(self).has_block,
            *final(self) == (StagingCursor { has_block: false, offset: old(self).offset }),
    {
        let released = self.has_block;
        self.has_block = false;
        released
    }
}

/// Chunks never overlap and never leave their block: a chunk asked for a
/// nonzero size is nonempty, starts at a mapping boundary, ends within the
/// block, and (unless it comes with a fresh block) starts at or after the
/// end of the chunk before it.
pub proof fn lemma_chunk_in_block(cursor: StagingCursor, size: u64)
    requires
        cursor.wf(),
    ensures
        ({
            let (next, step) = spec_chunk(cursor, size);
            &&& step.start % 8 == 0
            &&& step.start <= step.end <= STAGING_BLOCK_SIZE
            &&& size > 0 ==> step.start < step.end
            &&& step.end - step.start <= size
            &&& !step.swap ==> step.start >= cursor.offset
            &&& next.wf()
        }),
{
    lemma_round_up_at_least(cursor.offset as int, 8);
    let (next, step) = spec_chunk(cursor, size);
    let aligned = round_up(cursor.offset as int, 8);
    assert(STAGING_BLOCK_SIZE % 8 == 0);
    assert(step.start % 8 == 0);
    assert(step.start <= step.end <= STAGING_BLOCK_SIZE);
    assert(size > 0 ==> step.start < step.end);
    assert(!step.swap ==> step.start >= cursor.offset);
}

/// Two chunks handed out one after the other from the same block do not
/// overlap.
pub proof fn lemma_chunks_disjoint(cursor: StagingCursor, first: u64, second: u64)
    requires
        cursor.wf(),
    ensures
        ({
            let (middle, a) = spec_chunk(cursor, first);
            let (_, b) = spec_chunk(middle, second);
            !b.swap ==> a.end <= b.start
        }),
{
    lemma_chunk_in_block(cursor, first);
    let (middle, a) = spec_chunk(cursor, first);
    lemma_chunk_in_block(middle, second);
}

/// One copy of a tensor transfer: the staging chunk, the offset in the
/// tensor's buffer it corresponds to, and how many of its bytes are tensor
/// data (the rest is the buffer's padding).
#[derive(Clone, Copy, Debug, PartialEq, Eq, Structural)]
pub struct TransferStep {
    pub chunk: ChunkStep,
    pub tensor_offset: u64,
    pub data_len: u64,
}

/// The copies that move `length` buffer bytes (of which the first `data`
/// are tensor data) from buffer offset `offset` on: one chunk at a time,
/// each as long as the allocator allows, until nothing is left.
pub open spec fn spec_transfer(cursor: StagingCursor, data: u64, length: u64, offset: u64)
    -> (StagingCursor, Seq<TransferStep>)
    decreases length,
    when cursor.wf()
    via transfer_decreases
{
    if length == 0 {
        (cursor, Seq::empty())
    } else {
        let (next, chunk) = spec_chunk(cursor, length);
        let n = (chunk.end - chunk.start) as u64;
        let data_len: u64 = if n < data { n } else { data };
        let (last, rest) = spec_transfer(next, (data - data_len) as u64, (length - n) as u64, (offset + n) as u64);
        (last, seq![TransferStep { chunk, tensor_offset: offset, data_len }] + rest)
    }
}

#[via_fn]
proof fn transfer_decreases(cursor: StagingCursor, data: u64, length: u64, offset: u64) {
    lemma_chunk_in_block(cursor, length);
}

/// The copies of a transfer of `length` buffer bytes, `data` of them
/// tensor data, taking chunks from `cursor`; see `spec_transfer`.
pub fn transfer_plan(cursor: &mut StagingCursor, data: u64, length: u64) -> (r: Vec<TransferStep>)
    requires
        old(cursor).wf(),
    ensures
        (*final(cursor), r@) == spec_transfer(*old(cursor), data, length, 0),
        final(cursor).wf(),
{
    let mut steps: Vec<TransferStep> = Vec::new();
    let mut size = data;
    let mut remaining = length;
    let mut offset: u64 = 0;
    let ghost start = *cursor;
    loop
        invariant
            start == *old(cursor),
            start.wf(),
            cursor.wf(),
            offset + remaining == length,
            spec_transfer(start, data, length, 0).1 == steps@ + spec_transfer(*cursor, size, remaining, offset).1,
            spec_transfer(start, data, length, 0).0 == spec_transfer(*cursor, size, remaining, offset).0,
        decreases remaining,
    {
        if remaining == 0 {
            assert(steps@ + Seq::<TransferStep>::empty() =~= steps@);
            return steps;
        }
        proof {
            lemma_chunk_in_block(*cursor, remaining);
        }
        let ghost before = *cursor;
        let chunk = cursor.chunk(remaining);
        let n = chunk.end - chunk.start;
        let data_len = if n < size { n } else { size };
        let step = TransferStep { chunk, tensor_offset: offset, data_len };
        proof {
            let rest = spec_transfer(*cursor, (size - data_len) as u64, (remaining - n) as u64, (offset + n) as u64).1;
            assert(steps@.push(step) + rest =~= steps@ + (seq![step] + rest));
        }
        steps.push(step);
        offset = offset + n;
        remaining = remaining - n;
        size = size - data_len;
    }
}

/// The total of `data_len` over the steps.
pub open spec fn transferred_data(steps: Seq<TransferStep>) -> int
    decreases steps.len(),
{
    if steps.len() == 0 {
        0
    } else {
        steps[0].data_len + transferred_data(steps.drop_first())
    }
}

/// A transfer covers the tensor's buffer exactly once: its copies are
/// nonempty and follow each other from `offset` with no gap, the last one
/// ending at `offset + length`; and they carry all `data` bytes of tensor
/// data (when `data <= length`).
pub proof fn lemma_transfer_covers(cursor: StagingCursor, data: u64, length: u64, offset: u64)
    requires
        cursor.wf(),
        data <= length,
        offset + length <= u64::MAX,
    ensures
        ({
            let steps = spec_transfer(cursor, data, length, offset).1;
            &&& steps.len() == 0 <==> length == 0
            &&& steps.len() > 0 ==> steps[0].tensor_offset == offset
            &&& forall|k: int| 0 <= k < steps.len() ==> (#[trigger] steps[k]).chunk.start < steps[k].chunk.end
            &&& forall|k: int| 0 <= k < steps.len() - 1 ==> #[trigger] steps[k + 1].tensor_offset
                == steps[k].tensor_offset + (steps[k].chunk.end - steps[k].chunk.start)
            &&& steps.len() > 0 ==> steps.last().tensor_offset + (steps.last().chunk.end - steps.last().chunk.start)
                == offset + length
            &&& transferred_data(steps) == data
        }),
    decreases length,
{
    if length > 0 {
        lemma_chunk_in_block(cursor, length);
        let (next, chunk) = spec_chunk(cursor, length);
        let n = (chunk.end - chunk.start) as u64;
        let data_len: u64 = if n < data { n } else { data };
        lemma_transfer_covers(next, (data - data_len) as u64, (length - n) as u64, (offset + n) as u64);
        let steps = spec_transfer(cursor, data, length, offset).1;
        let rest = spec_transfer(next, (data - data_len) as u64, (length - n) as u64, (offset + n) as u64).1;
        assert(steps.drop_first() =~= rest);
        assert forall|k: int| 0 <= k < steps.len() - 1 implies #[trigger] steps[k + 1].tensor_offset
            == steps[k].tensor_offset + (steps[k].chunk.end - steps[k].chunk.start) by {
            if k > 0 {
                assert(steps[k] == rest[k - 1]);
                assert(steps[k + 1] == rest[k]);
            }
        }
        if rest.len() > 0 {
            assert(steps.last() == rest.last());
        }
    }
}

/// Size of the mapped host block that parameter blocks are written into.
pub const CPU_BLOCK_SIZE: u64 = 4194304;

/// Size of the uniform buffer the kernels read parameter blocks from; the
/// host block is copied into it one segment of this size at a time.
pub const GPU_BLOCK_SIZE: u64 = 262144;

/// Where the next parameter block of a command encoder goes: whether a
/// host block is mapped, whether a compute pass is open, and the offsets in
/// the host block and in the uniform buffer.
#[derive(Clone, Copy, Debug, PartialEq, Eq, Structural)]
pub struct ParamCursor {
    pub has_view: bool,
    pub pass_open: bool,
    pub cpu_offset: u64,
    pub gpu_offset: u64,
}

/// What placing one parameter block requires of the encoder, in order:
/// unmap the full host block; copy the host block from `flush_from` into
/// the uniform buffer (a fresh segment); take, copy from zero and map a new
/// host block; begin a compute pass; then write the block at
/// `write_offset` of the host block and bind it at `dynamic_offset` of the
/// uniform buffer.
#[derive(Clone, Copy, Debug, PartialEq, Eq, Structural)]
pub struct ParamPlacement {
    pub unmap_view: bool,
    pub flush_from: Option<u64>,
    pub new_view: bool,
    pub begin_pass: bool,
    pub write_offset: u64,
    pub dynamic_offset: u64,
}

/// Placing a parameter block of `length` bytes with uniform offsets
/// aligned to `align`: both offsets move to the next aligned position; a
/// block that would overflow the host block replaces it; one that would
/// overflow the uniform buffer starts a fresh segment there.
pub open spec fn spec_place(c: ParamCursor, length: u64, align: u64) -> (ParamCursor, ParamPlacement) {
    let cpu1 = round_up(c.cpu_offset as int, align as int);
    let gpu1 = round_up(c.gpu_offset as int, align as int);
    let replace = cpu1 + length > CPU_BLOCK_SIZE;
    let write_params = gpu1 + length > GPU_BLOCK_SIZE;
    let unmap = c.has_view && replace;
    let kept = c.has_view && !replace;
    let flush = kept && write_params;
    let cpu2 = if flush { round_up(cpu1, GPU_BLOCK_SIZE as int) } else { cpu1 };
    let gpu2 = if flush { 0 } else { gpu1 };
    let pass2 = if flush { false } else { c.pass_open };
    let new_view = !kept;
    let cpu3 = if new_view { 0 } else { cpu2 };
    let gpu3 = if new_view { 0 } else { gpu2 };
    let pass3 = if new_view { false } else { pass2 };
    (
        ParamCursor {
            has_view: true,
            pass_open: true,
            cpu_offset: (cpu3 + length) as u64,
            gpu_offset: (gpu3 + length) as u64,
        },
        ParamPlacement {
            unmap_view: unmap,
            flush_from: if flush { Some(cpu2 as u64) } else { None },
            new_view,
            begin_pass: !pass3,
            write_offset: cpu3 as u64,
            dynamic_offset: gpu3 as u64,
        },
    )
}

/// `round_up(x + y, a) == round_up(x, a) + y` when `a` divides `y`.
proof fn lemma_round_up_shift(x: int, y: int, a: int)
    requires
        0 <= x,
        0 <= y,
        0 < a,
        y % a == 0,
    ensures
        round_up(x + y, a) == round_up(x, a) + y,
{
    lemma_fundamental_div_mod(y, a);
    let j = y / a;
    assert(x + a - 1 + y == (x + a - 1) + j * a) by (nonlinear_arith)
        requires y == a * j + 0;
    lemma_hoist_over_denominator(x + a - 1, j, a as nat);
    assert(((x + a - 1) / a + j) * a == ((x + a - 1) / a) * a + j * a) by (nonlinear_arith);
    assert(j * a == y) by (nonlinear_arith)
        requires y == a * j;
}

impl ParamCursor {
    /// A cursor with no host block and no open pass.
    pub fn new() -> (r: ParamCursor)
        ensures
            r == (ParamCursor { has_view: false, pass_open: false, cpu_offset: 0, gpu_offset: 0 }),
            r.wf(),
    {
        ParamCursor { has_view: false, pass_open: false, cpu_offset: 0, gpu_offset: 0 }
    }

    /// Both offsets lie in their blocks, and the host offset is the uniform
    /// offset plus the start of the segment last copied to the uniform
    /// buffer (a multiple of its size).
    pub open spec fn wf(self) -> bool {
        &&& self.cpu_offset <= CPU_BLOCK_SIZE
        &&& self.gpu_offset <= GPU_BLOCK_SIZE
        &&& self.gpu_offset <= self.cpu_offset
        &&& (self.cpu_offset - self.gpu_offset) % (GPU_BLOCK_SIZE as int) == 0
    }

    /// Places a parameter block of `length` bytes; see `spec_place`. The
    /// written range lies in the host block, the bound range in the uniform
    /// buffer, the bound offset is aligned, and a copied segment lies in the
    /// host block; the written bytes sit where the bound range reads them.
    pub fn place(&mut self, length: u64, align: u64) -> (p: ParamPlacement)
        requires
            old(self).wf(),
            0 < length < 256,
            0 < align,
            GPU_BLOCK_SIZE % align == 0,
        ensures
            (*final(self), p) == spec_place(*old(self), length, align),
            final(self).wf(),
            p.write_offset + length <= CPU_BLOCK_SIZE,
            p.dynamic_offset + length <= GPU_BLOCK_SIZE,
            p.dynamic_offset % align == 0,
            p.flush_from matches Some(f) ==> f % GPU_BLOCK_SIZE == 0 && f + GPU_BLOCK_SIZE <= CPU_BLOCK_SIZE
                && p.write_offset - p.dynamic_offset == f,
            p.new_view ==> p.write_offset == p.dynamic_offset,
            !p.new_view && p.flush_from is None ==> p.write_offset - p.dynamic_offset
                == old(self).cpu_offset - old(self).gpu_offset,
    {
        proof {
            lemma_round_up_at_least(self.cpu_offset as int, align as int);
            lemma_round_up_at_least(self.gpu_offset as int, align as int);
            lemma_mod_mod_multiple(self.cpu_offset - self.gpu_offset, GPU_BLOCK_SIZE as int, align as int);
            lemma_round_up_shift(self.gpu_offset as int, (self.cpu_offset - self.gpu_offset) as int, align as int);
            lemma_divisor_at_most(GPU_BLOCK_SIZE as int, align as int);
            lemma_round_up_at_most(self.gpu_offset as int, GPU_BLOCK_SIZE as int, align as int);
        }
        let cpu1 = u64_next_multiple_of(self.cpu_offset, align);
        let gpu1 = u64_next_multiple_of(self.gpu_offset, align);
        let replace_view = cpu1 + length > CPU_BLOCK_SIZE;
        let write_params = gpu1 + length > GPU_BLOCK_SIZE;

        let unmap_view = self.has_view && replace_view;
        if unmap_view {
            self.has_view = false;
        }
        let mut flush_from: Option<u64> = None;
        let mut cpu = cpu1;
        let mut gpu = gpu1;
        if self.has_view && write_params {
            self.pass_open = false;
            proof {
                lemma_round_up_at_least(cpu1 as int, GPU_BLOCK_SIZE as int);
                lemma_flush_segment(cpu1 as int, gpu1 as int, length as int);
            }
            gpu = 0;
            cpu = u64_next_multiple_of(cpu1, GPU_BLOCK_SIZE);
            flush_from = Some(cpu);
        }
        let new_view = !self.has_view;
        if new_view {
            self.has_view = true;
            self.pass_open = false;
            cpu = 0;
            gpu = 0;
        }
        let begin_pass = !self.pass_open;
        self.pass_open = true;
        self.cpu_offset = cpu + length;
        self.gpu_offset = gpu + length;
        ParamPlacement { unmap_view, flush_from, new_view, begin_pass, write_offset: cpu, dynamic_offset: gpu }
    }

    /// The compute pass is closed (the encoder records another command).
    pub fn end_pass(&mut self)
        ensures
            *final(self) == (ParamCursor { pass_open: false, ..*old(self) }),
    {
        self.pass_open = false;
    }

    /// The host block is unmapped (the encoder is finished).
    pub fn release(&mut self) -> (released: bool)
        ensures
            released == old(self).has_view,
            *final(self) == (ParamCursor { has_view: false, ..*old(self) }),
    {
        let released = self.has_view;
        self.has_view = false;
        released
    }
}

/// Rounding up never passes a multiple that is at least the value.
proof fn lemma_round_up_at_most(x: int, m: int, a: int)
    requires
        0 <= x <= m,
        0 < a,
        m % a == 0,
    ensures
        round_up(x, a) <= m,
{
    lemma_div_is_ordered(x + a - 1, m + a - 1, a);
    lemma_fundamental_div_mod(m, a);
    let k = m / a;
    assert(m + a - 1 == k * a + (a - 1)) by (nonlinear_arith)
        requires m == a * k;
    lemma_fundamental_div_mod_converse_div(m + a - 1, a, k, a - 1);
    assert(((x + a - 1) / a) * a <= k * a) by (nonlinear_arith)
        requires (x + a - 1) / a <= k, a > 0;
    assert(k * a == m) by (nonlinear_arith)
        requires m == a * k;
}

/// A divisor of a positive number is at most that number.
proof fn lemma_divisor_at_most(m: int, a: int)
    requires
        0 < m,
        0 < a,
        m % a == 0,
    ensures
        a <= m,
{
    lemma_fundamental_div_mod(m, a);
    assert(a <= m) by (nonlinear_arith)
        requires m == a * (m / a), m > 0, a > 0;
}

/// `x % m` when `a` divides `m` and `m` divides `x`: `a` divides `x`.
proof fn lemma_mod_mod_multiple(x: int, m: int, a: int)
    requires
        0 <= x,
        0 < a,
        0 < m,
        x % m == 0,
        m % a == 0,
    ensures
        x % a == 0,
{
    lemma_fundamental_div_mod(x, m);
    lemma_fundamental_div_mod(m, a);
    let q = x / m;
    let r = m / a;
    assert(x == a * (r * q)) by (nonlinear_arith)
        requires x == m * q, m == a * r;
    lemma_mod_multiples_basic(r * q, a);
    assert((r * q) * a == a * (r * q)) by (nonlinear_arith);
}

/// Starting a fresh uniform segment: with the host offset `cpu` at a
/// multiple of the segment size past the uniform offset `gpu`, and the block
/// fitting in the host block but not in the uniform buffer, the next
/// segment boundary is one segment past that multiple and still leaves room
/// for a whole segment.
proof fn lemma_flush_segment(cpu: int, gpu: int, length: int)
    requires
        0 <= gpu <= GPU_BLOCK_SIZE,
        gpu <= cpu,
        (cpu - gpu) % (GPU_BLOCK_SIZE as int) == 0,
        cpu + length <= CPU_BLOCK_SIZE,
        gpu + length > GPU_BLOCK_SIZE,
        0 < length < 256,
    ensures
        round_up(cpu, GPU_BLOCK_SIZE as int) % (GPU_BLOCK_SIZE as int) == 0,
        round_up(cpu, GPU_BLOCK_SIZE as int) + GPU_BLOCK_SIZE <= CPU_BLOCK_SIZE,
{
    let g = GPU_BLOCK_SIZE as int;
    lemma_round_up_at_least(cpu, g);
    lemma_fundamental_div_mod(cpu - gpu, g);
    let k = (cpu - gpu) / g;
    assert(cpu == gpu + g * k);
    assert(k <= 15) by (nonlinear_arith)
        requires cpu == gpu + g * k, cpu + length <= 4194304, gpu + length > 262144, g == 262144, length > 0;
    if gpu == g {
        lemma_round_up_shift(g, g * k, g);
        lemma_mod_multiples_basic(k, g);
        assert(g * k == k * g) by (nonlinear_arith);
        assert(round_up(g, g) == g);
        assert(round_up(cpu, g) == g * (k + 1)) by (nonlinear_arith)
            requires round_up(cpu, g) == g + g * k;
    } else {
        lemma_round_up_shift(gpu, g * k, g);
        lemma_mod_multiples_basic(k, g);
        assert(g * k == k * g) by (nonlinear_arith);
        assert(round_up(gpu, g) == g) by {
            lemma_round_up_at_least(gpu, g);
            lemma_fundamental_div_mod(round_up(gpu, g), g);
        }
        assert(round_up(cpu, g) == g * (k + 1)) by (nonlinear_arith)
            requires round_up(cpu, g) == g + g * k;
    }
    lemma_mod_multiples_basic(k + 1, g);
    assert((k + 1) * g == g * (k + 1)) by (nonlinear_arith);
    assert(g * (k + 1) + g <= 4194304) by (nonlinear_arith)
        requires g == 262144, k <= 15, g * (k + 1) <= cpu + length - 1, cpu + length <= 4194304;
}

/// A finished read is handed over only once every staging chunk it was
/// copied into is mapped, else `StagingBufferNotMapped`.
pub fn chunks_ready(mapped: &[bool]) -> (r: Result<(), TensorError>)
    ensures
        r == if forall|i: int| 0 <= i < mapped@.len() ==> #[trigger] mapped@[i] {
            Ok::<(), TensorError>(())
        } else {
            Err(TensorError::StagingBufferNotMapped)
        },
{
    let mut i: usize = 0;
    while i < mapped.len()
        invariant
            i <= mapped@.len(),
            forall|j: int| 0 <= j < i ==> #[trigger] mapped@[j],
        decreases mapped@.len() - i,
    {
        if !mapped[i] {
            return Err(TensorError::StagingBufferNotMapped);
        }
        i = i + 1;
    }
    Ok(())
}

} // verus!
