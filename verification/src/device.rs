//! The integer arithmetic the kernels perform on the device: numbering
//! invocations across the launch grid, and locating the elements a
//! reduction cluster combines.

use vstd::prelude::*;
use vstd::arithmetic::div_mod::*;
use vstd::arithmetic::power2::*;
use vstd::bits::*;

verus! {

/// Three unsigned coordinates: an invocation's position in its launch, or
/// the size of a launch grid.
#[derive(Clone, Copy, Debug, PartialEq, Eq, Structural)]
pub struct UVec3 {
    pub x: u32,
    pub y: u32,
    pub z: u32,
}

/// The flat number of invocation `id` in a grid of `size` workgroups of
/// 256 invocations laid out along x: rows of `256 * size.x` invocations,
/// planes of `size.y` rows.
pub open spec fn spec_invocation_index(id: UVec3, size: UVec3) -> int {
    id.x + 256 * size.x * (id.y + size.y * id.z)
}

/// The flat number of invocation `id` in a grid of `size` workgroups.
pub fn invocation_index(id: UVec3, size: UVec3) -> (r: u32)
    requires
        256 * size.x <= u32::MAX,
        id.y + size.y * id.z <= u32::MAX,
        spec_invocation_index(id, size) <= u32::MAX,
    ensures
        r == spec_invocation_index(id, size),
{
    let width = size.x * 256;
    assert(size.y * id.z <= id.y + size.y * id.z);
    let row = id.y + size.y * id.z;
    assert(width * row <= spec_invocation_index(id, size)) by (nonlinear_arith)
        requires width == 256 * size.x, row == id.y + size.y * id.z, id.x >= 0;
    id.x + width * row
}

/// A grid of `x` by `y` workgroups numbers its invocations `0..256 * x * y`
/// one to one: every number below `256 * x * y` is the number of the
/// invocation at column `e % (256 * x)` and row `e / (256 * x)`, and every
/// invocation of the grid has a number below `256 * x * y`.
pub proof fn lemma_invocations_cover(x: u32, y: u32, e: int)
    requires
        0 < x,
        256 * x <= u32::MAX,
        0 <= e < 256 * x * y,
    ensures
        ({
            let width = 256 * x;
            let id = UVec3 { x: (e % width) as u32, y: (e / width) as u32, z: 0 };
            &&& id.x < width
            &&& id.y < y
            &&& spec_invocation_index(id, UVec3 { x, y, z: 1 }) == e
        }),
        forall|id: UVec3| id.x < 256 * x && id.y < y && id.z == 0 ==>
            0 <= #[trigger] spec_invocation_index(id, UVec3 { x, y, z: 1 }) < 256 * x * y,
{
    let width = 256 * x;
    lemma_fundamental_div_mod(e, width);
    lemma_div_pos_is_pos(e, width);
    assert(256 * x * (e / width + y * 0) == width * (e / width)) by (nonlinear_arith)
        requires width == 256 * x;
    assert(e / width < y) by (nonlinear_arith)
        requires e == width * (e / width) + e % width, 0 <= e % width, e < width * y, width > 0, e / width >= 0;
    assert forall|id: UVec3| id.x < 256 * x && id.y < y && id.z == 0 implies
        0 <= #[trigger] spec_invocation_index(id, UVec3 { x, y, z: 1 }) < 256 * x * y by {
        assert(id.x + 256 * x * id.y < 256 * x * y) by (nonlinear_arith)
            requires id.x < 256 * x, id.y < y, id.y >= 0;
    }
}

/// The cluster an invocation belongs to: workgroups numbered across the
/// grid, `2^(8 - cluster_shift)` clusters of `2^cluster_shift` lanes each.
pub open spec fn spec_cluster_index(invocation: u32, workgroup_id: UVec3, num_workgroups: UVec3, cluster_shift: u32) -> int {
    let workgroup = workgroup_id.x + workgroup_id.y * num_workgroups.x + workgroup_id.z * num_workgroups.x * num_workgroups.y;
    workgroup * pow2((8 - cluster_shift) as nat) + (invocation as int) / (pow2(cluster_shift as nat) as int)
}

/// The cluster invocation `invocation` of workgroup `workgroup_id` works on.
pub fn cluster_index(invocation: u32, workgroup_id: UVec3, num_workgroups: UVec3, cluster_shift: u32) -> (r: u32)
    requires
        cluster_shift <= 8,
        spec_cluster_index(invocation, workgroup_id, num_workgroups, cluster_shift) <= u32::MAX,
        workgroup_id.x + workgroup_id.y * num_workgroups.x + workgroup_id.z * num_workgroups.x * num_workgroups.y <= u32::MAX,
        num_workgroups.x * num_workgroups.y <= u32::MAX,
    ensures
        r == spec_cluster_index(invocation, workgroup_id, num_workgroups, cluster_shift),
{
    let ghost bound = workgroup_id.x + workgroup_id.y * num_workgroups.x + workgroup_id.z * num_workgroups.x * num_workgroups.y;
    assert(workgroup_id.y * num_workgroups.x >= 0 && workgroup_id.z * num_workgroups.x * num_workgroups.y >= 0)
        by (nonlinear_arith);
    assert(workgroup_id.z * (num_workgroups.x * num_workgroups.y) == workgroup_id.z * num_workgroups.x * num_workgroups.y)
        by (nonlinear_arith);
    let plane = num_workgroups.x * num_workgroups.y;
    let workgroup = workgroup_id.x + workgroup_id.y * num_workgroups.x + workgroup_id.z * plane;
    let clusters_shift = 8u32 - cluster_shift;
    proof {
        lemma_pow2_pos(clusters_shift as nat);
        lemma_pow2_pos(cluster_shift as nat);
        lemma_u32_shr_is_div(invocation, cluster_shift);
        assert(workgroup * pow2(clusters_shift as nat) <= spec_cluster_index(invocation, workgroup_id, num_workgroups, cluster_shift))
            by {
            lemma_div_pos_is_pos(invocation as int, pow2(cluster_shift as nat) as int);
        }
        lemma_u32_shl_is_mul(workgroup, clusters_shift);
    }
    (workgroup << clusters_shift) + (invocation >> cluster_shift)
}

/// The elements of cluster `cluster_index` in a reduction over extents
/// `inner_size`, `reduction_size` (shrunk to its clusters) and beyond: its
/// position along the inner dimensions, its cluster along the reduced
/// dimension, and its position along the outer dimensions, numbered inner
/// fastest.
pub open spec fn spec_tensor_indices(inner_size: u32, reduction_size: u32, cluster_shift: u32, cluster_index: u32) -> UVec3 {
    let clusters = ((if reduction_size > 1 { reduction_size as int } else { 1 }) - 1) / (pow2(cluster_shift as nat) as int) + 1;
    let remaining = (cluster_index / inner_size) as int;
    UVec3 {
        x: (cluster_index % inner_size) as u32,
        y: (remaining % clusters) as u32,
        z: (remaining / clusters) as u32,
    }
}

/// Where the elements of cluster `cluster_index` lie; see
/// `spec_tensor_indices`.
pub fn tensor_indices(inner_size: u32, reduction_size: u32, cluster_shift: u32, cluster_index: u32) -> (r: UVec3)
    requires
        inner_size != 0,
        cluster_shift < 32,
    ensures
        r == spec_tensor_indices(inner_size, reduction_size, cluster_shift, cluster_index),
{
    let base = if reduction_size > 1 { reduction_size } else { 1 };
    let below = base - 1;
    proof {
        lemma_u32_shr_is_div(below, cluster_shift);
        lemma_pow2_pos(cluster_shift as nat);
        lemma_div_is_ordered_by_denominator(below as int, 1, pow2(cluster_shift as nat) as int);
    }
    let output_reduction_size = (below >> cluster_shift) + 1;
    let inner = cluster_index % inner_size;
    let remaining = cluster_index / inner_size;
    let chunk = remaining % output_reduction_size;
    let outer = remaining / output_reduction_size;
    UVec3 { x: inner, y: chunk, z: outer }
}

/// The input element that lane `lane` of the cluster at `indices` loads in
/// a reduction pass over extents `inner_size`, `reduction_size` and
/// `outer_size` with clusters of `2^cluster_shift` lanes: its position along
/// the reduced dimension is the cluster's chunk times the cluster size plus
/// the lane. Lanes past the reduced dimension and clusters past the outer
/// dimensions load nothing (they hold the operation's identity).
pub open spec fn spec_reduction_source(
    inner_size: u32,
    reduction_size: u32,
    outer_size: u32,
    cluster_shift: u32,
    indices: UVec3,
    lane: u32,
) -> Option<int> {
    let reduction = indices.y * pow2(cluster_shift as nat) + lane;
    if indices.z < outer_size && reduction < reduction_size {
        Some((indices.z * reduction_size + reduction) * inner_size + indices.x)
    } else {
        None
    }
}

/// The input element lane `lane` of the cluster at `indices` loads; see
/// `spec_reduction_source`.
pub fn reduction_source(
    inner_size: u32,
    reduction_size: u32,
    outer_size: u32,
    cluster_shift: u32,
    indices: UVec3,
    lane: u32,
) -> (r: Option<u32>)
    requires
        cluster_shift < 32,
        indices.x < inner_size,
        indices.y * pow2(cluster_shift as nat) + lane <= u32::MAX,
        inner_size * reduction_size * outer_size <= u32::MAX,
    ensures
        match spec_reduction_source(inner_size, reduction_size, outer_size, cluster_shift, indices, lane) {
            Some(i) => r == Some(i as u32),
            None => r is None,
        },
{
    proof {
        lemma_u32_shl_is_mul(indices.y, cluster_shift);
    }
    let reduction = (indices.y << cluster_shift) + lane;
    if indices.z < outer_size && reduction < reduction_size {
        let z = indices.z;
        let x = indices.x;
        assert((z * reduction_size + reduction) * inner_size + x < inner_size * reduction_size * outer_size)
            by (nonlinear_arith)
            requires z < outer_size, reduction < reduction_size, x < inner_size;
        assert(z * reduction_size + reduction <= (z * reduction_size + reduction) * inner_size) by (nonlinear_arith)
            requires x < inner_size;
        assert(z * reduction_size <= z * reduction_size + reduction);
        Some((z * reduction_size + reduction) * inner_size + x)
    } else {
        None
    }
}

/// The cluster that loads input element `e` in a reduction pass: its
/// position along the inner dimensions, then its chunk of the reduced
/// dimension and its position along the outer dimensions, numbered as
/// `spec_tensor_indices` reads them.
pub open spec fn loading_cluster(inner_size: u32, reduction_size: u32, cluster_shift: u32, e: int) -> int {
    let p = pow2(cluster_shift as nat) as int;
    let clusters = ((if reduction_size > 1 { reduction_size as int } else { 1 }) - 1) / p + 1;
    let q = e / (inner_size as int);
    let k = q % (reduction_size as int);
    let z = q / (reduction_size as int);
    (z * clusters + k / p) * inner_size + e % (inner_size as int)
}

/// The lane that loads input element `e` within its cluster.
pub open spec fn loading_lane(inner_size: u32, reduction_size: u32, cluster_shift: u32, e: int) -> int {
    ((e / (inner_size as int)) % (reduction_size as int)) % (pow2(cluster_shift as nat) as int)
}

/// A reduction pass loads every input element exactly once: element `e`
/// is loaded by lane `loading_lane` of cluster `loading_cluster`, which lie
/// within the pass's clusters and lanes; and every cluster and lane that
/// loads `e` are those two.
pub proof fn lemma_reduction_loads_each_once(inner_size: u32, reduction_size: u32, outer_size: u32, cluster_shift: u32, e: int)
    requires
        cluster_shift < 32,
        inner_size * reduction_size * outer_size <= u32::MAX,
        0 <= e < inner_size * reduction_size * outer_size,
    ensures
        ({
            let p = pow2(cluster_shift as nat) as int;
            let clusters = ((if reduction_size > 1 { reduction_size as int } else { 1 }) - 1) / p + 1;
            let c = loading_cluster(inner_size, reduction_size, cluster_shift, e);
            let l = loading_lane(inner_size, reduction_size, cluster_shift, e);
            &&& 0 <= c < inner_size * clusters * outer_size
            &&& 0 <= l < p
            &&& spec_reduction_source(
                inner_size,
                reduction_size,
                outer_size,
                cluster_shift,
                spec_tensor_indices(inner_size, reduction_size, cluster_shift, c as u32),
                l as u32,
            ) == Some(e)
        }),
        forall|c: u32, l: u32|
            l < pow2(cluster_shift as nat) && #[trigger] spec_reduction_source(
                inner_size,
                reduction_size,
                outer_size,
                cluster_shift,
                spec_tensor_indices(inner_size, reduction_size, cluster_shift, c),
                l,
            ) == Some(e) ==> c == loading_cluster(inner_size, reduction_size, cluster_shift, e)
                && l == loading_lane(inner_size, reduction_size, cluster_shift, e),
{
    let inner = inner_size as int;
    let r = reduction_size as int;
    let outer = outer_size as int;
    lemma_pow2_pos(cluster_shift as nat);
    let p = pow2(cluster_shift as nat) as int;
    assert(inner > 0 && r > 0 && outer > 0) by (nonlinear_arith)
        requires 0 <= e < inner * r * outer, inner >= 0, r >= 0, outer >= 0;
    let clusters = (r - 1) / p + 1;
    lemma_div_pos_is_pos(r - 1, p);
    assert(clusters <= r) by {
        lemma_div_is_ordered_by_denominator(r - 1, 1, p);
    }
    lemma_fundamental_div_mod(e, inner);
    lemma_div_pos_is_pos(e, inner);
    let x = e % inner;
    let q = e / inner;
    assert(q < r * outer) by (nonlinear_arith)
        requires e == inner * q + x, 0 <= x < inner, e < inner * r * outer, inner > 0;
    lemma_fundamental_div_mod(q, r);
    lemma_div_pos_is_pos(q, r);
    let k = q % r;
    let z = q / r;
    assert(z < outer) by (nonlinear_arith)
        requires q == r * z + k, 0 <= k < r, q < r * outer, r > 0;
    lemma_fundamental_div_mod(k, p);
    lemma_div_pos_is_pos(k, p);
    let y = k / p;
    let l = k % p;
    assert(y < clusters) by {
        lemma_div_is_ordered(k, r - 1, p);
    }
    let m = z * clusters + y;
    let c = m * inner + x;
    assert(c == loading_cluster(inner_size, reduction_size, cluster_shift, e));
    assert(l == loading_lane(inner_size, reduction_size, cluster_shift, e));
    assert(0 <= m < outer * clusters) by (nonlinear_arith)
        requires m == z * clusters + y, 0 <= y < clusters, 0 <= z < outer;
    assert(0 <= c < inner * clusters * outer) by (nonlinear_arith)
        requires c == m * inner + x, 0 <= m < outer * clusters, 0 <= x < inner;
    assert(inner * clusters * outer <= inner * r * outer) by (nonlinear_arith)
        requires clusters <= r, inner > 0, outer > 0;
    // the cluster's indices are (x, y, z)
    let cu = c as u32;
    lemma_fundamental_div_mod_converse(c, inner, m, x);
    lemma_fundamental_div_mod_converse(m, clusters, z, y);
    let ind = spec_tensor_indices(inner_size, reduction_size, cluster_shift, cu);
    assert(ind.x as int == x && ind.y as int == y && ind.z as int == z);
    assert(y * p + l == k);
    assert((z * r + k) * inner + x == e) by (nonlinear_arith)
        requires q == r * z + k, e == inner * q + x;
    // any cluster and lane that load e are these
    assert forall|c2: u32, l2: u32|
        l2 < pow2(cluster_shift as nat) && #[trigger] spec_reduction_source(
            inner_size,
            reduction_size,
            outer_size,
            cluster_shift,
            spec_tensor_indices(inner_size, reduction_size, cluster_shift, c2),
            l2,
        ) == Some(e) implies c2 == loading_cluster(inner_size, reduction_size, cluster_shift, e)
        && l2 == loading_lane(inner_size, reduction_size, cluster_shift, e) by {
        let ind2 = spec_tensor_indices(inner_size, reduction_size, cluster_shift, c2);
        lemma_fundamental_div_mod(c2 as int, inner);
        lemma_div_pos_is_pos(c2 as int, inner);
        let m2 = (c2 as int) / inner;
        lemma_fundamental_div_mod(m2, clusters);
        lemma_div_pos_is_pos(m2, clusters);
        lemma_mod_pos_bound(c2 as int, inner);
        lemma_mod_pos_bound(m2, clusters);
        lemma_div_pos_is_pos(m2, clusters);
        let x2 = (c2 as int) % inner;
        let y2 = m2 % clusters;
        let z2 = m2 / clusters;
        assert(m2 == z2 * clusters + y2) by (nonlinear_arith)
            requires m2 == clusters * (m2 / clusters) + m2 % clusters, z2 == m2 / clusters, y2 == m2 % clusters;
        assert(c2 as int == m2 * inner + x2) by (nonlinear_arith)
            requires c2 as int == inner * m2 + (c2 as int) % inner, x2 == (c2 as int) % inner;
        assert(ind2.x as int == x2 && ind2.y as int == y2 && ind2.z as int == z2);
        let red2 = y2 * p + l2;
        assert(red2 >= 0) by (nonlinear_arith)
            requires y2 >= 0, p > 0, l2 >= 0, red2 == y2 * p + l2;
        assert(e == (z2 * r + red2) * inner + x2);
        assert(z2 * r + red2 >= 0) by (nonlinear_arith)
            requires z2 >= 0, r > 0, red2 >= 0;
        lemma_fundamental_div_mod_converse(e, inner, z2 * r + red2, x2);
        lemma_fundamental_div_mod_converse(q, r, z2, red2);
        lemma_fundamental_div_mod_converse(k, p, y2, l2 as int);
        assert(x2 == x && z2 == z && y2 == y && l2 as int == l);
    }
}

} // verus!
