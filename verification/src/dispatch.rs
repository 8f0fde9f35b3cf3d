//! How many workgroups a kernel launch needs, and how they are laid out.

use vstd::prelude::*;
use vstd::arithmetic::div_mod::*;

use crate::ints::{ceil_div, u32_div_ceil, u32_isqrt};

verus! {

/// Invocations per workgroup of every elementwise kernel.
pub const WORKGROUP_SIZE: u32 = 256;

/// The most workgroups a launch puts along one axis.
pub const MAX_WORKGROUPS_PER_DIMENSION: u32 = 65535;

/// `g` is the grid `workgroup_grid` gives for `n` workgroups.
pub open spec fn grid_for(n: u32, g: Option<(u32, u32, u32)>) -> bool {
    &&& n == 0 ==> g is None
    &&& 0 < n <= MAX_WORKGROUPS_PER_DIMENSION ==> g == Some((n, 1u32, 1u32))
    &&& n > MAX_WORKGROUPS_PER_DIMENSION ==> (g matches Some((x, y, z)) && {
        &&& x * x >= n
        &&& (x - 1) * (x - 1) < n
        &&& y == ceil_div(n as int, x as int)
        &&& z == 1
    })
}

/// The grid that launches `num_workgroups` workgroups: none for zero; a
/// row of `n` when it fits in one axis; otherwise a near-square `x` by `y`
/// grid, `x` the least number whose square reaches `n` and `y` the rows
/// needed at that width.
pub fn workgroup_grid(num_workgroups: u32) -> (r: Option<(u32, u32, u32)>)
    ensures
        grid_for(num_workgroups, r),
{
    if num_workgroups != 0 && num_workgroups <= MAX_WORKGROUPS_PER_DIMENSION {
        Some((num_workgroups, 1, 1))
    } else if num_workgroups != 0 {
        let floor = u32_isqrt(num_workgroups);
        assert(floor <= 65535) by (nonlinear_arith)
            requires floor * floor <= num_workgroups, num_workgroups <= u32::MAX;
        let x = floor + if floor * floor != num_workgroups { 1 } else { 0 };
        assert(x > 0) by (nonlinear_arith)
            requires x >= floor, floor * floor <= num_workgroups, num_workgroups > 65535, (num_workgroups as int) < (floor + 1) * (floor + 1);
        proof {
            if floor * floor == num_workgroups {
                assert((x - 1) * (x - 1) < x * x) by (nonlinear_arith)
                    requires x > 0;
            } else {
                assert(x * x == (floor + 1) * (floor + 1));
                assert((x - 1) * (x - 1) == floor * floor);
            }
        }
        let y = u32_div_ceil(num_workgroups, x);
        Some((x, y, 1))
    } else {
        None
    }
}

/// The number of workgroups of `WORKGROUP_SIZE` invocations that cover
/// `length` elements.
pub fn workgroups_for(length: u32) -> (r: u32)
    ensures
        r as int == ceil_div(length as int, WORKGROUP_SIZE as int),
{
    u32_div_ceil(length, WORKGROUP_SIZE)
}

/// The grid for a launch of one invocation per element of `length`
/// elements.
pub open spec fn element_grid(length: u32, g: Option<(u32, u32, u32)>) -> bool {
    grid_for(ceil_div(length as int, WORKGROUP_SIZE as int) as u32, g)
}

/// The launch grid covering `length` elements, one invocation each.
pub fn element_launch_grid(length: u32) -> (r: Option<(u32, u32, u32)>)
    ensures
        element_grid(length, r),
        length == 0 <==> r is None,
{
    let n = workgroups_for(length);
    proof {
        let w = WORKGROUP_SIZE as int;
        lemma_fundamental_div_mod(length as int + w - 1, w);
        if length > 0 {
            assert((length as int + w - 1) / w >= 1) by {
                lemma_div_is_ordered(w, length as int + w - 1, w);
            }
        } else {
            assert((w - 1) / w == 0);
        }
    }
    workgroup_grid(n)
}

/// Every launch grid covers its workgroups: `x * y * z >= n`, with no more
/// than one short row; and when `n` is at most `65535^2` no side of the grid
/// exceeds `MAX_WORKGROUPS_PER_DIMENSION`.
pub proof fn lemma_workgroup_grid_covers(n: u32, x: u32, y: u32, z: u32)
    requires
        0 < n,
        grid_for(n, Some((x, y, z))),
    ensures
        x * y * z >= n,
        x * y * z < n + x,
        n <= 65535 * 65535 ==> x <= MAX_WORKGROUPS_PER_DIMENSION && y <= MAX_WORKGROUPS_PER_DIMENSION,
{
    if n > MAX_WORKGROUPS_PER_DIMENSION {
        assert(x > 0) by (nonlinear_arith)
            requires x * x >= n, n > 0;
        lemma_fundamental_div_mod(n + x - 1, x as int);
        assert(x * y >= n && x * y < n + x) by (nonlinear_arith)
            requires
                n + x - 1 == x * ((n + x - 1) / (x as int)) + (n + x - 1) % (x as int),
                0 <= (n + x - 1) % (x as int) < x,
                y == (n + x - 1) / (x as int),
        ;
        if n <= 65535 * 65535 {
            assert(x <= 65535) by (nonlinear_arith)
                requires (x - 1) * (x - 1) < n, n <= 65535 * 65535, x > 0;
            assert(y <= x) by (nonlinear_arith)
                requires x * y < n + x, n <= x * x, x > 0;
        }
    }
}

} // verus!
