use std::collections::HashSet;

use wgpu_tensor::device::{cluster_index, invocation_index, reduction_source, tensor_indices, UVec3};
use wgpu_tensor::reduction::cluster_shift;
use wgpu_tensor::dispatch::{element_launch_grid, workgroup_grid, workgroups_for, MAX_WORKGROUPS_PER_DIMENSION};

#[test]
fn workgroup_grid_small_counts_use_one_row() {
    assert_eq!(workgroup_grid(0), None);
    assert_eq!(workgroup_grid(1), Some((1, 1, 1)));
    assert_eq!(workgroup_grid(5), Some((5, 1, 1)));
    assert_eq!(workgroup_grid(65535), Some((65535, 1, 1)));
}

#[test]
fn workgroup_grid_large_counts_use_near_square() {
    assert_eq!(workgroup_grid(65536), Some((256, 256, 1)));
    assert_eq!(workgroup_grid(70000), Some((265, 265, 1)));
    assert_eq!(workgroup_grid(100_000), Some((317, 316, 1)));
    assert_eq!(workgroup_grid(u32::MAX), Some((65536, 65536, 1)));
}

#[test]
fn workgroup_grid_covers_without_waste() {
    let counts: [u32; 9] = [1, 2, 255, 65535, 65536, 65537, 1_000_003, 65535 * 65535, 123_456_789];
    for &n in counts.iter() {
        let (x, y, z) = workgroup_grid(n).unwrap();
        let total = x as u64 * y as u64 * z as u64;
        assert!(total >= n as u64);
        assert!(total < n as u64 + x as u64);
        if n <= 65535 * 65535 {
            assert!(x <= MAX_WORKGROUPS_PER_DIMENSION && y <= MAX_WORKGROUPS_PER_DIMENSION);
        }
    }
}

#[test]
fn workgroups_for_rounds_up() {
    assert_eq!(workgroups_for(0), 0);
    assert_eq!(workgroups_for(1), 1);
    assert_eq!(workgroups_for(256), 1);
    assert_eq!(workgroups_for(257), 2);
    assert_eq!(workgroups_for(u32::MAX), 16_777_216);
}

#[test]
fn element_launch_grid_examples() {
    assert_eq!(element_launch_grid(0), None);
    assert_eq!(element_launch_grid(1), Some((1, 1, 1)));
    assert_eq!(element_launch_grid(1000), Some((4, 1, 1)));
    assert_eq!(element_launch_grid(16_777_216), Some((256, 256, 1)));
}

#[test]
fn invocation_index_example() {
    let id = UVec3 { x: 5, y: 2, z: 1 };
    let size = UVec3 { x: 3, y: 4, z: 2 };
    assert_eq!(invocation_index(id, size), 5 + 768 * (2 + 4));
}

#[test]
fn invocations_cover_the_grid_once() {
    let (x, y) = (2u32, 3u32);
    let size = UVec3 { x, y, z: 1 };
    let mut seen = HashSet::new();
    for row in 0..y {
        for column in 0..256 * x {
            let e = invocation_index(UVec3 { x: column, y: row, z: 0 }, size);
            assert!(e < 256 * x * y);
            assert!(seen.insert(e));
        }
    }
    assert_eq!(seen.len() as u32, 256 * x * y);
}

#[test]
fn cluster_index_example() {
    let r = cluster_index(37, UVec3 { x: 2, y: 1, z: 0 }, UVec3 { x: 4, y: 3, z: 1 }, 3);
    assert_eq!(r, (6 << 5) + (37 >> 3));
    let r = cluster_index(255, UVec3 { x: 0, y: 0, z: 1 }, UVec3 { x: 2, y: 2, z: 2 }, 8);
    assert_eq!(r, 4);
}

#[test]
fn tensor_indices_example() {
    assert_eq!(tensor_indices(10, 1000, 8, 57), UVec3 { x: 7, y: 1, z: 1 });
    assert_eq!(tensor_indices(1, 0, 1, 5), UVec3 { x: 0, y: 0, z: 5 });
    assert_eq!(tensor_indices(3, 5, 3, 7), UVec3 { x: 1, y: 0, z: 2 });
}

#[test]
fn reduction_source_examples() {
    // inner 10, reduced 1000, outer 2, clusters of 256 lanes
    assert_eq!(reduction_source(10, 1000, 2, 8, UVec3 { x: 7, y: 1, z: 1 }, 3), Some((1000 + 259) * 10 + 7));
    // lane past the reduced dimension
    assert_eq!(reduction_source(10, 1000, 2, 8, UVec3 { x: 7, y: 3, z: 0 }, 255), None);
    // cluster past the outer dimensions
    assert_eq!(reduction_source(10, 1000, 2, 8, UVec3 { x: 0, y: 0, z: 2 }, 0), None);
}

/// Every input element is loaded by exactly one lane of one cluster.
fn check_loads_each_once(inner: u32, r: u32, outer: u32) {
    let shift = cluster_shift(r);
    let lanes = 1u32 << shift;
    let clusters = ((r.max(1) - 1) >> shift) + 1;
    let mut loads = vec![0u32; (inner * r * outer) as usize];
    for c in 0..inner * clusters * outer {
        let indices = tensor_indices(inner, r, shift, c);
        for lane in 0..lanes {
            if let Some(e) = reduction_source(inner, r, outer, shift, indices, lane) {
                loads[e as usize] += 1;
            }
        }
    }
    assert!(loads.iter().all(|&n| n == 1), "inner {} reduced {} outer {}", inner, r, outer);
}

#[test]
fn reduction_loads_each_element_once() {
    check_loads_each_once(1, 1, 1);
    check_loads_each_once(3, 5, 2);
    check_loads_each_once(4, 256, 1);
    check_loads_each_once(2, 257, 3);
    check_loads_each_once(1, 1000, 1);
    check_loads_each_once(5, 2, 7);
}
