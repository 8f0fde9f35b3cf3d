use wgpu_tensor::broadcasting::BroadcastInfo;
use wgpu_tensor::fastdiv::FastDivU32;
use wgpu_tensor::shape::Shape;
use wgpu_tensor::TensorError;

fn words(info: &BroadcastInfo) -> Vec<(u32, u32, u32, u32)> {
    info.divisions.iter().map(|d| (d.divisor, d.magic, d.shift, d.data)).collect()
}

fn divisor(d: u32, data: u32) -> (u32, u32, u32, u32) {
    let f = FastDivU32::create_div(d);
    (f.divisor, f.magic, f.shift, data)
}

/// The flat index of coordinates `c` in a tensor of shape `s`, dimension
/// zero fastest, skipping dimensions of size one.
fn offset(s: &Shape, c: &[u32; 8]) -> u32 {
    let mut stride = 1u32;
    let mut flat = 0u32;
    for k in 0..8 {
        if s[k] != 1 {
            flat += c[k] * stride;
        }
        stride *= s[k];
    }
    flat
}

fn coordinates_of(out: &Shape, mut e: u32) -> [u32; 8] {
    let mut c = [0u32; 8];
    for k in 0..8 {
        c[k] = e % out[k];
        e /= out[k];
    }
    c
}

fn broadcast_shape(lhs: &Shape, rhs: &Shape) -> Shape {
    let mut out = [1u32; 8];
    for k in 0..8 {
        out[k] = BroadcastInfo::boradcast_dimension(lhs[k], rhs[k]).unwrap();
    }
    out
}

/// Every output element reads the operand elements the broadcast defines.
fn check_indexing(lhs: Shape, rhs: Shape) {
    let info = BroadcastInfo::new(lhs, rhs).unwrap();
    let out = broadcast_shape(&lhs, &rhs);
    let length: u32 = out.iter().product();
    for e in 0..length {
        let coords = info.coordinates(e);
        let (l, r) = info.flatten_index(&coords);
        let c = coordinates_of(&out, e);
        assert_eq!(l, offset(&lhs, &c), "lhs {:?} rhs {:?} e {}", lhs, rhs, e);
        assert_eq!(r, offset(&rhs, &c), "lhs {:?} rhs {:?} e {}", lhs, rhs, e);
    }
}

#[test]
fn boradcast_dimension_rules() {
    assert_eq!(BroadcastInfo::boradcast_dimension(4, 4), Ok(4));
    assert_eq!(BroadcastInfo::boradcast_dimension(1, 5), Ok(5));
    assert_eq!(BroadcastInfo::boradcast_dimension(6, 1), Ok(6));
    assert_eq!(BroadcastInfo::boradcast_dimension(0, 1), Ok(0));
    assert_eq!(BroadcastInfo::boradcast_dimension(2, 3), Err(TensorError::ShapeMismatch));
}

#[test]
fn zeroed_block_is_all_zero() {
    let info = BroadcastInfo::zeroed();
    assert!(words(&info).iter().all(|w| *w == (0, 0, 0, 0)));
}

#[test]
fn new_merges_runs_and_packs_masks() {
    let info = BroadcastInfo::new([2, 3, 1, 1, 1, 1, 1, 1], [2, 1, 1, 1, 1, 1, 1, 1]).unwrap();
    let w = words(&info);
    assert_eq!(w[0], divisor(2, 2));
    assert_eq!(w[1], divisor(3, 3 | (1 << 16)));
    assert_eq!(w[1], (3, 1_431_655_766, 1, 65539));
    for k in 2..7 {
        assert_eq!(w[k], (0, 0, 0, 0));
    }
}

#[test]
fn new_merges_adjacent_dimensions_of_same_pattern() {
    // Both operands walk dimensions 0 and 1: one run of 6; then only the
    // left walks: a run of 4 * 5.
    let info = BroadcastInfo::new([2, 3, 4, 5, 1, 1, 1, 1], [2, 3, 1, 1, 1, 1, 1, 1]).unwrap();
    let w = words(&info);
    assert_eq!(w[0], divisor(6, 2));
    assert_eq!(w[1], divisor(20, 3 | (1 << 16)));
}

#[test]
fn new_skips_dimensions_of_one() {
    let info = BroadcastInfo::new([1, 4, 1, 4, 1, 1, 1, 1], [1, 1, 1, 4, 1, 1, 1, 1]).unwrap();
    let w = words(&info);
    assert_eq!(w[0], divisor(4, 2));
    assert_eq!(w[1], divisor(4, 3 | (2 << 16)));
}

#[test]
fn new_of_scalars_describes_no_dimension() {
    let info = BroadcastInfo::new([1; 8], [1; 8]).unwrap();
    assert!(words(&info).iter().all(|w| *w == (0, 0, 0, 0)));
}

#[test]
fn new_refuses_incompatible_shapes() {
    let r = BroadcastInfo::new([2, 1, 1, 1, 1, 1, 1, 1], [3, 1, 1, 1, 1, 1, 1, 1]);
    assert!(matches!(r, Err(TensorError::ShapeMismatch)));
}

#[test]
fn new_refuses_runs_past_32_bits() {
    let r = BroadcastInfo::new([65536, 65536, 1, 1, 1, 1, 1, 1], [65536, 65536, 1, 1, 1, 1, 1, 1]);
    assert!(matches!(r, Err(TensorError::OversizedDispatch)));
}

#[test]
fn with_prefix_puts_prefix_first() {
    let info = BroadcastInfo::with_prefix([9, 9, 5, 1, 1, 1, 1, 1], [9, 9, 1, 1, 1, 1, 1, 1], &[3, 7]).unwrap();
    let w = words(&info);
    assert_eq!(w[0], divisor(3, 3));
    assert_eq!(w[1], divisor(7, 4));
    assert_eq!(w[2], divisor(5, 0));
}

#[test]
fn set_data_writes_free_word() {
    let mut info = BroadcastInfo::zeroed();
    info.set_data(0, 1);
    info.set_data(4, 9);
    let w = words(&info);
    assert_eq!(w[2], (0, 0, 0, 1));
    assert_eq!(w[6], (0, 0, 0, 9));
    assert_eq!(w[0], (0, 0, 0, 0));
}

#[test]
fn coordinates_and_flatten_example() {
    let info = BroadcastInfo::new([2, 3, 1, 1, 1, 1, 1, 1], [2, 1, 1, 1, 1, 1, 1, 1]).unwrap();
    let coords = info.coordinates(5);
    assert_eq!(coords, [1, 2, 0, 0, 0, 0, 0, 0]);
    assert_eq!(info.flatten_index(&coords), (5, 1));
}

#[test]
fn coordinates_of_scalar_block() {
    let info = BroadcastInfo::new([1; 8], [1; 8]).unwrap();
    let coords = info.coordinates(0);
    assert_eq!(coords, [0; 8]);
    assert_eq!(info.flatten_index(&coords), (0, 0));
}

#[test]
fn device_indexing_matches_broadcast_definition() {
    check_indexing([2, 3, 1, 1, 1, 1, 1, 1], [2, 1, 1, 1, 1, 1, 1, 1]);
    check_indexing([1, 3, 1, 1, 1, 1, 1, 1], [4, 1, 1, 1, 1, 1, 1, 1]);
    check_indexing([2, 3, 4, 5, 1, 1, 1, 1], [2, 3, 1, 1, 1, 1, 1, 1]);
    check_indexing([1, 4, 1, 4, 1, 1, 1, 1], [1, 1, 1, 4, 1, 1, 1, 1]);
    check_indexing([3, 1, 2, 1, 2, 1, 2, 1], [1, 2, 1, 2, 1, 2, 1, 2]);
    check_indexing([5, 1, 1, 1, 1, 1, 1, 7], [5, 3, 1, 1, 1, 1, 1, 7]);
    check_indexing([2, 2, 2, 2, 2, 2, 2, 2], [1, 2, 1, 2, 1, 2, 1, 2]);
    check_indexing([7, 1, 1, 1, 1, 1, 1, 1], [7, 1, 1, 1, 1, 1, 1, 1]);
}

#[test]
fn boradcast_dimension_is_symmetric() {
    let sizes: [u32; 6] = [0, 1, 2, 3, 7, u32::MAX];
    for &a in sizes.iter() {
        for &b in sizes.iter() {
            assert_eq!(BroadcastInfo::boradcast_dimension(a, b), BroadcastInfo::boradcast_dimension(b, a));
        }
    }
}
