use wgpu_tensor::fastdiv::FastDivU32;
use wgpu_tensor::broadcasting::{pack_2x_u16, unpack_2x_u16};

#[test]
fn mul_hi_u32_takes_the_high_word() {
    assert_eq!(FastDivU32::mul_hi_u32(3, 5), 0);
    assert_eq!(FastDivU32::mul_hi_u32(1 << 16, 1 << 16), 1);
    assert_eq!(FastDivU32::mul_hi_u32(0xFFFF_FFFF, 0xFFFF_FFFF), 0xFFFF_FFFE);
    assert_eq!(FastDivU32::mul_hi_u32(0x8000_0000, 6), 3);
    assert_eq!(FastDivU32::mul_hi_u32(0, 0xFFFF_FFFF), 0);
}

#[test]
fn mul_hi_u32_matches_wide_product() {
    let samples: [u32; 7] = [0, 1, 2, 65535, 65536, 123_456_789, u32::MAX];
    for &x in samples.iter() {
        for &y in samples.iter() {
            let wide = ((x as u64) * (y as u64)) >> 32;
            assert_eq!(FastDivU32::mul_hi_u32(x, y) as u64, wide);
        }
    }
}

#[test]
fn create_div_of_one() {
    let d = FastDivU32::create_div(1);
    assert_eq!((d.divisor, d.magic, d.shift, d.data), (1, 0, 0, 0));
}

#[test]
fn create_div_of_power_of_two_uses_shift_only() {
    let d = FastDivU32::create_div(8);
    assert_eq!((d.divisor, d.magic, d.shift, d.data), (8, 0, 2, 0));
    let d = FastDivU32::create_div(2);
    assert_eq!((d.divisor, d.magic, d.shift, d.data), (2, 0, 0, 0));
    let d = FastDivU32::create_div(1 << 31);
    assert_eq!((d.divisor, d.magic, d.shift), (1 << 31, 0, 30));
}

#[test]
fn create_div_of_other_divisors() {
    let d = FastDivU32::create_div(7);
    assert_eq!((d.divisor, d.magic, d.shift, d.data), (7, 613_566_757, 2, 0));
    let d = FastDivU32::create_div(3);
    assert_eq!((d.divisor, d.magic, d.shift, d.data), (3, 1_431_655_766, 1, 0));
}

#[test]
fn fast_div_examples() {
    assert_eq!(FastDivU32::create_div(7).fast_div(100), 14);
    assert_eq!(FastDivU32::create_div(3).fast_div(u32::MAX), u32::MAX / 3);
    assert_eq!(FastDivU32::create_div(1).fast_div(12345), 12345);
    assert_eq!(FastDivU32::create_div(8).fast_div(63), 7);
}

#[test]
fn fast_div_is_exact_division() {
    let divisors: [u32; 12] = [1, 2, 3, 5, 7, 10, 16, 255, 641, 65537, 0x7FFF_FFFF, u32::MAX];
    let numerators: [u32; 10] = [0, 1, 6, 99, 1000, 65535, 65536, 1 << 31, u32::MAX - 1, u32::MAX];
    for &d in divisors.iter() {
        let f = FastDivU32::create_div(d);
        for &n in numerators.iter() {
            assert_eq!(f.fast_div(n), n / d, "{} / {}", n, d);
        }
        for k in 0..200u32 {
            let n = k.wrapping_mul(2_654_435_761);
            assert_eq!(f.fast_div(n), n / d, "{} / {}", n, d);
        }
    }
}

#[test]
fn pack_and_unpack_are_inverse() {
    assert_eq!(pack_2x_u16([0x1234, 0xABCD]), 0xABCD_1234);
    assert_eq!(unpack_2x_u16(0xABCD_1234), [0x1234, 0xABCD]);
    assert_eq!(unpack_2x_u16(pack_2x_u16([7, 9])), [7, 9]);
    assert_eq!(pack_2x_u16(unpack_2x_u16(0xDEAD_BEEF)), 0xDEAD_BEEF);
}

#[test]
fn pack_drops_high_bits() {
    assert_eq!(pack_2x_u16([0x1_0005, 0x2_0003]), 0x0003_0005);
    assert_eq!(unpack_2x_u16(pack_2x_u16([0x1_0005, 0x2_0003])), [5, 3]);
}
