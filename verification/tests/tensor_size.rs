use wgpu_tensor::tensor_size::{bucket_size, buffer_size, data_size, MIN_TEMPORARY_CAPACITY};
use wgpu_tensor::TensorError;

#[test]
fn data_size_is_four_bytes_per_element() {
    assert_eq!(data_size([2, 3, 1, 1, 1, 1, 1, 1]), Ok(24));
    assert_eq!(data_size([0, 3, 1, 1, 1, 1, 1, 1]), Ok(0));
    assert_eq!(data_size([1; 8]), Ok(4));
}

#[test]
fn data_size_refuses_oversized_tensors() {
    assert_eq!(data_size([65536, 65536, 65536, 65536, 1, 1, 1, 1]), Err(TensorError::OversizedTensor));
    assert_eq!(data_size([65536, 65536, 65536, 16384, 1, 1, 1, 1]), Err(TensorError::OversizedTensor));
    assert_eq!(data_size([65536, 65536, 65536, 16383, 1, 1, 1, 1]), Ok(((1u64 << 48) * 16383) * 4));
}

#[test]
fn buffer_size_is_aligned_and_never_zero() {
    assert_eq!(buffer_size([3, 1, 1, 1, 1, 1, 1, 1]), Ok(12));
    assert_eq!(buffer_size([0, 1, 1, 1, 1, 1, 1, 1]), Ok(4));
    assert_eq!(buffer_size([65536, 65536, 65536, 65536, 1, 1, 1, 1]), Err(TensorError::OversizedTensor));
}

#[test]
fn bucket_size_examples() {
    assert_eq!(bucket_size([1; 8]), Ok(256));
    assert_eq!(bucket_size([0, 1, 1, 1, 1, 1, 1, 1]), Ok(256));
    assert_eq!(bucket_size([100, 1, 1, 1, 1, 1, 1, 1]), Ok(448));
    assert_eq!(bucket_size([1000, 1, 1, 1, 1, 1, 1, 1]), Ok(4096));
    assert_eq!(bucket_size([1000, 1000, 1, 1, 1, 1, 1, 1]), Ok(4_194_304));
    assert_eq!(bucket_size([1 << 30, 1, 1, 1, 1, 1, 1, 1]), Ok(1 << 32));
}

#[test]
fn bucket_size_saturates_at_largest_size() {
    assert_eq!(bucket_size([65536, 65536, 65536, 16383, 1, 1, 1, 1]), Ok(u64::MAX));
}

#[test]
fn bucket_size_refuses_oversized_tensors() {
    assert_eq!(bucket_size([65536, 65536, 65536, 65536, 1, 1, 1, 1]), Err(TensorError::OversizedTensor));
}

#[test]
fn bucket_holds_buffer() {
    let shapes: [[u32; 8]; 8] = [
        [1; 8],
        [7, 1, 1, 1, 1, 1, 1, 1],
        [65, 1, 1, 1, 1, 1, 1, 1],
        [333, 3, 1, 1, 1, 1, 1, 1],
        [1025, 17, 1, 1, 1, 1, 1, 1],
        [999_999, 1, 1, 1, 1, 1, 1, 1],
        [12345, 6789, 1, 1, 1, 1, 1, 1],
        [3, 5, 7, 11, 13, 17, 19, 23],
    ];
    for shape in shapes.iter() {
        let buffer = buffer_size(*shape).unwrap();
        let bucket = bucket_size(*shape).unwrap();
        let required = buffer.max(MIN_TEMPORARY_CAPACITY);
        assert!(bucket >= buffer && bucket >= MIN_TEMPORARY_CAPACITY);
        assert!(bucket as u128 * 4 < required as u128 * 5 + 16);
        assert_eq!(bucket % 4, 0);
    }
}
