use wgpu_tensor::staging::{
    chunks_ready, transfer_plan, ChunkStep, ParamCursor, ParamPlacement, StagingCursor, TransferStep,
    GPU_BLOCK_SIZE, STAGING_BLOCK_SIZE,
};
use wgpu_tensor::TensorError;

fn step(swap: bool, released_previous: bool, start: u64, end: u64) -> ChunkStep {
    ChunkStep { swap, released_previous, start, end }
}

#[test]
fn chunks_follow_each_other_at_mapping_boundaries() {
    let mut cursor = StagingCursor::new();
    assert_eq!(cursor.chunk(100), step(true, false, 0, 100));
    assert_eq!(cursor.chunk(50), step(false, false, 104, 154));
    assert_eq!(cursor.chunk(STAGING_BLOCK_SIZE), step(false, false, 160, STAGING_BLOCK_SIZE));
    assert_eq!(cursor.chunk(10), step(true, true, 0, 10));
    assert_eq!(cursor, StagingCursor { has_block: true, offset: 10 });
}

#[test]
fn chunk_of_zero_bytes_is_empty() {
    let mut cursor = StagingCursor::new();
    assert_eq!(cursor.chunk(0), step(true, false, 0, 0));
    assert_eq!(cursor.chunk(0), step(false, false, 0, 0));
}

#[test]
fn release_gives_up_the_block() {
    let mut cursor = StagingCursor::new();
    assert!(!cursor.release());
    cursor.chunk(10);
    assert!(cursor.release());
    assert_eq!(cursor, StagingCursor { has_block: false, offset: 10 });
    assert_eq!(cursor.chunk(4), step(true, false, 16, 20));
}

#[test]
fn chunks_do_not_overlap() {
    let sizes: [u64; 8] = [1, 7, 8, 9, 1000, 3, 4_000_000, 500_000];
    let mut cursor = StagingCursor::new();
    let mut last_end = 0u64;
    for &size in sizes.iter() {
        let s = cursor.chunk(size);
        assert_eq!(s.start % 8, 0);
        assert!(s.start < s.end && s.end <= STAGING_BLOCK_SIZE);
        assert!(s.end - s.start <= size);
        if !s.swap {
            assert!(s.start >= last_end);
        }
        last_end = s.end;
    }
}

#[test]
fn transfer_plan_small_buffer() {
    let mut cursor = StagingCursor::new();
    let steps = transfer_plan(&mut cursor, 10, 12);
    assert_eq!(steps, vec![TransferStep { chunk: step(true, false, 0, 12), tensor_offset: 0, data_len: 10 }]);
    assert_eq!(cursor, StagingCursor { has_block: true, offset: 12 });
}

#[test]
fn transfer_plan_spans_blocks() {
    let mut cursor = StagingCursor::new();
    cursor.chunk(STAGING_BLOCK_SIZE - 100);
    let steps = transfer_plan(&mut cursor, 1000, 1000);
    assert_eq!(
        steps,
        vec![
            TransferStep { chunk: step(false, false, STAGING_BLOCK_SIZE - 96, STAGING_BLOCK_SIZE), tensor_offset: 0, data_len: 96 },
            TransferStep { chunk: step(true, true, 0, 904), tensor_offset: 96, data_len: 904 },
        ]
    );
}

#[test]
fn transfer_plan_covers_buffer_and_data() {
    let mut cursor = StagingCursor::new();
    let length = 3 * STAGING_BLOCK_SIZE + 20;
    let data = length - 2;
    let steps = transfer_plan(&mut cursor, data, length);
    assert_eq!(steps.len(), 4);
    let mut offset = 0u64;
    let mut carried = 0u64;
    for s in steps.iter() {
        assert_eq!(s.tensor_offset, offset);
        assert!(s.chunk.start < s.chunk.end);
        offset += s.chunk.end - s.chunk.start;
        carried += s.data_len;
    }
    assert_eq!(offset, length);
    assert_eq!(carried, data);
    assert!(transfer_plan(&mut cursor, 0, 0).is_empty());
}

#[test]
fn chunks_ready_needs_every_chunk_mapped() {
    assert_eq!(chunks_ready(&[]), Ok(()));
    assert_eq!(chunks_ready(&[true, true]), Ok(()));
    assert_eq!(chunks_ready(&[true, false, true]), Err(TensorError::StagingBufferNotMapped));
}

#[test]
fn param_cursor_first_blocks() {
    let mut cursor = ParamCursor::new();
    assert_eq!(
        cursor.place(64, 256),
        ParamPlacement {
            unmap_view: false,
            flush_from: None,
            new_view: true,
            begin_pass: true,
            write_offset: 0,
            dynamic_offset: 0,
        }
    );
    assert_eq!(
        cursor.place(64, 256),
        ParamPlacement {
            unmap_view: false,
            flush_from: None,
            new_view: false,
            begin_pass: false,
            write_offset: 256,
            dynamic_offset: 256,
        }
    );
    assert_eq!(cursor, ParamCursor { has_view: true, pass_open: true, cpu_offset: 320, gpu_offset: 320 });
    cursor.end_pass();
    let p = cursor.place(16, 256);
    assert!(p.begin_pass);
    assert_eq!((p.write_offset, p.dynamic_offset), (512, 512));
}

#[test]
fn param_cursor_flushes_full_uniform_segment() {
    let mut cursor = ParamCursor { has_view: true, pass_open: true, cpu_offset: 262_100, gpu_offset: 262_100 };
    assert_eq!(
        cursor.place(64, 256),
        ParamPlacement {
            unmap_view: false,
            flush_from: Some(GPU_BLOCK_SIZE),
            new_view: false,
            begin_pass: true,
            write_offset: GPU_BLOCK_SIZE,
            dynamic_offset: 0,
        }
    );
    assert_eq!(
        cursor,
        ParamCursor { has_view: true, pass_open: true, cpu_offset: GPU_BLOCK_SIZE + 64, gpu_offset: 64 }
    );
}

#[test]
fn param_cursor_replaces_full_host_block() {
    let mut cursor = ParamCursor {
        has_view: true,
        pass_open: true,
        cpu_offset: 4_194_300,
        gpu_offset: 4_194_300 - 15 * GPU_BLOCK_SIZE,
    };
    assert_eq!(
        cursor.place(64, 256),
        ParamPlacement {
            unmap_view: true,
            flush_from: None,
            new_view: true,
            begin_pass: true,
            write_offset: 0,
            dynamic_offset: 0,
        }
    );
    assert!(cursor.release());
    assert!(!cursor.has_view);
}
