use tensor_tape::dtype::{DType, Device};
use tensor_tape::error::Error;
use tensor_tape::shape::{d1, d2, d3, Shape};
use tensor_tape::static_decode::{
    chunk_mask_from_pos, copy_bytes, copy_into, gdn_scan, incr_add_u32, incr_u32, iota_add_u32,
    kv_write, kv_write_chunk, kv_write_chunk_at, kv_write_chunk_launch, kv_write_launch,
    mask_from_pos, mask_launch, scan_launch, write_u32,
};
use tensor_tape::tape::{Instr, Op, Tape, Tensor};

fn input(t: &mut Tape, shape: Shape, dtype: DType) -> Tensor {
    t.leaf(Op::Input { slot: 0, shape, dtype })
}

#[test]
fn a_row_goes_to_the_position_on_the_device() {
    let mut t = Tape::new(Device::Cuda);
    let k = t.allocate(d3(2, 16, 4), DType::BF16);
    let v = t.allocate(d3(2, 16, 4), DType::BF16);
    let pos = t.allocate(d1(1), DType::U32);
    let row = input(&mut t, d3(2, 1, 4), DType::BF16);
    assert_eq!(kv_write(&mut t, k, v, row, row, pos), Ok(()));
    let program = t.finish();
    assert!(matches!(program.last(), Some(Instr::KvWrite { .. })));
}

#[test]
fn rows_are_refused_in_order() {
    let mut t = Tape::new(Device::Cpu);
    let flat = t.allocate(d2(2, 16), DType::F32);
    let k = t.allocate(d3(2, 16, 4), DType::F32);
    let pos = t.allocate(d1(1), DType::U32);
    let row = input(&mut t, d3(2, 1, 4), DType::F32);
    assert_eq!(
        kv_write(&mut t, flat, k, row, row, pos),
        Err(Error::UnexpectedRank { expected: 3, got: 2 })
    );
    assert_eq!(kv_write(&mut t, k, k, row, row, pos), Err(Error::CudaOnly));

    let mut t = Tape::new(Device::Cuda);
    let half = t.allocate(d3(2, 16, 4), DType::F16);
    let k = t.allocate(d3(2, 16, 4), DType::F32);
    let pos = t.allocate(d1(1), DType::U32);
    let row = input(&mut t, d3(2, 1, 4), DType::BF16);
    assert_eq!(kv_write(&mut t, half, half, row, row, pos), Err(Error::UnsupportedDType));
    assert_eq!(kv_write(&mut t, k, k, row, row, pos), Err(Error::UnexpectedDType));
}

#[test]
fn chunks_must_fit() {
    let mut t = Tape::new(Device::Cuda);
    let buf = t.allocate(d3(2, 16, 4), DType::F32);
    let src = input(&mut t, d3(2, 5, 4), DType::F32);
    assert_eq!(kv_write_chunk(&mut t, buf, src, 11), Ok(()));
    assert_eq!(
        kv_write_chunk(&mut t, buf, src, 12),
        Err(Error::ExceedsMaxSeq { pos: 12, len: 5, max_seq: 16 })
    );
    let odd = input(&mut t, d3(3, 5, 4), DType::F32);
    assert_eq!(kv_write_chunk(&mut t, buf, odd, 0), Err(Error::ShapeMismatch));
    let pos = t.allocate(d1(1), DType::U32);
    assert_eq!(kv_write_chunk_at(&mut t, buf, src, pos), Ok(()));
    let flat = input(&mut t, d2(2, 5), DType::F32);
    assert_eq!(
        kv_write_chunk(&mut t, buf, flat, 0),
        Err(Error::UnexpectedRank { expected: 3, got: 2 })
    );
}

#[test]
fn scalars_are_written_and_counted_up() {
    let mut t = Tape::new(Device::Cuda);
    let pos = t.allocate(d1(1), DType::U32);
    let wide = t.allocate(d1(1), DType::F32);
    assert_eq!(write_u32(&mut t, pos, 7), Ok(()));
    assert_eq!(incr_u32(&mut t, pos), Ok(()));
    assert_eq!(incr_add_u32(&mut t, pos, 5), Ok(()));
    assert_eq!(write_u32(&mut t, wide, 7), Err(Error::UnexpectedDType));
    let idx = t.allocate(d1(4), DType::U32);
    assert_eq!(iota_add_u32(&mut t, idx, pos), Ok(()));
    let program = t.finish();
    let text = format!("{:?}", program);
    assert!(text.contains("AddU32(1)"));
    assert!(text.contains("AddU32(5)"));
    let mut t = Tape::new(Device::Cpu);
    let pos = t.allocate(d1(1), DType::U32);
    assert_eq!(incr_u32(&mut t, pos), Err(Error::CudaOnly));
}

#[test]
fn masks_follow_the_position() {
    let mut t = Tape::new(Device::Cuda);
    let mask = t.allocate(d1(16), DType::F32);
    let block = t.allocate(d2(4, 16), DType::BF16);
    let half = t.allocate(d1(16), DType::F16);
    let pos = t.allocate(d1(1), DType::U32);
    assert_eq!(mask_from_pos(&mut t, mask, pos, 0), Ok(()));
    assert_eq!(chunk_mask_from_pos(&mut t, block, pos, Some(4)), Ok(()));
    assert_eq!(mask_from_pos(&mut t, half, pos, 0), Err(Error::UnsupportedDType));
    assert_eq!(mask_from_pos(&mut t, mask, mask, 0), Err(Error::UnexpectedDType));
}

#[test]
fn a_scan_needs_room_for_its_rows() {
    let mut t = Tape::new(Device::Cuda);
    let s = t.allocate(d3(2, 128, 128), DType::F32);
    let q = input(&mut t, d3(1, 2, 128), DType::F32);
    let g = input(&mut t, d2(1, 2), DType::F32);
    let out = gdn_scan(&mut t, q, q, q, g, g, s).unwrap();
    assert_eq!(out.shape, d3(1, 2, 128));
    let big = input(&mut t, d3(1, 2, 256), DType::F32);
    assert!(matches!(
        gdn_scan(&mut t, big, big, big, g, g, s),
        Err(Error::SharedMemory { bytes: 67584 })
    ));
    let half = input(&mut t, d3(1, 2, 128), DType::BF16);
    assert!(matches!(gdn_scan(&mut t, q, half, q, g, g, s), Err(Error::UnexpectedDType)));
    assert!(matches!(
        gdn_scan(&mut t, g, q, q, g, g, s),
        Err(Error::UnexpectedRank { expected: 3, got: 2 })
    ));
}

#[test]
fn copies_keep_type_and_count() {
    let mut t = Tape::new(Device::Cuda);
    let dst = t.allocate(d2(2, 6), DType::F32);
    let same = input(&mut t, d3(2, 2, 3), DType::F32);
    assert_eq!(copy_into(&mut t, dst, same), Ok(()));
    let short = input(&mut t, d2(2, 5), DType::F32);
    assert_eq!(copy_into(&mut t, dst, short), Err(Error::ShapeMismatch));
    let other = input(&mut t, d2(2, 6), DType::BF16);
    assert_eq!(copy_into(&mut t, dst, other), Err(Error::ShapeMismatch));
    let half = t.allocate(d2(2, 6), DType::F16);
    let src = input(&mut t, d2(2, 6), DType::F16);
    assert_eq!(copy_into(&mut t, half, src), Err(Error::UnsupportedDType));
    assert_eq!(copy_bytes(dst), 48);
}

#[test]
fn kernel_geometry() {
    let k = kv_write_launch(8, 64);
    assert_eq!((k.grid_dim, k.block_dim), ((2, 1, 1), (256, 1, 1)));
    let m = mask_launch(1000);
    assert_eq!((m.grid_dim, m.block_dim), ((4, 1, 1), (256, 1, 1)));
    let c = kv_write_chunk_launch(8, 100, 512);
    assert_eq!((c.grid_dim, c.block_dim), ((8, 100, 1), (256, 1, 1)));
    let s = scan_launch(4, 128, 128);
    assert_eq!((s.grid_dim, s.block_dim), ((8, 1, 1), (64, 1, 1)));
    assert_eq!(s.shared_mem_bytes, 33792);
}
