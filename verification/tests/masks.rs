use tensor_tape::dtype::{DType, Device};
use tensor_tape::masks::{causal_mask, chunk_mask, prepare_decoder_attention_mask, square_mask};
use tensor_tape::shape::d4;
use tensor_tape::tape::{Instr, Op, Tape};

#[test]
fn no_position_sees_a_later_one() {
    assert_eq!(
        square_mask(3, None),
        vec![false, true, true, false, false, true, false, false, false]
    );
}

#[test]
fn a_window_blocks_what_lies_too_far_back() {
    let cells = square_mask(4, Some(1));
    // query 3 sees keys 2 and 3 only
    assert_eq!(&cells[12..16], &[true, true, false, false]);
    // query 1 sees keys 0 and 1
    assert_eq!(&cells[4..8], &[false, false, true, true]);
}

#[test]
fn queries_at_the_end_see_everything_before_them() {
    assert_eq!(
        chunk_mask(2, 4),
        vec![false, false, false, true, false, false, false, false]
    );
    assert_eq!(chunk_mask(3, 3), square_mask(3, None));
}

#[test]
fn recorded_masks_have_attention_shape() {
    let mut t = Tape::new(Device::Cpu);
    let m = causal_mask(&mut t, 2, 4);
    assert_eq!(m.shape, d4(1, 1, 2, 4));
    let m = prepare_decoder_attention_mask(&mut t, 2, 3, 5, Some(4), DType::BF16);
    assert_eq!(m.shape, d4(2, 1, 3, 8));
    assert_eq!(m.dtype, DType::BF16);
    let program = t.finish();
    assert!(program.iter().any(|i| matches!(i, Instr::Bin(Op::Cat(1), _, _))));
}

#[test]
fn without_an_offset_nothing_is_joined() {
    let mut t = Tape::new(Device::Cpu);
    let m = prepare_decoder_attention_mask(&mut t, 1, 3, 0, None, DType::F32);
    assert_eq!(m.shape, d4(1, 1, 3, 3));
    let program = t.finish();
    assert!(!program.iter().any(|i| matches!(i, Instr::Bin(Op::Cat(_), _, _))));
}
