use tensor_tape::dtype::Device;
use tensor_tape::error::Error;
use tensor_tape::quant::{
    gather_order, moe_quant_dtype_for, quant_action, quant_dtype_for, should_quantize,
    worker_count, worker_jobs, ByteRange, GgmlDType, PackedExperts, QuantAction,
};

#[test]
fn k_quants_need_rows_of_256() {
    assert_eq!(moe_quant_dtype_for(512, GgmlDType::Q4K), GgmlDType::Q4K);
    assert_eq!(moe_quant_dtype_for(704, GgmlDType::Q4K), GgmlDType::Q8_0);
    assert_eq!(moe_quant_dtype_for(704, GgmlDType::Q8_0), GgmlDType::Q8_0);
    assert_eq!(quant_dtype_for(512, GgmlDType::Q6K), GgmlDType::Q6K);
    assert_eq!(quant_dtype_for(704, GgmlDType::Q6K), GgmlDType::Q8_0);
    assert_eq!(quant_dtype_for(704, GgmlDType::Q4_0), GgmlDType::Q4_0);
}

#[test]
fn the_two_fallbacks_agree() {
    assert_eq!(quant_dtype_for(704, GgmlDType::Q8K), GgmlDType::Q8_0);
    assert_eq!(moe_quant_dtype_for(704, GgmlDType::Q8K), GgmlDType::Q8_0);
    assert_eq!(moe_quant_dtype_for(320, GgmlDType::Q8K), GgmlDType::Q8_0);
    assert_eq!(moe_quant_dtype_for(512, GgmlDType::Q8K), GgmlDType::Q8K);
}

#[test]
fn fallback_rows_are_whole_blocks() {
    for d in [GgmlDType::Q4K, GgmlDType::Q8_0, GgmlDType::Q2K, GgmlDType::Q5_1] {
        for dim in [32, 704, 256, 5376] {
            assert_eq!(dim % quant_dtype_for(dim, d).block_size(), 0);
        }
    }
}

#[test]
fn only_matrices_of_whole_blocks_are_quantized() {
    assert_eq!(should_quantize(2, 64, GgmlDType::Q8_0), GgmlDType::Q8_0);
    assert_eq!(should_quantize(2, 65, GgmlDType::Q8_0), GgmlDType::F32);
    assert_eq!(should_quantize(1, 0, GgmlDType::Q8_0), GgmlDType::F32);
    assert_eq!(should_quantize(3, 64, GgmlDType::Q8_0), GgmlDType::F32);
}

#[test]
fn where_a_weight_is_quantized() {
    assert_eq!(quant_action(true, Device::Cuda), QuantAction::UseCached);
    assert_eq!(quant_action(false, Device::Cuda), QuantAction::QuantizeOnto);
    assert_eq!(quant_action(false, Device::Cpu), QuantAction::QuantizeHere);
    assert_eq!(quant_action(false, Device::Metal), QuantAction::QuantizeHere);
}

#[test]
fn packed_experts_are_sliced_by_bytes() {
    let p = PackedExperts::plan(2, 32, 64, GgmlDType::Q8_0).unwrap();
    // a row of 64 elements is 2 blocks of 34 bytes, one of 32 is 1
    let s0 = p.slices(0);
    assert_eq!(s0.gate, ByteRange { start: 0, end: 32 * 68 });
    assert_eq!(s0.up, ByteRange { start: 32 * 68, end: 64 * 68 });
    assert_eq!(s0.down, ByteRange { start: 0, end: 64 * 34 });
    let s1 = p.slices(1);
    assert_eq!(s1.gate.start, s0.up.end);
    assert_eq!(s1.down.start, s0.down.end);
    assert_eq!(s1.up.end, 2 * 64 * 68);
}

#[test]
fn rows_that_are_no_whole_blocks_are_refused() {
    let r = PackedExperts::plan(2, 33, 64, GgmlDType::Q8_0);
    assert_eq!(r, Err(Error::NotBlockAligned));
    let r = PackedExperts::plan(2, 32, 70, GgmlDType::Q4K);
    assert_eq!(r, Err(Error::NotBlockAligned));
}

#[test]
fn workers_share_every_job_once() {
    assert_eq!(worker_count(Some(16), 4), 4);
    assert_eq!(worker_count(Some(3), 10), 3);
    assert_eq!(worker_count(None, 10), 8);
    assert_eq!(worker_count(None, 0), 1);
    let mut seen = vec![0; 10];
    for w in 0..3 {
        for j in worker_jobs(w, 3, 10) {
            seen[j] += 1;
        }
    }
    assert!(seen.iter().all(|n| *n == 1));
    assert_eq!(worker_jobs(2, 3, 10), vec![2, 5, 8]);
    assert_eq!(worker_jobs(5, 3, 4), Vec::<usize>::new());
    let order = gather_order(10, 3);
    for (i, (w, s)) in order.iter().enumerate() {
        assert_eq!(worker_jobs(*w, 3, 10)[*s], i);
    }
}

#[test]
fn block_and_type_sizes() {
    assert_eq!(GgmlDType::Q8_0.block_size(), 32);
    assert_eq!(GgmlDType::Q8_0.type_size(), 34);
    assert_eq!(GgmlDType::Q4K.block_size(), 256);
    assert_eq!(GgmlDType::Q4K.type_size(), 144);
    assert_eq!(GgmlDType::Q6K.type_size(), 210);
    assert_eq!(GgmlDType::F32.block_size(), 1);
    assert_eq!(GgmlDType::BF16.type_size(), 2);
}
