use tensor_tape::dtype::{DType, Device};
use tensor_tape::error::Error;
use tensor_tape::fused::{
    act_code, add_rmsnorm_launch, block_count, fused_add_rmsnorm, fused_swiglu, swiglu_launch,
    LaunchConfig, SwigluAct,
};
use tensor_tape::shape::{d1, d2, d3};
use tensor_tape::tape::{Instr, Op, Scalar, Tape, Tensor, Weight};

fn input(t: &mut Tape, slot: usize, dims: (usize, usize), dtype: DType) -> Tensor {
    t.leaf(Op::Input { slot, shape: d2(dims.0, dims.1), dtype })
}

fn weight(n: usize) -> Weight {
    Weight { id: 0, shape: d1(n), dtype: DType::F32 }
}

#[test]
fn one_launch_on_cuda() {
    let mut t = Tape::new(Device::Cuda);
    let x = input(&mut t, 0, (3, 8), DType::BF16);
    let r = input(&mut t, 1, (3, 8), DType::BF16);
    let eps = Scalar::F32(1e-6f64.to_bits());
    let (sum, normed) = fused_add_rmsnorm(&mut t, x, r, weight(8), eps, false);
    assert_eq!(sum.shape, d2(3, 8));
    assert_eq!(normed.shape, d2(3, 8));
    let program = t.finish();
    let launches = program
        .iter()
        .filter(|i| matches!(i, Instr::Tri(Op::FusedAddRmsNorm { .. }, _, _, _)))
        .count();
    assert_eq!(launches, 1);
    assert!(!program.iter().any(|i| matches!(i, Instr::Un(Op::Sqr, _))));
}

#[test]
fn composition_elsewhere() {
    for (device, dtype) in [(Device::Cpu, DType::F32), (Device::Cuda, DType::F16)] {
        let mut t = Tape::new(device);
        let x = input(&mut t, 0, (3, 8), dtype);
        let r = input(&mut t, 1, (3, 8), dtype);
        let eps = Scalar::F32(1e-6f64.to_bits());
        let (sum, normed) = fused_add_rmsnorm(&mut t, x, r, weight(8), eps, true);
        assert_eq!(sum.dtype, dtype);
        assert_eq!(normed.dtype, dtype);
        let program = t.finish();
        assert!(!program.iter().any(|i| matches!(i, Instr::Tri(_, _, _, _))));
        assert!(program
            .iter()
            .any(|i| matches!(i, Instr::Un(Op::AddScalar(Scalar::Int(1)), _))));
    }
}

#[test]
fn an_odd_packed_axis_is_refused() {
    let mut t = Tape::new(Device::Cuda);
    let x = input(&mut t, 0, (2, 7), DType::F32);
    assert!(matches!(fused_swiglu(&mut t, x, SwigluAct::Silu), Err(Error::OddLastDim)));
    let mut t = Tape::new(Device::Cpu);
    let x = input(&mut t, 0, (2, 7), DType::F32);
    assert!(matches!(fused_swiglu(&mut t, x, SwigluAct::Silu), Err(Error::ShapeMismatch)));
}

#[test]
fn a_packed_axis_is_halved() {
    let mut t = Tape::new(Device::Cuda);
    let x = input(&mut t, 0, (2, 8), DType::F32);
    assert_eq!(fused_swiglu(&mut t, x, SwigluAct::GeluTanh).unwrap().shape, d2(2, 4));
    let mut t = Tape::new(Device::Cpu);
    let x = input(&mut t, 0, (2, 8), DType::F32);
    assert_eq!(fused_swiglu(&mut t, x, SwigluAct::GeluTanh).unwrap().shape, d2(2, 4));
    let program = t.finish();
    assert!(program.iter().any(|i| matches!(i, Instr::Un(Op::Gelu, _))));
}

#[test]
fn launches() {
    let norm = add_rmsnorm_launch(d3(2, 5, 16));
    assert_eq!(
        norm,
        LaunchConfig { grid_dim: (10, 1, 1), block_dim: (256, 1, 1), shared_mem_bytes: 32 }
    );
    let act = swiglu_launch(d3(2, 5, 200));
    assert_eq!(
        act,
        LaunchConfig { grid_dim: (4, 1, 1), block_dim: (256, 1, 1), shared_mem_bytes: 0 }
    );
    assert_eq!(block_count(0, 256), 0);
    assert_eq!(block_count(256, 256), 1);
    assert_eq!(block_count(257, 256), 2);
    assert_eq!(act_code(SwigluAct::Silu), 0);
    assert_eq!(act_code(SwigluAct::GeluTanh), 1);
}

#[test]
fn one_is_added_to_the_weight_where_asked() {
    for plus_one in [false, true] {
        let mut t = Tape::new(Device::Cpu);
        let x = input(&mut t, 0, (3, 8), DType::F32);
        let r = input(&mut t, 1, (3, 8), DType::F32);
        let eps = Scalar::F32(1e-6f64.to_bits());
        fused_add_rmsnorm(&mut t, x, r, weight(8), eps, plus_one);
        let ones = t
            .finish()
            .iter()
            .filter(|i| matches!(i, Instr::Un(Op::AddScalar(Scalar::Int(1)), _)))
            .count();
        assert_eq!(ones, if plus_one { 1 } else { 0 });
    }
}
