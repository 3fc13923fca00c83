use tensor_tape::dtype::{DType, Device};
use tensor_tape::loader::{decimal_text, Loader, Proj, Recipe, VarPath};
use tensor_tape::quant::GgmlDType;
use tensor_tape::shape::{d1, d2};
use tensor_tape::tape::{Instr, Op, Tape};

#[test]
fn names_are_joined_with_dots() {
    let root = VarPath::root();
    assert_eq!(root.pp("model").text, "model");
    assert_eq!(root.pp("model").pp("layers").pp_index(12).text, "model.layers.12");
    assert_eq!(root.pp("model").join("weight"), "model.weight");
    assert_eq!(root.join("weight"), "weight");
    assert_eq!(decimal_text(0), "0");
    assert_eq!(decimal_text(1094), "1094");
}

#[test]
fn requests_are_numbered_in_order() {
    let mut l = Loader::new(DType::BF16);
    let vb = VarPath::root().pp("m");
    let a = l.get(&vb, "a", d1(3));
    let b = l.get_as(&vb, "b", d2(4, 5), DType::F16);
    assert_eq!((a.id, b.id), (0, 1));
    assert_eq!(l.count(), 2);
    let list = l.finish();
    assert_eq!(list[0].path, "m.a");
    assert_eq!(list[0].weight.dtype, DType::BF16);
    assert_eq!(list[1].weight.dtype, DType::F16);
    assert_eq!(list[1].recipe, Recipe::AsStored);
}

#[test]
fn a_dense_projection_is_a_linear() {
    let mut l = Loader::new(DType::F32);
    let p = Proj::new(&mut l, 8, 4, true, &VarPath::root().pp("p"), None);
    let mut t = Tape::new(Device::Cpu);
    let x = t.leaf(Op::Input { slot: 0, shape: d2(3, 8), dtype: DType::F32 });
    let y = p.forward(&mut t, x);
    assert_eq!(y.shape, d2(3, 4));
    assert!(matches!(t.finish().last(), Some(Instr::Un(Op::LinearBias(_, _), _))));
    let list = l.finish();
    assert_eq!(list[0].path, "p.weight");
    assert_eq!(list[1].path, "p.bias");
}

#[test]
fn a_quantized_projection_falls_back_and_is_cached() {
    let mut l = Loader::new(DType::F32);
    let p = Proj::new(&mut l, 64, 4, true, &VarPath::root().pp("p"), Some(GgmlDType::Q4K));
    let mut t = Tape::new(Device::Cpu);
    let x = t.leaf(Op::Input { slot: 0, shape: d2(3, 64), dtype: DType::F32 });
    let y = p.forward(&mut t, x);
    assert_eq!(y.shape, d2(3, 4));
    let list = l.finish();
    assert_eq!(list[0].quant, Some(GgmlDType::Q8_0));
    assert_eq!(list[0].key, "p");
    assert_eq!(list[1].weight.dtype, DType::F32);
    assert_eq!(list[1].recipe, Recipe::Converted);
}
