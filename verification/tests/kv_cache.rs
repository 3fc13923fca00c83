use tensor_tape::dtype::{DType, Device};
use tensor_tape::kv_cache::{CatCache, KvCache};
use tensor_tape::shape::d4;
use tensor_tape::tape::{Op, Tape, Tensor};

fn rows(t: &mut Tape, n: usize) -> Tensor {
    t.leaf(Op::Input { slot: 0, shape: d4(1, 2, n, 4), dtype: DType::F32 })
}

#[test]
fn a_growing_cache_hands_out_everything() {
    let mut t = Tape::new(Device::Cpu);
    let mut c = KvCache::new(16, false);
    let x = rows(&mut t, 5);
    let (k, _v) = c.append(&mut t, x, x);
    assert_eq!(k.shape, d4(1, 2, 5, 4));
    let x = rows(&mut t, 1);
    let (k, v) = c.append(&mut t, x, x);
    assert_eq!(k.shape, d4(1, 2, 6, 4));
    assert_eq!(v.shape, d4(1, 2, 6, 4));
    c.reset(&mut t);
    assert_eq!(c.next_view(3), 3);
}

#[test]
fn a_rotating_cache_keeps_a_window() {
    let mut t = Tape::new(Device::Cpu);
    let mut c = KvCache::new(4, true);
    let x = rows(&mut t, 3);
    let (k, _v) = c.append(&mut t, x, x);
    assert_eq!(k.shape.d2, 3);
    let x = rows(&mut t, 2);
    let (k, _v) = c.append(&mut t, x, x);
    assert_eq!(k.shape.d2, 4);
    assert_eq!(c.next_view(9), 9);
    assert_eq!(c.next_view(1), 4);
}

#[test]
fn joined_caches_add_up_and_forget() {
    let mut t = Tape::new(Device::Cpu);
    let mut c = CatCache::new();
    assert_eq!(c.cached_len(), 0);
    let x = rows(&mut t, 3);
    c.append(&mut t, x, x);
    assert_eq!(c.cached_len(), 3);
    let x = rows(&mut t, 2);
    let (k, _v) = c.append(&mut t, x, x);
    assert_eq!(k.shape.d2, 5);
    c.clear();
    assert_eq!(c.cached_len(), 0);
    let x = rows(&mut t, 1);
    let (k, _v) = c.append(&mut t, x, x);
    assert_eq!(k.shape.d2, 1);
}
