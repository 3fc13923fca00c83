//! In-place operations on preallocated buffers, all replayable in a captured
//! graph: they change buffers and yield no new tensor.
use vstd::prelude::*;

use crate::dtype::{DType, Device};
use crate::error::Error;
use crate::fused::{block_count, blocks_for, LaunchConfig};
use crate::tape::{
    bin_term, kv_written, scan_output, scan_state, tri_term, un_term, Buf, Bufs, Op, Tape, Tensor,
    Term, Val,
};

verus! {

/// The element types that the buffer kernels come in.
pub open spec fn kernel_dtype(d: DType) -> bool {
    d == DType::BF16 || d == DType::F32
}

fn is_kernel_dtype(d: DType) -> (r: bool)
    ensures
        r == kernel_dtype(d),
{
    d == DType::BF16 || d == DType::F32
}

/// An operation that goes through leaves `after` in the buffers.
pub open spec fn effect(refused: Option<Error>, after: Bufs) -> Result<Bufs, Error> {
    match refused {
        Some(e) => Err(e),
        None => Ok(after),
    }
}

/// An operation ended as its effect says; a refused one leaves the buffers as
/// they were.
pub open spec fn ended(
    r: Result<(), Error>,
    before: Bufs,
    after: Bufs,
    effect: Result<Bufs, Error>,
) -> bool {
    match effect {
        Err(e) => r == Err::<(), Error>(e) && after == before,
        Ok(b) => r == Ok::<(), Error>(()) && after == b,
    }
}

/// Why a chain of operations stopped, and what the buffers hold then.
pub struct Refused {
    pub error: Error,
    pub bufs: Bufs,
}

/// An operation of a chain, on the contents `before`.
pub open spec fn linked(before: Bufs, effect: Result<Bufs, Error>) -> Result<Bufs, Refused> {
    match effect {
        Err(error) => Err(Refused { error, bufs: before }),
        Ok(b) => Ok(b),
    }
}

/// A chain of operations ended as `chain` says: a refused one leaves what the
/// operations before the refusal have done.
pub open spec fn chain_ended(
    r: Result<(), Error>,
    after: Bufs,
    chain: Result<Bufs, Refused>,
) -> bool {
    match chain {
        Err(s) => r == Err::<(), Error>(s.error) && after == s.bufs,
        Ok(b) => r == Ok::<(), Error>(()) && after == b,
    }
}

/// Why a row of keys and values cannot be written, if it cannot.
pub open spec fn kv_write_error(
    device: Device,
    kbuf: Buf,
    vbuf: Buf,
    k: DType,
    v: DType,
    pos: Buf,
) -> Option<Error> {
    if kbuf.shape.rank != 3 {
        Some(Error::UnexpectedRank { expected: 3, got: kbuf.shape.rank })
    } else if device != Device::Cuda {
        Some(Error::CudaOnly)
    } else if !kernel_dtype(kbuf.dtype) {
        Some(Error::UnsupportedDType)
    } else if vbuf.dtype != kbuf.dtype || k != kbuf.dtype || v != kbuf.dtype || pos.dtype
        != DType::U32 {
        Some(Error::UnexpectedDType)
    } else {
        None
    }
}

pub open spec fn kv_write_effect(
    device: Device,
    bufs: Bufs,
    kbuf: Buf,
    vbuf: Buf,
    k: Val,
    v: Val,
    pos: Buf,
) -> Result<Bufs, Error> {
    effect(
        kv_write_error(device, kbuf, vbuf, k.dtype, v.dtype, pos),
        kv_written(bufs, kbuf, vbuf, k, v, pos),
    )
}

/// Write `knew`/`vnew` (`[heads, dim]`, contiguous) into `kbuf`/`vbuf`
/// (`[heads, max_seq, dim]`) at the position held in `pos` (u32, `[1]`).
pub fn kv_write(
    t: &mut Tape,
    kbuf: Buf,
    vbuf: Buf,
    knew: Tensor,
    vnew: Tensor,
    pos: Buf,
) -> (r: Result<(), Error>)
    requires
        old(t).has(knew),
        old(t).has(vnew),
    ensures
        final(t).wrote(*old(t)),
        ended(r, old(t).bufs(), final(t).bufs(), kv_write_effect(old(t).on(), old(t).bufs(), kbuf, vbuf, knew@, vnew@, pos)),
{
    if kbuf.shape.rank != 3 {
        return Err(Error::UnexpectedRank { expected: 3, got: kbuf.shape.rank });
    }
    if t.device() != Device::Cuda {
        return Err(Error::CudaOnly);
    }
    if !is_kernel_dtype(kbuf.dtype) {
        return Err(Error::UnsupportedDType);
    }
    if vbuf.dtype != kbuf.dtype || knew.dtype != kbuf.dtype || vnew.dtype != kbuf.dtype
        || pos.dtype != DType::U32 {
        return Err(Error::UnexpectedDType);
    }
    t.kv_row(kbuf, vbuf, knew, vnew, pos);
    Ok(())
}

/// Launch of the key/value row write: one thread per element of the row.
pub fn kv_write_launch(heads: usize, dim: usize) -> (r: LaunchConfig)
    requires
        heads * dim <= usize::MAX,
    ensures
        r.grid_dim.0 == blocks_for(((heads * dim) as u32) as int, 256),
        r.grid_dim.1 == 1 && r.grid_dim.2 == 1,
        r.block_dim == (256u32, 1u32, 1u32),
        r.shared_mem_bytes == 0,
{
    let total: u32 = (heads * dim) as u32;
    one_thread_each(total)
}

fn one_thread_each(total: u32) -> (r: LaunchConfig)
    ensures
        r.grid_dim.0 == blocks_for(total as int, 256),
        r.grid_dim.1 == 1 && r.grid_dim.2 == 1,
        r.block_dim == (256u32, 1u32, 1u32),
        r.shared_mem_bytes == 0,
{
    let block: u32 = 256;
    LaunchConfig {
        grid_dim: (block_count(total, block), 1, 1),
        block_dim: (block, 1, 1),
        shared_mem_bytes: 0,
    }
}

/// Why a mask row cannot be refreshed, if it cannot.
pub open spec fn mask_error(device: Device, mask: Buf, pos: Buf) -> Option<Error> {
    if device != Device::Cuda {
        Some(Error::CudaOnly)
    } else if !kernel_dtype(mask.dtype) {
        Some(Error::UnsupportedDType)
    } else if pos.dtype != DType::U32 {
        Some(Error::UnexpectedDType)
    } else {
        None
    }
}

fn check_mask(device: Device, mask: Buf, pos: Buf) -> (r: Result<(), Error>)
    ensures
        match mask_error(device, mask, pos) {
            Some(e) => r == Err::<(), Error>(e),
            None => r == Ok::<(), Error>(()),
        },
{
    if device != Device::Cuda {
        return Err(Error::CudaOnly);
    }
    if !is_kernel_dtype(mask.dtype) {
        return Err(Error::UnsupportedDType);
    }
    if pos.dtype != DType::U32 {
        return Err(Error::UnexpectedDType);
    }
    Ok(())
}

pub open spec fn mask_row_effect(
    device: Device,
    bufs: Bufs,
    mask: Buf,
    pos: Buf,
    window: usize,
) -> Result<Bufs, Error> {
    effect(
        mask_error(device, mask, pos),
        bufs.insert(mask.id as int, un_term(Op::MaskRow { window }, bufs[pos.id as int])),
    )
}

/// Fill `mask` (`[max_seq]`) with the additive causal mask for the position in
/// `pos`. `window == 0` means global causal; `> 0` sliding.
pub fn mask_from_pos(t: &mut Tape, mask: Buf, pos: Buf, window: usize) -> (r: Result<(), Error>)
    ensures
        final(t).wrote(*old(t)),
        ended(r, old(t).bufs(), final(t).bufs(), mask_row_effect(old(t).on(), old(t).bufs(), mask, pos, window)),
{
    check_mask(t.device(), mask, pos)?;
    t.derive_from(mask, Op::MaskRow { window }, pos);
    Ok(())
}

/// Launch of the mask refresh: one thread per cell.
pub fn mask_launch(max_seq: usize) -> (r: LaunchConfig)
    ensures
        r.grid_dim.0 == blocks_for((max_seq as u32) as int, 256),
        r.grid_dim.1 == 1 && r.grid_dim.2 == 1,
        r.block_dim == (256u32, 1u32, 1u32),
        r.shared_mem_bytes == 0,
{
    one_thread_each(max_seq as u32)
}

pub open spec fn mask_block_effect(
    device: Device,
    bufs: Bufs,
    mask: Buf,
    pos: Buf,
    sliding: Option<usize>,
) -> Result<Bufs, Error> {
    effect(
        mask_error(device, mask, pos),
        bufs.insert(mask.id as int, un_term(Op::MaskBlock { sliding }, bufs[pos.id as int])),
    )
}

/// Fill `mask` (`[chunk, max_seq]`) with the additive causal mask of the rows
/// that start at the position in `pos`.
pub fn chunk_mask_from_pos(
    t: &mut Tape,
    mask: Buf,
    pos: Buf,
    sliding: Option<usize>,
) -> (r: Result<(), Error>)
    ensures
        final(t).wrote(*old(t)),
        ended(r, old(t).bufs(), final(t).bufs(), mask_block_effect(old(t).on(), old(t).bufs(), mask, pos, sliding)),
{
    check_mask(t.device(), mask, pos)?;
    t.derive_from(mask, Op::MaskBlock { sliding }, pos);
    Ok(())
}

/// Why a device scalar cannot be written, if it cannot.
pub open spec fn scalar_error(device: Device, buf: Buf) -> Option<Error> {
    if device != Device::Cuda {
        Some(Error::CudaOnly)
    } else if buf.dtype != DType::U32 {
        Some(Error::UnexpectedDType)
    } else {
        None
    }
}

fn check_scalar(device: Device, buf: Buf) -> (r: Result<(), Error>)
    ensures
        match scalar_error(device, buf) {
            Some(e) => r == Err::<(), Error>(e),
            None => r == Ok::<(), Error>(()),
        },
{
    if device != Device::Cuda {
        return Err(Error::CudaOnly);
    }
    if buf.dtype != DType::U32 {
        return Err(Error::UnexpectedDType);
    }
    Ok(())
}

pub open spec fn advance_effect(
    device: Device,
    bufs: Bufs,
    pos: Buf,
    n: u32,
) -> Result<Bufs, Error> {
    effect(
        scalar_error(device, pos),
        bufs.insert(pos.id as int, un_term(Op::AddU32(n), bufs[pos.id as int])),
    )
}

/// `*pos += 1` on the device.
pub fn incr_u32(t: &mut Tape, pos: Buf) -> (r: Result<(), Error>)
    ensures
        final(t).wrote(*old(t)),
        ended(r, old(t).bufs(), final(t).bufs(), advance_effect(old(t).on(), old(t).bufs(), pos, 1)),
{
    incr_add_u32(t, pos, 1)
}

/// `*pos += n` on the device.
pub fn incr_add_u32(t: &mut Tape, pos: Buf, n: u32) -> (r: Result<(), Error>)
    ensures
        final(t).wrote(*old(t)),
        ended(r, old(t).bufs(), final(t).bufs(), advance_effect(old(t).on(), old(t).bufs(), pos, n)),
{
    check_scalar(t.device(), pos)?;
    t.derive_from(pos, Op::AddU32(n), pos);
    Ok(())
}

pub open spec fn iota_effect(device: Device, bufs: Bufs, idx: Buf, pos: Buf) -> Result<Bufs, Error> {
    effect(
        scalar_error(device, pos),
        bufs.insert(idx.id as int, un_term(Op::Iota, bufs[pos.id as int])),
    )
}

/// `idx[i] = *pos + i` on the device.
pub fn iota_add_u32(t: &mut Tape, idx: Buf, pos: Buf) -> (r: Result<(), Error>)
    ensures
        final(t).wrote(*old(t)),
        ended(r, old(t).bufs(), final(t).bufs(), iota_effect(old(t).on(), old(t).bufs(), idx, pos)),
{
    check_scalar(t.device(), pos)?;
    t.derive_from(idx, Op::Iota, pos);
    Ok(())
}

pub open spec fn u32_effect(device: Device, bufs: Bufs, buf: Buf, v: u32) -> Result<Bufs, Error> {
    effect(scalar_error(device, buf), bufs.insert(buf.id as int, Term::Leaf(Op::U32(v))))
}

/// Overwrite a device u32 scalar from the host (used outside captured graphs:
/// reset the position, feed a token id).
pub fn write_u32(t: &mut Tape, buf: Buf, v: u32) -> (r: Result<(), Error>)
    ensures
        final(t).wrote(*old(t)),
        ended(r, old(t).bufs(), final(t).bufs(), u32_effect(old(t).on(), old(t).bufs(), buf, v)),
{
    check_scalar(t.device(), buf)?;
    t.fill(buf, Op::U32(v));
    Ok(())
}

/// Launch of a single thread.
pub fn scalar_launch() -> (r: LaunchConfig)
    ensures
        r.grid_dim == (1u32, 1u32, 1u32),
        r.block_dim == (1u32, 1u32, 1u32),
        r.shared_mem_bytes == 0,
{
    LaunchConfig { grid_dim: (1, 1, 1), block_dim: (1, 1, 1), shared_mem_bytes: 0 }
}

/// Why rows of another shape or type cannot be written, if they cannot.
pub open spec fn rows_error(device: Device, buf: Buf, src: Val, pos: int) -> Option<Error> {
    if buf.shape.rank != 3 {
        Some(Error::UnexpectedRank { expected: 3, got: buf.shape.rank })
    } else if src.shape.rank != 3 {
        Some(Error::UnexpectedRank { expected: 3, got: src.shape.rank })
    } else if src.shape.d0 != buf.shape.d0 || src.shape.d2 != buf.shape.d2 {
        Some(Error::ShapeMismatch)
    } else if pos + src.shape.d1 > buf.shape.d1 {
        Some(
            Error::ExceedsMaxSeq {
                pos: pos as usize,
                len: src.shape.d1,
                max_seq: buf.shape.d1,
            },
        )
    } else if device != Device::Cuda {
        Some(Error::CudaOnly)
    } else if !kernel_dtype(buf.dtype) {
        Some(Error::UnsupportedDType)
    } else if src.dtype != buf.dtype {
        Some(Error::UnexpectedDType)
    } else {
        None
    }
}

fn check_rows(device: Device, buf: Buf, src: Tensor, pos: usize) -> (r: Result<(), Error>)
    ensures
        match rows_error(device, buf, src@, pos as int) {
            Some(e) => r == Err::<(), Error>(e),
            None => r == Ok::<(), Error>(()),
        },
{
    if buf.shape.rank != 3 {
        return Err(Error::UnexpectedRank { expected: 3, got: buf.shape.rank });
    }
    if src.shape.rank != 3 {
        return Err(Error::UnexpectedRank { expected: 3, got: src.shape.rank });
    }
    if src.shape.d0 != buf.shape.d0 || src.shape.d2 != buf.shape.d2 {
        return Err(Error::ShapeMismatch);
    }
    let (len, max_seq) = (src.shape.d1, buf.shape.d1);
    if len > max_seq || pos > max_seq - len {
        return Err(Error::ExceedsMaxSeq { pos, len, max_seq });
    }
    if device != Device::Cuda {
        return Err(Error::CudaOnly);
    }
    if !is_kernel_dtype(buf.dtype) {
        return Err(Error::UnsupportedDType);
    }
    if src.dtype != buf.dtype {
        return Err(Error::UnexpectedDType);
    }
    Ok(())
}

pub open spec fn rows_effect(
    device: Device,
    bufs: Bufs,
    buf: Buf,
    src: Val,
    pos: usize,
) -> Result<Bufs, Error> {
    effect(
        rows_error(device, buf, src, pos as int),
        bufs.insert(
            buf.id as int,
            bin_term(
                Op::KvRows { pos, len: src.shape.d1 },
                bufs[buf.id as int],
                src.term,
            ),
        ),
    )
}

/// Copy a `[kv_heads, t, hd]` chunk into the buffer (`[kv_heads, max_seq, hd]`)
/// at rows `[pos, pos+t)`. `pos` is a host value, so this is for eager prefill;
/// decode uses [`kv_write`] with the position on the device.
pub fn kv_write_chunk(t: &mut Tape, buf: Buf, src: Tensor, pos: usize) -> (r: Result<(), Error>)
    requires
        old(t).has(src),
    ensures
        final(t).wrote(*old(t)),
        ended(r, old(t).bufs(), final(t).bufs(), rows_effect(old(t).on(), old(t).bufs(), buf, src@, pos)),
{
    check_rows(t.device(), buf, src, pos)?;
    t.update(buf, Op::KvRows { pos, len: src.shape.d1 }, src);
    Ok(())
}

pub open spec fn rows_at_effect(
    device: Device,
    bufs: Bufs,
    buf: Buf,
    src: Val,
    pos: Buf,
) -> Result<Bufs, Error> {
    effect(
        rows_error(device, buf, src, 0),
        bufs.insert(
            buf.id as int,
            tri_term(Op::KvRowsAt, bufs[buf.id as int], src.term, bufs[pos.id as int]),
        ),
    )
}

/// As [`kv_write_chunk`], at the position held in a buffer; a position that
/// leaves no room is the executor's to find.
pub fn kv_write_chunk_at(t: &mut Tape, buf: Buf, src: Tensor, pos: Buf) -> (r: Result<(), Error>)
    requires
        old(t).has(src),
    ensures
        final(t).wrote(*old(t)),
        ended(r, old(t).bufs(), final(t).bufs(), rows_at_effect(old(t).on(), old(t).bufs(), buf, src@, pos)),
{
    check_rows(t.device(), buf, src, 0)?;
    t.update_at(buf, Op::KvRowsAt, src, pos);
    Ok(())
}

/// Launch of the chunk write: one block per head and row.
pub fn kv_write_chunk_launch(kv_heads: usize, len: usize, hd: usize) -> (r: LaunchConfig)
    ensures
        r.grid_dim == (kv_heads as u32, len as u32, 1u32),
        r.block_dim == ((if hd <= 256 { hd as u32 } else { 256u32 }), 1u32, 1u32),
        r.shared_mem_bytes == 0,
{
    LaunchConfig {
        grid_dim: (kv_heads as u32, len as u32, 1),
        block_dim: (if hd <= 256 { hd as u32 } else { 256 }, 1, 1),
        shared_mem_bytes: 0,
    }
}

/// Rows of the state that one block of the scan kernel holds.
pub const SCAN_ROWS: usize = 64;

/// Shared memory of the scan kernel: its rows of the state and one key and one
/// query, in single precision.
pub open spec fn scan_shared_bytes(d_k: int) -> int {
    (SCAN_ROWS * d_k + 2 * d_k) * 4
}

/// Why a scan cannot be launched, if it cannot.
pub open spec fn scan_error(
    device: Device,
    q: Val,
    k: Val,
    v: Val,
    beta: Val,
    decay: Val,
    s: Buf,
) -> Option<Error> {
    if q.shape.rank != 3 {
        Some(Error::UnexpectedRank { expected: 3, got: q.shape.rank })
    } else if v.shape.rank != 3 {
        Some(Error::UnexpectedRank { expected: 3, got: v.shape.rank })
    } else if device != Device::Cuda {
        Some(Error::CudaOnly)
    } else if scan_shared_bytes(q.shape.d2 as int) > 48 * 1024 {
        Some(Error::SharedMemory { bytes: scan_shared_bytes(q.shape.d2 as int) as usize })
    } else if q.dtype != DType::F32 || k.dtype != DType::F32 || v.dtype != DType::F32 || beta.dtype
        != DType::F32 || decay.dtype != DType::F32 || s.dtype != DType::F32 {
        Some(Error::UnexpectedDType)
    } else {
        None
    }
}

/// Run the whole gated delta rule of a layer in one kernel launch. `s`
/// (`[n_v, d_v, d_k]`) is updated in place; returns `[t, n_v, d_v]`. All inputs
/// are contiguous single-precision tensors: `q`, `k` `[t, n_k, d_k]`, `v`
/// `[t, n_v, d_v]`, `beta`, `decay` `[t, n_v]`.
pub fn gdn_scan(
    t: &mut Tape,
    q: Tensor,
    k: Tensor,
    v: Tensor,
    beta: Tensor,
    decay: Tensor,
    s: Buf,
) -> (r: Result<Tensor, Error>)
    requires
        old(t).has(q),
        old(t).has(k),
        old(t).has(v),
        old(t).has(beta),
        old(t).has(decay),
        scan_shared_bytes(q.shape.d2 as int) <= usize::MAX,
    ensures
        final(t).wrote(*old(t)),
        match scan_error(old(t).on(), q@, k@, v@, beta@, decay@, s) {
            Some(e) => r == Err::<Tensor, Error>(e) && final(t).bufs() == old(t).bufs(),
            None => {
                let before = old(t).bufs()[s.id as int];
                &&& r is Ok
                &&& final(t).has(r->Ok_0)
                &&& r->Ok_0@ == scan_output(q@, k@, v@, beta@, decay@, before)
                &&& final(t).bufs() == old(t).bufs().insert(
                    s.id as int,
                    scan_state(q@, k@, v@, beta@, decay@, before),
                )
            },
        },
{
    let (_len, _n_k, d_k) = q.dims3()?;
    let (_len_v, _n_v, _d_v) = v.dims3()?;
    if t.device() != Device::Cuda {
        return Err(Error::CudaOnly);
    }
    let smem: usize = (SCAN_ROWS * d_k + 2 * d_k) * 4;
    if smem > 48 * 1024 {
        return Err(Error::SharedMemory { bytes: smem });
    }
    if q.dtype != DType::F32 || k.dtype != DType::F32 || v.dtype != DType::F32 || beta.dtype
        != DType::F32 || decay.dtype != DType::F32 || s.dtype != DType::F32 {
        return Err(Error::UnexpectedDType);
    }
    Ok(t.scan(q, k, v, beta, decay, s))
}

/// Launch of the scan kernel: each value head takes as many blocks as its rows
/// of state fill.
pub fn scan_launch(n_v: usize, d_v: usize, d_k: usize) -> (r: LaunchConfig)
    requires
        scan_shared_bytes(d_k as int) <= usize::MAX,
        (n_v as u32) * blocks_for((d_v as u32) as int, SCAN_ROWS as int) <= u32::MAX,
    ensures
        r.grid_dim.0 == (n_v as u32) * blocks_for((d_v as u32) as int, SCAN_ROWS as int),
        r.grid_dim.1 == 1 && r.grid_dim.2 == 1,
        r.block_dim == (64u32, 1u32, 1u32),
        r.shared_mem_bytes == scan_shared_bytes(d_k as int) as u32,
{
    let chunks: u32 = block_count(d_v as u32, 64);
    let smem: usize = (SCAN_ROWS * d_k + 2 * d_k) * 4;
    LaunchConfig {
        grid_dim: (n_v as u32 * chunks, 1, 1),
        block_dim: (64, 1, 1),
        shared_mem_bytes: smem as u32,
    }
}

/// Why a copy cannot be made, if it cannot.
pub open spec fn copy_error(device: Device, dst: Buf, src: Val) -> Option<Error> {
    if dst.dtype != src.dtype || dst.shape.elems() != src.shape.elems() {
        Some(Error::ShapeMismatch)
    } else if device != Device::Cuda {
        Some(Error::CudaOnly)
    } else if dst.dtype == DType::F16 {
        Some(Error::UnsupportedDType)
    } else {
        None
    }
}

pub open spec fn copy_effect(device: Device, bufs: Bufs, dst: Buf, src: Val) -> Result<Bufs, Error> {
    effect(copy_error(device, dst, src), bufs.insert(dst.id as int, src.term))
}

/// Device-to-device copy of `src` into the preallocated `dst` (same element
/// type and count).
pub fn copy_into(t: &mut Tape, dst: Buf, src: Tensor) -> (r: Result<(), Error>)
    requires
        old(t).has(src),
        dst.shape.countable(),
        src.shape.countable(),
    ensures
        final(t).wrote(*old(t)),
        ended(r, old(t).bufs(), final(t).bufs(), copy_effect(old(t).on(), old(t).bufs(), dst, src@)),
{
    if dst.dtype != src.dtype || dst.shape.elem_count() != src.shape.elem_count() {
        return Err(Error::ShapeMismatch);
    }
    if t.device() != Device::Cuda {
        return Err(Error::CudaOnly);
    }
    match dst.dtype {
        DType::BF16 | DType::F32 | DType::U32 => {
            t.store(dst, src);
            Ok(())
        },
        DType::F16 => Err(Error::UnsupportedDType),
    }
}

/// Bytes that a copy into a buffer moves.
pub fn copy_bytes(dst: Buf) -> (n: usize)
    requires
        dst.shape.countable(),
        dst.shape.elems() * dst.dtype.bytes() <= usize::MAX,
    ensures
        n == dst.shape.elems() * dst.dtype.bytes(),
{
    dst.shape.elem_count() * dst.dtype.size_in_bytes()
}

/// The number that a position buffer holds, where its contents were written by
/// the host and counted up since.
pub open spec fn counted(t: Term) -> Option<int>
    decreases t,
{
    match t {
        Term::Leaf(Op::U32(v)) => Some(v as int),
        Term::Leaf(Op::Zeros { shape, dtype }) => Some(0),
        Term::Un(Op::AddU32(n), a) => match counted(*a) {
            Some(x) => Some((x + n) % 0x1_0000_0000),
            None => None,
        },
        _ => None,
    }
}

/// Counting up by `n` adds `n`, as far as the number has room.
pub proof fn law_counting_adds(t: Term, n: u32)
    requires
        counted(t) is Some,
        0 <= counted(t)->0,
        counted(t)->0 + n <= u32::MAX,
    ensures
        counted(un_term(Op::AddU32(n), t)) == Some(counted(t)->0 + n),
{
}

} // verus!
