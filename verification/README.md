# tensor_tape

Decoder models as verified recorders of tensor programs.

A model of this library decides which tensor work is to be done: which
operation, on which weights, at which positions, into which persistent buffers,
and in which order. It records that work on a tape. The contracts state, for
every input, which formula over weights, inputs and buffer contents the recorded
values stand for, and when a request is refused. An executor carries the
recorded program out on a device.

- `src/tape.rs`, `src/shape.rs`, `src/dtype.rs`: programs and what they mean
- `src/loader.rs`, `src/quant.rs`, `src/qcache.rs`, `src/serving.rs`: what a model
  asks of its checkpoint, block quantization, the cache of quantized tensors, and
  which requests it serves
- `src/fused.rs`, `src/static_decode.rs`, `src/kv_cache.rs`, `src/masks.rs`:
  operations on buffers, launch geometry, caches, masks
- `src/routing.rs`: choice of experts
- `src/rows.rs`: which rows of keys and values attention sees
- `src/positions.rs`, `src/gathering.rs`: what a value holds at each position of a
  sequence, and what a query gathers from keys and values
- `src/graph.rs`, `src/stream.rs`: capture of device work into graphs
- `src/gemma4/`, `src/qwen3_5/`, `src/unlimited_ocr/`, `src/whisper/`: the models
- `src/generation.rs`, `src/options.rs`, `src/interpolation.rs`: what the tools
  around them decide
- `app/`: the executor on candle, and the command-line tools

A pass of a model with experts that the host chooses pauses at each of them: it
hands out the scores to read back, and is resumed with their values.

`tests/execution.rs` carries recorded programs out on plain arrays and holds the
different ways of doing the same work (eager, chunked, static) against each
other.
