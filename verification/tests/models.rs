//! What the models record and refuse, without carrying anything out.
use tensor_tape::dtype::{Activation, DType, Device};
use tensor_tape::error::Error;
use tensor_tape::gemma4::config::{Gemma4TextConfig, LayerType};
use tensor_tape::gemma4::context::SharedKvStates;
use tensor_tape::gemma4::model as gemma;
use tensor_tape::gemma4::model::prefill_chunk;
use tensor_tape::loader::{Loader, Request, VarPath};
use tensor_tape::qcache::QCache;
use tensor_tape::quant::GgmlDType;
use tensor_tape::qwen3_5::attention::expand_heads;
use tensor_tape::qwen3_5::config::{
    default_conv_kernel, default_one, default_true, Qwen35TextConfig, RopeParameters,
};
use tensor_tape::qwen3_5::delta::Slot;
use tensor_tape::qwen3_5::ffn::ExpertSource;
use tensor_tape::qwen3_5::model as qwen;
use tensor_tape::serving::{reads, serve_plan};
use tensor_tape::shape::{d1, d2, d3, d4, Shape};
use tensor_tape::tape::{Instr, Op, Tape, Tensor};
use tensor_tape::unlimited_ocr::config::{
    default_eps, default_max_pos, default_rope_theta, UnlimitedOcrTextConfig,
};
use tensor_tape::unlimited_ocr::text as ocr;
use tensor_tape::unlimited_ocr::vision::{
    interp_pos_with_cls, isqrt, quick_gelu, sam_config, DeepEncoder,
};
use tensor_tape::whisper::config::Config as WhisperConfig;
use tensor_tape::whisper::model::Whisper;

fn input(t: &mut Tape, shape: Shape, dtype: DType) -> Tensor {
    t.leaf(Op::Input { slot: 0, shape, dtype })
}

fn tokens(t: &mut Tape, n: usize) -> Tensor {
    input(t, d2(1, n), DType::U32)
}

// ---- gemma ----

fn gemma_config() -> Gemma4TextConfig {
    Gemma4TextConfig {
        vocab_size: 64,
        hidden_size: 32,
        intermediate_size: 16,
        num_hidden_layers: 4,
        num_attention_heads: 4,
        num_key_value_heads: 2,
        num_global_key_value_heads: None,
        head_dim: 8,
        global_head_dim: 16,
        hidden_activation: Activation::GeluTanh,
        rms_norm_eps: 1e-6f64.to_bits(),
        attention_bias: false,
        layer_types: vec![
            LayerType::Sliding,
            LayerType::Full,
            LayerType::Sliding,
            LayerType::Full,
        ],
        sliding_window: 4,
        effective_sliding_window: 5,
        max_position_embeddings: 64,
        rope_theta: 1000000f64.to_bits(),
        rope_local_base_freq: 10000f64.to_bits(),
        rope_angles: 8,
        tie_word_embeddings: true,
        final_logit_softcapping: None,
        hidden_size_per_layer_input: 0,
        vocab_size_per_layer_input: 0,
        num_kv_shared_layers: 2,
        use_double_wide_mlp: true,
        attention_k_eq_v: false,
        enable_moe_block: false,
        num_experts: 0,
        top_k_experts: 0,
        moe_intermediate_size: 0,
        use_flash_attn: false,
    }
}

fn gemma_model(cfg: &Gemma4TextConfig) -> (gemma::TextModel, Vec<Request>) {
    let mut l = Loader::new(DType::F32);
    let scalars = vec![None; cfg.num_hidden_layers];
    let m = gemma::TextModel::new(&mut l, cfg, &VarPath::root(), Device::Cuda, None, &scalars);
    (m, l.finish())
}

#[test]
fn trailing_layers_read_the_last_of_their_type() {
    let cfg = gemma_config();
    assert!(cfg.is_valid());
    assert_eq!(cfg.first_kv_shared_layer_idx(), 2);
    let shared: Vec<bool> = (0..4).map(|i| cfg.is_kv_shared(i)).collect();
    assert_eq!(shared, vec![false, false, true, true]);
    let stores: Vec<bool> = (0..4).map(|i| cfg.stores_kv(i)).collect();
    assert_eq!(stores, vec![true, true, false, false]);
    let mut three = gemma_config();
    three.num_kv_shared_layers = 1;
    let stores: Vec<bool> = (0..4).map(|i| three.stores_kv(i)).collect();
    // layers 0 and 2 slide, 1 is global: the last of each before layer 3
    assert_eq!(stores, vec![false, true, true, false]);
}

#[test]
fn geometry_depends_on_the_type_of_the_layer() {
    let mut cfg = gemma_config();
    assert_eq!(cfg.geometry(0), (8, 2));
    assert_eq!(cfg.geometry(1), (16, 2));
    cfg.num_global_key_value_heads = Some(1);
    assert_eq!(cfg.geometry(1), (16, 1));
    assert!(cfg.is_sliding(0) && !cfg.is_sliding(1));
    cfg.num_global_key_value_heads = Some(0);
    assert!(!cfg.is_valid());
}

#[test]
fn caches_hold_the_window_or_the_context() {
    let mut cfg = gemma_config();
    assert_eq!(cfg.max_cache(0, None), 5);
    assert_eq!(cfg.max_cache(1, None), 64);
    assert_eq!(cfg.max_cache(1, Some(20)), 20);
    cfg.max_position_embeddings = 100000;
    assert_eq!(cfg.max_cache(1, None), 8192);
}

#[test]
fn trailing_layers_are_twice_as_wide() {
    let mut cfg = gemma_config();
    let widths: Vec<usize> = (0..4).map(|i| cfg.mlp_intermediate_size(i)).collect();
    assert_eq!(widths, vec![16, 16, 32, 32]);
    cfg.use_double_wide_mlp = false;
    assert_eq!(cfg.mlp_intermediate_size(3), 16);
}

#[test]
fn gemma_asks_for_its_weights_by_name() {
    let (_m, requests) = gemma_model(&gemma_config());
    let names: Vec<&str> = requests.iter().map(|r| r.path.as_str()).collect();
    for name in [
        "model.embed_tokens.weight",
        "model.norm.weight",
        "model.layers.0.self_attn.q_proj.weight",
        "model.layers.1.self_attn.k_proj.weight",
        "model.layers.3.mlp.gate_proj.weight",
    ] {
        assert!(names.iter().any(|n| n.ends_with(name)), "{} in {:?}", name, names);
    }
    for (i, r) in requests.iter().enumerate() {
        assert_eq!(r.weight.id, i);
    }
}

#[test]
fn models_ask_for_nothing_beside_their_tensors() {
    // the embeddings, four rotary tables, the last norm, and the layers: those
    // that share states have no keys and values of their own
    let (_m, requests) = gemma_model(&gemma_config());
    assert_eq!(requests.len(), 6 + 2 * 13 + 2 * 10);
    let mut cfg = gemma_config();
    cfg.tie_word_embeddings = false;
    cfg.attention_bias = true;
    assert_eq!(gemma_model(&cfg).1.len(), 7 + 2 * 17 + 2 * 12);
    // a layer with a delta rule, and one with attention
    let mut l = Loader::new(DType::F32);
    let sources = vec![ExpertSource::Separate; 2];
    qwen::Model::new(&mut l, &qwen_config(), &VarPath::root(), 4, false, &sources).unwrap();
    assert_eq!(l.count(), 4 + 14 + 11);
    let mut l = Loader::new(DType::F32);
    Whisper::load(&mut l, &VarPath::root(), whisper_model().config);
    assert_eq!(l.count(), 11 + 15 + 24);
    let mut l = Loader::new(DType::F32);
    DeepEncoder::new(&mut l, &VarPath::root());
    assert_eq!(l.count(), 299);
}

#[test]
fn gemma_static_paths_want_to_be_switched_on() {
    let (mut m, _) = gemma_model(&gemma_config());
    let mut t = Tape::new(Device::Cuda);
    let one = tokens(&mut t, 1);
    assert!(!m.static_enabled());
    assert!(matches!(m.forward_static(&mut t, one), Err(Error::StaticNotEnabled)));
    assert!(matches!(m.prefill_static_chunked(&mut t, one, 2), Err(Error::StaticNotEnabled)));
    assert_eq!(m.enable_chunk_graph(&mut t, 4), Err(Error::StaticNotEnabled));
    assert_eq!(m.reset_static_pos(&mut t), Err(Error::StaticNotEnabled));
    assert!(matches!(m.static_pos(&mut t), Err(Error::StaticNotEnabled)));
    // without a context there is nothing to rewind, and no position
    assert_eq!(m.reset_static(&mut t), Ok(()));
    assert_eq!(m.static_pos_debug(7), u32::MAX);

    m.enable_static_decode(16);
    assert!(m.static_enabled());
    // nothing is made before it is needed: a position is zero then
    assert!(m.static_ctx.is_none());
    assert_eq!(m.static_pos_debug(7), 0);
    assert_eq!(m.reset_static_pos(&mut t), Ok(()));
    assert!(m.static_pos(&mut t).is_ok());
    assert!(m.static_ctx.is_some());
    assert_eq!(m.static_pos_debug(7), 7);
    assert!(matches!(
        m.prefill_static_graph(&mut t, &vec![1, 2]),
        Err(Error::ChunkNotEnabled)
    ));
    assert!(matches!(m.prefill_chunk_step(&mut t), Err(Error::ChunkNotEnabled)));
    assert_eq!(m.enable_chunk_graph(&mut t, 4), Ok(()));
    assert!(matches!(m.prefill_static_graph(&mut t, &vec![]), Err(Error::EmptyPrompt)));
    let none = tokens(&mut t, 0);
    assert!(matches!(m.prefill_static_chunked(&mut t, none, 2), Err(Error::EmptyPrompt)));
    let flat = input(&mut t, d1(3), DType::U32);
    assert!(matches!(
        m.prefill_static_chunked(&mut t, flat, 2),
        Err(Error::UnexpectedRank { expected: 2, got: 1 })
    ));
}

#[test]
fn gemma_static_steps_run_on_the_device_only() {
    let (mut m, _) = gemma_model(&gemma_config());
    let mut t = Tape::new(Device::Cpu);
    m.enable_static_decode(16);
    let one = tokens(&mut t, 1);
    assert!(matches!(m.forward_static(&mut t, one), Err(Error::CudaOnly)));
}

#[test]
fn gemma_steps_are_all_alike() {
    // a step that reads only device state can be replayed: once the first step
    // has made the buffers, every step records the same program
    let (mut m, _) = gemma_model(&gemma_config());
    let mut t = Tape::new(Device::Cuda);
    m.enable_static_decode(16);
    t.finish();
    let mut programs = Vec::new();
    for _ in 0..3 {
        let one = tokens(&mut t, 1);
        m.forward_static(&mut t, one).unwrap();
        programs.push(format!("{:?}", t.finish()));
    }
    assert!(programs[0] != programs[1]);
    assert_eq!(programs[1], programs[2]);
    assert!(programs[1].contains("AddU32(1)"));
}

#[test]
fn chunk_state_is_allocated_once() {
    let (mut m, _) = gemma_model(&gemma_config());
    let mut t = Tape::new(Device::Cuda);
    m.enable_static_decode(16);
    t.finish();
    m.enable_chunk_graph(&mut t, 4).unwrap();
    t.finish();
    m.enable_chunk_graph(&mut t, 8).unwrap();
    assert_eq!(t.finish().len(), 0);
}

#[test]
fn chunk_ids_are_fed_between_steps() {
    let (mut m, _) = gemma_model(&gemma_config());
    let mut t = Tape::new(Device::Cuda);
    m.enable_static_decode(16);
    m.enable_chunk_graph(&mut t, 4).unwrap();
    t.finish();
    assert_eq!(m.feed_chunk_ids(&mut t, &vec![1, 2, 3, 4]), Ok(()));
    assert_eq!(m.feed_chunk_ids(&mut t, &vec![1, 2, 3]), Err(Error::ShapeMismatch));
    let program = t.finish();
    assert!(program.iter().any(|i| matches!(i, Instr::Ids(v) if *v == vec![1, 2, 3, 4])));
}

#[test]
fn states_have_to_be_stored_before_they_are_shared() {
    // every layer shares, so none has stored anything
    let mut cfg = gemma_config();
    cfg.num_kv_shared_layers = 4;
    let (mut m, _) = gemma_model(&cfg);
    let mut t = Tape::new(Device::Cuda);
    let x = tokens(&mut t, 2);
    assert!(matches!(m.forward(&mut t, x, 0), Err(Error::SharedKvMissing)));
    let mut s = SharedKvStates::none();
    assert!(s.slot(true).is_none());
    let k = input(&mut t, d4(1, 2, 3, 8), DType::F32);
    s.store(true, k, k);
    assert!(s.slot(true).is_some());
    assert!(s.slot(false).is_none());
}

#[test]
fn gemma_makes_no_buffer_before_the_first_static_step() {
    let (mut m, _) = gemma_model(&gemma_config());
    let mut t = Tape::new(Device::Cuda);
    m.enable_static_decode(16);
    assert!(m.static_enabled());
    assert_eq!(t.finish().len(), 0);
    assert!(m.static_ctx.is_none());
    let one = tokens(&mut t, 1);
    assert!(m.forward_static(&mut t, one).is_ok());
    assert!(m.static_ctx.is_some());
}

#[test]
fn gemma_refuses_positions_that_its_tables_lack() {
    let (mut m, _) = gemma_model(&gemma_config());
    let mut t = Tape::new(Device::Cpu);
    let x = tokens(&mut t, 3);
    assert!(m.forward(&mut t, x, 61).is_ok());
    assert!(matches!(
        m.forward(&mut t, x, 62),
        Err(Error::BeyondTable { pos: 62, len: 3, rows: 64 })
    ));
}

#[test]
fn gemma_refuses_a_prompt_that_is_too_long_and_keeps_its_place() {
    let (mut m, _) = gemma_model(&gemma_config());
    let mut t = Tape::new(Device::Cuda);
    m.enable_static_decode(16);
    let x = tokens(&mut t, 17);
    assert!(m.prefill_static_chunked(&mut t, x, 32).is_err());
    assert!(m.static_enabled());
    // the same model goes on with a prompt that fits
    assert_eq!(m.reset_static(&mut t), Ok(()));
    let x = tokens(&mut t, 16);
    assert!(m.prefill_static_chunked(&mut t, x, 32).is_ok());
}

#[test]
fn chunks_have_a_default_length() {
    assert_eq!(prefill_chunk(None), 512);
    assert_eq!(prefill_chunk(Some(64)), 64);
    assert_eq!(prefill_chunk(Some(0)), 1);
}

// ---- qwen ----

fn qwen_config() -> Qwen35TextConfig {
    Qwen35TextConfig {
        hidden_size: 16,
        num_attention_heads: 4,
        num_key_value_heads: 2,
        num_hidden_layers: 2,
        intermediate_size: Some(24),
        vocab_size: 40,
        head_dim: None,
        rope_theta: None,
        rope_parameters: None,
        rms_norm_eps: 1e-6f64.to_bits(),
        attn_output_gate: default_true(),
        tie_word_embeddings: true,
        partial_rotary_factor: default_one(),
        layer_types: vec!["linear_attention".to_string(), "full_attention".to_string()],
        linear_num_key_heads: 2,
        linear_num_value_heads: 4,
        linear_key_head_dim: 4,
        linear_value_head_dim: 6,
        linear_conv_kernel_dim: default_conv_kernel(),
        num_experts: None,
        num_experts_per_tok: None,
        moe_intermediate_size: None,
        shared_expert_intermediate_size: None,
    }
}

fn qwen_model(cfg: &Qwen35TextConfig) -> qwen::Model {
    let mut l = Loader::new(DType::F32);
    let sources = vec![ExpertSource::Separate; cfg.num_hidden_layers];
    qwen::Model::new(&mut l, cfg, &VarPath::root(), 4, false, &sources).unwrap()
}

#[test]
fn qwen_defaults() {
    assert_eq!(f64::from_bits(default_one()), 1.0);
    assert_eq!(default_conv_kernel(), 4);
    assert!(default_true());
    let mut cfg = qwen_config();
    assert!(cfg.is_valid());
    assert_eq!(cfg.head_dim(), 4);
    assert_eq!(f64::from_bits(cfg.theta()), 1e7);
    assert_eq!(f64::from_bits(cfg.rotary_factor()), 1.0);
    assert_eq!((cfg.expert_count(), cfg.experts_per_tok()), (0, 8));
    assert!(cfg.is_linear(0) && !cfg.is_linear(1) && !cfg.is_linear(7));
    // the older setting, then the newer one
    cfg.rope_theta = Some(5e5f64.to_bits());
    assert_eq!(f64::from_bits(cfg.theta()), 5e5);
    cfg.rope_parameters = Some(RopeParameters {
        rope_theta: Some(1e6f64.to_bits()),
        partial_rotary_factor: Some(0.25f64.to_bits()),
    });
    assert_eq!(f64::from_bits(cfg.theta()), 1e6);
    assert_eq!(f64::from_bits(cfg.rotary_factor()), 0.25);
    cfg.rope_parameters =
        Some(RopeParameters { rope_theta: None, partial_rotary_factor: None });
    assert_eq!(f64::from_bits(cfg.theta()), 5e5);
    cfg.intermediate_size = None;
    assert!(!cfg.is_valid());
}

#[test]
fn qwen_static_steps_want_to_be_switched_on() {
    let mut m = qwen_model(&qwen_config());
    let mut t = Tape::new(Device::Cuda);
    let one = tokens(&mut t, 1);
    assert!(matches!(m.forward_static(&mut t, one), Err(Error::StaticNotEnabled)));
    assert_eq!(m.migrate_prefill_to_static(&mut t), Err(Error::StaticNotEnabled));
    m.enable_static_decode(&mut t, 8);
    assert!(m.static_enabled());
    t.finish();
    m.enable_static_decode(&mut t, 16);
    assert_eq!(t.finish().len(), 0);
}

#[test]
fn qwen_prefill_has_to_leave_room_for_a_step() {
    for (n, want) in [
        (7, Ok(7)),
        (8, Err(Error::PrefillTooLong { len: 8, max_seq: 8 })),
    ] {
        let mut m = qwen_model(&qwen_config());
        let mut t = Tape::new(Device::Cuda);
        m.enable_static_decode(&mut t, 8);
        let x = tokens(&mut t, n);
        m.forward(&mut t, x, 0).unwrap();
        assert_eq!(m.pos, n);
        assert_eq!(m.migrate_prefill_to_static(&mut t), want);
    }
    // more than the buffers hold is refused on the way
    let mut m = qwen_model(&qwen_config());
    let mut t = Tape::new(Device::Cuda);
    m.enable_static_decode(&mut t, 8);
    let x = tokens(&mut t, 9);
    m.forward(&mut t, x, 0).unwrap();
    assert_eq!(
        m.migrate_prefill_to_static(&mut t),
        Err(Error::ExceedsMaxSeq { pos: 0, len: 9, max_seq: 8 })
    );
}

#[test]
fn qwen_refuses_positions_that_its_tables_lack() {
    let mut cfg = qwen_config();
    cfg.layer_types = vec!["full_attention".to_string(); 2];
    let mut m = qwen_model(&cfg);
    let mut t = Tape::new(Device::Cuda);
    let x = tokens(&mut t, 32769);
    assert!(matches!(
        m.forward(&mut t, x, 0),
        Err(Error::BeyondTable { pos: 0, len: 32769, rows: 32768 })
    ));
}

#[test]
fn qwen_rewinding_wipes_the_recurrent_states() {
    let mut m = qwen_model(&qwen_config());
    let mut t = Tape::new(Device::Cuda);
    m.enable_static_decode(&mut t, 8);
    let one = tokens(&mut t, 1);
    m.forward_static(&mut t, one).unwrap();
    t.finish();
    assert_eq!(m.reset_static(&mut t), Ok(()));
    let program = t.finish();
    // the window and the state of the one linear layer
    let zeros = program.iter().filter(|i| matches!(i, Instr::Leaf(Op::Zeros { .. }))).count();
    assert_eq!(zeros, 2);
}

#[test]
fn qwen_stacked_experts_are_served_in_both_ways() {
    let mut cfg = qwen_config();
    cfg.hidden_size = 32;
    cfg.num_experts = Some(2);
    cfg.num_experts_per_tok = Some(1);
    cfg.moe_intermediate_size = Some(32);
    let quant = Some(tensor_tape::quant::GgmlDType::Q8_0);
    let mut lists = Vec::new();
    for parallel in [false, true] {
        let mut l = Loader::new(DType::F32);
        let sources = vec![ExpertSource::Packed { parallel }; 2];
        let root = VarPath::root();
        qwen::Model::new_with_quant(&mut l, &cfg, &root, quant, 4, false, &sources).unwrap();
        lists.push(l.finish());
    }
    let texts: Vec<Vec<String>> =
        lists.iter().map(|l| l.iter().map(|r| format!("{:?}", r)).collect()).collect();
    assert_eq!(texts[0], texts[1]);
    // a file that holds every quantized tensor leaves none of them to be read
    let names: Vec<String> =
        lists[0].iter().filter(|r| r.quant.is_some()).map(|r| r.key.clone()).collect();
    assert!(names.iter().any(|n| n.ends_with("mlp.experts.1.up_proj")));
    let full = QCache::open(Some(names.clone()));
    for l in &lists {
        let plan = serve_plan(l, &full);
        let left = reads(&plan);
        assert!(!left.is_empty());
        assert!(left.iter().all(|i| l[*i].quant.is_none()));
        assert!(!left.iter().any(|i| l[*i].path.ends_with("gate_up_proj")));
    }
    // without one of them, that one is read
    let short: Vec<String> =
        names.into_iter().filter(|n| !n.ends_with("layers.0.mlp.experts.1.up_proj")).collect();
    let plan = serve_plan(&lists[0], &QCache::open(Some(short)));
    let left: Vec<usize> =
        reads(&plan).into_iter().filter(|i| lists[0][*i].quant.is_some()).collect();
    assert_eq!(left.len(), 1);
    assert!(lists[0][left[0]].key.ends_with("layers.0.mlp.experts.1.up_proj"));
    // a cache without a file serves nothing
    assert!(serve_plan(&lists[0], &QCache::open(None)).iter().all(|p| !p));
    assert_eq!(reads(&vec![true, false, true, false]), vec![1, 3]);
}

#[test]
fn qwen_packed_experts_have_whole_rows() {
    let mut cfg = qwen_config();
    cfg.num_experts = Some(2);
    cfg.num_experts_per_tok = Some(1);
    cfg.moe_intermediate_size = Some(8);
    let mut l = Loader::new(DType::F32);
    let sources = vec![ExpertSource::Packed { parallel: false }; 2];
    let quant = Some(tensor_tape::quant::GgmlDType::Q8_0);
    let r = qwen::Model::new_with_quant(
        &mut l,
        &cfg,
        &VarPath::root(),
        quant,
        4,
        false,
        &sources,
    );
    assert!(matches!(r, Err(Error::NotBlockAligned)));
}

#[test]
fn heads_are_expanded_by_group() {
    let mut t = Tape::new(Device::Cpu);
    let x = input(&mut t, d2(3, 5), DType::F32);
    assert_eq!(expand_heads(&mut t, x, 1).unwrap().reg, x.reg);
    assert_eq!(expand_heads(&mut t, x, 4).unwrap().shape, d2(12, 5));
    let flat = input(&mut t, d1(5), DType::F32);
    assert!(matches!(
        expand_heads(&mut t, flat, 4),
        Err(Error::UnexpectedRank { expected: 2, got: 1 })
    ));
}

#[test]
fn a_slot_keeps_its_fixed_buffer() {
    let mut t = Tape::new(Device::Cuda);
    let mut s = Slot::new();
    assert!(s.buffer().is_none());
    assert_eq!(s.migrate(&mut t, d2(3, 4)), Err(Error::StaticNotEnabled));
    s.make_fixed(&mut t, d2(3, 4));
    let own = s.claim(&mut t, d2(3, 4));
    assert_eq!(s.migrate(&mut t, d2(3, 4)), Ok(()));
    let fixed = s.buffer().unwrap();
    assert_ne!(own.id, fixed.id);
    assert_eq!(s.claim(&mut t, d2(3, 4)).id, fixed.id);
}

// ---- whisper ----

fn whisper_model() -> Whisper {
    let config = WhisperConfig {
        num_mel_bins: 6,
        max_source_positions: 12,
        d_model: 8,
        encoder_attention_heads: 2,
        encoder_layers: 1,
        vocab_size: 20,
        max_target_positions: 10,
        decoder_attention_heads: 2,
        decoder_layers: 1,
    };
    assert!(config.is_valid());
    let mut l = Loader::new(DType::F32);
    Whisper::load(&mut l, &VarPath::root(), config)
}

#[test]
fn whisper_configurations_can_be_bad() {
    let mut c = whisper_model().config;
    c.decoder_attention_heads = 0;
    assert!(!c.is_valid());
    let mut c = whisper_model().config;
    c.max_target_positions = usize::MAX;
    assert!(!c.is_valid());
}

#[test]
fn whisper_steps_are_refused_until_prepared() {
    let mut m = whisper_model();
    let mut t = Tape::new(Device::Cuda);
    let one = tokens(&mut t, 1);
    let xa = input(&mut t, d3(1, 9, 8), DType::F32);
    assert!(matches!(m.decoder.forward_static(&mut t, one), Err(Error::StaticNotEnabled)));
    assert_eq!(m.decoder.prepare_cross_static(&mut t, xa), Err(Error::StaticNotEnabled));
    m.decoder.enable_static_decode(&mut t, 10, 8);
    assert!(m.decoder.static_enabled());
    assert!(matches!(m.decoder.forward_static(&mut t, one), Err(Error::CrossNotPrepared)));
    assert_eq!(
        m.decoder.prepare_cross_static(&mut t, xa),
        Err(Error::ExceedsCross { len: 9, capacity: 8 })
    );
    let xa = input(&mut t, d3(1, 8, 8), DType::F32);
    assert_eq!(m.decoder.prepare_cross_static(&mut t, xa), Ok(()));
    assert_eq!(m.decoder.reset_static(&mut t), Ok(()));
    assert!(m.decoder.forward_static(&mut t, one).is_ok());
}

#[test]
fn whisper_refuses_positions_that_its_tables_lack() {
    let mut m = whisper_model();
    let mut t = Tape::new(Device::Cpu);
    let xa = input(&mut t, d3(1, 10, 8), DType::F32);
    let x = tokens(&mut t, 11);
    assert!(matches!(
        m.decoder.forward(&mut t, x, xa, true),
        Err(Error::BeyondTable { pos: 0, len: 11, rows: 10 })
    ));
    let long = input(&mut t, d3(1, 6, 40), DType::F32);
    assert!(matches!(
        m.encoder.forward(&mut t, long, true),
        Err(Error::BeyondTable { pos: 0, len: 20, rows: 12 })
    ));
}

#[test]
fn whisper_encoder_halves_the_frames() {
    let mut m = whisper_model();
    let mut t = Tape::new(Device::Cpu);
    let x = input(&mut t, d3(1, 6, 20), DType::F32);
    let y = m.encoder.forward(&mut t, x, true).unwrap();
    assert_eq!(y.shape, d3(1, 10, 8));
}

// ---- unlimited ocr ----

#[test]
fn ocr_defaults() {
    assert_eq!(f64::from_bits(default_rope_theta()), 10000.0);
    assert_eq!(f64::from_bits(default_eps()), 1e-6);
    assert_eq!(default_max_pos(), 32768);
}

#[test]
fn ocr_layers_are_dense_at_first() {
    let cfg = UnlimitedOcrTextConfig {
        hidden_size: 16,
        intermediate_size: 24,
        moe_intermediate_size: 8,
        num_hidden_layers: 3,
        num_attention_heads: 2,
        num_key_value_heads: 2,
        v_head_dim: 8,
        vocab_size: 40,
        n_routed_experts: 4,
        n_shared_experts: 2,
        num_experts_per_tok: 2,
        first_k_dense_replace: 1,
        sliding_window_size: None,
        rope_theta: default_rope_theta(),
        rms_norm_eps: default_eps(),
        max_position_embeddings: 64,
    };
    assert_eq!(cfg.head_dim(), 8);
    let mut l = Loader::new(DType::F32);
    let mut m = ocr::TextModel::new(&mut l, &cfg, &VarPath::root());
    let routed: Vec<bool> =
        m.layers.iter().map(|x| matches!(x.ffn, ocr::FeedForward::Moe(_))).collect();
    assert_eq!(routed, vec![false, true, true]);
    // scores for fewer tokens or experts than there are do not fit
    let mut t = Tape::new(Device::Cpu);
    let x = tokens(&mut t, 2);
    match m.forward(&mut t, x, 0).unwrap() {
        ocr::Progress::Route(pass) => {
            let rows = vec![vec![0u32; 1], vec![0u32; 1]];
            assert!(matches!(m.resume(&mut t, pass, &rows), Err(Error::ShapeMismatch)));
        }
        ocr::Progress::Done { .. } => panic!("there are routed layers"),
    }
    // the tables end at position 64
    let before = m.caches[0].filled;
    assert!(matches!(
        m.forward(&mut t, x, 63),
        Err(Error::BeyondTable { pos: 63, len: 2, rows: 64 })
    ));
    assert_eq!(m.caches[0].filled, before);
}

fn encoder() -> DeepEncoder {
    let mut l = Loader::new(DType::F32);
    DeepEncoder::new(&mut l, &VarPath::root())
}

#[test]
fn a_view_has_a_row_break_per_row_and_a_separator() {
    let e = encoder();
    let mut t = Tape::new(Device::Cpu);
    let img = input(&mut t, d4(1, 3, 1024, 1024), DType::F32);
    let y = e.forward(&mut t, img).unwrap();
    assert_eq!(y.shape, d2(16 * 17 + 1, 1280));
    let s = e.forward_staged(&mut t, img).unwrap();
    assert_eq!(s.sam.shape, d4(1, 1024, 16, 16));
    assert_eq!(s.clip.shape, d3(1, 257, 1024));
    assert_eq!(s.embeds.shape, d2(273, 1280));
    assert_eq!(e.clip_only(&mut t, s.sam).unwrap().shape, d3(1, 257, 1024));
}

#[test]
fn crops_come_before_the_view() {
    let e = encoder();
    let mut t = Tape::new(Device::Cpu);
    let img = input(&mut t, d4(1, 3, 1024, 1024), DType::F32);
    let crops = input(&mut t, d4(6, 3, 640, 640), DType::F32);
    // two rows of three tiles, ten by ten each, and a row break per row
    let y = e.forward_crops(&mut t, img, crops, 3, 2).unwrap();
    assert_eq!(y.shape, d2(20 * 31 + 272 + 1, 1280));
    // crops, then cells of a row: the axes between them are exchanged
    let exchange = Op::Permute5 { p0: 0, p1: 2, p2: 1, p3: 3, p4: 4 };
    let mut other = Tape::new(Device::Cpu);
    let img2 = input(&mut other, d4(1, 3, 1024, 1024), DType::F32);
    let crops2 = input(&mut other, d4(6, 3, 640, 640), DType::F32);
    e.forward_crops(&mut other, img2, crops2, 3, 2).unwrap();
    let program = other.finish();
    let at = program.iter().position(|i| matches!(i, Instr::Un(op, _) if *op == exchange));
    // the mosaic, the view, the separator
    let n = program.len();
    assert!(at.unwrap() < n - 2);
    assert!(matches!(program[n - 1], Instr::Bin(Op::Cat(0), a, _) if a == n - 2));
    assert!(matches!(program[n - 2], Instr::Bin(Op::Cat(0), _, _)));
    let none = input(&mut t, d4(0, 3, 640, 640), DType::F32);
    assert!(matches!(
        e.forward_crops(&mut t, img, none, 3, 2),
        Err(Error::NothingToJoin)
    ));
}

#[test]
fn positions_are_resampled_only_when_they_differ() {
    let mut t = Tape::new(Device::Cpu);
    let pos = input(&mut t, d3(1, 257, 4), DType::F16);
    let same = interp_pos_with_cls(&mut t, pos, 16).unwrap();
    assert_eq!(same.reg, pos.reg);
    let small = interp_pos_with_cls(&mut t, pos, 10).unwrap();
    assert_eq!(small.shape, d3(1, 101, 4));
    assert_eq!(small.dtype, DType::F16);
    let odd = input(&mut t, d3(1, 256, 4), DType::F16);
    assert!(matches!(
        interp_pos_with_cls(&mut t, odd, 10),
        Err(Error::UnexpectedPositions)
    ));
    let two = input(&mut t, d3(2, 257, 4), DType::F16);
    assert!(matches!(
        interp_pos_with_cls(&mut t, two, 10),
        Err(Error::UnexpectedPositions)
    ));
}

#[test]
fn roots_are_rounded_down() {
    let roots: Vec<usize> = [0, 1, 3, 4, 8, 9, 256].iter().map(|n| isqrt(*n)).collect();
    assert_eq!(roots, vec![0, 1, 1, 2, 2, 3, 16]);
    assert_eq!(isqrt(usize::MAX), 4294967295);
}

#[test]
fn quick_gelu_is_a_logistic_of_a_multiple() {
    let mut t = Tape::new(Device::Cpu);
    let x = input(&mut t, d1(4), DType::F32);
    quick_gelu(&mut t, x);
    let program = t.finish();
    assert!(matches!(program[1], Instr::Un(Op::MulScalar(_), 0)));
    assert!(matches!(program[2], Instr::Un(Op::Sigmoid, 1)));
    assert!(matches!(program[3], Instr::Bin(Op::Mul, 0, 2)));
}

// ---- block formats ----

fn quantized_gemma(cfg: &Gemma4TextConfig, device: Device) -> Vec<Request> {
    let mut l = Loader::new(DType::F32);
    let scalars = vec![None; cfg.num_hidden_layers];
    let quant = Some(GgmlDType::Q4K);
    gemma::TextModel::new_with_quant(&mut l, cfg, &VarPath::root(), quant, device, None, &scalars);
    l.finish()
}

#[test]
fn experts_fall_back_to_smaller_blocks_on_every_device() {
    let mut cfg = gemma_config();
    cfg.hidden_size = 256;
    cfg.enable_moe_block = true;
    cfg.num_experts = 2;
    cfg.top_k_experts = 1;
    cfg.moe_intermediate_size = 32;
    for (device, count) in [(Device::Cpu, 8), (Device::Cuda, 4)] {
        let list = quantized_gemma(&cfg, device);
        let of = |name: &str| -> Vec<Option<GgmlDType>> {
            list.iter()
                .filter(|r| r.path.contains("experts") && r.path.contains(name))
                .map(|r| r.quant)
                .collect()
        };
        assert_eq!(of("gate_up_proj"), vec![Some(GgmlDType::Q4K); count]);
        assert_eq!(of("down_proj"), vec![Some(GgmlDType::Q8_0); count]);
    }
}

#[test]
fn a_tied_head_falls_back_to_smaller_blocks() {
    for (hidden, want) in [(256, GgmlDType::Q4K), (32, GgmlDType::Q8_0)] {
        let mut cfg = gemma_config();
        cfg.hidden_size = hidden;
        let list = quantized_gemma(&cfg, Device::Cpu);
        let head = list.iter().find(|r| r.key == "lm_head.tied").unwrap();
        assert_eq!(head.quant, Some(want));
    }
}

// ---- one sequence at a time ----

#[test]
fn whisper_prepares_one_segment_at_a_time() {
    let mut m = whisper_model();
    let mut t = Tape::new(Device::Cuda);
    m.decoder.enable_static_decode(&mut t, 10, 8);
    let two = input(&mut t, d3(2, 8, 8), DType::F32);
    assert_eq!(m.decoder.prepare_cross_static(&mut t, two), Err(Error::ShapeMismatch));
}

#[test]
fn qwen_moves_one_sequence_at_a_time() {
    let mut cfg = qwen_config();
    cfg.layer_types = vec!["full_attention".to_string(); 2];
    let mut m = qwen_model(&cfg);
    let mut t = Tape::new(Device::Cuda);
    m.enable_static_decode(&mut t, 8);
    let x = input(&mut t, d2(2, 3), DType::U32);
    m.forward(&mut t, x, 0).unwrap();
    assert_eq!(m.migrate_prefill_to_static(&mut t), Err(Error::ShapeMismatch));
}

// ---- vision ----

#[test]
fn the_class_row_is_kept_when_positions_are_resampled() {
    let mut t = Tape::new(Device::Cpu);
    let pos = input(&mut t, d3(1, 257, 4), DType::F16);
    interp_pos_with_cls(&mut t, pos, 10).unwrap();
    let program = t.finish();
    let class = program.iter().position(|i| {
        matches!(i, Instr::Un(Op::Narrow { dim: 1, start: 0, len: 1 }, _))
    });
    let cells = program.iter().position(|i| {
        matches!(i, Instr::Un(Op::Narrow { dim: 1, start: 1, len: 256 }, _))
    });
    let (class, cells) = (class.unwrap(), cells.unwrap());
    assert!(class < cells);
    assert!(matches!(
        program[cells + 1],
        Instr::Un(Op::InterpolatePositions { grid: 10 }, _)
    ));
    assert!(matches!(program[cells + 2], Instr::Bin(Op::Cat(1), _, _)));
}

#[test]
fn every_third_block_attends_globally() {
    assert_eq!(sam_config().global_blocks(), vec![2, 5, 8, 11]);
}
