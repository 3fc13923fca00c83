//! Where the weights of the models stand in a checkpoint.
//!
//! Every weight is read from its own place, however the parts of a model ask for it:
//! under the name of its model, its layer, its part and its role.
use vstd::prelude::*;

use crate::dtype::Device;
use crate::gemma4::config::Gemma4TextConfig;
use crate::gemma4::moe::ExpertWeights;
use crate::layer_norm::LayerNorm;
use crate::loader::{decimal, pp, Loader, Proj, Recipe};
use crate::quant::GgmlDType;
use crate::qwen3_5::config::Qwen35TextConfig;
use crate::qwen3_5::ffn::{ExpertSource, Ffn};
use crate::qwen3_5::layer::Mixer;
use crate::tape::{bin, un, Val, Weight};
use crate::unlimited_ocr::config::UnlimitedOcrTextConfig;
use crate::unlimited_ocr::text::FeedForward;
use crate::whisper::config::Config;

verus! {

/// `w` is read from the place `path` and changed by `recipe` on the way.
pub open spec fn read_from(l: Loader, w: Weight, path: Seq<char>, recipe: Recipe) -> bool {
    &&& w.id < l.list().len()
    &&& l.list()[w.id as int].weight == w
    &&& l.list()[w.id as int].path@ == path
    &&& l.list()[w.id as int].recipe == recipe
}

/// A projection reads its weight from `weight` under its name, and its bias, if it has
/// one, from `bias`.
pub open spec fn proj_from(l: Loader, p: Proj, vb: Seq<char>) -> bool {
    let (weight, bias) = match p {
        Proj::Plain { weight, bias } => (weight, bias),
        Proj::Quant { weight, bias } => (weight, bias),
    };
    &&& read_from(l, weight, pp(vb, "weight"@), Recipe::AsStored)
    &&& bias matches Some(b) ==> read_from(
        l,
        b,
        pp(vb, "bias"@),
        if p is Quant {
            Recipe::Converted
        } else {
            Recipe::AsStored
        },
    )
}

/// A layer norm reads its weight and its bias.
pub open spec fn norm_from(l: Loader, n: LayerNorm, vb: Seq<char>) -> bool {
    &&& read_from(l, n.weight, pp(vb, "weight"@), Recipe::AsStored)
    &&& read_from(l, n.bias, pp(vb, "bias"@), Recipe::AsStored)
}

/// A projection that was asked for from `ins` to `outs` makes rows of `outs` numbers.
pub proof fn law_projection_is_as_wide_as_asked(
    l: Loader,
    p: Proj,
    ins: usize,
    outs: usize,
    bias: bool,
    vb: Seq<char>,
    quant: Option<GgmlDType>,
    x: Val,
    i: usize,
)
    requires
        p.asked(l, ins, outs, bias, vb, quant),
        1 <= x.shape.rank <= 5,
    ensures
        p.apply(x).shape.last() == outs,
        p.apply(x).shape.rank == x.shape.rank,
        i != x.shape.rank - 1 ==> p.apply(x).shape.get(i) == x.shape.get(i),
        proj_from(l, p, vb),
{
    reveal(un);
    reveal(bin);
}

/// The weights of an attention of Whisper.
proof fn lemma_whisper_attention(
    l: Loader,
    a: crate::whisper::attention::MultiHeadAttention,
    n_state: usize,
    n_head: usize,
    vb: Seq<char>,
)
    requires
        a.asked(l, n_state, n_head, vb),
    ensures
        proj_from(l, a.query, pp(vb, "q_proj"@)) && a.query.bias_spec() is Some,
        proj_from(l, a.key, pp(vb, "k_proj"@)) && a.key.bias_spec() is None,
        proj_from(l, a.value, pp(vb, "v_proj"@)) && a.value.bias_spec() is Some,
        proj_from(l, a.out, pp(vb, "out_proj"@)) && a.out.bias_spec() is Some,
{
}

/// A block of Whisper reads its weights under the name of its layer: `self_attn`,
/// `encoder_attn` where it attends to the encoder, `fc1` and `fc2`, and the norm before
/// each. Keys have no bias.
pub proof fn law_whisper_block_names(
    l: Loader,
    b: crate::whisper::block::ResidualAttentionBlock,
    n_state: usize,
    n_head: usize,
    ca: bool,
    vb: Seq<char>,
)
    requires
        b.asked(l, n_state, n_head, ca, vb),
    ensures
        ({
            let (own, other) = (pp(vb, "self_attn"@), pp(vb, "encoder_attn"@));
            &&& proj_from(l, b.attn.query, pp(own, "q_proj"@))
            &&& proj_from(l, b.attn.key, pp(own, "k_proj"@)) && b.attn.key.bias_spec() is None
            &&& proj_from(l, b.attn.value, pp(own, "v_proj"@))
            &&& proj_from(l, b.attn.out, pp(own, "out_proj"@))
            &&& norm_from(l, b.attn_ln, pp(vb, "self_attn_layer_norm"@))
            &&& b.cross_attn is Some <==> ca
            &&& b.cross_attn matches Some(c) ==> {
                &&& proj_from(l, c.attn.query, pp(other, "q_proj"@))
                &&& proj_from(l, c.attn.key, pp(other, "k_proj"@))
                &&& c.attn.key.bias_spec() is None
                &&& proj_from(l, c.attn.value, pp(other, "v_proj"@))
                &&& proj_from(l, c.attn.out, pp(other, "out_proj"@))
                &&& norm_from(l, c.ln, pp(vb, "encoder_attn_layer_norm"@))
            }
            &&& proj_from(l, b.mlp_linear1, pp(vb, "fc1"@))
            &&& proj_from(l, b.mlp_linear2, pp(vb, "fc2"@))
            &&& norm_from(l, b.mlp_ln, pp(vb, "final_layer_norm"@))
        }),
{
    lemma_whisper_attention(l, b.attn, n_state, n_head, pp(vb, "self_attn"@));
    if let Some(c) = b.cross_attn {
        lemma_whisper_attention(l, c.attn, n_state, n_head, pp(vb, "encoder_attn"@));
    }
}

/// Encoder and decoder of Whisper read their tables, convolutions and last norms, and
/// block `i` its weights under `layers` and `i`. The encoder's positions are sines and
/// cosines; the decoder's are read.
pub proof fn law_whisper_names(
    l: Loader,
    e: crate::whisper::model::AudioEncoder,
    d: crate::whisper::model::TextDecoder,
    cfg: Config,
    ve: Seq<char>,
    vd: Seq<char>,
    i: int,
)
    requires
        e.asked(l, cfg, ve),
        d.asked(l, cfg, vd),
    ensures
        read_from(l, e.conv1.weight, pp(pp(ve, "conv1"@), "weight"@), Recipe::AsStored),
        read_from(l, e.conv1.bias, pp(pp(ve, "conv1"@), "bias"@), Recipe::AsStored),
        read_from(l, e.conv2.weight, pp(pp(ve, "conv2"@), "weight"@), Recipe::AsStored),
        read_from(l, e.conv2.bias, pp(pp(ve, "conv2"@), "bias"@), Recipe::AsStored),
        (e.conv1.padding, e.conv1.stride) == (1usize, 1usize),
        (e.conv2.padding, e.conv2.stride) == (1usize, 2usize),
        e.conv1.weight.shape.d2 == 3 && e.conv2.weight.shape.d2 == 3,
        read_from(l, e.positional_embedding, "sinusoids"@, Recipe::Sinusoids),
        norm_from(l, e.ln_post, pp(ve, "layer_norm"@)),
        e.stack.blocks.len() == cfg.encoder_layers && d.stack.blocks.len() == cfg.decoder_layers,
        0 <= i < e.stack.blocks.len() ==> ({
            let b = e.stack.blocks[i];
            let vb = pp(pp(ve, "layers"@), decimal(i as nat));
            &&& proj_from(l, b.attn.query, pp(pp(vb, "self_attn"@), "q_proj"@))
            &&& proj_from(l, b.mlp_linear1, pp(vb, "fc1"@)) && b.cross_attn is None
        }),
        read_from(
            l,
            d.token_embedding,
            pp(pp(vd, "embed_tokens"@), "weight"@),
            Recipe::AsStored,
        ),
        read_from(
            l,
            d.positional_embedding,
            pp(vd, "embed_positions.weight"@),
            Recipe::AsStored,
        ),
        norm_from(l, d.ln, pp(vd, "layer_norm"@)),
        0 <= i < d.stack.blocks.len() ==> ({
            let b = d.stack.blocks[i];
            let vb = pp(pp(vd, "layers"@), decimal(i as nat));
            &&& proj_from(l, b.attn.query, pp(pp(vb, "self_attn"@), "q_proj"@))
            &&& b.cross_attn matches Some(c)
            &&& proj_from(l, c.attn.query, pp(pp(vb, "encoder_attn"@), "q_proj"@))
            &&& proj_from(l, b.mlp_linear1, pp(vb, "fc1"@))
        }),
{
    let n = cfg.d_model;
    if 0 <= i < e.stack.blocks.len() {
        let vb = pp(pp(ve, "layers"@), decimal(i as nat));
        let b = e.stack.blocks[i];
        law_whisper_block_names(l, b, n, cfg.encoder_attention_heads, false, vb);
    }
    if 0 <= i < d.stack.blocks.len() {
        let vb = pp(pp(vd, "layers"@), decimal(i as nat));
        let b = d.stack.blocks[i];
        law_whisper_block_names(l, b, n, cfg.decoder_attention_heads, true, vb);
    }
}

/// A layer of Gemma reads its weights under its name.
pub proof fn law_gemma_layer_names(
    l: Loader,
    d: crate::gemma4::layer::DecoderLayer,
    cfg: Gemma4TextConfig,
    layer: int,
    vb: Seq<char>,
    quant: Option<GgmlDType>,
    device: Device,
)
    requires
        d.asked(l, cfg, layer, vb, quant, device),
    ensures
        ({
            let (a, attn, mlp) = (d.self_attn, pp(vb, "self_attn"@), pp(vb, "mlp"@));
            let stored = |w: Weight, name: Seq<char>|
                read_from(l, w, pp(pp(vb, name), "weight"@), Recipe::AsStored);
            &&& proj_from(l, a.q_proj, pp(attn, "q_proj"@))
            &&& a.k_proj matches Some(p) ==> proj_from(l, p, pp(attn, "k_proj"@))
            &&& a.v_proj matches Some(p) ==> proj_from(l, p, pp(attn, "v_proj"@))
            &&& proj_from(l, a.o_proj, pp(attn, "o_proj"@))
            &&& read_from(
                l,
                a.q_norm.weight,
                pp(pp(attn, "q_norm"@), "weight"@),
                Recipe::AsStored,
            )
            &&& a.k_norm matches Some(n) ==> read_from(
                l,
                n.weight,
                pp(pp(attn, "k_norm"@), "weight"@),
                Recipe::AsStored,
            )
            &&& proj_from(l, d.mlp.gate_proj, pp(mlp, "gate_proj"@))
            &&& proj_from(l, d.mlp.up_proj, pp(mlp, "up_proj"@))
            &&& proj_from(l, d.mlp.down_proj, pp(mlp, "down_proj"@))
            &&& stored(d.input_layernorm.weight, "input_layernorm"@)
            &&& stored(d.post_attention_layernorm.weight, "post_attention_layernorm"@)
            &&& stored(d.pre_feedforward_layernorm.weight, "pre_feedforward_layernorm"@)
            &&& stored(d.post_feedforward_layernorm.weight, "post_feedforward_layernorm"@)
            &&& d.per_layer matches Some(p) ==> {
                &&& proj_from(l, p.gate, pp(vb, "per_layer_input_gate"@))
                &&& proj_from(l, p.projection, pp(vb, "per_layer_projection"@))
                &&& stored(p.norm.weight, "post_per_layer_input_norm"@)
            }
            &&& d.moe matches Some(f) ==> {
                let (router, experts) = (pp(vb, "router"@), pp(vb, "experts"@));
                let (gu, dn) = (pp(experts, "gate_up_proj"@), pp(experts, "down_proj"@));
                &&& proj_from(l, f.router.proj, pp(router, "proj"@))
                &&& read_from(l, f.router.scale, pp(router, "scale"@), Recipe::AsStored)
                &&& read_from(
                    l,
                    f.router.per_expert_scale,
                    pp(router, "per_expert_scale"@),
                    Recipe::Converted,
                )
                &&& stored(f.post_feedforward_layernorm_1.weight, "post_feedforward_layernorm_1"@)
                &&& stored(f.pre_feedforward_layernorm_2.weight, "pre_feedforward_layernorm_2"@)
                &&& stored(f.post_feedforward_layernorm_2.weight, "post_feedforward_layernorm_2"@)
                &&& match f.experts.weights {
                    ExpertWeights::Plain { gate_up_t, down_t } => {
                        &&& read_from(l, gate_up_t, gu, Recipe::Transposed)
                        &&& read_from(l, down_t, dn, Recipe::Transposed)
                    },
                    ExpertWeights::QuantFused { gate_up, down } => {
                        &&& read_from(l, gate_up, gu, Recipe::AsStored)
                        &&& read_from(l, down, dn, Recipe::AsStored)
                    },
                    ExpertWeights::Quant { gate_ups, downs } => forall|j: int|
                        0 <= j < cfg.num_experts ==> ({
                            let slice = Recipe::Slice { row: j as usize, index: 0, parts: 1 };
                            &&& read_from(l, #[trigger] gate_ups[j], gu, slice)
                            &&& read_from(l, downs[j], dn, slice)
                        }),
                }
            }
        }),
{
    if let Some(f) = d.moe {
        if let ExpertWeights::Quant { gate_ups, downs } = f.experts.weights {
            assert forall|j: int| 0 <= j < cfg.num_experts implies ({
                let slice = Recipe::Slice { row: j as usize, index: 0, parts: 1 };
                let experts = pp(vb, "experts"@);
                &&& read_from(l, #[trigger] gate_ups[j], pp(experts, "gate_up_proj"@), slice)
                &&& read_from(l, downs[j], pp(experts, "down_proj"@), slice)
            }) by {
                assert(gate_ups[j] == gate_ups[j] && downs[j] == downs[j]);
            }
        }
    }
}

/// A model of Gemma reads its tables and its last norm under `model`, and the head under
/// `lm_head`, or as the embeddings where they are tied.
pub proof fn law_gemma_names(
    l: Loader,
    t: crate::gemma4::model::TextModel,
    cfg: Gemma4TextConfig,
    vb: Seq<char>,
    quant: Option<GgmlDType>,
    device: Device,
    i: int,
)
    requires
        t.asked(l, cfg, vb, quant, device),
    ensures
        ({
            let m = pp(vb, "model"@);
            &&& read_from(l, t.embed, pp(pp(m, "embed_tokens"@), "weight"@), Recipe::AsStored)
            &&& read_from(l, t.norm.weight, pp(pp(m, "norm"@), "weight"@), Recipe::AsStored)
            &&& if !cfg.tie_word_embeddings {
                proj_from(l, t.lm_head, pp(vb, "lm_head"@))
            } else if quant is None {
                t.lm_head == (Proj::Plain { weight: t.embed, bias: None })
            } else {
                &&& t.lm_head matches Proj::Quant { weight, bias: None }
                &&& read_from(
                    l,
                    weight,
                    pp(pp(m, "embed_tokens"@), "weight"@),
                    Recipe::CopyOf(t.embed.id),
                )
            }
            &&& t.per_layer matches Some(e) ==> {
                &&& read_from(
                    l,
                    e.embed,
                    pp(pp(m, "embed_tokens_per_layer"@), "weight"@),
                    Recipe::AsStored,
                )
                &&& proj_from(l, e.proj, pp(m, "per_layer_model_projection"@))
                &&& read_from(
                    l,
                    e.norm.weight,
                    pp(pp(m, "per_layer_projection_norm"@), "weight"@),
                    Recipe::AsStored,
                )
            }
            &&& 0 <= i < t.layers.len() ==> ({
                let name = pp(pp(m, "layers"@), decimal(i as nat));
                let a = t.layers[i].self_attn;
                &&& proj_from(l, a.q_proj, pp(pp(name, "self_attn"@), "q_proj"@))
                &&& proj_from(l, t.layers[i].mlp.up_proj, pp(pp(name, "mlp"@), "up_proj"@))
            })
        }),
{
    if 0 <= i < t.layers.len() {
        let name = pp(pp(pp(vb, "model"@), "layers"@), decimal(i as nat));
        law_gemma_layer_names(l, t.layers[i], cfg, i, name, quant, device);
    }
}

/// A layer of Qwen reads its weights under its name; norms get one added, the rates of a
/// delta net are negated exponentials.
pub proof fn law_qwen_layer_names(
    l: Loader,
    d: crate::qwen3_5::layer::DecoderLayer,
    cfg: Qwen35TextConfig,
    layer: int,
    vb: Seq<char>,
    quant: Option<GgmlDType>,
    source: ExpertSource,
)
    requires
        d.asked(l, cfg, layer, vb, quant, source),
    ensures
        ({
            let plus_one = |w: Weight, vb: Seq<char>, name: Seq<char>|
                read_from(l, w, pp(pp(vb, name), "weight"@), Recipe::PlusOne);
            &&& plus_one(d.input_layernorm.weight, vb, "input_layernorm"@)
            &&& plus_one(d.post_attention_layernorm.weight, vb, "post_attention_layernorm"@)
            &&& match d.mixer {
                Mixer::Full(a) => {
                    let attn = pp(vb, "self_attn"@);
                    &&& !cfg.linear(layer)
                    &&& proj_from(l, a.q_proj, pp(attn, "q_proj"@))
                    &&& proj_from(l, a.k_proj, pp(attn, "k_proj"@))
                    &&& proj_from(l, a.v_proj, pp(attn, "v_proj"@))
                    &&& proj_from(l, a.o_proj, pp(attn, "o_proj"@))
                    &&& plus_one(a.q_norm.weight, attn, "q_norm"@)
                    &&& plus_one(a.k_norm.weight, attn, "k_norm"@)
                },
                Mixer::Linear(g) => {
                    let attn = pp(vb, "linear_attn"@);
                    &&& cfg.linear(layer)
                    &&& proj_from(l, g.in_proj_qkv, pp(attn, "in_proj_qkv"@))
                    &&& proj_from(l, g.in_proj_z, pp(attn, "in_proj_z"@))
                    &&& proj_from(l, g.in_proj_b, pp(attn, "in_proj_b"@))
                    &&& proj_from(l, g.in_proj_a, pp(attn, "in_proj_a"@))
                    &&& proj_from(l, g.out_proj, pp(attn, "out_proj"@))
                    &&& read_from(
                        l,
                        g.conv1d_weight,
                        pp(pp(attn, "conv1d"@), "weight"@),
                        Recipe::Squeezed,
                    )
                    &&& read_from(l, g.neg_a, pp(attn, "A_log"@), Recipe::NegExp)
                    &&& read_from(l, g.dt_bias, pp(attn, "dt_bias"@), Recipe::Converted)
                    &&& read_from(
                        l,
                        g.norm_weight,
                        pp(pp(attn, "norm"@), "weight"@),
                        Recipe::Converted,
                    )
                },
            }
            &&& match d.ffn {
                Ffn::Dense(f) => {
                    let mlp = pp(vb, "mlp"@);
                    &&& proj_from(l, f.gate_proj, pp(mlp, "gate_proj"@))
                    &&& proj_from(l, f.up_proj, pp(mlp, "up_proj"@))
                    &&& proj_from(l, f.down_proj, pp(mlp, "down_proj"@))
                },
                Ffn::Moe(f) => {
                    let mlp = pp(vb, "mlp"@);
                    &&& proj_from(l, f.gate, pp(mlp, "gate"@))
                    &&& f.shared matches Some(s) ==> {
                        let own = pp(mlp, "shared_expert"@);
                        &&& proj_from(l, s.mlp.gate_proj, pp(own, "gate_proj"@))
                        &&& proj_from(l, s.mlp.up_proj, pp(own, "up_proj"@))
                        &&& proj_from(l, s.mlp.down_proj, pp(own, "down_proj"@))
                        &&& proj_from(l, s.gate, pp(mlp, "shared_expert_gate"@))
                    }
                },
            }
        }),
{
    reveal(Mixer::asked);
    reveal(crate::qwen3_5::layer::DecoderLayer::ffn_asked);
}

/// Expert `i` of Qwen reads its own weights, whether experts are stored one by one or
/// stacked: gate and up are the halves of one tensor then.
pub proof fn law_qwen_expert_names(
    l: Loader,
    f: crate::qwen3_5::ffn::SparseMoe,
    cfg: Qwen35TextConfig,
    vb: Seq<char>,
    quant: Option<GgmlDType>,
    source: ExpertSource,
    i: int,
)
    requires
        f.asked(l, cfg, vb, quant, source),
        0 <= i < f.experts.len(),
    ensures
        ({
            let e = f.experts[i];
            let all = pp(vb, "experts"@);
            let own = pp(all, decimal(i as nat));
            match source {
                ExpertSource::Separate => {
                    &&& proj_from(l, e.gate_proj, pp(own, "gate_proj"@))
                    &&& proj_from(l, e.up_proj, pp(own, "up_proj"@))
                    &&& proj_from(l, e.down_proj, pp(own, "down_proj"@))
                },
                ExpertSource::Packed { parallel } => {
                    let gu = pp(all, "gate_up_proj"@);
                    let row = i as usize;
                    &&& read_from(
                        l,
                        e.gate_proj.weight_spec(),
                        gu,
                        Recipe::Slice { row, index: 0, parts: 2 },
                    )
                    &&& read_from(
                        l,
                        e.up_proj.weight_spec(),
                        gu,
                        Recipe::Slice { row, index: 1, parts: 2 },
                    )
                    &&& read_from(
                        l,
                        e.down_proj.weight_spec(),
                        pp(all, "down_proj"@),
                        Recipe::Slice { row, index: 0, parts: 1 },
                    )
                },
            }
        }),
{
    assert(crate::qwen3_5::ffn::SparseMoe::expert_asked(
        f.experts[i],
        l,
        cfg,
        i,
        vb,
        quant,
        source,
    ));
}

/// A model of Qwen reads its embeddings, layers and last norm under `model`, one level
/// deeper in multimodal checkpoints, and the head beside it or as the embeddings.
pub proof fn law_qwen_names(
    l: Loader,
    t: crate::qwen3_5::model::Model,
    cfg: Qwen35TextConfig,
    vb: Seq<char>,
    quant: Option<GgmlDType>,
    rot: usize,
    language_model: bool,
    sources: Seq<ExpertSource>,
    i: int,
)
    requires
        t.asked(l, cfg, vb, quant, rot, language_model, sources),
    ensures
        ({
            let outer = pp(vb, "model"@);
            let m = if language_model {
                pp(outer, "language_model"@)
            } else {
                outer
            };
            &&& read_from(
                l,
                t.embed_tokens,
                pp(pp(m, "embed_tokens"@), "weight"@),
                Recipe::AsStored,
            )
            &&& read_from(l, t.norm.weight, pp(pp(m, "norm"@), "weight"@), Recipe::PlusOne)
            &&& if !cfg.tie_word_embeddings {
                proj_from(l, t.lm_head, pp(vb, "lm_head"@))
            } else if quant is None {
                t.lm_head == (Proj::Plain { weight: t.embed_tokens, bias: None })
            } else {
                &&& t.lm_head matches Proj::Quant { weight, bias: None }
                &&& read_from(
                    l,
                    weight,
                    pp(pp(m, "embed_tokens"@), "weight"@),
                    Recipe::CopyOf(t.embed_tokens.id),
                )
            }
            &&& 0 <= i < t.layers.len() ==> ({
                let name = pp(pp(m, "layers"@), decimal(i as nat));
                read_from(
                    l,
                    t.layers[i].input_layernorm.weight,
                    pp(pp(name, "input_layernorm"@), "weight"@),
                    Recipe::PlusOne,
                )
            })
        }),
{
    if 0 <= i < t.layers.len() {
        assert(t.layers[i].asked(
            l,
            cfg,
            i,
            pp(
                pp(crate::qwen3_5::model::Model::root(vb, language_model), "layers"@),
                decimal(i as nat),
            ),
            quant,
            sources[i],
        ));
    }
}

/// A layer of the decoder that reads pages reads its weights under its name; routing
/// weights are kept in single precision.
pub proof fn law_page_decoder_layer_names(
    l: Loader,
    d: crate::unlimited_ocr::text::DecoderLayer,
    cfg: UnlimitedOcrTextConfig,
    layer: int,
    vb: Seq<char>,
    i: int,
)
    requires
        d.asked(l, cfg, layer, vb),
    ensures
        ({
            let (a, attn, mlp) = (d.self_attn, pp(vb, "self_attn"@), pp(vb, "mlp"@));
            &&& proj_from(l, a.q_proj, pp(attn, "q_proj"@))
            &&& proj_from(l, a.k_proj, pp(attn, "k_proj"@))
            &&& proj_from(l, a.v_proj, pp(attn, "v_proj"@))
            &&& proj_from(l, a.o_proj, pp(attn, "o_proj"@))
            &&& read_from(
                l,
                d.input_layernorm.weight,
                pp(pp(vb, "input_layernorm"@), "weight"@),
                Recipe::AsStored,
            )
            &&& read_from(
                l,
                d.post_attention_layernorm.weight,
                pp(pp(vb, "post_attention_layernorm"@), "weight"@),
                Recipe::AsStored,
            )
            &&& match d.ffn {
                FeedForward::Dense(f) => {
                    &&& proj_from(l, f.gate_proj, pp(mlp, "gate_proj"@))
                    &&& proj_from(l, f.up_proj, pp(mlp, "up_proj"@))
                    &&& proj_from(l, f.down_proj, pp(mlp, "down_proj"@))
                },
                FeedForward::Moe(f) => {
                    let (own, each) = (pp(mlp, "shared_experts"@), pp(mlp, "experts"@));
                    &&& read_from(
                        l,
                        f.gate_w,
                        pp(pp(mlp, "gate"@), "weight"@),
                        Recipe::Converted,
                    )
                    &&& proj_from(l, f.shared.gate_proj, pp(own, "gate_proj"@))
                    &&& proj_from(l, f.shared.up_proj, pp(own, "up_proj"@))
                    &&& proj_from(l, f.shared.down_proj, pp(own, "down_proj"@))
                    &&& 0 <= i < f.experts.len() ==> ({
                        let (e, name) = (f.experts[i], pp(each, decimal(i as nat)));
                        &&& proj_from(l, e.gate_proj, pp(name, "gate_proj"@))
                        &&& proj_from(l, e.up_proj, pp(name, "up_proj"@))
                        &&& proj_from(l, e.down_proj, pp(name, "down_proj"@))
                    })
                },
            }
        }),
{
    if let FeedForward::Moe(f) = d.ffn {
        if 0 <= i < f.experts.len() {
            assert(f.experts[i].asked(
                l,
                cfg.hidden_size,
                cfg.moe_intermediate_size,
                pp(pp(pp(vb, "mlp"@), "experts"@), decimal(i as nat)),
            ));
        }
    }
}

/// The decoder that reads pages and its encoder read their weights under `model`; the
/// head stands beside it.
pub proof fn law_page_names(
    l: Loader,
    t: crate::unlimited_ocr::text::TextModel,
    e: crate::unlimited_ocr::vision::DeepEncoder,
    cfg: UnlimitedOcrTextConfig,
    vb: Seq<char>,
    i: int,
)
    requires
        t.asked(l, cfg, vb),
        e.asked(l, vb),
    ensures
        ({
            let m = pp(vb, "model"@);
            let (sam, clip) = (pp(m, "sam_model"@), pp(m, "vision_model"@));
            let stored = |w: Weight, path: Seq<char>| read_from(l, w, path, Recipe::AsStored);
            &&& stored(t.embed_tokens, pp(pp(m, "embed_tokens"@), "weight"@))
            &&& stored(t.norm.weight, pp(pp(m, "norm"@), "weight"@))
            &&& proj_from(l, t.lm_head, pp(vb, "lm_head"@))
            &&& 0 <= i < t.layers.len() ==> ({
                let name = pp(pp(m, "layers"@), decimal(i as nat));
                proj_from(l, t.layers[i].self_attn.q_proj, pp(pp(name, "self_attn"@), "q_proj"@))
            })
            &&& stored(e.net_2, pp(pp(sam, "net_2"@), "weight"@))
            &&& stored(e.net_3, pp(pp(sam, "net_3"@), "weight"@))
            &&& proj_from(l, e.projector, pp(pp(m, "projector"@), "layers"@))
            &&& stored(e.image_newline, pp(m, "image_newline"@))
            &&& stored(e.view_seperator, pp(m, "view_seperator"@))
            &&& stored(
                e.clip.class_embedding,
                pp(pp(clip, "embeddings"@), "class_embedding"@),
            )
            &&& stored(
                e.clip.position_embedding,
                pp(pp(pp(clip, "embeddings"@), "position_embedding"@), "weight"@),
            )
            &&& norm_from(l, e.clip.pre_ln, pp(clip, "pre_layrnorm"@))
            &&& e.clip.blocks.len() == 24
            &&& 0 <= i < e.clip.blocks.len() ==> ({
                let b = e.clip.blocks[i];
                let name = pp(pp(pp(clip, "transformer"@), "layers"@), decimal(i as nat));
                let (attn, mlp) = (pp(name, "self_attn"@), pp(name, "mlp"@));
                &&& norm_from(l, b.ln1, pp(name, "layer_norm1"@))
                &&& norm_from(l, b.ln2, pp(name, "layer_norm2"@))
                &&& proj_from(l, b.qkv_proj, pp(attn, "qkv_proj"@))
                &&& proj_from(l, b.out_proj, pp(attn, "out_proj"@))
                &&& proj_from(l, b.fc1, pp(mlp, "fc1"@))
                &&& proj_from(l, b.fc2, pp(mlp, "fc2"@))
                &&& b.n_heads == 16 && b.head_dim == 64
            })
        }),
{
    let m = pp(vb, "model"@);
    if 0 <= i < t.layers.len() {
        let name = pp(pp(m, "layers"@), decimal(i as nat));
        law_page_decoder_layer_names(l, t.layers[i], cfg, i, name, 0);
    }
    if 0 <= i < e.clip.blocks.len() {
        assert(e.clip.blocks[i].asked(
            l,
            1024,
            16,
            4096,
            pp(
                pp(pp(pp(m, "vision_model"@), "transformer"@), "layers"@),
                decimal(i as nat),
            ),
        ));
    }
}

} // verus!
