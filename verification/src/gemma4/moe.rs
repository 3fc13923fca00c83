use vstd::prelude::*;

use crate::dtype::{Activation, DType, Device};
use crate::error::Error;
use crate::fused::{fused_swiglu, has_kernel, lemma_contiguous, swiglu, SwigluAct};
use crate::gemma4::config::Gemma4TextConfig;
use crate::gemma4::norm::{v_norm, v_normed, RmsNorm};
use crate::loader::{changed, fitted, plain, pp, quantized, Asked, Loader, Proj, Recipe, VarPath};
use crate::quant::{moe_quant_dtype, moe_quant_dtype_for, GgmlDType};
use crate::routing::{
    copy_pairs, copy_plan, group_by_expert, hits, is_plan, law_plan_within, plan_within, route, rows_view, token_ids,
    tokens_of,
};
use crate::shape::{d1, d2, d3, sat_product, saturating_product};
use crate::tape::{
    bin, gates_val, ids_val, leaf, pick_val, plan_view, tri, un, GateRule, Op, RoutingPlan, Scalar,
    Tape, Tensor, Val, Weight,
};

verus! {

/// Gated feed-forward block.
#[derive(Clone, Copy, PartialEq, Eq, Structural, Debug)]
pub struct Mlp {
    pub gate_proj: Proj,
    pub up_proj: Proj,
    pub down_proj: Proj,
    pub act_fn: Activation,
}

impl Mlp {
    pub open spec fn apply(self, x: Val) -> Val {
        self.down_proj.apply(
            bin(
                Op::Mul,
                un(Op::Act(self.act_fn), self.gate_proj.apply(x)),
                self.up_proj.apply(x),
            ),
        )
    }

    pub open spec fn asked(
        self,
        l: Loader,
        hidden: usize,
        inter: usize,
        act: Activation,
        bias: bool,
        vb: Seq<char>,
        quant: Option<GgmlDType>,
    ) -> bool {
        let wide = fitted(hidden, quant);
        &&& self.gate_proj.asked(l, hidden, inter, bias, pp(vb, "gate_proj"@), wide)
        &&& self.up_proj.asked(l, hidden, inter, bias, pp(vb, "up_proj"@), wide)
        &&& self.down_proj.asked(
            l,
            inter,
            hidden,
            bias,
            pp(vb, "down_proj"@),
            fitted(inter, quant),
        )
        &&& self.act_fn == act
    }

    pub fn new(
        l: &mut Loader,
        hidden_size: usize,
        intermediate_size: usize,
        act: Activation,
        bias: bool,
        vb: &VarPath,
        quant: Option<GgmlDType>,
    ) -> (r: Mlp)
        ensures
            final(l).grew(*old(l)),
            final(l).added(*old(l), 3 * Proj::tensors(bias)),
            r.asked(*final(l), hidden_size, intermediate_size, act, bias, vb@, quant),
    {
        let (h, i) = (hidden_size, intermediate_size);
        let gate_proj = Proj::new(l, h, i, bias, &vb.pp("gate_proj"), quant);
        let up_proj = Proj::new(l, h, i, bias, &vb.pp("up_proj"), quant);
        let down_proj = Proj::new(l, i, h, bias, &vb.pp("down_proj"), quant);
        Mlp { gate_proj, up_proj, down_proj, act_fn: act }
    }

    pub fn forward(&self, t: &mut Tape, xs: Tensor) -> (r: Tensor)
        requires
            old(t).has(xs),
        ensures
            final(t).computed(*old(t)),
            final(t).has(r),
            r@ == self.apply(xs@),
    {
        let g = self.gate_proj.forward(t, xs);
        let lhs = t.un(Op::Act(self.act_fn), g);
        let rhs = self.up_proj.forward(t, xs);
        let y = t.bin(Op::Mul, lhs, rhs);
        self.down_proj.forward(t, y)
    }
}

/// Token router: norm without a scale, learned scale, linear to expert logits,
/// softmax in single precision, and the `top_k` largest.
#[derive(Clone, Copy, PartialEq, Eq, Structural, Debug)]
pub struct Router {
    pub proj: Proj,
    pub scale: Weight,
    pub per_expert_scale: Weight,
    pub top_k: usize,
    pub hidden_size: usize,
    pub num_experts: usize,
    pub eps: u64,
}

impl Router {
    pub open spec fn asked(
        self,
        l: Loader,
        cfg: Gemma4TextConfig,
        vb: Seq<char>,
        quant: Option<GgmlDType>,
    ) -> bool {
        let (h, e) = (cfg.hidden_size, cfg.num_experts);
        &&& self.proj.asked(l, h, e, false, pp(vb, "proj"@), fitted(h, quant))
        &&& l.gives(self.scale, plain(pp(vb, "scale"@), d1(h), l.reads()))
        &&& l.gives(
            self.per_expert_scale,
            changed(pp(vb, "per_expert_scale"@), d1(e), Recipe::Converted, d1(e), DType::F32),
        )
        &&& self.top_k == cfg.top_k_experts
        &&& self.hidden_size == h
        &&& self.num_experts == e
        &&& self.eps == cfg.rms_norm_eps
    }

    pub fn new(
        l: &mut Loader,
        cfg: &Gemma4TextConfig,
        vb: &VarPath,
        quant: Option<GgmlDType>,
    ) -> (r: Router)
        ensures
            final(l).grew(*old(l)),
            final(l).added(*old(l), 3),
            r.asked(*final(l), *cfg, vb@, quant),
    {
        let (h, e) = (cfg.hidden_size, cfg.num_experts);
        let proj = Proj::new(l, h, e, false, &vb.pp("proj"), quant);
        let scale = l.get(vb, "scale", d1(h));
        let per_expert_scale = l.get_changed(
            vb,
            "per_expert_scale",
            d1(e),
            Recipe::Converted,
            d1(e),
            DType::F32,
        );
        Router {
            proj,
            scale,
            per_expert_scale,
            top_k: cfg.top_k_experts,
            hidden_size: h,
            num_experts: e,
            eps: cfg.rms_norm_eps,
        }
    }

    /// Probabilities of the experts, one row per token.
    pub open spec fn probs(self, x: Val) -> Val {
        let scaled = bin(Op::BroadcastMul, v_normed(x, self.eps), leaf(Op::Param(self.scale)));
        let scaled = un(Op::MulScalar(Scalar::RecipSqrt(self.hidden_size)), scaled);
        un(Op::SoftmaxLast, un(Op::ToDType(DType::F32), self.proj.apply(scaled)))
    }

    pub fn probabilities(&self, t: &mut Tape, xs_flat: Tensor) -> (r: Tensor)
        requires
            old(t).has(xs_flat),
        ensures
            final(t).computed(*old(t)),
            final(t).has(r),
            r@ == self.probs(xs_flat@),
    {
        let xs = v_norm(t, xs_flat, self.eps);
        let scale = t.leaf(Op::Param(self.scale));
        let xs = t.bin(Op::BroadcastMul, xs, scale);
        let xs = t.un(Op::MulScalar(Scalar::RecipSqrt(self.hidden_size)), xs);
        let logits = self.proj.forward(t, xs);
        let logits = t.un(Op::ToDType(DType::F32), logits);
        t.un(Op::SoftmaxLast, logits)
    }

    /// Chooses experts on the host, from probabilities read back from the
    /// device as bits. Every row has an entry per expert.
    pub fn route(&self, rows: &Vec<Vec<u32>>) -> (r: Result<RoutingPlan, Error>)
        ensures
            ({
                let complete = forall|i: int|
                    0 <= i < rows.len() ==> #[trigger] rows_view(*rows)[i].len()
                        == self.num_experts;
                &&& !complete ==> r == Err::<RoutingPlan, Error>(Error::ShapeMismatch)
                &&& complete ==> r is Ok && is_plan(
                    rows_view(*rows),
                    self.top_k as int,
                    plan_view(r->Ok_0),
                ) && plan_within(plan_view(r->Ok_0), self.num_experts as int)
            }),
    {
        let mut i: usize = 0;
        while i < rows.len()
            invariant
                i <= rows.len(),
                forall|j: int| 0 <= j < i ==> #[trigger] rows[j].len() == self.num_experts,
            decreases rows.len() - i,
        {
            if rows[i].len() != self.num_experts {
                assert(rows_view(*rows)[i as int].len() != self.num_experts);
                return Err(Error::ShapeMismatch);
            }
            i += 1;
        }
        let plan = route(rows, self.top_k);
        proof {
            assert forall|j: int| 0 <= j < rows.len() implies #[trigger] rows_view(
                *rows,
            )[j].len() == self.num_experts by {
                assert(rows[j].len() == self.num_experts);
            }
            law_plan_within(
                rows_view(*rows),
                self.top_k as int,
                plan_view(plan),
                self.num_experts as int,
            );
        }
        Ok(plan)
    }

    /// Numbers of the chosen experts, on the device.
    pub open spec fn gpu_ids(self, x: Val) -> Val {
        un(
            Op::Narrow { dim: 1, start: 0, len: self.top_k },
            un(Op::ArgSortDescending, self.probs(x)),
        )
    }

    /// Combine weights of the chosen experts, on the device.
    pub open spec fn gpu_weights(self, x: Val) -> Val {
        let ids = self.gpu_ids(x);
        let top = bin(Op::Gather(1), self.probs(x), ids);
        let w = bin(Op::BroadcastDiv, top, un(Op::SumKeep(1), top));
        let tokens = ids.shape.d0;
        let flat = un(Op::Reshape(d1(sat_product(tokens, self.top_k))), ids);
        let scale = un(
            Op::Reshape(d2(tokens, self.top_k)),
            bin(Op::IndexSelect(0), leaf(Op::Param(self.per_expert_scale)), flat),
        );
        bin(Op::Mul, w, scale)
    }

    /// Routing without a round trip to the host: the probabilities are sorted
    /// where they are, and the first `top_k` experts of each token and their
    /// renormalized and scaled weights stay there, `[tokens, top_k]` each.
    pub fn route_gpu(&self, t: &mut Tape, xs_flat: Tensor) -> (r: (Tensor, Tensor))
        requires
            old(t).has(xs_flat),
        ensures
            final(t).computed(*old(t)),
            final(t).has(r.0),
            final(t).has(r.1),
            r.0@ == self.gpu_ids(xs_flat@),
            r.1@ == self.gpu_weights(xs_flat@),
    {
        let probs = self.probabilities(t, xs_flat);
        let sorted = t.un(Op::ArgSortDescending, probs);
        let ids = t.un(Op::Narrow { dim: 1, start: 0, len: self.top_k }, sorted);
        proof {
            lemma_contiguous(ids@);
        }
        let ids = t.un(Op::Contiguous, ids);
        let topw = t.bin(Op::Gather(1), probs, ids);
        let denom = t.un(Op::SumKeep(1), topw);
        let w = t.bin(Op::BroadcastDiv, topw, denom);
        let tokens: usize = ids.shape.d0;
        let flat = t.un(Op::Reshape(d1(saturating_product(tokens, self.top_k))), ids);
        let pes = t.leaf(Op::Param(self.per_expert_scale));
        let pes = t.bin(Op::IndexSelect(0), pes, flat);
        let pes = t.un(Op::Reshape(d2(tokens, self.top_k)), pes);
        let w = t.bin(Op::Mul, w, pes);
        (ids, w)
    }
}

/// Weights of the experts, packed as in the checkpoint: gate and up rows
/// together, and down rows.
#[derive(Debug)]
pub enum ExpertWeights {
    /// Dense, transposed at load so that no step has to copy them.
    Plain { gate_up_t: Weight, down_t: Weight },
    /// One quantized matrix per expert.
    Quant { gate_ups: Vec<Weight>, downs: Vec<Weight> },
    /// All experts stacked, for one kernel per projection.
    QuantFused { gate_up: Weight, down: Weight },
}

#[derive(Debug)]
pub struct Experts {
    pub weights: ExpertWeights,
    pub act_fn: Activation,
    pub num_experts: usize,
}

/// Request for the rows of one expert.
pub open spec fn expert_slice(
    path: Seq<char>,
    stored: crate::shape::Shape,
    i: usize,
    shape: crate::shape::Shape,
    quant: GgmlDType,
    dtype: DType,
) -> Asked {
    Asked {
        path,
        key: Seq::empty(),
        stored,
        recipe: Recipe::Slice { row: i, index: 0, parts: 1 },
        quant: Some(quant),
        shape,
        dtype,
    }
}

impl Experts {
    /// The weights are of the form that suits `quant` and the device, and were
    /// asked for under `vb`.
    pub open spec fn asked(
        self,
        l: Loader,
        cfg: Gemma4TextConfig,
        vb: Seq<char>,
        quant: Option<GgmlDType>,
        device: Device,
    ) -> bool {
        let (e, h, i) = (cfg.num_experts, cfg.hidden_size, cfg.moe_intermediate_size);
        let two = sat_product(2, i);
        let gu = pp(vb, "gate_up_proj"@);
        let dn = pp(vb, "down_proj"@);
        &&& self.act_fn == cfg.hidden_activation
        &&& self.num_experts == e
        &&& match quant {
            None => {
                &&& self.weights matches ExpertWeights::Plain { gate_up_t, down_t }
                &&& l.gives(
                    gate_up_t,
                    changed(gu, d3(e, two, h), Recipe::Transposed, d3(e, h, two), l.reads()),
                )
                &&& l.gives(
                    down_t,
                    changed(dn, d3(e, h, i), Recipe::Transposed, d3(e, i, h), l.reads()),
                )
            },
            Some(q) => if device == Device::Cuda {
                &&& self.weights matches ExpertWeights::QuantFused { gate_up, down }
                &&& l.gives(
                    gate_up,
                    quantized(
                        gu,
                        gu,
                        d3(e, two, h),
                        Recipe::AsStored,
                        moe_quant_dtype(h, q),
                        l.reads(),
                    ),
                )
                &&& l.gives(
                    down,
                    quantized(
                        dn,
                        dn,
                        d3(e, h, i),
                        Recipe::AsStored,
                        moe_quant_dtype(i, q),
                        l.reads(),
                    ),
                )
            } else {
                &&& self.weights matches ExpertWeights::Quant { gate_ups, downs }
                &&& gate_ups.len() == e
                &&& downs.len() == e
                &&& forall|j: int|
                    0 <= j < e ==> l.gives(
                        #[trigger] gate_ups[j],
                        expert_slice(
                            gu,
                            d3(e, two, h),
                            j as usize,
                            d2(two, h),
                            moe_quant_dtype(h, q),
                            l.reads(),
                        ),
                    )
                &&& forall|j: int|
                    0 <= j < e ==> l.gives(
                        #[trigger] downs[j],
                        expert_slice(
                            dn,
                            d3(e, h, i),
                            j as usize,
                            d2(h, i),
                            moe_quant_dtype(i, q),
                            l.reads(),
                        ),
                    )
            },
        }
    }

    /// How many tensors the experts are: two stacked ones, or two per expert.
    pub open spec fn tensors(
        cfg: Gemma4TextConfig,
        quant: Option<GgmlDType>,
        device: Device,
    ) -> int {
        if quant is Some && device != Device::Cuda {
            2 * cfg.num_experts
        } else {
            2
        }
    }

    /// Every expert has its weights.
    pub open spec fn wf(self) -> bool {
        self.weights matches ExpertWeights::Quant { gate_ups, downs } ==> gate_ups.len()
            == self.num_experts && downs.len() == self.num_experts
    }

    pub fn new(
        l: &mut Loader,
        cfg: &Gemma4TextConfig,
        vb: &VarPath,
        quant: Option<GgmlDType>,
        device: Device,
    ) -> (r: Experts)
        ensures
            final(l).grew(*old(l)),
            final(l).added(*old(l), Self::tensors(*cfg, quant, device)),
            r.asked(*final(l), *cfg, vb@, quant, device),
            r.wf(),
    {
        let e: usize = cfg.num_experts;
        let inter: usize = cfg.moe_intermediate_size;
        let h: usize = cfg.hidden_size;
        let two: usize = saturating_product(2, inter);
        let dtype = l.dtype();
        let weights = match quant {
            None => {
                let gate_up_t = l.get_changed(
                    vb,
                    "gate_up_proj",
                    d3(e, two, h),
                    Recipe::Transposed,
                    d3(e, h, two),
                    dtype,
                );
                let down_t = l.get_changed(
                    vb,
                    "down_proj",
                    d3(e, h, inter),
                    Recipe::Transposed,
                    d3(e, inter, h),
                    dtype,
                );
                ExpertWeights::Plain { gate_up_t, down_t }
            },
            Some(q) => if device == Device::Cuda {
                let gate_up = l.get_quantized(
                    vb,
                    "gate_up_proj",
                    vb.join("gate_up_proj"),
                    d3(e, two, h),
                    Recipe::AsStored,
                    moe_quant_dtype_for(h, q),
                );
                let down = l.get_quantized(
                    vb,
                    "down_proj",
                    vb.join("down_proj"),
                    d3(e, h, inter),
                    Recipe::AsStored,
                    moe_quant_dtype_for(inter, q),
                );
                ExpertWeights::QuantFused { gate_up, down }
            } else {
                let wide_q = moe_quant_dtype_for(h, q);
                let down_q = moe_quant_dtype_for(inter, q);
                let mut gate_ups: Vec<Weight> = Vec::new();
                let mut downs: Vec<Weight> = Vec::new();
                let ghost (gu, dn) = (pp(vb@, "gate_up_proj"@), pp(vb@, "down_proj"@));
                let mut i: usize = 0;
                while i < e
                    invariant
                        i <= e,
                        l.grew(*old(l)),
                        l.added(*old(l), 2 * i),
                        gu == pp(vb@, "gate_up_proj"@),
                        dn == pp(vb@, "down_proj"@),
                        gate_ups.len() == i,
                        downs.len() == i,
                        forall|j: int|
                            0 <= j < i ==> l.gives(
                                #[trigger] gate_ups[j],
                                expert_slice(
                                    gu,
                                    d3(e, two, h),
                                    j as usize,
                                    d2(two, h),
                                    wide_q,
                                    l.reads(),
                                ),
                            ),
                        forall|j: int|
                            0 <= j < i ==> l.gives(
                                #[trigger] downs[j],
                                expert_slice(
                                    dn,
                                    d3(e, h, inter),
                                    j as usize,
                                    d2(h, inter),
                                    down_q,
                                    l.reads(),
                                ),
                            ),
                    decreases e - i,
                {
                    let recipe = Recipe::Slice { row: i, index: 0, parts: 1 };
                    let g = l.get_quantized_slice(
                        vb,
                        "gate_up_proj",
                        String::new(),
                        d3(e, two, h),
                        recipe,
                        d2(two, h),
                        wide_q,
                    );
                    gate_ups.push(g);
                    let d = l.get_quantized_slice(
                        vb,
                        "down_proj",
                        String::new(),
                        d3(e, h, inter),
                        recipe,
                        d2(h, inter),
                        down_q,
                    );
                    downs.push(d);
                    i += 1;
                }
                ExpertWeights::Quant { gate_ups, downs }
            },
        };
        Experts { weights, act_fn: cfg.hidden_activation, num_experts: e }
    }

    /// The experts are stacked for the fused kernels.
    pub open spec fn fused(self) -> bool {
        self.weights is QuantFused
    }

    /// Output of one expert for the rows `x`.
    pub open spec fn expert(self, e: usize, x: Val) -> Val {
        let gate_up = match self.weights {
            ExpertWeights::Plain { gate_up_t, down_t } => bin(
                Op::MatMul,
                x,
                un(Op::Select { dim: 0, index: e }, leaf(Op::Param(gate_up_t))),
            ),
            ExpertWeights::Quant { gate_ups, downs } => un(Op::QMatMul(gate_ups[e as int]), x),
            ExpertWeights::QuantFused { gate_up, down } => x,
        };
        let hidden = bin(
            Op::Mul,
            un(Op::Act(self.act_fn), un(Op::Half { index: 0 }, gate_up)),
            un(Op::Half { index: 1 }, gate_up),
        );
        match self.weights {
            ExpertWeights::Plain { gate_up_t, down_t } => bin(
                Op::MatMul,
                hidden,
                un(Op::Select { dim: 0, index: e }, leaf(Op::Param(down_t))),
            ),
            ExpertWeights::Quant { gate_ups, downs } => un(Op::QMatMul(downs[e as int]), hidden),
            ExpertWeights::QuantFused { gate_up, down } => hidden,
        }
    }

    pub fn expert_forward(&self, t: &mut Tape, expert: usize, xs: Tensor) -> (r: Tensor)
        requires
            self.wf(),
            !self.fused(),
            expert < self.num_experts,
            old(t).has(xs),
        ensures
            final(t).computed(*old(t)),
            final(t).has(r),
            r@ == self.expert(expert, xs@),
    {
        let gate_up = match &self.weights {
            ExpertWeights::Plain { gate_up_t, down_t } => {
                let w = t.leaf(Op::Param(*gate_up_t));
                let w = t.un(Op::Select { dim: 0, index: expert }, w);
                t.bin(Op::MatMul, xs, w)
            },
            ExpertWeights::Quant { gate_ups, downs } => t.un(Op::QMatMul(gate_ups[expert]), xs),
            ExpertWeights::QuantFused { gate_up, down } => xs,
        };
        let gate = t.un(Op::Half { index: 0 }, gate_up);
        let gate = t.un(Op::Act(self.act_fn), gate);
        let up = t.un(Op::Half { index: 1 }, gate_up);
        let hidden = t.bin(Op::Mul, gate, up);
        match &self.weights {
            ExpertWeights::Plain { gate_up_t, down_t } => {
                let w = t.leaf(Op::Param(*down_t));
                let w = t.un(Op::Select { dim: 0, index: expert }, w);
                t.bin(Op::MatMul, hidden, w)
            },
            ExpertWeights::Quant { gate_ups, downs } => t.un(Op::QMatMul(downs[expert]), hidden),
            ExpertWeights::QuantFused { gate_up, down } => hidden,
        }
    }

    /// Activation of the fused kernel.
    pub open spec fn fused_act(self) -> SwigluAct {
        if self.act_fn == Activation::Silu { SwigluAct::Silu } else { SwigluAct::GeluTanh }
    }

    pub open spec fn fused_gate_up(x: Val, ids: Val, gate_up: Weight) -> Val {
        let x32 = un(
            Op::Reshape(d3(x.shape.d0, 1, x.shape.d1)),
            un(Op::ToDType(DType::F32), x),
        );
        bin(Op::IndexedMoe(gate_up), x32, ids)
    }

    /// All chosen experts of all tokens, one kernel per projection.
    pub open spec fn fused_out(
        self,
        device: Device,
        x: Val,
        ids: Val,
        weights: Val,
        gate_up: Weight,
        down: Weight,
    ) -> Result<Val, Error> {
        let gu = Self::fused_gate_up(x, ids, gate_up);
        if x.shape.rank != 2 {
            Err(Error::UnexpectedRank { expected: 2, got: x.shape.rank })
        } else if gu.shape.last() % 2 != 0 {
            Err(
                if has_kernel(device, gu.dtype) {
                    Error::OddLastDim
                } else {
                    Error::ShapeMismatch
                },
            )
        } else {
            let dn = bin(Op::IndexedMoe(down), swiglu(device, gu, self.fused_act()), ids);
            let weighted = bin(Op::BroadcastMul, dn, un(Op::Unsqueeze(2), weights));
            Ok(un(Op::ToDType(x.dtype), un(Op::Sum(1), weighted)))
        }
    }

    pub fn forward_fused(
        &self,
        t: &mut Tape,
        xs_flat: Tensor,
        ids: Tensor,
        weights: Tensor,
        gate_up: Weight,
        down: Weight,
    ) -> (r: Result<Tensor, Error>)
        requires
            old(t).has(xs_flat),
            old(t).has(ids),
            old(t).has(weights),
        ensures
            final(t).computed(*old(t)),
            match self.fused_out(old(t).on(), xs_flat@, ids@, weights@, gate_up, down) {
                Err(e) => r == Err::<Tensor, Error>(e),
                Ok(y) => r is Ok && final(t).has(r->Ok_0) && r->Ok_0@ == y,
            },
    {
        let (tokens, hidden) = xs_flat.dims2()?;
        let x32 = t.un(Op::ToDType(DType::F32), xs_flat);
        let x32 = t.un(Op::Reshape(d3(tokens, 1, hidden)), x32);
        let gu = t.bin(Op::IndexedMoe(gate_up), x32, ids);
        let act = match self.act_fn {
            Activation::Silu => SwigluAct::Silu,
            _ => SwigluAct::GeluTanh,
        };
        let hidden_act = fused_swiglu(t, gu, act)?;
        let dn = t.bin(Op::IndexedMoe(down), hidden_act, ids);
        let w_t = t.un(Op::Unsqueeze(2), weights);
        let out = t.bin(Op::BroadcastMul, dn, w_t);
        let out = t.un(Op::Sum(1), out);
        Ok(t.un(Op::ToDType(xs_flat.dtype), out))
    }

    /// Weighted sum of the outputs of the experts below `e`, each run once on
    /// the tokens that chose it.
    pub open spec fn combined(self, x: Val, gates: Val, plan: Seq<Seq<usize>>, e: int) -> Val
        decreases e,
    {
        if e <= 0 {
            leaf(Op::Zeros { shape: x.shape, dtype: x.dtype })
        } else {
            let before = self.combined(x, gates, plan, e - 1);
            let group = hits(plan, (e - 1) as usize, plan.len() as int);
            if group.len() == 0 {
                before
            } else {
                let idx = ids_val(token_ids(group));
                let ys = self.expert((e - 1) as usize, bin(Op::IndexSelect(0), x, idx));
                let w = un(Op::ToDType(x.dtype), pick_val(gates, group));
                tri(Op::IndexAdd(0), before, idx, bin(Op::BroadcastMul, ys, w))
            }
        }
    }

    /// Groups tokens by expert, runs each chosen expert once, and adds up the
    /// weighted outputs, in the order of the experts.
    pub fn forward(&self, t: &mut Tape, xs_flat: Tensor, gates: Tensor, plan: &RoutingPlan) -> (r:
        Tensor)
        requires
            self.wf(),
            !self.fused(),
            old(t).has(xs_flat),
            old(t).has(gates),
            plan_within(plan_view(*plan), self.num_experts as int),
        ensures
            final(t).computed(*old(t)),
            final(t).has(r),
            r@ == self.combined(xs_flat@, gates@, plan_view(*plan), self.num_experts as int),
    {
        let ghost p = plan_view(*plan);
        let groups = group_by_expert(plan, self.num_experts);
        let mut out = t.leaf(Op::Zeros { shape: xs_flat.shape, dtype: xs_flat.dtype });
        let mut e: usize = 0;
        while e < self.num_experts
            invariant
                e <= self.num_experts,
                self.wf(),
                !self.fused(),
                p == plan_view(*plan),
                p.len() == plan.len(),
                groups.len() == self.num_experts,
                forall|i: int|
                    0 <= i < self.num_experts ==> #[trigger] groups[i]@ == hits(
                        p,
                        i as usize,
                        plan.len() as int,
                    ),
                t.computed(*old(t)),
                t.has(xs_flat),
                t.has(gates),
                t.has(out),
                out@ == self.combined(xs_flat@, gates@, p, e as int),
            decreases self.num_experts - e,
        {
            let group = &groups[e];
            if group.len() > 0 {
                let idx = t.ids(tokens_of(group));
                let xs_e = t.bin(Op::IndexSelect(0), xs_flat, idx);
                let ys = self.expert_forward(t, e, xs_e);
                let w = t.pick(gates, copy_pairs(group));
                let w = t.un(Op::ToDType(xs_flat.dtype), w);
                let ys = t.bin(Op::BroadcastMul, ys, w);
                out = t.tri(Op::IndexAdd(0), out, idx, ys);
            }
            e += 1;
        }
        out
    }
}

/// Routed experts beside the dense block: both read the same residual, and
/// their normalized outputs are added.
#[derive(Debug)]
pub struct MoeBlock {
    pub router: Router,
    pub experts: Experts,
    /// Of the dense output.
    pub post_feedforward_layernorm_1: RmsNorm,
    /// Of the input of the experts.
    pub pre_feedforward_layernorm_2: RmsNorm,
    /// Of the output of the experts.
    pub post_feedforward_layernorm_2: RmsNorm,
}

impl MoeBlock {
    pub open spec fn wf(self) -> bool {
        self.experts.wf() && self.experts.num_experts == self.router.num_experts
    }

    pub open spec fn asked(
        self,
        l: Loader,
        cfg: Gemma4TextConfig,
        vb: Seq<char>,
        quant: Option<GgmlDType>,
        device: Device,
    ) -> bool {
        let (h, eps) = (cfg.hidden_size, cfg.rms_norm_eps);
        &&& self.router.asked(l, cfg, pp(vb, "router"@), quant)
        &&& self.experts.asked(l, cfg, pp(vb, "experts"@), quant, device)
        &&& self.post_feedforward_layernorm_1.asked(
            l,
            h,
            eps,
            pp(vb, "post_feedforward_layernorm_1"@),
        )
        &&& self.pre_feedforward_layernorm_2.asked(
            l,
            h,
            eps,
            pp(vb, "pre_feedforward_layernorm_2"@),
        )
        &&& self.post_feedforward_layernorm_2.asked(
            l,
            h,
            eps,
            pp(vb, "post_feedforward_layernorm_2"@),
        )
    }

    pub fn new(
        l: &mut Loader,
        cfg: &Gemma4TextConfig,
        vb: &VarPath,
        quant: Option<GgmlDType>,
        device: Device,
    ) -> (r: MoeBlock)
        ensures
            final(l).grew(*old(l)),
            final(l).added(*old(l), 6 + Experts::tensors(*cfg, quant, device)),
            r.asked(*final(l), *cfg, vb@, quant, device),
            r.wf(),
    {
        let (h, eps) = (cfg.hidden_size, cfg.rms_norm_eps);
        let router = Router::new(l, cfg, &vb.pp("router"), quant);
        let experts = Experts::new(l, cfg, &vb.pp("experts"), quant, device);
        let n1 = RmsNorm::new(l, h, eps, &vb.pp("post_feedforward_layernorm_1"));
        let n2 = RmsNorm::new(l, h, eps, &vb.pp("pre_feedforward_layernorm_2"));
        let n3 = RmsNorm::new(l, h, eps, &vb.pp("post_feedforward_layernorm_2"));
        MoeBlock {
            router,
            experts,
            post_feedforward_layernorm_1: n1,
            pre_feedforward_layernorm_2: n2,
            post_feedforward_layernorm_2: n3,
        }
    }

    /// The device chooses the experts.
    pub fn is_fused(&self) -> (r: bool)
        ensures
            r == self.experts.fused(),
    {
        matches!(self.experts.weights, ExpertWeights::QuantFused { .. })
    }

    /// The residual stream as one row per token.
    pub open spec fn flat(residual: Val) -> Val {
        let (b, s, h) = (residual.shape.d0, residual.shape.d1, residual.shape.d2);
        un(Op::Reshape(d2(sat_product(b, s), h)), residual)
    }

    fn flatten(t: &mut Tape, residual: Tensor) -> (r: Result<Tensor, Error>)
        requires
            old(t).has(residual),
        ensures
            final(t).computed(*old(t)),
            residual.shape.rank != 3 ==> r == Err::<Tensor, Error>(
                Error::UnexpectedRank { expected: 3, got: residual.shape.rank },
            ),
            residual.shape.rank == 3 ==> r is Ok && final(t).has(r->Ok_0) && r->Ok_0@
                == Self::flat(residual@),
    {
        let (b, s, h) = residual.dims3()?;
        Ok(t.un(Op::Reshape(d2(saturating_product(b, s), h)), residual))
    }

    /// What the router says of a residual stream.
    pub open spec fn probs(self, residual: Val) -> Val {
        self.router.probs(Self::flat(residual))
    }

    /// Records the probabilities that the host routes by.
    pub fn probabilities(&self, t: &mut Tape, residual: Tensor) -> (r: Result<Tensor, Error>)
        requires
            old(t).has(residual),
        ensures
            final(t).computed(*old(t)),
            residual.shape.rank != 3 ==> r == Err::<Tensor, Error>(
                Error::UnexpectedRank { expected: 3, got: residual.shape.rank },
            ),
            residual.shape.rank == 3 ==> r is Ok && final(t).has(r->Ok_0) && r->Ok_0@
                == self.probs(residual@),
    {
        let flat = Self::flatten(t, residual)?;
        Ok(self.router.probabilities(t, flat))
    }

    /// Both branches added, with `h2` the output of the experts.
    pub open spec fn joined(self, mlp_out: Val, residual: Val, h2: Val) -> Val {
        let shape = d3(residual.shape.d0, residual.shape.d1, residual.shape.d2);
        bin(
            Op::Add,
            self.post_feedforward_layernorm_1.apply(mlp_out),
            self.post_feedforward_layernorm_2.apply(un(Op::Reshape(shape), h2)),
        )
    }

    fn join(&self, t: &mut Tape, mlp_out: Tensor, residual: Tensor, h2: Tensor) -> (r: Tensor)
        requires
            old(t).has(mlp_out),
            old(t).has(h2),
        ensures
            final(t).computed(*old(t)),
            final(t).has(r),
            r@ == self.joined(mlp_out@, residual@, h2@),
    {
        let h1 = self.post_feedforward_layernorm_1.forward(t, mlp_out);
        let shape = d3(residual.shape.d0, residual.shape.d1, residual.shape.d2);
        let h2 = t.un(Op::Reshape(shape), h2);
        let h2 = self.post_feedforward_layernorm_2.forward(t, h2);
        t.bin(Op::Add, h1, h2)
    }

    /// The block when the device routes.
    pub open spec fn fused_out(self, device: Device, mlp_out: Val, residual: Val) -> Result<
        Val,
        Error,
    > {
        let flat = Self::flat(residual);
        let h2 = self.pre_feedforward_layernorm_2.apply(flat);
        if residual.shape.rank != 3 {
            Err(Error::UnexpectedRank { expected: 3, got: residual.shape.rank })
        } else {
            match self.experts.weights {
                ExpertWeights::QuantFused { gate_up, down } => match self.experts.fused_out(
                    device,
                    h2,
                    self.router.gpu_ids(flat),
                    self.router.gpu_weights(flat),
                    gate_up,
                    down,
                ) {
                    Err(e) => Err(e),
                    Ok(y) => Ok(self.joined(mlp_out, residual, y)),
                },
                _ => Ok(mlp_out),
            }
        }
    }

    /// Routing and experts all on the device.
    pub fn forward_fused(&self, t: &mut Tape, mlp_out: Tensor, residual: Tensor) -> (r: Result<
        Tensor,
        Error,
    >)
        requires
            self.experts.fused(),
            old(t).has(mlp_out),
            old(t).has(residual),
        ensures
            final(t).computed(*old(t)),
            match self.fused_out(old(t).on(), mlp_out@, residual@) {
                Err(e) => r == Err::<Tensor, Error>(e),
                Ok(y) => r is Ok && final(t).has(r->Ok_0) && r->Ok_0@ == y,
            },
    {
        let flat = Self::flatten(t, residual)?;
        let h2 = self.pre_feedforward_layernorm_2.forward(t, flat);
        let (ids, weights) = self.router.route_gpu(t, flat);
        match &self.experts.weights {
            ExpertWeights::QuantFused { gate_up, down } => {
                let y = self.experts.forward_fused(t, h2, ids, weights, *gate_up, *down)?;
                Ok(self.join(t, mlp_out, residual, y))
            },
            _ => Ok(mlp_out),
        }
    }

    /// The block when the host has routed by `plan`.
    pub open spec fn routed_out(
        self,
        mlp_out: Val,
        residual: Val,
        probs: Val,
        plan: Seq<Seq<usize>>,
    ) -> Val {
        let h2 = self.pre_feedforward_layernorm_2.apply(Self::flat(residual));
        let gates = gates_val(GateRule::Scaled(self.router.per_expert_scale), probs, plan);
        let y = self.experts.combined(h2, gates, plan, self.experts.num_experts as int);
        self.joined(mlp_out, residual, y)
    }

    /// Runs the experts that the host chose.
    pub fn forward_routed(
        &self,
        t: &mut Tape,
        mlp_out: Tensor,
        residual: Tensor,
        probs: Tensor,
        plan: RoutingPlan,
    ) -> (r: Result<Tensor, Error>)
        requires
            self.wf(),
            !self.experts.fused(),
            old(t).has(mlp_out),
            old(t).has(residual),
            old(t).has(probs),
            plan_within(plan_view(plan), self.experts.num_experts as int),
        ensures
            final(t).computed(*old(t)),
            residual.shape.rank != 3 ==> r == Err::<Tensor, Error>(
                Error::UnexpectedRank { expected: 3, got: residual.shape.rank },
            ),
            residual.shape.rank == 3 ==> r is Ok && final(t).has(r->Ok_0) && r->Ok_0@
                == self.routed_out(mlp_out@, residual@, probs@, plan_view(plan)),
    {
        let flat = Self::flatten(t, residual)?;
        let h2 = self.pre_feedforward_layernorm_2.forward(t, flat);
        let kept = copy_plan(&plan);
        let gates = t.gates(GateRule::Scaled(self.router.per_expert_scale), probs, kept);
        let y = self.experts.forward(t, h2, gates, &plan);
        Ok(self.join(t, mlp_out, residual, y))
    }
}

} // verus!
