use vstd::prelude::*;

use crate::dtype::DType;
use crate::error::Error;
use crate::loader::{changed, decimal, pp, Asked, Loader, Proj, Recipe, Request, VarPath};
use crate::qcache::QCache;
use crate::quant::{quant_dtype, quant_dtype_for, GgmlDType, PackedExperts};
use crate::qwen3_5::config::Qwen35TextConfig;
use crate::qwen3_5::norm::{qproj, suited};
use crate::routing::{copy_plan, is_plan, law_plan_within, plan_within, route, rows_view};
use crate::serving::warm;
use crate::shape::{d2, d3, sat_product, saturating_product, Shape};
use crate::tape::{
    bin, gates_val, pick_val, plan_view, un, GateRule, Op, RoutingPlan, Tape, Tensor, Val,
};

verus! {

/// Gated feed-forward block.
#[derive(Clone, Copy, PartialEq, Eq, Structural, Debug)]
pub struct Mlp {
    pub gate_proj: Proj,
    pub up_proj: Proj,
    pub down_proj: Proj,
}

/// Where the weights of the experts are in the checkpoint.
#[derive(Clone, Copy, PartialEq, Eq, Structural, Debug)]
pub enum ExpertSource {
    /// Three tensors per expert.
    Separate,
    /// Two stacked tensors; `parallel` quantizes slice by slice on several
    /// threads, otherwise each stacked tensor is quantized whole and its bytes
    /// are split.
    Packed { parallel: bool },
}

/// Request for a slice of a stacked tensor, dense or quantized under `key`.
pub open spec fn slice_asked(
    path: Seq<char>,
    key: Seq<char>,
    stored: Shape,
    recipe: Recipe,
    shape: Shape,
    quant: Option<GgmlDType>,
    dtype: DType,
) -> Asked {
    match quant {
        None => changed(path, stored, recipe, shape, dtype),
        Some(q) => Asked { path, key, stored, recipe, quant: Some(q), shape, dtype },
    }
}

impl Mlp {
    pub open spec fn apply(self, x: Val) -> Val {
        self.down_proj.apply(
            bin(Op::Mul, un(Op::Silu, self.gate_proj.apply(x)), self.up_proj.apply(x)),
        )
    }

    pub open spec fn asked(
        self,
        l: Loader,
        h: usize,
        inter: usize,
        vb: Seq<char>,
        quant: Option<GgmlDType>,
    ) -> bool {
        let wide = suited(h, quant);
        &&& self.gate_proj.asked(l, h, inter, false, pp(vb, "gate_proj"@), wide)
        &&& self.up_proj.asked(l, h, inter, false, pp(vb, "up_proj"@), wide)
        &&& self.down_proj.asked(
            l,
            inter,
            h,
            false,
            pp(vb, "down_proj"@),
            suited(inter, quant),
        )
    }

    pub fn new(l: &mut Loader, h: usize, inter: usize, vb: &VarPath, quant: Option<GgmlDType>) -> (r:
        Mlp)
        ensures
            final(l).grew(*old(l)),
            final(l).added(*old(l), 3),
            r.asked(*final(l), h, inter, vb@, quant),
    {
        let gate_proj = qproj(l, h, inter, &vb.pp("gate_proj"), quant);
        let up_proj = qproj(l, h, inter, &vb.pp("up_proj"), quant);
        let down_proj = qproj(l, inter, h, &vb.pp("down_proj"), quant);
        Mlp { gate_proj, up_proj, down_proj }
    }

    pub fn forward(&self, t: &mut Tape, x: Tensor) -> (r: Tensor)
        requires
            old(t).has(x),
        ensures
            final(t).computed(*old(t)),
            final(t).has(r),
            r@ == self.apply(x@),
    {
        let g = self.gate_proj.forward(t, x);
        let g = t.un(Op::Silu, g);
        let u = self.up_proj.forward(t, x);
        let y = t.bin(Op::Mul, g, u);
        self.down_proj.forward(t, y)
    }

    /// Was asked for as slice `i` of the stacked tensors under `vb`, each
    /// projection cached under the name it has in unstacked checkpoints.
    pub open spec fn slice_of(
        self,
        l: Loader,
        e: usize,
        h: usize,
        inter: usize,
        i: usize,
        vb: Seq<char>,
        quant: Option<GgmlDType>,
    ) -> bool {
        let two = sat_product(2, inter);
        let own = pp(vb, decimal(i as nat));
        let gu = pp(vb, "gate_up_proj"@);
        let (q_gu, q_dn) = (suited(h, quant), suited(inter, quant));
        &&& self.gate_proj.bias_spec() is None
        &&& self.up_proj.bias_spec() is None
        &&& self.down_proj.bias_spec() is None
        &&& self.gate_proj is Quant <==> quant is Some
        &&& self.up_proj is Quant <==> quant is Some
        &&& self.down_proj is Quant <==> quant is Some
        &&& l.gives(
            self.gate_proj.weight_spec(),
            slice_asked(
                gu,
                pp(own, "gate_proj"@),
                d3(e, two, h),
                Recipe::Slice { row: i, index: 0, parts: 2 },
                d2(inter, h),
                q_gu,
                l.reads(),
            ),
        )
        &&& l.gives(
            self.up_proj.weight_spec(),
            slice_asked(
                gu,
                pp(own, "up_proj"@),
                d3(e, two, h),
                Recipe::Slice { row: i, index: 1, parts: 2 },
                d2(inter, h),
                q_gu,
                l.reads(),
            ),
        )
        &&& l.gives(
            self.down_proj.weight_spec(),
            slice_asked(
                pp(vb, "down_proj"@),
                pp(own, "down_proj"@),
                d3(e, h, inter),
                Recipe::Slice { row: i, index: 0, parts: 1 },
                d2(h, inter),
                q_dn,
                l.reads(),
            ),
        )
    }

    /// Asks for slice `i` of the stacked tensors.
    pub fn from_slices(
        l: &mut Loader,
        e: usize,
        h: usize,
        inter: usize,
        i: usize,
        vb: &VarPath,
        quant: Option<GgmlDType>,
    ) -> (r: Mlp)
        ensures
            final(l).grew(*old(l)),
            final(l).added(*old(l), 3),
            r.slice_of(*final(l), e, h, inter, i, vb@, quant),
    {
        let two: usize = saturating_product(2, inter);
        let own = vb.pp_index(i);
        let gate_proj = slice_proj(
            l,
            vb,
            "gate_up_proj",
            own.join("gate_proj"),
            d3(e, two, h),
            Recipe::Slice { row: i, index: 0, parts: 2 },
            d2(inter, h),
            h,
            quant,
        );
        let up_proj = slice_proj(
            l,
            vb,
            "gate_up_proj",
            own.join("up_proj"),
            d3(e, two, h),
            Recipe::Slice { row: i, index: 1, parts: 2 },
            d2(inter, h),
            h,
            quant,
        );
        let down_proj = slice_proj(
            l,
            vb,
            "down_proj",
            own.join("down_proj"),
            d3(e, h, inter),
            Recipe::Slice { row: i, index: 0, parts: 1 },
            d2(h, inter),
            inter,
            quant,
        );
        Mlp { gate_proj, up_proj, down_proj }
    }
}

/// Asks for a projection that is a slice of a stacked tensor, with `ins` input
/// elements.
fn slice_proj(
    l: &mut Loader,
    vb: &VarPath,
    name: &str,
    key: String,
    stored: Shape,
    recipe: Recipe,
    shape: Shape,
    ins: usize,
    quant: Option<GgmlDType>,
) -> (r: Proj)
    ensures
        final(l).grew(*old(l)),
        final(l).added(*old(l), 1),
        r.bias_spec() is None,
        r is Quant <==> quant is Some,
        final(l).gives(
            r.weight_spec(),
            slice_asked(
                pp(vb@, name@),
                key@,
                stored,
                recipe,
                shape,
                suited(ins, quant),
                old(l).reads(),
            ),
        ),
{
    match quant {
        None => {
            let dtype = l.dtype();
            let weight = l.get_changed(vb, name, stored, recipe, shape, dtype);
            Proj::Plain { weight, bias: None }
        },
        Some(q) => {
            let weight = l.get_quantized_slice(
                vb,
                name,
                key,
                stored,
                recipe,
                shape,
                quant_dtype_for(ins, q),
            );
            Proj::Quant { weight, bias: None }
        },
    }
}

/// Expert that every token passes, with a gate of its own.
#[derive(Clone, Copy, PartialEq, Eq, Structural, Debug)]
pub struct SharedExpert {
    pub mlp: Mlp,
    pub gate: Proj,
}

/// Routed experts: softmax over the router's logits, the `top_k` largest
/// renormalized, and a shared expert.
#[derive(Debug)]
pub struct SparseMoe {
    pub gate: Proj,
    pub experts: Vec<Mlp>,
    pub shared: Option<SharedExpert>,
    pub top_k: usize,
}

impl SparseMoe {
    /// There is an expert to choose, and one is chosen.
    pub open spec fn wf(self) -> bool {
        self.experts.len() > 0 && self.top_k > 0
    }

    /// Expert `i` was asked for.
    pub open spec fn expert_asked(
        m: Mlp,
        l: Loader,
        cfg: Qwen35TextConfig,
        i: int,
        vb: Seq<char>,
        quant: Option<GgmlDType>,
        source: ExpertSource,
    ) -> bool {
        let (h, inter) = (cfg.hidden_size, cfg.expert_width()->0);
        let name = pp(vb, "experts"@);
        match source {
            ExpertSource::Separate => m.asked(l, h, inter, pp(name, decimal(i as nat)), quant),
            ExpertSource::Packed { parallel } => m.slice_of(
                l,
                cfg.experts(),
                h,
                inter,
                i as usize,
                name,
                quant,
            ),
        }
    }

    pub open spec fn asked(
        self,
        l: Loader,
        cfg: Qwen35TextConfig,
        vb: Seq<char>,
        quant: Option<GgmlDType>,
        source: ExpertSource,
    ) -> bool {
        let h = cfg.hidden_size;
        &&& self.gate.asked(l, h, cfg.experts(), false, pp(vb, "gate"@), None)
        &&& self.experts.len() == cfg.experts()
        &&& forall|i: int|
            0 <= i < self.experts.len() ==> Self::expert_asked(
                #[trigger] self.experts[i],
                l,
                cfg,
                i,
                vb,
                quant,
                source,
            )
        &&& self.top_k == cfg.top_k()
        &&& self.shared is Some <==> (cfg.shared_expert_intermediate_size matches Some(n) && n > 0)
        &&& self.shared matches Some(s) ==> {
            &&& s.mlp.asked(
                l,
                h,
                cfg.shared_expert_intermediate_size->0,
                pp(vb, "shared_expert"@),
                quant,
            )
            &&& s.gate.asked(l, h, 1, false, pp(vb, "shared_expert_gate"@), None)
        }
    }

    /// How many tensors are asked for: three per expert, however they are stored,
    /// the router, and the shared expert with its gate.
    pub open spec fn tensors(cfg: Qwen35TextConfig) -> int {
        let shared: int = match cfg.shared_expert_intermediate_size {
            Some(n) => if n > 0 {
                4
            } else {
                0
            },
            None => 0,
        };
        3 * cfg.experts() + 1 + shared
    }

    /// Stacked tensors that are quantized whole are refused unless their rows
    /// are whole blocks.
    pub open spec fn refused(
        cfg: Qwen35TextConfig,
        quant: Option<GgmlDType>,
        source: ExpertSource,
    ) -> bool {
        match (quant, source) {
            (Some(q), ExpertSource::Packed { parallel: false }) => {
                let (h, inter) = (cfg.hidden_size, cfg.expert_width()->0);
                h % quant_dtype(h, q).block_size() != 0 || inter % quant_dtype(
                    inter,
                    q,
                ).block_size() != 0
            },
            _ => false,
        }
    }

    pub fn new(
        l: &mut Loader,
        cfg: &Qwen35TextConfig,
        vb: &VarPath,
        quant: Option<GgmlDType>,
        source: ExpertSource,
    ) -> (r: Result<SparseMoe, Error>)
        requires
            cfg.valid(),
            cfg.experts() > 0,
        ensures
            final(l).grew(*old(l)),
            r is Ok ==> final(l).added(*old(l), Self::tensors(*cfg)),
            Self::refused(*cfg, quant, source) ==> r == Err::<SparseMoe, Error>(
                Error::NotBlockAligned,
            ),
            !Self::refused(*cfg, quant, source) ==> r is Ok && r->Ok_0.asked(
                *final(l),
                *cfg,
                vb@,
                quant,
                source,
            ) && r->Ok_0.wf(),
    {
        let h: usize = cfg.hidden_size;
        let e: usize = cfg.expert_count();
        let inter: usize = match cfg.moe_intermediate_size {
            Some(n) => n,
            None => match cfg.intermediate_size {
                Some(n) => n,
                None => 0,
            },
        };
        if let (Some(q), ExpertSource::Packed { parallel: false }) = (quant, source) {
            let _plan = PackedExperts::plan(e, inter, h, q)?;
        }
        let evb = vb.pp("experts");
        let mut experts: Vec<Mlp> = Vec::new();
        let mut i: usize = 0;
        while i < e
            invariant
                i <= e,
                h == cfg.hidden_size,
                e == cfg.experts(),
                Some(inter) == cfg.expert_width(),
                evb@ == pp(vb@, "experts"@),
                l.grew(*old(l)),
                l.added(*old(l), 3 * i),
                experts.len() == i,
                forall|j: int|
                    0 <= j < i ==> Self::expert_asked(
                        #[trigger] experts[j],
                        *l,
                        *cfg,
                        j,
                        vb@,
                        quant,
                        source,
                    ),
            decreases e - i,
        {
            let ghost before = *l;
            let m = match source {
                ExpertSource::Separate => Mlp::new(l, h, inter, &evb.pp_index(i), quant),
                ExpertSource::Packed { parallel } => Mlp::from_slices(
                    l,
                    e,
                    h,
                    inter,
                    i,
                    &evb,
                    quant,
                ),
            };
            proof {
                assert forall|j: int| 0 <= j < i implies Self::expert_asked(
                    #[trigger] experts[j],
                    *l,
                    *cfg,
                    j,
                    vb@,
                    quant,
                    source,
                ) by {
                    lemma_expert_grows(experts[j], before, *l, *cfg, j, vb@, quant, source);
                }
            }
            experts.push(m);
            i += 1;
        }
        let ghost filled = *l;
        let shared = match cfg.shared_expert_intermediate_size {
            Some(si) => if si > 0 {
                let mlp = Mlp::new(l, h, si, &vb.pp("shared_expert"), quant);
                let gate = Proj::dense(l, h, 1, false, &vb.pp("shared_expert_gate"));
                Some(SharedExpert { mlp, gate })
            } else {
                None
            },
            None => None,
        };
        let gate = Proj::dense(l, h, e, false, &vb.pp("gate"));
        proof {
            assert forall|j: int| 0 <= j < experts.len() implies Self::expert_asked(
                #[trigger] experts[j],
                *l,
                *cfg,
                j,
                vb@,
                quant,
                source,
            ) by {
                lemma_expert_grows(experts[j], filled, *l, *cfg, j, vb@, quant, source);
            }
        }
        Ok(SparseMoe { gate, experts, shared, top_k: cfg.experts_per_tok() })
    }

    /// `x` as one row per token.
    pub open spec fn flat(x: Val) -> Val {
        un(Op::Reshape(d2(sat_product(x.shape.d0, x.shape.d1), x.shape.d2)), x)
    }

    /// What the router says of `x`.
    pub open spec fn probs(self, x: Val) -> Val {
        un(Op::SoftmaxLast, un(Op::ToDType(DType::F32), self.gate.apply(Self::flat(x))))
    }

    /// Records the probabilities that the host routes by.
    pub fn probabilities(&self, t: &mut Tape, x: Tensor) -> (r: Result<Tensor, Error>)
        requires
            old(t).has(x),
        ensures
            final(t).computed(*old(t)),
            x.shape.rank != 3 ==> r == Err::<Tensor, Error>(
                Error::UnexpectedRank { expected: 3, got: x.shape.rank },
            ),
            x.shape.rank == 3 ==> r is Ok && final(t).has(r->Ok_0) && r->Ok_0@ == self.probs(x@),
    {
        let (b, s, h) = x.dims3()?;
        let flat = t.un(Op::Reshape(d2(saturating_product(b, s), h)), x);
        let logits = self.gate.forward(t, flat);
        let logits = t.un(Op::ToDType(DType::F32), logits);
        Ok(t.un(Op::SoftmaxLast, logits))
    }

    /// Rows of probabilities are complete: one entry per expert, and at least
    /// one row.
    pub open spec fn rows_ok(self, rows: Seq<Seq<u32>>) -> Option<Error> {
        if rows.len() == 0 {
            Some(Error::EmptyPrompt)
        } else if forall|i: int| 0 <= i < rows.len() ==> #[trigger] rows[i].len()
            == self.experts.len() {
            None
        } else {
            Some(Error::ShapeMismatch)
        }
    }

    /// Chooses experts on the host.
    pub fn choose_experts(&self, rows: &Vec<Vec<u32>>) -> (r: Result<RoutingPlan, Error>)
        requires
            self.wf(),
        ensures
            match self.rows_ok(rows_view(*rows)) {
                Some(e) => r == Err::<RoutingPlan, Error>(e),
                None => r is Ok && is_plan(
                    rows_view(*rows),
                    self.top_k as int,
                    plan_view(r->Ok_0),
                ) && self.plan_ok(plan_view(r->Ok_0)),
            },
    {
        let ghost view = rows_view(*rows);
        if rows.len() == 0 {
            return Err(Error::EmptyPrompt);
        }
        let mut i: usize = 0;
        while i < rows.len()
            invariant
                i <= rows.len(),
                view == rows_view(*rows),
                forall|j: int| 0 <= j < i ==> #[trigger] view[j].len() == self.experts.len(),
            decreases rows.len() - i,
        {
            if rows[i].len() != self.experts.len() {
                assert(view[i as int].len() != self.experts.len());
                return Err(Error::ShapeMismatch);
            }
            i += 1;
        }
        let plan = route(rows, self.top_k);
        proof {
            law_plan_within(
                view,
                self.top_k as int,
                plan_view(plan),
                self.experts.len() as int,
            );
            assert forall|i: int| 0 <= i < plan.len() implies (#[trigger] plan_view(
                plan,
            )[i]).len() > 0 by {
                assert(view[i].len() == self.experts.len());
            }
        }
        Ok(plan)
    }

    /// Every token has at least one expert, and each is one of them.
    pub open spec fn plan_ok(self, plan: Seq<Seq<usize>>) -> bool {
        &&& plan.len() > 0
        &&& plan_within(plan, self.experts.len() as int)
        &&& forall|i: int| 0 <= i < plan.len() ==> (#[trigger] plan[i]).len() > 0
    }

    /// Choice `j` of token `tok`, weighted.
    pub open spec fn choice(
        self,
        flat: Val,
        gates: Val,
        plan: Seq<Seq<usize>>,
        tok: int,
        j: int,
    ) -> Val {
        let xt = un(Op::Narrow { dim: 0, start: tok as usize, len: 1 }, flat);
        let e = self.experts[plan[tok][j] as int];
        bin(
            Op::ScaleBy,
            e.apply(xt),
            pick_val(gates, seq![(tok as usize, j as usize)]),
        )
    }

    /// The first `n` choices of a token added up, in order.
    pub open spec fn token_sum(
        self,
        flat: Val,
        gates: Val,
        plan: Seq<Seq<usize>>,
        tok: int,
        n: int,
    ) -> Val
        decreases n,
    {
        if n <= 1 {
            self.choice(flat, gates, plan, tok, 0)
        } else {
            bin(
                Op::Add,
                self.token_sum(flat, gates, plan, tok, n - 1),
                self.choice(flat, gates, plan, tok, n - 1),
            )
        }
    }

    /// The first `n` tokens, one row each.
    pub open spec fn token_rows(self, flat: Val, gates: Val, plan: Seq<Seq<usize>>, n: int) -> Val
        decreases n,
    {
        let last = self.token_sum(flat, gates, plan, n - 1, plan[n - 1].len() as int);
        if n <= 1 {
            last
        } else {
            bin(Op::Cat(0), self.token_rows(flat, gates, plan, n - 1), last)
        }
    }

    /// The block with the experts in `plan`.
    pub open spec fn out(self, x: Val, probs: Val, plan: Seq<Seq<usize>>) -> Val {
        let gates = gates_val(GateRule::Renormalized, probs, plan);
        let rows = self.token_rows(Self::flat(x), gates, plan, plan.len() as int);
        let routed = un(Op::Reshape(d3(x.shape.d0, x.shape.d1, x.shape.d2)), rows);
        match self.shared {
            None => routed,
            Some(s) => {
                let gate = un(
                    Op::ToDType(x.dtype),
                    un(Op::Sigmoid, un(Op::ToDType(DType::F32), s.gate.apply(x))),
                );
                bin(Op::Add, routed, bin(Op::BroadcastMul, s.mlp.apply(x), gate))
            },
        }
    }

    fn run_choice(&self, t: &mut Tape, flat: Tensor, gates: Tensor, plan: &RoutingPlan, tok: usize, j: usize) -> (r:
        Tensor)
        requires
            old(t).has(flat),
            old(t).has(gates),
            self.plan_ok(plan_view(*plan)),
            tok < plan.len(),
            j < plan[tok as int].len(),
        ensures
            final(t).computed(*old(t)),
            final(t).has(r),
            r@ == self.choice(flat@, gates@, plan_view(*plan), tok as int, j as int),
    {
        assert(plan_view(*plan)[tok as int][j as int] < self.experts.len());
        let xt = t.un(Op::Narrow { dim: 0, start: tok, len: 1 }, flat);
        let y = self.experts[plan[tok][j]].forward(t, xt);
        let mut at: Vec<(usize, usize)> = Vec::new();
        at.push((tok, j));
        assert(at@ =~= seq![(tok, j)]);
        let w = t.pick(gates, at);
        t.bin(Op::ScaleBy, y, w)
    }

    /// Runs the experts that the host chose, token by token.
    pub fn forward(&self, t: &mut Tape, x: Tensor, probs: Tensor, plan: RoutingPlan) -> (r: Result<
        Tensor,
        Error,
    >)
        requires
            self.wf(),
            old(t).has(x),
            old(t).has(probs),
            self.plan_ok(plan_view(plan)),
        ensures
            final(t).computed(*old(t)),
            x.shape.rank != 3 ==> r == Err::<Tensor, Error>(
                Error::UnexpectedRank { expected: 3, got: x.shape.rank },
            ),
            x.shape.rank == 3 ==> r is Ok && final(t).has(r->Ok_0) && r->Ok_0@ == self.out(
                x@,
                probs@,
                plan_view(plan),
            ),
    {
        let (b, s, h) = x.dims3()?;
        let flat = t.un(Op::Reshape(d2(saturating_product(b, s), h)), x);
        let gates = t.gates(GateRule::Renormalized, probs, copy_plan(&plan));
        let ghost p = plan_view(plan);
        let mut rows: Option<Tensor> = None;
        let mut tok: usize = 0;
        while tok < plan.len()
            invariant
                tok <= plan.len(),
                p == plan_view(plan),
                self.plan_ok(p),
                t.computed(*old(t)),
                t.has(x),
                t.has(flat),
                t.has(gates),
                t.has_opt(rows),
                rows is Some <==> tok > 0,
                rows matches Some(y) ==> y@ == self.token_rows(flat@, gates@, p, tok as int),
            decreases plan.len() - tok,
        {
            assert(p[tok as int].len() > 0);
            let mut acc = self.run_choice(t, flat, gates, &plan, tok, 0);
            let mut j: usize = 1;
            while j < plan[tok].len()
                invariant
                    1 <= j <= plan[tok as int].len(),
                    tok < plan.len(),
                    p == plan_view(plan),
                    self.plan_ok(p),
                    t.computed(*old(t)),
                    t.has(x),
                    t.has(flat),
                    t.has(gates),
                    t.has_opt(rows),
                    t.has(acc),
                    acc@ == self.token_sum(flat@, gates@, p, tok as int, j as int),
                decreases plan[tok as int].len() - j,
            {
                let y = self.run_choice(t, flat, gates, &plan, tok, j);
                acc = t.bin(Op::Add, acc, y);
                j += 1;
            }
            rows = match rows {
                None => Some(acc),
                Some(before) => Some(t.bin(Op::Cat(0), before, acc)),
            };
            tok += 1;
        }
        let out = t.un(Op::Reshape(d3(b, s, h)), rows.unwrap());
        match self.shared {
            None => Ok(out),
            Some(se) => {
                let gate = se.gate.forward(t, x);
                let gate = t.un(Op::ToDType(DType::F32), gate);
                let gate = t.un(Op::Sigmoid, gate);
                let gate = t.un(Op::ToDType(x.dtype), gate);
                let sh = se.mlp.forward(t, x);
                let sh = t.bin(Op::BroadcastMul, sh, gate);
                Ok(t.bin(Op::Add, out, sh))
            },
        }
    }
}

/// What was asked for stays asked for.
pub proof fn lemma_expert_grows(
    m: Mlp,
    before: Loader,
    l: Loader,
    cfg: Qwen35TextConfig,
    i: int,
    vb: Seq<char>,
    quant: Option<GgmlDType>,
    source: ExpertSource,
)
    requires
        SparseMoe::expert_asked(m, before, cfg, i, vb, quant, source),
        l.grew(before),
    ensures
        SparseMoe::expert_asked(m, l, cfg, i, vb, quant, source),
{
}

/// The request of a projection's weight.
pub open spec fn request_of(l: Loader, p: Proj) -> Request {
    l.list()[p.weight_spec().id as int]
}

/// The projection was asked for in the same way of both loaders.
pub open spec fn same_request(p: Proj, l: Loader, q: Proj, m: Loader) -> bool {
    &&& p is Quant <==> q is Quant
    &&& p.bias_spec() is None
    &&& q.bias_spec() is None
    &&& request_of(l, p).asked() == request_of(m, q).asked()
}

/// Quantizing stacked experts whole or slice by slice is no matter of what is
/// asked for: both ways ask for the same tensors under the same names, expert
/// by expert, and for the same shared expert and router.
pub proof fn law_ways_ask_alike(
    serial: SparseMoe,
    l: Loader,
    parallel: SparseMoe,
    m: Loader,
    cfg: Qwen35TextConfig,
    vb: Seq<char>,
    quant: Option<GgmlDType>,
    i: int,
)
    requires
        serial.asked(l, cfg, vb, quant, ExpertSource::Packed { parallel: false }),
        parallel.asked(m, cfg, vb, quant, ExpertSource::Packed { parallel: true }),
        l.reads() == m.reads(),
        0 <= i < serial.experts.len(),
    ensures
        serial.experts.len() == parallel.experts.len(),
        serial.top_k == parallel.top_k,
        same_request(serial.experts[i].gate_proj, l, parallel.experts[i].gate_proj, m),
        same_request(serial.experts[i].up_proj, l, parallel.experts[i].up_proj, m),
        same_request(serial.experts[i].down_proj, l, parallel.experts[i].down_proj, m),
        same_request(serial.gate, l, parallel.gate, m),
        serial.shared is Some <==> parallel.shared is Some,
        serial.shared matches Some(a) ==> {
            let b = parallel.shared->0;
            &&& same_request(a.mlp.gate_proj, l, b.mlp.gate_proj, m)
            &&& same_request(a.mlp.up_proj, l, b.mlp.up_proj, m)
            &&& same_request(a.mlp.down_proj, l, b.mlp.down_proj, m)
            &&& same_request(a.gate, l, b.gate, m)
        },
{
    assert(SparseMoe::expert_asked(
        serial.experts[i],
        l,
        cfg,
        i,
        vb,
        quant,
        ExpertSource::Packed { parallel: false },
    ));
    assert(SparseMoe::expert_asked(
        parallel.experts[i],
        m,
        cfg,
        i,
        vb,
        quant,
        ExpertSource::Packed { parallel: true },
    ));
}

/// The names of the three projections of expert `i` in the cache.
pub open spec fn expert_keys(vb: Seq<char>, i: int) -> (Seq<char>, Seq<char>, Seq<char>) {
    let own = pp(pp(vb, "experts"@), decimal(i as nat));
    (pp(own, "gate_proj"@), pp(own, "up_proj"@), pp(own, "down_proj"@))
}

/// A quantized expert is served from a cache that holds its three projections
/// under their names: neither its weights nor the stacked tensors they are
/// slices of have to be read, and nothing is quantized. This holds of separate
/// and of stacked experts, in both ways of quantizing the latter.
pub proof fn law_warm_expert(
    moe: SparseMoe,
    l: Loader,
    cfg: Qwen35TextConfig,
    vb: Seq<char>,
    quant: Option<GgmlDType>,
    source: ExpertSource,
    cache: QCache,
    i: int,
)
    requires
        moe.asked(l, cfg, vb, quant, source),
        quant is Some,
        0 <= i < moe.experts.len(),
        cache.served() matches Some(names) && names.contains(expert_keys(vb, i).0)
            && names.contains(expert_keys(vb, i).1) && names.contains(expert_keys(vb, i).2),
    ensures
        warm(request_of(l, moe.experts[i].gate_proj), cache),
        warm(request_of(l, moe.experts[i].up_proj), cache),
        warm(request_of(l, moe.experts[i].down_proj), cache),
{
    reveal_strlit("gate_proj");
    reveal_strlit("up_proj");
    reveal_strlit("down_proj");
    let m = moe.experts[i];
    assert(SparseMoe::expert_asked(m, l, cfg, i, vb, quant, source));
    let (gate, up, down) = (
        request_of(l, m.gate_proj),
        request_of(l, m.up_proj),
        request_of(l, m.down_proj),
    );
    assert(gate.asked().key == expert_keys(vb, i).0);
    assert(up.asked().key == expert_keys(vb, i).1);
    assert(down.asked().key == expert_keys(vb, i).2);
    assert(gate.asked().quant is Some && up.asked().quant is Some && down.asked().quant is Some);
}

/// Feed-forward block of a layer.
#[derive(Debug)]
pub enum Ffn {
    Dense(Mlp),
    Moe(SparseMoe),
}

} // verus!
