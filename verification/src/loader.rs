//! What a model asks of its checkpoint: names, shapes and block types.
use vstd::prelude::*;

use crate::dtype::DType;
use crate::quant::{moe_quant_dtype, moe_quant_dtype_for, GgmlDType};
use crate::shape::{d1, d2, Shape};
use crate::tape::{bin, leaf, un, Op, Tape, Tensor, Val, Weight};

verus! {

/// A dotted name in a checkpoint.
#[derive(Debug)]
pub struct VarPath {
    pub text: String,
}

impl View for VarPath {
    type V = Seq<char>;

    open spec fn view(&self) -> Seq<char> {
        self.text@
    }
}

/// `prefix.name`, or `name` alone at the root.
pub open spec fn pp(prefix: Seq<char>, name: Seq<char>) -> Seq<char> {
    if prefix.len() == 0 {
        name
    } else {
        prefix + "."@ + name
    }
}

pub open spec fn digit(d: int) -> Seq<char> {
    if d == 0 {
        "0"@
    } else if d == 1 {
        "1"@
    } else if d == 2 {
        "2"@
    } else if d == 3 {
        "3"@
    } else if d == 4 {
        "4"@
    } else if d == 5 {
        "5"@
    } else if d == 6 {
        "6"@
    } else if d == 7 {
        "7"@
    } else if d == 8 {
        "8"@
    } else {
        "9"@
    }
}

/// A number in decimal digits.
pub open spec fn decimal(n: nat) -> Seq<char>
    decreases n,
{
    if n < 10 {
        digit(n as int)
    } else {
        decimal(n / 10) + digit(n as int % 10)
    }
}

fn digit_text(d: usize) -> (r: &'static str)
    requires
        d < 10,
    ensures
        r@ == digit(d as int),
{
    if d == 0 {
        "0"
    } else if d == 1 {
        "1"
    } else if d == 2 {
        "2"
    } else if d == 3 {
        "3"
    } else if d == 4 {
        "4"
    } else if d == 5 {
        "5"
    } else if d == 6 {
        "6"
    } else if d == 7 {
        "7"
    } else if d == 8 {
        "8"
    } else {
        "9"
    }
}

/// The decimal digits of `n`.
pub fn decimal_text(n: usize) -> (r: String)
    ensures
        r@ == decimal(n as nat),
    decreases n,
{
    let mut s = if n < 10 { String::new() } else { decimal_text(n / 10) };
    s.append(digit_text(n % 10));
    assert(s@ =~= decimal(n as nat));
    s
}

impl VarPath {
    /// The name without components.
    pub fn root() -> (r: VarPath)
        ensures
            r@ == Seq::<char>::empty(),
    {
        VarPath { text: String::new() }
    }

    /// The name with one more component.
    pub fn pp(&self, name: &str) -> (r: VarPath)
        ensures
            r@ == pp(self@, name@),
    {
        VarPath { text: self.join(name) }
    }

    /// The name with a number as one more component.
    pub fn pp_index(&self, i: usize) -> (r: VarPath)
        ensures
            r@ == pp(self@, decimal(i as nat)),
    {
        let digits = decimal_text(i);
        VarPath { text: self.join(digits.as_str()) }
    }

    /// The full name of a tensor under this one.
    pub fn join(&self, name: &str) -> (r: String)
        ensures
            r@ == pp(self@, name@),
    {
        let mut s = self.text.clone();
        if s.as_str().unicode_len() > 0 {
            s.append(".");
        }
        s.append(name);
        assert(s@ =~= pp(self@, name@));
        s
    }

    pub fn copy(&self) -> (r: VarPath)
        ensures
            r@ == self@,
    {
        VarPath { text: self.text.clone() }
    }
}

/// What becomes of a checkpoint tensor on its way to being a weight.
#[derive(Clone, Copy, PartialEq, Eq, Structural, Debug)]
pub enum Recipe {
    /// Taken as it is stored.
    AsStored,
    /// Read in the element type of the loader, then converted.
    Converted,
    /// Its last two axes exchanged.
    Transposed,
    /// Its middle axis, of extent one, dropped, and converted.
    Squeezed,
    /// Converted, and one added to every element.
    PlusOne,
    /// Converted, and `-exp(x)` taken of every element.
    NegExp,
    /// A copy of the weight with this number.
    CopyOf(usize),
    /// Part `index` of `parts` of row block `row` of the stacked tensor.
    Slice { row: usize, index: usize, parts: usize },
    /// Cosines of positions times inverse frequencies.
    RopeCos(RopeTable),
    /// Sines of positions times inverse frequencies.
    RopeSin(RopeTable),
    /// Sines, then cosines, of positions times geometric frequencies.
    Sinusoids,
    /// The whole image encoder under this name.
    SamEncoder(SamConfig),
}

/// Sizes of an image encoder with windowed attention.
#[derive(Clone, Copy, PartialEq, Eq, Structural, Debug)]
pub struct SamConfig {
    pub img_size: usize,
    pub patch_size: usize,
    pub in_chans: usize,
    pub embed_dim: usize,
    pub depth: usize,
    pub num_heads: usize,
    pub out_chans: usize,
    pub qkv_bias: bool,
    pub use_rel_pos: bool,
    pub use_abs_pos: bool,
    pub window_size: usize,
    /// Every block whose number is this modulo `global_every` attends globally.
    pub global_first: usize,
    pub global_every: usize,
}

impl SamConfig {
    /// Block `i` attends globally.
    pub open spec fn global(self, i: int) -> bool {
        0 <= i < self.depth && i % self.global_every as int == self.global_first
    }

    /// The blocks that attend globally, in order.
    pub fn global_blocks(&self) -> (r: Vec<usize>)
        requires
            self.global_every > 0,
        ensures
            forall|k: int| 0 <= k < r.len() ==> self.global(#[trigger] r[k] as int),
            forall|k: int, l: int| 0 <= k < l < r.len() ==> #[trigger] r[k] < #[trigger] r[l],
            forall|i: usize| #[trigger] self.global(i as int) ==> r@.contains(i),
    {
        let mut r: Vec<usize> = Vec::new();
        let mut i: usize = 0;
        while i < self.depth
            invariant
                i <= self.depth,
                self.global_every > 0,
                forall|k: int| 0 <= k < r.len() ==> self.global(#[trigger] r[k] as int) && r[k] < i,
                forall|k: int, l: int| 0 <= k < l < r.len() ==> #[trigger] r[k] < #[trigger] r[l],
                forall|j: usize| j < i && #[trigger] self.global(j as int) ==> r@.contains(j),
            decreases self.depth - i,
        {
            let ghost before = r@;
            if i % self.global_every == self.global_first {
                r.push(i);
                assert(r@[before.len() as int] == i);
                assert forall|j: usize| j <= i && #[trigger] self.global(
                    j as int,
                ) implies r@.contains(j) by {
                    if j < i {
                        let k = choose|k: int| 0 <= k < before.len() && before[k] == j;
                        assert(r@[k] == j);
                    }
                }
            }
            i += 1;
        }
        r
    }
}

/// Precision in which a rotary table is computed.
#[derive(Clone, Copy, PartialEq, Eq, Structural, Debug)]
pub enum RopePrecision {
    /// Powers in double precision, then angles in the element type of the
    /// table.
    TableType,
    /// Powers and angles in single precision.
    Single,
    /// Powers in double precision, angles in single precision.
    DoublePowers,
}

/// Frequencies of a rotary table: the first `angles` are `theta^-(2i/dim)`,
/// the others are zero.
#[derive(Clone, Copy, PartialEq, Eq, Structural, Debug)]
pub struct RopeTable {
    pub theta: u64,
    pub dim: usize,
    pub angles: usize,
    pub precision: RopePrecision,
}

/// One tensor that the executor has to provide.
#[derive(Debug)]
pub struct Request {
    /// Name in the checkpoint.
    pub path: String,
    /// Name in the cache of quantized tensors; empty for one that is not cached.
    pub key: String,
    /// Shape in the checkpoint.
    pub stored: Shape,
    pub recipe: Recipe,
    pub quant: Option<GgmlDType>,
    pub weight: Weight,
}

/// A request without its weight number.
pub struct Asked {
    pub path: Seq<char>,
    pub key: Seq<char>,
    pub stored: Shape,
    pub recipe: Recipe,
    pub quant: Option<GgmlDType>,
    pub shape: Shape,
    pub dtype: DType,
}

impl Request {
    pub open spec fn asked(self) -> Asked {
        Asked {
            path: self.path@,
            key: self.key@,
            stored: self.stored,
            recipe: self.recipe,
            quant: self.quant,
            shape: self.weight.shape,
            dtype: self.weight.dtype,
        }
    }
}

/// A tensor taken as it is stored.
pub open spec fn plain(path: Seq<char>, shape: Shape, dtype: DType) -> Asked {
    Asked {
        path,
        key: Seq::empty(),
        stored: shape,
        recipe: Recipe::AsStored,
        quant: None,
        shape,
        dtype,
    }
}

/// A tensor changed on the way.
pub open spec fn changed(
    path: Seq<char>,
    stored: Shape,
    recipe: Recipe,
    shape: Shape,
    dtype: DType,
) -> Asked {
    Asked { path, key: Seq::empty(), stored, recipe, quant: None, shape, dtype }
}

/// A tensor quantized at load, under `key` in the cache.
pub open spec fn quantized(
    path: Seq<char>,
    key: Seq<char>,
    shape: Shape,
    recipe: Recipe,
    quant: GgmlDType,
    dtype: DType,
) -> Asked {
    Asked { path, key, stored: shape, recipe, quant: Some(quant), shape, dtype }
}

/// The list of tensors asked for so far.
pub struct Loader {
    requests: Vec<Request>,
    /// Element type that weights are read in.
    dtype: DType,
}

impl Loader {
    pub closed spec fn list(&self) -> Seq<Request> {
        self.requests@
    }

    /// Element type that weights are read in.
    pub closed spec fn reads(&self) -> DType {
        self.dtype
    }

    /// `w` was asked for, as `a` says.
    pub open spec fn gives(&self, w: Weight, a: Asked) -> bool {
        &&& w.id < self.list().len()
        &&& self.list()[w.id as int].weight == w
        &&& self.list()[w.id as int].asked() == a
    }

    pub open spec fn grew(&self, before: Loader) -> bool {
        &&& self.reads() == before.reads()
        &&& before.list().len() <= self.list().len()
        &&& forall|w: Weight, a: Asked| before.gives(w, a) ==> #[trigger] self.gives(w, a)
    }

    /// Exactly `n` tensors were asked for since `before`.
    pub open spec fn added(&self, before: Loader, n: int) -> bool {
        self.list().len() == before.list().len() + n
    }

    pub fn new(dtype: DType) -> (l: Loader)
        ensures
            l.reads() == dtype,
            l.list().len() == 0,
    {
        Loader { requests: Vec::new(), dtype }
    }

    pub fn dtype(&self) -> (d: DType)
        ensures
            d == self.reads(),
    {
        self.dtype
    }

    /// Everything that was asked for, in order.
    pub fn finish(self) -> (requests: Vec<Request>)
        ensures
            requests@ == self.list(),
    {
        self.requests
    }

    pub fn count(&self) -> (n: usize)
        ensures
            n == self.list().len(),
    {
        self.requests.len()
    }

    fn ask(
        &mut self,
        path: String,
        key: String,
        stored: Shape,
        recipe: Recipe,
        quant: Option<GgmlDType>,
        shape: Shape,
        dtype: DType,
    ) -> (w: Weight)
        ensures
            final(self).grew(*old(self)),
            final(self).added(*old(self), 1),
            w.shape == shape,
            w.dtype == dtype,
            final(self).gives(
                w,
                Asked { path: path@, key: key@, stored, recipe, quant, shape, dtype },
            ),
    {
        let weight = Weight { id: self.requests.len(), shape, dtype };
        self.requests.push(Request { path, key, stored, recipe, quant, weight });
        weight
    }

    /// Asks for a tensor as it is stored.
    pub fn get(&mut self, vb: &VarPath, name: &str, shape: Shape) -> (w: Weight)
        ensures
            final(self).grew(*old(self)),
            final(self).added(*old(self), 1),
            w.shape == shape,
            w.dtype == old(self).reads(),
            final(self).gives(w, plain(pp(vb@, name@), shape, old(self).reads())),
    {
        let dtype = self.dtype;
        self.ask(vb.join(name), String::new(), shape, Recipe::AsStored, None, shape, dtype)
    }

    /// Asks for a tensor in another element type.
    pub fn get_as(&mut self, vb: &VarPath, name: &str, shape: Shape, dtype: DType) -> (w: Weight)
        ensures
            final(self).grew(*old(self)),
            final(self).added(*old(self), 1),
            w.shape == shape,
            w.dtype == dtype,
            final(self).gives(w, plain(pp(vb@, name@), shape, dtype)),
    {
        self.ask(vb.join(name), String::new(), shape, Recipe::AsStored, None, shape, dtype)
    }

    /// Asks for a tensor that is changed on the way.
    pub fn get_changed(
        &mut self,
        vb: &VarPath,
        name: &str,
        stored: Shape,
        recipe: Recipe,
        shape: Shape,
        dtype: DType,
    ) -> (w: Weight)
        ensures
            final(self).grew(*old(self)),
            final(self).added(*old(self), 1),
            w.shape == shape,
            w.dtype == dtype,
            final(self).gives(w, changed(pp(vb@, name@), stored, recipe, shape, dtype)),
    {
        self.ask(vb.join(name), String::new(), stored, recipe, None, shape, dtype)
    }

    /// Asks for a tensor that is quantized at load and cached under `key`.
    pub fn get_quantized(
        &mut self,
        vb: &VarPath,
        name: &str,
        key: String,
        shape: Shape,
        recipe: Recipe,
        quant: GgmlDType,
    ) -> (w: Weight)
        ensures
            final(self).grew(*old(self)),
            final(self).added(*old(self), 1),
            w.shape == shape,
            w.dtype == old(self).reads(),
            final(self).gives(
                w,
                quantized(pp(vb@, name@), key@, shape, recipe, quant, old(self).reads()),
            ),
    {
        let dtype = self.dtype;
        self.ask(vb.join(name), key, shape, recipe, Some(quant), shape, dtype)
    }
}

impl Loader {
    /// Asks for row block `row` of a stacked tensor, quantized at load.
    pub fn get_quantized_slice(
        &mut self,
        vb: &VarPath,
        name: &str,
        key: String,
        stored: Shape,
        recipe: Recipe,
        shape: Shape,
        quant: GgmlDType,
    ) -> (w: Weight)
        ensures
            final(self).grew(*old(self)),
            final(self).added(*old(self), 1),
            w.shape == shape,
            w.dtype == old(self).reads(),
            final(self).gives(
                w,
                Asked {
                    path: pp(vb@, name@),
                    key: key@,
                    stored,
                    recipe,
                    quant: Some(quant),
                    shape,
                    dtype: old(self).reads(),
                },
            ),
    {
        let dtype = self.dtype;
        self.ask(vb.join(name), key, stored, recipe, Some(quant), shape, dtype)
    }
}

/// A linear projection, dense or quantized.
#[derive(Clone, Copy, PartialEq, Eq, Structural, Debug)]
pub enum Proj {
    Plain { weight: Weight, bias: Option<Weight> },
    Quant { weight: Weight, bias: Option<Weight> },
}

impl Proj {
    /// The projection of `x`.
    pub open spec fn apply(self, x: Val) -> Val {
        match self {
            Proj::Plain { weight, bias: None } => un(Op::Linear(weight), x),
            Proj::Plain { weight, bias: Some(b) } => un(Op::LinearBias(weight, b), x),
            Proj::Quant { weight, bias: None } => un(Op::QMatMul(weight), x),
            Proj::Quant { weight, bias: Some(b) } => bin(
                Op::BroadcastAdd,
                un(Op::QMatMul(weight), x),
                leaf(Op::Param(b)),
            ),
        }
    }

    pub open spec fn weight_spec(self) -> Weight {
        match self {
            Proj::Plain { weight, bias } => weight,
            Proj::Quant { weight, bias } => weight,
        }
    }

    pub open spec fn bias_spec(self) -> Option<Weight> {
        match self {
            Proj::Plain { weight, bias } => bias,
            Proj::Quant { weight, bias } => bias,
        }
    }

    /// How many tensors a projection is: its weight, and its bias if it has one.
    pub open spec fn tensors(bias: bool) -> int {
        if bias {
            2
        } else {
            1
        }
    }

    /// The projection was asked of `l` under the name `vb`: `[outs, ins]`, with
    /// a bias or without, dense or quantized to `quant`.
    pub open spec fn asked(
        self,
        l: Loader,
        ins: usize,
        outs: usize,
        bias: bool,
        vb: Seq<char>,
        quant: Option<GgmlDType>,
    ) -> bool {
        &&& self is Quant <==> quant is Some
        &&& l.gives(
            self.weight_spec(),
            match quant {
                None => plain(pp(vb, "weight"@), d2(outs, ins), l.reads()),
                Some(q) => quantized(
                    pp(vb, "weight"@),
                    vb,
                    d2(outs, ins),
                    Recipe::AsStored,
                    q,
                    l.reads(),
                ),
            },
        )
        &&& self.bias_spec() is Some <==> bias
        &&& bias ==> l.gives(
            self.bias_spec()->0,
            if quant is Some {
                changed(pp(vb, "bias"@), d1(outs), Recipe::Converted, d1(outs), DType::F32)
            } else {
                plain(pp(vb, "bias"@), d1(outs), l.reads())
            },
        )
    }

    /// Asks for a projection; with `quant` it is quantized at load to the type
    /// that suits its reduction dim.
    pub fn new(
        l: &mut Loader,
        ins: usize,
        outs: usize,
        bias: bool,
        vb: &VarPath,
        quant: Option<GgmlDType>,
    ) -> (r: Proj)
        ensures
            final(l).grew(*old(l)),
            final(l).added(*old(l), Self::tensors(bias)),
            r.asked(*final(l), ins, outs, bias, vb@, fitted(ins, quant)),
    {
        match quant {
            None => Self::dense(l, ins, outs, bias, vb),
            Some(q) => Self::blocks(l, ins, outs, bias, vb, moe_quant_dtype_for(ins, q)),
        }
    }

    /// Asks for a dense projection.
    pub fn dense(l: &mut Loader, ins: usize, outs: usize, bias: bool, vb: &VarPath) -> (r: Proj)
        ensures
            final(l).grew(*old(l)),
            final(l).added(*old(l), Self::tensors(bias)),
            r.asked(*final(l), ins, outs, bias, vb@, None),
    {
        let weight = l.get(vb, "weight", d2(outs, ins));
        let bias = if bias { Some(l.get(vb, "bias", d1(outs))) } else { None };
        Proj::Plain { weight, bias }
    }

    /// Asks for a projection quantized to `q`.
    pub fn blocks(
        l: &mut Loader,
        ins: usize,
        outs: usize,
        bias: bool,
        vb: &VarPath,
        q: GgmlDType,
    ) -> (r: Proj)
        ensures
            final(l).grew(*old(l)),
            final(l).added(*old(l), Self::tensors(bias)),
            r.asked(*final(l), ins, outs, bias, vb@, Some(q)),
    {
        let key = vb.text.clone();
        let weight = l.get_quantized(vb, "weight", key, d2(outs, ins), Recipe::AsStored, q);
        let bias = if bias {
            Some(l.get_changed(vb, "bias", d1(outs), Recipe::Converted, d1(outs), DType::F32))
        } else {
            None
        };
        Proj::Quant { weight, bias }
    }

    /// Records the projection of `x`.
    pub fn forward(&self, t: &mut Tape, x: Tensor) -> (r: Tensor)
        requires
            old(t).has(x),
        ensures
            final(t).computed(*old(t)),
            final(t).has(r),
            r@ == self.apply(x@),
    {
        match *self {
            Proj::Plain { weight, bias: None } => t.un(Op::Linear(weight), x),
            Proj::Plain { weight, bias: Some(b) } => t.un(Op::LinearBias(weight, b), x),
            Proj::Quant { weight, bias: None } => t.un(Op::QMatMul(weight), x),
            Proj::Quant { weight, bias: Some(b) } => {
                let y = t.un(Op::QMatMul(weight), x);
                let b = t.leaf(Op::Param(b));
                t.bin(Op::BroadcastAdd, y, b)
            },
        }
    }
}

/// The block type that a projection from `ins` elements gets.
pub open spec fn fitted(ins: usize, quant: Option<GgmlDType>) -> Option<GgmlDType> {
    match quant {
        None => None,
        Some(q) => Some(moe_quant_dtype(ins, q)),
    }
}

} // verus!
