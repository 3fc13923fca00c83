use vstd::prelude::*;

use crate::shape::{
    d2, d3, sat_product, sat_sum, saturating_product, saturating_sum, Shape,
};
use crate::static_decode::scan_shared_bytes;

verus! {

/// Bits of `1e7` in double precision.
pub const THETA_DEFAULT: u64 = 0x4163_12d0_0000_0000;

/// Bits of the number one in double precision.
pub fn default_one() -> (r: u64)
    ensures
        r == 0x3ff0_0000_0000_0000,
{
    0x3ff0_0000_0000_0000
}

pub fn default_conv_kernel() -> (r: usize)
    ensures
        r == 4,
{
    4
}

pub fn default_true() -> (r: bool)
    ensures
        r,
{
    true
}

/// Rotary settings in the form of newer checkpoints. Real numbers are held by
/// the bits of their double-precision form, here and below.
#[derive(Clone, Copy, PartialEq, Eq, Structural, Debug)]
pub struct RopeParameters {
    pub rope_theta: Option<u64>,
    pub partial_rotary_factor: Option<u64>,
}

#[derive(Debug)]
pub struct Qwen35TextConfig {
    pub hidden_size: usize,
    pub num_attention_heads: usize,
    pub num_key_value_heads: usize,
    pub num_hidden_layers: usize,
    pub intermediate_size: Option<usize>,
    pub vocab_size: usize,
    pub head_dim: Option<usize>,
    pub rope_theta: Option<u64>,
    pub rope_parameters: Option<RopeParameters>,
    pub rms_norm_eps: u64,
    /// The query projection also holds a gate per head, and the attention
    /// output is multiplied by its sigmoid.
    pub attn_output_gate: bool,
    pub tie_word_embeddings: bool,
    pub partial_rotary_factor: u64,
    /// `linear_attention` or `full_attention` per layer.
    pub layer_types: Vec<String>,
    pub linear_num_key_heads: usize,
    pub linear_num_value_heads: usize,
    pub linear_key_head_dim: usize,
    pub linear_value_head_dim: usize,
    pub linear_conv_kernel_dim: usize,
    pub num_experts: Option<usize>,
    pub num_experts_per_tok: Option<usize>,
    pub moe_intermediate_size: Option<usize>,
    pub shared_expert_intermediate_size: Option<usize>,
}

impl Qwen35TextConfig {
    pub open spec fn experts(&self) -> usize {
        match self.num_experts {
            Some(n) => n,
            None => 0,
        }
    }

    pub open spec fn top_k(&self) -> usize {
        match self.num_experts_per_tok {
            Some(n) => n,
            None => 8,
        }
    }

    /// Width of the routed experts.
    pub open spec fn expert_width(&self) -> Option<usize> {
        match self.moe_intermediate_size {
            Some(n) => Some(n),
            None => self.intermediate_size,
        }
    }

    /// Shape of the convolution window of a delta-net layer.
    pub open spec fn conv_shape(&self) -> Shape {
        let key = sat_product(self.linear_num_key_heads, self.linear_key_head_dim);
        let value = sat_product(self.linear_num_value_heads, self.linear_value_head_dim);
        d2(sat_sum(sat_product(2, key), value), self.linear_conv_kernel_dim)
    }

    /// Shape of the recurrent state of a delta-net layer.
    pub open spec fn s_shape(&self) -> Shape {
        d3(self.linear_num_value_heads, self.linear_value_head_dim, self.linear_key_head_dim)
    }

    /// The state of a delta-net layer can be addressed.
    pub open spec fn state_fits(&self) -> bool {
        &&& self.conv_shape().countable()
        &&& self.s_shape().countable()
        &&& scan_shared_bytes(self.linear_key_head_dim as int) <= usize::MAX
    }

    /// There are heads to divide by, the convolution has a tap, every
    /// feed-forward block has a width, and recurrent state can be addressed.
    pub open spec fn valid(&self) -> bool {
        &&& self.state_fits()
        &&& self.num_attention_heads > 0
        &&& self.num_key_value_heads > 0
        &&& self.linear_conv_kernel_dim > 0
        &&& if self.experts() > 0 {
            self.expert_width() is Some && self.top_k() > 0
        } else {
            self.intermediate_size is Some
        }
    }

    pub fn is_valid(&self) -> (r: bool)
        ensures
            r == self.valid(),
    {
        let key: usize = saturating_product(self.linear_num_key_heads, self.linear_key_head_dim);
        let value: usize = saturating_product(
            self.linear_num_value_heads,
            self.linear_value_head_dim,
        );
        let conv = d2(
            saturating_sum(saturating_product(2, key), value),
            self.linear_conv_kernel_dim,
        );
        let s = d3(
            self.linear_num_value_heads,
            self.linear_value_head_dim,
            self.linear_key_head_dim,
        );
        let room = self.linear_key_head_dim <= usize::MAX / 264;
        let experts = self.expert_count();
        let ffn = if experts > 0 {
            (self.moe_intermediate_size.is_some() || self.intermediate_size.is_some())
                && self.experts_per_tok() > 0
        } else {
            self.intermediate_size.is_some()
        };
        conv.is_countable() && s.is_countable() && room && self.num_attention_heads > 0
            && self.num_key_value_heads > 0 && self.linear_conv_kernel_dim > 0 && ffn
    }

    pub fn expert_count(&self) -> (r: usize)
        ensures
            r == self.experts(),
    {
        match self.num_experts {
            Some(n) => n,
            None => 0,
        }
    }

    pub fn experts_per_tok(&self) -> (r: usize)
        ensures
            r == self.top_k(),
    {
        match self.num_experts_per_tok {
            Some(n) => n,
            None => 8,
        }
    }

    pub open spec fn head_dim_spec(&self) -> usize {
        match self.head_dim {
            Some(n) => n,
            None => self.hidden_size / self.num_attention_heads,
        }
    }

    pub fn head_dim(&self) -> (r: usize)
        requires
            self.num_attention_heads > 0,
        ensures
            r == self.head_dim_spec(),
    {
        match self.head_dim {
            Some(n) => n,
            None => self.hidden_size / self.num_attention_heads,
        }
    }

    pub open spec fn theta_spec(&self) -> u64 {
        match self.rope_parameters {
            Some(RopeParameters { rope_theta: Some(t), partial_rotary_factor: _ }) => t,
            _ => match self.rope_theta {
                Some(t) => t,
                None => THETA_DEFAULT,
            },
        }
    }

    /// Base of the rotary frequencies: the newer setting, then the older one,
    /// then ten million.
    pub fn theta(&self) -> (r: u64)
        ensures
            r == self.theta_spec(),
    {
        let newer = match self.rope_parameters {
            Some(p) => p.rope_theta,
            None => None,
        };
        match newer {
            Some(t) => t,
            None => match self.rope_theta {
                Some(t) => t,
                None => THETA_DEFAULT,
            },
        }
    }

    /// Share of a head's dims that rotates: the newer setting, else the older.
    pub fn rotary_factor(&self) -> (r: u64)
        ensures
            r == (match self.rope_parameters {
                Some(RopeParameters { rope_theta: _, partial_rotary_factor: Some(f) }) => f,
                _ => self.partial_rotary_factor,
            }),
    {
        let newer = match self.rope_parameters {
            Some(p) => p.partial_rotary_factor,
            None => None,
        };
        match newer {
            Some(f) => f,
            None => self.partial_rotary_factor,
        }
    }

    pub open spec fn linear(&self, layer: int) -> bool {
        layer < self.layer_types.len() && self.layer_types[layer]@ == "linear_attention"@
    }

    /// The layer mixes by the delta rule. Layers without a type do not.
    pub fn is_linear(&self, layer: usize) -> (r: bool)
        ensures
            r == self.linear(layer as int),
    {
        if layer < self.layer_types.len() {
            let linear = "linear_attention".to_owned();
            self.layer_types[layer] == linear
        } else {
            false
        }
    }
}

} // verus!
