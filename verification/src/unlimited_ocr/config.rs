use vstd::prelude::*;

verus! {

/// Bits of `10000` in double precision.
pub fn default_rope_theta() -> (r: u64)
    ensures
        r == 0x40c3_8800_0000_0000,
{
    0x40c3_8800_0000_0000
}

/// Bits of `1e-6` in double precision.
pub fn default_eps() -> (r: u64)
    ensures
        r == 0x3eb0_c6f7_a0b5_ed8d,
{
    0x3eb0_c6f7_a0b5_ed8d
}

pub fn default_max_pos() -> (r: usize)
    ensures
        r == 32768,
{
    32768
}

/// Configuration of the text decoder; doubles are given by their bits.
#[derive(Debug)]
pub struct UnlimitedOcrTextConfig {
    pub hidden_size: usize,
    pub intermediate_size: usize,
    pub moe_intermediate_size: usize,
    pub num_hidden_layers: usize,
    pub num_attention_heads: usize,
    pub num_key_value_heads: usize,
    pub v_head_dim: usize,
    pub vocab_size: usize,
    pub n_routed_experts: usize,
    pub n_shared_experts: usize,
    pub num_experts_per_tok: usize,
    pub first_k_dense_replace: usize,
    pub sliding_window_size: Option<usize>,
    pub rope_theta: u64,
    pub rms_norm_eps: u64,
    pub max_position_embeddings: usize,
}

impl UnlimitedOcrTextConfig {
    #[verifier::allow_in_spec]
    pub fn head_dim(&self) -> usize
        returns
            self.v_head_dim,
    {
        self.v_head_dim
    }

    /// Layer `i` has routed experts.
    pub open spec fn routed(&self, i: int) -> bool {
        i >= self.first_k_dense_replace
    }
}

} // verus!
