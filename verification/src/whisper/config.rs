use vstd::prelude::*;

verus! {

/// Sizes of the two stacks.
#[derive(Clone, Copy, PartialEq, Eq, Structural, Debug)]
pub struct Config {
    pub num_mel_bins: usize,
    pub max_source_positions: usize,
    pub d_model: usize,
    pub encoder_attention_heads: usize,
    pub encoder_layers: usize,
    pub vocab_size: usize,
    pub max_target_positions: usize,
    pub decoder_attention_heads: usize,
    pub decoder_layers: usize,
}

impl Config {
    /// There are heads to divide by, positions have a frequency, and the causal
    /// mask can be written down.
    pub open spec fn valid(self) -> bool {
        &&& self.d_model >= 2
        &&& self.encoder_attention_heads > 0
        &&& self.decoder_attention_heads > 0
        &&& self.max_target_positions * self.max_target_positions <= usize::MAX
    }

    pub fn is_valid(&self) -> (r: bool)
        ensures
            r == self.valid(),
    {
        let n: usize = self.max_target_positions;
        self.d_model >= 2 && self.encoder_attention_heads > 0 && self.decoder_attention_heads > 0
            && n.checked_mul(n).is_some()
    }
}

} // verus!
