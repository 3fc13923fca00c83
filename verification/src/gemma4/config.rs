use vstd::prelude::*;

use crate::dtype::Activation;

verus! {

/// Reach of a layer's attention.
#[derive(Clone, Copy, PartialEq, Eq, Structural, Debug)]
pub enum LayerType {
    Sliding,
    Full,
}

/// Dimensions and switches of a checkpoint. Real numbers are held by the bits
/// of their double-precision form.
#[derive(Debug)]
pub struct Gemma4TextConfig {
    pub vocab_size: usize,
    pub hidden_size: usize,
    pub intermediate_size: usize,
    pub num_hidden_layers: usize,
    pub num_attention_heads: usize,
    pub num_key_value_heads: usize,
    /// Key/value heads of the full-attention layers, where they differ.
    pub num_global_key_value_heads: Option<usize>,
    pub head_dim: usize,
    pub global_head_dim: usize,
    pub hidden_activation: Activation,
    pub rms_norm_eps: u64,
    pub attention_bias: bool,
    pub layer_types: Vec<LayerType>,
    pub sliding_window: usize,
    /// Positions that the cache of a sliding layer keeps.
    pub effective_sliding_window: usize,
    pub max_position_embeddings: usize,
    pub rope_theta: u64,
    pub rope_local_base_freq: u64,
    /// Frequencies that rotate in a full-attention layer.
    pub rope_angles: usize,
    pub tie_word_embeddings: bool,
    pub final_logit_softcapping: Option<u64>,
    pub hidden_size_per_layer_input: usize,
    pub vocab_size_per_layer_input: usize,
    pub num_kv_shared_layers: usize,
    pub use_double_wide_mlp: bool,
    pub attention_k_eq_v: bool,
    pub enable_moe_block: bool,
    pub num_experts: usize,
    pub top_k_experts: usize,
    pub moe_intermediate_size: usize,
    pub use_flash_attn: bool,
}

/// Settings that a checkpoint may leave out, or give as null: both count as not
/// given.
#[derive(Clone, Copy, PartialEq, Eq, Structural, Debug)]
pub struct Switches {
    pub enable_moe_block: Option<bool>,
    pub num_experts: Option<usize>,
    pub top_k_experts: Option<usize>,
    pub attention_k_eq_v: Option<bool>,
}

impl Gemma4TextConfig {
    /// The configuration with these settings. What is not given is off: no
    /// experts, and values of their own in global attention.
    pub fn switched(self, given: Switches) -> (r: Gemma4TextConfig)
        ensures
            r == (Gemma4TextConfig {
                enable_moe_block: given.enable_moe_block == Some(true),
                num_experts: if given.num_experts is Some { given.num_experts->0 } else { 0 },
                top_k_experts: if given.top_k_experts is Some { given.top_k_experts->0 } else { 0 },
                attention_k_eq_v: given.attention_k_eq_v == Some(true),
                ..self
            }),
    {
        Gemma4TextConfig {
            enable_moe_block: given.enable_moe_block.unwrap_or(false),
            num_experts: given.num_experts.unwrap_or(0),
            top_k_experts: given.top_k_experts.unwrap_or(0),
            attention_k_eq_v: given.attention_k_eq_v.unwrap_or(false),
            ..self
        }
    }
}

impl Gemma4TextConfig {
    /// Every layer has a type, key/value heads to group its heads by, and no
    /// more rotating frequencies than there are.
    pub open spec fn valid(&self) -> bool {
        &&& self.layer_types.len() >= self.num_hidden_layers
        &&& self.num_key_value_heads > 0
        &&& self.num_global_key_value_heads matches Some(n) ==> n > 0
        &&& self.rope_angles <= self.global_head_dim / 2
    }

    pub fn is_valid(&self) -> (r: bool)
        ensures
            r == self.valid(),
    {
        let heads = match self.num_global_key_value_heads {
            Some(n) => n > 0,
            None => true,
        };
        self.layer_types.len() >= self.num_hidden_layers && self.num_key_value_heads > 0 && heads
            && self.rope_angles <= self.global_head_dim / 2
    }

    pub open spec fn sliding(&self, layer: int) -> bool {
        self.layer_types[layer] == LayerType::Sliding
    }

    /// The layer attends within a window.
    pub fn is_sliding(&self, layer: usize) -> (r: bool)
        requires
            layer < self.layer_types.len(),
        ensures
            r == self.sliding(layer as int),
    {
        self.layer_types[layer] == LayerType::Sliding
    }

    /// The first of the trailing layers that have no keys and values of their
    /// own.
    pub open spec fn first_shared(&self) -> int {
        if self.num_hidden_layers >= self.num_kv_shared_layers {
            self.num_hidden_layers - self.num_kv_shared_layers
        } else {
            0
        }
    }

    pub fn first_kv_shared_layer_idx(&self) -> (r: usize)
        ensures
            r == self.first_shared(),
    {
        self.num_hidden_layers.saturating_sub(self.num_kv_shared_layers)
    }

    pub open spec fn shared(&self, layer: int) -> bool {
        self.num_kv_shared_layers > 0 && layer >= self.first_shared()
    }

    /// The layer reuses the key/value states of an earlier one.
    pub fn is_kv_shared(&self, layer: usize) -> (r: bool)
        ensures
            r == self.shared(layer as int),
    {
        self.num_kv_shared_layers > 0 && layer >= self.first_kv_shared_layer_idx()
    }

    /// The layer is the last one of its type that has keys and values of its
    /// own, so the trailing layers of that type read them.
    pub open spec fn stores(&self, layer: int) -> bool {
        &&& !self.shared(layer)
        &&& layer < self.first_shared()
        &&& forall|j: int|
            layer < j < self.first_shared() ==> #[trigger] self.layer_types[j]
                != self.layer_types[layer]
    }

    pub fn stores_kv(&self, layer: usize) -> (r: bool)
        requires
            self.valid(),
            layer < self.num_hidden_layers,
        ensures
            r == self.stores(layer as int),
    {
        let end: usize = self.first_kv_shared_layer_idx();
        if self.is_kv_shared(layer) || layer >= end {
            return false;
        }
        let mut j: usize = layer + 1;
        while j < end
            invariant
                self.valid(),
                layer < j <= end,
                end == self.first_shared(),
                end <= self.num_hidden_layers,
                forall|i: int|
                    layer < i < j ==> #[trigger] self.layer_types[i] != self.layer_types[
                        layer as int],
            decreases end - j,
        {
            if self.layer_types[j] == self.layer_types[layer] {
                return false;
            }
            j += 1;
        }
        true
    }

    /// Of each type that occurs before the trailing layers, exactly one layer
    /// stores: the last.
    pub proof fn law_one_store_per_type(&self, layer: int) -> (r: int)
        requires
            self.valid(),
            0 <= layer < self.first_shared(),
        ensures
            layer <= r < self.first_shared(),
            self.layer_types[r] == self.layer_types[layer],
            self.stores(r),
            forall|j: int|
                0 <= j < self.num_hidden_layers && #[trigger] self.layer_types[j]
                    == self.layer_types[layer] && self.stores(j) ==> j == r,
        decreases self.first_shared() - layer,
    {
        if exists|j: int|
            layer < j < self.first_shared() && #[trigger] self.layer_types[j]
                == self.layer_types[layer] {
            let j = choose|j: int|
                layer < j < self.first_shared() && #[trigger] self.layer_types[j]
                    == self.layer_types[layer];
            self.law_one_store_per_type(j)
        } else {
            layer
        }
    }

    pub open spec fn attn_head_dim(&self, layer: int) -> usize {
        if self.sliding(layer) { self.head_dim } else { self.global_head_dim }
    }

    pub open spec fn attn_kv_heads(&self, layer: int) -> usize {
        if self.sliding(layer) {
            self.num_key_value_heads
        } else {
            match self.num_global_key_value_heads {
                Some(n) => n,
                None => self.num_key_value_heads,
            }
        }
    }

    /// Head dim and key/value heads of a layer.
    pub fn geometry(&self, layer: usize) -> (r: (usize, usize))
        requires
            layer < self.layer_types.len(),
        ensures
            r.0 == self.attn_head_dim(layer as int),
            r.1 == self.attn_kv_heads(layer as int),
            self.valid() ==> r.1 > 0,
    {
        if self.is_sliding(layer) {
            (self.head_dim, self.num_key_value_heads)
        } else {
            let global_kv: usize = match self.num_global_key_value_heads {
                Some(n) => n,
                None => self.num_key_value_heads,
            };
            (self.global_head_dim, global_kv)
        }
    }

    /// Positions that the cache of a layer holds: the window, or the serving
    /// context (`limit`, 8192 by default) as far as the checkpoint goes.
    pub open spec fn cache_capacity(&self, layer: int, limit: Option<usize>) -> usize {
        if self.sliding(layer) {
            self.effective_sliding_window
        } else {
            let wanted: usize = if limit is Some { limit->0 } else { 8192 };
            if wanted <= self.max_position_embeddings {
                wanted
            } else {
                self.max_position_embeddings
            }
        }
    }

    pub fn max_cache(&self, layer: usize, limit: Option<usize>) -> (r: usize)
        requires
            layer < self.layer_types.len(),
        ensures
            r == self.cache_capacity(layer as int, limit),
    {
        if self.is_sliding(layer) {
            self.effective_sliding_window
        } else {
            let wanted: usize = match limit {
                Some(n) => n,
                None => 8192,
            };
            if wanted <= self.max_position_embeddings {
                wanted
            } else {
                self.max_position_embeddings
            }
        }
    }

    /// Width of a layer's feed-forward block: twice as wide in the trailing
    /// layers of checkpoints that say so.
    pub open spec fn mlp_width(&self, layer: int) -> usize {
        if self.use_double_wide_mlp && layer >= self.first_shared() {
            crate::shape::sat_product(self.intermediate_size, 2)
        } else {
            self.intermediate_size
        }
    }

    pub fn mlp_intermediate_size(&self, layer: usize) -> (r: usize)
        ensures
            r == self.mlp_width(layer as int),
    {
        if self.use_double_wide_mlp && layer >= self.first_kv_shared_layer_idx() {
            crate::shape::saturating_product(self.intermediate_size, 2)
        } else {
            self.intermediate_size
        }
    }
}

} // verus!
