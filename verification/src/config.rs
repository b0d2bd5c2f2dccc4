//! The configuration of a model.

use vstd::prelude::*;

verus! {

/// The bit pattern of `10000.0`, the usual base of rotary frequencies.
pub const ROPE_BASE: u32 = 0x461c_4000;

/// How rotary frequencies are stretched beyond the training window.
#[derive(Clone, Copy, Debug, PartialEq, Eq, Structural)]
pub enum RopeScaling {
    /// Not at all.
    Plain,
    Linear { factor: u32 },
    Ntk { factor: u32 },
    Yarn { factor: u32, beta_fast: u32, beta_slow: u32, mscale: u32 },
}

/// All that fixes a table of rotary frequencies.
#[derive(Clone, Copy, Debug, PartialEq, Eq, Structural)]
pub struct RopeSpec {
    pub base: u32,
    pub scaling: RopeScaling,
    pub train_ctx: usize,
}

impl RopeSpec {
    /// Whether these are the unscaled frequencies of the usual base.
    pub fn is_plain(&self) -> (r: bool)
        ensures
            r == (self.base == ROPE_BASE && self.scaling == RopeScaling::Plain),
    {
        self.base == ROPE_BASE && self.scaling == RopeScaling::Plain
    }
}

/// Which layers get an adapter.
#[derive(Clone, Copy, Debug, PartialEq, Eq, Structural)]
pub struct LoRATargets {
    pub q: bool,
    pub k: bool,
    pub v: bool,
    pub o: bool,
    pub mlp: bool,
}

/// Rank, scale and places of the adapters.
#[derive(Clone, Copy, Debug, PartialEq, Eq, Structural)]
pub struct LoRAConfig {
    pub rank: usize,
    pub alpha: u32,
    pub targets: LoRATargets,
}

/// The configuration of a model. Fractions are single-precision bit patterns.
#[derive(Clone, Copy, Debug, PartialEq, Eq, Structural)]
pub struct GPTConfig {
    pub vocab_size: usize,
    pub n_embd: usize,
    pub n_head: usize,
    pub n_layer: usize,
    pub block_size: usize,
    /// Key and value heads; zero means as many as query heads.
    pub n_kv_head: usize,
    pub use_rmsnorm: bool,
    pub use_swiglu: bool,
    pub dropout: u32,
    /// Experts per layer; one means a dense layer.
    pub n_expert: usize,
    pub moe_top_k: usize,
    /// Zero means unlimited.
    pub moe_capacity_factor: u32,
    pub moe_aux_coef: u32,
    pub moe_z_loss_coef: u32,
    pub moe_switch_gate: bool,
    pub rope_base: u32,
    pub rope_scaling: RopeScaling,
    /// The window of training; zero means the present window.
    pub rope_train_ctx: usize,
}

/// The configuration that every field falls back to.
pub open spec fn default_config() -> GPTConfig {
    GPTConfig {
        vocab_size: 0,
        n_embd: 64,
        n_head: 4,
        n_layer: 2,
        block_size: 32,
        n_kv_head: 0,
        use_rmsnorm: false,
        use_swiglu: false,
        dropout: 0,
        n_expert: 1,
        moe_top_k: 1,
        moe_capacity_factor: 0,
        moe_aux_coef: 0,
        moe_z_loss_coef: 0,
        moe_switch_gate: false,
        rope_base: ROPE_BASE,
        rope_scaling: RopeScaling::Plain,
        rope_train_ctx: 0,
    }
}

impl Default for GPTConfig {
    fn default() -> (c: Self)
        ensures
            c == default_config(),
    {
        GPTConfig {
            vocab_size: 0,
            n_embd: 64,
            n_head: 4,
            n_layer: 2,
            block_size: 32,
            n_kv_head: 0,
            use_rmsnorm: false,
            use_swiglu: false,
            dropout: 0,
            n_expert: 1,
            moe_top_k: 1,
            moe_capacity_factor: 0,
            moe_aux_coef: 0,
            moe_z_loss_coef: 0,
            moe_switch_gate: false,
            rope_base: ROPE_BASE,
            rope_scaling: RopeScaling::Plain,
            rope_train_ctx: 0,
        }
    }
}

/// What is wrong with the experts of a configuration.
#[derive(Clone, Copy, Debug, PartialEq, Eq, Structural)]
pub enum MoeConfigError {
    TooFewExperts,
    TopKOutOfRange,
    NegativeCapacity,
    NegativeAuxCoef,
    NegativeZLossCoef,
}

/// Whether `x >= 0`, which no NaN is.
pub open spec fn not_negative(x: u32) -> bool {
    x <= 0x7f80_0000 || x == 0x8000_0000
}

/// The first rule of expert configurations that `c` breaks.
pub open spec fn moe_fault(c: GPTConfig) -> Option<MoeConfigError> {
    if c.n_expert < 2 {
        Some(MoeConfigError::TooFewExperts)
    } else if !(1 <= c.moe_top_k <= c.n_expert) {
        Some(MoeConfigError::TopKOutOfRange)
    } else if !not_negative(c.moe_capacity_factor) {
        Some(MoeConfigError::NegativeCapacity)
    } else if !not_negative(c.moe_aux_coef) {
        Some(MoeConfigError::NegativeAuxCoef)
    } else if !not_negative(c.moe_z_loss_coef) {
        Some(MoeConfigError::NegativeZLossCoef)
    } else {
        None
    }
}

impl GPTConfig {
    /// The window of training.
    pub open spec fn trained_window(self) -> usize {
        if self.rope_train_ctx == 0 {
            self.block_size
        } else {
            self.rope_train_ctx
        }
    }

    /// The frequencies of this configuration.
    pub open spec fn frequencies(self) -> RopeSpec {
        RopeSpec {
            base: self.rope_base,
            scaling: self.rope_scaling,
            train_ctx: self.trained_window(),
        }
    }

    /// The number of key and value heads.
    pub open spec fn kv_heads(self) -> usize {
        if self.n_kv_head == 0 {
            self.n_head
        } else {
            self.n_kv_head
        }
    }

    pub fn rope_train_ctx(&self) -> (n: usize)
        ensures
            n == self.trained_window(),
    {
        if self.rope_train_ctx == 0 {
            self.block_size
        } else {
            self.rope_train_ctx
        }
    }

    pub fn rope_spec(&self) -> (s: RopeSpec)
        ensures
            s == self.frequencies(),
    {
        RopeSpec {
            base: self.rope_base,
            scaling: self.rope_scaling,
            train_ctx: self.rope_train_ctx(),
        }
    }

    /// A small configuration.
    pub fn tiny(vocab_size: usize) -> (c: Self)
        ensures
            c == (GPTConfig { vocab_size, ..default_config() }),
    {
        let mut c: GPTConfig = GPTConfig::default();
        c.vocab_size = vocab_size;
        c
    }

    /// Whether every key and value head serves the same number of query heads.
    pub fn heads_divide(&self) -> (r: bool)
        ensures
            r == (self.kv_heads() > 0 && self.n_head % self.kv_heads() == 0),
    {
        let kv: usize = if self.n_kv_head == 0 {
            self.n_head
        } else {
            self.n_kv_head
        };
        kv > 0 && self.n_head % kv == 0
    }

    /// Checks the fields that a layer of experts depends on.
    pub fn check_moe(&self) -> (r: Result<(), MoeConfigError>)
        ensures
            r == match moe_fault(*self) {
                Some(e) => Err::<(), MoeConfigError>(e),
                None => Ok(()),
            },
    {
        if self.n_expert < 2 {
            return Err(MoeConfigError::TooFewExperts);
        }
        if self.moe_top_k < 1 || self.moe_top_k > self.n_expert {
            return Err(MoeConfigError::TopKOutOfRange);
        }
        if !is_not_negative(self.moe_capacity_factor) {
            return Err(MoeConfigError::NegativeCapacity);
        }
        if !is_not_negative(self.moe_aux_coef) {
            return Err(MoeConfigError::NegativeAuxCoef);
        }
        if !is_not_negative(self.moe_z_loss_coef) {
            return Err(MoeConfigError::NegativeZLossCoef);
        }
        Ok(())
    }
}

fn is_not_negative(x: u32) -> (r: bool)
    ensures
        r == not_negative(x),
{
    x <= 0x7f80_0000 || x == 0x8000_0000
}

} // verus!
