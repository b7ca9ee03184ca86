//! Projected cache sizes under quantization and eviction.

use crate::eviction::{
    EvictionStrategy, H2OEviction, SlidingWindow, TokenEntry, TokenEviction,
};
use crate::float::arith;
use crate::float::arith::Parts;
use crate::float::big;
use crate::float::decimal;
use crate::float::formats;
use crate::float::formats::Format;
use crate::float::laws;
use crate::float::Binary64;
use crate::quantize::method::QuantMethod;
use crate::text;
use crate::text::{append_decimal, chars_of, parse_usize, to_lowercase, trim, trim_bounds};
use vstd::arithmetic::div_mod::*;
use vstd::arithmetic::mul::*;
use vstd::arithmetic::power2::*;
use vstd::prelude::*;
use vstd::slice::slice_subrange;
use vstd::string::*;

verus! {

/// Model configuration for simulation.
#[derive(Debug, Clone)]
pub struct ModelConfig {
    pub name: String,
    pub num_layers: usize,
    pub num_kv_heads: usize,
    pub head_dim: usize,
}

impl ModelConfig {
    /// Bytes per token and layer: keys and values, 4 bytes a number.
    pub open spec fn bytes_per_token(self) -> nat {
        (2 * self.num_kv_heads * self.head_dim * 4) as nat
    }

    /// Bytes of the whole cache.
    pub open spec fn cache_size(self, context_len: nat) -> nat {
        self.num_layers as nat * self.bytes_per_token() * context_len
    }

    /// Whether the size of the cache, and of one token in it, can be counted.
    pub open spec fn countable(self, context_len: nat) -> bool {
        &&& self.bytes_per_token() <= usize::MAX
        &&& self.num_layers as nat * self.bytes_per_token() <= usize::MAX
        &&& self.cache_size(context_len) <= usize::MAX
    }

    proof fn lemma_cache_size(self, context_len: nat)
        ensures
            self.bytes_per_token() == 8 * (self.num_kv_heads * self.head_dim),
            self.cache_size(context_len) == 8 * (self.num_layers * (self.num_kv_heads
                * self.head_dim)) * context_len,
    {
        let n = self.num_layers as nat;
        let k = self.num_kv_heads * self.head_dim;
        assert(2 * self.num_kv_heads * self.head_dim * 4 == 8 * k) by (nonlinear_arith)
            requires
                k == self.num_kv_heads * self.head_dim,
        ;
        assert(k >= 0) by (nonlinear_arith)
            requires
                k == self.num_kv_heads * self.head_dim,
        ;
        assert(n * (8 * k) == 8 * (n * k)) by (nonlinear_arith);
    }

    /// Preset for a "7B"-class model (e.g., Llama-2-7B).
    pub fn preset_7b() -> (r: Self)
        ensures
            r.name@ == "7B (32-layer, 32-head, dim 128)"@,
            r.num_layers == 32,
            r.num_kv_heads == 32,
            r.head_dim == 128,
    {
        Self {
            name: "7B (32-layer, 32-head, dim 128)".to_string(),
            num_layers: 32,
            num_kv_heads: 32,
            head_dim: 128,
        }
    }

    /// Preset for a "13B"-class model.
    pub fn preset_13b() -> (r: Self)
        ensures
            r.name@ == "13B (40-layer, 40-head, dim 128)"@,
            r.num_layers == 40,
            r.num_kv_heads == 40,
            r.head_dim == 128,
    {
        Self {
            name: "13B (40-layer, 40-head, dim 128)".to_string(),
            num_layers: 40,
            num_kv_heads: 40,
            head_dim: 128,
        }
    }

    /// Preset for a "70B"-class model (GQA with 8 KV heads).
    pub fn preset_70b() -> (r: Self)
        ensures
            r.name@ == "70B (80-layer, 8 KV-head, dim 128)"@,
            r.num_layers == 80,
            r.num_kv_heads == 8,
            r.head_dim == 128,
    {
        Self {
            name: "70B (80-layer, 8 KV-head, dim 128)".to_string(),
            num_layers: 80,
            num_kv_heads: 8,
            head_dim: 128,
        }
    }

    /// Bytes per token in the KV cache (K + V, FP32 baseline).
    /// Per token per layer: 2 (K+V) * num_kv_heads * head_dim * 4 bytes
    pub fn bytes_per_token_fp32(&self) -> (r: usize)
        requires
            self.bytes_per_token() <= usize::MAX,
        ensures
            r == self.bytes_per_token(),
            r == 8 * (self.num_kv_heads * self.head_dim),
    {
        assert(2 * self.num_kv_heads * self.head_dim * 4 == self.num_kv_heads * self.head_dim * 8)
            by (nonlinear_arith);
        assert(self.num_kv_heads * self.head_dim >= 0) by (nonlinear_arith);
        self.num_kv_heads * self.head_dim * 8
    }

    /// Total FP32 cache size for a given context length.
    pub fn cache_size_bytes(&self, context_len: usize) -> (r: usize)
        requires
            self.countable(context_len as nat),
        ensures
            r == self.cache_size(context_len as nat),
            r == 8 * (self.num_layers * (self.num_kv_heads * self.head_dim)) * context_len,
    {
        proof {
            self.lemma_cache_size(context_len as nat);
        }
        self.num_layers * self.bytes_per_token_fp32() * context_len
    }
}

/// Result of a simulation run.
#[derive(Debug, Clone)]
pub struct SimulationResult {
    pub model_name: String,
    pub context_len: usize,
    pub baseline_bytes: usize,
    pub compressed_bytes: usize,
    pub quant_method: Option<QuantMethod>,
    pub eviction_strategy: Option<String>,
    pub effective_context: usize,
    pub compression_ratio: Binary64,
    pub fits_in_budget: bool,
    pub budget_bytes: usize,
}

/// `bytes` in units of `unit` bytes.
pub open spec fn in_units(bytes: nat, unit: nat) -> Binary64 {
    Binary64::of_integer(bytes).quotient(Binary64::of_integer(unit))
}

fn to_units(bytes: usize, unit: u64) -> (r: Binary64)
    ensures
        r == in_units(bytes as nat, unit as nat),
{
    Binary64::from_unsigned(bytes as u64).over(Binary64::from_unsigned(unit))
}

impl SimulationResult {
    pub fn baseline_mb(&self) -> (r: Binary64)
        ensures
            r == in_units(self.baseline_bytes as nat, 0x10_0000),
            r.finite() && !r.parts().neg,
            self.baseline_bytes <= 0x20_0000_0000_0000 ==> r.units() * 0x10_0000 == self.baseline_bytes
                * pow2(1074),
    {
        proof {
            lemma2_to64();
            law_size_in_units(self.baseline_bytes as nat, 20);
        }
        to_units(self.baseline_bytes, 0x10_0000)
    }

    pub fn compressed_mb(&self) -> (r: Binary64)
        ensures
            r == in_units(self.compressed_bytes as nat, 0x10_0000),
            r.finite() && !r.parts().neg,
            self.compressed_bytes <= 0x20_0000_0000_0000 ==> r.units() * 0x10_0000 == self.compressed_bytes
                * pow2(1074),
    {
        proof {
            lemma2_to64();
            law_size_in_units(self.compressed_bytes as nat, 20);
        }
        to_units(self.compressed_bytes, 0x10_0000)
    }

    pub fn baseline_gb(&self) -> (r: Binary64)
        ensures
            r == in_units(self.baseline_bytes as nat, 0x4000_0000),
            r.finite() && !r.parts().neg,
            self.baseline_bytes <= 0x20_0000_0000_0000 ==> r.units() * 0x4000_0000 == self.baseline_bytes
                * pow2(1074),
    {
        proof {
            lemma2_to64();
            law_size_in_units(self.baseline_bytes as nat, 30);
        }
        to_units(self.baseline_bytes, 0x4000_0000)
    }

    pub fn compressed_gb(&self) -> (r: Binary64)
        ensures
            r == in_units(self.compressed_bytes as nat, 0x4000_0000),
            r.finite() && !r.parts().neg,
            self.compressed_bytes <= 0x20_0000_0000_0000 ==> r.units() * 0x4000_0000 == self.compressed_bytes
                * pow2(1074),
    {
        proof {
            lemma2_to64();
            law_size_in_units(self.compressed_bytes as nat, 30);
        }
        to_units(self.compressed_bytes, 0x4000_0000)
    }
}

/// A size up to `2^64` as a binary64 number: a whole number of at most `2^53`,
/// times a power of two.
proof fn lemma_size(bytes: nat) -> (r: (nat, nat))
    requires
        bytes <= u64::MAX,
    ensures
        Binary64::of_integer(bytes).finite(),
        !Binary64::of_integer(bytes).parts().neg,
        Binary64::of_integer(bytes).units() == r.0 * pow2(r.1),
        Binary64::of_integer(bytes).units() == Format::Double.units(
            Format::Double.nearest(bytes * pow2(1074), 1),
        ),
        r.0 <= 0x20_0000_0000_0000,
        1074 <= r.1 < 1100,
{
    let f = Format::Double;
    let a = Binary64::of_integer(bytes);
    laws::law_nearest_exists(f, bytes * pow2(1074), 1);
    a.lemma_parts(arith::from_integer(f, bytes));
    if bytes <= 0x20_0000_0000_0000 {
        laws::law_whole_numbers_are_exact(bytes);
        (bytes, 1074)
    } else {
        laws::lemma_large_whole(bytes);
        let c = a.parts().code as nat;
        formats::lemma_grid_split(c, 52);
        lemma2_to64_rest();
        (formats::significand(c, 52), formats::grid(c, 52))
    }
}

/// A size in units of `2^k` bytes is exactly the `2^k`th part of what binary64
/// makes of the size, and up to `2^53` bytes of the size itself.
pub proof fn law_size_in_units(bytes: nat, k: nat)
    requires
        bytes <= u64::MAX,
        k <= 53,
    ensures
        in_units(bytes, pow2(k)).finite(),
        !in_units(bytes, pow2(k)).parts().neg,
        in_units(bytes, pow2(k)).units() * pow2(k) == Format::Double.units(
            Format::Double.nearest(bytes * pow2(1074), 1),
        ),
        bytes <= 0x20_0000_0000_0000 ==> in_units(bytes, pow2(k)).units() * pow2(k) == bytes * pow2(
            1074,
        ),
{
    let a = Binary64::of_integer(bytes);
    let (m, t) = lemma_size(bytes);
    laws::lemma_exact_quotient(a, m, t, k);
    let x = pow2((t - k) as nat);
    lemma_pow2_adds(k, (t - k) as nat);
    assert((m * x) * pow2(k) == m * (pow2(k) * x)) by (nonlinear_arith);
    if bytes <= 0x20_0000_0000_0000 {
        laws::law_whole_numbers_are_exact(bytes);
    }
}

/// The nominal ratio of a method, 1 for none.
pub open spec fn quant_ratio(method: Option<QuantMethod>) -> nat {
    match method {
        Some(m) => m.ratio(),
        None => 1,
    }
}

/// How many whole bytes are left of `bytes` under a method.
pub open spec fn shrunk(bytes: nat, method: Option<QuantMethod>) -> nat {
    in_units(bytes, quant_ratio(method)).whole()
}

/// Up to `2^53` bytes, what is left is the integer quotient.
pub proof fn law_shrunk(bytes: nat, method: Option<QuantMethod>)
    requires
        bytes <= 0x20_0000_0000_0000,
        bytes <= usize::MAX,
    ensures
        shrunk(bytes, method) == bytes / quant_ratio(method),
        shrunk(bytes, method) <= bytes,
{
    lemma2_to64();
    let k: nat = match method {
        None => 0,
        Some(QuantMethod::FP16) => 1,
        Some(QuantMethod::FP8E4M3) => 2,
        Some(QuantMethod::INT4) => 3,
    };
    assert(quant_ratio(method) == pow2(k));
    laws::law_whole_quotient(bytes, k);
    lemma_div_is_ordered_by_denominator(bytes as int, 1, quant_ratio(method) as int);
}

/// Up to `2^53` bytes, FP16 leaves a half, FP8 a quarter and INT4 an eighth of
/// the bytes, rounded down, and no method leaves all of them.
pub proof fn law_shrunk_by_each_method(bytes: nat)
    requires
        bytes <= 0x20_0000_0000_0000,
        bytes <= usize::MAX,
    ensures
        shrunk(bytes, None) == bytes,
        2 * shrunk(bytes, Some(QuantMethod::FP16)) <= bytes < 2 * shrunk(
            bytes,
            Some(QuantMethod::FP16),
        ) + 2,
        4 * shrunk(bytes, Some(QuantMethod::FP8E4M3)) <= bytes < 4 * shrunk(
            bytes,
            Some(QuantMethod::FP8E4M3),
        ) + 4,
        8 * shrunk(bytes, Some(QuantMethod::INT4)) <= bytes < 8 * shrunk(
            bytes,
            Some(QuantMethod::INT4),
        ) + 8,
{
    lemma_shrunk_to(bytes, None, 1);
    lemma_shrunk_to(bytes, Some(QuantMethod::FP16), 2);
    lemma_shrunk_to(bytes, Some(QuantMethod::FP8E4M3), 4);
    lemma_shrunk_to(bytes, Some(QuantMethod::INT4), 8);
}

proof fn lemma_shrunk_to(bytes: nat, method: Option<QuantMethod>, ratio: nat)
    requires
        bytes <= 0x20_0000_0000_0000,
        bytes <= usize::MAX,
        ratio == quant_ratio(method),
        ratio > 0,
    ensures
        ratio * shrunk(bytes, method) <= bytes < ratio * shrunk(bytes, method) + ratio,
{
    law_shrunk(bytes, method);
    lemma_fundamental_div_mod(bytes as int, ratio as int);
    lemma_mod_bound(bytes as int, ratio as int);
}

/// Of any number of bytes, what is left is the part of what binary64 makes of
/// the number, cut off and kept within the range that can be counted.
pub proof fn law_shrunk_beyond(bytes: nat, method: Option<QuantMethod>)
    requires
        bytes <= usize::MAX,
    ensures
        ({
            let ratio: nat = match method {
                None => 1,
                Some(QuantMethod::FP16) => 2,
                Some(QuantMethod::FP8E4M3) => 4,
                Some(QuantMethod::INT4) => 8,
            };
            let rounded = Format::Double.units(Format::Double.nearest(bytes * pow2(1074), 1));
            let left = shrunk(bytes, method);
            &&& left <= usize::MAX
            &&& left * (ratio * pow2(1074)) <= rounded
            &&& left < usize::MAX ==> rounded < (left + 1) * (ratio * pow2(1074))
        }),
{
    lemma2_to64();
    let k: nat = match method {
        None => 0,
        Some(QuantMethod::FP16) => 1,
        Some(QuantMethod::FP8E4M3) => 2,
        Some(QuantMethod::INT4) => 3,
    };
    let ratio = quant_ratio(method);
    assert(ratio == pow2(k));
    law_size_in_units(bytes, k);
    let one = pow2(1074);
    let u = in_units(bytes, ratio).units();
    let left = shrunk(bytes, method);
    lemma_pow2_pos(1074);
    lemma_fundamental_div_mod(u as int, one as int);
    lemma_mod_bound(u as int, one as int);
    let q = u / one;
    assert(left * (ratio * one) <= u * ratio) by (nonlinear_arith)
        requires
            left <= q,
            one * q <= u,
    ;
    assert(left < usize::MAX ==> left == q);
    assert(u * ratio < (q + 1) * (ratio * one)) by (nonlinear_arith)
        requires
            u < one * q + one,
            ratio > 0,
    ;
}

fn method_ratio(method: Option<QuantMethod>) -> (r: Binary64)
    ensures
        r == Binary64::of_integer(quant_ratio(method)),
{
    match method {
        Some(m) => m.compression_ratio(),
        None => Binary64::from_unsigned(1),
    }
}

/// How many whole bytes are left of `bytes` under a method.
pub fn shrink(bytes: usize, method: Option<QuantMethod>) -> (r: usize)
    ensures
        r == shrunk(bytes as nat, method),
{
    Binary64::from_unsigned(bytes as u64).over(method_ratio(method)).to_usize()
}

/// The ratio of two sizes, at least one byte counting as compressed.
pub open spec fn size_ratio(baseline: nat, compressed: nat) -> Binary64 {
    in_units(
        baseline,
        if compressed > 1 {
            compressed
        } else {
            1
        },
    )
}

fn compare_sizes(baseline: usize, compressed: usize) -> (r: Binary64)
    ensures
        r == size_ratio(baseline as nat, compressed as nat),
{
    to_units(
        baseline,
        if compressed > 1 {
            compressed as u64
        } else {
            1
        },
    )
}

/// The methods that a simulation goes through.
pub open spec fn method_at(i: int) -> Option<QuantMethod> {
    if i == 0 {
        None
    } else if i == 1 {
        Some(QuantMethod::FP16)
    } else if i == 2 {
        Some(QuantMethod::FP8E4M3)
    } else {
        Some(QuantMethod::INT4)
    }
}

impl ModelConfig {
    /// Bytes of a token in all layers under a method.
    pub open spec fn token_size(self, method: Option<QuantMethod>) -> nat {
        shrunk(self.bytes_per_token(), method) * self.num_layers as nat
    }

    /// Whether the size of a token can be counted under every method too. Up to
    /// `2^53` bytes a token only gets smaller; beyond that, rounding could make
    /// it larger.
    pub open spec fn projectable(self, context_len: nat) -> bool {
        &&& self.countable(context_len)
        &&& self.bytes_per_token() <= 0x20_0000_0000_0000 || forall|m: Option<QuantMethod>|
            #[trigger] self.token_size(m) <= usize::MAX
    }

    /// How many tokens fit in the budget under a method, up to the context.
    pub open spec fn tokens_kept(
        self,
        context_len: nat,
        budget: nat,
        method: Option<QuantMethod>,
    ) -> nat {
        let size = self.token_size(method);
        if size == 0 || budget / size >= context_len {
            context_len
        } else {
            budget / size
        }
    }

    proof fn lemma_token_size(self, context_len: nat, method: Option<QuantMethod>)
        requires
            self.projectable(context_len),
        ensures
            self.token_size(method) <= usize::MAX,
    {
        if self.bytes_per_token() <= 0x20_0000_0000_0000 {
            law_shrunk(self.bytes_per_token(), method);
            let b = self.bytes_per_token();
            let s = shrunk(b, method);
            let n = self.num_layers as nat;
            assert(s * n <= n * b) by (nonlinear_arith)
                requires
                    s <= b,
            ;
        }
    }
}

impl SimulationResult {
    /// Whether this is the projection for a model, a context and a budget under
    /// a method, without eviction or with the eviction that is named.
    pub open spec fn projects(
        self,
        config: ModelConfig,
        context_len: nat,
        budget: nat,
        method: Option<QuantMethod>,
        evicting: Option<Seq<char>>,
    ) -> bool {
        &&& self.model_name@ == config.name@
        &&& self.context_len == context_len
        &&& self.baseline_bytes == config.cache_size(context_len)
        &&& self.quant_method == method
        &&& self.budget_bytes == budget
        &&& self.fits_in_budget <==> self.compressed_bytes <= budget
        &&& self.compression_ratio == size_ratio(
            self.baseline_bytes as nat,
            self.compressed_bytes as nat,
        )
        &&& match evicting {
            None => {
                &&& self.eviction_strategy is None
                &&& self.effective_context == context_len
                &&& self.compressed_bytes == shrunk(self.baseline_bytes as nat, method)
            },
            Some(label) => {
                &&& self.eviction_strategy matches Some(s) && s@ == label
                &&& self.effective_context == config.tokens_kept(context_len, budget, method)
                &&& self.compressed_bytes == self.effective_context * config.token_size(method)
            },
        }
    }
}

/// A cache whose tokens got less attention the later they came.
pub open spec fn decaying(context_len: nat) -> Seq<TokenEntry> {
    Seq::new(
        context_len,
        |i: int|
            TokenEntry {
                position: i as usize,
                cumulative_attention: Binary64::of_integer(1).quotient(
                    Binary64::of_integer(i as nat).sum(Binary64::of_integer(1)),
                ),
                age: (context_len - i) as usize,
            },
    )
}

fn decaying_entries(context_len: usize) -> (r: Vec<TokenEntry>)
    ensures
        r@ == decaying(context_len as nat),
{
    let one: Binary64 = Binary64::from_unsigned(1);
    let mut r: Vec<TokenEntry> = Vec::new();
    for i in 0..context_len
        invariant
            one == Binary64::of_integer(1),
            r@ =~= decaying(context_len as nat).take(i as int),
    {
        r.push(
            TokenEntry {
                position: i,
                cumulative_attention: one.over(Binary64::from_unsigned(i as u64).plus(one)),
                age: context_len - i,
            },
        );
    }
    assert(decaying(context_len as nat).take(context_len as int) =~= decaying(context_len as nat));
    r
}

/// The projection without eviction: the full context.
fn project_full(
    config: &ModelConfig,
    context_len: usize,
    budget_bytes: usize,
    method: Option<QuantMethod>,
) -> (r: SimulationResult)
    requires
        config.projectable(context_len as nat),
    ensures
        r.projects(*config, context_len as nat, budget_bytes as nat, method, None),
{
    let baseline: usize = config.cache_size_bytes(context_len);
    let compressed: usize = shrink(baseline, method);
    SimulationResult {
        model_name: config.name.clone(),
        context_len,
        baseline_bytes: baseline,
        compressed_bytes: compressed,
        quant_method: method,
        eviction_strategy: None,
        effective_context: context_len,
        compression_ratio: compare_sizes(baseline, compressed),
        fits_in_budget: compressed <= budget_bytes,
        budget_bytes,
    }
}

/// The projection with eviction: the largest context that fits in the budget.
fn project_evicted(
    config: &ModelConfig,
    context_len: usize,
    budget_bytes: usize,
    method: Option<QuantMethod>,
    strategy: &EvictionStrategy,
    label: &str,
) -> (r: SimulationResult)
    requires
        config.projectable(context_len as nat),
    ensures
        r.projects(*config, context_len as nat, budget_bytes as nat, method, Some(label@)),
{
    let baseline: usize = config.cache_size_bytes(context_len);
    let per_layer: usize = shrink(config.bytes_per_token_fp32(), method);
    proof {
        config.lemma_token_size(context_len as nat, method);
    }
    let per_token: usize = per_layer * config.num_layers;
    let effective: usize = if per_token == 0 || budget_bytes / per_token >= context_len {
        context_len
    } else {
        budget_bytes / per_token
    };
    proof {
        let q = budget_bytes as int / (per_token as int);
        if per_token == 0 {
            assert(effective * per_token == 0) by (nonlinear_arith)
                requires
                    per_token == 0,
            ;
        } else {
            lemma_fundamental_div_mod(budget_bytes as int, per_token as int);
            lemma_mod_bound(budget_bytes as int, per_token as int);
            assert(effective * per_token <= per_token * q) by (nonlinear_arith)
                requires
                    effective <= q,
            ;
        }
    }
    let compressed: usize = effective * per_token;
    // The eviction that brings the cache down to the effective context.
    let entries: Vec<TokenEntry> = decaying_entries(context_len);
    let evicted: Vec<usize> = strategy.as_eviction().select_evictions(
        entries.as_slice(),
        effective,
    );
    assert(strategy.selects(decaying(context_len as nat), effective as nat, evicted@));
    SimulationResult {
        model_name: config.name.clone(),
        context_len,
        baseline_bytes: baseline,
        compressed_bytes: compressed,
        quant_method: method,
        eviction_strategy: Some(label.to_string()),
        effective_context: effective,
        compression_ratio: compare_sizes(baseline, compressed),
        fits_in_budget: compressed <= budget_bytes,
        budget_bytes,
    }
}

/// Whether these are the projections for a model, a context and a budget: for
/// each method without eviction, with a sliding window and with H2O.
pub open spec fn is_simulation(
    rows: Seq<SimulationResult>,
    config: ModelConfig,
    context_len: nat,
    budget: nat,
) -> bool {
    &&& rows.len() == 12
    &&& forall|i: int|
        0 <= i < 4 ==> {
            let m = #[trigger] method_at(i);
            &&& rows[3 * i].projects(config, context_len, budget, m, None)
            &&& rows[3 * i + 1].projects(
                config,
                context_len,
                budget,
                m,
                Some("Sliding Window (sink=4)"@),
            )
            &&& rows[3 * i + 2].projects(config, context_len, budget, m, Some("H2O (sink=4)"@))
        }
}

/// Simulate KV cache with a given model, context length, and memory budget.
/// Tries combinations of quantization and eviction to find what fits: for each
/// method, from none to INT4, without eviction, with a sliding window and with
/// H2O, each protecting 4 sinks.
pub fn simulate_cache(config: &ModelConfig, context_len: usize, budget_bytes: usize) -> (r: Vec<
    SimulationResult,
>)
    requires
        config.projectable(context_len as nat),
    ensures
        is_simulation(r@, *config, context_len as nat, budget_bytes as nat),
{
    let sliding: EvictionStrategy = EvictionStrategy::Sliding(SlidingWindow::new(4));
    let h2o: EvictionStrategy = EvictionStrategy::H2O(H2OEviction::new(4));
    let mut results: Vec<SimulationResult> = Vec::new();
    let ghost n = context_len as nat;
    let ghost b = budget_bytes as nat;
    for i in 0..4usize
        invariant
            config.projectable(n),
            n == context_len,
            b == budget_bytes,
            results@.len() == 3 * i,
            forall|k: int|
                0 <= k < i ==> {
                    let m = #[trigger] method_at(k);
                    &&& results@[3 * k].projects(*config, n, b, m, None)
                    &&& results@[3 * k + 1].projects(
                        *config,
                        n,
                        b,
                        m,
                        Some("Sliding Window (sink=4)"@),
                    )
                    &&& results@[3 * k + 2].projects(*config, n, b, m, Some("H2O (sink=4)"@))
                },
    {
        let method: Option<QuantMethod> = match i {
            0 => None,
            1 => Some(QuantMethod::FP16),
            2 => Some(QuantMethod::FP8E4M3),
            _ => Some(QuantMethod::INT4),
        };
        assert(method == method_at(i as int));
        results.push(project_full(config, context_len, budget_bytes, method));
        results.push(
            project_evicted(
                config,
                context_len,
                budget_bytes,
                method,
                &sliding,
                "Sliding Window (sink=4)",
            ),
        );
        results.push(
            project_evicted(config, context_len, budget_bytes, method, &h2o, "H2O (sink=4)"),
        );
    }
    results
}

/// The name of a single layer.
pub open spec fn layer_name(num_heads: nat, head_dim: nat) -> Seq<char> {
    text::decimal_text(num_heads) + " heads x "@ + text::decimal_text(head_dim) + " dim"@
}

impl SimulationResult {
    /// Whether this is the projection for a single layer under a method.
    pub open spec fn projects_layer(
        self,
        num_heads: nat,
        head_dim: nat,
        seq_len: nat,
        method: QuantMethod,
    ) -> bool {
        &&& self.model_name@ == layer_name(num_heads, head_dim)
        &&& self.context_len == seq_len
        &&& self.baseline_bytes == 2 * num_heads * head_dim * 4 * seq_len
        &&& self.compressed_bytes == shrunk(self.baseline_bytes as nat, Some(method))
        &&& self.quant_method == Some(method)
        &&& self.eviction_strategy is None
        &&& self.effective_context == seq_len
        &&& self.compression_ratio == Binary64::of_integer(method.ratio())
        &&& self.fits_in_budget
        &&& self.budget_bytes == 0
    }
}

/// Simulate a single combination (for bench subcommand): one layer, so as to
/// show raw compression.
pub fn simulate_single(
    num_heads: usize,
    head_dim: usize,
    seq_len: usize,
    method: QuantMethod,
) -> (r: SimulationResult)
    requires
        2 * num_heads * head_dim * 4 <= usize::MAX,
        2 * num_heads * head_dim * 4 * seq_len <= usize::MAX,
    ensures
        r.projects_layer(num_heads as nat, head_dim as nat, seq_len as nat, method),
{
    let layer: ModelConfig = ModelConfig {
        name: String::new(),
        num_layers: 1,
        num_kv_heads: num_heads,
        head_dim,
    };
    assert(1 * layer.bytes_per_token() == layer.bytes_per_token());
    let baseline: usize = layer.cache_size_bytes(seq_len);
    let compressed: usize = shrink(baseline, Some(method));
    let mut model_name: String = String::new();
    append_decimal(&mut model_name, num_heads as u64);
    model_name.append(" heads x ");
    append_decimal(&mut model_name, head_dim as u64);
    model_name.append(" dim");
    assert(model_name@ =~= layer_name(num_heads as nat, head_dim as nat));
    SimulationResult {
        model_name,
        context_len: seq_len,
        baseline_bytes: baseline,
        compressed_bytes: compressed,
        quant_method: Some(method),
        eviction_strategy: None,
        effective_context: seq_len,
        compression_ratio: method.compression_ratio(),
        fits_in_budget: true,
        budget_bytes: 0,
    }
}

/// With eviction every configuration fits in the budget, by keeping no more than
/// the context that was asked for.
pub proof fn law_eviction_fits(
    r: SimulationResult,
    config: ModelConfig,
    context_len: nat,
    budget: nat,
    method: Option<QuantMethod>,
    label: Seq<char>,
)
    requires
        r.projects(config, context_len, budget, method, Some(label)),
    ensures
        r.fits_in_budget,
        r.effective_context <= r.context_len,
{
    let size = config.token_size(method);
    let kept = r.effective_context as nat;
    if size == 0 {
        assert(kept * size == 0) by (nonlinear_arith)
            requires
                size == 0,
        ;
    } else {
        lemma_fundamental_div_mod(budget as int, size as int);
        lemma_mod_bound(budget as int, size as int);
        let q = budget / size;
        assert(kept * size <= size * q) by (nonlinear_arith)
            requires
                kept <= q,
        ;
    }
}

/// With eviction no token is given up without need: one more than is kept would
/// exceed the budget, unless the whole context is kept.
pub proof fn law_eviction_is_needed(
    r: SimulationResult,
    config: ModelConfig,
    context_len: nat,
    budget: nat,
    method: Option<QuantMethod>,
    label: Seq<char>,
)
    requires
        r.projects(config, context_len, budget, method, Some(label)),
        r.effective_context < r.context_len,
    ensures
        (r.effective_context + 1) * config.token_size(method) > budget,
{
    let size = config.token_size(method);
    lemma_fundamental_div_mod(budget as int, size as int);
    lemma_mod_bound(budget as int, size as int);
    let q = budget / size;
    assert((q + 1) * size == size * q + size) by (nonlinear_arith);
}

/// Without eviction, a cache of up to `2^53` bytes shrinks by the ratio of the
/// method, rounded down.
pub proof fn law_full_context(
    r: SimulationResult,
    config: ModelConfig,
    context_len: nat,
    budget: nat,
    method: Option<QuantMethod>,
)
    requires
        r.projects(config, context_len, budget, method, None),
        r.baseline_bytes <= 0x20_0000_0000_0000,
    ensures
        r.effective_context == r.context_len,
        r.compressed_bytes == r.baseline_bytes as nat / quant_ratio(method),
{
    law_shrunk(r.baseline_bytes as nat, method);
}

/// A projection is for the model, the context and the budget that were asked
/// for. Its baseline is 8 bytes for each layer, head, dimension and token, and it
/// fits if it takes no more than the budget.
pub proof fn law_projection(
    r: SimulationResult,
    config: ModelConfig,
    context_len: nat,
    budget: nat,
    method: Option<QuantMethod>,
    evicting: Option<Seq<char>>,
)
    requires
        r.projects(config, context_len, budget, method, evicting),
    ensures
        r.model_name@ == config.name@,
        r.quant_method == method,
        r.eviction_strategy is Some <==> evicting is Some,
        r.eviction_strategy matches Some(s) ==> evicting == Some(s@),
        r.context_len == context_len,
        r.budget_bytes == budget,
        r.baseline_bytes == 8 * (config.num_layers * (config.num_kv_heads * config.head_dim))
            * context_len,
        r.fits_in_budget <==> r.compressed_bytes <= budget,
        r.effective_context <= context_len,
        evicting is None ==> r.effective_context == context_len,
{
    config.lemma_cache_size(context_len);
}

/// The compression ratio of a projection, times the compressed size, gives back
/// the baseline up to rounding: it is the binary64 number nearest to the exact
/// ratio, off by at most one part in `2^53`, and exact if the baseline is a
/// multiple of the compressed size. No byte at all counts as one.
pub proof fn law_ratio_of_a_projection(
    r: SimulationResult,
    config: ModelConfig,
    context_len: nat,
    budget: nat,
    method: Option<QuantMethod>,
    evicting: Option<Seq<char>>,
)
    requires
        r.projects(config, context_len, budget, method, evicting),
        r.baseline_bytes <= 0x20_0000_0000_0000,
        r.compressed_bytes <= 0x20_0000_0000_0000,
    ensures
        ({
            let size: nat = if r.compressed_bytes == 0 {
                1
            } else {
                r.compressed_bytes as nat
            };
            let exact = r.baseline_bytes as nat * pow2(1074);
            let ratio = r.compression_ratio;
            &&& ratio.finite()
            &&& !ratio.parts().neg
            &&& Format::Double.is_nearest(ratio.parts().code as nat, exact, size)
            &&& 0x20_0000_0000_0000 * arith::magnitude(ratio.units() * size - exact) <= exact
            &&& r.baseline_bytes as nat % size == 0 ==> ratio.units() * size == exact
        }),
{
    let size: nat = if r.compressed_bytes == 0 {
        1
    } else {
        r.compressed_bytes as nat
    };
    let a = r.baseline_bytes as nat;
    laws::law_quotient_of_whole_numbers(a, size);
    if a % size == 0 {
        let one = pow2(1074);
        lemma_fundamental_div_mod(a as int, size as int);
        assert(((a / size) * one) * size == a * one) by (nonlinear_arith)
            requires
                a == size * (a / size),
        ;
    }
}

/// Of sizes of any number of bytes, the compression ratio is the binary64 number
/// nearest to the ratio of what binary64 makes of the sizes.
pub proof fn law_ratio_beyond(
    r: SimulationResult,
    config: ModelConfig,
    context_len: nat,
    budget: nat,
    method: Option<QuantMethod>,
    evicting: Option<Seq<char>>,
)
    requires
        r.projects(config, context_len, budget, method, evicting),
    ensures
        ({
            let f = Format::Double;
            let size: nat = if r.compressed_bytes == 0 {
                1
            } else {
                r.compressed_bytes as nat
            };
            let a = f.units(f.nearest(r.baseline_bytes as nat * pow2(1074), 1));
            let b = f.units(f.nearest(size * pow2(1074), 1));
            &&& !r.compression_ratio.parts().neg
            &&& b > 0
            &&& f.is_nearest(r.compression_ratio.parts().code as nat, a * pow2(1074), b)
        }),
{
    let size: nat = if r.compressed_bytes == 0 {
        1
    } else {
        r.compressed_bytes as nat
    };
    let a = r.baseline_bytes as nat;
    lemma_size(a);
    lemma_size(size);
    laws::law_doubled(size);
    laws::law_quotient(Binary64::of_integer(a), Binary64::of_integer(size), 0);
}

/// With eviction, a token takes what the method leaves of its bytes in a layer,
/// times the number of layers. As many tokens are kept as fit in the budget at
/// that size and no fewer, up to the context, and those are what is counted.
pub proof fn law_eviction_keeps_what_fits(
    r: SimulationResult,
    config: ModelConfig,
    context_len: nat,
    budget: nat,
    method: Option<QuantMethod>,
    label: Seq<char>,
)
    requires
        r.projects(config, context_len, budget, method, Some(label)),
    ensures
        ({
            let layer = (8 * (config.num_kv_heads * config.head_dim)) as nat;
            let ratio: nat = match method {
                None => 1,
                Some(QuantMethod::FP16) => 2,
                Some(QuantMethod::FP8E4M3) => 4,
                Some(QuantMethod::INT4) => 8,
            };
            let token = config.num_layers as nat * shrunk(layer, method);
            let kept = r.effective_context as nat;
            &&& r.compressed_bytes == kept * token
            &&& kept <= context_len
            &&& kept * token <= budget
            &&& kept < context_len ==> (kept + 1) * token > budget
            &&& layer <= 0x20_0000_0000_0000 && layer <= usize::MAX ==> token
                == config.num_layers as nat * (layer / ratio)
        }),
{
    let layer = (8 * (config.num_kv_heads * config.head_dim)) as nat;
    config.lemma_cache_size(context_len);
    law_eviction_fits(r, config, context_len, budget, method, label);
    if r.effective_context < context_len {
        law_eviction_is_needed(r, config, context_len, budget, method, label);
    }
    let s = shrunk(layer, method);
    lemma_mul_is_commutative(s as int, config.num_layers as int);
    if layer <= 0x20_0000_0000_0000 && layer <= usize::MAX {
        law_shrunk(layer, method);
    }
}

/// Without quantization, the tokens that eviction keeps take as much as a cache
/// of that many tokens. Under a method, where eviction keeps the whole context
/// and the ratio divides the bytes of a token, they take as much as without
/// eviction.
pub proof fn law_eviction_agrees_with_the_whole_cache(
    r: SimulationResult,
    full: SimulationResult,
    config: ModelConfig,
    context_len: nat,
    budget: nat,
    method: Option<QuantMethod>,
    label: Seq<char>,
)
    requires
        r.projects(config, context_len, budget, method, Some(label)),
        full.projects(config, context_len, budget, method, None),
        8 * (config.num_kv_heads * config.head_dim) <= 0x20_0000_0000_0000,
        8 * (config.num_kv_heads * config.head_dim) <= usize::MAX,
    ensures
        method is None ==> r.compressed_bytes == config.cache_size(r.effective_context as nat),
        method is None ==> r.compressed_bytes == 8 * (config.num_layers * (config.num_kv_heads
            * config.head_dim)) * r.effective_context,
        r.effective_context == context_len && full.baseline_bytes <= 0x20_0000_0000_0000 && (8 * (
        config.num_kv_heads * config.head_dim)) % (match method {
            None => 1int,
            Some(QuantMethod::FP16) => 2,
            Some(QuantMethod::FP8E4M3) => 4,
            Some(QuantMethod::INT4) => 8,
        }) == 0 ==> r.compressed_bytes == full.compressed_bytes,
{
    let n = config.num_layers as nat;
    let layer = (8 * (config.num_kv_heads * config.head_dim)) as nat;
    let kept = r.effective_context as nat;
    let ratio = quant_ratio(method);
    law_eviction_keeps_what_fits(r, config, context_len, budget, method, label);
    config.lemma_cache_size(kept);
    config.lemma_cache_size(context_len);
    law_shrunk(layer, method);
    let s = layer / ratio;
    assert(n * layer == 8 * (n * (config.num_kv_heads * config.head_dim))) by (nonlinear_arith)
        requires
            layer == 8 * (config.num_kv_heads * config.head_dim),
    ;
    assert(kept * (n * s) == (n * s) * kept) by (nonlinear_arith);
    if kept == context_len && full.baseline_bytes <= 0x20_0000_0000_0000 && layer % ratio == 0 {
        law_shrunk(full.baseline_bytes as nat, method);
        lemma_fundamental_div_mod(layer as int, ratio as int);
        assert((n * layer) * kept == ratio * (kept * (n * s))) by (nonlinear_arith)
            requires
                layer == ratio * s,
        ;
        lemma_div_multiples_vanish((kept * (n * s)) as int, ratio as int);
    }
}

/// A simulation has a row for each of four methods without eviction, with a
/// sliding window and with H2O, in this order, and each row is the projection
/// for its method and its strategy.
pub proof fn law_simulation(
    rows: Seq<SimulationResult>,
    config: ModelConfig,
    context_len: nat,
    budget: nat,
    i: int,
)
    requires
        is_simulation(rows, config, context_len, budget),
        0 <= i < rows.len(),
    ensures
        rows.len() == 12,
        ({
            let r = rows[i];
            let method = if i < 3 {
                None
            } else if i < 6 {
                Some(QuantMethod::FP16)
            } else if i < 9 {
                Some(QuantMethod::FP8E4M3)
            } else {
                Some(QuantMethod::INT4)
            };
            let evicting = if i % 3 == 0 {
                None
            } else if i % 3 == 1 {
                Some("Sliding Window (sink=4)"@)
            } else {
                Some("H2O (sink=4)"@)
            };
            let layer = (8 * (config.num_kv_heads * config.head_dim)) as nat;
            let token = config.num_layers as nat * shrunk(layer, method);
            let kept = r.effective_context as nat;
            &&& r.projects(config, context_len, budget, method, evicting)
            &&& r.model_name@ == config.name@
            &&& r.quant_method == method
            &&& r.eviction_strategy is Some <==> evicting is Some
            &&& r.eviction_strategy matches Some(s) ==> evicting == Some(s@)
            &&& r.context_len == context_len
            &&& r.budget_bytes == budget
            &&& r.baseline_bytes == 8 * (config.num_layers * (config.num_kv_heads
                * config.head_dim)) * context_len
            &&& r.fits_in_budget <==> r.compressed_bytes <= budget
            &&& i % 3 == 0 ==> kept == context_len && r.compressed_bytes == shrunk(
                r.baseline_bytes as nat,
                method,
            )
            &&& i % 3 != 0 ==> {
                &&& r.compressed_bytes == kept * token
                &&& kept <= context_len
                &&& kept * token <= budget
                &&& kept < context_len ==> (kept + 1) * token > budget
            }
        }),
{
    let r = rows[i];
    let m = method_at(i / 3);
    assert(i == 3 * (i / 3) + i % 3);
    if i % 3 == 0 {
        assert(r.projects(config, context_len, budget, m, None));
        law_projection(r, config, context_len, budget, m, None);
    } else {
        let label = if i % 3 == 1 {
            "Sliding Window (sink=4)"@
        } else {
            "H2O (sink=4)"@
        };
        assert(r.projects(config, context_len, budget, m, Some(label)));
        law_projection(r, config, context_len, budget, m, Some(label));
        law_eviction_keeps_what_fits(r, config, context_len, budget, m, label);
    }
}

/// The projection for a single layer: 8 bytes for each head, dimension and token,
/// of which the method leaves its part, and the ratio of the method as it is.
pub proof fn law_single_layer(
    r: SimulationResult,
    num_heads: nat,
    head_dim: nat,
    seq_len: nat,
    method: QuantMethod,
)
    requires
        r.projects_layer(num_heads, head_dim, seq_len, method),
    ensures
        ({
            let ratio: nat = match method {
                QuantMethod::FP16 => 2,
                QuantMethod::FP8E4M3 => 4,
                QuantMethod::INT4 => 8,
            };
            &&& r.context_len == seq_len
            &&& r.effective_context == seq_len
            &&& r.quant_method == Some(method)
            &&& r.eviction_strategy is None
            &&& r.fits_in_budget
            &&& r.budget_bytes == 0
            &&& r.baseline_bytes == 8 * (num_heads * head_dim) * seq_len
            &&& r.baseline_bytes <= 0x20_0000_0000_0000 ==> r.compressed_bytes
                == r.baseline_bytes as nat / ratio
            &&& r.compression_ratio.finite()
            &&& !r.compression_ratio.parts().neg
            &&& r.compression_ratio.units() == ratio * pow2(1074)
        }),
{
    assert(2 * num_heads * head_dim * 4 * seq_len == 8 * (num_heads * head_dim) * seq_len)
        by (nonlinear_arith);
    laws::law_whole_numbers_are_exact(method.ratio());
    if r.baseline_bytes <= 0x20_0000_0000_0000 {
        law_shrunk(r.baseline_bytes as nat, Some(method));
    }
}

/// Whether a text ends with another.
pub open spec fn ends_with(s: Seq<char>, end: Seq<char>) -> bool {
    s.len() >= end.len() && s.skip(s.len() - end.len()) == end
}

/// A number times 1024, `k` times.
pub open spec fn times_1024(n: Binary64, k: nat) -> Binary64
    decreases k,
{
    if k == 0 {
        n
    } else {
        times_1024(n, (k - 1) as nat).product(Binary64::of_integer(1024))
    }
}

/// A number of units of 1024 to the `k` bytes, in bytes.
pub open spec fn unit_budget(number: Seq<char>, k: nat) -> Option<usize> {
    match decimal::parsed(number) {
        Some(n) => Some(times_1024(n, k).whole() as usize),
        None => None,
    }
}

/// The number before a unit of two letters, in bytes.
pub open spec fn scaled_budget(s: Seq<char>, k: nat) -> Option<usize> {
    unit_budget(text::trimmed(s.take(s.len() - 2)), k)
}

/// The bytes of a budget in lower case: a number with one of the units `gb`,
/// `mb` and `kb`, or a whole number of bytes.
pub open spec fn budget_of(s: Seq<char>) -> Option<usize> {
    if ends_with(s, "gb"@) {
        scaled_budget(s, 3)
    } else if ends_with(s, "mb"@) {
        scaled_budget(s, 2)
    } else if ends_with(s, "kb"@) {
        scaled_budget(s, 1)
    } else {
        text::spelled_usize(s)
    }
}

/// Whether the last two characters are a letter and `b`.
fn has_unit(s: &[char], letter: char) -> (r: bool)
    ensures
        r == ends_with(s@, seq![letter, 'b']),
{
    let n: usize = s.len();
    if n < 2 {
        return false;
    }
    let r: bool = s[n - 2] == letter && s[n - 1] == 'b';
    proof {
        let end = s@.skip(n - 2);
        assert(r ==> end =~= seq![letter, 'b']);
        assert(end[0] == s@[n - 2] && end[1] == s@[n - 1]);
        assert(seq![letter, 'b'][0] == letter && seq![letter, 'b'][1] == 'b');
    }
    r
}

fn scale_budget(s: &[char], k: u32) -> (r: Option<usize>)
    requires
        s@.len() >= 2,
    ensures
        r == scaled_budget(s@, k as nat),
{
    let number: &[char] = slice_subrange(s, 0, s.len() - 2);
    assert(number@ =~= s@.take(s@.len() - 2));
    match decimal::parse(trim(number)) {
        Some(n) => {
            let step: Binary64 = Binary64::from_unsigned(1024);
            let mut total: Binary64 = n;
            for i in 0..k
                invariant
                    step == Binary64::of_integer(1024),
                    total == times_1024(n, i as nat),
            {
                total = total.times(step);
            }
            Some(total.to_usize())
        },
        None => None,
    }
}

/// The bytes of a budget that is trimmed and in lower case.
pub fn parse_lowercase_budget(s: &str) -> (r: Option<usize>)
    ensures
        r == budget_of(s@),
{
    let chars: Vec<char> = chars_of(s);
    let all: &[char] = chars.as_slice();
    proof {
        reveal_strlit("gb");
        reveal_strlit("mb");
        reveal_strlit("kb");
        assert("gb"@ =~= seq!['g', 'b']);
        assert("mb"@ =~= seq!['m', 'b']);
        assert("kb"@ =~= seq!['k', 'b']);
    }
    if has_unit(all, 'g') {
        scale_budget(all, 3)
    } else if has_unit(all, 'm') {
        scale_budget(all, 2)
    } else if has_unit(all, 'k') {
        scale_budget(all, 1)
    } else {
        parse_usize(all)
    }
}

/// The bytes of a budget in ASCII and whitespace, in whatever case.
pub open spec fn plain_budget(s: Seq<char>) -> Option<usize> {
    budget_of(text::lowered(text::trimmed(s)))
}

/// Parse a budget string like "2gb", "512mb", "2048mb" into bytes.
pub fn parse_budget(s: &str) -> (r: Option<usize>)
    ensures
        r == budget_of(text::lowercase(text::trimmed(s@))),
        text::is_plain_text(s@) ==> r == plain_budget(s@),
{
    let chars: Vec<char> = chars_of(s);
    let (start, end) = trim_bounds(chars.as_slice());
    let middle: &str = s.substring_char(start, end);
    let low: String = to_lowercase(middle);
    assert(text::is_plain_text(s@) ==> text::is_plain_text(middle@));
    parse_lowercase_budget(low.as_str())
}

/// Digits are no whitespace.
proof fn lemma_trimmed_digits(s: Seq<char>)
    requires
        s.len() > 0,
        text::all_digits(s),
    ensures
        text::trimmed(s) == s,
{
    assert(text::is_digit(s[0]));
    assert(text::is_digit(s[s.len() - 1]));
    text::lemma_count_before(s, |c: char| !text::is_white(c), 0);
    assert(s.skip(0) =~= s);
}

/// Whole numbers of 1024 to the `k` are exact.
proof fn lemma_times_1024(n: nat, k: nat)
    requires
        n <= 0x20_0000_0000_0000,
        k <= 3,
    ensures
        times_1024(Binary64::of_integer(n), k).finite(),
        !times_1024(Binary64::of_integer(n), k).parts().neg,
        times_1024(Binary64::of_integer(n), k).units() == n * pow2(1074 + 10 * k),
    decreases k,
{
    laws::law_whole_numbers_are_exact(n);
    if k > 0 {
        lemma_times_1024(n, (k - 1) as nat);
        let a = times_1024(Binary64::of_integer(n), (k - 1) as nat);
        laws::law_whole_numbers_are_exact(1024);
        lemma2_to64();
        lemma_pow2_adds(10, 1074);
        laws::lemma_exact_product(a, Binary64::of_integer(1024), n, (1064 + 10 * k) as nat, 1084);
        assert(1024 * pow2(1074) == pow2(10) * pow2(1074));
    }
}

/// As many bytes, or all that can be counted.
pub open spec fn saturated(bytes: nat) -> usize {
    if bytes < usize::MAX {
        bytes as usize
    } else {
        usize::MAX
    }
}

proof fn lemma_unit(s: Seq<char>, unit: Seq<char>, letter: char)
    requires
        unit.len() == 2,
        unit[0] == letter,
        unit[1] == 'b',
    ensures
        (s + unit).take((s + unit).len() - 2) == s,
        (s + unit).skip((s + unit).len() - 2) == unit,
{
    assert((s + unit).take((s + unit).len() - 2) =~= s);
    assert((s + unit).skip((s + unit).len() - 2) =~= unit);
}

proof fn lemma_whole_bytes(n: nat, k: nat)
    ensures
        (n * pow2(1074 + k)) as nat / pow2(1074) == n * pow2(k),
{
    let p = pow2(1074);
    lemma_pow2_pos(1074);
    lemma_pow2_adds(1074, k);
    assert(n * (p * pow2(k)) == p * (n * pow2(k))) by (nonlinear_arith);
    lemma_div_multiples_vanish((n * pow2(k)) as int, p as int);
}

/// A whole number up to `2^53` with a unit is as many times 1024, 1024 squared
/// or 1024 cubed bytes, or all that can be counted if that is less. A whole
/// number without a unit is as many bytes, if it can be counted.
#[verifier::spinoff_prover]
pub proof fn law_budget(n: nat)
    requires
        n <= 0x20_0000_0000_0000,
    ensures
        budget_of(text::decimal_text(n) + "kb"@) == Some(saturated(n * 0x400)),
        budget_of(text::decimal_text(n) + "mb"@) == Some(saturated(n * 0x10_0000)),
        budget_of(text::decimal_text(n) + "gb"@) == Some(saturated(n * 0x4000_0000)),
        budget_of(text::decimal_text(n)) == (if n <= usize::MAX {
            Some(n as usize)
        } else {
            None
        }),
{
    let s = text::decimal_text(n);
    text::law_decimal_text(n);
    lemma_trimmed_digits(s);
    decimal::law_parsed_digits(n);
    reveal_strlit("gb");
    reveal_strlit("mb");
    reveal_strlit("kb");
    lemma_unit(s, "kb"@, 'k');
    lemma_unit(s, "mb"@, 'm');
    lemma_unit(s, "gb"@, 'g');
    lemma_times_1024(n, 1);
    lemma_times_1024(n, 2);
    lemma_times_1024(n, 3);
    lemma2_to64();
    lemma_whole_bytes(n, 10);
    lemma_whole_bytes(n, 20);
    lemma_whole_bytes(n, 30);
    assert("gb"@[0] == 'g' && "mb"@[0] == 'm' && "kb"@[0] == 'k');
    // The last digit is not the `b` of a unit.
    assert(text::is_digit(s[s.len() - 1]));
    assert(text::is_digit(s[0]));
    if s.len() >= 2 {
        let end = s.skip(s.len() - 2);
        assert(end[1] == s[s.len() - 1]);
        assert("gb"@[1] == 'b' && "mb"@[1] == 'b' && "kb"@[1] == 'b');
    }
}

/// The units, in lower case, and the power of 1024 that each stands for.
pub open spec fn is_unit(unit: Seq<char>, k: nat) -> bool {
    ||| unit == "kb"@ && k == 1
    ||| unit == "mb"@ && k == 2
    ||| unit == "gb"@ && k == 3
}

/// What stands before a unit, in whatever case, is trimmed and read.
proof fn lemma_budget_with_unit(s: Seq<char>, unit: Seq<char>, k: nat)
    requires
        is_unit(text::lowered(unit), k),
    ensures
        plain_budget(s + unit) == unit_budget(text::lowered(text::trimmed(s)), k),
{
    reveal_strlit("gb");
    reveal_strlit("mb");
    reveal_strlit("kb");
    assert("gb"@[0] == 'g' && "mb"@[0] == 'm' && "kb"@[0] == 'k');
    assert("gb"@[1] == 'b' && "mb"@[1] == 'b' && "kb"@[1] == 'b');
    let low = text::lowered(unit);
    assert(unit.len() == 2);
    assert(low[0] == text::lower(unit[0]) && low[1] == text::lower(unit[1]));
    assert(!text::is_white(unit[0]) && !text::is_white(unit[1]));
    // Only what is in front is trimmed.
    let start = text::trimmed_start(s);
    text::lemma_trimmed_before(s, unit);
    assert((start + unit).last() == unit[1]);
    assert(text::trimmed(s + unit) == start + unit);
    // In lower case, the unit is still the end.
    let head = text::lowered(start);
    assert(text::lowered(start + unit) =~= head + low);
    lemma_unit(head, low, low[0]);
    text::law_lowered(start);
    text::lemma_trimmed_twice(s);
}

/// Upper and lower case spell the same budget.
pub proof fn law_budget_case(s: Seq<char>, t: Seq<char>)
    requires
        text::lowered(s) == text::lowered(t),
    ensures
        plain_budget(s) == plain_budget(t),
{
    text::law_lowered(s);
    text::law_lowered(t);
}

/// Whitespace around a budget changes nothing, whatever the text.
pub proof fn law_budget_outer_whitespace(a: Seq<char>, s: Seq<char>, b: Seq<char>)
    requires
        text::all_white(a),
        text::all_white(b),
    ensures
        budget_of(text::lowercase(text::trimmed(a + s + b))) == budget_of(
            text::lowercase(text::trimmed(s)),
        ),
        plain_budget(a + s + b) == plain_budget(s),
{
    text::law_trimmed(a, s, b);
}

/// Whitespace between the number and the unit changes nothing.
pub proof fn law_budget_inner_whitespace(
    number: Seq<char>,
    gap: Seq<char>,
    unit: Seq<char>,
    k: nat,
)
    requires
        text::all_white(gap),
        is_unit(text::lowered(unit), k),
    ensures
        plain_budget(number + gap + unit) == plain_budget(number + unit),
{
    lemma_budget_with_unit(number + gap, unit, k);
    lemma_budget_with_unit(number, unit, k);
    text::law_trimmed(Seq::empty(), number, gap);
    assert(Seq::empty() + number + gap =~= number + gap);
}

/// The same size in each of the units and in bytes is the same budget, with the
/// unit in whatever case and whitespace around the number and the unit.
#[verifier::spinoff_prover]
pub proof fn law_budget_units_agree(
    n: nat,
    a: Seq<char>,
    gap: Seq<char>,
    b: Seq<char>,
    gb: Seq<char>,
    mb: Seq<char>,
    kb: Seq<char>,
)
    requires
        n * 0x4000_0000 <= 0x20_0000_0000_0000,
        n * 0x4000_0000 <= usize::MAX,
        text::all_white(a),
        text::all_white(gap),
        text::all_white(b),
        text::lowered(gb) == "gb"@,
        text::lowered(mb) == "mb"@,
        text::lowered(kb) == "kb"@,
    ensures
        plain_budget(a + (text::decimal_text(n) + gap + gb) + b) == Some((n * 0x4000_0000) as usize),
        plain_budget(a + (text::decimal_text(n * 0x400) + gap + mb) + b) == Some(
            (n * 0x4000_0000) as usize,
        ),
        plain_budget(a + (text::decimal_text(n * 0x10_0000) + gap + kb) + b) == Some(
            (n * 0x4000_0000) as usize,
        ),
        plain_budget(a + text::decimal_text(n * 0x4000_0000) + b) == Some(
            (n * 0x4000_0000) as usize,
        ),
{
    lemma_written_gb(n, a, gap, b, gb);
    lemma_written_mb(n * 0x400, a, gap, b, mb);
    lemma_written_kb(n * 0x10_0000, a, gap, b, kb);
    lemma_written_bytes(n * 0x4000_0000, a, b);
}

#[verifier::spinoff_prover]
proof fn lemma_written_gb(n: nat, a: Seq<char>, gap: Seq<char>, b: Seq<char>, unit: Seq<char>)
    requires
        n <= 0x20_0000_0000_0000,
        text::all_white(a),
        text::all_white(gap),
        text::all_white(b),
        text::lowered(unit) == "gb"@,
    ensures
        plain_budget(a + (text::decimal_text(n) + gap + unit) + b) == Some(saturated(n * 0x4000_0000)),
{
    lemma_written_budget(n, a, gap, b, unit, 3);
    law_budget(n);
}

#[verifier::spinoff_prover]
proof fn lemma_written_mb(n: nat, a: Seq<char>, gap: Seq<char>, b: Seq<char>, unit: Seq<char>)
    requires
        n <= 0x20_0000_0000_0000,
        text::all_white(a),
        text::all_white(gap),
        text::all_white(b),
        text::lowered(unit) == "mb"@,
    ensures
        plain_budget(a + (text::decimal_text(n) + gap + unit) + b) == Some(saturated(n * 0x10_0000)),
{
    lemma_written_budget(n, a, gap, b, unit, 2);
    law_budget(n);
}

#[verifier::spinoff_prover]
proof fn lemma_written_kb(n: nat, a: Seq<char>, gap: Seq<char>, b: Seq<char>, unit: Seq<char>)
    requires
        n <= 0x20_0000_0000_0000,
        text::all_white(a),
        text::all_white(gap),
        text::all_white(b),
        text::lowered(unit) == "kb"@,
    ensures
        plain_budget(a + (text::decimal_text(n) + gap + unit) + b) == Some(saturated(n * 0x400)),
{
    lemma_written_budget(n, a, gap, b, unit, 1);
    law_budget(n);
}

/// A whole number of bytes with whitespace around it, as if it were plain.
#[verifier::spinoff_prover]
proof fn lemma_written_bytes(n: nat, a: Seq<char>, b: Seq<char>)
    requires
        n <= 0x20_0000_0000_0000,
        n <= usize::MAX,
        text::all_white(a),
        text::all_white(b),
    ensures
        plain_budget(a + text::decimal_text(n) + b) == Some(n as usize),
{
    let s = text::decimal_text(n);
    law_budget_outer_whitespace(a, s, b);
    text::law_decimal_text(n);
    lemma_trimmed_digits(s);
    lemma_lowered_digits(s);
    law_budget(n);
}

/// Digits have no case.
proof fn lemma_lowered_digits(s: Seq<char>)
    requires
        text::all_digits(s),
    ensures
        text::lowered(s) == s,
{
    assert forall|i: int| 0 <= i < s.len() implies text::lowered(s)[i] == s[i] by {
        assert(text::is_digit(s[i]));
    }
    assert(text::lowered(s) =~= s);
}

/// A whole number and a unit with whitespace and in whatever case, as if they
/// were plain.
proof fn lemma_written_budget(
    n: nat,
    a: Seq<char>,
    gap: Seq<char>,
    b: Seq<char>,
    unit: Seq<char>,
    k: nat,
)
    requires
        text::all_white(a),
        text::all_white(gap),
        text::all_white(b),
        is_unit(text::lowered(unit), k),
    ensures
        plain_budget(a + (text::decimal_text(n) + gap + unit) + b) == budget_of(
            text::decimal_text(n) + text::lowered(unit),
        ),
{
    let s = text::decimal_text(n);
    let low = text::lowered(unit);
    law_budget_outer_whitespace(a, s + gap + unit, b);
    law_budget_inner_whitespace(s, gap, unit, k);
    lemma_budget_with_unit(s, unit, k);
    text::law_decimal_text(n);
    lemma_trimmed_digits(s);
    lemma_lowered_digits(s);
    reveal_strlit("gb");
    reveal_strlit("mb");
    reveal_strlit("kb");
    assert("gb"@[0] == 'g' && "mb"@[0] == 'm' && "kb"@[0] == 'k');
    assert("gb"@[1] == 'b' && "mb"@[1] == 'b' && "kb"@[1] == 'b');
    lemma_unit(s, low, low[0]);
}

/// Times 1024 is exact, or beyond the largest number.
proof fn lemma_one_step(a: Binary64)
    requires
        a.finite(),
        !a.parts().neg,
    ensures
        ({
            let r = a.product(Binary64::of_integer(1024));
            &&& !r.parts().neg
            &&& r.finite() ==> r.units() == a.units() * 1024
            &&& !r.finite() ==> r.infinite() && a.units() * 1024 >= pow2(2098)
        }),
{
    let f = Format::Double;
    let b = Binary64::of_integer(1024);
    let r = a.product(b);
    let u = a.units();
    let one = pow2(1074);
    lemma2_to64();
    lemma2_to64_rest();
    lemma_pow2_pos(1074);
    laws::law_whole_numbers_are_exact(1024);
    laws::law_product(a, b, 0);
    let code = r.parts().code as nat;
    formats::lemma_nearest_is(f, code, u * (1024 * one), one);
    assert(u * (1024 * one) == (u * 1024) * one) by (nonlinear_arith);
    let m = formats::significand(a.parts().code as nat, 52);
    let t = formats::grid(a.parts().code as nat, 52);
    formats::lemma_grid_split(a.parts().code as nat, 52);
    lemma_pow2_adds(10, t);
    assert(u * 1024 == m * pow2(t + 10)) by (nonlinear_arith)
        requires
            u == m * pow2(t),
            pow2(t + 10) == 1024 * pow2(t),
    ;
    if t + 12 < 2048 {
        let c = laws::lemma_representable(f, m, t + 10);
        formats::lemma_nearest_exact(f, c, one);
    } else {
        lemma_pow2_adds(52, t + 10);
        assert(m * pow2(t + 10) >= pow2(52) * pow2(t + 10)) by (nonlinear_arith)
            requires
                m >= pow2(52),
        ;
        if t + 62 > 2098 {
            lemma_pow2_strictly_increases(2098, t + 62);
        }
        formats::lemma_grid_join(pow2(52), 2046, 52);
        lemma_pow2_unfold(53);
        lemma_pow2_adds(52, 2046);
        assert(2046 * pow2(52) + pow2(52) == f.infinity());
        assert(f.units(f.infinity()) * one <= (u * 1024) * one) by (nonlinear_arith)
            requires
                f.units(f.infinity()) <= u * 1024,
        ;
        formats::lemma_nearest_overflow(f, (u * 1024) * one, one);
        formats::lemma_nearest_is(f, f.infinity(), (u * 1024) * one, one);
    }
}

/// A number times 1024, `k` times: exact, or beyond the largest number.
proof fn lemma_steps(a: Binary64, k: nat)
    requires
        !a.nan(),
        !a.parts().neg,
    ensures
        ({
            let r = times_1024(a, k);
            &&& !r.nan()
            &&& !r.parts().neg
            &&& a.infinite() ==> r.infinite()
            &&& a.finite() && r.finite() ==> r.units() == a.units() * pow2(10 * k)
            &&& a.finite() && !r.finite() ==> r.infinite() && a.units() * pow2(10 * k) >= pow2(2098)
        }),
    decreases k,
{
    lemma2_to64();
    if k == 0 {
        assert(a.units() * 1 == a.units());
    } else {
        let j = (k - 1) as nat;
        let b = times_1024(a, j);
        let c = Binary64::of_integer(1024);
        lemma_steps(a, j);
        laws::law_whole_numbers_are_exact(1024);
        lemma_pow2_pos(1074);
        lemma_pow2_adds(10, 10 * j);
        let u = a.units();
        let p = pow2(10 * j);
        assert((u * p) * 1024 == u * (1024 * p) && u * (1024 * p) >= u * p) by (nonlinear_arith);
        if b.finite() {
            lemma_one_step(b);
        } else {
            assert(c.parts().code != 0) by {
                laws::law_doubled(1024);
                lemma_units_of_zero();
            }
            b.product(c).lemma_parts(arith::product(Format::Double, b.parts(), c.parts()));
        }
    }
}

proof fn lemma_units_of_zero()
    ensures
        Format::Double.units(0) == 0,
{
    lemma2_to64();
    lemma_pow2_unfold(53);
    lemma_pow2_pos(52);
    formats::lemma_grid_join(0, 0, 52);
    assert(0 * pow2(52) == 0);
    assert(0 * pow2(0) == 0);
}

/// Any number before a unit, in whatever case: the budget is the number times
/// 1024, 1024 squared or 1024 cubed, cut off to whole bytes, or all that can be
/// counted if that is less. What is negative or NaN is no byte, and what is no
/// number is no budget.
pub proof fn law_budget_of_any_number(number: Seq<char>, unit: Seq<char>, k: nat)
    requires
        text::lowered(unit) == "kb"@ && k == 1 || text::lowered(unit) == "mb"@ && k == 2
            || text::lowered(unit) == "gb"@ && k == 3,
    ensures
        ({
            let r = plain_budget(number + unit);
            let v = decimal::parsed(text::lowered(text::trimmed(number)));
            &&& r is Some <==> v is Some
            &&& v matches Some(x) ==> x.nan() || x.parts().neg ==> r == Some(0usize)
            &&& v matches Some(x) ==> x.infinite() && !x.parts().neg ==> r == Some(usize::MAX)
            &&& v matches Some(x) ==> x.finite() && !x.parts().neg ==> r == Some(
                saturated((x.units() * pow2(10 * k)) / pow2(1074)),
            )
        }),
{
    lemma_budget_with_unit(number, unit, k);
    lemma_pow2_pos(1074);
    let v = decimal::parsed(text::lowered(text::trimmed(number)));
    if v is Some {
        let x = v->0;
        if x.nan() {
            lemma_nan_steps(x, k);
        } else if x.parts().neg {
            lemma_negative_steps(x, k);
        } else {
            lemma_steps(x, k);
            let r = times_1024(x, k);
            if x.finite() && !r.finite() {
                let n = x.units() * pow2(10 * k);
                lemma_pow2_adds(1024, 1074);
                lemma_div_is_ordered(pow2(2098) as int, n as int, pow2(1074) as int);
                lemma_div_multiples_vanish(pow2(1024) as int, pow2(1074) as int);
                lemma_mul_is_commutative(pow2(1024) as int, pow2(1074) as int);
                lemma2_to64_rest();
                lemma_pow2_unfold(64);
                lemma_pow2_strictly_increases(64, 1024);
            }
        }
    }
}

proof fn lemma_nan_steps(a: Binary64, k: nat)
    requires
        a.nan(),
    ensures
        times_1024(a, k).nan(),
    decreases k,
{
    if k > 0 {
        let j = (k - 1) as nat;
        lemma_nan_steps(a, j);
        let b = times_1024(a, j);
        let c = Binary64::of_integer(1024);
        b.product(c).lemma_parts(arith::product(Format::Double, b.parts(), c.parts()));
    }
}

proof fn lemma_negative_steps(a: Binary64, k: nat)
    requires
        !a.nan(),
        a.parts().neg,
    ensures
        !times_1024(a, k).nan(),
        times_1024(a, k).parts().neg,
    decreases k,
{
    if k > 0 {
        let f = Format::Double;
        let j = (k - 1) as nat;
        lemma_negative_steps(a, j);
        let b = times_1024(a, j);
        let c = Binary64::of_integer(1024);
        laws::law_doubled(1024);
        lemma_units_of_zero();
        lemma_pow2_pos(1074);
        laws::law_nearest_exists(f, b.units() * c.units(), pow2(1074));
        b.product(c).lemma_parts(arith::product(f, b.parts(), c.parts()));
    }
}

/// A decimal number before a unit: the budget is what the binary64 number nearest
/// to it makes in bytes.
pub proof fn law_budget_of_a_decimal(a: Seq<char>, b: Seq<char>, unit: Seq<char>, k: nat) -> (code:
    nat)
    requires
        text::all_digits(a),
        text::all_digits(b),
        a.len() + b.len() > 0,
        text::lowered(unit) == "kb"@ && k == 1 || text::lowered(unit) == "mb"@ && k == 2
            || text::lowered(unit) == "gb"@ && k == 3,
    ensures
        Format::Double.is_nearest(
            code,
            (text::digits_value(a) * big::ten_to(b.len()) + text::digits_value(b)) * pow2(1074),
            big::ten_to(b.len()),
        ),
        plain_budget(a + seq!['.'] + b + unit) == Some(
            saturated((Format::Double.units(code) * pow2(10 * k)) / pow2(1074)),
        ),
{
    let s = a + seq!['.'] + b;
    let none = Seq::<char>::empty();
    let code = decimal::law_parsed_decimal(none, a, b);
    assert(none + s =~= s);
    assert(none != seq!['-']) by {
        assert(seq!['-'].len() == 1);
    }
    assert forall|i: int| 0 <= i < s.len() implies (#[trigger] s[i] == '.' || text::is_digit(s[i]))
        by {
        if i < a.len() {
            assert(s[i] == a[i]);
            assert(text::is_digit(a[i]));
        } else if i > a.len() {
            assert(s[i] == b[i - a.len() - 1]);
            assert(text::is_digit(b[i - a.len() - 1]));
        }
    }
    assert(text::lowered(s) =~= s);
    assert(!text::is_white(s[0]) && !text::is_white(s[s.len() - 1]));
    text::lemma_count_before(s, |c: char| !text::is_white(c), 0);
    assert(s.skip(0) =~= s);
    assert(text::trimmed(s) == s);
    law_budget_of_any_number(s, unit, k);
    let v = Binary64::of(Parts { neg: false, code: code as u64 });
    v.lemma_parts(Parts { neg: false, code: code as u64 });
    if code == Format::Double.infinity() {
        lemma2_to64();
        lemma2_to64_rest();
        lemma_pow2_unfold(53);
        formats::lemma_grid_join(pow2(52), 2046, 52);
        lemma_pow2_adds(52, 2046);
        assert(2046 * pow2(52) + pow2(52) == code);
        lemma_pow2_pos(10 * k);
        lemma_pow2_pos(1074);
        let n = pow2(2098) * pow2(10 * k);
        assert(n >= pow2(2098)) by (nonlinear_arith)
            requires
                n == pow2(2098) * pow2(10 * k),
                pow2(10 * k) >= 1,
        ;
        lemma_pow2_adds(1024, 1074);
        lemma_div_is_ordered(pow2(2098) as int, n as int, pow2(1074) as int);
        lemma_div_multiples_vanish(pow2(1024) as int, pow2(1074) as int);
        lemma_mul_is_commutative(pow2(1024) as int, pow2(1074) as int);
        lemma_pow2_unfold(64);
        lemma_pow2_strictly_increases(64, 1024);
    }
    code
}

} // verus!
