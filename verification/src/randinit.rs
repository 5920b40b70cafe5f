//! Reproducible random initialization of a checkpoint: the splitmix64 stream (one
//! independent stream per tensor, keyed by an FNV-1a hash of the tensor name) and the
//! tensor-name rules that decide how each tensor is initialized.

use vstd::prelude::*;

use crate::text::{chars_of, contains, contains_chars, ends_with, ends_with_chars, lowercase, to_lower};

verus! {

pub const FNV_OFFSET: u64 = 0xcbf2_9ce4_8422_2325;

pub const FNV_PRIME: u64 = 0x0000_0100_0000_01b3;

pub const GOLDEN_GAMMA: u64 = 0x9E37_79B9_7F4A_7C15;

/// FNV-1a hash of a byte string.
pub open spec fn fnv1a(bytes: Seq<u8>) -> u64
    decreases bytes.len(),
{
    if bytes.len() == 0 {
        FNV_OFFSET
    } else {
        (fnv1a(bytes.drop_last()) ^ (bytes.last() as u64)).wrapping_mul(FNV_PRIME)
    }
}

/// The splitmix64 output function applied to an advanced state.
pub open spec fn splitmix_mix(s: u64) -> u64 {
    let z1 = (s ^ (s >> 30u64)).wrapping_mul(0xBF58_476D_1CE4_E5B9u64);
    let z2 = (z1 ^ (z1 >> 27u64)).wrapping_mul(0x94D0_49BB_1331_11EBu64);
    z2 ^ (z2 >> 31u64)
}

/// Initial state of the stream for `seed` and a tensor name given by its UTF-8 bytes.
pub open spec fn splitmix_seed(seed: u64, name_bytes: Seq<u8>) -> u64 {
    seed ^ fnv1a(name_bytes).wrapping_mul(GOLDEN_GAMMA)
}

/// State after `k` draws from initial state `s0`.
pub open spec fn splitmix_state(s0: u64, k: nat) -> u64
    decreases k,
{
    if k == 0 {
        s0
    } else {
        splitmix_state(s0, (k - 1) as nat).wrapping_add(GOLDEN_GAMMA)
    }
}

/// The `k`-th draw (counting from 0) of the stream that starts in state `s0`.
pub open spec fn splitmix_draw(s0: u64, k: nat) -> u64 {
    splitmix_mix(splitmix_state(s0, k + 1))
}

/// A splitmix64 generator.
pub struct SplitMix64 {
    pub s: u64,
}

impl SplitMix64 {
    /// A stream keyed by `seed` and the tensor `name`.
    pub fn new(seed: u64, name: &str) -> (r: Self)
        ensures
            r.s == splitmix_seed(seed, vstd::utf8::encode_utf8(name@)),
    {
        let bytes = name.as_bytes();
        let mut h: u64 = FNV_OFFSET;
        let mut i: usize = 0;
        while i < bytes.len()
            invariant
                i <= bytes@.len(),
                bytes@ == vstd::utf8::encode_utf8(name@),
                h == fnv1a(bytes@.take(i as int)),
            decreases bytes@.len() - i,
        {
            proof {
                assert(bytes@.take(i as int + 1).drop_last() =~= bytes@.take(i as int));
            }
            h = h ^ (bytes[i] as u64);
            h = h.wrapping_mul(FNV_PRIME);
            i += 1;
        }
        proof {
            assert(bytes@.take(i as int) =~= bytes@);
        }
        SplitMix64 { s: seed ^ h.wrapping_mul(GOLDEN_GAMMA) }
    }

    /// The next 64-bit draw.
    pub fn next_u64(&mut self) -> (r: u64)
        ensures
            final(self).s == old(self).s.wrapping_add(GOLDEN_GAMMA),
            r == splitmix_mix(final(self).s),
    {
        self.s = self.s.wrapping_add(GOLDEN_GAMMA);
        let mut z = self.s;
        z = (z ^ (z >> 30)).wrapping_mul(0xBF58_476D_1CE4_E5B9);
        z = (z ^ (z >> 27)).wrapping_mul(0x94D0_49BB_1331_11EB);
        z ^ (z >> 31)
    }
}

/// Law: a stream is fully determined by its seed and tensor name — `k` draws from two
/// generators built from the same (seed, name) give the same values, and the state
/// after `k` draws is `splitmix_state(splitmix_seed(seed, name), k)`.
pub proof fn lemma_stream_determined(seed: u64, name_bytes: Seq<u8>, k: nat)
    ensures
        splitmix_draw(splitmix_seed(seed, name_bytes), k) == splitmix_mix(
            splitmix_state(splitmix_seed(seed, name_bytes), k + 1),
        ),
        splitmix_state(splitmix_seed(seed, name_bytes), k + 1) == splitmix_state(
            splitmix_seed(seed, name_bytes),
            k,
        ).wrapping_add(GOLDEN_GAMMA),
{
}


/// A `<name>.weight` belonging to a LayerNorm (γ, initialized to ones), across BERT/JinaBERT
/// (`LayerNorm`) and GPT-2 (`ln_1`, `ln_2`, `ln_f`) naming.
pub open spec fn layernorm_weight_name(name: Seq<char>) -> bool {
    let l = lowercase(name);
    ends_with(name, ".weight"@) && (contains(l, "layernorm"@) || contains(l, "layer_norm"@)
        || contains(l, "ln_1"@) || contains(l, "ln_2"@) || contains(l, "ln_f"@))
}

/// Whether tensor `name` is a LayerNorm weight.
pub fn is_layernorm_weight(name: &str) -> (b: bool)
    ensures
        b == layernorm_weight_name(name@),
{
    let nm = chars_of(name);
    if !ends_with_chars(&nm, &chars_of(".weight")) {
        return false;
    }
    let lower = to_lower(name);
    let l = chars_of(lower.as_str());
    contains_chars(&l, &chars_of("layernorm")) || contains_chars(&l, &chars_of("layer_norm"))
        || contains_chars(&l, &chars_of("ln_1")) || contains_chars(&l, &chars_of("ln_2"))
        || contains_chars(&l, &chars_of("ln_f"))
}

/// Tensor-name suffix test (`str::ends_with`).
pub fn name_ends_with(name: &str, suffix: &str) -> (b: bool)
    ensures
        b == ends_with(name@, suffix@),
{
    ends_with_chars(&chars_of(name), &chars_of(suffix))
}


/// How one tensor of a random checkpoint is initialized.
#[derive(PartialEq, Eq, Structural, Clone, Copy, Debug)]
pub enum InitKind {
    /// Integer buffers (position ids, masks): copied verbatim.
    Copy,
    /// Biases: all zeros.
    Zeros,
    /// LayerNorm weights: all ones.
    Ones,
    /// Other float weights: normal draws with the configured std, scaled by the
    /// residual-projection factor when `residual_scaled`.
    Normal { residual_scaled: bool },
}

/// The initialization rule for tensor `name` (`is_float`: it holds floating-point data).
pub open spec fn init_kind_spec(name: Seq<char>, is_float: bool) -> InitKind {
    if !is_float {
        InitKind::Copy
    } else if ends_with(name, ".bias"@) {
        InitKind::Zeros
    } else if layernorm_weight_name(name) {
        InitKind::Ones
    } else {
        InitKind::Normal { residual_scaled: ends_with(name, "c_proj.weight"@) }
    }
}

/// Decide how tensor `name` is initialized in the random-init control checkpoint.
pub fn init_kind(name: &str, is_float: bool) -> (k: InitKind)
    ensures
        k == init_kind_spec(name@, is_float),
{
    if !is_float {
        InitKind::Copy
    } else if name_ends_with(name, ".bias") {
        InitKind::Zeros
    } else if is_layernorm_weight(name) {
        InitKind::Ones
    } else {
        InitKind::Normal { residual_scaled: name_ends_with(name, "c_proj.weight") }
    }
}

} // verus!
