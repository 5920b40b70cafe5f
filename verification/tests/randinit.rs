use person2vec::randinit::{init_kind, is_layernorm_weight, InitKind, SplitMix64};

#[test]
fn layernorm_weight_detection() {
    assert!(is_layernorm_weight("embeddings.LayerNorm.weight"));
    assert!(is_layernorm_weight("h.0.ln_1.weight"));
    assert!(is_layernorm_weight("encoder.layer.3.output.LayerNorm.weight"));
    assert!(!is_layernorm_weight("embeddings.LayerNorm.bias"));
    assert!(!is_layernorm_weight("h.0.attn.c_attn.weight"));
}

#[test]
fn splitmix_is_deterministic_per_name_u64() {
    let draws = |seed: u64, name: &str| {
        let mut r = SplitMix64::new(seed, name);
        (0..8).map(|_| r.next_u64()).collect::<Vec<_>>()
    };
    assert_eq!(
        draws(7, "encoder.layer.0.attention.self.query.weight"),
        draws(7, "encoder.layer.0.attention.self.query.weight")
    );
    assert_ne!(draws(7, "a.weight"), draws(7, "b.weight"));
    assert_ne!(draws(7, "a.weight"), draws(8, "a.weight"));
}

#[test]
fn splitmix_matches_reference_values() {
    // FNV-1a of the empty name is the offset basis; seed 0 then starts at
    // offset * golden (wrapping), and the first draw is the splitmix64 mix.
    let mut r = SplitMix64::new(0, "");
    let expected_state: u64 = 0xcbf2_9ce4_8422_2325u64.wrapping_mul(0x9E37_79B9_7F4A_7C15);
    assert_eq!(r.s, expected_state);
    let s1 = expected_state.wrapping_add(0x9E37_79B9_7F4A_7C15);
    let mut z = s1;
    z = (z ^ (z >> 30)).wrapping_mul(0xBF58_476D_1CE4_E5B9);
    z = (z ^ (z >> 27)).wrapping_mul(0x94D0_49BB_1331_11EB);
    z ^= z >> 31;
    assert_eq!(r.next_u64(), z);
    assert_eq!(r.s, s1);
}

#[test]
fn init_kinds_follow_tensor_names() {
    assert_eq!(init_kind("embeddings.position_ids", false), InitKind::Copy);
    assert_eq!(init_kind("h.0.attn.c_attn.bias", true), InitKind::Zeros);
    assert_eq!(init_kind("h.0.ln_2.weight", true), InitKind::Ones);
    assert_eq!(init_kind("h.3.mlp.c_proj.weight", true), InitKind::Normal { residual_scaled: true });
    assert_eq!(init_kind("wte.weight", true), InitKind::Normal { residual_scaled: false });
}
