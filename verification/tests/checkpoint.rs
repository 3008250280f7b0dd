use qwen_engine::checkpoint::{self, RealModel};
use qwen_engine::json;
use qwen_engine::model::LayerKind;

#[test]
fn unused_subtrees_are_classified() {
    assert_eq!(
        checkpoint::is_unused("model.visual.blocks.0.attn.qkv.weight"),
        Some("vision tower")
    );
    assert_eq!(checkpoint::is_unused("visual.patch_embed.proj.weight"), Some("vision tower"));
    assert_eq!(
        checkpoint::is_unused("mtp.layers.0.mlp.gate_proj.weight"),
        Some("multi-token-prediction head")
    );
    assert_eq!(
        checkpoint::is_unused("model.language_model.layers.0.mlp.up_proj.weight"),
        None
    );
}

#[test]
fn text_config_prefers_the_nested_object() {
    let v = json::parse(
        b"{\"model_type\":\"qwen3_5\",\"text_config\":{\"hidden_size\":1024}}",
    )
    .unwrap();
    let (tc, src) = checkpoint::text_config(&v);
    assert_eq!(src, "text_config");
    assert_eq!(tc.get_u64("hidden_size"), Some(1024));

    let v = json::parse(b"{\"model_type\":\"qwen3_5_text\",\"hidden_size\":2048}").unwrap();
    let (tc, src) = checkpoint::text_config(&v);
    assert_eq!(src, "top level");
    assert_eq!(tc.get_u64("hidden_size"), Some(2048));
}

#[test]
fn layer_kind_reports_unknown_and_short_lists() {
    let types = vec!["linear_attention".to_string(), "full_attention".to_string()];
    assert_eq!(checkpoint::kind_of(&types, 0).unwrap(), LayerKind::LinearAttention);
    assert_eq!(checkpoint::kind_of(&types, 1).unwrap(), LayerKind::FullAttention);
    let e = checkpoint::kind_of(&types, 2).unwrap_err();
    assert!(e.contains("too short"), "{e}");
    let bad = vec!["sliding_attention".to_string()];
    let e = checkpoint::kind_of(&bad, 0).unwrap_err();
    assert!(e.contains("unknown layer type"), "{e}");
}

const CONFIG: &str = "{\"model_type\":\"qwen3_5\",\"text_config\":{\"model_type\":\"qwen3_5_text\",\"num_hidden_layers\":2,\"layer_types\":[\"linear_attention\",\"full_attention\"],\"head_dim\":4,\"num_attention_heads\":2,\"num_key_value_heads\":1,\"linear_num_key_heads\":1,\"linear_num_value_heads\":2,\"linear_key_head_dim\":2,\"linear_value_head_dim\":3,\"rms_norm_eps\":1e-6,\"rope_parameters\":{\"rope_theta\":10000.0,\"partial_rotary_factor\":0.5}}}";

/// The tensors of a model of two layers: one linear, one full.
fn tensors() -> Vec<(&'static str, Vec<u64>)> {
    vec![
        ("model.embed_tokens.weight", vec![6, 4]),
        ("model.norm.weight", vec![4]),
        ("model.layers.0.input_layernorm.weight", vec![4]),
        ("model.layers.0.post_attention_layernorm.weight", vec![4]),
        ("model.layers.0.mlp.gate_proj.weight", vec![8, 4]),
        ("model.layers.0.mlp.up_proj.weight", vec![8, 4]),
        ("model.layers.0.mlp.down_proj.weight", vec![4, 8]),
        ("model.layers.0.linear_attn.in_proj_qkv.weight", vec![10, 4]),
        ("model.layers.0.linear_attn.in_proj_z.weight", vec![6, 4]),
        ("model.layers.0.linear_attn.in_proj_b.weight", vec![2, 4]),
        ("model.layers.0.linear_attn.in_proj_a.weight", vec![2, 4]),
        ("model.layers.0.linear_attn.conv1d.weight", vec![10, 1, 4]),
        ("model.layers.0.linear_attn.A_log", vec![2]),
        ("model.layers.0.linear_attn.dt_bias", vec![2]),
        ("model.layers.0.linear_attn.norm.weight", vec![3]),
        ("model.layers.0.linear_attn.out_proj.weight", vec![4, 6]),
        ("model.layers.1.input_layernorm.weight", vec![4]),
        ("model.layers.1.post_attention_layernorm.weight", vec![4]),
        ("model.layers.1.mlp.gate_proj.weight", vec![8, 4]),
        ("model.layers.1.mlp.up_proj.weight", vec![8, 4]),
        ("model.layers.1.mlp.down_proj.weight", vec![4, 8]),
        ("model.layers.1.self_attn.q_proj.weight", vec![16, 4]),
        ("model.layers.1.self_attn.k_proj.weight", vec![4, 4]),
        ("model.layers.1.self_attn.v_proj.weight", vec![4, 4]),
        ("model.layers.1.self_attn.o_proj.weight", vec![4, 8]),
        ("model.layers.1.self_attn.q_norm.weight", vec![4]),
        ("model.layers.1.self_attn.k_norm.weight", vec![4]),
        ("mtp.layers.0.weight", vec![1]),
    ]
}

fn file(tensors: &[(&'static str, Vec<u64>)]) -> Vec<u8> {
    let mut entries = Vec::new();
    let mut data: Vec<u8> = Vec::new();
    for (name, shape) in tensors {
        let start = data.len();
        let n: u64 = shape.iter().product();
        for i in 0..n {
            data.extend_from_slice(&(i as f32).to_le_bytes());
        }
        entries.push(format!(
            "\"{name}\":{{\"dtype\":\"F32\",\"shape\":{shape:?},\"data_offsets\":[{start},{}]}}",
            data.len()
        ));
    }
    let header = format!("{{{}}}", entries.join(","));
    let mut f = (header.len() as u64).to_le_bytes().to_vec();
    f.extend_from_slice(header.as_bytes());
    f.extend_from_slice(&data);
    f
}

fn rotary(head_dim: u64, partial: u64) -> (u64, String) {
    let partial = f64::from_bits(partial) as f32;
    ((head_dim as f32 * partial) as u64, format!("{partial}"))
}

fn load(config: &str, tensors: &[(&'static str, Vec<u64>)]) -> Result<RealModel, String> {
    let f = file(tensors);
    checkpoint::load(
        "dir",
        "dir/config.json",
        Some(config.as_bytes()),
        vec![("dir/model.safetensors".to_string(), f.len() as u64, f)],
        rotary,
    )
}

#[test]
fn a_checkpoint_is_loaded_with_every_weight() {
    let m = match load(CONFIG, &tensors()) {
        Ok(m) => m,
        Err(e) => panic!("{e}"),
    };
    assert_eq!((m.config.vocab, m.config.hidden), (6, 4));
    assert_eq!(m.config.gdn.num_k_heads, 1);
    assert_eq!(m.config.gdn.num_v_heads, 2);
    assert_eq!(m.config.gdn.head_v_dim, 3);
    assert_eq!(m.config.gdn.conv_kernel, 4);
    assert_eq!(m.config.attn.rotary_dim, 2);
    assert_eq!(f64::from_bits(m.config.attn.rope_theta), 10000.0);
    assert_eq!(f64::from_bits(m.config.eps), 1e-6);
    assert_eq!(m.weights.layers.len(), 2);
    assert!(m.weights.layers[0].kind == LayerKind::LinearAttention);
    assert!(m.weights.layers[1].kind == LayerKind::FullAttention);
    assert_eq!(m.weights.layers[1].attn.as_ref().unwrap().o_proj.len(), 32);
    assert_eq!(f32::from_bits(m.weights.layers[0].gdn.as_ref().unwrap().norm[2]), 2.0);
    assert_eq!(m.weights.lm_head, m.weights.embed_tokens);
    assert!(m.info.tied_embeddings);
    assert_eq!(m.info.prefix, "model.");
    assert_eq!(m.info.config_source, "text_config");
    assert_eq!(m.info.tensors_total, 28);
    assert_eq!(m.info.skipped, vec![("multi-token-prediction head".to_string(), 1)]);
    assert_eq!(m.info.dtype_counts, vec![("F32".to_string(), 28)]);
    assert!(m.info.derived.contains(&("key_dim".to_string(), 2)));
}

fn without(name: &str) -> Vec<(&'static str, Vec<u64>)> {
    tensors().into_iter().filter(|(n, _)| *n != name).collect()
}

#[test]
fn a_checkpoint_with_a_fault_is_refused() {
    let err = |config: &str, t: &[(&'static str, Vec<u64>)]| load(config, t).err().unwrap();
    assert!(err("{", &tensors()).starts_with("dir/config.json: "));
    assert_eq!(
        err("{\"model_type\":\"llama\"}", &tensors()),
        "model_type is `llama`; this forward pass implements qwen3_5"
    );
    assert_eq!(
        err("{\"model_type\":\"qwen3_5\"}", &tensors()),
        "config has no layer_types; cannot tell linear from full layers"
    );
    let short = CONFIG.replace("\"num_hidden_layers\":2", "\"num_hidden_layers\":3");
    assert_eq!(
        err(&short, &tensors()),
        "layer_types has 2 entries but num_hidden_layers is 3"
    );
    let one = CONFIG.replace("\"full_attention\"", "\"linear_attention\"");
    assert!(err(&one, &tensors()).starts_with("the checkpoint has only one kind of layer"));
    let heads = CONFIG.replace("\"num_attention_heads\":2", "\"num_attention_heads\":3");
    assert!(err(&heads, &tensors())
        .contains("q_proj out = num_heads * head_dim * 2: config says 24, the tensors imply 16"));
    let odd = CONFIG.replace("\"partial_rotary_factor\":0.5", "\"partial_rotary_factor\":0.25");
    assert_eq!(
        err(&odd, &tensors()),
        "rotary_dim 1 (head_dim 4 * partial 0.25) is not a positive even number <= head_dim"
    );
    let eps = CONFIG.replace("\"rms_norm_eps\":1e-6,", "");
    assert_eq!(err(&eps, &tensors()), "config has no rms_norm_eps");
    let untied = CONFIG.replace("\"head_dim\":4,", "\"head_dim\":4,\"tie_word_embeddings\":false,");
    assert_eq!(
        err(&untied, &tensors()),
        "tie_word_embeddings is false and the checkpoint has no lm_head.weight"
    );
    assert!(err(CONFIG, &without("model.layers.1.self_attn.k_norm.weight"))
        .contains("model.layers.1.self_attn.k_norm.weight"));
    assert!(checkpoint::load("dir", "dir/config.json", None, vec![], rotary)
        .err()
        .unwrap()
        .contains("no config.json"));
}

#[test]
fn every_size_of_the_config_is_held_to_the_tensors() {
    let with = |key: &str, n: u64| {
        CONFIG.replace("\"head_dim\":4,", &format!("\"head_dim\":4,\"{key}\":{n},"))
    };
    for (key, n) in [
        ("hidden_size", 4),
        ("vocab_size", 6),
        ("intermediate_size", 8),
        ("linear_conv_kernel_dim", 4),
    ] {
        assert!(load(&with(key, n), &tensors()).is_ok(), "{key}");
        assert_eq!(
            load(&with(key, n + 1), &tensors()).err().unwrap(),
            format!(
                "the config and the tensor shapes disagree, so one of them is not what the forward \
                 pass should use:\n  {key}: config says {}, the tensors imply {n}",
                n + 1
            )
        );
    }
}

#[test]
fn a_separate_head_is_taken() {
    let mut t = tensors();
    t.push(("lm_head.weight", vec![6, 4]));
    let m = load(CONFIG, &t).ok().unwrap();
    assert!(!m.info.tied_embeddings);
}
