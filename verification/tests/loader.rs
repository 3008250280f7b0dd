use qwen_engine::bundle::{Bundle, Greedy, Manifest, Source, TensorEntry};
use qwen_engine::gdn::GdnConfig;
use qwen_engine::json::Json;
use qwen_engine::loader::{self, LayerCapture, ModelInfo};

fn info(types: &[&str]) -> ModelInfo {
    ModelInfo {
        b: 1,
        t: 1,
        hidden: 4,
        intermediate: 8,
        num_layers: types.len(),
        layer_types: types.iter().map(|s| s.to_string()).collect(),
        eps: 1e-6f64.to_bits(),
        ssm_gain: 1.0f64.to_bits(),
        gdn: GdnConfig {
            hidden: 4,
            num_k_heads: 1,
            num_v_heads: 1,
            head_k_dim: 2,
            head_v_dim: 2,
            conv_kernel: 2,
            eps: 1e-6f64.to_bits(),
        },
    }
}

const EIGHT: [&str; 8] = [
    "linear_attention",
    "linear_attention",
    "linear_attention",
    "full_attention",
    "linear_attention",
    "linear_attention",
    "linear_attention",
    "full_attention",
];

#[test]
fn ssm_ordinal_skips_full_attention_layers() {
    let m = info(&EIGHT);
    assert_eq!(m.ssm_ordinal(0), Some(0));
    assert_eq!(m.ssm_ordinal(1), Some(1));
    assert_eq!(m.ssm_ordinal(2), Some(2));
    assert_eq!(m.ssm_ordinal(3), None);
    assert_eq!(m.ssm_ordinal(4), Some(3));
    assert_eq!(m.ssm_ordinal(5), Some(4));
    assert_eq!(m.ssm_ordinal(6), Some(5));
    assert_eq!(m.ssm_ordinal(7), None);
}

#[test]
fn capture_names_use_the_ordinal_not_the_layer() {
    let c = LayerCapture::new(4, Some(3));
    assert_eq!(c.conv_in().unwrap(), "causal_conv1d_fn_call3_in");
    assert_eq!(c.delta_out().unwrap(), "delta_torch_chunk_gated_delta_rule_3__out");
    assert_eq!(c.delta_state().unwrap(), "delta_torch_chunk_gated_delta_rule_3__state");
    assert_eq!(c.in_proj_qkv(), "model__layers__4__linear_attn__in_proj_qkv");
    assert_eq!(c.layer_out(), "model__layers__4");
}

#[test]
fn full_attention_layer_has_no_delta_names() {
    let c = LayerCapture::new(3, None);
    assert_eq!(c.conv_in(), None);
    assert_eq!(c.delta_out(), None);
    assert_eq!(c.layer_out(), "model__layers__3");
    assert_eq!(c.mlp_swiglu(), "model__layers__3__mlp__swiglu_product");
}

#[test]
fn runs_split_at_full_attention_layers() {
    let m = info(&EIGHT);
    assert_eq!(m.runs(), vec![vec![0, 1, 2], vec![4, 5, 6]]);
    assert_eq!(m.verifiable_layers(), vec![0, 1, 2, 4, 5, 6]);
    assert_eq!(m.counts(), (6, 2));
}

#[test]
fn input_name_chains_from_the_previous_layer() {
    let m = info(&["linear_attention", "linear_attention"]);
    assert_eq!(m.input_name(0), "model__embed_tokens");
    assert_eq!(m.input_name(1), "model__layers__0");
}

#[test]
fn a_layer_beyond_the_list_is_unknown() {
    let m = info(&["linear_attention"]);
    assert_eq!(m.layer_type(0), "linear_attention");
    assert_eq!(m.layer_type(1), "unknown");
    assert!(m.is_linear(0) && !m.is_linear(1));
}

#[test]
fn weights_need_their_exact_sizes() {
    let m = info(&["linear_attention", "full_attention"]);
    let wanted = loader::gdn_wanted(&m, 0).unwrap();
    assert_eq!(wanted.len(), 9);
    let reads = || -> Vec<Result<Vec<u32>, String>> {
        wanted.iter().map(|(_, n)| Ok(vec![0u32; *n as usize])).collect()
    };
    let w = loader::load_gdn_weights(&m, 0, reads()).unwrap();
    assert_eq!(w.in_proj_qkv.len(), 6 * 4);
    assert_eq!(w.conv1d.len(), 6 * 2);
    let mut short = reads();
    short[2] = Ok(vec![0u32; 3]);
    let err = loader::load_gdn_weights(&m, 0, short).err().unwrap();
    assert!(err.contains(&wanted[2].0), "{err}");
    let mut missing = reads();
    missing[0] = Err("gone".to_string());
    assert!(loader::load_gdn_weights(&m, 0, missing).is_err());
    assert_eq!(
        loader::gdn_wanted(&m, 1).err().unwrap(),
        "layer 1 is full_attention; it has no gated delta net"
    );
    let wanted = loader::layer_wanted(&m, 1);
    assert_eq!(wanted.len(), 5);
    let reads: Vec<Result<Vec<u32>, String>> =
        wanted.iter().map(|(_, n)| Ok(vec![7u32; *n as usize])).collect();
    let w = loader::load_layer_weights(&m, 1, reads).unwrap();
    assert_eq!(w.mlp.gate_proj.len(), 32);
    assert_eq!(w.input_layernorm, vec![7u32; 4]);
}

fn bundle(tensors: &[(&str, &[u64])]) -> Result<Bundle, String> {
    let entries = tensors
        .iter()
        .map(|(name, shape)| TensorEntry {
            group: "weights".to_string(),
            name: name.to_string(),
            file: format!("{name}.bin"),
            shape: shape.to_vec(),
            dtype: "f32".to_string(),
            numel: shape.iter().product(),
            nbytes: 4 * shape.iter().product::<u64>(),
        })
        .collect();
    Bundle::open(
        "root",
        Manifest {
            schema: "qwen35-golden-v1".to_string(),
            byte_order: "little".to_string(),
            dtype: "f32".to_string(),
            source: Source {
                model: "m".to_string(),
                transformers: None,
                torch: None,
                seed: 0,
                params: 0,
                ssm_gain: 1.0f64.to_bits(),
            },
            config: Json::Null,
            prompt_ids: vec![],
            tensors: entries,
            greedy: Greedy { steps: vec![], final_ids: vec![] },
        },
    )
}

#[test]
fn a_bundle_without_layers_cannot_be_loaded() {
    let b = bundle(&[("x", &[1])]).unwrap();
    assert!(loader::load_model(&b).is_err());
}

fn linear_bundle(conv: u64) -> Vec<(&'static str, Vec<u64>)> {
    vec![
        ("model__embed_tokens", vec![1, 3, 4]),
        ("model__layers__0", vec![1, 3, 4]),
        ("model__layers__0__linear_attn", vec![1, 3, 4]),
        ("model__layers__0__input_layernorm__weight", vec![4]),
        ("model__layers__0__mlp__gate_proj__weight", vec![8, 4]),
        ("model__layers__0__linear_attn__in_proj_qkv__weight", vec![conv, 4]),
        ("model__layers__0__linear_attn__in_proj_z__weight", vec![4, 4]),
        ("model__layers__0__linear_attn__in_proj_b__weight", vec![2, 4]),
        ("model__layers__0__linear_attn__norm__weight", vec![2]),
        ("model__layers__0__linear_attn__conv1d__weight", vec![conv, 1, 2]),
        ("delta_torch_chunk_gated_delta_rule_0__q", vec![1, 3, 2, 2]),
    ]
}

fn load(tensors: &[(&'static str, Vec<u64>)]) -> Result<ModelInfo, String> {
    let list: Vec<(&str, &[u64])> = tensors.iter().map(|(n, s)| (*n, s.as_slice())).collect();
    loader::load_model(&bundle(&list).unwrap())
}

fn without(name: &str) -> Vec<(&'static str, Vec<u64>)> {
    linear_bundle(8).into_iter().filter(|(n, _)| *n != name).collect()
}

#[test]
fn sizes_are_read_off_the_shapes() {
    let m = load(&linear_bundle(8)).unwrap();
    assert_eq!((m.b, m.t, m.hidden, m.intermediate), (1, 3, 4, 8));
    assert_eq!(m.num_layers, 1);
    assert_eq!(m.layer_types, vec!["linear_attention".to_string()]);
    assert_eq!((m.gdn.num_k_heads, m.gdn.num_v_heads), (1, 2));
    assert_eq!((m.gdn.head_k_dim, m.gdn.head_v_dim, m.gdn.conv_kernel), (2, 2, 2));
    assert_eq!(f64::from_bits(m.eps) as f32, 1e-6f32);
}

#[test]
fn a_bundle_that_lacks_something_is_refused() {
    let err = |t: &[(&'static str, Vec<u64>)]| load(t).err().unwrap();
    assert_eq!(
        err(&without("model__embed_tokens")),
        "bundle has no model__embed_tokens; cannot determine B and T"
    );
    assert_eq!(
        err(&without("model__layers__0")),
        "bundle captures no decoder-layer outputs (model__layers__<N>)"
    );
    assert_eq!(
        err(&without("model__layers__0__linear_attn")),
        "no linear_attention layers in this bundle"
    );
    assert_eq!(
        err(&without("model__layers__0__linear_attn__norm__weight")),
        "missing linear_attn norm weight"
    );
    assert_eq!(
        err(&linear_bundle(9)),
        "derived sizes are inconsistent:\n  conv_dim=9 value_dim=4\n  num_k_heads=1 num_v_heads=2\n  head_k_dim=2 head_v_dim=2"
    );
}
