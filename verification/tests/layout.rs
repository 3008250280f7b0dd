use qwen_engine::attention;
use qwen_engine::gdn;
use qwen_engine::layout;
use qwen_engine::model::{self, Greedy, LayerKind};

fn bits(v: &[f32]) -> Vec<u32> {
    v.iter().map(|x| x.to_bits()).collect()
}

fn floats(v: Vec<u32>) -> Vec<f32> {
    v.into_iter().map(f32::from_bits).collect()
}

#[test]
fn repeat_interleave_duplicates_consecutively() {
    let x = vec![10.0f32, 20.0];
    let y = gdn::repeat_interleave_heads(&x, 1, 1, 2, 1, 2);
    assert_eq!(y, vec![10.0, 10.0, 20.0, 20.0]);
    let z = gdn::repeat_interleave_heads(&x, 1, 1, 2, 1, 1);
    assert_eq!(z, x);
}

#[test]
fn transpose_round_trips_and_places_elements() {
    let (b, t, c) = (2usize, 4usize, 3usize);
    let mut x = vec![0f32; b * t * c];
    for bi in 0..b {
        for ti in 0..t {
            for ci in 0..c {
                x[(bi * t + ti) * c + ci] = (bi * 100 + ti * 10 + ci) as f32;
            }
        }
    }
    let y = gdn::btc_to_bct(&x, b, t, c);
    for bi in 0..b {
        for ti in 0..t {
            for ci in 0..c {
                let want = (bi * 100 + ti * 10 + ci) as f32;
                assert_eq!(
                    y[(bi * c + ci) * t + ti],
                    want,
                    "bct layout wrong at bi={bi} ci={ci} ti={ti}"
                );
            }
        }
    }
    let z = gdn::bct_to_btc(&y, b, c, t);
    assert_eq!(x, z, "round trip");
}

#[test]
fn rotate_half_is_the_half_convention_not_interleaved() {
    let out = attention::rotate_half(&bits(&[1.0, 2.0, 3.0, 4.0]), 4);
    assert_eq!(floats(out), vec![-3.0, -4.0, 1.0, 2.0]);
}

#[test]
fn embedding_lookup_picks_the_right_rows() {
    let w = vec![0f32, 1.0, 2.0, 3.0, 10.0, 11.0, 12.0, 13.0];
    let e = model::embed(&w, &[1, 0], 2, 4).unwrap();
    assert_eq!(e, vec![10.0, 11.0, 12.0, 13.0, 0.0, 1.0, 2.0, 3.0]);
    assert_eq!(model::embed(&w[..4], &[0, 0], 2, 4).unwrap().len(), 8);
}

#[test]
fn out_of_range_token_is_reported() {
    let w = vec![0f32; 8];
    let err = model::embed(&w, &[5], 2, 4).unwrap_err();
    assert!(err.contains("out of range"), "{err}");
    assert_eq!(err, "token id 5 is out of range for vocab 2");
    let err = model::embed(&w[..4], &[0, 7, 1, 9], 2, 4).unwrap_err();
    assert_eq!(err, "token id 7 is out of range for vocab 2");
}

#[test]
fn query_gate_split_is_per_head() {
    let projected = vec![10.0f32, 11.0, 20.0, 21.0, 30.0, 31.0, 40.0, 41.0];
    let (q, gate) = attention::split_query_gate(&projected, 1, 2, 2);
    assert_eq!(q, vec![10.0, 11.0, 30.0, 31.0]);
    assert_eq!(gate, vec![20.0, 21.0, 40.0, 41.0]);
    let head0 = &q[0..2];
    let head1 = &q[2..4];
    assert!((head0[0] / head0[1] - 10.0 / 11.0).abs() < 1e-4, "head0 {head0:?}");
    assert!((head1[0] / head1[1] - 30.0 / 31.0).abs() < 1e-4, "head1 {head1:?}");
}

#[test]
fn gqa_head_mapping_is_contiguous_per_kv_head() {
    let v = [10.0f32, 10.0, 20.0, 20.0];
    let full = attention::repeat_kv(&v, 1, 2, 1, 2, 2);
    assert_eq!(full, vec![10.0, 10.0, 10.0, 10.0, 20.0, 20.0, 20.0, 20.0]);
    let gated: Vec<f32> = full.iter().map(|x| x * 0.5).collect();
    assert_eq!(gated.len(), 4 * 2);
    let want = [5.0f32, 5.0, 5.0, 5.0, 10.0, 10.0, 10.0, 10.0];
    for (i, wv) in want.iter().enumerate() {
        assert!((gated[i] - wv).abs() < 1e-5, "head {} dim {}: {gated:?}", i / 2, i % 2);
    }
}

#[test]
fn rope_uses_the_position_not_the_row() {
    let (t, heads, d) = (3usize, 2usize, 4usize);
    let angle = |pos: usize, i: usize| {
        pos as f32 / 10000.0f32.powf((2 * (i % (d / 2))) as f32 / d as f32)
    };
    for ti in 0..t {
        for hh in 0..heads {
            let r = ti * heads + hh;
            let row: Vec<f32> = (0..d).map(|i| (ti * 10 + hh) as f32 + i as f32 * 0.1).collect();
            let rh = floats(attention::rotate_half(&bits(&row), d));
            let pos = attention::rope_position(r, heads, t);
            for i in 0..d {
                let got = row[i] * angle(pos, i).cos() + rh[i] * angle(pos, i).sin();
                let expect = row[i] * angle(ti, i).cos() + rh[i] * angle(ti, i).sin();
                assert!((got - expect).abs() < 1e-5, "row for (t={ti}, h={hh}) dim {i}");
            }
        }
    }
    let got: Vec<usize> = (0..12).map(|r| attention::rope_position(r, 2, 3)).collect();
    assert_eq!(got, vec![0, 0, 1, 1, 2, 2, 0, 0, 1, 1, 2, 2]);
}

#[test]
fn heads_and_positions_change_places_and_back() {
    let x: Vec<u32> = (0..24).collect();
    let y = attention::to_bhtd(&x, 1, 3, 4, 2);
    assert_eq!(&y[..6], &[0, 1, 8, 9, 16, 17]);
    assert_eq!(attention::to_bthd(&y, 1, 4, 3, 2), x);
}

#[test]
fn a_row_is_split_into_queries_keys_and_values() {
    let x: Vec<u32> = (0..14).collect();
    let r = gdn::split_qkv(&x, 2, 2, 3);
    assert_eq!(r.q, vec![0, 1, 7, 8]);
    assert_eq!(r.k, vec![2, 3, 9, 10]);
    assert_eq!(r.v, vec![4, 5, 6, 11, 12, 13]);
    assert_eq!(layout::take_columns(&x, 2, 7, 6, 1), vec![6, 13]);
}

#[test]
fn taps_never_read_a_later_position() {
    assert_eq!(gdn::conv_tap(0, 3, 4), Some(0));
    assert_eq!(gdn::conv_tap(0, 2, 4), None);
    assert_eq!(gdn::conv_tap(3, 0, 4), Some(0));
    assert_eq!(gdn::conv_tap(4, 1, 4), Some(2));
    for t in 0..8 {
        for k in 0..4 {
            if let Some(j) = gdn::conv_tap(t, k, 4) {
                assert!(j <= t);
            }
        }
    }
}

#[test]
fn large_products_are_spread_over_threads() {
    assert_eq!(gdn::rows_per_thread(200, 64, 40, 8), Some(25));
    assert_eq!(gdn::rows_per_thread(200, 64, 40, 1), None);
    assert_eq!(gdn::rows_per_thread(2, 3, 4, 8), None);
    assert_eq!(gdn::rows_per_thread(1 << 20, 1, 1, 88), Some(1 << 15));
    assert_eq!(gdn::rows_per_thread(7, 1 << 18, 1, 4), Some(2));
}

#[test]
fn the_first_largest_logit_wins() {
    assert_eq!(model::argmax_last(&bits(&[1.0, 3.0, 3.0, -5.0])), 1);
    assert_eq!(model::argmax_last(&bits(&[-1.0, -0.5])), 1);
    assert_eq!(model::argmax_last(&bits(&[0.0, -0.0])), 0);
    assert_eq!(model::argmax_last(&bits(&[f32::NEG_INFINITY, -1e38, f32::INFINITY])), 2);
    assert_eq!(model::argmax_last(&[]), 0);
    assert_eq!(model::last_logits(&[1, 2, 3, 4, 5, 6], 2, 3), &[4, 5, 6]);
}

#[test]
fn greedy_decoding_appends_what_is_most_likely() {
    let mut g = Greedy::new(&[1, 2], 3);
    let mut made = Vec::new();
    while g.wants_forward() {
        let logits = bits(&[0.0, 1.0, g.ids.len() as f32, 2.0]);
        made.push(g.advance(&logits));
    }
    assert_eq!(made.len(), 3);
    assert_eq!(g.ids, vec![1, 2, 2, 2, 2]);
    assert!(!Greedy::new(&[1], 0).wants_forward());
    let mut g = Greedy::new(&[4], 1);
    assert_eq!(g.advance(&[]), 0);
    assert_eq!(g.ids, vec![4, 0]);
}

#[test]
fn inputs_are_checked_before_the_model_runs() {
    assert!(model::check_input(6, 4, 24, 1).is_ok());
    assert_eq!(model::check_input(6, 4, 24, 0).unwrap_err(), "empty input");
    assert_eq!(
        model::check_input(6, 4, 23, 1).unwrap_err(),
        "embed_tokens is 23 values, vocab*hidden = 24"
    );
}

#[test]
fn a_layer_needs_the_weights_of_its_kind() {
    let l = model::LayerWeightsAll::<u32> {
        kind: LayerKind::LinearAttention,
        layer: qwen_engine::layer::LayerWeights {
            input_layernorm: vec![],
            post_attention_layernorm: vec![],
            mlp: qwen_engine::layer::MlpWeights { gate_proj: vec![], up_proj: vec![], down_proj: vec![] },
        },
        gdn: None,
        attn: None,
    };
    assert_eq!(
        l.mixer().unwrap_err(),
        "linear_attention layer has no gated-delta-net weights"
    );
}

#[test]
fn sizes_of_a_net() {
    let g = gdn::GdnConfig {
        hidden: 8,
        num_k_heads: 2,
        num_v_heads: 4,
        head_k_dim: 16,
        head_v_dim: 8,
        conv_kernel: 4,
        eps: 0u64,
    };
    assert_eq!((g.key_dim(), g.value_dim(), g.conv_dim(), g.kv_ratio()), (32, 32, 96, 2));
    let a = attention::AttnConfig {
        hidden: 8,
        num_heads: 6,
        num_kv_heads: 2,
        head_dim: 4,
        rotary_dim: 2,
        rope_theta: 0u64,
        eps: 0u64,
    };
    assert_eq!((a.q_out_dim(), a.kv_out_dim(), a.kv_groups()), (48, 8, 3));
}
