use qwen_engine::bundle::{self, Bundle, Greedy, GreedyStep, Manifest, Source, TensorEntry};
use qwen_engine::checks::judge_trace;
use qwen_engine::compare::{self, Step};
use qwen_engine::json::Json;

fn entry(group: &str, name: &str, nbytes: u64) -> TensorEntry {
    TensorEntry {
        group: group.to_string(),
        name: name.to_string(),
        file: bundle::relative_file(group, name),
        shape: vec![nbytes / 4],
        dtype: "f32".to_string(),
        numel: nbytes / 4,
        nbytes,
    }
}

fn step(n: u64, argmax: u32) -> GreedyStep {
    GreedyStep {
        step: n,
        input_len: n + 1,
        argmax_token: argmax,
        topk_tokens: vec![argmax],
        topk_logits: vec![0],
        logit_sum: 0,
        logit_max: 0,
    }
}

fn manifest(tensors: Vec<TensorEntry>, ids: Vec<u32>) -> Manifest {
    Manifest {
        schema: "qwen35-golden-v1".to_string(),
        byte_order: "little".to_string(),
        dtype: "f32".to_string(),
        source: Source {
            model: "m".to_string(),
            transformers: None,
            torch: None,
            seed: 1,
            params: 2,
            ssm_gain: 1.0f64.to_bits(),
        },
        config: Json::Null,
        prompt_ids: vec![1],
        tensors,
        greedy: Greedy { steps: vec![step(0, 2)], final_ids: ids },
    }
}

fn bits(v: &[f32]) -> Vec<u32> {
    v.iter().map(|x| x.to_bits()).collect()
}

fn deltas(g: &[f32], c: &[f32]) -> Vec<u32> {
    g.iter().zip(c.iter()).map(|(x, y)| (x - y).abs().to_bits()).collect()
}

fn diff(g: &[f32], c: &[f32]) -> Option<bundle::TensorDiff> {
    bundle::diff("t", &[g.len() as u64], &bits(g), &bits(c), &deltas(g, c))
}

#[test]
fn a_bundle_is_opened_by_its_layout() {
    let b = Bundle::open("r", manifest(vec![entry("weights", "a", 8)], vec![1])).ok().unwrap();
    assert_eq!(b.names(), vec!["a".to_string()]);
    assert!(b.entry("a").is_some() && b.entry("b").is_none());
    let mut m = manifest(vec![], vec![]);
    m.schema = "other".to_string();
    assert_eq!(Bundle::open("r", m).err().unwrap(), "r: unexpected schema \"other\"");
    let mut m = manifest(vec![], vec![]);
    m.byte_order = "b\"ig".to_string();
    assert_eq!(
        Bundle::open("r", m).err().unwrap(),
        "r: byte_order is \"b\\\"ig\", expected little"
    );
    let mut m = manifest(vec![], vec![]);
    m.dtype = "f16".to_string();
    assert_eq!(Bundle::open("r", m).err().unwrap(), "r: dtype is \"f16\", expected f32");
    let twice = manifest(vec![entry("a", "x", 4), entry("b", "x", 4)], vec![]);
    assert_eq!(Bundle::open("r", twice).err().unwrap(), "r: duplicate tensor name x");
}

#[test]
fn what_is_encoded_reads_back() {
    let v = bits(&[1.0, -2.5, f32::INFINITY]);
    let raw = bundle::encode(&v);
    assert_eq!(raw[..4], 1.0f32.to_le_bytes());
    assert_eq!(bundle::decode(&raw), v);
    let b = Bundle::open("r", manifest(vec![entry("g", "a", 12)], vec![])).ok().unwrap();
    let e = b.entry("a").unwrap();
    assert_eq!(b.decode_entry(e, "p", &raw).unwrap(), v);
    assert_eq!(
        b.decode_entry(e, "p", &raw[..8]).unwrap_err(),
        "p: 8 bytes on disk, manifest says 12"
    );
}

#[test]
fn names_that_contain_the_text_are_suggested() {
    let b = Bundle::open(
        "r",
        manifest(vec![entry("g", "abc", 4), entry("g", "xbx", 4), entry("g", "c", 4)], vec![]),
    )
    .ok()
    .unwrap();
    assert_eq!(b.suggestions("b", 10), vec!["abc".to_string(), "xbx".to_string()]);
    assert_eq!(b.suggestions("b", 1).len(), 1);
}

#[test]
fn equal_tensors_have_no_difference() {
    assert!(diff(&[1.0, 2.0], &[1.0, 2.0]).is_none());
    assert!(diff(&[0.0], &[-0.0]).is_none());
    let odd = [f32::NAN, f32::INFINITY, f32::NEG_INFINITY, 1.0];
    assert!(diff(&odd, &odd).is_none());
}

#[test]
fn the_first_number_that_is_not_finite_is_the_difference() {
    let d = diff(&[1.0, 2.0, f32::INFINITY], &[3.0, 2.0, 1.0]).unwrap();
    assert_eq!((d.max_abs, d.max_abs_index), (f32::INFINITY.to_bits(), 2));
    assert_eq!(d.golden_at_max, f32::INFINITY.to_bits());
    assert_eq!(d.candidate_at_max, 1f32.to_bits());
    assert!(!d.has_quotient && d.golden_scale == 0);
    let d = diff(&[f32::INFINITY, 2.0], &[f32::INFINITY, 2.5]).unwrap();
    assert_eq!((d.max_abs, d.max_abs_index), (f32::INFINITY.to_bits(), 0));
    let d = diff(&[1.0, 2.0], &[1.0, f32::NAN]).unwrap();
    assert_eq!((d.max_abs, d.max_abs_index), (f32::INFINITY.to_bits(), 1));
}

#[test]
fn the_largest_difference_is_found() {
    let d = diff(&[1.0, -4.0, 2.0], &[1.5, -4.0, 1.0]).unwrap();
    assert_eq!(f32::from_bits(d.max_abs), 1.0);
    assert_eq!(d.max_abs_index, 2);
    assert_eq!(f32::from_bits(d.golden_scale), 4.0);
    assert_eq!(f32::from_bits(d.golden_at_max), 2.0);
    assert_eq!(f32::from_bits(d.candidate_at_max), 1.0);
}

#[test]
fn tensors_of_other_lengths_differ() {
    assert!(diff(&[1.0, 2.0], &[1.0]).is_some());
}

#[test]
fn tokens_part_at_the_first_difference() {
    assert_eq!(bundle::first_divergence(&[1, 2, 3], &[1, 2, 3]), None);
    assert_eq!(bundle::first_divergence(&[1, 2, 3], &[1, 9, 3]), Some(1));
    assert_eq!(bundle::first_divergence(&[1, 2, 3], &[1, 2]), Some(2));
    let d = bundle::diff_tokens(&manifest(vec![], vec![1, 2]), &manifest(vec![], vec![1, 3]));
    assert_eq!(d.first_divergence, Some(1));
}

#[test]
fn a_decoding_is_held_to_the_recorded_one() {
    let steps = [step(0, 7), step(1, 8)];
    let (low, high) = (1e-6f32.to_bits(), 1e-3f32.to_bits());
    let judge = |generated: &[u32], ids: &[u32], worst: u32| {
        judge_trace(&[1, 2], generated, &steps, ids, worst, 1e-5f32.to_bits())
    };
    assert!(judge(&[7, 8], &[1, 2, 7, 8], low));
    assert!(judge(&[7, 8], &[1, 2, 7, 8], 1e-5f32.to_bits()));
    assert!(judge(&[7, 8], &[1, 2, 7, 8], f32::NAN.to_bits()));
    assert!(!judge(&[7, 8], &[1, 2, 7, 8], high));
    assert!(!judge(&[7, 9], &[1, 2, 7, 9], low));
    assert!(!judge(&[7, 8], &[1, 2, 7], low));
    assert!(!judge(&[7, 8], &[1, 3, 7, 8], low));
    assert!(!judge(&[7, 8], &[1, 2, 7, 8, 0], low));
}

#[test]
fn recorded_tokens_are_held_to_the_logits() {
    let steps = [step(0, 1), step(1, 0)];
    let logits = [Some(bits(&[0.0, 5.0])), Some(bits(&[1.0, 2.0]))];
    assert_eq!(bundle::check_token_selfconsistency(&steps, &logits), vec![(1, 0, 1)]);
    assert_eq!(bundle::step_logits_name(3), "greedy_step03__logits");
    assert_eq!(bundle::step_logits_name(12), "greedy_step12__logits");
}

#[test]
fn each_golden_tensor_is_paired_or_missing() {
    let g = Bundle::open(
        "g",
        manifest(vec![entry("w", "a", 4), entry("u", "b", 4), entry("w", "c", 4)], vec![]),
    )
    .ok()
    .unwrap();
    let c = Bundle::open("c", manifest(vec![entry("w", "c", 4), entry("w", "b", 4)], vec![]))
        .ok()
        .unwrap();
    assert_eq!(
        compare::compare_steps(&g, &c, None),
        vec![Step::Missing(0), Step::Pair(1, 1), Step::Pair(2, 0)]
    );
    assert_eq!(
        compare::compare_steps(&g, &c, Some("w")),
        vec![Step::Missing(0), Step::Pair(2, 0)]
    );
    let totals = compare::group_totals(&g.manifest.tensors);
    assert_eq!(*totals.get("w").unwrap(), (2, 8));
    assert_eq!(*totals.get("u").unwrap(), (1, 4));
}

#[test]
fn errors_rank_from_the_largest() {
    assert_eq!(compare::rank_errors(&bits(&[0.1, 3.0, 0.1, 2.0])), vec![1, 3, 0, 2]);
    let tol = 1e-5f32.to_bits();
    assert!(compare::verdict(1e-6f32.to_bits(), tol, false, 0, 0, 0));
    assert!(!compare::verdict(1e-4f32.to_bits(), tol, false, 0, 0, 0));
    assert!(!compare::verdict(f32::NAN.to_bits(), tol, false, 0, 0, 0));
    assert!(!compare::verdict(0, tol, true, 0, 0, 0));
    assert!(!compare::verdict(0, tol, false, 1, 0, 0));
    assert!(!compare::verdict(0, tol, false, 0, 1, 0));
    assert!(!compare::verdict(0, tol, false, 0, 0, 1));
}
