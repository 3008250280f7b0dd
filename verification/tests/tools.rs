use qwen_engine::aligned;
use qwen_engine::args;
use qwen_engine::cache::Probe;
use qwen_engine::checks::{self, Checker, Field, Outcome};
use qwen_engine::corpus::{self, Finding};
use qwen_engine::delta::{self, Lengths, Shape};
use qwen_engine::fuzz::{self, Filling, Rng};
use qwen_engine::header;
use qwen_engine::json;
use qwen_engine::loader::LayerCapture;
use qwen_engine::logits::{self, Verdict};
use qwen_engine::oracle;
use qwen_engine::samples::{self, Agreement, Tally};
use qwen_engine::text;

fn strings(v: &[&str]) -> Vec<String> {
    v.iter().map(|s| s.to_string()).collect()
}

fn bits(v: &[f32]) -> Vec<u32> {
    v.iter().map(|x| x.to_bits()).collect()
}

#[test]
fn values_of_flags_are_no_arguments() {
    let a = strings(&["stbench", "fuzz", "--iters", "20000", "dir", "--read", "x"]);
    assert_eq!(args::positionals(&a), strings(&["dir", "x"]));
    assert_eq!(args::flag_val(&a, "--iters"), Some("20000"));
    assert_eq!(args::flag_val(&a, "x"), None);
    assert_eq!(args::num(&a, "--iters", 5, u64::MAX), 20000);
    assert_eq!(args::num(&a, "--iters", 5, 100), 5);
    assert_eq!(args::num_size(&a, "--seed", 7), 7);
    assert_eq!(args::num_size(&a, "--read", 7), 7);
    assert!(args::has(&a, "--read") && !args::has(&a, "--cold"));
    assert_eq!(args::positionals(&strings(&["b", "c", "--gap"])), strings(&[]));
}

#[test]
fn the_bundle_tool_has_its_own_flags() {
    let a = strings(&["b", "compare", "--group", "w", "g", "--verbose", "c"]);
    assert_eq!(args::positional(&a, 0).as_deref(), Some("g"));
    assert_eq!(args::positional(&a, 1).as_deref(), Some("c"));
    assert_eq!(args::positional(&a, 2), None);
    assert_eq!(args::first_argument(&a), Some("compare"));
    assert_eq!(args::first_argument(&strings(&["b", "--x"])), None);
    assert_eq!(args::plain_only(&a), strings(&["compare", "w", "g", "c"]));
}

#[test]
fn options_of_the_read_benchmark() {
    let o = args::read_options(&strings(&["s", "read", "d", "--depth", "8", "--no-direct"]));
    assert_eq!((o.depth, o.block, o.gap, o.chunk_mb, o.repeat), (8, 4096, 0, 1, 1));
    assert!(o.buffered && !o.cold && !o.per_tensor);
    assert_eq!(o.chunk_bytes(), Some(1 << 20));
    assert!(!o.drops_cache() && !o.tells_residency(0));
    let o = args::read_options(&strings(&["s", "read", "d", "--repeat", "3"]));
    assert!(o.drops_cache() && o.tells_residency(0) && !o.tells_residency(1));
}

#[test]
fn numbers_are_written_and_read() {
    assert_eq!(text::decimal_string(0), "0");
    assert_eq!(text::decimal_string(u64::MAX), "18446744073709551615");
    assert_eq!(text::parse_unsigned("18446744073709551615", u64::MAX), Some(u64::MAX));
    assert_eq!(text::parse_unsigned("18446744073709551616", u64::MAX), None);
    assert_eq!(text::parse_unsigned("+7", 9), Some(7));
    assert_eq!(text::parse_unsigned("", 9), None);
    assert_eq!(text::parse_unsigned("-1", 9), None);
    assert_eq!(text::quotient_string(16384, 8192), "2.0000");
    assert_eq!(text::quotient_string(1, 3), "0.3333");
    assert_eq!(text::quotient_string(2, 3), "0.6667");
    assert_eq!(text::quotient_string(0, 0), "NaN");
    assert_eq!(text::quotient_string(1, 0), "inf");
    assert_eq!(text::list_string(&[1, 2]), "[1, 2]");
    assert_eq!(text::quoted_list_string(&strings(&["a", "b\n"])), "[\"a\", \"b\\n\"]");
}

#[test]
fn white_space_is_what_unicode_has() {
    let spaces: Vec<u32> = (0..=0x10_ffffu32)
        .filter(|n| char::from_u32(*n).is_some_and(|c| text::trim(&c.to_string()).is_empty()))
        .collect();
    let mut want: Vec<u32> = (0x9..=0xd).collect();
    want.extend([0x20, 0x85, 0xa0, 0x1680]);
    want.extend(0x2000..=0x200a);
    want.extend([0x2028, 0x2029, 0x202f, 0x205f, 0x3000]);
    assert_eq!(spaces, want);
}

#[test]
fn texts_are_cut_and_trimmed() {
    assert_eq!(text::split("a__b", '_'), vec!["a", "", "b"]);
    assert_eq!(text::split("", '_'), vec![""]);
    assert_eq!(text::trim(" \t\u{a0}x y\n"), "x y");
    assert_eq!(text::trim("  "), "");
    assert_eq!(text::str_after_first("p: q: r", ": "), "q: r");
    assert_eq!(text::str_after_first("none", ": "), "none");
    assert_eq!(text::find("abcabc", "ca"), Some(2));
    assert_eq!(text::find("abc", ""), Some(0));
    assert!(text::str_lt("B", "a") && !text::str_lt("a", "a"));
}

#[test]
fn json_is_parsed_and_printed() {
    let j = json::parse(b"{\"b\":[1,-2,1.5,null,true],\"a\":\"x\\ny\"}").unwrap();
    assert_eq!(j.get_str("a"), Some("x\ny"));
    let items = j.get_array("b").unwrap();
    assert_eq!(items[0].as_u64(), Some(1));
    assert_eq!(items[1].as_u64(), None);
    assert_eq!(j.render(), "{\"a\":\"x\\ny\",\"b\":[1,-2,1.5,null,true]}");
    assert!(j.is_object());
    let escapes = b"[\"\\\"\\\\\\u0008\\t\\n\\u000c\\r\\u0001\\u001F\\u007f\\/\\u00e9\"]";
    assert_eq!(
        json::parse(escapes).unwrap().render(),
        "[\"\\\"\\\\\\b\\t\\n\\f\\r\\u0001\\u001f\u{7f}/\u{e9}\"]"
    );
    assert_eq!(
        json::parse(b"{").err().unwrap(),
        "EOF while parsing an object at line 1 column 1"
    );
    let d = json::parse(b"{\"x\":0.1}").unwrap();
    assert_eq!(d.get_double("x"), Some(0.1f64.to_bits()));
}

#[test]
fn prompts_are_lists_of_tokens() {
    assert_eq!(logits::parse_list("1, 2,,+3 ").unwrap(), vec![1, 2, 3]);
    assert_eq!(logits::parse_list("").unwrap(), Vec::<u32>::new());
    assert_eq!(
        logits::parse_list("1, x").unwrap_err(),
        "bad token id ` x`: invalid digit found in string"
    );
    assert_eq!(
        logits::parse_list("4294967296").unwrap_err(),
        "bad token id `4294967296`: number too large to fit in target type"
    );
    assert_eq!(logits::parse_list("4294967295").unwrap(), vec![u32::MAX]);
    for bad in ["+", "-1", "99999999999x", "1x", "١"] {
        let want = format!("bad token id `{bad}`: {}", bad.parse::<u32>().unwrap_err());
        assert_eq!(logits::parse_list(bad).unwrap_err(), want);
    }
}

#[test]
fn likely_tokens_come_first() {
    let l = bits(&[0.5, 2.0, -1.0, 2.0]);
    assert_eq!(logits::top_tokens(&l, 3), vec![1, 3, 0]);
    assert_eq!(logits::top_tokens(&l, 9).len(), 4);
    assert_eq!(logits::count_non_finite(&bits(&[1.0, f32::NAN, f32::INFINITY])), 2);
}

#[test]
fn recorded_logits_are_checked_and_judged() {
    let raw: Vec<u8> = [1.0f32, 2.0].iter().flat_map(|v| v.to_le_bytes()).collect();
    assert_eq!(logits::read_reference("p", &raw, 2).unwrap(), bits(&[1.0, 2.0]));
    assert_eq!(
        logits::read_reference("p", &raw[..7], 2).unwrap_err(),
        "p: 7 bytes is not a multiple of 4"
    );
    assert_eq!(
        logits::read_reference("p", &raw, 3).unwrap_err(),
        "p: 2 values but the model has 3 logits"
    );
    let tol = 3e-5f32.to_bits();
    let small = 1e-6f32.to_bits();
    let large = 1e-2f32.to_bits();
    assert_eq!(logits::judge(1, 1, &[1, 2], &[1, 2], small, tol), Verdict::Pass);
    assert_eq!(logits::judge(1, 1, &[1, 2], &[2, 1], small, tol), Verdict::TokensDiffer);
    assert_eq!(logits::judge(1, 2, &[], &[], small, tol), Verdict::TokensDiffer);
    assert_eq!(logits::judge(1, 1, &[1], &[1], large, tol), Verdict::ValuesDiffer);
    assert_eq!(logits::verdict_text(&Verdict::Pass), "PASS");
}

#[test]
fn recorded_layers_stand_one_after_another() {
    let shapes = logits::read_shapes("p", b"[[1,3,4],[2],[]]").unwrap();
    assert_eq!(shapes, vec![vec![1, 3, 4], vec![2], vec![]]);
    assert_eq!(logits::count_layers(&shapes), Some(vec![12, 14, 15]));
    assert_eq!(logits::count_layers(&vec![vec![u64::MAX, 2]]), None);
    assert_eq!(logits::count_layers(&vec![vec![u64::MAX], vec![1]]), None);
    assert!(logits::read_shapes("p", b"[1]").unwrap_err().starts_with("p: invalid type"));
    assert_eq!(
        logits::read_shapes("p", b"[[true]]").unwrap_err(),
        "p: invalid type: boolean `true`, expected usize at line 1 column 6"
    );
    assert_eq!(logits::shapes_from("p", Ok(vec![vec![7, 0], vec![]])).unwrap(), [vec![7, 0], vec![]]);
    assert_eq!(logits::shapes_from("p", Err("no".to_string())).unwrap_err(), "p: no");
    assert!(logits::check_layers("p", 15, 15).is_ok());
    assert_eq!(
        logits::check_layers("p", 14, 15).unwrap_err(),
        "p: 14 values but the shapes need 15"
    );
}

#[test]
fn a_corpus_is_a_list_or_names_its_mode() {
    let c = corpus::read_corpus(
        "p",
        b"{\"mode\":\"x-no-marks\",\"cases\":[{\"text\":\"a\",\"ids\":[1,4294967298,\"x\"],\"decoded\":\"a\"}]}",
    )
    .ok()
    .unwrap();
    assert_eq!(c.mode, "x-no-marks");
    assert!(!corpus::marks_join_letters(&c.mode) && corpus::marks_join_letters("marks"));
    assert_eq!(c.cases[0].ids, vec![1, 2]);
    let case = &c.cases[0];
    assert_eq!(corpus::judge(case, &[1, 2], "a", &[1, 2]), Finding::Agrees);
    assert_eq!(corpus::judge(case, &[1], "a", &[1]), Finding::WrongIds);
    assert_eq!(corpus::judge(case, &[1, 2], "b", &[1, 2]), Finding::WrongText);
    assert_eq!(corpus::judge(case, &[1, 2], "a", &[3]), Finding::Unstable);
    let c = corpus::read_corpus("p", b"[{}]").ok().unwrap();
    assert_eq!((c.mode.as_str(), c.cases.len(), c.cases[0].text.as_str()), ("(unlabelled)", 1, ""));
    assert_eq!(corpus::read_corpus("p", b"{}").ok().unwrap().mode, "?");
    assert_eq!(corpus::read_corpus("p", b"3").err().unwrap(), "p: not an array or object");
    assert!(corpus::read_corpus("p", b"[").err().unwrap().starts_with("p: EOF"));
}

#[test]
fn texts_are_described_by_what_is_unusual() {
    assert_eq!(corpus::describe(""), "empty");
    assert_eq!(corpus::describe("hello world"), "plain ascii words");
    assert_eq!(corpus::describe(" a"), "leading/trailing space");
    assert_eq!(
        corpus::describe("it's  4\n\u{3000}"),
        "non-space whitespace, doubled space, digits, apostrophe, non-ascii, high codepoint"
    );
}

#[test]
fn cases_of_the_rule_are_found_by_tag() {
    let names = strings(&[
        "delta_B2_H4_T1_K8_V16__q",
        "delta_B1_H2_T3_K4_V5__q",
        "delta_B1_H2_T3_K4_V5__recurrent_out",
        "delta_Bx_H3__q",
        "other__q",
        "delta_alone",
    ]);
    let cases = delta::discover(&names);
    let got: Vec<(&str, Shape)> = cases.iter().map(|c| (c.tag.as_str(), c.shape)).collect();
    assert_eq!(
        got,
        vec![
            ("B1_H2_T3_K4_V5", Shape { b: 1, t: 3, h: 2, k: 4, v: 5 }),
            ("B2_H4_T1_K8_V16", Shape { b: 2, t: 1, h: 4, k: 8, v: 16 }),
            ("Bx_H3", Shape { b: 0, t: 0, h: 3, k: 0, v: 0 }),
        ]
    );
}

#[test]
fn operands_have_sizes_and_places() {
    let s = Shape { b: 1, t: 3, h: 2, k: 4, v: 5 };
    let z = delta::operand_sizes(&s).unwrap();
    assert_eq!((z.q, z.v, z.g, z.state), (24, 30, 6, 40));
    assert!(delta::operand_sizes(&Shape { b: usize::MAX, t: 2, h: 1, k: 1, v: 1 }).is_none());
    assert_eq!(delta::idx4(&s, 0, 2, 1, 3, 4), 23);
    assert_eq!(delta::idx_state(&s, 0, 1, 3, 4), 39);
    let good = Lengths { q: 24, k: 24, v: 30, g: 6, beta: 6 };
    assert!(delta::check_operands("t", &z, &good).is_ok());
    let bad = Lengths { v: 29, ..good };
    assert_eq!(
        delta::check_operands("t", &z, &bad).unwrap_err(),
        "t SHAPE MISMATCH: q=24 k=24 v=29 g=6 beta=6  (expected 24 24 30 6 6)"
    );
}

#[test]
fn a_linear_layer_is_compared_step_by_step() {
    let steps = checks::layer_steps(&LayerCapture::new(4, Some(3)));
    assert_eq!(steps.len(), 24);
    assert_eq!(steps[0].label, " 1. input_layernorm");
    assert_eq!(steps[9].label, "10. v");
    assert_eq!(
        steps[9].name.as_deref(),
        Some("delta_torch_chunk_gated_delta_rule_3__v")
    );
    assert_eq!(steps[16].name.as_deref(), Some("model__layers__4__linear_attn"));
    assert!(steps[16].field == Field::OutProj);
    assert_eq!(steps[23].name.as_deref(), Some("model__layers__4"));
    let steps = checks::layer_steps(&LayerCapture::new(3, None));
    assert_eq!(steps[2].name, None);
}

#[test]
fn a_layer_is_summed_up_by_its_first_failure() {
    let tol = 1e-5f32.to_bits();
    let mut c = Checker::new();
    assert_eq!(c.describe().0, "(nothing compared)");
    c.push(Outcome::not_applicable("n".to_string()));
    c.push(Outcome::measured("a".to_string(), 1e-7f32.to_bits(), 0, tol));
    c.push(Outcome::measured("b".to_string(), 1e-6f32.to_bits(), 0, tol));
    assert_eq!(c.failed(), 0);
    assert_eq!(c.worst(), Some(2));
    assert_eq!(c.describe(), ("worst: b".to_string(), 1e-6f32.to_bits()));
    c.push(Outcome::wrong_length("w", 3, 4));
    c.push(Outcome::unreadable("u", "t", "gone"));
    assert_eq!(c.failed(), 2);
    assert_eq!(c.first_failure(), Some(3));
    assert_eq!(c.describe().0, "FAIL w SHAPE mine=3 golden=4");
    assert_eq!(c.checks[4].label, "u MISSING t (gone)");
    assert!(f32::from_bits(c.out_abs()).is_infinite());
}

#[test]
fn samples_are_taken_from_both_ends() {
    let head = "{\"a\":{\"dtype\":\"U8\",\"shape\":[9],\"data_offsets\":[0,9]},\"b\":{\"dtype\":\"U8\",\"shape\":[4],\"data_offsets\":[9,13]},\"c\":{\"dtype\":\"U8\",\"shape\":[70000],\"data_offsets\":[13,70013]},\"d\":{\"dtype\":\"F32\",\"shape\":[0],\"data_offsets\":[0,0]},\"e\":{\"dtype\":\"U8\",\"shape\":[70001],\"data_offsets\":[70013,140014]},\"f\":{\"dtype\":\"U8\",\"shape\":[4],\"data_offsets\":[140014,140018]}}";
    let f = fuzz::assemble(head, &vec![0u8; 140018], None);
    let h = vec![header::read_header("p", &f).unwrap()];
    let names = |small: bool| -> Vec<String> {
        samples::samples(&h, small).iter().map(|s| h[s.file].tensors[s.tensor].name.clone()).collect()
    };
    assert_eq!(names(true), strings(&["b", "f", "a"]));
    assert_eq!(names(false), strings(&["e", "c"]));
    assert_eq!(samples::head_len(5), 5);
    assert_eq!(samples::head_len(1 << 30), 4 << 20);
    let t = Tally::new();
    let d = h[0].tensors.iter().find(|t| t.name == "d").unwrap();
    assert!(t.wants_scalar(d) && !t.wants_scalar(&h[0].tensors[5]));
}

#[test]
fn reads_are_compared_and_counted() {
    let (a, b) = (vec![1u8, 2, 3], vec![1u8, 9, 3]);
    assert_eq!(samples::compare_reads(Some(&a), Some(&a)), Agreement::Same);
    assert_eq!(samples::compare_reads(Some(&a), Some(&b)), Agreement::Different(Some(1)));
    assert_eq!(
        samples::compare_reads(Some(&a), Some(&vec![1u8, 2])),
        Agreement::Different(None)
    );
    assert_eq!(samples::compare_reads(Some(&a), None), Agreement::Failed);
    let mut t = Tally::new();
    t.count(&Agreement::Same);
    t.count(&Agreement::Different(None));
    t.count(&Agreement::Failed);
    assert_eq!((t.checked, t.failed), (2, 2));
    t.count_scalar(&Agreement::Failed);
    t.count_scalar(&Agreement::Same);
    assert_eq!((t.checked, t.failed, t.scalars), (3, 2, 1));
}

#[test]
fn random_numbers_follow_the_seed() {
    let mut a = Rng::new(0);
    let mut x = 1u64;
    for _ in 0..100 {
        x ^= x >> 12;
        x ^= x << 25;
        x ^= x >> 27;
        assert_eq!(a.next_u64(), x.wrapping_mul(0x2545_F491_4F6C_DD1D));
        assert_eq!(a.state, x);
    }
    assert_eq!(Rng::new(1).next_u64(), 0x47E4_CE4B_896C_DD1D);
    assert!((0..100).all(|_| a.below(7) < 7));
    let before = a.state;
    assert_eq!(a.below(1), 0);
    assert_eq!(a.state, before);
    let xs = [10, 20, 30];
    assert!(xs.contains(a.pick(&xs)));
}

#[test]
fn cases_depend_on_the_seed_alone() {
    let (mut a, mut b) = (Rng::new(42), Rng::new(42));
    assert_eq!(fuzz::gen_case(&mut a), fuzz::gen_case(&mut b));
    assert_eq!(a.state, b.state);
    let shape = fuzz::rand_shape(&mut a);
    assert!(shape.starts_with('[') && shape.ends_with(']'));
    assert_eq!(fuzz::fill(&mut a, Filling::Printable, 50).len(), 50);
    assert!(fuzz::fill(&mut a, Filling::Printable, 50).iter().all(|c| (32..127).contains(c)));
    let v = fuzz::mutate(&mut a, &[1, 2, 3]);
    assert!(v.len() <= 7);
    assert_eq!(fuzz::mutate(&mut a, &[]), Vec::<u8>::new());
}

#[test]
fn files_are_framed_by_their_header() {
    let f = fuzz::assemble("{}", &[7, 8], None);
    assert_eq!(f, vec![2, 0, 0, 0, 0, 0, 0, 0, b'{', b'}', 7, 8]);
    assert_eq!(fuzz::assemble("{}", &[], Some(258))[..2], [2, 1]);
    for f in fuzz::seed_corpus() {
        let h = header::read_header("p", &f).unwrap();
        assert!(oracle::check_plan(&h, 4096).is_none());
    }
    assert_eq!(fuzz::seed_corpus().len(), 5);
}

#[test]
fn a_run_finds_nothing() {
    let r = fuzz::run(400, 0x5EED_1234, "case.safetensors");
    assert!(r.ok());
    assert_eq!(r.iterations, 400);
    assert_eq!(r.parsed_ok + r.rejected, 400);
    assert!(r.parsed_ok > 50, "{} parsed", r.parsed_ok);
    assert!(r.rejected > 50, "{} rejected", r.rejected);
    assert_eq!(fuzz::dtype_token_count(), 19);
    assert!(fuzz::dtype_table_is_consistent());
}

#[test]
fn a_report_tells_panics_from_bad_plans() {
    let mut r = fuzz::FuzzReport::default();
    r.record(7, 30, &fuzz::Outcome::Refused, false);
    r.record(7, 31, &fuzz::Outcome::Sound(None), true);
    assert!(r.ok());
    r.record(7, 32, &fuzz::Outcome::Unsound("plan invariant violated: x".to_string()), false);
    assert!(!r.ok() && r.panics.is_empty());
    r.record_panic(7, 33, "index out of bounds");
    assert_eq!(
        r.invariant_failures,
        vec!["iter 2 (seed 7, 32 bytes): plan invariant violated: x".to_string()]
    );
    assert_eq!(r.panics, vec!["iter 3 (seed 7, 33 bytes): index out of bounds".to_string()]);
    assert_eq!((r.iterations, r.parsed_ok, r.rejected, r.reads_executed), (4, 1, 1, 1));
}

#[test]
fn a_bad_plan_is_noticed() {
    let f = fuzz::assemble(
        "{\"a\":{\"dtype\":\"U8\",\"shape\":[5000],\"data_offsets\":[0,5000]}}",
        &vec![0u8; 5000],
        None,
    );
    let h = header::read_header("p", &f).unwrap();
    let r = |offset: u64, len: u64| qwen_engine::plan::Range { offset, len };
    let say = |p: &[qwen_engine::plan::Range]| -> Option<String> {
        oracle::check_ranges(&h, 4096, p).map(|f| oracle::describe_fault(&h, &f))
    };
    assert_eq!(say(&[r(0, 8192)]), None);
    assert_eq!(say(&[r(0, 0)]).unwrap(), "zero-length range at 0");
    assert_eq!(say(&[r(1, 4096)]).unwrap(), "range offset 1 not block-aligned");
    assert_eq!(say(&[r(0, 5)]).unwrap(), "range len 5 not block-aligned");
    assert_eq!(
        say(&[r(0, 12288)]).unwrap(),
        "range [0, 12288) extends past ceil(file_size)=8192"
    );
    assert_eq!(
        say(&[r(0, 8192), r(4096, 4096)]).unwrap(),
        "ranges overlap: [0,8192) then [4096,8192)"
    );
    assert!(say(&[]).unwrap().ends_with("has no covering range"));
    assert!(say(&[r(0, 4096)]).unwrap().ends_with("not contained in range [0,4096)"));
}

#[test]
fn buffers_and_probes() {
    assert_eq!(aligned::next_power_of_two(5), 8);
    assert_eq!(aligned::next_power_of_two(1), 1);
    let (len, align) = aligned::buffer_layout(100, 4096);
    assert_eq!((len, align), (100, 4096));
    assert_eq!(aligned::buffer_layout(0, 3), (1, 64));
    for asked in [1, 3, 64, 100, 4096, 5000] {
        let (_, used) = aligned::buffer_layout(8, asked);
        assert_eq!(used, asked.max(64).next_power_of_two());
        for address in [used, 3 * used, 12 * used] {
            assert!(aligned::is_aligned(address, used));
            assert!(!asked.is_power_of_two() || aligned::is_aligned(address, asked));
        }
    }
    assert!(aligned::is_aligned(8192, 4096) && !aligned::is_aligned(8200, 4096));
    assert!(aligned::is_aligned(0, 0) && !aligned::is_aligned(1, 0));
    assert_eq!(qwen_engine::cache::page_size(4096), 4096);
    assert_eq!(qwen_engine::cache::page_size(-1), 4096);
    let mut p = Probe::new(8192, 4096);
    assert_eq!(p.next_len(), Some(8192));
    p.record(Some(&[1, 0]));
    assert_eq!((p.resident, p.total), (1, 2));
    assert_eq!(p.next_len(), None);
}
