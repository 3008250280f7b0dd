use qwen_engine::header::{self, Dtype};
use qwen_engine::plan::{self, Range};
use qwen_engine::reader::{self, Job, ReadConfig, SmallFault};
use qwen_engine::selftest;
use qwen_engine::shards::{self, HeaderText};
use qwen_engine::summary;

fn file(header: &str, data: &[u8]) -> Vec<u8> {
    let mut f = (header.len() as u64).to_le_bytes().to_vec();
    f.extend_from_slice(header.as_bytes());
    f.extend_from_slice(data);
    f
}

const TWO: &str = "{\"a\":{\"dtype\":\"F32\",\"shape\":[1024],\"data_offsets\":[0,4096]},\"b\":{\"dtype\":\"F16\",\"shape\":[8],\"data_offsets\":[4096,4112]}}";

#[test]
fn synthetic_robustness_cases_all_hold() {
    let checks = selftest::run("scratch").expect("selftest runs");
    let failed: Vec<&selftest::Check> = checks.iter().filter(|c| !c.pass).collect();
    for c in &failed {
        println!("FAIL {} :: {}", c.name, c.detail);
    }
    assert!(
        failed.is_empty(),
        "{} of {} robustness cases failed",
        failed.len(),
        checks.len()
    );
    assert_eq!(checks.len(), 28);
    assert_eq!(
        checks[0].detail,
        "tensors=2 tensor_bytes=8192 buffer=8192 ranges=1 covered=12288"
    );
    assert_eq!(checks[1].detail, "rejected: header length is zero");
    assert_eq!(
        checks[22].detail,
        "ceil(MAX,4096)=18446744073709551615 ceil(0,4096)=0 floor(MAX,4096)=18446744073709547520 ceil(1,0)=1"
    );
    assert_eq!(checks[23].detail, "MAX*2=None 2*3*4=Some(24) []=Some(1)");
    assert_eq!(
        checks[24].detail,
        "rejected: plan references shard 7 but only 1 files given"
    );
    assert_eq!(
        checks[25].detail,
        "rejected: plan contains a zero-length range at offset 0"
    );
    assert_eq!(checks[26].detail, "bytes=0 requests=0");
}

/// Reads from a file in memory as a system call would: up to its end.
fn pread(file: &[u8], offset: u64, buf: &mut [u8]) -> usize {
    let from = (offset as usize).min(file.len());
    let n = buf.len().min(file.len() - from);
    buf[..n].copy_from_slice(&file[from..from + n]);
    n
}

/// Reads a range of a file in memory, at most `most` bytes at a time.
fn read_small_range(
    file: &[u8],
    offset: u64,
    len: u64,
    block: u64,
    most: u64,
) -> Result<Vec<u8>, SmallFault<i32>> {
    reader::read_small_range("rt", offset, len, block, |from: u64, count: u64| {
        let mut buf = vec![0u8; count.min(most) as usize];
        let n = pread(file, from, &mut buf);
        buf.truncate(n);
        Ok(buf)
    })
}

fn read_files(file: &[u8], plan: &[(usize, Range)], cfg: &ReadConfig) -> reader::ReadStats {
    let jobs = reader::begin(1, plan, cfg).expect("plan");
    let mut pool = reader::Pool::new(cfg.depth.max(1));
    while !pool.is_idle() || pool.next < jobs.len() {
        let mut handed: Vec<(usize, u64, u64)> = Vec::new();
        while let Some((slot, job)) = pool.submit(&jobs) {
            handed.push((slot, job.offset, job.len));
        }
        for (slot, offset, len) in handed {
            let mut buf = vec![0u8; len as usize];
            let n = pread(file, offset, &mut buf);
            assert!(matches!(pool.complete(slot, n as i32), reader::Completion::Done));
        }
    }
    pool.stats
}

#[test]
fn round_trip_reads_exact_bytes() {
    const PAYLOAD: u64 = 8492;
    let name_a = "pad_a";
    let name_b = "pattern_b";
    let header = format!(
        r#"{{"{name_a}":{{"dtype":"U8","shape":[300],"data_offsets":[0,300]}},"{name_b}":{{"dtype":"U8","shape":[8192],"data_offsets":[300,8492]}}}}"#
    );
    let mut payload = Vec::new();
    payload.extend((0..300u32).map(|i| (i % 251) as u8));
    let pattern: Vec<u8> = (0..8192u32).map(|i| ((i * 7 + 3) % 256) as u8).collect();
    payload.extend_from_slice(&pattern);
    let file_bytes = file(&header, &payload);

    let h = header::read_header("rt", &file_bytes).expect("parse");
    assert_eq!(h.tensors.len(), 2);
    assert_eq!(h.buffer_bytes(), 8492);

    let t = h.tensors.iter().find(|t| t.name == name_b).expect("find");
    let (off, end) = t.abs_range(h.data_start);
    assert_ne!(off % 4096, 0, "test intent: tensor offset must be unaligned");

    let got = read_small_range(&file_bytes, off, end - off, 4096, u64::MAX).ok().expect("one read");
    assert_eq!(got.len(), 8192);
    assert_eq!(got, pattern, "bytes differ from the written pattern");
    let got_buf = read_small_range(&file_bytes, off, end - off, 4096, 1000).ok().expect("many reads");
    assert_eq!(got, got_buf, "one read and many disagree");

    let headers = vec![h];
    let plan = plan::plan_model(&headers, 4096, 0);
    let file_size = file_bytes.len() as u64;
    let planned: u64 = plan.iter().map(|(_, r)| r.len).sum();
    let stats = read_files(&file_bytes, &plan, &ReadConfig::default());

    assert_eq!(stats.requests, 1, "one contiguous payload should need one request");
    assert_eq!(stats.short_reads, 1, "the final request should end at EOF");
    assert_eq!(stats.bytes, file_size, "reading from offset 0 must cover the whole file");
    assert!(planned >= PAYLOAD, "planned extent {planned} must cover the {PAYLOAD}-byte payload");
    assert!(
        planned <= file_size + 4096,
        "planned extent {planned} should not exceed the file plus one block"
    );
}

#[test]
fn truncated_file_is_rejected() {
    let header = r#"{"a":{"dtype":"U8","shape":[100000],"data_offsets":[0,100000]}}"#;
    let b = file(header, &[0u8; 16]);
    assert_eq!(
        header::read_header("short.safetensors", &b).err().expect("must reject"),
        "short.safetensors: entry a ends at 100000 beyond buffer of 16 bytes"
    );
}

#[test]
fn a_short_file_ends_a_small_read() {
    let f: Vec<u8> = (0..100u8).collect();
    let ended = |offset: u64, len: u64, most: u64| match read_small_range(&f, offset, len, 16, most) {
        Err(SmallFault::Ended(m)) => m,
        _ => panic!("the file has no {len} bytes at {offset}"),
    };
    assert_eq!(ended(90, 20, 1000), "rt: wanted 20 bytes at 90, got 10");
    assert_eq!(ended(90, 20, 3), "rt: wanted 20 bytes at 90, got 10");
    assert_eq!(ended(103, 1, 1000), "rt: wanted 1 bytes at 103, got 0");
    assert_eq!(ended(160, 1, 1000), "rt: wanted 1 bytes at 160, got 0");
    for block in [0, 1, 7, 16, 4096] {
        for most in [1, 5, 1000] {
            let got = read_small_range(&f, 33, 67, block, most).ok().unwrap();
            assert_eq!(got, &f[33..], "block {block}, {most} bytes at a time");
        }
    }
    let no_bytes = |offset: u64, block: u64| read_small_range(&f, offset, 0, block, 1000).ok();
    assert_eq!(no_bytes(96, 16), Some(vec![]));
    assert_eq!(no_bytes(99, 16), Some(vec![]));
    assert_eq!(no_bytes(100, 16), Some(vec![]));
    assert_eq!(no_bytes(160, 16), Some(vec![]));
    assert_eq!(ended(101, 0, 1000), "rt: wanted 0 bytes at 101, got 0");
    let never = |_: u64, _: u64| -> Result<Vec<u8>, i32> { panic!("nothing is to be read") };
    assert_eq!(reader::read_small_range("rt", 32, 0, 16, never).ok(), Some(vec![]));
    let failed = reader::read_small_range("rt", 0, 1, 16, |_: u64, _: u64| Err::<Vec<u8>, i32>(5));
    assert!(matches!(failed, Err(SmallFault::Failed(5))));
}

#[test]
fn the_files_of_the_checks_are_made() {
    let files = selftest::files();
    assert_eq!(files.len(), selftest::MALFORMED + 4);
    let read: Vec<&str> = files
        .iter()
        .filter(|(name, bytes)| header::read_header(name, bytes).is_ok())
        .map(|(name, _)| name.as_str())
        .collect();
    assert_eq!(
        read,
        vec![
            "valid_two.safetensors",
            "empty_tensor.safetensors",
            "scalar.safetensors",
            "gapped.safetensors"
        ]
    );
    assert_eq!(files[4].1, b"GG");
    for (i, (_, bytes)) in files[1..=selftest::MALFORMED].iter().enumerate() {
        assert_eq!(bytes, &selftest::malformed(i));
    }
}

#[test]
fn a_failed_read_ends_a_small_read() {
    let f: Vec<u8> = (0..100u8).collect();
    let until = |good: u64, offset: u64, len: u64| {
        reader::read_small_range("rt", offset, len, 16, |from: u64, count: u64| {
            if from >= good {
                return Err(from);
            }
            let end = (from + count.min(16)).min(f.len() as u64);
            Ok(f[from as usize..end as usize].to_vec())
        })
    };
    assert_eq!(until(64, 20, 40).ok().unwrap(), &f[20..60]);
    assert!(matches!(until(48, 20, 40), Err(SmallFault::Failed(48))));
    assert!(matches!(until(0, 20, 40), Err(SmallFault::Failed(16))));
    let mut buf = vec![1u8];
    assert_eq!(reader::take_read(&mut buf, 2, Ok::<Vec<u8>, i32>(vec![2, 3, 4])), Ok(true));
    assert_eq!(reader::take_read(&mut buf, 2, Ok::<Vec<u8>, i32>(vec![])), Ok(false));
    assert_eq!(reader::take_read(&mut buf, 2, Err::<Vec<u8>, i32>(5)), Err(5));
    assert_eq!(buf, vec![1, 2, 3]);
}

#[test]
fn small_reads_ask_for_whole_blocks() {
    let f: Vec<u8> = (0..=255u8).cycle().take(4096).collect();
    for block in [1u64, 16, 512] {
        for (offset, len) in [(0u64, 1u64), (33, 67), (511, 2), (1024, 1024), (700, 3000)] {
            for blocks in [1u64, 3, 100] {
                let read = |from: u64, count: u64| {
                    if from % block != 0 || count % block != 0 {
                        return Err((from, count));
                    }
                    let end = (from + count.min(blocks * block)).min(f.len() as u64);
                    Ok(f[from as usize..end as usize].to_vec())
                };
                let got = reader::read_small_range("rt", offset, len, block, read);
                assert_eq!(
                    got.ok().unwrap(),
                    &f[offset as usize..(offset + len) as usize],
                    "block {block}, offset {offset}, len {len}"
                );
            }
        }
    }
    let first = |from: u64, count: u64| Err::<Vec<u8>, (u64, u64)>((from, count));
    let asked = reader::read_small_range("rt", 700, 3000, 512, first);
    assert!(matches!(asked, Err(SmallFault::Failed((512, 3584)))));
}

#[test]
fn a_job_is_handed_out_and_completed_once() {
    let jobs: Vec<Job> = (0..3).map(|i| Job { file: 0, offset: i * 512, len: 512 }).collect();
    let mut pool = reader::Pool::new(2);
    let (a, first) = pool.submit(&jobs).unwrap();
    let (b, second) = pool.submit(&jobs).unwrap();
    assert_eq!((first.offset, second.offset), (0, 512));
    assert_eq!((pool.job[a], pool.job[b]), (0, 1));
    assert!(pool.submit(&jobs).is_none());
    pool.take_back(b);
    assert_eq!(pool.next, 1);
    let (again, job) = pool.submit(&jobs).unwrap();
    assert_eq!((again, job), (b, second));
    assert!(matches!(pool.complete(a, 512), reader::Completion::Done));
    let (c, third) = pool.submit(&jobs).unwrap();
    assert_eq!((c, third.offset, pool.job[c]), (a, 1024, 2));
    assert!(matches!(pool.complete(b, 100), reader::Completion::Done));
    assert!(matches!(pool.complete(c, 512), reader::Completion::Done));
    assert!(pool.is_idle() && pool.submit(&jobs).is_none());
    assert_eq!((pool.stats.requests, pool.stats.short_reads, pool.stats.bytes), (3, 1, 1124));
}

#[test]
fn header_faults_have_their_messages() {
    let err = |f: &[u8]| header::read_header("p", f).err().unwrap();
    assert_eq!(err(b"GG"), "p: file shorter than 8-byte header length");
    assert_eq!(err(&[0u8; 24]), "p: header length is zero");
    let mut f = (1u64 << 40).to_le_bytes().to_vec();
    f.extend_from_slice(b"{}");
    assert_eq!(err(&f), "p: header length 1099511627776 exceeds 268435456");
    let mut f = 4096u64.to_le_bytes().to_vec();
    f.extend_from_slice(b"{}");
    assert_eq!(err(&f), "p: header length 4096 overruns file of 10 bytes");
    assert!(err(&file("{not json", &[])).starts_with("p: bad JSON header: "));
    assert_eq!(err(&file("[1,2,3]", &[])), "p: header is not a JSON object");
    for bad in [
        "{\"a\":42}",
        "{\"__metadata__\":7}",
        "{\"a\":{\"dtype\":\"F7\",\"shape\":[4],\"data_offsets\":[0,16]}}",
        "{\"a\":{\"dtype\":\"F32\",\"data_offsets\":[0,16]}}",
        "{\"a\":{\"dtype\":\"F32\",\"shape\":[4]}}",
        "{\"a\":{\"shape\":[4],\"data_offsets\":[0,16]}}",
        "{\"a\":{\"dtype\":\"F32\",\"shape\":[4],\"data_offsets\":[0]}}",
        "{\"a\":{\"dtype\":\"F32\",\"shape\":[4],\"data_offsets\":[16,0]}}",
        "{\"a\":{\"dtype\":\"F32\",\"shape\":[4],\"data_offsets\":[0,17]}}",
        "{\"a\":{\"dtype\":\"F32\",\"shape\":[3],\"data_offsets\":[0,16]}}",
        "{\"a\":{\"dtype\":\"F32\",\"shape\":[\"x\"],\"data_offsets\":[0,16]}}",
        "{\"a\":{\"dtype\":\"F32\",\"shape\":[18446744073709551615,2],\"data_offsets\":[0,16]}}",
    ] {
        assert!(err(&file(bad, &[0u8; 16])).starts_with("p: "), "{bad}");
    }
}

#[test]
fn tensors_stand_in_the_order_of_their_bytes() {
    let f = file(
        "{\"a\":{\"dtype\":\"U8\",\"shape\":[4],\"data_offsets\":[4,8]},\"b\":{\"dtype\":\"U8\",\"shape\":[4],\"data_offsets\":[0,4]},\"__metadata__\":{\"format\":\"pt\"}}",
        &[0u8; 8],
    );
    let h = header::read_header("p", &f).unwrap();
    assert_eq!(h.tensors.iter().map(|t| t.name.as_str()).collect::<Vec<_>>(), vec!["b", "a"]);
    assert!(h.metadata.is_some());
    assert_eq!(h.tensor_bytes(), 8);
    assert_eq!(h.tensors[0].nbytes(), 4);
    assert_eq!(h.tensors[0].numel(), 4);
    assert_eq!(h.data_start, 8 + h.header_len);
}

#[test]
fn dtypes_have_names_and_sizes() {
    for (name, size) in [
        ("F64", 8),
        ("F32", 4),
        ("F16", 2),
        ("BF16", 2),
        ("I64", 8),
        ("I32", 4),
        ("I16", 2),
        ("I8", 1),
        ("U8", 1),
        ("BOOL", 1),
    ] {
        let d = Dtype::parse(name).unwrap();
        assert_eq!(d.as_str(), name);
        assert_eq!(d.size(), size);
    }
    assert!(Dtype::parse("f32").is_none());
}

#[test]
fn shape_products_are_checked() {
    assert_eq!(header::shape_numel(&[u64::MAX, 2]), None);
    assert_eq!(header::shape_numel(&[2, 3, 4]), Some(24));
    assert_eq!(header::shape_numel(&[]), Some(1));
    assert_eq!(header::shape_numel(&[u64::MAX, 2, 0]), None);
}

#[test]
fn rounding_saturates() {
    assert_eq!(plan::ceil_to(u64::MAX, 4096), u64::MAX);
    assert_eq!(plan::ceil_to(4097, 4096), 8192);
    assert_eq!(plan::ceil_to(1, 0), 1);
    assert_eq!(plan::floor_to(4097, 4096), 4096);
    assert_eq!(plan::floor_to(5, 0), 5);
    assert_eq!(Range { offset: u64::MAX, len: 2 }.end(), u64::MAX);
}

#[test]
fn plans_merge_up_to_a_gap() {
    let f = file(
        "{\"a\":{\"dtype\":\"U8\",\"shape\":[4096],\"data_offsets\":[0,4096]},\"b\":{\"dtype\":\"U8\",\"shape\":[4096],\"data_offsets\":[40960,45056]},\"z\":{\"dtype\":\"U8\",\"shape\":[0],\"data_offsets\":[9,9]}}",
        &vec![0u8; 45056],
    );
    let h = header::read_header("p", &f).unwrap();
    assert_eq!(
        plan::plan_shard(&h, 4096, 0),
        vec![Range { offset: 0, len: 8192 }, Range { offset: 40960, len: 8192 }]
    );
    assert_eq!(plan::plan_shard(&h, 4096, 40960), vec![Range { offset: 0, len: 49152 }]);
    assert_eq!(plan::plan_shard_unmerged(&h, 4096).len(), 2);
    let headers = vec![h];
    assert_eq!(plan::plan_model_unmerged(&headers, 4096).len(), 2);
    let s = summary::summarize(&headers, 4096, 0);
    assert_eq!((s.shards, s.tensors, s.tensor_bytes), (1, 3, 8192));
    assert_eq!((s.planned_requests, s.planned_bytes), (2, 16384));
    assert_eq!(s.file_bytes, f.len() as u64);
}

#[test]
fn shard_files_are_found_in_order() {
    let all: Vec<String> = ["b.safetensors", "config.json", ".safetensors", "a.safetensors", "c.SAFETENSORS"]
        .iter()
        .map(|s| s.to_string())
        .collect();
    assert_eq!(
        shards::discover_shards("d", &all).unwrap(),
        vec!["a.safetensors".to_string(), "b.safetensors".to_string()]
    );
    assert_eq!(
        shards::discover_shards("d", &vec!["x.bin".to_string()]).unwrap_err(),
        "d: no .safetensors files"
    );
}

fn header_text(path: &str, f: &[u8]) -> HeaderText {
    let n = u64::from_le_bytes([f[0], f[1], f[2], f[3], f[4], f[5], f[6], f[7]]) as usize;
    HeaderText {
        path: path.to_string(),
        file_size: f.len() as u64,
        prefix: f[..8].to_vec(),
        raw: f[8..(8 + n).min(f.len())].to_vec(),
    }
}

#[test]
fn all_headers_are_read_or_the_first_fault_comes_back() {
    let good = file(TWO, &[0u8; 4112]);
    let bad = file("[]", &[]);
    let r = shards::read_model(&[header_text("g", &good)]).unwrap();
    assert_eq!(r.len(), 1);
    let short = HeaderText { path: "s".to_string(), file_size: 3, prefix: vec![], raw: vec![] };
    assert_eq!(
        shards::read_model(&[short]).err().unwrap(),
        "s: file shorter than 8-byte header length"
    );
    let err = shards::read_model(&[
        header_text("g", &good),
        header_text("x", &bad),
        header_text("y", &bad),
    ])
    .err()
    .unwrap();
    assert_eq!(err, "x: header is not a JSON object");
    let counts = summary::dtype_counts(&r);
    assert_eq!(*counts.get("F32").unwrap(), 1);
    assert_eq!(*counts.get("F16").unwrap(), 1);
    assert!(counts.get("I8").is_none());
}

#[test]
fn an_index_is_compared_with_the_headers() {
    let headers = shards::read_model(&[header_text("g", &file(TWO, &[0u8; 4112]))]).unwrap();
    let raw = b"{\"weight_map\":{\"a\":\"g\",\"z\":\"g\",\"c\":\"g\",\"n\":3}}";
    let index = shards::read_index("i", Some(&raw[..])).unwrap().unwrap();
    let (listed, present, missing, extra) = shards::cross_check_index(&headers, &index);
    assert_eq!((listed, present), (3, 2));
    assert_eq!(missing, vec!["c".to_string(), "z".to_string()]);
    assert_eq!(extra, vec!["b".to_string()]);
    assert!(shards::read_index("i", None).unwrap().is_none());
    assert!(shards::read_index("i", Some(&b"{}"[..])).unwrap().is_none());
    let err = shards::read_index("i", Some(&b"{"[..])).err().unwrap();
    assert!(err.starts_with("i: bad index json: EOF"), "{err}");
}

#[test]
fn jobs_cut_ranges_into_whole_blocks() {
    let cfg = ReadConfig { depth: 2, chunk_bytes: 8192, direct: true, block: 4096 };
    assert_eq!(reader::chunk_size(&cfg), 8192);
    let plan = [(0usize, Range { offset: 4096, len: 20480 })];
    let jobs = reader::begin(1, &plan, &cfg).unwrap();
    let cut: Vec<(u64, u64)> = jobs.iter().map(|j| (j.offset, j.len)).collect();
    assert_eq!(cut, vec![(4096, 8192), (12288, 8192), (20480, 4096)]);
    assert_eq!(reader::ring_entries(1), 2);
    assert_eq!(reader::ring_entries(33), 64);
}

#[test]
fn a_failed_request_keeps_its_error_number() {
    let cfg = ReadConfig { depth: 1, chunk_bytes: 4096, direct: true, block: 4096 };
    let jobs = reader::begin(1, &[(0usize, Range { offset: 0, len: 8192 })], &cfg).unwrap();
    let mut pool = reader::Pool::new(1);
    let (slot, job) = pool.submit(&jobs).unwrap();
    assert_eq!((slot, job.offset), (0, 0));
    assert!(pool.submit(&jobs).is_none());
    assert!(matches!(pool.complete(slot, -5), reader::Completion::Failed(5)));
}

#[test]
fn a_file_cut_off_anywhere_is_refused() {
    let f = file(TWO, &[0u8; 4112]);
    assert!(header::read_header("p", &f).is_ok());
    for n in 0..f.len() {
        assert!(header::read_header("p", &f[..n]).is_err(), "cut to {n} bytes");
    }
    assert_eq!(
        header::read_header("p", &f[..f.len() - 1]).err().unwrap(),
        "p: entry b ends at 4112 beyond buffer of 4111 bytes"
    );
}

#[test]
fn packed_tensors_need_one_request() {
    let f = file(TWO, &[0u8; 4112]);
    let h = header::read_header("p", &f).ok().unwrap();
    let start = h.data_start;
    assert_eq!(start, 8 + TWO.len() as u64);
    assert_eq!(
        plan::plan_shard(&h, 64, 0),
        vec![Range { offset: start / 64 * 64, len: (start + 4112).div_ceil(64) * 64 - start / 64 * 64 }]
    );
    let single = plan::plan_shard_unmerged(&h, 64);
    assert_eq!(single.len(), 2);
    let total = |p: &[Range]| p.iter().map(|r| r.len).sum::<u64>();
    assert!(total(&plan::plan_shard(&h, 64, 0)) <= total(&single));
}

#[test]
fn a_wide_gap_joins_everything() {
    let text = "{\"a\":{\"dtype\":\"U8\",\"shape\":[1],\"data_offsets\":[0,1]},\"b\":{\"dtype\":\"U8\",\"shape\":[1],\"data_offsets\":[9999,10000]}}";
    let f = file(text, &[0u8; 10000]);
    let h = header::read_header("p", &f).ok().unwrap();
    assert_eq!(plan::plan_shard(&h, 512, 0).len(), 2);
    assert_eq!(plan::plan_shard(&h, 512, f.len() as u64).len(), 1);
}

#[test]
fn every_byte_of_a_tensor_is_asked_for() {
    let f = file(TWO, &[0u8; 4112]);
    let h = header::read_header("p", &f).ok().unwrap();
    let cfg = ReadConfig { depth: 2, chunk_bytes: 1000, direct: true, block: 512 };
    let plan = plan::plan_model(std::slice::from_ref(&h), 512, 0);
    let jobs = reader::begin(1, &plan, &cfg).unwrap();
    assert_eq!(reader::chunk_size(&cfg), 1024);
    for t in &h.tensors {
        let (from, to) = t.abs_range(h.data_start);
        for p in from..to {
            assert!(jobs.iter().any(|j| j.offset <= p && p < j.offset + j.len), "byte {p}");
        }
    }
}
