use qwen_engine::float_bits::f16_to_f32;
use qwen_engine::safetensors::{Dtype, Model, Shard};

fn floats(bits: Vec<u32>) -> Vec<f32> {
    bits.into_iter().map(f32::from_bits).collect()
}

fn decode(d: Dtype, raw: &[u8]) -> Vec<f32> {
    floats(d.decode(raw).unwrap())
}

fn half(h: u16) -> f32 {
    f32::from_bits(f16_to_f32(h))
}

fn file(header: &str, data: &[u8]) -> Vec<u8> {
    let mut f = (header.len() as u64).to_le_bytes().to_vec();
    f.extend_from_slice(header.as_bytes());
    f.extend_from_slice(data);
    f
}

/// A file with one tensor that takes up all of its data.
fn single(name: &str, dtype: Dtype, shape: &[u64], data: &[u8]) -> Vec<u8> {
    let header = format!(
        "{{\"{}\":{{\"data_offsets\":[0,{}],\"dtype\":\"{}\",\"shape\":{:?}}}}}",
        name,
        data.len(),
        dtype.as_str(),
        shape
    );
    file(&header, data)
}

fn open_model(f: Vec<u8>) -> Result<Model, String> {
    Model::open("dir", vec![("dir/model.safetensors".to_string(), f.len() as u64, f)])
}

#[test]
fn bf16_widening_is_exact() {
    let b = 0x3F80u16.to_le_bytes();
    assert_eq!(decode(Dtype::Bf16, &b), vec![1.0f32]);
    let b = 0xC000u16.to_le_bytes();
    assert_eq!(decode(Dtype::Bf16, &b), vec![-2.0f32]);
    let b = 0x0000u16.to_le_bytes();
    assert_eq!(decode(Dtype::Bf16, &b), vec![0.0f32]);
    let b = 0x3F81u16.to_le_bytes();
    assert!(
        (decode(Dtype::Bf16, &b)[0] - (1.0 + 1.0 / 128.0)).abs() < 1e-9,
        "expected 1 + 2^-7"
    );
    for bits in [0x0000u16, 0x3F80, 0x3F81, 0xBF80, 0x7F7F, 0x0001, 0x8000, 0x4049] {
        let got = decode(Dtype::Bf16, &bits.to_le_bytes())[0];
        assert_eq!(
            (got.to_bits() >> 16) as u16,
            bits,
            "0x{bits:04X} did not round-trip through f32"
        );
    }
}

#[test]
fn f16_handles_special_values() {
    assert_eq!(half(0x3C00), 1.0);
    assert_eq!(half(0xC000), -2.0);
    assert_eq!(half(0x0000), 0.0);
    assert_eq!(half(0x8000), -0.0);
    assert!(half(0x7C00).is_infinite());
    assert!(half(0xFC00).is_infinite() && half(0xFC00) < 0.0);
    assert!(half(0x7E00).is_nan());
    assert_eq!(half(0x3555), 0.333_251_95_f32);
}

#[test]
fn f16_subnormals_keep_their_value() {
    assert_eq!(half(0x0001), 2f32.powi(-24));
    assert_eq!(half(0x0200), 2f32.powi(-15));
    assert_eq!(half(0x03FF), 1023.0 * 2f32.powi(-24));
    assert_eq!(half(0x8001), -(2f32.powi(-24)));
    assert_eq!(half(0x0400), 2f32.powi(-14));
}

#[test]
fn reads_a_valid_file() {
    let data: Vec<u8> = [1.0f32, 2.0, 3.0].iter().flat_map(|v| v.to_le_bytes()).collect();
    let m = open_model(single("w", Dtype::F32, &[3], &data)).unwrap();
    assert_eq!(floats(m.tensor("w").unwrap()), vec![1.0, 2.0, 3.0]);
    assert_eq!(m.entry("w").unwrap().shape, vec![3]);
}

#[test]
fn rejects_shape_that_disagrees_with_byte_span() {
    let data = vec![0u8; 8];
    let f = single("w", Dtype::F32, &[3], &data);
    let err = Shard::open("model.safetensors", &f).err().unwrap();
    assert!(err.contains("spans 8 bytes"), "{err}");
}

#[test]
fn rejects_reversed_offsets() {
    let f = file(
        "{\"w\":{\"data_offsets\":[8,0],\"dtype\":\"F32\",\"shape\":[2]}}",
        &[0u8; 8],
    );
    let err = Shard::open("model.safetensors", &f).err().unwrap();
    assert!(err.contains("reversed"), "{err}");
}

#[test]
fn rejects_tensor_past_end_of_file() {
    let f = file(
        "{\"w\":{\"data_offsets\":[0,400],\"dtype\":\"F32\",\"shape\":[100]}}",
        &[0u8; 16],
    );
    let err = Shard::open("model.safetensors", &f).err().unwrap();
    assert!(err.contains("ends at"), "{err}");
}

#[test]
fn rejects_unsupported_dtype() {
    let f = file("{\"w\":{\"data_offsets\":[0,1],\"dtype\":\"I8\",\"shape\":[1]}}", &[0u8]);
    let err = Shard::open("model.safetensors", &f).err().unwrap();
    assert!(err.contains("unsupported dtype"), "{err}");
}

#[test]
fn missing_tensor_is_reported_by_name() {
    let m = open_model(single("w", Dtype::F32, &[1], &1.0f32.to_le_bytes())).unwrap();
    let err = m.tensor("absent").unwrap_err();
    assert!(err.contains("absent"), "{err}");
}

#[test]
fn refuses_a_file_that_is_cut_off() {
    let err = Shard::open("a", &[1, 2, 3]).err().unwrap();
    assert!(err.starts_with("a: "), "{err}");
    let err = Shard::open("a", &file("{not json", &[])).err().unwrap();
    assert!(err.starts_with("a: "), "{err}");
}

#[test]
fn tensors_of_all_files_are_found_by_name() {
    let a = single("a", Dtype::F32, &[1], &1.0f32.to_le_bytes());
    let b = single("b", Dtype::Bf16, &[1, 1], &0xC000u16.to_le_bytes());
    let m = Model::open(
        "dir",
        vec![
            ("dir/1.safetensors".to_string(), a.len() as u64, a),
            ("dir/2.safetensors".to_string(), b.len() as u64, b),
        ],
    )
    .unwrap();
    assert_eq!(m.names(), vec!["a".to_string(), "b".to_string()]);
    assert_eq!(floats(m.tensor("b").unwrap()), vec![-2.0]);
    assert!(m.contains("a") && !m.contains("c"));
    assert_eq!(m.tensor_bytes(), 6);
    let sizes: Vec<u64> = m
        .names()
        .iter()
        .map(|n| m.entry(n).unwrap().end - m.entry(n).unwrap().start)
        .collect();
    assert_eq!(sizes, vec![4, 2]);
    assert_eq!(sizes.iter().sum::<u64>(), m.tensor_bytes());
    assert_eq!(m.count_containing("a"), 1);
    assert_eq!(m.entry("b").unwrap().numel(), 1);
}

#[test]
fn a_name_in_two_files_is_refused() {
    let a = single("a", Dtype::F32, &[1], &1.0f32.to_le_bytes());
    let b = a.clone();
    let r = Model::open(
        "dir",
        vec![
            ("dir/1.safetensors".to_string(), a.len() as u64, a),
            ("dir/2.safetensors".to_string(), b.len() as u64, b),
        ],
    );
    assert!(r.is_err());
    assert!(Model::open("dir", vec![]).is_err());
}

#[test]
fn an_index_names_the_tensors_that_no_file_has() {
    let m = open_model(single("w", Dtype::F32, &[1], &1.0f32.to_le_bytes())).unwrap();
    let index = b"{\"weight_map\":{\"w\":\"model.safetensors\",\"x\":\"other\"}}";
    assert_eq!(m.index_disagreement("i", Some(&index[..])).unwrap(), vec!["x".to_string()]);
    assert_eq!(m.index_disagreement("i", None).unwrap(), Vec::<String>::new());
    assert_eq!(m.index_disagreement("i", Some(&b"{}"[..])).unwrap_err(), "i: no weight_map");
    assert!(m.index_disagreement("i", Some(&b"{"[..])).unwrap_err().starts_with("i: "));
}

#[test]
fn dtype_names_read_back() {
    for d in [Dtype::F32, Dtype::F16, Dtype::Bf16] {
        assert!(Dtype::parse(d.as_str()) == Some(d));
    }
    assert!(Dtype::parse("F64").is_none());
    assert_eq!(Dtype::F32.size(), 4);
    assert_eq!(Dtype::F16.size(), 2);
    assert_eq!(Dtype::Bf16.size(), 2);
    assert!(Dtype::F32.decode(&[0u8; 3]).is_err());
}
