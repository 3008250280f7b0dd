//! Checks on made-up files, valid and malformed, that need no model at hand.
//!
//! Each file is checked in memory; [`files`] gives them all. What a check finds is
//! stated over what reading the file comes to ([`header::file_result`]).
use crate::bytes;
use crate::fuzz;
use crate::header;
use crate::header::{HeaderSpec, ShardHeader};
use crate::plan;
use crate::plan::Range;
use crate::reader;
use crate::reader::ReadConfig;
use crate::text;
use vstd::prelude::*;
use vstd::string::*;
use vstd::utf8::*;

verus! {

/// What a check found, as a mathematical value.
#[verifier::ext_equal]
pub struct CheckSpec {
    pub name: Seq<char>,
    pub pass: bool,
    pub detail: Seq<char>,
}

/// What a check found.
pub struct Check {
    pub name: String,
    pub pass: bool,
    pub detail: String,
}

impl View for Check {
    type V = CheckSpec;

    open spec fn view(&self) -> CheckSpec {
        CheckSpec { name: self.name@, pass: self.pass, detail: self.detail@ }
    }
}

/// The views of checks.
pub open spec fn check_views(s: Seq<Check>) -> Seq<CheckSpec> {
    Seq::new(s.len(), |i: int| s[i]@)
}

fn check(name: &str, pass: bool, detail: String) -> (r: Check)
    ensures
        r@ == (CheckSpec { name: name@, pass, detail: detail@ }),
{
    Check { name: name.to_owned(), pass, detail }
}

/// The name of a file in a directory, with one slash between them; the name alone in
/// a directory without one.
pub open spec fn file_path(dir: Seq<char>, name: Seq<char>) -> Seq<char> {
    if dir.len() == 0 || dir.last() == '/' {
        dir + name
    } else {
        dir + "/"@ + name
    }
}

fn file_path_string(dir: &str, name: &str) -> (r: String)
    ensures
        r@ == file_path(dir@, name@),
{
    let mut p: String = dir.to_owned();
    let n: usize = dir.unicode_len();
    if n > 0 && dir.get_char(n - 1) != '/' {
        p.append("/");
    }
    p.append(name);
    p
}

/// A header with these entries.
pub open spec fn object_of(entries: Seq<Seq<char>>) -> Seq<char> {
    "{"@ + text::joined(entries, ","@, entries.len()) + "}"@
}

/// A header with one entry.
pub open spec fn one_entry(
    name: Seq<char>,
    dtype: Seq<char>,
    shape: Seq<char>,
    start: u64,
    end: u64,
) -> Seq<char> {
    object_of(seq![fuzz::entry_text(6, name, dtype, shape, start, end)])
}

/// A header with the entries.
fn json_of(entries: &Vec<String>) -> (r: String)
    ensures
        r@ == object_of(text::views(entries@)),
{
    let all: String = text::join(entries, ",");
    fuzz::enclosed("{", all.as_str(), "}")
}

fn json_of_one(name: &str, dtype: &str, shape: &str, start: u64, end: u64) -> (r: String)
    ensures
        r@ == one_entry(name@, dtype@, shape@, start, end),
{
    let mut v: Vec<String> = Vec::new();
    v.push(fuzz::entry_string(6, name, dtype, shape, start, end));
    assert(text::views(v@) =~= seq![fuzz::entry_text(6, name@, dtype@, shape@, start, end)]);
    json_of(&v)
}

/// A file with this header text and this data.
pub open spec fn built(json: Seq<char>, payload: Seq<u8>) -> Seq<u8> {
    fuzz::assembled(json, payload, None)
}

fn build(json: &str, zeros: usize) -> (r: Vec<u8>)
    ensures
        r@ == built(json@, fuzz::copies(0, zeros as nat)),
{
    let payload: Vec<u8> = fuzz::repeated(0, zeros);
    fuzz::assemble(json, payload.as_slice(), None)
}

/// How many malformed files there are.
pub const MALFORMED: usize = 18;

/// The name of the `i`-th malformed file.
pub open spec fn malformed_name(i: usize) -> Seq<char> {
    match i {
        0 => "hdr_zero.safetensors"@,
        1 => "hdr_overrun.safetensors"@,
        2 => "hdr_absurd.safetensors"@,
        3 => "hdr_short.safetensors"@,
        4 => "json_bad.safetensors"@,
        5 => "json_array.safetensors"@,
        6 => "entry_not_obj.safetensors"@,
        7 => "meta_not_obj.safetensors"@,
        8 => "dtype_unknown.safetensors"@,
        9 => "missing_shape.safetensors"@,
        10 => "offsets_not_pair.safetensors"@,
        11 => "end_before_start.safetensors"@,
        12 => "end_beyond_buffer.safetensors"@,
        13 => "shape_dtype_mismatch.safetensors"@,
        14 => "shape_noninteger.safetensors"@,
        15 => "offset_u64max.safetensors"@,
        16 => "shape_overflow.safetensors"@,
        _ => "off_by_one.safetensors"@,
    }
}

/// The header text of the `i`-th malformed file, for those whose framing is right.
pub open spec fn malformed_json(i: usize) -> Seq<char> {
    match i {
        4 => "{not json"@,
        5 => "[1,2,3]"@,
        6 => "{\"a\":42}"@,
        7 => "{\"__metadata__\":7}"@,
        8 => one_entry("a"@, "F7"@, "[4]"@, 0, 16),
        9 => "{\"a\":{\"dtype\":\"F32\",\"data_offsets\":[0,16]}}"@,
        10 => "{\"a\":{\"dtype\":\"F32\",\"shape\":[4],\"data_offsets\":[0]}}"@,
        11 => one_entry("a"@, "F32"@, "[4]"@, 100, 10),
        12 => one_entry("a"@, "F32"@, "[256]"@, 0, 1024),
        13 => one_entry("a"@, "F32"@, "[10]"@, 0, 20),
        14 => "{\"a\":{\"dtype\":\"F32\",\"shape\":[\"x\"],\"data_offsets\":[0,0]}}"@,
        15 => one_entry("a"@, "F32"@, "[4]"@, 0, u64::MAX),
        16 => one_entry("a"@, "F32"@, "[18446744073709551615,2]"@, 0, 0),
        _ => one_entry("a"@, "F32"@, "[4]"@, 0, 17),
    }
}

/// How many bytes of data the `i`-th malformed file holds.
pub open spec fn malformed_bytes(i: usize) -> nat {
    match i {
        8 => 16,
        9 => 16,
        10 => 16,
        11 => 256,
        12 => 8,
        13 => 20,
        15 => 16,
        17 => 16,
        _ => 0,
    }
}

/// The `i`-th malformed file.
pub open spec fn malformed_file(i: usize) -> Seq<u8> {
    if i == 0 {
        fuzz::framed(0, Seq::empty(), fuzz::copies(0, 16))
    } else if i == 1 {
        fuzz::assembled("{}"@, Seq::empty(), Some(4096))
    } else if i == 2 {
        fuzz::assembled("{}"@, Seq::empty(), Some(0x100_0000_0000))
    } else if i == 3 {
        encode_utf8("GG"@)
    } else {
        built(malformed_json(i), fuzz::copies(0, malformed_bytes(i)))
    }
}

fn malformed_label(i: usize) -> (r: &'static str)
    ensures
        r@ == malformed_name(i),
{
    match i {
        0 => "hdr_zero.safetensors",
        1 => "hdr_overrun.safetensors",
        2 => "hdr_absurd.safetensors",
        3 => "hdr_short.safetensors",
        4 => "json_bad.safetensors",
        5 => "json_array.safetensors",
        6 => "entry_not_obj.safetensors",
        7 => "meta_not_obj.safetensors",
        8 => "dtype_unknown.safetensors",
        9 => "missing_shape.safetensors",
        10 => "offsets_not_pair.safetensors",
        11 => "end_before_start.safetensors",
        12 => "end_beyond_buffer.safetensors",
        13 => "shape_dtype_mismatch.safetensors",
        14 => "shape_noninteger.safetensors",
        15 => "offset_u64max.safetensors",
        16 => "shape_overflow.safetensors",
        _ => "off_by_one.safetensors",
    }
}

fn malformed_text(i: usize) -> (r: String)
    ensures
        r@ == malformed_json(i),
{
    match i {
        4 => "{not json".to_owned(),
        5 => "[1,2,3]".to_owned(),
        6 => "{\"a\":42}".to_owned(),
        7 => "{\"__metadata__\":7}".to_owned(),
        8 => json_of_one("a", "F7", "[4]", 0, 16),
        9 => "{\"a\":{\"dtype\":\"F32\",\"data_offsets\":[0,16]}}".to_owned(),
        10 => "{\"a\":{\"dtype\":\"F32\",\"shape\":[4],\"data_offsets\":[0]}}".to_owned(),
        11 => json_of_one("a", "F32", "[4]", 100, 10),
        12 => json_of_one("a", "F32", "[256]", 0, 1024),
        13 => json_of_one("a", "F32", "[10]", 0, 20),
        14 => "{\"a\":{\"dtype\":\"F32\",\"shape\":[\"x\"],\"data_offsets\":[0,0]}}".to_owned(),
        15 => json_of_one("a", "F32", "[4]", 0, u64::MAX),
        16 => json_of_one("a", "F32", "[18446744073709551615,2]", 0, 0),
        _ => json_of_one("a", "F32", "[4]", 0, 17),
    }
}

/// Makes the `i`-th malformed file.
pub fn malformed(i: usize) -> (r: Vec<u8>)
    ensures
        r@ == malformed_file(i),
{
    if i == 0 {
        let tail: Vec<u8> = fuzz::repeated(0, 16);
        let none: Vec<u8> = Vec::new();
        fuzz::frame(0, none.as_slice(), tail.as_slice())
    } else if i == 1 {
        let none: Vec<u8> = Vec::new();
        fuzz::assemble("{}", none.as_slice(), Some(4096))
    } else if i == 2 {
        let none: Vec<u8> = Vec::new();
        fuzz::assemble("{}", none.as_slice(), Some(0x100_0000_0000))
    } else if i == 3 {
        vstd::slice::slice_to_vec("GG".as_bytes())
    } else {
        let json: String = malformed_text(i);
        let n: usize = match i {
            8 => 16,
            9 => 16,
            10 => 16,
            11 => 256,
            12 => 8,
            13 => 20,
            15 => 16,
            17 => 16,
            _ => 0,
        };
        build(json.as_str(), n)
    }
}

/// What is found of a file that is to be refused.
#[verifier::opaque]
pub open spec fn refusal(dir: Seq<char>, name: Seq<char>, file: Seq<u8>) -> CheckSpec {
    match header::file_result(file_path(dir, name), file) {
        Ok(h) => CheckSpec {
            name,
            pass: false,
            detail: "accepted a malformed file: "@ + text::decimal(h.tensors.len())
                + " tensors, buffer "@ + text::decimal((h.file_size - h.data_start) as nat),
        },
        Err(m) => CheckSpec {
            name,
            pass: true,
            detail: "rejected: "@ + text::after_first(m, ": "@),
        },
    }
}

/// Checks that a file is refused.
pub fn expect_reject(dir: &str, name: &str, file: &[u8]) -> (r: Check)
    ensures
        r@ == refusal(dir@, name@, file@),
{
    proof {
        reveal(refusal);
    }
    let path: String = file_path_string(dir, name);
    match header::read_header(path.as_str(), file) {
        Ok(h) => {
            let mut m: String = "accepted a malformed file: ".to_owned();
            let n: usize = h.tensors.len();
            text::push_decimal(&mut m, n as u64);
            m.append(" tensors, buffer ");
            text::push_decimal(&mut m, h.buffer_bytes());
            check(name, false, m)
        },
        Err(e) => {
            let mut m: String = "rejected: ".to_owned();
            m.append(text::str_after_first(e.as_str(), ": "));
            check(name, true, m)
        },
    }
}

/// The tensor bytes of a file, as far as they can be counted.
pub open spec fn counted_bytes(h: HeaderSpec) -> u64 {
    plan::saturated(header::total_bytes(h.tensors) as int) as u64
}

fn count_bytes(h: &ShardHeader) -> (r: u64)
    requires
        h.wf(),
    ensures
        r == counted_bytes(h@),
{
    match h.checked_tensor_bytes() {
        Some(n) => n,
        None => u64::MAX,
    }
}

fn covered_bytes(p: &Vec<Range>) -> (r: u64)
    ensures
        r == plan::saturated(plan::bytes_of(plan::range_spans(p@))),
{
    let ghost all = plan::range_spans(p@);
    let mut sum: u64 = 0;
    let mut i: usize = 0;
    assert(all.take(0) =~= Seq::empty());
    while i < p.len()
        invariant
            i <= p.len(),
            all == plan::range_spans(p@),
            sum == plan::saturated(plan::bytes_of(all.take(i as int))),
        decreases p.len() - i,
    {
        proof {
            let next = all.take(i as int + 1);
            assert(next.drop_last() =~= all.take(i as int));
            assert(next.last() == plan::range_span(p@[i as int]));
        }
        sum = sum.saturating_add(p[i].len);
        i += 1;
    }
    assert(all.take(all.len() as int) =~= all);
    sum
}

/// The valid file: two tensors, one after the other.
pub open spec fn two_tensors() -> Seq<u8> {
    built(
        object_of(
            seq![
                fuzz::entry_text(6, "a"@, "F32"@, "[1024]"@, 0, 4096),
                fuzz::entry_text(6, "b"@, "F32"@, "[1024]"@, 4096, 8192),
            ],
        ),
        fuzz::copies(0xAB, 8192),
    )
}

fn json_of_two(gap: u64) -> (r: String)
    requires
        gap <= 0x10_0000,
    ensures
        r@ == object_of(
            seq![
                fuzz::entry_text(6, "a"@, "F32"@, "[1024]"@, 0, 4096),
                fuzz::entry_text(
                    6,
                    "b"@,
                    "F32"@,
                    "[1024]"@,
                    (4096 + gap) as u64,
                    (8192 + gap) as u64,
                ),
            ],
        ),
{
    let mut v: Vec<String> = Vec::new();
    v.push(fuzz::entry_string(6, "a", "F32", "[1024]", 0, 4096));
    v.push(fuzz::entry_string(6, "b", "F32", "[1024]", 4096 + gap, 8192 + gap));
    assert(text::views(v@) =~= seq![
        fuzz::entry_text(6, "a"@, "F32"@, "[1024]"@, 0, 4096),
        fuzz::entry_text(6, "b"@, "F32"@, "[1024]"@, (4096 + gap) as u64, (8192 + gap) as u64),
    ]);
    json_of(&v)
}

fn make_two_tensors() -> (r: Vec<u8>)
    ensures
        r@ == two_tensors(),
{
    let json: String = json_of_two(0);
    let payload: Vec<u8> = fuzz::repeated(0xAB, 8192);
    fuzz::assemble(json.as_str(), payload.as_slice(), None)
}

/// What is found of the valid file.
#[verifier::opaque]
pub open spec fn two_check(dir: Seq<char>) -> CheckSpec {
    let name = "valid: two contiguous tensors"@;
    match header::file_result(file_path(dir, "valid_two.safetensors"@), two_tensors()) {
        Ok(h) => {
            let tb = counted_bytes(h);
            let buffer = (h.file_size - h.data_start) as nat;
            let ranges = plan::planned(h, 4096, 0);
            let covered = plan::saturated(plan::bytes_of(ranges));
            CheckSpec {
                name,
                pass: h.tensors.len() == 2 && tb == 8192 && buffer == 8192 && ranges.len() == 1
                    && covered >= 8192,
                detail: "tensors="@ + text::decimal(h.tensors.len()) + " tensor_bytes="@
                    + text::decimal(tb as nat) + " buffer="@ + text::decimal(buffer) + " ranges="@
                    + text::decimal(ranges.len()) + " covered="@ + text::decimal(covered as nat),
            }
        },
        Err(m) => CheckSpec { name, pass: false, detail: "rejected valid file: "@ + m },
    }
}

fn rejected(prefix: &str, m: &str) -> (r: String)
    ensures
        r@ == prefix@ + m@,
{
    let mut d: String = prefix.to_owned();
    d.append(m);
    d
}

fn check_two(dir: &str) -> (r: Check)
    ensures
        r@ == two_check(dir@),
{
    proof {
        reveal(two_check);
    }
    let path: String = file_path_string(dir, "valid_two.safetensors");
    let file: Vec<u8> = make_two_tensors();
    match header::read_header(path.as_str(), file.as_slice()) {
        Ok(h) => {
            let tb: u64 = count_bytes(&h);
            let buffer: u64 = h.buffer_bytes();
            let p: Vec<Range> = plan::plan_shard(&h, 4096, 0);
            assert(plan::range_spans(p@).len() == p@.len());
            let covered: u64 = covered_bytes(&p);
            let tensors: usize = h.tensors.len();
            let ranges: usize = p.len();
            let mut m: String = "tensors=".to_owned();
            text::push_decimal(&mut m, tensors as u64);
            m.append(" tensor_bytes=");
            text::push_decimal(&mut m, tb);
            m.append(" buffer=");
            text::push_decimal(&mut m, buffer);
            m.append(" ranges=");
            text::push_decimal(&mut m, ranges as u64);
            m.append(" covered=");
            text::push_decimal(&mut m, covered);
            check(
                "valid: two contiguous tensors",
                tensors == 2 && tb == 8192 && buffer == 8192 && ranges == 1 && covered >= 8192,
                m,
            )
        },
        Err(e) => check(
            "valid: two contiguous tensors",
            false,
            rejected("rejected valid file: ", e.as_str()),
        ),
    }
}

/// The file whose tensor has no elements.
pub open spec fn empty_tensor() -> Seq<u8> {
    built(one_entry("z"@, "F32"@, "[0]"@, 0, 0), fuzz::copies(0, 0))
}

fn make_empty_tensor() -> (r: Vec<u8>)
    ensures
        r@ == empty_tensor(),
{
    let json: String = json_of_one("z", "F32", "[0]", 0, 0);
    build(json.as_str(), 0)
}

/// What is found of a file whose tensor has no elements.
#[verifier::opaque]
pub open spec fn empty_check(dir: Seq<char>) -> CheckSpec {
    let name = "valid: zero-element tensor"@;
    match header::file_result(file_path(dir, "empty_tensor.safetensors"@), empty_tensor()) {
        Ok(h) => {
            let tb = counted_bytes(h);
            let ranges = plan::planned(h, 4096, 0);
            CheckSpec {
                name,
                pass: h.tensors.len() == 1 && tb == 0 && ranges.len() == 0,
                detail: "tensors="@ + text::decimal(h.tensors.len()) + " tensor_bytes="@
                    + text::decimal(tb as nat) + " ranges="@ + text::decimal(ranges.len()),
            }
        },
        Err(m) => CheckSpec { name, pass: false, detail: "rejected: "@ + m },
    }
}

fn check_empty(dir: &str) -> (r: Check)
    ensures
        r@ == empty_check(dir@),
{
    proof {
        reveal(empty_check);
    }
    let path: String = file_path_string(dir, "empty_tensor.safetensors");
    let file: Vec<u8> = make_empty_tensor();
    match header::read_header(path.as_str(), file.as_slice()) {
        Ok(h) => {
            let tb: u64 = count_bytes(&h);
            let p: Vec<Range> = plan::plan_shard(&h, 4096, 0);
            assert(plan::range_spans(p@).len() == p@.len());
            let tensors: usize = h.tensors.len();
            let ranges: usize = p.len();
            let mut m: String = "tensors=".to_owned();
            text::push_decimal(&mut m, tensors as u64);
            m.append(" tensor_bytes=");
            text::push_decimal(&mut m, tb);
            m.append(" ranges=");
            text::push_decimal(&mut m, ranges as u64);
            check("valid: zero-element tensor", tensors == 1 && tb == 0 && ranges == 0, m)
        },
        Err(e) => check("valid: zero-element tensor", false, rejected("rejected: ", e.as_str())),
    }
}

/// The file whose tensor has no dimensions.
pub open spec fn scalar_tensor() -> Seq<u8> {
    built(one_entry("s"@, "F32"@, "[]"@, 0, 4), fuzz::copies(0, 4))
}

fn make_scalar_tensor() -> (r: Vec<u8>)
    ensures
        r@ == scalar_tensor(),
{
    let json: String = json_of_one("s", "F32", "[]", 0, 4);
    build(json.as_str(), 4)
}

/// What is found of a file whose tensor has no dimensions.
#[verifier::opaque]
pub open spec fn scalar_check(dir: Seq<char>) -> CheckSpec {
    let name = "valid: scalar tensor shape []"@;
    match header::file_result(file_path(dir, "scalar.safetensors"@), scalar_tensor()) {
        Ok(h) => {
            let tb = counted_bytes(h);
            CheckSpec {
                name,
                pass: h.tensors.len() == 1 && tb == 4,
                detail: "tensor_bytes="@ + text::decimal(tb as nat),
            }
        },
        Err(m) => CheckSpec { name, pass: false, detail: "rejected: "@ + m },
    }
}

fn check_scalar(dir: &str) -> (r: Check)
    ensures
        r@ == scalar_check(dir@),
{
    proof {
        reveal(scalar_check);
    }
    let path: String = file_path_string(dir, "scalar.safetensors");
    let file: Vec<u8> = make_scalar_tensor();
    match header::read_header(path.as_str(), file.as_slice()) {
        Ok(h) => {
            let tb: u64 = count_bytes(&h);
            let tensors: usize = h.tensors.len();
            let mut m: String = "tensor_bytes=".to_owned();
            text::push_decimal(&mut m, tb);
            check("valid: scalar tensor shape []", tensors == 1 && tb == 4, m)
        },
        Err(e) => check("valid: scalar tensor shape []", false, rejected("rejected: ", e.as_str())),
    }
}

/// Bytes between the two tensors of the file with a gap.
pub const GAP: u64 = 0x10_0000;

/// The file with a gap between its tensors.
pub open spec fn gapped_tensors() -> Seq<u8> {
    built(
        object_of(
            seq![
                fuzz::entry_text(6, "a"@, "F32"@, "[1024]"@, 0, 4096),
                fuzz::entry_text(
                    6,
                    "b"@,
                    "F32"@,
                    "[1024]"@,
                    (4096 + GAP) as u64,
                    (8192 + GAP) as u64,
                ),
            ],
        ),
        fuzz::copies(0, (8192 + GAP) as nat),
    )
}

fn make_gapped_tensors() -> (r: Vec<u8>)
    ensures
        r@ == gapped_tensors(),
{
    let json: String = json_of_two(GAP);
    build(json.as_str(), 8192 + GAP as usize)
}

/// What is found of a file with a gap between its tensors.
#[verifier::opaque]
pub open spec fn gap_check(dir: Seq<char>) -> CheckSpec {
    let name = "gap: merge respects max_gap"@;
    match header::file_result(file_path(dir, "gapped.safetensors"@), gapped_tensors()) {
        Ok(h) => {
            let tight = plan::planned(h, 4096, 0);
            let loose = plan::planned(h, 4096, (2 * GAP) as u64);
            CheckSpec {
                name,
                pass: tight.len() == 2 && loose.len() == 1,
                detail: "ranges tight="@ + text::decimal(tight.len()) + " loose="@ + text::decimal(
                    loose.len(),
                ) + " amp="@ + text::quotient_text(
                    plan::saturated(plan::bytes_of(tight)) as u64,
                    counted_bytes(h),
                ) + "x"@,
            }
        },
        Err(m) => CheckSpec { name, pass: false, detail: "rejected: "@ + m },
    }
}

fn check_gap(dir: &str) -> (r: Check)
    ensures
        r@ == gap_check(dir@),
{
    proof {
        reveal(gap_check);
    }
    let path: String = file_path_string(dir, "gapped.safetensors");
    let file: Vec<u8> = make_gapped_tensors();
    match header::read_header(path.as_str(), file.as_slice()) {
        Ok(h) => {
            let tight: Vec<Range> = plan::plan_shard(&h, 4096, 0);
            let loose: Vec<Range> = plan::plan_shard(&h, 4096, 2 * GAP);
            assert(plan::range_spans(tight@).len() == tight@.len());
            assert(plan::range_spans(loose@).len() == loose@.len());
            let covered: u64 = covered_bytes(&tight);
            let tb: u64 = count_bytes(&h);
            let a: usize = tight.len();
            let b: usize = loose.len();
            let mut m: String = "ranges tight=".to_owned();
            text::push_decimal(&mut m, a as u64);
            m.append(" loose=");
            text::push_decimal(&mut m, b as u64);
            m.append(" amp=");
            let amp: String = text::quotient_string(covered, tb);
            m.append(amp.as_str());
            m.append("x");
            check("gap: merge respects max_gap", a == 2 && b == 1, m)
        },
        Err(e) => check("gap: merge respects max_gap", false, rejected("rejected: ", e.as_str())),
    }
}

/// What is found of rounding at the edges.
#[verifier::opaque]
pub open spec fn rounding_check() -> CheckSpec {
    CheckSpec {
        name: "arithmetic: ceil_to saturates, floor_to safe, no panic"@,
        pass: true,
        detail: "ceil(MAX,4096)="@ + text::decimal(u64::MAX as nat) + " ceil(0,4096)="@
            + text::decimal(0) + " floor(MAX,4096)="@ + text::decimal(0xffff_ffff_ffff_f000)
            + " ceil(1,0)="@ + text::decimal(1),
    }
}

fn check_rounding() -> (r: Check)
    ensures
        r@ == rounding_check(),
{
    proof {
        reveal(rounding_check);
    }
    let a: u64 = plan::ceil_to(u64::MAX, 4096);
    let b: u64 = plan::ceil_to(0, 4096);
    let c: u64 = plan::floor_to(u64::MAX, 4096);
    let d: u64 = plan::ceil_to(1, 0);
    proof {
        plan::round_down_is_floor(u64::MAX as int, 4096);
        plan::round_up_is_ceiling(u64::MAX as int, 4096);
        plan::round_up_is_ceiling(0, 4096);
        plan::round_up_is_ceiling(1, 1);
    }
    assert(c == 0xffff_ffff_ffff_f000);
    assert(a == u64::MAX);
    assert(b == 0);
    assert(d == 1);
    let mut m: String = "ceil(MAX,4096)=".to_owned();
    text::push_decimal(&mut m, a);
    m.append(" ceil(0,4096)=");
    text::push_decimal(&mut m, b);
    m.append(" floor(MAX,4096)=");
    text::push_decimal(&mut m, c);
    m.append(" ceil(1,0)=");
    text::push_decimal(&mut m, d);
    check(
        "arithmetic: ceil_to saturates, floor_to safe, no panic",
        a >= c && b == 0 && d == 1,
        m,
    )
}

/// What is found of counting elements.
#[verifier::opaque]
pub open spec fn numel_check() -> CheckSpec {
    CheckSpec {
        name: "arithmetic: shape_numel overflow -> None"@,
        pass: true,
        detail: "MAX*2="@ + text::option_text(None) + " 2*3*4="@ + text::option_text(Some(24))
            + " []="@ + text::option_text(Some(1)),
    }
}

proof fn product_of_one_more(s: Seq<u64>, x: u64)
    ensures
        header::product(s.push(x)) == header::product(s) * x as nat,
{
    assert(s.push(x).drop_last() =~= s);
}

fn check_numel() -> (r: Check)
    ensures
        r@ == numel_check(),
{
    proof {
        reveal(numel_check);
    }
    let x: Vec<u64> = vec![u64::MAX, 2];
    let y: Vec<u64> = vec![2, 3, 4];
    let z: Vec<u64> = Vec::new();
    let a: Option<u64> = header::shape_numel(x.as_slice());
    let b: Option<u64> = header::shape_numel(y.as_slice());
    let c: Option<u64> = header::shape_numel(z.as_slice());
    proof {
        let none = Seq::<u64>::empty();
        product_of_one_more(none, u64::MAX);
        product_of_one_more(none.push(u64::MAX), 2);
        assert(x@.take(2) =~= none.push(u64::MAX).push(2));
        assert(header::product(x@.take(2)) == 2 * u64::MAX);
        product_of_one_more(none, 2);
        product_of_one_more(none.push(2), 3);
        product_of_one_more(none.push(2).push(3), 4);
        assert(y@.take(0) =~= none);
        assert(y@.take(1) =~= none.push(2));
        assert(y@.take(2) =~= none.push(2).push(3));
        assert(y@.take(3) =~= none.push(2).push(3).push(4));
        assert(y@.take(3) =~= y@);
        assert forall|k: int| 0 <= k <= y@.len() implies header::product(#[trigger] y@.take(k))
            <= u64::MAX by {
            assert(k == 0 || k == 1 || k == 2 || k == 3);
        }
        assert(z@.take(0) =~= none);
    }
    let mut m: String = "MAX*2=".to_owned();
    m.append(text::option_string(a).as_str());
    m.append(" 2*3*4=");
    m.append(text::option_string(b).as_str());
    m.append(" []=");
    m.append(text::option_string(c).as_str());
    check(
        "arithmetic: shape_numel overflow -> None",
        a.is_none() && b == Some(24u64) && c == Some(1u64),
        m,
    )
}

/// What is found of a plan for another file.
#[verifier::opaque]
pub open spec fn file_number_check() -> CheckSpec {
    CheckSpec {
        name: "api: out-of-range shard index rejected"@,
        pass: true,
        detail: "rejected: plan references shard "@ + text::decimal(7) + " but only "@
            + text::decimal(1) + " files given"@,
    }
}

/// What is found of a plan that asks for nothing.
#[verifier::opaque]
pub open spec fn no_length_check() -> CheckSpec {
    CheckSpec {
        name: "api: zero-length range rejected"@,
        pass: true,
        detail: "rejected: plan contains a zero-length range at offset "@ + text::decimal(0),
    }
}

fn check_request(name: &str, accepted: &str, file: usize, range: Range) -> (r: Check)
    requires
        range.offset + range.len <= u64::MAX,
    ensures
        match reader::request_fault((file, range), 1) {
            Some(m) => r@ == (CheckSpec { name: name@, pass: true, detail: "rejected: "@ + m }),
            None => r@ == (CheckSpec { name: name@, pass: false, detail: accepted@ }),
        },
{
    let p: Vec<(usize, Range)> = vec![(file, range)];
    proof {
        assert(p@.drop_last() =~= Seq::empty());
        assert(p@.last() == (file, range));
        reveal_with_fuel(reader::plan_fault, 2);
    }
    match reader::begin(1, p.as_slice(), &ReadConfig::default()) {
        Ok(_) => check(name, false, accepted.to_owned()),
        Err(e) => check(name, true, rejected("rejected: ", e.as_str())),
    }
}

fn check_file_number() -> (r: Check)
    ensures
        r@ == file_number_check(),
{
    proof {
        reveal(file_number_check);
    }
    let r: Check = check_request(
        "api: out-of-range shard index rejected",
        "accepted an out-of-range shard index",
        7,
        Range { offset: 0, len: 4096 },
    );
    proof {
        reveal_strlit("rejected: plan references shard ");
        reveal_strlit("rejected: ");
        reveal_strlit("plan references shard ");
        assert("rejected: "@ + "plan references shard "@ =~= "rejected: plan references shard "@);
        assert(r@.detail =~= file_number_check().detail);
    }
    r
}

fn check_no_length() -> (r: Check)
    ensures
        r@ == no_length_check(),
{
    proof {
        reveal(no_length_check);
    }
    let r: Check = check_request(
        "api: zero-length range rejected",
        "accepted a zero-length range",
        0,
        Range { offset: 0, len: 0 },
    );
    proof {
        reveal_strlit("rejected: plan contains a zero-length range at offset ");
        reveal_strlit("rejected: ");
        reveal_strlit("plan contains a zero-length range at offset ");
        assert("rejected: "@ + "plan contains a zero-length range at offset "@
            =~= "rejected: plan contains a zero-length range at offset "@);
        assert(r@.detail =~= no_length_check().detail);
    }
    r
}

/// What is found of a plan without requests.
#[verifier::opaque]
pub open spec fn no_requests_check() -> CheckSpec {
    CheckSpec {
        name: "api: empty plan is a no-op"@,
        pass: true,
        detail: "bytes="@ + text::decimal(0) + " requests="@ + text::decimal(0),
    }
}

fn check_no_requests() -> (r: Check)
    ensures
        r@ == no_requests_check(),
{
    proof {
        reveal(no_requests_check);
    }
    let p: Vec<(usize, Range)> = Vec::new();
    match reader::begin(1, p.as_slice(), &ReadConfig::default()) {
        Ok(jobs) => {
            let requests: usize = jobs.len();
            let mut bytes: u64 = 0;
            let mut i: usize = 0;
            while i < jobs.len()
                invariant
                    i <= jobs.len(),
                    jobs.len() == 0,
                    bytes == 0,
                decreases jobs.len() - i,
            {
                bytes = bytes.saturating_add(jobs[i].len);
                i += 1;
            }
            let mut m: String = "bytes=".to_owned();
            text::push_decimal(&mut m, bytes);
            m.append(" requests=");
            text::push_decimal(&mut m, requests as u64);
            check("api: empty plan is a no-op", bytes == 0 && requests == 0, m)
        },
        Err(e) => check("api: empty plan is a no-op", false, rejected("errored: ", e.as_str())),
    }
}

/// A truth value as text.
pub open spec fn bool_text(b: bool) -> Seq<char> {
    if b {
        "true"@
    } else {
        "false"@
    }
}

fn push_bool(m: &mut String, b: bool)
    ensures
        final(m)@ == old(m)@ + bool_text(b),
{
    m.append(if b {
        "true"
    } else {
        "false"
    });
}

/// No request of the plan is empty.
pub open spec fn none_empty(p: Seq<(usize, Range)>) -> bool {
    forall|i: int| 0 <= i < p.len() ==> (#[trigger] p[i]).1.len > 0
}

/// Every request of the plan is for one of `files` files.
pub open spec fn all_of(p: Seq<(usize, Range)>, files: int) -> bool {
    forall|i: int| 0 <= i < p.len() ==> (#[trigger] p[i]).0 < files
}

/// Every request of the plan ends before the next starts.
pub open spec fn in_turn(p: Seq<(usize, Range)>) -> bool {
    forall|i: int, j: int|
        0 <= i && j == i + 1 && j < p.len() ==> plan::saturated(
            (#[trigger] p[i]).1.offset + p[i].1.len,
        ) <= (#[trigger] p[j]).1.offset
}

/// What is found of the plan of the valid file, given what its header is.
#[verifier::opaque]
pub open spec fn plan_check(p: Seq<(usize, Range)>) -> CheckSpec {
    CheckSpec {
        name: "plan: no zero-length, in-range, non-overlapping"@,
        pass: none_empty(p) && all_of(p, 1) && in_turn(p),
        detail: text::decimal(p.len()) + " ranges; zero_len_ok="@ + bool_text(none_empty(p))
            + " in_range="@ + bool_text(all_of(p, 1)) + " sorted="@ + bool_text(in_turn(p)),
    }
}

/// Checks the shape of a plan for one file.
pub fn check_plan_shape(p: &[(usize, Range)]) -> (r: Check)
    ensures
        r@ == plan_check(p@),
{
    proof {
        reveal(plan_check);
    }
    let mut no_zero_len: bool = true;
    let mut in_range: bool = true;
    let mut no_overlap: bool = true;
    let mut i: usize = 0;
    while i < p.len()
        invariant
            i <= p.len(),
            no_zero_len == (forall|k: int| 0 <= k < i ==> (#[trigger] p@[k]).1.len > 0),
            in_range == (forall|k: int| 0 <= k < i ==> (#[trigger] p@[k]).0 < 1),
            no_overlap == (forall|k: int, j: int|
                0 <= k && j == k + 1 && j < p@.len() && k < i ==> plan::saturated(
                    (#[trigger] p@[k]).1.offset + p@[k].1.len,
                ) <= (#[trigger] p@[j]).1.offset),
        decreases p.len() - i,
    {
        if p[i].1.len == 0 {
            no_zero_len = false;
        }
        if p[i].0 >= 1 {
            in_range = false;
        }
        if i < p.len() - 1 && p[i].1.end() > p[i + 1].1.offset {
            assert(p@[i as int + 1].1.offset < plan::saturated(
                p@[i as int].1.offset + p@[i as int].1.len,
            ));
            no_overlap = false;
        }
        i += 1;
    }
    let n: usize = p.len();
    let mut m: String = text::decimal_string(n as u64);
    m.append(" ranges; zero_len_ok=");
    push_bool(&mut m, no_zero_len);
    m.append(" in_range=");
    push_bool(&mut m, in_range);
    m.append(" sorted=");
    push_bool(&mut m, no_overlap);
    check(
        "plan: no zero-length, in-range, non-overlapping",
        no_zero_len && in_range && no_overlap,
        m,
    )
}

/// The plan of one file, as requests for file 0.
pub open spec fn single_plan(h: HeaderSpec) -> Seq<(usize, Range)> {
    let p = crate::oracle::planned_ranges(h, 4096);
    Seq::new(p.len(), |i: int| (0usize, p[i]))
}

/// What the checks find, in their order, given the header of the valid file.
pub open spec fn findings(dir: Seq<char>, h: HeaderSpec) -> Seq<CheckSpec> {
    seq![two_check(dir)] + Seq::new(
        MALFORMED as nat,
        |i: int| refusal(dir, malformed_name(i as usize), malformed_file(i as usize)),
    ) + seq![
        empty_check(dir),
        scalar_check(dir),
        gap_check(dir),
        rounding_check(),
        numel_check(),
        file_number_check(),
        no_length_check(),
        no_requests_check(),
        plan_check(single_plan(h)),
    ]
}

/// The files that the checks are on, with their names: the valid one, the malformed
/// ones, and those whose plans are checked.
pub open spec fn made_files() -> Seq<(Seq<char>, Seq<u8>)> {
    seq![("valid_two.safetensors"@, two_tensors())] + Seq::new(
        MALFORMED as nat,
        |i: int| (malformed_name(i as usize), malformed_file(i as usize)),
    ) + seq![
        ("empty_tensor.safetensors"@, empty_tensor()),
        ("scalar.safetensors"@, scalar_tensor()),
        ("gapped.safetensors"@, gapped_tensors()),
    ]
}

/// The views of named files.
pub open spec fn named_views(s: Seq<(String, Vec<u8>)>) -> Seq<(Seq<char>, Seq<u8>)> {
    Seq::new(s.len(), |i: int| (s[i].0@, s[i].1@))
}

/// Makes the files that the checks are on.
pub fn files() -> (r: Vec<(String, Vec<u8>)>)
    ensures
        named_views(r@) == made_files(),
{
    let mut out: Vec<(String, Vec<u8>)> = Vec::new();
    out.push(("valid_two.safetensors".to_owned(), make_two_tensors()));
    let mut i: usize = 0;
    while i < MALFORMED
        invariant
            i <= MALFORMED,
            out@.len() == i + 1,
            out@[0].0@ == "valid_two.safetensors"@ && out@[0].1@ == two_tensors(),
            forall|k: int|
                0 <= k < i ==> (#[trigger] out@[k + 1]).0@ == malformed_name(k as usize)
                    && out@[k + 1].1@ == malformed_file(k as usize),
        decreases MALFORMED - i,
    {
        let ghost before = out@;
        out.push((malformed_label(i).to_owned(), malformed(i)));
        assert forall|k: int| 0 <= k < i + 1 implies (#[trigger] out@[k + 1]).0@
            == malformed_name(k as usize) && out@[k + 1].1@ == malformed_file(k as usize) by {
            if k < i {
                assert(out@[k + 1] == before[k + 1]);
            }
        }
        i += 1;
    }
    let ghost so_far = out@;
    out.push(("empty_tensor.safetensors".to_owned(), make_empty_tensor()));
    out.push(("scalar.safetensors".to_owned(), make_scalar_tensor()));
    out.push(("gapped.safetensors".to_owned(), make_gapped_tensors()));
    proof {
        let all = named_views(out@);
        assert(all.len() == made_files().len());
        assert forall|k: int| 0 <= k < all.len() implies #[trigger] all[k] == made_files()[k] by {
            if k <= MALFORMED {
                assert(out@[k] == so_far[k]);
                if k > 0 {
                    assert(so_far[(k - 1) + 1].0@ == malformed_name((k - 1) as usize));
                }
            }
        }
        assert(all =~= made_files());
    }
    out
}

/// Runs every check, for files that are named as if they stood in `dir`. Without
/// a header of the valid file there is no last check, and the message comes back.
pub fn run(dir: &str) -> (r: Result<Vec<Check>, String>)
    ensures
        match header::file_result(file_path(dir@, "valid_two.safetensors"@), two_tensors()) {
            Ok(h) => r is Ok && check_views(r->Ok_0@) == findings(dir@, h),
            Err(m) => r is Err && r->Err_0@ == m,
        },
{
    let mut out: Vec<Check> = Vec::new();
    out.push(check_two(dir));
    let mut i: usize = 0;
    while i < MALFORMED
        invariant
            i <= MALFORMED,
            out@.len() == i + 1,
            out@[0]@ == two_check(dir@),
            forall|k: int|
                0 <= k < i ==> (#[trigger] out@[k + 1])@ == refusal(
                    dir@,
                    malformed_name(k as usize),
                    malformed_file(k as usize),
                ),
        decreases MALFORMED - i,
    {
        let file: Vec<u8> = malformed(i);
        let ghost before = out@;
        let c: Check = expect_reject(dir, malformed_label(i), file.as_slice());
        out.push(c);
        assert forall|k: int| 0 <= k < i + 1 implies (#[trigger] out@[k + 1])@ == refusal(
            dir@,
            malformed_name(k as usize),
            malformed_file(k as usize),
        ) by {
            if k < i {
                assert(out@[k + 1] == before[k + 1]);
            }
        }
        i += 1;
    }
    let ghost so_far = out@;
    out.push(check_empty(dir));
    out.push(check_scalar(dir));
    out.push(check_gap(dir));
    out.push(check_rounding());
    out.push(check_numel());
    out.push(check_file_number());
    out.push(check_no_length());
    out.push(check_no_requests());
    let path: String = file_path_string(dir, "valid_two.safetensors");
    let file: Vec<u8> = make_two_tensors();
    match header::read_header(path.as_str(), file.as_slice()) {
        Err(e) => Err(e),
        Ok(h) => {
            let p: Vec<Range> = plan::plan_shard(&h, 4096, 0);
            proof {
                crate::oracle::ranges_are_planned(h@, 4096, p@);
            }
            let pairs: Vec<(usize, Range)> = fuzz::plan_as_pairs(p.as_slice());
            assert(pairs@ =~= single_plan(h@));
            out.push(check_plan_shape(pairs.as_slice()));
            proof {
                let want = findings(dir@, h@);
                assert(check_views(out@).len() == want.len());
                assert forall|k: int| 0 <= k < want.len() implies check_views(out@)[k]
                    == want[k] by {
                    if 1 <= k && k < 19 {
                        assert(out@[k] == so_far[(k - 1) + 1]);
                    }
                }
                assert(check_views(out@) =~= want);
            }
            Ok(out)
        },
    }
}

/// A file whose framing is wrong is refused whatever its header would parse to.
pub proof fn framing_is_checked_first(dir: Seq<char>, i: usize)
    requires
        i < 4,
    ensures
        refusal(dir, malformed_name(i), malformed_file(i)).pass,
{
    reveal(refusal);
    let file = malformed_file(i);
    let declared = if i == 0 {
        0nat
    } else if i == 1 {
        4096nat
    } else {
        0x100_0000_0000nat
    };
    reveal_with_fuel(bytes::byte_power, 9);
    bytes::le_bytes_read_back(declared, 8);
    reveal_strlit("{}");
    reveal_strlit("GG");
    is_ascii_chars_encode_utf8("{}"@);
    is_ascii_chars_encode_utf8("GG"@);
    if i < 3 {
        assert(file.take(8) =~= bytes::le_bytes(declared, 8));
    }
}

/// The last check passes on every plan: that of any accepted header of a file whose
/// end rounds up to a block in 64 bits.
pub proof fn plans_have_the_right_shape(h: HeaderSpec)
    requires
        h.wf(),
        plan::end_rounds(h, 4096),
    ensures
        plan_check(single_plan(h)).pass,
{
    reveal(plan_check);
    let spans = plan::planned(h, 4096, 0);
    let p = single_plan(h);
    plan::every_plan_is_sound(h, 4096, 0);
    assert forall|i: int| 0 <= i < p.len() implies (#[trigger] p[i]).1.len > 0 && p[i].0 < 1
        && p[i].1.offset == spans[i].0 && p[i].1.offset + p[i].1.len == spans[i].1 by {
        assert(plan::range_is_sound(h, 4096, spans[i]));
    }
    assert forall|i: int, j: int| 0 <= i && j == i + 1 && j < p.len() implies plan::saturated(
        (#[trigger] p[i]).1.offset + p[i].1.len,
    ) <= (#[trigger] p[j]).1.offset by {
        assert(spans[i].1 + 0 < spans[j].0);
    }
}

/// A plan passes the check on its shape exactly if every request is for file 0 and asks
/// for something, and none ends after a later one starts.
pub proof fn shape_is_that_of_a_plan(p: Seq<(usize, Range)>)
    requires
        plan::requests_fit(p),
    ensures
        plan_check(p).pass <==> {
            &&& forall|i: int| 0 <= i < p.len() ==> (#[trigger] p[i]).0 == 0 && p[i].1.len > 0
            &&& forall|i: int, j: int|
                0 <= i < j < p.len() ==> (#[trigger] p[i]).1.offset + p[i].1.len <= (
                #[trigger] p[j]).1.offset
        },
{
    reveal(plan_check);
    if plan_check(p).pass {
        assert forall|i: int, j: int| 0 <= i < j < p.len() implies (#[trigger] p[i]).1.offset
            + p[i].1.len <= (#[trigger] p[j]).1.offset by {
            turns_go_through(p, i, j);
        }
    } else {
        if forall|i: int| 0 <= i < p.len() ==> (#[trigger] p[i]).0 == 0 && p[i].1.len > 0 {
            assert(!in_turn(p));
        }
    }
}

proof fn turns_go_through(p: Seq<(usize, Range)>, i: int, j: int)
    requires
        plan::requests_fit(p),
        in_turn(p),
        0 <= i < j < p.len(),
    ensures
        p[i].1.offset + p[i].1.len <= p[j].1.offset,
    decreases j - i,
{
    let k = i + 1;
    assert(p[i].1.offset + p[i].1.len <= u64::MAX);
    assert(plan::saturated(p[i].1.offset + p[i].1.len) <= p[k].1.offset);
    if k < j {
        turns_go_through(p, k, j);
    }
}

/// A file in a directory is named by the directory, a slash and its name; a slash that the
/// directory ends with is not doubled.
pub proof fn names_follow_one_slash(dir: Seq<char>, name: Seq<char>)
    ensures
        dir.len() > 0 ==> file_path(dir, name)[file_path(dir, name).len() - name.len() - 1] == '/',
        file_path(dir, name).skip(file_path(dir, name).len() - name.len()) == name,
        file_path(dir, name).take(dir.len() as int) == dir,
        file_path(dir + "/"@, name) == dir + "/"@ + name,
        dir.len() == 0 ==> file_path(dir, name) == name,
{
    reveal_strlit("/");
    let r = file_path(dir, name);
    assert(r.skip(r.len() - name.len()) =~= name);
    assert(r.take(dir.len() as int) =~= dir);
    assert(dir.len() == 0 ==> r =~= name);
}

/// A file that is to be refused passes exactly if it is refused.
pub proof fn only_refused_files_pass_as_refused(dir: Seq<char>, name: Seq<char>, file: Seq<u8>)
    ensures
        refusal(dir, name, file).pass <==> header::file_result(file_path(dir, name), file) is Err,
        refusal(dir, name, file).name == name,
{
    reveal(refusal);
}

/// A valid file passes only if it is accepted, with as many tensors and bytes as it was
/// made with; the plan of the two tensors is one request that has them all, the file with
/// a gap takes two requests unless the gap may be bridged, and a tensor without bytes takes
/// none.
pub proof fn valid_files_pass_by_what_they_hold(dir: Seq<char>)
    ensures
        two_check(dir).pass <==> (header::file_result(
            file_path(dir, "valid_two.safetensors"@),
            two_tensors(),
        ) matches Ok(h) && h.tensors.len() == 2 && header::total_bytes(h.tensors) == 8192
            && h.file_size - h.data_start == 8192 && plan::planned(h, 4096, 0).len() == 1
            && plan::bytes_of(plan::planned(h, 4096, 0)) >= 8192),
        empty_check(dir).pass <==> (header::file_result(
            file_path(dir, "empty_tensor.safetensors"@),
            empty_tensor(),
        ) matches Ok(h) && h.tensors.len() == 1 && header::total_bytes(h.tensors) == 0
            && plan::planned(h, 4096, 0).len() == 0),
        scalar_check(dir).pass <==> (header::file_result(
            file_path(dir, "scalar.safetensors"@),
            scalar_tensor(),
        ) matches Ok(h) && h.tensors.len() == 1 && header::total_bytes(h.tensors) == 4),
        gap_check(dir).pass <==> (header::file_result(
            file_path(dir, "gapped.safetensors"@),
            gapped_tensors(),
        ) matches Ok(h) && plan::planned(h, 4096, 0).len() == 2 && plan::planned(
            h,
            4096,
            0x20_0000,
        ).len() == 1),
{
    reveal(two_check);
    reveal(empty_check);
    reveal(scalar_check);
    reveal(gap_check);
}

/// Every made file stands under its own name among the files, and every malformed one is
/// judged under its name.
pub proof fn findings_are_on_the_made_files(dir: Seq<char>, h: HeaderSpec, i: int)
    requires
        0 <= i < 18,
    ensures
        made_files().len() == 22,
        findings(dir, h).len() == 28,
        made_files()[i + 1] == (malformed_name(i as usize), malformed_file(i as usize)),
        findings(dir, h)[i + 1] == refusal(dir, made_files()[i + 1].0, made_files()[i + 1].1),
        made_files()[0].1 == two_tensors(),
        findings(dir, h)[0] == two_check(dir),
        findings(dir, h)[27] == plan_check(single_plan(h)),
{
}

} // verus!
