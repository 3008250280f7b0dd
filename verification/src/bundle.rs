//! Bundles of recorded tensors: reading them, and comparing two of them.
//!
//! A bundle is a manifest and one file of little-endian single-precision numbers
//! for each tensor. Numbers are bits here.
use crate::bytes;
use crate::float_bits;
use crate::float_bits::{INFINITY, NOT_A_NUMBER};
use crate::json::Json;
use crate::model;
use crate::names;
use crate::names::NameMap;
use crate::text;
use vstd::prelude::*;
use vstd::string::*;

verus! {

/// One tensor of a bundle.
pub struct TensorEntry {
    pub group: String,
    pub name: String,
    pub file: String,
    pub shape: Vec<u64>,
    pub dtype: String,
    pub numel: u64,
    pub nbytes: u64,
}

/// One step of a greedy decoding.
pub struct GreedyStep {
    pub step: u64,
    pub input_len: u64,
    pub argmax_token: u32,
    pub topk_tokens: Vec<u32>,
    pub topk_logits: Vec<u32>,
    pub logit_sum: u32,
    pub logit_max: u32,
}

/// A greedy decoding.
pub struct Greedy {
    pub steps: Vec<GreedyStep>,
    pub final_ids: Vec<u32>,
}

/// Where a bundle comes from.
pub struct Source {
    pub model: String,
    pub transformers: Option<String>,
    pub torch: Option<String>,
    pub seed: u64,
    pub params: u64,
    /// The bits of a double.
    pub ssm_gain: u64,
}

/// What a bundle holds.
pub struct Manifest {
    pub schema: String,
    pub byte_order: String,
    pub dtype: String,
    pub source: Source,
    pub config: Json,
    pub prompt_ids: Vec<u32>,
    pub tensors: Vec<TensorEntry>,
    pub greedy: Greedy,
}

/// A bundle, with tensors addressable by name.
pub struct Bundle {
    pub root: String,
    pub manifest: Manifest,
    /// The number of each tensor in the manifest.
    pub index: NameMap<usize>,
}

pub open spec fn entry_names(s: Seq<TensorEntry>) -> Seq<Seq<char>> {
    Seq::new(s.len(), |i: int| s[i].name@)
}

/// The first name that came before.
pub open spec fn first_repeat(names: Seq<Seq<char>>) -> Option<Seq<char>>
    decreases names.len(),
{
    if names.len() == 0 {
        None
    } else {
        match first_repeat(names.drop_last()) {
            Some(n) => Some(n),
            None => if names.drop_last().contains(names.last()) {
                Some(names.last())
            } else {
                None
            },
        }
    }
}

proof fn repeat_stops(names: Seq<Seq<char>>, n: int)
    requires
        0 <= n <= names.len(),
        first_repeat(names.take(n)) is Some,
    ensures
        first_repeat(names) == first_repeat(names.take(n)),
    decreases names.len(),
{
    if n < names.len() {
        let d = names.drop_last();
        assert(d.take(n) =~= names.take(n));
        repeat_stops(d, n);
    } else {
        assert(names.take(n) =~= names);
    }
}

/// What is wrong with a manifest, if anything.
pub open spec fn manifest_fault(root: Seq<char>, m: Manifest) -> Option<Seq<char>> {
    if m.schema@ != "qwen35-golden-v1"@ {
        Some(root + ": unexpected schema "@ + text::debug_quoted(m.schema@))
    } else if m.byte_order@ != "little"@ {
        Some(
            root + ": byte_order is "@ + text::debug_quoted(m.byte_order@)
                + ", expected little"@,
        )
    } else if m.dtype@ != "f32"@ {
        Some(root + ": dtype is "@ + text::debug_quoted(m.dtype@) + ", expected f32"@)
    } else {
        match first_repeat(entry_names(m.tensors@)) {
            Some(name) => Some(root + ": duplicate tensor name "@ + name),
            None => None,
        }
    }
}

impl Bundle {
    /// The index has every tensor of the manifest once.
    pub open spec fn wf(&self) -> bool {
        let tensors = self.manifest.tensors@;
        &&& self.index.wf()
        &&& forall|i: int|
            0 <= i < tensors.len() ==> self.index@.contains_key((#[trigger] tensors[i]).name@)
                && self.index@[tensors[i].name@] == i
        &&& forall|name: Seq<char>| #[trigger]
            self.index@.contains_key(name) ==> self.index@[name] < tensors.len()
                && tensors[self.index@[name] as int].name@ == name
    }

    /// The number of the tensor of the given name.
    pub open spec fn number(&self, name: Seq<char>) -> Option<usize> {
        if self.index@.contains_key(name) {
            Some(self.index@[name])
        } else {
            None
        }
    }

    /// Takes in a manifest, provided that it is of the known layout and names no
    /// tensor twice.
    pub fn open(root: &str, manifest: Manifest) -> (r: Result<Bundle, String>)
        ensures
            match manifest_fault(root@, manifest) {
                Some(m) => r is Err && r->Err_0@ == m,
                None => r is Ok && r->Ok_0.wf() && r->Ok_0.root@ == root@ && r->Ok_0.manifest
                    == manifest,
            },
    {
        let mut m: String = root.to_owned();
        if !text::str_eq(manifest.schema.as_str(), "qwen35-golden-v1") {
            m.append(": unexpected schema ");
            let quoted: String = text::quoted(manifest.schema.as_str());
            m.append(quoted.as_str());
            return Err(m);
        }
        if !text::str_eq(manifest.byte_order.as_str(), "little") {
            m.append(": byte_order is ");
            let quoted: String = text::quoted(manifest.byte_order.as_str());
            m.append(quoted.as_str());
            m.append(", expected little");
            return Err(m);
        }
        if !text::str_eq(manifest.dtype.as_str(), "f32") {
            m.append(": dtype is ");
            let quoted: String = text::quoted(manifest.dtype.as_str());
            m.append(quoted.as_str());
            m.append(", expected f32");
            return Err(m);
        }
        let ghost tensors = manifest.tensors@;
        let ghost all = entry_names(tensors);
        let mut index: NameMap<usize> = NameMap::new();
        let mut i: usize = 0;
        assert(all.take(0) =~= Seq::empty());
        while i < manifest.tensors.len()
            invariant
                i <= manifest.tensors.len(),
                tensors == manifest.tensors@,
                all == entry_names(tensors),
                index.wf(),
                m@ == root@,
                manifest.schema@ == "qwen35-golden-v1"@,
                manifest.byte_order@ == "little"@,
                manifest.dtype@ == "f32"@,
                forall|k: int|
                    0 <= k < i ==> index@.contains_key((#[trigger] tensors[k]).name@)
                        && index@[tensors[k].name@] == k,
                forall|name: Seq<char>| #[trigger]
                    index@.contains_key(name) ==> index@[name] < i && tensors[index@[name] as int].name@
                        == name,
                first_repeat(all.take(i as int)) is None,
            decreases manifest.tensors.len() - i,
        {
            let name: String = manifest.tensors[i].name.clone();
            proof {
                let next = all.take(i as int + 1);
                assert(next.drop_last() =~= all.take(i as int));
                assert(next.last() == name@);
            }
            if index.contains(name.as_str()) {
                proof {
                    let k = index@[name@] as int;
                    assert(all.take(i as int)[k] == name@);
                    repeat_stops(all, i as int + 1);
                }
                m.append(": duplicate tensor name ");
                m.append(name.as_str());
                return Err(m);
            }
            proof {
                if all.take(i as int).contains(name@) {
                    let k = choose|k: int| 0 <= k < i && all.take(i as int)[k] == name@;
                    assert(tensors[k].name@ == name@);
                }
            }
            index.insert(name, i);
            i += 1;
        }
        assert(all.take(all.len() as int) =~= all);
        Ok(Bundle { root: root.to_owned(), manifest, index })
    }

    /// The tensor of a name.
    pub fn entry(&self, name: &str) -> (r: Option<&TensorEntry>)
        requires
            self.wf(),
        ensures
            match self.number(name@) {
                Some(i) => r == Some(&self.manifest.tensors@[i as int]),
                None => r is None,
            },
    {
        match self.index.get(name) {
            Some(i) => Some(&self.manifest.tensors[*i]),
            None => None,
        }
    }

    /// The names of all tensors, in their order.
    pub fn names(&self) -> (r: Vec<String>)
        requires
            self.wf(),
        ensures
            names::ascending_names(r@),
            forall|name: Seq<char>|
                text::views(r@).contains(name) <==> #[trigger] self.index@.contains_key(name),
    {
        let entries: &Vec<(String, usize)> = &self.index.entries;
        let mut out: Vec<String> = Vec::new();
        let mut i: usize = 0;
        while i < entries.len()
            invariant
                i <= entries.len(),
                out.len() == i,
                forall|k: int| 0 <= k < i ==> (#[trigger] out@[k])@ == entries@[k].0@,
            decreases entries.len() - i,
        {
            out.push(entries[i].0.clone());
            i += 1;
        }
        proof {
            assert forall|name: Seq<char>|
                text::views(out@).contains(name) <==> #[trigger] self.index@.contains_key(name) by {
                if text::views(out@).contains(name) {
                    let k = choose|k: int| 0 <= k < out@.len() && text::views(out@)[k] == name;
                    names::pair_in_map(entries@, k);
                }
                if self.index@.contains_key(name) {
                    let k = choose|k: int| names::names_at(entries@, name, k);
                    assert(text::views(out@)[k] == name);
                }
            }
        }
        out
    }

    /// Decodes what was read of a tensor's file, provided that it is as long as the
    /// manifest says.
    pub fn decode_entry(&self, e: &TensorEntry, path: &str, raw: &[u8]) -> (r: Result<
        Vec<u32>,
        String,
    >)
        ensures
            if raw@.len() == e.nbytes {
                r is Ok && r->Ok_0@ == decoded(raw@)
            } else {
                r is Err && r->Err_0@ == path@ + ": "@ + text::decimal(raw@.len())
                    + " bytes on disk, manifest says "@ + text::decimal(e.nbytes as nat)
            },
    {
        if raw.len() as u64 != e.nbytes {
            let mut m: String = path.to_owned();
            m.append(": ");
            text::push_decimal(&mut m, raw.len() as u64);
            m.append(" bytes on disk, manifest says ");
            text::push_decimal(&mut m, e.nbytes);
            return Err(m);
        }
        Ok(decode(raw))
    }

    /// The first `limit` names that contain a text.
    pub fn suggestions(&self, needle: &str, limit: usize) -> (r: Vec<String>)
        ensures
            text::views(r@) == first_containing(
                Seq::new(self.index.entries@.len(), |i: int| self.index.entries@[i].0@),
                needle@,
                limit as nat,
            ),
    {
        let entries: &Vec<(String, usize)> = &self.index.entries;
        let ghost all = Seq::new(entries@.len(), |i: int| entries@[i].0@);
        let mut out: Vec<String> = Vec::new();
        let mut i: usize = 0;
        assert(all.take(0) =~= Seq::empty());
        assert(text::views(out@) =~= Seq::empty());
        while i < entries.len()
            invariant
                i <= entries.len(),
                all == Seq::new(entries@.len(), |k: int| entries@[k].0@),
                text::views(out@) == first_containing(all.take(i as int), needle@, limit as nat),
            decreases entries.len() - i,
        {
            proof {
                let next = all.take(i as int + 1);
                assert(next.drop_last() =~= all.take(i as int));
                assert(next.last() == entries@[i as int].0@);
                assert(text::views(out@).len() == out@.len());
            }
            if out.len() < limit && text::str_contains(entries[i].0.as_str(), needle) {
                let ghost before = text::views(out@);
                out.push(entries[i].0.clone());
                assert(text::views(out@) =~= before.push(entries@[i as int].0@));
            }
            i += 1;
        }
        assert(all.take(all.len() as int) =~= all);
        out
    }
}

/// The first `limit` names that contain a text, in their order.
pub open spec fn first_containing(
    names: Seq<Seq<char>>,
    needle: Seq<char>,
    limit: nat,
) -> Seq<Seq<char>>
    decreases names.len(),
{
    if names.len() == 0 {
        Seq::empty()
    } else {
        let before = first_containing(names.drop_last(), needle, limit);
        if before.len() < limit && text::contains_text(names.last(), needle) {
            before.push(names.last())
        } else {
            before
        }
    }
}

/// The numbers whose little-endian bytes these are; bytes short of a number at the
/// end do not count.
pub open spec fn decoded(raw: Seq<u8>) -> Seq<u32> {
    Seq::new(raw.len() / 4, |i: int| bytes::le_value(raw.subrange(i * 4, i * 4 + 4)) as u32)
}

/// The numbers whose little-endian bytes these are.
pub fn decode(raw: &[u8]) -> (r: Vec<u32>)
    ensures
        r@ == decoded(raw@),
{
    let n: usize = raw.len() / 4;
    let mut out: Vec<u32> = Vec::new();
    let mut i: usize = 0;
    while i < n
        invariant
            i <= n,
            n == raw.len() / 4,
            out@ == decoded(raw@).take(i as int),
        decreases n - i,
    {
        out.push(bytes::read_u32(raw, i * 4));
        assert(out@ =~= decoded(raw@).take(i as int + 1));
        i += 1;
    }
    assert(out@ =~= decoded(raw@));
    out
}

/// The little-endian bytes of the numbers, one after another.
pub open spec fn encoded(data: Seq<u32>) -> Seq<u8>
    decreases data.len(),
{
    if data.len() == 0 {
        Seq::empty()
    } else {
        encoded(data.drop_last()) + bytes::le_bytes(data.last() as nat, 4)
    }
}

/// The little-endian bytes of the numbers.
pub fn encode(data: &[u32]) -> (r: Vec<u8>)
    ensures
        r@ == encoded(data@),
{
    let mut out: Vec<u8> = Vec::new();
    let mut i: usize = 0;
    assert(data@.take(0) =~= Seq::empty());
    while i < data.len()
        invariant
            i <= data.len(),
            out@ == encoded(data@.take(i as int)),
        decreases data.len() - i,
    {
        bytes::push_le(&mut out, data[i] as u64, 4);
        proof {
            let next = data@.take(i as int + 1);
            assert(next.drop_last() =~= data@.take(i as int));
        }
        i += 1;
    }
    assert(data@.take(data@.len() as int) =~= data@);
    out
}

/// What was written reads back.
pub proof fn encoding_reads_back(data: Seq<u32>)
    ensures
        encoded(data).len() == 4 * data.len(),
        decoded(encoded(data)) == data,
    decreases data.len(),
{
    if data.len() > 0 {
        let d = data.drop_last();
        let n = data.len() - 1;
        let last = data.last() as nat;
        encoding_reads_back(d);
        assert(bytes::byte_power(4) == 0x1_0000_0000) by {
            reveal_with_fuel(bytes::byte_power, 5);
        }
        bytes::le_bytes_read_back(last, 4);
        let whole = encoded(data);
        let part = encoded(d);
        assert forall|i: int| 0 <= i < data.len() implies decoded(whole)[i] == data[i] by {
            if i < n {
                assert(whole.subrange(i * 4, i * 4 + 4) =~= part.subrange(i * 4, i * 4 + 4));
                assert(decoded(part)[i] == d[i]);
            } else {
                assert(whole.subrange(i * 4, i * 4 + 4) =~= bytes::le_bytes(last, 4));
            }
        }
        assert(decoded(whole) =~= data);
    } else {
        assert(decoded(encoded(data)) =~= data);
    }
}

/// The file of a tensor, relative to the bundle.
pub open spec fn tensor_file(group: Seq<char>, name: Seq<char>) -> Seq<char> {
    group + "/"@ + name + ".f32"@
}

/// The file of a tensor, relative to the bundle.
pub fn relative_file(group: &str, name: &str) -> (r: String)
    ensures
        r@ == tensor_file(group@, name@),
{
    let mut s: String = group.to_owned();
    s.append("/");
    s.append(name);
    s.append(".f32");
    s
}

/// How one tensor differs between two bundles.
pub struct TensorDiff {
    pub name: String,
    pub shape: Vec<u64>,
    pub max_abs: u32,
    pub max_abs_index: usize,
    pub golden_at_max: u32,
    pub candidate_at_max: u32,
    pub golden_scale: u32,
    /// Whether the relative error is `max_abs / golden_scale`; else it is infinite.
    pub has_quotient: bool,
}

/// The bits of the absolute value.
pub open spec fn magnitude(x: u32) -> u32 {
    (x as int % 0x8000_0000) as u32
}

/// The first index at which one of the two numbers is not finite.
pub open spec fn first_infinite(golden: Seq<u32>, cand: Seq<u32>) -> Option<int>
    decreases golden.len(),
{
    if golden.len() == 0 {
        None
    } else {
        match first_infinite(golden.drop_last(), cand.drop_last()) {
            Some(i) => Some(i),
            None => if !float_bits::is_finite_bits(golden.last()) || !float_bits::is_finite_bits(
                cand.last(),
            ) {
                Some(golden.len() - 1)
            } else {
                None
            },
        }
    }
}

proof fn infinite_stops(golden: Seq<u32>, cand: Seq<u32>, n: int)
    requires
        0 <= n <= golden.len(),
        golden.len() == cand.len(),
        first_infinite(golden.take(n), cand.take(n)) is Some,
    ensures
        first_infinite(golden, cand) == first_infinite(golden.take(n), cand.take(n)),
    decreases golden.len(),
{
    if n < golden.len() {
        assert(golden.drop_last().take(n) =~= golden.take(n));
        assert(cand.drop_last().take(n) =~= cand.take(n));
        infinite_stops(golden.drop_last(), cand.drop_last(), n);
    } else {
        assert(golden.take(n) =~= golden);
        assert(cand.take(n) =~= cand);
    }
}

/// The largest magnitude, or zero.
pub open spec fn scale_of(golden: Seq<u32>) -> u32
    decreases golden.len(),
{
    if golden.len() == 0 {
        0
    } else {
        let before = scale_of(golden.drop_last());
        let last = magnitude(golden.last());
        if last > before {
            last
        } else {
            before
        }
    }
}

/// The largest delta and the index where it first occurs; zero at index zero when
/// there is no larger one.
pub open spec fn worst_of(deltas: Seq<u32>) -> (u32, int)
    decreases deltas.len(),
{
    if deltas.len() == 0 {
        (0, 0)
    } else {
        let before = worst_of(deltas.drop_last());
        if deltas.last() > before.0 {
            (deltas.last(), deltas.len() - 1)
        } else {
            before
        }
    }
}

/// How a tensor differs; `deltas` are the absolute differences of its numbers. One
/// that is the same bit for bit differs nowhere, whatever numbers it holds.
pub open spec fn diff_result(golden: Seq<u32>, cand: Seq<u32>, deltas: Seq<u32>) -> Option<
    (u32, int, u32, u32, u32, bool),
> {
    if golden.len() != cand.len() {
        Some((INFINITY, 0, NOT_A_NUMBER, NOT_A_NUMBER, 0, false))
    } else if golden == cand {
        None
    } else {
        match first_infinite(golden, cand) {
            Some(i) => Some((INFINITY, i, golden[i], cand[i], 0, false)),
            None => {
                let (worst, at) = worst_of(deltas);
                if worst == 0 {
                    None
                } else {
                    Some(
                        (
                            worst,
                            at,
                            golden[at],
                            cand[at],
                            scale_of(golden),
                            scale_of(golden) > 0,
                        ),
                    )
                }
            },
        }
    }
}

impl TensorDiff {
    pub open spec fn parts(&self) -> (u32, int, u32, u32, u32, bool) {
        (
            self.max_abs,
            self.max_abs_index as int,
            self.golden_at_max,
            self.candidate_at_max,
            self.golden_scale,
            self.has_quotient,
        )
    }
}

proof fn worst_is_inside(deltas: Seq<u32>)
    ensures
        worst_of(deltas).1 >= 0,
        deltas.len() > 0 ==> worst_of(deltas).1 < deltas.len(),
        worst_of(deltas).0 > 0 ==> deltas.len() > 0 && deltas[worst_of(deltas).1] == worst_of(
            deltas,
        ).0,
        forall|i: int| 0 <= i < deltas.len() ==> #[trigger] deltas[i] <= worst_of(deltas).0,
    decreases deltas.len(),
{
    if deltas.len() > 0 {
        let d = deltas.drop_last();
        worst_is_inside(d);
        assert forall|i: int| 0 <= i < deltas.len() implies #[trigger] deltas[i] <= worst_of(
            deltas,
        ).0 by {
            if i < d.len() {
                assert(d[i] == deltas[i]);
            }
        }
        if worst_of(d).0 > 0 && worst_of(deltas) == worst_of(d) {
            assert(d[worst_of(d).1] == deltas[worst_of(d).1]);
        }
    }
}

/// Whether two tensors agree bit for bit.
fn same_bits(a: &[u32], b: &[u32]) -> (r: bool)
    ensures
        r == (a@ == b@),
{
    if a.len() != b.len() {
        return false;
    }
    let mut i: usize = 0;
    while i < a.len()
        invariant
            i <= a.len(),
            a@.len() == b@.len(),
            forall|k: int| 0 <= k < i ==> a@[k] == b@[k],
        decreases a.len() - i,
    {
        if a[i] != b[i] {
            return false;
        }
        i += 1;
    }
    assert(a@ =~= b@);
    true
}

/// Compares one tensor. `deltas` are the absolute differences of the numbers, where
/// all are finite. Nothing is reported when the two agree bit for bit, nor when all
/// are finite and all differences are zero.
pub fn diff(name: &str, shape: &[u64], golden: &[u32], cand: &[u32], deltas: &[u32]) -> (r: Option<
    TensorDiff,
>)
    requires
        golden@.len() == cand@.len() ==> deltas@.len() == golden@.len(),
    ensures
        match diff_result(golden@, cand@, deltas@) {
            None => r is None,
            Some(parts) => r is Some && r->Some_0.parts() == parts && r->Some_0.name@ == name@
                && r->Some_0.shape@ == shape@,
        },
        golden@ == cand@ ==> r is None,
{
    if golden.len() != cand.len() {
        return Some(
            TensorDiff {
                name: name.to_owned(),
                shape: vstd::slice::slice_to_vec(shape),
                max_abs: INFINITY,
                max_abs_index: 0,
                golden_at_max: NOT_A_NUMBER,
                candidate_at_max: NOT_A_NUMBER,
                golden_scale: 0,
                has_quotient: false,
            },
        );
    }
    if same_bits(golden, cand) {
        return None;
    }
    let mut worst: u32 = 0;
    let mut worst_at: usize = 0;
    let mut scale: u32 = 0;
    let mut i: usize = 0;
    assert(golden@.take(0) =~= Seq::empty());
    assert(deltas@.take(0) =~= Seq::empty());
    while i < golden.len()
        invariant
            i <= golden.len(),
            golden@.len() == cand@.len(),
            golden@ != cand@,
            deltas@.len() == golden@.len(),
            first_infinite(golden@.take(i as int), cand@.take(i as int)) is None,
            worst_of(deltas@.take(i as int)) == (worst, worst_at as int),
            scale == scale_of(golden@.take(i as int)),
        decreases golden.len() - i,
    {
        let g: u32 = golden[i];
        let c: u32 = cand[i];
        proof {
            let n = i as int + 1;
            assert(golden@.take(n).drop_last() =~= golden@.take(i as int));
            assert(cand@.take(n).drop_last() =~= cand@.take(i as int));
            assert(deltas@.take(n).drop_last() =~= deltas@.take(i as int));
        }
        if !float_bits::is_finite(g) || !float_bits::is_finite(c) {
            proof {
                infinite_stops(golden@, cand@, i as int + 1);
            }
            return Some(
                TensorDiff {
                    name: name.to_owned(),
                    shape: vstd::slice::slice_to_vec(shape),
                    max_abs: INFINITY,
                    max_abs_index: i,
                    golden_at_max: g,
                    candidate_at_max: c,
                    golden_scale: 0,
                    has_quotient: false,
                },
            );
        }
        if deltas[i] > worst {
            worst = deltas[i];
            worst_at = i;
        }
        let m: u32 = g % 0x8000_0000;
        if m > scale {
            scale = m;
        }
        i += 1;
    }
    assert(golden@.take(golden@.len() as int) =~= golden@);
    assert(cand@.take(cand@.len() as int) =~= cand@);
    assert(deltas@.take(deltas@.len() as int) =~= deltas@);
    if worst == 0 {
        return None;
    }
    proof {
        worst_is_inside(deltas@);
    }
    Some(
        TensorDiff {
            name: name.to_owned(),
            shape: vstd::slice::slice_to_vec(shape),
            max_abs: worst,
            max_abs_index: worst_at,
            golden_at_max: golden[worst_at],
            candidate_at_max: cand[worst_at],
            golden_scale: scale,
            has_quotient: scale > 0,
        },
    )
}

/// Both numbers at the index are finite.
pub open spec fn finite_at(golden: Seq<u32>, cand: Seq<u32>, i: int) -> bool {
    float_bits::is_finite_bits(golden[i]) && float_bits::is_finite_bits(cand[i])
}

/// The place that is found is the first at which not both numbers are finite; there
/// is none if all are.
pub proof fn first_infinite_is_first(golden: Seq<u32>, cand: Seq<u32>)
    requires
        golden.len() == cand.len(),
    ensures
        match first_infinite(golden, cand) {
            Some(i) => 0 <= i < golden.len() && !finite_at(golden, cand, i) && forall|k: int|
                0 <= k < i ==> #[trigger] finite_at(golden, cand, k),
            None => forall|k: int|
                0 <= k < golden.len() ==> #[trigger] finite_at(golden, cand, k),
        },
    decreases golden.len(),
{
    if golden.len() > 0 {
        let g = golden.drop_last();
        let c = cand.drop_last();
        let last = golden.len() - 1;
        first_infinite_is_first(g, c);
        assert(golden.last() == golden[last] && cand.last() == cand[last]);
        assert forall|k: int| 0 <= k < g.len() implies finite_at(g, c, k) == #[trigger] finite_at(
            golden,
            cand,
            k,
        ) by {
            assert(g[k] == golden[k] && c[k] == cand[k]);
        }
        match first_infinite(g, c) {
            Some(i) => {
                assert(finite_at(golden, cand, i) == finite_at(g, c, i));
            },
            None => {},
        }
    }
}

/// Tensors are reported as agreeing exactly if they are the same bit for bit, or as
/// long as each other and all of finite numbers with no difference anywhere.
pub proof fn comparing_finds_exactly_the_differences(
    golden: Seq<u32>,
    cand: Seq<u32>,
    deltas: Seq<u32>,
)
    requires
        golden.len() == cand.len() ==> deltas.len() == golden.len(),
    ensures
        diff_result(golden, cand, deltas) is None <==> golden == cand || {
            &&& golden.len() == cand.len()
            &&& forall|i: int| 0 <= i < golden.len() ==> #[trigger] finite_at(golden, cand, i)
            &&& forall|i: int| 0 <= i < deltas.len() ==> #[trigger] deltas[i] == 0
        },
{
    if golden.len() == cand.len() {
        first_infinite_is_first(golden, cand);
        worst_is_inside(deltas);
        if worst_of(deltas).0 > 0 {
            assert(deltas[worst_of(deltas).1] != 0);
        }
    }
}

/// The name of the logits of a greedy step: the number of the step has at least two
/// digits.
pub open spec fn step_logits(step: nat) -> Seq<char> {
    if step < 10 {
        "greedy_step0"@ + text::decimal(step) + "__logits"@
    } else {
        "greedy_step"@ + text::decimal(step) + "__logits"@
    }
}

/// The name of the logits of a greedy step.
pub fn step_logits_name(step: u64) -> (r: String)
    ensures
        r@ == step_logits(step as nat),
{
    let mut s: String = if step < 10 {
        "greedy_step0".to_owned()
    } else {
        "greedy_step".to_owned()
    };
    text::push_decimal(&mut s, step);
    s.append("__logits");
    s
}

/// The steps at which the recorded token is not the most likely one of the step's
/// own logits: the number of the step, the recorded token, the most likely one.
pub open spec fn inconsistent(
    recorded: Seq<u32>,
    logits: Seq<Option<Seq<u32>>>,
) -> Seq<(int, u32, int)>
    decreases recorded.len(),
{
    if recorded.len() == 0 {
        Seq::empty()
    } else {
        let before = inconsistent(recorded.drop_last(), logits.drop_last());
        match logits.last() {
            Some(l) => if l.len() > 0 && model::largest(l) != recorded.last() {
                before.push((recorded.len() - 1, recorded.last(), model::largest(l)))
            } else {
                before
            },
            None => before,
        }
    }
}

pub open spec fn recorded_tokens(s: Seq<GreedyStep>) -> Seq<u32> {
    Seq::new(s.len(), |i: int| s[i].argmax_token)
}

pub open spec fn logit_views(s: Seq<Option<Vec<u32>>>) -> Seq<Option<Seq<u32>>> {
    Seq::new(
        s.len(),
        |i: int|
            match s[i] {
                Some(v) => Some(v@),
                None => None,
            },
    )
}

pub open spec fn finding_views(s: Seq<(usize, u32, u32)>) -> Seq<(int, u32, int)> {
    Seq::new(s.len(), |i: int| (s[i].0 as int, s[i].1, s[i].2 as int))
}

/// Finds the steps whose recorded token is not the most likely one of the step's
/// own logits. Steps without logits are passed over.
pub fn check_token_selfconsistency(steps: &[GreedyStep], logits: &[Option<Vec<u32>>]) -> (r: Vec<
    (usize, u32, u32),
>)
    requires
        steps@.len() == logits@.len(),
        forall|i: int|
            0 <= i < logits@.len() ==> (#[trigger] logits@[i] matches Some(v) ==> v@.len()
                <= u32::MAX),
    ensures
        finding_views(r@) == inconsistent(recorded_tokens(steps@), logit_views(logits@)),
{
    let ghost recorded = recorded_tokens(steps@);
    let ghost all = logit_views(logits@);
    let mut bad: Vec<(usize, u32, u32)> = Vec::new();
    let mut i: usize = 0;
    assert(recorded.take(0) =~= Seq::empty());
    assert(finding_views(bad@) =~= Seq::empty());
    while i < steps.len()
        invariant
            i <= steps.len(),
            steps@.len() == logits@.len(),
            forall|k: int|
                0 <= k < logits@.len() ==> (#[trigger] logits@[k] matches Some(v) ==> v@.len()
                    <= u32::MAX),
            recorded == recorded_tokens(steps@),
            all == logit_views(logits@),
            finding_views(bad@) == inconsistent(recorded.take(i as int), all.take(i as int)),
        decreases steps.len() - i,
    {
        proof {
            let n = i as int + 1;
            assert(recorded.take(n).drop_last() =~= recorded.take(i as int));
            assert(all.take(n).drop_last() =~= all.take(i as int));
            assert(all.take(n).last() == all[i as int]);
        }
        match &logits[i] {
            Some(l) => {
                if l.len() > 0 {
                    let best: usize = model::argmax_last(l.as_slice());
                    let token: u32 = steps[i].argmax_token;
                    if best as u32 != token {
                        let ghost before = finding_views(bad@);
                        bad.push((i, token, best as u32));
                        assert(finding_views(bad@) =~= before.push(
                            (i as int, token, best as int),
                        ));
                    }
                }
            },
            None => {},
        }
        i += 1;
    }
    assert(recorded.take(recorded.len() as int) =~= recorded);
    assert(all.take(all.len() as int) =~= all);
    bad
}

/// The first place at which two token sequences part.
pub open spec fn divergence(g: Seq<u32>, c: Seq<u32>) -> Option<int>
    decreases g.len(),
{
    if g.len() == 0 && c.len() == 0 {
        None
    } else if g.len() == 0 || c.len() == 0 || g[0] != c[0] {
        Some(0)
    } else {
        match divergence(g.subrange(1, g.len() as int), c.subrange(1, c.len() as int)) {
            Some(i) => Some(i + 1),
            None => None,
        }
    }
}

/// Token sequences part nowhere exactly when they are the same; else they agree up
/// to the place where they part.
pub proof fn divergence_is_the_first_difference(g: Seq<u32>, c: Seq<u32>)
    ensures
        match divergence(g, c) {
            None => g == c,
            Some(i) => {
                &&& 0 <= i <= g.len()
                &&& i <= c.len()
                &&& g.take(i) == c.take(i)
                &&& (i == g.len() || i == c.len() || g[i] != c[i])
                &&& g != c
            },
        },
    decreases g.len(),
{
    if g.len() == 0 || c.len() == 0 || g[0] != c[0] {
        assert(g.take(0) =~= c.take(0));
        if g.len() == 0 && c.len() == 0 {
            assert(g =~= c);
        }
    } else {
        let g1 = g.subrange(1, g.len() as int);
        let c1 = c.subrange(1, c.len() as int);
        divergence_is_the_first_difference(g1, c1);
        assert(g =~= seq![g[0]] + g1);
        assert(c =~= seq![c[0]] + c1);
        match divergence(g1, c1) {
            None => {},
            Some(i) => {
                assert(g.take(i + 1) =~= seq![g[0]] + g1.take(i));
                assert(c.take(i + 1) =~= seq![c[0]] + c1.take(i));
                if g == c {
                    assert(g1 == c1);
                }
            },
        }
    }
}

/// The first place at which two token sequences part.
pub fn first_divergence(g: &[u32], c: &[u32]) -> (r: Option<usize>)
    ensures
        divergence(g@, c@) == match r {
            Some(i) => Some(i as int),
            None => None,
        },
{
    let mut i: usize = 0;
    assert(g@.subrange(0, g@.len() as int) =~= g@);
    assert(c@.subrange(0, c@.len() as int) =~= c@);
    while i < g.len() && i < c.len()
        invariant
            i <= g.len(),
            i <= c.len(),
            divergence(g@, c@) == match divergence(
                g@.subrange(i as int, g@.len() as int),
                c@.subrange(i as int, c@.len() as int),
            ) {
                Some(k) => Some(k + i),
                None => None,
            },
        decreases g.len() - i,
    {
        let ghost g1 = g@.subrange(i as int, g@.len() as int);
        let ghost c1 = c@.subrange(i as int, c@.len() as int);
        assert(g1[0] == g[i as int] && c1[0] == c[i as int]);
        if g[i] != c[i] {
            return Some(i);
        }
        assert(g1.subrange(1, g1.len() as int) =~= g@.subrange(i as int + 1, g@.len() as int));
        assert(c1.subrange(1, c1.len() as int) =~= c@.subrange(i as int + 1, c@.len() as int));
        i += 1;
    }
    if g.len() != c.len() {
        Some(i)
    } else {
        None
    }
}

/// How the tokens of two bundles differ.
pub struct TokenDiff {
    pub first_divergence: Option<usize>,
    pub golden_ids: Vec<u32>,
    pub candidate_ids: Vec<u32>,
}

/// Compares the tokens that two bundles record.
pub fn diff_tokens(golden: &Manifest, cand: &Manifest) -> (r: TokenDiff)
    ensures
        r.golden_ids@ == golden.greedy.final_ids@,
        r.candidate_ids@ == cand.greedy.final_ids@,
        divergence(golden.greedy.final_ids@, cand.greedy.final_ids@) == match r.first_divergence {
            Some(i) => Some(i as int),
            None => None,
        },
{
    let g: &[u32] = golden.greedy.final_ids.as_slice();
    let c: &[u32] = cand.greedy.final_ids.as_slice();
    TokenDiff {
        first_divergence: first_divergence(g, c),
        golden_ids: vstd::slice::slice_to_vec(g),
        candidate_ids: vstd::slice::slice_to_vec(c),
    }
}

proof fn scale_is_the_largest_magnitude(golden: Seq<u32>)
    ensures
        forall|i: int| 0 <= i < golden.len() ==> (#[trigger] golden[i]) % 0x8000_0000 <= scale_of(golden),
        scale_of(golden) == 0 || exists|i: int|
            0 <= i < golden.len() && (#[trigger] golden[i]) % 0x8000_0000 == scale_of(golden),
    decreases golden.len(),
{
    if golden.len() > 0 {
        let d = golden.drop_last();
        scale_is_the_largest_magnitude(d);
        assert(golden[golden.len() - 1] == golden.last());
        assert forall|i: int| 0 <= i < golden.len() implies (#[trigger] golden[i]) % 0x8000_0000
            <= scale_of(golden) by {
            if i < d.len() {
                assert(d[i] == golden[i]);
            }
        }
        if scale_of(golden) == scale_of(d) && scale_of(d) != 0 {
            let i = choose|i: int|
                0 <= i < d.len() && (#[trigger] d[i]) % 0x8000_0000 == scale_of(d);
            assert(golden[i] == d[i]);
        }
    }
}

proof fn worst_is_the_first(deltas: Seq<u32>)
    ensures
        forall|i: int| 0 <= i < worst_of(deltas).1 ==> (#[trigger] deltas[i]) < worst_of(deltas).0,
    decreases deltas.len(),
{
    if deltas.len() > 0 {
        let d = deltas.drop_last();
        worst_is_the_first(d);
        worst_is_inside(d);
        assert forall|i: int| 0 <= i < worst_of(deltas).1 implies (#[trigger] deltas[i]) < worst_of(
            deltas,
        ).0 by {
            assert(d[i] == deltas[i]);
        }
    }
}

/// What is reported of tensors of finite numbers that differ: the largest of the
/// differences and the first place where it occurs, what the golden tensor and what the
/// candidate has there, and as the scale the largest magnitude of the golden tensor,
/// whatever the candidate holds. There is a quotient unless the golden tensor is zero
/// throughout.
pub proof fn difference_is_the_largest_relative_to_golden(
    golden: Seq<u32>,
    cand: Seq<u32>,
    deltas: Seq<u32>,
)
    requires
        golden.len() == cand.len() == deltas.len(),
        forall|i: int| 0 <= i < golden.len() ==> #[trigger] finite_at(golden, cand, i),
    ensures
        diff_result(golden, cand, deltas) matches Some((max, at, g, c, scale, quotient)) ==> {
            &&& 0 <= at < deltas.len()
            &&& max == deltas[at] && max > 0
            &&& forall|i: int| 0 <= i < deltas.len() ==> #[trigger] deltas[i] <= max
            &&& forall|i: int| 0 <= i < at ==> #[trigger] deltas[i] < max
            &&& g == golden[at]
            &&& c == cand[at]
            &&& forall|i: int| 0 <= i < golden.len() ==> (#[trigger] golden[i]) % 0x8000_0000 <= scale
            &&& exists|i: int|
                0 <= i < golden.len() && (#[trigger] golden[i]) % 0x8000_0000 == scale
            &&& quotient <==> exists|i: int|
                0 <= i < golden.len() && (#[trigger] golden[i]) % 0x8000_0000 != 0
        },
{
    first_infinite_is_first(golden, cand);
    worst_is_inside(deltas);
    worst_is_the_first(deltas);
    scale_is_the_largest_magnitude(golden);
    match diff_result(golden, cand, deltas) {
        Some((max, at, g, c, scale, quotient)) => {
            assert(first_infinite(golden, cand) is None) by {
                match first_infinite(golden, cand) {
                    Some(i) => {
                        assert(finite_at(golden, cand, i));
                    },
                    None => {},
                }
            }
            if scale == 0 {
                assert(golden[at] % 0x8000_0000 == scale);
            } else {
                let i = choose|i: int|
                    0 <= i < golden.len() && (#[trigger] golden[i]) % 0x8000_0000 == scale;
                assert(golden[i] % 0x8000_0000 != 0);
            }
        },
        None => {},
    }
}

/// What is reported of tensors that cannot be subtracted: an infinite difference, at the
/// first place where a number is not finite, with the two numbers there; or at the front
/// if the tensors are not as long as each other. Neither has a scale.
pub proof fn infinite_difference_is_at_the_first_infinity(
    golden: Seq<u32>,
    cand: Seq<u32>,
    deltas: Seq<u32>,
)
    requires
        golden.len() == cand.len() ==> golden != cand && exists|i: int|
            0 <= i < golden.len() && !#[trigger] finite_at(golden, cand, i),
    ensures
        diff_result(golden, cand, deltas) matches Some((max, at, g, c, scale, quotient)) && {
            &&& max == 0x7F80_0000 && scale == 0 && !quotient
            &&& golden.len() != cand.len() ==> at == 0 && float_bits::is_nan_bits(g)
                && float_bits::is_nan_bits(c)
            &&& golden.len() == cand.len() ==> {
                &&& 0 <= at < golden.len()
                &&& g == golden[at] && c == cand[at]
                &&& !finite_at(golden, cand, at)
                &&& forall|i: int| 0 <= i < at ==> #[trigger] finite_at(golden, cand, i)
            }
        },
{
    if golden.len() == cand.len() {
        first_infinite_is_first(golden, cand);
    }
}

/// Four bytes are a number, the first of them the least: the numbers of a file stand one
/// after another.
pub proof fn numbers_stand_in_their_order(raw: Seq<u8>, i: int)
    requires
        0 <= i < raw.len() / 4,
    ensures
        decoded(raw).len() == raw.len() / 4,
        decoded(raw)[i] == raw[4 * i] + 0x100 * raw[4 * i + 1] + 0x1_0000 * raw[4 * i + 2]
            + 0x100_0000 * raw[4 * i + 3],
{
    let s = raw.subrange(i * 4, i * 4 + 4);
    assert(s[0] == raw[4 * i] && s[1] == raw[4 * i + 1] && s[2] == raw[4 * i + 2] && s[3] == raw[4
        * i + 3]);
    reveal_with_fuel(bytes::le_value, 5);
    let t = s.subrange(1, 4);
    let u = t.subrange(1, 3);
    let v = u.subrange(1, 2);
    assert(t[0] == s[1] && u[0] == s[2] && v[0] == s[3]);
    assert(v.subrange(1, 1).len() == 0);
}

/// A name is reported as a repeat exactly if it is the name of two tensors, and of those
/// whose second tensor comes first.
pub proof fn repeat_is_the_first(names: Seq<Seq<char>>)
    ensures
        match first_repeat(names) {
            Some(name) => exists|i: int, j: int|
                0 <= i < j < names.len() && #[trigger] names[i] == name && #[trigger] names[j]
                    == name && names.take(j).no_duplicates(),
            None => names.no_duplicates(),
        },
    decreases names.len(),
{
    if names.len() > 0 {
        let d = names.drop_last();
        let n = names.len() - 1;
        repeat_is_the_first(d);
        assert(names[n] == names.last());
        match first_repeat(d) {
            Some(name) => {
                let (i, j) = choose|i: int, j: int|
                    0 <= i < j < d.len() && #[trigger] d[i] == name && #[trigger] d[j] == name
                        && d.take(j).no_duplicates();
                assert(names[i] == name && names[j] == name);
                assert(names.take(j) =~= d.take(j));
            },
            None => {
                if d.contains(names.last()) {
                    let i = choose|i: int| 0 <= i < d.len() && d[i] == names.last();
                    assert(names[i] == names[n]);
                    assert(names.take(n) =~= d);
                } else {
                    assert forall|a: int, b: int|
                        0 <= a < names.len() && 0 <= b < names.len() && a != b implies names[a]
                        != names[b] by {
                        if a < n && b < n {
                            assert(d[a] != d[b]);
                        } else if a < n {
                            assert(d.contains(d[a]));
                        } else {
                            assert(d.contains(d[b]));
                        }
                    }
                }
            },
        }
    }
}

/// The names that are suggested are the names that contain the text, in their order, and
/// of more than `limit` the first.
pub proof fn suggestions_are_the_first_matches(
    names: Seq<Seq<char>>,
    needle: Seq<char>,
    limit: nat,
)
    ensures
        ({
            let all = names.filter(|n: Seq<char>| text::contains_text(n, needle));
            first_containing(names, needle, limit) == all.take(
                if limit < all.len() {
                    limit as int
                } else {
                    all.len() as int
                },
            )
        }),
    decreases names.len(),
{
    let f = |n: Seq<char>| text::contains_text(n, needle);
    reveal(Seq::filter);
    let all = names.filter(f);
    if names.len() > 0 {
        let d = names.drop_last();
        suggestions_are_the_first_matches(d, needle, limit);
        let before = d.filter(f);
        let few = first_containing(d, needle, limit);
        if f(names.last()) {
            assert(all == before.push(names.last()));
            if few.len() < limit {
                assert(few =~= before);
                assert(first_containing(names, needle, limit) =~= all.take(all.len() as int));
            } else {
                assert(few =~= all.take(limit as int));
            }
        } else {
            assert(all == before);
        }
    } else {
        assert(first_containing(names, needle, limit) =~= all.take(0));
    }
}

/// A step is found inconsistent exactly if it has logits and the recorded token is not
/// the most likely one of them; the findings say so of each step once, in their order.
pub proof fn inconsistencies_are_all_found(recorded: Seq<u32>, logits: Seq<Option<Seq<u32>>>)
    requires
        recorded.len() == logits.len(),
    ensures
        forall|n: int|
            0 <= n < inconsistent(recorded, logits).len() ==> {
                let (k, token, best) = #[trigger] inconsistent(recorded, logits)[n];
                &&& 0 <= k < recorded.len()
                &&& token == recorded[k]
                &&& logits[k] matches Some(l) && l.len() > 0 && best == model::largest(l) && best
                    != token
            },
        forall|k: int|
            #![trigger recorded[k]]
            0 <= k < recorded.len() && (logits[k] matches Some(l) && l.len() > 0 && model::largest(
                l,
            ) != recorded[k]) ==> exists|n: int|
                0 <= n < inconsistent(recorded, logits).len() && (#[trigger] inconsistent(
                    recorded,
                    logits,
                )[n]).0 == k,
        forall|m: int, n: int|
            0 <= m < n < inconsistent(recorded, logits).len() ==> (#[trigger] inconsistent(
                recorded,
                logits,
            )[m]).0 < (#[trigger] inconsistent(recorded, logits)[n]).0,
    decreases recorded.len(),
{
    if recorded.len() > 0 {
        let rd = recorded.drop_last();
        let ld = logits.drop_last();
        let last = recorded.len() - 1;
        inconsistencies_are_all_found(rd, ld);
        let before = inconsistent(rd, ld);
        let all = inconsistent(recorded, logits);
        assert(logits[last] == logits.last() && recorded[last] == recorded.last());
        assert forall|n: int| 0 <= n < all.len() implies {
            let (k, token, best) = #[trigger] all[n];
            &&& 0 <= k < recorded.len()
            &&& token == recorded[k]
            &&& logits[k] matches Some(l) && l.len() > 0 && best == model::largest(l) && best
                != token
        } by {
            if n < before.len() {
                assert(all[n] == before[n]);
                let k = before[n].0;
                assert(rd[k] == recorded[k] && ld[k] == logits[k]);
            }
        }
        assert forall|k: int|
            #![trigger recorded[k]]
            0 <= k < recorded.len() && (logits[k] matches Some(l) && l.len() > 0 && model::largest(
                l,
            ) != recorded[k]) implies exists|n: int|
            0 <= n < all.len() && (#[trigger] all[n]).0 == k by {
            if k < last {
                assert(rd[k] == recorded[k] && ld[k] == logits[k]);
                let n = choose|n: int| 0 <= n < before.len() && (#[trigger] before[n]).0 == k;
                assert(all[n] == before[n]);
            } else {
                assert(all[before.len() as int].0 == k);
            }
        }
        assert forall|m: int, n: int| 0 <= m < n < all.len() implies (#[trigger] all[m]).0 < (
        #[trigger] all[n]).0 by {
            assert(all[m] == before[m]);
            if n < before.len() {
                assert(all[n] == before[n]);
            }
        }
    }
}

/// A manifest is taken in exactly if it is of the known layout and every tensor has its
/// own name.
pub proof fn manifest_without_fault_is_known(root: Seq<char>, m: Manifest)
    ensures
        manifest_fault(root, m) is None <==> {
            &&& m.schema@ == "qwen35-golden-v1"@
            &&& m.byte_order@ == "little"@
            &&& m.dtype@ == "f32"@
            &&& forall|i: int, j: int|
                0 <= i < j < m.tensors@.len() ==> (#[trigger] m.tensors@[i]).name@ != (
                #[trigger] m.tensors@[j]).name@
        },
{
    let names = entry_names(m.tensors@);
    repeat_is_the_first(names);
    if first_repeat(names) is None {
        assert forall|i: int, j: int| 0 <= i < j < m.tensors@.len() implies (
        #[trigger] m.tensors@[i]).name@ != (#[trigger] m.tensors@[j]).name@ by {
            assert(names[i] == m.tensors@[i].name@ && names[j] == m.tensors@[j].name@);
        }
    } else {
        let name = first_repeat(names)->Some_0;
        let (i, j) = choose|i: int, j: int|
            0 <= i < j < names.len() && names[i] == name && names[j] == name;
        assert(m.tensors@[i].name@ == m.tensors@[j].name@);
    }
}

/// Different steps have logits of different names.
pub proof fn steps_have_their_own_logits(a: nat, b: nat)
    requires
        step_logits(a) == step_logits(b),
    ensures
        a == b,
{
    reveal_strlit("greedy_step0");
    reveal_strlit("greedy_step");
    let tail = "__logits"@;
    let head = "greedy_step"@;
    let pad = |n: nat|
        if n < 10 {
            seq!['0'] + text::decimal(n)
        } else {
            text::decimal(n)
        };
    assert("greedy_step0"@ =~= head + seq!['0']);
    assert(step_logits(a) =~= head + pad(a) + tail);
    assert(step_logits(b) =~= head + pad(b) + tail);
    let x = step_logits(a).subrange(head.len() as int, step_logits(a).len() - tail.len());
    assert(x =~= pad(a));
    assert(x =~= pad(b));
    padded_reads_back(a);
    padded_reads_back(b);
}

proof fn padded_reads_back(n: nat)
    ensures
        text::digits_value(seq!['0'] + text::decimal(n)) == n,
        text::digits_value(text::decimal(n)) == n,
{
    text::decimal_reads_back(n);
    text::digits_count_by_their_place(seq!['0'], text::decimal(n));
    let p = vstd::arithmetic::power::pow(10, text::decimal(n).len());
    assert(0 * p == 0);
    assert(text::digits_value(seq!['0']) * p == 0);
}

} // verus!
