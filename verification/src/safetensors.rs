//! The tensors of a checkpoint, addressable by name and decoded to single
//! precision.
//!
//! A file whose offsets, shapes and element types disagree, or whose tensors
//! reach beyond its end, is refused.
use crate::bytes;
use crate::float_bits;
use crate::header::product;
use crate::json;
use crate::json::{Json, JsonTree};
use crate::names;
use crate::names::NameMap;
use crate::text;
use vstd::prelude::*;
use vstd::string::*;

verus! {

/// The element types that are decoded.
#[derive(Debug, Clone, Copy, PartialEq, Eq, Structural)]
pub enum Dtype {
    F32,
    F16,
    Bf16,
}

pub open spec fn dtype_token(d: Dtype) -> Seq<char> {
    match d {
        Dtype::F32 => "F32"@,
        Dtype::F16 => "F16"@,
        Dtype::Bf16 => "BF16"@,
    }
}

pub open spec fn dtype_size(d: Dtype) -> u64 {
    match d {
        Dtype::F32 => 4,
        Dtype::F16 | Dtype::Bf16 => 2,
    }
}

/// The element type that a token stands for.
pub open spec fn dtype_named(s: Seq<char>) -> Option<Dtype> {
    if s == "F32"@ {
        Some(Dtype::F32)
    } else if s == "F16"@ {
        Some(Dtype::F16)
    } else if s == "BF16"@ {
        Some(Dtype::Bf16)
    } else {
        None
    }
}

/// Every element type is what its own token stands for, and no other token is.
pub proof fn token_names_its_dtype(d: Dtype, s: Seq<char>)
    ensures
        dtype_named(dtype_token(d)) == Some(d),
        dtype_named(s) == Some(d) ==> s == dtype_token(d),
{
    reveal_strlit("F32");
    reveal_strlit("F16");
    reveal_strlit("BF16");
    assert("F32"@[1] != "F16"@[1]);
    assert("F32"@[0] != "BF16"@[0]);
    assert("F16"@[0] != "BF16"@[0]);
}

/// The `i`-th element of the given bytes as the bits of a single-precision number.
pub open spec fn element(d: Dtype, raw: Seq<u8>, i: int) -> u32 {
    match d {
        Dtype::F32 => bytes::le_value(raw.subrange(i * 4, i * 4 + 4)) as u32,
        Dtype::Bf16 => float_bits::widened_brain(
            bytes::le_value(raw.subrange(i * 2, i * 2 + 2)) as u16,
        ),
        Dtype::F16 => float_bits::widened_half(
            bytes::le_value(raw.subrange(i * 2, i * 2 + 2)) as u16,
        ),
    }
}

/// All elements of the given bytes.
pub open spec fn elements(d: Dtype, raw: Seq<u8>) -> Seq<u32> {
    Seq::new(raw.len() / dtype_size(d) as nat, |i: int| element(d, raw, i))
}

impl Dtype {
    /// The element type that a token stands for.
    pub fn parse(s: &str) -> (r: Option<Dtype>)
        ensures
            r == dtype_named(s@),
    {
        if text::str_eq(s, "F32") {
            Some(Dtype::F32)
        } else if text::str_eq(s, "F16") {
            Some(Dtype::F16)
        } else if text::str_eq(s, "BF16") {
            Some(Dtype::Bf16)
        } else {
            None
        }
    }

    /// The number of bytes of one element.
    pub fn size(self) -> (r: u64)
        ensures
            r == dtype_size(self),
    {
        match self {
            Dtype::F32 => 4,
            Dtype::F16 | Dtype::Bf16 => 2,
        }
    }

    /// The token of the element type.
    pub fn as_str(self) -> (r: &'static str)
        ensures
            r@ == dtype_token(self),
    {
        match self {
            Dtype::F32 => "F32",
            Dtype::F16 => "F16",
            Dtype::Bf16 => "BF16",
        }
    }

    /// Decodes bytes into the bits of single-precision numbers. Bytes that are not
    /// a whole number of elements are refused.
    pub fn decode(self, raw: &[u8]) -> (r: Result<Vec<u32>, String>)
        ensures
            if raw.len() as int % dtype_size(self) as int == 0 {
                r is Ok && r->Ok_0@ == elements(self, raw@)
            } else {
                r is Err && r->Err_0@ == dtype_token(self) + ": "@ + text::decimal(raw@.len())
                    + " bytes is not a multiple of the "@ + text::decimal(dtype_size(self) as nat)
                    + "-byte element size"@
            },
    {
        let size: usize = self.size() as usize;
        if raw.len() % size != 0 {
            let mut m: String = self.as_str().to_owned();
            m.append(": ");
            text::push_decimal(&mut m, raw.len() as u64);
            m.append(" bytes is not a multiple of the ");
            text::push_decimal(&mut m, size as u64);
            m.append("-byte element size");
            return Err(m);
        }
        let n: usize = raw.len() / size;
        let mut out: Vec<u32> = Vec::new();
        let mut i: usize = 0;
        while i < n
            invariant
                i <= n,
                size == dtype_size(self),
                n == raw.len() / size,
                out.len() == i,
                forall|k: int| 0 <= k < i ==> out[k] == element(self, raw@, k),
            decreases n - i,
        {
            assert(i * size + size <= raw.len()) by (nonlinear_arith)
                requires
                    i < n,
                    n == raw.len() / size,
                    size > 0,
            ;
            let x: u32 = match self {
                Dtype::F32 => bytes::read_u32(raw, i * 4),
                Dtype::Bf16 => float_bits::bf16_to_f32(bytes::read_u16(raw, i * 2)),
                Dtype::F16 => float_bits::f16_to_f32(bytes::read_u16(raw, i * 2)),
            };
            out.push(x);
            i += 1;
        }
        assert(out@ =~= elements(self, raw@));
        Ok(out)
    }
}

/// One tensor's place in a file, as a mathematical value.
#[verifier::ext_equal]
pub struct EntrySpec {
    pub dtype: Dtype,
    pub shape: Seq<u64>,
    pub start: u64,
    pub end: u64,
}

/// One tensor's place in a file.
#[derive(Debug, Clone)]
pub struct Entry {
    pub dtype: Dtype,
    pub shape: Vec<u64>,
    /// Byte range in the file.
    pub start: u64,
    pub end: u64,
}

impl View for Entry {
    type V = EntrySpec;

    open spec fn view(&self) -> EntrySpec {
        EntrySpec { dtype: self.dtype, shape: self.shape@, start: self.start, end: self.end }
    }
}

impl EntrySpec {
    /// The range lies in the file after the header and is as long as the shape's
    /// elements.
    pub open spec fn fits(self, data_start: u64, file_size: u64) -> bool {
        &&& data_start <= self.start <= self.end <= file_size
        &&& self.end - self.start == product(self.shape) * dtype_size(self.dtype)
    }
}

/// Once a dimension is zero, so is every product that takes it in.
proof fn zero_product(shape: Seq<u64>, k: int)
    requires
        0 <= k < shape.len(),
        shape[k] == 0,
    ensures
        product(shape) == 0,
    decreases shape.len(),
{
    if k < shape.len() - 1 {
        zero_product(shape.drop_last(), k);
        assert(product(shape.drop_last()) * shape.last() as nat == 0) by (nonlinear_arith)
            requires
                product(shape.drop_last()) == 0,
        ;
    } else {
        assert(product(shape.drop_last()) * shape.last() as nat == 0) by (nonlinear_arith)
            requires
                shape.last() == 0,
        ;
    }
}

/// Without a zero dimension products only grow.
proof fn product_grows(shape: Seq<u64>, n: int)
    requires
        0 <= n <= shape.len(),
        forall|k: int| 0 <= k < shape.len() ==> shape[k] > 0,
    ensures
        0 < product(shape.take(n)) <= product(shape),
    decreases shape.len(),
{
    if n < shape.len() {
        let d = shape.drop_last();
        assert(d.take(n) =~= shape.take(n));
        product_grows(d, n);
        assert(shape.last() == shape[shape.len() - 1]);
        assert(product(d) * shape.last() as nat >= product(d)) by (nonlinear_arith)
            requires
                shape.last() >= 1,
        ;
    } else {
        assert(shape.take(n) =~= shape);
        if shape.len() > 0 {
            let d = shape.drop_last();
            product_grows(d, n - 1);
            assert(d.take(n - 1) =~= d);
            assert(shape.last() == shape[shape.len() - 1]);
            assert(product(d) * shape.last() as nat > 0) by (nonlinear_arith)
                requires
                    shape.last() >= 1,
                    product(d) > 0,
            ;
        }
    }
}

/// The product of the dimensions, when it fits 64 bits.
fn exact_product(shape: &[u64]) -> (r: Option<u64>)
    ensures
        match r {
            Some(n) => n == product(shape@),
            None => product(shape@) > u64::MAX,
        },
{
    let mut i: usize = 0;
    while i < shape.len()
        invariant
            i <= shape.len(),
            forall|k: int| 0 <= k < i ==> shape[k] > 0,
        decreases shape.len() - i,
    {
        if shape[i] == 0 {
            proof {
                zero_product(shape@, i as int);
            }
            return Some(0);
        }
        i += 1;
    }
    let mut n: u64 = 1;
    let mut j: usize = 0;
    assert(shape@.take(0) =~= Seq::empty());
    while j < shape.len()
        invariant
            j <= shape.len(),
            forall|k: int| 0 <= k < shape.len() ==> shape[k] > 0,
            n == product(shape@.take(j as int)),
        decreases shape.len() - j,
    {
        proof {
            let next = shape@.take(j as int + 1);
            assert(next.drop_last() =~= shape@.take(j as int));
            assert(next.last() == shape[j as int]);
            product_grows(shape@, j as int + 1);
        }
        match n.checked_mul(shape[j]) {
            Some(m) => {
                n = m;
            },
            None => {
                return None;
            },
        }
        j += 1;
    }
    assert(shape@.take(shape.len() as int) =~= shape@);
    Some(n)
}

impl Entry {
    /// The number of elements.
    pub fn numel(&self) -> (r: u64)
        requires
            product(self.shape@) <= u64::MAX,
        ensures
            r == product(self.shape@),
    {
        match exact_product(self.shape.as_slice()) {
            Some(n) => n,
            None => 0,
        }
    }
}

/// The message of a fault in the tensor `name`.
pub open spec fn tensor_message(path: Seq<char>, name: Seq<char>, rest: Seq<char>) -> Seq<char> {
    path + ": "@ + name + rest
}

fn tensor_error(path: &str, name: &str, rest: &str) -> (r: String)
    ensures
        r@ == tensor_message(path@, name@, rest@),
{
    let mut s: String = path.to_owned();
    s.append(": ");
    s.append(name);
    s.append(rest);
    s
}

/// An item that counts as a dimension; the largest number does not.
pub open spec fn is_dimension(t: JsonTree) -> bool {
    json::unsigned(t) is Some && json::unsigned(t)->Some_0 != u64::MAX
}

/// The dimensions of a shape, when every item is one.
pub open spec fn dimensions(items: Seq<JsonTree>) -> Option<Seq<u64>> {
    if forall|i: int| 0 <= i < items.len() ==> is_dimension(#[trigger] items[i]) {
        Some(Seq::new(items.len(), |i: int| json::unsigned(items[i])->Some_0))
    } else {
        None
    }
}

fn read_dimensions(items: &Vec<Json>) -> (r: Option<Vec<u64>>)
    ensures
        match r {
            Some(shape) => dimensions(json::trees(items@)) == Some(shape@),
            None => dimensions(json::trees(items@)) is None,
        },
{
    let ghost all = json::trees(items@);
    let mut shape: Vec<u64> = Vec::new();
    let mut i: usize = 0;
    while i < items.len()
        invariant
            i <= items.len(),
            all == json::trees(items@),
            shape.len() == i,
            forall|k: int|
                0 <= k < i ==> is_dimension(#[trigger] all[k]) && shape[k] == json::unsigned(
                    all[k],
                )->Some_0,
        decreases items.len() - i,
    {
        assert(all[i as int] == items[i as int].tree());
        match items[i].as_u64() {
            Some(n) => {
                if n == u64::MAX {
                    assert(!is_dimension(all[i as int]));
                    return None;
                }
                shape.push(n);
            },
            None => {
                assert(!is_dimension(all[i as int]));
                return None;
            },
        }
        i += 1;
    }
    assert(shape@ =~= Seq::new(all.len(), |k: int| json::unsigned(all[k])->Some_0));
    Some(shape)
}

/// What becomes of a tensor whose parts were all there.
pub open spec fn span_result(
    path: Seq<char>,
    name: Seq<char>,
    dtype: Dtype,
    shape: Seq<u64>,
    offsets: (u64, u64),
    data_start: u64,
    file_size: u64,
) -> Result<EntrySpec, Seq<char>> {
    let (start, end) = offsets;
    if end < start {
        Err(
            tensor_message(
                path,
                name,
                " data_offsets are reversed ("@ + text::decimal(start as nat) + " > "@
                    + text::decimal(end as nat) + ")"@,
            ),
        )
    } else if product(shape) * dtype_size(dtype) > u64::MAX {
        Err(tensor_message(path, name, " numel*size overflows"@))
    } else if product(shape) * dtype_size(dtype) != end - start {
        Err(
            tensor_message(
                path,
                name,
                " spans "@ + text::decimal((end - start) as nat) + " bytes but shape "@
                    + text::list_text(shape) + " of "@ + dtype_token(dtype) + " needs "@
                    + text::decimal((product(shape) * dtype_size(dtype)) as nat),
            ),
        )
    } else if data_start + start > u64::MAX {
        Err(tensor_message(path, name, " start overflows"@))
    } else if data_start + end > u64::MAX {
        Err(tensor_message(path, name, " end overflows"@))
    } else if data_start + end > file_size {
        Err(
            tensor_message(
                path,
                name,
                " ends at "@ + text::decimal((data_start + end) as nat) + " but the file is "@
                    + text::decimal(file_size as nat) + " bytes"@,
            ),
        )
    } else {
        Ok(
            EntrySpec {
                dtype,
                shape,
                start: (data_start + start) as u64,
                end: (data_start + end) as u64,
            },
        )
    }
}

fn check_span(
    path: &str,
    name: &str,
    dtype: Dtype,
    shape: Vec<u64>,
    offsets: (u64, u64),
    data_start: u64,
    file_size: u64,
) -> (r: Result<Entry, String>)
    ensures
        match span_result(path@, name@, dtype, shape@, offsets, data_start, file_size) {
            Ok(e) => r is Ok && r->Ok_0@ == e,
            Err(m) => r is Err && r->Err_0@ == m,
        },
{
    let (rel_start, rel_end) = offsets;
    if rel_end < rel_start {
        let mut rest: String = " data_offsets are reversed (".to_owned();
        text::push_decimal(&mut rest, rel_start);
        rest.append(" > ");
        text::push_decimal(&mut rest, rel_end);
        rest.append(")");
        return Err(tensor_error(path, name, rest.as_str()));
    }
    let span: u64 = rel_end - rel_start;
    let expected: u64 = match exact_product(shape.as_slice()) {
        None => {
            assert(product(shape@) * dtype_size(dtype) > u64::MAX) by (nonlinear_arith)
                requires
                    product(shape@) > u64::MAX,
                    dtype_size(dtype) >= 1,
            ;
            return Err(tensor_error(path, name, " numel*size overflows"));
        },
        Some(n) => match n.checked_mul(dtype.size()) {
            None => {
                return Err(tensor_error(path, name, " numel*size overflows"));
            },
            Some(expected) => expected,
        },
    };
    if span != expected {
        let mut rest: String = " spans ".to_owned();
        text::push_decimal(&mut rest, span);
        rest.append(" bytes but shape ");
        let listed: String = text::list_string(shape.as_slice());
        rest.append(listed.as_str());
        rest.append(" of ");
        rest.append(dtype.as_str());
        rest.append(" needs ");
        text::push_decimal(&mut rest, expected);
        return Err(tensor_error(path, name, rest.as_str()));
    }
    let start: u64 = match data_start.checked_add(rel_start) {
        Some(start) => start,
        None => {
            return Err(tensor_error(path, name, " start overflows"));
        },
    };
    let end: u64 = match data_start.checked_add(rel_end) {
        Some(end) => end,
        None => {
            return Err(tensor_error(path, name, " end overflows"));
        },
    };
    if end > file_size {
        let mut rest: String = " ends at ".to_owned();
        text::push_decimal(&mut rest, end);
        rest.append(" but the file is ");
        text::push_decimal(&mut rest, file_size);
        rest.append(" bytes");
        return Err(tensor_error(path, name, rest.as_str()));
    }
    Ok(Entry { dtype, shape, start, end })
}

/// What becomes of the header entry `name`.
pub open spec fn entry_result(
    path: Seq<char>,
    name: Seq<char>,
    t: JsonTree,
    data_start: u64,
    file_size: u64,
) -> Result<EntrySpec, Seq<char>> {
    match json::member_text(t, "dtype"@) {
        None => Err(tensor_message(path, name, " has no dtype"@)),
        Some(token) => match dtype_named(token) {
            None => Err(tensor_message(path, name, " has unsupported dtype "@ + token)),
            Some(dtype) => match json::member_array(t, "shape"@) {
                None => Err(tensor_message(path, name, " has no shape"@)),
                Some(items) => match dimensions(items) {
                    None => Err(tensor_message(path, name, " has a non-integer shape"@)),
                    Some(shape) => match json::member_array(t, "data_offsets"@) {
                        None => Err(tensor_message(path, name, " has no data_offsets"@)),
                        Some(offs) => if offs.len() != 2 {
                            Err(tensor_message(path, name, " data_offsets is not a pair"@))
                        } else {
                            match (json::unsigned(offs[0]), json::unsigned(offs[1])) {
                                (Some(start), Some(end)) => span_result(
                                    path,
                                    name,
                                    dtype,
                                    shape,
                                    (start, end),
                                    data_start,
                                    file_size,
                                ),
                                _ => Err(tensor_message(path, name, " bad offset"@)),
                            }
                        },
                    },
                },
            },
        },
    }
}

fn read_entry(path: &str, name: &str, v: &Json, data_start: u64, file_size: u64) -> (r: Result<
    Entry,
    String,
>)
    ensures
        match entry_result(path@, name@, v.tree(), data_start, file_size) {
            Ok(e) => r is Ok && r->Ok_0@ == e,
            Err(m) => r is Err && r->Err_0@ == m,
        },
{
    let dtype: Dtype = match v.get_str("dtype") {
        None => {
            return Err(tensor_error(path, name, " has no dtype"));
        },
        Some(token) => match Dtype::parse(token) {
            None => {
                let mut rest: String = " has unsupported dtype ".to_owned();
                rest.append(token);
                return Err(tensor_error(path, name, rest.as_str()));
            },
            Some(dtype) => dtype,
        },
    };
    let shape: Vec<u64> = match v.get_array("shape") {
        None => {
            return Err(tensor_error(path, name, " has no shape"));
        },
        Some(items) => match read_dimensions(items) {
            None => {
                return Err(tensor_error(path, name, " has a non-integer shape"));
            },
            Some(shape) => shape,
        },
    };
    match v.get_array("data_offsets") {
        None => Err(tensor_error(path, name, " has no data_offsets")),
        Some(offs) => {
            if offs.len() != 2 {
                return Err(tensor_error(path, name, " data_offsets is not a pair"));
            }
            match (offs[0].as_u64(), offs[1].as_u64()) {
                (Some(start), Some(end)) => check_span(
                    path,
                    name,
                    dtype,
                    shape,
                    (start, end),
                    data_start,
                    file_size,
                ),
                _ => Err(tensor_error(path, name, " bad offset")),
            }
        },
    }
}

/// What the members of a header come to, in their order; `__metadata__` is passed
/// over.
pub open spec fn entries_result(
    path: Seq<char>,
    members: Seq<(Seq<char>, JsonTree)>,
    data_start: u64,
    file_size: u64,
) -> Result<Seq<(Seq<char>, EntrySpec)>, Seq<char>>
    decreases members.len(),
{
    if members.len() == 0 {
        Ok(Seq::empty())
    } else {
        match entries_result(path, members.drop_last(), data_start, file_size) {
            Err(m) => Err(m),
            Ok(entries) => {
                let (name, t) = members.last();
                if name == "__metadata__"@ {
                    Ok(entries)
                } else {
                    match entry_result(path, name, t, data_start, file_size) {
                        Err(m) => Err(m),
                        Ok(e) => Ok(entries.push((name, e))),
                    }
                }
            },
        }
    }
}

proof fn entries_stop(
    path: Seq<char>,
    members: Seq<(Seq<char>, JsonTree)>,
    data_start: u64,
    file_size: u64,
    n: int,
)
    requires
        0 <= n <= members.len(),
        entries_result(path, members.take(n), data_start, file_size) is Err,
    ensures
        entries_result(path, members, data_start, file_size) == entries_result(
            path,
            members.take(n),
            data_start,
            file_size,
        ),
    decreases members.len(),
{
    if n < members.len() {
        let d = members.drop_last();
        assert(d.take(n) =~= members.take(n));
        entries_stop(path, d, data_start, file_size, n);
    } else {
        assert(members.take(n) =~= members);
    }
}

/// One file's tensors, as a mathematical value.
#[verifier::ext_equal]
pub struct ShardSpec {
    pub path: Seq<char>,
    pub file_size: u64,
    pub data_start: u64,
    pub tensors: Seq<(Seq<char>, EntrySpec)>,
}

/// One file's tensors.
pub struct Shard {
    pub path: String,
    pub file_size: u64,
    pub data_start: u64,
    pub tensors: NameMap<Entry>,
}

pub open spec fn entry_specs(s: Seq<(String, Entry)>) -> Seq<(Seq<char>, EntrySpec)> {
    Seq::new(s.len(), |i: int| (s[i].0@, s[i].1@))
}

impl View for Shard {
    type V = ShardSpec;

    open spec fn view(&self) -> ShardSpec {
        ShardSpec {
            path: self.path@,
            file_size: self.file_size,
            data_start: self.data_start,
            tensors: entry_specs(self.tensors.entries@),
        }
    }
}

impl ShardSpec {
    /// Every tensor lies in the file and is as long as its shape says.
    pub open spec fn fits(self) -> bool {
        forall|i: int|
            0 <= i < self.tensors.len() ==> (#[trigger] self.tensors[i]).1.fits(
                self.data_start,
                self.file_size,
            )
    }
}

/// What becomes of a file: `doc` is what its header parses to.
pub open spec fn document_result(
    path: Seq<char>,
    file_size: u64,
    data_start: u64,
    doc: Result<JsonTree, Seq<char>>,
) -> Result<ShardSpec, Seq<char>> {
    match doc {
        Err(message) => Err(path + ": header is not valid JSON: "@ + message),
        Ok(JsonTree::Object(members)) => match entries_result(
            path,
            members,
            data_start,
            file_size,
        ) {
            Err(m) => Err(m),
            Ok(tensors) => Ok(ShardSpec { path, file_size, data_start, tensors }),
        },
        Ok(_) => Err(path + ": header is not a JSON object"@),
    }
}

/// What becomes of a file.
pub open spec fn shard_result(path: Seq<char>, file: Seq<u8>) -> Result<ShardSpec, Seq<char>> {
    let header_len = bytes::le_value(file.take(8));
    if file.len() < 8 {
        Err(path + ": cannot read the 8-byte header length: failed to fill whole buffer"@)
    } else if 8 + header_len > u64::MAX {
        Err(path + ": header length "@ + text::decimal(header_len) + " overflows"@)
    } else if 8 + header_len > file.len() {
        Err(
            path + ": header claims "@ + text::decimal(header_len) + " bytes but the file is only "@
                + text::decimal(file.len()) + " bytes"@,
        )
    } else {
        document_result(
            path,
            file.len() as u64,
            (8 + header_len) as u64,
            json::json_document(file.subrange(8, (8 + header_len) as int)),
        )
    }
}

/// The names that a header yields are names of its members, in their order.
proof fn entries_keep_order(
    path: Seq<char>,
    members: Seq<(Seq<char>, JsonTree)>,
    data_start: u64,
    file_size: u64,
)
    requires
        entries_result(path, members, data_start, file_size) is Ok,
        json::names_ascend(members),
    ensures
        ({
            let e = entries_result(path, members, data_start, file_size)->Ok_0;
            &&& forall|i: int, j: int|
                0 <= i < j < e.len() ==> text::str_before(
                    (#[trigger] e[i]).0,
                    (#[trigger] e[j]).0,
                )
            &&& forall|i: int|
                0 <= i < e.len() ==> exists|k: int|
                    0 <= k < members.len() && (#[trigger] members[k]).0 == (#[trigger] e[i]).0
            &&& forall|i: int|
                0 <= i < e.len() ==> (#[trigger] e[i]).1.fits(data_start, file_size)
        }),
    decreases members.len(),
{
    if members.len() > 0 {
        let d = members.drop_last();
        let last = members.len() - 1;
        assert(json::names_ascend(d)) by {
            assert forall|i: int, j: int| 0 <= i < j < d.len() implies text::str_before(
                #[trigger] d[i].0,
                #[trigger] d[j].0,
            ) by {
                assert(d[i] == members[i] && d[j] == members[j]);
            }
        }
        entries_keep_order(path, d, data_start, file_size);
        let before = entries_result(path, d, data_start, file_size)->Ok_0;
        let e = entries_result(path, members, data_start, file_size)->Ok_0;
        assert(members[last] == members.last());
        assert forall|i: int| 0 <= i < before.len() implies text::str_before(
            (#[trigger] before[i]).0,
            members[last].0,
        ) by {
            let k = choose|k: int| 0 <= k < d.len() && (#[trigger] d[k]).0 == before[i].0;
            assert(d[k] == members[k]);
        }
        assert forall|i: int| 0 <= i < e.len() implies exists|k: int|
            0 <= k < members.len() && (#[trigger] members[k]).0 == (#[trigger] e[i]).0 by {
            if i < before.len() {
                assert(e[i] == before[i]);
                let k = choose|k: int| 0 <= k < d.len() && (#[trigger] d[k]).0 == before[i].0;
                assert(d[k] == members[k]);
            } else {
                assert(members[last].0 == e[i].0);
            }
        }
        assert forall|i: int, j: int| 0 <= i < j < e.len() implies text::str_before(
            (#[trigger] e[i]).0,
            (#[trigger] e[j]).0,
        ) by {
            assert(e[i] == before[i]);
            if j < before.len() {
                assert(e[j] == before[j]);
            }
        }
    }
}

impl Shard {
    pub open spec fn wf(&self) -> bool {
        self.tensors.wf() && self@.fits()
    }

    /// Validates a parsed header.
    pub fn from_json(path: &str, file_size: u64, data_start: u64, doc: &Json) -> (r: Result<
        Shard,
        String,
    >)
        requires
            json::well_ordered(doc.tree()),
        ensures
            match document_result(path@, file_size, data_start, Ok(doc.tree())) {
                Ok(s) => r is Ok && r->Ok_0@ == s && r->Ok_0.wf(),
                Err(m) => r is Err && r->Err_0@ == m,
            },
    {
        broadcast use {json::array_tree, json::object_tree};

        match doc {
            Json::Object(members) => {
                let ghost all = json::member_trees(members@);
                let mut entries: Vec<(String, Entry)> = Vec::new();
                let mut i: usize = 0;
                assert(all.take(0) =~= Seq::empty());
                assert(entry_specs(entries@) =~= Seq::empty());
                while i < members.len()
                    invariant
                        i <= members.len(),
                        all == json::member_trees(members@),
                        doc.tree() == JsonTree::Object(all),
                        entries_result(path@, all.take(i as int), data_start, file_size) == Ok::<
                            Seq<(Seq<char>, EntrySpec)>,
                            Seq<char>,
                        >(entry_specs(entries@)),
                    decreases members.len() - i,
                {
                    proof {
                        let next = all.take(i as int + 1);
                        assert(next.drop_last() =~= all.take(i as int));
                        assert(next.last() == (members[i as int].0@, members[i as int].1.tree()));
                    }
                    let name: &str = members[i].0.as_str();
                    if !text::str_eq(name, "__metadata__") {
                        match read_entry(path, name, &members[i].1, data_start, file_size) {
                            Err(m) => {
                                proof {
                                    entries_stop(
                                        path@,
                                        all,
                                        data_start,
                                        file_size,
                                        i as int + 1,
                                    );
                                }
                                return Err(m);
                            },
                            Ok(e) => {
                                let ghost before = entry_specs(entries@);
                                entries.push((name.to_owned(), e));
                                assert(entry_specs(entries@) =~= before.push((name@, e@)));
                            },
                        }
                    }
                    i += 1;
                }
                assert(all.take(all.len() as int) =~= all);
                proof {
                    entries_keep_order(path@, all, data_start, file_size);
                    assert forall|a: int, b: int|
                        0 <= a < b < entries@.len() implies text::str_before(
                        (#[trigger] entries@[a]).0@,
                        (#[trigger] entries@[b]).0@,
                    ) by {
                        assert(entry_specs(entries@)[a].0 == entries@[a].0@);
                        assert(entry_specs(entries@)[b].0 == entries@[b].0@);
                    }
                }
                Ok(
                    Shard {
                        path: path.to_owned(),
                        file_size,
                        data_start,
                        tensors: NameMap { entries },
                    },
                )
            },
            _ => {
                let mut m: String = path.to_owned();
                m.append(": header is not a JSON object");
                Err(m)
            },
        }
    }

    /// Parses the header of a file and validates it against the file's size.
    pub fn open(path: &str, file: &[u8]) -> (r: Result<Shard, String>)
        ensures
            match shard_result(path@, file@) {
                Ok(s) => r is Ok && r->Ok_0@ == s && r->Ok_0.wf(),
                Err(m) => r is Err && r->Err_0@ == m,
            },
    {
        let mut m: String = path.to_owned();
        if file.len() < 8 {
            m.append(": cannot read the 8-byte header length: failed to fill whole buffer");
            return Err(m);
        }
        let file_size: u64 = file.len() as u64;
        assert(file@.subrange(0, 8) =~= file@.take(8));
        let header_len: u64 = bytes::read_u64(file, 0);
        if header_len > u64::MAX - 8 {
            m.append(": header length ");
            text::push_decimal(&mut m, header_len);
            m.append(" overflows");
            return Err(m);
        }
        let data_start: u64 = 8 + header_len;
        if data_start > file_size {
            m.append(": header claims ");
            text::push_decimal(&mut m, header_len);
            m.append(" bytes but the file is only ");
            text::push_decimal(&mut m, file_size);
            m.append(" bytes");
            return Err(m);
        }
        let raw: &[u8] = vstd::slice::slice_subrange(file, 8, data_start as usize);
        match json::parse(raw) {
            Err(message) => {
                m.append(": header is not valid JSON: ");
                m.append(message.as_str());
                Err(m)
            },
            Ok(doc) => Shard::from_json(path, file_size, data_start, &doc),
        }
    }

    /// The place of a tensor.
    pub fn get(&self, name: &str) -> (r: Option<&Entry>)
        requires
            self.tensors.wf(),
        ensures
            match r {
                Some(e) => self.tensors@.contains_key(name@) && self.tensors@[name@] == *e,
                None => !self.tensors@.contains_key(name@),
            },
    {
        self.tensors.get(name)
    }
}

/// The tensor `ti` of the file `si` has the given name.
pub open spec fn placed(shards: Seq<ShardSpec>, name: Seq<char>, si: int, ti: int) -> bool {
    0 <= si < shards.len() && 0 <= ti < shards[si].tensors.len() && shards[si].tensors[ti].0
        == name
}

/// Some file has a tensor of the given name.
pub open spec fn has_tensor(shards: Seq<ShardSpec>, name: Seq<char>) -> bool {
    exists|si: int, ti: int| placed(shards, name, si, ti)
}

/// The place of the tensor of the given name: its file, and its number there.
pub open spec fn tensor_place(shards: Seq<ShardSpec>, name: Seq<char>) -> (int, int) {
    choose|p: (int, int)| #[trigger] placed(shards, name, p.0, p.1)
}

/// The list has every tensor's name once, in the order of names.
pub open spec fn is_listing(l: Seq<Seq<char>>, shards: Seq<ShardSpec>) -> bool {
    &&& forall|i: int, j: int|
        0 <= i < j < l.len() ==> text::str_before(#[trigger] l[i], #[trigger] l[j])
    &&& forall|name: Seq<char>| #[trigger] l.contains(name) <==> has_tensor(shards, name)
}

/// The names of all tensors, in their order.
pub open spec fn listing(shards: Seq<ShardSpec>) -> Seq<Seq<char>> {
    choose|l: Seq<Seq<char>>| is_listing(l, shards)
}

/// Two strictly ordered lists of the same names are the same list.
proof fn ordered_lists_agree(a: Seq<Seq<char>>, b: Seq<Seq<char>>)
    requires
        forall|i: int, j: int|
            0 <= i < j < a.len() ==> text::str_before(#[trigger] a[i], #[trigger] a[j]),
        forall|i: int, j: int|
            0 <= i < j < b.len() ==> text::str_before(#[trigger] b[i], #[trigger] b[j]),
        forall|name: Seq<char>| #[trigger] a.contains(name) <==> b.contains(name),
    ensures
        a == b,
    decreases a.len(),
{
    if a.len() == 0 {
        if b.len() > 0 {
            assert(b.contains(b[0]));
            assert(a.contains(b[0]));
        }
        assert(a =~= b);
    } else {
        let x = a.last();
        assert(a[a.len() - 1] == x);
        assert(a.contains(x));
        assert(b.contains(x));
        let j = choose|j: int| 0 <= j < b.len() && b[j] == x;
        let y = b.last();
        assert(b[b.len() - 1] == y);
        if j < b.len() - 1 {
            assert(text::str_before(b[j], b[b.len() - 1]));
            assert(b.contains(y));
            assert(a.contains(y));
            let i = choose|i: int| 0 <= i < a.len() && a[i] == y;
            text::str_before_is_total(x, y);
            if i < a.len() - 1 {
                assert(text::str_before(a[i], a[a.len() - 1]));
            }
            assert(false);
        }
        let a1 = a.drop_last();
        let b1 = b.drop_last();
        assert forall|name: Seq<char>| #[trigger] a1.contains(name) <==> b1.contains(name) by {
            text::str_before_is_total(x, x);
            if a1.contains(name) {
                let i = choose|i: int| 0 <= i < a1.len() && a1[i] == name;
                assert(a[i] == name);
                assert(text::str_before(a[i], a[a.len() - 1]));
                assert(a.contains(name));
                assert(b.contains(name));
                let k = choose|k: int| 0 <= k < b.len() && b[k] == name;
                assert(k < b.len() - 1);
                assert(b1[k] == name);
            }
            if b1.contains(name) {
                let i = choose|i: int| 0 <= i < b1.len() && b1[i] == name;
                assert(b[i] == name);
                assert(text::str_before(b[i], b[b.len() - 1]));
                assert(b.contains(name));
                assert(a.contains(name));
                let k = choose|k: int| 0 <= k < a.len() && a[k] == name;
                assert(k < a.len() - 1);
                assert(a1[k] == name);
            }
        }
        assert forall|i: int, k: int| 0 <= i < k < a1.len() implies text::str_before(
            #[trigger] a1[i],
            #[trigger] a1[k],
        ) by {
            assert(a1[i] == a[i] && a1[k] == a[k]);
        }
        assert forall|i: int, k: int| 0 <= i < k < b1.len() implies text::str_before(
            #[trigger] b1[i],
            #[trigger] b1[k],
        ) by {
            assert(b1[i] == b[i] && b1[k] == b[k]);
        }
        ordered_lists_agree(a1, b1);
        assert(a =~= a1.push(x));
        assert(b =~= b1.push(x));
    }
}

/// There is one list of all names.
pub proof fn listing_is_unique(l: Seq<Seq<char>>, shards: Seq<ShardSpec>)
    requires
        is_listing(l, shards),
    ensures
        listing(shards) == l,
{
    let c = listing(shards);
    assert(is_listing(c, shards));
    assert forall|name: Seq<char>| #[trigger] c.contains(name) <==> l.contains(name) by {}
    ordered_lists_agree(c, l);
}

/// The first tensor of a list whose name some file has already, with that file.
pub open spec fn first_clash(
    shards: Seq<ShardSpec>,
    tensors: Seq<(Seq<char>, EntrySpec)>,
) -> Option<(Seq<char>, int)>
    decreases tensors.len(),
{
    if tensors.len() == 0 {
        None
    } else {
        match first_clash(shards, tensors.drop_last()) {
            Some(c) => Some(c),
            None => {
                let name = tensors.last().0;
                if has_tensor(shards, name) {
                    Some((name, tensor_place(shards, name).0))
                } else {
                    None
                }
            },
        }
    }
}

/// A file to open: its path, its size on disk, and what was read of it.
pub type FileSpec = (Seq<char>, u64, Seq<u8>);

/// What becomes of files that are opened one after another.
pub open spec fn shards_result(files: Seq<FileSpec>) -> Result<Seq<ShardSpec>, Seq<char>>
    decreases files.len(),
{
    if files.len() == 0 {
        Ok(Seq::empty())
    } else {
        match shards_result(files.drop_last()) {
            Err(m) => Err(m),
            Ok(shards) => {
                let (path, size, file) = files.last();
                match shard_result(path, file) {
                    Err(m) => Err(m),
                    Ok(shard) => match first_clash(shards, shard.tensors) {
                        Some((name, prev)) => Err(
                            name + " appears in both "@ + shards[prev].path + " and "@ + path,
                        ),
                        None => if file.len() != size {
                            Err(path + ": file changed while reading"@)
                        } else {
                            Ok(shards.push(shard))
                        },
                    },
                }
            },
        }
    }
}

proof fn shards_stop(files: Seq<FileSpec>, n: int)
    requires
        0 <= n <= files.len(),
        shards_result(files.take(n)) is Err,
    ensures
        shards_result(files) == shards_result(files.take(n)),
    decreases files.len(),
{
    if n < files.len() {
        let d = files.drop_last();
        assert(d.take(n) =~= files.take(n));
        shards_stop(d, n);
    } else {
        assert(files.take(n) =~= files);
    }
}

proof fn clash_stops(shards: Seq<ShardSpec>, tensors: Seq<(Seq<char>, EntrySpec)>, n: int)
    requires
        0 <= n <= tensors.len(),
        first_clash(shards, tensors.take(n)) is Some,
    ensures
        first_clash(shards, tensors) == first_clash(shards, tensors.take(n)),
    decreases tensors.len(),
{
    if n < tensors.len() {
        let d = tensors.drop_last();
        assert(d.take(n) =~= tensors.take(n));
        clash_stops(shards, d, n);
    } else {
        assert(tensors.take(n) =~= tensors);
    }
}

pub open spec fn shard_specs(s: Seq<Shard>) -> Seq<ShardSpec> {
    Seq::new(s.len(), |i: int| s[i]@)
}

/// The tensors of all files but the last, and the first `n` of the last.
pub open spec fn in_scope(shards: Seq<ShardSpec>, n: int, si: int, ti: int) -> bool {
    0 <= si < shards.len() && 0 <= ti < shards[si].tensors.len() && (si < shards.len() - 1 || ti
        < n)
}

/// The map gives the place of every tensor in scope, and of nothing else.
pub open spec fn indexes(
    index: Map<Seq<char>, (usize, usize)>,
    shards: Seq<ShardSpec>,
    n: int,
) -> bool {
    &&& forall|si: int, ti: int|
        #![trigger shards[si].tensors[ti]]
        in_scope(shards, n, si, ti) ==> index.contains_key(shards[si].tensors[ti].0)
            && index[shards[si].tensors[ti].0].0 == si && index[shards[si].tensors[ti].0].1 == ti
    &&& forall|name: Seq<char>| #[trigger]
        index.contains_key(name) ==> in_scope(
            shards,
            n,
            index[name].0 as int,
            index[name].1 as int,
        ) && placed(shards, name, index[name].0 as int, index[name].1 as int)
}

/// Every name has one place.
pub open spec fn names_unique(shards: Seq<ShardSpec>) -> bool {
    forall|name: Seq<char>, a: int, b: int, c: int, d: int|
        #[trigger] placed(shards, name, a, b) && #[trigger] placed(shards, name, c, d) ==> a == c
            && b == d
}

fn index_shard(
    index: &mut NameMap<(usize, usize)>,
    Ghost(before): Ghost<Seq<ShardSpec>>,
    count: usize,
    shard: &Shard,
) -> (r: Option<(usize, usize)>)
    requires
        old(index).wf(),
        shard.wf(),
        count == before.len(),
        indexes(old(index)@, before.push(shard@), 0),
    ensures
        final(index).wf(),
        match r {
            None => first_clash(before, shard@.tensors) is None && indexes(
                final(index)@,
                before.push(shard@),
                shard@.tensors.len() as int,
            ),
            Some((j, prev)) => j < shard@.tensors.len() && prev < before.len() && first_clash(
                before,
                shard@.tensors,
            ) == Some((shard@.tensors[j as int].0, prev as int)),
        },
{
    let ghost all = before.push(shard@);
    let ghost tensors = shard@.tensors;
    let mut j: usize = 0;
    assert(tensors.take(0) =~= Seq::empty());
    while j < shard.tensors.entries.len()
        invariant
            j <= shard.tensors.entries.len(),
            index.wf(),
            shard.wf(),
            count == before.len(),
            all == before.push(shard@),
            tensors == shard@.tensors,
            indexes(index@, all, j as int),
            first_clash(before, tensors.take(j as int)) is None,
        decreases shard.tensors.entries.len() - j,
    {
        let name: String = shard.tensors.entries[j].0.clone();
        proof {
            let next = tensors.take(j as int + 1);
            assert(next.drop_last() =~= tensors.take(j as int));
            assert(next.last().0 == name@);
            assert(all[count as int] == shard@);
        }
        match index.get(name.as_str()) {
            Some(p) => {
                let prev: usize = p.0;
                proof {
                    let q = index@[name@];
                    assert(placed(all, name@, q.0 as int, q.1 as int));
                    if q.0 == count {
                        assert(tensors[q.1 as int].0 == shard.tensors.entries@[q.1 as int].0@);
                        text::str_before_is_total(name@, name@);
                        assert(false);
                    }
                    assert(all[q.0 as int] == before[q.0 as int]);
                    assert(placed(before, name@, q.0 as int, q.1 as int));
                    let c = tensor_place(before, name@);
                    assert(placed(before, name@, (q.0 as int, q.1 as int).0, (
                        q.0 as int,
                        q.1 as int,
                    ).1));
                    assert(placed(before, name@, c.0, c.1));
                    assert(all[c.0] == before[c.0]);
                    assert(in_scope(all, j as int, c.0, c.1));
                    assert(all[c.0].tensors[c.1].0 == name@);
                    clash_stops(before, tensors, j as int + 1);
                }
                return Some((j, prev));
            },
            None => {},
        }
        proof {
            if has_tensor(before, name@) {
                let (a, b) = choose|a: int, b: int| placed(before, name@, a, b);
                assert(all[a] == before[a]);
                assert(in_scope(all, j as int, a, b));
                assert(all[a].tensors[b].0 == name@);
                assert(false);
            }
        }
        let ghost m0 = index@;
        index.insert(name, (count, j));
        proof {
            let m1 = index@;
            let n = tensors[j as int].0;
            assert(m1 == m0.insert(n, (count, j)));
            assert forall|si: int, ti: int|
                #![trigger all[si].tensors[ti]]
                in_scope(all, j as int + 1, si, ti) implies m1.contains_key(all[si].tensors[ti].0)
                && m1[all[si].tensors[ti].0].0 == si && m1[all[si].tensors[ti].0].1 == ti by {
                if !(si == count && ti == j) {
                    assert(in_scope(all, j as int, si, ti));
                    assert(m0.contains_key(all[si].tensors[ti].0));
                    assert(all[si].tensors[ti].0 != n);
                }
            }
            assert forall|x: Seq<char>| #[trigger] m1.contains_key(x) implies in_scope(
                all,
                j as int + 1,
                m1[x].0 as int,
                m1[x].1 as int,
            ) && placed(all, x, m1[x].0 as int, m1[x].1 as int) by {
                if x != n {
                    assert(m0.contains_key(x));
                }
            }
        }
        j += 1;
    }
    assert(tensors.take(tensors.len() as int) =~= tensors);
    None
}

/// The tensors of a checkpoint and the bytes that hold them, as a mathematical
/// value.
#[verifier::ext_equal]
pub struct ModelSpec {
    pub shards: Seq<ShardSpec>,
    pub bufs: Seq<Seq<u8>>,
}

impl ModelSpec {
    /// The place in its file of the tensor of the given name.
    pub open spec fn entry(self, name: Seq<char>) -> Option<EntrySpec> {
        if has_tensor(self.shards, name) {
            let p = tensor_place(self.shards, name);
            Some(self.shards[p.0].tensors[p.1].1)
        } else {
            None
        }
    }

    /// The elements of the tensor of the given name.
    pub open spec fn values(self, name: Seq<char>) -> Seq<u32> {
        let p = tensor_place(self.shards, name);
        let e = self.shards[p.0].tensors[p.1].1;
        elements(e.dtype, self.bufs[p.0].subrange(e.start as int, e.end as int))
    }
}

/// Every file of a checkpoint, with tensors addressable by name.
///
/// The contents of the files are held in memory.
pub struct Model {
    pub shards: Vec<Shard>,
    /// The file and the number of each tensor.
    pub index: NameMap<(usize, usize)>,
    pub bufs: Vec<Vec<u8>>,
}

pub open spec fn buffer_specs(s: Seq<Vec<u8>>) -> Seq<Seq<u8>> {
    Seq::new(s.len(), |i: int| s[i]@)
}

impl View for Model {
    type V = ModelSpec;

    open spec fn view(&self) -> ModelSpec {
        ModelSpec { shards: shard_specs(self.shards@), bufs: buffer_specs(self.bufs@) }
    }
}

pub open spec fn file_specs(s: Seq<(String, u64, Vec<u8>)>) -> Seq<FileSpec> {
    Seq::new(s.len(), |i: int| (s[i].0@, s[i].1, s[i].2@))
}

/// The bytes of all tensors of a file.
pub open spec fn entry_bytes(s: Seq<(Seq<char>, EntrySpec)>) -> nat
    decreases s.len(),
{
    if s.len() == 0 {
        0
    } else {
        entry_bytes(s.drop_last()) + (s.last().1.end - s.last().1.start) as nat
    }
}

/// The bytes of all tensors of all files.
pub open spec fn shard_bytes(s: Seq<ShardSpec>) -> nat
    decreases s.len(),
{
    if s.len() == 0 {
        0
    } else {
        shard_bytes(s.drop_last()) + entry_bytes(s.last().tensors)
    }
}

proof fn entry_bytes_grow(s: Seq<(Seq<char>, EntrySpec)>, n: int)
    requires
        0 <= n <= s.len(),
    ensures
        entry_bytes(s.take(n)) <= entry_bytes(s),
    decreases s.len(),
{
    if n < s.len() {
        assert(s.drop_last().take(n) =~= s.take(n));
        entry_bytes_grow(s.drop_last(), n);
    } else {
        assert(s.take(n) =~= s);
    }
}

proof fn shard_bytes_grow(s: Seq<ShardSpec>, n: int)
    requires
        0 <= n <= s.len(),
    ensures
        shard_bytes(s.take(n)) <= shard_bytes(s),
    decreases s.len(),
{
    if n < s.len() {
        assert(s.drop_last().take(n) =~= s.take(n));
        shard_bytes_grow(s.drop_last(), n);
    } else {
        assert(s.take(n) =~= s);
    }
}

/// How many of the names contain a text.
pub open spec fn containing(s: Seq<Seq<char>>, needle: Seq<char>) -> nat
    decreases s.len(),
{
    if s.len() == 0 {
        0
    } else {
        containing(s.drop_last(), needle) + (if text::contains_text(s.last(), needle) {
            1nat
        } else {
            0
        })
    }
}

/// The names among the members that no file has, in their order.
pub open spec fn absent_names(
    shards: Seq<ShardSpec>,
    members: Seq<(Seq<char>, JsonTree)>,
) -> Seq<Seq<char>>
    decreases members.len(),
{
    if members.len() == 0 {
        Seq::empty()
    } else {
        let before = absent_names(shards, members.drop_last());
        if has_tensor(shards, members.last().0) {
            before
        } else {
            before.push(members.last().0)
        }
    }
}

/// What comparing with an index file gives: `doc` is what its text parses to.
pub open spec fn disagreement_result(
    shards: Seq<ShardSpec>,
    path: Seq<char>,
    doc: Result<JsonTree, Seq<char>>,
) -> Result<Seq<Seq<char>>, Seq<char>> {
    match doc {
        Err(message) => Err(path + ": "@ + message),
        Ok(t) => match json::member(t, "weight_map"@) {
            Some(JsonTree::Object(members)) => Ok(absent_names(shards, members)),
            _ => Err(path + ": no weight_map"@),
        },
    }
}

/// In an open model no two tensors have the same name, in whatever files they are.
pub proof fn every_name_has_one_place(m: &Model)
    requires
        m.wf(),
    ensures
        names_unique(m@.shards),
{
    let shards = m@.shards;
    assert forall|name: Seq<char>, a: int, b: int, c: int, d: int| #[trigger]
        placed(shards, name, a, b) && #[trigger] placed(shards, name, c, d) implies a == c && b
        == d by {
        assert(shards[a].tensors[b].0 == shards[c].tensors[d].0);
    }
}

/// The sum of a number for each name.
pub open spec fn sum_over(names: Seq<Seq<char>>, f: spec_fn(Seq<char>) -> nat) -> nat
    decreases names.len(),
{
    if names.len() == 0 {
        0
    } else {
        sum_over(names.drop_last(), f) + f(names.last())
    }
}

proof fn sum_without_one(names: Seq<Seq<char>>, i: int, f: spec_fn(Seq<char>) -> nat)
    requires
        0 <= i < names.len(),
    ensures
        sum_over(names, f) == sum_over(names.remove(i), f) + f(names[i]),
    decreases names.len(),
{
    let rest = names.remove(i);
    if i == names.len() - 1 {
        assert(rest =~= names.drop_last());
    } else {
        sum_without_one(names.drop_last(), i, f);
        assert(rest.drop_last() =~= names.drop_last().remove(i));
        assert(rest.last() == names.last());
    }
}

/// Some tensor in scope has the name.
spec fn in_scope_as(shards: Seq<ShardSpec>, n: int, name: Seq<char>) -> bool {
    exists|si: int, ti: int| in_scope(shards, n, si, ti) && #[trigger] placed(shards, name, si, ti)
}

/// The number of each tensor's name is the number of its bytes.
spec fn counts_bytes(shards: Seq<ShardSpec>, f: spec_fn(Seq<char>) -> nat) -> bool {
    forall|name: Seq<char>, si: int, ti: int| #[trigger]
        placed(shards, name, si, ti) ==> f(name) == (shards[si].tensors[ti].1.end
            - shards[si].tensors[ti].1.start) as nat
}

proof fn sum_over_scope(
    shards: Seq<ShardSpec>,
    n: int,
    names: Seq<Seq<char>>,
    f: spec_fn(Seq<char>) -> nat,
)
    requires
        shards.len() > 0,
        0 <= n <= shards.last().tensors.len(),
        names_unique(shards),
        names.no_duplicates(),
        forall|name: Seq<char>| #[trigger] names.contains(name) <==> in_scope_as(shards, n, name),
        counts_bytes(shards, f),
    ensures
        sum_over(names, f) == shard_bytes(shards.drop_last()) + entry_bytes(
            shards.last().tensors.take(n),
        ),
    decreases shards.len(), n,
{
    let last = shards.len() - 1;
    let tensors = shards.last().tensors;
    if n > 0 {
        let name = tensors[n - 1].0;
        assert(in_scope(shards, n, last, n - 1) && placed(shards, name, last, n - 1));
        assert(names.contains(name));
        let i = choose|i: int| 0 <= i < names.len() && names[i] == name;
        let rest = names.remove(i);
        assert forall|x: Seq<char>| #[trigger] rest.contains(x) <==> in_scope_as(shards, n - 1, x) by {
            if rest.contains(x) {
                let k = choose|k: int| 0 <= k < rest.len() && rest[k] == x;
                let j = if k < i {
                    k
                } else {
                    k + 1
                };
                assert(names[j] == x);
                assert(names.contains(x));
                let (si, ti) = choose|si: int, ti: int|
                    in_scope(shards, n, si, ti) && #[trigger] placed(shards, x, si, ti);
                assert(in_scope(shards, n - 1, si, ti));
            }
            if in_scope_as(shards, n - 1, x) {
                let (si, ti) = choose|si: int, ti: int|
                    in_scope(shards, n - 1, si, ti) && #[trigger] placed(shards, x, si, ti);
                assert(in_scope(shards, n, si, ti));
                assert(names.contains(x));
                let j = choose|j: int| 0 <= j < names.len() && names[j] == x;
                assert(x != name);
                assert(rest[if j < i {
                    j
                } else {
                    j - 1
                }] == x);
            }
        }
        assert(rest.no_duplicates()) by {
            assert forall|a: int, b: int|
                0 <= a < rest.len() && 0 <= b < rest.len() && a != b implies rest[a] != rest[b] by {
                assert(names[if a < i {
                    a
                } else {
                    a + 1
                }] != names[if b < i {
                    b
                } else {
                    b + 1
                }]);
            }
        }
        sum_over_scope(shards, n - 1, rest, f);
        sum_without_one(names, i, f);
        assert(tensors.take(n).drop_last() =~= tensors.take(n - 1));
        assert(tensors.take(n).last() == tensors[n - 1]);
    } else {
        assert(tensors.take(0) =~= Seq::empty());
        let before = shards.drop_last();
        if before.len() == 0 {
            if names.len() > 0 {
                assert(names.contains(names[0]));
                assert(false);
            }
        } else {
            let m = before.last().tensors.len() as int;
            assert forall|x: Seq<char>, si: int, ti: int| #[trigger] placed(before, x, si, ti) implies placed(
                shards,
                x,
                si,
                ti,
            ) && shards[si] == before[si] by {}
            assert(names_unique(before)) by {
                assert forall|x: Seq<char>, a: int, b: int, c: int, d: int| #[trigger]
                    placed(before, x, a, b) && #[trigger] placed(before, x, c, d) implies a == c && b
                    == d by {
                    assert(placed(shards, x, a, b) && placed(shards, x, c, d));
                }
            }
            assert forall|x: Seq<char>| #[trigger] names.contains(x) <==> in_scope_as(before, m, x) by {
                if in_scope_as(shards, 0, x) {
                    let (si, ti) = choose|si: int, ti: int|
                        in_scope(shards, 0, si, ti) && #[trigger] placed(shards, x, si, ti);
                    assert(in_scope(before, m, si, ti) && placed(before, x, si, ti));
                }
                if in_scope_as(before, m, x) {
                    let (si, ti) = choose|si: int, ti: int|
                        in_scope(before, m, si, ti) && #[trigger] placed(before, x, si, ti);
                    assert(in_scope(shards, 0, si, ti) && placed(shards, x, si, ti));
                }
            }
            sum_over_scope(before, m, names, f);
            assert(before.last().tensors.take(m) =~= before.last().tensors);
        }
    }
}

impl ModelSpec {
    /// The number of bytes of the tensor of the given name; none if there is none.
    pub open spec fn tensor_size(self, name: Seq<char>) -> nat {
        match self.entry(name) {
            Some(e) => (e.end - e.start) as nat,
            None => 0,
        }
    }
}

/// The bytes of all tensors of an open model are the sum of the bytes of its entries
/// over its names: no headers, no gaps, and every tensor once.
pub proof fn total_is_the_sum_over_the_names(m: &Model)
    requires
        m.wf(),
    ensures
        shard_bytes(m@.shards) == sum_over(
            listing(m@.shards),
            |name: Seq<char>| m@.tensor_size(name),
        ),
{
    let shards = m@.shards;
    let names = listing(shards);
    let f = |name: Seq<char>| m@.tensor_size(name);
    every_name_has_one_place(m);
    m.index_is_listing();
    if shards.len() == 0 {
        if names.len() > 0 {
            assert(names.contains(names[0]));
            assert(has_tensor(shards, names[0]));
        }
    } else {
        let n = shards.last().tensors.len() as int;
        assert forall|name: Seq<char>| #[trigger] names.contains(name) <==> in_scope_as(
            shards,
            n,
            name,
        ) by {
            if has_tensor(shards, name) {
                let (si, ti) = choose|si: int, ti: int| placed(shards, name, si, ti);
                assert(in_scope(shards, n, si, ti));
            }
        }
        assert(names.no_duplicates()) by {
            assert forall|i: int, j: int|
                0 <= i < names.len() && 0 <= j < names.len() && i != j implies names[i] != names[j] by {
                let (a, b) = if i < j {
                    (i, j)
                } else {
                    (j, i)
                };
                assert(text::str_before(names[a], names[b]));
                text::str_before_is_total(names[a], names[b]);
            }
        }
        assert forall|name: Seq<char>, si: int, ti: int| #[trigger] placed(shards, name, si, ti) implies f(
            name,
        ) == (shards[si].tensors[ti].1.end - shards[si].tensors[ti].1.start) as nat by {
            assert(has_tensor(shards, name));
            m.place_is_indexed(name);
            let p = tensor_place(shards, name);
            assert(placed(shards, name, p.0, p.1));
        }
        sum_over_scope(shards, n, names, f);
        assert(shards.last().tensors.take(n) =~= shards.last().tensors);
    }
}

/// A tensor of an open model has as many elements as its shape says.
pub proof fn values_fill_the_shape(m: &Model, name: Seq<char>)
    requires
        m.wf(),
        m@.entry(name) is Some,
    ensures
        m@.values(name).len() == product(m@.entry(name)->Some_0.shape),
{
    m.place_is_indexed(name);
    let (si, ti) = tensor_place(m@.shards, name);
    let e = m@.shards[si].tensors[ti].1;
    assert(m.shards@[si].wf());
    assert(e.fits(m.shards@[si].data_start, m.shards@[si].file_size));
    assert(m.bufs@[si]@.len() == m.shards@[si].file_size);
    let n = product(e.shape) as int;
    let z = dtype_size(e.dtype) as int;
    vstd::arithmetic::div_mod::lemma_div_multiples_vanish(n, z);
    vstd::arithmetic::mul::lemma_mul_is_commutative(n, z);
}

impl Model {
    /// Every file is valid and at hand, and the index has every tensor once.
    pub open spec fn wf(&self) -> bool {
        &&& forall|i: int| 0 <= i < self.shards@.len() ==> (#[trigger] self.shards@[i]).wf()
        &&& self.bufs@.len() == self.shards@.len()
        &&& forall|i: int|
            0 <= i < self.bufs@.len() ==> (#[trigger] self.bufs@[i])@.len()
                == self.shards@[i].file_size
        &&& self.index.wf()
        &&& forall|si: int, ti: int|
            0 <= si < self@.shards.len() && 0 <= ti < self@.shards[si].tensors.len() ==> {
                let name = (#[trigger] self@.shards[si].tensors[ti]).0;
                self.index@.contains_key(name) && self.index@[name].0 == si
                    && self.index@[name].1 == ti
            }
        &&& forall|name: Seq<char>| #[trigger]
            self.index@.contains_key(name) ==> placed(
                self@.shards,
                name,
                self.index@[name].0 as int,
                self.index@[name].1 as int,
            )
    }

    proof fn place_is_indexed(&self, name: Seq<char>)
        requires
            self.wf(),
        ensures
            has_tensor(self@.shards, name) == self.index@.contains_key(name),
            has_tensor(self@.shards, name) ==> placed(
                self@.shards,
                name,
                tensor_place(self@.shards, name).0,
                tensor_place(self@.shards, name).1,
            ) && tensor_place(self@.shards, name).0 == self.index@[name].0 && tensor_place(
                self@.shards,
                name,
            ).1 == self.index@[name].1,
    {
        let shards = self@.shards;
        if self.index@.contains_key(name) {
            let q = self.index@[name];
            assert(placed(shards, name, q.0 as int, q.1 as int));
        }
        if has_tensor(shards, name) {
            let (a, b) = choose|a: int, b: int| placed(shards, name, a, b);
            assert(placed(shards, name, (a, b).0, (a, b).1));
            let p = tensor_place(shards, name);
            assert(placed(shards, name, p.0, p.1));
            assert(shards[p.0].tensors[p.1].0 == name);
        }
    }

    /// Opens the files of a checkpoint directory: each with its path, its size on
    /// disk, and what was read of it.
    pub fn open(dir: &str, files: Vec<(String, u64, Vec<u8>)>) -> (r: Result<Model, String>)
        ensures
            if files@.len() == 0 {
                r is Err && r->Err_0@ == dir@ + ": no *.safetensors files"@
            } else {
                match shards_result(file_specs(files@)) {
                    Ok(shards) => {
                        &&& r is Ok
                        &&& r->Ok_0.wf()
                        &&& r->Ok_0@.shards == shards
                        &&& r->Ok_0@.bufs == Seq::new(files@.len(), |i: int| files@[i].2@)
                    },
                    Err(m) => r is Err && r->Err_0@ == m,
                }
            },
    {
        if files.len() == 0 {
            let mut m: String = dir.to_owned();
            m.append(": no *.safetensors files");
            return Err(m);
        }
        let ghost all = file_specs(files@);
        let ghost given = files@;
        let mut shards: Vec<Shard> = Vec::new();
        let mut index: NameMap<(usize, usize)> = NameMap::new();
        let mut i: usize = 0;
        assert(all.take(0) =~= Seq::empty());
        assert(shard_specs(shards@) =~= Seq::empty());
        while i < files.len()
            invariant
                i <= files.len(),
                all == file_specs(files@),
                given == files@,
                files@.len() > 0,
                shards.len() == i,
                forall|k: int| 0 <= k < i ==> (#[trigger] shards@[k]).wf(),
                forall|k: int|
                    0 <= k < i ==> (#[trigger] shards@[k]).file_size == files@[k].2@.len(),
                index.wf(),
                forall|si: int, ti: int|
                    #![trigger shard_specs(shards@)[si].tensors[ti]]
                    0 <= si < shards.len() && 0 <= ti < shard_specs(shards@)[si].tensors.len() ==> {
                        let name = shard_specs(shards@)[si].tensors[ti].0;
                        index@.contains_key(name) && index@[name].0 == si && index@[name].1 == ti
                    },
                forall|name: Seq<char>| #[trigger]
                    index@.contains_key(name) ==> placed(
                        shard_specs(shards@),
                        name,
                        index@[name].0 as int,
                        index@[name].1 as int,
                    ),
                shards_result(all.take(i as int)) == Ok::<Seq<ShardSpec>, Seq<char>>(
                    shard_specs(shards@),
                ),
            decreases files.len() - i,
        {
            proof {
                let next = all.take(i as int + 1);
                assert(next.drop_last() =~= all.take(i as int));
                assert(next.last() == (files@[i as int].0@, files@[i as int].1, files@[i as int].2@));
            }
            let path: &str = files[i].0.as_str();
            let shard: Shard = match Shard::open(path, files[i].2.as_slice()) {
                Ok(shard) => shard,
                Err(m) => {
                    proof {
                        shards_stop(all, i as int + 1);
                    }
                    return Err(m);
                },
            };
            let ghost before = shard_specs(shards@);
            proof {
                let with = before.push(shard@);
                assert forall|si: int, ti: int|
                    #![trigger with[si].tensors[ti]]
                    in_scope(with, 0, si, ti) implies index@.contains_key(with[si].tensors[ti].0)
                    && index@[with[si].tensors[ti].0].0 == si && index@[with[si].tensors[ti].0].1
                    == ti by {
                    assert(with[si] == before[si]);
                    assert(before[si].tensors[ti] == with[si].tensors[ti]);
                }
                assert forall|name: Seq<char>| #[trigger] index@.contains_key(name) implies in_scope(
                    with,
                    0,
                    index@[name].0 as int,
                    index@[name].1 as int,
                ) && placed(with, name, index@[name].0 as int, index@[name].1 as int) by {
                    assert(placed(before, name, index@[name].0 as int, index@[name].1 as int));
                    assert(with[index@[name].0 as int] == before[index@[name].0 as int]);
                }
            }
            match index_shard(&mut index, Ghost(before), shards.len(), &shard) {
                Some((j, prev)) => {
                    let mut m: String = shard.tensors.entries[j].0.clone();
                    m.append(" appears in both ");
                    m.append(shards[prev].path.as_str());
                    m.append(" and ");
                    m.append(path);
                    proof {
                        shards_stop(all, i as int + 1);
                    }
                    return Err(m);
                },
                None => {},
            }
            if files[i].2.len() as u64 != files[i].1 {
                let mut m: String = path.to_owned();
                m.append(": file changed while reading");
                proof {
                    shards_stop(all, i as int + 1);
                }
                return Err(m);
            }
            shards.push(shard);
            proof {
                let after = shard_specs(shards@);
                assert(after =~= before.push(shard@));
                assert forall|si: int, ti: int|
                    #![trigger after[si].tensors[ti]]
                    0 <= si < shards.len() && 0 <= ti < after[si].tensors.len() implies {
                    let name = after[si].tensors[ti].0;
                    index@.contains_key(name) && index@[name].0 == si && index@[name].1 == ti
                } by {
                    assert(in_scope(after, shard@.tensors.len() as int, si, ti));
                }
                assert forall|k: int| 0 <= k < i + 1 implies (#[trigger] shards@[k]).file_size
                    == files@[k].2@.len() by {}
            }
            i += 1;
        }
        assert(all.take(all.len() as int) =~= all);
        let mut bufs: Vec<Vec<u8>> = Vec::new();
        let mut rest: Vec<(String, u64, Vec<u8>)> = files;
        while rest.len() > 0
            invariant
                rest@.len() + bufs@.len() == given.len(),
                rest@ == given.take(rest@.len() as int),
                forall|k: int| 0 <= k < bufs@.len() ==> bufs@[k] == given[given.len() - 1 - k].2,
            decreases rest.len(),
        {
            let ghost before = rest@;
            match rest.pop() {
                Some(last) => {
                    assert(last == given[before.len() - 1]);
                    assert(rest@ =~= given.take(rest@.len() as int));
                    bufs.push(last.2);
                },
                None => {},
            }
        }
        let mut ordered: Vec<Vec<u8>> = Vec::new();
        let ghost reversed = bufs@;
        while bufs.len() > 0
            invariant
                reversed.len() == given.len(),
                bufs@ == reversed.take(bufs@.len() as int),
                bufs@.len() + ordered@.len() == reversed.len(),
                forall|k: int| 0 <= k < reversed.len() ==> reversed[k] == given[given.len() - 1 - k].2,
                forall|k: int| 0 <= k < ordered@.len() ==> ordered@[k] == given[k].2,
            decreases bufs.len(),
        {
            let ghost before = bufs@;
            match bufs.pop() {
                Some(b) => {
                    assert(b == reversed[before.len() - 1]);
                    assert(bufs@ =~= reversed.take(bufs@.len() as int));
                    ordered.push(b);
                },
                None => {},
            }
        }
        let model = Model { shards, index, bufs: ordered };
        assert(model@.bufs =~= Seq::new(given.len(), |k: int| given[k].2@));
        Ok(model)
    }

    /// The names of the index are all names, in their order.
    pub proof fn index_is_listing(&self)
        requires
            self.wf(),
        ensures
            listing(self@.shards) == Seq::new(
                self.index.entries@.len(),
                |i: int| self.index.entries@[i].0@,
            ),
            listing(self@.shards).len() == self.index.entries@.len(),
            is_listing(listing(self@.shards), self@.shards),
            forall|i: int|
                0 <= i < self.index.entries@.len() ==> #[trigger] listing(self@.shards)[i]
                    == self.index.entries@[i].0@ && has_tensor(
                    self@.shards,
                    self.index.entries@[i].0@,
                ),
    {
        let entries = self.index.entries@;
        let l = Seq::new(entries.len(), |i: int| entries[i].0@);
        assert forall|i: int, j: int| 0 <= i < j < l.len() implies text::str_before(
            #[trigger] l[i],
            #[trigger] l[j],
        ) by {
            assert(text::str_before(entries[i].0@, entries[j].0@));
        }
        assert forall|name: Seq<char>| #[trigger] l.contains(name) <==> has_tensor(
            self@.shards,
            name,
        ) by {
            self.place_is_indexed(name);
            if l.contains(name) {
                let i = choose|i: int| 0 <= i < l.len() && l[i] == name;
                names::pair_in_map(entries, i);
            }
            if has_tensor(self@.shards, name) {
                let i = choose|i: int| names::names_at(entries, name, i);
                assert(l[i] == name);
            }
        }
        listing_is_unique(l, self@.shards);
        assert forall|i: int| 0 <= i < entries.len() implies #[trigger] listing(self@.shards)[i]
            == entries[i].0@ && has_tensor(self@.shards, entries[i].0@) by {
            assert(l[i] == entries[i].0@);
            assert(l.contains(l[i]));
        }
    }

    /// The names of all tensors, in their order.
    pub fn names(&self) -> (r: Vec<String>)
        requires
            self.wf(),
        ensures
            text::views(r@) == listing(self@.shards),
    {
        let mut out: Vec<String> = Vec::new();
        let mut i: usize = 0;
        proof {
            self.index_is_listing();
        }
        while i < self.index.entries.len()
            invariant
                i <= self.index.entries.len(),
                out.len() == i,
                forall|k: int| 0 <= k < i ==> (#[trigger] out@[k])@ == self.index.entries@[k].0@,
            decreases self.index.entries.len() - i,
        {
            out.push(self.index.entries[i].0.clone());
            i += 1;
        }
        assert(text::views(out@) =~= listing(self@.shards));
        out
    }

    /// Whether there is a tensor of this name.
    pub fn contains(&self, name: &str) -> (r: bool)
        requires
            self.wf(),
        ensures
            r == has_tensor(self@.shards, name@),
    {
        proof {
            self.place_is_indexed(name@);
        }
        self.index.contains(name)
    }

    /// The place of a tensor in its file.
    pub fn entry(&self, name: &str) -> (r: Option<&Entry>)
        requires
            self.wf(),
        ensures
            self@.entry(name@) == match r {
                Some(e) => Some(e@),
                None => None,
            },
            r is Some ==> product(r->Some_0.shape@) <= u64::MAX,
    {
        proof {
            self.place_is_indexed(name@);
        }
        match self.index.get(name) {
            Some(p) => {
                let si: usize = p.0;
                let ti: usize = p.1;
                proof {
                    let e = self@.shards[si as int].tensors[ti as int].1;
                    assert(self.shards@[si as int].wf());
                    assert(e.fits(
                        self.shards@[si as int].data_start,
                        self.shards@[si as int].file_size,
                    ));
                    assert(product(e.shape) <= u64::MAX) by (nonlinear_arith)
                        requires
                            e.end - e.start == product(e.shape) * dtype_size(e.dtype),
                            dtype_size(e.dtype) >= 1,
                            e.end <= u64::MAX,
                            e.start >= 0,
                    ;
                }
                Some(&self.shards[si].tensors.entries[ti].1)
            },
            None => None,
        }
    }

    /// Decodes one tensor to the bits of single-precision numbers, as many as its
    /// shape says.
    pub fn tensor(&self, name: &str) -> (r: Result<Vec<u32>, String>)
        requires
            self.wf(),
        ensures
            match self@.entry(name@) {
                None => r is Err && r->Err_0@ == "no tensor named "@ + name@,
                Some(e) => r is Ok && r->Ok_0@ == self@.values(name@) && r->Ok_0@.len()
                    == product(e.shape),
            },
    {
        proof {
            self.place_is_indexed(name@);
        }
        match self.index.get(name) {
            None => {
                let mut m: String = "no tensor named ".to_owned();
                m.append(name);
                Err(m)
            },
            Some(p) => {
                let si: usize = p.0;
                let ti: usize = p.1;
                let e: &Entry = &self.shards[si].tensors.entries[ti].1;
                let buf: &[u8] = self.bufs[si].as_slice();
                let size: usize = buf.len();
                proof {
                    assert(self@.shards[si as int].tensors[ti as int].1 == e@);
                    assert(self.shards@[si as int].wf());
                    assert(e@.fits(
                        self.shards@[si as int].data_start,
                        self.shards@[si as int].file_size,
                    ));
                    assert(self.bufs@[si as int]@.len() == self.shards@[si as int].file_size);
                    assert(self@.bufs[si as int] == buf@);
                    assert(e.end <= size);
                }
                let raw: &[u8] = vstd::slice::slice_subrange(
                    buf,
                    e.start as usize,
                    e.end as usize,
                );
                proof {
                    let n = product(e.shape@);
                    let z = dtype_size(e.dtype);
                    vstd::arithmetic::div_mod::lemma_mod_multiples_basic(n as int, z as int);
                    vstd::arithmetic::div_mod::lemma_div_multiples_vanish(n as int, z as int);
                    vstd::arithmetic::mul::lemma_mul_is_commutative(n as int, z as int);
                }
                match e.dtype.decode(raw) {
                    Ok(v) => Ok(v),
                    Err(m) => Err(m),
                }
            },
        }
    }

    /// How many tensors have a name that contains `needle`.
    pub fn count_containing(&self, needle: &str) -> (r: usize)
        requires
            self.wf(),
        ensures
            r == containing(listing(self@.shards), needle@),
    {
        let ghost all = listing(self@.shards);
        proof {
            self.index_is_listing();
        }
        let mut n: usize = 0;
        let mut i: usize = 0;
        assert(all.take(0) =~= Seq::empty());
        while i < self.index.entries.len()
            invariant
                i <= self.index.entries.len(),
                all.len() == self.index.entries@.len(),
                forall|k: int|
                    0 <= k < all.len() ==> #[trigger] all[k] == self.index.entries@[k].0@,
                n == containing(all.take(i as int), needle@),
                n <= i,
            decreases self.index.entries.len() - i,
        {
            proof {
                let next = all.take(i as int + 1);
                assert(next.drop_last() =~= all.take(i as int));
                assert(next.last() == all[i as int]);
            }
            if text::str_contains(self.index.entries[i].0.as_str(), needle) {
                n += 1;
            }
            i += 1;
        }
        assert(all.take(all.len() as int) =~= all);
        n
    }

    /// The bytes of all tensors of all files, when they fit 64 bits.
    pub fn checked_tensor_bytes(&self) -> (r: Option<u64>)
        requires
            self.wf(),
        ensures
            match r {
                Some(n) => n == shard_bytes(self@.shards),
                None => shard_bytes(self@.shards) > u64::MAX,
            },
    {
        let ghost all = self@.shards;
        let mut sum: u64 = 0;
        let mut i: usize = 0;
        assert(all.take(0) =~= Seq::empty());
        while i < self.shards.len()
            invariant
                i <= self.shards.len(),
                self.wf(),
                all == self@.shards,
                sum == shard_bytes(all.take(i as int)),
            decreases self.shards.len() - i,
        {
            let ghost tensors = all[i as int].tensors;
            proof {
                let next = all.take(i as int + 1);
                assert(next.drop_last() =~= all.take(i as int));
                assert(next.last() == all[i as int]);
                shard_bytes_grow(all, i as int + 1);
                assert(tensors.take(0) =~= Seq::empty());
            }
            let ghost base = sum;
            let entries: &Vec<(String, Entry)> = &self.shards[i].tensors.entries;
            let mut j: usize = 0;
            assert forall|k: int| 0 <= k < entries@.len() implies (#[trigger] entries@[k]).1.start
                <= entries@[k].1.end by {
                assert(self.shards@[i as int].wf());
                assert(self.shards@[i as int]@.tensors[k].1.fits(
                    self.shards@[i as int].data_start,
                    self.shards@[i as int].file_size,
                ));
            }
            while j < entries.len()
                invariant
                    j <= entries.len(),
                    tensors == entry_specs(entries@),
                    sum == base + entry_bytes(tensors.take(j as int)),
                    shard_bytes(all) >= base + entry_bytes(tensors),
                    all == self@.shards,
                    forall|k: int|
                        0 <= k < entries@.len() ==> (#[trigger] entries@[k]).1.start
                            <= entries@[k].1.end,
                decreases entries.len() - j,
            {
                proof {
                    let next = tensors.take(j as int + 1);
                    assert(next.drop_last() =~= tensors.take(j as int));
                    assert(next.last() == (entries@[j as int].0@, entries@[j as int].1@));
                    entry_bytes_grow(tensors, j as int + 1);
                }
                match sum.checked_add(entries[j].1.end - entries[j].1.start) {
                    Some(n) => {
                        sum = n;
                    },
                    None => {
                        return None;
                    },
                }
                j += 1;
            }
            assert(tensors.take(tensors.len() as int) =~= tensors);
            i += 1;
        }
        assert(all.take(all.len() as int) =~= all);
        Some(sum)
    }

    /// The bytes of all tensors of all files.
    pub fn tensor_bytes(&self) -> (r: u64)
        requires
            self.wf(),
            shard_bytes(self@.shards) <= u64::MAX,
        ensures
            r == shard_bytes(self@.shards),
    {
        match self.checked_tensor_bytes() {
            Some(n) => n,
            None => 0,
        }
    }

    /// Compares a parsed index file with the tensors that there are: the names that
    /// it lists and no file has.
    pub fn disagreement_with(&self, path: &str, doc: &Json) -> (r: Result<Vec<String>, String>)
        requires
            self.wf(),
        ensures
            match disagreement_result(self@.shards, path@, Ok(doc.tree())) {
                Ok(names) => r is Ok && text::views(r->Ok_0@) == names,
                Err(m) => r is Err && r->Err_0@ == m,
            },
    {
        broadcast use {json::array_tree, json::object_tree};

        match doc.get("weight_map") {
            Some(Json::Object(members)) => {
                let ghost all = json::member_trees(members@);
                let mut missing: Vec<String> = Vec::new();
                let mut i: usize = 0;
                assert(all.take(0) =~= Seq::empty());
                assert(text::views(missing@) =~= Seq::empty());
                while i < members.len()
                    invariant
                        i <= members.len(),
                        self.wf(),
                        all == json::member_trees(members@),
                        text::views(missing@) == absent_names(
                            self@.shards,
                            all.take(i as int),
                        ),
                    decreases members.len() - i,
                {
                    proof {
                        let next = all.take(i as int + 1);
                        assert(next.drop_last() =~= all.take(i as int));
                        assert(next.last().0 == members[i as int].0@);
                    }
                    if !self.contains(members[i].0.as_str()) {
                        let ghost before = text::views(missing@);
                        missing.push(members[i].0.clone());
                        assert(text::views(missing@) =~= before.push(members[i as int].0@));
                    }
                    i += 1;
                }
                assert(all.take(all.len() as int) =~= all);
                Ok(missing)
            },
            _ => {
                let mut m: String = path.to_owned();
                m.append(": no weight_map");
                Err(m)
            },
        }
    }

    /// Compares the text of an index file with the tensors that there are. Without
    /// an index file nothing disagrees.
    pub fn index_disagreement(&self, path: &str, index: Option<&[u8]>) -> (r: Result<
        Vec<String>,
        String,
    >)
        requires
            self.wf(),
        ensures
            match index {
                None => r is Ok && r->Ok_0@.len() == 0,
                Some(raw) => match disagreement_result(
                    self@.shards,
                    path@,
                    json::json_document(raw@),
                ) {
                    Ok(names) => r is Ok && text::views(r->Ok_0@) == names,
                    Err(m) => r is Err && r->Err_0@ == m,
                },
            },
    {
        match index {
            None => Ok(Vec::new()),
            Some(raw) => match json::parse(raw) {
                Ok(doc) => self.disagreement_with(path, &doc),
                Err(message) => {
                    let mut m: String = path.to_owned();
                    m.append(": ");
                    m.append(message.as_str());
                    Err(m)
                },
            },
        }
    }
}

/// The tokens of the element types, and how many bits an element of each takes.
pub proof fn tokens_and_sizes()
    ensures
        dtype_named("F32"@) == Some(Dtype::F32) && 8 * dtype_size(Dtype::F32) == 32,
        dtype_named("F16"@) == Some(Dtype::F16) && 8 * dtype_size(Dtype::F16) == 16,
        dtype_named("BF16"@) == Some(Dtype::Bf16) && 8 * dtype_size(Dtype::Bf16) == 16,
{
    reveal_strlit("F32");
    reveal_strlit("F16");
    reveal_strlit("BF16");
    assert("F16"@[1] == '1' && "F32"@[1] == '3');
    assert("BF16"@.len() == 4 && "F16"@.len() == 3 && "F32"@.len() == 3);
}

/// The elements of a tensor stand in the order of their bytes, of which the first is the
/// least: a single-precision number is its four bytes, a `bfloat16` the upper half of
/// one, and a half-precision number is widened.
pub proof fn elements_stand_in_their_order(d: Dtype, raw: Seq<u8>, i: int)
    requires
        0 <= i < elements(d, raw).len(),
    ensures
        d is F32 ==> {
            &&& elements(d, raw).len() == raw.len() / 4
            &&& elements(d, raw)[i] == raw[4 * i] + 0x100 * raw[4 * i + 1] + 0x1_0000 * raw[4 * i
                + 2] + 0x100_0000 * raw[4 * i + 3]
        },
        d is Bf16 ==> {
            &&& elements(d, raw).len() == raw.len() / 2
            &&& elements(d, raw)[i] == 0x1_0000 * (raw[2 * i] + 0x100 * raw[2 * i + 1])
        },
        d is F16 ==> {
            &&& elements(d, raw).len() == raw.len() / 2
            &&& elements(d, raw)[i] == float_bits::widened_half(
                (raw[2 * i] + 0x100 * raw[2 * i + 1]) as u16,
            )
        },
{
    if d is F32 {
        let s = raw.subrange(i * 4, i * 4 + 4);
        assert(s[0] == raw[4 * i] && s[1] == raw[4 * i + 1] && s[2] == raw[4 * i + 2] && s[3]
            == raw[4 * i + 3]);
        reveal_with_fuel(bytes::le_value, 5);
        let t = s.subrange(1, 4);
        let u = t.subrange(1, 3);
        let v = u.subrange(1, 2);
        assert(t[0] == s[1] && u[0] == s[2] && v[0] == s[3]);
        assert(v.subrange(1, 1).len() == 0);
    } else {
        let s = raw.subrange(i * 2, i * 2 + 2);
        assert(s[0] == raw[2 * i] && s[1] == raw[2 * i + 1]);
        reveal_with_fuel(bytes::le_value, 3);
        let t = s.subrange(1, 2);
        assert(t[0] == s[1]);
        assert(t.subrange(1, 1).len() == 0);
    }
}

/// The dimensions of a shape are its items in their order: as many as these, the i-th
/// the number of the i-th.
pub proof fn dimensions_are_the_items(items: Seq<JsonTree>)
    ensures
        match dimensions(items) {
            Some(shape) => shape.len() == items.len() && forall|i: int|
                0 <= i < items.len() ==> json::unsigned(#[trigger] items[i]) == Some(shape[i]),
            None => exists|i: int|
                0 <= i < items.len() && (json::unsigned(#[trigger] items[i]) is None
                    || json::unsigned(items[i]) == Some(u64::MAX)),
        },
{
    match dimensions(items) {
        Some(shape) => {
            assert forall|i: int| 0 <= i < items.len() implies json::unsigned(#[trigger] items[i])
                == Some(shape[i]) by {
                assert(is_dimension(items[i]));
            }
        },
        None => {
            let i = choose|i: int| 0 <= i < items.len() && !is_dimension(#[trigger] items[i]);
            assert(json::unsigned(items[i]) is None || json::unsigned(items[i]) == Some(u64::MAX));
        },
    }
}

/// An entry's members describe the tensor: its element type's token, its dimensions in
/// their order, and where its bytes start and end, counted from the start of the data.
pub open spec fn describes(t: JsonTree, e: EntrySpec, data_start: u64) -> bool {
    &&& json::member_text(t, "dtype"@) == Some(dtype_token(e.dtype))
    &&& json::member_array(t, "shape"@) matches Some(items) && items.len() == e.shape.len()
        && forall|i: int|
        0 <= i < items.len() ==> json::unsigned(#[trigger] items[i]) == Some(e.shape[i])
    &&& json::member_array(t, "data_offsets"@) matches Some(offs) && offs.len() == 2
        && e.start >= data_start && e.end >= data_start && json::unsigned(offs[0]) == Some(
        (e.start - data_start) as u64,
    ) && json::unsigned(offs[1]) == Some((e.end - data_start) as u64)
}

/// What comes of an entry is the tensor that it describes, whose bytes are as many as its
/// shape and element type need and lie in the file.
pub proof fn entry_is_the_tensor_it_describes(
    path: Seq<char>,
    name: Seq<char>,
    t: JsonTree,
    data_start: u64,
    file_size: u64,
    e: EntrySpec,
)
    requires
        entry_result(path, name, t, data_start, file_size) == Ok::<EntrySpec, Seq<char>>(e),
    ensures
        describes(t, e, data_start),
        data_start <= e.start <= e.end <= file_size,
        product(e.shape) * dtype_size(e.dtype) == e.end - e.start,
{
    token_names_its_dtype(e.dtype, json::member_text(t, "dtype"@)->Some_0);
    let items = json::member_array(t, "shape"@)->Some_0;
    dimensions_are_the_items(items);
}

/// An entry that describes a tensor whose bytes are as many as its shape and element type
/// need and lie in the file is accepted.
pub proof fn consistent_entry_is_accepted(
    path: Seq<char>,
    name: Seq<char>,
    t: JsonTree,
    data_start: u64,
    file_size: u64,
    e: EntrySpec,
)
    requires
        describes(t, e, data_start),
        data_start <= e.start <= e.end <= file_size,
        product(e.shape) * dtype_size(e.dtype) == e.end - e.start,
        forall|i: int| 0 <= i < e.shape.len() ==> (#[trigger] e.shape[i]) < u64::MAX,
    ensures
        entry_result(path, name, t, data_start, file_size) == Ok::<EntrySpec, Seq<char>>(e),
{
    token_names_its_dtype(e.dtype, dtype_token(e.dtype));
    let items = json::member_array(t, "shape"@)->Some_0;
    assert forall|i: int| 0 <= i < items.len() implies is_dimension(#[trigger] items[i]) by {
        assert(json::unsigned(items[i]) == Some(e.shape[i]));
    }
    assert(dimensions(items)->Some_0 =~= e.shape) by {
        assert forall|i: int| 0 <= i < e.shape.len() implies dimensions(items)->Some_0[i]
            == e.shape[i] by {
            assert(json::unsigned(items[i]) == Some(e.shape[i]));
        }
    }
}

/// The member is the entry of the tensor.
pub open spec fn entry_of(
    path: Seq<char>,
    m: (Seq<char>, JsonTree),
    data_start: u64,
    file_size: u64,
    tensor: (Seq<char>, EntrySpec),
) -> bool {
    &&& m.0 != "__metadata__"@
    &&& tensor.0 == m.0
    &&& entry_result(path, m.0, m.1, data_start, file_size) == Ok::<EntrySpec, Seq<char>>(tensor.1)
}

/// A header yields one tensor for each member but the metadata, under the member's name,
/// and no other.
pub proof fn header_lists_its_entries(
    path: Seq<char>,
    members: Seq<(Seq<char>, JsonTree)>,
    data_start: u64,
    file_size: u64,
)
    requires
        entries_result(path, members, data_start, file_size) is Ok,
    ensures
        ({
            let ts = entries_result(path, members, data_start, file_size)->Ok_0;
            &&& ts.len() == members.filter(
                |m: (Seq<char>, JsonTree)| m.0 != "__metadata__"@,
            ).len()
            &&& forall|k: int|
                0 <= k < ts.len() ==> entry_of(
                    path,
                    members.filter(|m: (Seq<char>, JsonTree)| m.0 != "__metadata__"@)[k],
                    data_start,
                    file_size,
                    #[trigger] ts[k],
                )
        }),
    decreases members.len(),
{
    reveal(Seq::filter);
    if members.len() > 0 {
        let d = members.drop_last();
        header_lists_its_entries(path, d, data_start, file_size);
        let f = |m: (Seq<char>, JsonTree)| m.0 != "__metadata__"@;
        let before = entries_result(path, d, data_start, file_size)->Ok_0;
        let ts = entries_result(path, members, data_start, file_size)->Ok_0;
        assert forall|k: int| 0 <= k < ts.len() implies entry_of(
            path,
            members.filter(f)[k],
            data_start,
            file_size,
            #[trigger] ts[k],
        ) by {
            if k < before.len() {
                assert(ts[k] == before[k]);
                assert(members.filter(f)[k] == d.filter(f)[k]);
            }
        }
    }
}

/// The header of a file is what its bytes from the ninth on hold, as many of them as the
/// number in the first eight says, and its data starts after them.
pub proof fn header_is_framed_by_its_length(path: Seq<char>, file: Seq<u8>)
    requires
        file.len() <= u64::MAX,
        shard_result(path, file) is Ok,
    ensures
        ({
            let s = shard_result(path, file)->Ok_0;
            let n = bytes::le_value(file.take(8)) as int;
            &&& s.path == path
            &&& s.file_size == file.len()
            &&& s.data_start == 8 + n
            &&& 8 + n <= file.len()
            &&& json::json_document(file.subrange(8, 8 + n)) matches Ok(JsonTree::Object(members))
                && entries_result(path, members, s.data_start, s.file_size) == Ok::<
                Seq<(Seq<char>, EntrySpec)>,
                Seq<char>,
            >(s.tensors)
        }),
{
}

/// The files of an open model are the files that were given, in their order: each is
/// what comes of its own path and bytes, and its bytes are all there.
pub proof fn files_keep_their_places(files: Seq<FileSpec>)
    ensures
        shards_result(files) matches Ok(shards) ==> {
            &&& shards.len() == files.len()
            &&& forall|i: int|
                0 <= i < files.len() ==> shard_result((#[trigger] files[i]).0, files[i].2) == Ok::<
                    ShardSpec,
                    Seq<char>,
                >(shards[i]) && files[i].2.len() == files[i].1
        },
    decreases files.len(),
{
    if files.len() > 0 {
        let d = files.drop_last();
        files_keep_their_places(d);
        match shards_result(files) {
            Ok(shards) => {
                let before = shards_result(d)->Ok_0;
                assert forall|i: int| 0 <= i < files.len() implies shard_result(
                    (#[trigger] files[i]).0,
                    files[i].2,
                ) == Ok::<ShardSpec, Seq<char>>(shards[i]) && files[i].2.len() == files[i].1 by {
                    if i < d.len() {
                        assert(d[i] == files[i]);
                        assert(shards[i] == before[i]);
                    } else {
                        assert(files[i] == files.last());
                    }
                }
            },
            Err(_) => {},
        }
    }
}

/// The tensor of a name is the one that stands under it, and its elements are the bytes
/// of its own range in its own file.
pub proof fn values_are_the_bytes_of_the_tensor(m: &Model, name: Seq<char>, si: int, ti: int)
    requires
        m.wf(),
        0 <= si < m@.shards.len(),
        0 <= ti < m@.shards[si].tensors.len(),
        m@.shards[si].tensors[ti].0 == name,
    ensures
        ({
            let e = m@.shards[si].tensors[ti].1;
            &&& m@.entry(name) == Some(e)
            &&& e.end <= m.bufs@[si]@.len()
            &&& m@.values(name) == elements(
                e.dtype,
                m.bufs@[si]@.subrange(e.start as int, e.end as int),
            )
        }),
{
    assert(placed(m@.shards, name, si, ti));
    every_name_has_one_place(m);
    m.place_is_indexed(name);
    let p = tensor_place(m@.shards, name);
    assert(placed(m@.shards, name, p.0, p.1));
    assert(m.shards@[si].wf());
    assert(m.shards@[si]@.tensors[ti].1.fits(m.shards@[si].data_start, m.shards@[si].file_size));
}

/// How many names contain a text is how many are left when the others are taken out; and
/// of the names that an index lists, those that no file has are left in their order.
pub proof fn names_are_told_apart(
    names: Seq<Seq<char>>,
    needle: Seq<char>,
    shards: Seq<ShardSpec>,
    members: Seq<(Seq<char>, JsonTree)>,
)
    ensures
        containing(names, needle) == names.filter(
            |n: Seq<char>| text::contains_text(n, needle),
        ).len(),
        absent_names(shards, members) == Seq::new(
            members.len(),
            |i: int| members[i].0,
        ).filter(|n: Seq<char>| !has_tensor(shards, n)),
    decreases names.len() + members.len(),
{
    reveal(Seq::filter);
    if names.len() > 0 {
        names_are_told_apart(names.drop_last(), needle, shards, members);
    } else if members.len() > 0 {
        names_are_told_apart(names, needle, shards, members.drop_last());
        let listed = Seq::new(members.len(), |i: int| members[i].0);
        assert(listed.drop_last() =~= Seq::new(
            members.drop_last().len(),
            |i: int| members.drop_last()[i].0,
        ));
    } else {
        assert(absent_names(shards, members) =~= Seq::new(
            members.len(),
            |i: int| members[i].0,
        ).filter(|n: Seq<char>| !has_tensor(shards, n)));
    }
}

/// No file has a tensor named as one of the first `n`.
pub open spec fn free_before(
    shards: Seq<ShardSpec>,
    tensors: Seq<(Seq<char>, EntrySpec)>,
    n: int,
) -> bool {
    forall|j: int| 0 <= j < n ==> !has_tensor(shards, (#[trigger] tensors[j]).0)
}

/// The file has a tensor of the name.
pub open spec fn in_file(shards: Seq<ShardSpec>, name: Seq<char>, si: int) -> bool {
    exists|ti: int| placed(shards, name, si, ti)
}

/// A name that two files have is refused: that of the first tensor of the later file
/// whose name an earlier file has.
pub proof fn clash_is_the_first(shards: Seq<ShardSpec>, tensors: Seq<(Seq<char>, EntrySpec)>)
    ensures
        first_clash(shards, tensors) matches Some((name, si)) ==> exists|k: int|
            0 <= k < tensors.len() && tensors[k].0 == name && #[trigger] free_before(
                shards,
                tensors,
                k,
            ),
        first_clash(shards, tensors) matches Some((name, si)) ==> in_file(shards, name, si),
        first_clash(shards, tensors) is None ==> free_before(
            shards,
            tensors,
            tensors.len() as int,
        ),
    decreases tensors.len(),
{
    if tensors.len() > 0 {
        let d = tensors.drop_last();
        let n = tensors.len() - 1;
        clash_is_the_first(shards, d);
        assert(tensors[n] == tensors.last());
        assert forall|k: int| 0 <= k <= n && free_before(shards, d, k) implies free_before(
            shards,
            tensors,
            k,
        ) by {
            assert forall|j: int| 0 <= j < k implies !has_tensor(
                shards,
                (#[trigger] tensors[j]).0,
            ) by {
                assert(d[j] == tensors[j]);
            }
        }
        match first_clash(shards, d) {
            Some((name, si)) => {
                let k = choose|k: int|
                    0 <= k < d.len() && d[k].0 == name && #[trigger] free_before(shards, d, k);
                assert(free_before(shards, tensors, k));
                assert(tensors[k] == d[k]);
                assert(first_clash(shards, tensors) == Some((name, si)));
            },
            None => {
                assert(free_before(shards, d, n));
                assert(free_before(shards, tensors, n));
                let name = tensors[n].0;
                if has_tensor(shards, name) {
                    let (a, b) = choose|a: int, b: int| placed(shards, name, a, b);
                    assert(placed(shards, name, (a, b).0, (a, b).1));
                    let p = tensor_place(shards, name);
                    assert(placed(shards, name, p.0, p.1));
                    assert(first_clash(shards, tensors) == Some((name, p.0)));
                    assert(in_file(shards, name, p.0));
                }
            },
        }
    }
}

} // verus!
