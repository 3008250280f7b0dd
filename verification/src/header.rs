//! The header of a safetensors file, parsed and validated.
//!
//! A file is eight bytes that give the header's length as a little-endian
//! number, then the header as a JSON object, then the bytes of the tensors.
//! An entry's `data_offsets` count from the start of those bytes.
//!
//! A header that is accepted is consistent: see [`ShardHeader::wf`].
use crate::bytes;
use crate::json;
use crate::json::{Json, JsonTree};
use crate::text;
use vstd::prelude::*;
use vstd::string::*;

verus! {

/// The longest header that is accepted, 256 MiB.
pub const MAX_HEADER_BYTES: u64 = 0x1000_0000;

#[derive(Debug, Clone, Copy, PartialEq, Eq, Structural)]
pub enum Dtype {
    F64,
    F32,
    F16,
    Bf16,
    I64,
    I32,
    I16,
    I8,
    U8,
    Bool,
    F8E4M3,
    F8E5M2,
}

/// The token of an element type in a header.
pub open spec fn dtype_token(d: Dtype) -> Seq<char> {
    match d {
        Dtype::F64 => "F64"@,
        Dtype::F32 => "F32"@,
        Dtype::F16 => "F16"@,
        Dtype::Bf16 => "BF16"@,
        Dtype::I64 => "I64"@,
        Dtype::I32 => "I32"@,
        Dtype::I16 => "I16"@,
        Dtype::I8 => "I8"@,
        Dtype::U8 => "U8"@,
        Dtype::Bool => "BOOL"@,
        Dtype::F8E4M3 => "F8_E4M3"@,
        Dtype::F8E5M2 => "F8_E5M2"@,
    }
}

/// The number of bytes of one element.
pub open spec fn dtype_size(d: Dtype) -> u64 {
    match d {
        Dtype::F64 | Dtype::I64 => 8,
        Dtype::F32 | Dtype::I32 => 4,
        Dtype::F16 | Dtype::Bf16 | Dtype::I16 => 2,
        Dtype::I8 | Dtype::U8 | Dtype::Bool | Dtype::F8E4M3 | Dtype::F8E5M2 => 1,
    }
}

/// The element type that a token stands for.
pub open spec fn dtype_named(s: Seq<char>) -> Option<Dtype> {
    if exists|d: Dtype| #[trigger] dtype_token(d) == s {
        Some(choose|d: Dtype| #[trigger] dtype_token(d) == s)
    } else {
        None
    }
}

proof fn tokens_differ(a: Dtype, b: Dtype)
    requires
        a != b,
    ensures
        dtype_token(a) != dtype_token(b),
{
    reveal_strlit("F64");
    reveal_strlit("F32");
    reveal_strlit("F16");
    reveal_strlit("BF16");
    reveal_strlit("I64");
    reveal_strlit("I32");
    reveal_strlit("I16");
    reveal_strlit("I8");
    reveal_strlit("U8");
    reveal_strlit("BOOL");
    reveal_strlit("F8_E4M3");
    reveal_strlit("F8_E5M2");
    let x = dtype_token(a);
    let y = dtype_token(b);
    assert(x.len() != y.len() || x[0] != y[0] || x[1] != y[1] || x[2] != y[2] || x[3] != y[3] || x[4]
        != y[4]);
}

/// Every element type is what its own token stands for.
pub proof fn token_names_its_dtype(d: Dtype)
    ensures
        dtype_named(dtype_token(d)) == Some(d),
{
    let e = choose|e: Dtype| #[trigger] dtype_token(e) == dtype_token(d);
    assert(dtype_token(e) == dtype_token(d));
    if e != d {
        tokens_differ(e, d);
    }
}

impl Dtype {
    /// The element type that a token stands for.
    pub fn parse(s: &str) -> (r: Option<Dtype>)
        ensures
            r == dtype_named(s@),
    {
        let all: [Dtype; 12] = [
            Dtype::F64,
            Dtype::F32,
            Dtype::F16,
            Dtype::Bf16,
            Dtype::I64,
            Dtype::I32,
            Dtype::I16,
            Dtype::I8,
            Dtype::U8,
            Dtype::Bool,
            Dtype::F8E4M3,
            Dtype::F8E5M2,
        ];
        let mut i: usize = 0;
        while i < 12
            invariant
                i <= 12,
                all@ == seq![
                    Dtype::F64,
                    Dtype::F32,
                    Dtype::F16,
                    Dtype::Bf16,
                    Dtype::I64,
                    Dtype::I32,
                    Dtype::I16,
                    Dtype::I8,
                    Dtype::U8,
                    Dtype::Bool,
                    Dtype::F8E4M3,
                    Dtype::F8E5M2,
                ],
                forall|k: int| 0 <= k < i ==> dtype_token(#[trigger] all@[k]) != s@,
            decreases 12 - i,
        {
            if text::str_eq(all[i].as_str(), s) {
                proof {
                    token_names_its_dtype(all@[i as int]);
                }
                return Some(all[i]);
            }
            i += 1;
        }
        proof {
            assert forall|d: Dtype| #[trigger] dtype_token(d) != s@ by {
                let k: int = match d {
                    Dtype::F64 => 0,
                    Dtype::F32 => 1,
                    Dtype::F16 => 2,
                    Dtype::Bf16 => 3,
                    Dtype::I64 => 4,
                    Dtype::I32 => 5,
                    Dtype::I16 => 6,
                    Dtype::I8 => 7,
                    Dtype::U8 => 8,
                    Dtype::Bool => 9,
                    Dtype::F8E4M3 => 10,
                    Dtype::F8E5M2 => 11,
                };
                assert(all@[k] == d);
            }
        }
        None
    }

    /// The number of bytes of one element.
    pub fn size(self) -> (r: u64)
        ensures
            r == dtype_size(self),
    {
        match self {
            Dtype::F64 | Dtype::I64 => 8,
            Dtype::F32 | Dtype::I32 => 4,
            Dtype::F16 | Dtype::Bf16 | Dtype::I16 => 2,
            Dtype::I8 | Dtype::U8 | Dtype::Bool | Dtype::F8E4M3 | Dtype::F8E5M2 => 1,
        }
    }

    /// The token of the element type.
    pub fn as_str(self) -> (r: &'static str)
        ensures
            r@ == dtype_token(self),
    {
        match self {
            Dtype::F64 => "F64",
            Dtype::F32 => "F32",
            Dtype::F16 => "F16",
            Dtype::Bf16 => "BF16",
            Dtype::I64 => "I64",
            Dtype::I32 => "I32",
            Dtype::I16 => "I16",
            Dtype::I8 => "I8",
            Dtype::U8 => "U8",
            Dtype::Bool => "BOOL",
            Dtype::F8E4M3 => "F8_E4M3",
            Dtype::F8E5M2 => "F8_E5M2",
        }
    }
}

/// The product of the dimensions.
pub open spec fn product(shape: Seq<u64>) -> nat
    decreases shape.len(),
{
    if shape.len() == 0 {
        1
    } else {
        product(shape.drop_last()) * shape.last() as nat
    }
}

/// The product of the dimensions, provided that no leading part of them already
/// has a product beyond 64 bits.
pub open spec fn checked_product(shape: Seq<u64>) -> Option<u64> {
    if forall|k: int| 0 <= k <= shape.len() ==> product(#[trigger] shape.take(k)) <= u64::MAX {
        Some(product(shape) as u64)
    } else {
        None
    }
}

/// Product of a tensor shape, or `None` on overflow.
pub fn shape_numel(shape: &[u64]) -> (r: Option<u64>)
    ensures
        r == checked_product(shape@),
        r is Some ==> r->Some_0 == product(shape@),
{
    let mut n: u64 = 1;
    let mut i: usize = 0;
    assert(shape@.take(0) =~= Seq::empty());
    while i < shape.len()
        invariant
            i <= shape.len(),
            n == product(shape@.take(i as int)),
            forall|k: int| 0 <= k <= i ==> product(#[trigger] shape@.take(k)) <= u64::MAX,
        decreases shape.len() - i,
    {
        proof {
            let next = shape@.take(i as int + 1);
            assert(next.drop_last() =~= shape@.take(i as int));
            assert(next.last() == shape[i as int]);
        }
        match n.checked_mul(shape[i]) {
            Some(m) => {
                n = m;
            },
            None => {
                assert(product(shape@.take(i as int + 1)) > u64::MAX);
                return None;
            },
        }
        i += 1;
    }
    assert(shape@.take(shape.len() as int) =~= shape@);
    Some(n)
}

/// A tensor's entry in a header, as a mathematical value.
#[verifier::ext_equal]
pub struct TensorSpec {
    pub name: Seq<char>,
    pub dtype: Dtype,
    pub shape: Seq<u64>,
    pub start: u64,
    pub end: u64,
}

/// A tensor's entry in a header.
#[derive(Debug, Clone)]
pub struct TensorInfo {
    pub name: String,
    pub dtype: Dtype,
    pub shape: Vec<u64>,
    /// Byte range relative to the start of the tensor data.
    pub start: u64,
    pub end: u64,
}

impl View for TensorInfo {
    type V = TensorSpec;

    open spec fn view(&self) -> TensorSpec {
        TensorSpec {
            name: self.name@,
            dtype: self.dtype,
            shape: self.shape@,
            start: self.start,
            end: self.end,
        }
    }
}

impl TensorSpec {
    /// The byte range is the size of the shape's elements and lies in a buffer
    /// of the given size.
    pub open spec fn fits(self, buffer_size: u64) -> bool {
        &&& self.start <= self.end <= buffer_size
        &&& checked_product(self.shape) is Some
        &&& self.end - self.start == checked_product(self.shape)->Some_0 * dtype_size(self.dtype)
    }
}

impl TensorInfo {
    /// The number of bytes of the tensor.
    pub fn nbytes(&self) -> (r: u64)
        requires
            self.start <= self.end,
        ensures
            r == self.end - self.start,
    {
        self.end - self.start
    }

    /// The number of elements, or zero when it does not fit 64 bits.
    pub fn numel(&self) -> (r: u64)
        ensures
            r == match checked_product(self.shape@) {
                Some(n) => n,
                None => 0,
            },
    {
        match shape_numel(self.shape.as_slice()) {
            Some(n) => n,
            None => 0,
        }
    }

    /// The byte range in the file.
    pub fn abs_range(&self, data_start: u64) -> (r: (u64, u64))
        requires
            data_start + self.start <= u64::MAX,
            data_start + self.end <= u64::MAX,
        ensures
            r.0 == data_start + self.start,
            r.1 == data_start + self.end,
    {
        (data_start + self.start, data_start + self.end)
    }
}

pub open spec fn tensor_specs(s: Seq<TensorInfo>) -> Seq<TensorSpec> {
    Seq::new(s.len(), |i: int| s[i]@)
}

/// Order by start, then by end.
pub open spec fn span_le(a: TensorSpec, b: TensorSpec) -> bool {
    a.start < b.start || (a.start == b.start && a.end <= b.end)
}

/// The tensors stand in the order of their byte ranges.
pub open spec fn spans_ascend(s: Seq<TensorSpec>) -> bool {
    forall|i: int, j: int| 0 <= i <= j < s.len() ==> span_le(#[trigger] s[i], #[trigger] s[j])
}

/// How many tensors, counted up to the last one, stand no later than `t`.
pub open spec fn span_slot(s: Seq<TensorSpec>, t: TensorSpec) -> nat
    decreases s.len(),
{
    if s.len() == 0 {
        0
    } else if span_le(s.last(), t) {
        s.len()
    } else {
        span_slot(s.drop_last(), t)
    }
}

/// The tensors in the order of their byte ranges; those with the same range keep
/// the order that they had.
pub open spec fn by_span(s: Seq<TensorSpec>) -> Seq<TensorSpec>
    decreases s.len(),
{
    if s.len() == 0 {
        s
    } else {
        let before = by_span(s.drop_last());
        before.insert(span_slot(before, s.last()) as int, s.last())
    }
}

proof fn span_slot_splits(s: Seq<TensorSpec>, t: TensorSpec)
    requires
        spans_ascend(s),
    ensures
        span_slot(s, t) <= s.len(),
        forall|i: int| 0 <= i < span_slot(s, t) ==> span_le(#[trigger] s[i], t),
        forall|i: int| span_slot(s, t) <= i < s.len() ==> !span_le(#[trigger] s[i], t),
    decreases s.len(),
{
    if s.len() > 0 {
        if span_le(s.last(), t) {
            assert forall|i: int| 0 <= i < s.len() implies span_le(#[trigger] s[i], t) by {
                assert(span_le(s[i], s[s.len() - 1]));
            }
        } else {
            let d = s.drop_last();
            span_slot_splits(d, t);
            assert forall|i: int| 0 <= i < span_slot(s, t) implies span_le(#[trigger] s[i], t) by {
                assert(d[i] == s[i]);
            }
            assert forall|i: int| span_slot(s, t) <= i < s.len() implies !span_le(
                #[trigger] s[i],
                t,
            ) by {
                if i < d.len() {
                    assert(d[i] == s[i]);
                }
            }
        }
    }
}

/// Ordering by byte range gives ascending ranges, and keeps every tensor.
pub proof fn by_span_is_ordered(s: Seq<TensorSpec>)
    ensures
        spans_ascend(by_span(s)),
        by_span(s).len() == s.len(),
        by_span(s).to_multiset() == s.to_multiset(),
    decreases s.len(),
{
    broadcast use vstd::seq_lib::group_to_multiset_ensures;

    if s.len() > 0 {
        let t = s.last();
        let before = by_span(s.drop_last());
        by_span_is_ordered(s.drop_last());
        span_slot_splits(before, t);
        let at = span_slot(before, t) as int;
        let after = before.insert(at, t);
        assert forall|i: int, j: int| 0 <= i <= j < after.len() implies span_le(
            #[trigger] after[i],
            #[trigger] after[j],
        ) by {
            let i0 = if i < at {
                i
            } else {
                i - 1
            };
            let j0 = if j < at {
                j
            } else {
                j - 1
            };
            if i != at {
                assert(after[i] == before[i0]);
            }
            if j != at {
                assert(after[j] == before[j0]);
            }
        }
        assert(s =~= s.drop_last().push(t));
    }
}

/// The message of a fault in the entry `name`.
pub open spec fn entry_message(path: Seq<char>, name: Seq<char>, rest: Seq<char>) -> Seq<char> {
    path + ": entry "@ + name + rest
}

fn entry_error(path: &str, name: &str, rest: &str) -> (r: String)
    ensures
        r@ == entry_message(path@, name@, rest@),
{
    let mut s: String = path.to_owned();
    s.append(": entry ");
    s.append(name);
    s.append(rest);
    s
}

/// The dimensions of a shape, or the first item that is not an unsigned integer.
pub open spec fn dimensions(items: Seq<JsonTree>) -> Result<Seq<u64>, JsonTree>
    decreases items.len(),
{
    if items.len() == 0 {
        Ok(Seq::empty())
    } else {
        match dimensions(items.drop_last()) {
            Err(bad) => Err(bad),
            Ok(shape) => match json::unsigned(items.last()) {
                Some(n) => Ok(shape.push(n)),
                None => Err(items.last()),
            },
        }
    }
}

/// Once an item is not an unsigned integer, what follows does not matter.
proof fn dimensions_stop(items: Seq<JsonTree>, n: int)
    requires
        0 <= n <= items.len(),
        dimensions(items.take(n)) is Err,
    ensures
        dimensions(items) == dimensions(items.take(n)),
    decreases items.len(),
{
    if n < items.len() {
        let d = items.drop_last();
        assert(d.take(n) =~= items.take(n));
        dimensions_stop(d, n);
    } else {
        assert(items.take(n) =~= items);
    }
}

fn read_dimensions(items: &Vec<Json>) -> (r: Result<Vec<u64>, String>)
    ensures
        match dimensions(json::trees(items@)) {
            Ok(shape) => r is Ok && r->Ok_0@ == shape,
            Err(bad) => r is Err && r->Err_0@ == json::tree_text(bad),
        },
{
    let ghost all = json::trees(items@);
    let mut shape: Vec<u64> = Vec::new();
    let mut i: usize = 0;
    assert(all.take(0) =~= Seq::empty());
    while i < items.len()
        invariant
            i <= items.len(),
            all == json::trees(items@),
            dimensions(all.take(i as int)) == Ok::<Seq<u64>, JsonTree>(shape@),
        decreases items.len() - i,
    {
        proof {
            let next = all.take(i as int + 1);
            assert(next.drop_last() =~= all.take(i as int));
            assert(next.last() == items[i as int].tree());
        }
        match items[i].as_u64() {
            Some(n) => {
                shape.push(n);
            },
            None => {
                proof {
                    dimensions_stop(all, i as int + 1);
                }
                return Err(items[i].render());
            },
        }
        i += 1;
    }
    assert(all.take(all.len() as int) =~= all);
    Ok(shape)
}

/// What becomes of an entry whose parts were all there: offsets, shape and
/// element type have to agree, and the bytes have to lie in the buffer.
pub open spec fn span_result(
    path: Seq<char>,
    name: Seq<char>,
    dtype: Dtype,
    shape: Seq<u64>,
    start: u64,
    end: u64,
    buffer_size: u64,
) -> Result<TensorSpec, Seq<char>> {
    if end < start {
        Err(
            entry_message(
                path,
                name,
                " has end "@ + text::decimal(end as nat) + " < start "@ + text::decimal(
                    start as nat,
                ),
            ),
        )
    } else if end > buffer_size {
        Err(
            entry_message(
                path,
                name,
                " ends at "@ + text::decimal(end as nat) + " beyond buffer of "@ + text::decimal(
                    buffer_size as nat,
                ) + " bytes"@,
            ),
        )
    } else {
        match checked_product(shape) {
            None => Err(entry_message(path, name, " shape product overflows u64"@)),
            Some(n) => if n * dtype_size(dtype) > u64::MAX {
                Err(entry_message(path, name, " byte size overflows u64"@))
            } else if n * dtype_size(dtype) != end - start {
                Err(
                    entry_message(
                        path,
                        name,
                        " declares "@ + text::decimal((end - start) as nat) + " bytes but shape "@
                            + text::list_text(shape) + " x "@ + dtype_token(dtype) + " needs "@
                            + text::decimal((n * dtype_size(dtype)) as nat),
                    ),
                )
            } else {
                Ok(TensorSpec { name, dtype, shape, start, end })
            },
        }
    }
}

fn check_span(
    path: &str,
    name: &str,
    dtype: Dtype,
    shape: Vec<u64>,
    start: u64,
    end: u64,
    buffer_size: u64,
) -> (r: Result<TensorInfo, String>)
    ensures
        match span_result(path@, name@, dtype, shape@, start, end, buffer_size) {
            Ok(t) => r is Ok && r->Ok_0@ == t,
            Err(m) => r is Err && r->Err_0@ == m,
        },
{
    if end < start {
        let mut rest: String = " has end ".to_owned();
        text::push_decimal(&mut rest, end);
        rest.append(" < start ");
        text::push_decimal(&mut rest, start);
        return Err(entry_error(path, name, rest.as_str()));
    }
    if end > buffer_size {
        let mut rest: String = " ends at ".to_owned();
        text::push_decimal(&mut rest, end);
        rest.append(" beyond buffer of ");
        text::push_decimal(&mut rest, buffer_size);
        rest.append(" bytes");
        return Err(entry_error(path, name, rest.as_str()));
    }
    match shape_numel(shape.as_slice()) {
        None => Err(entry_error(path, name, " shape product overflows u64")),
        Some(n) => match n.checked_mul(dtype.size()) {
            None => Err(entry_error(path, name, " byte size overflows u64")),
            Some(expected) => {
                if expected != end - start {
                    let mut rest: String = " declares ".to_owned();
                    text::push_decimal(&mut rest, end - start);
                    rest.append(" bytes but shape ");
                    let listed: String = text::list_string(shape.as_slice());
                    rest.append(listed.as_str());
                    rest.append(" x ");
                    rest.append(dtype.as_str());
                    rest.append(" needs ");
                    text::push_decimal(&mut rest, expected);
                    return Err(entry_error(path, name, rest.as_str()));
                }
                Ok(TensorInfo { name: name.to_owned(), dtype, shape, start, end })
            },
        },
    }
}

/// What becomes of the entry `name`: a tensor in a buffer of `buffer_size`
/// bytes, or the message of the first fault.
pub open spec fn entry_result(
    path: Seq<char>,
    name: Seq<char>,
    t: JsonTree,
    buffer_size: u64,
) -> Result<TensorSpec, Seq<char>> {
    if !(t is Object) {
        Err(entry_message(path, name, " is not an object"@))
    } else {
        match json::member_text(t, "dtype"@) {
            None => Err(entry_message(path, name, " missing dtype"@)),
            Some(token) => match dtype_named(token) {
                None => Err(entry_message(path, name, " unknown dtype "@ + token)),
                Some(dtype) => match json::member_array(t, "shape"@) {
                    None => Err(entry_message(path, name, " missing shape"@)),
                    Some(items) => match dimensions(items) {
                        Err(bad) => Err(
                            entry_message(
                                path,
                                name,
                                " shape has a non-integer dimension "@ + json::tree_text(bad),
                            ),
                        ),
                        Ok(shape) => match json::member_array(t, "data_offsets"@) {
                            None => Err(entry_message(path, name, " missing data_offsets"@)),
                            Some(offs) => if offs.len() != 2 {
                                Err(entry_message(path, name, " data_offsets is not a pair"@))
                            } else {
                                match json::unsigned(offs[0]) {
                                    None => Err(
                                        entry_message(
                                            path,
                                            name,
                                            " data_offsets[0] is not a u64"@,
                                        ),
                                    ),
                                    Some(start) => match json::unsigned(offs[1]) {
                                        None => Err(
                                            entry_message(
                                                path,
                                                name,
                                                " data_offsets[1] is not a u64"@,
                                            ),
                                        ),
                                        Some(end) => span_result(
                                            path,
                                            name,
                                            dtype,
                                            shape,
                                            start,
                                            end,
                                            buffer_size,
                                        ),
                                    },
                                }
                            },
                        },
                    },
                },
            },
        }
    }
}

/// Reads the entry `name` of a header.
pub fn read_entry(path: &str, name: &str, v: &Json, buffer_size: u64) -> (r: Result<
    TensorInfo,
    String,
>)
    ensures
        match entry_result(path@, name@, v.tree(), buffer_size) {
            Ok(t) => r is Ok && r->Ok_0@ == t,
            Err(m) => r is Err && r->Err_0@ == m,
        },
{
    if !v.is_object() {
        return Err(entry_error(path, name, " is not an object"));
    }
    let dtype: Dtype = match v.get_str("dtype") {
        None => {
            return Err(entry_error(path, name, " missing dtype"));
        },
        Some(token) => match Dtype::parse(token) {
            None => {
                let mut rest: String = " unknown dtype ".to_owned();
                rest.append(token);
                return Err(entry_error(path, name, rest.as_str()));
            },
            Some(dtype) => dtype,
        },
    };
    let shape: Vec<u64> = match v.get_array("shape") {
        None => {
            return Err(entry_error(path, name, " missing shape"));
        },
        Some(items) => match read_dimensions(items) {
            Err(bad) => {
                let mut rest: String = " shape has a non-integer dimension ".to_owned();
                rest.append(bad.as_str());
                return Err(entry_error(path, name, rest.as_str()));
            },
            Ok(shape) => shape,
        },
    };
    match v.get_array("data_offsets") {
        None => Err(entry_error(path, name, " missing data_offsets")),
        Some(offs) => {
            if offs.len() != 2 {
                return Err(entry_error(path, name, " data_offsets is not a pair"));
            }
            match offs[0].as_u64() {
                None => Err(entry_error(path, name, " data_offsets[0] is not a u64")),
                Some(start) => match offs[1].as_u64() {
                    None => Err(entry_error(path, name, " data_offsets[1] is not a u64")),
                    Some(end) => check_span(path, name, dtype, shape, start, end, buffer_size),
                },
            }
        },
    }
}

/// What a header's members come to: the metadata and the tensors in the order of
/// the members, or the message of the first fault.
pub open spec fn entries_result(
    path: Seq<char>,
    members: Seq<(Seq<char>, JsonTree)>,
    buffer_size: u64,
) -> Result<(Option<Seq<(Seq<char>, JsonTree)>>, Seq<TensorSpec>), Seq<char>>
    decreases members.len(),
{
    if members.len() == 0 {
        Ok((None, Seq::empty()))
    } else {
        match entries_result(path, members.drop_last(), buffer_size) {
            Err(m) => Err(m),
            Ok((metadata, tensors)) => {
                let (name, t) = members.last();
                if name == "__metadata__"@ {
                    match t {
                        JsonTree::Object(m) => Ok((Some(m), tensors)),
                        _ => Err(path + ": __metadata__ is not an object"@),
                    }
                } else {
                    match entry_result(path, name, t, buffer_size) {
                        Err(m) => Err(m),
                        Ok(tensor) => Ok((metadata, tensors.push(tensor))),
                    }
                }
            },
        }
    }
}

/// Once an entry is faulty, what follows does not matter.
proof fn entries_stop(
    path: Seq<char>,
    members: Seq<(Seq<char>, JsonTree)>,
    buffer_size: u64,
    n: int,
)
    requires
        0 <= n <= members.len(),
        entries_result(path, members.take(n), buffer_size) is Err,
    ensures
        entries_result(path, members, buffer_size) == entries_result(
            path,
            members.take(n),
            buffer_size,
        ),
    decreases members.len(),
{
    if n < members.len() {
        let d = members.drop_last();
        assert(d.take(n) =~= members.take(n));
        entries_stop(path, d, buffer_size, n);
    } else {
        assert(members.take(n) =~= members);
    }
}

/// Every tensor that a header yields fits the buffer.
pub proof fn entries_fit(
    path: Seq<char>,
    members: Seq<(Seq<char>, JsonTree)>,
    buffer_size: u64,
)
    requires
        entries_result(path, members, buffer_size) is Ok,
    ensures
        forall|i: int|
            0 <= i < entries_result(path, members, buffer_size)->Ok_0.1.len() ==> (
            #[trigger] entries_result(path, members, buffer_size)->Ok_0.1[i]).fits(buffer_size),
    decreases members.len(),
{
    if members.len() > 0 {
        entries_fit(path, members.drop_last(), buffer_size);
    }
}

/// A parsed header, as a mathematical value.
#[verifier::ext_equal]
pub struct HeaderSpec {
    pub path: Seq<char>,
    pub file_size: u64,
    pub header_len: u64,
    pub data_start: u64,
    pub metadata: Option<Seq<(Seq<char>, JsonTree)>>,
    pub tensors: Seq<TensorSpec>,
}

/// The parsed header of one file.
pub struct ShardHeader {
    pub path: String,
    pub file_size: u64,
    pub header_len: u64,
    /// Offset of the tensor data: `8 + header_len`.
    pub data_start: u64,
    pub metadata: Option<Vec<(String, Json)>>,
    pub tensors: Vec<TensorInfo>,
}

impl View for ShardHeader {
    type V = HeaderSpec;

    open spec fn view(&self) -> HeaderSpec {
        HeaderSpec {
            path: self.path@,
            file_size: self.file_size,
            header_len: self.header_len,
            data_start: self.data_start,
            metadata: match self.metadata {
                Some(m) => Some(json::member_trees(m@)),
                None => None,
            },
            tensors: tensor_specs(self.tensors@),
        }
    }
}

impl HeaderSpec {
    /// What holds of every accepted header: the data starts after the header and
    /// inside the file; every tensor's bytes agree with its shape and lie in the
    /// file; the tensors stand in the order of their bytes.
    pub open spec fn wf(self) -> bool {
        &&& self.data_start == 8 + self.header_len
        &&& self.data_start <= self.file_size
        &&& spans_ascend(self.tensors)
        &&& forall|i: int|
            0 <= i < self.tensors.len() ==> (#[trigger] self.tensors[i]).fits(
                (self.file_size - self.data_start) as u64,
            )
    }
}

/// The bytes of all tensors together.
pub open spec fn total_bytes(s: Seq<TensorSpec>) -> nat
    decreases s.len(),
{
    if s.len() == 0 {
        0
    } else {
        total_bytes(s.drop_last()) + (s.last().end - s.last().start) as nat
    }
}

proof fn total_bytes_grows(s: Seq<TensorSpec>, n: int)
    requires
        0 <= n <= s.len(),
    ensures
        total_bytes(s.take(n)) <= total_bytes(s),
    decreases s.len(),
{
    if n < s.len() {
        assert(s.drop_last().take(n) =~= s.take(n));
        total_bytes_grows(s.drop_last(), n);
    } else {
        assert(s.take(n) =~= s);
    }
}

impl ShardHeader {
    pub open spec fn wf(&self) -> bool {
        self@.wf()
    }

    /// Sum of all tensor payload bytes, if it fits.
    pub fn checked_tensor_bytes(&self) -> (r: Option<u64>)
        requires
            self.wf(),
        ensures
            r == (if total_bytes(self@.tensors) <= u64::MAX {
                Some(total_bytes(self@.tensors) as u64)
            } else {
                None
            }),
    {
        let ghost all = self@.tensors;
        let mut sum: u64 = 0;
        let mut i: usize = 0;
        assert(all.take(0) =~= Seq::empty());
        while i < self.tensors.len()
            invariant
                i <= self.tensors.len(),
                self.wf(),
                all == self@.tensors,
                sum == total_bytes(all.take(i as int)),
            decreases self.tensors.len() - i,
        {
            proof {
                let next = all.take(i as int + 1);
                assert(next.drop_last() =~= all.take(i as int));
                assert(next.last() == self.tensors[i as int]@);
                assert(all[i as int].fits((self.file_size - self.data_start) as u64));
                total_bytes_grows(all, i as int + 1);
            }
            match sum.checked_add(self.tensors[i].nbytes()) {
                Some(x) => {
                    sum = x;
                },
                None => {
                    return None;
                },
            }
            i += 1;
        }
        assert(all.take(all.len() as int) =~= all);
        Some(sum)
    }

    /// Sum of all tensor payload bytes; the header, gaps and padding do not count.
    pub fn tensor_bytes(&self) -> (r: u64)
        requires
            self.wf(),
            total_bytes(self@.tensors) <= u64::MAX,
        ensures
            r == total_bytes(self@.tensors),
    {
        match self.checked_tensor_bytes() {
            Some(x) => x,
            None => 0,
        }
    }

    /// Size of the tensor data: `file_size - data_start`.
    pub fn buffer_bytes(&self) -> (r: u64)
        ensures
            r == (if self.file_size >= self.data_start {
                self.file_size - self.data_start
            } else {
                0
            }),
    {
        self.file_size.saturating_sub(self.data_start)
    }
}

/// What becomes of a header: `doc` is what its JSON text parses to.
pub open spec fn header_result(
    path: Seq<char>,
    file_size: u64,
    header_len: u64,
    doc: Result<JsonTree, Seq<char>>,
) -> Result<HeaderSpec, Seq<char>> {
    match doc {
        Err(message) => Err(path + ": bad JSON header: "@ + message),
        Ok(JsonTree::Object(members)) => match entries_result(
            path,
            members,
            (file_size - 8 - header_len) as u64,
        ) {
            Err(m) => Err(m),
            Ok((metadata, tensors)) => Ok(
                HeaderSpec {
                    path,
                    file_size,
                    header_len,
                    data_start: (8 + header_len) as u64,
                    metadata,
                    tensors: by_span(tensors),
                },
            ),
        },
        Ok(_) => Err(path + ": header is not a JSON object"@),
    }
}

/// Every header that is accepted is well-formed.
pub proof fn accepted_header_is_wf(
    path: Seq<char>,
    file_size: u64,
    header_len: u64,
    doc: Result<JsonTree, Seq<char>>,
)
    requires
        8 + header_len <= file_size,
        header_result(path, file_size, header_len, doc) is Ok,
    ensures
        header_result(path, file_size, header_len, doc)->Ok_0.wf(),
{
    broadcast use vstd::seq_lib::group_to_multiset_ensures;

    let members = doc->Ok_0->Object_0;
    let buffer = (file_size - 8 - header_len) as u64;
    let tensors = entries_result(path, members, buffer)->Ok_0.1;
    entries_fit(path, members, buffer);
    by_span_is_ordered(tensors);
    let sorted = by_span(tensors);
    assert forall|i: int| 0 <= i < sorted.len() implies (#[trigger] sorted[i]).fits(buffer) by {
        assert(sorted.contains(sorted[i]));
        assert(tensors.to_multiset().count(sorted[i]) > 0);
        assert(tensors.contains(sorted[i]));
    }
}

fn place_by_span(tensors: &mut Vec<TensorInfo>, t: TensorInfo)
    ensures
        tensor_specs(final(tensors)@) == tensor_specs(old(tensors)@).insert(
            span_slot(tensor_specs(old(tensors)@), t@) as int,
            t@,
        ),
{
    let ghost all = tensor_specs(tensors@);
    let mut at: usize = tensors.len();
    assert(all.take(all.len() as int) =~= all);
    while at > 0 && !(tensors[at - 1].start < t.start || (tensors[at - 1].start == t.start
        && tensors[at - 1].end <= t.end))
        invariant
            at <= tensors.len(),
            all == tensor_specs(tensors@),
            span_slot(all, t@) == span_slot(all.take(at as int), t@),
        decreases at,
    {
        assert(all.take(at as int).drop_last() =~= all.take(at as int - 1));
        assert(all.take(at as int).last() == tensors[at as int - 1]@);
        at -= 1;
    }
    assert(at > 0 ==> all.take(at as int).last() == tensors[at as int - 1]@);
    assert(span_slot(all, t@) == at);
    tensors.insert(at, t);
    assert(tensor_specs(tensors@) =~= all.insert(at as int, t@));
}

/// Validates a parsed header.
pub fn header_from_json(path: &str, file_size: u64, header_len: u64, doc: Json) -> (r: Result<
    ShardHeader,
    String,
>)
    requires
        8 + header_len <= file_size,
    ensures
        match header_result(path@, file_size, header_len, Ok(doc.tree())) {
            Ok(h) => r is Ok && r->Ok_0@ == h && r->Ok_0.wf(),
            Err(m) => r is Err && r->Err_0@ == m,
        },
{
    broadcast use {json::array_tree, json::object_tree};

    let ghost tree = doc.tree();
    let buffer_size: u64 = file_size - 8 - header_len;
    match doc {
        Json::Object(mut members) => {
            let ghost all = json::member_trees(members@);
            let mut metadata_at: Option<usize> = None;
            let mut tensors: Vec<TensorInfo> = Vec::new();
            let ghost mut metadata: Option<Seq<(Seq<char>, JsonTree)>> = None;
            let ghost mut entries: Seq<TensorSpec> = Seq::empty();
            let mut i: usize = 0;
            assert(all.take(0) =~= Seq::empty());
            assert(tensor_specs(tensors@) =~= by_span(entries));
            while i < members.len()
                invariant
                    i <= members.len(),
                    8 + header_len <= file_size,
                    buffer_size == file_size - 8 - header_len,
                    all == json::member_trees(members@),
                    tree == JsonTree::Object(all),
                    tree == doc.tree(),
                    entries_result(path@, all.take(i as int), buffer_size) == Ok::<
                        (Option<Seq<(Seq<char>, JsonTree)>>, Seq<TensorSpec>),
                        Seq<char>,
                    >((metadata, entries)),
                    tensor_specs(tensors@) == by_span(entries),
                    match metadata_at {
                        Some(k) => k < i && members[k as int].1.tree() is Object && metadata == Some(
                            members[k as int].1.tree()->Object_0,
                        ),
                        None => metadata is None,
                    },
                decreases members.len() - i,
            {
                proof {
                    let next = all.take(i as int + 1);
                    assert(next.drop_last() =~= all.take(i as int));
                    assert(next.last() == (members[i as int].0@, members[i as int].1.tree()));
                }
                let name: &str = members[i].0.as_str();
                if text::str_eq(name, "__metadata__") {
                    if !members[i].1.is_object() {
                        proof {
                            entries_stop(path@, all, buffer_size, i as int + 1);
                        }
                        let mut m: String = path.to_owned();
                        m.append(": __metadata__ is not an object");
                        return Err(m);
                    }
                    metadata_at = Some(i);
                    proof {
                        metadata = Some(members[i as int].1.tree()->Object_0);
                    }
                } else {
                    match read_entry(path, name, &members[i].1, buffer_size) {
                        Err(m) => {
                            proof {
                                entries_stop(path@, all, buffer_size, i as int + 1);
                            }
                            return Err(m);
                        },
                        Ok(t) => {
                            proof {
                                let after = entries.push(t@);
                                assert(after.drop_last() =~= entries);
                                entries = after;
                            }
                            place_by_span(&mut tensors, t);
                        },
                    }
                }
                i += 1;
            }
            assert(all.take(all.len() as int) =~= all);
            let metadata_members: Option<Vec<(String, Json)>> = match metadata_at {
                Some(k) => {
                    let found: (String, Json) = members.remove(k);
                    match found.1 {
                        Json::Object(m) => Some(m),
                        _ => None,
                    }
                },
                None => None,
            };
            proof {
                accepted_header_is_wf(path@, file_size, header_len, Ok(tree));
            }
            Ok(
                ShardHeader {
                    path: path.to_owned(),
                    file_size,
                    header_len,
                    data_start: 8 + header_len,
                    metadata: metadata_members,
                    tensors,
                },
            )
        },
        _ => {
            let mut m: String = path.to_owned();
            m.append(": header is not a JSON object");
            Err(m)
        },
    }
}

/// Parses and validates the JSON text of a header.
pub fn parse_header(path: &str, file_size: u64, header_len: u64, raw: &[u8]) -> (r: Result<
    ShardHeader,
    String,
>)
    requires
        8 + header_len <= file_size,
    ensures
        match header_result(path@, file_size, header_len, json::json_document(raw@)) {
            Ok(h) => r is Ok && r->Ok_0@ == h && r->Ok_0.wf(),
            Err(m) => r is Err && r->Err_0@ == m,
        },
{
    match json::parse(raw) {
        Ok(doc) => header_from_json(path, file_size, header_len, doc),
        Err(message) => {
            let mut m: String = path.to_owned();
            m.append(": bad JSON header: ");
            m.append(message.as_str());
            Err(m)
        },
    }
}

/// What becomes of the length field: the length of the header, or a message.
pub open spec fn extent_result(path: Seq<char>, file_size: u64, prefix: Seq<u8>) -> Result<
    u64,
    Seq<char>,
> {
    let header_len = bytes::le_value(prefix) as u64;
    if file_size < 8 {
        Err(path + ": file shorter than 8-byte header length"@)
    } else if header_len == 0 {
        Err(path + ": header length is zero"@)
    } else if header_len > MAX_HEADER_BYTES {
        Err(
            path + ": header length "@ + text::decimal(header_len as nat) + " exceeds "@
                + text::decimal(MAX_HEADER_BYTES as nat),
        )
    } else if 8 + header_len > file_size {
        Err(
            path + ": header length "@ + text::decimal(header_len as nat) + " overruns file of "@
                + text::decimal(file_size as nat) + " bytes"@,
        )
    } else {
        Ok(header_len)
    }
}

/// The length of the header of a file of `file_size` bytes, from its first eight.
pub fn header_extent(path: &str, file_size: u64, prefix: &[u8]) -> (r: Result<u64, String>)
    requires
        file_size >= 8 ==> prefix.len() == 8,
    ensures
        match extent_result(path@, file_size, prefix@) {
            Ok(n) => r == Ok::<u64, String>(n) && 8 + n <= file_size && 0 < n <= MAX_HEADER_BYTES,
            Err(m) => r is Err && r->Err_0@ == m,
        },
{
    let mut m: String = path.to_owned();
    if file_size < 8 {
        m.append(": file shorter than 8-byte header length");
        return Err(m);
    }
    assert(prefix@.subrange(0, 8) =~= prefix@);
    let header_len: u64 = bytes::read_u64(prefix, 0);
    if header_len == 0 {
        m.append(": header length is zero");
        return Err(m);
    }
    if header_len > MAX_HEADER_BYTES {
        m.append(": header length ");
        text::push_decimal(&mut m, header_len);
        m.append(" exceeds ");
        text::push_decimal(&mut m, MAX_HEADER_BYTES);
        return Err(m);
    }
    if header_len > file_size - 8 {
        m.append(": header length ");
        text::push_decimal(&mut m, header_len);
        m.append(" overruns file of ");
        text::push_decimal(&mut m, file_size);
        m.append(" bytes");
        return Err(m);
    }
    Ok(header_len)
}

/// What becomes of a whole file.
pub open spec fn file_result(path: Seq<char>, file: Seq<u8>) -> Result<HeaderSpec, Seq<char>> {
    let size = file.len() as u64;
    match extent_result(path, size, file.take(8)) {
        Err(m) => Err(m),
        Ok(n) => header_result(path, size, n, json::json_document(file.subrange(8, 8 + n))),
    }
}

/// Parses and validates the header of a file whose bytes are at hand.
pub fn read_header(path: &str, file: &[u8]) -> (r: Result<ShardHeader, String>)
    ensures
        match file_result(path@, file@) {
            Ok(h) => r is Ok && r->Ok_0@ == h && r->Ok_0.wf(),
            Err(m) => r is Err && r->Err_0@ == m,
        },
{
    let size: u64 = file.len() as u64;
    let prefix: &[u8] = if file.len() >= 8 {
        vstd::slice::slice_subrange(file, 0, 8)
    } else {
        file
    };
    assert(size >= 8 ==> prefix@ =~= file@.take(8));
    match header_extent(path, size, prefix) {
        Err(m) => Err(m),
        Ok(n) => {
            let raw: &[u8] = vstd::slice::slice_subrange(file, 8, 8 + n as usize);
            parse_header(path, size, n, raw)
        },
    }
}

/// What an accepted header yields does not depend on the size of the buffer.
proof fn entries_agree(
    path: Seq<char>,
    members: Seq<(Seq<char>, JsonTree)>,
    a: u64,
    b: u64,
)
    requires
        entries_result(path, members, a) is Ok,
        entries_result(path, members, b) is Ok,
    ensures
        entries_result(path, members, a) == entries_result(path, members, b),
    decreases members.len(),
{
    if members.len() > 0 {
        entries_agree(path, members.drop_last(), a, b);
    }
}

/// A file that was cut off before the end of its header or of a tensor is refused,
/// be it shorter by a single byte.
pub proof fn truncated_file_is_refused(path: Seq<char>, file: Seq<u8>, n: int)
    requires
        file.len() <= u64::MAX,
        0 <= n < file.len(),
        file_result(path, file) is Ok,
        ({
            let h = file_result(path, file)->Ok_0;
            n < h.data_start || exists|i: int|
                0 <= i < h.tensors.len() && n < h.data_start + (#[trigger] h.tensors[i]).end
        }),
    ensures
        file_result(path, file.take(n)) is Err,
{
    let h = file_result(path, file)->Ok_0;
    let cut = file.take(n);
    let size = n as u64;
    if n >= 8 {
        assert(cut.take(8) =~= file.take(8));
        let len = h.header_len;
        if n >= h.data_start {
            assert(cut.subrange(8, 8 + len) =~= file.subrange(8, 8 + len));
            let doc = json::json_document(file.subrange(8, 8 + len));
            if header_result(path, size, len, doc) is Ok {
                let members = doc->Ok_0->Object_0;
                entries_agree(
                    path,
                    members,
                    (file.len() - 8 - len) as u64,
                    (size - 8 - len) as u64,
                );
                accepted_header_is_wf(path, size, len, doc);
                let i = choose|i: int|
                    0 <= i < h.tensors.len() && n < h.data_start + (#[trigger] h.tensors[i]).end;
                let g = header_result(path, size, len, doc)->Ok_0;
                assert(g.tensors[i].fits((size - g.data_start) as u64));
            }
        }
    }
}

/// The tokens of the element types, and how many bytes an element of each takes: an
/// eighth of the number in its token, and one byte for a truth value.
pub proof fn tokens_and_sizes()
    ensures
        dtype_named("F64"@) == Some(Dtype::F64) && 8 * dtype_size(Dtype::F64) == 64,
        dtype_named("F32"@) == Some(Dtype::F32) && 8 * dtype_size(Dtype::F32) == 32,
        dtype_named("F16"@) == Some(Dtype::F16) && 8 * dtype_size(Dtype::F16) == 16,
        dtype_named("BF16"@) == Some(Dtype::Bf16) && 8 * dtype_size(Dtype::Bf16) == 16,
        dtype_named("I64"@) == Some(Dtype::I64) && 8 * dtype_size(Dtype::I64) == 64,
        dtype_named("I32"@) == Some(Dtype::I32) && 8 * dtype_size(Dtype::I32) == 32,
        dtype_named("I16"@) == Some(Dtype::I16) && 8 * dtype_size(Dtype::I16) == 16,
        dtype_named("I8"@) == Some(Dtype::I8) && 8 * dtype_size(Dtype::I8) == 8,
        dtype_named("U8"@) == Some(Dtype::U8) && 8 * dtype_size(Dtype::U8) == 8,
        dtype_named("BOOL"@) == Some(Dtype::Bool) && dtype_size(Dtype::Bool) == 1,
        dtype_named("F8_E4M3"@) == Some(Dtype::F8E4M3) && 8 * dtype_size(Dtype::F8E4M3) == 8,
        dtype_named("F8_E5M2"@) == Some(Dtype::F8E5M2) && 8 * dtype_size(Dtype::F8E5M2) == 8,
{
    token_names_its_dtype(Dtype::F64);
    token_names_its_dtype(Dtype::F32);
    token_names_its_dtype(Dtype::F16);
    token_names_its_dtype(Dtype::Bf16);
    token_names_its_dtype(Dtype::I64);
    token_names_its_dtype(Dtype::I32);
    token_names_its_dtype(Dtype::I16);
    token_names_its_dtype(Dtype::I8);
    token_names_its_dtype(Dtype::U8);
    token_names_its_dtype(Dtype::Bool);
    token_names_its_dtype(Dtype::F8E4M3);
    token_names_its_dtype(Dtype::F8E5M2);
}

/// The number of elements is multiplied by a dimension wherever it stands, and a shape
/// without dimensions has one element.
pub proof fn every_dimension_multiplies(shape: Seq<u64>, i: int, d: u64)
    requires
        0 <= i <= shape.len(),
    ensures
        product(shape.insert(i, d)) == product(shape) * d,
        product(Seq::<u64>::empty()) == 1,
    decreases shape.len(),
{
    let more = shape.insert(i, d);
    if i == shape.len() {
        assert(more.drop_last() =~= shape);
    } else {
        assert(more.drop_last() =~= shape.drop_last().insert(i, d));
        every_dimension_multiplies(shape.drop_last(), i, d);
        let p = product(shape.drop_last());
        let last = shape.last() as nat;
        assert((p * d) * last == (p * last) * d) by (nonlinear_arith);
    }
}

/// The dimensions of a shape are its items in their order: as many as these, the i-th
/// the number of the i-th. There are none exactly if some item is not an unsigned
/// integer, and the first such item is then reported.
pub proof fn dimensions_are_the_items(items: Seq<JsonTree>)
    ensures
        match dimensions(items) {
            Ok(shape) => shape.len() == items.len() && forall|i: int|
                0 <= i < items.len() ==> json::unsigned(#[trigger] items[i]) == Some(shape[i]),
            Err(bad) => exists|k: int|
                0 <= k < items.len() && (#[trigger] items[k]) == bad && json::unsigned(items[k])
                    is None && forall|i: int|
                    0 <= i < k ==> json::unsigned(#[trigger] items[i]) is Some,
        },
    decreases items.len(),
{
    if items.len() > 0 {
        let d = items.drop_last();
        let n = items.len() - 1;
        dimensions_are_the_items(d);
        match dimensions(d) {
            Ok(shape) => {
                assert forall|i: int| 0 <= i < n implies json::unsigned(#[trigger] items[i])
                    == Some(shape[i]) by {
                    assert(d[i] == items[i]);
                }
                assert(items[n] == items.last());
            },
            Err(bad) => {
                let k = choose|k: int|
                    0 <= k < d.len() && (#[trigger] d[k]) == bad && json::unsigned(d[k]) is None
                        && forall|i: int| 0 <= i < k ==> json::unsigned(#[trigger] d[i]) is Some;
                assert(items[k] == bad);
                assert forall|i: int| 0 <= i < k implies json::unsigned(
                    #[trigger] items[i],
                ) is Some by {
                    assert(d[i] == items[i]);
                }
            },
        }
    }
}

/// An entry's members describe the tensor: its element type's token, its dimensions in
/// their order, and where its bytes start and end.
pub open spec fn describes(t: JsonTree, tensor: TensorSpec) -> bool {
    &&& t is Object
    &&& json::member_text(t, "dtype"@) == Some(dtype_token(tensor.dtype))
    &&& json::member_array(t, "shape"@) matches Some(items) && items.len() == tensor.shape.len()
        && forall|i: int|
        0 <= i < items.len() ==> json::unsigned(#[trigger] items[i]) == Some(tensor.shape[i])
    &&& json::member_array(t, "data_offsets"@) matches Some(offs) && offs.len() == 2
        && json::unsigned(offs[0]) == Some(tensor.start) && json::unsigned(offs[1]) == Some(
        tensor.end,
    )
}

/// An entry is accepted exactly if it describes a tensor of its name whose bytes are
/// as many as its shape and element type need and lie in the buffer; and that tensor is
/// what comes of it.
pub proof fn entry_is_the_tensor_it_describes(
    path: Seq<char>,
    name: Seq<char>,
    t: JsonTree,
    buffer_size: u64,
    tensor: TensorSpec,
)
    ensures
        entry_result(path, name, t, buffer_size) == Ok::<TensorSpec, Seq<char>>(tensor) <==> {
            &&& tensor.name == name
            &&& describes(t, tensor)
            &&& tensor.start <= tensor.end <= buffer_size
            &&& checked_product(tensor.shape) is Some
            &&& product(tensor.shape) * dtype_size(tensor.dtype) == tensor.end - tensor.start
        },
{
    token_names_its_dtype(tensor.dtype);
    match json::member_array(t, "shape"@) {
        Some(items) => {
            dimensions_are_the_items(items);
            match dimensions(items) {
                Ok(shape) => {
                    if describes(t, tensor) {
                        assert forall|i: int| 0 <= i < shape.len() implies shape[i]
                            == tensor.shape[i] by {
                            assert(json::unsigned(items[i]) == Some(shape[i]));
                        }
                        assert(shape =~= tensor.shape);
                    }
                    assert(shape.take(shape.len() as int) =~= shape);
                },
                Err(_) => {
                    if describes(t, tensor) {
                        let k = choose|k: int|
                            0 <= k < items.len() && json::unsigned(#[trigger] items[k]) is None;
                        assert(json::unsigned(items[k]) == Some(tensor.shape[k]));
                    }
                },
            }
        },
        None => {},
    }
    assert(tensor.shape.take(tensor.shape.len() as int) =~= tensor.shape);
}

/// The names of the tensors ascend.
spec fn tensor_names_ascend(s: Seq<TensorSpec>) -> bool {
    forall|i: int, j: int|
        0 <= i < j < s.len() ==> text::str_before(
            (#[trigger] s[i]).name,
            (#[trigger] s[j]).name,
        )
}

/// The member is a tensor's entry, and the tensor is what comes of it.
pub open spec fn entry_of(
    path: Seq<char>,
    m: (Seq<char>, JsonTree),
    buffer_size: u64,
    tensor: TensorSpec,
) -> bool {
    m.0 != "__metadata__"@ && entry_result(path, m.0, m.1, buffer_size) == Ok::<
        TensorSpec,
        Seq<char>,
    >(tensor)
}

/// Some member is the entry of the tensor.
pub open spec fn has_entry(
    path: Seq<char>,
    members: Seq<(Seq<char>, JsonTree)>,
    buffer_size: u64,
    tensor: TensorSpec,
) -> bool {
    exists|i: int|
        0 <= i < members.len() && entry_of(path, #[trigger] members[i], buffer_size, tensor)
}

/// Some tensor comes of the member.
pub open spec fn has_tensor(
    path: Seq<char>,
    m: (Seq<char>, JsonTree),
    buffer_size: u64,
    tensors: Seq<TensorSpec>,
) -> bool {
    exists|k: int|
        0 <= k < tensors.len() && entry_of(path, m, buffer_size, #[trigger] tensors[k])
}

proof fn entries_follow_members(
    path: Seq<char>,
    members: Seq<(Seq<char>, JsonTree)>,
    buffer_size: u64,
)
    requires
        json::names_ascend(members),
        entries_result(path, members, buffer_size) is Ok,
    ensures
        ({
            let (metadata, ts) = entries_result(path, members, buffer_size)->Ok_0;
            &&& tensor_names_ascend(ts)
            &&& forall|k: int|
                0 <= k < ts.len() ==> has_entry(path, members, buffer_size, #[trigger] ts[k])
            &&& forall|i: int|
                0 <= i < members.len() && (#[trigger] members[i]).0 != "__metadata__"@
                    ==> has_tensor(path, members[i], buffer_size, ts)
            &&& members.len() == ts.len() + (if metadata is Some {
                1int
            } else {
                0
            })
            &&& match metadata {
                Some(m) => exists|i: int|
                    0 <= i < members.len() && (#[trigger] members[i]) == (
                        "__metadata__"@,
                        JsonTree::Object(m),
                    ),
                None => forall|i: int|
                    0 <= i < members.len() ==> (#[trigger] members[i]).0 != "__metadata__"@,
            }
        }),
    decreases members.len(),
{
    if members.len() > 0 {
        let d = members.drop_last();
        let n = members.len() - 1;
        assert forall|i: int, j: int| 0 <= i < j < d.len() implies text::str_before(
            #[trigger] d[i].0,
            #[trigger] d[j].0,
        ) by {
            assert(text::str_before(members[i].0, members[j].0));
        }
        entries_follow_members(path, d, buffer_size);
        let (metadata, ts) = entries_result(path, members, buffer_size)->Ok_0;
        let (metadata0, ts0) = entries_result(path, d, buffer_size)->Ok_0;
        assert(members[n] == members.last());
        assert forall|i: int| 0 <= i < n implies (#[trigger] members[i]).0 != members[n].0 by {
            assert(text::str_before(members[i].0, members[n].0));
            text::str_before_is_total(members[i].0, members[n].0);
        }
        if metadata0 is Some {
            let i = choose|i: int|
                0 <= i < d.len() && (#[trigger] d[i]) == (
                    "__metadata__"@,
                    JsonTree::Object(metadata0->Some_0),
                );
            assert(members[i] == d[i]);
            assert(metadata == metadata0);
        } else if metadata is Some {
            assert(members[n] == ("__metadata__"@, JsonTree::Object(metadata->Some_0)));
        } else {
            assert forall|i: int| 0 <= i < members.len() implies (#[trigger] members[i]).0
                != "__metadata__"@ by {
                if i < n {
                    assert(d[i] == members[i]);
                }
            }
        }
        assert forall|k: int| 0 <= k < ts.len() implies has_entry(
            path,
            members,
            buffer_size,
            #[trigger] ts[k],
        ) by {
            if k < ts0.len() {
                assert(ts0[k] == ts[k]);
                let i = choose|i: int|
                    0 <= i < d.len() && entry_of(path, #[trigger] d[i], buffer_size, ts[k]);
                assert(entry_of(path, members[i], buffer_size, ts[k]));
            } else {
                assert(entry_of(path, members[n], buffer_size, ts[k]));
            }
        }
        assert forall|i: int|
            0 <= i < members.len() && (#[trigger] members[i]).0
                != "__metadata__"@ implies has_tensor(path, members[i], buffer_size, ts) by {
            if i < n {
                assert(d[i] == members[i]);
                let k = choose|k: int|
                    0 <= k < ts0.len() && entry_of(path, d[i], buffer_size, #[trigger] ts0[k]);
                assert(ts[k] == ts0[k]);
            } else {
                assert(entry_of(path, members[n], buffer_size, ts[ts.len() - 1]));
            }
        }
        assert forall|i: int, j: int| 0 <= i < j < ts.len() implies text::str_before(
            (#[trigger] ts[i]).name,
            (#[trigger] ts[j]).name,
        ) by {
            assert(ts[i] == ts0[i]);
            if j < ts0.len() {
                assert(ts[j] == ts0[j]);
            } else {
                let a = choose|a: int|
                    0 <= a < d.len() && entry_of(path, #[trigger] d[a], buffer_size, ts0[i]);
                entry_is_the_tensor_it_describes(path, d[a].0, d[a].1, buffer_size, ts[i]);
                entry_is_the_tensor_it_describes(
                    path,
                    members[n].0,
                    members[n].1,
                    buffer_size,
                    ts[j],
                );
                assert(text::str_before(members[a].0, members[n].0));
            }
        }
    }
}

/// Ordering by byte range keeps the tensors.
proof fn by_span_keeps_tensors(s: Seq<TensorSpec>)
    ensures
        forall|i: int| 0 <= i < by_span(s).len() ==> s.contains(#[trigger] by_span(s)[i]),
        forall|i: int| 0 <= i < s.len() ==> by_span(s).contains(#[trigger] s[i]),
    decreases s.len(),
{
    if s.len() > 0 {
        let d = s.drop_last();
        let t = s.last();
        let n = s.len() - 1;
        by_span_keeps_tensors(d);
        by_span_is_ordered(d);
        let before = by_span(d);
        span_slot_splits(before, t);
        let at = span_slot(before, t) as int;
        let after = by_span(s);
        assert(after == before.insert(at, t));
        assert forall|i: int| 0 <= i < after.len() implies s.contains(#[trigger] after[i]) by {
            if i == at {
                assert(s[n] == t);
            } else {
                let i0 = if i < at {
                    i
                } else {
                    i - 1
                };
                assert(after[i] == before[i0]);
                assert(d.contains(before[i0]));
                let a = choose|a: int| 0 <= a < d.len() && d[a] == before[i0];
                assert(s[a] == after[i]);
            }
        }
        assert forall|i: int| 0 <= i < s.len() implies after.contains(#[trigger] s[i]) by {
            if i == n {
                assert(after[at] == s[i]);
            } else {
                assert(d[i] == s[i]);
                let k = choose|k: int| 0 <= k < before.len() && before[k] == s[i];
                assert(after[if k < at {
                    k
                } else {
                    k + 1
                }] == s[i]);
            }
        }
    }
}

/// Tensors with the same byte range and their names in the wrong order.
spec fn wrong_tie(s: Seq<TensorSpec>, i: int, j: int) -> bool {
    s[i].start == s[j].start && s[i].end == s[j].end && !text::str_before(s[i].name, s[j].name)
}

/// Tensors with the same byte range stand in the order that they had.
proof fn ties_keep_their_order(s: Seq<TensorSpec>, i: int, j: int)
    requires
        tensor_names_ascend(s),
        0 <= i < j < by_span(s).len(),
    ensures
        !wrong_tie(by_span(s), i, j),
    decreases s.len(),
{
    if s.len() > 0 {
        let d = s.drop_last();
        let t = s.last();
        let n = s.len() - 1;
        assert forall|a: int, b: int| 0 <= a < b < d.len() implies text::str_before(
            (#[trigger] d[a]).name,
            (#[trigger] d[b]).name,
        ) by {
            assert(text::str_before(s[a].name, s[b].name));
        }
        by_span_is_ordered(d);
        let before = by_span(d);
        span_slot_splits(before, t);
        let at = span_slot(before, t) as int;
        let after = by_span(s);
        assert(after == before.insert(at, t));
        let i0 = if i < at {
            i
        } else {
            i - 1
        };
        let j0 = if j < at {
            j
        } else {
            j - 1
        };
        if j == at {
            assert(after[i] == before[i0]);
            by_span_keeps_tensors(d);
            assert(d.contains(before[i0]));
            let a = choose|a: int| 0 <= a < d.len() && d[a] == before[i0];
            assert(s[a] == d[a]);
            assert(text::str_before(s[a].name, s[n].name));
        } else if i == at {
            assert(after[j] == before[j0]);
            assert(!span_le(before[j0], t));
        } else {
            assert(after[i] == before[i0] && after[j] == before[j0]);
            ties_keep_their_order(d, i0, j0);
        }
    }
}

/// An accepted header lists the tensors of its entries: one for every member but the
/// metadata, none besides, in the order of their byte ranges, and by their names where
/// these are the same. The metadata is the member of that name, and the tensors' bytes
/// start after the eight bytes of the length and the header itself.
pub proof fn header_lists_its_entries(
    path: Seq<char>,
    file_size: u64,
    header_len: u64,
    members: Seq<(Seq<char>, JsonTree)>,
)
    requires
        8 + header_len <= file_size,
        json::names_ascend(members),
        header_result(path, file_size, header_len, Ok(JsonTree::Object(members))) is Ok,
    ensures
        ({
            let h = header_result(path, file_size, header_len, Ok(JsonTree::Object(members)))->Ok_0;
            let size = (file_size - 8 - header_len) as u64;
            &&& h.path == path && h.file_size == file_size && h.header_len == header_len
            &&& h.data_start == 8 + header_len
            &&& forall|k: int|
                0 <= k < h.tensors.len() ==> has_entry(path, members, size, #[trigger] h.tensors[k])
            &&& forall|i: int|
                0 <= i < members.len() && (#[trigger] members[i]).0 != "__metadata__"@
                    ==> has_tensor(path, members[i], size, h.tensors)
            &&& members.len() == h.tensors.len() + (if h.metadata is Some {
                1int
            } else {
                0
            })
            &&& match h.metadata {
                Some(m) => exists|i: int|
                    0 <= i < members.len() && (#[trigger] members[i]) == (
                        "__metadata__"@,
                        JsonTree::Object(m),
                    ),
                None => forall|i: int|
                    0 <= i < members.len() ==> (#[trigger] members[i]).0 != "__metadata__"@,
            }
            &&& forall|i: int, j: int|
                0 <= i < j < h.tensors.len() ==> {
                    let a = #[trigger] h.tensors[i];
                    let b = #[trigger] h.tensors[j];
                    ||| a.start < b.start
                    ||| a.start == b.start && a.end < b.end
                    ||| a.start == b.start && a.end == b.end && text::str_before(a.name, b.name)
                }
        }),
{
    let h = header_result(path, file_size, header_len, Ok(JsonTree::Object(members)))->Ok_0;
    let size = (file_size - 8 - header_len) as u64;
    let (metadata, ts) = entries_result(path, members, size)->Ok_0;
    entries_follow_members(path, members, size);
    by_span_is_ordered(ts);
    by_span_keeps_tensors(ts);
    assert forall|k: int| 0 <= k < h.tensors.len() implies has_entry(
        path,
        members,
        size,
        #[trigger] h.tensors[k],
    ) by {
        assert(ts.contains(h.tensors[k]));
        let a = choose|a: int| 0 <= a < ts.len() && ts[a] == h.tensors[k];
        assert(has_entry(path, members, size, ts[a]));
    }
    assert forall|i: int|
        0 <= i < members.len() && (#[trigger] members[i]).0 != "__metadata__"@ implies has_tensor(
        path,
        members[i],
        size,
        h.tensors,
    ) by {
        let k = choose|k: int|
            0 <= k < ts.len() && entry_of(path, members[i], size, #[trigger] ts[k]);
        assert(h.tensors.contains(ts[k]));
        let b = choose|b: int| 0 <= b < h.tensors.len() && h.tensors[b] == ts[k];
        assert(entry_of(path, members[i], size, h.tensors[b]));
    }
    assert forall|i: int, j: int| 0 <= i < j < h.tensors.len() implies {
        let a = #[trigger] h.tensors[i];
        let b = #[trigger] h.tensors[j];
        ||| a.start < b.start
        ||| a.start == b.start && a.end < b.end
        ||| a.start == b.start && a.end == b.end && text::str_before(a.name, b.name)
    } by {
        assert(span_le(h.tensors[i], h.tensors[j]));
        ties_keep_their_order(ts, i, j);
    }
}

/// The header of a file is what its bytes from the ninth on hold, as many of them as
/// the number in the first eight says; a header is accepted only where that number is
/// positive, no more than 256 MiB, and leaves the header inside the file.
pub proof fn header_is_framed_by_its_length(path: Seq<char>, file: Seq<u8>)
    requires
        file.len() <= u64::MAX,
    ensures
        file_result(path, file) matches Ok(h) ==> {
            let n = bytes::le_value(file.take(8));
            &&& 0 < n <= 0x1000_0000
            &&& 8 + n <= file.len()
            &&& h.header_len == n
            &&& h.file_size == file.len()
            &&& header_result(
                path,
                file.len() as u64,
                n as u64,
                json::json_document(file.subrange(8, 8 + n as int)),
            ) == Ok::<HeaderSpec, Seq<char>>(h)
        },
        ({
            let n = bytes::le_value(file.take(8));
            let doc = json::json_document(file.subrange(8, 8 + n as int));
            file.len() >= 8 && 0 < n <= 0x1000_0000 && 8 + n <= file.len() ==> file_result(path, file)
                == header_result(path, file.len() as u64, n as u64, doc)
        }),
{
    if file.len() >= 8 {
        bytes::le_value_is_bounded(file.take(8));
        reveal_with_fuel(bytes::byte_power, 9);
    }
}

/// Every tensor counts for its own bytes, wherever it stands.
pub proof fn every_tensor_adds_its_bytes(s: Seq<TensorSpec>, i: int)
    requires
        0 <= i < s.len(),
        s[i].start <= s[i].end,
    ensures
        total_bytes(s) == total_bytes(s.remove(i)) + s[i].end - s[i].start,
    decreases s.len(),
{
    if i == s.len() - 1 {
        assert(s.remove(i) =~= s.drop_last());
    } else {
        every_tensor_adds_its_bytes(s.drop_last(), i);
        assert(s.remove(i).drop_last() =~= s.drop_last().remove(i));
        assert(s.remove(i).last() == s.last());
    }
}

} // verus!
