//! Files made at random, to try the reading of headers and the planning of reads.
//!
//! A run is fixed by its seed: every case is a function of the state of the
//! generator. Whatever a case holds, it is either refused or planned soundly
//! ([`no_case_is_unsound`]).
use crate::bytes;
use crate::header;
use crate::header::{Dtype, HeaderSpec};
use crate::oracle;
use crate::plan;
use crate::plan::Range;
use crate::text;
use vstd::prelude::*;
use vstd::string::*;
use vstd::utf8::*;

verus! {

/// What a state is multiplied with to give a number.
pub const MULTIPLIER: u64 = 0x2545_F491_4F6C_DD1D;

/// The state that follows `s`.
pub open spec fn next_state(s: u64) -> u64 {
    let a = s ^ (s >> 12);
    let b = a ^ (a << 25);
    b ^ (b >> 27)
}

/// The number that a state gives: its product with a constant, in 64 bits.
pub open spec fn number_of(s: u64) -> u64 {
    (s * MULTIPLIER % 0x1_0000_0000_0000_0000) as u64
}

/// A number below `n` drawn in state `s`, and the state after it.
pub open spec fn draw(s: u64, n: u64) -> (u64, u64) {
    if n <= 1 {
        (0, s)
    } else {
        (number_of(next_state(s)) % n, next_state(s))
    }
}

/// A drawn number is below its bound.
pub proof fn drawn_is_below(s: u64, n: u64)
    requires
        n > 0,
    ensures
        draw(s, n).0 < n,
{
}

/// The generator never falls into the state that only follows itself.
pub proof fn state_stays_nonzero(s: u64)
    requires
        s != 0,
    ensures
        next_state(s) != 0,
{
    assert(s != 0 ==> s ^ (s >> 12) != 0) by (bit_vector);
    let a = s ^ (s >> 12);
    assert(a != 0 ==> a ^ (a << 25) != 0) by (bit_vector);
    let b = a ^ (a << 25);
    assert(b != 0 ==> b ^ (b >> 27) != 0) by (bit_vector);
}

/// A generator of numbers that a seed determines: xorshift64*.
pub struct Rng {
    pub state: u64,
}

impl Rng {
    pub fn new(seed: u64) -> (r: Rng)
        ensures
            r.state == seed | 1,
            r.state != 0,
    {
        assert(seed | 1 != 0) by (bit_vector);
        Rng { state: seed | 1 }
    }

    /// Moves on to the next state, and gives its number.
    pub fn next_u64(&mut self) -> (r: u64)
        ensures
            final(self).state == next_state(old(self).state),
            r == number_of(final(self).state),
    {
        let mut x: u64 = self.state;
        x = x ^ (x >> 12);
        x = x ^ (x << 25);
        x = x ^ (x >> 27);
        self.state = x;
        x.wrapping_mul(MULTIPLIER)
    }

    /// A value in `[0, n)`, or 0 where there is none.
    pub fn below(&mut self, n: u64) -> (r: u64)
        ensures
            (r, final(self).state) == draw(old(self).state, n),
            n > 0 ==> r < n,
    {
        if n <= 1 {
            0
        } else {
            self.next_u64() % n
        }
    }

    /// One of some values.
    pub fn pick<'a, T>(&mut self, xs: &'a [T]) -> (r: &'a T)
        requires
            xs@.len() > 0,
        ensures
            *r == xs@[draw(old(self).state, xs@.len() as u64).0 as int],
            final(self).state == draw(old(self).state, xs@.len() as u64).1,
    {
        let n: usize = xs.len();
        &xs[self.below(n as u64) as usize]
    }
}

/// The dtype names that cases use, some of which name nothing.
pub open spec fn dtype_tokens() -> Seq<Seq<char>> {
    seq![
        "F64"@,
        "F32"@,
        "F16"@,
        "BF16"@,
        "I64"@,
        "I32"@,
        "I16"@,
        "I8"@,
        "U8"@,
        "BOOL"@,
        "F8_E4M3"@,
        "F8_E5M2"@,
        "F7"@,
        ""@,
        "f32"@,
        "F32 "@,
        "FLOAT32"@,
        "U16"@,
        "I4"@,
    ]
}

/// The numbers at which things tend to break.
pub open spec fn weird_numbers() -> Seq<u64> {
    seq![
        0,
        1,
        2,
        7,
        8,
        15,
        16,
        4095,
        4096,
        4097,
        8192,
        65535,
        65536,
        0xffff_ffff,
        0x1_0000_0000,
        0x100_0000_0000,
        0x1_0000_0000_0000,
        0xffff_ffff_ffff_fffe,
        0xffff_ffff_ffff_ffff,
    ]
}

fn dtype_token(i: u64) -> (r: &'static str)
    requires
        i < 19,
    ensures
        r@ == dtype_tokens()[i as int],
{
    match i {
        0 => "F64",
        1 => "F32",
        2 => "F16",
        3 => "BF16",
        4 => "I64",
        5 => "I32",
        6 => "I16",
        7 => "I8",
        8 => "U8",
        9 => "BOOL",
        10 => "F8_E4M3",
        11 => "F8_E5M2",
        12 => "F7",
        13 => "",
        14 => "f32",
        15 => "F32 ",
        16 => "FLOAT32",
        17 => "U16",
        _ => "I4",
    }
}

/// A weird number drawn in state `s`, and the state after it.
pub open spec fn weird(s: u64) -> (u64, u64) {
    let (i, t) = draw(s, 19);
    (weird_numbers()[i as int], t)
}

fn weird_number(rng: &mut Rng) -> (r: u64)
    ensures
        (r, final(rng).state) == weird(old(rng).state),
{
    let i: u64 = rng.below(19);
    match i {
        0 => 0,
        1 => 1,
        2 => 2,
        3 => 7,
        4 => 8,
        5 => 15,
        6 => 16,
        7 => 4095,
        8 => 4096,
        9 => 4097,
        10 => 8192,
        11 => 65535,
        12 => 65536,
        13 => 0xffff_ffff,
        14 => 0x1_0000_0000,
        15 => 0x100_0000_0000,
        16 => 0x1_0000_0000_0000,
        17 => 0xffff_ffff_ffff_fffe,
        _ => 0xffff_ffff_ffff_ffff,
    }
}

/// The number of dtype names that cases use.
pub fn dtype_token_count() -> (r: usize)
    ensures
        r == dtype_tokens().len(),
{
    19
}

/// Whether every name that names a dtype names the one whose token it leads to.
pub fn dtype_table_is_consistent() -> (r: bool)
    ensures
        r == (forall|i: int|
            0 <= i < dtype_tokens().len() ==> (header::dtype_named(
                #[trigger] dtype_tokens()[i],
            ) matches Some(d) ==> header::dtype_named(header::dtype_token(d)) == Some(d))),
        r,
{
    let mut i: u64 = 0;
    while i < 19
        invariant
            i <= 19,
            forall|k: int|
                0 <= k < i ==> (header::dtype_named(#[trigger] dtype_tokens()[k]) matches Some(d)
                    ==> header::dtype_named(header::dtype_token(d)) == Some(d)),
        decreases 19 - i,
    {
        match Dtype::parse(dtype_token(i)) {
            None => {},
            Some(d) => {
                proof {
                    header::token_names_its_dtype(d);
                }
                let again: Option<Dtype> = Dtype::parse(d.as_str());
                if again != Some(d) {
                    return false;
                }
            },
        }
        i += 1;
    }
    true
}

/// A dimension as text, drawn in state `s`, and the state after it.
pub open spec fn random_dimension(s: u64) -> (Seq<char>, u64) {
    let (k, t) = draw(s, 8);
    if k == 0 {
        let (n, u) = weird(t);
        (text::decimal(n as nat), u)
    } else if k == 1 {
        ("-1"@, t)
    } else if k == 2 {
        ("1.5"@, t)
    } else if k == 3 {
        ("null"@, t)
    } else if k == 4 {
        ("\"3\""@, t)
    } else if k == 5 {
        ("18446744073709551615"@, t)
    } else if k == 6 {
        let (n, u) = draw(t, 0x10_0000);
        (text::decimal(n as nat), u)
    } else {
        let (n, u) = draw(t, 64);
        (text::decimal(n as nat), u)
    }
}

/// An open bracket and `n` dimensions, drawn from state `s` on.
pub open spec fn random_dimensions(n: nat, s: u64) -> (Seq<char>, u64)
    decreases n,
{
    if n == 0 {
        ("["@, s)
    } else {
        let (before, t) = random_dimensions((n - 1) as nat, s);
        let (d, u) = random_dimension(t);
        ((if n > 1 {
            before + ","@
        } else {
            before
        }) + d, u)
    }
}

/// A shape as text, drawn from state `s` on.
pub open spec fn random_shape(s: u64) -> (Seq<char>, u64) {
    let (n, t) = draw(s, 4);
    let (dims, u) = random_dimensions(n as nat, t);
    (dims + "]"@, u)
}

fn rand_dimension(rng: &mut Rng, out: &mut String)
    ensures
        (final(out)@, final(rng).state) == ({
            let (d, t) = random_dimension(old(rng).state);
            (old(out)@ + d, t)
        }),
{
    match rng.below(8) {
        0 => {
            let n: u64 = weird_number(rng);
            text::push_decimal(out, n);
        },
        1 => {
            out.append("-1");
        },
        2 => {
            out.append("1.5");
        },
        3 => {
            out.append("null");
        },
        4 => {
            out.append("\"3\"");
        },
        5 => {
            out.append("18446744073709551615");
        },
        6 => {
            let n: u64 = rng.below(0x10_0000);
            text::push_decimal(out, n);
        },
        _ => {
            let n: u64 = rng.below(64);
            text::push_decimal(out, n);
        },
    }
}

/// A shape as text, sometimes one that no tensor can have.
pub fn rand_shape(rng: &mut Rng) -> (r: String)
    ensures
        (r@, final(rng).state) == random_shape(old(rng).state),
{
    let n: u64 = rng.below(4);
    let ghost start = rng.state;
    let mut out: String = "[".to_owned();
    let mut i: u64 = 0;
    while i < n
        invariant
            i <= n,
            (out@, rng.state) == random_dimensions(i as nat, start),
        decreases n - i,
    {
        if i > 0 {
            out.append(",");
        }
        rand_dimension(rng, &mut out);
        i += 1;
    }
    out.append("]");
    out
}

/// The name of the `i`-th entry, drawn in state `s`, and the state after it.
pub open spec fn random_name(i: nat, s: u64) -> (Seq<char>, u64) {
    let (k, t) = draw(s, 6);
    (
        if k == 0 {
            "t"@ + text::decimal(i)
        } else if k == 1 {
            "__metadata__"@
        } else if k == 2 {
            Seq::empty()
        } else if k == 3 {
            "layer."@ + text::decimal(i) + ".weight"@
        } else if k == 4 {
            "\u{1F600}"@
        } else {
            "dup"@
        },
        t,
    )
}

fn rand_name(rng: &mut Rng, i: u64) -> (r: String)
    ensures
        (r@, final(rng).state) == random_name(i as nat, old(rng).state),
{
    match rng.below(6) {
        0 => {
            let mut m: String = "t".to_owned();
            text::push_decimal(&mut m, i);
            m
        },
        1 => "__metadata__".to_owned(),
        2 => String::new(),
        3 => {
            let mut m: String = "layer.".to_owned();
            text::push_decimal(&mut m, i);
            m.append(".weight");
            m
        },
        4 => "\u{1F600}".to_owned(),
        _ => "dup".to_owned(),
    }
}

/// The offsets of an entry, drawn from state `s` on: start, end, next state.
/// They mostly follow `cursor`, the end of the entries before.
pub open spec fn random_offsets(cursor: u64, s: u64) -> (u64, u64, u64) {
    let (k, t) = draw(s, 10);
    if k == 0 {
        let (a, u) = weird(t);
        let (b, v) = weird(u);
        (a, b, v)
    } else if k == 1 {
        let (a, u) = draw(t, 4096);
        (a, if a == 0 {
            0
        } else {
            (a - 1) as u64
        }, u)
    } else if k == 2 {
        let (n, u) = draw(t, 4096);
        (cursor, (cursor + n) as u64, u)
    } else if k == 3 {
        (0, u64::MAX, t)
    } else {
        let (n, u) = draw(t, 1024);
        (cursor, (cursor + n) as u64, u)
    }
}

fn rand_offsets(rng: &mut Rng, cursor: u64) -> (r: (u64, u64))
    requires
        cursor <= 0x40_0000,
    ensures
        (r.0, r.1, final(rng).state) == random_offsets(cursor, old(rng).state),
{
    match rng.below(10) {
        0 => {
            let a: u64 = weird_number(rng);
            let b: u64 = weird_number(rng);
            (a, b)
        },
        1 => {
            let a: u64 = rng.below(4096);
            (a, a.saturating_sub(1))
        },
        2 => {
            let n: u64 = rng.below(4096);
            (cursor, cursor + n)
        },
        3 => (0, u64::MAX),
        _ => {
            let n: u64 = rng.below(1024);
            (cursor, cursor + n)
        },
    }
}

/// The end of the entries so far, after one that ends at `end`.
pub open spec fn advanced(cursor: u64, end: u64) -> u64 {
    let most = if end > cursor {
        end
    } else {
        cursor
    };
    if most > 0x40_0000 {
        0x40_0000
    } else {
        most
    }
}

/// A pair of offsets as text, without the closing bracket.
pub open spec fn offsets_text(start: u64, end: u64) -> Seq<char> {
    "\"data_offsets\":["@ + text::decimal(start as nat) + ","@ + text::decimal(end as nat)
}

/// An entry as text, in the form that `k` asks for; some forms are malformed.
pub open spec fn entry_text(
    k: u64,
    name: Seq<char>,
    dtype: Seq<char>,
    shape: Seq<char>,
    start: u64,
    end: u64,
) -> Seq<char> {
    let head = "\""@ + name + "\":"@;
    if k == 0 {
        head + "42"@
    } else if k == 1 {
        head + "{\"dtype\":\""@ + dtype + "\",\"shape\":"@ + shape + "}"@
    } else if k == 2 {
        head + "{\"dtype\":\""@ + dtype + "\","@ + offsets_text(start, end) + "]}"@
    } else if k == 3 {
        head + "{\"shape\":"@ + shape + ","@ + offsets_text(start, end) + "]}"@
    } else if k == 4 {
        head + "{\"dtype\":\""@ + dtype + "\",\"shape\":"@ + shape + ",\"data_offsets\":["@
            + text::decimal(start as nat) + "]}"@
    } else if k == 5 {
        head + "{\"dtype\":\""@ + dtype + "\",\"shape\":"@ + shape + ","@ + offsets_text(
            start,
            end,
        ) + ",3]}"@
    } else {
        head + "{\"dtype\":\""@ + dtype + "\",\"shape\":"@ + shape + ","@ + offsets_text(
            start,
            end,
        ) + "]}"@
    }
}

fn push_offsets(m: &mut String, start: u64, end: u64)
    ensures
        final(m)@ == old(m)@ + offsets_text(start, end),
{
    m.append("\"data_offsets\":[");
    text::push_decimal(m, start);
    m.append(",");
    text::push_decimal(m, end);
    assert(m@ =~= old(m)@ + offsets_text(start, end));
}

pub(crate) fn entry_string(k: u64, name: &str, dtype: &str, shape: &str, start: u64, end: u64) -> (r: String)
    ensures
        r@ == entry_text(k, name@, dtype@, shape@, start, end),
{
    let mut m: String = "\"".to_owned();
    m.append(name);
    m.append("\":");
    if k == 0 {
        m.append("42");
        return m;
    }
    if k == 3 {
        m.append("{\"shape\":");
        m.append(shape);
        m.append(",");
        push_offsets(&mut m, start, end);
        m.append("]}");
        return m;
    }
    m.append("{\"dtype\":\"");
    m.append(dtype);
    if k == 2 {
        m.append("\",");
        push_offsets(&mut m, start, end);
        m.append("]}");
        return m;
    }
    m.append("\",\"shape\":");
    m.append(shape);
    if k == 1 {
        m.append("}");
    } else if k == 4 {
        m.append(",\"data_offsets\":[");
        text::push_decimal(&mut m, start);
        m.append("]}");
    } else {
        m.append(",");
        push_offsets(&mut m, start, end);
        m.append(if k == 5 {
            ",3]}"
        } else {
            "]}"
        });
    }
    m
}

/// The `i`-th entry, drawn from state `s` on, with `cursor` the end of those
/// before: its text, the new end, the next state.
pub open spec fn random_entry(i: nat, cursor: u64, s: u64) -> (Seq<char>, u64, u64) {
    let (name, s1) = random_name(i, s);
    let (d, s2) = draw(s1, 19);
    let (shape, s3) = random_shape(s2);
    let (start, end, s4) = random_offsets(cursor, s3);
    let (k, s5) = draw(s4, 12);
    (
        entry_text(k, name, dtype_tokens()[d as int], shape, start, end),
        advanced(cursor, end),
        s5,
    )
}

/// The first `n` entries, drawn from state `s` on.
pub open spec fn random_entries(n: nat, s: u64) -> (Seq<Seq<char>>, u64, u64)
    decreases n,
{
    if n == 0 {
        (Seq::empty(), 0, s)
    } else {
        let (before, cursor, t) = random_entries((n - 1) as nat, s);
        let (entry, next, u) = random_entry((n - 1) as nat, cursor, t);
        (before.push(entry), next, u)
    }
}

fn rand_entries(rng: &mut Rng, n: u64) -> (r: Vec<String>)
    ensures
        text::views(r@) == random_entries(n as nat, old(rng).state).0,
        final(rng).state == random_entries(n as nat, old(rng).state).2,
{
    let ghost start_state = rng.state;
    let mut entries: Vec<String> = Vec::new();
    let mut cursor: u64 = 0;
    let mut i: u64 = 0;
    assert(text::views(entries@) =~= Seq::empty());
    while i < n
        invariant
            i <= n,
            cursor <= 0x40_0000,
            (text::views(entries@), cursor, rng.state) == random_entries(i as nat, start_state),
        decreases n - i,
    {
        let name: String = rand_name(rng, i);
        let d: u64 = rng.below(19);
        let dtype: &str = dtype_token(d);
        let shape: String = rand_shape(rng);
        let (start, end) = rand_offsets(rng, cursor);
        let ghost before = text::views(entries@);
        if end > cursor {
            cursor = end;
        }
        if cursor > 0x40_0000 {
            cursor = 0x40_0000;
        }
        let k: u64 = rng.below(12);
        let entry: String = entry_string(k, name.as_str(), dtype, shape.as_str(), start, end);
        entries.push(entry);
        assert(text::views(entries@) =~= before.push(entry@));
        i += 1;
    }
    entries
}

/// How the bytes of a case are filled.
#[derive(Clone, Copy)]
pub enum Filling {
    /// Tensor data: a drawn byte on top of a pattern.
    Payload,
    /// Any bytes.
    Noise,
    /// Printable ASCII.
    Printable,
}

/// The `i`-th byte of a filling, drawn in state `s`, and the state after it.
pub open spec fn filled_byte(kind: Filling, i: nat, s: u64) -> (u8, u64) {
    match kind {
        Filling::Payload => {
            let (d, t) = draw(s, 256);
            (((i % 256 * 31 + d) % 256) as u8, t)
        },
        Filling::Noise => {
            let (d, t) = draw(s, 256);
            (d as u8, t)
        },
        Filling::Printable => {
            let (d, t) = draw(s, 95);
            ((32 + d) as u8, t)
        },
    }
}

/// `n` bytes, drawn from state `s` on.
pub open spec fn filled(kind: Filling, n: nat, s: u64) -> (Seq<u8>, u64)
    decreases n,
{
    if n == 0 {
        (Seq::empty(), s)
    } else {
        let (before, t) = filled(kind, (n - 1) as nat, s);
        let (b, u) = filled_byte(kind, (n - 1) as nat, t);
        (before.push(b), u)
    }
}

/// Draws `n` bytes.
pub fn fill(rng: &mut Rng, kind: Filling, n: u64) -> (r: Vec<u8>)
    ensures
        (r@, final(rng).state) == filled(kind, n as nat, old(rng).state),
{
    let ghost start = rng.state;
    let mut out: Vec<u8> = Vec::new();
    let mut i: u64 = 0;
    while i < n
        invariant
            i <= n,
            (out@, rng.state) == filled(kind, i as nat, start),
        decreases n - i,
    {
        let b: u8 = match kind {
            Filling::Payload => {
                let d: u64 = rng.below(256);
                ((i % 256 * 31 + d) % 256) as u8
            },
            Filling::Noise => rng.below(256) as u8,
            Filling::Printable => (32 + rng.below(95)) as u8,
        };
        out.push(b);
        i += 1;
    }
    out
}

/// The text of a header with these entries, drawn from state `s` on: mostly an
/// object, sometimes broken.
pub open spec fn random_json(entries: Seq<Seq<char>>, s: u64) -> (Seq<char>, u64) {
    let all = text::joined(entries, ","@, entries.len());
    let (broken, t) = draw(s, 16);
    if broken == 0 {
        let (k, u) = draw(t, 4);
        (
            if k == 0 {
                "{"@
            } else if k == 1 {
                "{"@ + all + "}"@
            } else if k == 2 {
                "["@ + all + "]"@
            } else {
                "{not json at all"@
            },
            u,
        )
    } else {
        ("{"@ + all + "}"@, t)
    }
}

pub(crate) fn enclosed(open: &str, inner: &str, close: &str) -> (r: String)
    ensures
        r@ == open@ + inner@ + close@,
{
    let mut m: String = open.to_owned();
    m.append(inner);
    m.append(close);
    m
}

fn rand_json(rng: &mut Rng, entries: &Vec<String>) -> (r: String)
    ensures
        (r@, final(rng).state) == random_json(text::views(entries@), old(rng).state),
{
    let all: String = text::join(entries, ",");
    if rng.below(16) == 0 {
        match rng.below(4) {
            0 => "{".to_owned(),
            1 => enclosed("{", all.as_str(), "}"),
            2 => enclosed("[", all.as_str(), "]"),
            _ => "{not json at all".to_owned(),
        }
    } else {
        enclosed("{", all.as_str(), "}")
    }
}

/// A generated case: header text, tensor data, and a header length to declare in
/// place of the true one.
#[verifier::ext_equal]
pub struct CaseSpec {
    pub json: Seq<char>,
    pub payload: Seq<u8>,
    pub forced: Option<u64>,
}

/// A case drawn from state `s` on, and the state after it.
pub open spec fn random_case(s: u64) -> (CaseSpec, u64) {
    let (n, s1) = draw(s, 5);
    let (entries, _, s2) = random_entries(n as nat, s1);
    let (json, s3) = random_json(entries, s2);
    let (len, s4) = draw(s3, 65536);
    let (payload, s5) = filled(Filling::Payload, len as nat, s4);
    let (k, s6) = draw(s5, 8);
    if k == 0 {
        let (x, s7) = weird(s6);
        (CaseSpec { json, payload, forced: Some(x) }, s7)
    } else {
        (CaseSpec { json, payload, forced: None }, s6)
    }
}

/// Generates one case: header text, tensor data, forced header length.
pub fn gen_case(rng: &mut Rng) -> (r: (String, Vec<u8>, Option<u64>))
    ensures
        random_case(old(rng).state) == (
            (CaseSpec { json: r.0@, payload: r.1@, forced: r.2 }),
            final(rng).state,
        ),
{
    let n: u64 = rng.below(5);
    let entries: Vec<String> = rand_entries(rng, n);
    let json: String = rand_json(rng, &entries);
    let len: u64 = rng.below(65536);
    let payload: Vec<u8> = fill(rng, Filling::Payload, len);
    let forced: Option<u64> = if rng.below(8) == 0 {
        Some(weird_number(rng))
    } else {
        None
    };
    (json, payload, forced)
}

/// A file: the declared header length, the header, the tensor data.
pub open spec fn framed(declared: u64, header: Seq<u8>, payload: Seq<u8>) -> Seq<u8> {
    bytes::le_bytes(declared as nat, 8) + header + payload
}

/// A file whose header is a text. Its length is declared, unless another is forced.
pub open spec fn assembled(json: Seq<char>, payload: Seq<u8>, forced: Option<u64>) -> Seq<u8> {
    let header = encode_utf8(json);
    framed(match forced {
        Some(x) => x,
        None => header.len() as u64,
    }, header, payload)
}

fn push_all(out: &mut Vec<u8>, more: &[u8])
    ensures
        final(out)@ == old(out)@ + more@,
{
    let mut i: usize = 0;
    while i < more.len()
        invariant
            i <= more.len(),
            out@ == old(out)@ + more@.take(i as int),
        decreases more.len() - i,
    {
        out.push(more[i]);
        assert(more@.take(i as int + 1) =~= more@.take(i as int).push(more@[i as int]));
        i += 1;
    }
    assert(more@.take(more@.len() as int) =~= more@);
}

pub(crate) fn frame(declared: u64, head: &[u8], payload: &[u8]) -> (r: Vec<u8>)
    ensures
        r@ == framed(declared, head@, payload@),
{
    let mut v: Vec<u8> = Vec::new();
    bytes::push_le(&mut v, declared, 8);
    push_all(&mut v, head);
    push_all(&mut v, payload);
    assert(v@ =~= framed(declared, head@, payload@));
    v
}

/// Puts a file together.
pub fn assemble(json: &str, payload: &[u8], forced: Option<u64>) -> (r: Vec<u8>)
    ensures
        r@ == assembled(json@, payload@, forced),
{
    let head: &[u8] = json.as_bytes();
    let declared: u64 = match forced {
        Some(x) => x,
        None => head.len() as u64,
    };
    frame(declared, head, payload)
}

/// Reading the header of a file that was put together gives back its text: what
/// the JSON parser makes of that text decides, if its length is allowed.
pub proof fn assembled_header_reads_back(path: Seq<char>, json: Seq<char>, payload: Seq<u8>)
    requires
        0 < encode_utf8(json).len() <= header::MAX_HEADER_BYTES,
        8 + encode_utf8(json).len() + payload.len() <= u64::MAX,
    ensures
        ({
            let raw = encode_utf8(json);
            header::file_result(path, assembled(json, payload, None)) == header::header_result(
                path,
                (8 + raw.len() + payload.len()) as u64,
                raw.len() as u64,
                crate::json::json_document(raw),
            )
        }),
{
    let raw = encode_utf8(json);
    let file = assembled(json, payload, None);
    reveal_with_fuel(bytes::byte_power, 9);
    assert(raw.len() < bytes::byte_power(8));
    bytes::le_bytes_read_back(raw.len(), 8);
    assert(file.take(8) =~= bytes::le_bytes(raw.len(), 8));
    assert(file.subrange(8, 8 + raw.len() as int) =~= raw);
}

/// One change to a non-empty file, drawn from state `s` on.
pub open spec fn mutated_once(v: Seq<u8>, s: u64) -> (Seq<u8>, u64) {
    let (k, t) = draw(s, 6);
    let n = v.len() as u64;
    if k == 0 {
        let (i, u) = draw(t, n);
        let (b, w) = draw(u, 8);
        (v.update(i as int, v[i as int] ^ (1u8 << b)), w)
    } else if k == 1 {
        let (i, u) = draw(t, n);
        let (x, w) = draw(u, 256);
        (v.update(i as int, x as u8), w)
    } else if k == 2 {
        if v.len() >= 8 {
            let (x, u) = weird(t);
            (bytes::le_bytes(x as nat, 8) + v.skip(8), u)
        } else {
            (v, t)
        }
    } else if k == 3 {
        if v.len() > 1 {
            let (i, u) = draw(t, n);
            (v.take(i as int), u)
        } else {
            (v, t)
        }
    } else if k == 4 {
        let (i, u) = draw(t, n);
        let (x, w) = draw(u, 256);
        (v.insert(i as int, x as u8), w)
    } else if v.len() > 1 {
        let (i, u) = draw(t, n);
        (v.remove(i as int), u)
    } else {
        (v, t)
    }
}

/// `n` changes to a file, as far as there is anything left to change.
pub open spec fn mutated_times(v: Seq<u8>, n: nat, s: u64) -> (Seq<u8>, u64)
    decreases n,
{
    if n == 0 || v.len() == 0 {
        (v, s)
    } else {
        let (next, t) = mutated_once(v, s);
        mutated_times(next, (n - 1) as nat, t)
    }
}

/// One to four changes to a file, drawn from state `s` on.
pub open spec fn mutated(base: Seq<u8>, s: u64) -> (Seq<u8>, u64) {
    if base.len() == 0 {
        (base, s)
    } else {
        let (n, t) = draw(s, 4);
        mutated_times(base, 1 + n as nat, t)
    }
}

fn mutate_once(rng: &mut Rng, v: &mut Vec<u8>)
    requires
        old(v)@.len() > 0,
        old(v)@.len() < usize::MAX,
    ensures
        (final(v)@, final(rng).state) == mutated_once(old(v)@, old(rng).state),
        final(v)@.len() <= old(v)@.len() + 1,
{
    let n: u64 = v.len() as u64;
    match rng.below(6) {
        0 => {
            let i: usize = rng.below(n) as usize;
            let b: u64 = rng.below(8);
            let x: u8 = v[i] ^ (1u8 << b);
            v.set(i, x);
        },
        1 => {
            let i: usize = rng.below(n) as usize;
            let x: u8 = rng.below(256) as u8;
            v.set(i, x);
        },
        2 => {
            if v.len() >= 8 {
                let x: u64 = weird_number(rng);
                let mut w: Vec<u8> = Vec::new();
                bytes::push_le(&mut w, x, 8);
                let rest: &[u8] = vstd::slice::slice_subrange(v.as_slice(), 8, v.len());
                push_all(&mut w, rest);
                proof {
                    reveal_with_fuel(bytes::byte_power, 9);
                    bytes::le_bytes_read_back(x as nat, 8);
                    assert(w@ =~= bytes::le_bytes(x as nat, 8) + v@.skip(8));
                }
                *v = w;
            }
        },
        3 => {
            if v.len() > 1 {
                let i: usize = rng.below(n) as usize;
                v.truncate(i);
                assert(v@ =~= old(v)@.take(i as int));
            }
        },
        4 => {
            let i: usize = rng.below(n) as usize;
            let x: u8 = rng.below(256) as u8;
            v.insert(i, x);
        },
        _ => {
            if v.len() > 1 {
                let i: usize = rng.below(n) as usize;
                v.remove(i);
            }
        },
    }
}

/// Changes the bytes of a file here and there.
pub fn mutate(rng: &mut Rng, base: &[u8]) -> (r: Vec<u8>)
    requires
        base@.len() + 4 <= usize::MAX,
    ensures
        (r@, final(rng).state) == mutated(base@, old(rng).state),
{
    let mut v: Vec<u8> = vstd::slice::slice_to_vec(base);
    if v.len() == 0 {
        return v;
    }
    let ops: u64 = 1 + rng.below(4);
    let ghost start = rng.state;
    let mut i: u64 = 0;
    while i < ops && v.len() > 0
        invariant
            i <= ops <= 4,
            base@.len() + 4 <= usize::MAX,
            v@.len() <= base@.len() + i,
            mutated_times(base@, ops as nat, start) == mutated_times(
                v@,
                (ops - i) as nat,
                rng.state,
            ),
        decreases ops - i,
    {
        mutate_once(rng, &mut v);
        i += 1;
    }
    v
}

/// The header texts of the files that changes start from, with the bytes of data.
pub open spec fn seed_cases() -> Seq<(Seq<char>, nat)> {
    seq![
        ("{\"a\":{\"dtype\":\"F32\",\"shape\":[4],\"data_offsets\":[0,16]}}"@, 16nat),
        (
            "{\"a\":{\"dtype\":\"F32\",\"shape\":[1024],\"data_offsets\":[0,4096]},\"b\":{\"dtype\":\"F16\",\"shape\":[8],\"data_offsets\":[4096,4112]}}"@,
            4112nat,
        ),
        (
            "{\"__metadata__\":{\"format\":\"pt\"},\"w\":{\"dtype\":\"BF16\",\"shape\":[2,2],\"data_offsets\":[0,8]}}"@,
            8nat,
        ),
        ("{\"z\":{\"dtype\":\"U8\",\"shape\":[0],\"data_offsets\":[0,0]}}"@, 0nat),
        ("{\"s\":{\"dtype\":\"F64\",\"shape\":[],\"data_offsets\":[0,8]}}"@, 8nat),
    ]
}

/// The valid files that changes start from.
pub open spec fn seed_files() -> Seq<Seq<u8>> {
    Seq::new(
        seed_cases().len(),
        |i: int|
            assembled(seed_cases()[i].0, copies(0x5A, seed_cases()[i].1), None),
    )
}

/// The views of byte vectors.
pub open spec fn byte_views(s: Seq<Vec<u8>>) -> Seq<Seq<u8>> {
    Seq::new(s.len(), |i: int| s[i]@)
}

/// A byte, `n` times.
pub open spec fn copies(b: u8, n: nat) -> Seq<u8> {
    Seq::new(n, |k: int| b)
}

pub(crate) fn repeated(b: u8, n: usize) -> (r: Vec<u8>)
    ensures
        r@ == copies(b, n as nat),
{
    let mut v: Vec<u8> = Vec::new();
    while v.len() < n
        invariant
            v@.len() <= n,
            forall|k: int| 0 <= k < v@.len() ==> v@[k] == b,
        decreases n - v@.len(),
    {
        v.push(b);
    }
    assert(v@ =~= copies(b, n as nat));
    v
}

proof fn utf8_len_is_bounded(s: Seq<char>)
    ensures
        encode_utf8(s).len() <= 4 * s.len(),
    decreases s.len(),
{
    if s.len() > 0 {
        utf8_len_is_bounded(s.drop_first());
    }
}

fn seed_file(i: usize) -> (r: Vec<u8>)
    requires
        i < 5,
    ensures
        r@ == seed_files()[i as int],
        r@.len() < 65536,
{
    proof {
        reveal_strlit("{\"a\":{\"dtype\":\"F32\",\"shape\":[4],\"data_offsets\":[0,16]}}");
        reveal_strlit(
            "{\"a\":{\"dtype\":\"F32\",\"shape\":[1024],\"data_offsets\":[0,4096]},\"b\":{\"dtype\":\"F16\",\"shape\":[8],\"data_offsets\":[4096,4112]}}",
        );
        reveal_strlit(
            "{\"__metadata__\":{\"format\":\"pt\"},\"w\":{\"dtype\":\"BF16\",\"shape\":[2,2],\"data_offsets\":[0,8]}}",
        );
        reveal_strlit("{\"z\":{\"dtype\":\"U8\",\"shape\":[0],\"data_offsets\":[0,0]}}");
        reveal_strlit("{\"s\":{\"dtype\":\"F64\",\"shape\":[],\"data_offsets\":[0,8]}}");
        reveal_with_fuel(bytes::le_bytes, 9);
    }
    let (json, n): (&str, usize) = match i {
        0 => ("{\"a\":{\"dtype\":\"F32\",\"shape\":[4],\"data_offsets\":[0,16]}}", 16),
        1 => (
            "{\"a\":{\"dtype\":\"F32\",\"shape\":[1024],\"data_offsets\":[0,4096]},\"b\":{\"dtype\":\"F16\",\"shape\":[8],\"data_offsets\":[4096,4112]}}",
            4112,
        ),
        2 => (
            "{\"__metadata__\":{\"format\":\"pt\"},\"w\":{\"dtype\":\"BF16\",\"shape\":[2,2],\"data_offsets\":[0,8]}}",
            8,
        ),
        3 => ("{\"z\":{\"dtype\":\"U8\",\"shape\":[0],\"data_offsets\":[0,0]}}", 0),
        _ => ("{\"s\":{\"dtype\":\"F64\",\"shape\":[],\"data_offsets\":[0,8]}}", 8),
    };
    let payload: Vec<u8> = repeated(0x5A, n);
    proof {
        utf8_len_is_bounded(json@);
    }
    assemble(json, payload.as_slice(), None)
}

/// The valid files that changes start from.
pub fn seed_corpus() -> (r: Vec<Vec<u8>>)
    ensures
        byte_views(r@) == seed_files(),
        forall|i: int| 0 <= i < r@.len() ==> (#[trigger] r@[i])@.len() < 65536,
{
    let mut out: Vec<Vec<u8>> = Vec::new();
    let mut i: usize = 0;
    while i < 5
        invariant
            i <= 5,
            out@.len() == i,
            forall|k: int| 0 <= k < i ==> (#[trigger] out@[k])@ == seed_files()[k] && out@[k]@.len() < 65536,
        decreases 5 - i,
    {
        out.push(seed_file(i));
        i += 1;
    }
    assert(byte_views(out@) =~= seed_files());
    out
}

/// The next file of a run in state `s`, and the state after it.
pub open spec fn next_file(seeds: Seq<Seq<u8>>, s: u64) -> (Seq<u8>, u64) {
    let (k, t) = draw(s, 10);
    if k <= 4 {
        let (c, u) = random_case(t);
        (assembled(c.json, c.payload, c.forced), u)
    } else if k <= 6 {
        let (i, u) = draw(t, seeds.len() as u64);
        mutated(seeds[i as int], u)
    } else if k <= 8 {
        let (i, u) = draw(t, seeds.len() as u64);
        (seeds[i as int], u)
    } else {
        let (kind, u) = draw(t, 2);
        if kind == 0 {
            let (n, w) = draw(u, 4096);
            filled(Filling::Noise, n as nat, w)
        } else {
            let (n, w) = draw(u, 256);
            let (head, x) = filled(Filling::Printable, n as nat, w);
            (framed(n, head, copies(0, 32)), x)
        }
    }
}

proof fn filled_len(kind: Filling, n: nat, s: u64)
    ensures
        filled(kind, n, s).0.len() == n,
    decreases n,
{
    if n > 0 {
        filled_len(kind, (n - 1) as nat, s);
    }
}

/// Makes the next file of a run.
pub fn next_case(rng: &mut Rng, seeds: &[Vec<u8>]) -> (r: Vec<u8>)
    requires
        seeds@.len() > 0,
        forall|i: int| 0 <= i < seeds@.len() ==> (#[trigger] seeds@[i])@.len() + 4 <= usize::MAX,
    ensures
        (r@, final(rng).state) == next_file(byte_views(seeds@), old(rng).state),
{
    let k: u64 = rng.below(10);
    if k <= 4 {
        let (json, payload, forced) = gen_case(rng);
        assemble(json.as_str(), payload.as_slice(), forced)
    } else if k <= 6 {
        let base: &Vec<u8> = rng.pick(seeds);
        mutate(rng, base.as_slice())
    } else if k <= 8 {
        let base: &Vec<u8> = rng.pick(seeds);
        vstd::slice::slice_to_vec(base.as_slice())
    } else if rng.below(2) == 0 {
        let n: u64 = rng.below(4096);
        fill(rng, Filling::Noise, n)
    } else {
        let n: u64 = rng.below(256);
        let ghost s = rng.state;
        let head: Vec<u8> = fill(rng, Filling::Printable, n);
        proof {
            filled_len(Filling::Printable, n as nat, s);
        }
        let tail: Vec<u8> = repeated(0, 32);
        frame(n, head.as_slice(), tail.as_slice())
    }
}

/// What became of a file: refused, planned badly, or planned soundly.
#[verifier::ext_equal]
pub enum Judgement {
    Refused,
    Unsound(Seq<char>),
    Sound,
}

/// What becomes of a file.
pub open spec fn judged(path: Seq<char>, file: Seq<u8>, block: u64) -> Judgement {
    match header::file_result(path, file) {
        Err(_) => Judgement::Refused,
        Ok(h) => match oracle::plan_fault(h, block, oracle::planned_ranges(h, block)) {
            None => Judgement::Sound,
            Some(f) => Judgement::Unsound(
                "plan invariant violated: "@ + oracle::fault_text(h, f),
            ),
        },
    }
}

/// The plan to read a file by, if it is small enough to be read in a run.
pub open spec fn reads_of(h: HeaderSpec, block: u64) -> Option<Seq<(usize, Range)>> {
    if 0 < h.file_size <= 0x10_0000 {
        let p = oracle::planned_ranges(h, block);
        Some(Seq::new(p.len(), |i: int| (0usize, p[i])))
    } else {
        None
    }
}

/// What became of a file, with the reads to try on a small one.
pub enum Outcome {
    Refused,
    Unsound(String),
    Sound(Option<Vec<(usize, Range)>>),
}

impl Outcome {
    pub open spec fn judgement(&self) -> Judgement {
        match self {
            Outcome::Refused => Judgement::Refused,
            Outcome::Unsound(m) => Judgement::Unsound(m@),
            Outcome::Sound(_) => Judgement::Sound,
        }
    }
}

pub(crate) fn plan_as_pairs(plan: &[Range]) -> (r: Vec<(usize, Range)>)
    ensures
        r@ == Seq::new(plan@.len(), |i: int| (0usize, plan@[i])),
{
    let mut out: Vec<(usize, Range)> = Vec::new();
    let mut i: usize = 0;
    while i < plan.len()
        invariant
            i <= plan.len(),
            out@.len() == i,
            forall|k: int| 0 <= k < i ==> #[trigger] out@[k] == (0usize, plan@[k]),
        decreases plan.len() - i,
    {
        out.push((0, plan[i]));
        i += 1;
    }
    assert(out@ =~= Seq::new(plan@.len(), |i: int| (0usize, plan@[i])));
    out
}

/// Reads a file's header, plans its reads and checks the plan.
pub fn run_case(path: &str, file: &[u8], block: u64) -> (r: Outcome)
    requires
        block > 0,
    ensures
        r.judgement() == judged(path@, file@, block),
        r matches Outcome::Sound(reads) ==> header::file_result(path@, file@) is Ok && match reads_of(
            header::file_result(path@, file@)->Ok_0,
            block,
        ) {
            None => reads is None,
            Some(p) => reads is Some && reads->Some_0@ == p,
        },
{
    match header::read_header(path, file) {
        Err(_) => Outcome::Refused,
        Ok(h) => {
            match oracle::check_plan(&h, block) {
                Some(m) => {
                    let mut text: String = "plan invariant violated: ".to_owned();
                    text.append(m.as_str());
                    Outcome::Unsound(text)
                },
                None => {
                    if h.file_size > 0 && h.file_size <= 0x10_0000 {
                        let p: Vec<Range> = plan::plan_shard(&h, block, 0);
                        proof {
                            oracle::ranges_are_planned(h@, block, p@);
                        }
                        Outcome::Sound(Some(plan_as_pairs(p.as_slice())))
                    } else {
                        Outcome::Sound(None)
                    }
                },
            }
        },
    }
}

/// Every file is refused or planned soundly, whatever it holds, if its size rounds
/// up to a block in 64 bits.
pub proof fn no_case_is_unsound(path: Seq<char>, file: Seq<u8>, block: u64)
    requires
        block > 0,
        file.len() + block <= u64::MAX,
    ensures
        judged(path, file, block) is Refused || judged(path, file, block) is Sound,
{
    match header::file_result(path, file) {
        Err(_) => {},
        Ok(h) => {
            let size = file.len() as u64;
            let n = header::extent_result(path, size, file.take(8))->Ok_0;
            header::accepted_header_is_wf(
                path,
                size,
                n,
                crate::json::json_document(file.subrange(8, 8 + n)),
            );
            plan::round_up_is_ceiling(size as int, block as int);
            oracle::planned_ranges_pass(h, block);
        },
    }
}

/// What a run came to.
pub struct FuzzReport {
    pub iterations: usize,
    pub parsed_ok: usize,
    pub rejected: usize,
    pub reads_executed: usize,
    /// Cases on which the program panicked.
    pub panics: Vec<String>,
    /// Cases that were accepted and planned badly.
    pub invariant_failures: Vec<String>,
}

impl Default for FuzzReport {
    fn default() -> (r: FuzzReport)
        ensures
            r.iterations == 0,
            r.parsed_ok == 0,
            r.rejected == 0,
            r.reads_executed == 0,
            r.panics@.len() == 0,
            r.invariant_failures@.len() == 0,
    {
        FuzzReport {
            iterations: 0,
            parsed_ok: 0,
            rejected: 0,
            reads_executed: 0,
            panics: Vec::new(),
            invariant_failures: Vec::new(),
        }
    }
}

/// A note on a case that was planned badly.
pub open spec fn case_note(i: nat, seed: u64, len: nat, m: Seq<char>) -> Seq<char> {
    "iter "@ + text::decimal(i) + " (seed "@ + text::decimal(seed as nat) + ", "@ + text::decimal(
        len,
    ) + " bytes): "@ + m
}

fn case_note_string(i: usize, seed: u64, len: usize, m: &str) -> (r: String)
    ensures
        r@ == case_note(i as nat, seed, len as nat, m@),
{
    let mut s: String = "iter ".to_owned();
    text::push_decimal(&mut s, i as u64);
    s.append(" (seed ");
    text::push_decimal(&mut s, seed);
    s.append(", ");
    text::push_decimal(&mut s, len as u64);
    s.append(" bytes): ");
    s.append(m);
    s
}

impl FuzzReport {
    /// Whether nothing went wrong.
    pub fn ok(&self) -> (r: bool)
        ensures
            r == (self.panics@.len() == 0 && self.invariant_failures@.len() == 0),
    {
        self.panics.len() == 0 && self.invariant_failures.len() == 0
    }

    /// Every case was refused, accepted, or noted.
    pub open spec fn wf(&self) -> bool {
        &&& self.parsed_ok + self.rejected + self.panics@.len() + self.invariant_failures@.len()
            == self.iterations
        &&& self.reads_executed <= self.parsed_ok
    }

    /// Takes note of one case: the run's seed, the file's length, what became of
    /// it, and whether it was read.
    pub fn record(&mut self, seed: u64, len: usize, outcome: &Outcome, read: bool)
        requires
            old(self).wf(),
            old(self).iterations < usize::MAX,
        ensures
            final(self).wf(),
            final(self).iterations == old(self).iterations + 1,
            final(self).parsed_ok == old(self).parsed_ok + (if outcome is Sound {
                1int
            } else {
                0
            }),
            final(self).rejected == old(self).rejected + (if outcome is Refused {
                1int
            } else {
                0
            }),
            final(self).reads_executed == old(self).reads_executed + (if outcome is Sound && read {
                1int
            } else {
                0
            }),
            text::views(final(self).invariant_failures@) == (match outcome {
                Outcome::Unsound(m) => text::views(old(self).invariant_failures@).push(
                    case_note(old(self).iterations as nat, seed, len as nat, m@),
                ),
                _ => text::views(old(self).invariant_failures@),
            }),
            final(self).panics@ == old(self).panics@,
    {
        let ghost before = self.invariant_failures@;
        match outcome {
            Outcome::Refused => {
                self.rejected += 1;
            },
            Outcome::Unsound(m) => {
                let note: String = case_note_string(self.iterations, seed, len, m.as_str());
                self.invariant_failures.push(note);
                assert(text::views(self.invariant_failures@) =~= text::views(before).push(note@));
            },
            Outcome::Sound(_) => {
                self.parsed_ok += 1;
                if read {
                    self.reads_executed += 1;
                }
            },
        }
        self.iterations += 1;
    }

    /// Takes note of one case on which the program panicked: the run's seed, the
    /// file's length, and what the panic said.
    pub fn record_panic(&mut self, seed: u64, len: usize, message: &str)
        requires
            old(self).wf(),
            old(self).iterations < usize::MAX,
        ensures
            final(self).wf(),
            final(self).iterations == old(self).iterations + 1,
            final(self).parsed_ok == old(self).parsed_ok,
            final(self).rejected == old(self).rejected,
            final(self).reads_executed == old(self).reads_executed,
            text::views(final(self).panics@) == text::views(old(self).panics@).push(
                case_note(old(self).iterations as nat, seed, len as nat, message@),
            ),
            final(self).invariant_failures@ == old(self).invariant_failures@,
    {
        let ghost before = self.panics@;
        let note: String = case_note_string(self.iterations, seed, len, message);
        self.panics.push(note);
        assert(text::views(self.panics@) =~= text::views(before).push(note@));
        self.iterations += 1;
    }
}

/// The state of a run before its `n`-th file.
pub open spec fn state_before(n: nat, seed: u64) -> u64
    decreases n,
{
    if n == 0 {
        seed | 1
    } else {
        next_file(seed_files(), state_before((n - 1) as nat, seed)).1
    }
}

/// The `n`-th file of a run.
pub open spec fn file_of(n: nat, seed: u64) -> Seq<u8> {
    next_file(seed_files(), state_before(n, seed)).0
}

/// How many of the first `n` files of a run are planned soundly.
pub open spec fn sound_files(path: Seq<char>, n: nat, seed: u64, block: u64) -> nat
    decreases n,
{
    if n == 0 {
        0
    } else {
        sound_files(path, (n - 1) as nat, seed, block) + (if judged(
            path,
            file_of((n - 1) as nat, seed),
            block,
        ) is Sound {
            1nat
        } else {
            0
        })
    }
}

/// How many of the first `n` files of a run are refused.
pub open spec fn refused_files(path: Seq<char>, n: nat, seed: u64, block: u64) -> nat
    decreases n,
{
    if n == 0 {
        0
    } else {
        refused_files(path, (n - 1) as nat, seed, block) + (if judged(
            path,
            file_of((n - 1) as nat, seed),
            block,
        ) is Refused {
            1nat
        } else {
            0
        })
    }
}

/// The notes on the first `n` files of a run.
pub open spec fn notes(path: Seq<char>, n: nat, seed: u64, block: u64) -> Seq<Seq<char>>
    decreases n,
{
    if n == 0 {
        Seq::empty()
    } else {
        let before = notes(path, (n - 1) as nat, seed, block);
        let file = file_of((n - 1) as nat, seed);
        match judged(path, file, block) {
            Judgement::Unsound(m) => before.push(case_note((n - 1) as nat, seed, file.len(), m)),
            _ => before,
        }
    }
}

/// The block size that runs plan with.
pub const RUN_BLOCK: u64 = 4096;

/// Makes `iterations` files from a seed, and judges each under the name `path`.
/// Nothing is ever found.
pub fn run(iterations: usize, seed: u64, path: &str) -> (r: FuzzReport)
    ensures
        r.wf(),
        r.iterations == iterations,
        r.parsed_ok == sound_files(path@, iterations as nat, seed, RUN_BLOCK),
        r.rejected == refused_files(path@, iterations as nat, seed, RUN_BLOCK),
        r.reads_executed == 0,
        text::views(r.invariant_failures@) == notes(path@, iterations as nat, seed, RUN_BLOCK),
        r.invariant_failures@.len() == 0,
        r.panics@.len() == 0,
{
    let mut rng: Rng = Rng::new(seed);
    let seeds: Vec<Vec<u8>> = seed_corpus();
    let mut report: FuzzReport = FuzzReport::default();
    let mut i: usize = 0;
    proof {
        assert(byte_views(seeds@).len() == 5);
        assert(text::views(report.invariant_failures@) =~= Seq::empty());
    }
    while i < iterations
        invariant
            i <= iterations,
            report.wf(),
            report.iterations == i,
            report.reads_executed == 0,
            report.panics@.len() == 0,
            seeds@.len() == 5,
            byte_views(seeds@) == seed_files(),
            forall|k: int| 0 <= k < 5 ==> (#[trigger] seeds@[k])@.len() + 4 <= usize::MAX,
            rng.state == state_before(i as nat, seed),
            report.parsed_ok == sound_files(path@, i as nat, seed, RUN_BLOCK),
            report.rejected == refused_files(path@, i as nat, seed, RUN_BLOCK),
            text::views(report.invariant_failures@) == notes(path@, i as nat, seed, RUN_BLOCK),
        decreases iterations - i,
    {
        let file: Vec<u8> = next_case(&mut rng, seeds.as_slice());
        let outcome: Outcome = run_case(path, file.as_slice(), RUN_BLOCK);
        report.record(seed, file.len(), &outcome, false);
        i += 1;
    }
    proof {
        every_run_is_clean(path@, iterations as nat, seed);
        assert(text::views(report.invariant_failures@).len() == 0);
    }
    report
}

/// A number below the `k`-th power of ten has at most `k` digits.
proof fn numerals_are_short(n: nat, k: nat)
    requires
        k > 0,
        n < vstd::arithmetic::power::pow(10, k),
    ensures
        text::decimal(n).len() <= k,
    decreases n,
{
    reveal(vstd::arithmetic::power::pow);
    if n >= 10 {
        if k == 1 {
            assert(vstd::arithmetic::power::pow(10, 1) == 10 * vstd::arithmetic::power::pow(10, 0));
        }
        assert(n / 10 < vstd::arithmetic::power::pow(10, (k - 1) as nat));
        numerals_are_short(n / 10, (k - 1) as nat);
    }
}

proof fn numeral_is_short(n: u64)
    ensures
        text::decimal(n as nat).len() <= 20,
{
    reveal_with_fuel(vstd::arithmetic::power::pow, 21);
    assert(n < vstd::arithmetic::power::pow(10, 20));
    numerals_are_short(n as nat, 20);
}

proof fn dimension_is_short(s: u64)
    ensures
        random_dimension(s).0.len() <= 20,
{
    reveal_strlit("-1");
    reveal_strlit("1.5");
    reveal_strlit("null");
    reveal_strlit("\"3\"");
    reveal_strlit("18446744073709551615");
    let (_, t) = draw(s, 8);
    numeral_is_short(weird(t).0);
    numeral_is_short(draw(t, 0x10_0000).0);
    numeral_is_short(draw(t, 64).0);
}

proof fn dimensions_are_short(n: nat, s: u64)
    ensures
        random_dimensions(n, s).0.len() <= 1 + 21 * n,
    decreases n,
{
    reveal_strlit("[");
    reveal_strlit(",");
    if n > 0 {
        dimensions_are_short((n - 1) as nat, s);
        dimension_is_short(random_dimensions((n - 1) as nat, s).1);
    }
}

proof fn entry_is_short(i: u64, cursor: u64, s: u64)
    ensures
        random_entry(i as nat, cursor, s).0.len() <= 400,
{
    let (name, s1) = random_name(i as nat, s);
    let (d, s2) = draw(s1, 19);
    let (shape, s3) = random_shape(s2);
    let (start, end, s4) = random_offsets(cursor, s3);
    assert(name.len() <= 40) by {
        reveal_strlit("t");
        reveal_strlit("__metadata__");
        reveal_strlit("layer.");
        reveal_strlit(".weight");
        reveal_strlit("\u{1F600}");
        reveal_strlit("dup");
        numeral_is_short(i);
    }
    assert(dtype_tokens()[d as int].len() <= 7) by {
        drawn_is_below(s1, 19);
        reveal_strlit("F64");
        reveal_strlit("F32");
        reveal_strlit("F16");
        reveal_strlit("BF16");
        reveal_strlit("I64");
        reveal_strlit("I32");
        reveal_strlit("I16");
        reveal_strlit("I8");
        reveal_strlit("U8");
        reveal_strlit("BOOL");
        reveal_strlit("F8_E4M3");
        reveal_strlit("F8_E5M2");
        reveal_strlit("F7");
        reveal_strlit("");
        reveal_strlit("f32");
        reveal_strlit("F32 ");
        reveal_strlit("FLOAT32");
        reveal_strlit("U16");
        reveal_strlit("I4");
    }
    assert(shape.len() <= 65) by {
        reveal_strlit("]");
        let (n, t) = draw(s2, 4);
        drawn_is_below(s2, 4);
        dimensions_are_short(n as nat, t);
    }
    assert(offsets_text(start, end).len() <= 60) by {
        reveal_strlit("\"data_offsets\":[");
        reveal_strlit(",");
        numeral_is_short(start);
        numeral_is_short(end);
    }
    numeral_is_short(start);
    reveal_strlit("\"");
    reveal_strlit("\":");
    reveal_strlit("42");
    reveal_strlit("{\"dtype\":\"");
    reveal_strlit("\",\"shape\":");
    reveal_strlit("}");
    reveal_strlit("\",");
    reveal_strlit("]}");
    reveal_strlit("{\"shape\":");
    reveal_strlit(",");
    reveal_strlit(",\"data_offsets\":[");
    reveal_strlit(",3]}");
}

proof fn entries_are_short(n: nat, s: u64)
    requires
        n <= 4,
    ensures
        random_entries(n, s).0.len() == n,
        forall|i: int| 0 <= i < n ==> (#[trigger] random_entries(n, s).0[i]).len() <= 400,
    decreases n,
{
    if n > 0 {
        let (before, cursor, t) = random_entries((n - 1) as nat, s);
        entries_are_short((n - 1) as nat, s);
        entry_is_short((n - 1) as u64, cursor, t);
        assert forall|i: int| 0 <= i < n implies (#[trigger] random_entries(n, s).0[i]).len() <= 400 by {
            if i < n - 1 {
                assert(random_entries(n, s).0[i] == before[i]);
            }
        }
    }
}

proof fn joined_is_short(entries: Seq<Seq<char>>, n: nat)
    requires
        n <= entries.len(),
        forall|i: int| 0 <= i < entries.len() ==> (#[trigger] entries[i]).len() <= 400,
    ensures
        text::joined(entries, ","@, n).len() <= 401 * n,
    decreases n,
{
    reveal_strlit(",");
    if n > 1 {
        joined_is_short(entries, (n - 1) as nat);
    }
}

proof fn declared_takes_eight_bytes(x: nat, n: nat)
    ensures
        bytes::le_bytes(x, n).len() == n,
    decreases n,
{
    if n > 0 {
        declared_takes_eight_bytes(x / 256, (n - 1) as nat);
    }
}

proof fn case_is_short(s: u64)
    ensures
        ({
            let c = random_case(s).0;
            assembled(c.json, c.payload, c.forced).len() < 0x10_0000
        }),
{
    let c = random_case(s).0;
    let (n, s1) = draw(s, 5);
    drawn_is_below(s, 5);
    let (entries, _, s2) = random_entries(n as nat, s1);
    entries_are_short(n as nat, s1);
    joined_is_short(entries, entries.len());
    assert(c.json.len() <= 2000) by {
        reveal_strlit("{");
        reveal_strlit("}");
        reveal_strlit("[");
        reveal_strlit("]");
        reveal_strlit("{not json at all");
    }
    let (_, s3) = random_json(entries, s2);
    let (len, s4) = draw(s3, 65536);
    drawn_is_below(s3, 65536);
    filled_len(Filling::Payload, len as nat, s4);
    assert(c.payload == filled(Filling::Payload, len as nat, s4).0);
    utf8_len_is_bounded(c.json);
    let header = encode_utf8(c.json);
    declared_takes_eight_bytes(
        match c.forced {
            Some(x) => x,
            None => header.len() as u64,
        } as nat,
        8,
    );
}

proof fn seeds_are_short(i: int)
    requires
        0 <= i < seed_files().len(),
    ensures
        seed_files()[i].len() < 65536,
{
    reveal_strlit("{\"a\":{\"dtype\":\"F32\",\"shape\":[4],\"data_offsets\":[0,16]}}");
    reveal_strlit(
        "{\"a\":{\"dtype\":\"F32\",\"shape\":[1024],\"data_offsets\":[0,4096]},\"b\":{\"dtype\":\"F16\",\"shape\":[8],\"data_offsets\":[4096,4112]}}",
    );
    reveal_strlit(
        "{\"__metadata__\":{\"format\":\"pt\"},\"w\":{\"dtype\":\"BF16\",\"shape\":[2,2],\"data_offsets\":[0,8]}}",
    );
    reveal_strlit("{\"z\":{\"dtype\":\"U8\",\"shape\":[0],\"data_offsets\":[0,0]}}");
    reveal_strlit("{\"s\":{\"dtype\":\"F64\",\"shape\":[],\"data_offsets\":[0,8]}}");
    utf8_len_is_bounded(seed_cases()[i].0);
    declared_takes_eight_bytes(encode_utf8(seed_cases()[i].0).len() as u64 as nat, 8);
}

proof fn change_adds_one_byte(v: Seq<u8>, s: u64)
    requires
        0 < v.len() <= u64::MAX,
    ensures
        mutated_once(v, s).0.len() <= v.len() + 1,
{
    let (k, t) = draw(s, 6);
    drawn_is_below(t, v.len() as u64);
    declared_takes_eight_bytes(weird(t).0 as nat, 8);
}

proof fn changes_add_few_bytes(v: Seq<u8>, n: nat, s: u64)
    requires
        v.len() + n <= u64::MAX,
    ensures
        mutated_times(v, n, s).0.len() <= v.len() + n,
    decreases n,
{
    if n > 0 && v.len() > 0 {
        change_adds_one_byte(v, s);
        let (next, t) = mutated_once(v, s);
        changes_add_few_bytes(next, (n - 1) as nat, t);
    }
}

/// No file of a run has a mebibyte.
pub proof fn files_are_short(s: u64)
    ensures
        next_file(seed_files(), s).0.len() < 0x10_0000,
{
    let seeds = seed_files();
    let (k, t) = draw(s, 10);
    assert(seeds.len() == 5);
    drawn_is_below(t, 5);
    let (i, u) = draw(t, 5);
    seeds_are_short(i as int);
    if k <= 4 {
        case_is_short(t);
    } else if k <= 6 {
        let base = seeds[i as int];
        if base.len() > 0 {
            let (n, w) = draw(u, 4);
            drawn_is_below(u, 4);
            changes_add_few_bytes(base, 1 + n as nat, w);
        }
    } else if k > 8 {
        let (_, u) = draw(t, 2);
        let (n, w) = draw(u, 4096);
        drawn_is_below(u, 4096);
        filled_len(Filling::Noise, n as nat, w);
        let (m, x) = draw(u, 256);
        drawn_is_below(u, 256);
        filled_len(Filling::Printable, m as nat, x);
        declared_takes_eight_bytes(m as nat, 8);
    }
}

/// A run is clean, whatever its seed and however long it is: every file is refused
/// or planned soundly, so there is nothing to note.
pub proof fn every_run_is_clean(path: Seq<char>, n: nat, seed: u64)
    ensures
        notes(path, n, seed, RUN_BLOCK) == Seq::<Seq<char>>::empty(),
        sound_files(path, n, seed, RUN_BLOCK) + refused_files(path, n, seed, RUN_BLOCK) == n,
    decreases n,
{
    if n > 0 {
        every_run_is_clean(path, (n - 1) as nat, seed);
        files_are_short(state_before((n - 1) as nat, seed));
        no_case_is_unsound(path, file_of((n - 1) as nat, seed), RUN_BLOCK);
    }
}

/// The generator multiplies each new state with its constant and keeps the lower 64 bits;
/// a number below a bound is what is left of that after dividing by the bound. One of no
/// or one number is not drawn. Different states lead to different ones.
pub proof fn numbers_are_products(s: u64, other: u64, n: u64)
    ensures
        (number_of(s) - s * 0x2545_F491_4F6C_DD1D) % 0x1_0000_0000_0000_0000 == 0,
        n > 1 ==> (number_of(next_state(s)) - draw(s, n).0) % n as int == 0 && draw(s, n).1
            == next_state(s),
        n <= 1 ==> draw(s, n) == (0u64, s),
        next_state(s) == next_state(other) ==> s == other,
{
    let p = s * 0x2545_F491_4F6C_DD1D;
    let m = 0x1_0000_0000_0000_0000int;
    vstd::arithmetic::div_mod::lemma_fundamental_div_mod(p, m);
    vstd::arithmetic::div_mod::lemma_mod_multiples_vanish(-(p / m), 0, m);
    assert(number_of(s) - p == m * (-(p / m)));
    if n > 1 {
        let x = number_of(next_state(s)) as int;
        let d = n as int;
        vstd::arithmetic::div_mod::lemma_fundamental_div_mod(x, d);
        vstd::arithmetic::div_mod::lemma_mod_multiples_vanish(x / d, 0, d);
    }
    states_are_told_apart(s, other);
}

proof fn states_are_told_apart(s: u64, o: u64)
    ensures
        next_state(s) == next_state(o) ==> s == o,
{
    assert((s ^ (s >> 12)) == (o ^ (o >> 12)) ==> s == o) by (bit_vector);
    let a = s ^ (s >> 12);
    let b = o ^ (o >> 12);
    assert((a ^ (a << 25)) == (b ^ (b << 25)) ==> a == b) by (bit_vector);
    let c = a ^ (a << 25);
    let d = b ^ (b << 25);
    assert((c ^ (c >> 27)) == (d ^ (d >> 27)) ==> c == d) by (bit_vector);
}

/// A dimension is a number in two cases of eight, a weird number in one, and in five
/// something that no dimension can be or that is too large.
pub proof fn dimensions_are_of_eight_forms(s: u64)
    ensures
        ({
            let k = number_of(next_state(s)) % 8;
            let d = random_dimension(s).0;
            let further = number_of(next_state(next_state(s)));
            &&& k == 0 ==> d == text::decimal(weird_numbers()[(further % 19) as int] as nat)
            &&& k == 1 ==> d == "-1"@
            &&& k == 2 ==> d == "1.5"@
            &&& k == 3 ==> d == "null"@
            &&& k == 4 ==> d == "\"3\""@
            &&& k == 5 ==> d == text::decimal(u64::MAX as nat)
            &&& k == 6 ==> d == text::decimal((further % 1048576) as nat)
            &&& k == 7 ==> d == text::decimal((further % 64) as nat)
            &&& random_dimension(s).1 == (if 1 <= k <= 5 {
                next_state(s)
            } else {
                next_state(next_state(s))
            })
        }),
{
    largest_number_is_written();
}

proof fn largest_number_is_written()
    ensures
        text::decimal(0xffff_ffff_ffff_ffff) == "18446744073709551615"@,
{
    reveal_strlit("18446744073709551615");
    reveal_with_fuel(text::decimal, 20);
    assert(text::decimal(0xffff_ffff_ffff_ffff) =~= "18446744073709551615"@);
}

/// The dimensions of a shape stand in brackets in the order in which they are drawn, with
/// commas between them; there are fewer than four.
pub proof fn shapes_list_their_dimensions(n: nat, s: u64)
    ensures
        ({
            let dims = Seq::new(n, |i: int| random_dimension(random_dimensions(i as nat, s).1).0);
            random_dimensions(n, s).0 == "["@ + text::joined(dims, ","@, n)
        }),
        n > 0 ==> random_dimensions(n, s).1 == random_dimension(
            random_dimensions((n - 1) as nat, s).1,
        ).1,
        random_dimensions(0, s).1 == s,
        ({
            let count = (number_of(next_state(s)) % 4) as nat;
            &&& random_shape(s).0 == random_dimensions(count, next_state(s)).0 + "]"@
            &&& random_shape(s).1 == random_dimensions(count, next_state(s)).1
        }),
    decreases n,
{
    let dims = Seq::new(n, |i: int| random_dimension(random_dimensions(i as nat, s).1).0);
    if n == 0 {
        assert("["@ + text::joined(dims, ","@, 0) =~= "["@);
    } else {
        let m = (n - 1) as nat;
        shapes_list_their_dimensions(m, s);
        let before = Seq::new(m, |i: int| random_dimension(random_dimensions(i as nat, s).1).0);
        assert(dims =~= before.push(dims[n - 1]));
        assert(dims.take(m as int) =~= before);
        joined_front(dims, before, m);
        if n > 1 {
            assert("["@ + text::joined(before, ","@, m) + ","@ + dims[n - 1] =~= "["@ + (
            text::joined(before, ","@, m) + ","@ + dims[n - 1]));
        } else {
            assert("["@ + text::joined(before, ","@, 0) =~= "["@);
        }
    }
}

proof fn joined_front(a: Seq<Seq<char>>, b: Seq<Seq<char>>, n: nat)
    requires
        n <= a.len(),
        n <= b.len(),
        forall|i: int| 0 <= i < n ==> a[i] == #[trigger] b[i],
    ensures
        text::joined(a, ","@, n) == text::joined(b, ","@, n),
    decreases n,
{
    if n > 0 {
        assert(a[n - 1] == b[n - 1] && a[0] == b[0]);
        joined_front(a, b, (n - 1) as nat);
    }
}

/// An entry has one of six names, of which two hold its number.
pub proof fn names_are_of_six_forms(i: nat, s: u64)
    ensures
        ({
            let k = number_of(next_state(s)) % 6;
            let name = random_name(i, s).0;
            &&& k == 0 ==> name == "t"@ + text::decimal(i)
            &&& k == 1 ==> name == "__metadata__"@
            &&& k == 2 ==> name.len() == 0
            &&& k == 3 ==> name == "layer."@ + text::decimal(i) + ".weight"@
            &&& k == 4 ==> name == "\u{1F600}"@
            &&& k == 5 ==> name == "dup"@
            &&& random_name(i, s).1 == next_state(s)
        }),
{
}

/// The bytes of an entry follow those before it in seven cases of ten: up to 1023 of them
/// in six, up to 4095 in one. In the others its offsets are weird, the wrong way round, or
/// the whole range of numbers.
pub proof fn offsets_mostly_follow(cursor: u64, s: u64)
    requires
        cursor <= 0x40_0000,
    ensures
        ({
            let k = number_of(next_state(s)) % 10;
            let (start, end, _) = random_offsets(cursor, s);
            let further = number_of(next_state(next_state(s)));
            &&& k >= 4 ==> start == cursor && end - start == further % 1024
            &&& k == 2 ==> start == cursor && end - start == further % 4096
            &&& k == 3 ==> start == 0 && end == u64::MAX
            &&& k == 1 ==> start == further % 4096 && (start > 0 ==> end == start - 1) && (start == 0
                ==> end == 0)
            &&& k == 0 ==> start == weird_numbers()[(further % 19) as int] && end
                == weird_numbers()[(number_of(next_state(next_state(next_state(s)))) % 19) as int]
        }),
{
}

/// The end of the entries so far never goes back, takes in the last entry, and stays below
/// four mebibytes.
pub proof fn entries_end_at_the_furthest(cursor: u64, end: u64)
    ensures
        cursor <= 0x40_0000 ==> cursor <= advanced(cursor, end) <= 0x40_0000,
        end <= 0x40_0000 ==> advanced(cursor, end) >= end,
        advanced(cursor, end) == cursor || advanced(cursor, end) == end || advanced(cursor, end)
            == 0x40_0000,
        cursor < 0x40_0000 && end < 0x40_0000 ==> advanced(cursor, end) == (if cursor < end {
            end
        } else {
            cursor
        }),
{
}

/// The forms of an entry: all of them start with its name. Six of twelve leave something
/// out or have too much; the others have the dtype, the shape and both offsets.
pub proof fn entries_are_of_seven_forms(
    k: u64,
    name: Seq<char>,
    dtype: Seq<char>,
    shape: Seq<char>,
    start: u64,
    end: u64,
)
    ensures
        ({
            let e = entry_text(k, name, dtype, shape, start, end);
            let head = "\""@ + name + "\":"@;
            let type_part = "\"dtype\":\""@ + dtype + "\""@;
            let shape_part = "\"shape\":"@ + shape;
            let from = "\"data_offsets\":["@ + text::decimal(start as nat);
            let pair = from + ","@ + text::decimal(end as nat);
            &&& k == 0 ==> e == head + "42"@
            &&& k == 1 ==> e == head + "{"@ + type_part + ","@ + shape_part + "}"@
            &&& k == 2 ==> e == head + "{"@ + type_part + ","@ + pair + "]}"@
            &&& k == 3 ==> e == head + "{"@ + shape_part + ","@ + pair + "]}"@
            &&& k == 4 ==> e == head + "{"@ + type_part + ","@ + shape_part + ","@ + from + "]}"@
            &&& k == 5 ==> e == head + "{"@ + type_part + ","@ + shape_part + ","@ + pair + ",3]}"@
            &&& k > 5 ==> e == head + "{"@ + type_part + ","@ + shape_part + ","@ + pair + "]}"@
        }),
{
    reveal_strlit("{\"dtype\":\"");
    reveal_strlit("\"dtype\":\"");
    reveal_strlit("\",\"shape\":");
    reveal_strlit("\"shape\":");
    reveal_strlit("{\"shape\":");
    reveal_strlit("\",");
    reveal_strlit("\"");
    reveal_strlit(",");
    reveal_strlit("{");
    reveal_strlit("\"data_offsets\":[");
    reveal_strlit(",\"data_offsets\":[");
    let e = entry_text(k, name, dtype, shape, start, end);
    let head = "\""@ + name + "\":"@;
    let type_part = "\"dtype\":\""@ + dtype + "\""@;
    let shape_part = "\"shape\":"@ + shape;
    let from = "\"data_offsets\":["@ + text::decimal(start as nat);
    let pair = from + ","@ + text::decimal(end as nat);
    assert("{\"dtype\":\""@ =~= "{"@ + "\"dtype\":\""@);
    assert("\",\"shape\":"@ =~= "\""@ + ","@ + "\"shape\":"@);
    assert("{\"shape\":"@ =~= "{"@ + "\"shape\":"@);
    assert("\","@ =~= "\""@ + ","@);
    assert(",\"data_offsets\":["@ =~= ","@ + "\"data_offsets\":["@);
    assert(offsets_text(start, end) =~= pair);
    if k == 1 {
        assert(e =~= head + "{"@ + type_part + ","@ + shape_part + "}"@);
    } else if k == 2 {
        assert(e =~= head + "{"@ + type_part + ","@ + pair + "]}"@);
    } else if k == 3 {
        assert(e =~= head + "{"@ + shape_part + ","@ + pair + "]}"@);
    } else if k == 4 {
        assert(e =~= head + "{"@ + type_part + ","@ + shape_part + ","@ + from + "]}"@);
    } else if k == 5 {
        assert(e =~= head + "{"@ + type_part + ","@ + shape_part + ","@ + pair + ",3]}"@);
    } else if k > 5 {
        assert(e =~= head + "{"@ + type_part + ","@ + shape_part + ","@ + pair + "]}"@);
    }
}

/// An entry is made of what is drawn one after another: its name, its dtype, its shape,
/// its offsets, and its form. Entries are numbered from zero, and each starts from where
/// the one before left off.
pub proof fn entries_are_drawn_in_turn(i: nat, n: nat, cursor: u64, s: u64)
    ensures
        ({
            let s1 = random_name(i, s).1;
            let s3 = random_shape(next_state(s1)).1;
            let (start, end, s4) = random_offsets(cursor, s3);
            random_entry(i, cursor, s) == (
                entry_text(
                    number_of(next_state(s4)) % 12,
                    random_name(i, s).0,
                    dtype_tokens()[(number_of(next_state(s1)) % 19) as int],
                    random_shape(next_state(s1)).0,
                    start,
                    end,
                ),
                advanced(cursor, end),
                next_state(s4),
            )
        }),
        random_entries(n, s).0.len() == n,
        i < n ==> random_entries(n, s).0[i as int] == random_entry(
            i,
            random_entries(i, s).1,
            random_entries(i, s).2,
        ).0,
        random_entries(0, s).1 == 0 && random_entries(0, s).2 == s,
        n > 0 ==> {
            let before = random_entries((n - 1) as nat, s);
            let last = random_entry((n - 1) as nat, before.1, before.2);
            random_entries(n, s).1 == last.1 && random_entries(n, s).2 == last.2
        },
    decreases n,
{
    if n > 0 {
        entries_are_drawn_in_turn(i, (n - 1) as nat, cursor, s);
    }
}

/// Each byte of a filling is drawn in the state that the bytes before it leave: any byte,
/// a printable one, or one on top of a pattern that grows by 31 from byte to byte.
pub proof fn bytes_are_drawn_in_turn(kind: Filling, i: nat, n: nat, s: u64)
    requires
        i < n,
    ensures
        filled(kind, n, s).0.len() == n,
        ({
            let t = filled(kind, i, s).1;
            let b = filled(kind, n, s).0[i as int] as int;
            match kind {
                Filling::Noise => b == number_of(next_state(t)) % 256,
                Filling::Printable => b == 32 + number_of(next_state(t)) % 95 && b < 127,
                Filling::Payload => (b - 31 * i - number_of(next_state(t))) % 256 == 0,
            }
        }),
        filled(kind, (i + 1) as nat, s).1 == next_state(filled(kind, i, s).1),
        filled(kind, 0, s).1 == s,
{
    filled_len(kind, n, s);
    byte_of_a_filling(kind, i, n, s);
    let t = filled(kind, i, s).1;
    assert(filled(kind, (i + 1) as nat, s).1 == filled_byte(kind, i, t).1);
    let d = number_of(next_state(t)) as int;
    let b = filled(kind, n, s).0[i as int] as int;
    match kind {
        Filling::Payload => {
            pattern_is_below(i as int, d, b);
        },
        _ => {},
    }
}

proof fn byte_of_a_filling(kind: Filling, i: nat, n: nat, s: u64)
    requires
        i < n,
    ensures
        filled(kind, n, s).0[i as int] == filled_byte(kind, i, filled(kind, i, s).1).0,
    decreases n,
{
    let m = (n - 1) as nat;
    filled_len(kind, m, s);
    let (before, t) = filled(kind, m, s);
    let last = filled_byte(kind, m, t).0;
    assert(filled(kind, n, s).0 == before.push(last));
    if i < m {
        byte_of_a_filling(kind, i, m, s);
    }
}

proof fn pattern_is_below(i: int, d: int, b: int)
    requires
        i >= 0,
        d >= 0,
        b == (i % 256 * 31 + d % 256) % 256,
    ensures
        (b - 31 * i - d) % 256 == 0,
{
}

/// The text of a header is an object of its entries in fifteen cases of sixteen; in the
/// others it is cut off, an object after all, a list, or no JSON.
pub proof fn headers_are_mostly_objects(entries: Seq<Seq<char>>, s: u64)
    ensures
        ({
            let all = text::joined(entries, ","@, entries.len());
            let broken = number_of(next_state(s)) % 16 == 0;
            let k = number_of(next_state(next_state(s))) % 4;
            let json = random_json(entries, s).0;
            &&& !broken || k == 1 ==> json == "{"@ + all + "}"@
            &&& broken && k == 0 ==> json == "{"@
            &&& broken && k == 2 ==> json == "["@ + all + "]"@
            &&& broken && k == 3 ==> json == "{not json at all"@
            &&& random_json(entries, s).1 == (if broken {
                next_state(next_state(s))
            } else {
                next_state(s)
            })
        }),
{
}

/// A case has up to four entries and less than 64 KiB of data, all drawn one after
/// another. In one case of eight another length than the true one is declared.
pub proof fn cases_are_drawn_in_turn(s: u64)
    ensures
        ({
            let entries = random_entries((number_of(next_state(s)) % 5) as nat, next_state(s));
            let json = random_json(entries.0, entries.2);
            let len = number_of(next_state(json.1)) % 65536;
            let payload = filled(Filling::Payload, len as nat, next_state(json.1));
            let forced = number_of(next_state(payload.1)) % 8 == 0;
            let (c, end) = random_case(s);
            &&& c.json == json.0
            &&& c.payload == payload.0
            &&& c.payload.len() == len
            &&& c.forced is Some <==> forced
            &&& forced ==> c.forced == Some(weird(next_state(payload.1)).0)
            &&& end == (if forced {
                next_state(next_state(payload.1))
            } else {
                next_state(payload.1)
            })
        }),
{
    let entries = random_entries((number_of(next_state(s)) % 5) as nat, next_state(s));
    let json = random_json(entries.0, entries.2);
    let len = number_of(next_state(json.1)) % 65536;
    filled_len(Filling::Payload, len as nat, next_state(json.1));
}

/// A file is the length of its header in eight bytes, the header, and the data. The length
/// is the true one, unless another is forced.
pub proof fn files_are_framed(json: Seq<char>, payload: Seq<u8>, forced: Option<u64>)
    requires
        encode_utf8(json).len() <= u64::MAX,
    ensures
        ({
            let file = assembled(json, payload, forced);
            let raw = encode_utf8(json);
            &&& file.len() == 8 + raw.len() + payload.len()
            &&& bytes::le_value(file.take(8)) == (match forced {
                Some(x) => x as nat,
                None => raw.len(),
            })
            &&& file.subrange(8, 8 + raw.len() as int) == raw
            &&& file.skip(8 + raw.len() as int) == payload
        }),
{
    let raw = encode_utf8(json);
    let declared = (match forced {
        Some(x) => x,
        None => raw.len() as u64,
    }) as nat;
    let file = assembled(json, payload, forced);
    reveal_with_fuel(bytes::byte_power, 9);
    bytes::le_bytes_read_back(declared, 8);
    assert(file.take(8) =~= bytes::le_bytes(declared, 8));
    assert(file.subrange(8, 8 + raw.len() as int) =~= raw);
    assert(file.skip(8 + raw.len() as int) =~= payload);
}

/// A change is one bit of a byte, a byte, the declared length, the end of the file, a byte
/// more, or a byte less; everything else stays. A file of one byte is not emptied.
pub proof fn changes_are_of_six_forms(v: Seq<u8>, s: u64)
    requires
        2 <= v.len() <= u64::MAX,
    ensures
        ({
            let k = number_of(next_state(s)) % 6;
            let t = next_state(s);
            let at = (number_of(next_state(t)) % (v.len() as u64)) as int;
            let further = number_of(next_state(next_state(t)));
            let w = mutated_once(v, s).0;
            &&& k == 0 || k == 1 ==> w.len() == v.len() && forall|j: int|
                0 <= j < v.len() && j != at ==> #[trigger] w[j] == v[j]
            &&& k == 0 ==> w[at] == v[at] ^ (1u8 << (further % 8))
            &&& k == 1 ==> w[at] == further % 256
            &&& k == 2 && v.len() >= 8 ==> w.skip(8) == v.skip(8) && bytes::le_value(w.take(8))
                == weird_numbers()[(number_of(next_state(t)) % 19) as int]
            &&& k == 2 && v.len() < 8 ==> w == v
            &&& k == 3 ==> w == v.take(at)
            &&& k == 4 ==> w.len() == v.len() + 1 && w[at] == further % 256 && w.remove(at) == v
            &&& k == 5 ==> w == v.take(at) + v.skip(at + 1)
        }),
{
    let k = number_of(next_state(s)) % 6;
    let t = next_state(s);
    let at = (number_of(next_state(t)) % (v.len() as u64)) as int;
    let w = mutated_once(v, s).0;
    if k == 2 && v.len() >= 8 {
        let x = weird(t).0;
        reveal_with_fuel(bytes::byte_power, 9);
        bytes::le_bytes_read_back(x as nat, 8);
        assert(w.take(8) =~= bytes::le_bytes(x as nat, 8));
        assert(w.skip(8) =~= v.skip(8));
    } else if k == 4 {
        assert(w.remove(at) =~= v);
    } else if k == 5 {
        assert(w =~= v.take(at) + v.skip(at + 1));
    }
}

/// A file is changed one to four times in turn, as long as anything is left of it.
pub proof fn changes_follow_each_other(v: Seq<u8>, n: nat, s: u64)
    requires
        v.len() > 0,
    ensures
        mutated(v, s) == mutated_times(v, 1 + (number_of(next_state(s)) % 4) as nat, next_state(s)),
        mutated_times(v, 0, s) == (v, s),
        mutated_times(v, n + 1, s) == mutated_times(mutated_once(v, s).0, n, mutated_once(v, s).1),
        mutated_times(Seq::empty(), n, s) == (Seq::<u8>::empty(), s),
{
}

/// Of ten files five are made of a drawn case, two are changed seeds, two are seeds as they
/// are, and one is noise, or a header of noise before some zeros.
pub proof fn files_are_of_ten_forms(seeds: Seq<Seq<u8>>, s: u64)
    requires
        1 < seeds.len() <= u64::MAX,
    ensures
        ({
            let k = number_of(next_state(s)) % 10;
            let t = next_state(s);
            let x = number_of(next_state(t));
            let u = next_state(t);
            let seed = seeds[(x % (seeds.len() as u64)) as int];
            let (file, end) = next_file(seeds, s);
            &&& k < 5 ==> file == assembled(
                random_case(t).0.json,
                random_case(t).0.payload,
                random_case(t).0.forced,
            ) && end == random_case(t).1
            &&& k == 5 || k == 6 ==> (file, end) == mutated(seed, u)
            &&& k == 7 || k == 8 ==> file == seed && end == u
            &&& k == 9 && x % 2 == 0 ==> (file, end) == filled(
                Filling::Noise,
                (number_of(next_state(u)) % 4096) as nat,
                next_state(u),
            )
            &&& k == 9 && x % 2 == 1 ==> {
                let n = number_of(next_state(u)) % 256;
                &&& file == bytes::le_bytes(n as nat, 8) + filled(
                    Filling::Printable,
                    n as nat,
                    next_state(u),
                ).0 + Seq::new(32, |i: int| 0u8)
                &&& end == filled(Filling::Printable, n as nat, next_state(u)).1
            }
        }),
{
    let t = next_state(s);
    let u = next_state(t);
    if number_of(next_state(s)) % 10 == 9 && number_of(next_state(t)) % 2 == 1 {
        let n = number_of(next_state(u)) % 256;
        let head = filled(Filling::Printable, n as nat, next_state(u)).0;
        assert(next_file(seeds, s).0 =~= bytes::le_bytes(n as nat, 8) + head + Seq::new(
            32,
            |i: int| 0u8,
        ));
    }
}

/// A run counts the files that are planned soundly and those that are refused: each is as
/// many as are left of its files when the others are taken out. The first file is drawn
/// from the seed made odd, every other from where the one before left off.
pub proof fn judged_files_are_counted(path: Seq<char>, n: nat, seed: u64, block: u64)
    ensures
        ({
            let files = Seq::new(n, |i: int| file_of(i as nat, seed));
            &&& sound_files(path, n, seed, block) == files.filter(
                |f: Seq<u8>| judged(path, f, block) is Sound,
            ).len()
            &&& refused_files(path, n, seed, block) == files.filter(
                |f: Seq<u8>| judged(path, f, block) is Refused,
            ).len()
        }),
        file_of(0, seed) == next_file(seed_files(), seed | 1).0,
        state_before(n + 1, seed) == next_file(seed_files(), state_before(n, seed)).1,
    decreases n,
{
    reveal(Seq::filter);
    if n > 0 {
        judged_files_are_counted(path, (n - 1) as nat, seed, block);
        let files = Seq::new(n, |i: int| file_of(i as nat, seed));
        let before = Seq::new((n - 1) as nat, |i: int| file_of(i as nat, seed));
        assert(files.drop_last() =~= before);
    }
}

/// A file whose header is accepted is planned soundly or not; one whose header is not is
/// refused. A small file is read by its plan, as file 0.
pub proof fn accepted_files_are_judged_by_their_plan(path: Seq<char>, file: Seq<u8>, block: u64)
    ensures
        judged(path, file, block) is Refused <==> header::file_result(path, file) is Err,
        header::file_result(path, file) matches Ok(h) ==> {
            &&& judged(path, file, block) is Sound <==> oracle::plan_fault(
                h,
                block,
                oracle::planned_ranges(h, block),
            ) is None
            &&& reads_of(h, block) is Some <==> 1 <= h.file_size <= 1048576
            &&& reads_of(h, block) matches Some(reads) ==> reads.len() == oracle::planned_ranges(
                h,
                block,
            ).len() && forall|i: int|
                0 <= i < reads.len() ==> (#[trigger] reads[i]).0 == 0 && reads[i].1
                    == oracle::planned_ranges(h, block)[i]
        },
{
}

/// The data of every seed is as long as its header says, and all of it is the byte 0x5A.
pub proof fn seeds_have_their_data(i: int)
    requires
        0 <= i < seed_cases().len(),
    ensures
        seed_files().len() == seed_cases().len(),
        ({
            let (json, n) = seed_cases()[i];
            let file = seed_files()[i];
            &&& encode_utf8(json).len() <= u64::MAX ==> file.len() == 8 + encode_utf8(json).len() + n
                && file.take(8 + encode_utf8(json).len() as int) == assembled(
                json,
                Seq::empty(),
                None,
            )
            &&& encode_utf8(json).len() <= u64::MAX ==> forall|k: int|
                8 + encode_utf8(json).len() <= k < file.len() ==> #[trigger] file[k] == 0x5A
        }),
{
    let (json, n) = seed_cases()[i];
    let raw = encode_utf8(json);
    let file = seed_files()[i];
    if raw.len() <= u64::MAX {
        files_are_framed(json, copies(0x5A, n), None);
        files_are_framed(json, Seq::empty(), None);
        declared_takes_eight_bytes(raw.len() as u64 as nat, 8);
        let bare = assembled(json, Seq::empty(), None);
        assert(file.take(8 + raw.len() as int) =~= bare);
        assert forall|k: int| 8 + raw.len() <= k < file.len() implies #[trigger] file[k] == 0x5A by {
            assert(file[k] == file.skip(8 + raw.len() as int)[k - 8 - raw.len()]);
        }
    }
}

/// Every dtype is among the names that cases use, and seven of the names name none.
pub proof fn cases_use_all_dtypes(d: Dtype, i: int)
    requires
        0 <= i < 7,
    ensures
        dtype_tokens().contains(header::dtype_token(d)),
        dtype_tokens().len() == 19,
        header::dtype_named(dtype_tokens()[12 + i]) is None,
{
    let t = dtype_tokens();
    assert(t[0] == "F64"@ && t[1] == "F32"@ && t[2] == "F16"@ && t[3] == "BF16"@ && t[4] == "I64"@);
    assert(t[5] == "I32"@ && t[6] == "I16"@ && t[7] == "I8"@ && t[8] == "U8"@ && t[9] == "BOOL"@);
    assert(t[10] == "F8_E4M3"@ && t[11] == "F8_E5M2"@);
    reveal_strlit("F64");
    reveal_strlit("F32");
    reveal_strlit("F16");
    reveal_strlit("BF16");
    reveal_strlit("I64");
    reveal_strlit("I32");
    reveal_strlit("I16");
    reveal_strlit("I8");
    reveal_strlit("U8");
    reveal_strlit("BOOL");
    reveal_strlit("F8_E4M3");
    reveal_strlit("F8_E5M2");
    reveal_strlit("F7");
    reveal_strlit("");
    reveal_strlit("f32");
    reveal_strlit("F32 ");
    reveal_strlit("FLOAT32");
    reveal_strlit("U16");
    reveal_strlit("I4");
    let s = t[12 + i];
    assert(s.len() == 2 ==> (s[0] == 'F' && s[1] == '7') || (s[0] == 'I' && s[1] == '4'));
    assert(s.len() == 3 ==> s[0] == 'f' || (s[0] == 'U' && s[1] == '1'));
    assert(s.len() == 4 ==> s[0] == 'F');
    assert(s.len() == 7 ==> s[1] == 'L');
    assert("F8_E4M3"@[1] == '8' && "F8_E5M2"@[1] == '8');
    assert("BF16"@[0] == 'B' && "BOOL"@[0] == 'B');
    assert("I8"@[1] == '8' && "U8"@[0] == 'U');
    assert("F64"@[0] == 'F' && "F32"@[0] == 'F' && "F16"@[0] == 'F');
    assert("I64"@[0] == 'I' && "I32"@[0] == 'I' && "I16"@[0] == 'I');
}

/// The weird numbers ascend; all but the smallest are powers of two or next to one, and
/// they reach from zero to the largest number.
pub proof fn weird_numbers_are_edges()
    ensures
        weird_numbers().len() == 19,
        forall|i: int, j: int|
            0 <= i < j < 19 ==> #[trigger] weird_numbers()[i] < #[trigger] weird_numbers()[j],
        weird_numbers().take(7) == seq![0u64, 1, 2, 7, 8, 15, 16],
        weird_numbers()[7] == weird_numbers()[8] - 1 && weird_numbers()[8] == 4096
            && weird_numbers()[9] == weird_numbers()[8] + 1,
        weird_numbers()[10] == 8192,
        weird_numbers()[11] == weird_numbers()[12] - 1 && weird_numbers()[12] == 65536,
        weird_numbers()[13] == weird_numbers()[14] - 1 && weird_numbers()[14] == 65536 * 65536,
        weird_numbers()[15] == 256 * weird_numbers()[14],
        weird_numbers()[16] == 65536 * weird_numbers()[14],
        weird_numbers()[17] == u64::MAX - 1 && weird_numbers()[18] == u64::MAX,
{
    assert(weird_numbers().take(7) =~= seq![0u64, 1, 2, 7, 8, 15, 16]);
}

} // verus!
