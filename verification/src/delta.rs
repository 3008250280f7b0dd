//! The operands of the gated delta rule: their sizes and places, and the cases of
//! it that a bundle records.
use crate::layout;
use crate::names;
use crate::names::NameMap;
use crate::text;
use vstd::arithmetic::mul::*;
use vstd::prelude::*;
use vstd::string::*;

verus! {

/// The axes of one problem: batch, time, heads, and the widths of a key and of a
/// value.
#[derive(Debug, Clone, Copy, PartialEq, Eq, Structural)]
pub struct Shape {
    pub b: usize,
    pub t: usize,
    pub h: usize,
    pub k: usize,
    pub v: usize,
}

proof fn leading_product_fits(a: int, b: int, c: int, d: int, most: int)
    requires
        0 <= a,
        0 <= b,
        0 < c,
        0 < d,
        a * b * c * d <= most,
    ensures
        0 <= a * b <= most,
        0 <= a * b * c <= most,
{
    lemma_mul_nonnegative(a, b);
    lemma_mul_nonnegative(a * b, c);
    assert(a * b <= a * b * c) by (nonlinear_arith)
        requires
            0 <= a * b,
            0 < c,
    ;
    assert(a * b * c <= a * b * c * d) by (nonlinear_arith)
        requires
            0 <= a * b * c,
            0 < d,
    ;
}

/// The place of an element in `[a, b, c, d]`.
fn place(i: usize, a: usize, j: usize, b: usize, k: usize, c: usize, l: usize, d: usize) -> (r: usize)
    requires
        i < a,
        j < b,
        k < c,
        l < d,
        a * b * c * d <= usize::MAX,
    ensures
        r == layout::at4(i as int, j as int, b as int, k as int, c as int, l as int, d as int),
        r < a * b * c * d,
{
    proof {
        leading_product_fits(a as int, b as int, c as int, d as int, usize::MAX as int);
        layout::place_is_inside(i as int, a as int, j as int, b as int);
        layout::place_is_inside(i * b + j, a * b, k as int, c as int);
        layout::place_is_inside((i * b + j) * c + k, a * b * c, l as int, d as int);
        lemma_mul_nonnegative(i as int, b as int);
        lemma_mul_nonnegative(i * b + j, c as int);
        lemma_mul_nonnegative((i * b + j) * c + k, d as int);
    }
    ((i * b + j) * c + k) * d + l
}

/// The place of element `(bi, ti, hi, d)` of a `[B, T, H, D]` tensor whose last axis
/// has `dsz` elements.
pub fn idx4(s: &Shape, bi: usize, ti: usize, hi: usize, d: usize, dsz: usize) -> (r: usize)
    requires
        bi < s.b,
        ti < s.t,
        hi < s.h,
        d < dsz,
        s.b * s.t * s.h * dsz <= usize::MAX,
    ensures
        r == layout::at4(
            bi as int,
            ti as int,
            s.t as int,
            hi as int,
            s.h as int,
            d as int,
            dsz as int,
        ),
        r < s.b * s.t * s.h * dsz,
{
    place(bi, s.b, ti, s.t, hi, s.h, d, dsz)
}

/// The place of element `(bi, hi, ki, vi)` of a `[B, H, K, V]` tensor.
pub fn idx_state(s: &Shape, bi: usize, hi: usize, ki: usize, vi: usize) -> (r: usize)
    requires
        bi < s.b,
        hi < s.h,
        ki < s.k,
        vi < s.v,
        s.b * s.h * s.k * s.v <= usize::MAX,
    ensures
        r == layout::at4(
            bi as int,
            hi as int,
            s.h as int,
            ki as int,
            s.k as int,
            vi as int,
            s.v as int,
        ),
        r < s.b * s.h * s.k * s.v,
{
    place(bi, s.b, hi, s.h, ki, s.k, vi, s.v)
}

/// Two elements of a tensor of four axes have the same place only if all their
/// indices are the same.
pub proof fn places_are_distinct(
    i: int,
    j: int,
    k: int,
    l: int,
    i2: int,
    j2: int,
    k2: int,
    l2: int,
    b: int,
    c: int,
    d: int,
)
    requires
        0 <= i,
        0 <= i2,
        0 <= j < b,
        0 <= j2 < b,
        0 <= k < c,
        0 <= k2 < c,
        0 <= l < d,
        0 <= l2 < d,
        layout::at4(i, j, b, k, c, l, d) == layout::at4(i2, j2, b, k2, c, l2, d),
    ensures
        i == i2,
        j == j2,
        k == k2,
        l == l2,
{
    layout::split_place(i, j, b);
    layout::split_place(i2, j2, b);
    layout::split_place(layout::at2(i, j, b), k, c);
    layout::split_place(layout::at2(i2, j2, b), k2, c);
    layout::split_place(layout::at3(i, j, b, k, c), l, d);
    layout::split_place(layout::at3(i2, j2, b, k2, c), l2, d);
}

/// How many elements the operands of a problem have.
#[derive(Debug, Clone, Copy, PartialEq, Eq, Structural)]
pub struct Sizes {
    /// Queries, and keys.
    pub q: usize,
    /// Values, and the output.
    pub v: usize,
    /// Decays, and gates.
    pub g: usize,
    /// The state.
    pub state: usize,
}

/// The sizes of a problem's operands, where all of them can be counted.
pub open spec fn sizes_of(s: Shape) -> Option<Sizes> {
    let g = s.b * s.t * s.h;
    let q = s.b * s.t * s.h * s.k;
    let v = s.b * s.t * s.h * s.v;
    let state = s.b * s.h * s.k * s.v;
    if s.b * s.t <= usize::MAX && g <= usize::MAX && q <= usize::MAX && v <= usize::MAX && s.b * s.h
        <= usize::MAX && s.b * s.h * s.k <= usize::MAX && state <= usize::MAX {
        Some(Sizes { q: q as usize, v: v as usize, g: g as usize, state: state as usize })
    } else {
        None
    }
}

fn product(a: Option<usize>, b: usize) -> (r: Option<usize>)
    ensures
        r == (match a {
            Some(x) if x * b <= usize::MAX => Some((x * b) as usize),
            _ => None,
        }),
{
    match a {
        Some(x) => x.checked_mul(b),
        None => None,
    }
}

/// The sizes of a problem's operands, where all of them can be counted.
pub fn operand_sizes(s: &Shape) -> (r: Option<Sizes>)
    ensures
        r == sizes_of(*s),
{
    let bt: Option<usize> = s.b.checked_mul(s.t);
    let g: Option<usize> = product(bt, s.h);
    let q: Option<usize> = product(g, s.k);
    let v: Option<usize> = product(g, s.v);
    let bh: Option<usize> = s.b.checked_mul(s.h);
    let bhk: Option<usize> = product(bh, s.k);
    let state: Option<usize> = product(bhk, s.v);
    match (q, v, g, state) {
        (Some(q), Some(v), Some(g), Some(state)) => Some(Sizes { q, v, g, state }),
        _ => None,
    }
}

/// The lengths of the operands at hand.
#[derive(Debug, Clone, Copy, PartialEq, Eq, Structural)]
pub struct Lengths {
    pub q: usize,
    pub k: usize,
    pub v: usize,
    pub g: usize,
    pub beta: usize,
}

/// The operands are as long as the problem's shape asks.
pub open spec fn lengths_match(want: Sizes, got: Lengths) -> bool {
    got.q == want.q && got.k == want.q && got.v == want.v && got.g == want.g && got.beta == want.g
}

/// What is said of operands of other lengths.
pub open spec fn mismatch_text(tag: Seq<char>, want: Sizes, got: Lengths) -> Seq<char> {
    tag + " SHAPE MISMATCH: q="@ + text::decimal(got.q as nat) + " k="@ + text::decimal(
        got.k as nat,
    ) + " v="@ + text::decimal(got.v as nat) + " g="@ + text::decimal(got.g as nat) + " beta="@
        + text::decimal(got.beta as nat) + "  (expected "@ + text::decimal(want.q as nat) + " "@
        + text::decimal(want.q as nat) + " "@ + text::decimal(want.v as nat) + " "@
        + text::decimal(want.g as nat) + " "@ + text::decimal(want.g as nat) + ")"@
}

/// Checks the lengths of the operands before anything is computed.
pub fn check_operands(tag: &str, want: &Sizes, got: &Lengths) -> (r: Result<(), String>)
    ensures
        if lengths_match(*want, *got) {
            r is Ok
        } else {
            r is Err && r->Err_0@ == mismatch_text(tag@, *want, *got)
        },
{
    if got.q == want.q && got.k == want.q && got.v == want.v && got.g == want.g && got.beta
        == want.g {
        return Ok(());
    }
    let mut m: String = tag.to_owned();
    m.append(" SHAPE MISMATCH: q=");
    text::push_decimal(&mut m, got.q as u64);
    m.append(" k=");
    text::push_decimal(&mut m, got.k as u64);
    m.append(" v=");
    text::push_decimal(&mut m, got.v as u64);
    m.append(" g=");
    text::push_decimal(&mut m, got.g as u64);
    m.append(" beta=");
    text::push_decimal(&mut m, got.beta as u64);
    m.append("  (expected ");
    text::push_decimal(&mut m, want.q as u64);
    m.append(" ");
    text::push_decimal(&mut m, want.q as u64);
    m.append(" ");
    text::push_decimal(&mut m, want.v as u64);
    m.append(" ");
    text::push_decimal(&mut m, want.g as u64);
    m.append(" ");
    text::push_decimal(&mut m, want.g as u64);
    m.append(")");
    Err(m)
}

/// The tag of the case that a tensor belongs to: what stands between `delta_` and
/// the first `__`.
pub open spec fn tag_of(name: Seq<char>) -> Option<Seq<char>> {
    if text::starts_with(name, "delta_"@) {
        let rest = name.skip("delta_"@.len() as int);
        match text::first_at(rest, "__"@, 0) {
            Some(at) => Some(rest.take(at)),
            None => None,
        }
    } else {
        None
    }
}

fn read_tag(name: &str) -> (r: Option<String>)
    ensures
        match tag_of(name@) {
            Some(t) => r is Some && r->Some_0@ == t,
            None => r is None,
        },
{
    if !text::str_starts_with(name, "delta_") {
        return None;
    }
    let n: usize = "delta_".unicode_len();
    let all: usize = name.unicode_len();
    let rest: &str = name.substring_char(n, all);
    assert(rest@ =~= name@.skip("delta_"@.len() as int));
    match text::find(rest, "__") {
        Some(at) => {
            let tag: &str = rest.substring_char(0, at);
            assert(tag@ =~= rest@.take(at as int));
            Some(tag.to_owned())
        },
        None => None,
    }
}

/// The shape with one part of a tag taken into account: a letter and a number.
pub open spec fn with_part(s: Shape, part: Seq<char>) -> Shape {
    if part.len() == 0 {
        s
    } else {
        match text::numeral(part.skip(1), usize::MAX as nat) {
            None => s,
            Some(n) => {
                let n = n as usize;
                if part[0] == 'B' {
                    Shape { b: n, ..s }
                } else if part[0] == 'H' {
                    Shape { h: n, ..s }
                } else if part[0] == 'T' {
                    Shape { t: n, ..s }
                } else if part[0] == 'K' {
                    Shape { k: n, ..s }
                } else if part[0] == 'V' {
                    Shape { v: n, ..s }
                } else {
                    s
                }
            },
        }
    }
}

/// The shape that the first `n` parts of a tag give.
pub open spec fn with_parts(parts: Seq<Seq<char>>, n: nat) -> Shape
    decreases n,
{
    if n == 0 {
        Shape { b: 0, t: 0, h: 0, k: 0, v: 0 }
    } else {
        with_part(with_parts(parts, (n - 1) as nat), parts[n - 1])
    }
}

/// The shape that a tag such as `B1_H2_T3_K4_V5` gives.
pub open spec fn shape_of(tag: Seq<char>) -> Shape {
    let parts = text::pieces(tag, '_');
    with_parts(parts, parts.len())
}

fn take_part(s: Shape, part: &str) -> (r: Shape)
    ensures
        r == with_part(s, part@),
{
    let all: Vec<char> = text::chars_of(part);
    if all.len() == 0 {
        return s;
    }
    let digits: &str = part.substring_char(1, all.len());
    assert(digits@ =~= part@.skip(1));
    match text::parse_unsigned(digits, usize::MAX as u64) {
        None => s,
        Some(n) => {
            let n: usize = n as usize;
            let key: char = all[0];
            if key == 'B' {
                Shape { b: n, ..s }
            } else if key == 'H' {
                Shape { h: n, ..s }
            } else if key == 'T' {
                Shape { t: n, ..s }
            } else if key == 'K' {
                Shape { k: n, ..s }
            } else if key == 'V' {
                Shape { v: n, ..s }
            } else {
                s
            }
        },
    }
}

/// Reads the shape off a tag.
pub fn parse_tag(tag: &str) -> (r: Shape)
    ensures
        r == shape_of(tag@),
{
    let parts: Vec<&str> = text::split(tag, '_');
    let ghost views = text::str_views(parts@);
    let mut s: Shape = Shape { b: 0, t: 0, h: 0, k: 0, v: 0 };
    let mut i: usize = 0;
    while i < parts.len()
        invariant
            i <= parts.len(),
            views == text::str_views(parts@),
            s == with_parts(views, i as nat),
        decreases parts.len() - i,
    {
        assert(views[i as int] == parts@[i as int]@);
        s = take_part(s, parts[i]);
        i += 1;
    }
    s
}

/// One recorded case of the rule.
pub struct Case {
    pub tag: String,
    pub shape: Shape,
}

/// The tags of the first `n` names.
pub open spec fn tags_of(all: Seq<Seq<char>>, n: nat) -> Set<Seq<char>>
    decreases n,
{
    if n == 0 {
        Set::empty()
    } else {
        let before = tags_of(all, (n - 1) as nat);
        match tag_of(all[n - 1]) {
            Some(t) => before.insert(t),
            None => before,
        }
    }
}

/// The tags of cases.
pub open spec fn case_tags(s: Seq<Case>) -> Seq<Seq<char>> {
    Seq::new(s.len(), |i: int| s[i].tag@)
}

/// Finds the cases that a bundle with these tensor names records: every tag once, in
/// order, with its shape.
pub fn discover(all: &Vec<String>) -> (r: Vec<Case>)
    ensures
        case_tags(r@).to_set() == tags_of(text::views(all@), all@.len()),
        forall|i: int, j: int|
            0 <= i < j < r@.len() ==> text::str_before(
                (#[trigger] r@[i]).tag@,
                (#[trigger] r@[j]).tag@,
            ),
        forall|i: int| 0 <= i < r@.len() ==> (#[trigger] r@[i]).shape == shape_of(r@[i].tag@),
{
    let ghost views = text::views(all@);
    let mut tags: NameMap<()> = NameMap::new();
    let mut i: usize = 0;
    assert(tags@.dom() =~= Set::empty());
    while i < all.len()
        invariant
            i <= all.len(),
            views == text::views(all@),
            tags.wf(),
            tags@.dom() == tags_of(views, i as nat),
        decreases all.len() - i,
    {
        let ghost before = tags@.dom();
        match read_tag(all[i].as_str()) {
            Some(t) => {
                let ghost tag = t@;
                tags.insert(t, ());
                assert(tags@.dom() =~= before.insert(tag));
            },
            None => {},
        }
        i += 1;
    }
    let mut out: Vec<Case> = Vec::new();
    let mut k: usize = 0;
    while k < tags.entries.len()
        invariant
            k <= tags.entries.len(),
            out@.len() == k,
            forall|j: int|
                0 <= j < k ==> (#[trigger] out@[j]).tag@ == tags.entries@[j].0@ && out@[j].shape
                    == shape_of(out@[j].tag@),
        decreases tags.entries.len() - k,
    {
        let tag: String = tags.entries[k].0.clone();
        let shape: Shape = parse_tag(tag.as_str());
        out.push(Case { tag, shape });
        k += 1;
    }
    proof {
        let found = case_tags(out@).to_set();
        assert forall|t: Seq<char>| found.contains(t) == tags@.dom().contains(t) by {
            if found.contains(t) {
                let j = choose|j: int| 0 <= j < out@.len() && case_tags(out@)[j] == t;
                assert(out@[j].tag@ == tags.entries@[j].0@);
                names::pair_in_map(tags.entries@, j);
            }
            if tags@.contains_key(t) {
                let j = choose|j: int| names::names_at(tags.entries@, t, j);
                assert(out@[j].tag@ == t);
                assert(case_tags(out@)[j] == t);
            }
        }
        assert(found =~= tags@.dom());
    }
    out
}

/// The sizes of a problem's operands are the products of their axes; operands of matching
/// lengths are as long.
pub proof fn operands_fill_their_axes(s: Shape, want: Sizes, got: Lengths)
    requires
        sizes_of(s) == Some(want),
        lengths_match(want, got),
    ensures
        got.q == s.b * s.t * s.h * s.k,
        got.k == s.b * s.t * s.h * s.k,
        got.v == s.b * s.t * s.h * s.v,
        got.g == s.b * s.t * s.h,
        got.beta == s.b * s.t * s.h,
        want.state == s.b * s.h * s.k * s.v,
{
    assert(s.b * s.t >= 0) by (nonlinear_arith);
    lemma_mul_nonnegative(s.b * s.t, s.h as int);
    lemma_mul_nonnegative(s.b * s.t * s.h, s.k as int);
    lemma_mul_nonnegative(s.b * s.t * s.h, s.v as int);
    assert(s.b * s.h >= 0) by (nonlinear_arith);
    lemma_mul_nonnegative(s.b * s.h, s.k as int);
    lemma_mul_nonnegative(s.b * s.h * s.k, s.v as int);
}

proof fn numbered_part(s: Shape, letter: char, n: usize)
    ensures
        ({
            let part = seq![letter] + text::decimal(n as nat);
            with_part(s, part) == (if letter == 'B' {
                Shape { b: n, ..s }
            } else if letter == 'H' {
                Shape { h: n, ..s }
            } else if letter == 'T' {
                Shape { t: n, ..s }
            } else if letter == 'K' {
                Shape { k: n, ..s }
            } else if letter == 'V' {
                Shape { v: n, ..s }
            } else {
                s
            })
        }),
{
    let part = seq![letter] + text::decimal(n as nat);
    assert(part.skip(1) =~= text::decimal(n as nat));
    text::decimal_reads_back(n as nat);
    assert(text::numeral(text::decimal(n as nat), usize::MAX as nat) == Some(n as nat));
}

/// The parts of a tag give the axes that their letters stand for, with their numbers.
pub proof fn parts_give_their_axes(s: Shape, parts: Seq<Seq<char>>)
    requires
        parts == seq![
            seq!['B'] + text::decimal(s.b as nat),
            seq!['H'] + text::decimal(s.h as nat),
            seq!['T'] + text::decimal(s.t as nat),
            seq!['K'] + text::decimal(s.k as nat),
            seq!['V'] + text::decimal(s.v as nat),
        ],
    ensures
        with_parts(parts, 5) == s,
{
    reveal_with_fuel(with_parts, 6);
    let s0 = Shape { b: 0, t: 0, h: 0, k: 0, v: 0 };
    let s1 = Shape { b: s.b, ..s0 };
    let s2 = Shape { h: s.h, ..s1 };
    let s3 = Shape { t: s.t, ..s2 };
    let s4 = Shape { k: s.k, ..s3 };
    numbered_part(s0, 'B', s.b);
    numbered_part(s1, 'H', s.h);
    numbered_part(s2, 'T', s.t);
    numbered_part(s3, 'K', s.k);
    numbered_part(s4, 'V', s.v);
    assert(with_parts(parts, 1) == s1);
    assert(with_parts(parts, 2) == s2);
    assert(with_parts(parts, 3) == s3);
    assert(with_parts(parts, 4) == s4);
}

/// The tag of a name stands between `delta_` and the first `__` after it.
pub proof fn tag_stands_in_its_name(name: Seq<char>)
    ensures
        tag_of(name) matches Some(tag) ==> {
            &&& text::starts_with(name, "delta_"@ + tag + "__"@)
            &&& forall|k: int| 0 <= k < tag.len() ==> !#[trigger] text::occurs_at(
                name.skip("delta_"@.len() as int),
                "__"@,
                k,
            )
        },
{
    let p = "delta_"@;
    let rest = name.skip(p.len() as int);
    text::first_at_is_the_first(rest, "__"@, 0);
    match tag_of(name) {
        Some(tag) => {
            let at = text::first_at(rest, "__"@, 0)->Some_0;
            let front = p + tag + "__"@;
            assert(text::occurs_at(rest, "__"@, at));
            assert(name.subrange(0, p.len() as int) =~= p);
            assert forall|i: int| 0 <= i < front.len() implies name[i] == front[i] by {
                if i < p.len() {
                    assert(name.subrange(0, p.len() as int)[i] == p[i]);
                } else if i < p.len() + tag.len() {
                    assert(rest[i - p.len()] == tag[i - p.len()]);
                } else {
                    let k = i - p.len() - tag.len();
                    assert(rest.subrange(at, at + "__"@.len())[k] == "__"@[k]);
                }
            }
            assert(name.subrange(0, front.len() as int) =~= front);
        },
        None => {},
    }
}

/// A tag is found exactly if some name has it.
pub proof fn tags_are_those_of_the_names(all: Seq<Seq<char>>, n: nat, tag: Seq<char>)
    requires
        n <= all.len(),
    ensures
        tags_of(all, n).contains(tag) <==> exists|i: int|
            0 <= i < n && tag_of(#[trigger] all[i]) == Some(tag),
    decreases n,
{
    if n > 0 {
        tags_are_those_of_the_names(all, (n - 1) as nat, tag);
        if tag_of(all[n - 1]) == Some(tag) {
            assert(tags_of(all, n).contains(tag));
        }
    }
}

/// The operands of a problem can be counted exactly if all products of leading axes can:
/// those of batches, positions, heads and either width, and those of batches, heads, keys
/// and values.
pub proof fn operands_are_counted_axis_by_axis(s: Shape)
    ensures
        sizes_of(s) is None <==> {
            ||| s.b * s.t > usize::MAX
            ||| s.b * s.t * s.h > usize::MAX
            ||| s.b * s.t * s.h * s.k > usize::MAX
            ||| s.b * s.t * s.h * s.v > usize::MAX
            ||| s.b * s.h > usize::MAX
            ||| s.b * s.h * s.k > usize::MAX
            ||| s.b * s.h * s.k * s.v > usize::MAX
        },
{
}

} // verus!
