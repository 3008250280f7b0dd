//! Running a model: the prompt, the ranking of tokens, and comparing logits and
//! layers with recorded ones.
use crate::bundle;
use crate::compare;
use crate::float_bits;
use crate::header;
use crate::text;
use vstd::prelude::*;
use vstd::string::*;

verus! {

/// Why a text is not a number.
#[derive(Debug, Clone, Copy, PartialEq, Eq, Structural)]
pub enum NumberFault {
    Empty,
    Digit,
    Large,
}

/// What is said of a text that is not a number.
pub open spec fn number_fault_text(f: NumberFault) -> Seq<char> {
    match f {
        NumberFault::Empty => "cannot parse integer from empty string"@,
        NumberFault::Digit => "invalid digit found in string"@,
        NumberFault::Large => "number too large to fit in target type"@,
    }
}

fn number_fault_str(f: NumberFault) -> (r: &'static str)
    ensures
        r@ == number_fault_text(f),
{
    match f {
        NumberFault::Empty => "cannot parse integer from empty string",
        NumberFault::Digit => "invalid digit found in string",
        NumberFault::Large => "number too large to fit in target type",
    }
}

/// What reading digits comes to: the number, or what stops it first.
pub open spec fn digits_result(s: Seq<char>) -> Result<u32, NumberFault>
    decreases s.len(),
{
    if s.len() == 0 {
        Ok(0)
    } else {
        match digits_result(s.drop_last()) {
            Err(f) => Err(f),
            Ok(v) => if !text::is_digit(s.last()) {
                Err(NumberFault::Digit)
            } else if v * 10 + (s.last() as int - 48) > u32::MAX {
                Err(NumberFault::Large)
            } else {
                Ok((v * 10 + (s.last() as int - 48)) as u32)
            },
        }
    }
}

/// What reading a 32-bit number comes to.
pub open spec fn token_result(s: Seq<char>) -> Result<u32, NumberFault> {
    let digits = text::unsigned_part(s);
    if s.len() == 0 {
        Err(NumberFault::Empty)
    } else if digits.len() == 0 {
        Err(NumberFault::Digit)
    } else {
        digits_result(digits)
    }
}

proof fn digits_fault_stays(s: Seq<char>, n: int)
    requires
        0 <= n <= s.len(),
        digits_result(s.take(n)) is Err,
    ensures
        digits_result(s) == digits_result(s.take(n)),
    decreases s.len(),
{
    if n < s.len() {
        assert(s.drop_last().take(n) =~= s.take(n));
        digits_fault_stays(s.drop_last(), n);
    } else {
        assert(s.take(n) =~= s);
    }
}

fn parse_token(s: &str) -> (r: Result<u32, NumberFault>)
    ensures
        r == token_result(s@),
{
    let all: Vec<char> = text::chars_of(s);
    if all.len() == 0 {
        return Err(NumberFault::Empty);
    }
    let start: usize = if all[0] == '+' {
        1
    } else {
        0
    };
    let ghost digits = text::unsigned_part(s@);
    assert(digits =~= s@.subrange(start as int, s@.len() as int));
    if start == all.len() {
        return Err(NumberFault::Digit);
    }
    let mut v: u32 = 0;
    let mut i: usize = start;
    assert(digits.take(0) =~= Seq::empty());
    while i < all.len()
        invariant
            start <= i <= all.len(),
            start <= 1,
            all@ == s@,
            digits == s@.subrange(start as int, s@.len() as int),
            digits == text::unsigned_part(s@),
            digits.len() > 0,
            digits_result(digits.take(i - start)) == Ok::<u32, NumberFault>(v),
        decreases all.len() - i,
    {
        let c: char = all[i];
        proof {
            let next = digits.take(i - start + 1);
            assert(next.drop_last() =~= digits.take(i - start));
            assert(next.last() == c);
        }
        if c < '0' || c > '9' {
            proof {
                digits_fault_stays(digits, i - start + 1);
            }
            return Err(NumberFault::Digit);
        }
        let wide: u64 = v as u64 * 10 + (c as u64 - 48);
        if wide > u32::MAX as u64 {
            proof {
                digits_fault_stays(digits, i - start + 1);
            }
            return Err(NumberFault::Large);
        }
        v = wide as u32;
        i += 1;
    }
    assert(digits.take(digits.len() as int) =~= digits);
    Ok(v)
}

/// What a list of tokens comes to: those of its first `n` parts that are not blank.
pub open spec fn tokens_result(parts: Seq<Seq<char>>, n: nat) -> Result<Seq<u32>, Seq<char>>
    decreases n,
{
    if n == 0 {
        Ok(Seq::empty())
    } else {
        match tokens_result(parts, (n - 1) as nat) {
            Err(m) => Err(m),
            Ok(before) => {
                let part = parts[n - 1];
                if text::trimmed(part).len() == 0 {
                    Ok(before)
                } else {
                    match token_result(text::trimmed(part)) {
                        Ok(t) => Ok(before.push(t)),
                        Err(f) => Err(
                            "bad token id `"@ + part + "`: "@ + number_fault_text(f),
                        ),
                    }
                }
            },
        }
    }
}

proof fn tokens_fault_stays(parts: Seq<Seq<char>>, k: nat, n: nat)
    requires
        k <= n,
        tokens_result(parts, k) is Err,
    ensures
        tokens_result(parts, n) == tokens_result(parts, k),
    decreases n,
{
    if k < n {
        tokens_fault_stays(parts, k, (n - 1) as nat);
    }
}

/// Reads a list of token numbers with commas between them.
pub fn parse_list(s: &str) -> (r: Result<Vec<u32>, String>)
    ensures
        ({
            let parts = text::pieces(s@, ',');
            match tokens_result(parts, parts.len()) {
                Ok(tokens) => r is Ok && r->Ok_0@ == tokens,
                Err(m) => r is Err && r->Err_0@ == m,
            }
        }),
{
    let parts: Vec<&str> = text::split(s, ',');
    let ghost views = text::str_views(parts@);
    let mut out: Vec<u32> = Vec::new();
    let mut i: usize = 0;
    while i < parts.len()
        invariant
            i <= parts.len(),
            views == text::str_views(parts@),
            views == text::pieces(s@, ','),
            tokens_result(views, i as nat) == Ok::<Seq<u32>, Seq<char>>(out@),
        decreases parts.len() - i,
    {
        assert(views[i as int] == parts@[i as int]@);
        let bare: &str = text::trim(parts[i]);
        if bare.unicode_len() > 0 {
            match parse_token(bare) {
                Ok(t) => {
                    out.push(t);
                },
                Err(f) => {
                    let mut m: String = "bad token id `".to_owned();
                    m.append(parts[i]);
                    m.append("`: ");
                    m.append(number_fault_str(f));
                    proof {
                        tokens_fault_stays(views, (i + 1) as nat, views.len());
                    }
                    return Err(m);
                },
            }
        }
        i += 1;
    }
    Ok(out)
}

/// How many of the numbers, given as bits, are infinite or not numbers.
pub open spec fn non_finite_count(l: Seq<u32>) -> nat
    decreases l.len(),
{
    if l.len() == 0 {
        0
    } else {
        non_finite_count(l.drop_last()) + (if float_bits::is_finite_bits(l.last()) {
            0nat
        } else {
            1
        })
    }
}

/// Counts the numbers, given as bits, that are infinite or not numbers.
pub fn count_non_finite(l: &[u32]) -> (r: usize)
    ensures
        r == non_finite_count(l@),
        r <= l@.len(),
{
    let mut n: usize = 0;
    let mut i: usize = 0;
    assert(l@.take(0) =~= Seq::empty());
    while i < l.len()
        invariant
            i <= l.len(),
            n <= i,
            n == non_finite_count(l@.take(i as int)),
        decreases l.len() - i,
    {
        assert(l@.take(i as int + 1).drop_last() =~= l@.take(i as int));
        if !float_bits::is_finite(l[i]) {
            n += 1;
        }
        i += 1;
    }
    assert(l@.take(l@.len() as int) =~= l@);
    n
}

/// The `k` most likely tokens, the most likely first; of equally likely ones, the
/// smaller number first.
pub fn top_tokens(logits: &[u32], k: usize) -> (r: Vec<usize>)
    ensures
        compare::positions(r@) == compare::ranking(logits@, logits@.len()).take(
            if k < logits@.len() {
                k as int
            } else {
                logits@.len() as int
            },
        ),
{
    let all: Vec<usize> = compare::rank_errors(logits);
    proof {
        compare::ranking_is_ordered(logits@, logits@.len());
        assert(compare::positions(all@).len() == all@.len());
    }
    let n: usize = if k < all.len() {
        k
    } else {
        all.len()
    };
    let mut out: Vec<usize> = Vec::new();
    let mut i: usize = 0;
    while i < n
        invariant
            i <= n <= all.len(),
            out@ == all@.take(i as int),
        decreases n - i,
    {
        out.push(all[i]);
        assert(all@.take(i as int + 1) =~= all@.take(i as int).push(all@[i as int]));
        i += 1;
    }
    assert(compare::positions(out@) =~= compare::positions(all@).take(n as int));
    out
}

/// What a file of recorded logits comes to.
pub open spec fn reference_result(path: Seq<char>, raw: Seq<u8>, want: nat) -> Result<
    Seq<u32>,
    Seq<char>,
> {
    if raw.len() % 4 != 0 {
        Err(path + ": "@ + text::decimal(raw.len()) + " bytes is not a multiple of 4"@)
    } else if bundle::decoded(raw).len() != want {
        Err(
            path + ": "@ + text::decimal(bundle::decoded(raw).len())
                + " values but the model has "@ + text::decimal(want) + " logits"@,
        )
    } else {
        Ok(bundle::decoded(raw))
    }
}

/// Reads a file of recorded logits, of which there are to be `want`.
pub fn read_reference(path: &str, raw: &[u8], want: usize) -> (r: Result<Vec<u32>, String>)
    ensures
        match reference_result(path@, raw@, want as nat) {
            Ok(v) => r is Ok && r->Ok_0@ == v,
            Err(m) => r is Err && r->Err_0@ == m,
        },
{
    let mut m: String = path.to_owned();
    m.append(": ");
    if raw.len() % 4 != 0 {
        text::push_decimal(&mut m, raw.len() as u64);
        m.append(" bytes is not a multiple of 4");
        return Err(m);
    }
    let v: Vec<u32> = bundle::decode(raw);
    if v.len() != want {
        text::push_decimal(&mut m, v.len() as u64);
        m.append(" values but the model has ");
        text::push_decimal(&mut m, want as u64);
        m.append(" logits");
        return Err(m);
    }
    Ok(v)
}

/// What comparing logits comes to.
#[derive(Debug, Clone, Copy, PartialEq, Eq, Structural)]
pub enum Verdict {
    Pass,
    TokensDiffer,
    ValuesDiffer,
}

fn same_numbers(a: &[usize], b: &[usize]) -> (r: bool)
    ensures
        r == (a@ == b@),
{
    if a.len() != b.len() {
        return false;
    }
    let mut i: usize = 0;
    while i < a.len()
        invariant
            i <= a.len(),
            a.len() == b.len(),
            forall|k: int| 0 <= k < i ==> a@[k] == b@[k],
        decreases a.len() - i,
    {
        if a[i] != b[i] {
            return false;
        }
        i += 1;
    }
    assert(a@ =~= b@);
    true
}

/// Judges logits by the most likely tokens, and then by the largest error. The best
/// token counts even where no list of likely ones is asked for.
pub fn judge(
    best: usize,
    reference_best: usize,
    top: &[usize],
    reference_top: &[usize],
    worst: u32,
    tolerance: u32,
) -> (r: Verdict)
    ensures
        r == (if best != reference_best || top@ != reference_top@ {
            Verdict::TokensDiffer
        } else if float_bits::at_most(worst, tolerance) {
            Verdict::Pass
        } else {
            Verdict::ValuesDiffer
        }),
{
    if best != reference_best || !same_numbers(top, reference_top) {
        Verdict::TokensDiffer
    } else if float_bits::no_more_than(worst, tolerance) {
        Verdict::Pass
    } else {
        Verdict::ValuesDiffer
    }
}

/// What is said of a verdict.
pub fn verdict_text(v: &Verdict) -> (r: &'static str)
    ensures
        r@ == (match v {
            Verdict::TokensDiffer =>
                "FAIL: the tokens differ, which is an operator error rather than precision"@,
            Verdict::Pass => "PASS"@,
            Verdict::ValuesDiffer => "FAIL: tokens agree but the values exceed the tolerance"@,
        }),
{
    match v {
        Verdict::TokensDiffer => {
            "FAIL: the tokens differ, which is an operator error rather than precision"
        },
        Verdict::Pass => "PASS",
        Verdict::ValuesDiffer => "FAIL: tokens agree but the values exceed the tolerance",
    }
}

/// What `serde_json::from_slice` makes of a text that is to hold shapes: lists of
/// numbers up to `most`, the largest that the machine indexes with, or the message of
/// the error.
pub uninterp spec fn shapes_document(raw: Seq<u8>, most: nat) -> Result<
    Seq<Seq<usize>>,
    Seq<char>,
>;

/// The numbers of a list, as 64-bit numbers.
pub open spec fn widened(s: Seq<usize>) -> Seq<u64> {
    Seq::new(s.len(), |i: int| s[i] as u64)
}

/// The numbers of lists, as 64-bit numbers.
pub open spec fn all_widened(s: Seq<Seq<usize>>) -> Seq<Seq<u64>> {
    Seq::new(s.len(), |i: int| widened(s[i]))
}

/// The numbers of lists.
pub open spec fn lists<T>(s: Seq<Vec<T>>) -> Seq<Seq<T>> {
    Seq::new(s.len(), |i: int| s[i]@)
}

/// Calls `serde_json::from_slice::<Vec<Vec<usize>>>`. The result is a function of the
/// bytes and of the largest `usize`: the lists of `shapes_document`, or its error as
/// text.
#[verifier::external_body]
fn parse_lists(raw: &[u8]) -> (r: Result<Vec<Vec<usize>>, String>)
    ensures
        shapes_document(raw@, usize::MAX as nat) == match r {
            Ok(v) => Ok(lists(v@)),
            Err(message) => Err(message@),
        },
{
    serde_json::from_slice(raw).map_err(|e: serde_json::Error| e.to_string())
}

fn widen(s: &Vec<usize>) -> (r: Vec<u64>)
    ensures
        r@ == widened(s@),
{
    let mut out: Vec<u64> = Vec::new();
    let mut i: usize = 0;
    while i < s.len()
        invariant
            i <= s.len(),
            out@ == widened(s@.take(i as int)),
        decreases s.len() - i,
    {
        out.push(s[i] as u64);
        i += 1;
        assert(out@ =~= widened(s@.take(i as int)));
    }
    assert(s@.take(s@.len() as int) =~= s@);
    out
}

/// Takes the shapes of recorded layers from what their text parses to.
pub fn shapes_from(path: &str, parsed: Result<Vec<Vec<usize>>, String>) -> (r: Result<
    Vec<Vec<u64>>,
    String,
>)
    ensures
        match parsed {
            Ok(v) => r is Ok && lists(r->Ok_0@) == all_widened(lists(v@)),
            Err(m) => r is Err && r->Err_0@ == path@ + ": "@ + m@,
        },
{
    match parsed {
        Ok(v) => {
            let mut out: Vec<Vec<u64>> = Vec::new();
            let mut i: usize = 0;
            while i < v.len()
                invariant
                    i <= v.len(),
                    out@.len() == i,
                    forall|k: int| 0 <= k < i ==> (#[trigger] out@[k])@ == widened(v@[k]@),
                decreases v.len() - i,
            {
                out.push(widen(&v[i]));
                i += 1;
            }
            assert(lists(out@) =~= all_widened(lists(v@)));
            Ok(out)
        },
        Err(message) => {
            let mut m: String = path.to_owned();
            m.append(": ");
            m.append(message.as_str());
            Err(m)
        },
    }
}

/// Reads the shapes of recorded layers.
pub fn read_shapes(path: &str, raw: &[u8]) -> (r: Result<Vec<Vec<u64>>, String>)
    ensures
        match shapes_document(raw@, usize::MAX as nat) {
            Ok(v) => r is Ok && lists(r->Ok_0@) == all_widened(v),
            Err(m) => r is Err && r->Err_0@ == path@ + ": "@ + m,
        },
{
    shapes_from(path, parse_lists(raw))
}

/// Where the layers with the first `n` shapes end in a file of all their values, if
/// each shape and the sum can be counted.
pub open spec fn layer_ends(shapes: Seq<Seq<u64>>, n: nat) -> Option<Seq<u64>>
    decreases n,
{
    if n == 0 {
        Some(Seq::empty())
    } else {
        match (layer_ends(shapes, (n - 1) as nat), header::checked_product(shapes[n - 1])) {
            (Some(before), Some(size)) => {
                let start = if before.len() == 0 {
                    0
                } else {
                    before.last() as int
                };
                if start + size <= u64::MAX {
                    Some(before.push((start + size) as u64))
                } else {
                    None
                }
            },
            _ => None,
        }
    }
}

proof fn uncounted_stays(shapes: Seq<Seq<u64>>, k: nat, n: nat)
    requires
        k <= n,
        layer_ends(shapes, k) is None,
    ensures
        layer_ends(shapes, n) is None,
    decreases n,
{
    if k < n {
        uncounted_stays(shapes, k, (n - 1) as nat);
    }
}

/// Finds where each layer ends in a file of all their values.
pub fn count_layers(shapes: &Vec<Vec<u64>>) -> (r: Option<Vec<u64>>)
    ensures
        match layer_ends(lists(shapes@), shapes@.len()) {
            Some(ends) => r is Some && r->Some_0@ == ends && ends.len() == shapes@.len(),
            None => r is None,
        },
{
    let ghost all = lists(shapes@);
    let mut ends: Vec<u64> = Vec::new();
    let mut total: u64 = 0;
    let mut i: usize = 0;
    while i < shapes.len()
        invariant
            i <= shapes.len(),
            all == lists(shapes@),
            ends@.len() == i,
            total == (if i == 0 {
                0
            } else {
                ends@.last()
            }),
            layer_ends(all, i as nat) == Some(ends@),
        decreases shapes.len() - i,
    {
        assert(all[i as int] == shapes@[i as int]@);
        let size: u64 = match header::shape_numel(shapes[i].as_slice()) {
            Some(n) => n,
            None => {
                proof {
                    uncounted_stays(all, (i + 1) as nat, all.len());
                }
                return None;
            },
        };
        total = match total.checked_add(size) {
            Some(n) => n,
            None => {
                proof {
                    uncounted_stays(all, (i + 1) as nat, all.len());
                }
                return None;
            },
        };
        ends.push(total);
        i += 1;
    }
    Some(ends)
}

/// The layers stand one after another: each ends where the next starts, and no
/// earlier than it starts.
pub proof fn layers_follow_each_other(shapes: Seq<Seq<u64>>, n: nat)
    requires
        layer_ends(shapes, n) is Some,
    ensures
        ({
            let ends = layer_ends(shapes, n)->Some_0;
            &&& ends.len() == n
            &&& forall|i: int|
                0 <= i < n ==> (#[trigger] ends[i]) == header::product(shapes[i]) + (if i == 0 {
                    0
                } else {
                    ends[i - 1] as int
                })
        }),
    decreases n,
{
    if n > 0 {
        layers_follow_each_other(shapes, (n - 1) as nat);
        let before = layer_ends(shapes, (n - 1) as nat)->Some_0;
        let ends = layer_ends(shapes, n)->Some_0;
        let shape = shapes[n - 1];
        assert(shape.take(shape.len() as int) =~= shape);
        assert forall|i: int| 0 <= i < n implies (#[trigger] ends[i]) == header::product(shapes[i])
            + (if i == 0 {
            0
        } else {
            ends[i - 1] as int
        }) by {
            if i < n - 1 {
                assert(ends[i] == before[i]);
                if i > 0 {
                    assert(ends[i - 1] == before[i - 1]);
                }
            }
        }
    }
}

/// Checks that a file of recorded layers has as many values as their shapes need.
pub fn check_layers(path: &str, values: usize, need: u64) -> (r: Result<(), String>)
    ensures
        if values == need {
            r is Ok
        } else {
            r is Err && r->Err_0@ == path@ + ": "@ + text::decimal(values as nat)
                + " values but the shapes need "@ + text::decimal(need as nat)
        },
{
    if values as u64 == need {
        return Ok(());
    }
    let mut m: String = path.to_owned();
    m.append(": ");
    text::push_decimal(&mut m, values as u64);
    m.append(" values but the shapes need ");
    text::push_decimal(&mut m, need);
    Err(m)
}

proof fn digits_result_is_the_value(s: Seq<char>)
    ensures
        match digits_result(s) {
            Ok(v) => v == text::digits_value(s) && forall|i: int|
                0 <= i < s.len() ==> text::is_digit(#[trigger] s[i]),
            Err(NumberFault::Digit) => exists|i: int|
                0 <= i < s.len() && !text::is_digit(#[trigger] s[i]),
            Err(NumberFault::Large) => exists|i: int|
                0 <= i <= s.len() && text::digits_value(#[trigger] s.take(i)) > u32::MAX
                    && forall|k: int| 0 <= k < i ==> text::is_digit(#[trigger] s[k]),
            Err(NumberFault::Empty) => false,
        },
    decreases s.len(),
{
    if s.len() > 0 {
        let d = s.drop_last();
        let n = s.len() - 1;
        digits_result_is_the_value(d);
        assert(s[n] == s.last());
        match digits_result(d) {
            Ok(v) => {
                assert forall|i: int| 0 <= i < n implies text::is_digit(#[trigger] s[i]) by {
                    assert(d[i] == s[i]);
                }
                if digits_result(s) == Err::<u32, NumberFault>(NumberFault::Large) {
                    assert(s.take(s.len() as int) =~= s);
                }
            },
            Err(NumberFault::Digit) => {
                let i = choose|i: int| 0 <= i < d.len() && !text::is_digit(#[trigger] d[i]);
                assert(s[i] == d[i]);
            },
            Err(_) => {
                let i = choose|i: int|
                    0 <= i <= d.len() && text::digits_value(#[trigger] d.take(i)) > u32::MAX
                        && forall|k: int| 0 <= k < i ==> text::is_digit(#[trigger] d[k]);
                assert(s.take(i) =~= d.take(i));
                assert forall|k: int| 0 <= k < i implies text::is_digit(#[trigger] s[k]) by {
                    assert(s[k] == d[k]);
                }
            },
        }
    }
}

proof fn value_grows(s: Seq<char>, i: int)
    requires
        0 <= i <= s.len(),
    ensures
        text::digits_value(s.take(i)) <= text::digits_value(s),
    decreases s.len() - i,
{
    if i < s.len() {
        value_grows(s, i + 1);
        assert(s.take(i + 1).drop_last() =~= s.take(i));
    } else {
        assert(s.take(i) =~= s);
    }
}

/// A text is a token exactly if it is a numeral of at most 32 bits, and the token is its
/// value.
pub proof fn token_is_its_numeral(s: Seq<char>)
    ensures
        match token_result(s) {
            Ok(v) => text::numeral(s, u32::MAX as nat) == Some(v as nat),
            Err(_) => text::numeral(s, u32::MAX as nat) is None,
        },
{
    let d = text::unsigned_part(s);
    digits_result_is_the_value(d);
    if digits_result(d) == Err::<u32, NumberFault>(NumberFault::Large) {
        let i = choose|i: int|
            0 <= i <= d.len() && text::digits_value(#[trigger] d.take(i)) > u32::MAX
                && forall|k: int| 0 <= k < i ==> text::is_digit(#[trigger] d[k]);
        value_grows(d, i);
    }
}

/// A list of tokens that is written down reads back as these tokens, in their order.
pub proof fn written_tokens_read_back(ids: Seq<u32>, parts: Seq<Seq<char>>, n: nat)
    requires
        n <= ids.len() == parts.len(),
        forall|i: int| 0 <= i < parts.len() ==> #[trigger] parts[i] == text::decimal(ids[i] as nat),
    ensures
        tokens_result(parts, n) == Ok::<Seq<u32>, Seq<char>>(ids.take(n as int)),
    decreases n,
{
    if n > 0 {
        written_tokens_read_back(ids, parts, (n - 1) as nat);
        let id = ids[n - 1];
        let part = parts[n - 1];
        text::decimal_reads_back(id as nat);
        assert(text::is_digit(part[0]) && text::is_digit(part[part.len() - 1]));
        assert(text::trimmed(part) == part);
        token_is_its_numeral(part);
        assert(text::numeral(part, u32::MAX as nat) == Some(id as nat));
        assert(ids.take(n - 1).push(id) =~= ids.take(n as int));
    } else {
        assert(ids.take(0) =~= Seq::empty());
    }
}

/// Blank parts of a list do not matter, wherever they stand.
pub proof fn blank_parts_do_not_matter(parts: Seq<Seq<char>>, at: int, blank: Seq<char>, n: nat)
    requires
        0 <= at <= n <= parts.len(),
        text::trimmed(blank).len() == 0,
    ensures
        tokens_result(parts.insert(at, blank), n + 1) == tokens_result(parts, n),
    decreases n,
{
    let more = parts.insert(at, blank);
    if at == n {
        tokens_ignore_the_rest(more, parts, n);
    } else {
        blank_parts_do_not_matter(parts, at, blank, (n - 1) as nat);
        assert(more[n as int] == parts[n - 1]);
    }
}

proof fn tokens_ignore_the_rest(a: Seq<Seq<char>>, b: Seq<Seq<char>>, n: nat)
    requires
        n <= a.len(),
        n <= b.len(),
        forall|i: int| 0 <= i < n ==> a[i] == b[i],
    ensures
        tokens_result(a, n) == tokens_result(b, n),
    decreases n,
{
    if n > 0 {
        tokens_ignore_the_rest(a, b, (n - 1) as nat);
    }
}

/// How many numbers are not finite is how many are left when the finite ones are taken
/// out.
pub proof fn non_finite_are_counted(l: Seq<u32>)
    ensures
        non_finite_count(l) == l.filter(|x: u32| x % 0x8000_0000 >= 0x7F80_0000).len(),
    decreases l.len(),
{
    reveal(Seq::filter);
    if l.len() > 0 {
        non_finite_are_counted(l.drop_last());
        float_bits::bits_tell_the_kind(l.last());
    }
}

} // verus!
