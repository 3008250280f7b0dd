//! Text: decimal numerals, equality and order of strings, parts of names.
use vstd::prelude::*;
use vstd::string::*;
use vstd::utf8::*;

verus! {

/// The character of a decimal digit.
pub open spec fn digit(d: nat) -> char {
    (48 + d) as char
}

/// The decimal numeral of `n`, without leading zeros.
pub open spec fn decimal(n: nat) -> Seq<char>
    decreases n,
{
    if n < 10 {
        seq![digit(n)]
    } else {
        decimal(n / 10).push(digit(n % 10))
    }
}

pub open spec fn is_digit(c: char) -> bool {
    '0' <= c <= '9'
}

/// Whether every character is a decimal digit and there is at least one.
pub open spec fn all_digits(s: Seq<char>) -> bool {
    s.len() > 0 && forall|i: int| 0 <= i < s.len() ==> is_digit(#[trigger] s[i])
}

/// The number that a run of decimal digits stands for.
pub open spec fn digits_value(s: Seq<char>) -> nat
    decreases s.len(),
{
    if s.len() == 0 {
        0
    } else {
        digits_value(s.drop_last()) * 10 + (s.last() as nat - 48) as nat
    }
}

/// The digits of a numeral: everything after an optional `+`.
pub open spec fn unsigned_part(s: Seq<char>) -> Seq<char> {
    if s.len() > 0 && s[0] == '+' {
        s.subrange(1, s.len() as int)
    } else {
        s
    }
}

/// What the text reads as, when it is a numeral of at most `max`.
pub open spec fn numeral(s: Seq<char>, max: nat) -> Option<nat> {
    let d = unsigned_part(s);
    if all_digits(d) && digits_value(d) <= max {
        Some(digits_value(d))
    } else {
        None
    }
}

/// Reading back a decimal numeral gives the number.
pub proof fn decimal_reads_back(n: nat)
    ensures
        all_digits(decimal(n)),
        digits_value(decimal(n)) == n,
        decimal(n)[0] != '+',
        forall|max: nat| n <= max ==> #[trigger] numeral(decimal(n), max) == Some(n),
    decreases n,
{
    reveal_with_fuel(digits_value, 2);
    if n < 10 {
        assert(decimal(n).drop_last() =~= Seq::empty());
    } else {
        decimal_reads_back(n / 10);
        assert(decimal(n).drop_last() =~= decimal(n / 10));
        assert(decimal(n)[0] == decimal(n / 10)[0]);
    }
}

/// Different numbers have different numerals.
pub proof fn decimal_is_injective(a: nat, b: nat)
    requires
        decimal(a) == decimal(b),
    ensures
        a == b,
{
    decimal_reads_back(a);
    decimal_reads_back(b);
}

fn push_digit(out: &mut String, d: u64)
    requires
        d < 10,
    ensures
        final(out)@ == old(out)@.push(digit(d as nat)),
{
    proof {
        reveal_strlit("0");
        reveal_strlit("1");
        reveal_strlit("2");
        reveal_strlit("3");
        reveal_strlit("4");
        reveal_strlit("5");
        reveal_strlit("6");
        reveal_strlit("7");
        reveal_strlit("8");
        reveal_strlit("9");
    }
    let s: &str = match d {
        0 => "0",
        1 => "1",
        2 => "2",
        3 => "3",
        4 => "4",
        5 => "5",
        6 => "6",
        7 => "7",
        8 => "8",
        _ => "9",
    };
    assert(s@ =~= seq![digit(d as nat)]);
    out.append(s);
}

/// Appends the decimal numeral of `n`.
pub fn push_decimal(out: &mut String, n: u64)
    ensures
        final(out)@ == old(out)@ + decimal(n as nat),
    decreases n,
{
    if n >= 10 {
        push_decimal(out, n / 10);
    }
    push_digit(out, n % 10);
    assert(out@ =~= old(out)@ + decimal(n as nat));
}

/// Appends the decimal numeral of `n`.
pub fn push_decimal_wide(out: &mut String, n: u128)
    ensures
        final(out)@ == old(out)@ + decimal(n as nat),
    decreases n,
{
    if n >= 10 {
        push_decimal_wide(out, n / 10);
    }
    push_digit(out, (n % 10) as u64);
    assert(out@ =~= old(out)@ + decimal(n as nat));
}

/// Appends the decimal numeral of twice `n`.
pub fn push_decimal_double(out: &mut String, n: u128)
    ensures
        final(out)@ == old(out)@ + decimal(2 * n as nat),
{
    let rest: u128 = n / 5;
    let last: u64 = ((n % 5) * 2) as u64;
    assert(2 * n / 10 == rest && 2 * n % 10 == last);
    if rest > 0 {
        push_decimal_wide(out, rest);
    }
    push_digit(out, last);
    assert(out@ =~= old(out)@ + decimal(2 * n as nat));
}

/// The decimal numeral of `n`.
pub fn decimal_string(n: u64) -> (r: String)
    ensures
        r@ == decimal(n as nat),
{
    let mut out: String = String::new();
    push_decimal(&mut out, n);
    assert(out@ =~= decimal(n as nat));
    out
}

/// The first `n` numbers in decimal, with a comma and a space between them.
pub open spec fn numbers_text(s: Seq<u64>, n: nat) -> Seq<char>
    decreases n,
{
    if n == 0 || n > s.len() {
        Seq::empty()
    } else if n == 1 {
        decimal(s[0] as nat)
    } else {
        numbers_text(s, (n - 1) as nat) + ", "@ + decimal(s[n - 1] as nat)
    }
}

/// A list of numbers in square brackets.
pub open spec fn list_text(s: Seq<u64>) -> Seq<char> {
    "["@ + numbers_text(s, s.len()) + "]"@
}

/// A list of numbers in square brackets.
pub fn list_string(s: &[u64]) -> (r: String)
    ensures
        r@ == list_text(s@),
{
    let mut inner: String = String::new();
    let mut i: usize = 0;
    while i < s.len()
        invariant
            i <= s.len(),
            inner@ == numbers_text(s@, i as nat),
        decreases s.len() - i,
    {
        if i > 0 {
            inner.append(", ");
        }
        push_decimal(&mut inner, s[i]);
        assert(inner@ =~= numbers_text(s@, (i + 1) as nat));
        i += 1;
    }
    let mut out: String = "[".to_owned();
    out.append(inner.as_str());
    out.append("]");
    out
}

/// The text in double quotes that `std`'s `Debug` prints for a string.
pub uninterp spec fn debug_quoted(s: Seq<char>) -> Seq<char>;

/// Prints a string by `<str as std::fmt::Debug>::fmt`: the text in double quotes
/// with escapes, a function of the text.
#[verifier::external_body]
pub(crate) fn quoted(s: &str) -> (r: String)
    ensures
        r@ == debug_quoted(s@),
{
    format!("{:?}", s)
}

/// The first `n` texts in quotes, with a comma and a space between them.
pub open spec fn quoted_texts(s: Seq<Seq<char>>, n: nat) -> Seq<char>
    decreases n,
{
    if n == 0 || n > s.len() {
        Seq::empty()
    } else if n == 1 {
        debug_quoted(s[0])
    } else {
        quoted_texts(s, (n - 1) as nat) + ", "@ + debug_quoted(s[n - 1])
    }
}

/// A list of texts in quotes and square brackets.
pub open spec fn quoted_list(s: Seq<Seq<char>>) -> Seq<char> {
    "["@ + quoted_texts(s, s.len()) + "]"@
}

pub open spec fn views(s: Seq<String>) -> Seq<Seq<char>> {
    Seq::new(s.len(), |i: int| s[i]@)
}

/// A list of texts in quotes and square brackets.
pub fn quoted_list_string(s: &Vec<String>) -> (r: String)
    ensures
        r@ == quoted_list(views(s@)),
{
    let ghost all = views(s@);
    let mut inner: String = String::new();
    let mut i: usize = 0;
    while i < s.len()
        invariant
            i <= s.len(),
            all == views(s@),
            inner@ == quoted_texts(all, i as nat),
        decreases s.len() - i,
    {
        if i > 0 {
            inner.append(", ");
        }
        let piece: String = quoted(s[i].as_str());
        inner.append(piece.as_str());
        assert(inner@ =~= quoted_texts(all, (i + 1) as nat));
        i += 1;
    }
    let mut out: String = "[".to_owned();
    out.append(inner.as_str());
    out.append("]");
    out
}

/// The first `n` texts with a separator between them.
pub open spec fn joined(s: Seq<Seq<char>>, separator: Seq<char>, n: nat) -> Seq<char>
    decreases n,
{
    if n == 0 || n > s.len() {
        Seq::empty()
    } else if n == 1 {
        s[0]
    } else {
        joined(s, separator, (n - 1) as nat) + separator + s[n - 1]
    }
}

/// Joins texts with a separator between them.
pub fn join(s: &Vec<String>, separator: &str) -> (r: String)
    ensures
        r@ == joined(views(s@), separator@, s@.len()),
{
    let ghost all = views(s@);
    let mut out: String = String::new();
    let mut i: usize = 0;
    while i < s.len()
        invariant
            i <= s.len(),
            all == views(s@),
            out@ == joined(all, separator@, i as nat),
        decreases s.len() - i,
    {
        if i > 0 {
            out.append(separator);
        }
        out.append(s[i].as_str());
        assert(out@ =~= joined(all, separator@, (i + 1) as nat));
        i += 1;
    }
    out
}

/// The characters of a string.
pub fn chars_of(s: &str) -> (r: Vec<char>)
    ensures
        r@ == s@,
{
    let mut out: Vec<char> = Vec::new();
    for c in it: s.chars()
        invariant
            it.seq() == s@,
            out@ == s@.take(it.index() as int),
    {
        out.push(c);
        assert(out@ =~= s@.take(it.index() as int + 1));
    }
    assert(s@.take(s@.len() as int) =~= s@);
    out
}

/// Whether two strings are equal.
pub fn str_eq(a: &str, b: &str) -> (r: bool)
    ensures
        r == (a@ == b@),
{
    let x: &[u8] = a.as_bytes();
    let y: &[u8] = b.as_bytes();
    proof {
        encode_utf8_decode_utf8(a@);
        encode_utf8_decode_utf8(b@);
    }
    if x.len() != y.len() {
        return false;
    }
    let mut i: usize = 0;
    while i < x.len()
        invariant
            x.len() == y.len(),
            i <= x.len(),
            forall|k: int| 0 <= k < i ==> x[k] == y[k],
            x@ == encode_utf8(a@),
            y@ == encode_utf8(b@),
        decreases x.len() - i,
    {
        if x[i] != y[i] {
            return false;
        }
        i += 1;
    }
    assert(x@ =~= y@);
    true
}

/// `a` comes before `b` in lexicographic order of bytes.
pub open spec fn bytes_lt(a: Seq<u8>, b: Seq<u8>) -> bool
    decreases a.len(),
{
    if b.len() == 0 {
        false
    } else if a.len() == 0 {
        true
    } else if a[0] != b[0] {
        a[0] < b[0]
    } else {
        bytes_lt(a.subrange(1, a.len() as int), b.subrange(1, b.len() as int))
    }
}

/// `a` comes before `b` in the order of strings, which is that of their bytes.
pub open spec fn str_before(a: Seq<char>, b: Seq<char>) -> bool {
    bytes_lt(encode_utf8(a), encode_utf8(b))
}

/// Whether `a` comes before `b` in the order of strings.
pub fn str_lt(a: &str, b: &str) -> (r: bool)
    ensures
        r == str_before(a@, b@),
{
    let x: &[u8] = a.as_bytes();
    let y: &[u8] = b.as_bytes();
    let mut i: usize = 0;
    assert(x@.subrange(0, x.len() as int) =~= x@);
    assert(y@.subrange(0, y.len() as int) =~= y@);
    while i < x.len() && i < y.len()
        invariant
            i <= x.len(),
            i <= y.len(),
            x@ == encode_utf8(a@),
            y@ == encode_utf8(b@),
            str_before(a@, b@) == bytes_lt(
                x@.subrange(i as int, x.len() as int),
                y@.subrange(i as int, y.len() as int),
            ),
        decreases x.len() - i,
    {
        let ghost u = x@.subrange(i as int, x.len() as int);
        let ghost v = y@.subrange(i as int, y.len() as int);
        assert(u[0] == x[i as int] && v[0] == y[i as int]);
        if x[i] != y[i] {
            return x[i] < y[i];
        }
        assert(u.subrange(1, u.len() as int) =~= x@.subrange(i as int + 1, x.len() as int));
        assert(v.subrange(1, v.len() as int) =~= y@.subrange(i as int + 1, y.len() as int));
        i += 1;
    }
    i < y.len()
}

/// Byte order relates any two different byte strings, one way round.
pub proof fn bytes_lt_is_total(a: Seq<u8>, b: Seq<u8>)
    ensures
        a != b ==> (bytes_lt(a, b) || bytes_lt(b, a)),
        bytes_lt(a, b) ==> !bytes_lt(b, a) && a != b,
    decreases a.len(),
{
    if a.len() == 0 {
        if b.len() == 0 {
            assert(a =~= b);
        }
    } else if b.len() != 0 && a[0] == b[0] {
        let a1 = a.subrange(1, a.len() as int);
        let b1 = b.subrange(1, b.len() as int);
        bytes_lt_is_total(a1, b1);
        if a1 == b1 {
            assert(a =~= seq![a[0]] + a1);
            assert(b =~= seq![b[0]] + b1);
        }
    }
}

/// Byte order is transitive.
pub proof fn bytes_lt_is_transitive(a: Seq<u8>, b: Seq<u8>, c: Seq<u8>)
    requires
        bytes_lt(a, b),
        bytes_lt(b, c),
    ensures
        bytes_lt(a, c),
    decreases a.len(),
{
    if a.len() != 0 && b.len() != 0 && c.len() != 0 && a[0] == b[0] && b[0] == c[0] {
        bytes_lt_is_transitive(
            a.subrange(1, a.len() as int),
            b.subrange(1, b.len() as int),
            c.subrange(1, c.len() as int),
        );
    }
}

/// The order of strings relates any two different strings, one way round.
pub proof fn str_before_is_total(a: Seq<char>, b: Seq<char>)
    ensures
        a != b ==> (str_before(a, b) || str_before(b, a)),
        str_before(a, b) ==> !str_before(b, a) && a != b,
{
    encode_utf8_decode_utf8(a);
    encode_utf8_decode_utf8(b);
    bytes_lt_is_total(encode_utf8(a), encode_utf8(b));
}

/// The text occurs in `s` at position `at`.
pub open spec fn occurs_at(s: Seq<char>, part: Seq<char>, at: int) -> bool {
    0 <= at && at + part.len() <= s.len() && s.subrange(at, at + part.len()) == part
}

pub open spec fn starts_with(s: Seq<char>, part: Seq<char>) -> bool {
    occurs_at(s, part, 0)
}

pub open spec fn ends_with(s: Seq<char>, part: Seq<char>) -> bool {
    occurs_at(s, part, s.len() - part.len())
}

pub open spec fn contains_text(s: Seq<char>, part: Seq<char>) -> bool {
    exists|at: int| occurs_at(s, part, at)
}

fn chars_occur_at(s: &[char], part: &[char], at: usize) -> (r: bool)
    ensures
        r == occurs_at(s@, part@, at as int),
{
    if part.len() > s.len() || at > s.len() - part.len() {
        return false;
    }
    let mut i: usize = 0;
    while i < part.len()
        invariant
            i <= part.len(),
            at + part.len() <= s.len(),
            forall|k: int| 0 <= k < i ==> s[at + k] == part[k],
        decreases part.len() - i,
    {
        if s[at + i] != part[i] {
            assert(s@.subrange(at as int, at + part.len())[i as int] == s[at + i]);
            return false;
        }
        i += 1;
    }
    assert(s@.subrange(at as int, at + part.len()) =~= part@);
    true
}

/// Whether `s` begins with `part`.
pub fn str_starts_with(s: &str, part: &str) -> (r: bool)
    ensures
        r == starts_with(s@, part@),
{
    chars_occur_at(chars_of(s).as_slice(), chars_of(part).as_slice(), 0)
}

/// Whether `s` ends with `part`.
pub fn str_ends_with(s: &str, part: &str) -> (r: bool)
    ensures
        r == ends_with(s@, part@),
{
    let a: Vec<char> = chars_of(s);
    let b: Vec<char> = chars_of(part);
    if b.len() > a.len() {
        return false;
    }
    chars_occur_at(a.as_slice(), b.as_slice(), a.len() - b.len())
}

/// Whether `part` occurs anywhere in `s`.
pub fn str_contains(s: &str, part: &str) -> (r: bool)
    ensures
        r == contains_text(s@, part@),
{
    let a: Vec<char> = chars_of(s);
    let b: Vec<char> = chars_of(part);
    if b.len() > a.len() {
        return false;
    }
    let last: usize = a.len() - b.len();
    let mut at: usize = 0;
    while at < last
        invariant
            at <= last,
            last == a.len() - b.len(),
            a@ == s@,
            b@ == part@,
            forall|k: int| 0 <= k < at ==> !occurs_at(s@, part@, k),
        decreases last - at,
    {
        if chars_occur_at(a.as_slice(), b.as_slice(), at) {
            return true;
        }
        at += 1;
    }
    chars_occur_at(a.as_slice(), b.as_slice(), last)
}

/// The first place from `from` on at which `part` occurs in `s`.
pub open spec fn first_at(s: Seq<char>, part: Seq<char>, from: int) -> Option<int>
    decreases s.len() + 1 - from,
{
    if from + part.len() > s.len() {
        None
    } else if occurs_at(s, part, from) {
        Some(from)
    } else {
        first_at(s, part, from + 1)
    }
}

/// What follows the first occurrence of `part` in `s`, or all of `s`.
pub open spec fn after_first(s: Seq<char>, part: Seq<char>) -> Seq<char> {
    match first_at(s, part, 0) {
        Some(at) => s.skip(at + part.len()),
        None => s,
    }
}

/// The first place at which `part` occurs in `s`.
pub fn find(s: &str, part: &str) -> (r: Option<usize>)
    ensures
        match first_at(s@, part@, 0) {
            Some(at) => r is Some && r->Some_0 == at && at + part@.len() <= s@.len(),
            None => r is None,
        },
{
    let a: Vec<char> = chars_of(s);
    let b: Vec<char> = chars_of(part);
    let mut at: usize = 0;
    while b.len() <= a.len() && at <= a.len() - b.len()
        invariant
            a@ == s@,
            b@ == part@,
            at <= a.len(),
            b.len() <= a.len() ==> at <= a.len() - b.len() + 1,
            first_at(s@, part@, 0) == first_at(s@, part@, at as int),
        decreases a.len() + 1 - at,
    {
        if chars_occur_at(a.as_slice(), b.as_slice(), at) {
            return Some(at);
        }
        if at == a.len() {
            assert(first_at(s@, part@, at as int + 1) is None);
            return None;
        }
        at += 1;
    }
    None
}

/// What follows the first occurrence of `part` in `s`, or all of `s`.
pub fn str_after_first<'a>(s: &'a str, part: &str) -> (r: &'a str)
    ensures
        r@ == after_first(s@, part@),
{
    let all: usize = s.unicode_len();
    match find(s, part) {
        Some(at) => s.substring_char(at + part.unicode_len(), all),
        None => s,
    }
}

/// The parts of `s` between the characters `c`.
pub open spec fn pieces(s: Seq<char>, c: char) -> Seq<Seq<char>>
    decreases s.len(),
{
    if s.len() == 0 {
        seq![Seq::empty()]
    } else {
        let before = pieces(s.drop_last(), c);
        if s.last() == c {
            before.push(Seq::empty())
        } else {
            before.drop_last().push(before.last().push(s.last()))
        }
    }
}

/// The parts of `s` between the characters `c`.
pub fn split<'a>(s: &'a str, c: char) -> (r: Vec<&'a str>)
    ensures
        str_views(r@) == pieces(s@, c),
        r@.len() > 0,
{
    let all: Vec<char> = chars_of(s);
    let mut out: Vec<&'a str> = Vec::new();
    let mut start: usize = 0;
    let mut i: usize = 0;
    proof {
        assert(s@.take(0) =~= Seq::empty());
        assert(str_views(out@).push(s@.subrange(0, 0)) =~= pieces(s@.take(0), c));
    }
    while i < all.len()
        invariant
            all@ == s@,
            start <= i <= all.len(),
            str_views(out@).push(s@.subrange(start as int, i as int)) == pieces(
                s@.take(i as int),
                c,
            ),
        decreases all.len() - i,
    {
        proof {
            let next = s@.take(i as int + 1);
            assert(next.drop_last() =~= s@.take(i as int));
            assert(next.last() == all@[i as int]);
            let before = pieces(s@.take(i as int), c);
            assert(before.drop_last() =~= str_views(out@));
            assert(before.last() == s@.subrange(start as int, i as int));
            assert(s@.subrange(start as int, i as int).push(all@[i as int]) =~= s@.subrange(
                start as int,
                i as int + 1,
            ));
        }
        if all[i] == c {
            let ghost had = str_views(out@);
            out.push(s.substring_char(start, i));
            start = i + 1;
            assert(str_views(out@) =~= had.push(out@.last()@));
            assert(s@.subrange(start as int, i as int + 1) =~= Seq::empty());
        }
        i += 1;
    }
    let ghost had = str_views(out@);
    out.push(s.substring_char(start, all.len()));
    proof {
        assert(str_views(out@) =~= had.push(out@.last()@));
        assert(s@.take(s@.len() as int) =~= s@);
    }
    out
}

/// The texts of strings.
pub open spec fn str_views(s: Seq<&str>) -> Seq<Seq<char>> {
    Seq::new(s.len(), |i: int| s[i]@)
}

/// Whether a character is white space: the property `White_Space` of Unicode.
pub open spec fn white_space(c: char) -> bool {
    let n = c as int;
    ||| 0x9 <= n <= 0xd
    ||| n == 0x20
    ||| n == 0x85
    ||| n == 0xa0
    ||| n == 0x1680
    ||| 0x2000 <= n <= 0x200a
    ||| 0x2028 <= n <= 0x2029
    ||| n == 0x202f
    ||| n == 0x205f
    ||| n == 0x3000
}

/// Calls `char::is_whitespace`: whether the character has the property `White_Space`
/// of Unicode.
#[verifier::external_body]
pub(crate) fn is_white_space(c: char) -> (r: bool)
    ensures
        r == white_space(c),
{
    c.is_whitespace()
}

/// `s` without the white space in front.
pub open spec fn trimmed_front(s: Seq<char>) -> Seq<char>
    decreases s.len(),
{
    if s.len() > 0 && white_space(s[0]) {
        trimmed_front(s.skip(1))
    } else {
        s
    }
}

/// `s` without the white space at its end.
pub open spec fn trimmed_back(s: Seq<char>) -> Seq<char>
    decreases s.len(),
{
    if s.len() > 0 && white_space(s.last()) {
        trimmed_back(s.drop_last())
    } else {
        s
    }
}

/// `s` without the white space around it.
pub open spec fn trimmed(s: Seq<char>) -> Seq<char> {
    trimmed_back(trimmed_front(s))
}

/// `s` without the white space around it.
pub fn trim<'a>(s: &'a str) -> (r: &'a str)
    ensures
        r@ == trimmed(s@),
{
    let all: Vec<char> = chars_of(s);
    let mut start: usize = 0;
    assert(s@.skip(0) =~= s@);
    while start < all.len() && is_white_space(all[start])
        invariant
            all@ == s@,
            start <= all.len(),
            trimmed_front(s@) == trimmed_front(s@.skip(start as int)),
        decreases all.len() - start,
    {
        assert(s@.skip(start as int).skip(1) =~= s@.skip(start as int + 1));
        start += 1;
    }
    assert(trimmed_front(s@) == s@.skip(start as int));
    let mut end: usize = all.len();
    assert(s@.subrange(start as int, end as int) =~= s@.skip(start as int));
    while end > start && is_white_space(all[end - 1])
        invariant
            all@ == s@,
            start <= end <= all.len(),
            trimmed(s@) == trimmed_back(s@.subrange(start as int, end as int)),
        decreases end - start,
    {
        assert(s@.subrange(start as int, end as int).drop_last() =~= s@.subrange(
            start as int,
            end as int - 1,
        ));
        end -= 1;
    }
    s.substring_char(start, end)
}

/// A number or its absence, as text.
pub open spec fn option_text(n: Option<u64>) -> Seq<char> {
    match n {
        Some(x) => "Some("@ + decimal(x as nat) + ")"@,
        None => "None"@,
    }
}

/// A number or its absence, as text.
pub fn option_string(n: Option<u64>) -> (r: String)
    ensures
        r@ == option_text(n),
{
    match n {
        Some(x) => {
            let mut m: String = "Some(".to_owned();
            push_decimal(&mut m, x);
            m.append(")");
            m
        },
        None => "None".to_owned(),
    }
}

/// Four digits.
pub open spec fn four_digits(n: nat) -> Seq<char> {
    seq![digit(n / 1000 % 10), digit(n / 100 % 10), digit(n / 10 % 10), digit(n % 10)]
}

/// A quotient to four places, rounded half up.
pub open spec fn quotient_text(a: u64, b: u64) -> Seq<char> {
    if b == 0 {
        if a == 0 {
            "NaN"@
        } else {
            "inf"@
        }
    } else {
        let n = (20000 * a + b) as int / (2 * b) as int;
        decimal((n / 10000) as nat) + "."@ + four_digits((n % 10000) as nat)
    }
}

/// A quotient to four places, rounded half up.
pub fn quotient_string(a: u64, b: u64) -> (r: String)
    ensures
        r@ == quotient_text(a, b),
{
    if b == 0 {
        return if a == 0 {
            "NaN".to_owned()
        } else {
            "inf".to_owned()
        };
    }
    let n: u128 = (20000 * a as u128 + b as u128) / (2 * b as u128);
    let mut m: String = String::new();
    push_decimal_wide(&mut m, n / 10000);
    m.append(".");
    let rest: u64 = (n % 10000) as u64;
    push_digit(&mut m, rest / 1000 % 10);
    push_digit(&mut m, rest / 100 % 10);
    push_digit(&mut m, rest / 10 % 10);
    push_digit(&mut m, rest % 10);
    assert(m@ =~= quotient_text(a, b));
    m
}

/// Reads an unsigned numeral of at most `max`; a leading `+` is allowed.
pub fn parse_unsigned(s: &str, max: u64) -> (r: Option<u64>)
    ensures
        match r {
            Some(n) => numeral(s@, max as nat) == Some(n as nat),
            None => numeral(s@, max as nat) is None,
        },
{
    let all: Vec<char> = chars_of(s);
    let start: usize = if all.len() > 0 && all[0] == '+' {
        1
    } else {
        0
    };
    let ghost d = unsigned_part(s@);
    assert(d =~= all@.subrange(start as int, all.len() as int));
    if start == all.len() {
        return None;
    }
    let mut i: usize = start;
    let mut value: u64 = 0;
    let mut fits: bool = true;
    assert(d.take(0) =~= Seq::empty());
    while i < all.len()
        invariant
            start <= i <= all.len(),
            all@ == s@,
            d == unsigned_part(s@),
            d == all@.subrange(start as int, all.len() as int),
            forall|k: int| 0 <= k < i - start ==> is_digit(#[trigger] d[k]),
            fits ==> value == digits_value(d.take(i - start)) && value <= max,
            !fits ==> digits_value(d.take(i - start)) > max,
        decreases all.len() - i,
    {
        let c: char = all[i];
        assert(d[i - start] == c);
        if c < '0' || c > '9' {
            return None;
        }
        let digit_value: u64 = (c as u32 - 48) as u64;
        proof {
            let t = d.take(i - start + 1);
            assert(t.drop_last() =~= d.take(i - start));
            assert(t.last() == c);
        }
        if fits {
            match value.checked_mul(10) {
                Some(v) => match v.checked_add(digit_value) {
                    Some(w) => {
                        if w <= max {
                            value = w;
                        } else {
                            fits = false;
                        }
                    },
                    None => {
                        fits = false;
                    },
                },
                None => {
                    fits = false;
                },
            }
        }
        i += 1;
    }
    assert(d.take(d.len() as int) =~= d);
    if fits {
        Some(value)
    } else {
        None
    }
}

/// Byte strings are ordered by the first byte in which they differ, and a byte string
/// comes before those that go on from it.
pub proof fn first_difference_decides(a: Seq<u8>, b: Seq<u8>, k: int)
    requires
        0 <= k <= a.len(),
        k <= b.len(),
        a.take(k) == b.take(k),
        k == a.len() || k == b.len() || a[k] != b[k],
    ensures
        bytes_lt(a, b) <==> k < b.len() && (k == a.len() || a[k] < b[k]),
    decreases k,
{
    if k > 0 {
        assert(a.take(k)[0] == a[0] && b.take(k)[0] == b[0]);
        let x = a.subrange(1, a.len() as int);
        let y = b.subrange(1, b.len() as int);
        assert forall|i: int| 0 <= i < k - 1 implies x[i] == y[i] by {
            assert(a.take(k)[i + 1] == b.take(k)[i + 1]);
            assert(a.take(k)[i + 1] == a[i + 1] && b.take(k)[i + 1] == b[i + 1]);
        }
        assert(x.take(k - 1) =~= y.take(k - 1));
        first_difference_decides(x, y, k - 1);
    }
}

/// Searching finds the first occurrence, and nothing exactly if there is none.
pub proof fn first_at_is_the_first(s: Seq<char>, part: Seq<char>, from: int)
    requires
        from >= 0,
    ensures
        match first_at(s, part, from) {
            Some(at) => from <= at && occurs_at(s, part, at) && forall|k: int|
                from <= k < at ==> !#[trigger] occurs_at(s, part, k),
            None => forall|k: int| from <= k ==> !#[trigger] occurs_at(s, part, k),
        },
    decreases s.len() + 1 - from,
{
    if from + part.len() <= s.len() && !occurs_at(s, part, from) {
        first_at_is_the_first(s, part, from + 1);
    }
}

/// What follows an occurrence: with the text up to its end in front it is the whole.
pub proof fn after_first_splits(s: Seq<char>, part: Seq<char>)
    ensures
        contains_text(s, part) ==> exists|at: int|
            #[trigger] occurs_at(s, part, at) && s == s.take(at) + part + after_first(s, part)
                && forall|k: int| 0 <= k < at ==> !#[trigger] occurs_at(s, part, k),
        !contains_text(s, part) ==> after_first(s, part) == s,
{
    first_at_is_the_first(s, part, 0);
    match first_at(s, part, 0) {
        Some(at) => {
            assert(occurs_at(s, part, at));
            assert(s =~= s.take(at) + s.subrange(at, at + part.len()) + s.skip(at + part.len()));
        },
        None => {},
    }
}

/// The parts of a text with the character put between them again are the text, and none
/// of them has the character.
pub proof fn pieces_join_again(s: Seq<char>, c: char)
    ensures
        pieces(s, c).len() > 0,
        joined(pieces(s, c), seq![c], pieces(s, c).len()) == s,
        forall|i: int| 0 <= i < pieces(s, c).len() ==> !(#[trigger] pieces(s, c)[i]).contains(c),
    decreases s.len(),
{
    let all = pieces(s, c);
    if s.len() == 0 {
        assert(joined(all, seq![c], 1) =~= s);
        assert(!Seq::<char>::empty().contains(c));
    } else {
        let d = s.drop_last();
        let before = pieces(d, c);
        pieces_join_again(d, c);
        if s.last() == c {
            joined_ignores_the_rest(before, all, seq![c], before.len());
            assert(joined(all, seq![c], all.len()) =~= s);
        } else {
            let n = before.len();
            if n > 1 {
                joined_ignores_the_rest(before, all, seq![c], (n - 1) as nat);
            }
            let last = before[n - 1];
            assert(all[n - 1] == last.push(s.last()));
            assert(s =~= d.push(s.last()));
            if n > 1 {
                let front = joined(before, seq![c], (n - 1) as nat) + seq![c];
                assert(joined(before, seq![c], n) == front + last);
                assert(joined(all, seq![c], n) == front + last.push(s.last()));
                assert(front + last.push(s.last()) =~= (front + last).push(s.last()));
            }
        }
        assert forall|i: int| 0 <= i < all.len() implies !(#[trigger] all[i]).contains(c) by {
            if i < before.len() - 1 || (i < before.len() && s.last() == c) {
                assert(all[i] == before[i]);
            } else if s.last() != c {
                let last = before.last();
                assert(last == before[before.len() - 1]);
                if all[i].contains(c) {
                    let k = choose|k: int| 0 <= k < all[i].len() && all[i][k] == c;
                    assert(last[k] == c);
                    assert(last.contains(c));
                }
            }
        }
    }
}

proof fn joined_ignores_the_rest(
    a: Seq<Seq<char>>,
    b: Seq<Seq<char>>,
    separator: Seq<char>,
    n: nat,
)
    requires
        n <= a.len(),
        n <= b.len(),
        forall|i: int| 0 <= i < n ==> a[i] == b[i],
    ensures
        joined(a, separator, n) == joined(b, separator, n),
    decreases n,
{
    if n > 1 {
        joined_ignores_the_rest(a, b, separator, (n - 1) as nat);
    }
}

/// Trimming takes away white space and nothing else, at both ends, and leaves none
/// there: the text is white space, what is left, and white space again.
pub proof fn trimming_takes_white_space_alone(s: Seq<char>)
    ensures
        exists|a: int, b: int|
            {
                &&& 0 <= a <= b <= s.len()
                &&& #[trigger] s.subrange(a, b) == trimmed(s)
                &&& forall|i: int| 0 <= i < a ==> white_space(#[trigger] s[i])
                &&& forall|i: int| b <= i < s.len() ==> white_space(#[trigger] s[i])
            },
        trimmed(s).len() > 0 ==> !white_space(trimmed(s)[0]) && !white_space(trimmed(s).last()),
{
    let a = front_space(s);
    let t = trimmed_front(s);
    let b = back_space(t);
    assert(trimmed(s) =~= s.subrange(a, a + b));
    assert forall|i: int| a + b <= i < s.len() implies white_space(#[trigger] s[i]) by {
        assert(t[i - a] == s[i]);
    }
    if b > 0 {
        assert(t.take(b)[0] == t[0]);
    }
}

proof fn front_space(s: Seq<char>) -> (a: int)
    ensures
        0 <= a <= s.len(),
        trimmed_front(s) == s.skip(a),
        forall|i: int| 0 <= i < a ==> white_space(#[trigger] s[i]),
        trimmed_front(s).len() > 0 ==> !white_space(trimmed_front(s)[0]),
    decreases s.len(),
{
    if s.len() > 0 && white_space(s[0]) {
        let a = front_space(s.skip(1));
        assert(s.skip(1).skip(a) =~= s.skip(a + 1));
        assert forall|i: int| 0 <= i < a + 1 implies white_space(#[trigger] s[i]) by {
            if i > 0 {
                assert(s.skip(1)[i - 1] == s[i]);
            }
        }
        a + 1
    } else {
        assert(s.skip(0) =~= s);
        0
    }
}

proof fn back_space(s: Seq<char>) -> (b: int)
    ensures
        0 <= b <= s.len(),
        trimmed_back(s) == s.take(b),
        forall|i: int| b <= i < s.len() ==> white_space(#[trigger] s[i]),
        trimmed_back(s).len() > 0 ==> !white_space(trimmed_back(s).last()),
    decreases s.len(),
{
    if s.len() > 0 && white_space(s.last()) {
        let d = s.drop_last();
        let b = back_space(d);
        assert(d.take(b) =~= s.take(b));
        assert forall|i: int| b <= i < s.len() implies white_space(#[trigger] s[i]) by {
            if i < d.len() {
                assert(d[i] == s[i]);
            }
        }
        b
    } else {
        assert(s.take(s.len() as int) =~= s);
        s.len() as int
    }
}

/// A digit counts by its place: putting a numeral before another multiplies it by ten
/// for each digit of the other.
pub proof fn digits_count_by_their_place(a: Seq<char>, b: Seq<char>)
    ensures
        digits_value(a + b) == digits_value(a) * vstd::arithmetic::power::pow(10, b.len())
            + digits_value(b),
        digits_value(seq!['0']) == 0,
        digits_value(seq!['1']) == 1,
        digits_value(seq!['9']) == 9,
    decreases b.len(),
{
    reveal_with_fuel(digits_value, 2);
    reveal(vstd::arithmetic::power::pow);
    assert(seq!['0'].drop_last() =~= Seq::empty());
    assert(seq!['1'].drop_last() =~= Seq::empty());
    assert(seq!['9'].drop_last() =~= Seq::empty());
    if b.len() == 0 {
        assert(a + b =~= a);
    } else {
        let d = b.drop_last();
        digits_count_by_their_place(a, d);
        assert((a + b).drop_last() =~= a + d);
        let p = vstd::arithmetic::power::pow(10, d.len());
        let v = digits_value(a) as int;
        assert((v * p) * 10 == v * (10 * p)) by (nonlinear_arith);
    }
}

/// Four digits stand for their number.
pub proof fn four_digits_read_back(n: nat)
    requires
        n < 10000,
    ensures
        four_digits(n).len() == 4,
        all_digits(four_digits(n)),
        digits_value(four_digits(n)) == n,
{
    let d = |k: nat| digit(k % 10);
    let e = Seq::<char>::empty();
    let a = e.push(d(n / 1000));
    let b = a.push(d(n / 100));
    let c = b.push(d(n / 10));
    assert(four_digits(n) =~= c.push(d(n)));
    one_more_digit(e, n / 1000 % 10);
    one_more_digit(a, n / 100 % 10);
    one_more_digit(b, n / 10 % 10);
    one_more_digit(c, n % 10);
    four_places(n);
}

proof fn one_more_digit(s: Seq<char>, d: nat)
    requires
        d < 10,
    ensures
        is_digit(digit(d)),
        digits_value(s.push(digit(d))) == digits_value(s) * 10 + d,
{
    assert(s.push(digit(d)).drop_last() =~= s);
}

proof fn four_places(n: nat)
    requires
        n < 10000,
    ensures
        ((n / 1000 % 10 * 10 + n / 100 % 10) * 10 + n / 10 % 10) * 10 + n % 10 == n,
{
    let a = n / 10;
    let b = a / 10;
    let c = b / 10;
    assert(n / 100 == b);
    assert(n / 1000 == c);
    assert(c < 10);
    assert(b == 10 * c + b % 10);
    assert(a == 10 * b + a % 10);
    assert(n == 10 * a + n % 10);
}

/// A quotient is written as the number of ten-thousandths that is nearest to it, the
/// larger one of two that are as near.
pub proof fn quotient_is_the_nearest(a: u64, b: u64, n: nat)
    requires
        b > 0,
        2 * n * b - b <= 20000 * a < 2 * n * b + b,
    ensures
        quotient_text(a, b) == decimal(n / 10000) + "."@ + four_digits(n % 10000),
{
    let x = 20000 * a + b;
    let d = 2 * b;
    assert(x == n * d + (x - n * d));
    assert(0 <= x - n * d < d) by (nonlinear_arith)
        requires
            2 * n * b - b <= 20000 * a < 2 * n * b + b,
            x == 20000 * a + b,
            d == 2 * b,
    ;
    vstd::arithmetic::div_mod::lemma_fundamental_div_mod_converse(x, d, n as int, x - n * d);
}

proof fn numbers_ignore_the_rest(a: Seq<u64>, b: Seq<u64>, n: nat)
    requires
        n <= a.len(),
    ensures
        numbers_text(a + b, n) == numbers_text(a, n),
    decreases n,
{
    if n > 0 {
        assert((a + b)[n - 1] == a[n - 1]);
        assert((a + b)[0] == a[0]);
        numbers_ignore_the_rest(a, b, (n - 1) as nat);
    }
}

/// Numbers stand in a list in their order: the text of two lists one after the other is
/// that of the first, a comma and a space, and that of the second.
pub proof fn numbers_stand_in_their_order(a: Seq<u64>, b: Seq<u64>, n: nat)
    requires
        a.len() > 0,
        0 < n <= b.len(),
    ensures
        numbers_text(a + b, a.len() + n) == numbers_text(a, a.len()) + ", "@ + numbers_text(b, n),
        numbers_text(seq![a[0]], 1) == decimal(a[0] as nat),
    decreases n,
{
    assert((a + b)[a.len() + n - 1] == b[n - 1]);
    if n == 1 {
        numbers_ignore_the_rest(a, b, a.len());
    } else {
        numbers_stand_in_their_order(a, b, (n - 1) as nat);
        let front = numbers_text(a, a.len()) + ", "@;
        assert(front + numbers_text(b, (n - 1) as nat) + ", "@ + decimal(b[n - 1] as nat) =~= front
            + (numbers_text(b, (n - 1) as nat) + ", "@ + decimal(b[n - 1] as nat)));
    }
}

proof fn quoted_ignore_the_rest(a: Seq<Seq<char>>, b: Seq<Seq<char>>, n: nat)
    requires
        n <= a.len(),
    ensures
        quoted_texts(a + b, n) == quoted_texts(a, n),
    decreases n,
{
    if n > 0 {
        assert((a + b)[n - 1] == a[n - 1]);
        assert((a + b)[0] == a[0]);
        quoted_ignore_the_rest(a, b, (n - 1) as nat);
    }
}

/// Texts stand in a list in their order, as numbers do.
pub proof fn quoted_texts_stand_in_their_order(a: Seq<Seq<char>>, b: Seq<Seq<char>>, n: nat)
    requires
        a.len() > 0,
        0 < n <= b.len(),
    ensures
        quoted_texts(a + b, a.len() + n) == quoted_texts(a, a.len()) + ", "@ + quoted_texts(b, n),
        quoted_texts(seq![a[0]], 1) == debug_quoted(a[0]),
    decreases n,
{
    assert((a + b)[a.len() + n - 1] == b[n - 1]);
    if n == 1 {
        quoted_ignore_the_rest(a, b, a.len());
    } else {
        quoted_texts_stand_in_their_order(a, b, (n - 1) as nat);
        let front = quoted_texts(a, a.len()) + ", "@;
        assert(front + quoted_texts(b, (n - 1) as nat) + ", "@ + debug_quoted(b[n - 1]) =~= front
            + (quoted_texts(b, (n - 1) as nat) + ", "@ + debug_quoted(b[n - 1])));
    }
}

/// A text starts with a part if the part is its front, ends with it if it is its back, and
/// contains it if it stands between a front and a back.
pub proof fn parts_stand_in_their_text(a: Seq<char>, part: Seq<char>, b: Seq<char>)
    ensures
        starts_with(part + b, part),
        ends_with(a + part, part),
        contains_text(a + part + b, part),
        occurs_at(a + part + b, part, a.len() as int),
        starts_with(a, part) <==> part.is_prefix_of(a),
        ends_with(a, part) <==> part.is_suffix_of(a),
{
    assert((part + b).subrange(0, part.len() as int) =~= part);
    assert((a + part).subrange(a.len() as int, (a + part).len() as int) =~= part);
    assert((a + part + b).subrange(a.len() as int, (a.len() + part.len()) as int) =~= part);
    assert(occurs_at(a + part + b, part, a.len() as int));
}

/// A numeral is one or more digits, behind a plus or not, that stand for no more than the
/// largest number allowed. Nothing else is one.
pub proof fn numerals_are_digits(s: Seq<char>, max: nat)
    ensures
        numeral(s, max) matches Some(n) ==> n <= max,
        s.len() == 0 ==> numeral(s, max) is None,
        s.len() > 0 && s[0] != '+' ==> (numeral(s, max) is Some <==> digits_value(s) <= max
            && forall|i: int| 0 <= i < s.len() ==> '0' <= #[trigger] s[i] <= '9'),
        s.len() > 0 && s[0] != '+' && numeral(s, max) is Some ==> numeral(s, max) == Some(
            digits_value(s),
        ),
        all_digits(s) ==> numeral(seq!['+'] + s, max) == numeral(s, max),
{
    let plus = seq!['+'] + s;
    assert(plus.subrange(1, plus.len() as int) =~= s);
    if s.len() > 0 && s[0] != '+' {
        assert(unsigned_part(s) == s);
        assert forall|i: int| 0 <= i < s.len() implies (is_digit(#[trigger] s[i]) <==> '0' <= s[i]
            <= '9') by {}
        if forall|i: int| 0 <= i < s.len() ==> '0' <= #[trigger] s[i] <= '9' {
            assert(all_digits(s));
        }
    }
}

} // verus!
