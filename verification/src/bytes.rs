//! Numbers as little-endian bytes.
use vstd::prelude::*;

verus! {

/// The number whose little-endian bytes are `s`.
pub open spec fn le_value(s: Seq<u8>) -> nat
    decreases s.len(),
{
    if s.len() == 0 {
        0
    } else {
        s[0] as nat + 256 * le_value(s.subrange(1, s.len() as int))
    }
}

/// The `n` little-endian bytes of the number.
pub open spec fn le_bytes(x: nat, n: nat) -> Seq<u8>
    decreases n,
{
    if n == 0 {
        Seq::empty()
    } else {
        seq![(x % 256) as u8] + le_bytes(x / 256, (n - 1) as nat)
    }
}

/// `256` to the power of `n`.
pub open spec fn byte_power(n: nat) -> nat
    decreases n,
{
    if n == 0 {
        1
    } else {
        256 * byte_power((n - 1) as nat)
    }
}

/// Reading back the bytes of a number that they can hold gives the number.
pub proof fn le_bytes_read_back(x: nat, n: nat)
    requires
        x < byte_power(n),
    ensures
        le_bytes(x, n).len() == n,
        le_value(le_bytes(x, n)) == x,
    decreases n,
{
    if n > 0 {
        assert(x / 256 < byte_power((n - 1) as nat));
        le_bytes_read_back(x / 256, (n - 1) as nat);
        let s = le_bytes(x, n);
        assert(s.subrange(1, s.len() as int) =~= le_bytes(x / 256, (n - 1) as nat));
    }
}

/// The value of bytes is smaller than what their number can hold.
pub proof fn le_value_is_bounded(s: Seq<u8>)
    ensures
        le_value(s) < byte_power(s.len()),
    decreases s.len(),
{
    if s.len() > 0 {
        le_value_is_bounded(s.subrange(1, s.len() as int));
    }
}

proof fn byte_powers()
    ensures
        byte_power(2) == 0x1_0000,
        byte_power(4) == 0x1_0000_0000,
        byte_power(8) == 0x1_0000_0000_0000_0000,
{
    reveal_with_fuel(byte_power, 9);
}

fn read_le(s: &[u8], at: usize, n: usize) -> (r: u64)
    requires
        at + n <= s.len(),
        n <= 8,
    ensures
        r == le_value(s@.subrange(at as int, at + n)),
{
    let mut value: u64 = 0;
    let mut i: usize = n;
    proof {
        byte_powers();
    }
    assert(s@.subrange(at + n, at + n) =~= Seq::empty());
    while i > 0
        invariant
            i <= n <= 8,
            at + n <= s.len(),
            value == le_value(s@.subrange(at + i, at + n)),
        decreases i,
    {
        proof {
            let rest = s@.subrange(at + i, at + n);
            let whole = s@.subrange(at + i - 1, at + n);
            assert(whole.subrange(1, whole.len() as int) =~= rest);
            assert(whole[0] == s[at + i - 1]);
            le_value_is_bounded(rest);
            assert(byte_power(rest.len()) <= 0x100_0000_0000_0000) by {
                reveal_with_fuel(byte_power, 9);
            }
        }
        value = value * 256 + s[at + i - 1] as u64;
        i -= 1;
    }
    value
}

/// The two bytes at `at` as a number.
pub fn read_u16(s: &[u8], at: usize) -> (r: u16)
    requires
        at + 2 <= s.len(),
    ensures
        r == le_value(s@.subrange(at as int, at + 2)),
{
    proof {
        byte_powers();
        le_value_is_bounded(s@.subrange(at as int, at + 2));
    }
    read_le(s, at, 2) as u16
}

/// The four bytes at `at` as a number.
pub fn read_u32(s: &[u8], at: usize) -> (r: u32)
    requires
        at + 4 <= s.len(),
    ensures
        r == le_value(s@.subrange(at as int, at + 4)),
{
    proof {
        byte_powers();
        le_value_is_bounded(s@.subrange(at as int, at + 4));
    }
    read_le(s, at, 4) as u32
}

/// The eight bytes at `at` as a number.
pub fn read_u64(s: &[u8], at: usize) -> (r: u64)
    requires
        at + 8 <= s.len(),
    ensures
        r == le_value(s@.subrange(at as int, at + 8)),
{
    read_le(s, at, 8)
}

/// Appends the `n` little-endian bytes of `x`.
pub fn push_le(out: &mut Vec<u8>, x: u64, n: usize)
    ensures
        final(out)@ == old(out)@ + le_bytes(x as nat, n as nat),
{
    let mut rest: u64 = x;
    let mut i: usize = 0;
    while i < n
        invariant
            i <= n,
            old(out)@ + le_bytes(x as nat, n as nat) == out@ + le_bytes(
                rest as nat,
                (n - i) as nat,
            ),
        decreases n - i,
    {
        let ghost before = out@;
        let ghost tail = le_bytes(rest as nat / 256, (n - i - 1) as nat);
        out.push((rest % 256) as u8);
        assert(out@ + tail =~= before + (seq![(rest as nat % 256) as u8] + tail));
        rest = rest / 256;
        i += 1;
    }
    assert(out@ + le_bytes(rest as nat, 0) =~= out@);
}

/// Every byte counts by its place: changing the byte at `i` changes the number by as
/// many times `256^i` as the byte changes.
pub proof fn each_byte_has_its_weight(s: Seq<u8>, i: int, b: u8)
    requires
        0 <= i < s.len(),
    ensures
        le_value(s.update(i, b)) == le_value(s) + (b - s[i]) * byte_power(i as nat),
    decreases s.len(),
{
    let n = s.len() as int;
    let t = s.update(i, b);
    if i == 0 {
        assert(t.subrange(1, n) =~= s.subrange(1, n));
        assert((b - s[i]) * byte_power(0) == b - s[i]) by (nonlinear_arith)
            requires
                byte_power(0) == 1,
        ;
    } else {
        let rest = s.subrange(1, n);
        assert(t.subrange(1, n) =~= rest.update(i - 1, b));
        each_byte_has_its_weight(rest, i - 1, b);
        let p = byte_power((i - 1) as nat);
        assert(256 * ((b - s[i]) * p) == (b - s[i]) * (256 * p)) by (nonlinear_arith);
    }
}

/// The byte at `i` of a number is how often `256^i` goes into it, without what the
/// bytes after it count.
pub proof fn each_byte_is_a_digit(x: nat, n: nat, i: int)
    requires
        0 <= i < n,
    ensures
        le_bytes(x, n).len() == n,
        le_bytes(x, n)[i] == x / byte_power(i as nat) % 256,
    decreases n,
{
    let rest = le_bytes(x / 256, (n - 1) as nat);
    if i == 0 {
        if n > 1 {
            each_byte_is_a_digit(x / 256, (n - 1) as nat, 0);
        }
        assert(x / byte_power(0) == x) by (nonlinear_arith)
            requires
                byte_power(0) == 1,
        ;
    } else {
        each_byte_is_a_digit(x / 256, (n - 1) as nat, i - 1);
        let p = byte_power((i - 1) as nat);
        powers_are_positive((i - 1) as nat);
        vstd::arithmetic::div_mod::lemma_div_denominator(x as int, 256, p as int);
    }
}

proof fn powers_are_positive(n: nat)
    ensures
        byte_power(n) > 0,
    decreases n,
{
    if n > 0 {
        powers_are_positive((n - 1) as nat);
    }
}

} // verus!
