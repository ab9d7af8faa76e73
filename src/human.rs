//! Human-readable byte counts in binary units.

use vstd::prelude::*;

verus! {

/// The largest byte count that has a unit: 1024 to the sixth power.
pub const MAX_SIZE: u64 = 1152921504606846976;

/// 1024 to the power `l`.
pub open spec fn pow1024(l: nat) -> nat
    decreases l,
{
    if l == 0 {
        1
    } else {
        1024 * pow1024((l - 1) as nat)
    }
}

/// The unit a byte count is shown in: the least `l` with `sz <= 1024^(l+1)`,
/// so that the scaled value is at most 1024.
pub open spec fn size_level(sz: nat) -> nat {
    if sz <= pow1024(1) {
        0
    } else if sz <= pow1024(2) {
        1
    } else if sz <= pow1024(3) {
        2
    } else if sz <= pow1024(4) {
        3
    } else if sz <= pow1024(5) {
        4
    } else if sz <= pow1024(6) {
        5
    } else {
        6
    }
}

/// The suffix of unit `l`.
pub open spec fn unit_suffix(l: nat) -> char {
    if l == 0 {
        'B'
    } else if l == 1 {
        'K'
    } else if l == 2 {
        'M'
    } else if l == 3 {
        'G'
    } else if l == 4 {
        'T'
    } else {
        'E'
    }
}

/// `n / d` rounded to the nearest integer, ties to the even one.
pub open spec fn round_half_even(n: nat, d: nat) -> nat
    recommends
        d > 0,
{
    let q = n / d;
    let r = n % d;
    if 2 * r > d || (2 * r == d && q % 2 == 1) {
        q + 1
    } else {
        q
    }
}

/// The scaled value of `sz` in tenths of its unit.
pub open spec fn size_tenths(sz: nat) -> nat {
    round_half_even(10 * sz, pow1024(size_level(sz)))
}

/// The decimal digit character of `d < 10`.
pub open spec fn digit_char(d: nat) -> char {
    ((d + 48) as u8) as char
}

/// The decimal digits of `n`, most significant first, without leading zeros.
pub open spec fn decimal(n: nat) -> Seq<char>
    decreases n,
{
    if n < 10 {
        seq![digit_char(n)]
    } else {
        decimal(n / 10).push(digit_char(n % 10))
    }
}

/// The text of a byte count: the scaled value with one decimal place, then
/// the unit's suffix.
pub open spec fn size_text(sz: nat) -> Seq<char> {
    let t = size_tenths(sz);
    decimal(t / 10) + seq!['.', digit_char(t % 10), unit_suffix(size_level(sz))]
}

/// A byte count too large for the units that have a suffix.
#[derive(Debug, Clone, Copy, PartialEq, Eq)]
pub enum SizeError {
    OutOfRange,
}

fn digit_str(d: u64) -> (r: &'static str)
    requires
        d < 10,
    ensures
        r@ == seq![digit_char(d as nat)],
{
    proof {
        reveal_strlit("0");
        reveal_strlit("1");
        reveal_strlit("2");
        reveal_strlit("3");
        reveal_strlit("4");
        reveal_strlit("5");
        reveal_strlit("6");
        reveal_strlit("7");
        reveal_strlit("8");
        reveal_strlit("9");
    }
    match d {
        0 => "0",
        1 => "1",
        2 => "2",
        3 => "3",
        4 => "4",
        5 => "5",
        6 => "6",
        7 => "7",
        8 => "8",
        _ => "9",
    }
}

fn suffix_str(l: u64) -> (r: &'static str)
    ensures
        r@ == seq![unit_suffix(l as nat)],
{
    proof {
        reveal_strlit("B");
        reveal_strlit("K");
        reveal_strlit("M");
        reveal_strlit("G");
        reveal_strlit("T");
        reveal_strlit("E");
    }
    match l {
        0 => "B",
        1 => "K",
        2 => "M",
        3 => "G",
        4 => "T",
        _ => "E",
    }
}

/// Appends the decimal digits of `n` to `s`.
fn push_decimal(s: &mut String, n: u64)
    ensures
        final(s)@ == old(s)@ + decimal(n as nat),
    decreases n,
{
    if n < 10 {
        s.append(digit_str(n));
    } else {
        push_decimal(s, n / 10);
        s.append(digit_str(n % 10));
        assert(final(s)@ =~= old(s)@ + decimal(n as nat));
    }
}

/// Shows `sz` bytes in binary units with one decimal place (`"2.0K"`), the
/// unit chosen so that the scaled value is at most 1024.
pub fn human_size(sz: u64) -> (r: Result<String, SizeError>)
    ensures
        sz <= MAX_SIZE ==> r is Ok && r->Ok_0@ == size_text(sz as nat),
        sz > MAX_SIZE ==> r == Err::<String, SizeError>(SizeError::OutOfRange),
{
    if sz > MAX_SIZE {
        return Err(SizeError::OutOfRange);
    }
    proof {
        reveal_with_fuel(pow1024, 7);
    }
    let mut l: u64 = 0;
    let mut d: u64 = 1;
    while sz > d * 1024
        invariant
            l <= 5,
            d as nat == pow1024(l as nat),
            d <= 1125899906842624,
            sz <= MAX_SIZE,
            forall|k: nat| k < l ==> sz > #[trigger] pow1024(k + 1),
        decreases 6 - l,
    {
        proof {
            reveal_with_fuel(pow1024, 7);
            if l == 5 {
                assert(false);
            }
        }
        d = d * 1024;
        l = l + 1;
    }
    proof {
        reveal_with_fuel(pow1024, 7);
        assert(size_level(sz as nat) == l as nat) by {
            if l > 0 { assert(sz > pow1024((l - 1) as nat + 1)); }
            if l > 1 { assert(sz > pow1024((l - 2) as nat + 1)); }
            if l > 2 { assert(sz > pow1024((l - 3) as nat + 1)); }
            if l > 3 { assert(sz > pow1024((l - 4) as nat + 1)); }
            if l > 4 { assert(sz > pow1024((l - 5) as nat + 1)); }
        }
    }
    let n = sz * 10;
    let q = n / d;
    let rem = n % d;
    let t = if 2 * rem > d || (2 * rem == d && q % 2 == 1) {
        q + 1
    } else {
        q
    };
    assert(t as nat == size_tenths(sz as nat));
    let mut s = String::new();
    push_decimal(&mut s, t / 10);
    s.append(".");
    s.append(digit_str(t % 10));
    s.append(suffix_str(l));
    proof {
        reveal_strlit(".");
    }
    assert(s@ =~= size_text(sz as nat));
    Ok(s)
}

proof fn lemma_tenths_bounds(sz: nat, d: nat)
    requires
        d > 0,
        sz <= 1024 * d,
    ensures
        round_half_even(10 * sz, d) <= 10240,
        sz > d ==> round_half_even(10 * sz, d) >= 10,
{
    let n = 10 * sz;
    let q = n / d;
    let r = n % d;
    vstd::arithmetic::div_mod::lemma_fundamental_div_mod(n as int, d as int);
    assert(n == d * q + r);
    assert(q <= 10240) by (nonlinear_arith)
        requires
            n == d * q + r,
            r >= 0,
            n <= 10240 * d,
            d > 0,
    ;
    if q == 10240 {
        assert(r == 0) by (nonlinear_arith)
            requires
                n == d * q + r,
                q == 10240,
                n <= 10240 * d,
                r >= 0,
        ;
    }
    if sz > d {
        assert(q >= 10) by (nonlinear_arith)
            requires
                n == d * q + r,
                r < d,
                n > 10 * d,
                d > 0,
        ;
    }
}

/// The value shown is at most 1024 of its unit, and at least 1 of it in
/// every unit above bytes.
pub proof fn lemma_shown_value_bounds(sz: nat)
    requires
        sz <= MAX_SIZE,
    ensures
        size_tenths(sz) <= 10240,
        size_level(sz) > 0 ==> size_tenths(sz) >= 10,
{
    reveal_with_fuel(pow1024, 7);
    let l = size_level(sz);
    lemma_tenths_bounds(sz, pow1024(l));
}

} // verus!
