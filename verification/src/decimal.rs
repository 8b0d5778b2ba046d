//! Decimal rendering of integers as ASCII bytes, together with the
//! parsing functions that invert it. The PPM writer builds every numeric
//! field of the output through [`push_decimal_u32`] and
//! [`push_decimal_i32`], whose contracts tie the emitted bytes to the
//! spec-level representations [`dec_rep`] and [`int_rep`].

use vstd::prelude::*;

verus! {

/// ASCII code of the decimal digit `d` (for `d < 10`).
pub open spec fn dec_digit(d: nat) -> u8 {
    (48 + d) as u8
}

/// The usual decimal representation of `n` as a sequence of ASCII digit
/// bytes: no sign, no leading zeros (except for `n == 0`, written "0").
pub open spec fn dec_rep(n: nat) -> Seq<u8>
    decreases n,
{
    if n < 10 {
        seq![dec_digit(n)]
    } else {
        dec_rep(n / 10) + seq![dec_digit(n % 10)]
    }
}

/// The decimal representation of a signed integer: a leading minus sign
/// for negative values, followed by the digits of the magnitude.
pub open spec fn int_rep(i: int) -> Seq<u8> {
    if i < 0 {
        seq![45u8] + dec_rep((-i) as nat)
    } else {
        dec_rep(i as nat)
    }
}

/// Whether `b` is the ASCII code of a decimal digit.
pub open spec fn is_digit(b: u8) -> bool {
    48 <= b <= 57
}

/// Every byte of `dec_rep(n)` is an ASCII digit, and there is at least one.
pub proof fn lemma_dec_rep_digits(n: nat)
    ensures
        dec_rep(n).len() >= 1,
        forall|i: int| 0 <= i < dec_rep(n).len() ==> is_digit(#[trigger] dec_rep(n)[i]),
    decreases n,
{
    if n >= 10 {
        lemma_dec_rep_digits(n / 10);
    }
}

/// Every byte of `int_rep(i)` is an ASCII digit or the minus sign, and
/// there is at least one.
pub proof fn lemma_int_rep_bytes(i: int)
    ensures
        int_rep(i).len() >= 1,
        forall|j: int|
            0 <= j < int_rep(i).len() ==> (is_digit(#[trigger] int_rep(i)[j]) || int_rep(i)[j]
                == 45),
{
    if i < 0 {
        lemma_dec_rep_digits((-i) as nat);
        assert forall|j: int| 0 <= j < int_rep(i).len() implies (is_digit(
            #[trigger] int_rep(i)[j],
        ) || int_rep(i)[j] == 45) by {
            if j >= 1 {
                assert(int_rep(i)[j] == dec_rep((-i) as nat)[j - 1]);
            }
        }
    } else {
        lemma_dec_rep_digits(i as nat);
    }
}

/// Appends the decimal digits of `n` to `out`.
pub fn push_decimal_u32(out: &mut Vec<u8>, n: u32)
    ensures
        final(out)@ == old(out)@ + dec_rep(n as nat),
    decreases n,
{
    if n < 10 {
        out.push(48 + (n as u8));
        proof {
            assert(out@ =~= old(out)@ + dec_rep(n as nat));
        }
    } else {
        push_decimal_u32(out, n / 10);
        out.push(48 + ((n % 10) as u8));
        proof {
            assert(out@ =~= old(out)@ + dec_rep(n as nat));
        }
    }
}

/// Appends the decimal rendering of `v` to `out`, minus sign included.
pub fn push_decimal_i32(out: &mut Vec<u8>, v: i32)
    ensures
        final(out)@ == old(out)@ + int_rep(v as int),
{
    if v < 0 {
        out.push(45);
        let mag: u32 = (-(v as i64)) as u32;
        push_decimal_u32(out, mag);
        proof {
            assert(out@ =~= old(out)@ + int_rep(v as int));
        }
    } else {
        push_decimal_u32(out, v as u32);
    }
}

/// 10 raised to the power `k`.
pub open spec fn pow10(k: nat) -> nat
    decreases k,
{
    if k == 0 {
        1
    } else {
        10 * pow10((k - 1) as nat)
    }
}

/// Reads the run of decimal digits at the front of `s`, extending the
/// already-read value `acc`, and returns the value together with the
/// unread remainder.
pub open spec fn parse_nat(s: Seq<u8>, acc: nat) -> (nat, Seq<u8>)
    decreases s.len(),
{
    if s.len() == 0 || !is_digit(s[0]) {
        (acc, s)
    } else {
        parse_nat(s.skip(1), acc * 10 + (s[0] - 48) as nat)
    }
}

/// Reads a decimal integer (an optional minus sign, then at least one
/// digit) from the front of `s`.
pub open spec fn parse_int(s: Seq<u8>) -> Option<(int, Seq<u8>)> {
    if s.len() >= 2 && s[0] == 45 && is_digit(s[1]) {
        let (n, rest) = parse_nat(s.skip(1), 0);
        Some((-(n as int), rest))
    } else if s.len() >= 1 && is_digit(s[0]) {
        let (n, rest) = parse_nat(s, 0);
        Some((n as int, rest))
    } else {
        None
    }
}

/// Reading the digits of `n` followed by `rest` accumulates exactly `n`
/// into the value read so far.
pub proof fn lemma_parse_nat_rep(n: nat, rest: Seq<u8>, acc: nat)
    ensures
        parse_nat(dec_rep(n) + rest, acc) == parse_nat(rest, acc * pow10(dec_rep(n).len()) + n),
    decreases n,
{
    lemma_dec_rep_digits(n);
    if n < 10 {
        let s = dec_rep(n) + rest;
        assert(s[0] == dec_digit(n));
        assert(s.skip(1) =~= rest);
        assert((s[0] - 48) as nat == n);
        assert(pow10(1) == 10 * pow10(0));
        assert(parse_nat(s, acc) == parse_nat(rest, acc * 10 + n));
    } else {
        let d = seq![dec_digit(n % 10)];
        assert(dec_rep(n) + rest =~= dec_rep(n / 10) + (d + rest));
        lemma_parse_nat_rep(n / 10, d + rest, acc);
        let p0 = pow10(dec_rep(n / 10).len());
        let p1 = pow10(dec_rep(n).len());
        let q = n / 10;
        let r = n % 10;
        let acc1 = acc * p0 + q;
        assert((d + rest)[0] == dec_digit(r));
        assert(is_digit(dec_digit(r)));
        assert((d + rest).skip(1) =~= rest);
        assert(((d + rest)[0] - 48) as nat == r);
        assert(parse_nat(d + rest, acc1) == parse_nat(rest, acc1 * 10 + r));
        assert(dec_rep(n).len() == dec_rep(n / 10).len() + 1);
        assert(p1 == 10 * p0);
        assert(n == 10 * q + r);
        assert(acc1 * 10 + r == acc * p1 + n) by (nonlinear_arith)
            requires
                acc1 == acc * p0 + q,
                p1 == 10 * p0,
                n == 10 * q + r,
        ;
    }
}

/// Reading the digits of `n` when nothing that looks like a digit
/// follows yields exactly `n` and the remainder.
pub proof fn lemma_parse_nat_encoding(n: nat, rest: Seq<u8>)
    requires
        rest.len() == 0 || !is_digit(rest[0]),
    ensures
        parse_nat(dec_rep(n) + rest, 0) == (n, rest),
{
    lemma_parse_nat_rep(n, rest, 0);
    assert(parse_nat(rest, 0 * pow10(dec_rep(n).len()) + n) == (n, rest));
}

/// Reading the rendering of `i` when nothing that looks like a digit
/// follows yields exactly `i` and the remainder.
pub proof fn lemma_parse_int_encoding(i: int, rest: Seq<u8>)
    requires
        rest.len() == 0 || !is_digit(rest[0]),
    ensures
        parse_int(int_rep(i) + rest) == Some((i, rest)),
{
    let s = int_rep(i) + rest;
    if i < 0 {
        lemma_dec_rep_digits((-i) as nat);
        assert(s[0] == 45);
        assert(s[1] == dec_rep((-i) as nat)[0]);
        assert(s.skip(1) =~= dec_rep((-i) as nat) + rest);
        lemma_parse_nat_encoding((-i) as nat, rest);
    } else {
        lemma_dec_rep_digits(i as nat);
        assert(s[0] == dec_rep(i as nat)[0]);
        assert(is_digit(s[0]) && s[0] != 45);
        assert(s =~= dec_rep(i as nat) + rest);
        lemma_parse_nat_encoding(i as nat, rest);
    }
}

} // verus!
