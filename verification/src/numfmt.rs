//! Verified decimal rendering of counts and of one-decimal-place ratios.

use vstd::prelude::*;

verus! {

/// The decimal digit character for `d`.
pub open spec fn digit_char(d: int) -> char {
    if d == 0 {
        '0'
    } else if d == 1 {
        '1'
    } else if d == 2 {
        '2'
    } else if d == 3 {
        '3'
    } else if d == 4 {
        '4'
    } else if d == 5 {
        '5'
    } else if d == 6 {
        '6'
    } else if d == 7 {
        '7'
    } else if d == 8 {
        '8'
    } else {
        '9'
    }
}

/// The decimal numeral of `n`, most significant digit first, as `usize`
/// formatting renders it.
pub open spec fn dec_str(n: int) -> Seq<char>
    decreases n,
{
    if n < 10 {
        seq![digit_char(n)]
    } else {
        dec_str(n / 10).push(digit_char(n % 10))
    }
}

/// `num / den` in tenths, rounded half-up; 0 when `den` is 0.
pub open spec fn rounded_tenths(num: int, den: int) -> int {
    if den <= 0 {
        0
    } else {
        (num * 20 + den) / (den * 2)
    }
}

/// A non-negative quantity of tenths rendered with one decimal place.
pub open spec fn tenths_str(t: int) -> Seq<char> {
    dec_str(t / 10) + seq!['.', digit_char(t % 10)]
}

/// `num / den` rendered to one decimal place, rounded half-up; "0.0" when
/// `den` is 0.
pub open spec fn ratio_str(num: int, den: int) -> Seq<char> {
    tenths_str(rounded_tenths(num, den))
}

/// The decimal digit character for `d`.
pub(crate) fn digit_exec(d: u128) -> (c: char)
    requires
        d < 10,
    ensures
        c == digit_char(d as int),
{
    if d == 0 {
        '0'
    } else if d == 1 {
        '1'
    } else if d == 2 {
        '2'
    } else if d == 3 {
        '3'
    } else if d == 4 {
        '4'
    } else if d == 5 {
        '5'
    } else if d == 6 {
        '6'
    } else if d == 7 {
        '7'
    } else if d == 8 {
        '8'
    } else {
        '9'
    }
}

/// Appends the decimal numeral of `n` to `out`.
pub(crate) fn push_dec(n: u128, out: &mut Vec<char>)
    ensures
        final(out)@ == old(out)@ + dec_str(n as int),
    decreases n,
{
    if n < 10 {
        out.push(digit_exec(n));
        proof {
            assert(old(out)@ + dec_str(n as int) =~= old(out)@.push(digit_char(n as int)));
        }
    } else {
        push_dec(n / 10, out);
        out.push(digit_exec(n % 10));
        proof {
            assert((n / 10) as int == n as int / 10);
            assert((n % 10) as int == n as int % 10);
            assert(old(out)@ + dec_str(n as int) =~= (old(out)@ + dec_str(n as int / 10)).push(
                digit_char(n as int % 10),
            ));
        }
    }
}

/// The decimal numeral of `n`.
pub fn dec_chars(n: u128) -> (r: Vec<char>)
    ensures
        r@ == dec_str(n as int),
{
    let mut out: Vec<char> = Vec::new();
    push_dec(n, &mut out);
    proof {
        assert(Seq::<char>::empty() + dec_str(n as int) =~= dec_str(n as int));
    }
    out
}

/// Renders `num / den` to one decimal place, rounded half-up; "0.0" when
/// `den` is 0.
pub fn ratio_chars(num: u128, den: u128) -> (r: Vec<char>)
    requires
        num <= 0xffff_ffff_ffff_ffff_ffff_ffffu128,
        den <= u64::MAX as u128,
    ensures
        r@ == ratio_str(num as int, den as int),
{
    let t: u128 = if den == 0 {
        0
    } else {
        (num * 20 + den) / (den * 2)
    };
    proof {
        assert(t as int == rounded_tenths(num as int, den as int));
    }
    let mut r = dec_chars(t / 10);
    r.push('.');
    r.push(digit_exec(t % 10));
    proof {
        assert((t / 10) as int == t as int / 10);
        assert((t % 10) as int == t as int % 10);
        assert(dec_str(t as int / 10) + seq!['.', digit_char(t as int % 10)] =~= dec_str(
            t as int / 10,
        ).push('.').push(digit_char(t as int % 10)));
    }
    r
}

} // verus!
