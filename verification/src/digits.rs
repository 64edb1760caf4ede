//! The decimal model behind the codec: powers of ten, digit characters,
//! the value of a digit string, the plain decimal representation of a
//! number, and zero-padding to a requested width.

use vstd::prelude::*;

verus! {

/// 10 to the power `e`.
pub open spec fn pow10(e: nat) -> nat
    decreases e,
{
    if e == 0 {
        1
    } else {
        10 * pow10((e - 1) as nat)
    }
}

/// `c` is an ASCII decimal digit.
pub open spec fn is_dec_digit(c: char) -> bool {
    '0' <= c && c <= '9'
}

/// The numeric value of a single digit character.
pub open spec fn digit_val(c: char) -> nat
    recommends
        is_dec_digit(c),
{
    (c as int - '0' as int) as nat
}

/// The digit character for a single decimal digit.
pub open spec fn digit_char(d: nat) -> char
    recommends
        d < 10,
{
    (d + '0' as int) as char
}

/// Every character of `s` is an ASCII decimal digit.
pub open spec fn all_digits(s: Seq<char>) -> bool {
    forall|i: int| 0 <= i < s.len() ==> is_dec_digit(s[i])
}

/// The numeric value of a digit string, most significant digit first.
pub open spec fn digits_val(s: Seq<char>) -> nat
    decreases s.len(),
{
    if s.len() == 0 {
        0
    } else {
        digits_val(s.drop_last()) * 10 + digit_val(s.last())
    }
}

/// The decimal representation of `n`: no sign, no padding, most
/// significant digit first, always at least one digit.
pub open spec fn dec_rep(n: nat) -> Seq<char>
    decreases n,
{
    if n < 10 {
        seq![digit_char(n)]
    } else {
        dec_rep(n / 10).push(digit_char(n % 10))
    }
}

/// `dec_rep(n)` padded with leading zeros to at least `w` characters;
/// wider numbers keep their natural width.
pub open spec fn zero_pad(n: nat, w: nat) -> Seq<char> {
    if dec_rep(n).len() >= w {
        dec_rep(n)
    } else {
        Seq::new((w - dec_rep(n).len()) as nat, |i: int| '0') + dec_rep(n)
    }
}

/// The absolute value of `x` as a natural number.
pub open spec fn iabs(x: int) -> nat {
    if x < 0 {
        (-x) as nat
    } else {
        x as nat
    }
}

pub proof fn lemma_pow10_pos(e: nat)
    ensures
        pow10(e) >= 1,
    decreases e,
{
    if e > 0 {
        lemma_pow10_pos((e - 1) as nat);
    }
}

pub proof fn lemma_pow10_mono(a: nat, b: nat)
    requires
        a <= b,
    ensures
        pow10(a) <= pow10(b),
    decreases b,
{
    if a < b {
        lemma_pow10_mono(a, (b - 1) as nat);
        lemma_pow10_pos((b - 1) as nat);
    }
}

pub proof fn lemma_pow10_adds(a: nat, b: nat)
    ensures
        pow10(a + b) == pow10(a) * pow10(b),
    decreases a,
{
    if a == 0 {
        assert(pow10(0) == 1);
        assert(pow10(a + b) == pow10(b));
    } else {
        lemma_pow10_adds((a - 1) as nat, b);
        let x = pow10((a - 1) as nat);
        let y = pow10(b);
        assert(pow10(a + b) == 10 * pow10(((a + b) - 1) as nat));
        assert(((a + b) - 1) as nat == (a - 1) as nat + b);
        assert(pow10(a + b) == 10 * (x * y));
        assert(pow10(a) == 10 * x);
        assert(10 * (x * y) == (10 * x) * y) by (nonlinear_arith);
        assert(pow10(a) * pow10(b) == (10 * x) * y);
    }
}

pub proof fn lemma_digit_char_val(d: nat)
    requires
        d < 10,
    ensures
        is_dec_digit(digit_char(d)),
        digit_val(digit_char(d)) == d,
{
    assert('0' as int == 48);
    assert(digit_char(d) as int == d + 48);
}

/// Appending one digit multiplies the value by ten and adds the digit.
pub proof fn lemma_digits_val_push(s: Seq<char>, c: char)
    ensures
        digits_val(s.push(c)) == digits_val(s) * 10 + digit_val(c),
{
    assert(s.push(c).drop_last() =~= s);
    assert(s.push(c).last() == c);
}

/// The decimal representation is made of digits and reads back to the
/// number it was made from.
pub proof fn lemma_dec_rep_props(n: nat)
    ensures
        all_digits(dec_rep(n)),
        dec_rep(n).len() >= 1,
        digits_val(dec_rep(n)) == n,
    decreases n,
{
    if n < 10 {
        lemma_digit_char_val(n);
        let s = dec_rep(n);
        assert(s =~= seq![digit_char(n)]);
        assert(s.drop_last() =~= Seq::<char>::empty());
        assert(digits_val(Seq::<char>::empty()) == 0);
        assert(s.last() == digit_char(n));
        assert(digits_val(s) == digits_val(s.drop_last()) * 10 + digit_val(s.last()));
    } else {
        lemma_dec_rep_props(n / 10);
        lemma_digit_char_val(n % 10);
        lemma_digits_val_push(dec_rep(n / 10), digit_char(n % 10));
        assert(digits_val(dec_rep(n)) == (n / 10) * 10 + n % 10);
        assert((n / 10) * 10 + n % 10 == n) by (nonlinear_arith);
        assert forall|i: int| 0 <= i < dec_rep(n).len() implies is_dec_digit(dec_rep(n)[i]) by {
            if i < dec_rep(n / 10).len() {
                assert(dec_rep(n)[i] == dec_rep(n / 10)[i]);
            }
        }
    }
}

/// A digit string of length `k` has value below ten to the `k`.
pub proof fn lemma_digits_val_bound(s: Seq<char>)
    requires
        all_digits(s),
    ensures
        digits_val(s) < pow10(s.len()),
    decreases s.len(),
{
    if s.len() == 0 {
    } else {
        assert(all_digits(s.drop_last())) by {
            assert forall|i: int| 0 <= i < s.drop_last().len() implies is_dec_digit(
                s.drop_last()[i],
            ) by {
                assert(s.drop_last()[i] == s[i]);
            }
        }
        lemma_digits_val_bound(s.drop_last());
        assert(is_dec_digit(s.last()));
        assert(digit_val(s.last()) <= 9);
        assert(digits_val(s.drop_last()) * 10 <= (pow10(s.drop_last().len()) - 1) * 10)
            by (nonlinear_arith)
            requires
                digits_val(s.drop_last()) <= pow10(s.drop_last().len()) - 1,
        ;
        assert(pow10(s.len()) == 10 * pow10(s.drop_last().len()));
    }
}

/// A number below ten to the `w` needs at most `w` digits.
pub proof fn lemma_dec_rep_len_le(n: nat, w: nat)
    requires
        w >= 1,
        n < pow10(w),
    ensures
        dec_rep(n).len() <= w,
    decreases n,
{
    if n < 10 {
    } else {
        assert(w >= 2) by {
            if w == 1 {
                assert(pow10(0nat) == 1);
                assert(pow10(1nat) == 10 * pow10(0nat));
            }
        }
        assert(n / 10 < pow10((w - 1) as nat)) by {
            assert(pow10(w) == 10 * pow10((w - 1) as nat));
            assert(n / 10 < pow10((w - 1) as nat)) by (nonlinear_arith)
                requires
                    n < 10 * pow10((w - 1) as nat),
                    n >= 10,
            ;
        }
        lemma_dec_rep_len_le(n / 10, (w - 1) as nat);
    }
}

/// Leading zeros never change the value of a digit string.
pub proof fn lemma_leading_zeros_val(z: Seq<char>, s: Seq<char>)
    requires
        forall|i: int| 0 <= i < z.len() ==> z[i] == '0',
    ensures
        digits_val(z + s) == digits_val(s),
    decreases s.len(),
{
    if s.len() == 0 {
        assert(z + s =~= z);
        lemma_zeros_val(z);
    } else {
        assert((z + s).drop_last() =~= z + s.drop_last());
        assert((z + s).last() == s.last());
        lemma_leading_zeros_val(z, s.drop_last());
    }
}

/// A string of zeros has value zero.
pub proof fn lemma_zeros_val(z: Seq<char>)
    requires
        forall|i: int| 0 <= i < z.len() ==> z[i] == '0',
    ensures
        digits_val(z) == 0,
    decreases z.len(),
{
    if z.len() > 0 {
        assert(z.last() == z[z.len() - 1]);
        lemma_digit_char_val(0);
        assert(digit_val('0') == 0);
        assert forall|i: int| 0 <= i < z.drop_last().len() implies z.drop_last()[i] == '0' by {
            assert(z.drop_last()[i] == z[i]);
        }
        lemma_zeros_val(z.drop_last());
    }
}

/// The padded representation is made of digits, is as wide as asked (or
/// as wide as the number needs), and reads back to the number.
pub proof fn lemma_zero_pad_props(n: nat, w: nat)
    ensures
        all_digits(zero_pad(n, w)),
        zero_pad(n, w).len() == if dec_rep(n).len() >= w {
            dec_rep(n).len()
        } else {
            w
        },
        digits_val(zero_pad(n, w)) == n,
{
    lemma_dec_rep_props(n);
    if dec_rep(n).len() >= w {
    } else {
        let z = Seq::new((w - dec_rep(n).len()) as nat, |i: int| '0');
        lemma_leading_zeros_val(z, dec_rep(n));
        lemma_digit_char_val(0);
        assert forall|i: int| 0 <= i < (z + dec_rep(n)).len() implies is_dec_digit(
            (z + dec_rep(n))[i],
        ) by {
            if i < z.len() {
                assert((z + dec_rep(n))[i] == '0');
            } else {
                assert((z + dec_rep(n))[i] == dec_rep(n)[i - z.len()]);
            }
        }
    }
}

/// Padding to the width a padded form already has gives it back
/// unchanged.
pub proof fn lemma_zero_pad_stable(n: nat, w: nat)
    ensures
        zero_pad(n, zero_pad(n, w).len()) == zero_pad(n, w),
{
    lemma_zero_pad_props(n, w);
}

/// Splitting a digit string: the whole value is the prefix value
/// shifted past the suffix, plus the suffix value.
pub proof fn lemma_digits_val_split(s: Seq<char>, k: int)
    requires
        0 <= k <= s.len(),
    ensures
        digits_val(s) == digits_val(s.subrange(0, k)) * pow10((s.len() - k) as nat) + digits_val(
            s.subrange(k, s.len() as int),
        ),
    decreases s.len(),
{
    if k == s.len() {
        assert(s.subrange(0, k) =~= s);
        assert(s.subrange(k, s.len() as int) =~= Seq::<char>::empty());
        assert(digits_val(Seq::<char>::empty()) == 0);
        assert(pow10(0) == 1);
        assert(digits_val(s.subrange(0, k)) == digits_val(s));
        assert(digits_val(s.subrange(k, s.len() as int)) == 0);
        assert(pow10((s.len() - k) as nat) == 1);
        assert(digits_val(s) == digits_val(s.subrange(0, k)) * pow10((s.len() - k) as nat)
            + digits_val(s.subrange(k, s.len() as int)));
    } else {
        let t = s.drop_last();
        let c = s.last();
        lemma_digits_val_split(t, k);
        assert(t.subrange(0, k) =~= s.subrange(0, k));
        assert(s.subrange(k, s.len() as int).drop_last() =~= t.subrange(k, t.len() as int));
        assert(s.subrange(k, s.len() as int).last() == c);
        let pfx = digits_val(s.subrange(0, k));
        let sfx = digits_val(t.subrange(k, t.len() as int));
        let m = (t.len() - k) as nat;
        assert(digits_val(s) == digits_val(t) * 10 + digit_val(c));
        assert(digits_val(s.subrange(k, s.len() as int)) == sfx * 10 + digit_val(c));
        assert((pfx * pow10(m) + sfx) * 10 == pfx * (pow10(m) * 10) + sfx * 10) by (nonlinear_arith);
        assert(pow10(m + 1) == 10 * pow10(m));
        assert(pfx * (pow10(m) * 10) == pfx * pow10(m + 1));
        assert(digits_val(s) == (pfx * pow10(m) + sfx) * 10 + digit_val(c));
        assert(digits_val(s) == pfx * pow10(m + 1) + (sfx * 10 + digit_val(c)));
        assert((s.len() - k) as nat == m + 1);
        assert(digits_val(s) == digits_val(s.subrange(0, k)) * pow10((s.len() - k) as nat)
            + digits_val(s.subrange(k, s.len() as int)));
    }
}

/// The concrete powers of ten up to ten to the nineteenth, the largest
/// that fits in a `u64`.
pub proof fn lemma_pow10_values()
    ensures
        pow10(0) == 1,
        pow10(1) == 10,
        pow10(2) == 100,
        pow10(3) == 1000,
        pow10(4) == 10000,
        pow10(5) == 100000,
        pow10(6) == 1000000,
        pow10(7) == 10000000,
        pow10(8) == 100000000,
        pow10(9) == 1000000000,
        pow10(10) == 10000000000,
        pow10(11) == 100000000000,
        pow10(12) == 1000000000000,
        pow10(13) == 10000000000000,
        pow10(14) == 100000000000000,
        pow10(15) == 1000000000000000,
        pow10(16) == 10000000000000000,
        pow10(17) == 100000000000000000,
        pow10(18) == 1000000000000000000,
        pow10(19) == 10000000000000000000,
{
    assert(pow10(0) == 1);
    assert(pow10(1) == 10 * pow10(0));
    assert(pow10(2) == 10 * pow10(1));
    assert(pow10(3) == 10 * pow10(2));
    assert(pow10(4) == 10 * pow10(3));
    assert(pow10(5) == 10 * pow10(4));
    assert(pow10(6) == 10 * pow10(5));
    assert(pow10(7) == 10 * pow10(6));
    assert(pow10(8) == 10 * pow10(7));
    assert(pow10(9) == 10 * pow10(8));
    assert(pow10(10) == 10 * pow10(9));
    assert(pow10(11) == 10 * pow10(10));
    assert(pow10(12) == 10 * pow10(11));
    assert(pow10(13) == 10 * pow10(12));
    assert(pow10(14) == 10 * pow10(13));
    assert(pow10(15) == 10 * pow10(14));
    assert(pow10(16) == 10 * pow10(15));
    assert(pow10(17) == 10 * pow10(16));
    assert(pow10(18) == 10 * pow10(17));
    assert(pow10(19) == 10 * pow10(18));
}

/// Ten to the power `e`, for exponents that fit a `u32` result.
pub fn pow10_u32(e: u8) -> (r: u32)
    requires
        e <= 9,
    ensures
        r as nat == pow10(e as nat),
        r >= 1,
{
    proof {
        lemma_pow10_values();
    }
    match e {
        0 => 1,
        1 => 10,
        2 => 100,
        3 => 1000,
        4 => 10000,
        5 => 100000,
        6 => 1000000,
        7 => 10000000,
        8 => 100000000,
        _ => 1000000000,
    }
}

/// Ten to the power `e`, for exponents that fit a `u64` result.
pub fn pow10_u64(e: usize) -> (r: u64)
    requires
        e <= 19,
    ensures
        r as nat == pow10(e as nat),
        r >= 1,
{
    proof {
        lemma_pow10_values();
    }
    match e {
        0 => 1,
        1 => 10,
        2 => 100,
        3 => 1000,
        4 => 10000,
        5 => 100000,
        6 => 1000000,
        7 => 10000000,
        8 => 100000000,
        9 => 1000000000,
        10 => 10000000000,
        11 => 100000000000,
        12 => 1000000000000,
        13 => 10000000000000,
        14 => 100000000000000,
        15 => 1000000000000000,
        16 => 10000000000000000,
        17 => 100000000000000000,
        18 => 1000000000000000000,
        _ => 10000000000000000000,
    }
}

} // verus!
