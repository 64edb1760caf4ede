//! The textual encoder: renders an interval as
//! `<sign><days> <hh>:<mm>:<ss>[.<fraction>]`, padding the day field to
//! the leading field precision (when that is 2 to 9) and truncating the
//! nanosecond magnitude to the fractional second precision digits (when
//! that is 1 to 9).

use vstd::prelude::*;
use crate::digits::{dec_rep, iabs, pow10, pow10_u32, zero_pad, digit_char};
use crate::interval::IntervalDS;

verus! {

/// An interval renders as negative iff any component is strictly
/// negative.
pub open spec fn sign_is_neg(v: IntervalDS) -> bool {
    v.days < 0 || v.hours < 0 || v.minutes < 0 || v.seconds < 0 || v.nanoseconds < 0
}

/// The day field: the day magnitude zero-padded to the leading field
/// precision when that is 2 to 9, and at its natural width otherwise.
pub open spec fn day_field(v: IntervalDS) -> Seq<char> {
    if 2 <= v.lfprec && v.lfprec <= 9 {
        zero_pad(iabs(v.days as int), v.lfprec as nat)
    } else {
        dec_rep(iabs(v.days as int))
    }
}

/// The fractional part, dot included: for a fractional second precision
/// `p` of 1 to 9, the first `p` of the nine decimal digits of the
/// nanosecond magnitude (truncation, never rounding); empty for any
/// other precision.
pub open spec fn frac_field(v: IntervalDS) -> Seq<char> {
    if 1 <= v.fsprec && v.fsprec <= 9 {
        seq!['.'] + zero_pad(iabs(v.nanoseconds as int) / pow10((9 - v.fsprec) as nat), v.fsprec as nat)
    } else {
        Seq::<char>::empty()
    }
}

/// The canonical textual form of `v`:
/// `<sign><days> <hh>:<mm>:<ss>[.<fraction>]`, with hours, minutes and
/// seconds each zero-padded to two digits.
pub open spec fn encode_spec(v: IntervalDS) -> Seq<char> {
    seq![(if sign_is_neg(v) { '-' } else { '+' })] + day_field(v) + seq![' '] + zero_pad(
        iabs(v.hours as int),
        2,
    ) + seq![':'] + zero_pad(iabs(v.minutes as int), 2) + seq![':'] + zero_pad(
        iabs(v.seconds as int),
        2,
    ) + frac_field(v)
}

/// Relies on `String::push`: appends exactly the given character.
#[verifier::external_body]
fn push_char(out: &mut String, c: char)
    ensures
        final (out)@ == old(out)@.push(c),
{
    out.push(c);
}

/// The magnitude of `x`, total even at `i32::MIN`.
fn abs_u32(x: i32) -> (r: u32)
    ensures
        r as nat == iabs(x as int),
{
    if x >= 0 {
        x as u32
    } else {
        (-(x as i64)) as u32
    }
}

/// The digit character for `d`.
fn digit_char_u32(d: u32) -> (c: char)
    requires
        d < 10,
    ensures
        c == digit_char(d as nat),
{
    ((d + 48) as u8) as char
}

/// Appends the decimal representation of `n`, most significant digit
/// first, no padding.
fn push_dec(out: &mut String, n: u32)
    ensures
        final (out)@ == old(out)@ + dec_rep(n as nat),
    decreases n,
{
    if n < 10 {
        push_char(out, digit_char_u32(n));
        proof {
            assert(old(out)@.push(digit_char(n as nat)) =~= old(out)@ + dec_rep(n as nat));
        }
    } else {
        push_dec(out, n / 10);
        push_char(out, digit_char_u32(n % 10));
        proof {
            assert((old(out)@ + dec_rep((n / 10) as nat)).push(digit_char((n % 10) as nat)) =~= old(
                out,
            )@ + dec_rep(n as nat));
        }
    }
}

/// The width of the decimal representation of `n`.
fn dec_width(n: u32) -> (w: usize)
    ensures
        w as nat == dec_rep(n as nat).len(),
        1 <= w <= 10,
    decreases n,
{
    if n < 10 {
        1
    } else {
        let r = dec_width(n / 10);
        proof {
            crate::digits::lemma_pow10_values();
            crate::digits::lemma_dec_rep_len_le((n / 10) as nat, 9);
        }
        r + 1
    }
}

/// Appends `n` zero-padded to at least `w` digits.
fn push_padded(out: &mut String, n: u32, w: usize)
    ensures
        final (out)@ == old(out)@ + zero_pad(n as nat, w as nat),
{
    let ghost base = out@;
    let natural = dec_width(n);
    if natural < w {
        let mut i = natural;
        while i < w
            invariant
                natural <= i <= w,
                out@ == base + Seq::new((i - natural) as nat, |j: int| '0'),
            decreases w - i,
        {
            push_char(out, '0');
            proof {
                assert((base + Seq::new((i - natural) as nat, |j: int| '0')).push('0') =~= base
                    + Seq::new((i + 1 - natural) as nat, |j: int| '0'));
            }
            i = i + 1;
        }
    }
    push_dec(out, n);
    proof {
        if (natural as nat) < w as nat {
            assert(base + Seq::new((w - natural) as nat, |j: int| '0') + dec_rep(n as nat) =~= base
                + zero_pad(n as nat, w as nat));
        } else {
            assert(base + dec_rep(n as nat) =~= base + zero_pad(n as nat, w as nat));
        }
    }
}

impl IntervalDS {
    /// Renders `self` in its canonical textual form, driven by its own
    /// precisions: sign, day field, space, two-digit hours, minutes and
    /// seconds, and the fractional digits when the fractional second
    /// precision is 1 to 9.
    pub fn encode(&self) -> (r: String)
        ensures
            r@ == encode_spec(*self),
    {
        let v = *self;
        let mut out = String::new();
        if v.days < 0 || v.hours < 0 || v.minutes < 0 || v.seconds < 0 || v.nanoseconds < 0 {
            push_char(&mut out, '-');
        } else {
            push_char(&mut out, '+');
        }
        let d = abs_u32(v.days);
        if 2 <= v.lfprec && v.lfprec <= 9 {
            push_padded(&mut out, d, v.lfprec as usize);
        } else {
            push_dec(&mut out, d);
        }
        push_char(&mut out, ' ');
        push_padded(&mut out, abs_u32(v.hours), 2);
        push_char(&mut out, ':');
        push_padded(&mut out, abs_u32(v.minutes), 2);
        push_char(&mut out, ':');
        push_padded(&mut out, abs_u32(v.seconds), 2);
        if 1 <= v.fsprec && v.fsprec <= 9 {
            push_char(&mut out, '.');
            let ns = abs_u32(v.nanoseconds);
            let q = ns / pow10_u32(9 - v.fsprec);
            push_padded(&mut out, q, v.fsprec as usize);
        }
        proof {
            assert(out@ =~= encode_spec(v));
        }
        out
    }
}

} // verus!
