//! The laws of the codec: equality ignores precision, encoding flips only
//! the sign under component-wise negation, every canonical form decodes
//! back to the same components and re-encodes to the same text, and an
//! over-length fraction decodes to exactly its first nine digits with
//! the precision clamped at nine.

use vstd::prelude::*;
use crate::digits::{
    digits_val, iabs, is_dec_digit, lemma_dec_rep_len_le, lemma_dec_rep_props, lemma_pow10_adds,
    lemma_pow10_values, lemma_zero_pad_props, pow10, zero_pad,
};
use crate::decode::{assemble, parse_spec, sign_is_minus, sign_len};
use crate::encode::{day_field, encode_spec, frac_field, sign_is_neg};
use crate::interval::{same_value, spec_with_prec, IntervalDS};
use crate::scanner::{lemma_run_at, run_len, run_val};

verus! {

/// Every component lies in its documented domain.
pub open spec fn in_domain(v: IntervalDS) -> bool {
    &&& -999999999 <= v.days <= 999999999
    &&& -23 <= v.hours <= 23
    &&& -59 <= v.minutes <= 59
    &&& -59 <= v.seconds <= 59
    &&& -999999999 <= v.nanoseconds <= 999999999
}

/// No two components disagree in sign: all non-negative or all
/// non-positive.
pub open spec fn sign_consistent(v: IntervalDS) -> bool {
    (v.days >= 0 && v.hours >= 0 && v.minutes >= 0 && v.seconds >= 0 && v.nanoseconds >= 0) || (
    v.days <= 0 && v.hours <= 0 && v.minutes <= 0 && v.seconds <= 0 && v.nanoseconds <= 0)
}

/// The nanosecond component carries no digits that the value's own
/// fractional second precision would hide: zero when the fraction is
/// omitted, and a multiple of the hidden tail's weight otherwise.
pub open spec fn canonical_fraction(v: IntervalDS) -> bool {
    if 1 <= v.fsprec && v.fsprec <= 9 {
        iabs(v.nanoseconds as int) % pow10((9 - v.fsprec) as nat) == 0
    } else {
        v.nanoseconds == 0
    }
}

/// `v` with every component negated and the precisions kept.
pub open spec fn negate_interval(v: IntervalDS) -> IntervalDS {
    IntervalDS {
        days: (-(v.days as int)) as i32,
        hours: (-(v.hours as int)) as i32,
        minutes: (-(v.minutes as int)) as i32,
        seconds: (-(v.seconds as int)) as i32,
        nanoseconds: (-(v.nanoseconds as int)) as i32,
        lfprec: v.lfprec,
        fsprec: v.fsprec,
    }
}

/// The value that decoding the canonical form of `v` yields: the same
/// magnitudes under the rendered sign, the nanosecond magnitude truncated
/// to the rendered digits, the leading field precision as the rendered
/// day width, and the fractional second precision as rendered.
pub open spec fn reparsed(v: IntervalDS) -> IntervalDS {
    assemble(
        sign_is_neg(v),
        iabs(v.days as int),
        iabs(v.hours as int),
        iabs(v.minutes as int),
        iabs(v.seconds as int),
        if 1 <= v.fsprec && v.fsprec <= 9 {
            (iabs(v.nanoseconds as int) / pow10((9 - v.fsprec) as nat)) * pow10(
                (9 - v.fsprec) as nat,
            )
        } else {
            0
        },
        day_field(v).len(),
        if 1 <= v.fsprec && v.fsprec <= 9 {
            v.fsprec as nat
        } else {
            0
        },
    )
}

/// Law: equality never sees the precisions — rebinding them leaves the
/// value equal to the original.
pub proof fn lemma_eq_ignores_precision(v: IntervalDS, lfprec: u8, fsprec: u8)
    ensures
        same_value(spec_with_prec(v, lfprec, fsprec), v),
        same_value(v, spec_with_prec(v, lfprec, fsprec)),
{
}

/// Law: the canonical form of any in-domain interval parses, and it
/// parses to exactly the magnitudes, sign, and derived precisions that
/// `reparsed` describes.
pub proof fn lemma_encode_parses(v: IntervalDS)
    requires
        in_domain(v),
    ensures
        parse_spec(encode_spec(v)) == Some(reparsed(v)),
{
    lemma_pow10_values();
    let neg = sign_is_neg(v);
    let dmag = iabs(v.days as int);
    let hmag = iabs(v.hours as int);
    let mmag = iabs(v.minutes as int);
    let smag = iabs(v.seconds as int);
    let nsmag = iabs(v.nanoseconds as int);
    let sgn = seq![(if neg { '-' } else { '+' })];
    let dd = day_field(v);
    let hh = zero_pad(hmag, 2);
    let mm = zero_pad(mmag, 2);
    let ss = zero_pad(smag, 2);
    let ff = frac_field(v);
    let s = encode_spec(v);
    let dl = dd.len() as int;

    // field contents and widths
    lemma_dec_rep_props(dmag);
    lemma_dec_rep_len_le(dmag, 9);
    if 2 <= v.lfprec && v.lfprec <= 9 {
        lemma_zero_pad_props(dmag, v.lfprec as nat);
    }
    assert(crate::digits::all_digits(dd) && 1 <= dl <= 9 && digits_val(dd) == dmag);
    lemma_zero_pad_props(hmag, 2);
    lemma_dec_rep_len_le(hmag, 2);
    assert(hh.len() == 2 && digits_val(hh) == hmag);
    lemma_zero_pad_props(mmag, 2);
    lemma_dec_rep_len_le(mmag, 2);
    assert(mm.len() == 2 && digits_val(mm) == mmag);
    lemma_zero_pad_props(smag, 2);
    lemma_dec_rep_len_le(smag, 2);
    assert(ss.len() == 2 && digits_val(ss) == smag);

    let p = v.fsprec as int;
    let q = nsmag / pow10((9 - p) as nat);
    if 1 <= p && p <= 9 {
        lemma_pow10_adds((9 - p) as nat, p as nat);
        assert(q < pow10(p as nat)) by (nonlinear_arith)
            requires
                nsmag < pow10(9),
                pow10((9 - p) as nat) * pow10(p as nat) == pow10(9),
                pow10((9 - p) as nat) >= 1,
                q == nsmag / pow10((9 - p) as nat),
        ;
        lemma_zero_pad_props(q, p as nat);
        lemma_dec_rep_len_le(q, p as nat);
        assert(zero_pad(q, p as nat).len() == p);
        assert(ff == seq!['.'] + zero_pad(q, p as nat));
        assert(ff.len() == 1 + p);
    } else {
        assert(ff.len() == 0);
    }

    assert(s.len() == 10 + dl + ff.len());

    // character layout
    assert(s[0] == sgn[0]);
    assert(sign_len(s) == 1);
    assert(sign_is_minus(s) == neg);
    assert(s.subrange(1, 1 + dl) =~= dd);
    assert(s[1 + dl] == ' ');
    assert(s.subrange(2 + dl, 4 + dl) =~= hh);
    assert(s[4 + dl] == ':');
    assert(s.subrange(5 + dl, 7 + dl) =~= mm);
    assert(s[7 + dl] == ':');
    assert(s.subrange(8 + dl, 10 + dl) =~= ss);
    assert(!is_dec_digit(' ') && !is_dec_digit(':') && !is_dec_digit('.'));

    // digit runs
    lemma_run_at(s, 1, dl);
    assert(run_val(s, 1) == dmag);
    lemma_run_at(s, 2 + dl, 2);
    assert(run_val(s, 2 + dl) == hmag) by {
        assert(s.subrange(2 + dl, 2 + dl + run_len(s, 2 + dl)) =~= hh);
    }
    lemma_run_at(s, 5 + dl, 2);
    assert(run_val(s, 5 + dl) == mmag) by {
        assert(s.subrange(5 + dl, 5 + dl + run_len(s, 5 + dl)) =~= mm);
    }
    lemma_run_at(s, 8 + dl, 2);
    assert(run_val(s, 8 + dl) == smag) by {
        assert(s.subrange(8 + dl, 8 + dl + run_len(s, 8 + dl)) =~= ss);
    }

    if 1 <= p && p <= 9 {
        assert(s[10 + dl] == '.');
        assert(s.subrange(11 + dl, 11 + dl + p) =~= zero_pad(q, p as nat));
        lemma_run_at(s, 11 + dl, p);
        assert(run_val(s, 11 + dl) == q) by {
            assert(s.subrange(11 + dl, 11 + dl + run_len(s, 11 + dl)) =~= zero_pad(q, p as nat));
        }
        assert(parse_spec(s) == Some(
            assemble(neg, dmag, hmag, mmag, smag, q * pow10((9 - p) as nat), dl as nat, p as nat),
        ));
    } else {
        assert(10 + dl == s.len());
        assert(parse_spec(s) == Some(assemble(neg, dmag, hmag, mmag, smag, 0, dl as nat, 0)));
    }
}

/// Law: round trip on canonical forms — for a sign-consistent
/// in-domain interval whose nanosecond component is exactly
/// representable at its own fractional second precision, decoding the
/// canonical form succeeds, gives back the five components unchanged,
/// derives the fractional second precision as rendered and the leading
/// field precision as the rendered day width, and re-encoding the
/// decoded value reproduces the original text, character for character.
#[verifier::rlimit(60)]
pub proof fn lemma_round_trip(v: IntervalDS)
    requires
        in_domain(v),
        sign_consistent(v),
        canonical_fraction(v),
    ensures
        parse_spec(encode_spec(v)) is Some,
        same_value(parse_spec(encode_spec(v)).unwrap(), v),
        parse_spec(encode_spec(v)).unwrap().fsprec == if 1 <= v.fsprec && v.fsprec <= 9 {
            v.fsprec
        } else {
            0u8
        },
        parse_spec(encode_spec(v)).unwrap().lfprec == day_field(v).len(),
        encode_spec(parse_spec(encode_spec(v)).unwrap()) == encode_spec(v),
{
    lemma_pow10_values();
    lemma_encode_parses(v);
    let w = reparsed(v);
    let neg = sign_is_neg(v);
    let dmag = iabs(v.days as int);
    let nsmag = iabs(v.nanoseconds as int);
    let p = v.fsprec as int;

    // under a canonical fraction, the truncated nanosecond magnitude is
    // the whole magnitude
    if 1 <= p && p <= 9 {
        let scale = pow10((9 - p) as nat);
        vstd::arithmetic::div_mod::lemma_fundamental_div_mod(nsmag as int, scale as int);
        assert((nsmag / scale) * scale == nsmag);
    }
    assert(iabs(w.nanoseconds as int) == nsmag);

    // each decoded component is the original: the magnitudes agree and
    // sign consistency fixes the direction
    assert(same_value(w, v));
    assert(sign_is_neg(w) == neg);

    // the day field re-renders at the width it was rendered at
    let dl = day_field(v).len() as int;
    lemma_dec_rep_props(dmag);
    lemma_dec_rep_len_le(dmag, 9);
    if 2 <= v.lfprec && v.lfprec <= 9 {
        lemma_zero_pad_props(dmag, v.lfprec as nat);
    }
    assert(1 <= dl <= 9);
    assert(w.lfprec == dl);
    assert(day_field(w) == day_field(v)) by {
        if 2 <= v.lfprec && v.lfprec <= 9 {
            crate::digits::lemma_zero_pad_stable(dmag, v.lfprec as nat);
        }
    }

    // the fraction re-renders identically
    if 1 <= p && p <= 9 {
        assert(w.fsprec == p);
        assert(frac_field(w) == frac_field(v));
    } else {
        assert(w.fsprec == 0);
        assert(frac_field(w) == frac_field(v));
    }

    assert(encode_spec(w) == encode_spec(v));
}

/// The position of the first fraction digit in a literal: one past the
/// dot that follows the day, hour, minute and second runs.
pub open spec fn frac_start(s: Seq<char>) -> int {
    let i0 = sign_len(s);
    let i1 = i0 + run_len(s, i0);
    let i2 = i1 + 1 + run_len(s, i1 + 1);
    let i3 = i2 + 1 + run_len(s, i2 + 1);
    let i4 = i3 + 1 + run_len(s, i3 + 1);
    i4 + 1
}

/// Law: over-length fraction clamp — when a literal that decodes
/// carries a fraction of more than nine digits, the decoded value keeps
/// exactly the value of the first nine fraction digits (truncation
/// toward zero, never rounding) and the fractional second precision
/// clamps to 9.
pub proof fn lemma_long_fraction_clamp(s: Seq<char>)
    requires
        parse_spec(s) is Some,
        frac_start(s) - 1 < s.len() && s[frac_start(s) - 1] == '.',
        run_len(s, frac_start(s)) > 9,
    ensures
        parse_spec(s).unwrap().fsprec == 9,
        iabs(parse_spec(s).unwrap().nanoseconds as int) == digits_val(
            s.subrange(frac_start(s), frac_start(s) + 9),
        ),
{
    lemma_pow10_values();
    let f0 = frac_start(s);
    let rl = run_len(s, f0) as int;
    crate::scanner::lemma_run_digits(s, f0);
    let run = s.subrange(f0, f0 + rl);
    assert(crate::digits::all_digits(run)) by {
        assert forall|j: int| 0 <= j < run.len() implies is_dec_digit(run[j]) by {
            assert(run[j] == s[f0 + j]);
        }
    }
    crate::digits::lemma_digits_val_split(run, 9);
    let head = run.subrange(0, 9);
    let tail = run.subrange(9, rl);
    assert(head =~= s.subrange(f0, f0 + 9));
    assert(crate::digits::all_digits(head)) by {
        assert forall|j: int| 0 <= j < head.len() implies is_dec_digit(head[j]) by {
            assert(head[j] == s[f0 + j]);
        }
    }
    assert(crate::digits::all_digits(tail)) by {
        assert forall|j: int| 0 <= j < tail.len() implies is_dec_digit(tail[j]) by {
            assert(tail[j] == s[f0 + 9 + j]);
        }
    }
    crate::digits::lemma_digits_val_bound(head);
    crate::digits::lemma_digits_val_bound(tail);
    crate::digits::lemma_pow10_pos((rl - 9) as nat);
    vstd::arithmetic::div_mod::lemma_fundamental_div_mod_converse(
        digits_val(run) as int,
        pow10((rl - 9) as nat) as int,
        digits_val(head) as int,
        digits_val(tail) as int,
    );
    assert(run_val(s, f0) / pow10((rl - 9) as nat) == digits_val(head));
}

/// Law: sign symmetry — negating every component of a non-negative,
/// somewhere-positive in-domain interval changes exactly the sign
/// character of its canonical form.
pub proof fn lemma_sign_symmetry(v: IntervalDS)
    requires
        in_domain(v),
        v.days >= 0 && v.hours >= 0 && v.minutes >= 0 && v.seconds >= 0 && v.nanoseconds >= 0,
        v.days > 0 || v.hours > 0 || v.minutes > 0 || v.seconds > 0 || v.nanoseconds > 0,
    ensures
        encode_spec(v)[0] == '+',
        encode_spec(negate_interval(v)) == encode_spec(v).update(0, '-'),
{
    let n = negate_interval(v);
    assert(!sign_is_neg(v));
    assert(sign_is_neg(n));
    assert(iabs(n.days as int) == iabs(v.days as int));
    assert(iabs(n.hours as int) == iabs(v.hours as int));
    assert(iabs(n.minutes as int) == iabs(v.minutes as int));
    assert(iabs(n.seconds as int) == iabs(v.seconds as int));
    assert(iabs(n.nanoseconds as int) == iabs(v.nanoseconds as int));
    assert(day_field(n) == day_field(v));
    assert(frac_field(n) == frac_field(v));
    assert(encode_spec(n) =~= encode_spec(v).update(0, '-'));
}

} // verus!
