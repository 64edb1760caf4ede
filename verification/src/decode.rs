//! The textual decoder: parses `[sign] days SP hh ':' mm ':' ss
//! [ '.' fraction ]` in one left-to-right pass, derives the two
//! precisions from the digit counts of the input, and rejects anything
//! the grammar does not cover — with one uniform malformed-literal
//! error and no partial value.

use vstd::prelude::*;
use crate::digits::{
    digit_val, digits_val, is_dec_digit, lemma_digits_val_bound, lemma_digits_val_split,
    lemma_pow10_adds, lemma_pow10_pos, lemma_pow10_values, pow10, pow10_u64,
};
use crate::interval::IntervalDS;
use crate::scanner::{
    lemma_run_at, lemma_run_digits, lemma_run_prefix_extend, run_len, run_val, Scanner,
};

verus! {

/// The single decoder error: the input is not a well-formed interval
/// literal. It carries the name of the target type for diagnostics.
#[derive(Debug, Clone, Copy, PartialEq, Eq)]
pub struct ParseIntervalError {
    pub typename: &'static str,
}

impl ParseIntervalError {
    /// An error aimed at the named target type.
    pub fn new(typename: &'static str) -> (r: ParseIntervalError)
        ensures
            r.typename == typename,
    {
        ParseIntervalError { typename }
    }

    /// The name of the type the failed parse was aiming at.
    pub fn typename(&self) -> (r: &'static str)
        ensures
            r == self.typename,
    {
        self.typename
    }
}

/// The length of the optional leading sign of `s`: one for `+` or `-`,
/// zero otherwise.
pub open spec fn sign_len(s: Seq<char>) -> int {
    if s.len() > 0 && (s[0] == '+' || s[0] == '-') {
        1
    } else {
        0
    }
}

/// `s` starts with an explicit minus sign.
pub open spec fn sign_is_minus(s: Seq<char>) -> bool {
    s.len() > 0 && s[0] == '-'
}

/// The interval built from parsed magnitudes: every component negated
/// when the literal carried a minus sign, the leading field precision
/// taken from the day digit count (reduced into a byte), and the
/// fractional second precision as derived by the grammar.
pub open spec fn assemble(
    minus: bool,
    d: nat,
    h: nat,
    m: nat,
    sec: nat,
    ns: nat,
    lf: nat,
    fp: nat,
) -> IntervalDS {
    IntervalDS {
        days: if minus {
            (-(d as int)) as i32
        } else {
            d as i32
        },
        hours: if minus {
            (-(h as int)) as i32
        } else {
            h as i32
        },
        minutes: if minus {
            (-(m as int)) as i32
        } else {
            m as i32
        },
        seconds: if minus {
            (-(sec as int)) as i32
        } else {
            sec as i32
        },
        nanoseconds: if minus {
            (-(ns as int)) as i32
        } else {
            ns as i32
        },
        lfprec: (lf % 256) as u8,
        fsprec: fp as u8,
    }
}

/// What decoding `s` yields: `None` exactly when `s` breaks the grammar
/// (a missing digit run, a missing delimiter, an empty fraction,
/// trailing input) or holds a day, hour, minute or second run whose
/// value exceeds `i32::MAX` and so cannot be represented. Otherwise the
/// components are the parsed magnitudes, all negated under a minus
/// sign; a fraction of `d` digits is scaled to nanoseconds — up for
/// `d < 9`, down by truncating division for `d > 9`, so that digits
/// beyond the ninth are discarded — and gives a fractional second
/// precision of `min(d, 9)`.
pub open spec fn parse_spec(s: Seq<char>) -> Option<IntervalDS> {
    let i0 = sign_len(s);
    let dl = run_len(s, i0) as int;
    let dv = run_val(s, i0);
    let i1 = i0 + dl;
    if dl == 0 || dv > 0x7fffffff {
        None
    } else if !(i1 < s.len() && s[i1] == ' ') {
        None
    } else {
        let hl = run_len(s, i1 + 1) as int;
        let hv = run_val(s, i1 + 1);
        let i2 = i1 + 1 + hl;
        if hl == 0 || hv > 0x7fffffff {
            None
        } else if !(i2 < s.len() && s[i2] == ':') {
            None
        } else {
            let ml = run_len(s, i2 + 1) as int;
            let mv = run_val(s, i2 + 1);
            let i3 = i2 + 1 + ml;
            if ml == 0 || mv > 0x7fffffff {
                None
            } else if !(i3 < s.len() && s[i3] == ':') {
                None
            } else {
                let sl = run_len(s, i3 + 1) as int;
                let sv = run_val(s, i3 + 1);
                let i4 = i3 + 1 + sl;
                if sl == 0 || sv > 0x7fffffff {
                    None
                } else if i4 < s.len() && s[i4] == '.' {
                    let fl = run_len(s, i4 + 1) as int;
                    let fv = run_val(s, i4 + 1);
                    let i5 = i4 + 1 + fl;
                    if fl == 0 || i5 != s.len() {
                        None
                    } else {
                        let ns = if fl <= 9 {
                            fv * pow10((9 - fl) as nat)
                        } else {
                            fv / pow10((fl - 9) as nat)
                        };
                        let fp = if fl > 9 {
                            9
                        } else {
                            fl
                        };
                        Some(assemble(sign_is_minus(s), dv, hv, mv, sv, ns, dl as nat, fp as nat))
                    }
                } else if i4 != s.len() {
                    None
                } else {
                    Some(assemble(sign_is_minus(s), dv, hv, mv, sv, 0, dl as nat, 0))
                }
            }
        }
    }
}

/// Consumes the maximal digit run at the cursor and returns its length
/// together with the numeric value of its first nine digits (of all of
/// them when the run is shorter) — all the nanosecond field can keep.
fn read_fraction(sc: &mut Scanner) -> (r: (usize, u64))
    requires
        old(sc).wf(),
        0 <= old(sc).at() <= old(sc).input().len(),
    ensures
        final (sc).wf(),
        final (sc).input() == old(sc).input(),
        final (sc).at() == old(sc).at() + run_len(old(sc).input(), old(sc).at()),
        0 <= old(sc).at() <= final (sc).at() <= final (sc).input().len(),
        r.0 == run_len(old(sc).input(), old(sc).at()),
        r.1 == ({
            let rl = run_len(old(sc).input(), old(sc).at()) as int;
            digits_val(
                old(sc).input().subrange(
                    old(sc).at(),
                    old(sc).at() + if rl < 9 {
                        rl
                    } else {
                        9
                    },
                ),
            )
        }),
{
    let ghost s = sc.input();
    let ghost start = sc.at();
    let mut val: u64 = 0;
    let mut n: usize = 0;
    proof {
        assert(s.subrange(start, start) =~= Seq::<char>::empty());
    }
    loop
        invariant
            sc.wf(),
            sc.input() == s,
            0 <= start,
            start + n == sc.at(),
            start <= sc.at() <= s.len(),
            forall|j: int| start <= j < sc.at() ==> is_dec_digit(s[j]),
            val == digits_val(
                s.subrange(
                    start,
                    start + if n < 9 {
                        n as int
                    } else {
                        9
                    },
                ),
            ),
        ensures
            sc.wf(),
            sc.input() == s,
            0 <= start,
            start + n == sc.at(),
            start <= sc.at() <= s.len(),
            forall|j: int| start <= j < sc.at() ==> is_dec_digit(s[j]),
            sc.at() == s.len() || !is_dec_digit(s[sc.at()]),
            val == digits_val(
                s.subrange(
                    start,
                    start + if n < 9 {
                        n as int
                    } else {
                        9
                    },
                ),
            ),
        decreases s.len() - sc.at(),
    {
        let c = match sc.peek() {
            Some(c) => c,
            None => { break },
        };
        if !('0' <= c && c <= '9') {
            break ;
        }
        if n < 9 {
            let d = (c as u32 - 48) as u64;
            proof {
                assert(is_dec_digit(s[sc.at()]));
                let pfx = s.subrange(start, sc.at());
                assert(crate::digits::all_digits(pfx)) by {
                    assert forall|j: int| 0 <= j < pfx.len() implies is_dec_digit(pfx[j]) by {
                        assert(pfx[j] == s[start + j]);
                    }
                }
                lemma_digits_val_bound(pfx);
                lemma_pow10_values();
                crate::digits::lemma_pow10_mono(pfx.len(), 8);
                lemma_run_prefix_extend(s, start, sc.at());
                assert(digit_val(c) == d);
            }
            val = val * 10 + d;
        }
        sc.advance();
        n = n + 1;
    }
    proof {
        lemma_run_at(s, start, sc.at() - start);
    }
    (n, val)
}

impl IntervalDS {
    /// Parses the canonical textual form of an interval. Returns the
    /// value that `parse_spec` assigns to the input, and the uniform
    /// malformed-literal error exactly when it assigns none.
    pub fn decode(text: &str) -> (r: Result<IntervalDS, ParseIntervalError>)
        ensures
            match r {
                Ok(v) => parse_spec(text@) == Some(v),
                Err(e) => parse_spec(text@) is None && e.typename@ == "IntervalDS"@,
            },
    {
        let ghost s = text@;
        let mut sc = Scanner::new(text);
        let minus = match sc.peek() {
            Some(c) => {
                if c == '+' {
                    sc.advance();
                    false
                } else if c == '-' {
                    sc.advance();
                    true
                } else {
                    false
                }
            },
            None => false,
        };
        proof {
            assert(sc.at() == sign_len(s));
            assert(minus == sign_is_minus(s));
        }
        let ghost i0 = sign_len(s);
        let dv = match sc.read_digits() {
            Some(n) => n,
            None => {
                return Err(ParseIntervalError::new("IntervalDS"));
            },
        };
        let lf = sc.ndigits();
        proof {
            assert(lf == run_len(s, i0));
            assert(sc.at() == i0 + run_len(s, i0));
        }
        if dv > 0x7fffffff {
            return Err(ParseIntervalError::new("IntervalDS"));
        }
        let ghost i1 = i0 + run_len(s, i0);
        match sc.peek() {
            Some(' ') => {
                sc.advance();
            },
            _ => {
                return Err(ParseIntervalError::new("IntervalDS"));
            },
        }
        proof {
            assert(i1 < s.len() && s[i1] == ' ');
            assert(sc.at() == i1 + 1);
        }
        let hv = match sc.read_digits() {
            Some(n) => n,
            None => {
                return Err(ParseIntervalError::new("IntervalDS"));
            },
        };
        if hv > 0x7fffffff {
            return Err(ParseIntervalError::new("IntervalDS"));
        }
        let ghost i2 = i1 + 1 + run_len(s, i1 + 1);
        proof {
            assert(sc.at() == i2);
        }
        match sc.peek() {
            Some(':') => {
                sc.advance();
            },
            _ => {
                return Err(ParseIntervalError::new("IntervalDS"));
            },
        }
        proof {
            assert(i2 < s.len() && s[i2] == ':');
            assert(sc.at() == i2 + 1);
        }
        let mv = match sc.read_digits() {
            Some(n) => n,
            None => {
                return Err(ParseIntervalError::new("IntervalDS"));
            },
        };
        if mv > 0x7fffffff {
            return Err(ParseIntervalError::new("IntervalDS"));
        }
        let ghost i3 = i2 + 1 + run_len(s, i2 + 1);
        proof {
            assert(sc.at() == i3);
        }
        match sc.peek() {
            Some(':') => {
                sc.advance();
            },
            _ => {
                return Err(ParseIntervalError::new("IntervalDS"));
            },
        }
        proof {
            assert(i3 < s.len() && s[i3] == ':');
            assert(sc.at() == i3 + 1);
        }
        let sv = match sc.read_digits() {
            Some(n) => n,
            None => {
                return Err(ParseIntervalError::new("IntervalDS"));
            },
        };
        if sv > 0x7fffffff {
            return Err(ParseIntervalError::new("IntervalDS"));
        }
        let ghost i4 = i3 + 1 + run_len(s, i3 + 1);
        proof {
            assert(sc.at() == i4);
        }
        let mut nsv: u64 = 0;
        let mut fp: usize = 0;
        match sc.peek() {
            Some('.') => {
                sc.advance();
                let (fl, fv9) = read_fraction(&mut sc);
                if fl == 0 {
                    return Err(ParseIntervalError::new("IntervalDS"));
                }
                proof {
                    lemma_run_digits(s, i4 + 1);
                    let rl = run_len(s, i4 + 1) as int;
                    let run = s.subrange(i4 + 1, i4 + 1 + rl);
                    assert(crate::digits::all_digits(run)) by {
                        assert forall|j: int| 0 <= j < run.len() implies is_dec_digit(run[j]) by {
                            assert(run[j] == s[i4 + 1 + j]);
                        }
                    }
                    lemma_digits_val_bound(run);
                    lemma_pow10_values();
                }
                if fl <= 9 {
                    proof {
                        // the first-nine prefix is the whole run here
                        assert(fv9 == run_val(s, i4 + 1));
                        lemma_pow10_adds(fl as nat, (9 - fl) as nat);
                        assert(fv9 * pow10((9 - fl) as nat) < pow10(9)) by (nonlinear_arith)
                            requires
                                (fv9 as nat) < pow10(fl as nat),
                                pow10(fl as nat) * pow10((9 - fl) as nat) == pow10(9),
                                pow10((9 - fl) as nat) >= 1,
                        ;
                        lemma_pow10_values();
                    }
                    let scale = pow10_u64(9 - fl);
                    nsv = fv9 * scale;
                    fp = fl;
                } else {
                    proof {
                        let rl = run_len(s, i4 + 1) as int;
                        let run = s.subrange(i4 + 1, i4 + 1 + rl);
                        lemma_digits_val_split(run, 9);
                        assert(run.subrange(0, 9) =~= s.subrange(i4 + 1, i4 + 10));
                        assert(fv9 == digits_val(run.subrange(0, 9)));
                        let tail = run.subrange(9, rl);
                        assert(crate::digits::all_digits(tail)) by {
                            assert forall|j: int| 0 <= j < tail.len() implies is_dec_digit(
                                tail[j],
                            ) by {
                                assert(tail[j] == s[i4 + 10 + j]);
                            }
                        }
                        lemma_digits_val_bound(tail);
                        lemma_pow10_pos((rl - 9) as nat);
                        vstd::arithmetic::div_mod::lemma_fundamental_div_mod_converse(
                            digits_val(run) as int,
                            pow10((rl - 9) as nat) as int,
                            fv9 as int,
                            digits_val(tail) as int,
                        );
                        assert(fv9 as nat == run_val(s, i4 + 1) / pow10((rl - 9) as nat));
                        let head = run.subrange(0, 9);
                        assert(crate::digits::all_digits(head)) by {
                            assert forall|j: int| 0 <= j < head.len() implies is_dec_digit(
                                head[j],
                            ) by {
                                assert(head[j] == s[i4 + 1 + j]);
                            }
                        }
                        lemma_digits_val_bound(head);
                        lemma_pow10_values();
                    }
                    nsv = fv9;
                    fp = 9;
                }
            },
            Some(_) => {
                return Err(ParseIntervalError::new("IntervalDS"));
            },
            None => {},
        }
        match sc.peek() {
            Some(_) => {
                return Err(ParseIntervalError::new("IntervalDS"));
            },
            None => {},
        }
        let days: i32 = if minus {
            -(dv as i32)
        } else {
            dv as i32
        };
        let hours: i32 = if minus {
            -(hv as i32)
        } else {
            hv as i32
        };
        let minutes: i32 = if minus {
            -(mv as i32)
        } else {
            mv as i32
        };
        let seconds: i32 = if minus {
            -(sv as i32)
        } else {
            sv as i32
        };
        let nanoseconds: i32 = if minus {
            -(nsv as i32)
        } else {
            nsv as i32
        };
        let r = IntervalDS {
            days,
            hours,
            minutes,
            seconds,
            nanoseconds,
            lfprec: (lf % 256) as u8,
            fsprec: fp as u8,
        };
        proof {
            assert(run_len(s, i0) != 0 && run_val(s, i0) <= 0x7fffffff);
            assert(run_len(s, i1 + 1) != 0 && run_val(s, i1 + 1) <= 0x7fffffff);
            assert(run_len(s, i2 + 1) != 0 && run_val(s, i2 + 1) <= 0x7fffffff);
            assert(run_len(s, i3 + 1) != 0 && run_val(s, i3 + 1) <= 0x7fffffff);
            assert(dv as nat == run_val(s, i0));
            assert(hv as nat == run_val(s, i1 + 1));
            assert(mv as nat == run_val(s, i2 + 1));
            assert(sv as nat == run_val(s, i3 + 1));
            assert(r.lfprec == (run_len(s, i0) % 256) as u8);
            let fl = run_len(s, i4 + 1) as int;
            if i4 < s.len() && s[i4] == '.' {
                assert(fl >= 1);
                assert(i4 + 1 + fl == s.len());
                if fl <= 9 {
                    assert(nsv as nat == run_val(s, i4 + 1) * pow10((9 - fl) as nat));
                    assert(fp == fl);
                } else {
                    assert(nsv as nat == run_val(s, i4 + 1) / pow10((fl - 9) as nat));
                    assert(fp == 9);
                }
                assert(parse_spec(s) == Some(r));
            } else {
                assert(i4 == s.len());
                assert(nsv == 0 && fp == 0);
                assert(parse_spec(s) == Some(r));
            }
        }
        Ok(r)
    }
}

} // verus!
