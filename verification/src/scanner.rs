//! A cursor over a textual input: peek at the current character, advance
//! by one, and read a maximal run of ASCII digits while counting how many
//! digits were consumed.

use vstd::prelude::*;
use crate::digits::{digit_val, digits_val, is_dec_digit};

verus! {

/// The length of the maximal run of ASCII digits in `s` starting at `i`.
pub open spec fn run_len(s: Seq<char>, i: int) -> nat
    recommends
        0 <= i <= s.len(),
    decreases s.len() - i,
        when 0 <= i <= s.len()
{
    if i < s.len() && is_dec_digit(s[i]) {
        1 + run_len(s, i + 1)
    } else {
        0
    }
}

/// The numeric value of the maximal digit run in `s` starting at `i`.
pub open spec fn run_val(s: Seq<char>, i: int) -> nat
    recommends
        0 <= i <= s.len(),
{
    digits_val(s.subrange(i, i + run_len(s, i)))
}

/// A stretch of `k` digits followed by a non-digit (or the end of the
/// input) is exactly the maximal run at its start.
pub proof fn lemma_run_at(s: Seq<char>, i: int, k: int)
    requires
        0 <= i,
        i + k <= s.len(),
        0 <= k,
        forall|j: int| i <= j < i + k ==> is_dec_digit(s[j]),
        i + k == s.len() || !is_dec_digit(s[i + k]),
    ensures
        run_len(s, i) == k,
    decreases k,
{
    if k == 0 {
    } else {
        assert(is_dec_digit(s[i]));
        lemma_run_at(s, i + 1, k - 1);
    }
}

/// The maximal run at `i` stays inside `s`, is made of digits, and stops
/// at the end of `s` or at a non-digit.
pub proof fn lemma_run_digits(s: Seq<char>, i: int)
    requires
        0 <= i <= s.len(),
    ensures
        i + run_len(s, i) <= s.len(),
        forall|j: int| i <= j < i + run_len(s, i) ==> is_dec_digit(s[j]),
        i + run_len(s, i) == s.len() || !is_dec_digit(s[i + run_len(s, i)]),
    decreases s.len() - i,
{
    if i < s.len() && is_dec_digit(s[i]) {
        lemma_run_digits(s, i + 1);
    }
}

/// Reading one more digit extends the value read so far by that digit.
pub proof fn lemma_run_prefix_extend(s: Seq<char>, start: int, i: int)
    requires
        0 <= start <= i < s.len(),
        is_dec_digit(s[i]),
    ensures
        digits_val(s.subrange(start, i + 1)) == digits_val(s.subrange(start, i)) * 10 + digit_val(
            s[i],
        ),
{
    let p = s.subrange(start, i);
    let q = s.subrange(start, i + 1);
    assert(q.drop_last() =~= p);
    assert(q.last() == s[i]);
}

/// A cursor over a string: the current position, and the digit count of
/// the most recent `read_digits` call.
pub struct Scanner<'a> {
    text: &'a str,
    len: usize,
    pos: usize,
    ndigits: usize,
}

impl<'a> Scanner<'a> {
    /// The characters being scanned.
    pub closed spec fn input(self) -> Seq<char> {
        self.text@
    }

    /// The current cursor position, in characters.
    pub closed spec fn at(self) -> int {
        self.pos as int
    }

    /// The digit count recorded by the most recent `read_digits` call.
    pub closed spec fn digit_count(self) -> int {
        self.ndigits as int
    }

    /// The cursor is inside its input.
    pub closed spec fn wf(self) -> bool {
        self.len == self.text@.len() && self.pos <= self.len
    }

    /// A fresh cursor at the start of `text`, with no digits read yet.
    pub fn new(text: &'a str) -> (r: Scanner<'a>)
        ensures
            r.wf(),
            r.input() == text@,
            r.at() == 0,
            r.digit_count() == 0,
            r.input().len() <= usize::MAX,
    {
        let len = text.unicode_len();
        Scanner { text, len, pos: 0, ndigits: 0 }
    }

    /// The character under the cursor, without advancing; `None` at the
    /// end of the input.
    pub fn peek(&self) -> (r: Option<char>)
        requires
            self.wf(),
        ensures
            r == if self.at() < self.input().len() {
                Some(self.input()[self.at()])
            } else {
                None::<char>
            },
            self.input().len() <= usize::MAX,
    {
        if self.pos < self.len {
            Some(self.text.get_char(self.pos))
        } else {
            None
        }
    }

    /// Moves the cursor forward by one character.
    pub fn advance(&mut self)
        requires
            old(self).wf(),
            old(self).at() < old(self).input().len(),
        ensures
            final(self).wf(),
            final(self).input() == old(self).input(),
            final(self).at() == old(self).at() + 1,
            final(self).digit_count() == old(self).digit_count(),
            final(self).at() <= final(self).input().len(),
    {
        self.pos = self.pos + 1;
    }

    /// Consumes the maximal run of ASCII digits at the cursor and records
    /// its length, retrievable through `ndigits`. Returns `None` when the
    /// run is empty, and otherwise the run's numeric value, saturated at
    /// `u64::MAX` when the run is too long to represent.
    pub fn read_digits(&mut self) -> (r: Option<u64>)
        requires
            old(self).wf(),
        ensures
            final(self).wf(),
            final(self).input() == old(self).input(),
            final(self).at() == old(self).at() + run_len(old(self).input(), old(self).at()),
            final(self).digit_count() == run_len(old(self).input(), old(self).at()),
            0 <= old(self).at() <= final(self).at() <= final(self).input().len(),
            r == if run_len(old(self).input(), old(self).at()) == 0 {
                None::<u64>
            } else if run_val(old(self).input(), old(self).at()) <= u64::MAX {
                Some(run_val(old(self).input(), old(self).at()) as u64)
            } else {
                Some(u64::MAX)
            },
    {
        let ghost s = self.text@;
        let ghost start = self.pos as int;
        let mut val: u64 = 0;
        let mut n: usize = 0;
        proof {
            assert(s.subrange(start, start) =~= Seq::<char>::empty());
        }
        loop
            invariant
                self.wf(),
                self.text@ == s,
                0 <= start,
                start + n == self.pos as int,
                start <= self.pos as int <= s.len(),
                forall|j: int| start <= j < self.pos as int ==> is_dec_digit(s[j]),
                ({
                    let sofar = digits_val(s.subrange(start, self.pos as int));
                    val == if sofar <= u64::MAX {
                        sofar as u64
                    } else {
                        u64::MAX
                    }
                }),
            ensures
                self.wf(),
                self.text@ == s,
                0 <= start,
                start + n == self.pos as int,
                start <= self.pos as int <= s.len(),
                forall|j: int| start <= j < self.pos as int ==> is_dec_digit(s[j]),
                self.pos as int == s.len() || !is_dec_digit(s[self.pos as int]),
                ({
                    let sofar = digits_val(s.subrange(start, self.pos as int));
                    val == if sofar <= u64::MAX {
                        sofar as u64
                    } else {
                        u64::MAX
                    }
                }),
            decreases s.len() - self.pos,
        {
            let c = match self.peek() {
                Some(c) => c,
                None => { break },
            };
            if !('0' <= c && c <= '9') {
                break ;
            }
            let ghost sofar = digits_val(s.subrange(start, self.pos as int));
            let d = (c as u32 - 48) as u64;
            proof {
                assert(is_dec_digit(s[self.pos as int]));
                lemma_run_prefix_extend(s, start, self.pos as int);
                assert(digit_val(c) == d);
            }
            // saturate at u64::MAX instead of overflowing: 1844674407370955161
            // is the largest value that still leaves room for one more digit 5
            if val > 1844674407370955161 || (val == 1844674407370955161 && d > 5) {
                proof {
                    assert(sofar * 10 + digit_val(c) > u64::MAX) by (nonlinear_arith)
                        requires
                            sofar >= val,
                            digit_val(c) == d,
                            d < 10,
                            val > 1844674407370955161 || (val == 1844674407370955161 && d > 5),
                    ;
                }
                val = u64::MAX;
            } else {
                proof {
                    assert(sofar == val);
                }
                val = val * 10 + d;
            }
            self.advance();
            n = n + 1;
        }
        proof {
            lemma_run_at(s, start, self.pos as int - start);
        }
        self.ndigits = n;
        if n == 0 {
            None
        } else {
            Some(val)
        }
    }

    /// The digit count of the most recent `read_digits` call.
    pub fn ndigits(&self) -> (r: usize)
        ensures
            r == self.digit_count(),
    {
        self.ndigits
    }
}

} // verus!
