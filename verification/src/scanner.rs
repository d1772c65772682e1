//! The whitespace token scanner.
//!
//! Reads whitespace-separated tokens one at a time from an in-memory byte
//! buffer. Feeding the buffer (from standard input, a file, or anywhere
//! else) is the caller's business; the scanning itself is pure. A signed
//! decimal parser turns a token into an `i32` at the boundary, reporting
//! failure instead of aborting.

use vstd::prelude::*;

verus! {

/// ASCII whitespace: space, tab, line feed, form feed, carriage return.
pub open spec fn is_ws(b: u8) -> bool {
    b == 32 || b == 9 || b == 10 || b == 12 || b == 13
}

/// `s` with its leading whitespace removed.
pub open spec fn skip_ws(s: Seq<u8>) -> Seq<u8>
    decreases s.len(),
{
    if s.len() == 0 {
        s
    } else if is_ws(s[0]) {
        skip_ws(s.skip(1))
    } else {
        s
    }
}

/// Length of the leading run of non-whitespace bytes of `s`.
pub open spec fn token_len(s: Seq<u8>) -> int
    decreases s.len(),
{
    if s.len() == 0 || is_ws(s[0]) {
        0
    } else {
        1 + token_len(s.skip(1))
    }
}

/// If the first `i` bytes of `s` are non-whitespace and the scan stops at
/// `i`, then `i` is exactly the token length of `s`.
proof fn lemma_token_len_is(s: Seq<u8>, i: int)
    requires
        0 <= i <= s.len(),
        forall|j: int| 0 <= j < i ==> !is_ws(#[trigger] s[j]),
        i == s.len() || is_ws(s[i]),
    ensures
        token_len(s) == i,
    decreases i,
{
    if i == 0 {
    } else {
        assert(!is_ws(s[0]));
        lemma_token_len_is(s.skip(1), i - 1);
    }
}

/// Runtime test for [`is_ws`].
fn is_space(b: u8) -> (r: bool)
    ensures
        r == is_ws(b),
{
    b == 32 || b == 9 || b == 10 || b == 12 || b == 13
}

/// Reads whitespace-separated tokens one at a time from a byte buffer.
pub struct Scanner {
    /// The full input handed over at construction.
    pub input: Vec<u8>,
    /// How far the scan has advanced.
    pub pos: usize,
}

impl Scanner {
    /// The bytes not yet consumed.
    pub open spec fn remaining(self) -> Seq<u8> {
        self.input@.skip(self.pos as int)
    }

    /// The position never runs past the input.
    pub open spec fn wf(self) -> bool {
        self.pos <= self.input@.len()
    }

    /// A scanner over the given input, positioned at its start.
    pub fn new(input: Vec<u8>) -> (s: Self)
        ensures
            s.wf(),
            s.remaining() == input@,
    {
        let s = Scanner { input, pos: 0 };
        proof {
            assert(s.remaining() =~= s.input@);
        }
        s
    }

    /// The next whitespace-separated token, or nothing when only whitespace
    /// is left. Consumes the token and the whitespace before it.
    pub fn token(&mut self) -> (r: Option<Vec<u8>>)
        requires
            old(self).wf(),
        ensures
            final(self).wf(),
            final(self).input@ == old(self).input@,
            (r is None) == (skip_ws(old(self).remaining()).len() == 0),
            r matches Some(tok) ==> {
                let rest = skip_ws(old(self).remaining());
                &&& tok@ == rest.subrange(0, token_len(rest))
                &&& tok@.len() >= 1
                &&& final(self).remaining() == rest.skip(token_len(rest))
            },
            r is None ==> final(self).remaining().len() == 0,
    {
        let n = self.input.len();
        while self.pos < n && is_space(self.input[self.pos])
            invariant
                n == self.input@.len(),
                self.input@ == old(self).input@,
                self.wf(),
                skip_ws(old(self).remaining()) == skip_ws(self.remaining()),
            decreases n - self.pos,
        {
            proof {
                assert(self.remaining()[0] == self.input@[self.pos as int]);
                assert(self.remaining().skip(1) =~= self.input@.skip(self.pos as int + 1));
            }
            self.pos = self.pos + 1;
        }
        proof {
            // the head of the remainder, if any, is not whitespace
            if self.pos < n {
                assert(self.remaining()[0] == self.input@[self.pos as int]);
            }
            assert(skip_ws(old(self).remaining()) == self.remaining());
        }
        if self.pos == n {
            proof {
                assert(self.remaining().len() == 0);
            }
            return None;
        }
        let ghost rest = skip_ws(old(self).remaining());
        let start = self.pos;
        let mut tok: Vec<u8> = Vec::new();
        while self.pos < n && !is_space(self.input[self.pos])
            invariant
                n == self.input@.len(),
                self.input@ == old(self).input@,
                self.wf(),
                start <= self.pos,
                rest == self.input@.skip(start as int),
                tok@ == self.input@.subrange(start as int, self.pos as int),
                forall|j: int|
                    start <= j < self.pos ==> !is_ws(#[trigger] self.input@[j]),
            decreases n - self.pos,
        {
            let b = self.input[self.pos];
            tok.push(b);
            self.pos = self.pos + 1;
        }
        proof {
            let i = self.pos as int - start as int;
            assert(forall|j: int| 0 <= j < i ==> rest[j] == self.input@[start as int + j]);
            if self.pos < n {
                assert(rest[i] == self.input@[self.pos as int]);
            }
            lemma_token_len_is(rest, i);
            assert(tok@ =~= rest.subrange(0, token_len(rest)));
            assert(self.remaining() =~= rest.skip(token_len(rest)));
        }
        Some(tok)
    }
}

/// An ASCII decimal digit.
pub open spec fn is_digit(b: u8) -> bool {
    48 <= b <= 57
}

/// All bytes of `s` are decimal digits.
pub open spec fn all_digits(s: Seq<u8>) -> bool {
    forall|i: int| 0 <= i < s.len() ==> is_digit(#[trigger] s[i])
}

/// The value of the first `j` bytes of `s` read as decimal digits.
pub open spec fn digits_val(s: Seq<u8>, j: int) -> int
    decreases j,
{
    if j <= 0 {
        0
    } else {
        10 * digits_val(s, j - 1) + (s[j - 1] - 48)
    }
}

/// `s` is a signed decimal integer token: digits, optionally preceded by a
/// minus sign, and at least one digit.
pub open spec fn is_int_token(s: Seq<u8>) -> bool {
    if s.len() >= 1 && s[0] == 45 {
        s.len() >= 2 && all_digits(s.skip(1))
    } else {
        s.len() >= 1 && all_digits(s)
    }
}

/// The integer value a signed decimal token denotes.
pub open spec fn int_token_val(s: Seq<u8>) -> int {
    if s.len() >= 1 && s[0] == 45 {
        -digits_val(s.skip(1), s.len() - 1)
    } else {
        digits_val(s, s.len() as int)
    }
}

/// A digit string never denotes a negative value.
proof fn lemma_digits_val_nonneg(s: Seq<u8>, j: int)
    requires
        j <= s.len(),
        forall|i: int| 0 <= i < j ==> is_digit(#[trigger] s[i]),
    ensures
        digits_val(s, j) >= 0,
    decreases j,
{
    if j > 0 {
        lemma_digits_val_nonneg(s, j - 1);
    }
}

/// Reading more digits never shrinks the value.
proof fn lemma_digits_val_monotone(s: Seq<u8>, i: int, j: int)
    requires
        0 <= i <= j <= s.len(),
        forall|t: int| 0 <= t < j ==> is_digit(#[trigger] s[t]),
    ensures
        digits_val(s, i) <= digits_val(s, j),
    decreases j,
{
    if i < j {
        lemma_digits_val_monotone(s, i, j - 1);
        lemma_digits_val_nonneg(s, j - 1);
    }
}

/// Parse a token as a signed decimal `i32`. Returns the value exactly when
/// the token is a well-formed signed decimal integer that fits in `i32`;
/// reports `None` otherwise.
pub fn parse_i32(s: &Vec<u8>) -> (r: Option<i32>)
    ensures
        (r is Some) == (is_int_token(s@) && i32::MIN <= int_token_val(s@) <= i32::MAX),
        r matches Some(v) ==> v == int_token_val(s@),
{
    let n = s.len();
    if n == 0 {
        return None;
    }
    let neg = s[0] == 45;
    let start: usize = if neg {
        1
    } else {
        0
    };
    if n == start {
        return None;
    }
    let ghost digits: Seq<u8> = if neg {
        s@.skip(1)
    } else {
        s@
    };
    proof {
        assert(digits.len() == n - start);
        assert(forall|j: int|
            0 <= j < digits.len() ==> digits[j] == s@[start as int + j]);
    }
    // first pass: the token must be digits throughout
    let mut i = start;
    while i < n
        invariant
            n == s@.len(),
            start <= i <= n,
            digits == (if s@[0] == 45 {
                s@.skip(1)
            } else {
                s@
            }),
            (start == 1) == (s@[0] == 45),
            start <= 1,
            forall|j: int| start <= j < i ==> is_digit(#[trigger] s@[j]),
        decreases n - i,
    {
        let b = s[i];
        if b < 48 || b > 57 {
            proof {
                assert(!is_digit(s@[i as int]));
                assert(digits[i as int - start as int] == s@[i as int]);
                assert(!all_digits(digits));
            }
            return None;
        }
        i = i + 1;
    }
    proof {
        assert forall|j: int| 0 <= j < digits.len() implies is_digit(#[trigger] digits[j]) by {
            assert(digits[j] == s@[start as int + j]);
        }
        assert(all_digits(digits));
        assert(is_int_token(s@));
    }
    // second pass: accumulate, rejecting as soon as the value can no longer
    // fit in i32 whatever follows
    let mut acc: i64 = 0;
    let mut i = start;
    while i < n
        invariant
            n == s@.len(),
            start <= i <= n,
            start <= 1,
            digits == (if s@[0] == 45 {
                s@.skip(1)
            } else {
                s@
            }),
            (start == 1) == (s@[0] == 45),
            forall|j: int| 0 <= j < digits.len() ==> is_digit(#[trigger] digits[j]),
            forall|j: int| 0 <= j < digits.len() ==> digits[j] == s@[start as int + j],
            acc == digits_val(digits, i as int - start as int),
            0 <= acc <= 0x8000_0000,
        decreases n - i,
    {
        let b = s[i];
        proof {
            assert(digits[i as int - start as int] == s@[i as int]);
            assert(is_digit(b));
        }
        acc = acc * 10 + (b - 48) as i64;
        i = i + 1;
        if acc > 0x8000_0000 {
            proof {
                lemma_digits_val_monotone(digits, i as int - start as int, digits.len() as int);
                assert(int_token_val(s@) > 0x8000_0000 || int_token_val(s@)
                    < -0x8000_0000);
            }
            return None;
        }
    }
    proof {
        assert(acc == digits_val(digits, digits.len() as int));
    }
    if neg {
        Some((-acc) as i32)
    } else {
        if acc <= 0x7fff_ffff {
            Some(acc as i32)
        } else {
            None
        }
    }
}

} // verus!
