//! Reading RESP text: a cursor over the input characters, one parsing
//! method per shape.  Each method consumes exactly what it recognises.

use vstd::prelude::*;
use crate::codec::{digit_val, is_digit, val_digits};
use crate::resp::error::RespError;

verus! {

/// A RESP reader: the input and how much of it is already consumed.
pub struct Deserializer {
    pub input: String,
    pub pos: usize,
}

/// End of the digit run that starts at `i`: the first offset at or after
/// `i` holding no digit.
pub open spec fn run_end(s: Seq<char>, i: int) -> int
    decreases s.len() - i,
{
    if 0 <= i < s.len() && is_digit(s[i]) {
        run_end(s, i + 1)
    } else {
        i
    }
}

pub proof fn lemma_run_end(s: Seq<char>, i: int)
    requires
        0 <= i <= s.len(),
    ensures
        i <= run_end(s, i) <= s.len(),
        forall|j: int| i <= j < run_end(s, i) ==> is_digit(s[j]),
        run_end(s, i) < s.len() ==> !is_digit(s[run_end(s, i)]),
    decreases s.len() - i,
{
    if i < s.len() && is_digit(s[i]) {
        lemma_run_end(s, i + 1);
    }
}

/// The value of a digit run only grows as the run extends.
pub proof fn lemma_val_monotone(s: Seq<char>, t: int, a: int, b: int)
    requires
        0 <= t <= a <= b <= s.len(),
        forall|j: int| t <= j < b ==> is_digit(s[j]),
    ensures
        0 <= val_digits(s.subrange(t, a)) <= val_digits(s.subrange(t, b)),
    decreases b - a,
{
    let u = s.subrange(t, a);
    assert(forall|j: int| 0 <= j < u.len() ==> u[j] == s[t + j]);
    assert(crate::codec::all_digits(u));
    crate::codec::lemma_dec_rec_of_val(u);
    if a < b {
        let w = s.subrange(t, a + 1);
        assert(w.drop_last() =~= u);
        assert(w.last() == s[a]);
        assert(val_digits(w) == val_digits(u) * 10 + digit_val(s[a]));
        assert(val_digits(u) * 10 >= val_digits(u)) by (nonlinear_arith)
            requires
                val_digits(u) >= 0;
        lemma_val_monotone(s, t, a + 1, b);
    }
}

/// First offset where `"\r\n"` starts, or at least `s.len() - 1` if it
/// never does.
pub open spec fn first_crlf(s: Seq<char>) -> int
    decreases s.len(),
{
    if s.len() < 2 {
        s.len() as int
    } else if s[0] == '\r' && s[1] == '\n' {
        0
    } else {
        1 + first_crlf(s.drop_first())
    }
}

pub proof fn lemma_first_crlf(s: Seq<char>)
    ensures
        0 <= first_crlf(s) <= s.len(),
        first_crlf(s) <= s.len() - 2 ==> s[first_crlf(s)] == '\r' && s[first_crlf(s) + 1] == '\n',
        forall|j: int| 0 <= j < first_crlf(s) && j + 1 < s.len()
            ==> !(#[trigger] s[j] == '\r' && s[j + 1] == '\n'),
    decreases s.len(),
{
    if s.len() >= 2 && !(s[0] == '\r' && s[1] == '\n') {
        let t = s.drop_first();
        lemma_first_crlf(t);
        assert forall|j: int| 0 <= j < first_crlf(s) && j + 1 < s.len()
            implies !(#[trigger] s[j] == '\r' && s[j + 1] == '\n') by {
            if j > 0 {
                assert(t[j - 1] == s[j] && t[j] == s[j + 1]);
            }
        }
        if first_crlf(s) <= s.len() - 2 {
            assert(t[first_crlf(s) - 1] == s[first_crlf(s)]);
            assert(t[first_crlf(s)] == s[first_crlf(s) + 1]);
        }
    }
}

pub proof fn lemma_first_crlf_at(s: Seq<char>, i: int)
    requires
        0 <= i,
        i + 1 < s.len() ==> s[i] == '\r' && s[i + 1] == '\n',
        i <= s.len(),
        forall|j: int| 0 <= j < i && j + 1 < s.len() ==> !(#[trigger] s[j] == '\r' && s[j + 1] == '\n'),
    ensures
        i + 1 < s.len() ==> first_crlf(s) == i,
        i + 1 >= s.len() ==> first_crlf(s) >= s.len() - 1,
    decreases s.len(),
{
    if s.len() >= 2 && !(s[0] == '\r' && s[1] == '\n') {
        let t = s.drop_first();
        assert(forall|j: int| 0 <= j < i - 1 && j + 1 < t.len() ==> #[trigger] t[j] == s[j + 1] && t[j + 1] == s[j + 2]);
        if i + 1 < s.len() {
            assert(t[i - 1] == s[i] && t[i] == s[i + 1]);
        }
        lemma_first_crlf_at(t, i - 1);
    } else {
        if s.len() >= 2 {
            assert(i == 0);
        }
    }
}

impl Deserializer {
    pub open spec fn wf(&self) -> bool {
        self.pos <= self.input@.len()
    }

    /// What is left to read.
    pub open spec fn remaining(&self) -> Seq<char> {
        self.input@.subrange(self.pos as int, self.input@.len() as int)
    }

    pub fn from_str(input: &str) -> (d: Deserializer)
        ensures
            d.wf(),
            d.remaining() == input@,
            d.pos == 0,
            d.input@ == input@,
    {
        let d = Deserializer { input: input.to_owned(), pos: 0 };
        proof {
            assert(d.remaining() =~= input@);
        }
        d
    }

    /// The next character, without consuming it; end of input gives `Eof`.
    pub fn peek_char(&mut self) -> (r: Result<char, RespError>)
        requires
            old(self).wf(),
        ensures
            *final(self) == *old(self),
            match r {
                Ok(c) => old(self).remaining().len() > 0 && c == old(self).remaining()[0],
                Err(e) => old(self).remaining().len() == 0 && (e matches RespError::Eof),
            },
    {
        let len = self.input.as_str().unicode_len();
        if self.pos >= len {
            Err(RespError::Eof)
        } else {
            Ok(self.input.as_str().get_char(self.pos))
        }
    }

    /// The next character, consuming it; end of input gives `Eof`.
    pub fn next_char(&mut self) -> (r: Result<char, RespError>)
        requires
            old(self).wf(),
        ensures
            final(self).wf(),
            final(self).input == old(self).input,
            match r {
                Ok(c) => old(self).remaining().len() > 0
                    && c == old(self).remaining()[0]
                    && final(self).remaining() == old(self).remaining().drop_first()
                    && final(self).pos == old(self).pos + 1,
                Err(e) => old(self).remaining().len() == 0 && (e matches RespError::Eof)
                    && *final(self) == *old(self),
            },
    {
        let nlen = self.input.as_str().unicode_len();
        let c = match self.peek_char() {
            Ok(c) => c,
            Err(e) => {
                return Err(e);
            }
        };
        proof {
            assert(self.pos < nlen);
        }
        self.pos = self.pos + 1;
        proof {
            assert(self.remaining() =~= old(self).remaining().drop_first());
        }
        Ok(c)
    }

    /// Read a boolean, written `#t` or `#f` and closed by `"\r\n"`.
    pub fn parse_bool(&mut self) -> (r: Result<bool, RespError>)
        requires
            old(self).wf(),
        ensures
            final(self).wf(),
            final(self).input == old(self).input,
            match r {
                Ok(b) => {
                    let s = old(self).remaining();
                    &&& s.len() >= 4
                    &&& s.subrange(0, 4) == (if b { seq!['#', 't', '\r', '\n'] } else { seq!['#', 'f', '\r', '\n'] })
                    &&& final(self).remaining() == s.subrange(4, s.len() as int)
                }
                Err(e) => {
                    let s = old(self).remaining();
                    &&& (e matches RespError::ExpectedBoolean)
                    &&& !(s.len() >= 4 && (s.subrange(0, 4) == seq!['#', 't', '\r', '\n']
                            || s.subrange(0, 4) == seq!['#', 'f', '\r', '\n']))
                    &&& *final(self) == *old(self)
                }
            },
    {
        let ghost s = self.remaining();
        let len = self.input.as_str().unicode_len();
        if len - self.pos >= 4 {
            let c0 = self.input.as_str().get_char(self.pos);
            let c1 = self.input.as_str().get_char(self.pos + 1);
            let c2 = self.input.as_str().get_char(self.pos + 2);
            let c3 = self.input.as_str().get_char(self.pos + 3);
            proof {
                assert(s[0] == c0 && s[1] == c1 && s[2] == c2 && s[3] == c3);
            }
            if c0 == '#' && c1 == 't' && c2 == '\r' && c3 == '\n' {
                self.pos = self.pos + 4;
                proof {
                    assert(s.subrange(0, 4) =~= seq!['#', 't', '\r', '\n']);
                    assert(self.remaining() =~= s.subrange(4, s.len() as int));
                }
                return Ok(true);
            }
            if c0 == '#' && c1 == 'f' && c2 == '\r' && c3 == '\n' {
                self.pos = self.pos + 4;
                proof {
                    assert(s.subrange(0, 4) =~= seq!['#', 'f', '\r', '\n']);
                    assert(self.remaining() =~= s.subrange(4, s.len() as int));
                }
                return Ok(false);
            }
            proof {
                if s.len() >= 4 {
                    if s.subrange(0, 4) == seq!['#', 't', '\r', '\n'] {
                        assert(s.subrange(0, 4)[0] == '#' && s.subrange(0, 4)[1] == 't'
                            && s.subrange(0, 4)[2] == '\r' && s.subrange(0, 4)[3] == '\n');
                    }
                    if s.subrange(0, 4) == seq!['#', 'f', '\r', '\n'] {
                        assert(s.subrange(0, 4)[0] == '#' && s.subrange(0, 4)[1] == 'f'
                            && s.subrange(0, 4)[2] == '\r' && s.subrange(0, 4)[3] == '\n');
                    }
                }
            }
            return Err(RespError::ExpectedBoolean);
        }
        Err(RespError::ExpectedBoolean)
    }

    /// Read a simple string: a `'+'`, the text, then `"\r\n"`.  As the
    /// reader stands, it consumes the text and the `'\r'` but leaves the
    /// `'\n'` in the input.
    #[verifier::loop_isolation(false)]
    pub fn parse_string(&mut self) -> (r: Result<String, RespError>)
        requires
            old(self).wf(),
        ensures
            final(self).wf(),
            final(self).input == old(self).input,
            match r {
                Ok(w) => {
                    let s = old(self).remaining();
                    let t = s.drop_first();
                    let i = first_crlf(t);
                    &&& s.len() > 0
                    &&& s[0] == '+'
                    &&& i <= t.len() - 2
                    &&& w@ == t.subrange(0, i)
                    &&& final(self).remaining() == t.subrange(i + 1, t.len() as int)
                }
                Err(e) => {
                    let s = old(self).remaining();
                    &&& match e {
                        RespError::Eof => s.len() == 0
                            || (s[0] == '+' && first_crlf(s.drop_first()) > s.drop_first().len() - 2),
                        RespError::ExpectedSimpleString => s.len() > 0 && s[0] != '+',
                        _ => false,
                    }
                }
            },
    {
        let ghost s = self.remaining();
        let c = match self.next_char() {
            Ok(c) => c,
            Err(_) => {
                return Err(RespError::Eof);
            }
        };
        if c != '+' {
            return Err(RespError::ExpectedSimpleString);
        }
        let ghost t = s.drop_first();
        proof {
            assert(self.remaining() == t);
        }
        let len = self.input.as_str().unicode_len();
        let base = self.pos;
        let mut j = base;
        while j < len && j + 1 < len
            invariant
                base <= j <= len,
                len == self.input@.len(),
                base == self.pos,
                self.wf(),
                self.input == old(self).input,
                self.remaining() == t,
                t == self.input@.subrange(base as int, len as int),
                forall|q: int| 0 <= q < j - base && q + 1 < t.len()
                    ==> !(#[trigger] t[q] == '\r' && t[q + 1] == '\n'),
            decreases len - j,
        {
            let a = self.input.as_str().get_char(j);
            let b = self.input.as_str().get_char(j + 1);
            proof {
                assert(t[j - base] == a && t[j - base + 1] == b);
            }
            if a == '\r' && b == '\n' {
                // found the terminator
                let word = self.input.as_str().substring_char(base, j).to_owned();
                self.pos = j + 1;
                proof {
                    lemma_first_crlf_at(t, j - base);
                    assert(first_crlf(t) == j - base);
                    assert(first_crlf(t) <= t.len() - 2);
                    assert(word@ =~= t.subrange(0, first_crlf(t)));
                    assert(self.remaining() =~= t.subrange(first_crlf(t) + 1, t.len() as int));
                    assert(s.len() > 0 && s[0] == '+');
                }
                return Ok(word);
            }
            j = j + 1;
        }
        proof {
            lemma_first_crlf_at(t, j - base);
        }
        Err(RespError::Eof)
    }
}

/// Where an integer's digits start: after the `':'`, and after one `'+'`
/// if there is one.
pub open spec fn uint_start(s: Seq<char>) -> int {
    if s.len() >= 2 && s[1] == '+' { 2 } else { 1 }
}

/// A readable unsigned integer: `':'`, an optional `'+'`, a digit.
pub open spec fn uint_ok(s: Seq<char>) -> bool {
    &&& s.len() >= 1
    &&& s[0] == ':'
    &&& uint_start(s) < s.len()
    &&& is_digit(s[uint_start(s)])
}

pub open spec fn uint_end(s: Seq<char>) -> int {
    run_end(s, uint_start(s))
}

pub open spec fn uint_val(s: Seq<char>) -> int {
    val_digits(s.subrange(uint_start(s), uint_end(s)))
}

/// The inputs on which reading an unsigned integer runs out of input.
pub open spec fn uint_eof(s: Seq<char>) -> bool {
    ||| s.len() == 0
    ||| (s[0] == ':' && s.len() == 1)
    ||| (s[0] == ':' && s.len() >= 2 && s[1] == '+' && s.len() == 2)
}

/// Digits up to `p` and none at `p` pin the run's end at `p`.
pub proof fn lemma_run_end_at(s: Seq<char>, t: int, p: int)
    requires
        0 <= t <= p <= s.len(),
        forall|q: int| t <= q < p ==> is_digit(s[q]),
        p < s.len() ==> !is_digit(s[p]),
    ensures
        run_end(s, t) == p,
    decreases p - t,
{
    if t < p {
        lemma_run_end_at(s, t + 1, p);
    }
}

impl Deserializer {
    /// Read an unsigned integer: `':'`, an optional `'+'`, then a maximal
    /// run of digits, of which the terminator is not consumed.  A value
    /// beyond `u64::MAX` is refused as a malformed integer.
    #[verifier::loop_isolation(false)]
    pub fn parse_unsigned(&mut self) -> (r: Result<u64, RespError>)
        requires
            old(self).wf(),
        ensures
            final(self).wf(),
            final(self).input == old(self).input,
            match r {
                Ok(v) => {
                    let s = old(self).remaining();
                    &&& uint_ok(s)
                    &&& uint_val(s) <= u64::MAX
                    &&& v == uint_val(s)
                    &&& final(self).remaining() == s.subrange(uint_end(s), s.len() as int)
                }
                Err(e) => {
                    let s = old(self).remaining();
                    &&& !(uint_ok(s) && uint_val(s) <= u64::MAX)
                    &&& match e {
                        RespError::Eof => uint_eof(s),
                        RespError::ExpectedInteger => !uint_eof(s),
                        _ => false,
                    }
                }
            },
    {
        let ghost s = self.remaining();
        let ghost pos0 = self.pos;
        let nlen = self.input.as_str().unicode_len();
        let c0 = match self.next_char() {
            Ok(c) => c,
            Err(_) => {
                return Err(RespError::Eof);
            }
        };
        if c0 != ':' {
            return Err(RespError::ExpectedInteger);
        }
        let sign = match self.peek_char() {
            Ok(c) => c,
            Err(_) => {
                return Err(RespError::Eof);
            }
        };
        if sign == '+' {
            let _ = match self.next_char() {
                Ok(c) => c,
                Err(_) => {
                    proof {
                        assert(false);
                    }
                    return Err(RespError::Eof);
                }
            };
        }
        let ghost t = uint_start(s);
        proof {
            assert(self.pos == pos0 + t);
            assert(t < s.len() ==> s[t] == self.input@[pos0 + t]);
        }
        let first = match self.next_char() {
            Ok(c) => c,
            Err(_) => {
                proof {
                    assert(s.len() == t);
                    assert(uint_eof(s));
                }
                return Err(RespError::Eof);
            }
        };
        let d0 = match crate::codec::char_digit_pub(first) {
            Some(d) => d,
            None => {
                proof {
                    assert(first == s[t]);
                    assert(!uint_ok(s));
                    assert(!uint_eof(s));
                }
                return Err(RespError::ExpectedInteger);
            }
        };
        let mut acc: u64 = d0;
        proof {
            assert(first == s[t]);
            assert(is_digit(s[t]));
            assert(uint_ok(s));
            let u = s.subrange(t, t + 1);
            assert(u.drop_last() =~= Seq::<char>::empty());
            assert(u.last() == s[t]);
            assert(val_digits(Seq::<char>::empty()) == 0);
            assert(val_digits(u) == digit_val(s[t]));
        }
        while self.pos < nlen && crate::codec::char_digit_pub(self.input.as_str().get_char(self.pos)).is_some()
            invariant
                self.wf(),
                self.input == old(self).input,
                nlen == self.input@.len(),
                pos0 + t + 1 <= self.pos <= nlen,
                forall|q: int| t <= q < self.pos - pos0 ==> is_digit(#[trigger] s[q]),
                acc as int == val_digits(s.subrange(t, self.pos - pos0)),
            decreases nlen - self.pos,
        {
            let c = self.input.as_str().get_char(self.pos);
            let d = match crate::codec::char_digit_pub(c) {
                Some(d) => d,
                None => {
                    proof {
                        assert(false);
                    }
                    return Err(RespError::ExpectedInteger);
                }
            };
            let ghost p = self.pos - pos0;
            proof {
                assert(c == s[p]);
                let u = s.subrange(t, p);
                let w = s.subrange(t, p + 1);
                assert(w.drop_last() =~= u);
                assert(w.last() == s[p]);
            }
            let wide = (acc as u128) * 10 + (d as u128);
            if wide > u64::MAX as u128 {
                proof {
                    lemma_run_end(s, t);
                    let e = uint_end(s);
                    assert(e >= p + 1) by {
                        if e < p + 1 {
                            assert(is_digit(s[e]));
                        }
                    }
                    lemma_val_monotone(s, t, p + 1, e);
                    assert(uint_val(s) > u64::MAX);
                    assert(!uint_eof(s));
                }
                return Err(RespError::ExpectedInteger);
            }
            acc = wide as u64;
            self.pos = self.pos + 1;
        }
        proof {
            let p = self.pos - pos0;
            if self.pos < nlen {
                assert(!is_digit(s[p]));
            }
            lemma_run_end_at(s, t, p);
            assert(uint_end(s) == p);
            assert(self.remaining() =~= s.subrange(uint_end(s), s.len() as int));
        }
        Ok(acc)
    }
}

/// Where a signed integer's digits start: after the `':'`, and after one
/// sign character if there is one.
pub open spec fn sint_start(s: Seq<char>) -> int {
    if s.len() >= 2 && (s[1] == '+' || s[1] == '-') { 2 } else { 1 }
}

pub open spec fn sint_neg(s: Seq<char>) -> bool {
    s.len() >= 2 && s[1] == '-'
}

pub open spec fn sint_ok(s: Seq<char>) -> bool {
    &&& s.len() >= 1
    &&& s[0] == ':'
    &&& sint_start(s) < s.len()
    &&& is_digit(s[sint_start(s)])
}

pub open spec fn sint_end(s: Seq<char>) -> int {
    run_end(s, sint_start(s))
}

pub open spec fn sint_mag(s: Seq<char>) -> int {
    val_digits(s.subrange(sint_start(s), sint_end(s)))
}

pub open spec fn sint_signed_val(s: Seq<char>) -> int {
    if sint_neg(s) { -sint_mag(s) } else { sint_mag(s) }
}

pub open spec fn sint_fits(s: Seq<char>) -> bool {
    i64::MIN <= sint_signed_val(s) <= i64::MAX
}

pub open spec fn sint_eof(s: Seq<char>) -> bool {
    ||| s.len() == 0
    ||| (s[0] == ':' && s.len() == 1)
    ||| (s[0] == ':' && s.len() >= 2 && (s[1] == '+' || s[1] == '-') && s.len() == 2)
}

impl Deserializer {
    /// Read a signed integer: `':'`, an optional sign, then a maximal run
    /// of digits, of which the terminator is not consumed.  A value
    /// outside `i64`'s range is refused as a malformed integer.
    #[verifier::loop_isolation(false)]
    pub fn parse_signed(&mut self) -> (r: Result<i64, RespError>)
        requires
            old(self).wf(),
        ensures
            final(self).wf(),
            final(self).input == old(self).input,
            match r {
                Ok(v) => {
                    let s = old(self).remaining();
                    &&& sint_ok(s)
                    &&& sint_fits(s)
                    &&& v as int == sint_signed_val(s)
                    &&& final(self).remaining() == s.subrange(sint_end(s), s.len() as int)
                }
                Err(e) => {
                    let s = old(self).remaining();
                    &&& !(sint_ok(s) && sint_fits(s))
                    &&& match e {
                        RespError::Eof => sint_eof(s),
                        RespError::ExpectedInteger => !sint_eof(s),
                        _ => false,
                    }
                }
            },
    {
        let ghost s = self.remaining();
        let ghost pos0 = self.pos;
        let nlen = self.input.as_str().unicode_len();
        let c0 = match self.next_char() {
            Ok(c) => c,
            Err(_) => {
                return Err(RespError::Eof);
            }
        };
        if c0 != ':' {
            return Err(RespError::ExpectedInteger);
        }
        let sign = match self.peek_char() {
            Ok(c) => c,
            Err(_) => {
                return Err(RespError::Eof);
            }
        };
        let mut neg = false;
        if sign == '+' || sign == '-' {
            neg = sign == '-';
            let _ = match self.next_char() {
                Ok(c) => c,
                Err(_) => {
                    proof {
                        assert(false);
                    }
                    return Err(RespError::Eof);
                }
            };
        }
        let ghost t = sint_start(s);
        proof {
            assert(self.pos == pos0 + t);
            assert(neg == sint_neg(s));
        }
        let first = match self.next_char() {
            Ok(c) => c,
            Err(_) => {
                proof {
                    assert(s.len() == t);
                    assert(sint_eof(s));
                }
                return Err(RespError::Eof);
            }
        };
        let d0 = match crate::codec::char_digit_pub(first) {
            Some(d) => d,
            None => {
                proof {
                    assert(first == s[t]);
                    assert(!sint_ok(s));
                    assert(!sint_eof(s));
                }
                return Err(RespError::ExpectedInteger);
            }
        };
        let mut acc: u64 = d0;
        proof {
            assert(first == s[t]);
            assert(sint_ok(s));
            let u = s.subrange(t, t + 1);
            assert(u.drop_last() =~= Seq::<char>::empty());
            assert(u.last() == s[t]);
            assert(val_digits(Seq::<char>::empty()) == 0);
            assert(val_digits(u) == digit_val(s[t]));
        }
        while self.pos < nlen && crate::codec::char_digit_pub(self.input.as_str().get_char(self.pos)).is_some()
            invariant
                self.wf(),
                self.input == old(self).input,
                nlen == self.input@.len(),
                pos0 + t + 1 <= self.pos <= nlen,
                forall|q: int| t <= q < self.pos - pos0 ==> is_digit(#[trigger] s[q]),
                acc as int == val_digits(s.subrange(t, self.pos - pos0)),
            decreases nlen - self.pos,
        {
            let c = self.input.as_str().get_char(self.pos);
            let d = match crate::codec::char_digit_pub(c) {
                Some(d) => d,
                None => {
                    proof {
                        assert(false);
                    }
                    return Err(RespError::ExpectedInteger);
                }
            };
            let ghost p = self.pos - pos0;
            proof {
                assert(c == s[p]);
                let u = s.subrange(t, p);
                let w = s.subrange(t, p + 1);
                assert(w.drop_last() =~= u);
                assert(w.last() == s[p]);
            }
            let wide = (acc as u128) * 10 + (d as u128);
            if wide > u64::MAX as u128 {
                proof {
                    lemma_run_end(s, t);
                    let e = sint_end(s);
                    assert(e >= p + 1) by {
                        if e < p + 1 {
                            assert(is_digit(s[e]));
                        }
                    }
                    lemma_val_monotone(s, t, p + 1, e);
                    assert(sint_mag(s) > u64::MAX);
                    assert(!sint_fits(s));
                    assert(!sint_eof(s));
                }
                return Err(RespError::ExpectedInteger);
            }
            acc = wide as u64;
            self.pos = self.pos + 1;
        }
        proof {
            let p = self.pos - pos0;
            if self.pos < nlen {
                assert(!is_digit(s[p]));
            }
            lemma_run_end_at(s, t, p);
            assert(sint_end(s) == p);
            assert(self.remaining() =~= s.subrange(sint_end(s), s.len() as int));
        }
        if neg {
            if acc > 9223372036854775808u64 {
                proof {
                    assert(!sint_fits(s));
                    assert(!sint_eof(s));
                }
                return Err(RespError::ExpectedInteger);
            }
            Ok((-(acc as i128)) as i64)
        } else {
            if acc > 9223372036854775807u64 {
                proof {
                    assert(!sint_fits(s));
                    assert(!sint_eof(s));
                }
                return Err(RespError::ExpectedInteger);
            }
            Ok(acc as i64)
        }
    }
}

/// Where a bulk string's digit run ends.
pub open spec fn bulk_run_end(s: Seq<char>) -> int {
    run_end(s, 1)
}

pub open spec fn bulk_val(s: Seq<char>) -> int {
    val_digits(s.subrange(1, bulk_run_end(s)))
}

/// A readable bulk string: `'$'`, a digit run giving the length, a
/// `"\r\n"` (of which the second character is taken on faith), that many
/// characters of payload, then two more characters taken on faith.
pub open spec fn bulk_ok(s: Seq<char>) -> bool {
    &&& s.len() >= 2
    &&& s[0] == '$'
    &&& is_digit(s[1])
    &&& bulk_run_end(s) < s.len()
    &&& s[bulk_run_end(s)] == '\r'
    &&& bulk_run_end(s) + 1 < s.len()
    &&& bulk_val(s) <= u64::MAX
    &&& bulk_run_end(s) + 4 + bulk_val(s) <= s.len()
}

pub open spec fn bulk_end(s: Seq<char>) -> int {
    bulk_run_end(s) + 4 + bulk_val(s)
}

/// The payload, one byte per character, each character truncated to a
/// byte exactly as the reader does.
pub open spec fn bulk_bytes(s: Seq<char>) -> Seq<u8> {
    s.subrange(bulk_run_end(s) + 2, bulk_run_end(s) + 2 + bulk_val(s)).map_values(|c: char| c as u8)
}

pub open spec fn bulk_eof(s: Seq<char>) -> bool {
    ||| s.len() == 0
    ||| (s[0] == '$' && s.len() == 1)
    ||| (s[0] == '$' && s.len() >= 2 && is_digit(s[1]) && bulk_run_end(s) == s.len())
    ||| (s[0] == '$' && s.len() >= 2 && is_digit(s[1]) && bulk_run_end(s) < s.len()
            && s[bulk_run_end(s)] == '\r' && bulk_run_end(s) + 1 == s.len())
    ||| (s[0] == '$' && s.len() >= 2 && is_digit(s[1]) && bulk_run_end(s) + 1 < s.len()
            && s[bulk_run_end(s)] == '\r' && bulk_val(s) <= u64::MAX
            && bulk_run_end(s) + 4 + bulk_val(s) > s.len())
}

impl Deserializer {
    /// Read a bulk string and hand its payload back as bytes.
    #[verifier::loop_isolation(false)]
    pub fn parse_bytes(&mut self) -> (r: Result<Vec<u8>, RespError>)
        requires
            old(self).wf(),
        ensures
            final(self).wf(),
            final(self).input == old(self).input,
            match r {
                Ok(bytes) => {
                    let s = old(self).remaining();
                    &&& bulk_ok(s)
                    &&& bytes@ == bulk_bytes(s)
                    &&& final(self).remaining() == s.subrange(bulk_end(s), s.len() as int)
                }
                Err(e) => {
                    let s = old(self).remaining();
                    &&& !bulk_ok(s)
                    &&& match e {
                        RespError::Eof => bulk_eof(s),
                        RespError::ExpectedBulkString => s.len() > 0 && s[0] != '$',
                        RespError::Message(_) => s.len() >= 2 && s[0] == '$' && !is_digit(s[1]),
                        RespError::ExpectedInteger => s.len() >= 2 && s[0] == '$' && is_digit(s[1])
                            && (bulk_val(s) > u64::MAX
                                || (bulk_run_end(s) < s.len() && s[bulk_run_end(s)] != '\r')),
                        _ => false,
                    }
                }
            },
    {
        let ghost s = self.remaining();
        let ghost pos0 = self.pos;
        let nlen = self.input.as_str().unicode_len();
        let c0 = match self.next_char() {
            Ok(c) => c,
            Err(_) => {
                return Err(RespError::Eof);
            }
        };
        if c0 != '$' {
            return Err(RespError::ExpectedBulkString);
        }
        let first = match self.next_char() {
            Ok(c) => c,
            Err(_) => {
                return Err(RespError::Eof);
            }
        };
        let d0 = match crate::codec::char_digit_pub(first) {
            Some(d) => d,
            None => {
                proof {
                    assert(first == s[1]);
                }
                return Err(RespError::Message(String::from_str(
                    "bulk strings should start with unsigned integer length",
                )));
            }
        };
        let mut acc: u64 = d0;
        proof {
            assert(first == s[1]);
            assert(is_digit(s[1]));
            let u = s.subrange(1, 2);
            assert(u.drop_last() =~= Seq::<char>::empty());
            assert(u.last() == s[1]);
            assert(val_digits(Seq::<char>::empty()) == 0);
            assert(val_digits(u) == digit_val(s[1]));
        }
        while self.pos < nlen && crate::codec::char_digit_pub(self.input.as_str().get_char(self.pos)).is_some()
            invariant
                self.wf(),
                self.input == old(self).input,
                nlen == self.input@.len(),
                pos0 + 2 <= self.pos <= nlen,
                forall|q: int| 1 <= q < self.pos - pos0 ==> is_digit(#[trigger] s[q]),
                acc as int == val_digits(s.subrange(1, self.pos - pos0)),
            decreases nlen - self.pos,
        {
            let c = self.input.as_str().get_char(self.pos);
            let d = match crate::codec::char_digit_pub(c) {
                Some(d) => d,
                None => {
                    proof {
                        assert(false);
                    }
                    return Err(RespError::ExpectedInteger);
                }
            };
            let ghost p = self.pos - pos0;
            proof {
                assert(c == s[p]);
                let u = s.subrange(1, p);
                let w = s.subrange(1, p + 1);
                assert(w.drop_last() =~= u);
                assert(w.last() == s[p]);
            }
            let wide = (acc as u128) * 10 + (d as u128);
            if wide > u64::MAX as u128 {
                proof {
                    lemma_run_end(s, 1);
                    let e = bulk_run_end(s);
                    assert(e >= p + 1) by {
                        if e < p + 1 {
                            assert(is_digit(s[e]));
                        }
                    }
                    lemma_val_monotone(s, 1, p + 1, e);
                    assert(bulk_val(s) > u64::MAX);
                }
                return Err(RespError::ExpectedInteger);
            }
            acc = wide as u64;
            self.pos = self.pos + 1;
        }
        let ghost e = bulk_run_end(s);
        proof {
            let p = self.pos - pos0;
            if self.pos < nlen {
                assert(!is_digit(s[p]));
            }
            lemma_run_end_at(s, 1, p);
            assert(e == p);
        }
        if self.pos >= nlen {
            return Err(RespError::Eof);
        }
        let term = self.input.as_str().get_char(self.pos);
        proof {
            assert(term == s[e]);
        }
        if term != '\r' {
            return Err(RespError::ExpectedInteger);
        }
        self.pos = self.pos + 1;
        if self.pos >= nlen {
            return Err(RespError::Eof);
        }
        self.pos = self.pos + 1;
        // the length is known; read that many characters as bytes
        let avail = nlen - self.pos;
        if acc > avail as u64 {
            self.pos = nlen;
            proof {
                assert(bulk_eof(s));
                assert(!bulk_ok(s));
            }
            return Err(RespError::Eof);
        }
        let count = acc as usize;
        let ghost body = e + 2;
        let mut bytes: Vec<u8> = Vec::new();
        let mut i: usize = 0;
        proof {
            assert(self.pos == pos0 + body);
        }
        while i < count
            invariant
                i <= count,
                self.wf(),
                self.input == old(self).input,
                nlen == self.input@.len(),
                self.pos == pos0 + body,
                pos0 + body + count <= nlen,
                bytes@.len() == i,
                forall|q: int| 0 <= q < i ==> #[trigger] bytes@[q] == (s[body + q] as u8),
            decreases count - i,
        {
            let c = self.input.as_str().get_char(self.pos + i);
            proof {
                assert(c == s[body + i]);
            }
            bytes.push(c as u8);
            i = i + 1;
        }
        self.pos = self.pos + count;
        if self.pos >= nlen {
            return Err(RespError::Eof);
        }
        self.pos = self.pos + 1;
        if self.pos >= nlen {
            return Err(RespError::Eof);
        }
        self.pos = self.pos + 1;
        proof {
            assert(bulk_ok(s));
            assert(bytes@ =~= bulk_bytes(s));
            assert(self.remaining() =~= s.subrange(bulk_end(s), s.len() as int));
        }
        Ok(bytes)
    }
}

} // verus!
