//! The RESP wire format: values, their serialisation, and the
//! character-level deserialiser.

pub mod de;
pub mod error;
pub mod ser;

use vstd::prelude::*;
use crate::codec::dec_str;
use crate::common::crlf;

verus! {

broadcast use vstd::std_specs::vec::axiom_vec_index_decreases;

/// One RESP value.
#[derive(Debug)]
pub enum RespValue {
    SimpleString(String),
    Error(String),
    Integer(u64),
    BulkString(Option<Vec<u8>>),
    Array(Option<Vec<RespValue>>),
}

/// The characters that writing a value produces.  A missing bulk string
/// or array is written as the simple string holding its null marker, and
/// a bulk string's bytes are written one character per byte, exactly as
/// the writer does.
pub open spec fn resp_enc(v: &RespValue) -> Seq<char>
    decreases v,
{
    match v {
        RespValue::SimpleString(s) => seq!['+'] + s@ + crlf(),
        RespValue::Error(e) => seq!['+'] + e@ + crlf(),
        RespValue::Integer(i) => seq![':'] + dec_str(*i as nat) + crlf(),
        RespValue::BulkString(opt) => match opt {
            Some(bytes) => seq!['$'] + dec_str(bytes@.len()) + crlf()
                + bytes@.map_values(|b: u8| b as char) + crlf(),
            None => seq!['+', '$', '-', '1', '\r', '\n'] + crlf(),
        },
        RespValue::Array(opt) => match opt {
            Some(arr) => seq!['*'] + dec_str(arr@.len()) + crlf() + resp_enc_list(arr, arr.len() as int),
            None => seq!['+', '*', '-', '1', '\r', '\n'] + crlf(),
        },
    }
}

/// The first `n` elements of an array, written one after the other.
pub open spec fn resp_enc_list(arr: &Vec<RespValue>, n: int) -> Seq<char>
    decreases arr, n,
{
    if 0 < n <= arr.len() {
        resp_enc_list(arr, n - 1) + resp_enc(&arr[n - 1])
    } else {
        Seq::empty()
    }
}

/// The mathematical form of a scalar RESP value.
pub ghost enum RespV {
    Simple(Seq<char>),
    Bulk(Seq<u8>),
    Num(int),
}

/// The scalar a value carries, if it is one.
pub open spec fn scalar_view(v: &RespValue) -> Option<RespV> {
    match v {
        RespValue::SimpleString(s) => Some(RespV::Simple(s@)),
        RespValue::Integer(i) => Some(RespV::Num(*i as int)),
        RespValue::BulkString(opt) => match opt {
            Some(b) => Some(RespV::Bulk(b@)),
            None => None,
        },
        _ => None,
    }
}

/// One scalar read from the front of `s`, with how much it consumes.
pub open spec fn parse_scalar(s: Seq<char>) -> Option<(RespV, int)> {
    if s.len() == 0 {
        None
    } else if s[0] == ':' {
        if crate::resp::de::uint_ok(s) && crate::resp::de::uint_val(s) <= u64::MAX {
            Some((RespV::Num(crate::resp::de::uint_val(s)), crate::resp::de::uint_end(s)))
        } else {
            None
        }
    } else if s[0] == '$' {
        if crate::resp::de::bulk_ok(s) {
            Some((RespV::Bulk(crate::resp::de::bulk_bytes(s)), crate::resp::de::bulk_end(s)))
        } else {
            None
        }
    } else if s[0] == '+' {
        let t = s.drop_first();
        let i = crate::resp::de::first_crlf(t);
        if i <= t.len() - 2 {
            Some((RespV::Simple(t.subrange(0, i)), i + 2))
        } else {
            None
        }
    } else {
        None
    }
}

/// Exactly `n` scalars read one after another from the front of `s`, or
/// nothing if any of the `n` is missing or malformed.
pub open spec fn parse_n_scalars(s: Seq<char>, n: nat) -> Option<Seq<RespV>>
    decreases n,
{
    if n == 0 {
        Some(Seq::empty())
    } else {
        match parse_scalar(s) {
            None => None,
            Some(p) => {
                if 1 <= p.1 <= s.len() {
                    match parse_n_scalars(s.skip(p.1), (n - 1) as nat) {
                        None => None,
                        Some(rest) => Some(seq![p.0] + rest),
                    }
                } else {
                    None
                }
            }
        }
    }
}

/// The announced element count of an array header.
pub open spec fn array_count(s: Seq<char>) -> int {
    crate::codec::val_digits(s.subrange(1, crate::resp::de::run_end(s, 1)))
}

/// A readable array: `'*'`, the element count, `"\r\n"` (of which the
/// second character is taken on faith), then exactly that many scalars.
pub open spec fn array_ok(s: Seq<char>) -> bool {
    &&& s.len() >= 2
    &&& s[0] == '*'
    &&& crate::codec::is_digit(s[1])
    &&& crate::resp::de::run_end(s, 1) < s.len()
    &&& s[crate::resp::de::run_end(s, 1)] == '\r'
    &&& crate::resp::de::run_end(s, 1) + 1 < s.len()
    &&& array_count(s) <= u64::MAX
    &&& parse_n_scalars(s.skip(crate::resp::de::run_end(s, 1) + 2), array_count(s) as nat).is_some()
}

/// The inputs a whole read succeeds on.
pub open spec fn from_str_ok(s: Seq<char>) -> bool {
    &&& s.len() > 0
    &&& if s[0] == ':' {
            crate::resp::de::uint_ok(s) && crate::resp::de::uint_val(s) <= u64::MAX
        } else if s[0] == '$' {
            crate::resp::de::bulk_ok(s)
        } else if s[0] == '+' {
            crate::resp::de::first_crlf(s.drop_first()) <= s.drop_first().len() - 2
        } else if s[0] == '*' {
            array_ok(s)
        } else {
            false
        }
}

/// What a successful whole read returns, next to the input.
pub open spec fn from_str_matches(s: Seq<char>, v: &RespValue) -> bool {
    if s.len() == 0 {
        false
    } else if s[0] == ':' {
        match v {
            RespValue::Integer(n) => *n as int == crate::resp::de::uint_val(s),
            _ => false,
        }
    } else if s[0] == '$' {
        match v {
            RespValue::BulkString(opt) => match opt {
                Some(b) => b@ == crate::resp::de::bulk_bytes(s),
                None => false,
            },
            _ => false,
        }
    } else if s[0] == '+' {
        match v {
            RespValue::SimpleString(w) => w@ == s.drop_first().subrange(0, crate::resp::de::first_crlf(s.drop_first())),
            _ => false,
        }
    } else if s[0] == '*' {
        match v {
            RespValue::Array(opt) => match opt {
                Some(elems) => match parse_n_scalars(
                    s.skip(crate::resp::de::run_end(s, 1) + 2),
                    array_count(s) as nat,
                ) {
                    Some(vs) => {
                        &&& elems@.len() == vs.len()
                        &&& forall|j: int| 0 <= j < vs.len()
                            ==> scalar_view(&elems@[j]) == Some(#[trigger] vs[j])
                    }
                    None => false,
                },
                None => false,
            },
            _ => false,
        }
    } else {
        false
    }
}

/// Read one whole RESP value from the front of a string.  Arrays read
/// their announced element count and then exactly that many scalars;
/// anything else in an element position is refused.
#[verifier::loop_isolation(false)]
pub fn from_str(s: &str) -> (r: Result<RespValue, crate::resp::error::RespError>)
    ensures
        match r {
            Ok(v) => from_str_ok(s@) && from_str_matches(s@, &v),
            Err(_) => !from_str_ok(s@),
        },
{
    let ghost sv = s@;
    let mut d = crate::resp::de::Deserializer::from_str(s);
    let c = match d.peek_char() {
        Ok(c) => c,
        Err(_) => {
            return Err(crate::resp::error::RespError::Eof);
        }
    };
    if c == ':' {
        match d.parse_unsigned() {
            Ok(n) => Ok(RespValue::Integer(n)),
            Err(e) => Err(e),
        }
    } else if c == '$' {
        match d.parse_bytes() {
            Ok(b) => Ok(RespValue::BulkString(Some(b))),
            Err(e) => Err(e),
        }
    } else if c == '+' {
        match d.parse_string() {
            Ok(w) => Ok(RespValue::SimpleString(w)),
            Err(e) => Err(e),
        }
    } else if c == '*' {
        let _ = match d.next_char() {
            Ok(c2) => c2,
            Err(_) => {
                proof {
                    assert(false);
                }
                return Err(crate::resp::error::RespError::Eof);
            }
        };
        let first = match d.next_char() {
            Ok(c2) => c2,
            Err(_) => {
                return Err(crate::resp::error::RespError::Eof);
            }
        };
        let d0 = match crate::codec::char_digit_pub(first) {
            Some(d0) => d0,
            None => {
                proof {
                    assert(first == sv[1]);
                }
                return Err(crate::resp::error::RespError::ExpectedInteger);
            }
        };
        let mut acc: u64 = d0;
        proof {
            assert(first == sv[1]);
            assert(crate::codec::is_digit(sv[1]));
            let u = sv.subrange(1, 2);
            assert(u.drop_last() =~= Seq::<char>::empty());
            assert(u.last() == sv[1]);
            assert(crate::codec::val_digits(Seq::<char>::empty()) == 0);
            assert(crate::codec::val_digits(u) == crate::codec::digit_val(sv[1]));
        }
        let nlen = d.input.as_str().unicode_len();
        proof {
            assert(d.input@ == sv);
            assert(d.pos == 2);
        }
        while d.pos < nlen && crate::codec::char_digit_pub(d.input.as_str().get_char(d.pos)).is_some()
            invariant
                d.wf(),
                d.input@ == sv,
                nlen == sv.len(),
                2 <= d.pos <= nlen,
                forall|q: int| 1 <= q < d.pos ==> crate::codec::is_digit(#[trigger] sv[q]),
                acc as int == crate::codec::val_digits(sv.subrange(1, d.pos as int)),
            decreases nlen - d.pos,
        {
            let c2 = d.input.as_str().get_char(d.pos);
            let dig = match crate::codec::char_digit_pub(c2) {
                Some(dig) => dig,
                None => {
                    proof {
                        assert(false);
                    }
                    return Err(crate::resp::error::RespError::ExpectedInteger);
                }
            };
            let ghost p = d.pos as int;
            proof {
                let u = sv.subrange(1, p);
                let w = sv.subrange(1, p + 1);
                assert(w.drop_last() =~= u);
                assert(w.last() == sv[p]);
            }
            let wide = (acc as u128) * 10 + (dig as u128);
            if wide > u64::MAX as u128 {
                proof {
                    crate::resp::de::lemma_run_end(sv, 1);
                    let e2 = crate::resp::de::run_end(sv, 1);
                    assert(e2 >= p + 1) by {
                        if e2 < p + 1 {
                            assert(crate::codec::is_digit(sv[e2]));
                        }
                    }
                    crate::resp::de::lemma_val_monotone(sv, 1, p + 1, e2);
                    assert(array_count(sv) > u64::MAX);
                }
                return Err(crate::resp::error::RespError::ExpectedInteger);
            }
            acc = wide as u64;
            d.pos = d.pos + 1;
        }
        let ghost e = crate::resp::de::run_end(sv, 1);
        proof {
            if d.pos < nlen {
                assert(!crate::codec::is_digit(sv[d.pos as int]));
            }
            crate::resp::de::lemma_run_end_at(sv, 1, d.pos as int);
            assert(e == d.pos);
            assert(acc as int == array_count(sv));
        }
        if d.pos >= nlen {
            return Err(crate::resp::error::RespError::Eof);
        }
        let term = d.input.as_str().get_char(d.pos);
        proof {
            assert(term == sv[e]);
        }
        if term != '\r' {
            return Err(crate::resp::error::RespError::ExpectedInteger);
        }
        d.pos = d.pos + 1;
        if d.pos >= nlen {
            return Err(crate::resp::error::RespError::Eof);
        }
        d.pos = d.pos + 1;
        let ghost tail0 = sv.skip(e + 2);
        let ghost total = acc as nat;
        proof {
            assert(d.remaining() =~= tail0);
            assert(parse_n_scalars(tail0, 0) == Some(Seq::<RespV>::empty()));
        }
        let count = acc;
        let mut elems: Vec<RespValue> = Vec::new();
        let mut idx: u64 = 0;
        while idx < count
            invariant
                d.wf(),
                d.input@ == sv,
                nlen == sv.len(),
                idx <= count,
                count as nat == total,
                total == array_count(sv),
                elems@.len() == idx,
                views_ok(elems@),
                match parse_n_scalars(d.remaining(), (count - idx) as nat) {
                    Some(rest) => parse_n_scalars(tail0, total) == Some(views_of(elems@) + rest),
                    None => parse_n_scalars(tail0, total).is_none(),
                },
            decreases count - idx,
        {
            let ghost rem = d.remaining();
            let ghost m = (count - idx) as nat;
            let c2 = match d.peek_char() {
                Ok(c2) => c2,
                Err(_) => {
                    proof {
                        assert(parse_scalar(rem).is_none());
                        assert(parse_n_scalars(rem, m).is_none());
                    }
                    return Err(crate::resp::error::RespError::Eof);
                }
            };
            if c2 == ':' {
                match d.parse_unsigned() {
                    Ok(n) => {
                        proof {
                            let k = crate::resp::de::uint_end(rem);
                            assert(parse_scalar(rem) == Some((RespV::Num(n as int), k)));
                            lemma_scalar_consumes(rem);
                            assert(d.remaining() =~= rem.skip(k));
                            lemma_views_push(elems@, RespValue::Integer(n), RespV::Num(n as int));
                            lemma_step_n(tail0, total, views_of(elems@), rem, RespV::Num(n as int), k, m);
                        }
                        elems.push(RespValue::Integer(n));
                    }
                    Err(e2) => {
                        proof {
                            assert(parse_scalar(rem).is_none());
                            assert(parse_n_scalars(rem, m).is_none());
                        }
                        return Err(e2);
                    }
                }
            } else if c2 == '$' {
                match d.parse_bytes() {
                    Ok(b) => {
                        let ghost bv = b@;
                        proof {
                            let k = crate::resp::de::bulk_end(rem);
                            assert(parse_scalar(rem) == Some((RespV::Bulk(bv), k)));
                            lemma_scalar_consumes(rem);
                            assert(d.remaining() =~= rem.skip(k));
                            lemma_views_push(elems@, RespValue::BulkString(Some(b)), RespV::Bulk(bv));
                            lemma_step_n(tail0, total, views_of(elems@), rem, RespV::Bulk(bv), k, m);
                        }
                        elems.push(RespValue::BulkString(Some(b)));
                    }
                    Err(e2) => {
                        proof {
                            assert(parse_scalar(rem).is_none());
                            assert(parse_n_scalars(rem, m).is_none());
                        }
                        return Err(e2);
                    }
                }
            } else if c2 == '+' {
                match d.parse_string() {
                    Ok(w) => {
                        let ghost wv = w@;
                        proof {
                            let t = rem.drop_first();
                            let i = crate::resp::de::first_crlf(t);
                            crate::resp::de::lemma_first_crlf(t);
                            assert(parse_scalar(rem) == Some((RespV::Simple(wv), i + 2)));
                            lemma_scalar_consumes(rem);
                            assert(d.remaining() =~= rem.skip(i + 2));
                            lemma_views_push(elems@, RespValue::SimpleString(w), RespV::Simple(wv));
                            lemma_step_n(tail0, total, views_of(elems@), rem, RespV::Simple(wv), i + 2, m);
                        }
                        elems.push(RespValue::SimpleString(w));
                    }
                    Err(e2) => {
                        proof {
                            assert(parse_scalar(rem).is_none());
                            assert(parse_n_scalars(rem, m).is_none());
                        }
                        return Err(e2);
                    }
                }
            } else {
                proof {
                    assert(parse_scalar(rem).is_none());
                    assert(parse_n_scalars(rem, m).is_none());
                }
                return Err(crate::resp::error::RespError::Syntax);
            }
            idx = idx + 1;
        }
        proof {
            assert(parse_n_scalars(d.remaining(), 0) == Some(Seq::<RespV>::empty()));
            assert(views_of(elems@) + Seq::<RespV>::empty() =~= views_of(elems@));
            assert(parse_n_scalars(tail0, total) == Some(views_of(elems@)));
            assert(array_ok(sv));
            assert forall|j: int| 0 <= j < views_of(elems@).len()
                implies scalar_view(&elems@[j]) == Some(#[trigger] views_of(elems@)[j]) by {
                assert(views_of(elems@)[j] == sv_or_bulk(elems@[j]));
                assert(scalar_view(&elems@[j]).is_some());
            }
        }
        Ok(RespValue::Array(Some(elems)))
    } else {
        Err(crate::resp::error::RespError::Syntax)
    }
}

/// A recognised scalar consumes at least one and at most all characters.
pub proof fn lemma_scalar_consumes(s: Seq<char>)
    requires
        parse_scalar(s).is_some(),
    ensures
        1 <= parse_scalar(s).unwrap().1 <= s.len(),
{
    if s[0] == ':' {
        crate::resp::de::lemma_run_end(s, crate::resp::de::uint_start(s));
        let st = crate::resp::de::uint_start(s);
        let e = crate::resp::de::run_end(s, st);
        if e == st {
            assert(crate::codec::is_digit(s[st]));
            assert(false);
        }
    } else if s[0] == '$' {
        crate::resp::de::lemma_run_end(s, 1);
        crate::codec::lemma_dec_rec_of_val(s.subrange(1, crate::resp::de::bulk_run_end(s)));
    } else {
        crate::resp::de::lemma_first_crlf(s.drop_first());
    }
}

/// One loop step: with `m` elements still owed and one scalar read, the
/// owed tail shortens by that scalar.
pub proof fn lemma_step_n(
    tail0: Seq<char>,
    total: nat,
    views0: Seq<RespV>,
    rem: Seq<char>,
    x: RespV,
    k: int,
    m: nat,
)
    requires
        m >= 1,
        parse_scalar(rem) == Some((x, k)),
        1 <= k <= rem.len(),
        match parse_n_scalars(rem, m) {
            Some(rest) => parse_n_scalars(tail0, total) == Some(views0 + rest),
            None => parse_n_scalars(tail0, total).is_none(),
        },
    ensures
        match parse_n_scalars(rem.skip(k), (m - 1) as nat) {
            Some(rest) => parse_n_scalars(tail0, total) == Some(views0.push(x) + rest),
            None => parse_n_scalars(tail0, total).is_none(),
        },
{
    match parse_n_scalars(rem.skip(k), (m - 1) as nat) {
        Some(rest) => {
            assert(parse_n_scalars(rem, m) == Some(seq![x] + rest));
            assert(views0 + (seq![x] + rest) =~= views0.push(x) + rest);
        }
        None => {
            assert(parse_n_scalars(rem, m).is_none());
        }
    }
}

/// Whether every element carries a scalar.
pub open spec fn views_ok(vs: Seq<RespValue>) -> bool {
    forall|j: int| 0 <= j < vs.len() ==> scalar_view(#[trigger] &vs[j]).is_some()
}

pub open spec fn sv_or_bulk(v: RespValue) -> RespV {
    match scalar_view(&v) {
        Some(x) => x,
        None => RespV::Num(0),
    }
}

/// The scalars a list of elements carries.
pub open spec fn views_of(vs: Seq<RespValue>) -> Seq<RespV> {
    vs.map_values(|v: RespValue| sv_or_bulk(v))
}

proof fn lemma_views_push(vs: Seq<RespValue>, v: RespValue, x: RespV)
    requires
        scalar_view(&v) == Some(x),
    ensures
        views_of(vs.push(v)) == views_of(vs).push(x),
{
    assert(views_of(vs.push(v)) =~= views_of(vs).push(x));
}

/// Each element's text is no longer than the whole element list's text.
pub proof fn lemma_enc_list_len(arr: &Vec<RespValue>, i: int, n: int)
    requires
        0 <= i < n <= arr@.len(),
    ensures
        resp_enc_list(arr, n).len() >= resp_enc(&arr[i]).len(),
    decreases n,
{
    if i < n - 1 {
        lemma_enc_list_len(arr, i, n - 1);
    }
}

} // verus!
