//! The record codec: commands are serialised into a self-delimiting textual
//! frame so that successive records form a stream decodable with exact
//! character bounds.
//!
//! A `Put` record is the character `'S'`, the key length and the value
//! length (each as exactly [`LEN_WIDTH`] decimal digits), the key, then the
//! value.  A `Rm` record is `'R'`, the key length, then the key.  Because
//! every `u64` fits in [`LEN_WIDTH`] digits, any key and value can be
//! framed, and the frame is canonical: parsing a record recovers exactly
//! the characters that encoding produced.

use vstd::prelude::*;

verus! {

/// A client-visible command; `Put` and `Rm` are the two kinds of record
/// that reach the log.
#[derive(Debug, Clone)]
pub enum Command {
    Get { key: String },
    Put { key: String, value: String },
    Rm { key: String },
    Version,
}

/// The mathematical form of a log record.
pub ghost enum Rec {
    Put { key: Seq<char>, value: Seq<char> },
    Rm { key: Seq<char> },
}

/// Width of the fixed decimal length fields in an encoded record.  Any
/// `u64` value fits in this many digits.
pub const LEN_WIDTH: usize = 20;

/// The digit character for `d` (0 to 9).
pub open spec fn digit_char(d: int) -> char {
    if d == 0 { '0' }
    else if d == 1 { '1' }
    else if d == 2 { '2' }
    else if d == 3 { '3' }
    else if d == 4 { '4' }
    else if d == 5 { '5' }
    else if d == 6 { '6' }
    else if d == 7 { '7' }
    else if d == 8 { '8' }
    else { '9' }
}

/// The value of a digit character, or -1 for any other character.
pub open spec fn digit_val(c: char) -> int {
    if c == '0' { 0 }
    else if c == '1' { 1 }
    else if c == '2' { 2 }
    else if c == '3' { 3 }
    else if c == '4' { 4 }
    else if c == '5' { 5 }
    else if c == '6' { 6 }
    else if c == '7' { 7 }
    else if c == '8' { 8 }
    else if c == '9' { 9 }
    else { -1 }
}

pub open spec fn is_digit(c: char) -> bool {
    digit_val(c) >= 0
}

pub open spec fn all_digits(s: Seq<char>) -> bool {
    forall|i: int| 0 <= i < s.len() ==> is_digit(#[trigger] s[i])
}

pub open spec fn pow10(e: nat) -> nat
    decreases e,
{
    if e == 0 { 1 } else { 10 * pow10((e - 1) as nat) }
}

/// `n` in decimal, padded with leading zeros to exactly `w` digits
/// (truncated to its `w` low digits if it does not fit).
pub open spec fn dec_rec(n: nat, w: nat) -> Seq<char>
    decreases w,
{
    if w == 0 { Seq::empty() } else { dec_rec(n / 10, (w - 1) as nat).push(digit_char((n % 10) as int)) }
}

/// The numeric value of a digit string, most significant digit first.
pub open spec fn val_digits(s: Seq<char>) -> int
    decreases s.len(),
{
    if s.len() == 0 { 0 } else { val_digits(s.drop_last()) * 10 + digit_val(s.last()) }
}

pub proof fn lemma_pow10_pos(e: nat)
    ensures
        pow10(e) >= 1,
    decreases e,
{
    if e > 0 {
        lemma_pow10_pos((e - 1) as nat);
    }
}

/// Every `u64` has fewer than `LEN_WIDTH` + 1 decimal digits.
pub proof fn lemma_u64_fits_width()
    ensures
        pow10(20) > u64::MAX,
        pow10(20) == 100000000000000000000,
{
    reveal_with_fuel(pow10, 21);
}

pub proof fn lemma_dec_rec_shape(n: nat, w: nat)
    ensures
        dec_rec(n, w).len() == w,
        all_digits(dec_rec(n, w)),
    decreases w,
{
    if w > 0 {
        lemma_dec_rec_shape(n / 10, (w - 1) as nat);
        let s = dec_rec(n, w);
        let front = dec_rec(n / 10, (w - 1) as nat);
        assert forall|i: int| 0 <= i < s.len() implies is_digit(#[trigger] s[i]) by {
            if i < w - 1 {
                assert(s[i] == front[i]);
            } else {
                assert(s[i] == digit_char((n % 10) as int));
            }
        }
    }
}

/// Parsing the fixed-width rendering of `n` gives back `n`.
pub proof fn lemma_val_of_dec_rec(n: nat, w: nat)
    requires
        n < pow10(w),
    ensures
        val_digits(dec_rec(n, w)) == n,
    decreases w,
{
    if w == 0 {
    } else {
        assert(pow10(w) == 10 * pow10((w - 1) as nat));
        assert(n / 10 < pow10((w - 1) as nat)) by (nonlinear_arith)
            requires
                n < 10 * pow10((w - 1) as nat);
        lemma_val_of_dec_rec(n / 10, (w - 1) as nat);
        let s = dec_rec(n, w);
        let front = dec_rec(n / 10, (w - 1) as nat);
        assert(s.drop_last() =~= front);
        assert(s.last() == digit_char((n % 10) as int));
        assert(0 <= n % 10 < 10);
        assert(digit_val(digit_char((n % 10) as int)) == n % 10);
        assert(val_digits(s) == (n / 10) * 10 + n % 10);
    }
}

/// A digit string is the canonical rendering of its own value: rendering
/// `val_digits(s)` at width `s.len()` gives back `s`.
pub proof fn lemma_dec_rec_of_val(s: Seq<char>)
    requires
        all_digits(s),
    ensures
        0 <= val_digits(s) < pow10(s.len()),
        dec_rec(val_digits(s) as nat, s.len()) == s,
    decreases s.len(),
{
    if s.len() == 0 {
        assert(dec_rec(0, 0) =~= s);
    } else {
        let front = s.drop_last();
        assert(all_digits(front)) by {
            assert(forall|i: int| 0 <= i < front.len() ==> front[i] == s[i]);
        }
        lemma_dec_rec_of_val(front);
        let a = val_digits(front);
        let b = digit_val(s.last());
        assert(is_digit(s.last()));
        assert(0 <= b < 10);
        let v = val_digits(s);
        assert(v == a * 10 + b);
        assert(v / 10 == a && v % 10 == b) by (nonlinear_arith)
            requires
                v == a * 10 + b,
                0 <= b < 10,
                a >= 0;
        assert(pow10(s.len()) == 10 * pow10(front.len()));
        assert(v < pow10(s.len())) by (nonlinear_arith)
            requires
                v == a * 10 + b,
                b < 10,
                a < pow10(front.len()),
                pow10(s.len()) == 10 * pow10(front.len());
        let w = s.len();
        assert(dec_rec(v as nat, w) == dec_rec((v as nat) / 10, (w - 1) as nat).push(digit_char(((v as nat) % 10) as int)));
        assert(dec_rec((v as nat) / 10, (w - 1) as nat) == front);
        assert(digit_char(((v as nat) % 10) as int) == s.last());
        assert(front.push(s.last()) =~= s);
    }
}

/// `n` in ordinary decimal notation, no leading zeros.
pub open spec fn dec_str(n: nat) -> Seq<char>
    decreases n,
{
    if n < 10 {
        seq![digit_char(n as int)]
    } else {
        dec_str(n / 10).push(digit_char((n % 10) as int))
    }
}

/// Render `n` in ordinary decimal notation.
pub fn u64_to_string(n: u64) -> (s: String)
    ensures
        s@ == dec_str(n as nat),
        s@.len() >= 1,
{
    let mut digits: Vec<char> = Vec::new();
    let mut cur: u64 = n;
    proof {
        assert(dec_str(n as nat) + digits@.reverse() =~= dec_str(n as nat));
    }
    while cur >= 10
        invariant
            dec_str(n as nat) == dec_str(cur as nat) + digits@.reverse(),
        decreases cur,
    {
        let ghost old_digits = digits@;
        let c = digit_to_char(cur % 10);
        digits.push(c);
        proof {
            assert(digits@.reverse() =~= seq![c] + old_digits.reverse());
            assert(dec_str(cur as nat)
                == dec_str((cur as nat) / 10).push(digit_char(((cur as nat) % 10) as int)));
            assert(dec_str((cur as nat) / 10).push(c) + old_digits.reverse()
                =~= dec_str((cur as nat) / 10) + (seq![c] + old_digits.reverse()));
        }
        cur = cur / 10;
    }
    let ghost old_digits = digits@;
    let c = digit_to_char(cur);
    digits.push(c);
    proof {
        assert(digits@.reverse() =~= seq![c] + old_digits.reverse());
        assert(dec_str(cur as nat) =~= seq![c]);
        assert(seq![c] + old_digits.reverse() =~= digits@.reverse());
        assert(dec_str(n as nat) == digits@.reverse());
    }
    let dl = digits.len();
    let mut s = String::new();
    let mut j: usize = 0;
    while j < dl
        invariant
            j <= dl,
            dl == digits@.len(),
            dec_str(n as nat) == digits@.reverse(),
            s@ =~= dec_str(n as nat).subrange(0, j as int),
        decreases dl - j,
    {
        let c2 = digits[dl - 1 - j];
        push_char(&mut s, c2);
        proof {
            assert(digits@.reverse()[j as int] == digits@[dl - 1 - j as int]);
            assert(s@ =~= dec_str(n as nat).subrange(0, j + 1));
        }
        j = j + 1;
    }
    proof {
        assert(dec_str(n as nat).subrange(0, dl as int) =~= dec_str(n as nat));
    }
    s
}

/// The encoded form of a `Put` record.
pub open spec fn encode_put(k: Seq<char>, v: Seq<char>) -> Seq<char> {
    seq!['S'] + dec_rec(k.len(), 20) + dec_rec(v.len(), 20) + k + v
}

/// The encoded form of a `Rm` record.
pub open spec fn encode_rm(k: Seq<char>) -> Seq<char> {
    seq!['R'] + dec_rec(k.len(), 20) + k
}

pub open spec fn rec_encode(r: Rec) -> Seq<char> {
    match r {
        Rec::Put { key, value } => encode_put(key, value),
        Rec::Rm { key } => encode_rm(key),
    }
}

/// Parse one record at character offset `i` of `s`; on success, the record
/// and the offset one past its end.
pub open spec fn parse_rec_at(s: Seq<char>, i: int) -> Option<(Rec, int)> {
    if 0 <= i < s.len() {
        if s[i] == 'S' {
            if i + 41 <= s.len() {
                let kd = s.subrange(i + 1, i + 21);
                let vd = s.subrange(i + 21, i + 41);
                if all_digits(kd) && all_digits(vd) {
                    let klen = val_digits(kd);
                    let vlen = val_digits(vd);
                    let end = i + 41 + klen + vlen;
                    if end <= s.len() {
                        Some((Rec::Put {
                            key: s.subrange(i + 41, i + 41 + klen),
                            value: s.subrange(i + 41 + klen, end),
                        }, end))
                    } else {
                        None
                    }
                } else {
                    None
                }
            } else {
                None
            }
        } else if s[i] == 'R' {
            if i + 21 <= s.len() {
                let kd = s.subrange(i + 1, i + 21);
                if all_digits(kd) {
                    let klen = val_digits(kd);
                    let end = i + 21 + klen;
                    if end <= s.len() {
                        Some((Rec::Rm { key: s.subrange(i + 21, end) }, end))
                    } else {
                        None
                    }
                } else {
                    None
                }
            } else {
                None
            }
        } else {
            None
        }
    } else {
        None
    }
}

/// A record whose key and value lengths fit the fixed-width length
/// fields.  Every record built from in-memory strings satisfies this,
/// because a string's length fits in a machine word.
pub open spec fn rec_valid(r: Rec) -> bool {
    match r {
        Rec::Put { key, value } => key.len() < pow10(20) && value.len() < pow10(20),
        Rec::Rm { key } => key.len() < pow10(20),
    }
}

/// In any context, parsing at the start of an encoded record yields that
/// record and consumes exactly its encoding.
pub proof fn lemma_parse_encode(pre: Seq<char>, r: Rec, suf: Seq<char>)
    requires
        rec_valid(r),
    ensures
        parse_rec_at(pre + rec_encode(r) + suf, pre.len() as int)
            == Some((r, pre.len() + rec_encode(r).len() as int)),
{
    let e = rec_encode(r);
    let s = pre + e + suf;
    let i = pre.len() as int;
    assert(forall|j: int| 0 <= j < e.len() ==> s[i + j] == e[j]);
    match r {
        Rec::Put { key, value } => {
            let kd = dec_rec(key.len(), 20);
            let vd = dec_rec(value.len(), 20);
            lemma_dec_rec_shape(key.len(), 20);
            lemma_dec_rec_shape(value.len(), 20);
            lemma_u64_fits_width();
            assert(e == seq!['S'] + kd + vd + key + value);
            assert(e.len() == 41 + key.len() + value.len());
            assert(s[i] == e[0]);
            assert(e[0] == 'S');
            assert(s.subrange(i + 1, i + 21) =~= kd);
            assert(s.subrange(i + 21, i + 41) =~= vd);
            lemma_val_of_dec_rec(key.len(), 20);
            lemma_val_of_dec_rec(value.len(), 20);
            assert(s.subrange(i + 41, i + 41 + key.len()) =~= key);
            assert(s.subrange(i + 41 + key.len(), i + 41 + key.len() + value.len()) =~= value);
            assert(parse_rec_at(s, i) == Some((r, i + e.len())));
        }
        Rec::Rm { key } => {
            let kd = dec_rec(key.len(), 20);
            lemma_dec_rec_shape(key.len(), 20);
            assert(e == seq!['R'] + kd + key);
            assert(e.len() == 21 + key.len());
            assert(s[i] == e[0]);
            assert(e[0] == 'R');
            assert(s.subrange(i + 1, i + 21) =~= kd);
            lemma_val_of_dec_rec(key.len(), 20);
            assert(s.subrange(i + 21, i + 21 + key.len()) =~= key);
            assert(parse_rec_at(s, i) == Some((r, i + e.len())));
        }
    }
}

/// A successful parse consumed exactly the canonical encoding of the
/// record it returned.
pub proof fn lemma_parse_canonical(s: Seq<char>, i: int, r: Rec, j: int)
    requires
        parse_rec_at(s, i) == Some((r, j)),
    ensures
        i < j <= s.len(),
        j - i == rec_encode(r).len(),
        s.subrange(i, j) == rec_encode(r),
        rec_valid(r),
{
    if s[i] == 'S' {
        let kd = s.subrange(i + 1, i + 21);
        let vd = s.subrange(i + 21, i + 41);
        lemma_dec_rec_of_val(kd);
        lemma_dec_rec_of_val(vd);
        let klen = val_digits(kd);
        let vlen = val_digits(vd);
        let key = s.subrange(i + 41, i + 41 + klen);
        let value = s.subrange(i + 41 + klen, j);
        assert(dec_rec(key.len(), 20) == kd);
        assert(dec_rec(value.len(), 20) == vd);
        assert(s.subrange(i, j) =~= seq!['S'] + kd + vd + key + value);
    } else {
        let kd = s.subrange(i + 1, i + 21);
        lemma_dec_rec_of_val(kd);
        let klen = val_digits(kd);
        let key = s.subrange(i + 21, j);
        assert(dec_rec(key.len(), 20) == kd);
        assert(s.subrange(i, j) =~= seq!['R'] + kd + key);
    }
}

/// A successful parse is unaffected by appending characters after the end
/// of the stream.
pub proof fn lemma_parse_stable(s: Seq<char>, t: Seq<char>, i: int, r: Rec, j: int)
    requires
        parse_rec_at(s, i) == Some((r, j)),
    ensures
        parse_rec_at(s + t, i) == Some((r, j)),
{
    lemma_parse_canonical(s, i, r, j);
    let s2 = s + t;
    assert(s2[i] == s[i]);
    if s[i] == 'S' {
        assert(s2.subrange(i + 1, i + 21) =~= s.subrange(i + 1, i + 21));
        assert(s2.subrange(i + 21, i + 41) =~= s.subrange(i + 21, i + 41));
        let kd = s.subrange(i + 1, i + 21);
        let vd = s.subrange(i + 21, i + 41);
        lemma_dec_rec_of_val(kd);
        lemma_dec_rec_of_val(vd);
        let klen = val_digits(kd);
        let vlen = val_digits(vd);
        assert(s2.subrange(i + 41, i + 41 + klen) =~= s.subrange(i + 41, i + 41 + klen));
        assert(s2.subrange(i + 41 + klen, i + 41 + klen + vlen)
            =~= s.subrange(i + 41 + klen, i + 41 + klen + vlen));
    } else {
        assert(s2.subrange(i + 1, i + 21) =~= s.subrange(i + 1, i + 21));
        let kd = s.subrange(i + 1, i + 21);
        lemma_dec_rec_of_val(kd);
        let klen = val_digits(kd);
        assert(s2.subrange(i + 21, i + 21 + klen) =~= s.subrange(i + 21, i + 21 + klen));
    }
}

/// Parse a whole record stream starting at offset `i`: the records in
/// order, or nothing if the tail is not a sequence of well-formed records.
pub open spec fn parse_stream(s: Seq<char>, i: int) -> Option<Seq<Rec>>
    decreases s.len() - i,
{
    if i == s.len() {
        Some(Seq::empty())
    } else {
        match parse_rec_at(s, i) {
            None => None,
            Some((r, j)) => {
                if i < j <= s.len() {
                    match parse_stream(s, j) {
                        None => None,
                        Some(rest) => Some(seq![r] + rest),
                    }
                } else {
                    None
                }
            }
        }
    }
}

/// A valid stream is a concatenation of well-formed records.
pub open spec fn valid_stream(s: Seq<char>) -> bool {
    parse_stream(s, 0).is_some()
}

/// The records a valid stream holds, in order.
pub open spec fn records_of(s: Seq<char>) -> Seq<Rec> {
    match parse_stream(s, 0) {
        Some(rs) => rs,
        None => Seq::empty(),
    }
}

proof fn lemma_stream_snoc_at(s: Seq<char>, r: Rec, i: int)
    requires
        rec_valid(r),
        0 <= i <= s.len(),
        parse_stream(s, i).is_some(),
    ensures
        parse_stream(s + rec_encode(r), i)
            == Some(parse_stream(s, i).unwrap().push(r)),
    decreases s.len() - i,
{
    let e = rec_encode(r);
    let s2 = s + e;
    if i == s.len() {
        lemma_parse_encode(s, r, Seq::empty());
        assert(s + e + Seq::empty() =~= s2);
        assert(parse_rec_at(s2, i) == Some((r, i + e.len())));
        assert(i + e.len() == s2.len());
        assert(parse_stream(s2, s2.len() as int) == Some(Seq::<Rec>::empty()));
        assert(e.len() > 0) by {
            match r {
                Rec::Put { key, value } => { lemma_dec_rec_shape(key.len(), 20); lemma_dec_rec_shape(value.len(), 20); }
                Rec::Rm { key } => { lemma_dec_rec_shape(key.len(), 20); }
            }
        }
        assert(i < s2.len());
        assert(parse_stream(s2, i) == Some(seq![r]));
        assert(seq![r] =~= parse_stream(s, i).unwrap().push(r));
    } else {
        let (r0, j) = parse_rec_at(s, i).unwrap();
        lemma_parse_stable(s, e, i, r0, j);
        lemma_stream_snoc_at(s, r, j);
        let rest = parse_stream(s, j).unwrap();
        assert(parse_stream(s2, i) == Some(seq![r0] + rest.push(r)));
        assert(seq![r0] + rest.push(r) =~= (seq![r0] + rest).push(r));
    }
}

/// Appending one encoded record to a valid stream appends that record to
/// the stream's record sequence.
pub proof fn lemma_stream_snoc(s: Seq<char>, r: Rec)
    requires
        rec_valid(r),
        valid_stream(s),
    ensures
        valid_stream(s + rec_encode(r)),
        records_of(s + rec_encode(r)) == records_of(s).push(r),
{
    lemma_stream_snoc_at(s, r, 0);
}

/// The records' encodings, one after the other.
pub open spec fn encode_all(rs: Seq<Rec>) -> Seq<char>
    decreases rs.len(),
{
    if rs.len() == 0 {
        Seq::empty()
    } else {
        rec_encode(rs[0]) + encode_all(rs.drop_first())
    }
}

proof fn lemma_stream_canonical_at(s: Seq<char>, i: int)
    requires
        0 <= i <= s.len(),
        parse_stream(s, i).is_some(),
    ensures
        s.subrange(i, s.len() as int) == encode_all(parse_stream(s, i).unwrap()),
    decreases s.len() - i,
{
    if i == s.len() {
        assert(s.subrange(i, s.len() as int) =~= Seq::<char>::empty());
    } else {
        let (r, j) = parse_rec_at(s, i).unwrap();
        lemma_parse_canonical(s, i, r, j);
        lemma_stream_canonical_at(s, j);
        let rs = parse_stream(s, i).unwrap();
        assert(rs[0] == r);
        assert(rs.drop_first() =~= parse_stream(s, j).unwrap());
        assert(s.subrange(i, s.len() as int)
            =~= s.subrange(i, j) + s.subrange(j, s.len() as int));
    }
}

/// A valid stream is exactly the concatenation of its records' canonical
/// encodings: records sit back to back from offset zero, nothing between
/// them.
pub proof fn lemma_stream_canonical(s: Seq<char>)
    requires
        valid_stream(s),
    ensures
        s == encode_all(records_of(s)),
{
    lemma_stream_canonical_at(s, 0);
    assert(s.subrange(0, s.len() as int) =~= s);
}

/// The empty stream is valid and holds no records.
pub proof fn lemma_stream_empty(s: Seq<char>)
    requires
        s.len() == 0,
    ensures
        valid_stream(s),
        records_of(s) == Seq::<Rec>::empty(),
{
    assert(s.len() == 0);
    assert(parse_stream(s, 0) == Some(Seq::<Rec>::empty()));
}

/// Relies on String::push: appends one character to the string.
#[verifier::external_body]
pub fn push_char(s: &mut String, c: char)
    ensures
        final(s)@ == old(s)@.push(c),
{
    s.push(c)
}

/// Whether a command is one of the two kinds that the log stores.
pub open spec fn is_log_cmd(cmd: &Command) -> bool {
    match cmd {
        Command::Put { .. } => true,
        Command::Rm { .. } => true,
        _ => false,
    }
}

/// The record a loggable command stands for.
pub open spec fn cmd_rec(cmd: &Command) -> Rec {
    match cmd {
        Command::Put { key, value } => Rec::Put { key: key@, value: value@ },
        Command::Rm { key } => Rec::Rm { key: key@ },
        Command::Get { key } => Rec::Rm { key: key@ },
        Command::Version => Rec::Rm { key: Seq::empty() },
    }
}

fn digit_to_char(d: u64) -> (c: char)
    requires
        d < 10,
    ensures
        c == digit_char(d as int),
{
    if d == 0 { '0' }
    else if d == 1 { '1' }
    else if d == 2 { '2' }
    else if d == 3 { '3' }
    else if d == 4 { '4' }
    else if d == 5 { '5' }
    else if d == 6 { '6' }
    else if d == 7 { '7' }
    else if d == 8 { '8' }
    else { '9' }
}

pub fn char_digit_pub(c: char) -> (r: Option<u64>)
    ensures
        match r {
            Some(d) => d < 10 && digit_val(c) == d as int,
            None => !is_digit(c),
        },
{
    char_digit(c)
}

fn char_digit(c: char) -> (r: Option<u64>)
    ensures
        match r {
            Some(d) => d < 10 && digit_val(c) == d as int,
            None => !is_digit(c),
        },
{
    if c == '0' { Some(0) }
    else if c == '1' { Some(1) }
    else if c == '2' { Some(2) }
    else if c == '3' { Some(3) }
    else if c == '4' { Some(4) }
    else if c == '5' { Some(5) }
    else if c == '6' { Some(6) }
    else if c == '7' { Some(7) }
    else if c == '8' { Some(8) }
    else if c == '9' { Some(9) }
    else { None }
}

/// Render `n` as exactly `LEN_WIDTH` decimal digits with leading zeros.
pub fn u64_to_dec20(n: u64) -> (s: String)
    ensures
        s@ == dec_rec(n as nat, 20),
        s@.len() == 20,
{
    let mut digits: Vec<char> = Vec::new();
    let mut cur: u64 = n;
    let mut k: usize = 0;
    proof {
        assert(digits@.reverse() =~= Seq::<char>::empty());
        assert(dec_rec(n as nat, 20) + digits@.reverse() =~= dec_rec(n as nat, 20));
    }
    while k < 20
        invariant
            k <= 20,
            digits@.len() == k,
            dec_rec(n as nat, 20) == dec_rec(cur as nat, (20 - k) as nat) + digits@.reverse(),
        decreases 20 - k,
    {
        let ghost old_digits = digits@;
        let ghost w = (20 - k) as nat;
        let d = cur % 10;
        let c = digit_to_char(d);
        digits.push(c);
        proof {
            assert(digits@.reverse() =~= seq![c] + old_digits.reverse());
            assert(dec_rec(cur as nat, w)
                == dec_rec((cur as nat) / 10, (w - 1) as nat).push(digit_char(((cur as nat) % 10) as int)));
            assert(dec_rec((cur as nat) / 10, (w - 1) as nat).push(c) + old_digits.reverse()
                =~= dec_rec((cur as nat) / 10, (w - 1) as nat) + (seq![c] + old_digits.reverse()));
        }
        cur = cur / 10;
        k = k + 1;
    }
    proof {
        assert(dec_rec(cur as nat, 0) + digits@.reverse() =~= digits@.reverse());
    }
    let mut s = String::new();
    let mut j: usize = 0;
    while j < 20
        invariant
            j <= 20,
            digits@.len() == 20,
            dec_rec(n as nat, 20) == digits@.reverse(),
            s@ =~= dec_rec(n as nat, 20).subrange(0, j as int),
        decreases 20 - j,
    {
        let c = digits[19 - j];
        push_char(&mut s, c);
        proof {
            assert(digits@.reverse()[j as int] == digits@[19 - j as int]);
            assert(s@ =~= dec_rec(n as nat, 20).subrange(0, j + 1));
        }
        j = j + 1;
    }
    proof {
        lemma_dec_rec_shape(n as nat, 20);
        assert(dec_rec(n as nat, 20).subrange(0, 20) =~= dec_rec(n as nat, 20));
    }
    s
}

/// Encode one loggable command into its record frame.
pub fn encode_record(cmd: &Command) -> (s: String)
    requires
        is_log_cmd(cmd),
    ensures
        s@ == rec_encode(cmd_rec(cmd)),
        rec_valid(cmd_rec(cmd)),
{
    proof {
        lemma_u64_fits_width();
    }
    match cmd {
        Command::Put { key, value } => {
            let mut out = String::new();
            push_char(&mut out, 'S');
            let klen = key.as_str().unicode_len();
            let vlen = value.as_str().unicode_len();
            let kd = u64_to_dec20(klen as u64);
            let vd = u64_to_dec20(vlen as u64);
            out.append(kd.as_str());
            out.append(vd.as_str());
            out.append(key.as_str());
            out.append(value.as_str());
            proof {
                assert(out@ =~= encode_put(key@, value@));
            }
            out
        }
        Command::Rm { key } => {
            let mut out = String::new();
            push_char(&mut out, 'R');
            let klen = key.as_str().unicode_len();
            let kd = u64_to_dec20(klen as u64);
            out.append(kd.as_str());
            out.append(key.as_str());
            proof {
                assert(out@ =~= encode_rm(key@));
            }
            out
        }
        _ => {
            // unreachable under the precondition
            proof {
                assert(false);
            }
            String::new()
        }
    }
}

/// Read the fixed-width length field that starts at character `at`.
fn read_len20(data: &str, at: usize) -> (r: Option<u128>)
    requires
        at + 20 <= data@.len(),
        data@.len() <= usize::MAX,
    ensures
        match r {
            Some(v) => all_digits(data@.subrange(at as int, at + 20))
                && val_digits(data@.subrange(at as int, at + 20)) == v as int
                && v < pow10(20),
            None => !all_digits(data@.subrange(at as int, at + 20)),
        },
{
    proof {
        lemma_u64_fits_width();
    }
    let mut acc: u128 = 0;
    let mut j: usize = 0;
    proof {
        assert(data@.subrange(at as int, at as int) =~= Seq::<char>::empty());
    }
    while j < 20
        invariant
            j <= 20,
            at + 20 <= data@.len() <= usize::MAX,
            all_digits(data@.subrange(at as int, at + j)),
            acc as int == val_digits(data@.subrange(at as int, at + j)),
            acc < pow10(j as nat),
            pow10(20) == 100000000000000000000,
        decreases 20 - j,
    {
        let c = data.get_char(at + j);
        let ghost prefix = data@.subrange(at as int, at + j);
        match char_digit(c) {
            None => {
                proof {
                    let whole = data@.subrange(at as int, at + 20);
                    assert(whole[j as int] == data@[at + j]);
                    assert(!is_digit(whole[j as int]));
                }
                return None;
            }
            Some(d) => {
                proof {
                    assert(pow10((j + 1) as nat) == 10 * pow10(j as nat));
                    lemma_pow10_le(j as nat, 20);
                    assert(acc * 10 + d < 10 * pow10(j as nat)) by (nonlinear_arith)
                        requires
                            acc < pow10(j as nat),
                            d < 10;
                    assert(10 * pow10(j as nat) <= 10 * pow10(20)) by (nonlinear_arith)
                        requires
                            pow10(j as nat) <= pow10(20);
                    let next = data@.subrange(at as int, at + j + 1);
                    assert(next.drop_last() =~= prefix);
                    assert(next.last() == data@[at + j]);
                    assert forall|i: int| 0 <= i < next.len() implies is_digit(#[trigger] next[i]) by {
                        if i < j {
                            assert(next[i] == prefix[i]);
                        }
                    }
                }
                acc = acc * 10 + (d as u128);
                j = j + 1;
            }
        }
    }
    proof {
        lemma_pow10_le(20, 20);
    }
    Some(acc)
}

proof fn lemma_pow10_le(a: nat, b: nat)
    requires
        a <= b,
    ensures
        pow10(a) <= pow10(b),
    decreases b,
{
    if a < b {
        lemma_pow10_le(a, (b - 1) as nat);
        lemma_pow10_pos((b - 1) as nat);
    }
}

/// Decode the record that starts at character `start` of `data`, returning
/// the command and the offset one past the record's end; or nothing, if no
/// well-formed record starts there.
pub fn decode_at(data: &str, start: usize) -> (r: Option<(Command, usize)>)
    ensures
        match r {
            Some(p) => is_log_cmd(&p.0)
                && parse_rec_at(data@, start as int) == Some((cmd_rec(&p.0), p.1 as int)),
            None => parse_rec_at(data@, start as int).is_none(),
        },
{
    proof {
        lemma_u64_fits_width();
    }
    let nl = data.unicode_len();
    if start >= nl {
        return None;
    }
    let tag = data.get_char(start);
    if tag == 'S' {
        if nl - start < 41 {
            return None;
        }
        let klen128 = match read_len20(data, start + 1) {
            None => { return None; }
            Some(v) => v,
        };
        let vlen128 = match read_len20(data, start + 21) {
            None => { return None; }
            Some(v) => v,
        };
        let room = (nl - start - 41) as u128;
        if klen128 > room || vlen128 > room - klen128 {
            return None;
        }
        let klen = klen128 as usize;
        let vlen = vlen128 as usize;
        let key = data.substring_char(start + 41, start + 41 + klen).to_owned();
        let value = data.substring_char(start + 41 + klen, start + 41 + klen + vlen).to_owned();
        let end = start + 41 + klen + vlen;
        Some((Command::Put { key, value }, end))
    } else if tag == 'R' {
        if nl - start < 21 {
            return None;
        }
        let klen128 = match read_len20(data, start + 1) {
            None => { return None; }
            Some(v) => v,
        };
        let room = (nl - start - 21) as u128;
        if klen128 > room {
            return None;
        }
        let klen = klen128 as usize;
        let key = data.substring_char(start + 21, start + 21 + klen).to_owned();
        let end = start + 21 + klen;
        Some((Command::Rm { key }, end))
    } else {
        None
    }
}

} // verus!
