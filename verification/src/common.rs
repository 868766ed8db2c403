//! Shared protocol pieces: the parsed command set, the RESP data tree the
//! wire parser produces, and the framing of space-separated command lines.

use vstd::prelude::*;
use crate::codec::{dec_str, u64_to_string, push_char};

verus! {

/// A fully parsed client command.
pub enum KvsCommand {
    Ping,
    Put(String, String),
    Get(String),
    Rm(String),
    Version,
}

/// The mathematical form of a command.
pub ghost enum CmdV {
    Ping,
    Put(Seq<char>, Seq<char>),
    Get(Seq<char>),
    Rm(Seq<char>),
    Version,
}

pub open spec fn cmd_view(cmd: &KvsCommand) -> CmdV {
    match cmd {
        KvsCommand::Ping => CmdV::Ping,
        KvsCommand::Put(k, v) => CmdV::Put(k@, v@),
        KvsCommand::Get(k) => CmdV::Get(k@),
        KvsCommand::Rm(k) => CmdV::Rm(k@),
        KvsCommand::Version => CmdV::Version,
    }
}

/// One RESP value as it arrives from the wire.
#[derive(Debug, PartialEq)]
pub enum RespData {
    SimpleString(String),
    Error(String),
    BulkString(String),
    BulkStringNull,
    Array(Vec<RespData>),
}

/// A whole space-separated command line, to be framed as a RESP array of
/// bulk strings.
pub struct RespMessage {
    pub raw_string: String,
}

pub open spec fn crlf() -> Seq<char> {
    seq!['\r', '\n']
}

/// Index of the first space, or the length if there is none.
pub open spec fn first_sp(s: Seq<char>) -> int
    decreases s.len(),
{
    if s.len() == 0 {
        0
    } else if s[0] == ' ' {
        0
    } else {
        1 + first_sp(s.drop_first())
    }
}

/// The first space really is where the scan says, so splitting peels off
/// exactly the scanned word.
pub proof fn lemma_first_sp_at(s: Seq<char>, i: int)
    requires
        0 <= i <= s.len(),
        forall|j: int| 0 <= j < i ==> s[j] != ' ',
        i < s.len() ==> s[i] == ' ',
        i == s.len() || s[i] == ' ',
    ensures
        first_sp(s) == if i < s.len() { i } else { s.len() as int },
    decreases s.len(),
{
    if s.len() > 0 && s[0] != ' ' {
        let t = s.drop_first();
        lemma_first_sp_at(t, i - 1);
        assert(forall|j: int| 0 <= j < i - 1 ==> t[j] == s[j + 1]);
        if i < s.len() {
            assert(t[i - 1] == s[i]);
        }
    }
}

/// The words of `s`, split at every single space.
pub open spec fn split_sp(s: Seq<char>) -> Seq<Seq<char>>
    decreases s.len(),
{
    let i = first_sp(s);
    if 0 <= i < s.len() {
        seq![s.subrange(0, i)] + split_sp(s.subrange(i + 1, s.len() as int))
    } else {
        seq![s]
    }
}

/// One word framed as a RESP bulk string.
pub open spec fn word_frame(w: Seq<char>) -> Seq<char> {
    seq!['$'] + dec_str(w.len()) + crlf() + w + crlf()
}

/// All words framed, in order.
pub open spec fn words_frames(ws: Seq<Seq<char>>) -> Seq<char>
    decreases ws.len(),
{
    if ws.len() == 0 {
        Seq::empty()
    } else {
        word_frame(ws[0]) + words_frames(ws.drop_first())
    }
}

pub proof fn lemma_words_frames_snoc(ws: Seq<Seq<char>>, w: Seq<char>)
    ensures
        words_frames(ws.push(w)) == words_frames(ws) + word_frame(w),
    decreases ws.len(),
{
    if ws.len() == 0 {
        reveal_with_fuel(words_frames, 3);
        assert(ws.push(w)[0] == w);
        assert(ws.push(w).drop_first() =~= Seq::<Seq<char>>::empty());
        assert(words_frames(ws.push(w)) =~= word_frame(w) + Seq::empty());
        assert(word_frame(w) + Seq::<char>::empty() =~= word_frame(w));
        assert(words_frames(ws) + word_frame(w) =~= word_frame(w));
    } else {
        assert(ws.push(w)[0] == ws[0]);
        assert(ws.push(w).drop_first() =~= ws.drop_first().push(w));
        lemma_words_frames_snoc(ws.drop_first(), w);
        assert(word_frame(ws[0]) + (words_frames(ws.drop_first()) + word_frame(w))
            =~= (word_frame(ws[0]) + words_frames(ws.drop_first())) + word_frame(w));
    }
}

/// What `build_reply` produces: a RESP array header with the word count,
/// then every word as a bulk string.
pub open spec fn build_reply_spec(s: Seq<char>) -> Seq<char> {
    seq!['*'] + dec_str(split_sp(s).len()) + crlf() + words_frames(split_sp(s))
}

/// Index of the first colon, or the length if there is none.
pub open spec fn first_colon(s: Seq<char>) -> int
    decreases s.len(),
{
    if s.len() == 0 {
        0
    } else if s[0] == ':' {
        0
    } else {
        1 + first_colon(s.drop_first())
    }
}

pub proof fn lemma_first_colon_at(s: Seq<char>, i: int)
    requires
        0 <= i <= s.len(),
        forall|j: int| 0 <= j < i ==> s[j] != ':',
        i < s.len() ==> s[i] == ':',
    ensures
        first_colon(s) == if i < s.len() { i } else { s.len() as int },
    decreases s.len(),
{
    if s.len() > 0 && s[0] != ':' {
        let t = s.drop_first();
        lemma_first_colon_at(t, i - 1);
        assert(forall|j: int| 0 <= j < i - 1 ==> t[j] == s[j + 1]);
        if i < s.len() {
            assert(t[i - 1] == s[i]);
        }
    }
}

/// A usable listening address: one colon, with a numeric port after it
/// that fits a `u32`.
pub open spec fn addr_ok(s: Seq<char>) -> bool {
    &&& first_colon(s) < s.len()
    &&& forall|j: int| first_colon(s) < j < s.len() ==> s[j] != ':'
    &&& first_colon(s) + 1 < s.len()
    &&& crate::codec::all_digits(s.subrange(first_colon(s) + 1, s.len() as int))
    &&& crate::codec::val_digits(s.subrange(first_colon(s) + 1, s.len() as int)) <= u32::MAX
}

/// The address `parse_address` hands back: the host part, a colon, and
/// the port in plain decimal.
pub open spec fn addr_normal(s: Seq<char>) -> Seq<char> {
    s.subrange(0, first_colon(s)) + seq![':']
        + dec_str(crate::codec::val_digits(s.subrange(first_colon(s) + 1, s.len() as int)) as nat)
}

/// Check a `host:port` address and normalise its port.
#[verifier::loop_isolation(false)]
pub fn parse_address(address: String) -> (r: Result<String, crate::KvsError>)
    ensures
        match r {
            Ok(out) => addr_ok(address@) && out@ == addr_normal(address@),
            Err(_) => !addr_ok(address@),
        },
{
    let ghost s = address@;
    let a = address.as_str();
    let n = a.unicode_len();
    let mut i: usize = 0;
    let mut firstpos: usize = n;
    let mut secpos: usize = n;
    while i < n
        invariant
            i <= n,
            n == s.len(),
            a@ == s,
            firstpos <= n,
            secpos <= n,
            firstpos == n ==> secpos == n && (forall|j: int| 0 <= j < i ==> s[j] != ':'),
            firstpos < n ==> firstpos < i && s[firstpos as int] == ':'
                && (forall|j: int| 0 <= j < firstpos ==> s[j] != ':'),
            firstpos < n && secpos == n
                ==> forall|j: int| firstpos < j < i ==> s[j] != ':',
            secpos < n ==> firstpos < secpos < i && s[secpos as int] == ':',
        decreases n - i,
    {
        if a.get_char(i) == ':' {
            if firstpos == n {
                firstpos = i;
            } else if secpos == n {
                secpos = i;
            }
        }
        i = i + 1;
    }
    if firstpos == n {
        proof {
            lemma_first_colon_at(s, n as int);
        }
        return Err(crate::KvsError::Message(String::from_str("Invalid address attribute")));
    }
    proof {
        lemma_first_colon_at(s, firstpos as int);
        assert(first_colon(s) == firstpos);
    }
    if secpos < n {
        return Err(crate::KvsError::Message(String::from_str("Invalid address attribute")));
    }
    if firstpos + 1 >= n {
        return Err(crate::KvsError::Message(String::from_str("Invalid address attribute")));
    }
    let ghost digits = s.subrange(firstpos + 1, s.len() as int);
    let mut acc: u64 = 0;
    let mut j: usize = firstpos + 1;
    proof {
        assert(crate::codec::val_digits(digits.subrange(0, 0)) == 0);
    }
    while j < n
        invariant
            firstpos + 1 <= j <= n,
            acc as int == crate::codec::val_digits(digits.subrange(0, j - firstpos - 1)),
            acc <= u32::MAX,
            forall|q: int| 0 <= q < j - firstpos - 1 ==> crate::codec::is_digit(#[trigger] digits[q]),
        decreases n - j,
    {
        let c = a.get_char(j);
        proof {
            assert(c == digits[j - firstpos - 1]);
        }
        let d = match crate::codec::char_digit_pub(c) {
            Some(d) => d,
            None => {
                proof {
                    assert(!crate::codec::all_digits(digits));
                }
                return Err(crate::KvsError::Message(String::from_str("Invalid address attribute")));
            }
        };
        proof {
            let u = digits.subrange(0, j - firstpos - 1);
            let w = digits.subrange(0, j - firstpos);
            assert(w.drop_last() =~= u);
            assert(w.last() == digits[j - firstpos - 1]);
        }
        acc = acc * 10 + d;
        if acc > u32::MAX as u64 {
            proof {
                if crate::codec::all_digits(digits) {
                    crate::resp::de::lemma_val_monotone(digits, 0, j - firstpos, digits.len() as int);
                    assert(digits.subrange(0, digits.len() as int) =~= digits);
                }
            }
            return Err(crate::KvsError::Message(String::from_str("Invalid address attribute")));
        }
        j = j + 1;
    }
    proof {
        assert(digits.subrange(0, digits.len() as int) =~= digits);
        assert(crate::codec::all_digits(digits));
        assert(addr_ok(s));
    }
    let host = a.substring_char(0, firstpos);
    let mut out = String::from_str(host);
    push_char(&mut out, ':');
    let portstr = u64_to_string(acc);
    out.append(portstr.as_str());
    proof {
        assert(out@ =~= addr_normal(s));
    }
    Ok(out)
}

/// ASCII uppercase: the lowercase letters shifted, everything else kept.
pub open spec fn upper_char(c: char) -> char {
    if 'a' <= c && c <= 'z' {
        (((c as u32) - 32) as u8) as char
    } else {
        c
    }
}

pub open spec fn upper_seq(s: Seq<char>) -> Seq<char> {
    s.map_values(|c: char| upper_char(c))
}

/// The command word a RESP value can carry.
pub open spec fn word_of(d: RespData) -> Option<Seq<char>> {
    match d {
        RespData::BulkString(s) => Some(s@),
        RespData::SimpleString(s) => Some(s@),
        _ => None,
    }
}

/// The command that a head word and its argument values stand for.
pub open spec fn parse_cmd_parts(head: RespData, args: Seq<RespData>) -> Option<CmdV> {
    match word_of(head) {
        None => None,
        Some(w) => {
            let u = upper_seq(w);
            if u == seq!['P', 'I', 'N', 'G'] {
                if args.len() == 0 { Some(CmdV::Ping) } else { None }
            } else if u == seq!['S', 'E', 'T'] {
                if args.len() == 2 {
                    match (args[0], args[1]) {
                        (RespData::BulkString(k), RespData::BulkString(v)) => Some(CmdV::Put(k@, v@)),
                        _ => None,
                    }
                } else {
                    None
                }
            } else if u == seq!['G', 'E', 'T'] {
                if args.len() == 1 {
                    match args[0] {
                        RespData::BulkString(k) => Some(CmdV::Get(k@)),
                        _ => None,
                    }
                } else {
                    None
                }
            } else if u == seq!['R', 'M'] {
                if args.len() == 1 {
                    match args[0] {
                        RespData::BulkString(k) => Some(CmdV::Rm(k@)),
                        _ => None,
                    }
                } else {
                    None
                }
            } else if u == seq!['V', 'E', 'R', 'S', 'I', 'O', 'N'] {
                if args.len() == 0 { Some(CmdV::Version) } else { None }
            } else {
                None
            }
        }
    }
}

/// What a parsed RESP value means as a command: an array is a head word
/// and its arguments; anything else is a bare head word.  An empty array
/// means nothing.
pub open spec fn parse_command_spec(d: &RespData) -> Option<CmdV> {
    match d {
        RespData::Array(arr) => {
            if arr@.len() == 0 {
                None
            } else {
                parse_cmd_parts(arr@[0], arr@.skip(1))
            }
        }
        _ => parse_cmd_parts(*d, Seq::empty()),
    }
}

/// Uppercase the ASCII letters of a word.
fn ascii_upper(s: &str) -> (r: String)
    ensures
        r@ == upper_seq(s@),
{
    let n = s.unicode_len();
    let mut out = String::new();
    let mut i: usize = 0;
    proof {
        assert(out@ =~= upper_seq(s@).subrange(0, 0));
    }
    while i < n
        invariant
            i <= n,
            n == s@.len(),
            out@ =~= upper_seq(s@).subrange(0, i as int),
        decreases n - i,
    {
        let c = s.get_char(i);
        let cu = c as u32;
        let up: char = if 97 <= cu && cu <= 122 {
            ((cu - 32) as u8) as char
        } else {
            c
        };
        push_char(&mut out, up);
        proof {
            assert(upper_seq(s@)[i as int] == upper_char(s@[i as int]));
            assert(up == upper_char(c));
            assert(out@ =~= upper_seq(s@).subrange(0, i + 1));
        }
        i = i + 1;
    }
    proof {
        assert(upper_seq(s@).subrange(0, n as int) =~= upper_seq(s@));
    }
    out
}

/// Turn one parsed RESP value into a command, or nothing when it carries
/// no recognisable command.
pub fn parse_command(data: &RespData) -> (r: Option<KvsCommand>)
    ensures
        match r {
            Some(cmd) => parse_command_spec(data) == Some(cmd_view(&cmd)),
            None => parse_command_spec(data).is_none(),
        },
{
    let empty_args: Vec<RespData> = Vec::new();
    let (head, args, arg_base): (&RespData, &Vec<RespData>, usize) = match data {
        RespData::Array(arr) => {
            if arr.len() == 0 {
                return None;
            }
            (&arr[0], arr, 1)
        }
        _ => (data, &empty_args, 0),
    };
    let ghost argseq = args@.skip(arg_base as int);
    let word: &String = match head {
        RespData::BulkString(s) => s,
        RespData::SimpleString(s) => s,
        _ => {
            return None;
        }
    };
    let up = ascii_upper(word.as_str());
    let nargs = args.len() - arg_base;
    proof {
        assert(argseq.len() == nargs);
        reveal_strlit("PING");
        reveal_strlit("SET");
        reveal_strlit("GET");
        reveal_strlit("RM");
        reveal_strlit("VERSION");
        assert("PING"@ =~= seq!['P', 'I', 'N', 'G']);
        assert("SET"@ =~= seq!['S', 'E', 'T']);
        assert("GET"@ =~= seq!['G', 'E', 'T']);
        assert("RM"@ =~= seq!['R', 'M']);
        assert("VERSION"@ =~= seq!['V', 'E', 'R', 'S', 'I', 'O', 'N']);
    }
    let ping = String::from_str("PING");
    let set_w = String::from_str("SET");
    let get_w = String::from_str("GET");
    let rm_w = String::from_str("RM");
    let version_w = String::from_str("VERSION");
    if up == ping {
        if nargs == 0 { Some(KvsCommand::Ping) } else { None }
    } else if up == set_w {
        if nargs == 2 {
            proof {
                assert(argseq[0] == args@[arg_base as int]);
                assert(argseq[1] == args@[arg_base + 1]);
            }
            match (&args[arg_base], &args[arg_base + 1]) {
                (RespData::BulkString(k), RespData::BulkString(v)) => {
                    Some(KvsCommand::Put(k.clone(), v.clone()))
                }
                _ => None,
            }
        } else {
            None
        }
    } else if up == get_w {
        if nargs == 1 {
            proof {
                assert(argseq[0] == args@[arg_base as int]);
            }
            match &args[arg_base] {
                RespData::BulkString(k) => Some(KvsCommand::Get(k.clone())),
                _ => None,
            }
        } else {
            None
        }
    } else if up == rm_w {
        if nargs == 1 {
            proof {
                assert(argseq[0] == args@[arg_base as int]);
            }
            match &args[arg_base] {
                RespData::BulkString(k) => Some(KvsCommand::Rm(k.clone())),
                _ => None,
            }
        } else {
            None
        }
    } else if up == version_w {
        if nargs == 0 { Some(KvsCommand::Version) } else { None }
    } else {
        None
    }
}

impl RespMessage {
    pub fn new(raw_string: String) -> (m: Self)
        ensures
            m.raw_string == raw_string,
    {
        Self { raw_string }
    }

    /// Frame the space-separated words of the raw line as a RESP array of
    /// bulk strings.
    pub fn build_reply(&self) -> (reply: String)
        requires
            self.raw_string@.len() < u64::MAX,
        ensures
            reply@ == build_reply_spec(self.raw_string@),
    {
        let ghost full = self.raw_string@;
        let raw = self.raw_string.as_str();
        let rlen = raw.unicode_len();
        let mut frames = String::new();
        let mut count: u64 = 0;
        let mut pos: usize = 0;
        let ghost mut ws: Seq<Seq<char>> = Seq::empty();
        let mut done = false;
        proof {
            assert(full.subrange(0, rlen as int) =~= full);
            assert(words_frames(ws) =~= frames@);
        }
        while !done
            invariant
                rlen == full.len(),
                full == self.raw_string@,
                raw@ == full,
                full.len() < u64::MAX,
                pos <= rlen,
                count == ws.len(),
                !done ==> count <= pos,
                done ==> count <= pos + 1,
                frames@ == words_frames(ws),
                !done ==> split_sp(full) == ws + split_sp(full.subrange(pos as int, rlen as int)),
                done ==> split_sp(full) == ws,
            decreases rlen - pos + (if done { 0int } else { 1int }),
        {
            // scan the next word
            let mut j = pos;
            while j < rlen && raw.get_char(j) != ' '
                invariant
                    pos <= j <= rlen,
                    rlen == full.len(),
                    raw@ == full,
                    forall|q: int| pos <= q < j ==> full[q] != ' ',
                decreases rlen - j,
            {
                j = j + 1;
            }
            let ghost tail = full.subrange(pos as int, rlen as int);
            proof {
                assert(forall|q: int| 0 <= q < j - pos ==> tail[q] == full[q + pos]);
                if j < rlen {
                    assert(full[j as int] == ' ');
                    assert(tail[j - pos] == ' ');
                }
                lemma_first_sp_at(tail, j - pos);
            }
            let word = raw.substring_char(pos, j);
            let wlen = word.unicode_len();
            push_char(&mut frames, '$');
            let lenstr = u64_to_string(wlen as u64);
            frames.append(lenstr.as_str());
            push_char(&mut frames, '\r');
            push_char(&mut frames, '\n');
            frames.append(word);
            push_char(&mut frames, '\r');
            push_char(&mut frames, '\n');
            proof {
                let wv = full.subrange(pos as int, j as int);
                assert(word@ == wv);
                assert(tail.subrange(0, j - pos) =~= wv);
                assert(frames@ =~= words_frames(ws) + word_frame(wv)) by {
                    assert(word_frame(wv) == seq!['$'] + dec_str(wv.len()) + crlf() + wv + crlf());
                }
                lemma_words_frames_snoc(ws, wv);
                ws = ws.push(wv);
            }
            count = count + 1;
            if j < rlen {
                proof {
                    let tail2 = full.subrange(j + 1, rlen as int);
                    assert(first_sp(tail) == j - pos);
                    assert(split_sp(tail) == seq![tail.subrange(0, j - pos)] + split_sp(tail.subrange(j - pos + 1, tail.len() as int)));
                    assert(tail.subrange(j - pos + 1, tail.len() as int) =~= tail2);
                    assert(ws + split_sp(tail2) =~= (ws.drop_last() + (seq![full.subrange(pos as int, j as int)] + split_sp(tail2))));
                }
                pos = j + 1;
            } else {
                proof {
                    assert(first_sp(tail) == tail.len());
                    assert(split_sp(tail) == seq![tail]);
                    assert(tail =~= full.subrange(pos as int, j as int));
                    assert(ws =~= ws.drop_last() + seq![tail]);
                }
                pos = j;
                done = true;
            }
        }
        let mut reply = String::new();
        push_char(&mut reply, '*');
        let countstr = u64_to_string(count);
        reply.append(countstr.as_str());
        push_char(&mut reply, '\r');
        push_char(&mut reply, '\n');
        reply.append(frames.as_str());
        proof {
            assert(reply@ =~= build_reply_spec(full));
        }
        reply
    }
}

} // verus!
