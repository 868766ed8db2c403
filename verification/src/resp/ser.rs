//! Writing RESP text: one method per scalar shape, a sequence writer for
//! arrays, and [`to_string`] for whole values.

use vstd::prelude::*;
use crate::codec::{dec_str, u64_to_string, push_char};
use crate::common::crlf;
use crate::resp::error::RespError;
use crate::resp::{lemma_enc_list_len, resp_enc, resp_enc_list, RespValue};

verus! {

broadcast use vstd::std_specs::vec::axiom_vec_index_decreases;

/// A RESP writer.  Each method renders one value as its own string.
pub struct Serializer {
    pub output: String,
}

/// Writes the elements of one array, then frames them with the count.
pub struct SeqSerializer {
    pub output: String,
    pub elements: Vec<String>,
}

impl Serializer {
    pub fn serialize_u64(&self, v: u64) -> (r: Result<String, RespError>)
        ensures
            match r {
                Ok(s) => s@ == seq![':'] + dec_str(v as nat) + crlf(),
                Err(_) => false,
            },
    {
        let mut out = String::new();
        push_char(&mut out, ':');
        let digits = u64_to_string(v);
        out.append(digits.as_str());
        push_char(&mut out, '\r');
        push_char(&mut out, '\n');
        proof {
            assert(out@ =~= seq![':'] + dec_str(v as nat) + crlf());
        }
        Ok(out)
    }

    pub fn serialize_u32(&self, v: u32) -> (r: Result<String, RespError>)
        ensures
            match r {
                Ok(s) => s@ == seq![':'] + dec_str(v as nat) + crlf(),
                Err(_) => false,
            },
    {
        self.serialize_u64(v as u64)
    }

    pub fn serialize_u16(&self, v: u16) -> (r: Result<String, RespError>)
        ensures
            match r {
                Ok(s) => s@ == seq![':'] + dec_str(v as nat) + crlf(),
                Err(_) => false,
            },
    {
        self.serialize_u64(v as u64)
    }

    pub fn serialize_u8(&self, v: u8) -> (r: Result<String, RespError>)
        ensures
            match r {
                Ok(s) => s@ == seq![':'] + dec_str(v as nat) + crlf(),
                Err(_) => false,
            },
    {
        self.serialize_u64(v as u64)
    }

    pub fn serialize_i64(&self, v: i64) -> (r: Result<String, RespError>)
        ensures
            match r {
                Ok(s) => s@ == seq![':'] + signed_dec_str(v as int) + crlf(),
                Err(_) => false,
            },
    {
        let mut out = String::new();
        push_char(&mut out, ':');
        if v < 0 {
            push_char(&mut out, '-');
            let mag = (-(v as i128)) as u64;
            let digits = u64_to_string(mag);
            out.append(digits.as_str());
        } else {
            let digits = u64_to_string(v as u64);
            out.append(digits.as_str());
        }
        push_char(&mut out, '\r');
        push_char(&mut out, '\n');
        proof {
            assert(out@ =~= seq![':'] + signed_dec_str(v as int) + crlf());
        }
        Ok(out)
    }

    pub fn serialize_i32(&self, v: i32) -> (r: Result<String, RespError>)
        ensures
            match r {
                Ok(s) => s@ == seq![':'] + signed_dec_str(v as int) + crlf(),
                Err(_) => false,
            },
    {
        self.serialize_i64(v as i64)
    }

    pub fn serialize_i16(&self, v: i16) -> (r: Result<String, RespError>)
        ensures
            match r {
                Ok(s) => s@ == seq![':'] + signed_dec_str(v as int) + crlf(),
                Err(_) => false,
            },
    {
        self.serialize_i64(v as i64)
    }

    pub fn serialize_i8(&self, v: i8) -> (r: Result<String, RespError>)
        ensures
            match r {
                Ok(s) => s@ == seq![':'] + signed_dec_str(v as int) + crlf(),
                Err(_) => false,
            },
    {
        self.serialize_i64(v as i64)
    }

    pub fn serialize_bool(&self, v: bool) -> (r: Result<String, RespError>)
        ensures
            match r {
                Ok(s) => s@ == seq!['#'] + (if v { seq!['t'] } else { seq!['f'] }) + crlf(),
                Err(_) => false,
            },
    {
        let mut out = String::new();
        push_char(&mut out, '#');
        if v {
            push_char(&mut out, 't');
        } else {
            push_char(&mut out, 'f');
        }
        push_char(&mut out, '\r');
        push_char(&mut out, '\n');
        proof {
            assert(out@ =~= seq!['#'] + (if v { seq!['t'] } else { seq!['f'] }) + crlf());
        }
        Ok(out)
    }

    pub fn serialize_str(&self, v: &str) -> (r: Result<String, RespError>)
        ensures
            match r {
                Ok(s) => s@ == seq!['+'] + v@ + crlf(),
                Err(_) => false,
            },
    {
        let mut out = String::new();
        push_char(&mut out, '+');
        out.append(v);
        push_char(&mut out, '\r');
        push_char(&mut out, '\n');
        proof {
            assert(out@ =~= seq!['+'] + v@ + crlf());
        }
        Ok(out)
    }

    pub fn serialize_bytes(&self, v: &Vec<u8>) -> (r: Result<String, RespError>)
        ensures
            match r {
                Ok(s) => s@ == seq!['$'] + dec_str(v@.len()) + crlf()
                    + v@.map_values(|b: u8| b as char) + crlf(),
                Err(_) => false,
            },
    {
        let mut out = String::new();
        push_char(&mut out, '$');
        let digits = u64_to_string(v.len() as u64);
        out.append(digits.as_str());
        push_char(&mut out, '\r');
        push_char(&mut out, '\n');
        let ghost head = out@;
        let n = v.len();
        let mut i: usize = 0;
        while i < n
            invariant
                i <= n,
                n == v@.len(),
                out@ =~= head + v@.map_values(|b: u8| b as char).subrange(0, i as int),
            decreases n - i,
        {
            let b = v[i];
            push_char(&mut out, b as char);
            proof {
                let mapped = v@.map_values(|b2: u8| b2 as char);
                assert(mapped[i as int] == b as char);
                assert(mapped.subrange(0, i + 1) =~= mapped.subrange(0, i as int).push(b as char));
            }
            i = i + 1;
        }
        push_char(&mut out, '\r');
        push_char(&mut out, '\n');
        proof {
            let mapped = v@.map_values(|b2: u8| b2 as char);
            assert(mapped.subrange(0, n as int) =~= mapped);
            assert(out@ =~= seq!['$'] + dec_str(v@.len()) + crlf() + mapped + crlf());
        }
        Ok(out)
    }

    pub fn serialize_none(&self) -> (r: Result<String, RespError>)
        ensures
            match r {
                Ok(s) => s@ == seq!['_'] + crlf(),
                Err(_) => false,
            },
    {
        let mut out = String::new();
        push_char(&mut out, '_');
        push_char(&mut out, '\r');
        push_char(&mut out, '\n');
        proof {
            assert(out@ =~= seq!['_'] + crlf());
        }
        Ok(out)
    }

    pub fn serialize_unit(&self) -> (r: Result<String, RespError>)
        ensures
            match r {
                Ok(s) => s@ == seq!['_'] + crlf(),
                Err(_) => false,
            },
    {
        self.serialize_none()
    }
}

impl SeqSerializer {
    /// Render one more element into the pending list.
    pub fn serialize_element(&mut self, value: &RespValue) -> (r: Result<(), RespError>)
        ensures
            r.is_ok(),
            final(self).elements@.len() == old(self).elements@.len() + 1,
            final(self).elements@.last()@ == resp_enc(value),
            forall|i: int| 0 <= i < old(self).elements@.len()
                ==> final(self).elements@[i] == old(self).elements@[i],
            final(self).output == old(self).output,
    {
        let rendered = render_value(value);
        self.elements.push(rendered);
        Ok(())
    }

    /// Frame the pending elements with the array header.
    pub fn end(self) -> (r: Result<String, RespError>)
        ensures
            match r {
                Ok(s) => s@ == seq!['*'] + dec_str(self.elements@.len()) + crlf()
                    + concat_strs(self.elements@, self.elements@.len() as int),
                Err(_) => false,
            },
    {
        let mut out = String::new();
        push_char(&mut out, '*');
        let digits = u64_to_string(self.elements.len() as u64);
        out.append(digits.as_str());
        push_char(&mut out, '\r');
        push_char(&mut out, '\n');
        let ghost head = out@;
        let n = self.elements.len();
        let mut i: usize = 0;
        while i < n
            invariant
                i <= n,
                n == self.elements@.len(),
                out@ =~= head + concat_strs(self.elements@, i as int),
            decreases n - i,
        {
            out.append(self.elements[i].as_str());
            proof {
                assert(concat_strs(self.elements@, i + 1)
                    == concat_strs(self.elements@, i as int) + self.elements@[i as int]@);
            }
            i = i + 1;
        }
        proof {
            assert(out@ =~= seq!['*'] + dec_str(self.elements@.len()) + crlf()
                + concat_strs(self.elements@, self.elements@.len() as int));
        }
        Ok(out)
    }
}

/// The first `n` strings of the list, joined.
pub open spec fn concat_strs(elems: Seq<String>, n: int) -> Seq<char>
    decreases n,
{
    if 0 < n <= elems.len() {
        concat_strs(elems, n - 1) + elems[n - 1]@
    } else {
        Seq::empty()
    }
}

/// `n` in decimal with a sign where it is negative.
pub open spec fn signed_dec_str(n: int) -> Seq<char> {
    if n < 0 {
        seq!['-'] + dec_str((-n) as nat)
    } else {
        dec_str(n as nat)
    }
}

/// Render one value; arrays render each element and frame them with the
/// element count.
fn render_value(v: &RespValue) -> (out: String)
    ensures
        out@ == resp_enc(v),
    decreases resp_enc(v).len(),
{
    let ser = Serializer { output: String::new() };
    match v {
        RespValue::SimpleString(s) => {
            let r = ser.serialize_str(s.as_str());
            match r {
                Ok(out) => out,
                Err(_) => {
                    proof {
                        assert(false);
                    }
                    String::new()
                }
            }
        }
        RespValue::Error(e) => {
            let r = ser.serialize_str(e.as_str());
            match r {
                Ok(out) => out,
                Err(_) => {
                    proof {
                        assert(false);
                    }
                    String::new()
                }
            }
        }
        RespValue::Integer(i) => {
            let r = ser.serialize_u64(*i);
            match r {
                Ok(out) => out,
                Err(_) => {
                    proof {
                        assert(false);
                    }
                    String::new()
                }
            }
        }
        RespValue::BulkString(opt) => match opt {
            Some(bytes) => {
                let r = ser.serialize_bytes(bytes);
                match r {
                    Ok(out) => out,
                    Err(_) => {
                        proof {
                            assert(false);
                        }
                        String::new()
                    }
                }
            }
            None => {
                let mut out = String::new();
                push_char(&mut out, '+');
                push_char(&mut out, '$');
                push_char(&mut out, '-');
                push_char(&mut out, '1');
                push_char(&mut out, '\r');
                push_char(&mut out, '\n');
                push_char(&mut out, '\r');
                push_char(&mut out, '\n');
                proof {
                    assert(out@ =~= resp_enc(v));
                }
                out
            }
        },
        RespValue::Array(opt) => match opt {
            Some(arr) => {
                let mut out = String::new();
                push_char(&mut out, '*');
                let digits = u64_to_string(arr.len() as u64);
                out.append(digits.as_str());
                push_char(&mut out, '\r');
                push_char(&mut out, '\n');
                let ghost head = out@;
                let n = arr.len();
                let mut i: usize = 0;
                while i < n
                    invariant
                        i <= n,
                        n == arr@.len(),
                        *v == RespValue::Array(Some(*arr)),
                        out@ =~= head + resp_enc_list(arr, i as int),
                    decreases n - i,
                {
                    proof {
                        lemma_enc_list_len(arr, i as int, n as int);
                        assert(resp_enc(v).len() > resp_enc_list(arr, n as int).len());
                    }
                    let piece = render_value(&arr[i]);
                    out.append(piece.as_str());
                    proof {
                        assert(resp_enc_list(arr, i + 1)
                            == resp_enc_list(arr, i as int) + resp_enc(&arr[i as int]));
                    }
                    i = i + 1;
                }
                proof {
                    assert(out@ =~= resp_enc(v));
                }
                out
            }
            None => {
                let mut out = String::new();
                push_char(&mut out, '+');
                push_char(&mut out, '*');
                push_char(&mut out, '-');
                push_char(&mut out, '1');
                push_char(&mut out, '\r');
                push_char(&mut out, '\n');
                push_char(&mut out, '\r');
                push_char(&mut out, '\n');
                proof {
                    assert(out@ =~= resp_enc(v));
                }
                out
            }
        },
    }
}

/// Write one whole RESP value as text.
pub fn to_string(value: &RespValue) -> (r: Result<String, RespError>)
    ensures
        match r {
            Ok(s) => s@ == resp_enc(value),
            Err(_) => false,
        },
{
    Ok(render_value(value))
}

} // verus!
