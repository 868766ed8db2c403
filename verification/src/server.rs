//! The server's command handling: each parsed command is run against the
//! engine and answered with one protocol reply.  Reading requests from and
//! writing replies to connections is the caller's side of the split.

use vstd::prelude::*;
use crate::codec::{dec_str, u64_to_string, push_char};
use crate::common::{crlf, KvsCommand};
use crate::engines::KvsEngine;
use crate::KvsError;

verus! {

/// The one server-side subcommand of the command line.
#[derive(Debug, Clone)]
pub enum Command {
    Version,
}

pub open spec fn reply_pong() -> Seq<char> {
    seq!['+', 'P', 'O', 'N', 'G'] + crlf()
}

pub open spec fn reply_ok() -> Seq<char> {
    seq!['+', 'O', 'K'] + crlf()
}

pub open spec fn reply_not_found() -> Seq<char> {
    seq!['-', 'K', 'e', 'y', ' ', 'n', 'o', 't', ' ', 'f', 'o', 'u', 'n', 'd'] + crlf()
}

/// A found value's reply: its length, then the value itself.
pub open spec fn reply_value(v: Seq<char>) -> Seq<char> {
    seq!['$'] + dec_str(v.len()) + crlf() + v + crlf()
}

pub open spec fn version_chars() -> Seq<char> {
    seq!['0', '.', '1', '.', '0']
}

/// The build's version string.
pub fn version() -> (s: String)
    ensures
        s@ == version_chars(),
{
    let mut s = String::new();
    push_char(&mut s, '0');
    push_char(&mut s, '.');
    push_char(&mut s, '1');
    push_char(&mut s, '.');
    push_char(&mut s, '0');
    s
}

/// How a reply relates the engine's map before (`m0`) and after (`m1`)
/// one command: each command's reply is pinned by the map it found.
pub open spec fn reply_for(cmd: &KvsCommand, m0: Map<Seq<char>, Seq<char>>, m1: Map<Seq<char>, Seq<char>>, reply: Seq<char>) -> bool {
    match cmd {
        KvsCommand::Ping => m1 == m0 && reply == reply_pong(),
        KvsCommand::Put(k, v) => m1 == m0.insert(k@, v@) && reply == reply_ok(),
        KvsCommand::Get(k) => m1 == m0 && if m0.contains_key(k@) {
            reply == reply_value(m0[k@])
        } else {
            reply == reply_not_found()
        },
        KvsCommand::Rm(k) => if m0.contains_key(k@) {
            m1 == m0.remove(k@) && reply == reply_ok()
        } else {
            m1 == m0 && reply == reply_not_found()
        },
        KvsCommand::Version => m1 == m0 && reply == version_chars(),
    }
}

/// A server: an engine plus the command loop around it.
pub struct KvsServer<E: KvsEngine> {
    pub engine: E,
}

impl<E: KvsEngine> KvsServer<E> {
    pub fn new(engine: E) -> (s: Self)
        ensures
            s.engine == engine,
    {
        KvsServer { engine }
    }

    /// Run one command against the engine and produce the wire reply.
    /// Fails only when an engine read or write itself fails, and then
    /// with the engine's map unmoved; `Ping` and `Version` touch no
    /// engine and always succeed.
    pub fn handle_command(&mut self, command: &KvsCommand) -> (r: Result<String, KvsError>)
        requires
            old(self).engine.inv(),
        ensures
            final(self).engine.inv(),
            (command matches KvsCommand::Ping) ==> r.is_ok(),
            (command matches KvsCommand::Version) ==> r.is_ok(),
            match r {
                Ok(reply) => reply_for(
                    command,
                    old(self).engine.model(),
                    final(self).engine.model(),
                    reply@,
                ),
                Err(_) => final(self).engine.model() == old(self).engine.model(),
            },
    {
        match command {
            KvsCommand::Ping => {
                let mut s = String::new();
                push_char(&mut s, '+');
                push_char(&mut s, 'P');
                push_char(&mut s, 'O');
                push_char(&mut s, 'N');
                push_char(&mut s, 'G');
                push_char(&mut s, '\r');
                push_char(&mut s, '\n');
                proof {
                    assert(s@ =~= reply_pong());
                }
                Ok(s)
            }
            KvsCommand::Put(key, value) => {
                match self.engine.set(key.clone(), value.clone()) {
                    Ok(_) => {
                        let s = ok_reply();
                        Ok(s)
                    }
                    Err(e) => Err(e),
                }
            }
            KvsCommand::Get(key) => {
                match self.engine.get(key.clone()) {
                    Ok(Some(value)) => {
                        let mut s = String::new();
                        push_char(&mut s, '$');
                        let lenstr = u64_to_string(value.as_str().unicode_len() as u64);
                        s.append(lenstr.as_str());
                        push_char(&mut s, '\r');
                        push_char(&mut s, '\n');
                        s.append(value.as_str());
                        push_char(&mut s, '\r');
                        push_char(&mut s, '\n');
                        proof {
                            assert(s@ =~= reply_value(old(self).engine.model()[key@]));
                        }
                        Ok(s)
                    }
                    Ok(None) => {
                        let s = not_found_reply();
                        Ok(s)
                    }
                    Err(e) => Err(e),
                }
            }
            KvsCommand::Rm(key) => {
                match self.engine.remove(key.clone()) {
                    Ok(_) => {
                        let s = ok_reply();
                        Ok(s)
                    }
                    Err(e) => {
                        match e {
                            KvsError::KeyNotFound => {
                                let s = not_found_reply();
                                Ok(s)
                            }
                            _ => Err(e),
                        }
                    }
                }
            }
            KvsCommand::Version => {
                let s = version();
                Ok(s)
            }
        }
    }
}

fn ok_reply() -> (s: String)
    ensures
        s@ == reply_ok(),
{
    let mut s = String::new();
    push_char(&mut s, '+');
    push_char(&mut s, 'O');
    push_char(&mut s, 'K');
    push_char(&mut s, '\r');
    push_char(&mut s, '\n');
    proof {
        assert(s@ =~= reply_ok());
    }
    s
}

fn not_found_reply() -> (s: String)
    ensures
        s@ == reply_not_found(),
{
    let mut s = String::new();
    push_char(&mut s, '-');
    push_char(&mut s, 'K');
    push_char(&mut s, 'e');
    push_char(&mut s, 'y');
    push_char(&mut s, ' ');
    push_char(&mut s, 'n');
    push_char(&mut s, 'o');
    push_char(&mut s, 't');
    push_char(&mut s, ' ');
    push_char(&mut s, 'f');
    push_char(&mut s, 'o');
    push_char(&mut s, 'u');
    push_char(&mut s, 'n');
    push_char(&mut s, 'd');
    push_char(&mut s, '\r');
    push_char(&mut s, '\n');
    proof {
        assert(s@ =~= reply_not_found());
    }
    s
}

} // verus!
