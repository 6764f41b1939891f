//! The command layer: an array frame's elements are decoded into a
//! typed command — GET, SET, PING, or Unknown — and applied against the
//! store, producing the reply frame. Argument errors of a recognized
//! command are answered with an Error frame and the connection lives
//! on; only a frame that is no well-formed command at all is a protocol
//! error that closes it.

use vstd::prelude::*;
use vstd::string::StringExecFns;
use vstd::utf8::encode_utf8;

use crate::db::{live, State};
use crate::frame::{Frame, FrameData};
use crate::parse::{as_int, as_text, Parse, ParseError};

verus! {

/// The case-folded form of a string, lower case.
pub uninterp spec fn lower_of(s: Seq<char>) -> Seq<char>;

/// The case-folded form of a string, upper case.
pub uninterp spec fn upper_of(s: Seq<char>) -> Seq<char>;

/// Relies on str::to_lowercase: the result depends on the characters
/// alone.
#[verifier::external_body]
fn lowercase(s: &str) -> (r: String)
    ensures
        r@ == lower_of(s@),
{
    s.to_lowercase()
}

/// Relies on str::to_uppercase: the result depends on the characters
/// alone.
#[verifier::external_body]
fn uppercase(s: &str) -> (r: String)
    ensures
        r@ == upper_of(s@),
{
    s.to_uppercase()
}

/// Get the value of a key.
pub struct Get {
    pub key: String,
}

/// Set a key to a value, with an optional time to live in
/// milliseconds.
pub struct SetCmd {
    pub key: String,
    pub value: String,
    pub expire: Option<u64>,
}

/// Liveness probe.
pub struct Ping {}

/// A command name this server does not know; it is answered, not
/// rejected.
pub struct Unknown {
    pub command_name: String,
}

pub enum Command {
    Get(Get),
    SetCmd(SetCmd),
    Ping(Ping),
    Unknown(Unknown),
}

/// The value a decoded command denotes.
pub enum CommandData {
    Get { key: Seq<char> },
    SetCmd { key: Seq<char>, value: Seq<char>, expire: Option<u64> },
    Ping,
    Unknown { name: Seq<char> },
}

impl View for Command {
    type V = CommandData;

    open spec fn view(&self) -> CommandData {
        match self {
            Command::Get(g) => CommandData::Get { key: g.key@ },
            Command::SetCmd(s) => CommandData::SetCmd {
                key: s.key@,
                value: s.value@,
                expire: s.expire,
            },
            Command::Ping(p) => CommandData::Ping,
            Command::Unknown(u) => CommandData::Unknown { name: u.command_name@ },
        }
    }
}

/// How decoding one request can end: a command, an Error reply that
/// keeps the connection (a recognized command with bad arguments), or a
/// protocol error that closes it.
pub enum DecodeData {
    Cmd(CommandData),
    Reply(Seq<char>),
    Protocol,
}

/// Failure to decode a request frame.
#[derive(Debug)]
pub enum DecodeError {
    /// A recognized command with malformed arguments: the message is
    /// sent back as an Error frame and the connection stays open.
    Command(String),
    /// Not a well-formed command frame at all: the connection closes.
    Protocol(String),
}

/// What GET's argument parser accepts: one key, read as text; the pair
/// is the key and how many elements were consumed.
pub open spec fn spec_get_parse(args: Seq<FrameData>) -> Option<(Seq<char>, int)> {
    if args.len() >= 1 {
        match as_text(args[0]) {
            Some(k) => Some((k, 1)),
            None => None,
        }
    } else {
        None
    }
}

/// What SET's argument parser accepts: key and value read as text, then
/// either nothing, or `EX` with seconds, or `PX` with milliseconds, the
/// keyword case-insensitive and the duration a non-negative integer
/// whose milliseconds fit in a `u64`. The tuple carries key, value, the
/// time to live in milliseconds, and how many elements were consumed.
pub open spec fn spec_set_parse(args: Seq<FrameData>) -> Option<
    (Seq<char>, Seq<char>, Option<u64>, int),
> {
    if args.len() < 2 {
        None
    } else {
        match (as_text(args[0]), as_text(args[1])) {
            (Some(k), Some(v)) => {
                if args.len() == 2 {
                    Some((k, v, None, 2))
                } else {
                    match as_text(args[2]) {
                        Some(w) => {
                            if upper_of(w) == "EX"@ {
                                if args.len() >= 4 {
                                    match as_int(args[3]) {
                                        Some(secs) => if 0 <= secs && secs * 1000
                                            <= u64::MAX as int {
                                            Some((k, v, Some((secs * 1000) as u64), 4))
                                        } else {
                                            None
                                        },
                                        None => None,
                                    }
                                } else {
                                    None
                                }
                            } else if upper_of(w) == "PX"@ {
                                if args.len() >= 4 {
                                    match as_int(args[3]) {
                                        Some(ms) => if 0 <= ms {
                                            Some((k, v, Some(ms as u64), 4))
                                        } else {
                                            None
                                        },
                                        None => None,
                                    }
                                } else {
                                    None
                                }
                            } else {
                                None
                            }
                        },
                        None => None,
                    }
                }
            },
            _ => None,
        }
    }
}

/// How one request frame decodes: the command name is the first
/// element, case-folded; the rest are its arguments, consumed
/// positionally; leftover elements are a protocol error.
pub open spec fn spec_decode(f: FrameData) -> DecodeData {
    match f {
        FrameData::Array(elems) => {
            if elems.len() == 0 {
                DecodeData::Protocol
            } else {
                match as_text(elems[0]) {
                    None => DecodeData::Protocol,
                    Some(name) => {
                        let low = lower_of(name);
                        let args = elems.drop_first();
                        if low == "get"@ {
                            match spec_get_parse(args) {
                                Some((k, used)) => if args.len() == used {
                                    DecodeData::Cmd(CommandData::Get { key: k })
                                } else {
                                    DecodeData::Protocol
                                },
                                None => DecodeData::Reply("Invalid get command"@),
                            }
                        } else if low == "set"@ {
                            match spec_set_parse(args) {
                                Some((k, v, e, used)) => if args.len() == used {
                                    DecodeData::Cmd(
                                        CommandData::SetCmd { key: k, value: v, expire: e },
                                    )
                                } else {
                                    DecodeData::Protocol
                                },
                                None => DecodeData::Reply("Invalid set command"@),
                            }
                        } else if low == "ping"@ {
                            if args.len() == 0 {
                                DecodeData::Cmd(CommandData::Ping)
                            } else {
                                DecodeData::Protocol
                            }
                        } else {
                            if args.len() == 0 {
                                DecodeData::Cmd(CommandData::Unknown { name: low })
                            } else {
                                DecodeData::Protocol
                            }
                        }
                    },
                }
            }
        },
        _ => DecodeData::Protocol,
    }
}

impl Get {
    /// Reads GET's single key argument.
    pub fn from_parse(parse: &mut Parse) -> (r: Result<Get, ParseError>)
        ensures
            match spec_get_parse(old(parse)@) {
                Some((k, used)) => r matches Ok(g) && g.key@ == k && final(parse)@ == old(
                    parse,
                )@.skip(used),
                None => r is Err,
            },
    {
        let key = match parse.next_string() {
            Ok(s) => s,
            Err(e) => {
                return Err(e);
            },
        };
        proof {
            assert(old(parse)@.drop_first() =~= old(parse)@.skip(1));
        }
        Ok(Get { key })
    }
}

impl Ping {
    /// PING takes no arguments.
    pub fn from_parse() -> (r: Ping)
    {
        Ping {  }
    }
}

impl Unknown {
    /// Remembers the (case-folded) name of a command this server does
    /// not know.
    pub fn new(key: &str) -> (r: Result<Unknown, ParseError>)
        ensures
            r matches Ok(u) && u.command_name@ == key@,
    {
        Ok(Unknown { command_name: key.to_owned() })
    }
}

impl SetCmd {
    /// Reads SET's arguments: key, value, and the optional expiry
    /// clause, `EX seconds` or `PX milliseconds`.
    pub fn from_parse(parse: &mut Parse) -> (r: Result<SetCmd, ParseError>)
        ensures
            match spec_set_parse(old(parse)@) {
                Some((k, v, e, used)) => r matches Ok(st) && st.key@ == k && st.value@ == v
                    && st.expire == e && final(parse)@ == old(parse)@.skip(used),
                None => r is Err,
            },
    {
        let key = match parse.next_string() {
            Ok(s) => s,
            Err(e) => {
                return Err(e);
            },
        };
        let value = match parse.next_string() {
            Ok(s) => s,
            Err(e) => {
                return Err(e);
            },
        };
        proof {
            assert(old(parse)@.drop_first().drop_first() =~= old(parse)@.skip(2));
        }
        let ghost after_two = parse@;
        let word = match parse.next_string() {
            Ok(s) => s,
            Err(ParseError::EndOfStream) => {
                return Ok(SetCmd { key, value, expire: None });
            },
            Err(e) => {
                return Err(e);
            },
        };
        proof {
            assert(after_two[0] == old(parse)@[2]);
            assert(after_two.drop_first() =~= old(parse)@.skip(3));
        }
        let up = uppercase(word.as_str());
        let ex_lit: String = "EX".to_owned();
        let px_lit: String = "PX".to_owned();
        if up == ex_lit {
            let ghost after_three = parse@;
            let secs = match parse.next_int() {
                Ok(v) => v,
                Err(e) => {
                    return Err(e);
                },
            };
            proof {
                assert(after_three[0] == old(parse)@[3]);
                assert(after_three.drop_first() =~= old(parse)@.skip(4));
            }
            if secs < 0 {
                return Err(ParseError::Other("Invalid set command".to_owned()));
            }
            if (secs as u64) > u64::MAX / 1000 {
                return Err(ParseError::Other("Invalid set command".to_owned()));
            }
            let ms = (secs as u64) * 1000;
            Ok(SetCmd { key, value, expire: Some(ms) })
        } else if up == px_lit {
            let ghost after_three = parse@;
            let ms = match parse.next_int() {
                Ok(v) => v,
                Err(e) => {
                    return Err(e);
                },
            };
            proof {
                assert(after_three[0] == old(parse)@[3]);
                assert(after_three.drop_first() =~= old(parse)@.skip(4));
            }
            if ms < 0 {
                return Err(ParseError::Other("Invalid set command".to_owned()));
            }
            Ok(SetCmd { key, value, expire: Some(ms as u64) })
        } else {
            Err(ParseError::Other("Invalid set command".to_owned()))
        }
    }
}

impl Command {
    /// Decodes one request frame into a command: the first element,
    /// case-folded, names it; the rest are its arguments; anything left
    /// over is a protocol error.
    pub fn from_frame(frame: Frame) -> (r: Result<Command, DecodeError>)
        ensures
            match spec_decode(frame@) {
                DecodeData::Cmd(c) => r matches Ok(cmd) && cmd@ == c,
                DecodeData::Reply(m) => r matches Err(e) && e matches DecodeError::Command(msg)
                    && msg@ == m,
                DecodeData::Protocol => r matches Err(e) && e is Protocol,
            },
    {
        let mut parse = match Parse::new(frame) {
            Ok(p) => p,
            Err(_) => {
                return Err(
                    DecodeError::Protocol("protocol error; expected array".to_owned()),
                );
            },
        };
        let name = match parse.next_string() {
            Ok(s) => s,
            Err(_) => {
                return Err(
                    DecodeError::Protocol("protocol error; invalid command name".to_owned()),
                );
            },
        };
        let low = lowercase(name.as_str());
        let get_lit: String = "get".to_owned();
        let set_lit: String = "set".to_owned();
        let ping_lit: String = "ping".to_owned();
        let command = if low == get_lit {
            match Get::from_parse(&mut parse) {
                Ok(g) => Command::Get(g),
                Err(_) => {
                    return Err(DecodeError::Command("Invalid get command".to_owned()));
                },
            }
        } else if low == set_lit {
            match SetCmd::from_parse(&mut parse) {
                Ok(s) => Command::SetCmd(s),
                Err(_) => {
                    return Err(DecodeError::Command("Invalid set command".to_owned()));
                },
            }
        } else if low == ping_lit {
            Command::Ping(Ping::from_parse())
        } else {
            match Unknown::new(low.as_str()) {
                Ok(u) => Command::Unknown(u),
                Err(_) => {
                    return Err(
                        DecodeError::Protocol("protocol error; invalid command name".to_owned()),
                    );
                },
            }
        };
        match parse.finish() {
            Ok(_) => Ok(command),
            Err(_) => Err(
                DecodeError::Protocol("protocol error; expected end of frame".to_owned()),
            ),
        }
    }
}

} // verus!

verus! {

/// The absolute deadline a requested time to live yields at `now`,
/// saturating at the largest representable instant.
pub open spec fn clamped_deadline(expire: Option<u64>, now: u64) -> Option<u64> {
    match expire {
        Option::Some(d) => if now + d <= u64::MAX {
            Some((now + d) as u64)
        } else {
            Some(u64::MAX)
        },
        Option::None => None,
    }
}

/// Whether storing an entry with this time to live at `now` makes its
/// deadline the earliest tracked one (or the first ever), so that the
/// reaper must be woken.
pub open spec fn spec_notify(st: State, expire: Option<u64>, now: u64) -> bool {
    match clamped_deadline(expire, now) {
        Option::Some(when) => match st.spec_next_deadline() {
            Option::Some(t) => t > when,
            Option::None => true,
        },
        Option::None => false,
    }
}

impl Get {
    /// Looks the key up; found and unexpired entries come back as bulk
    /// bytes, anything else as Null.
    pub fn apply(self, db: &State, now: u64) -> (r: Frame)
        requires
            db.inv(),
        ensures
            r@ == (if db@.contains_key(self.key@) && live(db@[self.key@], now) {
                FrameData::Bulk(db@[self.key@].0)
            } else {
                FrameData::Null
            }),
    {
        match db.get(&self.key, now) {
            Some(value) => Frame::Bulk(value),
            None => Frame::Null,
        }
    }
}

impl SetCmd {
    /// Stores the value under the key, with the deadline its time to
    /// live yields; replies `OK`, and says whether the reaper must be
    /// woken because the new deadline is now the earliest.
    pub fn apply(self, db: &mut State, now: u64) -> (r: (Frame, bool))
        requires
            old(db).inv(),
        ensures
            final(db).inv(),
            final(db)@ =~= old(db)@.insert(
                self.key@,
                (encode_utf8(self.value@), clamped_deadline(self.expire, now)),
            ),
            r.0@ == FrameData::Simple("OK"@),
            r.1 == spec_notify(*old(db), self.expire, now),
    {
        let bytes = vstd::slice::slice_to_vec(self.value.as_str().as_bytes());
        let expire2: Option<u64> = match self.expire {
            Some(d) => {
                if d <= u64::MAX - now {
                    Some(d)
                } else {
                    Some(u64::MAX - now)
                }
            },
            None => None,
        };
        proof {
            assert(crate::db::spec_deadline(expire2, now) == clamped_deadline(self.expire, now));
        }
        let notify = db.set(self.key, bytes, expire2, now);
        (Frame::Simple("OK".to_owned()), notify)
    }
}

impl Ping {
    /// Replies `PONG`.
    pub fn apply(&self) -> (r: Frame)
        ensures
            r@ == FrameData::Simple("PONG"@),
    {
        Frame::Simple("PONG".to_owned())
    }
}

impl Unknown {
    /// Replies with an error naming the unknown command; the connection
    /// stays open.
    pub fn apply(self) -> (r: Frame)
        ensures
            r@ == FrameData::Error("ERR unknown command '"@ + self.command_name@ + "'"@),
    {
        let mut msg: String = "ERR unknown command '".to_owned();
        msg.append(self.command_name.as_str());
        msg.append("'");
        Frame::Error(msg)
    }
}

impl Command {
    /// Applies the command against the store, producing the reply frame
    /// and whether the reaper must be woken.
    pub fn apply(self, db: &mut State, now: u64) -> (r: (Frame, bool))
        requires
            old(db).inv(),
        ensures
            final(db).inv(),
            match self@ {
                CommandData::Get { key } => *final(db) == *old(db) && r.1 == false && r.0@ == (
                if old(db)@.contains_key(key) && live(old(db)@[key], now) {
                    FrameData::Bulk(old(db)@[key].0)
                } else {
                    FrameData::Null
                }),
                CommandData::SetCmd { key, value, expire } => final(db)@ =~= old(db)@.insert(
                    key,
                    (encode_utf8(value), clamped_deadline(expire, now)),
                ) && r.0@ == FrameData::Simple("OK"@) && r.1 == spec_notify(
                    *old(db),
                    expire,
                    now,
                ),
                CommandData::Ping => *final(db) == *old(db) && r.1 == false && r.0@
                    == FrameData::Simple("PONG"@),
                CommandData::Unknown { name } => *final(db) == *old(db) && r.1 == false && r.0@
                    == FrameData::Error("ERR unknown command '"@ + name + "'"@),
            },
    {
        match self {
            Command::Get(cmd) => (cmd.apply(db, now), false),
            Command::SetCmd(cmd) => cmd.apply(db, now),
            Command::Ping(cmd) => (cmd.apply(), false),
            Command::Unknown(cmd) => (cmd.apply(), false),
        }
    }
}

/// One full step of the per-connection loop between reading a request
/// frame and writing the reply: decode, apply, and say whether the
/// reaper must be woken. A recognized command with bad arguments comes
/// back as an `Ok` Error frame — the connection stays open; only a
/// frame that is no command at all is an `Err`, on which the caller
/// drops the connection. The store is untouched unless a well-formed
/// SET was applied.
pub fn handle_request(frame: Frame, db: &mut State, now: u64) -> (r: Result<
    (Frame, bool),
    DecodeError,
>)
    requires
        old(db).inv(),
    ensures
        final(db).inv(),
        match spec_decode(frame@) {
            DecodeData::Cmd(c) => r matches Ok(p) && (match c {
                CommandData::Get { key } => *final(db) == *old(db) && p.1 == false && p.0@ == (
                if old(db)@.contains_key(key) && live(old(db)@[key], now) {
                    FrameData::Bulk(old(db)@[key].0)
                } else {
                    FrameData::Null
                }),
                CommandData::SetCmd { key, value, expire } => final(db)@ =~= old(db)@.insert(
                    key,
                    (encode_utf8(value), clamped_deadline(expire, now)),
                ) && p.0@ == FrameData::Simple("OK"@) && p.1 == spec_notify(
                    *old(db),
                    expire,
                    now,
                ),
                CommandData::Ping => *final(db) == *old(db) && p.1 == false && p.0@
                    == FrameData::Simple("PONG"@),
                CommandData::Unknown { name } => *final(db) == *old(db) && p.1 == false && p.0@
                    == FrameData::Error("ERR unknown command '"@ + name + "'"@),
            }),
            DecodeData::Reply(m) => r matches Ok(p) && *final(db) == *old(db) && p.1 == false
                && p.0@ == FrameData::Error(m),
            DecodeData::Protocol => r is Err && *final(db) == *old(db),
        },
{
    match Command::from_frame(frame) {
        Ok(cmd) => Ok(cmd.apply(db, now)),
        Err(DecodeError::Command(msg)) => Ok((Frame::Error(msg), false)),
        Err(e) => Err(e),
    }
}

} // verus!

verus! {

/// Earliest-wake: the signal a store step reports fires exactly when
/// the step added a deadline strictly earlier than every deadline the
/// index currently tracks (vacuously, when it added the first deadline
/// ever), and never when the step added none.
pub proof fn lemma_earliest_wake(st: State, expire: Option<u64>, now: u64)
    ensures
        match clamped_deadline(expire, now) {
            Option::Some(when) => spec_notify(st, expire, now) <==> (forall|i: int|
                #![trigger st.expirations@[i]]
                0 <= i < st.expirations@.len() ==> st.expirations@[i].0 > when),
            Option::None => !spec_notify(st, expire, now),
        },
{
    if let Option::Some(when) = clamped_deadline(expire, now) {
        if st.expirations@.len() > 0 {
            crate::db::lemma_min_deadline(st.expirations@);
        }
    }
}

} // verus!
