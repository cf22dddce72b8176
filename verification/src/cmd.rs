//! The command layer: decodes a generic `Array` frame into one of the
//! typed commands GET and SET, validates argument shape, and encodes a
//! command back into its canonical frame form.

use crate::frame::{lemma_models_from_props, Frame, FrameModel};
use crate::parse::{bytes_like, bytes_of, string_like, text_of, Parse, ParseError};
use crate::store::{live, EntryModel, Store};
use vstd::prelude::*;
use vstd::string::{StrSliceExecFns, StringExecFns};

verus! {

/// The absolute deadline an expiration of `ms` milliseconds from `now`
/// stands for, saturating at the largest representable time.
pub open spec fn deadline_of(now: u64, expiration: Option<u64>) -> Option<u64> {
    match expiration {
        None => None,
        Some(ms) => Some(
            if now + ms > u64::MAX {
                u64::MAX
            } else {
                (now + ms) as u64
            },
        ),
    }
}

/// True when `c` is the letter `l` (a lowercase ASCII letter), in
/// either case.
pub open spec fn char_matches_lower(c: char, l: char) -> bool {
    c == l || (c as int == l as int - 32 && 97 <= l as int <= 122)
}

/// True when `s` spells "get", case-insensitively.
pub open spec fn is_get_name(s: Seq<char>) -> bool {
    s.len() == 3 && char_matches_lower(s[0], 'g') && char_matches_lower(s[1], 'e')
        && char_matches_lower(s[2], 't')
}

/// True when `s` spells "set", case-insensitively.
pub open spec fn is_set_name(s: Seq<char>) -> bool {
    s.len() == 3 && char_matches_lower(s[0], 's') && char_matches_lower(s[1], 'e')
        && char_matches_lower(s[2], 't')
}

/// True when the frame model is a well-shaped GET command: the name,
/// then exactly one string-like key.
pub open spec fn valid_get(m: FrameModel) -> bool {
    m matches FrameModel::Array(items) && items.len() == 2 && string_like(items[0]) && is_get_name(
        text_of(items[0]),
    ) && string_like(items[1])
}

/// True when the frame model is a well-shaped SET command: the name, a
/// string-like key, a bytes-like value, and possibly further arguments,
/// which are accepted but ignored.
pub open spec fn valid_set(m: FrameModel) -> bool {
    m matches FrameModel::Array(items) && items.len() >= 3 && string_like(items[0]) && is_set_name(
        text_of(items[0]),
    ) && string_like(items[1]) && bytes_like(items[2])
}

/// Whether `c` is the same command letter as `l`, ignoring ASCII case.
fn char_matches_lower_x(c: char, l: char) -> (r: bool)
    ensures
        r == char_matches_lower(c, l),
{
    c == l || ((c as u32) + 32 == (l as u32) && 97 <= (l as u32) && (l as u32) <= 122)
}

/// Whether the string names the given three-letter command.
fn names_command(s: &String, a: char, b: char, c: char) -> (r: bool)
    ensures
        r == (s@.len() == 3 && char_matches_lower(s@[0], a) && char_matches_lower(s@[1], b)
            && char_matches_lower(s@[2], c)),
{
    let st = s.as_str();
    if st.unicode_len() != 3 {
        return false;
    }
    char_matches_lower_x(st.get_char(0), a) && char_matches_lower_x(st.get_char(1), b)
        && char_matches_lower_x(st.get_char(2), c)
}

/// A request for the value stored under a key.
pub struct Get {
    pub key: String,
}

/// A request to store a value under a key. The optional expiration is
/// milliseconds to live. The wire grammar accepts a trailing
/// expiration suffix, but the decoder does not carry it into this
/// field: a decoded command always holds `None`. A command built in
/// code may set it, and `into_frame` and `apply` honor it.
pub struct SetCmd {
    pub key: String,
    pub value: Vec<u8>,
    pub expiration: Option<u64>,
}

/// The closed set of commands the server understands.
pub enum Command {
    Get(Get),
    SetCmd(SetCmd),
}

impl Get {
    /// Reads the single key argument; any further argument is a
    /// protocol error.
    pub fn from_parse(parse: &mut Parse) -> (r: Result<Get, ParseError>)
        ensures
            match r {
                Ok(g) => old(parse).remaining().len() == 1 && string_like(
                    old(parse).remaining()[0],
                ) && g.key@ == text_of(old(parse).remaining()[0]),
                Err(_) => !(old(parse).remaining().len() == 1 && string_like(
                    old(parse).remaining()[0],
                )),
            },
    {
        let key = match parse.next_string() {
            Ok(k) => k,
            Err(e) => {
                return Err(e);
            },
        };
        match parse.finish() {
            Ok(()) => Ok(Get { key }),
            Err(e) => Err(e),
        }
    }

    /// The canonical frame form of this command.
    pub fn into_frame(self) -> (f: Frame)
        ensures
            f.model() == FrameModel::Array(
                seq![FrameModel::Simple("GET"@), FrameModel::Simple(self.key@)],
            ),
    {
        let mut v: Vec<Frame> = Vec::new();
        v.push(Frame::Simple(String::from_str("GET")));
        v.push(Frame::Simple(self.key));
        proof {
            lemma_models_from_props(v@, 0);
            assert(crate::frame::models_from(v@, 0)[0 - 0] == v@[0].model());
            assert(crate::frame::models_from(v@, 0)[1 - 0] == v@[1].model());
            assert(crate::frame::models_from(v@, 0) =~= seq![
                FrameModel::Simple("GET"@),
                FrameModel::Simple(self.key@),
            ]);
        }
        Frame::Array(v)
    }
}

impl SetCmd {
    /// Reads the key and value arguments; anything after them (such as
    /// an expiration suffix) is accepted and ignored.
    pub fn from_parse(parse: &mut Parse) -> (r: Result<SetCmd, ParseError>)
        ensures
            match r {
                Ok(s) => old(parse).remaining().len() >= 2 && string_like(
                    old(parse).remaining()[0],
                ) && bytes_like(old(parse).remaining()[1]) && s.key@ == text_of(
                    old(parse).remaining()[0],
                ) && s.value@ == bytes_of(old(parse).remaining()[1]) && s.expiration is None,
                Err(_) => !(old(parse).remaining().len() >= 2 && string_like(
                    old(parse).remaining()[0],
                ) && bytes_like(old(parse).remaining()[1])),
            },
    {
        let key = match parse.next_string() {
            Ok(k) => k,
            Err(e) => {
                return Err(e);
            },
        };
        let value = match parse.next_bytes() {
            Ok(v) => v,
            Err(e) => {
                return Err(e);
            },
        };
        Ok(SetCmd { key, value, expiration: None })
    }

    /// The canonical frame form of this command, with the expiration
    /// suffix present exactly when the command carries one.
    pub fn into_frame(self) -> (f: Frame)
        ensures
            f.model() == FrameModel::Array(
                match self.expiration {
                    None => seq![
                        FrameModel::Simple("SET"@),
                        FrameModel::Simple(self.key@),
                        FrameModel::Bulk(self.value@),
                    ],
                    Some(ms) => seq![
                        FrameModel::Simple("SET"@),
                        FrameModel::Simple(self.key@),
                        FrameModel::Bulk(self.value@),
                        FrameModel::Simple("PX"@),
                        FrameModel::Integer(ms),
                    ],
                },
            ),
    {
        let mut v: Vec<Frame> = Vec::new();
        v.push(Frame::Simple(String::from_str("SET")));
        v.push(Frame::Simple(self.key));
        v.push(Frame::Bulk(self.value));
        match self.expiration {
            None => {},
            Some(ms) => {
                v.push(Frame::Simple(String::from_str("PX")));
                v.push(Frame::Integer(ms));
            },
        }
        proof {
            lemma_models_from_props(v@, 0);
            assert(crate::frame::models_from(v@, 0)[0 - 0] == v@[0].model());
            assert(crate::frame::models_from(v@, 0)[1 - 0] == v@[1].model());
            assert(crate::frame::models_from(v@, 0)[2 - 0] == v@[2].model());
            if self.expiration is Some {
                assert(crate::frame::models_from(v@, 0)[3 - 0] == v@[3].model());
                assert(crate::frame::models_from(v@, 0)[4 - 0] == v@[4].model());
                assert(crate::frame::models_from(v@, 0) =~= seq![
                    FrameModel::Simple("SET"@),
                    FrameModel::Simple(self.key@),
                    FrameModel::Bulk(self.value@),
                    FrameModel::Simple("PX"@),
                    FrameModel::Integer(self.expiration->0),
                ]);
            } else {
                assert(crate::frame::models_from(v@, 0) =~= seq![
                    FrameModel::Simple("SET"@),
                    FrameModel::Simple(self.key@),
                    FrameModel::Bulk(self.value@),
                ]);
            }
        }
        Frame::Array(v)
    }
}

impl Get {
    /// Applies the command against the store: a copy of the live value
    /// as a `Bulk` frame, or `Null` when the key is absent or past its
    /// deadline at time `now`.
    pub fn apply(self, store: &Store, now: u64) -> (resp: Frame)
        requires
            store.wf(),
        ensures
            resp.model() == (if store.map().contains_key(self.key@) && live(
                store.map()[self.key@],
                now,
            ) {
                FrameModel::Bulk(store.map()[self.key@].data)
            } else {
                FrameModel::Null
            }),
    {
        match store.get(&self.key, now) {
            Some(v) => Frame::Bulk(v),
            None => Frame::Null,
        }
    }
}

impl SetCmd {
    /// Applies the command against the store, overwriting any previous
    /// entry for the key, and answers `OK`. An expiration, when the
    /// command carries one, becomes an absolute deadline of `now` plus
    /// the duration.
    pub fn apply(self, store: &mut Store, now: u64) -> (resp: Frame)
        requires
            old(store).wf(),
            old(store).generation() < u64::MAX,
        ensures
            final(store).wf(),
            resp.model() == FrameModel::Simple("OK"@),
            final(store).map() == old(store).map().insert(
                self.key@,
                EntryModel {
                    id: old(store).generation(),
                    data: self.value@,
                    expires_at: deadline_of(now, self.expiration),
                },
            ),
            final(store).generation() == old(store).generation() + 1,
            final(store).closing() == old(store).closing(),
            self.expiration is None ==> final(store).sched() == old(store).sched(),
    {
        let deadline: Option<u64> = match self.expiration {
            None => None,
            Some(ms) => if ms > u64::MAX - now {
                Some(u64::MAX)
            } else {
                Some(now + ms)
            },
        };
        let _wake = store.set(self.key, self.value, deadline);
        Frame::Simple(String::from_str("OK"))
    }
}

impl Command {
    /// Decodes a frame into a command: the frame must be an `Array`
    /// whose first element names a known command case-insensitively,
    /// with the arguments that command requires.
    pub fn from_frame(frame: Frame) -> (r: Result<Command, ParseError>)
        ensures
            match r {
                Ok(cmd) => match cmd {
                    Command::Get(g) => valid_get(frame.model()) && g.key@ == text_of(
                        frame.model()->Array_0[1],
                    ),
                    Command::SetCmd(s) => valid_set(frame.model()) && s.key@ == text_of(
                        frame.model()->Array_0[1],
                    ) && s.value@ == bytes_of(frame.model()->Array_0[2]) && s.expiration is None,
                },
                Err(_) => !valid_get(frame.model()) && !valid_set(frame.model()),
            },
    {
        let mut parse = match Parse::new(frame) {
            Ok(p) => p,
            Err(e) => {
                return Err(e);
            },
        };
        let name = match parse.next_string() {
            Ok(n) => n,
            Err(e) => {
                return Err(e);
            },
        };
        if names_command(&name, 'g', 'e', 't') {
            match Get::from_parse(&mut parse) {
                Ok(g) => Ok(Command::Get(g)),
                Err(e) => Err(e),
            }
        } else if names_command(&name, 's', 'e', 't') {
            match SetCmd::from_parse(&mut parse) {
                Ok(s) => Ok(Command::SetCmd(s)),
                Err(e) => Err(e),
            }
        } else {
            Err(ParseError::Other(String::from_str("protocol error; invalid command")))
        }
    }
}

} // verus!
