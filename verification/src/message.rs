//! The request/response message exchanged between the scheduler server and
//! its client processes: `TYPE@MID:CID[,key[=value]]*`.
use vstd::prelude::*;

use crate::text::{
    chars_eq, chars_of, digit_char, digit_str, find_char, find_char_in, lemma_find_char,
    parse_one_digit, parse_three_digits, push_three_digits, read_one_digit, read_three_digits,
    str_eq, string_of_range, sub_chars, three_digits,
};
use vstd::utf8::encode_utf8;

verus! {

/// Protocol version.
pub const PROTOCOL_VERSION: &'static str = "1";

/// Message ID length in string.
pub const MSG_ID_LEN: usize = 1;

/// Maximum message ID in number.
pub const MSG_ID_MAX: u8 = 9;

/// Client ID length in string.
pub const CLIENT_ID_LEN: usize = 3;

/// Maximum client ID in number.
pub const CLIENT_ID_MAX: u16 = 999;

/// Maximum message length in bytes.
pub const MESSAGE_LEN_MAX: usize = 512;

/// Parse error types.
#[derive(Debug, PartialEq, Eq, Clone, Copy, Structural)]
pub enum ParseError {
    TypeNotFound,
    MessageIdNotFound,
    InvalidMessageId,
    InvalidClientId,
    MessageTooLong,
}

/// Message types.
#[derive(Debug, PartialEq, Eq, Clone, Copy, Structural)]
pub enum MessageType {
    // Client requests.
    Join,
    Ready,
    Done,
    Exit,
    // Server responses.
    Joined,
    Start,
    Okay,
    Skip,
    Late,
    Error,
}

/// The wire text of each message type.
pub open spec fn type_text(t: MessageType) -> Seq<char> {
    match t {
        MessageType::Join => seq!['J', 'O', 'I', 'N'],
        MessageType::Ready => seq!['R', 'E', 'A', 'D', 'Y'],
        MessageType::Done => seq!['D', 'O', 'N', 'E'],
        MessageType::Exit => seq!['E', 'X', 'I', 'T'],
        MessageType::Joined => seq!['J', 'O', 'I', 'N', 'E', 'D'],
        MessageType::Start => seq!['S', 'T', 'A', 'R', 'T'],
        MessageType::Okay => seq!['O', 'K'],
        MessageType::Skip => seq!['S', 'K', 'I', 'P'],
        MessageType::Late => seq!['L', 'A', 'T', 'E'],
        MessageType::Error => seq!['E', 'R', 'R', 'O', 'R'],
    }
}

/// The message type whose wire text is `s`, if any.
pub open spec fn type_of_text(s: Seq<char>) -> Option<MessageType> {
    if s == type_text(MessageType::Join) {
        Some(MessageType::Join)
    } else if s == type_text(MessageType::Ready) {
        Some(MessageType::Ready)
    } else if s == type_text(MessageType::Done) {
        Some(MessageType::Done)
    } else if s == type_text(MessageType::Exit) {
        Some(MessageType::Exit)
    } else if s == type_text(MessageType::Joined) {
        Some(MessageType::Joined)
    } else if s == type_text(MessageType::Start) {
        Some(MessageType::Start)
    } else if s == type_text(MessageType::Okay) {
        Some(MessageType::Okay)
    } else if s == type_text(MessageType::Skip) {
        Some(MessageType::Skip)
    } else if s == type_text(MessageType::Late) {
        Some(MessageType::Late)
    } else if s == type_text(MessageType::Error) {
        Some(MessageType::Error)
    } else {
        None
    }
}

impl MessageType {
    /// Convert message type to string.
    pub fn as_str(&self) -> (s: &'static str)
        ensures
            s@ == type_text(*self),
    {
        proof {
            reveal_strlit("JOIN");
            reveal_strlit("READY");
            reveal_strlit("DONE");
            reveal_strlit("EXIT");
            reveal_strlit("JOINED");
            reveal_strlit("START");
            reveal_strlit("OK");
            reveal_strlit("SKIP");
            reveal_strlit("LATE");
            reveal_strlit("ERROR");
        }
        let s = match self {
            MessageType::Join => "JOIN",
            MessageType::Ready => "READY",
            MessageType::Done => "DONE",
            MessageType::Exit => "EXIT",
            MessageType::Joined => "JOINED",
            MessageType::Start => "START",
            MessageType::Okay => "OK",
            MessageType::Skip => "SKIP",
            MessageType::Late => "LATE",
            MessageType::Error => "ERROR",
        };
        assert(s@ =~= type_text(*self));
        s
    }

    /// Convert string to message type.
    pub fn from_str(s: &str) -> (r: Result<Self, ParseError>)
        ensures
            r == (match type_of_text(s@) {
                Some(t) => Ok(t),
                None => Err(ParseError::TypeNotFound),
            }),
    {
        let v = chars_of(s);
        Self::from_chars(&v)
    }

    /// Convert characters to message type.
    pub fn from_chars(v: &Vec<char>) -> (r: Result<Self, ParseError>)
        ensures
            r == (match type_of_text(v@) {
                Some(t) => Ok(t),
                None => Err(ParseError::TypeNotFound),
            }),
    {
        let all = [
            MessageType::Join,
            MessageType::Ready,
            MessageType::Done,
            MessageType::Exit,
            MessageType::Joined,
            MessageType::Start,
            MessageType::Okay,
            MessageType::Skip,
            MessageType::Late,
            MessageType::Error,
        ];
        let mut i: usize = 0;
        while i < 10
            invariant
                i <= 10,
                all@ == seq![
                    MessageType::Join,
                    MessageType::Ready,
                    MessageType::Done,
                    MessageType::Exit,
                    MessageType::Joined,
                    MessageType::Start,
                    MessageType::Okay,
                    MessageType::Skip,
                    MessageType::Late,
                    MessageType::Error,
                ],
                forall|k: int| 0 <= k < i ==> v@ != type_text(#[trigger] all@[k]),
            decreases 10 - i,
        {
            let t = all[i];
            let text = chars_of(t.as_str());
            if chars_eq(v, &text) {
                assert(forall|k: int| 0 <= k < i ==> v@ != type_text(#[trigger] all@[k]));
                return Ok(t);
            }
            i += 1;
        }
        assert(v@ != type_text(all@[0]));
        assert(v@ != type_text(all@[1]));
        assert(v@ != type_text(all@[2]));
        assert(v@ != type_text(all@[3]));
        assert(v@ != type_text(all@[4]));
        assert(v@ != type_text(all@[5]));
        assert(v@ != type_text(all@[6]));
        assert(v@ != type_text(all@[7]));
        assert(v@ != type_text(all@[8]));
        assert(v@ != type_text(all@[9]));
        Err(ParseError::TypeNotFound)
    }
}

/// What a message holds, as mathematical values.
pub struct MessageView {
    pub mtype: MessageType,
    pub mid: u8,
    pub cid: u16,
    pub extras: Seq<(Seq<char>, Seq<char>)>,
}

/// The key/value pairs of a message as character sequences.
pub open spec fn extras_view(ex: Seq<(String, String)>) -> Seq<(Seq<char>, Seq<char>)> {
    Seq::new(ex.len(), |i: int| (ex[i].0@, ex[i].1@))
}

/// Message exchanged between the server and a client.
#[derive(Debug, Clone)]
pub struct Message {
    /// Message type.
    pub mtype: MessageType,
    /// Message ID.
    pub mid: u8,
    /// Client ID.
    pub cid: u16,
    /// Extra info.
    pub extras: Vec<(String, String)>,
}

impl View for Message {
    type V = MessageView;

    open spec fn view(&self) -> MessageView {
        MessageView {
            mtype: self.mtype,
            mid: self.mid,
            cid: self.cid,
            extras: extras_view(self.extras@),
        }
    }
}

/// One extra item `key[=value]`: the key runs to the first `=`, the value
/// is the rest; an item without `=` has an empty value.
pub open spec fn parse_extra_item(p: Seq<char>) -> (Seq<char>, Seq<char>) {
    match find_char(p, '=') {
        Some(i) => (p.take(i), p.skip(i + 1)),
        None => (p, Seq::empty()),
    }
}

/// The extras of a payload after the client ID: comma-separated items,
/// empty items skipped.
pub open spec fn parse_extras(s: Seq<char>) -> Seq<(Seq<char>, Seq<char>)>
    decreases s.len(),
{
    match find_char(s, ',') {
        None => if s.len() == 0 {
            Seq::empty()
        } else {
            seq![parse_extra_item(s)]
        },
        Some(i) => {
            let head = s.take(i);
            let first = if head.len() == 0 {
                Seq::empty()
            } else {
                seq![parse_extra_item(head)]
            };
            if 0 <= i < s.len() {
                first + parse_extras(s.skip(i + 1))
            } else {
                first
            }
        },
    }
}

/// The message that the text `s` (at most `MESSAGE_LEN_MAX` bytes long)
/// encodes, or the first error found: type, message ID, client ID.
pub open spec fn parse_message(s: Seq<char>) -> Result<MessageView, ParseError> {
    match find_char(s, ':') {
        None => Err(ParseError::TypeNotFound),
        Some(colon) => {
            let header = s.take(colon);
            let payload = s.skip(colon + 1);
            match find_char(header, '@') {
                None => Err(ParseError::MessageIdNotFound),
                Some(at) => match type_of_text(header.take(at)) {
                    None => Err(ParseError::TypeNotFound),
                    Some(t) => match parse_one_digit(header.skip(at + 1)) {
                        None => Err(ParseError::InvalidMessageId),
                        Some(mid) => {
                            let cid_part = match find_char(payload, ',') {
                                None => payload,
                                Some(i) => payload.take(i),
                            };
                            let extras = match find_char(payload, ',') {
                                None => Seq::empty(),
                                Some(i) => parse_extras(payload.skip(i + 1)),
                            };
                            match parse_three_digits(cid_part) {
                                None => Err(ParseError::InvalidClientId),
                                Some(cid) => Ok(
                                    MessageView { mtype: t, mid: mid, cid: cid, extras: extras },
                                ),
                            }
                        },
                    },
                },
            }
        },
    }
}

/// The text of one extra item.
pub open spec fn render_extra_item(kv: (Seq<char>, Seq<char>)) -> Seq<char> {
    if kv.1.len() == 0 {
        seq![','] + kv.0
    } else {
        seq![','] + kv.0 + seq!['='] + kv.1
    }
}

/// The text of all extra items.
pub open spec fn render_extras(ex: Seq<(Seq<char>, Seq<char>)>) -> Seq<char>
    decreases ex.len(),
{
    if ex.len() == 0 {
        Seq::empty()
    } else {
        render_extras(ex.drop_last()) + render_extra_item(ex.last())
    }
}

/// The text of a message whose IDs are in range.
pub open spec fn render_message(m: MessageView) -> Seq<char> {
    type_text(m.mtype) + seq!['@', digit_char(m.mid as int), ':'] + three_digits(m.cid as int)
        + render_extras(m.extras)
}

/// The value stored under `key` in `ex`: the first pair with that key.
pub open spec fn find_key(ex: Seq<(Seq<char>, Seq<char>)>, key: Seq<char>) -> Option<int>
    decreases ex.len(),
{
    if ex.len() == 0 {
        None
    } else if ex[0].0 == key {
        Some(0)
    } else {
        match find_key(ex.drop_first(), key) {
            Some(i) => Some(i + 1),
            None => None,
        }
    }
}

proof fn lemma_find_key(ex: Seq<(Seq<char>, Seq<char>)>, key: Seq<char>)
    ensures
        match find_key(ex, key) {
            Some(i) => 0 <= i < ex.len() && ex[i].0 == key && forall|k: int|
                0 <= k < i ==> ex[k].0 != key,
            None => forall|k: int| 0 <= k < ex.len() ==> ex[k].0 != key,
        },
    decreases ex.len(),
{
    if ex.len() > 0 && ex[0].0 != key {
        lemma_find_key(ex.drop_first(), key);
        assert forall|k: int| 0 < k < ex.len() implies ex[k] == ex.drop_first()[k - 1] by {}
    }
}

proof fn lemma_find_key_at(ex: Seq<(Seq<char>, Seq<char>)>, key: Seq<char>, i: int)
    requires
        0 <= i <= ex.len(),
        i < ex.len() ==> ex[i].0 == key,
        forall|k: int| 0 <= k < i ==> ex[k].0 != key,
    ensures
        find_key(ex, key) == (if i < ex.len() {
            Some(i)
        } else {
            None::<int>
        }),
{
    lemma_find_key(ex, key);
    match find_key(ex, key) {
        Some(j) => {
            if j < i {
                assert(ex[j].0 != key);
            }
            if i < j {
                assert(ex[i].0 != key);
            }
        },
        None => {
            if i < ex.len() {
                assert(ex[i].0 != key);
            }
        },
    }
}

impl Message {
    /// Create a new message.
    pub fn new(
        message_type: MessageType,
        message_id: u8,
        client_id: u16,
        extras: Option<Vec<(String, String)>>,
    ) -> (r: Result<Self, ParseError>)
        ensures
            client_id > CLIENT_ID_MAX ==> r == Err::<Message, ParseError>(
                ParseError::InvalidClientId,
            ),
            client_id <= CLIENT_ID_MAX && message_id > MSG_ID_MAX ==> r == Err::<
                Message,
                ParseError,
            >(ParseError::InvalidMessageId),
            client_id <= CLIENT_ID_MAX && message_id <= MSG_ID_MAX ==> r is Ok && r->Ok_0@
                == (MessageView {
                mtype: message_type,
                mid: message_id,
                cid: client_id,
                extras: match extras {
                    Some(e) => extras_view(e@),
                    None => Seq::empty(),
                },
            }),
    {
        if client_id > CLIENT_ID_MAX {
            return Err(ParseError::InvalidClientId);
        }
        if message_id > MSG_ID_MAX {
            return Err(ParseError::InvalidMessageId);
        }
        let items = match extras {
            Some(e) => e,
            None => Vec::new(),
        };
        let m = Message { mtype: message_type, mid: message_id, cid: client_id, extras: items };
        assert(m@.extras =~= match extras {
            Some(e) => extras_view(e@),
            None => Seq::empty(),
        });
        Ok(m)
    }

    /// Index of the first extra whose key is `key`.
    fn position_of_key(&self, key: &str) -> (r: Option<usize>)
        ensures
            match r {
                Some(i) => i < self.extras.len() && find_key(self@.extras, key@) == Some(i as int),
                None => find_key(self@.extras, key@) == None::<int>,
            },
    {
        let mut i: usize = 0;
        while i < self.extras.len()
            invariant
                i <= self.extras.len(),
                forall|k: int| 0 <= k < i ==> self@.extras[k].0 != key@,
            decreases self.extras.len() - i,
        {
            if str_eq(self.extras[i].0.as_str(), key) {
                proof {
                    lemma_find_key_at(self@.extras, key@, i as int);
                }
                return Some(i);
            }
            i += 1;
        }
        proof {
            lemma_find_key_at(self@.extras, key@, i as int);
        }
        None
    }

    /// Get extra value by key.
    pub fn get_extra(&self, key: &str) -> (r: Option<&String>)
        ensures
            match find_key(self@.extras, key@) {
                Some(i) => r is Some && r->Some_0@ == self@.extras[i].1,
                None => r is None,
            },
    {
        match self.position_of_key(key) {
            Some(i) => Some(&self.extras[i].1),
            None => None,
        }
    }

    /// Set extra value by key.
    pub fn set_extra(&mut self, key: &str, value: &str)
        ensures
            final(self).mtype == old(self).mtype,
            final(self).mid == old(self).mid,
            final(self).cid == old(self).cid,
            final(self)@.extras == (match find_key(old(self)@.extras, key@) {
                Some(i) => old(self)@.extras.update(i, (key@, value@)),
                None => old(self)@.extras.push((key@, value@)),
            }),
    {
        match self.position_of_key(key) {
            Some(pos) => {
                proof {
                    lemma_find_key(old(self)@.extras, key@);
                }
                let k = self.extras[pos].0.clone();
                self.extras.set(pos, (k, String::from_str(value)));
                assert(self@.extras =~= old(self)@.extras.update(pos as int, (key@, value@)));
            },
            None => {
                self.extras.push((String::from_str(key), String::from_str(value)));
                assert(self@.extras =~= old(self)@.extras.push((key@, value@)));
            },
        }
    }
}


/// Reads one extra item from `v[from..to]`.
fn read_extra_item(s: &str, v: &Vec<char>, from: usize, to: usize) -> (r: (String, String))
    requires
        v@ == s@,
        from <= to <= v.len(),
    ensures
        (r.0@, r.1@) == parse_extra_item(v@.subrange(from as int, to as int)),
{
    let ghost p = v@.subrange(from as int, to as int);
    match find_char_in(v, '=', from, to) {
        Some(eq) => {
            let key = string_of_range(s, v, from, eq);
            let value = string_of_range(s, v, eq + 1, to);
            assert(p.take(eq - from) =~= v@.subrange(from as int, eq as int));
            assert(p.skip(eq - from + 1) =~= v@.subrange(eq + 1, to as int));
            (key, value)
        },
        None => {
            let key = string_of_range(s, v, from, to);
            let value = String::new();
            (key, value)
        },
    }
}

/// Reads the extras of `v[from..to]`.
fn read_extras(s: &str, v: &Vec<char>, from: usize, to: usize) -> (r: Vec<(String, String)>)
    requires
        v@ == s@,
        from <= to <= v.len(),
    ensures
        extras_view(r@) == parse_extras(v@.subrange(from as int, to as int)),
{
    let mut out: Vec<(String, String)> = Vec::new();
    let mut pos = from;
    loop
        invariant
            v@ == s@,
            from <= pos <= to <= v.len(),
            extras_view(out@) + parse_extras(v@.subrange(pos as int, to as int)) == parse_extras(
                v@.subrange(from as int, to as int),
            ),
        decreases to - pos,
    {
        let ghost rest = v@.subrange(pos as int, to as int);
        let ghost before = out@;
        proof {
            lemma_find_char(rest, ',');
        }
        match find_char_in(v, ',', pos, to) {
            None => {
                if pos < to {
                    let item = read_extra_item(s, v, pos, to);
                    out.push(item);
                }
                assert(extras_view(out@) =~= extras_view(before) + parse_extras(rest));
                assert(parse_extras(v@.subrange(to as int, to as int)) =~= Seq::empty()) by {
                    lemma_find_char(v@.subrange(to as int, to as int), ',');
                }
                return out;
            },
            Some(j) => {
                assert(rest.take(j - pos) =~= v@.subrange(pos as int, j as int));
                assert(rest.skip(j - pos + 1) =~= v@.subrange(j + 1, to as int));
                if pos < j {
                    let item = read_extra_item(s, v, pos, j);
                    out.push(item);
                }
                assert(extras_view(out@) + parse_extras(v@.subrange(j + 1, to as int))
                    =~= extras_view(before) + parse_extras(rest));
                pos = j + 1;
            },
        }
    }
}

impl Message {
    /// Create a new message from a string.
    pub fn from_str(msg: &str) -> (r: Result<Self, ParseError>)
        ensures
            msg.len() > MESSAGE_LEN_MAX ==> r == Err::<Message, ParseError>(
                ParseError::MessageTooLong,
            ),
            msg.len() <= MESSAGE_LEN_MAX ==> match r {
                Ok(m) => parse_message(msg@) == Ok::<MessageView, ParseError>(m@),
                Err(e) => parse_message(msg@) == Err::<MessageView, ParseError>(e),
            },
    {
        if msg.len() > MESSAGE_LEN_MAX {
            return Err(ParseError::MessageTooLong);
        }
        let v = chars_of(msg);
        let n = v.len();
        let ghost sv = v@;
        assert(sv.subrange(0, n as int) =~= sv);
        let colon = match find_char_in(&v, ':', 0, n) {
            None => {
                return Err(ParseError::TypeNotFound);
            },
            Some(c) => c,
        };
        let ghost header = sv.take(colon as int);
        let ghost payload = sv.skip(colon + 1);
        assert(header =~= sv.subrange(0, colon as int));
        let at = match find_char_in(&v, '@', 0, colon) {
            None => {
                return Err(ParseError::MessageIdNotFound);
            },
            Some(a) => a,
        };
        let type_chars = sub_chars(&v, 0, at);
        assert(header.take(at as int) =~= type_chars@);
        let mtype = match MessageType::from_chars(&type_chars) {
            Ok(t) => t,
            Err(e) => {
                return Err(e);
            },
        };
        assert(header.skip(at + 1) =~= sv.subrange(at + 1, colon as int));
        let mid = match read_one_digit(&v, at + 1, colon) {
            None => {
                return Err(ParseError::InvalidMessageId);
            },
            Some(d) => d,
        };
        assert(payload =~= sv.subrange(colon + 1, n as int));
        let comma = find_char_in(&v, ',', colon + 1, n);
        let cid_end = match comma {
            None => n,
            Some(i) => i,
        };
        proof {
            if let Some(i) = comma {
                assert(payload.take(i - colon - 1) =~= sv.subrange(colon + 1, i as int));
                assert(payload.skip(i - colon) =~= sv.subrange(i + 1, n as int));
            }
        }
        let cid = match read_three_digits(&v, colon + 1, cid_end) {
            None => {
                return Err(ParseError::InvalidClientId);
            },
            Some(c) => c,
        };
        let extras = match comma {
            None => Vec::new(),
            Some(i) => read_extras(msg, &v, i + 1, n),
        };
        let m = Message { mtype, mid, cid, extras };
        proof {
            if comma is None {
                assert(m@.extras =~= Seq::empty());
            }
        }
        Ok(m)
    }

    /// Convert to a string.
    pub fn to_str(&self) -> (r: Result<String, ParseError>)
        ensures
            self.mid > MSG_ID_MAX ==> r == Err::<String, ParseError>(ParseError::InvalidMessageId),
            self.mid <= MSG_ID_MAX && self.cid > CLIENT_ID_MAX ==> r == Err::<String, ParseError>(
                ParseError::InvalidClientId,
            ),
            self.mid <= MSG_ID_MAX && self.cid <= CLIENT_ID_MAX ==> ({
                let text = render_message(self@);
                if encode_utf8(text).len() as usize > MESSAGE_LEN_MAX {
                    r == Err::<String, ParseError>(ParseError::MessageTooLong)
                } else {
                    r is Ok && r->Ok_0@ == text
                }
            }),
    {
        if self.mid > MSG_ID_MAX {
            return Err(ParseError::InvalidMessageId);
        }
        if self.cid > CLIENT_ID_MAX {
            return Err(ParseError::InvalidClientId);
        }
        let mut msg = String::from_str(self.mtype.as_str());
        msg.append("@");
        msg.append(digit_str(self.mid));
        msg.append(":");
        push_three_digits(&mut msg, self.cid);
        proof {
            reveal_strlit("@");
            reveal_strlit(":");
        }
        assert(msg@ =~= type_text(self.mtype) + seq!['@', digit_char(self.mid as int), ':']
            + three_digits(self.cid as int));
        let ghost head = msg@;
        let mut i: usize = 0;
        while i < self.extras.len()
            invariant
                i <= self.extras.len(),
                msg@ == head + render_extras(self@.extras.take(i as int)),
            decreases self.extras.len() - i,
        {
            let ghost before = msg@;
            msg.append(",");
            msg.append(self.extras[i].0.as_str());
            if self.extras[i].1.as_str().unicode_len() != 0 {
                msg.append("=");
                msg.append(self.extras[i].1.as_str());
            }
            proof {
                reveal_strlit(",");
                reveal_strlit("=");
                let ex = self@.extras.take(i + 1);
                assert(ex.drop_last() =~= self@.extras.take(i as int));
                assert(ex.last() == self@.extras[i as int]);
            }
            assert(msg@ =~= before + render_extra_item(self@.extras[i as int]));
            i += 1;
        }
        assert(self@.extras.take(self.extras.len() as int) =~= self@.extras);
        if msg.as_str().len() > MESSAGE_LEN_MAX {
            return Err(ParseError::MessageTooLong);
        }
        Ok(msg)
    }
}


/// Extras that survive a trip through the wire text: keys hold neither `,`
/// nor `=`, values hold no `,`, and no pair is empty on both sides.
pub open spec fn extras_wf(ex: Seq<(Seq<char>, Seq<char>)>) -> bool {
    forall|i: int|
        0 <= i < ex.len() ==> {
            &&& !(#[trigger] ex[i]).0.contains(',')
            &&& !ex[i].0.contains('=')
            &&& !ex[i].1.contains(',')
            &&& (ex[i].0.len() > 0 || ex[i].1.len() > 0)
        }
}

proof fn lemma_render_extras_front(ex: Seq<(Seq<char>, Seq<char>)>)
    requires
        ex.len() > 0,
    ensures
        render_extras(ex) == render_extra_item(ex[0]) + render_extras(ex.drop_first()),
    decreases ex.len(),
{
    if ex.len() == 1 {
        assert(ex.drop_first() =~= Seq::<(Seq<char>, Seq<char>)>::empty());
        assert(ex.drop_last() =~= Seq::<(Seq<char>, Seq<char>)>::empty());
        assert(render_extras(ex.drop_last()) =~= Seq::<char>::empty());
        assert(render_extras(ex) =~= render_extra_item(ex[0]));
        assert(render_extras(ex.drop_first()) =~= Seq::<char>::empty());
    } else {
        lemma_render_extras_front(ex.drop_last());
        assert(ex.drop_last().drop_first() =~= ex.drop_first().drop_last());
        assert(ex.drop_first().last() == ex.last());
        assert(ex.drop_last()[0] == ex[0]);
    }
}

proof fn lemma_render_extras_starts_with_comma(ex: Seq<(Seq<char>, Seq<char>)>)
    requires
        ex.len() > 0,
    ensures
        render_extras(ex).len() > 0,
        render_extras(ex)[0] == ',',
{
    lemma_render_extras_front(ex);
}

proof fn lemma_parse_render_extras(ex: Seq<(Seq<char>, Seq<char>)>)
    requires
        extras_wf(ex),
    ensures
        ex.len() > 0 ==> parse_extras(render_extras(ex).drop_first()) == ex,
    decreases ex.len(),
{
    if ex.len() > 0 {
        lemma_render_extras_front(ex);
        let kv = ex[0];
        let rest = ex.drop_first();
        let item = if kv.1.len() == 0 {
            kv.0
        } else {
            kv.0 + seq!['='] + kv.1
        };
        let s = render_extras(ex).drop_first();
        assert(render_extra_item(kv) =~= seq![','] + item);
        assert(s =~= item + render_extras(rest));
        assert(!item.contains(',')) by {
            assert(extras_wf(ex) ==> !ex[0].0.contains(','));
            if item.contains(',') {
                let j = choose|j: int| 0 <= j < item.len() && item[j] == ',';
                if kv.1.len() != 0 && j > kv.0.len() {
                    assert(kv.1[j - kv.0.len() - 1] == ',');
                } else if kv.1.len() != 0 && j == kv.0.len() {
                } else {
                    assert(kv.0[j] == ',');
                }
            }
        }
        assert(item.len() > 0);
        assert(parse_extra_item(item) == kv) by {
            if kv.1.len() == 0 {
                assert forall|k: int| 0 <= k < item.len() implies item[k] != '=' by {
                    if item[k] == '=' {
                        assert(kv.0.contains('='));
                    }
                }
                crate::text::lemma_find_char_absent(item, '=');
            } else {
                assert forall|k: int| 0 <= k < kv.0.len() implies item[k] != '=' by {
                    if item[k] == '=' {
                        assert(kv.0[k] == '=');
                        assert(kv.0.contains('='));
                    }
                }
                crate::text::lemma_find_char_at(item, '=', kv.0.len() as int);
                assert(item.take(kv.0.len() as int) =~= kv.0);
                assert(item.skip(kv.0.len() as int + 1) =~= kv.1);
            }
        }
        assert forall|k: int| 0 <= k < item.len() implies s[k] != ',' by {
            if s[k] == ',' {
                assert(item[k] == ',');
            }
        }
        assert(extras_wf(rest)) by {
            assert forall|i: int| 0 <= i < rest.len() implies {
                &&& !(#[trigger] rest[i]).0.contains(',')
                &&& !rest[i].0.contains('=')
                &&& !rest[i].1.contains(',')
                &&& (rest[i].0.len() > 0 || rest[i].1.len() > 0)
            } by {
                assert(rest[i] == ex[i + 1]);
            }
        }
        if rest.len() == 0 {
            assert(render_extras(rest) =~= Seq::<char>::empty());
            assert(s =~= item);
            crate::text::lemma_find_char_absent(s, ',');
            assert(parse_extras(s) =~= seq![kv]);
            assert(ex =~= seq![kv]);
        } else {
            lemma_render_extras_starts_with_comma(rest);
            crate::text::lemma_find_char_at(s, ',', item.len() as int);
            lemma_parse_render_extras(rest);
            assert(s.take(item.len() as int) =~= item);
            assert(s.skip(item.len() as int + 1) =~= render_extras(rest).drop_first());
            assert(parse_extras(s) =~= seq![kv] + rest);
            assert(ex =~= seq![kv] + rest);
        }
    }
}

/// Reading back the text of a message gives the message: for every message
/// whose IDs are in range and whose extras satisfy `extras_wf`,
/// `parse_message(render_message(m)) == Ok(m)`.
pub proof fn lemma_message_roundtrip(m: MessageView)
    requires
        m.mid <= MSG_ID_MAX,
        m.cid <= CLIENT_ID_MAX,
        extras_wf(m.extras),
    ensures
        parse_message(render_message(m)) == Ok::<MessageView, ParseError>(m),
{
    let tt = type_text(m.mtype);
    let head = tt + seq!['@', digit_char(m.mid as int)];
    let payload = three_digits(m.cid as int) + render_extras(m.extras);
    let s = render_message(m);
    assert(s =~= head + seq![':'] + payload);
    assert(forall|k: int| 0 <= k < tt.len() ==> tt[k] != ':' && tt[k] != '@' && tt[k] != ',');
    assert(digit_char(m.mid as int) as int == m.mid + '0' as int);
    assert(digit_char(m.mid as int) != ':');
    assert forall|k: int| 0 <= k < head.len() implies s[k] != ':' by {
        if k < tt.len() {
            assert(s[k] == tt[k]);
        }
    }
    crate::text::lemma_find_char_at(s, ':', head.len() as int);
    assert(s.take(head.len() as int) =~= head);
    assert(s.skip(head.len() as int + 1) =~= payload);
    assert forall|k: int| 0 <= k < tt.len() implies head[k] != '@' by {
        assert(head[k] == tt[k]);
    }
    crate::text::lemma_find_char_at(head, '@', tt.len() as int);
    assert(head.take(tt.len() as int) =~= tt);
    assert(head.skip(tt.len() as int + 1) =~= seq![digit_char(m.mid as int)]);
    assert(type_of_text(tt) == Some(m.mtype));
    assert(parse_one_digit(seq![digit_char(m.mid as int)]) == Some(m.mid));
    crate::text::lemma_three_digits(m.cid as int);
    let t3 = three_digits(m.cid as int);
    assert(forall|k: int| 0 <= k < 3 ==> t3[k] != ',') by {
        let n = m.cid as int;
        assert(digit_char(n / 100) as int == n / 100 + '0' as int);
        assert(digit_char((n / 10) % 10) as int == (n / 10) % 10 + '0' as int);
        assert(digit_char(n % 10) as int == n % 10 + '0' as int);
    }
    if m.extras.len() == 0 {
        assert(render_extras(m.extras) =~= Seq::<char>::empty());
        assert(payload =~= t3);
        assert forall|k: int| 0 <= k < payload.len() implies payload[k] != ',' by {
            assert(payload[k] == t3[k]);
        }
        crate::text::lemma_find_char_absent(payload, ',');
        assert(m.extras =~= Seq::<(Seq<char>, Seq<char>)>::empty());
    } else {
        lemma_render_extras_starts_with_comma(m.extras);
        assert forall|k: int| 0 <= k < 3 implies payload[k] != ',' by {
            assert(payload[k] == t3[k]);
        }
        crate::text::lemma_find_char_at(payload, ',', 3);
        assert(payload.take(3) =~= t3);
        assert(payload.skip(4) =~= render_extras(m.extras).drop_first());
        lemma_parse_render_extras(m.extras);
    }
}


/// Each message type is read back from its text, and a text is read as a
/// type only when it is that type's text: `MessageType::from_str` undoes
/// `MessageType::as_str`, and reads nothing else as a type.
pub proof fn lemma_type_text_inverse(t: MessageType, s: Seq<char>)
    ensures
        type_of_text(type_text(t)) == Some(t),
        type_of_text(s) == Some(t) ==> s == type_text(t),
{
    assert forall|u: MessageType| type_text(u) == type_text(t) implies u == t by {
        assert(type_text(u).len() == type_text(t).len());
        assert(type_text(u)[0] == type_text(t)[0]);
    }
}


/// The value of the first extra with key `key`, as `Message::get_extra`
/// reads it.
pub open spec fn extra_value(ex: Seq<(Seq<char>, Seq<char>)>, key: Seq<char>) -> Option<Seq<char>> {
    match find_key(ex, key) {
        Some(i) => Some(ex[i].1),
        None => None,
    }
}

/// The extras after `Message::set_extra(key, value)`.
pub open spec fn extras_set(ex: Seq<(Seq<char>, Seq<char>)>, key: Seq<char>, value: Seq<char>) -> Seq<
    (Seq<char>, Seq<char>),
> {
    match find_key(ex, key) {
        Some(i) => ex.update(i, (key, value)),
        None => ex.push((key, value)),
    }
}

/// After `set_extra(key, value)`, `get_extra(key)` reads `value`, every
/// other key reads what it read before, and a new key is added at the end.
pub proof fn lemma_set_get_extra(
    ex: Seq<(Seq<char>, Seq<char>)>,
    key: Seq<char>,
    value: Seq<char>,
    other: Seq<char>,
)
    ensures
        extra_value(extras_set(ex, key, value), key) == Some(value),
        other != key ==> extra_value(extras_set(ex, key, value), other) == extra_value(ex, other),
        extras_set(ex, key, value).len() == ex.len() + (if find_key(ex, key) is None {
            1int
        } else {
            0int
        }),
        find_key(ex, key) is None ==> extras_set(ex, key, value).last() == (key, value),
{
    let ex1 = extras_set(ex, key, value);
    lemma_find_key(ex, key);
    lemma_find_key(ex, other);
    match find_key(ex, key) {
        Some(i) => {
            lemma_find_key_at(ex1, key, i);
            if other != key {
                match find_key(ex, other) {
                    Some(j) => {
                        assert(j != i);
                        lemma_find_key_at(ex1, other, j);
                    },
                    None => {
                        lemma_find_key_at(ex1, other, ex1.len() as int);
                    },
                }
            }
        },
        None => {
            lemma_find_key_at(ex1, key, ex.len() as int);
            if other != key {
                match find_key(ex, other) {
                    Some(j) => {
                        lemma_find_key_at(ex1, other, j);
                    },
                    None => {
                        lemma_find_key_at(ex1, other, ex1.len() as int);
                    },
                }
            }
        },
    }
}

} // verus!
