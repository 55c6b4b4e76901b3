//! The plain message format `TYPE:CID[,extra]*` used by the DPS client
//! library.
use vstd::prelude::*;

use crate::text::{
    chars_of, find_char, find_char_in, lemma_find_char_absent, lemma_find_char_at,
    lemma_split_commas_nonempty, lemma_split_render_items, lemma_three_digits, parse_three_digits,
    push_items, push_three_digits, read_parts, read_three_digits, render_items, split_commas,
    strings_view, sub_chars, three_digits,
};
use vstd::utf8::encode_utf8;

pub mod message;

verus! {

/// Client ID length in string.
pub const CLIENT_ID_LEN: usize = 3;

/// Maximum client ID in number.
pub const CLIENT_ID_MAX: u16 = 999;

/// Maximum message length in bytes.
pub const MESSAGE_LEN_MAX: usize = 512;

/// Parse error types.
#[derive(Debug, PartialEq, Eq, Clone, Copy, Structural)]
pub enum ParseError {
    TypeNotFound,
    InvalidType,
    ClientIdNotFound,
    InvalidClientId,
    MessageTooLong,
}

/// Message types.
#[derive(Debug, PartialEq, Eq, Clone, Copy, Structural)]
pub enum MessageType {
    Join,
    Ready,
    Done,
    Exit,
    Okay,
    Skip,
    Error,
}

/// The wire text of each message type.
pub open spec fn type_text(t: MessageType) -> Seq<char> {
    match t {
        MessageType::Join => seq!['J', 'O', 'I', 'N'],
        MessageType::Ready => seq!['R', 'E', 'A', 'D', 'Y'],
        MessageType::Done => seq!['D', 'O', 'N', 'E'],
        MessageType::Exit => seq!['E', 'X', 'I', 'T'],
        MessageType::Okay => seq!['O', 'K'],
        MessageType::Skip => seq!['S', 'K', 'I', 'P'],
        MessageType::Error => seq!['E', 'R', 'R', 'O', 'R'],
    }
}

/// The message type whose wire text is `s`, if any.
pub open spec fn type_of_text(s: Seq<char>) -> Option<MessageType> {
    if s == type_text(MessageType::Join) {
        Some(MessageType::Join)
    } else if s == type_text(MessageType::Ready) {
        Some(MessageType::Ready)
    } else if s == type_text(MessageType::Done) {
        Some(MessageType::Done)
    } else if s == type_text(MessageType::Exit) {
        Some(MessageType::Exit)
    } else if s == type_text(MessageType::Okay) {
        Some(MessageType::Okay)
    } else if s == type_text(MessageType::Skip) {
        Some(MessageType::Skip)
    } else if s == type_text(MessageType::Error) {
        Some(MessageType::Error)
    } else {
        None
    }
}

impl MessageType {
    fn literal(&self) -> (s: &'static str)
        ensures
            s@ == type_text(*self),
    {
        proof {
            reveal_strlit("JOIN");
            reveal_strlit("READY");
            reveal_strlit("DONE");
            reveal_strlit("EXIT");
            reveal_strlit("OK");
            reveal_strlit("SKIP");
            reveal_strlit("ERROR");
        }
        let s = match self {
            MessageType::Join => "JOIN",
            MessageType::Ready => "READY",
            MessageType::Done => "DONE",
            MessageType::Exit => "EXIT",
            MessageType::Okay => "OK",
            MessageType::Skip => "SKIP",
            MessageType::Error => "ERROR",
        };
        assert(s@ =~= type_text(*self));
        s
    }

    /// Convert message type to string.
    pub fn to_str(&self) -> (s: String)
        ensures
            s@ == type_text(*self),
    {
        String::from_str(self.literal())
    }

    /// Convert string to message type.
    pub fn from_str(s: &str) -> (r: Result<Self, ParseError>)
        ensures
            r == (match type_of_text(s@) {
                Some(t) => Ok(t),
                None => Err(ParseError::TypeNotFound),
            }),
    {
        let v = chars_of(s);
        Self::from_chars(&v)
    }

    /// Convert characters to message type.
    pub fn from_chars(v: &Vec<char>) -> (r: Result<Self, ParseError>)
        ensures
            r == (match type_of_text(v@) {
                Some(t) => Ok(t),
                None => Err(ParseError::TypeNotFound),
            }),
    {
        let all = [
            MessageType::Join,
            MessageType::Ready,
            MessageType::Done,
            MessageType::Exit,
            MessageType::Okay,
            MessageType::Skip,
            MessageType::Error,
        ];
        let mut i: usize = 0;
        while i < 7
            invariant
                i <= 7,
                all@ == seq![
                    MessageType::Join,
                    MessageType::Ready,
                    MessageType::Done,
                    MessageType::Exit,
                    MessageType::Okay,
                    MessageType::Skip,
                    MessageType::Error,
                ],
                forall|k: int| 0 <= k < i ==> v@ != type_text(#[trigger] all@[k]),
            decreases 7 - i,
        {
            let t = all[i];
            let text = chars_of(t.literal());
            if crate::text::chars_eq(v, &text) {
                return Ok(t);
            }
            i += 1;
        }
        assert(v@ != type_text(all@[0]));
        assert(v@ != type_text(all@[1]));
        assert(v@ != type_text(all@[2]));
        assert(v@ != type_text(all@[3]));
        assert(v@ != type_text(all@[4]));
        assert(v@ != type_text(all@[5]));
        assert(v@ != type_text(all@[6]));
        Err(ParseError::TypeNotFound)
    }
}

/// What a message holds, as mathematical values.
pub struct MessageView {
    pub mtype: MessageType,
    pub cid: u16,
    pub extras: Seq<Seq<char>>,
}

/// Message for DPS.
#[derive(Debug, Clone)]
pub struct Message {
    /// Message type.
    pub mtype: MessageType,
    /// Client ID.
    pub cid: u16,
    /// Extra info.
    pub extras: Vec<String>,
}

impl View for Message {
    type V = MessageView;

    open spec fn view(&self) -> MessageView {
        MessageView { mtype: self.mtype, cid: self.cid, extras: strings_view(self.extras@) }
    }
}

/// The message that the text `s` encodes, or the first error found.
pub open spec fn parse_message(s: Seq<char>) -> Result<MessageView, ParseError> {
    match find_char(s, ':') {
        None => Err(ParseError::TypeNotFound),
        Some(colon) => match type_of_text(s.take(colon)) {
            None => Err(ParseError::TypeNotFound),
            Some(t) => {
                let parts = split_commas(s.skip(colon + 1));
                match parse_three_digits(parts[0]) {
                    None => Err(ParseError::InvalidClientId),
                    Some(cid) => Ok(MessageView { mtype: t, cid: cid, extras: parts.drop_first() }),
                }
            },
        },
    }
}

/// The text of a message whose client ID is in range.
pub open spec fn render_message(m: MessageView) -> Seq<char> {
    type_text(m.mtype) + seq![':'] + three_digits(m.cid as int) + render_items(m.extras)
}

impl Message {
    /// Create a new message.
    pub fn new(message_type: MessageType, client_id: u16, extras: Option<Vec<String>>) -> (r:
        Result<Self, ParseError>)
        ensures
            client_id > CLIENT_ID_MAX ==> r == Err::<Message, ParseError>(
                ParseError::InvalidClientId,
            ),
            client_id <= CLIENT_ID_MAX ==> r is Ok && r->Ok_0@ == (MessageView {
                mtype: message_type,
                cid: client_id,
                extras: match extras {
                    Some(e) => strings_view(e@),
                    None => Seq::empty(),
                },
            }),
    {
        if client_id > CLIENT_ID_MAX {
            Err(ParseError::InvalidClientId)
        } else {
            let items = match extras {
                Some(e) => e,
                None => Vec::new(),
            };
            let m = Message { mtype: message_type, cid: client_id, extras: items };
            assert(m@.extras =~= match extras {
                Some(e) => strings_view(e@),
                None => Seq::empty(),
            });
            Ok(m)
        }
    }

    /// Create a new message from a string.
    pub fn from_msg(msg: &str) -> (r: Result<Self, ParseError>)
        ensures
            msg.len() > MESSAGE_LEN_MAX ==> r == Err::<Message, ParseError>(
                ParseError::MessageTooLong,
            ),
            msg.len() <= MESSAGE_LEN_MAX ==> match r {
                Ok(m) => parse_message(msg@) == Ok::<MessageView, ParseError>(m@),
                Err(e) => parse_message(msg@) == Err::<MessageView, ParseError>(e),
            },
    {
        if msg.len() > MESSAGE_LEN_MAX {
            return Err(ParseError::MessageTooLong);
        }
        let v = chars_of(msg);
        let n = v.len();
        let ghost sv = v@;
        assert(sv.subrange(0, n as int) =~= sv);
        let colon = match find_char_in(&v, ':', 0, n) {
            None => {
                return Err(ParseError::TypeNotFound);
            },
            Some(c) => c,
        };
        let type_chars = sub_chars(&v, 0, colon);
        assert(sv.take(colon as int) =~= type_chars@);
        let mtype = match MessageType::from_chars(&type_chars) {
            Ok(t) => t,
            Err(e) => {
                return Err(e);
            },
        };
        assert(sv.skip(colon + 1) =~= sv.subrange(colon + 1, n as int));
        let parts = read_parts(msg, &v, colon + 1, n);
        proof {
            lemma_split_commas_nonempty(sv.skip(colon + 1));
        }
        let first = chars_of(parts[0].as_str());
        assert(first@ == strings_view(parts@)[0]);
        let cid = match read_three_digits(&first, 0, first.len()) {
            None => {
                assert(first@.subrange(0, first@.len() as int) =~= first@);
                return Err(ParseError::InvalidClientId);
            },
            Some(c) => c,
        };
        assert(first@.subrange(0, first@.len() as int) =~= first@);
        let mut extras = parts;
        let _ = extras.remove(0);
        let m = Message { mtype, cid, extras };
        assert(m@.extras =~= split_commas(sv.skip(colon + 1)).drop_first());
        Ok(m)
    }

    /// Convert to a string.
    pub fn to_msg(&self) -> (r: Result<String, ParseError>)
        ensures
            self.cid > CLIENT_ID_MAX ==> r == Err::<String, ParseError>(
                ParseError::InvalidClientId,
            ),
            self.cid <= CLIENT_ID_MAX ==> ({
                let text = render_message(self@);
                if encode_utf8(text).len() as usize > MESSAGE_LEN_MAX {
                    r == Err::<String, ParseError>(ParseError::MessageTooLong)
                } else {
                    r is Ok && r->Ok_0@ == text
                }
            }),
    {
        if self.cid > CLIENT_ID_MAX {
            return Err(ParseError::InvalidClientId);
        }
        let mut msg = self.mtype.to_str();
        msg.append(":");
        proof {
            reveal_strlit(":");
        }
        push_three_digits(&mut msg, self.cid);
        push_items(&mut msg, &self.extras);
        assert(msg@ =~= render_message(self@));
        if msg.as_str().len() > MESSAGE_LEN_MAX {
            return Err(ParseError::MessageTooLong);
        }
        Ok(msg)
    }
}

/// Reading back the text of a message gives the message: for every message
/// whose client ID is in range and whose extras hold no comma,
/// `parse_message(render_message(m)) == Ok(m)`.
pub proof fn lemma_message_roundtrip(m: MessageView)
    requires
        m.cid <= CLIENT_ID_MAX,
        forall|i: int| 0 <= i < m.extras.len() ==> !(#[trigger] m.extras[i]).contains(','),
    ensures
        parse_message(render_message(m)) == Ok::<MessageView, ParseError>(m),
{
    let tt = type_text(m.mtype);
    let t3 = three_digits(m.cid as int);
    let s = render_message(m);
    let payload = t3 + render_items(m.extras);
    assert(s =~= tt + seq![':'] + payload);
    assert(forall|k: int| 0 <= k < tt.len() ==> tt[k] != ':');
    assert forall|k: int| 0 <= k < tt.len() implies s[k] != ':' by {
        assert(s[k] == tt[k]);
    }
    lemma_find_char_at(s, ':', tt.len() as int);
    assert(s.take(tt.len() as int) =~= tt);
    assert(s.skip(tt.len() as int + 1) =~= payload);
    assert(type_of_text(tt) == Some(m.mtype));
    lemma_three_digits(m.cid as int);
    assert(!t3.contains(',')) by {
        if t3.contains(',') {
            let j = choose|j: int| 0 <= j < t3.len() && t3[j] == ',';
            assert(crate::text::is_digit(t3[j]));
        }
    }
    lemma_split_render_items(t3, m.extras);
    assert((seq![t3] + m.extras).drop_first() =~= m.extras);
}

} // verus!
