//! The DPS message format that carries a message ID:
//! `TYPE@MID:CID[,extra]*`.
use vstd::prelude::*;

use crate::text::{
    chars_eq, chars_of, digit_char, digit_str, find_char, find_char_in, lemma_find_char_at,
    lemma_split_commas_nonempty, lemma_split_render_items, lemma_three_digits, parse_one_digit,
    parse_three_digits, push_items, push_three_digits, read_one_digit, read_parts,
    read_three_digits, render_items, split_commas, strings_view, sub_chars, three_digits,
};
use vstd::utf8::encode_utf8;

verus! {

/// Message ID length in string.
pub const MSG_ID_LEN: usize = 1;

/// Maximum message ID in number.
pub const MSG_ID_MAX: u8 = 9;

/// Client ID length in string.
pub const CLIENT_ID_LEN: usize = 3;

/// Maximum client ID in number.
pub const CLIENT_ID_MAX: u16 = 999;

/// Maximum message length in bytes.
pub const MESSAGE_LEN_MAX: usize = 512;

/// Parse error types.
#[derive(Debug, PartialEq, Eq, Clone, Copy, Structural)]
pub enum ParseError {
    TypeNotFound,
    MessageIdNotFound,
    InvalidMessageId,
    InvalidClientId,
    MessageTooLong,
}

/// Message types.
#[derive(Debug, PartialEq, Eq, Clone, Copy, Structural)]
pub enum MessageType {
    Join,
    Ready,
    Done,
    Exit,
    Okay,
    Skip,
    Late,
    Error,
}

/// The wire text of each message type.
pub open spec fn type_text(t: MessageType) -> Seq<char> {
    match t {
        MessageType::Join => seq!['J', 'O', 'I', 'N'],
        MessageType::Ready => seq!['R', 'E', 'A', 'D', 'Y'],
        MessageType::Done => seq!['D', 'O', 'N', 'E'],
        MessageType::Exit => seq!['E', 'X', 'I', 'T'],
        MessageType::Okay => seq!['O', 'K'],
        MessageType::Skip => seq!['S', 'K', 'I', 'P'],
        MessageType::Late => seq!['L', 'A', 'T', 'E'],
        MessageType::Error => seq!['E', 'R', 'R', 'O', 'R'],
    }
}

/// The message type whose wire text is `s`, if any.
pub open spec fn type_of_text(s: Seq<char>) -> Option<MessageType> {
    if s == type_text(MessageType::Join) {
        Some(MessageType::Join)
    } else if s == type_text(MessageType::Ready) {
        Some(MessageType::Ready)
    } else if s == type_text(MessageType::Done) {
        Some(MessageType::Done)
    } else if s == type_text(MessageType::Exit) {
        Some(MessageType::Exit)
    } else if s == type_text(MessageType::Okay) {
        Some(MessageType::Okay)
    } else if s == type_text(MessageType::Skip) {
        Some(MessageType::Skip)
    } else if s == type_text(MessageType::Late) {
        Some(MessageType::Late)
    } else if s == type_text(MessageType::Error) {
        Some(MessageType::Error)
    } else {
        None
    }
}

impl MessageType {
    fn literal(&self) -> (s: &'static str)
        ensures
            s@ == type_text(*self),
    {
        proof {
            reveal_strlit("JOIN");
            reveal_strlit("READY");
            reveal_strlit("DONE");
            reveal_strlit("EXIT");
            reveal_strlit("OK");
            reveal_strlit("SKIP");
            reveal_strlit("LATE");
            reveal_strlit("ERROR");
        }
        let s = match self {
            MessageType::Join => "JOIN",
            MessageType::Ready => "READY",
            MessageType::Done => "DONE",
            MessageType::Exit => "EXIT",
            MessageType::Okay => "OK",
            MessageType::Skip => "SKIP",
            MessageType::Late => "LATE",
            MessageType::Error => "ERROR",
        };
        assert(s@ =~= type_text(*self));
        s
    }

    /// Convert message type to string.
    pub fn to_str(&self) -> (s: String)
        ensures
            s@ == type_text(*self),
    {
        String::from_str(self.literal())
    }

    /// Convert string to message type.
    pub fn from_str(s: &str) -> (r: Result<Self, ParseError>)
        ensures
            r == (match type_of_text(s@) {
                Some(t) => Ok(t),
                None => Err(ParseError::TypeNotFound),
            }),
    {
        let v = chars_of(s);
        Self::from_chars(&v)
    }

    /// Convert characters to message type.
    pub fn from_chars(v: &Vec<char>) -> (r: Result<Self, ParseError>)
        ensures
            r == (match type_of_text(v@) {
                Some(t) => Ok(t),
                None => Err(ParseError::TypeNotFound),
            }),
    {
        let all = [
            MessageType::Join,
            MessageType::Ready,
            MessageType::Done,
            MessageType::Exit,
            MessageType::Okay,
            MessageType::Skip,
            MessageType::Late,
            MessageType::Error,
        ];
        let mut i: usize = 0;
        while i < 8
            invariant
                i <= 8,
                all@ == seq![
                    MessageType::Join,
                    MessageType::Ready,
                    MessageType::Done,
                    MessageType::Exit,
                    MessageType::Okay,
                    MessageType::Skip,
                    MessageType::Late,
                    MessageType::Error,
                ],
                forall|k: int| 0 <= k < i ==> v@ != type_text(#[trigger] all@[k]),
            decreases 8 - i,
        {
            let t = all[i];
            let text = chars_of(t.literal());
            if chars_eq(v, &text) {
                return Ok(t);
            }
            i += 1;
        }
        assert(v@ != type_text(all@[0]));
        assert(v@ != type_text(all@[1]));
        assert(v@ != type_text(all@[2]));
        assert(v@ != type_text(all@[3]));
        assert(v@ != type_text(all@[4]));
        assert(v@ != type_text(all@[5]));
        assert(v@ != type_text(all@[6]));
        assert(v@ != type_text(all@[7]));
        Err(ParseError::TypeNotFound)
    }
}

/// What a message holds, as mathematical values.
pub struct MessageView {
    pub mtype: MessageType,
    pub mid: u8,
    pub cid: u16,
    pub extras: Seq<Seq<char>>,
}

/// Message for DPS.
#[derive(Debug, Clone)]
pub struct Message {
    /// Message type.
    pub mtype: MessageType,
    /// Message ID.
    pub mid: u8,
    /// Client ID.
    pub cid: u16,
    /// Extra info.
    pub extras: Vec<String>,
}

impl View for Message {
    type V = MessageView;

    open spec fn view(&self) -> MessageView {
        MessageView {
            mtype: self.mtype,
            mid: self.mid,
            cid: self.cid,
            extras: strings_view(self.extras@),
        }
    }
}

/// The message that the text `s` encodes, or the first error found: type,
/// message ID, client ID.
pub open spec fn parse_message(s: Seq<char>) -> Result<MessageView, ParseError> {
    match find_char(s, ':') {
        None => Err(ParseError::TypeNotFound),
        Some(colon) => {
            let header = s.take(colon);
            match find_char(header, '@') {
                None => Err(ParseError::MessageIdNotFound),
                Some(at) => match type_of_text(header.take(at)) {
                    None => Err(ParseError::TypeNotFound),
                    Some(t) => match parse_one_digit(header.skip(at + 1)) {
                        None => Err(ParseError::InvalidMessageId),
                        Some(mid) => {
                            let parts = split_commas(s.skip(colon + 1));
                            match parse_three_digits(parts[0]) {
                                None => Err(ParseError::InvalidClientId),
                                Some(cid) => Ok(
                                    MessageView {
                                        mtype: t,
                                        mid: mid,
                                        cid: cid,
                                        extras: parts.drop_first(),
                                    },
                                ),
                            }
                        },
                    },
                },
            }
        },
    }
}

/// The text of a message whose IDs are in range.
pub open spec fn render_message(m: MessageView) -> Seq<char> {
    type_text(m.mtype) + seq!['@', digit_char(m.mid as int), ':'] + three_digits(m.cid as int)
        + render_items(m.extras)
}

impl Message {
    /// Create a new message.
    pub fn new(
        message_type: MessageType,
        message_id: u8,
        client_id: u16,
        extras: Option<Vec<String>>,
    ) -> (r: Result<Self, ParseError>)
        ensures
            client_id > CLIENT_ID_MAX ==> r == Err::<Message, ParseError>(
                ParseError::InvalidClientId,
            ),
            client_id <= CLIENT_ID_MAX && message_id > MSG_ID_MAX ==> r == Err::<
                Message,
                ParseError,
            >(ParseError::InvalidMessageId),
            client_id <= CLIENT_ID_MAX && message_id <= MSG_ID_MAX ==> r is Ok && r->Ok_0@ == (
            MessageView {
                mtype: message_type,
                mid: message_id,
                cid: client_id,
                extras: match extras {
                    Some(e) => strings_view(e@),
                    None => Seq::empty(),
                },
            }),
    {
        if client_id > CLIENT_ID_MAX {
            return Err(ParseError::InvalidClientId);
        }
        if message_id > MSG_ID_MAX {
            return Err(ParseError::InvalidMessageId);
        }
        let items = match extras {
            Some(e) => e,
            None => Vec::new(),
        };
        let m = Message { mtype: message_type, mid: message_id, cid: client_id, extras: items };
        assert(m@.extras =~= match extras {
            Some(e) => strings_view(e@),
            None => Seq::empty(),
        });
        Ok(m)
    }

    /// Create a new message from a string.
    pub fn from_str(msg: &str) -> (r: Result<Self, ParseError>)
        ensures
            msg.len() > MESSAGE_LEN_MAX ==> r == Err::<Message, ParseError>(
                ParseError::MessageTooLong,
            ),
            msg.len() <= MESSAGE_LEN_MAX ==> match r {
                Ok(m) => parse_message(msg@) == Ok::<MessageView, ParseError>(m@),
                Err(e) => parse_message(msg@) == Err::<MessageView, ParseError>(e),
            },
    {
        if msg.len() > MESSAGE_LEN_MAX {
            return Err(ParseError::MessageTooLong);
        }
        let v = chars_of(msg);
        let n = v.len();
        let ghost sv = v@;
        assert(sv.subrange(0, n as int) =~= sv);
        let colon = match find_char_in(&v, ':', 0, n) {
            None => {
                return Err(ParseError::TypeNotFound);
            },
            Some(c) => c,
        };
        let ghost header = sv.take(colon as int);
        assert(header =~= sv.subrange(0, colon as int));
        let at = match find_char_in(&v, '@', 0, colon) {
            None => {
                return Err(ParseError::MessageIdNotFound);
            },
            Some(a) => a,
        };
        let type_chars = sub_chars(&v, 0, at);
        assert(header.take(at as int) =~= type_chars@);
        let mtype = match MessageType::from_chars(&type_chars) {
            Ok(t) => t,
            Err(e) => {
                return Err(e);
            },
        };
        assert(header.skip(at + 1) =~= sv.subrange(at + 1, colon as int));
        let mid = match read_one_digit(&v, at + 1, colon) {
            None => {
                return Err(ParseError::InvalidMessageId);
            },
            Some(d) => d,
        };
        assert(sv.skip(colon + 1) =~= sv.subrange(colon + 1, n as int));
        let parts = read_parts(msg, &v, colon + 1, n);
        proof {
            lemma_split_commas_nonempty(sv.skip(colon + 1));
        }
        let first = chars_of(parts[0].as_str());
        assert(first@ == strings_view(parts@)[0]);
        let cid = match read_three_digits(&first, 0, first.len()) {
            None => {
                assert(first@.subrange(0, first@.len() as int) =~= first@);
                return Err(ParseError::InvalidClientId);
            },
            Some(c) => c,
        };
        assert(first@.subrange(0, first@.len() as int) =~= first@);
        let mut extras = parts;
        let _ = extras.remove(0);
        let m = Message { mtype, mid, cid, extras };
        assert(m@.extras =~= split_commas(sv.skip(colon + 1)).drop_first());
        Ok(m)
    }

    /// Convert to a string.
    pub fn to_str(&self) -> (r: Result<String, ParseError>)
        ensures
            self.mid > MSG_ID_MAX ==> r == Err::<String, ParseError>(ParseError::InvalidMessageId),
            self.mid <= MSG_ID_MAX && self.cid > CLIENT_ID_MAX ==> r == Err::<String, ParseError>(
                ParseError::InvalidClientId,
            ),
            self.mid <= MSG_ID_MAX && self.cid <= CLIENT_ID_MAX ==> ({
                let text = render_message(self@);
                if encode_utf8(text).len() as usize > MESSAGE_LEN_MAX {
                    r == Err::<String, ParseError>(ParseError::MessageTooLong)
                } else {
                    r is Ok && r->Ok_0@ == text
                }
            }),
    {
        if self.mid > MSG_ID_MAX {
            return Err(ParseError::InvalidMessageId);
        }
        if self.cid > CLIENT_ID_MAX {
            return Err(ParseError::InvalidClientId);
        }
        let mut msg = self.mtype.to_str();
        msg.append("@");
        msg.append(digit_str(self.mid));
        msg.append(":");
        proof {
            reveal_strlit("@");
            reveal_strlit(":");
        }
        push_three_digits(&mut msg, self.cid);
        push_items(&mut msg, &self.extras);
        assert(msg@ =~= render_message(self@));
        if msg.as_str().len() > MESSAGE_LEN_MAX {
            return Err(ParseError::MessageTooLong);
        }
        Ok(msg)
    }
}

/// Reading back the text of a message gives the message: for every message
/// whose IDs are in range and whose extras hold no comma,
/// `parse_message(render_message(m)) == Ok(m)`.
pub proof fn lemma_message_roundtrip(m: MessageView)
    requires
        m.mid <= MSG_ID_MAX,
        m.cid <= CLIENT_ID_MAX,
        forall|i: int| 0 <= i < m.extras.len() ==> !(#[trigger] m.extras[i]).contains(','),
    ensures
        parse_message(render_message(m)) == Ok::<MessageView, ParseError>(m),
{
    let tt = type_text(m.mtype);
    let head = tt + seq!['@', digit_char(m.mid as int)];
    let t3 = three_digits(m.cid as int);
    let payload = t3 + render_items(m.extras);
    let s = render_message(m);
    assert(s =~= head + seq![':'] + payload);
    assert(forall|k: int| 0 <= k < tt.len() ==> tt[k] != ':' && tt[k] != '@');
    assert(digit_char(m.mid as int) as int == m.mid + '0' as int);
    assert forall|k: int| 0 <= k < head.len() implies s[k] != ':' by {
        if k < tt.len() {
            assert(s[k] == tt[k]);
        }
    }
    lemma_find_char_at(s, ':', head.len() as int);
    assert(s.take(head.len() as int) =~= head);
    assert(s.skip(head.len() as int + 1) =~= payload);
    assert forall|k: int| 0 <= k < tt.len() implies head[k] != '@' by {
        assert(head[k] == tt[k]);
    }
    lemma_find_char_at(head, '@', tt.len() as int);
    assert(head.take(tt.len() as int) =~= tt);
    assert(head.skip(tt.len() as int + 1) =~= seq![digit_char(m.mid as int)]);
    assert(type_of_text(tt) == Some(m.mtype));
    assert(parse_one_digit(seq![digit_char(m.mid as int)]) == Some(m.mid));
    lemma_three_digits(m.cid as int);
    assert(!t3.contains(',')) by {
        if t3.contains(',') {
            let j = choose|j: int| 0 <= j < t3.len() && t3[j] == ',';
            assert(crate::text::is_digit(t3[j]));
        }
    }
    lemma_split_render_items(t3, m.extras);
    assert((seq![t3] + m.extras).drop_first() =~= m.extras);
}

} // verus!
