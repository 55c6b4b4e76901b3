//! The Ritsu client's logic: the message ID of each request, when a request
//! goes out again, which datagrams answer it and what the client learns from
//! the answer. The caller owns the socket and the clock (the waits are in
//! seconds and fractional): it sends what a step asks for, waits, and hands
//! the outcome back.
use vstd::prelude::*;

use crate::message::{
    extras_view, parse_message, render_message, Message, MessageType, MessageView, ParseError,
    CLIENT_ID_MAX, MESSAGE_LEN_MAX, MSG_ID_MAX, PROTOCOL_VERSION,
};
use vstd::utf8::encode_utf8;

verus! {

/// What the client does next about the request in flight.
pub enum Step {
    /// Send the request again and wait for its reply.
    Resend,
    /// Go on waiting for the reply until the wait is over.
    KeepWaiting,
    /// The request is over; this is its reply.
    Finish(Message),
}

/// One request in flight.
#[derive(Debug, Clone, Copy)]
pub struct Request {
    /// What was asked.
    pub req_type: MessageType,
    /// The message ID that the reply must carry.
    pub mid: u8,
    /// The client that asks.
    pub cid: u16,
    /// Index of the current attempt: 0 for the first send.
    pub attempt: u32,
    /// How many times the request may go out again after the first send.
    pub retry_count: u32,
}

/// The reply a request ends with when no answer is had.
pub open spec fn error_reply(mid: u8, cid: u16) -> MessageView {
    MessageView { mtype: MessageType::Error, mid, cid, extras: Seq::empty() }
}

/// The message that a received text holds, or why it holds none.
pub open spec fn parse_reply(text: &str) -> Result<MessageView, ParseError> {
    if text.len() > MESSAGE_LEN_MAX {
        Err(ParseError::MessageTooLong)
    } else {
        parse_message(text@)
    }
}

/// `r` is `q` with one more attempt.
pub open spec fn next_attempt(q: Request, r: Request) -> bool {
    &&& r.req_type == q.req_type
    &&& r.mid == q.mid
    &&& r.cid == q.cid
    &&& r.retry_count == q.retry_count
    &&& r.attempt == q.attempt + 1
}

/// The message `Error` of message ID `mid` from client `cid`.
fn error_message(mid: u8, cid: u16) -> (m: Message)
    requires
        mid <= MSG_ID_MAX,
        cid <= CLIENT_ID_MAX,
    ensures
        m@ == error_reply(mid, cid),
{
    match Message::new(MessageType::Error, mid, cid, None) {
        Ok(m) => m,
        Err(_) => {
            proof {
                assert(false);
            }
            Message { mtype: MessageType::Error, mid, cid, extras: Vec::new() }
        },
    }
}

impl Request {
    /// The IDs are in range and the current attempt is one of those allowed.
    pub open spec fn wf(&self) -> bool {
        &&& self.mid <= MSG_ID_MAX
        &&& self.cid <= CLIENT_ID_MAX
        &&& self.attempt <= self.retry_count
    }

    /// A request that has been sent once.
    pub fn new(req_type: MessageType, mid: u8, cid: u16, retry_count: u32) -> (r: Self)
        ensures
            r.req_type == req_type,
            r.mid == mid,
            r.cid == cid,
            r.attempt == 0,
            r.retry_count == retry_count,
    {
        Request { req_type, mid, cid, attempt: 0, retry_count }
    }

    /// The wait for a reply is over: send again while retries are left, else
    /// give up with `Error`.
    pub fn on_timeout(&mut self) -> (s: Step)
        requires
            old(self).wf(),
        ensures
            final(self).wf(),
            old(self).attempt < old(self).retry_count ==> s is Resend && next_attempt(
                *old(self),
                *final(self),
            ),
            old(self).attempt >= old(self).retry_count ==> (s matches Step::Finish(m) && m@
                == error_reply(old(self).mid, old(self).cid)) && *final(self) == *old(self),
    {
        if self.attempt < self.retry_count {
            self.attempt = self.attempt + 1;
            Step::Resend
        } else {
            Step::Finish(error_message(self.mid, self.cid))
        }
    }

    /// The request could not be sent: it ends with `Error`.
    pub fn on_send_failure(&self) -> (s: Step)
        requires
            self.wf(),
        ensures
            s matches Step::Finish(m) && m@ == error_reply(self.mid, self.cid),
    {
        Step::Finish(error_message(self.mid, self.cid))
    }

    /// Receiving failed for another reason than the end of the wait: the
    /// client goes on waiting.
    pub fn on_receive_failure(&self) -> (s: Step)
        ensures
            s is KeepWaiting,
    {
        Step::KeepWaiting
    }

    /// A datagram arrived. The reply to this request ends it; a text that
    /// cannot be read, or a reply to another message ID, is dropped and the
    /// client goes on waiting.
    pub fn on_reply(&self, text: &str) -> (s: Step)
        ensures
            match parse_reply(text) {
                Ok(m) if m.mid == self.mid => s matches Step::Finish(r) && r@ == m,
                _ => s is KeepWaiting,
            },
    {
        match Message::from_str(text) {
            Ok(m) => {
                if m.mid == self.mid {
                    Step::Finish(m)
                } else {
                    Step::KeepWaiting
                }
            },
            Err(_) => Step::KeepWaiting,
        }
    }
}

/// The message ID that follows `mid`: IDs run from 0 to 9 and wrap.
pub open spec fn next_mid(mid: u8) -> u8 {
    ((mid + 1) % 10) as u8
}

/// What a session knows, as plain values.
pub struct SessionView {
    pub client_id: u16,
    pub connected: bool,
    pub startup: bool,
    pub message_id: u8,
    pub has_socket: bool,
}

/// The state of a client between its requests.
pub struct Session {
    client_id: u16,
    connected: bool,
    startup: bool,
    message_id: u8,
    has_socket: bool,
}

impl View for Session {
    type V = SessionView;

    closed spec fn view(&self) -> SessionView {
        SessionView {
            client_id: self.client_id,
            connected: self.connected,
            startup: self.startup,
            message_id: self.message_id,
            has_socket: self.has_socket,
        }
    }
}

/// The extras of a `JOIN`: the protocol version the client speaks.
pub fn join_extras() -> (ex: Vec<(String, String)>)
    ensures
        extras_view(ex@) == seq![("version"@, PROTOCOL_VERSION@)],
{
    let mut ex: Vec<(String, String)> = Vec::new();
    ex.push((String::from_str("version"), String::from_str(PROTOCOL_VERSION)));
    assert(extras_view(ex@) =~= seq![("version"@, PROTOCOL_VERSION@)]);
    ex
}

impl Session {
    /// The message ID stays a single digit.
    #[verifier::type_invariant]
    spec fn inv(self) -> bool {
        self.message_id <= MSG_ID_MAX
    }

    /// A client that has not joined yet and holds no socket.
    pub fn new(client_id: u16) -> (s: Self)
        ensures
            s@ == (SessionView {
                client_id,
                connected: false,
                startup: true,
                message_id: 0,
                has_socket: false,
            }),
    {
        Session { client_id, connected: false, startup: true, message_id: 0, has_socket: false }
    }

    pub fn client_id(&self) -> (r: u16)
        ensures
            r == self@.client_id,
    {
        self.client_id
    }

    pub fn is_connected(&self) -> (r: bool)
        ensures
            r == self@.connected,
    {
        self.connected
    }

    pub fn is_startup(&self) -> (r: bool)
        ensures
            r == self@.startup,
    {
        self.startup
    }

    pub fn message_id(&self) -> (r: u8)
        ensures
            r == self@.message_id,
            r <= MSG_ID_MAX,
    {
        proof {
            use_type_invariant(self);
        }
        self.message_id
    }

    /// A socket was opened for the session.
    pub fn socket_opened(&mut self)
        ensures
            final(self)@ == (SessionView { has_socket: true, ..old(self)@ }),
    {
        proof {
            use_type_invariant(&*self);
        }
        self.has_socket = true;
    }

    /// Start a request. Without a socket there is none, and the answer is
    /// `Error` under the current message ID. Else the message ID advances;
    /// the request goes out with its text, unless the text is over
    /// `MESSAGE_LEN_MAX` bytes, when the answer is `Error` under the new ID.
    pub fn begin_request(
        &mut self,
        req_type: MessageType,
        retry_count: u32,
        extras: Option<Vec<(String, String)>>,
    ) -> (r: Result<(Request, String), Message>)
        requires
            old(self)@.client_id <= CLIENT_ID_MAX,
        ensures
            !old(self)@.has_socket ==> final(self)@ == old(self)@ && (r matches Err(m) && m@
                == error_reply(old(self)@.message_id, old(self)@.client_id)),
            old(self)@.has_socket ==> {
                let mid = next_mid(old(self)@.message_id);
                let text = render_message(
                    MessageView {
                        mtype: req_type,
                        mid,
                        cid: old(self)@.client_id,
                        extras: match extras {
                            Some(e) => extras_view(e@),
                            None => Seq::empty(),
                        },
                    },
                );
                &&& final(self)@ == (SessionView { message_id: mid, ..old(self)@ })
                &&& encode_utf8(text).len() as usize > MESSAGE_LEN_MAX ==> (r matches Err(m)
                    && m@ == error_reply(mid, old(self)@.client_id))
                &&& encode_utf8(text).len() as usize <= MESSAGE_LEN_MAX ==> (r matches Ok((q, t))
                    && q.req_type == req_type && q.mid == mid && q.cid == old(self)@.client_id
                    && q.attempt == 0 && q.retry_count == retry_count && t@ == text)
            },
    {
        proof {
            use_type_invariant(&*self);
        }
        if !self.has_socket {
            return Err(error_message(self.message_id, self.client_id));
        }
        self.message_id = (self.message_id + 1) % 10;
        let request = match Message::new(req_type, self.message_id, self.client_id, extras) {
            Ok(m) => m,
            Err(_) => {
                return Err(error_message(self.message_id, self.client_id));
            },
        };
        match request.to_str() {
            Ok(t) => Ok((Request::new(req_type, self.message_id, self.client_id, retry_count), t)),
            Err(_) => Err(error_message(self.message_id, self.client_id)),
        }
    }

    /// The outcome of a `JOIN`: the client is connected, and back in its
    /// startup phase, when the server answered `JOINED`.
    pub fn finish_join(&mut self, reply: &Message) -> (joined: bool)
        ensures
            joined == (reply.mtype == MessageType::Joined),
            joined ==> final(self)@ == (SessionView {
                connected: true,
                startup: true,
                ..old(self)@
            }),
            !joined ==> final(self)@ == old(self)@,
    {
        proof {
            use_type_invariant(&*self);
        }
        if reply.mtype == MessageType::Joined {
            self.connected = true;
            self.startup = true;
            true
        } else {
            false
        }
    }

    /// A `READY` is over: the startup phase has ended.
    pub fn finish_ready(&mut self)
        ensures
            final(self)@ == (SessionView { startup: false, ..old(self)@ }),
    {
        proof {
            use_type_invariant(&*self);
        }
        self.startup = false;
    }

    /// An `EXIT` is over: the socket is closed and the client disconnected.
    pub fn finish_exit(&mut self)
        ensures
            old(self)@.has_socket ==> final(self)@ == (SessionView {
                has_socket: false,
                connected: false,
                ..old(self)@
            }),
            !old(self)@.has_socket ==> final(self)@ == old(self)@,
    {
        proof {
            use_type_invariant(&*self);
        }
        if self.has_socket {
            self.has_socket = false;
            self.connected = false;
        }
    }
}

} // verus!
