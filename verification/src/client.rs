//! The DPS client's logic: its retry settings, the message ID of each
//! request, when a request goes out again, and what a reply means. The caller
//! owns the socket and the clock: it sends what a step asks for and hands the
//! outcome back.
use vstd::prelude::*;

use crate::dps_message::message::{
    parse_message, render_message, Message, MessageType, MessageView, ParseError, CLIENT_ID_MAX,
    MESSAGE_LEN_MAX, MSG_ID_MAX,
};
use crate::text::render_items;
use vstd::utf8::{encode_utf8, is_ascii_chars, is_ascii_chars_encode_utf8};

verus! {

/// Default wait for each `READY` retry at startup, in milliseconds.
pub const TIMEOUT_MS_READY_STARTUP_DEFAULT: u32 = 1000;

/// Retry intervals and counts of each request a client sends.
pub struct Config {
    pub retry_time_msec_join: u32,
    pub retry_count_join: u32,
    pub retry_time_msec_ready_startup: u32,
    pub retry_count_ready_startup: u32,
    pub retry_time_msec_ready: u32,
    pub retry_count_ready: u32,
    pub retry_time_msec_done: u32,
    pub retry_count_done: u32,
    pub retry_time_msec_exit: u32,
    pub retry_count_exit: u32,
}

impl Config {
    /// Settings for a process that runs every `run_cycle_time_ms` and may
    /// wait `startup_wait_ms` for the server at startup.
    pub fn new(run_cycle_time_ms: u32, startup_wait_ms: u32) -> (c: Self)
        ensures
            c.retry_time_msec_join == 20,
            c.retry_count_join == 3,
            c.retry_time_msec_ready_startup == TIMEOUT_MS_READY_STARTUP_DEFAULT,
            c.retry_count_ready_startup == startup_wait_ms / TIMEOUT_MS_READY_STARTUP_DEFAULT,
            c.retry_time_msec_ready == run_cycle_time_ms,
            c.retry_count_ready == 3,
            c.retry_time_msec_done == 50,
            c.retry_count_done == 3,
            c.retry_time_msec_exit == 20,
            c.retry_count_exit == 3,
    {
        Config {
            retry_time_msec_join: 20,
            retry_count_join: 3,
            retry_time_msec_ready_startup: TIMEOUT_MS_READY_STARTUP_DEFAULT,
            retry_count_ready_startup: startup_wait_ms / TIMEOUT_MS_READY_STARTUP_DEFAULT,
            retry_time_msec_ready: run_cycle_time_ms,
            retry_count_ready: 3,
            retry_time_msec_done: 50,
            retry_count_done: 3,
            retry_time_msec_exit: 20,
            retry_count_exit: 3,
        }
    }
}

/// What the client does next about the request in flight.
#[derive(Debug, PartialEq, Eq, Clone, Copy, Structural)]
pub enum Step {
    /// Send the request again and wait for its reply.
    Resend,
    /// The request is over, with this outcome.
    Finish(MessageType),
}

/// One request in flight.
#[derive(Debug, Clone, Copy)]
pub struct Request {
    /// What was asked.
    pub req_type: MessageType,
    /// The message ID that the reply must carry.
    pub mid: u8,
    /// Index of the current attempt: 0 for the first send.
    pub attempt: u32,
    /// How many times the request may go out again after the first send.
    pub retry_count: u32,
}

/// The message that a received text holds, or why it holds none.
pub open spec fn parse_reply(text: &str) -> Result<MessageView, ParseError> {
    if text.len() > MESSAGE_LEN_MAX {
        Err(ParseError::MessageTooLong)
    } else {
        parse_message(text@)
    }
}

/// `r` is `q` with one more attempt.
pub open spec fn next_attempt(q: Request, r: Request) -> bool {
    &&& r.req_type == q.req_type
    &&& r.mid == q.mid
    &&& r.retry_count == q.retry_count
    &&& r.attempt == q.attempt + 1
}

impl Request {
    /// The current attempt is one of those allowed.
    pub open spec fn wf(&self) -> bool {
        self.attempt <= self.retry_count
    }

    /// A request that has been sent once.
    pub fn new(req_type: MessageType, mid: u8, retry_count: u32) -> (r: Self)
        ensures
            r.wf(),
            r.req_type == req_type,
            r.mid == mid,
            r.attempt == 0,
            r.retry_count == retry_count,
    {
        Request { req_type, mid, attempt: 0, retry_count }
    }

    /// No reply came within the timeout: send again while retries are left,
    /// else give up with `Error`.
    pub fn on_timeout(&mut self) -> (s: Step)
        requires
            old(self).wf(),
        ensures
            final(self).wf(),
            old(self).attempt < old(self).retry_count ==> s == Step::Resend && next_attempt(
                *old(self),
                *final(self),
            ),
            old(self).attempt >= old(self).retry_count ==> s == Step::Finish(MessageType::Error)
                && *final(self) == *old(self),
    {
        if self.attempt < self.retry_count {
            self.attempt = self.attempt + 1;
            Step::Resend
        } else {
            Step::Finish(MessageType::Error)
        }
    }

    /// Sending, or receiving, failed for another reason than the timeout:
    /// the request ends with `Error`.
    pub fn on_failure(&self) -> (s: Step)
        ensures
            s == Step::Finish(MessageType::Error),
    {
        Step::Finish(MessageType::Error)
    }

    /// A reply arrived. One that cannot be read ends the request with
    /// `Error`; one for another message ID counts as no reply; one for this
    /// request ends it with the reply's type.
    pub fn on_reply(&mut self, text: &str) -> (s: Step)
        requires
            old(self).wf(),
        ensures
            final(self).wf(),
            match parse_reply(text) {
                Err(_) => s == Step::Finish(MessageType::Error) && *final(self) == *old(self),
                Ok(m) => if m.mid == old(self).mid {
                    s == Step::Finish(m.mtype) && *final(self) == *old(self)
                } else if old(self).attempt < old(self).retry_count {
                    s == Step::Resend && next_attempt(*old(self), *final(self))
                } else {
                    s == Step::Finish(MessageType::Error) && *final(self) == *old(self)
                },
            },
    {
        match Message::from_str(text) {
            Err(_) => Step::Finish(MessageType::Error),
            Ok(m) => {
                if m.mid == self.mid {
                    Step::Finish(m.mtype)
                } else {
                    self.on_timeout()
                }
            },
        }
    }
}

/// The message ID that follows `mid`: IDs run from 0 to 9 and wrap.
pub open spec fn next_mid(mid: u8) -> u8 {
    ((mid + 1) % 10) as u8
}

/// A request without extras fits well within `MESSAGE_LEN_MAX` bytes.
proof fn lemma_request_text_short(mtype: MessageType, mid: u8, cid: u16)
    requires
        mid <= MSG_ID_MAX,
        cid <= CLIENT_ID_MAX,
    ensures
        encode_utf8(
            render_message(MessageView { mtype, mid, cid, extras: Seq::empty() }),
        ).len() <= 11,
{
    let text = render_message(MessageView { mtype, mid, cid, extras: Seq::empty() });
    assert(render_items(Seq::<Seq<char>>::empty()) =~= Seq::<char>::empty());
    assert(text.len() <= 11);
    assert forall|i: int| 0 <= i < text.len() implies '\0' <= #[trigger] text[i] <= '\u{7f}' by {
        assert(0 <= (cid as int) / 100 <= 9);
        assert(0 <= ((cid as int) / 10) % 10 <= 9);
        assert(0 <= (cid as int) % 10 <= 9);
    }
    assert(is_ascii_chars(text));
    is_ascii_chars_encode_utf8(text);
}

/// What a session knows, as plain values.
pub struct SessionView {
    pub client_id: u16,
    pub connected: bool,
    pub startup: bool,
    pub message_id: u8,
    pub has_socket: bool,
}

/// The state of a client between its requests.
pub struct Session {
    client_id: u16,
    connected: bool,
    startup: bool,
    message_id: u8,
    has_socket: bool,
}

impl View for Session {
    type V = SessionView;

    closed spec fn view(&self) -> SessionView {
        SessionView {
            client_id: self.client_id,
            connected: self.connected,
            startup: self.startup,
            message_id: self.message_id,
            has_socket: self.has_socket,
        }
    }
}

impl Session {
    /// The message ID stays a single digit.
    #[verifier::type_invariant]
    spec fn inv(self) -> bool {
        self.message_id <= MSG_ID_MAX
    }

    /// A client that has not joined yet and holds no socket.
    pub fn new(client_id: u16) -> (s: Self)
        ensures
            s@ == (SessionView {
                client_id,
                connected: false,
                startup: true,
                message_id: 0,
                has_socket: false,
            }),
    {
        Session { client_id, connected: false, startup: true, message_id: 0, has_socket: false }
    }

    pub fn client_id(&self) -> (r: u16)
        ensures
            r == self@.client_id,
    {
        self.client_id
    }

    pub fn is_connected(&self) -> (r: bool)
        ensures
            r == self@.connected,
    {
        self.connected
    }

    pub fn is_startup(&self) -> (r: bool)
        ensures
            r == self@.startup,
    {
        self.startup
    }

    pub fn message_id(&self) -> (r: u8)
        ensures
            r == self@.message_id,
            r <= MSG_ID_MAX,
    {
        proof {
            use_type_invariant(self);
        }
        self.message_id
    }

    /// A socket was opened for the session.
    pub fn socket_opened(&mut self)
        ensures
            final(self)@ == (SessionView { has_socket: true, ..old(self)@ }),
    {
        proof {
            use_type_invariant(&*self);
        }
        self.has_socket = true;
    }

    /// Start a request: without a socket there is none; else the message ID
    /// advances and the request is returned with its text.
    pub fn begin_request(&mut self, req_type: MessageType, retry_count: u32) -> (r: Option<
        (Request, String),
    >)
        requires
            old(self)@.client_id <= CLIENT_ID_MAX,
        ensures
            !old(self)@.has_socket ==> r is None && final(self)@ == old(self)@,
            old(self)@.has_socket ==> {
                let mid = next_mid(old(self)@.message_id);
                &&& final(self)@ == (SessionView { message_id: mid, ..old(self)@ })
                &&& r matches Some((q, t)) && q.req_type == req_type && q.mid == mid && q.attempt
                    == 0 && q.retry_count == retry_count && t@ == render_message(
                    MessageView {
                        mtype: req_type,
                        mid,
                        cid: old(self)@.client_id,
                        extras: Seq::empty(),
                    },
                )
            },
    {
        proof {
            use_type_invariant(&*self);
        }
        if !self.has_socket {
            return None;
        }
        self.message_id = (self.message_id + 1) % 10;
        let request = match Message::new(req_type, self.message_id, self.client_id, None) {
            Ok(m) => m,
            Err(_) => {
                return None;
            },
        };
        assert(request@.extras =~= Seq::<Seq<char>>::empty());
        proof {
            lemma_request_text_short(req_type, self.message_id, self.client_id);
        }
        match request.to_str() {
            Ok(t) => Some((Request::new(req_type, self.message_id, retry_count), t)),
            Err(_) => None,
        }
    }

    /// The outcome of a `JOIN`: the client is connected, and back in its
    /// startup phase, when the server answered `OK`.
    pub fn finish_join(&mut self, reply: MessageType) -> (joined: bool)
        ensures
            joined == (reply == MessageType::Okay),
            joined ==> final(self)@ == (SessionView {
                connected: true,
                startup: true,
                ..old(self)@
            }),
            !joined ==> final(self)@ == old(self)@,
    {
        proof {
            use_type_invariant(&*self);
        }
        if reply == MessageType::Okay {
            self.connected = true;
            self.startup = true;
            true
        } else {
            false
        }
    }

    /// The wait and the retry count of a `READY`: the startup ones until the
    /// first `READY` is over.
    pub fn ready_limits(&self, config: &Config) -> (r: (u32, u32))
        ensures
            self@.startup ==> r == (
                config.retry_time_msec_ready_startup,
                config.retry_count_ready_startup,
            ),
            !self@.startup ==> r == (config.retry_time_msec_ready, config.retry_count_ready),
    {
        if self.startup {
            (config.retry_time_msec_ready_startup, config.retry_count_ready_startup)
        } else {
            (config.retry_time_msec_ready, config.retry_count_ready)
        }
    }

    /// A `READY` is over: the startup phase has ended.
    pub fn finish_ready(&mut self)
        ensures
            final(self)@ == (SessionView { startup: false, ..old(self)@ }),
    {
        proof {
            use_type_invariant(&*self);
        }
        self.startup = false;
    }

    /// An `EXIT` is over: the socket is closed and the client disconnected.
    pub fn finish_exit(&mut self)
        ensures
            old(self)@.has_socket ==> final(self)@ == (SessionView {
                has_socket: false,
                connected: false,
                ..old(self)@
            }),
            !old(self)@.has_socket ==> final(self)@ == old(self)@,
    {
        proof {
            use_type_invariant(&*self);
        }
        if self.has_socket {
            self.has_socket = false;
            self.connected = false;
        }
    }
}

} // verus!
