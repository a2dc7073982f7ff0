//! The connection-level state machine: it sequences exactly one in-flight
//! request/response exchange, refuses a second send without a completed
//! cycle, and enforces that a content-length body is written with exactly
//! the declared number of bytes.
//!
//! The machine is pure: the caller performs the transport reads and
//! writes and reports them here, so every guard below is checked before
//! any wire traffic can happen.

use vstd::prelude::*;
use crate::Error;

verus! {

/// Where a connection stands in its single request/response exchange.
/// `Sending` refines the transition from `Idle` to `RequestSent`: the
/// request head has been committed and declared body bytes are being
/// counted.
#[derive(Clone, Copy, Debug, PartialEq, Eq, Structural)]
pub enum ConnState {
    /// No exchange in flight; a request may be sent.
    Idle,
    /// A send was started; body bytes are being counted.
    Sending,
    /// The request, head and body, went out in full.
    RequestSent,
    /// Response head bytes are being read.
    HeadersPending,
    /// The head is parsed; body bytes are being read.
    BodyPending,
    /// The response body was consumed exactly.
    Complete,
    /// The connection must be discarded; no further request is allowed.
    Closed,
}

/// How the body of an outgoing request is framed.
#[derive(Clone, Copy, Debug, PartialEq, Eq, Structural)]
pub enum RequestBody {
    /// Exactly this many body bytes will be written.
    ContentLength(usize),
    /// The body is uploaded as length-prefixed chunks.
    Chunked,
}

/// The connection state machine.
pub struct ConnFsm {
    /// Current state.
    pub state: ConnState,
    /// Declared content length of the request body, if one was declared.
    pub declared: Option<usize>,
    /// Body bytes reported written so far for the current send.
    pub written: usize,
}

impl ConnFsm {
    /// A fresh connection, ready for one request.
    pub fn new() -> (c: ConnFsm)
        ensures
            c.state == ConnState::Idle,
            c.declared is None,
            c.written == 0,
    {
        ConnFsm { state: ConnState::Idle, declared: None, written: 0 }
    }

    /// Begins a send.  In any state but `Idle` this fails with
    /// `AlreadySent` and changes nothing, so no wire traffic belongs to
    /// the refused call.
    pub fn start_request(&mut self, body: RequestBody) -> (r: Result<(), Error>)
        ensures
            match r {
                Ok(()) => old(self).state == ConnState::Idle && final(self).state
                    == ConnState::Sending && final(self).written == 0 && final(self).declared == (
                match body {
                    RequestBody::ContentLength(n) => Some(n),
                    RequestBody::Chunked => None::<usize>,
                }),
                Err(e) => e == Error::AlreadySent && old(self).state != ConnState::Idle && *final(self) == *old(self),
            },
    {
        match self.state {
            ConnState::Idle => {
                self.state = ConnState::Sending;
                self.written = 0;
                self.declared = match body {
                    RequestBody::ContentLength(n) => Some(n),
                    RequestBody::Chunked => None,
                };
                Ok(())
            },
            _ => Err(Error::AlreadySent),
        }
    }

    /// Records that `n` more body bytes went out.  Writing past a
    /// declared content length fails with `IncorrectBodyWritten` and
    /// closes the connection.
    pub fn note_body_written(&mut self, n: usize) -> (r: Result<(), Error>)
        requires
            old(self).state == ConnState::Sending,
            old(self).written + n <= usize::MAX,
        ensures
            final(self).declared == old(self).declared,
            match r {
                Ok(()) => final(self).state == ConnState::Sending && final(self).written == old(self).written + n && (match old(self).declared {
                    Some(d) => old(self).written + n <= d,
                    None => true,
                }),
                Err(e) => e == Error::IncorrectBodyWritten && final(self).state
                    == ConnState::Closed && (match old(self).declared {
                    Some(d) => old(self).written + n > d,
                    None => false,
                }),
            },
    {
        let total = self.written + n;
        match self.declared {
            Some(d) => {
                if total > d {
                    self.state = ConnState::Closed;
                    return Err(Error::IncorrectBodyWritten);
                }
            },
            None => {},
        }
        self.written = total;
        Ok(())
    }

    /// Ends the send.  With a declared content length the written count
    /// must equal it exactly; otherwise the send is refused with
    /// `IncorrectBodyWritten` and the connection closes.
    pub fn finish_send(&mut self) -> (r: Result<(), Error>)
        requires
            old(self).state == ConnState::Sending,
        ensures
            final(self).declared == old(self).declared,
            final(self).written == old(self).written,
            match r {
                Ok(()) => final(self).state == ConnState::RequestSent && (match old(self).declared {
                    Some(d) => old(self).written == d,
                    None => true,
                }),
                Err(e) => e == Error::IncorrectBodyWritten && final(self).state
                    == ConnState::Closed && (match old(self).declared {
                    Some(d) => old(self).written != d,
                    None => false,
                }),
            },
    {
        match self.declared {
            Some(d) => {
                if self.written != d {
                    self.state = ConnState::Closed;
                    return Err(Error::IncorrectBodyWritten);
                }
            },
            None => {},
        }
        self.state = ConnState::RequestSent;
        Ok(())
    }

    /// The caller began reading the response head.
    pub fn start_reading(&mut self)
        requires
            old(self).state == ConnState::RequestSent,
        ensures
            final(self).state == ConnState::HeadersPending,
            final(self).declared == old(self).declared,
            final(self).written == old(self).written,
    {
        self.state = ConnState::HeadersPending;
    }

    /// The response head was parsed in full.
    pub fn headers_received(&mut self)
        requires
            old(self).state == ConnState::HeadersPending,
        ensures
            final(self).state == ConnState::BodyPending,
            final(self).declared == old(self).declared,
            final(self).written == old(self).written,
    {
        self.state = ConnState::BodyPending;
    }

    /// The response body was consumed exactly to its end.
    pub fn body_complete(&mut self)
        requires
            old(self).state == ConnState::BodyPending,
        ensures
            final(self).state == ConnState::Complete,
            final(self).declared == old(self).declared,
            final(self).written == old(self).written,
    {
        self.state = ConnState::Complete;
    }

    /// Ends a completed cycle.  Only when the transport can be reused
    /// does the connection return to `Idle` for another request;
    /// otherwise it closes and must be discarded.
    pub fn finish_cycle(&mut self, keep_alive: bool)
        requires
            old(self).state == ConnState::Complete,
        ensures
            final(self).state == (if keep_alive {
                ConnState::Idle
            } else {
                ConnState::Closed
            }),
            final(self).declared is None,
            final(self).written == 0,
    {
        self.declared = None;
        self.written = 0;
        self.state = if keep_alive {
            ConnState::Idle
        } else {
            ConnState::Closed
        };
    }

    /// A transport error, malformed wire data, or an explicit close:
    /// the connection is closed from any state.
    pub fn close(&mut self)
        ensures
            final(self).state == ConnState::Closed,
            final(self).declared == old(self).declared,
            final(self).written == old(self).written,
    {
        self.state = ConnState::Closed;
    }
}

} // verus!
