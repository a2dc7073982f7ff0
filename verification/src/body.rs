//! Body decoding: a resumable byte machine that applies the framing the
//! response head declared — exact content length, chunked transfer
//! encoding, or body-until-close — and yields the decoded body bytes as
//! spans of the caller's input.
//!
//! The machine consumes one byte at a time in the specification
//! (`body_step`), so its behaviour over a stream is independent of how
//! the transport splits that stream into reads.

use vstd::prelude::*;
use crate::Error;
use crate::text::{is_hex_digit, hex_digit_val};

verus! {

/// Body framing derived from the response head.
#[derive(Clone, Copy, Debug, PartialEq, Eq, Structural)]
pub enum BodyFraming {
    /// The body is exactly this many bytes.
    ContentLength(usize),
    /// The body is a sequence of length-prefixed chunks.
    Chunked,
    /// Every byte until end-of-stream is body.
    UntilClose,
}

/// The state of the body machine between two bytes.
#[derive(Clone, Copy, Debug, PartialEq, Eq, Structural)]
pub enum BodyState {
    /// Content-length framing: this many body bytes are still owed.
    ClRem { rem: usize },
    /// Unframed: every byte is body until the stream ends.
    Unframed,
    /// Chunked: inside the hexadecimal chunk-size value; `got` records
    /// whether at least one digit was seen.
    Size { val: usize, got: bool },
    /// Chunked: inside a chunk extension, skipped until CR.
    Ext { val: usize },
    /// Chunked: CR of the size line seen, LF expected.
    SizeLf { val: usize },
    /// Chunked: this many data bytes of the current chunk remain.
    Data { rem: usize },
    /// Chunked: chunk data done, CR expected.
    DataCr,
    /// Chunked: LF expected after the CR that follows chunk data.
    DataLf,
    /// Chunked: at the start of a trailer line.
    TrailStart,
    /// Chunked: inside a trailer name.
    TrailName,
    /// Chunked: inside a trailer value.
    TrailValue,
    /// Chunked: CR of a trailer line seen, LF expected.
    TrailLf,
    /// Chunked: CR of the blank line seen, final LF expected.
    EndLf,
    /// End of body.
    Done,
    /// Malformed framing.
    Failed,
}

/// One step of the body machine: the next state and the body bytes (none
/// or exactly the input byte) that this input byte contributes.
pub open spec fn body_step(st: BodyState, b: u8) -> (BodyState, Seq<u8>) {
    match st {
        BodyState::ClRem { rem } => if rem <= 1 {
            (BodyState::Done, seq![b])
        } else {
            (BodyState::ClRem { rem: (rem - 1) as usize }, seq![b])
        },
        BodyState::Unframed => (BodyState::Unframed, seq![b]),
        BodyState::Size { val, got } => if is_hex_digit(b) {
            if val * 16 + hex_digit_val(b) > usize::MAX {
                (BodyState::Failed, Seq::empty())
            } else {
                (
                    BodyState::Size { val: (val * 16 + hex_digit_val(b)) as usize, got: true },
                    Seq::empty(),
                )
            }
        } else if b == 59 && got {
            (BodyState::Ext { val }, Seq::empty())
        } else if b == 13 && got {
            (BodyState::SizeLf { val }, Seq::empty())
        } else {
            (BodyState::Failed, Seq::empty())
        },
        BodyState::Ext { val } => if b == 13 {
            (BodyState::SizeLf { val }, Seq::empty())
        } else if b == 10 {
            (BodyState::Failed, Seq::empty())
        } else {
            (BodyState::Ext { val }, Seq::empty())
        },
        BodyState::SizeLf { val } => if b == 10 {
            if val == 0 {
                (BodyState::TrailStart, Seq::empty())
            } else {
                (BodyState::Data { rem: val }, Seq::empty())
            }
        } else {
            (BodyState::Failed, Seq::empty())
        },
        BodyState::Data { rem } => if rem <= 1 {
            (BodyState::DataCr, seq![b])
        } else {
            (BodyState::Data { rem: (rem - 1) as usize }, seq![b])
        },
        BodyState::DataCr => if b == 13 {
            (BodyState::DataLf, Seq::empty())
        } else {
            (BodyState::Failed, Seq::empty())
        },
        BodyState::DataLf => if b == 10 {
            (BodyState::Size { val: 0, got: false }, Seq::empty())
        } else {
            (BodyState::Failed, Seq::empty())
        },
        BodyState::TrailStart => if b == 13 {
            (BodyState::EndLf, Seq::empty())
        } else if b == 58 || b == 10 {
            (BodyState::Failed, Seq::empty())
        } else {
            (BodyState::TrailName, Seq::empty())
        },
        BodyState::TrailName => if b == 58 {
            (BodyState::TrailValue, Seq::empty())
        } else if b == 13 || b == 10 {
            (BodyState::Failed, Seq::empty())
        } else {
            (BodyState::TrailName, Seq::empty())
        },
        BodyState::TrailValue => if b == 13 {
            (BodyState::TrailLf, Seq::empty())
        } else if b == 10 {
            (BodyState::Failed, Seq::empty())
        } else {
            (BodyState::TrailValue, Seq::empty())
        },
        BodyState::TrailLf => if b == 10 {
            (BodyState::TrailStart, Seq::empty())
        } else {
            (BodyState::Failed, Seq::empty())
        },
        BodyState::EndLf => if b == 10 {
            (BodyState::Done, Seq::empty())
        } else {
            (BodyState::Failed, Seq::empty())
        },
        BodyState::Done => (BodyState::Done, Seq::empty()),
        BodyState::Failed => (BodyState::Failed, Seq::empty()),
    }
}

/// The machine state after consuming the whole byte sequence `s`.
pub open spec fn body_run(st: BodyState, s: Seq<u8>) -> BodyState
    decreases s.len(),
{
    if s.len() == 0 {
        st
    } else {
        body_run(body_step(st, s[0]).0, s.drop_first())
    }
}

/// The body bytes the machine yields while consuming `s`.
pub open spec fn body_out(st: BodyState, s: Seq<u8>) -> Seq<u8>
    decreases s.len(),
{
    if s.len() == 0 {
        Seq::empty()
    } else {
        body_step(st, s[0]).1 + body_out(body_step(st, s[0]).0, s.drop_first())
    }
}

/// The machine state a framing starts in.
pub open spec fn init_body_state(f: BodyFraming) -> BodyState {
    match f {
        BodyFraming::ContentLength(n) => if n == 0 {
            BodyState::Done
        } else {
            BodyState::ClRem { rem: n }
        },
        BodyFraming::Chunked => BodyState::Size { val: 0, got: false },
        BodyFraming::UntilClose => BodyState::Unframed,
    }
}

/// Partial-delivery invariance of body decoding: running the machine
/// over a stream split at any point equals running it over the whole
/// stream, both in the state reached and in the body bytes yielded.
pub proof fn lemma_body_machine_split(st: BodyState, a: Seq<u8>, b: Seq<u8>)
    ensures
        body_run(st, a + b) == body_run(body_run(st, a), b),
        body_out(st, a + b) == body_out(st, a) + body_out(body_run(st, a), b),
    decreases a.len(),
{
    if a.len() == 0 {
        assert(a + b =~= b);
        assert(body_out(st, a) + body_out(st, b) =~= body_out(st, b));
    } else {
        let st1 = body_step(st, a[0]).0;
        assert((a + b)[0] == a[0]);
        assert((a + b).drop_first() =~= a.drop_first() + b);
        lemma_body_machine_split(st1, a.drop_first(), b);
        assert(body_out(st, a + b) =~= body_out(st, a) + body_out(body_run(st, a), b));
    }
}

/// One byte through the machine, as `body_run`/`body_out` see it.
pub proof fn lemma_body_machine_step(st: BodyState, b: u8)
    ensures
        body_run(st, seq![b]) == body_step(st, b).0,
        body_out(st, seq![b]) == body_step(st, b).1,
{
    let s = seq![b];
    assert(s.drop_first() =~= Seq::<u8>::empty());
    assert(body_run(body_step(st, b).0, s.drop_first()) == body_step(st, b).0);
    assert(body_out(body_step(st, b).0, s.drop_first()) =~= Seq::<u8>::empty());
    assert(body_out(st, s) =~= body_step(st, b).1);
}

/// Feeding up to `rem` bytes to a content-length state passes them all
/// through as body and counts them down.
proof fn lemma_cl_run(rem: usize, s: Seq<u8>)
    requires
        1 <= s.len() <= rem,
    ensures
        body_run(BodyState::ClRem { rem }, s) == (if s.len() == rem {
            BodyState::Done
        } else {
            BodyState::ClRem { rem: (rem - s.len()) as usize }
        }),
        body_out(BodyState::ClRem { rem }, s) == s,
    decreases s.len(),
{
    let st = BodyState::ClRem { rem };
    let st1 = body_step(st, s[0]).0;
    if s.len() == 1 {
        lemma_body_machine_step(st, s[0]);
        assert(s =~= seq![s[0]]);
    } else {
        lemma_cl_run((rem - 1) as usize, s.drop_first());
        assert(body_out(st, s) =~= s);
    }
}

/// Feeding up to `rem` bytes to a chunk-data state passes them all
/// through as body and counts them down.
pub proof fn lemma_data_run(rem: usize, s: Seq<u8>)
    requires
        1 <= s.len() <= rem,
    ensures
        body_run(BodyState::Data { rem }, s) == (if s.len() == rem {
            BodyState::DataCr
        } else {
            BodyState::Data { rem: (rem - s.len()) as usize }
        }),
        body_out(BodyState::Data { rem }, s) == s,
    decreases s.len(),
{
    let st = BodyState::Data { rem };
    if s.len() == 1 {
        lemma_body_machine_step(st, s[0]);
        assert(s =~= seq![s[0]]);
    } else {
        lemma_data_run((rem - 1) as usize, s.drop_first());
        assert(body_out(st, s) =~= s);
    }
}

/// An unframed body passes every byte through unchanged.
proof fn lemma_unframed_run(s: Seq<u8>)
    ensures
        body_run(BodyState::Unframed, s) == BodyState::Unframed,
        body_out(BodyState::Unframed, s) == s,
    decreases s.len(),
{
    if s.len() > 0 {
        lemma_unframed_run(s.drop_first());
        assert(body_out(BodyState::Unframed, s) =~= s);
    } else {
        assert(body_out(BodyState::Unframed, s) =~= s);
    }
}

/// Reachable pass-through states always owe at least one byte.
pub open spec fn body_state_wf(st: BodyState) -> bool {
    match st {
        BodyState::ClRem { rem } => rem >= 1,
        BodyState::Data { rem } => rem >= 1,
        _ => true,
    }
}

/// One executable step of the body machine.
fn body_step_exec(st: BodyState, b: u8) -> (r: BodyState)
    ensures
        r == body_step(st, b).0,
{
    match st {
        BodyState::ClRem { rem } => if rem <= 1 {
            BodyState::Done
        } else {
            BodyState::ClRem { rem: rem - 1 }
        },
        BodyState::Unframed => BodyState::Unframed,
        BodyState::Size { val, got } => {
            if (48 <= b && b <= 57) || (97 <= b && b <= 102) || (65 <= b && b <= 70) {
                let d: usize = if 48 <= b && b <= 57 {
                    (b - 48) as usize
                } else if 97 <= b && b <= 102 {
                    (b - 87) as usize
                } else {
                    (b - 55) as usize
                };
                assert(d == hex_digit_val(b));
                match val.checked_mul(16) {
                    Some(x) => match x.checked_add(d) {
                        Some(v) => BodyState::Size { val: v, got: true },
                        None => BodyState::Failed,
                    },
                    None => BodyState::Failed,
                }
            } else if b == 59 && got {
                BodyState::Ext { val }
            } else if b == 13 && got {
                BodyState::SizeLf { val }
            } else {
                BodyState::Failed
            }
        },
        BodyState::Ext { val } => if b == 13 {
            BodyState::SizeLf { val }
        } else if b == 10 {
            BodyState::Failed
        } else {
            BodyState::Ext { val }
        },
        BodyState::SizeLf { val } => if b == 10 {
            if val == 0 {
                BodyState::TrailStart
            } else {
                BodyState::Data { rem: val }
            }
        } else {
            BodyState::Failed
        },
        BodyState::Data { rem } => if rem <= 1 {
            BodyState::DataCr
        } else {
            BodyState::Data { rem: rem - 1 }
        },
        BodyState::DataCr => if b == 13 {
            BodyState::DataLf
        } else {
            BodyState::Failed
        },
        BodyState::DataLf => if b == 10 {
            BodyState::Size { val: 0, got: false }
        } else {
            BodyState::Failed
        },
        BodyState::TrailStart => if b == 13 {
            BodyState::EndLf
        } else if b == 58 || b == 10 {
            BodyState::Failed
        } else {
            BodyState::TrailName
        },
        BodyState::TrailName => if b == 58 {
            BodyState::TrailValue
        } else if b == 13 || b == 10 {
            BodyState::Failed
        } else {
            BodyState::TrailName
        },
        BodyState::TrailValue => if b == 13 {
            BodyState::TrailLf
        } else if b == 10 {
            BodyState::Failed
        } else {
            BodyState::TrailValue
        },
        BodyState::TrailLf => if b == 10 {
            BodyState::TrailStart
        } else {
            BodyState::Failed
        },
        BodyState::EndLf => if b == 10 {
            BodyState::Done
        } else {
            BodyState::Failed
        },
        BodyState::Done => BodyState::Done,
        BodyState::Failed => BodyState::Failed,
    }
}

/// True in the states the machine parses framing bytes in — the states
/// `feed` walks through one byte at a time.
fn is_parse_state(st: BodyState) -> (r: bool)
    ensures
        r == !(st is ClRem || st is Unframed || st is Data || st is Done || st is Failed),
{
    match st {
        BodyState::ClRem { .. }
        | BodyState::Unframed
        | BodyState::Data { .. }
        | BodyState::Done
        | BodyState::Failed => false,
        _ => true,
    }
}

/// What one `feed` call did: how many input bytes it consumed, which
/// span of them is decoded body data, and whether the body is complete.
#[derive(Clone, Copy, Debug, PartialEq, Eq, Structural)]
pub struct FeedResult {
    /// Bytes of the input consumed by this call; the rest of the input
    /// was not looked at.
    pub consumed: usize,
    /// Start of the decoded body span within the input.
    pub data_start: usize,
    /// Length of the decoded body span.
    pub data_len: usize,
    /// The body ended within the consumed bytes.
    pub finished: bool,
}

/// A lazy, forward-only decoder of response body bytes.
pub struct BodyReader {
    state: BodyState,
    framing: Ghost<BodyFraming>,
    fed: Ghost<Seq<u8>>,
}

impl BodyReader {
    /// The framing this reader was created with.
    pub closed spec fn framing_spec(self) -> BodyFraming {
        self.framing@
    }

    /// Every byte this reader has consumed so far.
    pub closed spec fn fed_bytes(self) -> Seq<u8> {
        self.fed@
    }

    /// The machine state the reader is in.
    pub closed spec fn current(self) -> BodyState {
        self.state
    }

    /// The body bytes decoded from everything fed so far.
    pub open spec fn decoded(self) -> Seq<u8> {
        body_out(init_body_state(self.framing_spec()), self.fed_bytes())
    }

    /// The reader is exactly the machine run over what was fed.
    pub open spec fn inv(self) -> bool {
        self.current() == body_run(init_body_state(self.framing_spec()), self.fed_bytes())
            && body_state_wf(self.current())
    }

    /// The body is complete.
    pub open spec fn finished(self) -> bool {
        self.current() is Done
    }

    /// The framing was violated; the connection must be discarded.
    pub open spec fn failed(self) -> bool {
        self.current() is Failed
    }

    /// A reader for one response body with the given framing.
    pub fn new(f: BodyFraming) -> (r: BodyReader)
        ensures
            r.inv(),
            r.framing_spec() == f,
            r.fed_bytes() == Seq::<u8>::empty(),
            !r.failed(),
            r.finished() == (f == BodyFraming::ContentLength(0usize)),
    {
        let state = match f {
            BodyFraming::ContentLength(n) => if n == 0 {
                BodyState::Done
            } else {
                BodyState::ClRem { rem: n }
            },
            BodyFraming::Chunked => BodyState::Size { val: 0, got: false },
            BodyFraming::UntilClose => BodyState::Unframed,
        };
        BodyReader { state, framing: Ghost(f), fed: Ghost(Seq::empty()) }
    }

    /// The body is complete: the declared length was reached, or the
    /// terminating chunk and its trailers were consumed.
    pub fn is_finished(&self) -> (r: bool)
        ensures
            r == self.finished(),
    {
        match self.state {
            BodyState::Done => true,
            _ => false,
        }
    }

    /// Decodes more transport bytes.  The call consumes a prefix of
    /// `chunk` and reports at most one span of decoded body data inside
    /// it; the caller keeps feeding the rest.  Malformed chunked framing
    /// fails with `Codec` and poisons the reader.
    pub fn feed(&mut self, chunk: &[u8]) -> (r: Result<FeedResult, Error>)
        requires
            old(self).inv(),
            !old(self).failed(),
        ensures
            final(self).inv(),
            final(self).framing_spec() == old(self).framing_spec(),
            match r {
                Ok(s) => {
                    &&& s.consumed <= chunk@.len()
                    &&& s.data_start + s.data_len <= s.consumed
                    &&& final(self).fed_bytes() == old(self).fed_bytes() + chunk@.take(
                        s.consumed as int,
                    )
                    &&& body_out(old(self).current(), chunk@.take(s.consumed as int))
                        == chunk@.subrange(s.data_start as int, s.data_start + s.data_len)
                    &&& s.finished == final(self).finished()
                    &&& !final(self).failed()
                    &&& (s.finished || s.consumed == chunk@.len() || s.data_len > 0)
                },
                Err(e) => {
                    &&& e == Error::Codec
                    &&& final(self).failed()
                    &&& exists|n: int|
                        0 <= n <= chunk@.len() && final(self).fed_bytes() == old(self).fed_bytes()
                            + chunk@.take(n)
                },
            },
    {
        let ghost st0 = old(self).state;
        let ghost init = init_body_state(self.framing@);
        let mut i: usize = 0;
        while i < chunk.len() && is_parse_state(self.state)
            invariant
                0 <= i <= chunk@.len(),
                self.framing == old(self).framing,
                st0 == old(self).state,
                init == init_body_state(self.framing@),
                self.fed@ == old(self).fed@ + chunk@.take(i as int),
                self.inv(),
                !(self.state is Failed),
                st0 == body_run(init, old(self).fed@),
                body_out(st0, chunk@.take(i as int)) == Seq::<u8>::empty(),
            decreases chunk@.len() - i,
        {
            let b = *vstd::slice::slice_index_get(chunk, i);
            let ghost pre = chunk@.take(i as int);
            let ns = body_step_exec(self.state, b);
            proof {
                assert(chunk@.take(i + 1) =~= pre + seq![b]);
                lemma_body_machine_step(self.state, b);
                lemma_body_machine_split(init, self.fed@, seq![b]);
                lemma_body_machine_split(st0, pre, seq![b]);
                assert(body_run(st0, pre) == self.state) by {
                    lemma_body_machine_split(init, old(self).fed@, pre);
                };
                assert(body_step(self.state, b).1 =~= Seq::<u8>::empty());
                assert(body_out(st0, chunk@.take(i + 1)) =~= Seq::<u8>::empty());
            }
            self.state = ns;
            proof {
                self.fed@ = self.fed@ + seq![b];
                assert(self.fed@ =~= old(self).fed@ + chunk@.take(i + 1));
            }
            i = i + 1;
            match self.state {
                BodyState::Failed => {
                    return Err(Error::Codec);
                },
                _ => {},
            }
        }
        let ghost consumed_pre = chunk@.take(i as int);
        match self.state {
            BodyState::Done => {
                return Ok(
                    FeedResult { consumed: i, data_start: 0, data_len: 0, finished: true },
                );
            },
            BodyState::ClRem { rem } => {
                if i == chunk.len() {
                    return Ok(
                        FeedResult { consumed: i, data_start: 0, data_len: 0, finished: false },
                    );
                }
                let avail = chunk.len() - i;
                let m = if rem < avail {
                    rem
                } else {
                    avail
                };
                let ghost piece = chunk@.subrange(i as int, i + m);
                proof {
                    lemma_cl_run(rem, piece);
                    lemma_body_machine_split(init, self.fed@, piece);
                    lemma_body_machine_split(st0, consumed_pre, piece);
                    assert(body_run(st0, consumed_pre) == self.state) by {
                        lemma_body_machine_split(init, old(self).fed@, consumed_pre);
                    };
                    assert(chunk@.take(i + m) =~= consumed_pre + piece);
                    assert(body_out(st0, chunk@.take(i + m)) =~= piece);
                }
                self.state = if m == rem {
                    BodyState::Done
                } else {
                    BodyState::ClRem { rem: rem - m }
                };
                proof {
                    self.fed@ = self.fed@ + piece;
                    assert(self.fed@ =~= old(self).fed@ + chunk@.take(i + m));
                }
                return Ok(
                    FeedResult {
                        consumed: i + m,
                        data_start: i,
                        data_len: m,
                        finished: m == rem,
                    },
                );
            },
            BodyState::Data { rem } => {
                if i == chunk.len() {
                    return Ok(
                        FeedResult { consumed: i, data_start: 0, data_len: 0, finished: false },
                    );
                }
                let avail = chunk.len() - i;
                let m = if rem < avail {
                    rem
                } else {
                    avail
                };
                let ghost piece = chunk@.subrange(i as int, i + m);
                proof {
                    lemma_data_run(rem, piece);
                    lemma_body_machine_split(init, self.fed@, piece);
                    lemma_body_machine_split(st0, consumed_pre, piece);
                    assert(body_run(st0, consumed_pre) == self.state) by {
                        lemma_body_machine_split(init, old(self).fed@, consumed_pre);
                    };
                    assert(chunk@.take(i + m) =~= consumed_pre + piece);
                    assert(body_out(st0, chunk@.take(i + m)) =~= piece);
                }
                self.state = if m == rem {
                    BodyState::DataCr
                } else {
                    BodyState::Data { rem: rem - m }
                };
                proof {
                    self.fed@ = self.fed@ + piece;
                    assert(self.fed@ =~= old(self).fed@ + chunk@.take(i + m));
                }
                return Ok(
                    FeedResult { consumed: i + m, data_start: i, data_len: m, finished: false },
                );
            },
            BodyState::Unframed => {
                if i == chunk.len() {
                    return Ok(
                        FeedResult { consumed: i, data_start: 0, data_len: 0, finished: false },
                    );
                }
                let m = chunk.len() - i;
                let ghost piece = chunk@.subrange(i as int, i + m);
                proof {
                    lemma_unframed_run(piece);
                    lemma_body_machine_split(init, self.fed@, piece);
                    lemma_body_machine_split(st0, consumed_pre, piece);
                    assert(body_run(st0, consumed_pre) == self.state) by {
                        lemma_body_machine_split(init, old(self).fed@, consumed_pre);
                    };
                    assert(chunk@.take(i + m) =~= consumed_pre + piece);
                    assert(body_out(st0, chunk@.take(i + m)) =~= piece);
                }
                proof {
                    self.fed@ = self.fed@ + piece;
                    assert(self.fed@ =~= old(self).fed@ + chunk@.take(i + m));
                }
                return Ok(
                    FeedResult { consumed: i + m, data_start: i, data_len: m, finished: false },
                );
            },
            _ => {
                return Ok(
                    FeedResult { consumed: i, data_start: 0, data_len: 0, finished: false },
                );
            },
        }
    }

    /// The transport reported end-of-stream.  For an unframed body and a
    /// finished body that is the normal end; anywhere else the peer
    /// closed early and the exchange fails with `ConnectionClosed`.
    pub fn eos_status(&self) -> (r: Result<(), Error>)
        requires
            !self.failed(),
        ensures
            match r {
                Ok(()) => self.current() is Done || self.current() is Unframed,
                Err(e) => e == Error::ConnectionClosed && !(self.current() is Done) && !(
                self.current() is Unframed),
            },
    {
        match self.state {
            BodyState::Done => Ok(()),
            BodyState::Unframed => Ok(()),
            _ => Err(Error::ConnectionClosed),
        }
    }
}

} // verus!
