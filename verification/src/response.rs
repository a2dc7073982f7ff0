//! Response head parsing: an incremental decoder for the status line and
//! header block, tolerant of bytes arriving in arbitrary pieces, within a
//! fixed-capacity buffer.
//!
//! The wire grammar is given as a byte-at-a-time machine (`head_step`),
//! so what the decoder parses depends only on the concatenation of
//! everything it was fed, never on where the transport split it.

use vstd::prelude::*;
use crate::Error;
use crate::headers::{HeaderSpan, HeaderStore, first_value, lemma_first_value_skip};
use crate::text::{is_digit, digit_val, is_ows, ci_eq, all_digits, dec_val};
use crate::body::BodyFraming;

verus! {

/// The parsed content of a complete response head.
#[verifier::ext_equal]
pub struct HeadInfo {
    /// The three-digit status code.
    pub code: int,
    /// The reason phrase, possibly empty.
    pub reason: Seq<u8>,
    /// The headers, in order of arrival, as (name, value) pairs.
    pub headers: Seq<(Seq<u8>, Seq<u8>)>,
}

/// The state of the head machine between two bytes.
#[verifier::ext_equal]
pub enum HeadState {
    /// Inside the protocol version token; `got` records that at least
    /// one version byte was seen.
    Version { got: bool },
    /// Inside the three-digit status code; `n` digits seen so far.
    CodeDigits { n: int, code: int },
    /// Inside the reason phrase.
    Reason { code: int, reason: Seq<u8> },
    /// CR of the status line seen, LF expected.
    StatusLf { code: int, reason: Seq<u8> },
    /// At the start of a header line (or of the blank line).
    LineStart { head: HeadInfo },
    /// Inside a header name.
    Name { head: HeadInfo, name: Seq<u8> },
    /// After the colon, skipping optional leading whitespace.
    ValueSkip { head: HeadInfo, name: Seq<u8> },
    /// Inside a header value; `pend` holds trailing whitespace seen so
    /// far, dropped if the line ends here.
    Value { head: HeadInfo, name: Seq<u8>, value: Seq<u8>, pend: Seq<u8> },
    /// CR of a header line seen, LF expected.
    LineLf { head: HeadInfo, name: Seq<u8>, value: Seq<u8> },
    /// CR of the blank line seen, final LF expected.
    EndLf { head: HeadInfo },
    /// The head is complete.
    Done { head: HeadInfo },
    /// Malformed head.
    Failed,
    /// More headers than the store can hold.
    Overflow,
}

/// One step of the head machine.  `hcap` is the header-store capacity:
/// a header line beyond it moves the machine to `Overflow`.
pub open spec fn head_step(hcap: nat, st: HeadState, b: u8) -> HeadState {
    match st {
        HeadState::Version { got } => if b == 32 {
            if got {
                HeadState::CodeDigits { n: 0, code: 0 }
            } else {
                HeadState::Failed
            }
        } else if b == 13 || b == 10 {
            HeadState::Failed
        } else {
            HeadState::Version { got: true }
        },
        HeadState::CodeDigits { n, code } => if is_digit(b) && n < 3 {
            HeadState::CodeDigits { n: n + 1, code: code * 10 + digit_val(b) }
        } else if b == 32 && n == 3 && 100 <= code <= 599 {
            HeadState::Reason { code, reason: Seq::empty() }
        } else if b == 13 && n == 3 && 100 <= code <= 599 {
            HeadState::StatusLf { code, reason: Seq::empty() }
        } else {
            HeadState::Failed
        },
        HeadState::Reason { code, reason } => if b == 13 {
            HeadState::StatusLf { code, reason }
        } else if b == 10 {
            HeadState::Failed
        } else {
            HeadState::Reason { code, reason: reason.push(b) }
        },
        HeadState::StatusLf { code, reason } => if b == 10 {
            HeadState::LineStart { head: HeadInfo { code, reason, headers: Seq::empty() } }
        } else {
            HeadState::Failed
        },
        HeadState::LineStart { head } => if b == 13 {
            HeadState::EndLf { head }
        } else if b == 58 || b == 10 {
            HeadState::Failed
        } else {
            HeadState::Name { head, name: seq![b] }
        },
        HeadState::Name { head, name } => if b == 58 {
            HeadState::ValueSkip { head, name }
        } else if b == 13 || b == 10 {
            HeadState::Failed
        } else {
            HeadState::Name { head, name: name.push(b) }
        },
        HeadState::ValueSkip { head, name } => if is_ows(b) {
            HeadState::ValueSkip { head, name }
        } else if b == 13 {
            HeadState::LineLf { head, name, value: Seq::empty() }
        } else if b == 10 {
            HeadState::Failed
        } else {
            HeadState::Value { head, name, value: seq![b], pend: Seq::empty() }
        },
        HeadState::Value { head, name, value, pend } => if is_ows(b) {
            HeadState::Value { head, name, value, pend: pend.push(b) }
        } else if b == 13 {
            HeadState::LineLf { head, name, value }
        } else if b == 10 {
            HeadState::Failed
        } else {
            HeadState::Value { head, name, value: value + pend + seq![b], pend: Seq::empty() }
        },
        HeadState::LineLf { head, name, value } => if b == 10 {
            if head.headers.len() >= hcap {
                HeadState::Overflow
            } else {
                HeadState::LineStart {
                    head: HeadInfo {
                        code: head.code,
                        reason: head.reason,
                        headers: head.headers.push((name, value)),
                    },
                }
            }
        } else {
            HeadState::Failed
        },
        HeadState::EndLf { head } => if b == 10 {
            HeadState::Done { head }
        } else {
            HeadState::Failed
        },
        HeadState::Done { head } => HeadState::Done { head },
        HeadState::Failed => HeadState::Failed,
        HeadState::Overflow => HeadState::Overflow,
    }
}

/// The machine state after consuming the whole byte sequence `s`.
pub open spec fn head_run(hcap: nat, st: HeadState, s: Seq<u8>) -> HeadState
    decreases s.len(),
{
    if s.len() == 0 {
        st
    } else {
        head_run(hcap, head_step(hcap, st, s[0]), s.drop_first())
    }
}

/// The state a fresh decoder starts in.
pub open spec fn init_head_state() -> HeadState {
    HeadState::Version { got: false }
}

/// A state the machine never leaves.
pub open spec fn head_terminal(st: HeadState) -> bool {
    st is Done || st is Failed || st is Overflow
}

/// Partial-delivery invariance of head parsing: running the machine over
/// a byte stream split at any offset, in any number of pieces, reaches
/// the same state as running it over the whole stream at once.
pub proof fn lemma_head_run_split(hcap: nat, st: HeadState, a: Seq<u8>, b: Seq<u8>)
    ensures
        head_run(hcap, st, a + b) == head_run(hcap, head_run(hcap, st, a), b),
    decreases a.len(),
{
    if a.len() == 0 {
        assert(a + b =~= b);
    } else {
        assert((a + b)[0] == a[0]);
        assert((a + b).drop_first() =~= a.drop_first() + b);
        lemma_head_run_split(hcap, head_step(hcap, st, a[0]), a.drop_first(), b);
    }
}

/// One byte through the machine, as `head_run` sees it.
pub proof fn lemma_head_run_step(hcap: nat, st: HeadState, b: u8)
    ensures
        head_run(hcap, st, seq![b]) == head_step(hcap, st, b),
{
    let s = seq![b];
    assert(s.drop_first() =~= Seq::<u8>::empty());
    assert(head_run(hcap, head_step(hcap, st, b), s.drop_first()) == head_step(hcap, st, b));
}

/// How many bytes of `chunk` the decoder consumes from state `st` with
/// `stored` of `cap` buffer bytes already used: it stops at a terminal
/// state, at a full buffer, or at the end of the input.
pub open spec fn head_consume(hcap: nat, cap: nat, stored: nat, st: HeadState, chunk: Seq<u8>) -> int
    decreases chunk.len(),
{
    if chunk.len() == 0 || head_terminal(st) || stored >= cap {
        0
    } else {
        1 + head_consume(hcap, cap, stored + 1, head_step(hcap, st, chunk[0]), chunk.drop_first())
    }
}

/// The header name `transfer-encoding`.
pub open spec fn te_name() -> Seq<u8> {
    seq![
        116u8,
        114u8,
        97u8,
        110u8,
        115u8,
        102u8,
        101u8,
        114u8,
        45u8,
        101u8,
        110u8,
        99u8,
        111u8,
        100u8,
        105u8,
        110u8,
        103u8,
    ]
}

/// The header name `content-length`.
pub open spec fn cl_name() -> Seq<u8> {
    seq![99u8, 111u8, 110u8, 116u8, 101u8, 110u8, 116u8, 45u8, 108u8, 101u8, 110u8, 103u8, 116u8, 104u8]
}

/// The transfer coding `chunked`.
pub open spec fn chunked_name() -> Seq<u8> {
    seq![99u8, 104u8, 117u8, 110u8, 107u8, 101u8, 100u8]
}

/// The body framing a header block declares: a `Transfer-Encoding:
/// chunked` header (case-insensitive, first wins) forces chunked
/// decoding; otherwise a `Content-Length` header gives the exact byte
/// count, failing with `Codec` when its value is not a decimal number
/// that fits the machine; otherwise the body runs until close.
pub open spec fn spec_framing(headers: Seq<(Seq<u8>, Seq<u8>)>) -> Result<BodyFraming, Error> {
    if match first_value(headers, te_name()) {
        Some(v) => ci_eq(v, chunked_name()),
        None => false,
    } {
        Ok(BodyFraming::Chunked)
    } else {
        match first_value(headers, cl_name()) {
            Some(v) => if v.len() > 0 && all_digits(v) && dec_val(v) <= usize::MAX {
                Ok(BodyFraming::ContentLength(dec_val(v) as usize))
            } else {
                Err(Error::Codec)
            },
            None => Ok(BodyFraming::UntilClose),
        }
    }
}

/// The bytes of `transfer-encoding`.
fn te_token() -> (r: Vec<u8>)
    ensures
        r@ == te_name(),
{
    let mut v: Vec<u8> = Vec::new();
    v.push(116);
    v.push(114);
    v.push(97);
    v.push(110);
    v.push(115);
    v.push(102);
    v.push(101);
    v.push(114);
    v.push(45);
    v.push(101);
    v.push(110);
    v.push(99);
    v.push(111);
    v.push(100);
    v.push(105);
    v.push(110);
    v.push(103);
    proof {
        assert(v@ =~= te_name());
    }
    v
}

/// The bytes of `content-length`.
fn cl_token() -> (r: Vec<u8>)
    ensures
        r@ == cl_name(),
{
    let mut v: Vec<u8> = Vec::new();
    v.push(99);
    v.push(111);
    v.push(110);
    v.push(116);
    v.push(101);
    v.push(110);
    v.push(116);
    v.push(45);
    v.push(108);
    v.push(101);
    v.push(110);
    v.push(103);
    v.push(116);
    v.push(104);
    proof {
        assert(v@ =~= cl_name());
    }
    v
}

/// The bytes of `chunked`.
fn chunked_token() -> (r: Vec<u8>)
    ensures
        r@ == chunked_name(),
{
    let mut v: Vec<u8> = Vec::new();
    v.push(99);
    v.push(104);
    v.push(117);
    v.push(110);
    v.push(107);
    v.push(101);
    v.push(100);
    proof {
        assert(v@ =~= chunked_name());
    }
    v
}

/// A subrange below the pushed byte is unchanged by the push.
proof fn lemma_sub_stable(d: Seq<u8>, b: u8, s: int, e: int)
    requires
        0 <= s <= e <= d.len(),
    ensures
        (d + seq![b]).subrange(s, e) == d.subrange(s, e),
{
    assert((d + seq![b]).subrange(s, e) =~= d.subrange(s, e));
}

/// A subrange that ends at the pushed byte grows by exactly that byte.
proof fn lemma_sub_grow(d: Seq<u8>, b: u8, s: int)
    requires
        0 <= s <= d.len(),
    ensures
        (d + seq![b]).subrange(s, d.len() as int + 1) == d.subrange(s, d.len() as int) + seq![b],
{
    assert((d + seq![b]).subrange(s, d.len() as int + 1) =~= d.subrange(s, d.len() as int) + seq![b]);
}

/// Header pairs read through spans below the pushed byte are unchanged.
proof fn lemma_pairs_stable(h: HeaderStore, d: Seq<u8>, b: u8)
    requires
        h.spans_wf(d.len() as int),
    ensures
        h.pairs(d + seq![b]) == h.pairs(d),
{
    assert(h.pairs(d + seq![b]) =~~= h.pairs(d));
}

/// The phase of the executable decoder; span positions and the parsed
/// code live beside it in the decoder itself.
#[derive(Clone, Copy, Debug, PartialEq, Eq, Structural)]
enum DecPhase {
    VerEmpty,
    Ver,
    Code,
    Reason,
    StatusLf,
    LineStart,
    Name,
    ValueSkip,
    Value,
    LineLf,
    EndLf,
    Done,
    Failed,
    Overflow,
}

/// An incremental decoder for a response status line and header block.
///
/// Bytes are handed in with `push` in pieces of any size; the decoder
/// stores the head bytes in a buffer of fixed capacity and, once the
/// blank line arrives, exposes the status code, reason and headers as
/// spans into that buffer.  Bytes after the head are never consumed:
/// they belong to the body.
pub struct ResponseDecoder {
    data: Vec<u8>,
    cap: usize,
    phase: DecPhase,
    digits: u8,
    code: u16,
    reason_start: usize,
    reason_end: usize,
    headers: HeaderStore,
    name_start: usize,
    name_end: usize,
    value_start: usize,
    value_end: usize,
    poisoned: bool,
}

impl ResponseDecoder {
    /// Every head byte consumed so far.
    pub closed spec fn fed(self) -> Seq<u8> {
        self.data@
    }

    /// The fixed byte capacity of the head buffer.
    pub closed spec fn byte_cap(self) -> nat {
        self.cap as nat
    }

    /// The fixed capacity of the header store.
    pub closed spec fn header_cap(self) -> nat {
        self.headers.capacity()
    }

    /// No error has poisoned the decoder.
    pub closed spec fn alive(self) -> bool {
        !self.poisoned
    }

    closed spec fn info(self) -> HeadInfo {
        HeadInfo {
            code: self.code as int,
            reason: self.data@.subrange(self.reason_start as int, self.reason_end as int),
            headers: self.headers.pairs(self.data@),
        }
    }

    /// The machine state this decoder stands for.
    pub closed spec fn machine(self) -> HeadState {
        let d = self.data@;
        match self.phase {
            DecPhase::VerEmpty => HeadState::Version { got: false },
            DecPhase::Ver => HeadState::Version { got: true },
            DecPhase::Code => HeadState::CodeDigits {
                n: self.digits as int,
                code: self.code as int,
            },
            DecPhase::Reason => HeadState::Reason {
                code: self.code as int,
                reason: d.subrange(self.reason_start as int, d.len() as int),
            },
            DecPhase::StatusLf => HeadState::StatusLf {
                code: self.code as int,
                reason: d.subrange(self.reason_start as int, self.reason_end as int),
            },
            DecPhase::LineStart => HeadState::LineStart { head: self.info() },
            DecPhase::Name => HeadState::Name {
                head: self.info(),
                name: d.subrange(self.name_start as int, d.len() as int),
            },
            DecPhase::ValueSkip => HeadState::ValueSkip {
                head: self.info(),
                name: d.subrange(self.name_start as int, self.name_end as int),
            },
            DecPhase::Value => HeadState::Value {
                head: self.info(),
                name: d.subrange(self.name_start as int, self.name_end as int),
                value: d.subrange(self.value_start as int, self.value_end as int),
                pend: d.subrange(self.value_end as int, d.len() as int),
            },
            DecPhase::LineLf => HeadState::LineLf {
                head: self.info(),
                name: d.subrange(self.name_start as int, self.name_end as int),
                value: d.subrange(self.value_start as int, self.value_end as int),
            },
            DecPhase::EndLf => HeadState::EndLf { head: self.info() },
            DecPhase::Done => HeadState::Done { head: self.info() },
            DecPhase::Failed => HeadState::Failed,
            DecPhase::Overflow => HeadState::Overflow,
        }
    }

    pub closed spec fn code_ok(self) -> bool {
        100 <= self.code <= 599
    }

    pub closed spec fn rspan_ok(self) -> bool {
        self.reason_start <= self.reason_end <= self.data@.len()
    }

    pub closed spec fn nspan_ok(self) -> bool {
        self.name_start <= self.name_end <= self.data@.len()
    }

    pub closed spec fn vspan_ok(self) -> bool {
        self.value_start <= self.value_end <= self.data@.len()
    }

    pub closed spec fn spans_ok(self) -> bool {
        let len = self.data@.len();
        &&& len <= self.cap
        &&& self.headers.wf()
        &&& self.headers.spans_wf(len as int)
        &&& match self.phase {
            DecPhase::VerEmpty => self.headers@.len() == 0,
            DecPhase::Ver => self.headers@.len() == 0,
            DecPhase::Code => self.headers@.len() == 0 && self.digits <= 3 && (self.digits == 0
                ==> self.code == 0) && (self.digits == 1 ==> self.code <= 9) && (self.digits == 2
                ==> self.code <= 99) && (self.digits == 3 ==> self.code <= 999),
            DecPhase::Reason => self.headers@.len() == 0 && self.code_ok() && self.reason_start
                <= len,
            DecPhase::StatusLf => self.headers@.len() == 0 && self.code_ok() && self.rspan_ok(),
            DecPhase::LineStart => self.code_ok() && self.rspan_ok(),
            DecPhase::Name => self.code_ok() && self.rspan_ok() && self.name_start <= len,
            DecPhase::ValueSkip => self.code_ok() && self.rspan_ok() && self.nspan_ok(),
            DecPhase::Value => self.code_ok() && self.rspan_ok() && self.nspan_ok()
                && self.vspan_ok(),
            DecPhase::LineLf => self.code_ok() && self.rspan_ok() && self.nspan_ok()
                && self.vspan_ok(),
            DecPhase::EndLf => self.code_ok() && self.rspan_ok(),
            DecPhase::Done => self.code_ok() && self.rspan_ok(),
            DecPhase::Failed => true,
            DecPhase::Overflow => true,
        }
    }

    /// The decoder is exactly the head machine run over what was fed.
    pub open spec fn inv(self) -> bool {
        self.alive() ==> (self.spans_ok() && self.machine() == head_run(
            self.header_cap(),
            init_head_state(),
            self.fed(),
        ))
    }

    /// The head is complete.
    pub open spec fn done(self) -> bool {
        self.machine() is Done
    }

    /// The parsed head, once complete.
    pub open spec fn head(self) -> HeadInfo {
        match self.machine() {
            HeadState::Done { head } => head,
            _ => arbitrary(),
        }
    }

    /// A fresh decoder over a head buffer of `byte_cap` bytes and a
    /// header store for `header_cap` headers.
    pub fn new(byte_cap: usize, header_cap: usize) -> (r: ResponseDecoder)
        ensures
            r.inv(),
            r.alive(),
            r.fed() == Seq::<u8>::empty(),
            r.byte_cap() == byte_cap,
            r.header_cap() == header_cap,
            r.machine() == init_head_state(),
            !r.done(),
    {
        ResponseDecoder {
            data: Vec::new(),
            cap: byte_cap,
            phase: DecPhase::VerEmpty,
            digits: 0,
            code: 0,
            reason_start: 0,
            reason_end: 0,
            headers: HeaderStore::new(header_cap),
            name_start: 0,
            name_end: 0,
            value_start: 0,
            value_end: 0,
            poisoned: false,
        }
    }

    /// The head is complete; trailing bytes of the last `push` belong
    /// to the body.
    pub fn is_done(&self) -> (r: bool)
        ensures
            r == self.done(),
    {
        match self.phase {
            DecPhase::Done => true,
            _ => false,
        }
    }

    /// Consumes head bytes from `chunk` until the head completes, the
    /// input runs out, the buffer fills (`BufferTooSmall`), the header
    /// store fills (`BufferTooSmall`), or the head is malformed
    /// (`Codec`).  Returns how many bytes it consumed; the rest of
    /// `chunk` is body and is not looked at.
    pub fn push(&mut self, chunk: &[u8]) -> (r: Result<usize, Error>)
        requires
            old(self).inv(),
            old(self).alive(),
            !(old(self).machine() is Failed),
            !(old(self).machine() is Overflow),
        ensures
            final(self).inv(),
            final(self).byte_cap() == old(self).byte_cap(),
            final(self).header_cap() == old(self).header_cap(),
            ({
                let n = head_consume(
                    old(self).header_cap(),
                    old(self).byte_cap(),
                    old(self).fed().len(),
                    old(self).machine(),
                    chunk@,
                );
                let fs = head_run(old(self).header_cap(), old(self).machine(), chunk@.take(n));
                &&& 0 <= n <= chunk@.len()
                &&& final(self).fed() == old(self).fed() + chunk@.take(n)
                &&& final(self).machine() == fs
                &&& match r {
                    Ok(c) => c == n && final(self).alive() && !(fs is Failed) && !(
                    fs is Overflow) && (fs is Done || n == chunk@.len()),
                    Err(e) => !final(self).alive() && ((fs is Failed && e == Error::Codec) || (
                    fs is Overflow && e == Error::BufferTooSmall) || (!head_terminal(fs) && n
                        < chunk@.len() && e == Error::BufferTooSmall)),
                }
            }),
    {
        let ghost hcap = self.headers.capacity();
        let ghost bcap = self.cap as nat;
        let ghost m0 = self.machine();
        let ghost fed0 = self.data@;
        let mut i: usize = 0;
        proof {
            assert(chunk@.skip(0) =~= chunk@);
            assert(chunk@.take(0) =~= Seq::<u8>::empty());
            assert(self.data@ =~= old(self).data@ + chunk@.take(0));
        }
        while i < chunk.len()
            invariant
                0 <= i <= chunk@.len(),
                hcap == old(self).header_cap(),
                bcap == old(self).byte_cap(),
                m0 == old(self).machine(),
                fed0 == old(self).fed(),
                old(self).spans_ok(),
                m0 == head_run(hcap, init_head_state(), fed0),
                self.cap == old(self).cap,
                self.headers.capacity() == hcap,
                !self.poisoned,
                self.spans_ok(),
                self.data@ == old(self).data@ + chunk@.take(i as int),
                self.machine() == head_run(hcap, init_head_state(), self.data@),
                !(self.machine() is Failed),
                !(self.machine() is Overflow),
                head_consume(hcap, bcap, fed0.len(), m0, chunk@) == i + head_consume(
                    hcap,
                    bcap,
                    self.data@.len(),
                    self.machine(),
                    chunk@.skip(i as int),
                ),
            decreases chunk@.len() - i,
        {
            match self.phase {
                DecPhase::Done => {
                    proof {
                        lemma_head_run_split(hcap, m0, chunk@.take(i as int), Seq::empty());
                        lemma_head_run_split(hcap, init_head_state(), fed0, chunk@.take(i as int));
                    }
                    return Ok(i);
                },
                _ => {},
            }
            if self.data.len() == self.cap {
                self.poisoned = true;
                proof {
                    lemma_head_run_split(hcap, init_head_state(), fed0, chunk@.take(i as int));
                }
                return Err(Error::BufferTooSmall);
            }
            let b = *vstd::slice::slice_index_get(chunk, i);
            let ghost pre = self.machine();
            let ghost d0 = self.data@;
            let ghost len0 = self.data@.len() as int;
            self.data.push(b);
            proof {
                assert(self.data@ == d0 + seq![b]);
                if self.headers.spans_wf(len0) {
                    lemma_pairs_stable(self.headers, d0, b);
                }
            }
            match self.phase {
                DecPhase::VerEmpty => {
                    if b == 32 || b == 13 || b == 10 {
                        self.phase = DecPhase::Failed;
                    } else {
                        self.phase = DecPhase::Ver;
                    }
                },
                DecPhase::Ver => {
                    if b == 32 {
                        self.phase = DecPhase::Code;
                        self.digits = 0;
                        self.code = 0;
                    } else if b == 13 || b == 10 {
                        self.phase = DecPhase::Failed;
                    }
                },
                DecPhase::Code => {
                    if 48 <= b && b <= 57 && self.digits < 3 {
                        self.code = self.code * 10 + ((b - 48) as u16);
                        self.digits = self.digits + 1;
                    } else if b == 32 && self.digits == 3 && 100 <= self.code && self.code <= 599 {
                        self.phase = DecPhase::Reason;
                        self.reason_start = self.data.len();
                    } else if b == 13 && self.digits == 3 && 100 <= self.code && self.code <= 599 {
                        self.phase = DecPhase::StatusLf;
                        self.reason_start = self.data.len();
                        self.reason_end = self.data.len();
                    } else {
                        self.phase = DecPhase::Failed;
                    }
                },
                DecPhase::Reason => {
                    if b == 13 {
                        self.phase = DecPhase::StatusLf;
                        self.reason_end = self.data.len() - 1;
                        proof {
                            lemma_sub_stable(d0, b, self.reason_start as int, len0);
                        }
                    } else if b == 10 {
                        self.phase = DecPhase::Failed;
                    } else {
                        proof {
                            lemma_sub_grow(d0, b, self.reason_start as int);
                        }
                    }
                },
                DecPhase::StatusLf => {
                    if b == 10 {
                        self.phase = DecPhase::LineStart;
                        proof {
                            lemma_sub_stable(d0, b, self.reason_start as int, self.reason_end as int);
                            assert(self.headers.pairs(self.data@) =~= Seq::<(Seq<u8>, Seq<u8>)>::empty());
                        }
                    } else {
                        self.phase = DecPhase::Failed;
                    }
                },
                DecPhase::LineStart => {
                    proof {
                        lemma_sub_stable(d0, b, self.reason_start as int, self.reason_end as int);
                    }
                    if b == 13 {
                        self.phase = DecPhase::EndLf;
                    } else if b == 58 || b == 10 {
                        self.phase = DecPhase::Failed;
                    } else {
                        self.phase = DecPhase::Name;
                        self.name_start = self.data.len() - 1;
                        proof {
                            assert(self.data@.subrange(self.name_start as int, self.data@.len() as int)
                                =~= seq![b]);
                        }
                    }
                },
                DecPhase::Name => {
                    proof {
                        lemma_sub_stable(d0, b, self.reason_start as int, self.reason_end as int);
                    }
                    if b == 58 {
                        self.phase = DecPhase::ValueSkip;
                        self.name_end = self.data.len() - 1;
                        proof {
                            lemma_sub_stable(d0, b, self.name_start as int, len0);
                        }
                    } else if b == 13 || b == 10 {
                        self.phase = DecPhase::Failed;
                    } else {
                        proof {
                            lemma_sub_grow(d0, b, self.name_start as int);
                        }
                    }
                },
                DecPhase::ValueSkip => {
                    proof {
                        lemma_sub_stable(d0, b, self.reason_start as int, self.reason_end as int);
                        lemma_sub_stable(d0, b, self.name_start as int, self.name_end as int);
                    }
                    if b == 32 || b == 9 {
                        // leading whitespace of the value: skipped
                    } else if b == 13 {
                        self.phase = DecPhase::LineLf;
                        self.value_start = self.data.len() - 1;
                        self.value_end = self.data.len() - 1;
                        proof {
                            assert(self.data@.subrange(self.value_start as int, self.value_end as int)
                                =~= Seq::<u8>::empty());
                        }
                    } else if b == 10 {
                        self.phase = DecPhase::Failed;
                    } else {
                        self.phase = DecPhase::Value;
                        self.value_start = self.data.len() - 1;
                        self.value_end = self.data.len();
                        proof {
                            assert(self.data@.subrange(self.value_start as int, self.value_end as int)
                                =~= seq![b]);
                            assert(self.data@.subrange(self.value_end as int, self.data@.len() as int)
                                =~= Seq::<u8>::empty());
                        }
                    }
                },
                DecPhase::Value => {
                    proof {
                        lemma_sub_stable(d0, b, self.reason_start as int, self.reason_end as int);
                        lemma_sub_stable(d0, b, self.name_start as int, self.name_end as int);
                    }
                    if b == 32 || b == 9 {
                        proof {
                            lemma_sub_stable(d0, b, self.value_start as int, self.value_end as int);
                            lemma_sub_grow(d0, b, self.value_end as int);
                        }
                    } else if b == 13 {
                        self.phase = DecPhase::LineLf;
                        proof {
                            lemma_sub_stable(d0, b, self.value_start as int, self.value_end as int);
                        }
                    } else if b == 10 {
                        self.phase = DecPhase::Failed;
                    } else {
                        let ghost ve0 = self.value_end as int;
                        self.value_end = self.data.len();
                        proof {
                            assert(self.data@.subrange(self.value_start as int, self.value_end as int)
                                =~= d0.subrange(self.value_start as int, ve0) + d0.subrange(
                                ve0,
                                len0,
                            ) + seq![b]);
                            assert(self.data@.subrange(self.value_end as int, self.data@.len() as int)
                                =~= Seq::<u8>::empty());
                        }
                    }
                },
                DecPhase::LineLf => {
                    proof {
                        lemma_sub_stable(d0, b, self.reason_start as int, self.reason_end as int);
                        lemma_sub_stable(d0, b, self.name_start as int, self.name_end as int);
                        lemma_sub_stable(d0, b, self.value_start as int, self.value_end as int);
                    }
                    if b == 10 {
                        let ghost pairs0 = self.headers.pairs(self.data@);
                        let span = HeaderSpan {
                            name_start: self.name_start,
                            name_end: self.name_end,
                            value_start: self.value_start,
                            value_end: self.value_end,
                        };
                        match self.headers.insert(span) {
                            Ok(()) => {
                                self.phase = DecPhase::LineStart;
                                proof {
                                    assert(self.headers.pairs(self.data@) =~~= pairs0.push(
                                        (
                                            self.data@.subrange(
                                                self.name_start as int,
                                                self.name_end as int,
                                            ),
                                            self.data@.subrange(
                                                self.value_start as int,
                                                self.value_end as int,
                                            ),
                                        ),
                                    ));
                                }
                            },
                            Err(_) => {
                                self.phase = DecPhase::Overflow;
                            },
                        }
                    } else {
                        self.phase = DecPhase::Failed;
                    }
                },
                DecPhase::EndLf => {
                    proof {
                        lemma_sub_stable(d0, b, self.reason_start as int, self.reason_end as int);
                    }
                    if b == 10 {
                        self.phase = DecPhase::Done;
                    } else {
                        self.phase = DecPhase::Failed;
                    }
                },
                DecPhase::Done => {
                    proof {
                        assert(false);
                    }
                },
                DecPhase::Failed => {
                    proof {
                        assert(false);
                    }
                },
                DecPhase::Overflow => {
                    proof {
                        assert(false);
                    }
                },
            }
            proof {
                assert(self.machine() =~~= head_step(hcap, pre, b));
                assert(chunk@.take(i + 1) =~= chunk@.take(i as int) + seq![b]);
                lemma_head_run_split(hcap, init_head_state(), d0, seq![b]);
                lemma_head_run_step(hcap, pre, b);
                assert(self.data@ =~= old(self).data@ + chunk@.take(i + 1));
                assert(chunk@.skip(i as int)[0] == chunk@[i as int]);
                assert(chunk@.skip(i as int).drop_first() =~= chunk@.skip(i + 1));
                assert(head_consume(hcap, bcap, d0.len(), pre, chunk@.skip(i as int)) == 1
                    + head_consume(
                    hcap,
                    bcap,
                    d0.len() + 1,
                    self.machine(),
                    chunk@.skip(i + 1),
                ));
            }
            let failed_now = match self.phase {
                DecPhase::Failed => true,
                _ => false,
            };
            let overflow_now = match self.phase {
                DecPhase::Overflow => true,
                _ => false,
            };
            if failed_now || overflow_now {
                self.poisoned = true;
                proof {
                    lemma_head_run_split(hcap, init_head_state(), fed0, chunk@.take(i + 1));
                    assert(head_terminal(self.machine()));
                    assert(head_consume(
                        hcap,
                        bcap,
                        self.data@.len(),
                        self.machine(),
                        chunk@.skip(i + 1),
                    ) == 0);
                }
                if failed_now {
                    return Err(Error::Codec);
                } else {
                    return Err(Error::BufferTooSmall);
                }
            }
            i = i + 1;
        }
        proof {
            assert(chunk@.skip(i as int).len() == 0);
            lemma_head_run_split(hcap, init_head_state(), fed0, chunk@.take(i as int));
            assert(chunk@.take(i as int) =~= chunk@);
        }
        Ok(i)
    }

    /// The parsed status code.
    pub fn status_code(&self) -> (r: u16)
        requires
            self.inv(),
            self.alive(),
            self.done(),
        ensures
            r as int == self.head().code,
            100 <= r <= 599,
    {
        self.code
    }

    /// The reason phrase, possibly empty.
    pub fn reason(&self) -> (r: &[u8])
        requires
            self.inv(),
            self.alive(),
            self.done(),
        ensures
            r@ == self.head().reason,
    {
        vstd::slice::slice_subrange(self.data.as_slice(), self.reason_start, self.reason_end)
    }

    /// How many headers arrived, in order.
    pub fn header_count(&self) -> (r: usize)
        requires
            self.inv(),
            self.alive(),
            self.done(),
        ensures
            r == self.head().headers.len(),
    {
        let r = self.headers.len();
        proof {
            assert(self.headers.pairs(self.data@).len() == self.headers@.len());
        }
        r
    }

    /// The name of header `i`, in arrival order.
    pub fn header_name(&self, i: usize) -> (r: &[u8])
        requires
            self.inv(),
            self.alive(),
            self.done(),
            i < self.head().headers.len(),
        ensures
            r@ == self.head().headers[i as int].0,
    {
        proof {
            assert(self.headers.pairs(self.data@).len() == self.headers@.len());
        }
        let h = self.headers.get(i);
        vstd::slice::slice_subrange(self.data.as_slice(), h.name_start, h.name_end)
    }

    /// The value of header `i`, in arrival order.
    pub fn header_value(&self, i: usize) -> (r: &[u8])
        requires
            self.inv(),
            self.alive(),
            self.done(),
            i < self.head().headers.len(),
        ensures
            r@ == self.head().headers[i as int].1,
    {
        proof {
            assert(self.headers.pairs(self.data@).len() == self.headers@.len());
        }
        let h = self.headers.get(i);
        vstd::slice::slice_subrange(self.data.as_slice(), h.value_start, h.value_end)
    }

    /// Derives the body framing from the parsed headers, as
    /// `spec_framing` states it.
    pub fn framing(&self) -> (r: Result<BodyFraming, Error>)
        requires
            self.inv(),
            self.alive(),
            self.done(),
        ensures
            r == spec_framing(self.head().headers),
    {
        let te = te_token();
        let chunked = chunked_token();
        match self.find_header(te.as_slice()) {
            Some(v) => {
                if crate::text::eq_ignore_case(v, chunked.as_slice()) {
                    return Ok(BodyFraming::Chunked);
                }
            },
            None => {},
        }
        let cl = cl_token();
        match self.find_header(cl.as_slice()) {
            Some(v) => match crate::text::parse_decimal(v) {
                Ok(n) => Ok(BodyFraming::ContentLength(n)),
                Err(e) => Err(e),
            },
            None => Ok(BodyFraming::UntilClose),
        }
    }

    /// Case-insensitive lookup of the first header named `name`.
    pub fn find_header(&self, name: &[u8]) -> (r: Option<&[u8]>)
        requires
            self.inv(),
            self.alive(),
            self.done(),
        ensures
            match r {
                Some(v) => first_value(self.head().headers, name@) == Some(v@),
                None => first_value(self.head().headers, name@) is None,
            },
    {
        let ghost pairs = self.headers.pairs(self.data@);
        match self.headers.find(self.data.as_slice(), name) {
            Some(i) => {
                let h = self.headers.get(i);
                Some(
                    vstd::slice::slice_subrange(self.data.as_slice(), h.value_start, h.value_end),
                )
            },
            None => {
                proof {
                    assert(pairs.len() == self.headers@.len());
                    assert(forall|j: int|
                        0 <= j < pairs.len() ==> (#[trigger] pairs[j]).0 == self.headers@[
                        j].name_of(self.data@));
                    lemma_first_value_skip(pairs, name@, pairs.len() as int);
                    assert(pairs.skip(pairs.len() as int) =~= Seq::<(Seq<u8>, Seq<u8>)>::empty());
                }
                None
            },
        }
    }
}

} // verus!
