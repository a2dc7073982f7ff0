//! The encoding round-trip law: a request head written by the encoder,
//! when read back by a reference request parser, reproduces the method
//! token, the path, and every header in order.
//!
//! The reference parser reuses the header-block machine of the response
//! decoder, since request and response heads share the header-line
//! grammar; only the first line differs.

use vstd::prelude::*;
use crate::body::{
    BodyState,
    body_run,
    body_out,
    lemma_body_machine_split,
    lemma_body_machine_step,
    lemma_data_run,
};
use crate::request::{
    Method,
    method_bytes,
    version_bytes,
    crlf,
    hex_rep,
    hex_digit,
    spec_chunk,
    spec_request_line,
    spec_header_line,
};
use crate::response::{
    HeadState,
    HeadInfo,
    head_step,
    head_run,
    lemma_head_run_split,
    lemma_head_run_step,
};
use crate::text::is_ows;

verus! {

/// The state of the reference request parser.
#[verifier::ext_equal]
pub enum ReqState {
    /// Inside the method token.
    RMethod { m: Seq<u8> },
    /// Inside the path.
    RPath { m: Seq<u8>, p: Seq<u8> },
    /// Inside the version token.
    RVersion { m: Seq<u8>, p: Seq<u8>, got: bool },
    /// CR of the request line seen, LF expected.
    RVersionLf { m: Seq<u8>, p: Seq<u8> },
    /// Inside the header block, parsed by the shared head machine.
    RHead { m: Seq<u8>, p: Seq<u8>, st: HeadState },
    /// Malformed request line.
    RFailed,
}

/// One step of the reference request parser.
pub open spec fn req_step(hcap: nat, st: ReqState, b: u8) -> ReqState {
    match st {
        ReqState::RMethod { m } => if b == 32 {
            if m.len() > 0 {
                ReqState::RPath { m, p: Seq::empty() }
            } else {
                ReqState::RFailed
            }
        } else if b == 13 || b == 10 {
            ReqState::RFailed
        } else {
            ReqState::RMethod { m: m.push(b) }
        },
        ReqState::RPath { m, p } => if b == 32 {
            if p.len() > 0 {
                ReqState::RVersion { m, p, got: false }
            } else {
                ReqState::RFailed
            }
        } else if b == 13 || b == 10 {
            ReqState::RFailed
        } else {
            ReqState::RPath { m, p: p.push(b) }
        },
        ReqState::RVersion { m, p, got } => if b == 13 {
            if got {
                ReqState::RVersionLf { m, p }
            } else {
                ReqState::RFailed
            }
        } else if b == 10 || b == 32 {
            ReqState::RFailed
        } else {
            ReqState::RVersion { m, p, got: true }
        },
        ReqState::RVersionLf { m, p } => if b == 10 {
            ReqState::RHead {
                m,
                p,
                st: HeadState::LineStart {
                    head: HeadInfo { code: 0, reason: Seq::empty(), headers: Seq::empty() },
                },
            }
        } else {
            ReqState::RFailed
        },
        ReqState::RHead { m, p, st } => ReqState::RHead { m, p, st: head_step(hcap, st, b) },
        ReqState::RFailed => ReqState::RFailed,
    }
}

/// The parser state after consuming the whole byte sequence `s`.
pub open spec fn req_run(hcap: nat, st: ReqState, s: Seq<u8>) -> ReqState
    decreases s.len(),
{
    if s.len() == 0 {
        st
    } else {
        req_run(hcap, req_step(hcap, st, s[0]), s.drop_first())
    }
}

/// The state the reference parser starts in.
pub open spec fn init_req_state() -> ReqState {
    ReqState::RMethod { m: Seq::empty() }
}

/// A token that survives the wire format: nonempty, with no space, CR
/// or LF inside.
pub open spec fn token_ok(s: Seq<u8>) -> bool {
    s.len() > 0 && (forall|i: int|
        0 <= i < s.len() ==> s[i] != 32 && s[i] != 13 && s[i] != 10)
}

/// A header name that survives the wire format: nonempty, with no
/// colon, CR or LF inside.
pub open spec fn header_name_ok(n: Seq<u8>) -> bool {
    n.len() > 0 && (forall|i: int|
        0 <= i < n.len() ==> n[i] != 58 && n[i] != 13 && n[i] != 10)
}

/// A header value that survives the wire format: no CR or LF inside,
/// and no leading or trailing whitespace, which the parser would strip.
pub open spec fn header_value_ok(v: Seq<u8>) -> bool {
    (forall|i: int| 0 <= i < v.len() ==> v[i] != 13 && v[i] != 10) && (v.len() > 0 ==> !is_ows(
        v[0],
    ) && !is_ows(v[v.len() - 1]))
}

/// Every header of the set survives the wire format.
pub open spec fn headers_ok(hs: Seq<(Seq<u8>, Seq<u8>)>) -> bool {
    forall|i: int|
        0 <= i < hs.len() ==> header_name_ok((#[trigger] hs[i]).0) && header_value_ok(hs[i].1)
}

/// The encoded header block: one line per header, in order.
pub open spec fn spec_header_block(hs: Seq<(Seq<u8>, Seq<u8>)>) -> Seq<u8>
    decreases hs.len(),
{
    if hs.len() == 0 {
        Seq::empty()
    } else {
        spec_header_line(hs[0].0, hs[0].1) + spec_header_block(hs.drop_first())
    }
}

/// The whole encoded request head: request line, header lines, blank
/// line.
pub open spec fn spec_request_head(m: Method, path: Seq<u8>, hs: Seq<(Seq<u8>, Seq<u8>)>) -> Seq<
    u8,
> {
    spec_request_line(m, path) + spec_header_block(hs) + crlf()
}

/// One byte through the request parser, as `req_run` sees it.
proof fn lemma_req_run_step(hcap: nat, st: ReqState, b: u8)
    ensures
        req_run(hcap, st, seq![b]) == req_step(hcap, st, b),
{
    let s = seq![b];
    assert(s.drop_first() =~= Seq::<u8>::empty());
    assert(req_run(hcap, req_step(hcap, st, b), s.drop_first()) == req_step(hcap, st, b));
}

/// Splitting the input does not change where the request parser lands.
pub proof fn lemma_req_run_split(hcap: nat, st: ReqState, a: Seq<u8>, b: Seq<u8>)
    ensures
        req_run(hcap, st, a + b) == req_run(hcap, req_run(hcap, st, a), b),
    decreases a.len(),
{
    if a.len() == 0 {
        assert(a + b =~= b);
    } else {
        assert((a + b)[0] == a[0]);
        assert((a + b).drop_first() =~= a.drop_first() + b);
        lemma_req_run_split(hcap, req_step(hcap, st, a[0]), a.drop_first(), b);
    }
}

/// Method bytes accumulate unchanged while no delimiter arrives.
proof fn lemma_method_accum(hcap: nat, m0: Seq<u8>, s: Seq<u8>)
    requires
        forall|i: int| 0 <= i < s.len() ==> s[i] != 32 && s[i] != 13 && s[i] != 10,
    ensures
        req_run(hcap, (ReqState::RMethod { m: m0 }), s) == (ReqState::RMethod { m: m0 + s }),
    decreases s.len(),
{
    if s.len() == 0 {
        assert(m0 + s =~= m0);
        assert(req_run(hcap, ReqState::RMethod { m: m0 }, s) =~~= ReqState::RMethod { m: m0 + s });
    } else {
        lemma_method_accum(hcap, m0.push(s[0]), s.drop_first());
        assert(m0.push(s[0]) + s.drop_first() =~= m0 + s);
    }
}

/// Path bytes accumulate unchanged while no delimiter arrives.
proof fn lemma_path_accum(hcap: nat, m: Seq<u8>, p0: Seq<u8>, s: Seq<u8>)
    requires
        forall|i: int| 0 <= i < s.len() ==> s[i] != 32 && s[i] != 13 && s[i] != 10,
    ensures
        req_run(hcap, (ReqState::RPath { m, p: p0 }), s) == (ReqState::RPath { m, p: p0 + s }),
    decreases s.len(),
{
    if s.len() == 0 {
        assert(p0 + s =~= p0);
        assert(req_run(hcap, ReqState::RPath { m, p: p0 }, s) =~~= ReqState::RPath {
            m,
            p: p0 + s,
        });
    } else {
        lemma_path_accum(hcap, m, p0.push(s[0]), s.drop_first());
        assert(p0.push(s[0]) + s.drop_first() =~= p0 + s);
    }
}

/// Version bytes are consumed and only remembered as present.
proof fn lemma_version_accum(hcap: nat, m: Seq<u8>, p: Seq<u8>, got: bool, s: Seq<u8>)
    requires
        s.len() > 0,
        forall|i: int| 0 <= i < s.len() ==> s[i] != 32 && s[i] != 13 && s[i] != 10,
    ensures
        req_run(hcap, (ReqState::RVersion { m, p, got }), s) == (ReqState::RVersion {
            m,
            p,
            got: true,
        }),
    decreases s.len(),
{
    let st = ReqState::RVersion { m, p, got };
    assert(s[0] != 13 && s[0] != 10 && s[0] != 32);
    assert(req_step(hcap, st, s[0]) == (ReqState::RVersion { m, p, got: true }));
    if s.len() > 1 {
        lemma_version_accum(hcap, m, p, true, s.drop_first());
    } else {
        assert(s.drop_first() =~= Seq::<u8>::empty());
        assert(req_run(hcap, req_step(hcap, st, s[0]), s.drop_first()) == req_step(
            hcap,
            st,
            s[0],
        ));
    }
}

/// Header-name bytes accumulate unchanged in the head machine.
proof fn lemma_name_accum(hcap: nat, head: HeadInfo, n0: Seq<u8>, s: Seq<u8>)
    requires
        forall|i: int| 0 <= i < s.len() ==> s[i] != 58 && s[i] != 13 && s[i] != 10,
    ensures
        head_run(hcap, (HeadState::Name { head, name: n0 }), s) == (HeadState::Name {
            head,
            name: n0 + s,
        }),
    decreases s.len(),
{
    if s.len() == 0 {
        assert(n0 + s =~= n0);
        assert(head_run(hcap, HeadState::Name { head, name: n0 }, s) =~~= HeadState::Name {
            head,
            name: n0 + s,
        });
    } else {
        lemma_name_accum(hcap, head, n0.push(s[0]), s.drop_first());
        assert(n0.push(s[0]) + s.drop_first() =~= n0 + s);
    }
}

/// The value with trailing whitespace removed.
pub open spec fn rtrim(s: Seq<u8>) -> Seq<u8>
    decreases s.len(),
{
    if s.len() == 0 || !is_ows(s[s.len() - 1]) {
        s
    } else {
        rtrim(s.drop_last())
    }
}

/// Appending only whitespace does not change the trimmed value.
proof fn lemma_rtrim_append(a: Seq<u8>, b: Seq<u8>)
    requires
        a.len() == 0 || !is_ows(a[a.len() - 1]),
        forall|i: int| 0 <= i < b.len() ==> is_ows(b[i]),
    ensures
        rtrim(a + b) == a,
    decreases b.len(),
{
    if b.len() == 0 {
        assert(a + b =~= a);
    } else {
        assert((a + b)[(a + b).len() - 1] == b[b.len() - 1]);
        assert((a + b).drop_last() =~= a + b.drop_last());
        lemma_rtrim_append(a, b.drop_last());
    }
}

/// Value bytes accumulate, with pending whitespace held back, so that
/// the value the machine keeps is exactly the input with trailing
/// whitespace removed.
proof fn lemma_value_accum(
    hcap: nat,
    head: HeadInfo,
    name: Seq<u8>,
    value0: Seq<u8>,
    pend0: Seq<u8>,
    s: Seq<u8>,
)
    requires
        value0.len() > 0,
        !is_ows(value0[value0.len() - 1]),
        forall|i: int| 0 <= i < pend0.len() ==> is_ows(#[trigger] pend0[i]),
        forall|i: int| 0 <= i < s.len() ==> s[i] != 13 && s[i] != 10,
    ensures
        ({
            let all = value0 + pend0 + s;
            head_run(hcap, (HeadState::Value { head, name, value: value0, pend: pend0 }), s)
                == (HeadState::Value {
                head,
                name,
                value: rtrim(all),
                pend: all.subrange(rtrim(all).len() as int, all.len() as int),
            })
        }),
    decreases s.len(),
{
    let all = value0 + pend0 + s;
    if s.len() == 0 {
        lemma_rtrim_append(value0, pend0);
        assert(value0 + pend0 =~= all);
        assert(all.subrange(rtrim(all).len() as int, all.len() as int) =~= pend0);
        assert(head_run(hcap, HeadState::Value { head, name, value: value0, pend: pend0 }, s)
            =~~= HeadState::Value {
            head,
            name,
            value: rtrim(all),
            pend: all.subrange(rtrim(all).len() as int, all.len() as int),
        });
    } else {
        let b = s[0];
        if is_ows(b) {
            lemma_value_accum(hcap, head, name, value0, pend0.push(b), s.drop_first());
            assert(value0 + pend0.push(b) + s.drop_first() =~= all);
        } else {
            let v1 = value0 + pend0 + seq![b];
            assert(v1[v1.len() - 1] == b);
            lemma_value_accum(hcap, head, name, v1, Seq::empty(), s.drop_first());
            assert(v1 + Seq::<u8>::empty() + s.drop_first() =~= all);
        }
    }
}

/// One well-formed header line moves the head machine from the start of
/// a line back to the start of the next, with the header appended.
proof fn lemma_head_line(hcap: nat, info: HeadInfo, n: Seq<u8>, v: Seq<u8>)
    requires
        header_name_ok(n),
        header_value_ok(v),
        info.headers.len() < hcap,
    ensures
        head_run(hcap, (HeadState::LineStart { head: info }), spec_header_line(n, v))
            == (HeadState::LineStart {
            head: HeadInfo {
                code: info.code,
                reason: info.reason,
                headers: info.headers.push((n, v)),
            },
        }),
{
    let st0 = HeadState::LineStart { head: info };
    let line = spec_header_line(n, v);
    let tail1 = n.drop_first() + seq![58u8, 32u8] + v + crlf();
    assert(line =~= seq![n[0]] + tail1);
    lemma_head_run_split(hcap, st0, seq![n[0]], tail1);
    lemma_head_run_step(hcap, st0, n[0]);
    let st1 = HeadState::Name { head: info, name: seq![n[0]] };
    assert(head_step(hcap, st0, n[0]) == st1);
    let tail2 = seq![58u8, 32u8] + v + crlf();
    assert(tail1 =~= n.drop_first() + tail2);
    lemma_head_run_split(hcap, st1, n.drop_first(), tail2);
    lemma_name_accum(hcap, info, seq![n[0]], n.drop_first());
    assert(seq![n[0]] + n.drop_first() =~= n);
    let st2 = HeadState::Name { head: info, name: n };
    let tail3 = seq![32u8] + v + crlf();
    assert(tail2 =~= seq![58u8] + tail3);
    lemma_head_run_split(hcap, st2, seq![58u8], tail3);
    lemma_head_run_step(hcap, st2, 58);
    let st3 = HeadState::ValueSkip { head: info, name: n };
    let tail4 = v + crlf();
    assert(tail3 =~= seq![32u8] + tail4);
    lemma_head_run_split(hcap, st3, seq![32u8], tail4);
    lemma_head_run_step(hcap, st3, 32);
    assert(head_step(hcap, st3, 32) == st3);
    let st_end = HeadState::LineLf { head: info, name: n, value: v };
    if v.len() == 0 {
        assert(tail4 =~= seq![13u8] + seq![10u8]);
        lemma_head_run_split(hcap, st3, seq![13u8], seq![10u8]);
        lemma_head_run_step(hcap, st3, 13);
        assert(head_step(hcap, st3, 13) =~~= st_end);
        lemma_head_run_step(hcap, st_end, 10);
    } else {
        let tail5 = v.drop_first() + crlf();
        assert(tail4 =~= seq![v[0]] + tail5);
        lemma_head_run_split(hcap, st3, seq![v[0]], tail5);
        lemma_head_run_step(hcap, st3, v[0]);
        let st4 = HeadState::Value { head: info, name: n, value: seq![v[0]], pend: Seq::empty() };
        assert(head_step(hcap, st3, v[0]) =~~= st4);
        lemma_head_run_split(hcap, st4, v.drop_first(), crlf());
        lemma_value_accum(hcap, info, n, seq![v[0]], Seq::empty(), v.drop_first());
        let all = seq![v[0]] + Seq::<u8>::empty() + v.drop_first();
        assert(all =~= v);
        assert(rtrim(v) == v);
        let st5 = HeadState::Value {
            head: info,
            name: n,
            value: v,
            pend: v.subrange(v.len() as int, v.len() as int),
        };
        assert(head_run(hcap, st4, v.drop_first()) =~~= st5);
        assert(crlf() =~= seq![13u8] + seq![10u8]);
        lemma_head_run_split(hcap, st5, seq![13u8], seq![10u8]);
        lemma_head_run_step(hcap, st5, 13);
        assert(head_step(hcap, st5, 13) =~~= st_end);
        lemma_head_run_step(hcap, st_end, 10);
    }
    assert(head_step(hcap, st_end, 10) =~~= HeadState::LineStart {
        head: HeadInfo {
            code: info.code,
            reason: info.reason,
            headers: info.headers.push((n, v)),
        },
    });
}

/// A well-formed header block followed by the blank line completes the
/// head, with every header appended in order.
proof fn lemma_head_block(hcap: nat, info: HeadInfo, hs: Seq<(Seq<u8>, Seq<u8>)>)
    requires
        headers_ok(hs),
        info.headers.len() + hs.len() <= hcap,
    ensures
        head_run(hcap, (HeadState::LineStart { head: info }), spec_header_block(hs) + crlf())
            == (HeadState::Done {
            head: HeadInfo {
                code: info.code,
                reason: info.reason,
                headers: info.headers + hs,
            },
        }),
    decreases hs.len(),
{
    let st0 = HeadState::LineStart { head: info };
    if hs.len() == 0 {
        assert(spec_header_block(hs) + crlf() =~= seq![13u8] + seq![10u8]);
        lemma_head_run_split(hcap, st0, seq![13u8], seq![10u8]);
        lemma_head_run_step(hcap, st0, 13);
        let st1 = HeadState::EndLf { head: info };
        lemma_head_run_step(hcap, st1, 10);
        assert(info.headers + hs =~= info.headers);
        assert(head_run(hcap, st0, spec_header_block(hs) + crlf()) =~~= HeadState::Done {
            head: HeadInfo { code: info.code, reason: info.reason, headers: info.headers + hs },
        });
    } else {
        let n = hs[0].0;
        let v = hs[0].1;
        assert(header_name_ok(n) && header_value_ok(v));
        let rest = spec_header_block(hs.drop_first()) + crlf();
        assert(spec_header_block(hs) + crlf() =~= spec_header_line(n, v) + rest);
        lemma_head_run_split(hcap, st0, spec_header_line(n, v), rest);
        lemma_head_line(hcap, info, n, v);
        let info1 = HeadInfo {
            code: info.code,
            reason: info.reason,
            headers: info.headers.push((n, v)),
        };
        assert((n, v) == hs[0]);
        assert(forall|i: int|
            0 <= i < hs.drop_first().len() ==> hs.drop_first()[i] == hs[i + 1]);
        lemma_head_block(hcap, info1, hs.drop_first());
        assert(info.headers.push(hs[0]) + hs.drop_first() =~= info.headers + hs);
        assert(head_run(hcap, st0, spec_header_block(hs) + crlf()) =~~= HeadState::Done {
            head: HeadInfo { code: info.code, reason: info.reason, headers: info.headers + hs },
        });
    }
}

/// Round-trip law: for every method, every path that is a wire-safe
/// token, and every set of wire-safe headers that fits the parser's
/// header store, the reference request parser, run over exactly the
/// bytes the request encoder writes, reproduces that method's token,
/// that path, and those headers, in order.  Body bytes are appended to
/// the head verbatim by the encoder, so they are reproduced trivially.
pub proof fn lemma_request_round_trip(
    hcap: nat,
    m: Method,
    path: Seq<u8>,
    hs: Seq<(Seq<u8>, Seq<u8>)>,
)
    requires
        token_ok(path),
        headers_ok(hs),
        hs.len() <= hcap,
    ensures
        req_run(hcap, init_req_state(), spec_request_head(m, path, hs)) == (ReqState::RHead {
            m: method_bytes(m),
            p: path,
            st: HeadState::Done {
                head: HeadInfo { code: 0, reason: Seq::empty(), headers: hs },
            },
        }),
{
    let st0 = init_req_state();
    let mb = method_bytes(m);
    let head_bytes = spec_request_head(m, path, hs);
    let block = spec_header_block(hs) + crlf();
    assert(mb.len() > 0 && forall|i: int|
        0 <= i < mb.len() ==> mb[i] != 32 && mb[i] != 13 && mb[i] != 10) by {
        match m {
            Method::Get => {},
            Method::Post => {},
            Method::Put => {},
            Method::Delete => {},
            Method::Head => {},
            Method::Options => {},
            Method::Patch => {},
            Method::Connect => {},
            Method::Trace => {},
        }
    };
    let tail1 = seq![32u8] + path + seq![32u8] + version_bytes() + crlf() + block;
    assert(head_bytes =~= mb + tail1);
    lemma_req_run_split(hcap, st0, mb, tail1);
    lemma_method_accum(hcap, Seq::empty(), mb);
    assert(Seq::<u8>::empty() + mb =~= mb);
    let st1 = ReqState::RMethod { m: mb };
    assert(req_run(hcap, st0, mb) =~~= st1);
    let tail2 = path + seq![32u8] + version_bytes() + crlf() + block;
    assert(tail1 =~= seq![32u8] + tail2);
    lemma_req_run_split(hcap, st1, seq![32u8], tail2);
    lemma_req_run_step(hcap, st1, 32);
    let st2 = ReqState::RPath { m: mb, p: Seq::empty() };
    assert(req_step(hcap, st1, 32) =~~= st2);
    let tail3 = seq![32u8] + version_bytes() + crlf() + block;
    assert(tail2 =~= path + tail3);
    lemma_req_run_split(hcap, st2, path, tail3);
    lemma_path_accum(hcap, mb, Seq::empty(), path);
    assert(Seq::<u8>::empty() + path =~= path);
    let st3 = ReqState::RPath { m: mb, p: path };
    assert(req_run(hcap, st2, path) =~~= st3);
    let tail4 = version_bytes() + crlf() + block;
    assert(tail3 =~= seq![32u8] + tail4);
    lemma_req_run_split(hcap, st3, seq![32u8], tail4);
    lemma_req_run_step(hcap, st3, 32);
    let st4 = ReqState::RVersion { m: mb, p: path, got: false };
    assert(req_step(hcap, st3, 32) =~~= st4);
    let ver = version_bytes();
    assert(ver.len() > 0 && forall|i: int|
        0 <= i < ver.len() ==> ver[i] != 32 && ver[i] != 13 && ver[i] != 10);
    let tail5 = crlf() + block;
    assert(tail4 =~= ver + tail5);
    lemma_req_run_split(hcap, st4, ver, tail5);
    lemma_version_accum(hcap, mb, path, false, ver);
    let st5 = ReqState::RVersion { m: mb, p: path, got: true };
    let tail6 = seq![10u8] + block;
    assert(tail5 =~= seq![13u8] + tail6);
    lemma_req_run_split(hcap, st5, seq![13u8], tail6);
    lemma_req_run_step(hcap, st5, 13);
    let st6 = ReqState::RVersionLf { m: mb, p: path };
    assert(req_step(hcap, st5, 13) =~~= st6);
    lemma_req_run_split(hcap, st6, seq![10u8], block);
    lemma_req_run_step(hcap, st6, 10);
    let info0 = HeadInfo { code: 0, reason: Seq::empty(), headers: Seq::empty() };
    let st7 = ReqState::RHead { m: mb, p: path, st: HeadState::LineStart { head: info0 } };
    assert(req_step(hcap, st6, 10) =~~= st7);
    lemma_head_block(hcap, info0, hs);
    lemma_req_head_delegates(hcap, mb, path, HeadState::LineStart { head: info0 }, block);
    assert(Seq::<(Seq<u8>, Seq<u8>)>::empty() + hs =~= hs);
    assert(req_run(hcap, st0, head_bytes) =~~= ReqState::RHead {
        m: mb,
        p: path,
        st: HeadState::Done { head: HeadInfo { code: 0, reason: Seq::empty(), headers: hs } },
    });
}

/// The body machine reads back the hexadecimal size token the encoder
/// writes: the accumulated value is exactly the encoded number.
proof fn lemma_hex_parse(n: usize, got: bool)
    ensures
        body_run((BodyState::Size { val: 0, got }), hex_rep(n as nat)) == (BodyState::Size {
            val: n,
            got: true,
        }),
        body_out((BodyState::Size { val: 0, got }), hex_rep(n as nat)) == Seq::<u8>::empty(),
    decreases n,
{
    let st0 = BodyState::Size { val: 0, got };
    if n < 16 {
        let d = hex_digit(n as nat);
        assert(hex_rep(n as nat) =~= seq![d]);
        assert(crate::text::is_hex_digit(d) && crate::text::hex_digit_val(d) == n);
        lemma_body_machine_step(st0, d);
    } else {
        let d = hex_digit((n % 16) as nat);
        assert(hex_rep(n as nat) =~= hex_rep((n / 16) as nat) + seq![d]);
        lemma_hex_parse(n / 16, got);
        lemma_body_machine_split(st0, hex_rep((n / 16) as nat), seq![d]);
        let st1 = BodyState::Size { val: n / 16, got: true };
        assert(crate::text::is_hex_digit(d) && crate::text::hex_digit_val(d) == n % 16);
        assert((n / 16) * 16 + n % 16 == n);
        lemma_body_machine_step(st1, d);
        assert(body_out(st0, hex_rep(n as nat)) =~= Seq::<u8>::empty());
    }
}

/// Chunk round trip: the wire form that `write_body_chunk` emits for a
/// nonempty piece of data decodes, through the chunked body machine, to
/// exactly that data, and leaves the machine ready for the next chunk.
pub proof fn lemma_chunk_round_trip(data: Seq<u8>)
    requires
        1 <= data.len() <= usize::MAX,
    ensures
        body_run((BodyState::Size { val: 0, got: false }), spec_chunk(data)) == (BodyState::Size {
            val: 0,
            got: false,
        }),
        body_out((BodyState::Size { val: 0, got: false }), spec_chunk(data)) == data,
{
    let st0 = BodyState::Size { val: 0, got: false };
    let len = data.len() as usize;
    let hx = hex_rep(data.len() as nat);
    let tail1 = seq![13u8] + (seq![10u8] + (data + (seq![13u8] + seq![10u8])));
    assert(spec_chunk(data) =~= hx + tail1);
    lemma_body_machine_split(st0, hx, tail1);
    lemma_hex_parse(len, false);
    let st1 = BodyState::Size { val: len, got: true };
    let tail2 = seq![10u8] + (data + (seq![13u8] + seq![10u8]));
    lemma_body_machine_split(st1, seq![13u8], tail2);
    lemma_body_machine_step(st1, 13);
    let st2 = BodyState::SizeLf { val: len };
    let tail3 = data + (seq![13u8] + seq![10u8]);
    lemma_body_machine_split(st2, seq![10u8], tail3);
    lemma_body_machine_step(st2, 10);
    let st3 = BodyState::Data { rem: len };
    let tail4 = seq![13u8] + seq![10u8];
    lemma_body_machine_split(st3, data, tail4);
    lemma_data_run(len, data);
    let st4 = BodyState::DataCr;
    lemma_body_machine_split(st4, seq![13u8], seq![10u8]);
    lemma_body_machine_step(st4, 13);
    lemma_body_machine_step(BodyState::DataLf, 10);
    assert(body_out(st0, spec_chunk(data)) =~= data);
}

/// Terminating-chunk round trip: the wire form `write_body_chunk` emits
/// for empty data ends the body with no further output.
pub proof fn lemma_terminating_chunk_round_trip()
    ensures
        body_run((BodyState::Size { val: 0, got: false }), spec_chunk(Seq::empty()))
            == BodyState::Done,
        body_out((BodyState::Size { val: 0, got: false }), spec_chunk(Seq::empty())) == Seq::<
            u8,
        >::empty(),
{
    let st0 = BodyState::Size { val: 0, got: false };
    let s = spec_chunk(Seq::empty());
    assert(hex_rep(0) =~= seq![48u8]);
    assert(s =~= seq![48u8] + (seq![13u8] + (seq![10u8] + (seq![13u8] + seq![10u8]))));
    lemma_body_machine_split(st0, seq![48u8], seq![13u8] + (seq![10u8] + (seq![13u8] + seq![10u8])));
    lemma_body_machine_step(st0, 48);
    let st1 = BodyState::Size { val: 0, got: true };
    lemma_body_machine_split(st1, seq![13u8], seq![10u8] + (seq![13u8] + seq![10u8]));
    lemma_body_machine_step(st1, 13);
    let st2 = BodyState::SizeLf { val: 0 };
    lemma_body_machine_split(st2, seq![10u8], seq![13u8] + seq![10u8]);
    lemma_body_machine_step(st2, 10);
    let st3 = BodyState::TrailStart;
    lemma_body_machine_split(st3, seq![13u8], seq![10u8]);
    lemma_body_machine_step(st3, 13);
    lemma_body_machine_step(BodyState::EndLf, 10);
    assert(body_out(st0, s) =~= Seq::<u8>::empty());
}

/// The wire form of a whole chunked upload: each piece in order, then
/// the terminating chunk.
pub open spec fn chunked_stream(pieces: Seq<Seq<u8>>) -> Seq<u8>
    decreases pieces.len(),
{
    if pieces.len() == 0 {
        spec_chunk(Seq::empty())
    } else {
        spec_chunk(pieces[0]) + chunked_stream(pieces.drop_first())
    }
}

/// The concatenation of the pieces: the body a chunked upload carries.
pub open spec fn flatten_pieces(pieces: Seq<Seq<u8>>) -> Seq<u8>
    decreases pieces.len(),
{
    if pieces.len() == 0 {
        Seq::empty()
    } else {
        pieces[0] + flatten_pieces(pieces.drop_first())
    }
}

/// Chunked-upload round trip: a body uploaded as any sequence of
/// nonempty chunks, closed by the terminating chunk, decodes through
/// the chunked body machine to exactly the concatenation of the chunk
/// data, ending the body cleanly.
pub proof fn lemma_chunked_upload_round_trip(pieces: Seq<Seq<u8>>)
    requires
        forall|i: int| 0 <= i < pieces.len() ==> 1 <= (#[trigger] pieces[i]).len() <= usize::MAX,
    ensures
        body_run((BodyState::Size { val: 0, got: false }), chunked_stream(pieces))
            == BodyState::Done,
        body_out((BodyState::Size { val: 0, got: false }), chunked_stream(pieces))
            == flatten_pieces(pieces),
    decreases pieces.len(),
{
    let st0 = BodyState::Size { val: 0, got: false };
    if pieces.len() == 0 {
        lemma_terminating_chunk_round_trip();
        assert(flatten_pieces(pieces) =~= Seq::<u8>::empty());
    } else {
        lemma_body_machine_split(st0, spec_chunk(pieces[0]), chunked_stream(pieces.drop_first()));
        lemma_chunk_round_trip(pieces[0]);
        lemma_chunked_upload_round_trip(pieces.drop_first());
        assert(body_out(st0, chunked_stream(pieces)) =~= flatten_pieces(pieces));
    }
}

/// Once inside the header block, the request parser follows the head
/// machine byte for byte.
proof fn lemma_req_head_delegates(hcap: nat, m: Seq<u8>, p: Seq<u8>, st: HeadState, s: Seq<u8>)
    ensures
        req_run(hcap, (ReqState::RHead { m, p, st }), s) == (ReqState::RHead {
            m,
            p,
            st: head_run(hcap, st, s),
        }),
    decreases s.len(),
{
    if s.len() > 0 {
        lemma_req_head_delegates(hcap, m, p, head_step(hcap, st, s[0]), s.drop_first());
    }
}

} // verus!
