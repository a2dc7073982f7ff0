//! Request serialization: the request line, header lines, the blank line
//! ending the head, and chunked body pieces, written directly into a
//! caller-supplied fixed-size buffer.
//!
//! Every writer is atomic per call: either the whole piece fits at the
//! given offset and the new offset is returned, or the call fails with
//! `BufferTooSmall` and the buffer is left exactly as it was.

use vstd::prelude::*;
use crate::Error;

verus! {

/// The closed set of request methods.
#[derive(Clone, Copy, Debug, PartialEq, Eq, Structural)]
pub enum Method {
    Get,
    Post,
    Put,
    Delete,
    Head,
    Options,
    Patch,
    Connect,
    Trace,
}

/// The ASCII token of a method.
pub open spec fn method_bytes(m: Method) -> Seq<u8> {
    match m {
        Method::Get => seq![71u8, 69u8, 84u8],
        Method::Post => seq![80u8, 79u8, 83u8, 84u8],
        Method::Put => seq![80u8, 85u8, 84u8],
        Method::Delete => seq![68u8, 69u8, 76u8, 69u8, 84u8, 69u8],
        Method::Head => seq![72u8, 69u8, 65u8, 68u8],
        Method::Options => seq![79u8, 80u8, 84u8, 73u8, 79u8, 78u8, 83u8],
        Method::Patch => seq![80u8, 65u8, 84u8, 67u8, 72u8],
        Method::Connect => seq![67u8, 79u8, 78u8, 78u8, 69u8, 67u8, 84u8],
        Method::Trace => seq![84u8, 82u8, 65u8, 67u8, 69u8],
    }
}

/// The protocol version token `HTTP/1.1`.
pub open spec fn version_bytes() -> Seq<u8> {
    seq![72u8, 84u8, 84u8, 80u8, 47u8, 49u8, 46u8, 49u8]
}

/// The line terminator `\r\n`.
pub open spec fn crlf() -> Seq<u8> {
    seq![13u8, 10u8]
}

/// The bytes of a request line: method, space, path, space, version, CRLF.
pub open spec fn spec_request_line(m: Method, path: Seq<u8>) -> Seq<u8> {
    method_bytes(m) + seq![32u8] + path + seq![32u8] + version_bytes() + crlf()
}

/// The bytes of one header line: `name: value\r\n`.
pub open spec fn spec_header_line(name: Seq<u8>, value: Seq<u8>) -> Seq<u8> {
    name + seq![58u8, 32u8] + value + crlf()
}

/// The lower-case hexadecimal digit of value `d`.
pub open spec fn hex_digit(d: nat) -> u8 {
    if d < 10 {
        (48 + d) as u8
    } else {
        (87 + d) as u8
    }
}

/// The shortest lower-case hexadecimal representation of `n`.
pub open spec fn hex_rep(n: nat) -> Seq<u8>
    decreases n,
{
    if n < 16 {
        seq![hex_digit(n)]
    } else {
        hex_rep(n / 16).push(hex_digit(n % 16))
    }
}

/// The wire form of one body chunk: size line in hexadecimal, CRLF, the
/// data bytes, CRLF.  A zero-length chunk is the terminating chunk.
pub open spec fn spec_chunk(data: Seq<u8>) -> Seq<u8> {
    hex_rep(data.len() as nat) + crlf() + data + crlf()
}

/// The method token as bytes.
pub fn method_token(m: Method) -> (r: Vec<u8>)
    ensures
        r@ == method_bytes(m),
        1 <= r@.len() <= 7,
{
    let mut v: Vec<u8> = Vec::new();
    match m {
        Method::Get => {
            v.push(71);
            v.push(69);
            v.push(84);
            proof {
                assert(v@ =~= method_bytes(m));
            }
        },
        Method::Post => {
            v.push(80);
            v.push(79);
            v.push(83);
            v.push(84);
            proof {
                assert(v@ =~= method_bytes(m));
            }
        },
        Method::Put => {
            v.push(80);
            v.push(85);
            v.push(84);
            proof {
                assert(v@ =~= method_bytes(m));
            }
        },
        Method::Delete => {
            v.push(68);
            v.push(69);
            v.push(76);
            v.push(69);
            v.push(84);
            v.push(69);
            proof {
                assert(v@ =~= method_bytes(m));
            }
        },
        Method::Head => {
            v.push(72);
            v.push(69);
            v.push(65);
            v.push(68);
            proof {
                assert(v@ =~= method_bytes(m));
            }
        },
        Method::Options => {
            v.push(79);
            v.push(80);
            v.push(84);
            v.push(73);
            v.push(79);
            v.push(78);
            v.push(83);
            proof {
                assert(v@ =~= method_bytes(m));
            }
        },
        Method::Patch => {
            v.push(80);
            v.push(65);
            v.push(84);
            v.push(67);
            v.push(72);
            proof {
                assert(v@ =~= method_bytes(m));
            }
        },
        Method::Connect => {
            v.push(67);
            v.push(79);
            v.push(78);
            v.push(78);
            v.push(69);
            v.push(67);
            v.push(84);
            proof {
                assert(v@ =~= method_bytes(m));
            }
        },
        Method::Trace => {
            v.push(84);
            v.push(82);
            v.push(65);
            v.push(67);
            v.push(69);
            proof {
                assert(v@ =~= method_bytes(m));
            }
        },
    }
    v
}

/// The version token `HTTP/1.1` as bytes.
fn version_token() -> (r: Vec<u8>)
    ensures
        r@ == version_bytes(),
{
    let mut v: Vec<u8> = Vec::new();
    v.push(72);
    v.push(84);
    v.push(84);
    v.push(80);
    v.push(47);
    v.push(49);
    v.push(46);
    v.push(49);
    proof {
        assert(v@ =~= version_bytes());
    }
    v
}

/// The shortest lower-case hexadecimal token of `n`.
pub fn hex_token(n: usize) -> (r: Vec<u8>)
    ensures
        r@ == hex_rep(n as nat),
        1 <= r@.len() <= 16,
    decreases n,
{
    let rem: usize = n % 16;
    let d: u8 = if rem < 10 {
        48 + (rem as u8)
    } else {
        87 + (rem as u8)
    };
    assert(d == hex_digit((n % 16) as nat));
    if n < 16 {
        let mut v: Vec<u8> = Vec::new();
        v.push(d);
        proof {
            assert(v@ =~= hex_rep(n as nat));
        }
        v
    } else {
        proof {
            assert(((n / 16) as nat) < pow16(15)) by {
                assert(pow16(15) == 0x1000_0000_0000_0000) by {
                    reveal_with_fuel(pow16, 16);
                };
                assert(usize::MAX <= 0xffff_ffff_ffff_ffff);
            };
            lemma_hex_len((n / 16) as nat, 15);
        }
        let mut v = hex_token(n / 16);
        v.push(d);
        v
    }
}

/// A value below `16^k` has at most `k` hexadecimal digits.
proof fn lemma_hex_len(n: nat, k: nat)
    requires
        k >= 1,
        n < pow16(k),
    ensures
        1 <= hex_rep(n).len() <= k,
    decreases k,
{
    if n >= 16 {
        assert(pow16(k) == 16 * pow16((k - 1) as nat));
        assert(k >= 2) by {
            if k == 1 {
                assert(pow16(1) == 16) by {
                    reveal_with_fuel(pow16, 2);
                };
            }
        };
        assert(n / 16 < pow16((k - 1) as nat)) by (nonlinear_arith)
            requires
                n < 16 * pow16((k - 1) as nat),
        ;
        lemma_hex_len(n / 16, (k - 1) as nat);
    }
}

/// Sixteen to the power `k`.
pub open spec fn pow16(k: nat) -> nat
    decreases k,
{
    if k == 0 {
        1nat
    } else {
        16 * pow16((k - 1) as nat)
    }
}

/// Writes `data` into `buf` at offset `pos`.  On success the buffer holds
/// the same bytes outside `[pos, pos + data.len())` and `data` inside it;
/// on failure the buffer is untouched.
pub fn write_bytes(buf: &mut Vec<u8>, pos: usize, data: &[u8]) -> (r: Result<usize, Error>)
    requires
        pos <= old(buf)@.len(),
    ensures
        final(buf)@.len() == old(buf)@.len(),
        match r {
            Ok(p) => pos + data@.len() <= old(buf)@.len() && p == pos + data@.len() && final(buf)@
                == old(buf)@.take(pos as int) + data@ + old(buf)@.skip(pos + data@.len()),
            Err(e) => e == Error::BufferTooSmall && pos + data@.len() > old(buf)@.len() && final(buf)@ == old(buf)@,
        },
{
    let n = data.len();
    if buf.len() - pos < n {
        return Err(Error::BufferTooSmall);
    }
    let mut i: usize = 0;
    while i < n
        invariant
            i <= n,
            n == data@.len(),
            pos + n <= buf@.len(),
            pos + n <= usize::MAX,
            buf@.len() == old(buf)@.len(),
            forall|j: int| 0 <= j < pos ==> buf@[j] == old(buf)@[j],
            forall|j: int| pos <= j < pos + i ==> buf@[j] == data@[j - pos],
            forall|j: int| pos + i <= j < buf@.len() ==> buf@[j] == old(buf)@[j],
        decreases n - i,
    {
        let b = *vstd::slice::slice_index_get(data, i);
        buf[pos + i] = b;
        i += 1;
    }
    proof {
        assert(buf@ =~= old(buf)@.take(pos as int) + data@ + old(buf)@.skip(pos + data@.len()));
    }
    Ok(pos + n)
}

/// Writes one byte into `buf` at offset `pos`, atomically.
pub fn write_byte(buf: &mut Vec<u8>, pos: usize, b: u8) -> (r: Result<usize, Error>)
    requires
        pos <= old(buf)@.len(),
    ensures
        final(buf)@.len() == old(buf)@.len(),
        match r {
            Ok(p) => pos + 1 <= old(buf)@.len() && p == pos + 1 && final(buf)@ == old(buf)@.take(
                pos as int,
            ) + seq![b] + old(buf)@.skip(pos + 1),
            Err(e) => e == Error::BufferTooSmall && pos + 1 > old(buf)@.len() && final(buf)@ == old(buf)@,
        },
{
    if pos < buf.len() {
        buf[pos] = b;
        proof {
            assert(buf@ =~= old(buf)@.take(pos as int) + seq![b] + old(buf)@.skip(pos + 1));
        }
        Ok(pos + 1)
    } else {
        Err(Error::BufferTooSmall)
    }
}

/// Writes the request line `METHOD SP path SP HTTP/1.1 CRLF` at `pos`,
/// atomically: on `BufferTooSmall` nothing is appended.
#[verifier::rlimit(80)]
pub fn write_request_line(buf: &mut Vec<u8>, pos: usize, m: Method, path: &[u8]) -> (r: Result<
    usize,
    Error,
>)
    requires
        pos <= old(buf)@.len(),
    ensures
        final(buf)@.len() == old(buf)@.len(),
        ({
            let line = spec_request_line(m, path@);
            match r {
                Ok(p) => pos + line.len() <= old(buf)@.len() && p == pos + line.len() && final(buf)@ == old(buf)@.take(pos as int) + line + old(buf)@.skip(pos + line.len()),
                Err(e) => e == Error::BufferTooSmall && pos + line.len() > old(buf)@.len() && final(buf)@ == old(buf)@,
            }
        }),
{
    let ghost line = spec_request_line(m, path@);
    let tok = method_token(m);
    let avail = buf.len() - pos;
    if avail < tok.len() + 12 || avail - (tok.len() + 12) < path.len() {
        assert(pos + line.len() > buf@.len());
        return Err(Error::BufferTooSmall);
    }
    assert(pos + line.len() <= buf@.len());
    let ghost b0 = buf@;
    let p1 = write_bytes(buf, pos, tok.as_slice())?;
    proof {
        assert(buf@ =~= b0.take(pos as int) + method_bytes(m) + b0.skip(p1 as int));
    }
    let p2 = write_byte(buf, p1, 32)?;
    proof {
        assert(buf@ =~= b0.take(pos as int) + method_bytes(m) + seq![32u8] + b0.skip(p2 as int));
    }
    let p3 = write_bytes(buf, p2, path)?;
    proof {
        assert(buf@ =~= b0.take(pos as int) + method_bytes(m) + seq![32u8] + path@ + b0.skip(
            p3 as int,
        ));
    }
    let p4 = write_byte(buf, p3, 32)?;
    proof {
        assert(buf@ =~= b0.take(pos as int) + method_bytes(m) + seq![32u8] + path@ + seq![32u8]
            + b0.skip(p4 as int));
    }
    let ver = version_token();
    let p5 = write_bytes(buf, p4, ver.as_slice())?;
    proof {
        assert(buf@ =~= b0.take(pos as int) + method_bytes(m) + seq![32u8] + path@ + seq![32u8]
            + version_bytes() + b0.skip(p5 as int));
    }
    let p6 = write_byte(buf, p5, 13)?;
    let p7 = write_byte(buf, p6, 10)?;
    proof {
        assert(buf@ =~= b0.take(pos as int) + method_bytes(m) + seq![32u8] + path@ + seq![32u8]
            + version_bytes() + seq![13u8, 10u8] + b0.skip(p7 as int));
        assert(line =~= method_bytes(m) + seq![32u8] + path@ + seq![32u8] + version_bytes() + seq![
            13u8,
            10u8,
        ]);
        assert(buf@ =~= old(buf)@.take(pos as int) + line + old(buf)@.skip(pos + line.len()));
    }
    Ok(p7)
}

/// Writes one header line `name: value CRLF` at `pos`, atomically.
pub fn write_header(buf: &mut Vec<u8>, pos: usize, name: &[u8], value: &[u8]) -> (r: Result<
    usize,
    Error,
>)
    requires
        pos <= old(buf)@.len(),
    ensures
        final(buf)@.len() == old(buf)@.len(),
        ({
            let line = spec_header_line(name@, value@);
            match r {
                Ok(p) => pos + line.len() <= old(buf)@.len() && p == pos + line.len() && final(buf)@ == old(buf)@.take(pos as int) + line + old(buf)@.skip(pos + line.len()),
                Err(e) => e == Error::BufferTooSmall && pos + line.len() > old(buf)@.len() && final(buf)@ == old(buf)@,
            }
        }),
{
    let ghost line = spec_header_line(name@, value@);
    let avail = buf.len() - pos;
    if avail < 4 || avail - 4 < name.len() || avail - 4 - name.len() < value.len() {
        assert(pos + line.len() > buf@.len());
        return Err(Error::BufferTooSmall);
    }
    assert(pos + line.len() <= buf@.len());
    let ghost b0 = buf@;
    let p1 = write_bytes(buf, pos, name)?;
    proof {
        assert(buf@ =~= b0.take(pos as int) + name@ + b0.skip(p1 as int));
    }
    let p2 = write_byte(buf, p1, 58)?;
    let p3 = write_byte(buf, p2, 32)?;
    proof {
        assert(buf@ =~= b0.take(pos as int) + name@ + seq![58u8, 32u8] + b0.skip(p3 as int));
    }
    let p4 = write_bytes(buf, p3, value)?;
    proof {
        assert(buf@ =~= b0.take(pos as int) + name@ + seq![58u8, 32u8] + value@ + b0.skip(
            p4 as int,
        ));
    }
    let p5 = write_byte(buf, p4, 13)?;
    let p6 = write_byte(buf, p5, 10)?;
    proof {
        assert(buf@ =~= b0.take(pos as int) + name@ + seq![58u8, 32u8] + value@ + seq![13u8, 10u8]
            + b0.skip(p6 as int));
        assert(line =~= name@ + seq![58u8, 32u8] + value@ + seq![13u8, 10u8]);
        assert(buf@ =~= old(buf)@.take(pos as int) + line + old(buf)@.skip(pos + line.len()));
    }
    Ok(p6)
}

/// Writes the blank line that ends the header block, atomically.
pub fn write_headers_end(buf: &mut Vec<u8>, pos: usize) -> (r: Result<usize, Error>)
    requires
        pos <= old(buf)@.len(),
    ensures
        final(buf)@.len() == old(buf)@.len(),
        match r {
            Ok(p) => pos + 2 <= old(buf)@.len() && p == pos + 2 && final(buf)@ == old(buf)@.take(
                pos as int,
            ) + crlf() + old(buf)@.skip(pos + 2),
            Err(e) => e == Error::BufferTooSmall && pos + 2 > old(buf)@.len() && final(buf)@ == old(buf)@,
        },
{
    let avail = buf.len() - pos;
    if avail < 2 {
        return Err(Error::BufferTooSmall);
    }
    let p1 = write_byte(buf, pos, 13)?;
    let p2 = write_byte(buf, p1, 10)?;
    proof {
        assert(buf@ =~= old(buf)@.take(pos as int) + crlf() + old(buf)@.skip(pos + 2));
    }
    Ok(p2)
}

/// Writes one chunk of a chunked upload at `pos`: the size line in
/// hexadecimal, CRLF, the data, CRLF; atomically.  A call with empty
/// `data` writes the terminating chunk.
pub fn write_body_chunk(buf: &mut Vec<u8>, pos: usize, data: &[u8]) -> (r: Result<usize, Error>)
    requires
        pos <= old(buf)@.len(),
    ensures
        final(buf)@.len() == old(buf)@.len(),
        ({
            let piece = spec_chunk(data@);
            match r {
                Ok(p) => pos + piece.len() <= old(buf)@.len() && p == pos + piece.len() && final(buf)@ == old(buf)@.take(pos as int) + piece + old(buf)@.skip(pos + piece.len()),
                Err(e) => e == Error::BufferTooSmall && pos + piece.len() > old(buf)@.len()
                    && final(buf)@ == old(buf)@,
            }
        }),
{
    let ghost piece = spec_chunk(data@);
    let hex = hex_token(data.len());
    let avail = buf.len() - pos;
    if avail < hex.len() + 4 || avail - (hex.len() + 4) < data.len() {
        assert(pos + piece.len() > buf@.len());
        return Err(Error::BufferTooSmall);
    }
    assert(pos + piece.len() <= buf@.len());
    let ghost b0 = buf@;
    let ghost hx = hex_rep(data@.len() as nat);
    let p1 = write_bytes(buf, pos, hex.as_slice())?;
    proof {
        assert(buf@ =~= b0.take(pos as int) + hx + b0.skip(p1 as int));
    }
    let p2 = write_byte(buf, p1, 13)?;
    let p3 = write_byte(buf, p2, 10)?;
    proof {
        assert(buf@ =~= b0.take(pos as int) + hx + seq![13u8, 10u8] + b0.skip(p3 as int));
    }
    let p4 = write_bytes(buf, p3, data)?;
    proof {
        assert(buf@ =~= b0.take(pos as int) + hx + seq![13u8, 10u8] + data@ + b0.skip(p4 as int));
    }
    let p5 = write_byte(buf, p4, 13)?;
    let p6 = write_byte(buf, p5, 10)?;
    proof {
        assert(buf@ =~= b0.take(pos as int) + hx + seq![13u8, 10u8] + data@ + seq![13u8, 10u8]
            + b0.skip(p6 as int));
        assert(piece =~= hx + seq![13u8, 10u8] + data@ + seq![13u8, 10u8]);
        assert(buf@ =~= old(buf)@.take(pos as int) + piece + old(buf)@.skip(pos + piece.len()));
    }
    Ok(p6)
}

} // verus!
