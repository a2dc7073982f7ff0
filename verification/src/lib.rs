//! A minimal HTTP/1.1 client protocol engine for fixed-buffer environments.
//!
//! The crate serializes request lines, headers and chunked body pieces into
//! caller-supplied buffers, parses response status lines and header blocks
//! incrementally from bytes that arrive in arbitrary pieces, decodes body
//! framing (content-length, chunked transfer encoding, or read-until-close),
//! and sequences a single in-flight request/response exchange through an
//! explicit connection state machine.  Transport I/O, TLS and URL splitting
//! stay outside: callers hand the engine plain bytes and take plain bytes
//! back.

use vstd::prelude::*;

pub mod body;
pub mod connection;
pub mod headers;
pub mod request;
pub mod response;
pub mod roundtrip;
pub mod text;

verus! {

/// Classification of a failure reported by the underlying byte-stream
/// transport, recorded as plain data so that errors can be matched on
/// without reference to any particular transport implementation.
#[derive(Clone, Copy, Debug, PartialEq, Eq, Structural)]
pub enum TransportErrorKind {
    /// A failure with no more specific classification.
    Other,
    /// The remote end refused the connection.
    ConnectionRefused,
    /// The connection was reset by the remote end.
    ConnectionReset,
    /// The connection was aborted.
    ConnectionAborted,
    /// The transport is not connected.
    NotConnected,
    /// A pipe or stream was closed while writing.
    BrokenPipe,
    /// The peer accepted no further bytes.
    WriteZero,
    /// The operation timed out.
    TimedOut,
    /// The operation was interrupted before completion.
    Interrupted,
    /// The transport ran out of memory.
    OutOfMemory,
    /// A parameter was not valid for the transport.
    InvalidInput,
    /// The transport delivered data it considers invalid.
    InvalidData,
    /// The operation is not supported by this transport.
    Unsupported,
}

/// Errors that can be returned by this library.
#[derive(Clone, Copy, Debug, PartialEq, Eq, Structural)]
pub enum Error {
    /// Name resolution failed before a transport could be established.
    Dns,
    /// The underlying transport reported an I/O failure.
    Network(TransportErrorKind),
    /// Malformed wire data: a bad status line, header line, chunk-size
    /// line, or content-length value.
    Codec,
    /// The request target could not be parsed.
    InvalidUrl,
    /// The TLS layer reported a failure.
    Tls,
    /// A caller-supplied buffer is too small for the data being written
    /// or parsed.
    BufferTooSmall,
    /// The request was already sent on this connection.
    AlreadySent,
    /// A different number of body bytes was written than declared.
    IncorrectBodyWritten,
    /// The peer closed the connection before the contracted amount of
    /// data arrived.
    ConnectionClosed,
}

} // verus!
