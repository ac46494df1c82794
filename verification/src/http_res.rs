//! Writing of a response: a status line, headers and a body, in this order.

use crate::bytes::{ascii, ascii_bytes, decimal, decimal_bytes, COLON, CR, LF, SPACE};
use crate::sink::{clipped, fits, ByteSink, WriteError};
use crate::text::{decode_lossy, lossy_utf8};
use vstd::prelude::*;
use vstd::utf8::*;

verus! {

/// The writer is ready for the status line.
pub struct WantStatus {
    _seal: (),
}

/// The writer is ready for headers, or for the body.
pub struct WantHeaders {
    _seal: (),
}

/// The body has been written.
pub struct WantBody {
    _seal: (),
}

/// A response that is being written to `stream`. Its type says which part is
/// due next; only the methods here lead from one part to the next.
pub struct ResponseWriter<'a, W, S> {
    pub stream: &'a mut W,
    pub state: S,
}

/// Whether `after` is `before` with `part` written to it, as far as it goes in.
pub open spec fn appended<W: ByteSink>(before: W, after: W, part: Seq<u8>) -> bool {
    &&& after.wf()
    &&& after.capacity() == before.capacity()
    &&& after.written() == clipped(before.capacity(), before.written() + part)
}

/// The status line: `HTTP/1.1`, the code and the reason.
pub open spec fn status_line_bytes(code: u16, reason: Seq<u8>) -> Seq<u8> {
    ascii("HTTP/1.1 "@) + decimal(code as nat) + seq![SPACE] + reason + seq![CR, LF]
}

/// A header line with that name and that value.
pub open spec fn header_line_bytes(name: Seq<u8>, value: Seq<u8>) -> Seq<u8> {
    name + seq![COLON, SPACE] + value + seq![CR, LF]
}

/// A header line with the text that the bytes of a name and a value stand for.
pub open spec fn text_header_bytes(name: Seq<u8>, value: Seq<u8>) -> Seq<u8> {
    header_line_bytes(encode_utf8(lossy_utf8(name)), encode_utf8(lossy_utf8(value)))
}

/// The empty line that ends the headers, and the body.
pub open spec fn body_bytes(body: Seq<u8>) -> Seq<u8> {
    seq![CR, LF] + body
}

/// The status line: `HTTP/1.1`, the code and the reason.
pub fn status_line(code: u16, reason: &[u8]) -> (r: Vec<u8>)
    ensures
        r@ == status_line_bytes(code, reason@),
{
    proof {
        reveal_strlit("HTTP/1.1 ");
    }
    let mut line: Vec<u8> = Vec::new();
    append(&mut line, ascii_bytes("HTTP/1.1 "));
    let digits = decimal_bytes(code);
    append(&mut line, digits.as_slice());
    line.push(SPACE);
    append(&mut line, reason);
    line.push(CR);
    line.push(LF);
    assert(line@ =~= status_line_bytes(code, reason@));
    line
}

/// The header line with that name and that value, in UTF-8.
pub fn header_line(name: &str, value: &str) -> (r: Vec<u8>)
    ensures
        r@ == header_line_bytes(encode_utf8(name@), encode_utf8(value@)),
{
    let mut line: Vec<u8> = Vec::new();
    append(&mut line, name.as_bytes());
    line.push(COLON);
    line.push(SPACE);
    append(&mut line, value.as_bytes());
    line.push(CR);
    line.push(LF);
    assert(line@ =~= header_line_bytes(encode_utf8(name@), encode_utf8(value@)));
    line
}

fn append(v: &mut Vec<u8>, bytes: &[u8])
    ensures
        final(v)@ == old(v)@ + bytes@,
{
    v.extend_from_slice(bytes);
    assert(v@ =~= old(v)@ + bytes@);
}

impl<'a, W: ByteSink> ResponseWriter<'a, W, WantStatus> {
    /// Starts a response on `stream`.
    pub fn new(stream: &'a mut W) -> (r: Self)
        ensures
            *r.stream == *old(stream),
            *final(r.stream) == *final(stream),
    {
        ResponseWriter { stream, state: WantStatus { _seal: () } }
    }

    /// Writes the status line.
    pub fn status(self, code: u16, reason: &[u8]) -> (r: Result<
        ResponseWriter<'a, W, WantHeaders>,
        WriteError,
    >)
        requires
            old(self.stream).wf(),
        ensures
            r is Ok <==> fits(
                old(self.stream).capacity(),
                old(self.stream).written() + status_line_bytes(code, reason@),
            ),
            match r {
                Ok(w) => {
                    &&& appended(*old(self.stream), *w.stream, status_line_bytes(code, reason@))
                    &&& *final(w.stream) == *final(self.stream)
                },
                Err(_) => appended(
                    *old(self.stream),
                    *final(self.stream),
                    status_line_bytes(code, reason@),
                ),
            },
    {
        let line = status_line(code, reason);
        match self.stream.write_all(line.as_slice()) {
            Ok(()) => Ok(
                ResponseWriter { stream: self.stream, state: WantHeaders { _seal: () } },
            ),
            Err(e) => Err(e),
        }
    }
}

impl<'a, W: ByteSink> ResponseWriter<'a, W, WantHeaders> {
    /// Writes a header. Bytes of the name or the value that are not valid UTF-8
    /// come out as replacement characters; valid ones come out as they are.
    pub fn write_header(self, name: &[u8], value: &[u8]) -> (r: Result<
        ResponseWriter<'a, W, WantHeaders>,
        WriteError,
    >)
        requires
            old(self.stream).wf(),
        ensures
            r is Ok <==> fits(
                old(self.stream).capacity(),
                old(self.stream).written() + text_header_bytes(name@, value@),
            ),
            match r {
                Ok(w) => {
                    &&& appended(*old(self.stream), *w.stream, text_header_bytes(name@, value@))
                    &&& *final(w.stream) == *final(self.stream)
                },
                Err(_) => appended(
                    *old(self.stream),
                    *final(self.stream),
                    text_header_bytes(name@, value@),
                ),
            },
            valid_utf8(name@) && valid_utf8(value@) ==> text_header_bytes(name@, value@)
                == header_line_bytes(name@, value@),
    {
        let name_text = decode_lossy(name);
        let value_text = decode_lossy(value);
        proof {
            if valid_utf8(name@) && valid_utf8(value@) {
                decode_utf8_encode_utf8(name@);
                decode_utf8_encode_utf8(value@);
            }
        }
        let line = header_line(name_text.as_str(), value_text.as_str());
        match self.stream.write_all(line.as_slice()) {
            Ok(()) => Ok(self),
            Err(e) => Err(e),
        }
    }

    /// Ends the headers and writes the body.
    pub fn write_body(self, body: &[u8]) -> (r: Result<
        ResponseWriter<'a, W, WantBody>,
        WriteError,
    >)
        requires
            old(self.stream).wf(),
        ensures
            r is Ok <==> fits(
                old(self.stream).capacity(),
                old(self.stream).written() + body_bytes(body@),
            ),
            match r {
                Ok(w) => {
                    &&& appended(*old(self.stream), *w.stream, body_bytes(body@))
                    &&& *final(w.stream) == *final(self.stream)
                },
                Err(_) => appended(
                    *old(self.stream),
                    *final(self.stream),
                    body_bytes(body@),
                ),
            },
    {
        let mut bytes: Vec<u8> = Vec::new();
        bytes.push(CR);
        bytes.push(LF);
        append(&mut bytes, body);
        assert(bytes@ =~= body_bytes(body@));
        match self.stream.write_all(bytes.as_slice()) {
            Ok(()) => Ok(ResponseWriter { stream: self.stream, state: WantBody { _seal: () } }),
            Err(e) => Err(e),
        }
    }
}

impl<'a, W: ByteSink> ResponseWriter<'a, W, WantBody> {
    /// Ends the response. What was written stays as it is, and nothing can go
    /// wrong with a buffer in memory.
    pub fn end(self) -> (r: Option<WriteError>)
        requires
            old(self.stream).wf(),
        ensures
            r is None,
            *final(self.stream) == *old(self.stream),
    {
        match self.stream.flush() {
            Ok(()) => None,
            Err(e) => Some(e),
        }
    }
}

} // verus!
