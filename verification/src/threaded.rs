//! The decisions of a server with a thread for each connection: one request is
//! received, one response is sent.

use crate::bytes::{ascii, ascii_bytes, decimal, law_decimal_reads_back};
use crate::http_req::{head_fields, Header, HeaderPos, HeaderView, RequestView, MAX_HEADERS};
use crate::http_req_text::request_text;
use crate::http_res::{
    appended, body_bytes, header_line_bytes, status_line_bytes, ResponseWriter,
};
use crate::received::{assess, noted, progress, Progress, Received, REQUEST_SIZE};
use crate::sink::{clipped, fits, ByteSink, WriteError};
use crate::text::{format_number, lemma_ascii_is_utf8};
use vstd::prelude::*;

verus! {

/// Why a connection ends without a response.
#[derive(Clone, Copy, Debug, PartialEq, Eq, Structural)]
pub enum RequestError {
    /// The buffer is full, and the request is not whole.
    TooLarge,
    /// The other side closed the connection before the request was whole.
    ConnectionClosed,
    /// This is no request that is understood here.
    Malformed,
}

/// The error in words.
pub open spec fn error_text(e: RequestError) -> Seq<char> {
    match e {
        RequestError::TooLarge => "request too large for buffer"@,
        RequestError::ConnectionClosed => "connection closed before complete request"@,
        RequestError::Malformed => "parse error"@,
    }
}

impl RequestError {
    /// The error in words.
    pub fn message(&self) -> (r: &'static str)
        ensures
            r@ == error_text(*self),
    {
        match *self {
            RequestError::TooLarge => "request too large for buffer",
            RequestError::ConnectionClosed => "connection closed before complete request",
            RequestError::Malformed => "parse error",
        }
    }
}

/// The page that every request is answered with.
pub open spec fn page() -> Seq<u8> {
    ascii("<html><h1>Hello World</h1></html>"@)
}

/// The headers of the response.
pub open spec fn response_headers() -> Seq<HeaderView> {
    seq![
        HeaderView { name: ascii("Content-Type"@), value: ascii("text/html"@) },
        HeaderView { name: ascii("Content-Length"@), value: decimal(page().len()) },
    ]
}

/// The response, byte for byte.
pub open spec fn response_bytes() -> Seq<u8> {
    let h = response_headers();
    status_line_bytes(200, ascii("OK"@)) + header_line_bytes(h[0].name, h[0].value)
        + header_line_bytes(h[1].name, h[1].value) + body_bytes(page())
}

/// Bytes that do not all go in fill the buffer, and more of them change nothing.
proof fn lemma_clipped_stays(capacity: Option<nat>, bytes: Seq<u8>, more: Seq<u8>)
    ensures
        !fits(capacity, bytes) ==> clipped(capacity, bytes + more) == clipped(capacity, bytes)
            && !fits(capacity, bytes + more),
{
    if !fits(capacity, bytes) {
        let n = capacity->0 as int;
        assert((bytes + more).take(n) =~= bytes.take(n));
    }
}

/// Writes the response to `stream`, as far as it goes in.
pub fn write_response<W: ByteSink>(stream: &mut W) -> (r: Result<(), WriteError>)
    requires
        old(stream).wf(),
    ensures
        r is Ok <==> fits(old(stream).capacity(), old(stream).written() + response_bytes()),
        appended(*old(stream), *final(stream), response_bytes()),
{
    proof {
        reveal_strlit("OK");
        reveal_strlit("Content-Type");
        reveal_strlit("text/html");
        reveal_strlit("Content-Length");
        reveal_strlit("<html><h1>Hello World</h1></html>");
        law_decimal_reads_back(page().len());
        lemma_ascii_is_utf8(ascii("Content-Type"@));
        lemma_ascii_is_utf8(ascii("text/html"@));
        lemma_ascii_is_utf8(ascii("Content-Length"@));
        lemma_ascii_is_utf8(decimal(page().len()));
    }
    let body = ascii_bytes("<html><h1>Hello World</h1></html>");
    let length = format_number(body.len());
    let ghost h = response_headers();
    let ghost capacity = stream.capacity();
    let ghost before = stream.written();
    let ghost with_status = before + status_line_bytes(200, ascii("OK"@));
    let ghost with_type = with_status + header_line_bytes(h[0].name, h[0].value);
    let ghost with_length = with_type + header_line_bytes(h[1].name, h[1].value);
    let ghost with_body = with_length + body_bytes(page());
    proof {
        assert(with_body =~= before + response_bytes());
        lemma_clipped_stays(capacity, with_length, body_bytes(page()));
        lemma_clipped_stays(capacity, with_type, header_line_bytes(h[1].name, h[1].value));
        lemma_clipped_stays(capacity, with_status, header_line_bytes(h[0].name, h[0].value));
    }
    let w = ResponseWriter::new(stream);
    let w = match w.status(200, ascii_bytes("OK")) {
        Ok(w) => w,
        Err(e) => {
            return Err(e);
        },
    };
    let w = match w.write_header(ascii_bytes("Content-Type"), ascii_bytes("text/html")) {
        Ok(w) => w,
        Err(e) => {
            return Err(e);
        },
    };
    let w = match w.write_header(ascii_bytes("Content-Length"), length.as_slice()) {
        Ok(w) => w,
        Err(e) => {
            return Err(e);
        },
    };
    let w = match w.write_body(body) {
        Ok(w) => w,
        Err(e) => {
            return Err(e);
        },
    };
    w.end();
    Ok(())
}

/// The response that every request is answered with.
pub fn build_response() -> (r: Vec<u8>)
    ensures
        r@ == response_bytes(),
{
    let mut out: Vec<u8> = Vec::new();
    let _ = write_response(&mut out);
    assert(out@ =~= response_bytes());
    out
}

/// What to do next on a connection.
pub enum ServeStep {
    /// Read more bytes, to the free end of the buffer.
    Read,
    /// Log this text, and send these bytes.
    Reply { request: String, response: Vec<u8> },
    /// End without a response.
    Fail(RequestError),
    /// The request says that it ends beyond what an offset can say.
    LengthOverflow,
}

/// What a read comes to.
pub enum ServeVerdict {
    Read,
    Reply(RequestView),
    Fail(RequestError),
    LengthOverflow,
}

impl ServeStep {
    /// Whether this step does what a verdict says: a request is logged as text
    /// and answered with the page.
    pub open spec fn follows(self, verdict: ServeVerdict) -> bool {
        match (self, verdict) {
            (ServeStep::Read, ServeVerdict::Read) => true,
            (ServeStep::Reply { request, response }, ServeVerdict::Reply(r)) => {
                &&& request@ == request_text(r)
                &&& response@ == response_bytes()
            },
            (ServeStep::Fail(e), ServeVerdict::Fail(f)) => e == f,
            (ServeStep::LengthOverflow, ServeVerdict::LengthOverflow) => true,
            _ => false,
        }
    }
}

/// With that many bytes received: read on, or fail where the buffer is full.
pub open spec fn read_on(read_bytes: int) -> ServeVerdict {
    if read_bytes == REQUEST_SIZE {
        ServeVerdict::Fail(RequestError::TooLarge)
    } else {
        ServeVerdict::Read
    }
}

/// What a read of `n` bytes comes to, with `read_bytes` received before it.
pub open spec fn serve_verdict(buf: Seq<u8>, read_bytes: usize, n: usize) -> ServeVerdict {
    if n == 0 {
        ServeVerdict::Fail(RequestError::ConnectionClosed)
    } else {
        match progress(buf.take(read_bytes + n), MAX_HEADERS as nat) {
            Progress::Whole(request) => ServeVerdict::Reply(request),
            Progress::HeadMissing => read_on(read_bytes + n),
            Progress::BodyMissing => read_on(read_bytes + n),
            Progress::Refused => ServeVerdict::Fail(RequestError::Malformed),
            Progress::LengthOverflow => ServeVerdict::LengthOverflow,
        }
    }
}

/// The first step on a connection, or the step that follows when a request is
/// not whole.
pub fn start_serving(read_bytes: usize) -> (r: ServeStep)
    ensures
        r.follows(read_on(read_bytes as int)),
{
    if read_bytes == REQUEST_SIZE {
        ServeStep::Fail(RequestError::TooLarge)
    } else {
        ServeStep::Read
    }
}

/// What a read gave: whether it left the head of the request incomplete, which
/// is logged, and what to do next.
pub struct Served {
    pub head_incomplete: bool,
    pub step: ServeStep,
}

/// The step after a read of `n` bytes that filled `buf` from `read_bytes` on.
pub fn serve_read(
    buf: &[u8; REQUEST_SIZE],
    read_bytes: &mut usize,
    header_positions: &mut [HeaderPos; MAX_HEADERS],
    n: usize,
) -> (r: Served)
    requires
        *old(read_bytes) <= REQUEST_SIZE,
        n <= REQUEST_SIZE - *old(read_bytes),
    ensures
        r.step.follows(serve_verdict(buf@, *old(read_bytes), n)),
        r.head_incomplete == (n > 0 && progress(
            buf@.take(*old(read_bytes) + n),
            MAX_HEADERS as nat,
        ) is HeadMissing),
        *final(read_bytes) == *old(read_bytes) + n,
        n > 0 ==> noted(
            old(header_positions)@,
            final(header_positions)@,
            head_fields(buf@.take(*final(read_bytes) as int), MAX_HEADERS as nat).fields,
        ),
        n == 0 ==> final(header_positions)@ == old(header_positions)@,
{
    if n == 0 {
        return Served {
            head_incomplete: false,
            step: ServeStep::Fail(RequestError::ConnectionClosed),
        };
    }
    *read_bytes = *read_bytes + n;
    let whole: &[u8] = buf.as_slice();
    let received = &whole[0..*read_bytes];
    assert(received@ =~= buf@.take(*read_bytes as int));
    match assess(received, header_positions) {
        Received::Whole(positions) => {
            let mut header_buf = [Header::default(); MAX_HEADERS];
            let request = positions.resolve(received, header_positions, &mut header_buf);
            let text = request.to_string();
            let response = build_response();
            Served {
                head_incomplete: false,
                step: ServeStep::Reply { request: text, response },
            }
        },
        Received::HeadMissing => Served {
            head_incomplete: true,
            step: start_serving(*read_bytes),
        },
        Received::BodyMissing => Served {
            head_incomplete: false,
            step: start_serving(*read_bytes),
        },
        Received::Refused => Served {
            head_incomplete: false,
            step: ServeStep::Fail(RequestError::Malformed),
        },
        Received::LengthOverflow => Served {
            head_incomplete: false,
            step: ServeStep::LengthOverflow,
        },
    }
}

} // verus!
