//! The decisions of an event-driven server: what to do with a connection that
//! can be read or written, and with the table of connections.

use crate::bytes::{
    ascii, ascii_bytes, decimal, eq_ignore_case, law_decimal_reads_back, same_ignoring_case,
};
use crate::http_req::{
    head_fields, Header, HeaderPos, HeaderView, Request, RequestView, MAX_HEADERS,
};
use crate::http_res::{body_bytes, header_line_bytes, status_line_bytes, ResponseWriter};
use crate::received::{assess, noted, progress, Progress, Received, REQUEST_SIZE};
use crate::sink::{ByteSink, ResponseBuf, RESPONSE_SIZE};
use crate::text::{format_number, lemma_ascii_is_utf8};
use vstd::prelude::*;
use vstd::string::*;

verus! {

/// What came of a turn of reading or of writing.
pub enum ReadOutcome {
    /// Nothing more can be done until the next event.
    Pending,
    /// The connection is to be closed.
    Close,
    /// The response has been sent, and the next request may come.
    Reset,
    /// A request has been received, and this is to be sent.
    Response { buf: [u8; RESPONSE_SIZE], len: usize, keep_alive: bool },
}

/// What a read or a write on a connection gave.
#[derive(Clone, Copy, Debug, PartialEq, Eq, Structural)]
pub enum IoEvent {
    /// So many bytes went over.
    Transferred(usize),
    /// The call would have had to wait.
    WouldBlock,
    /// A signal came in between.
    Interrupted,
    /// The call failed for another reason.
    Failed,
}

/// Whether a header asks for the connection to be closed.
pub open spec fn asks_to_close(h: HeaderView) -> bool {
    same_ignoring_case(h.name, ascii("connection"@)) && same_ignoring_case(
        h.value,
        ascii("close"@),
    )
}

/// Whether no header asks for the connection to be closed.
pub open spec fn keeps_alive(r: RequestView) -> bool {
    forall|i: int| 0 <= i < r.headers.len() ==> !asks_to_close(#[trigger] r.headers[i])
}

/// Whether the connection is to be kept for a further request.
pub fn wants_keep_alive(request: &Request) -> (r: bool)
    ensures
        r == keeps_alive(request@),
{
    proof {
        reveal_strlit("connection");
        reveal_strlit("close");
    }
    let mut i: usize = 0;
    while i < request.headers.len()
        invariant
            i <= request.headers@.len(),
            is_ascii("connection"),
            is_ascii("close"),
            forall|j: int| 0 <= j < i ==> !asks_to_close(#[trigger] request@.headers[j]),
        decreases request.headers@.len() - i,
    {
        let h: Header = request.headers[i];
        assert(request@.headers[i as int] == h@);
        if eq_ignore_case(h.name, ascii_bytes("connection")) && eq_ignore_case(
            h.value,
            ascii_bytes("close"),
        ) {
            return false;
        }
        i = i + 1;
    }
    true
}

/// The page that every request is answered with.
pub open spec fn page() -> Seq<u8> {
    ascii("<html><h1>Hello World, with epoll</h1></html>"@)
}

/// The headers of the response.
pub open spec fn response_headers(keep_alive: bool) -> Seq<HeaderView> {
    seq![
        HeaderView { name: ascii("Content-Type"@), value: ascii("text/html"@) },
        HeaderView { name: ascii("Content-Length"@), value: decimal(page().len()) },
        HeaderView {
            name: ascii("Connection"@),
            value: if keep_alive {
                ascii("keep-alive"@)
            } else {
                ascii("close"@)
            },
        },
    ]
}

/// The response, byte for byte.
pub open spec fn response_bytes(keep_alive: bool) -> Seq<u8> {
    let h = response_headers(keep_alive);
    status_line_bytes(200, ascii("OK"@)) + header_line_bytes(h[0].name, h[0].value)
        + header_line_bytes(h[1].name, h[1].value) + header_line_bytes(h[2].name, h[2].value)
        + body_bytes(page())
}

impl ReadOutcome {
    /// Whether a response, if this is one, is the right one: its bytes stand at
    /// the start of the buffer, and the rest of the buffer is zero.
    pub open spec fn wf(self) -> bool {
        self matches ReadOutcome::Response { buf, len, keep_alive } ==> {
            &&& len <= RESPONSE_SIZE
            &&& buf@.take(len as int) == response_bytes(keep_alive)
            &&& forall|i: int| len <= i < RESPONSE_SIZE ==> #[trigger] buf@[i] == 0
        }
    }
}

proof fn lemma_literals()
    ensures
        is_ascii("OK"),
        is_ascii("Content-Type"),
        is_ascii("text/html"),
        is_ascii("Content-Length"),
        is_ascii("Connection"),
        is_ascii("keep-alive"),
        is_ascii("close"),
        is_ascii("<html><h1>Hello World, with epoll</h1></html>"),
        page().len() == 45,
        decimal(page().len()).len() == 2,
        decimal(200).len() == 3,
        forall|k: bool| #[trigger] response_bytes(k).len() <= RESPONSE_SIZE,
{
    reveal_strlit("OK");
    reveal_strlit("Content-Type");
    reveal_strlit("text/html");
    reveal_strlit("Content-Length");
    reveal_strlit("Connection");
    reveal_strlit("keep-alive");
    reveal_strlit("close");
    reveal_strlit("HTTP/1.1 ");
    reveal_strlit("<html><h1>Hello World, with epoll</h1></html>");
    reveal_with_fuel(decimal, 4);
}

/// The answer to a request. The same page answers every one.
pub fn build_response(_request: &Request, keep_alive: bool) -> (r: ReadOutcome)
    ensures
        r matches ReadOutcome::Response { buf, len, keep_alive: k } && k == keep_alive,
        r.wf(),
{
    proof {
        lemma_literals();
        law_decimal_reads_back(page().len());
        lemma_ascii_is_utf8(ascii("Content-Type"@));
        lemma_ascii_is_utf8(ascii("text/html"@));
        lemma_ascii_is_utf8(ascii("Content-Length"@));
        lemma_ascii_is_utf8(decimal(page().len()));
        lemma_ascii_is_utf8(ascii("Connection"@));
        lemma_ascii_is_utf8(ascii("keep-alive"@));
        lemma_ascii_is_utf8(ascii("close"@));
    }
    let body = ascii_bytes("<html><h1>Hello World, with epoll</h1></html>");
    let length = format_number(body.len());
    let connection_value = if keep_alive {
        ascii_bytes("keep-alive")
    } else {
        ascii_bytes("close")
    };
    assert(response_bytes(keep_alive).len() <= RESPONSE_SIZE);
    let mut out = ResponseBuf::new();
    let w = ResponseWriter::new(&mut out);
    let w = match w.status(200, ascii_bytes("OK")) {
        Ok(w) => w,
        Err(_) => {
            return ReadOutcome::Close;
        },
    };
    let w = match w.write_header(ascii_bytes("Content-Type"), ascii_bytes("text/html")) {
        Ok(w) => w,
        Err(_) => {
            return ReadOutcome::Close;
        },
    };
    let w = match w.write_header(ascii_bytes("Content-Length"), length.as_slice()) {
        Ok(w) => w,
        Err(_) => {
            return ReadOutcome::Close;
        },
    };
    let w = match w.write_header(ascii_bytes("Connection"), connection_value) {
        Ok(w) => w,
        Err(_) => {
            return ReadOutcome::Close;
        },
    };
    match w.write_body(body) {
        Ok(_) => {},
        Err(_) => {
            return ReadOutcome::Close;
        },
    }
    assert(out.written() =~= response_bytes(keep_alive));
    ReadOutcome::Response { buf: out.bytes, len: out.len, keep_alive }
}

/// What to do next while a request is received.
pub enum ReadStep {
    /// Read more bytes, to the free end of the buffer.
    Read,
    /// The turn is over.
    Done(ReadOutcome),
    /// The request says that it ends beyond what an offset can say.
    LengthOverflow,
}

/// What a turn of reading comes to.
pub enum ReadVerdict {
    Read,
    Pending,
    Close,
    Reset,
    Respond(bool),
    LengthOverflow,
}

impl ReadStep {
    /// What this step comes to.
    pub open spec fn verdict(self) -> ReadVerdict {
        match self {
            ReadStep::Read => ReadVerdict::Read,
            ReadStep::Done(ReadOutcome::Pending) => ReadVerdict::Pending,
            ReadStep::Done(ReadOutcome::Close) => ReadVerdict::Close,
            ReadStep::Done(ReadOutcome::Reset) => ReadVerdict::Reset,
            ReadStep::Done(ReadOutcome::Response { buf, len, keep_alive }) => ReadVerdict::Respond(
                keep_alive,
            ),
            ReadStep::LengthOverflow => ReadVerdict::LengthOverflow,
        }
    }

    /// Whether a response, if this holds one, is the right one.
    pub open spec fn wf(self) -> bool {
        self matches ReadStep::Done(outcome) ==> outcome.wf()
    }
}

/// With that many bytes received: read on, or close where the buffer is full.
pub open spec fn read_on(read_bytes: usize) -> ReadVerdict {
    if read_bytes == REQUEST_SIZE {
        ReadVerdict::Close
    } else {
        ReadVerdict::Read
    }
}

/// What a turn of reading comes to once those bytes have been received.
pub open spec fn after_bytes(received: Seq<u8>) -> ReadVerdict {
    match progress(received, MAX_HEADERS as nat) {
        Progress::Whole(request) => ReadVerdict::Respond(keeps_alive(request)),
        Progress::HeadMissing => read_on(received.len() as usize),
        Progress::BodyMissing => read_on(received.len() as usize),
        Progress::Refused => ReadVerdict::Close,
        Progress::LengthOverflow => ReadVerdict::LengthOverflow,
    }
}

/// What a turn of reading comes to after one more read, with `read_bytes`
/// received before it.
pub open spec fn read_verdict(buf: Seq<u8>, read_bytes: usize, event: IoEvent) -> ReadVerdict {
    match event {
        IoEvent::Transferred(n) => if n == 0 {
            ReadVerdict::Close
        } else {
            after_bytes(buf.take(read_bytes + n))
        },
        IoEvent::WouldBlock => ReadVerdict::Pending,
        IoEvent::Interrupted => read_on(read_bytes),
        IoEvent::Failed => ReadVerdict::Close,
    }
}

/// How many bytes have been received after one more read.
pub open spec fn count_after(bytes: usize, event: IoEvent) -> int {
    match event {
        IoEvent::Transferred(n) => bytes + n,
        _ => bytes as int,
    }
}

/// The first step of a turn of reading.
pub fn start_read(read_bytes: usize) -> (r: ReadStep)
    ensures
        r.verdict() == read_on(read_bytes),
        r.wf(),
{
    if read_bytes == REQUEST_SIZE {
        ReadStep::Done(ReadOutcome::Close)
    } else {
        ReadStep::Read
    }
}

/// The step after a read that filled `buf` from `read_bytes` on.
pub fn handle_read(
    buf: &[u8; REQUEST_SIZE],
    read_bytes: &mut usize,
    header_positions: &mut [HeaderPos; MAX_HEADERS],
    event: IoEvent,
) -> (r: ReadStep)
    requires
        *old(read_bytes) <= REQUEST_SIZE,
        event matches IoEvent::Transferred(n) ==> n <= REQUEST_SIZE - *old(read_bytes),
    ensures
        r.verdict() == read_verdict(buf@, *old(read_bytes), event),
        r.wf(),
        *final(read_bytes) == count_after(*old(read_bytes), event),
        *final(read_bytes) <= REQUEST_SIZE,
        event matches IoEvent::Transferred(n) && n > 0 ==> noted(
            old(header_positions)@,
            final(header_positions)@,
            head_fields(buf@.take(*final(read_bytes) as int), MAX_HEADERS as nat).fields,
        ),
        !(event matches IoEvent::Transferred(n) && n > 0) ==> final(header_positions)@
            == old(header_positions)@,
{
    match event {
        IoEvent::Transferred(n) => {
            if n == 0 {
                return ReadStep::Done(ReadOutcome::Close);
            }
            *read_bytes = *read_bytes + n;
        },
        IoEvent::WouldBlock => {
            return ReadStep::Done(ReadOutcome::Pending);
        },
        IoEvent::Interrupted => {
            return start_read(*read_bytes);
        },
        IoEvent::Failed => {
            return ReadStep::Done(ReadOutcome::Close);
        },
    }
    let whole: &[u8] = buf.as_slice();
    let received = &whole[0..*read_bytes];
    assert(received@ =~= buf@.take(*read_bytes as int));
    match assess(received, header_positions) {
        Received::Whole(positions) => {
            let mut header_buf = [Header::default(); MAX_HEADERS];
            let request = positions.resolve(received, header_positions, &mut header_buf);
            let keep_alive = wants_keep_alive(&request);
            ReadStep::Done(build_response(&request, keep_alive))
        },
        Received::HeadMissing => start_read(*read_bytes),
        Received::BodyMissing => start_read(*read_bytes),
        Received::Refused => ReadStep::Done(ReadOutcome::Close),
        Received::LengthOverflow => ReadStep::LengthOverflow,
    }
}

/// What to do next while a response is sent.
pub enum WriteStep {
    /// Write what has not been written yet.
    Write,
    /// The turn is over.
    Done(ReadOutcome),
}

/// With that many bytes of `len` written: write on, or be done. The connection
/// then waits for the next request or is closed.
pub open spec fn write_on(len: usize, written_bytes: int, keep_alive: bool) -> WriteStep {
    if written_bytes != len {
        WriteStep::Write
    } else if keep_alive {
        WriteStep::Done(ReadOutcome::Reset)
    } else {
        WriteStep::Done(ReadOutcome::Close)
    }
}

/// What a turn of writing comes to after one more write, with `written_bytes`
/// written before it.
pub open spec fn write_verdict(
    len: usize,
    written_bytes: usize,
    keep_alive: bool,
    event: IoEvent,
) -> WriteStep {
    match event {
        IoEvent::Transferred(n) => if n == 0 {
            WriteStep::Done(ReadOutcome::Close)
        } else {
            write_on(len, written_bytes + n, keep_alive)
        },
        IoEvent::WouldBlock => WriteStep::Done(ReadOutcome::Pending),
        IoEvent::Interrupted => write_on(len, written_bytes as int, keep_alive),
        IoEvent::Failed => WriteStep::Done(ReadOutcome::Close),
    }
}

/// The first step of a turn of writing.
pub fn start_write(len: usize, written_bytes: usize, keep_alive: bool) -> (r: WriteStep)
    ensures
        r == write_on(len, written_bytes as int, keep_alive),
{
    if written_bytes == len {
        if keep_alive {
            WriteStep::Done(ReadOutcome::Reset)
        } else {
            WriteStep::Done(ReadOutcome::Close)
        }
    } else {
        WriteStep::Write
    }
}

/// The step after a write of what lies between `written_bytes` and `len`.
pub fn handle_write(
    len: usize,
    written_bytes: &mut usize,
    keep_alive: bool,
    event: IoEvent,
) -> (r: WriteStep)
    requires
        *old(written_bytes) <= len,
        event matches IoEvent::Transferred(n) ==> n <= len - *old(written_bytes),
    ensures
        r == write_verdict(len, *old(written_bytes), keep_alive, event),
        *final(written_bytes) == count_after(*old(written_bytes), event),
        *final(written_bytes) <= len,
{
    match event {
        IoEvent::Transferred(n) => {
            if n == 0 {
                return WriteStep::Done(ReadOutcome::Close);
            }
            *written_bytes = *written_bytes + n;
            start_write(len, *written_bytes, keep_alive)
        },
        IoEvent::WouldBlock => WriteStep::Done(ReadOutcome::Pending),
        IoEvent::Interrupted => start_write(len, *written_bytes, keep_alive),
        IoEvent::Failed => WriteStep::Done(ReadOutcome::Close),
    }
}

} // verus!
