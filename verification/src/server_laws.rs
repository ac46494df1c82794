//! What holds of the servers as a whole: a request that is sent is answered
//! once it is whole, and the answer can be read.

use crate::bytes::{
    ascii, decimal, is_number, law_decimal_reads_back, number_or_zero, same_ignoring_case, CR, LF,
};
use crate::head_laws::{sendable_headers, spaced_request};
use crate::http_req::{
    content_length, request_at, scan_fields, scan_head, span, FieldSpan, FieldsEnd, HeadScan,
    HeaderView, RequestView, MAX_HEADERS,
};
use crate::http_req_laws::{
    declared_length, law_head_is_a_prefix, law_sent_is_received, law_written_headers_are_read,
    sendable, sendable_header, sent_headers, sent_request,
};
use crate::http_req_text::request_text;
use crate::http_res::{header_line_bytes, status_line_bytes};
use crate::received::{law_progress_stays, progress, Progress, REQUEST_SIZE};
use crate::server::{
    after_bytes, asks_to_close, count_after, keeps_alive, page, read_verdict, response_bytes,
    response_headers, write_on, write_verdict, IoEvent, ReadOutcome, ReadVerdict, WriteStep,
};
use crate::threaded;
use crate::turn_laws::law_progress_of_spaced;
use vstd::prelude::*;

verus! {

/// A request of which only the first `n` bytes are there is not whole; with all
/// of its bytes it is the request that was sent, whatever follows.
pub proof fn law_progress_of_sent(r: RequestView, rest: Seq<u8>, n: int, room: nat)
    requires
        sendable(r),
        r.headers.len() <= room,
        sent_request(r).len() <= usize::MAX,
        0 <= n < sent_request(r).len(),
    ensures
        progress(sent_request(r).take(n), room) is HeadMissing || progress(
            sent_request(r).take(n),
            room,
        ) is BodyMissing,
        progress(sent_request(r) + rest, room) == Progress::Whole(r),
{
    let sent = sent_request(r);
    law_sent_is_received(r, rest, room);
    law_sent_is_received(r, seq![], room);
    assert(sent + Seq::<u8>::empty() =~= sent);
    law_head_is_a_prefix(sent, room, n);
}

/// However the bytes of a request arrive, the event-driven server reads on
/// while the request is not whole, and answers it as soon as it is.
pub proof fn law_sent_request_is_answered(r: RequestView, rest: Seq<u8>, n: int)
    requires
        sendable(r),
        r.headers.len() <= MAX_HEADERS,
        sent_request(r).len() + rest.len() <= REQUEST_SIZE,
        0 <= n < sent_request(r).len(),
    ensures
        after_bytes(sent_request(r).take(n)) == ReadVerdict::Read,
        after_bytes(sent_request(r) + rest) == ReadVerdict::Respond(keeps_alive(r)),
{
    law_progress_of_sent(r, rest, n, MAX_HEADERS as nat);
}

/// A request that does not end within the buffer is never answered: once the
/// buffer is full, the connection is closed.
pub proof fn law_large_request_is_closed(r: RequestView)
    requires
        sendable(r),
        r.headers.len() <= MAX_HEADERS,
        REQUEST_SIZE < sent_request(r).len() <= usize::MAX,
    ensures
        after_bytes(sent_request(r).take(REQUEST_SIZE as int)) == ReadVerdict::Close,
{
    law_progress_of_sent(r, seq![], REQUEST_SIZE as int, MAX_HEADERS as nat);
}

/// However the bytes of a request arrive, the threaded server reads on while
/// the request is not whole, and replies to the request that was sent as soon
/// as it is.
pub proof fn law_sent_request_is_served(r: RequestView, buf: Seq<u8>, before: usize, n: usize)
    requires
        sendable(r),
        r.headers.len() <= MAX_HEADERS,
        buf.len() == REQUEST_SIZE,
        0 < n,
        before + n <= REQUEST_SIZE,
        sent_request(r).len() <= REQUEST_SIZE,
        buf.take(sent_request(r).len() as int) == sent_request(r),
    ensures
        before + n < sent_request(r).len() ==> threaded::serve_verdict(buf, before, n)
            == threaded::ServeVerdict::Read,
        before + n >= sent_request(r).len() ==> threaded::serve_verdict(buf, before, n)
            == threaded::ServeVerdict::Reply(r),
{
    let sent = sent_request(r);
    let received = buf.take(before + n);
    if before + n < sent.len() {
        assert(received =~= sent.take(before + n));
        law_progress_of_sent(r, seq![], before + n, MAX_HEADERS as nat);
    } else {
        let rest = received.skip(sent.len() as int);
        assert(received =~= sent + rest) by {
            assert forall|i: int| 0 <= i < sent.len() implies sent[i] == received[i] by {
                assert(buf.take(sent.len() as int)[i] == buf[i]);
            }
        }
        assert(sent.len() > 0);
        law_progress_of_sent(r, rest, 0, MAX_HEADERS as nat);
    }
}

/// Bytes that do not start a request end the connection, whatever follows them.
pub proof fn law_refused_is_closed(bytes: Seq<u8>, more: Seq<u8>)
    requires
        scan_head(bytes, MAX_HEADERS as nat) is Error,
    ensures
        after_bytes(bytes + more) == ReadVerdict::Close,
{
    law_progress_stays(bytes, more, MAX_HEADERS as nat);
}

/// Bytes that do not start a request make the threaded server fail, whatever
/// follows them.
pub proof fn law_refused_is_malformed(bytes: Seq<u8>, buf: Seq<u8>, before: usize, n: usize)
    requires
        scan_head(bytes, MAX_HEADERS as nat) is Error,
        buf.len() == REQUEST_SIZE,
        0 < n,
        bytes.len() <= before + n <= REQUEST_SIZE,
        buf.take(bytes.len() as int) == bytes,
    ensures
        threaded::serve_verdict(buf, before, n) == threaded::ServeVerdict::Fail(
            threaded::RequestError::Malformed,
        ),
{
    let received = buf.take(before + n);
    let more = received.skip(bytes.len() as int);
    assert(received =~= bytes + more) by {
        assert forall|i: int| 0 <= i < bytes.len() implies bytes[i] == received[i] by {
            assert(buf.take(bytes.len() as int)[i] == buf[i]);
        }
    }
    law_progress_stays(bytes, more, MAX_HEADERS as nat);
}

/// Only a whole request is answered, and the answer keeps the connection if and
/// only if the request does not ask for it to be closed.
pub proof fn law_only_whole_requests_are_answered(
    buf: Seq<u8>,
    read_bytes: usize,
    event: IoEvent,
    keep_alive: bool,
)
    requires
        read_verdict(buf, read_bytes, event) == ReadVerdict::Respond(keep_alive),
    ensures
        progress(buf.take(count_after(read_bytes, event)), MAX_HEADERS as nat) matches
            Progress::Whole(request) && keeps_alive(request) == keep_alive,
{
}

/// The next request is waited for only once the whole response has been sent,
/// and only where the connection is to be kept.
pub proof fn law_reset_only_after_response(
    len: usize,
    written_bytes: usize,
    keep_alive: bool,
    event: IoEvent,
)
    requires
        write_verdict(len, written_bytes, keep_alive, event) == WriteStep::Done(
            ReadOutcome::Reset,
        ),
    ensures
        count_after(written_bytes, event) == len,
        keep_alive,
{
}

/// The response says whether the connection is kept, and the server does what
/// it says once the response has been sent.
pub proof fn law_response_says_what_happens(keep_alive: bool, request: RequestView, len: usize)
    requires
        request.headers == response_headers(keep_alive),
    ensures
        keeps_alive(request) == keep_alive,
        write_on(len, len as int, keep_alive) == WriteStep::Done(
            if keep_alive {
                ReadOutcome::Reset
            } else {
                ReadOutcome::Close
            },
        ),
{
    reveal_strlit("connection");
    reveal_strlit("Connection");
    reveal_strlit("close");
    reveal_strlit("keep-alive");
    reveal_strlit("Content-Type");
    reveal_strlit("Content-Length");
    let h = request.headers;
    assert(h[0].name.len() != ascii("connection"@).len());
    assert(h[1].name.len() != ascii("connection"@).len());
    assert(same_ignoring_case(h[2].name, ascii("connection"@)));
    if keep_alive {
        assert(h[2].value.len() != ascii("close"@).len());
    } else {
        assert(asks_to_close(h[2]));
    }
}

/// The headers that both servers send survive being sent, and the length that
/// they declare is that of the page.
proof fn lemma_page_headers(length: nat)
    requires
        length <= usize::MAX,
    ensures
        sendable_header(HeaderView { name: ascii("Content-Type"@), value: ascii("text/html"@) }),
        sendable_header(HeaderView { name: ascii("Content-Length"@), value: decimal(length) }),
        same_ignoring_case(ascii("Content-Length"@), ascii("content-length"@)),
        number_or_zero(decimal(length)) == length,
{
    reveal_strlit("Content-Type");
    reveal_strlit("text/html");
    reveal_strlit("Content-Length");
    reveal_strlit("content-length");
    law_decimal_reads_back(length);
    let digits = decimal(length);
    assert forall|i: int| 0 <= i < digits.len() implies digits[i] != CR by {
        assert(is_number(digits));
    }
}

/// The headers of the event-driven server survive being sent, and declare the
/// length of the page.
proof fn lemma_response_headers(keep_alive: bool)
    ensures
        response_headers(keep_alive).len() == 3,
        forall|i: int|
            0 <= i < 3 ==> sendable_header(#[trigger] response_headers(keep_alive)[i]),
        declared_length(response_headers(keep_alive)) == page().len(),
{
    reveal_strlit("Connection");
    reveal_strlit("keep-alive");
    reveal_strlit("close");
    reveal_strlit("content-length");
    reveal_strlit("<html><h1>Hello World, with epoll</h1></html>");
    lemma_page_headers(page().len());
    let h = response_headers(keep_alive);
    assert(sendable_header(h[2]));
    assert(h[2].name.len() != ascii("content-length"@).len());
    assert(h.last() == h[2]);
    assert(h.drop_last().last() == h[1]);
    assert(declared_length(h) == declared_length(h.drop_last()));
    assert(declared_length(h.drop_last()) == number_or_zero(h[1].value));
}

/// The response of the event-driven server: a status line, the header lines, an
/// empty line and the page.
proof fn lemma_response_lines(keep_alive: bool)
    ensures
        response_bytes(keep_alive) == status_line_bytes(200, ascii("OK"@)) + (sent_headers(
            response_headers(keep_alive),
        ) + seq![CR, LF]) + page(),
{
    let h = response_headers(keep_alive);
    let last = h.drop_first().drop_first();
    assert(h.drop_first()[0] == h[1]);
    assert(last[0] == h[2]);
    assert(sent_headers(last.drop_first()) =~= seq![]);
    assert(sent_headers(last) =~= header_line_bytes(h[2].name, h[2].value));
    assert(sent_headers(h.drop_first()) =~= header_line_bytes(h[1].name, h[1].value)
        + sent_headers(last));
    assert(response_bytes(keep_alive) =~= status_line_bytes(200, ascii("OK"@)) + (sent_headers(h)
        + seq![CR, LF]) + page());
}

/// Whoever reads the response of the event-driven server finds its headers, the
/// body right behind them, and the declared length to be that of the body.
pub proof fn law_response_can_be_read(keep_alive: bool, room: nat)
    requires
        room >= 3,
    ensures
        ({
            let response = response_bytes(keep_alive);
            let start = status_line_bytes(200, ascii("OK"@)).len() as int;
            let scan = scan_fields(response, start, room);
            &&& scan.end == FieldsEnd::At(response.len() - page().len())
            &&& response.skip(response.len() - page().len()) == page()
            &&& scan.fields.map_values(
                |f: FieldSpan|
                    HeaderView { name: span(response, f.name), value: span(response, f.value) },
            ) == response_headers(keep_alive)
            &&& content_length(response, scan.fields) == page().len()
        }),
{
    lemma_response_headers(keep_alive);
    lemma_response_lines(keep_alive);
    let status = status_line_bytes(200, ascii("OK"@));
    let response = response_bytes(keep_alive);
    law_written_headers_are_read(status, response_headers(keep_alive), page(), room);
    assert(response.skip(response.len() - page().len()) =~= page());
}

/// Whoever reads the response of the threaded server finds its headers, the
/// body right behind them, and the declared length to be that of the body.
pub proof fn law_reply_can_be_read(room: nat)
    requires
        room >= 2,
    ensures
        ({
            let response = threaded::response_bytes();
            let body = threaded::page();
            let start = status_line_bytes(200, ascii("OK"@)).len() as int;
            let scan = scan_fields(response, start, room);
            &&& scan.end == FieldsEnd::At(response.len() - body.len())
            &&& response.skip(response.len() - body.len()) == body
            &&& scan.fields.map_values(
                |f: FieldSpan|
                    HeaderView { name: span(response, f.name), value: span(response, f.value) },
            ) == threaded::response_headers()
            &&& content_length(response, scan.fields) == body.len()
        }),
{
    reveal_strlit("<html><h1>Hello World</h1></html>");
    let body = threaded::page();
    lemma_page_headers(body.len());
    let h = threaded::response_headers();
    assert(declared_length(h) == body.len());
    let status = status_line_bytes(200, ascii("OK"@));
    let response = threaded::response_bytes();
    assert(sent_headers(h) =~= header_line_bytes(h[0].name, h[0].value) + header_line_bytes(
        h[1].name,
        h[1].value,
    )) by {
        assert(h.drop_first()[0] == h[1]);
        reveal_with_fuel(sent_headers, 3);
    }
    assert(response =~= status + (sent_headers(h) + seq![CR, LF]) + body);
    law_written_headers_are_read(status, h, body, room);
    assert(response.skip(response.len() - body.len()) =~= body);
}

/// What received bytes amount to, for any bytes: no request, a head that is not
/// whole, a body that is not, one that ends beyond what an offset can say, or
/// the request that the head lays out.
pub proof fn law_progress_of_bytes(bytes: Seq<u8>, room: nat)
    ensures
        match scan_head(bytes, room) {
            HeadScan::Error => progress(bytes, room) == Progress::Refused,
            HeadScan::Incomplete => progress(bytes, room) == Progress::HeadMissing,
            HeadScan::Complete(l) => {
                let end = l.consumed + l.body_len;
                &&& end > usize::MAX ==> progress(bytes, room) == Progress::LengthOverflow
                &&& bytes.len() < end <= usize::MAX ==> progress(bytes, room)
                    == Progress::BodyMissing
                &&& end <= bytes.len() && end <= usize::MAX ==> progress(bytes, room)
                    == Progress::Whole(request_at(bytes, l))
            },
        },
{
}

/// What a read comes to for the threaded server, for any bytes: the end of the
/// stream is an early close; bytes that start no request are malformed; a
/// request that is not whole is waited for, but for a full buffer, which is too
/// small; a whole one is replied to.
pub proof fn law_serving_decides(buf: Seq<u8>, read_bytes: usize, n: usize)
    requires
        buf.len() == REQUEST_SIZE,
        read_bytes + n <= REQUEST_SIZE,
    ensures
        n == 0 ==> threaded::serve_verdict(buf, read_bytes, n) == threaded::ServeVerdict::Fail(
            threaded::RequestError::ConnectionClosed,
        ),
        n > 0 ==> {
            let received = buf.take(read_bytes + n);
            let verdict = threaded::serve_verdict(buf, read_bytes, n);
            let waits = if read_bytes + n == REQUEST_SIZE {
                verdict == threaded::ServeVerdict::Fail(threaded::RequestError::TooLarge)
            } else {
                verdict == threaded::ServeVerdict::Read
            };
            match scan_head(received, MAX_HEADERS as nat) {
                HeadScan::Error => verdict == threaded::ServeVerdict::Fail(
                    threaded::RequestError::Malformed,
                ),
                HeadScan::Incomplete => waits,
                HeadScan::Complete(l) => {
                    let end = l.consumed + l.body_len;
                    &&& end > usize::MAX ==> verdict == threaded::ServeVerdict::LengthOverflow
                    &&& read_bytes + n < end <= usize::MAX ==> waits
                    &&& end <= read_bytes + n ==> verdict == threaded::ServeVerdict::Reply(
                        request_at(received, l),
                    )
                },
            }
        },
        read_bytes < REQUEST_SIZE ==> threaded::read_on(read_bytes as int)
            == threaded::ServeVerdict::Read,
        read_bytes == REQUEST_SIZE ==> threaded::read_on(read_bytes as int)
            == threaded::ServeVerdict::Fail(threaded::RequestError::TooLarge),
{
}

/// However the bytes of a request arrive, and whatever blanks stand before its
/// values, the threaded server reads on while the request is not whole, and
/// replies to the request that was sent as soon as it is.
pub proof fn law_spaced_request_is_served(
    r: RequestView,
    gaps: Seq<Seq<u8>>,
    buf: Seq<u8>,
    before: usize,
    n: usize,
)
    requires
        sendable(r),
        sendable_headers(r.headers, gaps),
        r.headers.len() <= MAX_HEADERS,
        buf.len() == REQUEST_SIZE,
        0 < n,
        before + n <= REQUEST_SIZE,
        spaced_request(r, gaps).len() <= REQUEST_SIZE,
        buf.take(spaced_request(r, gaps).len() as int) == spaced_request(r, gaps),
    ensures
        before + n < spaced_request(r, gaps).len() ==> threaded::serve_verdict(buf, before, n)
            == threaded::ServeVerdict::Read,
        before + n >= spaced_request(r, gaps).len() ==> threaded::serve_verdict(buf, before, n)
            == threaded::ServeVerdict::Reply(r),
{
    let sent = spaced_request(r, gaps);
    let received = buf.take(before + n);
    if before + n < sent.len() {
        assert(received =~= sent.take(before + n));
        law_progress_of_spaced(r, gaps, seq![], before + n, MAX_HEADERS as nat);
    } else {
        let rest = received.skip(sent.len() as int);
        assert(received =~= sent + rest) by {
            assert forall|i: int| 0 <= i < sent.len() implies sent[i] == received[i] by {
                assert(buf.take(sent.len() as int)[i] == buf[i]);
            }
        }
        law_progress_of_spaced(r, gaps, rest, 0, MAX_HEADERS as nat);
    }
}

/// A step that follows a verdict is of its kind; one that replies logs the text
/// of the very request, and sends the page.
pub proof fn law_step_follows_verdict(
    step: threaded::ServeStep,
    verdict: threaded::ServeVerdict,
)
    requires
        step.follows(verdict),
    ensures
        verdict is Read <==> step is Read,
        verdict is LengthOverflow <==> step is LengthOverflow,
        verdict is Reply <==> step is Reply,
        verdict is Fail <==> step is Fail,
        verdict matches threaded::ServeVerdict::Fail(e) ==> step == threaded::ServeStep::Fail(e),
        verdict matches threaded::ServeVerdict::Reply(r) ==> (step matches
            threaded::ServeStep::Reply { request, response } && request@ == request_text(r)
            && response@ == threaded::response_bytes()),
{
}

} // verus!
