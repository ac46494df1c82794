//! What holds of request parsing as the buffer fills, and of a request that is
//! written out and parsed again.

use crate::bytes::{
    ascii, find, is_blank, lemma_find, lemma_find_is, lemma_skip_blanks, number_or_zero,
    same_ignoring_case, skip_blanks, COLON, CR, LF, SPACE, TAB, ZERO,
};
use crate::http_req::{
    body_of, content_length, field_in_bounds, head_fields, lemma_field_line,
    lemma_fields_in_bounds, lemma_request_line, line_break_at, request_at, scan_field, scan_fields,
    scan_head, scan_request_line, span, version_len, FieldLine, FieldSpan, FieldsEnd, HeadScan,
    HeaderView, RequestLine, RequestView,
};
use crate::http_res::header_line_bytes;
use vstd::prelude::*;

verus! {

/// A byte found within the first `n` bytes is found at the same place in those
/// bytes alone, and the other way round.
proof fn lemma_find_in_prefix(buf: Seq<u8>, b: u8, from: int, n: int)
    requires
        0 <= from <= n <= buf.len(),
    ensures
        find(buf.take(n), b, from) < n ==> find(buf, b, from) == find(buf.take(n), b, from),
        find(buf, b, from) < n ==> find(buf.take(n), b, from) == find(buf, b, from),
        find(buf.take(n), b, from) <= n,
{
    let short = buf.take(n);
    lemma_find(short, b, from);
    lemma_find(buf, b, from);
    let s = find(short, b, from);
    let l = find(buf, b, from);
    assert forall|i: int| from <= i < s implies buf[i] != b by {
        assert(short[i] != b);
    }
    if s < n {
        lemma_find_is(buf, b, from, s);
    }
    if l < n {
        assert forall|i: int| from <= i < l implies short[i] != b by {
            assert(buf[i] != b);
        }
        lemma_find_is(short, b, from, l);
    }
}

/// Blanks that end within the first `n` bytes end at the same place in those
/// bytes alone, and the other way round.
proof fn lemma_skip_in_prefix(buf: Seq<u8>, from: int, n: int)
    requires
        0 <= from <= n <= buf.len(),
    ensures
        skip_blanks(buf.take(n), from) < n ==> skip_blanks(buf, from) == skip_blanks(
            buf.take(n),
            from,
        ),
        skip_blanks(buf, from) < n ==> skip_blanks(buf.take(n), from) == skip_blanks(buf, from),
        skip_blanks(buf.take(n), from) <= n,
    decreases n - from,
{
    lemma_skip_blanks(buf.take(n), from);
    lemma_skip_blanks(buf, from);
    if from < n {
        assert(buf.take(n)[from] == buf[from]);
        if is_blank(buf[from]) {
            lemma_skip_in_prefix(buf, from + 1, n);
        }
    }
}

/// A header line that is decided by the first `n` bytes is the same in those
/// bytes alone and in the whole buffer.
proof fn lemma_field_in_prefix(buf: Seq<u8>, p: int, n: int)
    requires
        0 <= p <= n <= buf.len(),
    ensures
        !(scan_field(buf.take(n), p) is Short) ==> scan_field(buf, p) == scan_field(
            buf.take(n),
            p,
        ),
        scan_field(buf, p) matches FieldLine::Whole { field, next } ==> (next <= n ==> scan_field(
            buf.take(n),
            p,
        ) == scan_field(buf, p)),
{
    let short = buf.take(n);
    lemma_find_in_prefix(buf, COLON, p, n);
    lemma_find(buf, COLON, p);
    lemma_find(short, COLON, p);
    let colon_s = find(short, COLON, p);
    let colon_l = find(buf, COLON, p);
    if colon_s < n {
        lemma_skip_in_prefix(buf, colon_s + 1, n);
        lemma_skip_blanks(short, colon_s + 1);
        let v = skip_blanks(short, colon_s + 1);
        lemma_find_in_prefix(buf, CR, v, n);
        lemma_find(short, CR, v);
    }
    if colon_l < buf.len() {
        lemma_skip_blanks(buf, colon_l + 1);
        let v = skip_blanks(buf, colon_l + 1);
        lemma_find(buf, CR, v);
        let e = find(buf, CR, v);
        if e + 2 <= n {
            lemma_skip_in_prefix(buf, colon_l + 1, n);
            lemma_find_in_prefix(buf, CR, v, n);
        }
    }
}

/// Header lines that are decided by the first `n` bytes are the same in those
/// bytes alone and in the whole buffer.
proof fn lemma_fields_in_prefix(buf: Seq<u8>, p: int, room: nat, n: int)
    requires
        0 <= p <= n <= buf.len(),
    ensures
        !(scan_fields(buf.take(n), p, room).end is Short) ==> scan_fields(buf, p, room)
            == scan_fields(buf.take(n), p, room),
        scan_fields(buf, p, room).end matches FieldsEnd::At(end) ==> (end <= n ==> scan_fields(
            buf.take(n),
            p,
            room,
        ) == scan_fields(buf, p, room)),
    decreases room,
{
    let short = buf.take(n);
    lemma_field_in_prefix(buf, p, n);
    lemma_field_line(buf, p);
    lemma_field_line(short, p);
    lemma_fields_in_bounds(buf, p, room);
    if room > 0 {
        if let FieldLine::Whole { field, next } = scan_field(short, p) {
            lemma_fields_in_prefix(buf, next, (room - 1) as nat, n);
        }
        if let FieldLine::Whole { field, next } = scan_field(buf, p) {
            if next <= n {
                lemma_fields_in_prefix(buf, next, (room - 1) as nat, n);
            }
            lemma_fields_in_bounds(buf, next, (room - 1) as nat);
        }
    }
}

/// A first line that is decided by the first `n` bytes is the same in those
/// bytes alone and in the whole buffer.
proof fn lemma_request_line_in_prefix(buf: Seq<u8>, n: int)
    requires
        0 <= n <= buf.len(),
    ensures
        !(scan_request_line(buf.take(n)) is Short) ==> scan_request_line(buf)
            == scan_request_line(buf.take(n)),
        scan_request_line(buf) matches RequestLine::Whole { method_end, path_end, minor_version }
            ==> (path_end + 1 + version_len() <= n ==> scan_request_line(buf.take(n))
            == scan_request_line(buf)),
{
    let short = buf.take(n);
    lemma_request_line(buf);
    lemma_find(buf, SPACE, 0);
    lemma_find(short, SPACE, 0);
    lemma_find_in_prefix(buf, SPACE, 0, n);
    let m = find(buf, SPACE, 0);
    if m < n {
        lemma_find(buf, SPACE, m + 1);
        lemma_find(short, SPACE, m + 1);
        lemma_find_in_prefix(buf, SPACE, m + 1, n);
        let v = find(buf, SPACE, m + 1) + 1;
        if v + version_len() <= n {
            assert(short.subrange(v, v + 7) =~= buf.subrange(v, v + 7));
        }
    }
}

/// Ranges within the first `n` bytes hold the same there and in the whole
/// buffer, and so does what the headers declare.
proof fn lemma_content_length_in_prefix(buf: Seq<u8>, fields: Seq<FieldSpan>, n: int)
    requires
        0 <= n <= buf.len(),
        forall|i: int| 0 <= i < fields.len() ==> field_in_bounds(#[trigger] fields[i], n),
    ensures
        content_length(buf.take(n), fields) == content_length(buf, fields),
    decreases fields.len(),
{
    if fields.len() > 0 {
        let f = fields.last();
        assert(field_in_bounds(f, n));
        assert(span(buf.take(n), f.name) =~= span(buf, f.name));
        assert(span(buf.take(n), f.value) =~= span(buf, f.value));
        lemma_content_length_in_prefix(buf, fields.drop_last(), n);
    }
}

/// Every range of a complete head lies in the part of the buffer that the head
/// takes up, and its parts follow one another.
pub proof fn law_layout_in_bounds(buf: Seq<u8>, room: nat)
    ensures
        scan_head(buf, room) matches HeadScan::Complete(l) ==> {
            &&& l.method.0 == 0
            &&& 0 <= l.method.1 < l.path.0 <= l.path.1 < l.consumed <= buf.len()
            &&& l.minor_version <= 1
            &&& l.fields.len() <= room
            &&& forall|i: int|
                0 <= i < l.fields.len() ==> {
                    let f = #[trigger] l.fields[i];
                    l.path.1 < f.name.0 <= f.name.1 < f.value.0 <= f.value.1 < l.consumed
                }
        },
{
    lemma_request_line(buf);
    if let RequestLine::Whole { method_end, path_end, minor_version } = scan_request_line(buf) {
        lemma_fields_in_bounds(buf, path_end + 1 + version_len(), room);
    }
}

/// Once a head is complete or refused, more bytes change nothing: the verdict
/// and every position stay as they are.
pub proof fn law_verdict_stays(buf: Seq<u8>, more: Seq<u8>, room: nat)
    ensures
        !(scan_head(buf, room) is Incomplete) ==> scan_head(buf + more, room) == scan_head(
            buf,
            room,
        ),
        !(head_fields(buf, room).end is Short) ==> head_fields(buf + more, room) == head_fields(
            buf,
            room,
        ),
{
    let long = buf + more;
    let n = buf.len() as int;
    assert(long.take(n) =~= buf);
    lemma_request_line_in_prefix(long, n);
    lemma_request_line(buf);
    law_layout_in_bounds(buf, room);
    if let RequestLine::Whole { method_end, path_end, minor_version } = scan_request_line(buf) {
        lemma_fields_in_prefix(long, path_end + 1 + version_len(), room, n);
        lemma_fields_in_bounds(buf, path_end + 1 + version_len(), room);
        let fields = head_fields(buf, room).fields;
        if head_fields(buf, room).end is At {
            lemma_content_length_in_prefix(long, fields, n);
            assert(span(long, (0, method_end)) =~= span(buf, (0, method_end)));
        }
    }
}

/// A complete head depends on the bytes that it takes up and on no other: the
/// bytes up to its end already give it, and no fewer do.
pub proof fn law_head_is_a_prefix(buf: Seq<u8>, room: nat, n: int)
    requires
        0 <= n <= buf.len(),
        scan_head(buf, room) is Complete,
    ensures
        scan_head(buf, room) matches HeadScan::Complete(l) && {
            &&& l.consumed <= n ==> scan_head(buf.take(n), room) == scan_head(buf, room)
            &&& n < l.consumed ==> scan_head(buf.take(n), room) is Incomplete
        },
{
    law_layout_in_bounds(buf, room);
    let l = scan_head(buf, room)->Complete_0;
    let short = buf.take(n);
    assert(short + buf.skip(n) =~= buf);
    law_verdict_stays(short, buf.skip(n), room);
    law_layout_in_bounds(short, room);
    if l.consumed <= n {
        lemma_request_line_in_prefix(buf, n);
        lemma_request_line(buf);
        let first = l.path.1 + 1 + version_len();
        lemma_fields_in_bounds(buf, first, room);
        lemma_fields_in_prefix(buf, first, room, n);
        assert forall|i: int| 0 <= i < l.fields.len() implies field_in_bounds(
            #[trigger] l.fields[i],
            n,
        ) by {
            assert(l.fields[i].value.1 < l.consumed);
        }
        lemma_content_length_in_prefix(buf, l.fields, n);
        assert(span(short, l.method) =~= span(buf, l.method));
    }
}

/// A `GET` request never has a body.
pub proof fn law_get_has_no_body(buf: Seq<u8>, room: nat)
    ensures
        scan_head(buf, room) matches HeadScan::Complete(l) ==> (span(buf, l.method) == ascii(
            "GET"@,
        ) ==> l.body_len == 0),
{
}

/// Once the whole body has arrived, bytes after it do not change the request.
pub proof fn law_request_stays(buf: Seq<u8>, more: Seq<u8>, room: nat)
    ensures
        scan_head(buf, room) matches HeadScan::Complete(l) ==> (l.consumed + l.body_len
            <= buf.len() ==> {
            &&& scan_head(buf + more, room) == HeadScan::Complete(l)
            &&& request_at(buf + more, l) == request_at(buf, l)
        }),
{
    law_verdict_stays(buf, more, room);
    law_layout_in_bounds(buf, room);
    if let HeadScan::Complete(l) = scan_head(buf, room) {
        if l.consumed + l.body_len <= buf.len() {
            let long = buf + more;
            assert(span(long, l.method) =~= span(buf, l.method));
            assert(span(long, l.path) =~= span(buf, l.path));
            assert(body_of(long, l) =~= body_of(buf, l));
            let a = request_at(long, l).headers;
            let b = request_at(buf, l).headers;
            assert forall|i: int| 0 <= i < l.fields.len() implies a[i] == b[i] by {
                let f = l.fields[i];
                assert(l.path.1 < f.name.0 <= f.name.1 < f.value.0 <= f.value.1 < l.consumed);
                assert(span(long, f.name) =~= span(buf, f.name));
                assert(span(long, f.value) =~= span(buf, f.value));
            }
            assert(a =~= b);
        }
    }
}

/// The header lines of a buffer, with room for fewer or for more headers.
proof fn lemma_fields_room(buf: Seq<u8>, p: int, room: nat, other: nat)
    requires
        0 <= p <= buf.len(),
        scan_fields(buf, p, room).end is At,
    ensures
        scan_fields(buf, p, room).fields.len() <= other ==> scan_fields(buf, p, other)
            == scan_fields(buf, p, room),
        other < scan_fields(buf, p, room).fields.len() ==> scan_fields(buf, p, other).end
            is Broken,
    decreases room,
{
    if !line_break_at(buf, p) {
        lemma_field_line(buf, p);
        let next = scan_field(buf, p)->Whole_next;
        if other > 0 {
            lemma_fields_room(buf, next, (room - 1) as nat, (other - 1) as nat);
        }
    }
}

/// A request with at most as many headers as there is room for is understood
/// the same way whatever the room is; one with more headers is refused.
pub proof fn law_header_limit(buf: Seq<u8>, room: nat, other: nat)
    requires
        scan_head(buf, room) is Complete,
    ensures
        scan_head(buf, room) matches HeadScan::Complete(l) && {
            &&& l.fields.len() <= other ==> scan_head(buf, other) == scan_head(buf, room)
            &&& other < l.fields.len() ==> scan_head(buf, other) is Error
        },
{
    lemma_request_line(buf);
    if let RequestLine::Whole { method_end, path_end, minor_version } = scan_request_line(buf) {
        lemma_fields_room(buf, path_end + 1 + version_len(), room, other);
    }
}

/// A header as it is sent.
pub open spec fn sent_header(h: HeaderView) -> Seq<u8> {
    header_line_bytes(h.name, h.value)
}

/// Headers as they are sent, one line each.
pub open spec fn sent_headers(headers: Seq<HeaderView>) -> Seq<u8>
    decreases headers.len(),
{
    if headers.len() == 0 {
        seq![]
    } else {
        sent_header(headers[0]) + sent_headers(headers.drop_first())
    }
}

/// The first line of a request as it is sent.
pub open spec fn sent_request_line(r: RequestView) -> Seq<u8> {
    r.method + seq![SPACE] + r.path + seq![SPACE] + ascii("HTTP/1."@) + seq![
        (ZERO + r.minor_version) as u8,
        CR,
        LF,
    ]
}

/// The head of a request as it is sent.
pub open spec fn sent_head(r: RequestView) -> Seq<u8> {
    sent_request_line(r) + (sent_headers(r.headers) + seq![CR, LF])
}

/// A request as it is sent.
pub open spec fn sent_request(r: RequestView) -> Seq<u8> {
    sent_head(r) + r.body
}

/// What the last `Content-Length` of these headers says; zero where there is
/// none.
pub open spec fn declared_length(headers: Seq<HeaderView>) -> nat
    decreases headers.len(),
{
    if headers.len() == 0 {
        0
    } else if same_ignoring_case(headers.last().name, ascii("content-length"@)) {
        number_or_zero(headers.last().value)
    } else {
        declared_length(headers.drop_last())
    }
}

/// Whether a header survives being sent: no colon in the name, no carriage
/// return in the value, no blank at its start, and no line break where the name
/// starts.
pub open spec fn sendable_header(h: HeaderView) -> bool {
    &&& forall|i: int| 0 <= i < h.name.len() ==> h.name[i] != COLON
    &&& h.name.len() >= 2 ==> h.name[0] != CR || h.name[1] != LF
    &&& forall|i: int| 0 <= i < h.value.len() ==> h.value[i] != CR
    &&& h.value.len() > 0 ==> h.value[0] != SPACE && h.value[0] != TAB
}

/// Whether a first line survives being sent: no space in the method or the
/// path, and a known version.
pub open spec fn sendable_line(r: RequestView) -> bool {
    &&& forall|i: int| 0 <= i < r.method.len() ==> r.method[i] != SPACE
    &&& forall|i: int| 0 <= i < r.path.len() ==> r.path[i] != SPACE
    &&& r.minor_version <= 1
}

/// Whether a request survives being sent: a sendable first line, sendable
/// headers, and a body of the declared length.
pub open spec fn sendable(r: RequestView) -> bool {
    &&& sendable_line(r)
    &&& forall|i: int| 0 <= i < r.headers.len() ==> sendable_header(#[trigger] r.headers[i])
    &&& r.body.len() == if r.method == ascii("GET"@) {
        0
    } else {
        declared_length(r.headers)
    }
}

/// Whether `part` stands at `p` in `buf`.
pub open spec fn stands_at(buf: Seq<u8>, p: int, part: Seq<u8>) -> bool {
    &&& 0 <= p
    &&& p + part.len() <= buf.len()
    &&& buf.subrange(p, p + part.len()) == part
}

/// Where two parts stand one behind the other, each of them stands.
pub proof fn lemma_stands_split(buf: Seq<u8>, p: int, a: Seq<u8>, b: Seq<u8>)
    requires
        stands_at(buf, p, a + b),
    ensures
        stands_at(buf, p, a),
        stands_at(buf, p + a.len(), b),
{
    let all = buf.subrange(p, p + a.len() + b.len());
    assert(all == a + b);
    assert(buf.subrange(p, p + a.len()) =~= all.subrange(0, a.len() as int));
    assert((a + b).subrange(0, a.len() as int) =~= a);
    assert(buf.subrange(p + a.len(), p + a.len() + b.len()) =~= all.skip(a.len() as int));
    assert((a + b).skip(a.len() as int) =~= b);
}

/// One header line, read back.
proof fn lemma_sent_header(buf: Seq<u8>, p: int, h: HeaderView)
    requires
        stands_at(buf, p, sent_header(h)),
        sendable_header(h),
    ensures
        !line_break_at(buf, p),
        scan_field(buf, p) matches FieldLine::Whole { field, next } && {
            &&& span(buf, field.name) == h.name
            &&& span(buf, field.value) == h.value
            &&& next == p + sent_header(h).len()
        },
{
    let line = sent_header(h);
    let all = buf.subrange(p, p + line.len());
    let colon = p + h.name.len();
    let value = colon + 2;
    let end = value + h.value.len();
    assert forall|i: int| 0 <= i < line.len() implies buf[p + i] == #[trigger] line[i] by {
        assert(all[i] == buf[p + i]);
    }
    assert(buf[p] == line[0]);
    assert(buf[p + 1] == line[1]);
    assert(line[h.name.len() as int] == COLON);
    assert(line[h.name.len() + 1int] == SPACE);
    assert(buf[colon] == COLON);
    assert(buf[colon + 1] == SPACE);
    assert(line[h.name.len() + 2int + h.value.len()] == CR);
    assert(line[h.name.len() + 3int + h.value.len()] == LF);
    assert forall|i: int| p <= i < colon implies buf[i] != COLON by {
        assert(buf[p + (i - p)] == line[i - p]);
        assert(line[i - p] == h.name[i - p]);
    }
    assert forall|i: int| value <= i < end implies buf[i] != CR by {
        assert(buf[p + (i - p)] == line[i - p]);
        assert(line[i - p] == h.value[i - value]);
    }
    assert(buf[end] == CR) by {
        assert(buf[p + (end - p)] == line[end - p]);
    }
    assert(buf[end + 1] == LF) by {
        assert(buf[p + (end + 1 - p)] == line[end + 1 - p]);
    }
    lemma_find_is(buf, COLON, p, colon);
    assert(!is_blank(buf[value])) by {
        if h.value.len() > 0 {
            assert(buf[p + (value - p)] == line[value - p]);
            assert(line[value - p] == h.value[0]);
        }
    }
    assert(skip_blanks(buf, colon + 1) == value) by {
        reveal_with_fuel(skip_blanks, 3);
    }
    lemma_find_is(buf, CR, value, end);
    assert(span(buf, (p, colon)) =~= h.name) by {
        assert forall|i: int| 0 <= i < h.name.len() implies buf[p + i] == h.name[i] by {
            assert(buf[p + i] == line[i]);
        }
    }
    assert(span(buf, (value, end)) =~= h.value) by {
        assert forall|i: int| 0 <= i < h.value.len() implies buf[value + i] == h.value[i] by {
            let k = h.name.len() + 2 + i;
            assert(buf[p + k] == line[k]);
        }
    }
}

/// Header lines and the empty line after them, read back.
proof fn lemma_sent_headers(buf: Seq<u8>, p: int, headers: Seq<HeaderView>, room: nat)
    requires
        stands_at(buf, p, sent_headers(headers) + seq![CR, LF]),
        forall|i: int| 0 <= i < headers.len() ==> sendable_header(#[trigger] headers[i]),
        headers.len() <= room,
    ensures
        scan_fields(buf, p, room).end == FieldsEnd::At(p + sent_headers(headers).len() + 2),
        scan_fields(buf, p, room).fields.len() == headers.len(),
        forall|i: int|
            0 <= i < headers.len() ==> {
                let f = #[trigger] scan_fields(buf, p, room).fields[i];
                &&& span(buf, f.name) == headers[i].name
                &&& span(buf, f.value) == headers[i].value
            },
    decreases headers.len(),
{
    let tail = seq![CR, LF];
    if headers.len() == 0 {
        assert(sent_headers(headers) + tail =~= tail);
        let all = buf.subrange(p, p + 2);
        assert(all[0] == CR && all[1] == LF);
        assert(line_break_at(buf, p));
    } else {
        let h = headers[0];
        let rest = headers.drop_first();
        assert(sent_headers(headers) + tail =~= sent_header(h) + (sent_headers(rest) + tail));
        lemma_stands_split(buf, p, sent_header(h), sent_headers(rest) + tail);
        lemma_sent_header(buf, p, h);
        let next = p + sent_header(h).len();
        assert forall|i: int| 0 <= i < rest.len() implies sendable_header(#[trigger] rest[i]) by {
            assert(rest[i] == headers[i + 1]);
        }
        lemma_sent_headers(buf, next, rest, (room - 1) as nat);
        let scan = scan_fields(buf, p, room);
        let inner = scan_fields(buf, next, (room - 1) as nat);
        assert forall|i: int| 0 <= i < headers.len() implies {
            let f = #[trigger] scan.fields[i];
            &&& span(buf, f.name) == headers[i].name
            &&& span(buf, f.value) == headers[i].value
        } by {
            if i > 0 {
                assert(scan.fields[i] == inner.fields[i - 1]);
                assert(headers[i] == rest[i - 1]);
            }
        }
    }
}

/// Headers that are written line by line, with an empty line after them, are
/// read as they were written.
pub proof fn law_written_headers_are_read(
    before: Seq<u8>,
    headers: Seq<HeaderView>,
    after: Seq<u8>,
    room: nat,
)
    requires
        forall|i: int| 0 <= i < headers.len() ==> sendable_header(#[trigger] headers[i]),
        headers.len() <= room,
    ensures
        ({
            let buf = before + (sent_headers(headers) + seq![CR, LF]) + after;
            let scan = scan_fields(buf, before.len() as int, room);
            &&& scan.end == FieldsEnd::At(buf.len() - after.len())
            &&& scan.fields.map_values(
                |f: FieldSpan| HeaderView { name: span(buf, f.name), value: span(buf, f.value) },
            ) == headers
            &&& content_length(buf, scan.fields) == declared_length(headers)
        }),
{
    let lines = sent_headers(headers) + seq![CR, LF];
    let buf = before + lines + after;
    let p = before.len() as int;
    assert(buf.subrange(p, p + lines.len()) =~= lines);
    lemma_sent_headers(buf, p, headers, room);
    let scan = scan_fields(buf, p, room);
    let read = scan.fields.map_values(
        |f: FieldSpan| HeaderView { name: span(buf, f.name), value: span(buf, f.value) },
    );
    assert forall|i: int| 0 <= i < headers.len() implies read[i] == headers[i] by {
        let f = scan.fields[i];
        assert(span(buf, f.name) == headers[i].name);
    }
    assert(read =~= headers);
    lemma_sent_length(buf, scan.fields, headers);
}

/// The first line, read back.
pub proof fn lemma_sent_request_line(buf: Seq<u8>, r: RequestView)
    requires
        stands_at(buf, 0, sent_request_line(r)),
        sendable_line(r),
    ensures
        scan_request_line(buf) == (RequestLine::Whole {
            method_end: r.method.len() as int,
            path_end: r.method.len() + 1int + r.path.len(),
            minor_version: r.minor_version,
        }),
        span(buf, (0, r.method.len() as int)) == r.method,
        span(buf, (r.method.len() + 1int, r.method.len() + 1int + r.path.len())) == r.path,
        sent_request_line(r).len() == r.method.len() + 1 + r.path.len() + 1 + version_len(),
{
    reveal_strlit("HTTP/1.");
    let line = sent_request_line(r);
    let version = ascii("HTTP/1."@);
    assert(version.len() == 7);
    let all = buf.subrange(0, line.len() as int);
    let m = r.method.len() as int;
    let q = m + 1 + r.path.len();
    let v = q + 1;
    assert forall|i: int| 0 <= i < line.len() implies buf[i] == #[trigger] line[i] by {
        assert(all[i] == buf[i]);
    }
    assert(line[m] == SPACE);
    assert(line[q] == SPACE);
    assert forall|i: int| 0 <= i < m implies buf[i] != SPACE by {
        assert(buf[i] == line[i]);
        assert(line[i] == r.method[i]);
    }
    assert forall|i: int| m + 1 <= i < q implies buf[i] != SPACE by {
        assert(buf[i] == line[i]);
        assert(line[i] == r.path[i - (m + 1)]);
    }
    lemma_find_is(buf, SPACE, 0, m);
    lemma_find_is(buf, SPACE, m + 1, q);
    assert(buf.subrange(v, v + 7) =~= version) by {
        assert forall|i: int| 0 <= i < 7 implies buf[v + i] == version[i] by {
            assert(buf[v + i] == line[v + i]);
        }
    }
    assert(buf[v + 7] == line[v + 7]);
    assert(buf[v + 8] == line[v + 8]);
    assert(buf[v + 9] == line[v + 9]);
    assert(span(buf, (0, m)) =~= r.method) by {
        assert forall|i: int| 0 <= i < m implies buf[i] == r.method[i] by {
            assert(buf[i] == line[i]);
        }
    }
    assert(span(buf, (m + 1, q)) =~= r.path) by {
        assert forall|i: int| 0 <= i < r.path.len() implies buf[m + 1 + i] == r.path[i] by {
            assert(buf[m + 1 + i] == line[m + 1 + i]);
        }
    }
}

/// What the headers in the buffer declare is what the headers sent declare.
pub proof fn lemma_sent_length(buf: Seq<u8>, fields: Seq<FieldSpan>, headers: Seq<HeaderView>)
    requires
        fields.len() == headers.len(),
        forall|i: int|
            0 <= i < headers.len() ==> {
                let f = #[trigger] fields[i];
                &&& span(buf, f.name) == headers[i].name
                &&& span(buf, f.value) == headers[i].value
            },
    ensures
        content_length(buf, fields) == declared_length(headers),
    decreases fields.len(),
{
    if fields.len() > 0 {
        let f = fields[fields.len() - 1];
        assert(span(buf, f.name) == headers.last().name);
        lemma_sent_length(buf, fields.drop_last(), headers.drop_last());
    }
}

/// A request that is sent is received as it was: its head ends where its body
/// starts, every part is given back, and what follows the request is left
/// alone.
pub proof fn law_sent_is_received(r: RequestView, rest: Seq<u8>, room: nat)
    requires
        sendable(r),
        r.headers.len() <= room,
    ensures
        scan_head(sent_request(r) + rest, room) matches HeadScan::Complete(l) && {
            &&& l.consumed == sent_head(r).len()
            &&& l.body_len == r.body.len()
            &&& request_at(sent_request(r) + rest, l) == r
        },
{
    let buf = sent_request(r) + rest;
    let line = sent_request_line(r);
    let lines = sent_headers(r.headers) + seq![CR, LF];
    assert(buf =~= (line + lines) + (r.body + rest));
    assert(buf.subrange(0, (line + lines).len() as int) =~= line + lines);
    lemma_stands_split(buf, 0, line, lines);
    lemma_sent_request_line(buf, r);
    let first = line.len() as int;
    lemma_sent_headers(buf, first, r.headers, room);
    let fields = scan_fields(buf, first, room).fields;
    lemma_sent_length(buf, fields, r.headers);
    let l = scan_head(buf, room)->Complete_0;
    assert(l.fields == fields);
    assert(l.consumed == sent_head(r).len());
    let got = request_at(buf, l);
    assert(got.headers =~= r.headers) by {
        assert forall|i: int| 0 <= i < fields.len() implies got.headers[i] == r.headers[i] by {
            let f = fields[i];
            assert(span(buf, f.name) == r.headers[i].name);
            assert(got.headers[i].name == span(buf, f.name));
        }
    }
    assert(got.body =~= r.body);
}

} // verus!
