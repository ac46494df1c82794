//! What holds of the head of a request, byte for byte: how each line of it is
//! read, with any blanks before a value, and what is made of a head that is cut
//! short or broken.

use crate::bytes::{
    ascii, find, is_blank, lemma_find, lemma_find_is, lemma_skip_blanks, number_or_zero,
    same_ignoring_case, skip_blanks, COLON, CR, LF, SPACE, TAB,
};
use crate::http_req::{
    head_fields, line_break_at, request_at, scan_field, scan_fields, scan_head, scan_request_line,
    span, FieldLine, FieldSpan, HeadLayout, HeadScan, HeaderPos, HeaderView, ParsedPositions,
    Request, RequestLine, RequestView,
};
use crate::http_req_laws::{
    declared_length, lemma_sent_length, lemma_sent_request_line, lemma_stands_split,
    sendable, sendable_header, sendable_line, sent_request_line, stands_at,
};
use vstd::prelude::*;

verus! {

/// A header line with any run of blanks between the colon and the value.
pub open spec fn spaced_header(h: HeaderView, gap: Seq<u8>) -> Seq<u8> {
    h.name + seq![COLON] + gap + h.value + seq![CR, LF]
}

/// Header lines, each with blanks of its own before the value.
pub open spec fn spaced_headers(headers: Seq<HeaderView>, gaps: Seq<Seq<u8>>) -> Seq<u8>
    decreases headers.len(),
{
    if headers.len() == 0 {
        seq![]
    } else {
        spaced_header(headers[0], gaps[0]) + spaced_headers(
            headers.drop_first(),
            gaps.drop_first(),
        )
    }
}

/// Whether a gap holds spaces and tabs alone; it may be empty.
pub open spec fn is_gap(gap: Seq<u8>) -> bool {
    forall|i: int| 0 <= i < gap.len() ==> gap[i] == SPACE || gap[i] == TAB
}

/// Whether headers survive being sent with those gaps.
pub open spec fn sendable_headers(headers: Seq<HeaderView>, gaps: Seq<Seq<u8>>) -> bool {
    &&& gaps.len() == headers.len()
    &&& forall|i: int| 0 <= i < headers.len() ==> sendable_header(#[trigger] headers[i])
    &&& forall|i: int| 0 <= i < gaps.len() ==> is_gap(#[trigger] gaps[i])
}

/// The first line of a request and its header lines.
pub open spec fn spaced_lines(r: RequestView, gaps: Seq<Seq<u8>>) -> Seq<u8> {
    sent_request_line(r) + spaced_headers(r.headers, gaps)
}

/// Whether those ranges hold those headers, one for one.
pub open spec fn holds_headers(
    buf: Seq<u8>,
    fields: Seq<FieldSpan>,
    headers: Seq<HeaderView>,
) -> bool {
    &&& fields.len() == headers.len()
    &&& forall|i: int|
        0 <= i < headers.len() ==> {
            let f = #[trigger] fields[i];
            &&& span(buf, f.name) == headers[i].name
            &&& span(buf, f.value) == headers[i].value
        }
}

/// A header line as it stands in a buffer.
proof fn lemma_spaced_header(buf: Seq<u8>, p: int, h: HeaderView, gap: Seq<u8>)
    requires
        stands_at(buf, p, spaced_header(h, gap)),
        sendable_header(h),
        is_gap(gap),
    ensures
        !line_break_at(buf, p),
        scan_field(buf, p) == (FieldLine::Whole {
            field: FieldSpan {
                name: (p, p + h.name.len()),
                value: (
                    p + h.name.len() + 1 + gap.len(),
                    p + h.name.len() + 1 + gap.len() + h.value.len(),
                ),
            },
            next: p + spaced_header(h, gap).len(),
        }),
        span(buf, (p, p + h.name.len())) == h.name,
        span(
            buf,
            (
                p + h.name.len() + 1 + gap.len(),
                p + h.name.len() + 1 + gap.len() + h.value.len(),
            ),
        ) == h.value,
{
    let line = spaced_header(h, gap);
    let all = buf.subrange(p, p + line.len());
    let colon = p + h.name.len();
    let value = colon + 1 + gap.len();
    let end = value + h.value.len();
    assert forall|i: int| p <= i < p + line.len() implies buf[i] == #[trigger] line[i - p] by {
        assert(all[i - p] == buf[i]);
    }
    assert(buf[p] == line[p - p]);
    assert(buf[p + 1] == line[p + 1 - p]);
    assert(buf[colon] == line[colon - p]);
    assert(buf[end] == line[end - p]);
    assert(buf[end + 1] == line[end + 1 - p]);
    assert forall|i: int| p <= i < colon implies buf[i] != COLON by {
        assert(buf[i] == line[i - p]);
        assert(line[i - p] == h.name[i - p]);
    }
    assert forall|i: int| colon + 1 <= i < value implies is_blank(buf[i]) by {
        assert(buf[i] == line[i - p]);
        assert(line[i - p] == gap[i - colon - 1]);
    }
    assert forall|i: int| value <= i < end implies buf[i] != CR by {
        assert(buf[i] == line[i - p]);
        assert(line[i - p] == h.value[i - value]);
    }
    assert(!is_blank(buf[value])) by {
        if h.value.len() > 0 {
            assert(buf[value] == line[value - p]);
            assert(line[value - p] == h.value[0]);
        }
    }
    lemma_find_is(buf, COLON, p, colon);
    lemma_skip_blanks(buf, colon + 1);
    let stop = skip_blanks(buf, colon + 1);
    assert(stop == value) by {
        if stop < value {
            assert(is_blank(buf[stop]));
        } else if stop > value {
            assert(is_blank(buf[value]));
        }
    }
    lemma_find_is(buf, CR, value, end);
    assert(span(buf, (p, colon)) =~= h.name) by {
        assert forall|i: int| 0 <= i < h.name.len() implies buf[p + i] == h.name[i] by {
            assert(buf[p + i] == line[p + i - p]);
        }
    }
    assert(span(buf, (value, end)) =~= h.value) by {
        assert forall|i: int| 0 <= i < h.value.len() implies buf[value + i] == h.value[i] by {
            assert(buf[value + i] == line[value + i - p]);
        }
    }
}

/// A header line is read for what it says wherever it stands, and however many
/// blanks, if any, stand before the value: the name is all that stands before
/// the colon, the value all that stands between the blanks and the line break,
/// and the next line starts right behind.
pub proof fn law_header_line_is_read(before: Seq<u8>, h: HeaderView, gap: Seq<u8>, after: Seq<u8>)
    requires
        sendable_header(h),
        is_gap(gap),
    ensures
        ({
            let buf = before + (h.name + seq![COLON] + gap + h.value + seq![CR, LF]) + after;
            let colon = before.len() + h.name.len();
            let value = colon + 1 + gap.len();
            &&& scan_field(buf, before.len() as int) matches FieldLine::Whole { field, next }
            &&& field.name == (before.len() as int, colon as int)
            &&& field.value == (value as int, (value + h.value.len()) as int)
            &&& buf.subrange(field.name.0, field.name.1) == h.name
            &&& buf.subrange(field.value.0, field.value.1) == h.value
            &&& next == buf.len() - after.len()
        }),
{
    let line = spaced_header(h, gap);
    let buf = before + line + after;
    let p = before.len() as int;
    assert(buf.subrange(p, p + line.len()) =~= line);
    lemma_spaced_header(buf, p, h, gap);
}

/// Header lines, and whatever follows them.
proof fn lemma_spaced_headers(
    buf: Seq<u8>,
    p: int,
    headers: Seq<HeaderView>,
    gaps: Seq<Seq<u8>>,
    room: nat,
)
    requires
        stands_at(buf, p, spaced_headers(headers, gaps)),
        sendable_headers(headers, gaps),
        headers.len() <= room,
    ensures
        ({
            let scan = scan_fields(buf, p, room);
            let rest = scan_fields(
                buf,
                p + spaced_headers(headers, gaps).len(),
                (room - headers.len()) as nat,
            );
            let k = headers.len() as int;
            &&& scan.end == rest.end
            &&& scan.fields.len() == k + rest.fields.len()
            &&& holds_headers(buf, scan.fields.take(k), headers)
            &&& scan.fields.skip(k) == rest.fields
        }),
    decreases headers.len(),
{
    let scan = scan_fields(buf, p, room);
    if headers.len() > 0 {
        let h = headers[0];
        let line = spaced_header(h, gaps[0]);
        let others = headers.drop_first();
        let other_gaps = gaps.drop_first();
        lemma_stands_split(buf, p, line, spaced_headers(others, other_gaps));
        lemma_spaced_header(buf, p, h, gaps[0]);
        let next = p + line.len();
        assert forall|i: int| 0 <= i < others.len() implies sendable_header(
            #[trigger] others[i],
        ) by {
            assert(others[i] == headers[i + 1]);
        }
        assert forall|i: int| 0 <= i < other_gaps.len() implies is_gap(#[trigger] other_gaps[i]) by {
            assert(other_gaps[i] == gaps[i + 1]);
        }
        lemma_spaced_headers(buf, next, others, other_gaps, (room - 1) as nat);
        let inner = scan_fields(buf, next, (room - 1) as nat);
        let k = headers.len() as int;
        let got = scan.fields.take(k);
        assert forall|i: int| 0 <= i < k implies {
            let f = #[trigger] got[i];
            &&& span(buf, f.name) == headers[i].name
            &&& span(buf, f.value) == headers[i].value
        } by {
            if i > 0 {
                assert(got[i] == inner.fields.take(k - 1)[i - 1]);
                assert(headers[i] == others[i - 1]);
            }
        }
        assert(scan.fields.skip(k) =~= inner.fields.skip(k - 1));
    } else {
        assert(scan.fields.skip(0) =~= scan.fields);
    }
}

/// The first line and the header lines, and whatever follows them.
proof fn lemma_spaced_lines(r: RequestView, gaps: Seq<Seq<u8>>, tail: Seq<u8>, room: nat)
    requires
        sendable_line(r),
        sendable_headers(r.headers, gaps),
        r.headers.len() <= room,
    ensures
        ({
            let buf = spaced_lines(r, gaps) + tail;
            let k = r.headers.len() as int;
            let scan = head_fields(buf, room);
            let rest = scan_fields(buf, spaced_lines(r, gaps).len() as int, (room - k) as nat);
            let m = r.method.len() as int;
            &&& scan_request_line(buf) == (RequestLine::Whole {
                method_end: m,
                path_end: m + 1 + r.path.len(),
                minor_version: r.minor_version,
            })
            &&& span(buf, (0, m)) == r.method
            &&& span(buf, (m + 1, m + 1 + r.path.len())) == r.path
            &&& scan.end == rest.end
            &&& scan.fields.len() == k + rest.fields.len()
            &&& holds_headers(buf, scan.fields.take(k), r.headers)
        }),
{
    let line = sent_request_line(r);
    let lines = spaced_headers(r.headers, gaps);
    let buf = spaced_lines(r, gaps) + tail;
    assert(buf.subrange(0, (line + lines).len() as int) =~= line + lines);
    lemma_stands_split(buf, 0, line, lines);
    lemma_sent_request_line(buf, r);
    lemma_spaced_headers(buf, line.len() as int, r.headers, gaps, room);
}

/// A request that is sent with any blanks before its values is received as it
/// was: the head ends behind the empty line, and the method, the path, the
/// version and every header are given back, whatever follows.
pub proof fn law_spaced_head_is_received(
    r: RequestView,
    gaps: Seq<Seq<u8>>,
    rest: Seq<u8>,
    room: nat,
)
    requires
        sendable_line(r),
        sendable_headers(r.headers, gaps),
        r.headers.len() <= room,
    ensures
        ({
            let buf = spaced_lines(r, gaps) + seq![CR, LF] + rest;
            &&& scan_head(buf, room) matches HeadScan::Complete(l)
            &&& l.method == (0int, r.method.len() as int)
            &&& l.path == (r.method.len() + 1int, r.method.len() + 1int + r.path.len())
            &&& l.consumed == buf.len() - rest.len()
            &&& holds_headers(buf, l.fields, r.headers)
            &&& request_at(buf, l).method == r.method
            &&& request_at(buf, l).path == r.path
            &&& request_at(buf, l).minor_version == r.minor_version
            &&& request_at(buf, l).headers == r.headers
        }),
{
    let tail = seq![CR, LF] + rest;
    let buf = spaced_lines(r, gaps) + seq![CR, LF] + rest;
    assert(buf =~= spaced_lines(r, gaps) + tail);
    lemma_spaced_lines(r, gaps, tail, room);
    let q = spaced_lines(r, gaps).len() as int;
    assert(buf[q] == tail[0] && buf[q + 1] == tail[1]);
    let fields = head_fields(buf, room).fields;
    assert(fields.take(r.headers.len() as int) =~= fields);
    let l = scan_head(buf, room)->Complete_0;
    let got = request_at(buf, l);
    assert(got.headers =~= r.headers) by {
        assert forall|i: int| 0 <= i < fields.len() implies got.headers[i] == r.headers[i] by {
            let f = fields[i];
            assert(span(buf, f.name) == r.headers[i].name);
            assert(got.headers[i].name == span(buf, f.name));
        }
    }
}

/// Whatever header line is read, the name holds no colon and a colon ends it,
/// nothing but spaces and tabs stands between the colon and the value, the
/// value starts with neither and holds no carriage return, and a line break
/// stands right behind it.
pub proof fn law_header_line_has_parts(buf: Seq<u8>, p: int)
    requires
        0 <= p <= buf.len(),
        scan_field(buf, p) is Whole,
    ensures
        scan_field(buf, p) matches FieldLine::Whole { field, next } && {
            &&& field.name.0 == p
            &&& p <= field.name.1 < field.value.0 <= field.value.1
            &&& next == field.value.1 + 2
            &&& next <= buf.len()
            &&& forall|i: int| p <= i < field.name.1 ==> buf[i] != COLON
            &&& buf[field.name.1] == COLON
            &&& forall|i: int|
                field.name.1 < i < field.value.0 ==> buf[i] == SPACE || buf[i] == TAB
            &&& buf[field.value.0] != SPACE && buf[field.value.0] != TAB
            &&& forall|i: int| field.value.0 <= i < field.value.1 ==> buf[i] != CR
            &&& buf[field.value.1] == CR
            &&& buf[field.value.1 + 1] == LF
        },
{
    lemma_find(buf, COLON, p);
    let colon = find(buf, COLON, p);
    lemma_skip_blanks(buf, colon + 1);
    let value = skip_blanks(buf, colon + 1);
    lemma_find(buf, CR, value);
    assert forall|i: int| colon < i < value implies buf[i] == SPACE || buf[i] == TAB by {
        assert(is_blank(buf[i]));
    }
}

/// Behind whole lines, fewer than two bytes say nothing yet; the headers so far
/// are noted.
pub proof fn law_next_line_has_not_started(
    r: RequestView,
    gaps: Seq<Seq<u8>>,
    tail: Seq<u8>,
    room: nat,
)
    requires
        sendable_line(r),
        sendable_headers(r.headers, gaps),
        r.headers.len() <= room,
        tail.len() < 2,
    ensures
        scan_head(spaced_lines(r, gaps) + tail, room) is Incomplete,
        holds_headers(
            spaced_lines(r, gaps) + tail,
            head_fields(spaced_lines(r, gaps) + tail, room).fields,
            r.headers,
        ),
{
    lemma_spaced_lines(r, gaps, tail, room);
    let fields = head_fields(spaced_lines(r, gaps) + tail, room).fields;
    assert(fields.take(r.headers.len() as int) =~= fields);
}

/// Behind as many header lines as there is room for, anything but the empty
/// line is refused, before it is even whole.
pub proof fn law_surplus_header_is_refused(
    r: RequestView,
    gaps: Seq<Seq<u8>>,
    tail: Seq<u8>,
    room: nat,
)
    requires
        sendable_line(r),
        sendable_headers(r.headers, gaps),
        r.headers.len() == room,
        tail.len() >= 2,
        tail[0] != CR || tail[1] != LF,
    ensures
        scan_head(spaced_lines(r, gaps) + tail, room) is Error,
        holds_headers(
            spaced_lines(r, gaps) + tail,
            head_fields(spaced_lines(r, gaps) + tail, room).fields,
            r.headers,
        ),
{
    let buf = spaced_lines(r, gaps) + tail;
    lemma_spaced_lines(r, gaps, tail, room);
    let q = spaced_lines(r, gaps).len() as int;
    assert(buf[q] == tail[0] && buf[q + 1] == tail[1]);
    let fields = head_fields(buf, room).fields;
    assert(fields.take(r.headers.len() as int) =~= fields);
}

/// A header line of which the colon is missing is waited for, whatever it
/// holds; so is one that has no carriage return behind the colon, and one that
/// ends with it.
pub proof fn law_unfinished_header_is_awaited(
    r: RequestView,
    gaps: Seq<Seq<u8>>,
    name: Seq<u8>,
    text: Seq<u8>,
    tail: Seq<u8>,
    room: nat,
)
    requires
        sendable_line(r),
        sendable_headers(r.headers, gaps),
        r.headers.len() < room,
        forall|i: int| 0 <= i < name.len() ==> name[i] != COLON,
        forall|i: int| 0 <= i < text.len() ==> text[i] != CR,
        tail == name || tail == name + seq![COLON] + text || tail == name + seq![COLON] + text
            + seq![CR],
        tail.len() >= 2 ==> tail[0] != CR || tail[1] != LF,
    ensures
        scan_head(spaced_lines(r, gaps) + tail, room) is Incomplete,
        holds_headers(
            spaced_lines(r, gaps) + tail,
            head_fields(spaced_lines(r, gaps) + tail, room).fields,
            r.headers,
        ),
{
    let buf = spaced_lines(r, gaps) + tail;
    lemma_spaced_lines(r, gaps, tail, room);
    let q = spaced_lines(r, gaps).len() as int;
    assert forall|i: int| q <= i < buf.len() implies buf[i] == #[trigger] tail[i - q] by {}
    if tail.len() >= 2 {
        assert(buf[q] == tail[q - q] && buf[q + 1] == tail[q + 1 - q]);
        let colon = q + name.len();
        assert forall|i: int| q <= i < colon implies buf[i] != COLON by {
            assert(buf[i] == tail[i - q]);
            assert(tail[i - q] == name[i - q]);
        }
        if tail == name {
            lemma_find_is(buf, COLON, q, colon);
        } else {
            assert(buf[colon] == tail[colon - q]);
            lemma_find_is(buf, COLON, q, colon);
            lemma_skip_blanks(buf, colon + 1);
            let value = skip_blanks(buf, colon + 1);
            let end = colon + 1 + text.len();
            assert forall|i: int| colon + 1 <= i < end implies buf[i] != CR by {
                assert(buf[i] == tail[i - q]);
                assert(tail[i - q] == text[i - colon - 1]);
            }
            if end < buf.len() {
                assert(buf[end] == tail[end - q]);
                if value > end {
                    assert(is_blank(buf[end]));
                }
            }
            lemma_find_is(buf, CR, value, end);
        }
    }
    let fields = head_fields(buf, room).fields;
    assert(fields.take(r.headers.len() as int) =~= fields);
}

/// A carriage return in a value that no line feed follows is refused, whatever
/// follows.
pub proof fn law_broken_header_is_refused(
    r: RequestView,
    gaps: Seq<Seq<u8>>,
    name: Seq<u8>,
    text: Seq<u8>,
    after: Seq<u8>,
    room: nat,
)
    requires
        sendable_line(r),
        sendable_headers(r.headers, gaps),
        r.headers.len() < room,
        forall|i: int| 0 <= i < name.len() ==> name[i] != COLON,
        name.len() >= 2 ==> name[0] != CR || name[1] != LF,
        forall|i: int| 0 <= i < text.len() ==> text[i] != CR,
        after.len() > 0,
        after[0] != LF,
    ensures
        ({
            let buf = spaced_lines(r, gaps) + (name + seq![COLON] + text + seq![CR] + after);
            &&& scan_head(buf, room) is Error
            &&& holds_headers(buf, head_fields(buf, room).fields, r.headers)
        }),
{
    let tail = name + seq![COLON] + text + seq![CR] + after;
    let buf = spaced_lines(r, gaps) + tail;
    lemma_spaced_lines(r, gaps, tail, room);
    let q = spaced_lines(r, gaps).len() as int;
    assert forall|i: int| q <= i < buf.len() implies buf[i] == #[trigger] tail[i - q] by {}
    assert(buf[q] == tail[q - q] && buf[q + 1] == tail[q + 1 - q]);
    let colon = q + name.len();
    assert forall|i: int| q <= i < colon implies buf[i] != COLON by {
        assert(buf[i] == tail[i - q]);
        assert(tail[i - q] == name[i - q]);
    }
    assert(buf[colon] == tail[colon - q]);
    lemma_find_is(buf, COLON, q, colon);
    lemma_skip_blanks(buf, colon + 1);
    let value = skip_blanks(buf, colon + 1);
    let end = colon + 1 + text.len();
    assert forall|i: int| colon + 1 <= i < end implies buf[i] != CR by {
        assert(buf[i] == tail[i - q]);
        assert(tail[i - q] == text[i - colon - 1]);
    }
    assert(buf[end] == tail[end - q]);
    assert(buf[end + 1] == tail[end + 1 - q]);
    if value > end {
        assert(is_blank(buf[end]));
    }
    lemma_find_is(buf, CR, value, end);
    let fields = head_fields(buf, room).fields;
    assert(fields.take(r.headers.len() as int) =~= fields);
}

/// A first line is waited for until both spaces and ten more bytes are there,
/// whatever those bytes are.
pub proof fn law_unfinished_first_line_is_awaited(
    method: Seq<u8>,
    path: Seq<u8>,
    version: Seq<u8>,
    room: nat,
)
    requires
        forall|i: int| 0 <= i < method.len() ==> method[i] != SPACE,
        forall|i: int| 0 <= i < path.len() ==> path[i] != SPACE,
        version.len() < 10,
    ensures
        scan_head(method, room) is Incomplete,
        scan_head(method + seq![SPACE] + path, room) is Incomplete,
        scan_head(method + seq![SPACE] + path + seq![SPACE] + version, room) is Incomplete,
        head_fields(method, room).fields.len() == 0,
        head_fields(method + seq![SPACE] + path, room).fields.len() == 0,
        head_fields(method + seq![SPACE] + path + seq![SPACE] + version, room).fields.len() == 0,
{
    let m = method.len() as int;
    lemma_find_is(method, SPACE, 0, m);
    let two = method + seq![SPACE] + path;
    assert(two[m] == SPACE);
    lemma_find_is(two, SPACE, 0, m);
    assert forall|i: int| m + 1 <= i < two.len() implies two[i] != SPACE by {
        assert(two[i] == path[i - m - 1]);
    }
    lemma_find_is(two, SPACE, m + 1, two.len() as int);
    let three = two + seq![SPACE] + version;
    let q = two.len() as int;
    assert(three[m] == SPACE && three[q] == SPACE);
    assert forall|i: int| 0 <= i < m implies three[i] != SPACE by {
        assert(three[i] == method[i]);
    }
    assert forall|i: int| m + 1 <= i < q implies three[i] != SPACE by {
        assert(three[i] == path[i - m - 1]);
    }
    lemma_find_is(three, SPACE, 0, m);
    lemma_find_is(three, SPACE, m + 1, q);
}

/// A first line whose last ten bytes are anything but `HTTP/1.0` or `HTTP/1.1`
/// and a line break is refused, whatever follows.
pub proof fn law_other_version_is_refused(
    method: Seq<u8>,
    path: Seq<u8>,
    version: Seq<u8>,
    after: Seq<u8>,
    room: nat,
)
    requires
        forall|i: int| 0 <= i < method.len() ==> method[i] != SPACE,
        forall|i: int| 0 <= i < path.len() ==> path[i] != SPACE,
        version.len() == 10,
        version != ascii("HTTP/1.0"@) + seq![CR, LF],
        version != ascii("HTTP/1.1"@) + seq![CR, LF],
    ensures
        scan_head(method + seq![SPACE] + path + seq![SPACE] + version + after, room) is Error,
        head_fields(
            method + seq![SPACE] + path + seq![SPACE] + version + after,
            room,
        ).fields.len() == 0,
{
    reveal_strlit("HTTP/1.");
    reveal_strlit("HTTP/1.0");
    reveal_strlit("HTTP/1.1");
    let buf = method + seq![SPACE] + path + seq![SPACE] + version + after;
    let m = method.len() as int;
    let q = m + 1 + path.len();
    assert(buf[m] == SPACE && buf[q] == SPACE);
    assert forall|i: int| 0 <= i < m implies buf[i] != SPACE by {
        assert(buf[i] == method[i]);
    }
    assert forall|i: int| m + 1 <= i < q implies buf[i] != SPACE by {
        assert(buf[i] == path[i - m - 1]);
    }
    lemma_find_is(buf, SPACE, 0, m);
    lemma_find_is(buf, SPACE, m + 1, q);
    let v = q + 1;
    assert forall|i: int| 0 <= i < 10 implies buf[v + i] == version[i] by {}
    assert(buf[v + 7] == version[7] && buf[v + 8] == version[8] && buf[v + 9] == version[9]);
    if buf.subrange(v, v + 7) == ascii("HTTP/1."@) {
        assert forall|i: int| 0 <= i < 7 implies version[i] == ascii("HTTP/1."@)[i] by {
            assert(buf.subrange(v, v + 7)[i] == buf[v + i]);
        }
        if version[8] == CR && version[9] == LF {
            if version[7] == 48 {
                assert(version =~= ascii("HTTP/1.0"@) + seq![CR, LF]);
            } else if version[7] == 49 {
                assert(version =~= ascii("HTTP/1.1"@) + seq![CR, LF]);
            }
        }
    }
}

/// What headers declare is what the last header of that name says.
proof fn lemma_declared_last(headers: Seq<HeaderView>, i: int)
    requires
        -1 <= i < headers.len(),
        i >= 0 ==> same_ignoring_case(headers[i].name, ascii("content-length"@)),
        forall|j: int|
            i < j < headers.len() ==> !same_ignoring_case(
                (#[trigger] headers[j]).name,
                ascii("content-length"@),
            ),
    ensures
        declared_length(headers) == if i < 0 {
            0
        } else {
            number_or_zero(headers[i].value)
        },
    decreases headers.len(),
{
    if headers.len() > 0 && i < headers.len() - 1 {
        assert(headers.last() == headers[headers.len() - 1]);
        let less = headers.drop_last();
        assert forall|j: int| i < j < less.len() implies !same_ignoring_case(
            (#[trigger] less[j]).name,
            ascii("content-length"@),
        ) by {
            assert(less[j] == headers[j]);
        }
        lemma_declared_last(less, i);
    }
}

/// How long the body of a request is: a `GET` has none, whatever its headers
/// say; any other request has the length that its last `Content-Length` says,
/// and none where it has no such header.
pub proof fn law_body_is_as_long_as_declared(
    r: RequestView,
    gaps: Seq<Seq<u8>>,
    rest: Seq<u8>,
    room: nat,
    last: int,
)
    requires
        sendable_line(r),
        sendable_headers(r.headers, gaps),
        r.headers.len() <= room,
        -1 <= last < r.headers.len(),
        last >= 0 ==> same_ignoring_case(r.headers[last].name, ascii("content-length"@)),
        forall|j: int|
            last < j < r.headers.len() ==> !same_ignoring_case(
                (#[trigger] r.headers[j]).name,
                ascii("content-length"@),
            ),
    ensures
        scan_head(spaced_lines(r, gaps) + seq![CR, LF] + rest, room) matches HeadScan::Complete(l)
            && l.body_len == if r.method == ascii("GET"@) || last < 0 {
            0
        } else {
            number_or_zero(r.headers[last].value)
        },
{
    let tail = seq![CR, LF] + rest;
    let buf = spaced_lines(r, gaps) + seq![CR, LF] + rest;
    assert(buf =~= spaced_lines(r, gaps) + tail);
    law_spaced_head_is_received(r, gaps, rest, room);
    let l = scan_head(buf, room)->Complete_0;
    lemma_sent_length(buf, l.fields, r.headers);
    lemma_declared_last(r.headers, last);
}

/// A request with any blanks before its values, as it is sent.
pub open spec fn spaced_request(r: RequestView, gaps: Seq<Seq<u8>>) -> Seq<u8> {
    spaced_lines(r, gaps) + seq![CR, LF] + r.body
}

/// A whole request that is sent with any blanks before its values is received
/// as it was, with its body, and what follows it is left alone.
pub proof fn law_spaced_request_is_received(
    r: RequestView,
    gaps: Seq<Seq<u8>>,
    rest: Seq<u8>,
    room: nat,
)
    requires
        sendable(r),
        sendable_headers(r.headers, gaps),
        r.headers.len() <= room,
    ensures
        ({
            let buf = spaced_request(r, gaps) + rest;
            &&& scan_head(buf, room) matches HeadScan::Complete(l)
            &&& l.consumed == spaced_request(r, gaps).len() - r.body.len()
            &&& l.body_len == r.body.len()
            &&& request_at(buf, l) == r
        }),
{
    let buf = spaced_request(r, gaps) + rest;
    let after = r.body + rest;
    assert(buf =~= spaced_lines(r, gaps) + seq![CR, LF] + after);
    law_spaced_head_is_received(r, gaps, after, room);
    let l = scan_head(buf, room)->Complete_0;
    lemma_sent_length(buf, l.fields, r.headers);
    assert(request_at(buf, l).body =~= r.body);
}

/// What a layout finds in a buffer: each part holds the bytes of its range, the
/// headers come in the order of their ranges, and the body is what follows the
/// head, cut off at the declared length.
pub proof fn law_layout_gives_parts(buf: Seq<u8>, l: HeadLayout)
    requires
        0 <= l.consumed <= buf.len(),
    ensures
        request_at(buf, l).method == buf.subrange(l.method.0, l.method.1),
        request_at(buf, l).path == buf.subrange(l.path.0, l.path.1),
        request_at(buf, l).minor_version == l.minor_version,
        request_at(buf, l).headers.len() == l.fields.len(),
        forall|i: int|
            0 <= i < l.fields.len() ==> {
                let f = l.fields[i];
                let h = #[trigger] request_at(buf, l).headers[i];
                &&& h.name == buf.subrange(f.name.0, f.name.1)
                &&& h.value == buf.subrange(f.value.0, f.value.1)
            },
        request_at(buf, l).body.len() <= l.body_len,
        request_at(buf, l).body.len() < l.body_len ==> request_at(buf, l).body.len() == buf.len()
            - l.consumed,
        forall|i: int|
            0 <= i < request_at(buf, l).body.len() ==> #[trigger] request_at(buf, l).body[i]
                == buf[l.consumed + i],
{
}

/// Positions stand for the layout with the same numbers, and with the first
/// `num_headers` of the header positions, in order.
pub proof fn law_positions_give_layout(p: ParsedPositions, positions: Seq<HeaderPos>)
    requires
        p.num_headers <= positions.len(),
    ensures
        p.layout(positions).method == (p.method.0 as int, p.method.1 as int),
        p.layout(positions).path == (p.path.0 as int, p.path.1 as int),
        p.layout(positions).minor_version == p.minor_version,
        p.layout(positions).body_len == p.body_len,
        p.layout(positions).consumed == p.consumed,
        p.layout(positions).fields.len() == p.num_headers,
        forall|i: int|
            0 <= i < p.num_headers ==> {
                let f = #[trigger] p.layout(positions).fields[i];
                &&& f.name == (positions[i].name.0 as int, positions[i].name.1 as int)
                &&& f.value == (positions[i].value.0 as int, positions[i].value.1 as int)
            },
{
}

/// A borrowed request stands for the bytes that it borrows, part by part, with
/// its headers in order.
pub proof fn law_request_stands_for_its_parts(request: Request, i: int)
    ensures
        request@.method == request.method@,
        request@.path == request.path@,
        request@.minor_version == request.minor_version,
        request@.body == request.body@,
        request@.headers.len() == request.headers@.len(),
        0 <= i < request.headers@.len() ==> {
            &&& request@.headers[i].name == request.headers@[i].name@
            &&& request@.headers[i].value == request.headers@[i].value@
        },
{
}

} // verus!
