//! Parsing of an HTTP/1.x request head out of a buffer that is still being
//! filled.

use crate::bytes::{
    ascii, ascii_bytes, bytes_eq, eq_ignore_case, find, find_byte, lemma_find, lemma_skip_blanks,
    number_or_zero, parse_number, same_ignoring_case, skip_blank_bytes, skip_blanks, COLON, CR, LF,
    SPACE, ZERO,
};
use vstd::prelude::*;
use vstd::string::*;

verus! {

/// How many headers a request may carry.
pub const MAX_HEADERS: usize = 32;

/// One header of a request, borrowed from the request buffer.
#[derive(Clone, Copy, Debug)]
pub struct Header<'b> {
    pub name: &'b [u8],
    pub value: &'b [u8],
}

/// A request, borrowed from the request buffer.
#[derive(Debug)]
pub struct Request<'b> {
    pub method: &'b [u8],
    pub path: &'b [u8],
    pub minor_version: u8,
    pub headers: &'b [Header<'b>],
    pub body: &'b [u8],
}

/// The name and the value of a header.
pub struct HeaderView {
    pub name: Seq<u8>,
    pub value: Seq<u8>,
}

/// The parts of a request.
pub struct RequestView {
    pub method: Seq<u8>,
    pub path: Seq<u8>,
    pub minor_version: u8,
    pub headers: Seq<HeaderView>,
    pub body: Seq<u8>,
}

impl<'b> View for Header<'b> {
    type V = HeaderView;

    open spec fn view(&self) -> HeaderView {
        HeaderView { name: self.name@, value: self.value@ }
    }
}

impl<'b> View for Request<'b> {
    type V = RequestView;

    open spec fn view(&self) -> RequestView {
        RequestView {
            method: self.method@,
            path: self.path@,
            minor_version: self.minor_version,
            headers: self.headers@.map_values(|h: Header<'b>| h@),
            body: self.body@,
        }
    }
}

impl<'b> Default for Header<'b> {
    /// A header with an empty name and an empty value.
    fn default() -> (r: Self)
        ensures
            r@ == (HeaderView { name: Seq::empty(), value: Seq::empty() }),
    {
        let r = Header { name: &[], value: &[] };
        assert(r.name@ =~= Seq::<u8>::empty());
        assert(r.value@ =~= Seq::<u8>::empty());
        r
    }
}

/// Byte offsets into the request buffer for one header's name and value. It
/// borrows nothing, so it can be kept while the buffer is filled further.
#[derive(Clone, Copy, Debug)]
pub struct HeaderPos {
    pub name: (usize, usize),
    pub value: (usize, usize),
}

/// Where the name and the value of a header lie, as half-open ranges.
pub struct FieldSpan {
    pub name: (int, int),
    pub value: (int, int),
}

impl View for HeaderPos {
    type V = FieldSpan;

    open spec fn view(&self) -> FieldSpan {
        FieldSpan {
            name: (self.name.0 as int, self.name.1 as int),
            value: (self.value.0 as int, self.value.1 as int),
        }
    }
}

impl Default for HeaderPos {
    /// Two empty ranges at the start of the buffer.
    fn default() -> (r: Self)
        ensures
            r == (HeaderPos { name: (0, 0), value: (0, 0) }),
    {
        HeaderPos { name: (0, 0), value: (0, 0) }
    }
}

/// Where everything was found in the request buffer, as offsets. It borrows
/// nothing either.
#[derive(Clone, Copy, Debug)]
pub struct ParsedPositions {
    pub method: (usize, usize),
    pub path: (usize, usize),
    pub minor_version: u8,
    pub num_headers: usize,
    pub body_len: usize,
    pub consumed: usize,
}

/// What a look at the bytes received so far tells.
pub enum ParseStatus {
    /// The head of a request lies in the buffer.
    Complete(ParsedPositions),
    /// More bytes are needed before anything can be said.
    Incomplete,
    /// The bytes do not start a request that is understood here.
    Error,
}

/// The layout of a complete request head.
pub struct HeadLayout {
    pub method: (int, int),
    pub path: (int, int),
    pub minor_version: u8,
    pub fields: Seq<FieldSpan>,
    pub body_len: nat,
    pub consumed: int,
}

/// What the bytes received so far amount to.
pub enum HeadScan {
    Complete(HeadLayout),
    Incomplete,
    Error,
}

/// What the first line of a request amounts to.
pub enum RequestLine {
    Whole { method_end: int, path_end: int, minor_version: u8 },
    Short,
    Broken,
}

/// What the bytes at the start of a header line amount to.
pub enum FieldLine {
    Whole { field: FieldSpan, next: int },
    Short,
    Broken,
}

/// How a run of header lines ends.
pub enum FieldsEnd {
    /// With the empty line, whose end is given.
    At(int),
    Short,
    Broken,
}

/// A run of header lines: the headers found, and how the run ends.
pub struct FieldsScan {
    pub fields: Seq<FieldSpan>,
    pub end: FieldsEnd,
}

/// The length of the version and the line break that end the first line.
pub open spec fn version_len() -> int {
    10
}

/// Whether a line break stands at `p`.
pub open spec fn line_break_at(buf: Seq<u8>, p: int) -> bool {
    buf[p] == CR && buf[p + 1] == LF
}

/// The first line: a method and a path, each ended by the first space after
/// it, then `HTTP/1.0` or `HTTP/1.1` and a line break.
pub open spec fn scan_request_line(buf: Seq<u8>) -> RequestLine {
    let method_end = find(buf, SPACE, 0);
    let path_end = find(buf, SPACE, method_end + 1);
    let v = path_end + 1;
    if method_end >= buf.len() || path_end >= buf.len() || buf.len() < v + version_len() {
        RequestLine::Short
    } else if buf.subrange(v, v + 7) == ascii("HTTP/1."@) && ZERO <= buf[v + 7] <= ZERO + 1
        && line_break_at(buf, v + 8) {
        RequestLine::Whole { method_end, path_end, minor_version: (buf[v + 7] - ZERO) as u8 }
    } else {
        RequestLine::Broken
    }
}

/// A header line at `p`: a name up to the first colon, blanks, and a value up
/// to the first carriage return, which a line feed must follow.
pub open spec fn scan_field(buf: Seq<u8>, p: int) -> FieldLine {
    let colon = find(buf, COLON, p);
    let value = skip_blanks(buf, colon + 1);
    let end = find(buf, CR, value);
    if colon >= buf.len() || end + 1 >= buf.len() {
        FieldLine::Short
    } else if buf[end + 1] != LF {
        FieldLine::Broken
    } else {
        FieldLine::Whole {
            field: FieldSpan { name: (p, colon), value: (value, end) },
            next: end + 2,
        }
    }
}

/// The header lines from `p` to the empty line, at most `room` of them.
pub open spec fn scan_fields(buf: Seq<u8>, p: int, room: nat) -> FieldsScan
    decreases room,
{
    if buf.len() < p + 2 {
        FieldsScan { fields: seq![], end: FieldsEnd::Short }
    } else if line_break_at(buf, p) {
        FieldsScan { fields: seq![], end: FieldsEnd::At(p + 2) }
    } else if room == 0 {
        FieldsScan { fields: seq![], end: FieldsEnd::Broken }
    } else {
        match scan_field(buf, p) {
            FieldLine::Short => FieldsScan { fields: seq![], end: FieldsEnd::Short },
            FieldLine::Broken => FieldsScan { fields: seq![], end: FieldsEnd::Broken },
            FieldLine::Whole { field, next } => {
                let rest = scan_fields(buf, next, (room - 1) as nat);
                FieldsScan { fields: seq![field] + rest.fields, end: rest.end }
            },
        }
    }
}

/// The bytes of a half-open range.
pub open spec fn span(buf: Seq<u8>, range: (int, int)) -> Seq<u8> {
    buf.subrange(range.0, range.1)
}

/// What the last `Content-Length` header says; zero where there is none.
pub open spec fn content_length(buf: Seq<u8>, fields: Seq<FieldSpan>) -> nat
    decreases fields.len(),
{
    if fields.len() == 0 {
        0
    } else if same_ignoring_case(span(buf, fields.last().name), ascii("content-length"@)) {
        number_or_zero(span(buf, fields.last().value))
    } else {
        content_length(buf, fields.drop_last())
    }
}

/// How many bytes of body a request has: none for `GET`, else what it declares.
pub open spec fn body_length(buf: Seq<u8>, method: (int, int), fields: Seq<FieldSpan>) -> nat {
    if span(buf, method) == ascii("GET"@) {
        0
    } else {
        content_length(buf, fields)
    }
}

/// The header lines of the buffer, where it has a whole first line.
pub open spec fn head_fields(buf: Seq<u8>, room: nat) -> FieldsScan {
    match scan_request_line(buf) {
        RequestLine::Whole { method_end, path_end, minor_version } => scan_fields(
            buf,
            path_end + 1 + version_len(),
            room,
        ),
        RequestLine::Short => FieldsScan { fields: seq![], end: FieldsEnd::Short },
        RequestLine::Broken => FieldsScan { fields: seq![], end: FieldsEnd::Broken },
    }
}

/// What the bytes received so far amount to, with room for `room` headers.
pub open spec fn scan_head(buf: Seq<u8>, room: nat) -> HeadScan {
    let scan = head_fields(buf, room);
    match (scan_request_line(buf), scan.end) {
        (
            RequestLine::Whole { method_end, path_end, minor_version },
            FieldsEnd::At(consumed),
        ) => HeadScan::Complete(
            HeadLayout {
                method: (0, method_end),
                path: (method_end + 1, path_end),
                minor_version,
                fields: scan.fields,
                body_len: body_length(buf, (0, method_end), scan.fields),
                consumed,
            },
        ),
        (_, FieldsEnd::Broken) => HeadScan::Error,
        _ => HeadScan::Incomplete,
    }
}

/// Whether a range lies in a buffer of `len` bytes.
pub open spec fn in_bounds(range: (int, int), len: int) -> bool {
    0 <= range.0 <= range.1 <= len
}

/// Whether the ranges of a header lie in a buffer of `len` bytes.
pub open spec fn field_in_bounds(field: FieldSpan, len: int) -> bool {
    in_bounds(field.name, len) && in_bounds(field.value, len)
}

impl ParsedPositions {
    /// Whether these positions point into a buffer of `len` bytes, with the
    /// headers at the first of `positions`.
    pub open spec fn resolvable(self, len: int, positions: Seq<HeaderPos>) -> bool {
        &&& self.method.0 <= self.method.1 <= len
        &&& self.path.0 <= self.path.1 <= len
        &&& self.consumed <= len
        &&& self.num_headers <= positions.len()
        &&& forall|i: int|
            0 <= i < self.num_headers ==> field_in_bounds((#[trigger] positions[i])@, len)
    }

    /// The layout that these positions and those of the headers stand for.
    pub open spec fn layout(self, positions: Seq<HeaderPos>) -> HeadLayout {
        HeadLayout {
            method: (self.method.0 as int, self.method.1 as int),
            path: (self.path.0 as int, self.path.1 as int),
            minor_version: self.minor_version,
            fields: positions.take(self.num_headers as int).map_values(|p: HeaderPos| p@),
            body_len: self.body_len as nat,
            consumed: self.consumed as int,
        }
    }
}

/// The body that follows a head: as many bytes as were declared, or all there
/// are where fewer have arrived.
pub open spec fn body_of(buf: Seq<u8>, layout: HeadLayout) -> Seq<u8> {
    if layout.body_len < buf.len() - layout.consumed {
        buf.subrange(layout.consumed, layout.consumed + layout.body_len)
    } else {
        buf.skip(layout.consumed)
    }
}

/// The request that a layout finds in a buffer.
pub open spec fn request_at(buf: Seq<u8>, layout: HeadLayout) -> RequestView {
    RequestView {
        method: span(buf, layout.method),
        path: span(buf, layout.path),
        minor_version: layout.minor_version,
        headers: layout.fields.map_values(
            |f: FieldSpan| HeaderView { name: span(buf, f.name), value: span(buf, f.value) },
        ),
        body: body_of(buf, layout),
    }
}

impl ParsedPositions {
    /// Turns the recorded offsets into a borrowed `Request`, with the headers
    /// in `headers`. Call this once parsing is complete, not from a read loop.
    pub fn resolve<'b>(
        &self,
        buf: &'b [u8],
        header_positions: &[HeaderPos],
        headers: &'b mut [Header<'b>],
    ) -> (r: Request<'b>)
        requires
            self.resolvable(buf@.len() as int, header_positions@),
            self.num_headers <= old(headers)@.len(),
        ensures
            r@ == request_at(buf@, self.layout(header_positions@)),
            r.headers@ == final(headers)@.take(self.num_headers as int),
            final(headers)@.len() == old(headers)@.len(),
            final(headers)@.skip(self.num_headers as int) == old(headers)@.skip(
                self.num_headers as int,
            ),
    {
        let ghost slots = headers@;
        let mut i: usize = 0;
        while i < self.num_headers
            invariant
                i <= self.num_headers <= headers@.len(),
                headers@.len() == slots.len(),
                self.resolvable(buf@.len() as int, header_positions@),
                forall|j: int|
                    0 <= j < i ==> (#[trigger] headers@[j])@ == (HeaderView {
                        name: span(buf@, header_positions@[j]@.name),
                        value: span(buf@, header_positions@[j]@.value),
                    }),
                forall|j: int| i <= j < slots.len() ==> headers@[j] == slots[j],
            decreases self.num_headers - i,
        {
            let hp: HeaderPos = header_positions[i];
            assert(field_in_bounds(hp@, buf@.len() as int));
            headers[i] = Header {
                name: &buf[hp.name.0..hp.name.1],
                value: &buf[hp.value.0..hp.value.1],
            };
            i = i + 1;
        }
        let ghost layout = self.layout(header_positions@);
        let body = if self.body_len < buf.len() - self.consumed {
            &buf[self.consumed..self.consumed + self.body_len]
        } else {
            &buf[self.consumed..buf.len()]
        };
        assert(body@ =~= body_of(buf@, layout));
        let ghost filled = headers@;
        assert(filled.skip(self.num_headers as int) =~= slots.skip(self.num_headers as int));
        let r = Request {
            method: &buf[self.method.0..self.method.1],
            path: &buf[self.path.0..self.path.1],
            minor_version: self.minor_version,
            headers: &headers[0..self.num_headers],
            body,
        };
        assert(r.headers@ =~= filled.take(self.num_headers as int));
        assert(r@.headers =~= request_at(buf@, layout).headers) by {
            assert forall|j: int| 0 <= j < self.num_headers implies #[trigger] r@.headers[j]
                == request_at(buf@, layout).headers[j] by {
                assert(filled[j]@ == r@.headers[j]);
                assert(layout.fields[j] == header_positions@[j]@);
            }
        }
        r
    }
}

/// The headers found lie between the start of the header lines and their end,
/// and there are no more of them than there was room for.
pub proof fn lemma_fields_in_bounds(buf: Seq<u8>, p: int, room: nat)
    requires
        0 <= p <= buf.len(),
    ensures
        scan_fields(buf, p, room).fields.len() <= room,
        forall|i: int|
            0 <= i < scan_fields(buf, p, room).fields.len() ==> {
                let f = #[trigger] scan_fields(buf, p, room).fields[i];
                &&& p <= f.name.0 <= f.name.1 < f.value.0 <= f.value.1
                &&& field_in_bounds(f, buf.len() as int)
            },
        scan_fields(buf, p, room).end matches FieldsEnd::At(end) ==> {
            &&& p + 2 <= end <= buf.len()
            &&& forall|i: int|
                0 <= i < scan_fields(buf, p, room).fields.len() ==> (
                #[trigger] scan_fields(buf, p, room).fields[i]).value.1 + 4 <= end
        },
    decreases room,
{
    if buf.len() >= p + 2 && !line_break_at(buf, p) && room > 0 {
        if let FieldLine::Whole { field, next } = scan_field(buf, p) {
            lemma_field_line(buf, p);
            lemma_fields_in_bounds(buf, next, (room - 1) as nat);
            let rest = scan_fields(buf, next, (room - 1) as nat);
            let all = scan_fields(buf, p, room);
            assert(all.fields =~= seq![field] + rest.fields);
            assert forall|i: int| 0 <= i < all.fields.len() implies {
                let f = #[trigger] all.fields[i];
                &&& p <= f.name.0 <= f.name.1 < f.value.0 <= f.value.1
                &&& field_in_bounds(f, buf.len() as int)
                &&& all.end matches FieldsEnd::At(end) ==> f.value.1 + 4 <= end
            } by {
                if i > 0 {
                    assert(all.fields[i] == rest.fields[i - 1]);
                }
            }
        }
    }
}

/// The order of the parts of a whole header line.
pub proof fn lemma_field_line(buf: Seq<u8>, p: int)
    requires
        0 <= p <= buf.len(),
    ensures
        scan_field(buf, p) matches FieldLine::Whole { field, next } ==> {
            &&& field.name.0 == p
            &&& p <= field.name.1 < field.value.0 <= field.value.1
            &&& next == field.value.1 + 2
            &&& next <= buf.len()
        },
{
    lemma_find(buf, COLON, p);
    let colon = find(buf, COLON, p);
    if colon < buf.len() {
        lemma_skip_blanks(buf, colon + 1);
        lemma_find(buf, CR, skip_blanks(buf, colon + 1));
    }
}

/// The order of the parts of a whole first line.
pub proof fn lemma_request_line(buf: Seq<u8>)
    ensures
        scan_request_line(buf) matches RequestLine::Whole { method_end, path_end, minor_version }
            ==> {
            &&& 0 <= method_end < path_end
            &&& path_end + 1 + version_len() <= buf.len()
            &&& minor_version <= 1
        },
{
    lemma_find(buf, SPACE, 0);
    let method_end = find(buf, SPACE, 0);
    if method_end < buf.len() {
        lemma_find(buf, SPACE, method_end + 1);
    }
}

/// Looks for the head of a request at the start of `buf`, and notes in
/// `header_positions` where its headers lie. It can be called again on a
/// longer buffer for as long as the answer is `Incomplete`.
pub fn parse_request(buf: &[u8], header_positions: &mut [HeaderPos]) -> (status: ParseStatus)
    ensures
        final(header_positions)@.len() == old(header_positions)@.len(),
        match status {
            ParseStatus::Complete(p) => {
                &&& scan_head(buf@, old(header_positions)@.len()) == HeadScan::Complete(
                    p.layout(final(header_positions)@),
                )
                &&& p.resolvable(buf@.len() as int, final(header_positions)@)
            },
            ParseStatus::Incomplete => scan_head(buf@, old(header_positions)@.len())
                is Incomplete,
            ParseStatus::Error => scan_head(buf@, old(header_positions)@.len()) is Error,
        },
        forall|i: int|
            0 <= i < head_fields(buf@, old(header_positions)@.len()).fields.len() ==> (
            #[trigger] final(header_positions)@[i])@ == head_fields(
                buf@,
                old(header_positions)@.len(),
            ).fields[i],
        forall|i: int|
            head_fields(buf@, old(header_positions)@.len()).fields.len() <= i
                < old(header_positions)@.len() ==> #[trigger] final(header_positions)@[i]
                == old(header_positions)@[i],
{
    let ghost slots = header_positions@;
    let ghost room: nat = slots.len();
    proof {
        lemma_request_line(buf@);
    }
    let method_end = find_byte(buf, SPACE, 0);
    if method_end == buf.len() {
        return ParseStatus::Incomplete;
    }
    let path_start = method_end + 1;
    let path_end = find_byte(buf, SPACE, path_start);
    if path_end == buf.len() {
        return ParseStatus::Incomplete;
    }
    let version = path_end + 1;
    if buf.len() - version < 10 {
        return ParseStatus::Incomplete;
    }
    proof {
        reveal_strlit("HTTP/1.");
        reveal_strlit("GET");
        reveal_strlit("content-length");
    }
    if !bytes_eq(&buf[version..version + 7], ascii_bytes("HTTP/1.")) {
        return ParseStatus::Error;
    }
    let digit: u8 = buf[version + 7];
    if digit != ZERO && digit != ZERO + 1 {
        return ParseStatus::Error;
    }
    let minor_version: u8 = digit - ZERO;
    if buf[version + 8] != CR || buf[version + 9] != LF {
        return ParseStatus::Error;
    }
    let first: usize = version + 10;
    let mut pos: usize = first;
    let mut num_headers: usize = 0;
    let is_get = bytes_eq(&buf[0..method_end], ascii_bytes("GET"));
    let mut body_len: usize = 0;
    let ghost mut done: Seq<FieldSpan> = seq![];
    assert(scan_request_line(buf@) == RequestLine::Whole {
        method_end: method_end as int,
        path_end: path_end as int,
        minor_version,
    });
    assert(head_fields(buf@, room) == scan_fields(buf@, first as int, room));
    assert(seq![] + scan_fields(buf@, first as int, room).fields =~= scan_fields(
        buf@,
        first as int,
        room,
    ).fields);
    assert(body_length(buf@, (0, method_end as int), done) == 0);
    loop
        invariant_except_break
            first <= pos <= buf@.len(),
            head_fields(buf@, room).end == scan_fields(
                buf@,
                pos as int,
                (room - num_headers) as nat,
            ).end,
            head_fields(buf@, room).fields == done + scan_fields(
                buf@,
                pos as int,
                (room - num_headers) as nat,
            ).fields,
        invariant
            slots == old(header_positions)@,
            room == slots.len(),
            header_positions@.len() == slots.len(),
            num_headers == done.len(),
            num_headers <= slots.len(),
            method_end < path_start <= path_end < buf@.len(),
            path_start == method_end + 1,
            first <= buf@.len(),
            is_get == (span(buf@, (0, method_end as int)) == ascii("GET"@)),
            body_len == body_length(buf@, (0, method_end as int), done),
            is_ascii("content-length"),
            scan_request_line(buf@) == (RequestLine::Whole {
                method_end: method_end as int,
                path_end: path_end as int,
                minor_version,
            }),
            head_fields(buf@, room) == scan_fields(buf@, first as int, room),
            forall|i: int| 0 <= i < done.len() ==> (#[trigger] header_positions@[i])@ == done[i],
            forall|i: int|
                done.len() <= i < slots.len() ==> #[trigger] header_positions@[i] == slots[i],
        ensures
            head_fields(buf@, room).end == FieldsEnd::At(pos as int),
            head_fields(buf@, room).fields == done,
        decreases buf@.len() - pos,
    {
        let ghost here = scan_fields(buf@, pos as int, (room - num_headers) as nat);
        if buf.len() - pos < 2 {
            assert(done + here.fields =~= done);
            return ParseStatus::Incomplete;
        }
        if buf[pos] == CR && buf[pos + 1] == LF {
            assert(done + here.fields =~= done);
            pos = pos + 2;
            break;
        }
        if num_headers == header_positions.len() {
            assert(done + here.fields =~= done);
            return ParseStatus::Error;
        }
        proof {
            lemma_field_line(buf@, pos as int);
        }
        let name_end = find_byte(buf, COLON, pos);
        if name_end == buf.len() {
            assert(done + here.fields =~= done);
            return ParseStatus::Incomplete;
        }
        let value_start = skip_blank_bytes(buf, name_end + 1);
        let line_end = find_byte(buf, CR, value_start);
        if buf.len() - line_end < 2 {
            assert(done + here.fields =~= done);
            return ParseStatus::Incomplete;
        }
        if buf[line_end + 1] != LF {
            assert(done + here.fields =~= done);
            return ParseStatus::Error;
        }
        let ghost field = FieldSpan {
            name: (pos as int, name_end as int),
            value: (value_start as int, line_end as int),
        };
        if !is_get && eq_ignore_case(&buf[pos..name_end], ascii_bytes("content-length")) {
            body_len = parse_number(&buf[value_start..line_end]);
        }
        header_positions[num_headers] = HeaderPos {
            name: (pos, name_end),
            value: (value_start, line_end),
        };
        proof {
            let before = done;
            done = done.push(field);
            assert(done.drop_last() =~= before);
            assert(header_positions@[num_headers as int]@ == field);
            let rest = scan_fields(buf@, line_end + 2, (room - num_headers - 1) as nat);
            assert(before + (seq![field] + rest.fields) =~= done + rest.fields);
        }
        num_headers = num_headers + 1;
        pos = line_end + 2;
    }
    let p = ParsedPositions {
        method: (0, method_end),
        path: (path_start, path_end),
        minor_version,
        num_headers,
        body_len,
        consumed: pos,
    };
    proof {
        lemma_fields_in_bounds(buf@, first as int, room);
        assert(p.layout(header_positions@).fields =~= done);
    }
    ParseStatus::Complete(p)
}

} // verus!
