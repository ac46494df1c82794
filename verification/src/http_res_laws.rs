//! What holds of a response that is written, byte for byte.

use crate::bytes::{ascii, decimal, number_value};
use crate::bytes_laws::law_decimal_has_no_leading_zero;
use crate::http_res::{
    appended, body_bytes, header_line_bytes, status_line_bytes, text_header_bytes,
};
use crate::sink::{clipped, fits, ByteSink, ResponseBuf, RESPONSE_SIZE};
use crate::text::lossy_utf8;
use vstd::prelude::*;
use vstd::utf8::*;

verus! {

/// A status line starts with the version, then come the code, in decimal digits
/// without leading zeros, a space, the reason as it stands, and a line break.
pub proof fn law_status_line_parts(code: u16, reason: Seq<u8>)
    ensures
        ({
            let line = status_line_bytes(code, reason);
            let end = line.len() - 3 - reason.len();
            let digits = line.subrange(9, end);
            &&& end > 9
            &&& line.take(9) == ascii("HTTP/1.1 "@)
            &&& forall|i: int| 9 <= i < end ==> 48 <= #[trigger] line[i] <= 57
            &&& number_value(digits) == code
            &&& line[9] == 48 <==> code == 0
            &&& line[end] == 32
            &&& line.subrange(end + 1, end + 1 + reason.len()) == reason
            &&& line[line.len() - 2] == 13
            &&& line[line.len() - 1] == 10
        }),
{
    reveal_strlit("HTTP/1.1 ");
    law_decimal_has_no_leading_zero(code as nat);
    let d = decimal(code as nat);
    let line = status_line_bytes(code, reason);
    let end = line.len() - 3 - reason.len();
    assert(line.take(9) =~= ascii("HTTP/1.1 "@));
    assert(line.subrange(9, end) =~= d);
    assert forall|i: int| 9 <= i < end implies 48 <= #[trigger] line[i] <= 57 by {
        assert(line[i] == d[i - 9]);
    }
    assert(line[9] == d[0]);
    assert(line.subrange(end + 1, end + 1 + reason.len()) =~= reason);
}

/// A header line holds the name, a colon, a space, the value and a line break;
/// the body stands behind an empty line, as it is.
pub proof fn law_header_and_body_parts(name: Seq<u8>, value: Seq<u8>, body: Seq<u8>)
    ensures
        header_line_bytes(name, value).len() == name.len() + value.len() + 4,
        header_line_bytes(name, value).take(name.len() as int) == name,
        header_line_bytes(name, value)[name.len() as int] == 58,
        header_line_bytes(name, value)[name.len() + 1int] == 32,
        header_line_bytes(name, value).subrange(
            name.len() + 2int,
            name.len() + 2int + value.len(),
        ) == value,
        header_line_bytes(name, value)[name.len() + 2int + value.len()] == 13,
        header_line_bytes(name, value)[name.len() + 3int + value.len()] == 10,
        body_bytes(body).len() == body.len() + 2,
        body_bytes(body)[0] == 13,
        body_bytes(body)[1] == 10,
        body_bytes(body).skip(2) == body,
{
    let line = header_line_bytes(name, value);
    let n = name.len() as int;
    assert(line.take(n) =~= name);
    assert(line.subrange(n + 2, n + 2 + value.len()) =~= value);
    assert(body_bytes(body).skip(2) =~= body);
}

/// A header is written as the line of the text that its bytes stand for, the
/// name before the value.
pub proof fn law_header_is_written_as_text(name: Seq<u8>, value: Seq<u8>)
    ensures
        text_header_bytes(name, value) == encode_utf8(lossy_utf8(name)) + seq![58u8, 32u8]
            + encode_utf8(lossy_utf8(value)) + seq![13u8, 10u8],
{
}

/// What is written goes behind what was written before, as far as there is
/// room, and the room in all stays what it is.
pub proof fn law_written_behind<W: ByteSink>(before: W, after: W, part: Seq<u8>)
    requires
        appended(before, after, part),
    ensures
        after.wf(),
        after.capacity() == before.capacity(),
        match before.capacity() {
            None => after.written() == before.written() + part,
            Some(n) => {
                &&& before.written().len() + part.len() <= n ==> after.written()
                    == before.written() + part
                &&& n < before.written().len() + part.len() ==> {
                    &&& after.written().len() == n
                    &&& after.written() == (before.written() + part).take(n as int)
                }
            },
        },
{
}

/// Two parts written one after the other are as good as both written at once.
pub proof fn law_parts_add_up<W: ByteSink>(
    before: W,
    between: W,
    after: W,
    first: Seq<u8>,
    second: Seq<u8>,
)
    requires
        appended(before, between, first),
        appended(between, after, second),
    ensures
        appended(before, after, first + second),
{
    let all = before.written() + first;
    assert(before.written() + (first + second) =~= all + second);
    if !fits(before.capacity(), all) {
        let n = before.capacity()->0 as int;
        assert((all.take(n) + second).take(n) =~= (all + second).take(n));
        if fits(before.capacity(), all.take(n) + second) {
            assert(all.take(n) + second =~= all.take(n));
            assert((all + second).take(n) =~= all.take(n));
        }
    }
}

/// As much goes in as there is room for, from the start.
pub proof fn law_room_decides(capacity: nat, bytes: Seq<u8>)
    ensures
        fits(None, bytes),
        clipped(None, bytes) == bytes,
        fits(Some(capacity), bytes) <==> bytes.len() <= capacity,
        clipped(Some(capacity), bytes).len() == if bytes.len() <= capacity {
            bytes.len()
        } else {
            capacity
        },
        forall|i: int|
            0 <= i < clipped(Some(capacity), bytes).len() ==> #[trigger] clipped(
                Some(capacity),
                bytes,
            )[i] == bytes[i],
{
}

/// A growing buffer holds what was written and has room for any more; one of
/// fixed size holds it at its start, followed by zeros, and never more than its
/// size.
pub proof fn law_buffers_hold_what_was_written(growing: Vec<u8>, fixed: ResponseBuf)
    requires
        fixed.wf(),
    ensures
        growing.wf(),
        growing.written() == growing@,
        ByteSink::capacity(&growing) is None,
        fixed.capacity() == Some(RESPONSE_SIZE as nat),
        fixed.written().len() == fixed.len,
        fixed.len <= RESPONSE_SIZE,
        forall|i: int| 0 <= i < fixed.len ==> #[trigger] fixed.written()[i] == fixed.bytes@[i],
        forall|i: int| fixed.len <= i < RESPONSE_SIZE ==> #[trigger] fixed.bytes@[i] == 0,
{
}

} // verus!
