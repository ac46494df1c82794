//! What holds of a request that is shown as text.

use crate::bytes::decimal;
use crate::http_req::{HeaderView, RequestView};
use crate::http_req_text::{
    decimal_text, decoded_text, request_lines, request_text, shown_body, shown_is_utf8,
};
use crate::text::lossy_utf8;
use vstd::prelude::*;
use vstd::utf8::*;

verus! {

/// The text between the path and the version number.
pub open spec fn version_text() -> Seq<char> {
    seq![' ', 'H', 'T', 'T', 'P', '/', '1', '.']
}

/// The text without headers: method, path and version on the first line, the
/// body on the second.
pub open spec fn bare_text(
    method: Seq<char>,
    path: Seq<char>,
    version: Seq<char>,
    body: Seq<char>,
) -> Seq<char> {
    method + seq![' '] + path + version_text() + version + seq!['\n'] + body + seq!['\n']
}

/// The text with one more line before the body.
pub open spec fn with_line(
    text: Seq<char>,
    name: Seq<char>,
    value: Seq<char>,
    body: Seq<char>,
) -> Seq<char> {
    text.take(text.len() - body.len() - 1) + (name + seq![':', ' '] + value + seq!['\n'] + body
        + seq!['\n'])
}

proof fn lemma_separators()
    ensures
        " "@ == seq![' '],
        " HTTP/1."@ == version_text(),
        ": "@ == seq![':', ' '],
        "\n"@ == seq!['\n'],
{
    reveal_strlit(" ");
    reveal_strlit(" HTTP/1.");
    reveal_strlit(": ");
    reveal_strlit("\n");
    assert(" "@ =~= seq![' ']);
    assert(" HTTP/1."@ =~= version_text());
    assert(": "@ =~= seq![':', ' ']);
    assert("\n"@ =~= seq!['\n']);
}

/// Lines show the method, the path and the version first, each header on a line
/// of its own, in order, and the body last: without headers they are the first
/// line and the body, and one more header adds one more line right before the
/// body.
pub proof fn law_lines_come_in_order(
    method: Seq<char>,
    path: Seq<char>,
    minor_version: u8,
    headers: Seq<(Seq<char>, Seq<char>)>,
    header: (Seq<char>, Seq<char>),
    body: Seq<char>,
)
    ensures
        request_lines(method, path, minor_version, seq![], body) == bare_text(
            method,
            path,
            decimal_text(minor_version as nat),
            body,
        ),
        request_lines(method, path, minor_version, headers.push(header), body) == with_line(
            request_lines(method, path, minor_version, headers, body),
            header.0,
            header.1,
            body,
        ),
{
    lemma_separators();
    assert(request_lines(method, path, minor_version, seq![], body) =~= bare_text(
        method,
        path,
        decimal_text(minor_version as nat),
        body,
    ));
    assert(headers.push(header).drop_last() =~= headers);
    let text = request_lines(method, path, minor_version, headers, body);
    assert(request_lines(method, path, minor_version, headers.push(header), body) =~= with_line(
        text,
        header.0,
        header.1,
        body,
    ));
}

/// The digits of a number are shown one character each.
pub proof fn law_digits_are_shown(n: nat, i: int)
    ensures
        decimal_text(n).len() == decimal(n).len(),
        0 <= i < decimal(n).len() ==> decimal_text(n)[i] as int == decimal(n)[i] as int,
{
}

/// The first twenty bytes of a body are shown, or all of it where it is shorter.
pub proof fn law_start_of_body_is_shown(body: Seq<u8>)
    ensures
        body.len() <= 20 ==> shown_body(body) == body,
        body.len() > 20 ==> shown_body(body) == body.take(20),
{
}

/// A request is shown with every part turned into text for itself: without
/// headers as its first line and the start of its body, and with one more
/// header as one more line right before the body.
pub proof fn law_request_is_shown(
    r: RequestView,
    bare: RequestView,
    more: RequestView,
    h: HeaderView,
)
    requires
        bare == (RequestView { headers: seq![], ..r }),
        more == (RequestView { headers: r.headers.push(h), ..r }),
    ensures
        request_text(bare) == bare_text(
            lossy_utf8(r.method),
            lossy_utf8(r.path),
            decimal_text(r.minor_version as nat),
            lossy_utf8(shown_body(r.body)),
        ),
        request_text(more) == with_line(
            request_text(r),
            lossy_utf8(h.name),
            lossy_utf8(h.value),
            lossy_utf8(shown_body(r.body)),
        ),
{
    let turn = |x: HeaderView| (lossy_utf8(x.name), lossy_utf8(x.value));
    let shown = r.headers.map_values(turn);
    let body = lossy_utf8(shown_body(r.body));
    law_lines_come_in_order(
        lossy_utf8(r.method),
        lossy_utf8(r.path),
        r.minor_version,
        shown,
        turn(h),
        body,
    );
    assert(bare.headers.map_values(turn) =~= seq![]);
    assert(more.headers.map_values(turn) =~= shown.push(turn(h)));
}

/// A request whose parts are valid UTF-8 is shown with every part decoded as it
/// stands: without headers as its first line and the start of its body, and
/// with one more header as one more line right before the body.
pub proof fn law_valid_request_is_shown_as_it_is(
    r: RequestView,
    bare: RequestView,
    more: RequestView,
    h: HeaderView,
)
    requires
        bare == (RequestView { headers: seq![], ..r }),
        more == (RequestView { headers: r.headers.push(h), ..r }),
    ensures
        decoded_text(bare) == bare_text(
            decode_utf8(r.method),
            decode_utf8(r.path),
            decimal_text(r.minor_version as nat),
            decode_utf8(shown_body(r.body)),
        ),
        decoded_text(more) == with_line(
            decoded_text(r),
            decode_utf8(h.name),
            decode_utf8(h.value),
            decode_utf8(shown_body(r.body)),
        ),
        shown_is_utf8(bare) <==> valid_utf8(r.method) && valid_utf8(r.path) && valid_utf8(
            shown_body(r.body),
        ),
        shown_is_utf8(more) <==> shown_is_utf8(r) && valid_utf8(h.name) && valid_utf8(h.value),
{
    let turn = |x: HeaderView| (decode_utf8(x.name), decode_utf8(x.value));
    let shown = r.headers.map_values(turn);
    let body = decode_utf8(shown_body(r.body));
    law_lines_come_in_order(
        decode_utf8(r.method),
        decode_utf8(r.path),
        r.minor_version,
        shown,
        turn(h),
        body,
    );
    assert(bare.headers.map_values(turn) =~= seq![]);
    assert(more.headers.map_values(turn) =~= shown.push(turn(h)));
    let k = r.headers.len() as int;
    assert(more.headers[k] == h);
    assert forall|i: int| 0 <= i < k implies more.headers[i] == r.headers[i] by {}
    if shown_is_utf8(more) {
        assert forall|i: int| 0 <= i < k implies valid_utf8((#[trigger] r.headers[i]).name)
            && valid_utf8(r.headers[i].value) by {
            assert(valid_utf8(more.headers[i].name));
        }
    }
}

} // verus!
