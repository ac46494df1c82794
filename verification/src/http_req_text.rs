//! A request as text, for a log.

use crate::bytes::{decimal, decimal_bytes, law_decimal_reads_back};
use crate::http_req::{HeaderView, Request, RequestView};
use crate::text::{decode_lossy, lemma_ascii_is_utf8, lossy_utf8};
use vstd::prelude::*;
use vstd::string::*;
use vstd::utf8::*;

verus! {

/// How much of a body is shown.
pub const SHOWN_BODY: usize = 20;

/// The decimal digits of `n`, as text.
pub open spec fn decimal_text(n: nat) -> Seq<char> {
    decimal(n).map_values(|b: u8| b as char)
}

/// One line for each header.
pub open spec fn header_lines(headers: Seq<(Seq<char>, Seq<char>)>) -> Seq<char>
    decreases headers.len(),
{
    if headers.len() == 0 {
        seq![]
    } else {
        header_lines(headers.drop_last()) + headers.last().0 + ": "@ + headers.last().1 + "\n"@
    }
}

/// The first line, a line for each header, and the start of the body.
pub open spec fn request_lines(
    method: Seq<char>,
    path: Seq<char>,
    minor_version: u8,
    headers: Seq<(Seq<char>, Seq<char>)>,
    body: Seq<char>,
) -> Seq<char> {
    method + " "@ + path + " HTTP/1."@ + decimal_text(minor_version as nat) + "\n"@ + header_lines(
        headers,
    ) + body + "\n"@
}

/// The first bytes of a body, no more than are shown.
pub open spec fn shown_body(body: Seq<u8>) -> Seq<u8> {
    if body.len() > SHOWN_BODY {
        body.take(SHOWN_BODY as int)
    } else {
        body
    }
}

/// A request as text: what is not valid UTF-8 shows as replacement characters.
pub open spec fn request_text(r: RequestView) -> Seq<char> {
    request_lines(
        lossy_utf8(r.method),
        lossy_utf8(r.path),
        r.minor_version,
        r.headers.map_values(|h: HeaderView| (lossy_utf8(h.name), lossy_utf8(h.value))),
        lossy_utf8(shown_body(r.body)),
    )
}

/// Whether all that is shown of a request is valid UTF-8.
pub open spec fn shown_is_utf8(r: RequestView) -> bool {
    &&& valid_utf8(r.method)
    &&& valid_utf8(r.path)
    &&& forall|i: int|
        0 <= i < r.headers.len() ==> valid_utf8((#[trigger] r.headers[i]).name) && valid_utf8(
            r.headers[i].value,
        )
    &&& valid_utf8(shown_body(r.body))
}

/// A request as text, every part decoded as it stands.
pub open spec fn decoded_text(r: RequestView) -> Seq<char> {
    request_lines(
        decode_utf8(r.method),
        decode_utf8(r.path),
        r.minor_version,
        r.headers.map_values(|h: HeaderView| (decode_utf8(h.name), decode_utf8(h.value))),
        decode_utf8(shown_body(r.body)),
    )
}

fn number_text(n: u8) -> (r: String)
    ensures
        r@ == decimal_text(n as nat),
{
    let digits = decimal_bytes(n as u16);
    proof {
        law_decimal_reads_back(n as nat);
        lemma_ascii_is_utf8(digits@);
    }
    decode_lossy(digits.as_slice())
}

/// The first line, a line for each header, and the start of the body.
pub fn format_request(
    method: &str,
    path: &str,
    minor_version: u8,
    headers: &[(String, String)],
    body: &str,
) -> (r: String)
    ensures
        r@ == request_lines(
            method@,
            path@,
            minor_version,
            headers@.map_values(|h: (String, String)| (h.0@, h.1@)),
            body@,
        ),
{
    let mut text = String::new();
    text.append(method);
    text.append(" ");
    text.append(path);
    text.append(" HTTP/1.");
    let digits = number_text(minor_version);
    text.append(digits.as_str());
    text.append("\n");
    let ghost start = text@;
    let ghost pairs = headers@.map_values(|h: (String, String)| (h.0@, h.1@));
    assert(pairs.take(0) =~= seq![]);
    assert(start =~= start + header_lines(pairs.take(0)));
    let mut i: usize = 0;
    while i < headers.len()
        invariant
            i <= headers@.len(),
            pairs == headers@.map_values(|h: (String, String)| (h.0@, h.1@)),
            text@ == start + header_lines(pairs.take(i as int)),
        decreases headers@.len() - i,
    {
        let ghost before = text@;
        text.append(headers[i].0.as_str());
        text.append(": ");
        text.append(headers[i].1.as_str());
        text.append("\n");
        i = i + 1;
        proof {
            let done = pairs.take(i as int);
            assert(done.drop_last() =~= pairs.take(i - 1));
            assert(done.last() == pairs[i - 1]);
            assert(text@ =~= start + header_lines(done));
        }
    }
    assert(pairs.take(i as int) =~= pairs);
    text.append(body);
    text.append("\n");
    assert(text@ =~= request_lines(method@, path@, minor_version, pairs, body@));
    text
}

impl<'b> Request<'b> {
    /// The request as text: its first line, its headers, and the start of its
    /// body, with replacement characters for what is not valid UTF-8.
    pub fn to_string(&self) -> (r: String)
        ensures
            r@ == request_text(self@),
            shown_is_utf8(self@) ==> r@ == decoded_text(self@),
    {
        let method = decode_lossy(self.method);
        let path = decode_lossy(self.path);
        let mut headers: Vec<(String, String)> = Vec::new();
        let ghost shown = self@.headers.map_values(
            |h: HeaderView| (lossy_utf8(h.name), lossy_utf8(h.value)),
        );
        let mut i: usize = 0;
        while i < self.headers.len()
            invariant
                i <= self.headers@.len(),
                i == headers@.len(),
                shown == self@.headers.map_values(
                    |h: HeaderView| (lossy_utf8(h.name), lossy_utf8(h.value)),
                ),
                forall|j: int|
                    0 <= j < i ==> ((#[trigger] headers@[j]).0@, headers@[j].1@) == shown[j],
                shown_is_utf8(self@) ==> forall|j: int|
                    0 <= j < i ==> #[trigger] shown[j] == (
                        decode_utf8(self@.headers[j].name),
                        decode_utf8(self@.headers[j].value),
                    ),
            decreases self.headers@.len() - i,
        {
            let name = decode_lossy(self.headers[i].name);
            let value = decode_lossy(self.headers[i].value);
            assert(self@.headers[i as int] == self.headers@[i as int]@);
            headers.push((name, value));
            i = i + 1;
        }
        let len: usize = if self.body.len() > SHOWN_BODY {
            SHOWN_BODY
        } else {
            self.body.len()
        };
        let start = &self.body[0..len];
        assert(start@ =~= shown_body(self.body@));
        let body = decode_lossy(start);
        assert(headers@.map_values(|h: (String, String)| (h.0@, h.1@)) =~= shown);
        proof {
            if shown_is_utf8(self@) {
                assert(shown =~= self@.headers.map_values(
                    |h: HeaderView| (decode_utf8(h.name), decode_utf8(h.value)),
                ));
            }
        }
        format_request(
            method.as_str(),
            path.as_str(),
            self.minor_version,
            headers.as_slice(),
            body.as_str(),
        )
    }
}

} // verus!
