//! How far the request has come that is being received.

use crate::http_req::{
    head_fields, parse_request, request_at, scan_head, FieldSpan, HeadScan, HeaderPos, ParseStatus,
    ParsedPositions, RequestView,
};
use crate::http_req_laws::{law_layout_in_bounds, law_request_stays, law_verdict_stays};
use vstd::prelude::*;

verus! {

/// The size of a request buffer.
pub const REQUEST_SIZE: usize = 4096;

/// How far a request has come.
pub enum Received {
    /// All of it is there.
    Whole(ParsedPositions),
    /// The end of the head is still missing.
    HeadMissing,
    /// The head is there, the end of the body is still missing.
    BodyMissing,
    /// This is no request that is understood here.
    Refused,
    /// The end of the request lies beyond what an offset can say.
    LengthOverflow,
}

/// How far a request has come.
pub enum Progress {
    Whole(RequestView),
    HeadMissing,
    BodyMissing,
    Refused,
    LengthOverflow,
}

/// What the bytes received so far are, with room for `room` headers.
pub open spec fn progress(bytes: Seq<u8>, room: nat) -> Progress {
    match scan_head(bytes, room) {
        HeadScan::Complete(l) => {
            if l.consumed + l.body_len > usize::MAX {
                Progress::LengthOverflow
            } else if bytes.len() < l.consumed + l.body_len {
                Progress::BodyMissing
            } else {
                Progress::Whole(request_at(bytes, l))
            }
        },
        HeadScan::Incomplete => Progress::HeadMissing,
        HeadScan::Error => Progress::Refused,
    }
}

/// Whether `after` is `before` with the positions of those headers noted at its
/// start.
pub open spec fn noted(
    before: Seq<HeaderPos>,
    after: Seq<HeaderPos>,
    fields: Seq<FieldSpan>,
) -> bool {
    &&& after.len() == before.len()
    &&& forall|i: int| 0 <= i < fields.len() ==> (#[trigger] after[i])@ == fields[i]
    &&& forall|i: int| fields.len() <= i < before.len() ==> #[trigger] after[i] == before[i]
}

/// Looks at all the bytes received so far, and notes in `header_positions`
/// where the headers lie.
pub fn assess(bytes: &[u8], header_positions: &mut [HeaderPos]) -> (r: Received)
    ensures
        match (r, progress(bytes@, old(header_positions)@.len())) {
            (Received::Whole(p), Progress::Whole(request)) => {
                &&& p.resolvable(bytes@.len() as int, final(header_positions)@)
                &&& request_at(bytes@, p.layout(final(header_positions)@)) == request
            },
            (Received::HeadMissing, Progress::HeadMissing) => true,
            (Received::BodyMissing, Progress::BodyMissing) => true,
            (Received::Refused, Progress::Refused) => true,
            (Received::LengthOverflow, Progress::LengthOverflow) => true,
            _ => false,
        },
        noted(
            old(header_positions)@,
            final(header_positions)@,
            head_fields(bytes@, old(header_positions)@.len()).fields,
        ),
{
    match parse_request(bytes, header_positions) {
        ParseStatus::Complete(p) => match p.consumed.checked_add(p.body_len) {
            Some(end) => if bytes.len() < end {
                Received::BodyMissing
            } else {
                Received::Whole(p)
            },
            None => Received::LengthOverflow,
        },
        ParseStatus::Incomplete => Received::HeadMissing,
        ParseStatus::Error => Received::Refused,
    }
}

/// A request that is whole stays the request that it is, and one that cannot
/// be received stays so, whatever bytes follow.
pub proof fn law_progress_stays(bytes: Seq<u8>, more: Seq<u8>, room: nat)
    ensures
        !(progress(bytes, room) is HeadMissing) && !(progress(bytes, room) is BodyMissing)
            ==> progress(bytes + more, room) == progress(bytes, room),
        progress(bytes, room) is BodyMissing ==> !(progress(bytes + more, room) is HeadMissing)
            && !(progress(bytes + more, room) is Refused),
{
    law_verdict_stays(bytes, more, room);
    law_request_stays(bytes, more, room);
    law_layout_in_bounds(bytes, room);
}

} // verus!
