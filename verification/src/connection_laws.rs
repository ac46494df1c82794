//! What holds of a connection from the request to the end of its response, and
//! of the table that it stands in.

use crate::connections::{events_after, has_slot, same_elsewhere, settled, table_wf, Slots};
use crate::epoll::{fd_of, listener_mask, read_mask, token_of, write_mask, ConnState, Connection};
use crate::head_laws::{sendable_headers, spaced_request};
use crate::http_req::{FieldSpan, HeaderPos, RequestView, MAX_HEADERS};
use crate::http_req_laws::sendable;
use crate::received::{noted, REQUEST_SIZE};
use crate::server::{
    keeps_alive, read_verdict, response_bytes, write_verdict, IoEvent, ReadOutcome, ReadStep,
    ReadVerdict, WriteStep,
};
use crate::sink::RESPONSE_SIZE;
use crate::turn_laws::{
    is_harmless, law_request_in_pieces_is_answered, law_response_in_pieces_is_sent, moved,
};
use vstd::prelude::*;

verus! {

/// A step comes to the verdict of its name; one that answers a request comes to
/// an answer that keeps the connection or not as the answer itself says.
pub proof fn law_step_and_verdict(step: ReadStep, kept: bool)
    ensures
        step.verdict() == ReadVerdict::Read <==> step == ReadStep::Read,
        step.verdict() == ReadVerdict::Pending <==> step == ReadStep::Done(ReadOutcome::Pending),
        step.verdict() == ReadVerdict::Close <==> step == ReadStep::Done(ReadOutcome::Close),
        step.verdict() == ReadVerdict::Reset <==> step == ReadStep::Done(ReadOutcome::Reset),
        step.verdict() == ReadVerdict::LengthOverflow <==> step == ReadStep::LengthOverflow,
        step.verdict() == ReadVerdict::Respond(kept) <==> (step matches ReadStep::Done(
            ReadOutcome::Response { buf, len, keep_alive },
        ) && keep_alive == kept),
{
}

/// The bytes that a turn hands over to be sent are the response and nothing
/// else, and say the same of the connection as the turn does.
pub proof fn law_outcome_holds_the_response(outcome: ReadOutcome)
    requires
        outcome.wf(),
    ensures
        outcome matches ReadOutcome::Response { buf, len, keep_alive } ==> {
            &&& len == response_bytes(keep_alive).len()
            &&& len <= RESPONSE_SIZE
            &&& forall|i: int|
                0 <= i < len ==> #[trigger] buf@[i] == response_bytes(keep_alive)[i]
            &&& forall|i: int| len <= i < RESPONSE_SIZE ==> #[trigger] buf@[i] == 0
        },
{
    if let ReadOutcome::Response { buf, len, keep_alive } = outcome {
        assert forall|i: int| 0 <= i < len implies #[trigger] buf@[i] == response_bytes(
            keep_alive,
        )[i] by {
            assert(buf@.take(len as int)[i] == buf@[i]);
        }
    }
}

/// What becomes of a connection: after a turn that waits it is as it was; after
/// one that closes it is gone; after one that resets it is ready for the next
/// request, as if new, on the same stream; after one that answers it has the
/// answer to send, nothing of it sent yet, to be kept or not as the answer says.
/// Where there is no connection, none comes to be.
pub proof fn law_turn_is_settled<T>(
    before: Option<Connection<T>>,
    outcome: ReadOutcome,
    after: Option<Connection<T>>,
)
    requires
        settled(before, outcome, after),
    ensures
        before is None ==> after is None,
        outcome is Pending ==> after == before,
        outcome is Close ==> after is None,
        before is Some && outcome is Reset ==> {
            &&& after is Some
            &&& after->0.stream == before->0.stream
            &&& after->0.state matches ConnState::Reading { buf, read_bytes, header_positions }
            &&& read_bytes == 0
            &&& forall|i: int| 0 <= i < REQUEST_SIZE ==> #[trigger] buf@[i] == 0
            &&& forall|i: int|
                0 <= i < MAX_HEADERS ==> (#[trigger] header_positions@[i]).name == (
                    0usize,
                    0usize,
                ) && header_positions@[i].value == (0usize, 0usize)
        },
        before is Some ==> (outcome matches ReadOutcome::Response { buf, len, keep_alive } ==> {
            &&& after is Some
            &&& after->0.stream == before->0.stream
            &&& after->0.state matches ConnState::Writing {
                buf: to_send,
                len: length,
                written_bytes,
                keep_alive: kept,
            }
            &&& to_send == buf
            &&& length == len
            &&& written_bytes == 0
            &&& kept == keep_alive
        }),
{
}

/// A turn can be settled in one way only, but for what a new state is made of.
pub proof fn law_turn_settles_one_way<T>(
    before: Option<Connection<T>>,
    outcome: ReadOutcome,
    after: Option<Connection<T>>,
    other: Option<Connection<T>>,
)
    requires
        settled(before, outcome, after),
        settled(before, outcome, other),
    ensures
        !(outcome is Reset) ==> after == other,
        after is Some <==> other is Some,
{
}

/// The events that a connection waits for follow what it does: it waits to be
/// readable, by changes, once it is ready for the next request; to be writable,
/// by changes, once it has an answer to send; and nothing changes where it goes
/// on as before or is gone.
pub proof fn law_events_follow_the_turn(outcome: ReadOutcome)
    ensures
        outcome is Pending || outcome is Close <==> events_after(outcome) is None,
        outcome is Reset <==> events_after(outcome) == Some(0x8000_0001u32),
        outcome is Response <==> events_after(outcome) == Some(0x8000_0004u32),
        listener_mask() == 0x0000_0001,
        read_mask() == 0x8000_0001,
        write_mask() == 0x8000_0004,
{
}

/// A request that arrives in any pieces is answered on its connection, the
/// answer goes out in any pieces, and the connection ends as the request asked:
/// it is closed where a header says `close`, else it is ready for the next
/// request, as if new, on the same stream.
pub proof fn law_connection_ends_as_asked<T>(
    r: RequestView,
    gaps: Seq<Seq<u8>>,
    received: Seq<u8>,
    reads: Seq<IoEvent>,
    step: ReadStep,
    connection: Connection<T>,
    sending: Option<Connection<T>>,
    writes: Seq<IoEvent>,
    done: WriteStep,
    ended: Option<Connection<T>>,
)
    requires
        sendable(r),
        sendable_headers(r.headers, gaps),
        r.headers.len() <= MAX_HEADERS,
        received.len() == REQUEST_SIZE,
        spaced_request(r, gaps).len() <= REQUEST_SIZE,
        received.take(spaced_request(r, gaps).len() as int) == spaced_request(r, gaps),
        reads.len() > 0,
        forall|i: int| 0 <= i < reads.len() ==> is_harmless(#[trigger] reads[i]),
        moved(reads.drop_last()) < spaced_request(r, gaps).len() <= moved(reads) <= REQUEST_SIZE,
        step.wf(),
        step.verdict() == read_verdict(
            received,
            moved(reads.drop_last()) as usize,
            reads.last(),
        ),
        step matches ReadStep::Done(outcome) ==> settled(Some(connection), outcome, sending),
        writes.len() > 0,
        forall|i: int| 0 <= i < writes.len() ==> is_harmless(#[trigger] writes[i]),
        moved(writes.drop_last()) < moved(writes),
        sending matches Some(c) ==> (c.state matches ConnState::Writing {
            buf,
            len,
            written_bytes,
            keep_alive,
        } ==> {
            &&& moved(writes) == len
            &&& done == write_verdict(
                len,
                moved(writes.drop_last()) as usize,
                keep_alive,
                writes.last(),
            )
        }),
        done matches WriteStep::Done(outcome) ==> settled(sending, outcome, ended),
    ensures
        sending matches Some(c) && c.stream == connection.stream && {
            &&& c.state matches ConnState::Writing { buf, len, written_bytes, keep_alive }
            &&& buf@.take(len as int) == response_bytes(keep_alive)
            &&& written_bytes == 0
            &&& keep_alive == keeps_alive(r)
        },
        !keeps_alive(r) ==> ended is None,
        keeps_alive(r) ==> {
            &&& ended matches Some(c)
            &&& c.stream == connection.stream
            &&& c.state.is_fresh()
        },
{
    law_request_in_pieces_is_answered(r, gaps, received, reads);
    law_step_and_verdict(step, keeps_alive(r));
    let outcome = step->Done_0;
    law_turn_is_settled(Some(connection), outcome, sending);
    if let ConnState::Writing { buf, len, written_bytes, keep_alive } = sending->0.state {
        law_response_in_pieces_is_sent(len, keep_alive, writes);
    }
}

/// A table where only the slot of `fd` was touched holds every other connection
/// as it was, and no slot more or less.
pub proof fn law_other_slots_stay<T>(before: Slots<T>, after: Slots<T>, fd: i32, other: int)
    requires
        same_elsewhere(before, after, fd),
        0 <= other < before.len(),
        other != fd,
    ensures
        after.len() == before.len(),
        after[other] == before[other],
{
}

/// In a table in order no connection counts beyond its buffers; the slots are
/// numbered from zero.
pub proof fn law_counts_stay_in_bounds<T>(slots: Slots<T>, fd: i32)
    requires
        table_wf(slots),
    ensures
        has_slot(slots, fd) <==> 0 <= fd < slots.len(),
        has_slot(slots, fd) ==> (slots[fd as int] matches Some(c) ==> {
            &&& c.state matches ConnState::Reading { buf, read_bytes, header_positions }
                ==> read_bytes <= REQUEST_SIZE
            &&& c.state matches ConnState::Writing { buf, len, written_bytes, keep_alive }
                ==> written_bytes <= len && len <= RESPONSE_SIZE
        }),
{
}

/// A state in which nothing has been received counts no bytes, and its buffer
/// and its list of header positions hold nothing but zeros.
pub proof fn law_fresh_state_is_empty(state: ConnState)
    ensures
        state.is_fresh() <==> (state matches ConnState::Reading {
            buf,
            read_bytes,
            header_positions,
        } && read_bytes == 0 && (forall|i: int|
            0 <= i < REQUEST_SIZE ==> #[trigger] buf@[i] == 0) && (forall|i: int|
            0 <= i < MAX_HEADERS ==> (#[trigger] header_positions@[i]).name.0 == 0
                && header_positions@[i].name.1 == 0 && header_positions@[i].value.0 == 0
                && header_positions@[i].value.1 == 0)),
        state.is_fresh() ==> state.wf(),
{
}

/// Noting headers puts their positions at the start of the list, in order, and
/// leaves the rest of it alone.
pub proof fn law_noted_positions(
    before: Seq<HeaderPos>,
    after: Seq<HeaderPos>,
    fields: Seq<FieldSpan>,
    i: int,
)
    requires
        noted(before, after, fields),
        0 <= i < before.len(),
    ensures
        after.len() == before.len(),
        i < fields.len() ==> {
            &&& after[i].name.0 == fields[i].name.0
            &&& after[i].name.1 == fields[i].name.1
            &&& after[i].value.0 == fields[i].value.0
            &&& after[i].value.1 == fields[i].value.1
        },
        i >= fields.len() ==> after[i] == before[i],
{
    if i < fields.len() {
        assert(after[i]@ == fields[i]);
    }
}

/// Events of two descriptors are told apart, and an event that carries a
/// descriptor number is about that descriptor.
pub proof fn law_events_are_told_apart(fd: i32, other: i32)
    ensures
        token_of(fd) == token_of(other) <==> fd == other,
        fd >= 0 ==> token_of(fd) == fd,
        fd_of(token_of(fd)) == fd,
{
    assert((fd as u64) as i32 == fd) by (bit_vector);
    assert((other as u64) as i32 == other) by (bit_vector);
}

} // verus!
