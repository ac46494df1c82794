//! What holds of the turns that a connection of the event-driven server goes
//! through: whether it is kept, reading a request in pieces, and sending the
//! response in pieces.

use crate::bytes::{ascii, same_ignoring_case};
use crate::head_laws::{law_spaced_request_is_received, sendable_headers, spaced_request};
use crate::http_req::{request_at, scan_head, HeadScan, HeaderView, RequestView, MAX_HEADERS};
use crate::http_req_laws::{law_head_is_a_prefix, sendable};
use crate::received::{progress, Progress, REQUEST_SIZE};
use crate::server::{
    asks_to_close, count_after, keeps_alive, read_on, read_verdict, write_on, write_verdict,
    IoEvent, ReadOutcome, ReadVerdict, WriteStep,
};
use vstd::prelude::*;

verus! {

/// Whether a header is named `Connection` and says `close`, in whatever case.
pub open spec fn says_close(h: HeaderView) -> bool {
    &&& same_ignoring_case(h.name, ascii("connection"@))
    &&& same_ignoring_case(h.value, ascii("close"@))
}

/// A header that says `close` ends the connection wherever among the headers it
/// stands, and whatever the others say.
pub proof fn law_close_counts_anywhere(r: RequestView, i: int)
    requires
        0 <= i < r.headers.len(),
        same_ignoring_case(r.headers[i].name, ascii("connection"@)),
        same_ignoring_case(r.headers[i].value, ascii("close"@)),
    ensures
        !keeps_alive(r),
{
    assert(asks_to_close(r.headers[i]));
}

/// A connection is ended only where some header says `close`.
pub proof fn law_kept_unless_asked(r: RequestView)
    ensures
        !keeps_alive(r) ==> exists|i: int|
            0 <= i < r.headers.len() && says_close(#[trigger] r.headers[i]),
{
    if !keeps_alive(r) {
        let i = choose|i: int| 0 <= i < r.headers.len() && asks_to_close(#[trigger] r.headers[i]);
        assert(says_close(r.headers[i]));
    }
}

/// Headers put before or behind others that do not say `close` change nothing,
/// and nothing but the headers counts.
pub proof fn law_other_headers_do_not_matter(
    r: RequestView,
    other: RequestView,
    before: Seq<HeaderView>,
    after: Seq<HeaderView>,
)
    requires
        other.headers == before + r.headers + after,
        forall|i: int| 0 <= i < before.len() ==> !says_close(#[trigger] before[i]),
        forall|i: int| 0 <= i < after.len() ==> !says_close(#[trigger] after[i]),
    ensures
        keeps_alive(other) == keeps_alive(r),
{
    let all = other.headers;
    let k = before.len() as int;
    if keeps_alive(r) {
        assert forall|i: int| 0 <= i < all.len() implies !asks_to_close(#[trigger] all[i]) by {
            if i < k {
                assert(all[i] == before[i]);
                assert(!says_close(before[i]));
            } else if i < k + r.headers.len() {
                assert(all[i] == r.headers[i - k]);
            } else {
                assert(all[i] == after[i - k - r.headers.len()]);
                assert(!says_close(after[i - k - r.headers.len()]));
            }
        }
    } else {
        let i = choose|i: int| 0 <= i < r.headers.len() && asks_to_close(#[trigger] r.headers[i]);
        assert(all[k + i] == r.headers[i]);
    }
}

/// The order of the headers does not matter.
pub proof fn law_header_order_does_not_matter(r: RequestView, other: RequestView)
    requires
        other.headers.to_multiset() == r.headers.to_multiset(),
    ensures
        keeps_alive(other) == keeps_alive(r),
{
    lemma_order_kept(r, other);
    lemma_order_kept(other, r);
}

proof fn lemma_order_kept(r: RequestView, other: RequestView)
    requires
        other.headers.to_multiset() == r.headers.to_multiset(),
    ensures
        keeps_alive(r) ==> keeps_alive(other),
{
    broadcast use vstd::seq_lib::group_to_multiset_ensures;

    if keeps_alive(r) {
        assert forall|i: int| 0 <= i < other.headers.len() implies !asks_to_close(
            #[trigger] other.headers[i],
        ) by {
            let h = other.headers[i];
            assert(other.headers.contains(h));
            assert(r.headers.to_multiset().count(h) > 0);
            assert(r.headers.contains(h));
            let j = choose|j: int| 0 <= j < r.headers.len() && r.headers[j] == h;
            assert(!asks_to_close(r.headers[j]));
        }
    }
}

/// How many bytes went over in those events.
pub open spec fn moved(events: Seq<IoEvent>) -> nat
    decreases events.len(),
{
    if events.len() == 0 {
        0
    } else {
        moved(events.drop_last()) + match events.last() {
            IoEvent::Transferred(n) => n as nat,
            _ => 0,
        }
    }
}

/// Whether an event is no reason to give up: some bytes went over, the call
/// would have had to wait, or a signal came in between.
pub open spec fn is_harmless(event: IoEvent) -> bool {
    match event {
        IoEvent::Transferred(n) => n > 0,
        IoEvent::WouldBlock => true,
        IoEvent::Interrupted => true,
        IoEvent::Failed => false,
    }
}

proof fn lemma_moved_grows(events: Seq<IoEvent>, i: int)
    requires
        0 <= i <= events.len(),
    ensures
        moved(events.take(i)) <= moved(events),
        i < events.len() ==> moved(events.take(i)) <= moved(events.drop_last()),
    decreases events.len() - i,
{
    if i < events.len() {
        lemma_moved_grows(events, i + 1);
        assert(events.take(i + 1).drop_last() =~= events.take(i));
        if i + 1 == events.len() {
            assert(events.take(i) =~= events.drop_last());
        }
    } else {
        assert(events.take(i) =~= events);
    }
}

proof fn lemma_moved_step(events: Seq<IoEvent>, i: int)
    requires
        0 <= i < events.len(),
    ensures
        moved(events.take(i + 1)) == moved(events.take(i)) + match events[i] {
            IoEvent::Transferred(n) => n as nat,
            _ => 0,
        },
{
    assert(events.take(i + 1).drop_last() =~= events.take(i));
    assert(events.take(i + 1).last() == events[i]);
}

/// Only bytes that go over are counted, every one of them once.
pub proof fn law_only_bytes_count(bytes: usize, n: usize)
    ensures
        count_after(bytes, IoEvent::Transferred(n)) == bytes + n,
        count_after(bytes, IoEvent::WouldBlock) == bytes,
        count_after(bytes, IoEvent::Interrupted) == bytes,
        count_after(bytes, IoEvent::Failed) == bytes,
{
}

/// A read that would have to wait never ends a connection, however much has
/// been received; one that a signal broke off is tried again while the buffer
/// has room; the end of the stream and any other failure end the connection.
pub proof fn law_read_without_bytes(buf: Seq<u8>, read_bytes: usize)
    ensures
        read_verdict(buf, read_bytes, IoEvent::WouldBlock) == ReadVerdict::Pending,
        read_bytes < REQUEST_SIZE ==> read_verdict(buf, read_bytes, IoEvent::Interrupted)
            == ReadVerdict::Read,
        read_bytes == REQUEST_SIZE ==> read_verdict(buf, read_bytes, IoEvent::Interrupted)
            == ReadVerdict::Close,
        read_verdict(buf, read_bytes, IoEvent::Transferred(0)) == ReadVerdict::Close,
        read_verdict(buf, read_bytes, IoEvent::Failed) == ReadVerdict::Close,
        read_bytes < REQUEST_SIZE ==> read_on(read_bytes) == ReadVerdict::Read,
        read_bytes == REQUEST_SIZE ==> read_on(read_bytes) == ReadVerdict::Close,
{
}

/// What a read of some bytes comes to, for any bytes: those that start no
/// request end the connection; a request that is not whole is waited for, but
/// for a full buffer, which ends the connection; a whole one is answered, and
/// the connection kept unless a header says `close`; one whose end lies beyond
/// what an offset can say is told apart.
pub proof fn law_read_of_bytes(buf: Seq<u8>, read_bytes: usize, n: usize)
    requires
        buf.len() == REQUEST_SIZE,
        0 < n,
        read_bytes + n <= REQUEST_SIZE,
    ensures
        ({
            let received = buf.take(read_bytes + n);
            let verdict = read_verdict(buf, read_bytes, IoEvent::Transferred(n));
            let full = read_bytes + n == REQUEST_SIZE;
            match scan_head(received, MAX_HEADERS as nat) {
                HeadScan::Error => verdict == ReadVerdict::Close,
                HeadScan::Incomplete => {
                    &&& full ==> verdict == ReadVerdict::Close
                    &&& !full ==> verdict == ReadVerdict::Read
                },
                HeadScan::Complete(l) => {
                    let end = l.consumed + l.body_len;
                    &&& end > usize::MAX ==> verdict == ReadVerdict::LengthOverflow
                    &&& read_bytes + n < end <= usize::MAX && full ==> verdict
                        == ReadVerdict::Close
                    &&& read_bytes + n < end <= usize::MAX && !full ==> verdict
                        == ReadVerdict::Read
                    &&& end <= read_bytes + n ==> verdict == ReadVerdict::Respond(
                        !exists|i: int|
                            0 <= i < l.fields.len() && says_close(
                                #[trigger] request_at(received, l).headers[i],
                            ),
                    )
                },
            }
        }),
{
    let received = buf.take(read_bytes + n);
    if let HeadScan::Complete(l) = scan_head(received, MAX_HEADERS as nat) {
        let request = request_at(received, l);
        law_kept_unless_asked(request);
        if exists|i: int| 0 <= i < l.fields.len() && says_close(#[trigger] request.headers[i]) {
            let i = choose|i: int|
                0 <= i < l.fields.len() && says_close(#[trigger] request.headers[i]);
            law_close_counts_anywhere(request, i);
        }
    }
}

/// A request of which only the first `n` bytes are there is not whole; with all
/// of its bytes it is the request that was sent, whatever follows and whatever
/// blanks stand before its values.
pub proof fn law_progress_of_spaced(
    r: RequestView,
    gaps: Seq<Seq<u8>>,
    rest: Seq<u8>,
    n: int,
    room: nat,
)
    requires
        sendable(r),
        sendable_headers(r.headers, gaps),
        r.headers.len() <= room,
        spaced_request(r, gaps).len() <= usize::MAX,
        0 <= n < spaced_request(r, gaps).len(),
    ensures
        progress(spaced_request(r, gaps).take(n), room) is HeadMissing || progress(
            spaced_request(r, gaps).take(n),
            room,
        ) is BodyMissing,
        progress(spaced_request(r, gaps) + rest, room) == Progress::Whole(r),
{
    let sent = spaced_request(r, gaps);
    law_spaced_request_is_received(r, gaps, rest, room);
    law_spaced_request_is_received(r, gaps, seq![], room);
    assert(sent + Seq::<u8>::empty() =~= sent);
    law_head_is_a_prefix(sent, room, n);
}

/// One read while a request arrives.
proof fn lemma_read_of_request(
    r: RequestView,
    gaps: Seq<Seq<u8>>,
    buf: Seq<u8>,
    before: usize,
    event: IoEvent,
)
    requires
        sendable(r),
        sendable_headers(r.headers, gaps),
        r.headers.len() <= MAX_HEADERS,
        buf.len() == REQUEST_SIZE,
        spaced_request(r, gaps).len() <= REQUEST_SIZE,
        buf.take(spaced_request(r, gaps).len() as int) == spaced_request(r, gaps),
        before < spaced_request(r, gaps).len(),
        is_harmless(event),
        count_after(before, event) <= REQUEST_SIZE,
    ensures
        read_on(before) == ReadVerdict::Read,
        count_after(before, event) < spaced_request(r, gaps).len() ==> read_verdict(
            buf,
            before,
            event,
        ) == if event == IoEvent::WouldBlock {
            ReadVerdict::Pending
        } else {
            ReadVerdict::Read
        },
        count_after(before, event) >= spaced_request(r, gaps).len() ==> read_verdict(
            buf,
            before,
            event,
        ) == ReadVerdict::Respond(keeps_alive(r)),
{
    let sent = spaced_request(r, gaps);
    if let IoEvent::Transferred(n) = event {
        let received = buf.take(before + n);
        if before + n < sent.len() {
            assert(received =~= sent.take(before + n));
            law_progress_of_spaced(r, gaps, seq![], before + n, MAX_HEADERS as nat);
        } else {
            let rest = received.skip(sent.len() as int);
            assert(received =~= sent + rest) by {
                assert forall|i: int| 0 <= i < sent.len() implies sent[i] == received[i] by {
                    assert(buf.take(sent.len() as int)[i] == buf[i]);
                }
            }
            law_progress_of_spaced(r, gaps, rest, 0, MAX_HEADERS as nat);
        }
    }
}

/// Whether the read of that event finds the connection ready to be read, and
/// counts the bytes that went over.
pub open spec fn read_is_due(events: Seq<IoEvent>, i: int) -> bool {
    let count = moved(events.take(i)) as usize;
    &&& read_on(count) == ReadVerdict::Read
    &&& count_after(count, events[i]) == moved(events.take(i + 1))
}

/// Whether the read of that event leaves the connection open: for the next
/// event where it would have had to wait, else to be read again at once.
pub open spec fn read_goes_on(buf: Seq<u8>, events: Seq<IoEvent>, i: int) -> bool {
    read_verdict(buf, moved(events.take(i)) as usize, events[i]) == if events[i]
        == IoEvent::WouldBlock {
        ReadVerdict::Pending
    } else {
        ReadVerdict::Read
    }
}

/// A request that fits the buffer is answered, however it arrives: in any
/// number of pieces, with any waits and interruptions in between. Until its
/// last byte is there every read leaves the connection open, to be read again
/// at once or at the next event, and the read that brings the last byte answers
/// it.
pub proof fn law_request_in_pieces_is_answered(
    r: RequestView,
    gaps: Seq<Seq<u8>>,
    buf: Seq<u8>,
    events: Seq<IoEvent>,
)
    requires
        sendable(r),
        sendable_headers(r.headers, gaps),
        r.headers.len() <= MAX_HEADERS,
        buf.len() == REQUEST_SIZE,
        spaced_request(r, gaps).len() <= REQUEST_SIZE,
        buf.take(spaced_request(r, gaps).len() as int) == spaced_request(r, gaps),
        events.len() > 0,
        forall|i: int| 0 <= i < events.len() ==> is_harmless(#[trigger] events[i]),
        moved(events.drop_last()) < spaced_request(r, gaps).len() <= moved(events) <= REQUEST_SIZE,
    ensures
        forall|i: int| 0 <= i < events.len() ==> #[trigger] read_is_due(events, i),
        forall|i: int| 0 <= i < events.len() - 1 ==> #[trigger] read_goes_on(buf, events, i),
        read_verdict(buf, moved(events.drop_last()) as usize, events.last())
            == ReadVerdict::Respond(keeps_alive(r)),
{
    let last = events.len() - 1;
    assert forall|i: int| 0 <= i < events.len() implies #[trigger] read_is_due(events, i) by {
        lemma_moved_grows(events, i);
        lemma_moved_grows(events, i + 1);
        lemma_moved_step(events, i);
    }
    assert forall|i: int| 0 <= i < events.len() - 1 implies #[trigger] read_goes_on(
        buf,
        events,
        i,
    ) by {
        lemma_moved_grows(events, i);
        lemma_moved_grows(events, i + 1);
        lemma_moved_step(events, i);
        lemma_read_of_request(r, gaps, buf, moved(events.take(i)) as usize, events[i]);
    }
    assert(events[last] == events.last());
    lemma_read_of_request(r, gaps, buf, moved(events.drop_last()) as usize, events.last());
}

/// What a write comes to, for any state and any event: bytes that complete the
/// response end the turn, with the connection kept or closed as it is to be;
/// fewer bytes, or a signal in between, mean to write on; a write that would
/// have to wait leaves the rest for the next event; a write of nothing and any
/// other failure end the connection.
pub proof fn law_write_decides(len: usize, written_bytes: usize, keep_alive: bool, n: usize)
    requires
        written_bytes <= len,
        n <= len - written_bytes,
    ensures
        n > 0 && written_bytes + n == len && keep_alive ==> write_verdict(
            len,
            written_bytes,
            keep_alive,
            IoEvent::Transferred(n),
        ) == WriteStep::Done(ReadOutcome::Reset),
        n > 0 && written_bytes + n == len && !keep_alive ==> write_verdict(
            len,
            written_bytes,
            keep_alive,
            IoEvent::Transferred(n),
        ) == WriteStep::Done(ReadOutcome::Close),
        n > 0 && written_bytes + n < len ==> write_verdict(
            len,
            written_bytes,
            keep_alive,
            IoEvent::Transferred(n),
        ) == WriteStep::Write,
        write_verdict(len, written_bytes, keep_alive, IoEvent::Transferred(0)) == WriteStep::Done(
            ReadOutcome::Close,
        ),
        write_verdict(len, written_bytes, keep_alive, IoEvent::WouldBlock) == WriteStep::Done(
            ReadOutcome::Pending,
        ),
        write_verdict(len, written_bytes, keep_alive, IoEvent::Failed) == WriteStep::Done(
            ReadOutcome::Close,
        ),
        written_bytes < len ==> write_verdict(len, written_bytes, keep_alive, IoEvent::Interrupted)
            == WriteStep::Write,
        written_bytes < len ==> write_on(len, written_bytes as int, keep_alive)
            == WriteStep::Write,
        written_bytes == len && keep_alive ==> write_on(len, written_bytes as int, keep_alive)
            == WriteStep::Done(ReadOutcome::Reset),
        written_bytes == len && !keep_alive ==> write_on(len, written_bytes as int, keep_alive)
            == WriteStep::Done(ReadOutcome::Close),
        written_bytes == len ==> write_verdict(
            len,
            written_bytes,
            keep_alive,
            IoEvent::Interrupted,
        ) == write_on(len, written_bytes as int, keep_alive),
{
}

/// Whether the write of that event finds bytes left to write, and counts the
/// bytes that went over.
pub open spec fn write_is_due(
    len: usize,
    keep_alive: bool,
    events: Seq<IoEvent>,
    i: int,
) -> bool {
    let count = moved(events.take(i)) as usize;
    &&& write_on(len, count as int, keep_alive) == WriteStep::Write
    &&& count_after(count, events[i]) == moved(events.take(i + 1))
}

/// Whether the write of that event leaves the connection open: for the next
/// event where it would have had to wait, else to be written again at once.
pub open spec fn write_goes_on(
    len: usize,
    keep_alive: bool,
    events: Seq<IoEvent>,
    i: int,
) -> bool {
    write_verdict(len, moved(events.take(i)) as usize, keep_alive, events[i]) == if events[i]
        == IoEvent::WouldBlock {
        WriteStep::Done(ReadOutcome::Pending)
    } else {
        WriteStep::Write
    }
}

/// A response goes out whole, however many writes it takes and whatever waits
/// and interruptions come in between: until its last byte is out every write
/// leaves the connection open, and the write that moves the last byte ends the
/// turn, with the connection kept or closed as it is to be.
pub proof fn law_response_in_pieces_is_sent(len: usize, keep_alive: bool, events: Seq<IoEvent>)
    requires
        events.len() > 0,
        forall|i: int| 0 <= i < events.len() ==> is_harmless(#[trigger] events[i]),
        moved(events.drop_last()) < len,
        moved(events) == len,
    ensures
        forall|i: int|
            0 <= i < events.len() ==> #[trigger] write_is_due(len, keep_alive, events, i),
        forall|i: int|
            0 <= i < events.len() - 1 ==> #[trigger] write_goes_on(len, keep_alive, events, i),
        write_verdict(len, moved(events.drop_last()) as usize, keep_alive, events.last())
            == WriteStep::Done(
            if keep_alive {
                ReadOutcome::Reset
            } else {
                ReadOutcome::Close
            },
        ),
{
    let last = events.len() - 1;
    assert forall|i: int| 0 <= i < events.len() implies #[trigger] write_is_due(
        len,
        keep_alive,
        events,
        i,
    ) by {
        lemma_moved_grows(events, i);
        lemma_moved_grows(events, i + 1);
        lemma_moved_step(events, i);
    }
    assert forall|i: int| 0 <= i < events.len() - 1 implies #[trigger] write_goes_on(
        len,
        keep_alive,
        events,
        i,
    ) by {
        lemma_moved_grows(events, i);
        lemma_moved_grows(events, i + 1);
        lemma_moved_step(events, i);
        assert(is_harmless(events[i]));
    }
    assert(events[last] == events.last());
    assert(is_harmless(events.last()));
}

} // verus!
