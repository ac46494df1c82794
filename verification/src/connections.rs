//! The table of connections of an event loop, indexed by descriptor.

use crate::epoll::{
    event_fd, fd_of, read_events, read_mask, write_events, write_mask, ConnState, Connection,
};
use crate::server::ReadOutcome;
use crate::sink::RESPONSE_SIZE;
use vstd::prelude::*;

verus! {

/// A table of connections: each stands in the slot of its descriptor.
pub type Slots<T> = Seq<Option<Connection<T>>>;

/// Whether `fd` has a slot in a table.
pub open spec fn has_slot<T>(slots: Slots<T>, fd: i32) -> bool {
    0 <= fd < slots.len()
}

/// Whether every connection of a table is in order.
pub open spec fn table_wf<T>(slots: Slots<T>) -> bool {
    forall|i: int|
        0 <= i < slots.len() ==> ((#[trigger] slots[i]) matches Some(c) ==> c.state.wf())
}

/// Whether two tables are the same but for the slot of `fd`.
pub open spec fn same_elsewhere<T>(before: Slots<T>, after: Slots<T>, fd: i32) -> bool {
    &&& after.len() == before.len()
    &&& forall|i: int| 0 <= i < before.len() && i != fd ==> #[trigger] after[i] == before[i]
}

/// A table with that many free slots.
pub fn empty_table<T>(capacity: usize) -> (r: Vec<Option<Connection<T>>>)
    ensures
        r@.len() == capacity,
        forall|i: int| 0 <= i < capacity ==> #[trigger] r@[i] is None,
        table_wf(r@),
{
    let mut table: Vec<Option<Connection<T>>> = Vec::new();
    let mut i: usize = 0;
    while i < capacity
        invariant
            i <= capacity,
            table@.len() == i,
            forall|j: int| 0 <= j < i ==> #[trigger] table@[j] is None,
        decreases capacity - i,
    {
        table.push(None);
        i = i + 1;
    }
    table
}

/// What an event is about.
#[derive(Clone, Copy, Debug, PartialEq, Eq, Structural)]
pub enum Target {
    /// Connections are waiting to be accepted.
    Listener,
    /// This connection can be read or written.
    Connection(i32),
}

/// What the event with that number is about.
pub fn event_target(token: u64, listener_fd: i32) -> (r: Target)
    ensures
        r == if fd_of(token) == listener_fd {
            Target::Listener
        } else {
            Target::Connection(fd_of(token))
        },
{
    let fd: i32 = event_fd(token);
    if fd == listener_fd {
        Target::Listener
    } else {
        Target::Connection(fd)
    }
}

/// Enters a connection that was accepted. It starts by receiving a request; one
/// that stood in its slot before is dropped.
pub fn insert_connection<T>(connections: &mut Vec<Option<Connection<T>>>, fd: i32, stream: T)
    requires
        has_slot(old(connections)@, fd),
    ensures
        same_elsewhere(old(connections)@, final(connections)@, fd),
        final(connections)@[fd as int] matches Some(c) && c.stream == stream && c.state.is_fresh(),
        table_wf(old(connections)@) ==> table_wf(final(connections)@),
{
    let state = ConnState::fresh();
    connections[fd as usize] = Some(Connection { stream, state });
}

/// Drops the connection in the slot of `fd`.
pub fn close_connection<T>(connections: &mut Vec<Option<Connection<T>>>, fd: i32)
    requires
        has_slot(old(connections)@, fd),
    ensures
        same_elsewhere(old(connections)@, final(connections)@, fd),
        final(connections)@[fd as int] is None,
        table_wf(old(connections)@) ==> table_wf(final(connections)@),
{
    connections[fd as usize] = None;
}

/// What becomes of a connection after a turn that came to `outcome`.
pub open spec fn settled<T>(
    before: Option<Connection<T>>,
    outcome: ReadOutcome,
    after: Option<Connection<T>>,
) -> bool {
    match (before, outcome) {
        (Some(b), ReadOutcome::Pending) => after == before,
        (Some(b), ReadOutcome::Close) => after is None,
        (Some(b), ReadOutcome::Reset) => after matches Some(a) && a.stream == b.stream
            && a.state.is_fresh(),
        (Some(b), ReadOutcome::Response { buf, len, keep_alive }) => after == Some(
            Connection {
                stream: b.stream,
                state: ConnState::Writing { buf, len, written_bytes: 0, keep_alive },
            },
        ),
        (None, _) => after is None,
    }
}

/// The events to wait for after a turn that came to `outcome`, where they
/// change.
pub open spec fn events_after(outcome: ReadOutcome) -> Option<u32> {
    match outcome {
        ReadOutcome::Pending => None,
        ReadOutcome::Close => None,
        ReadOutcome::Reset => Some(read_mask()),
        ReadOutcome::Response { buf, len, keep_alive } => Some(write_mask()),
    }
}

/// Does to a connection what its turn came to, and returns the events that it
/// waits for from now on, where they change. If they cannot be registered, the
/// connection is to be closed.
pub fn settle<T>(
    connections: &mut Vec<Option<Connection<T>>>,
    fd: i32,
    outcome: ReadOutcome,
) -> (r: Option<u32>)
    requires
        has_slot(old(connections)@, fd),
        outcome matches ReadOutcome::Response { buf, len, keep_alive } ==> len <= RESPONSE_SIZE,
    ensures
        same_elsewhere(old(connections)@, final(connections)@, fd),
        settled(old(connections)@[fd as int], outcome, final(connections)@[fd as int]),
        r == if old(connections)@[fd as int] is None {
            None
        } else {
            events_after(outcome)
        },
        table_wf(old(connections)@) ==> table_wf(final(connections)@),
{
    let slot: usize = fd as usize;
    let (state, events) = match outcome {
        ReadOutcome::Pending => {
            return None;
        },
        ReadOutcome::Close => {
            connections[slot] = None;
            return None;
        },
        ReadOutcome::Reset => (ConnState::fresh(), read_events()),
        ReadOutcome::Response { buf, len, keep_alive } => (
            ConnState::Writing { buf, len, written_bytes: 0, keep_alive },
            write_events(),
        ),
    };
    match &mut connections[slot] {
        Some(connection) => {
            connection.state = state;
            Some(events)
        },
        None => None,
    }
}

} // verus!
