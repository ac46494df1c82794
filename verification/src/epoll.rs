//! Readiness events of `epoll`, and the connections that they are about.

use crate::http_req::{HeaderPos, MAX_HEADERS};
use crate::received::REQUEST_SIZE;
use crate::sink::RESPONSE_SIZE;
use vstd::prelude::*;

verus! {

/// The constant `libc::EPOLLIN`, whose value is 1.
#[verifier::external_body]
pub(crate) fn epollin() -> (r: i32)
    ensures
        r == 1,
{
    libc::EPOLLIN
}

/// The constant `libc::EPOLLOUT`, whose value is 4.
#[verifier::external_body]
pub(crate) fn epollout() -> (r: i32)
    ensures
        r == 4,
{
    libc::EPOLLOUT
}

/// The constant `libc::EPOLLET`, whose value is the highest of 32 bits alone,
/// as a signed number.
#[verifier::external_body]
pub(crate) fn epollet() -> (r: i32)
    ensures
        r == -0x8000_0000,
{
    libc::EPOLLET
}

/// A socket is readable: the lowest bit.
pub open spec fn listener_mask() -> u32 {
    0x0000_0001
}

/// A socket becomes readable: the lowest bit, and the highest for the change.
pub open spec fn read_mask() -> u32 {
    0x8000_0001
}

/// A socket becomes writable: the third bit, and the highest for the change.
pub open spec fn write_mask() -> u32 {
    0x8000_0004
}

/// The events to wait for on the listening socket: it is readable.
pub fn listener_events() -> (r: u32)
    ensures
        r == listener_mask(),
{
    epollin() as u32
}

/// The events to wait for while a request is received: the connection becomes
/// readable.
pub fn read_events() -> (r: u32)
    ensures
        r == read_mask(),
{
    let readable: i32 = epollin();
    let edge: i32 = epollet();
    assert((readable | edge) as u32 == 0x8000_0001u32) by (bit_vector)
        requires
            readable == 1,
            edge == -0x8000_0000,
    ;
    (readable | edge) as u32
}

/// The events to wait for while a response is sent: the connection becomes
/// writable.
pub fn write_events() -> (r: u32)
    ensures
        r == write_mask(),
{
    let writable: i32 = epollout();
    let edge: i32 = epollet();
    assert((writable | edge) as u32 == 0x8000_0004u32) by (bit_vector)
        requires
            writable == 4,
            edge == -0x8000_0000,
    ;
    (writable | edge) as u32
}

/// The number that an event carries for a descriptor.
pub open spec fn token_of(fd: i32) -> u64 {
    fd as u64
}

/// The descriptor that an event is about: the low half of the number that it
/// carries.
pub open spec fn fd_of(token: u64) -> i32 {
    token as i32
}

/// The number that an event is to carry for a descriptor.
pub fn event_token(fd: i32) -> (r: u64)
    ensures
        r == token_of(fd),
        fd >= 0 ==> r == fd,
{
    fd as u64
}

/// The descriptor that an event with this number is about.
pub fn event_fd(token: u64) -> (r: i32)
    ensures
        r == fd_of(token),
        token <= i32::MAX ==> r == token,
{
    token as i32
}

/// An event is about the descriptor that it was registered for.
pub proof fn law_event_names_its_descriptor(fd: i32)
    ensures
        fd_of(token_of(fd)) == fd,
{
    assert((fd as u64) as i32 == fd) by (bit_vector);
}

/// What to do after a call of `epoll_wait`.
#[derive(Clone, Copy, Debug, PartialEq, Eq, Structural)]
pub enum WaitStep {
    /// Wait again: a signal came in between.
    Retry,
    /// Give up.
    Fail,
    /// Handle this many events.
    Ready(usize),
}

/// What to do after `epoll_wait` returned `ret`; `interrupted` says whether the
/// last error was an interruption by a signal.
pub fn wait_step(ret: i32, interrupted: bool) -> (r: WaitStep)
    ensures
        ret == -1 && interrupted ==> r == WaitStep::Retry,
        ret == -1 && !interrupted ==> r == WaitStep::Fail,
        ret != -1 ==> r == WaitStep::Ready(ret as usize),
{
    if ret == -1 {
        if interrupted {
            WaitStep::Retry
        } else {
            WaitStep::Fail
        }
    } else {
        WaitStep::Ready(ret as usize)
    }
}

/// What a connection is at.
#[allow(inconsistent_fields)]
pub enum ConnState {
    /// A request is being received.
    Reading {
        buf: [u8; REQUEST_SIZE],
        read_bytes: usize,
        header_positions: [HeaderPos; MAX_HEADERS],
    },
    /// A response is being sent.
    Writing { buf: [u8; RESPONSE_SIZE], len: usize, written_bytes: usize, keep_alive: bool },
}

impl ConnState {
    /// Whether the counts stay within the buffers.
    pub open spec fn wf(self) -> bool {
        match self {
            ConnState::Reading { buf, read_bytes, header_positions } => read_bytes <= REQUEST_SIZE,
            ConnState::Writing { buf, len, written_bytes, keep_alive } => written_bytes <= len
                <= RESPONSE_SIZE,
        }
    }

    /// Whether nothing of a request has been received.
    pub open spec fn is_fresh(self) -> bool {
        &&& self matches ConnState::Reading { buf, read_bytes, header_positions }
        &&& read_bytes == 0
        &&& forall|i: int| 0 <= i < REQUEST_SIZE ==> #[trigger] buf@[i] == 0
        &&& forall|i: int|
            0 <= i < MAX_HEADERS ==> #[trigger] header_positions@[i] == (HeaderPos {
                name: (0, 0),
                value: (0, 0),
            })
    }

    /// The state in which nothing of a request has been received.
    pub fn fresh() -> (r: Self)
        ensures
            r.is_fresh(),
            r.wf(),
    {
        ConnState::Reading {
            buf: [0u8; REQUEST_SIZE],
            read_bytes: 0,
            header_positions: [HeaderPos::default(); MAX_HEADERS],
        }
    }
}

/// A connection: the stream that it goes over, and what it is at.
pub struct Connection<T> {
    pub stream: T,
    pub state: ConnState,
}

} // verus!
