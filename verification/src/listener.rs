//! Setting up a listening socket call by call, and accepting connections.

use crate::epoll::{read_events, read_mask};
use vstd::prelude::*;

verus! {

/// How many connections the server asks for: as open descriptors, and as the
/// backlog of a listening socket.
pub const MAX_CONNECTIONS: u64 = 4096;

/// The backlog to ask for. The kernel clamps it to what it allows, so asking
/// for too much does no harm.
pub fn backlog() -> (r: i32)
    ensures
        r == MAX_CONNECTIONS,
{
    MAX_CONNECTIONS as i32
}

/// An address to listen on.
#[derive(Clone, Copy, Debug)]
pub enum ListenAddr {
    V4 { octets: [u8; 4], port: u16 },
    V6,
}

/// An IPv4 address and a port as they stand in memory for the kernel: most
/// significant byte first.
#[derive(Clone, Copy, Debug)]
pub struct Endpoint {
    pub address: [u8; 4],
    pub port: [u8; 2],
}

/// Why no listening socket could be set up before any call was made.
#[derive(Clone, Copy, Debug, PartialEq, Eq, Structural)]
pub enum SetupError {
    /// The address is not an IPv4 address.
    OnlyIpv4,
}

impl SetupError {
    /// The error in words.
    pub fn message(&self) -> (r: &'static str)
        ensures
            r@ == "only IPv4 is supported"@,
    {
        "only IPv4 is supported"
    }
}

/// The endpoint of an address; only IPv4 has one.
pub fn endpoint(addr: ListenAddr) -> (r: Result<Endpoint, SetupError>)
    ensures
        match addr {
            ListenAddr::V4 { octets, port } => r matches Ok(e) && {
                &&& e.address@ == octets@
                &&& e.port@[0] * 256 + e.port@[1] == port
            },
            ListenAddr::V6 => r == Err::<Endpoint, SetupError>(SetupError::OnlyIpv4),
        },
{
    match addr {
        ListenAddr::V4 { octets, port } => {
            let high: u8 = (port / 256) as u8;
            let low: u8 = (port % 256) as u8;
            Ok(Endpoint { address: octets, port: [high, low] })
        },
        ListenAddr::V6 => Err(SetupError::OnlyIpv4),
    }
}

/// The calls that set up a listening socket which shares its port, in order.
#[derive(Clone, Copy, Debug, PartialEq, Eq, Structural)]
pub enum SetupStep {
    CreateSocket,
    SetReusePort,
    SetReuseAddr,
    Bind,
    Listen,
    /// The socket listens.
    Ready,
    /// A call failed.
    Failed,
}

/// The step that follows a call that succeeded.
pub open spec fn setup_successor(step: SetupStep) -> SetupStep {
    match step {
        SetupStep::CreateSocket => SetupStep::SetReusePort,
        SetupStep::SetReusePort => SetupStep::SetReuseAddr,
        SetupStep::SetReuseAddr => SetupStep::Bind,
        SetupStep::Bind => SetupStep::Listen,
        SetupStep::Listen => SetupStep::Ready,
        SetupStep::Ready => SetupStep::Ready,
        SetupStep::Failed => SetupStep::Failed,
    }
}

/// The step after a call that returned `ret`; minus one means failure. Where no
/// call is due any more, the step stays.
pub open spec fn setup_after(step: SetupStep, ret: i32) -> SetupStep {
    if step != SetupStep::Ready && ret == -1 {
        SetupStep::Failed
    } else {
        setup_successor(step)
    }
}

/// The step after the call of this step returned `ret`.
pub fn setup_next(step: SetupStep, ret: i32) -> (r: SetupStep)
    ensures
        r == setup_after(step, ret),
{
    match step {
        SetupStep::Ready => SetupStep::Ready,
        SetupStep::Failed => SetupStep::Failed,
        _ => {
            if ret == -1 {
                SetupStep::Failed
            } else {
                match step {
                    SetupStep::CreateSocket => SetupStep::SetReusePort,
                    SetupStep::SetReusePort => SetupStep::SetReuseAddr,
                    SetupStep::SetReuseAddr => SetupStep::Bind,
                    SetupStep::Bind => SetupStep::Listen,
                    _ => SetupStep::Ready,
                }
            }
        },
    }
}

/// The step that setting up a socket has come to after calls that returned
/// `rets`, the first of them first.
pub open spec fn setup_run(rets: Seq<i32>) -> SetupStep
    decreases rets.len(),
{
    if rets.len() == 0 {
        SetupStep::CreateSocket
    } else {
        setup_after(setup_run(rets.drop_last()), rets.last())
    }
}

/// A socket listens after five calls if and only if none of them failed, and
/// never after fewer.
pub proof fn law_listening_needs_every_call(rets: Seq<i32>)
    ensures
        rets.len() < 5 ==> setup_run(rets) != SetupStep::Ready,
        rets.len() == 5 ==> (setup_run(rets) == SetupStep::Ready <==> forall|i: int|
            0 <= i < 5 ==> #[trigger] rets[i] != -1),
        rets.len() <= 5 ==> (setup_run(rets) == SetupStep::Failed <==> exists|i: int|
            0 <= i < rets.len() && #[trigger] rets[i] == -1),
    decreases rets.len(),
{
    reveal_with_fuel(setup_run, 6);
    if rets.len() > 0 && rets.len() <= 5 {
        let before = rets.drop_last();
        law_listening_needs_every_call(before);
        assert forall|i: int| 0 <= i < before.len() implies #[trigger] before[i] == rets[i] by {}
        let last = rets.len() - 1;
        assert(rets.last() == rets[last]);
        if setup_run(rets) == SetupStep::Failed {
            if setup_run(before) == SetupStep::Failed {
                let i = choose|i: int| 0 <= i < before.len() && #[trigger] before[i] == -1;
                assert(rets[i] == -1);
            }
        } else {
            assert forall|i: int| 0 <= i < rets.len() implies #[trigger] rets[i] != -1 by {
                if i < last {
                    assert(before[i] != -1);
                }
            }
        }
    }
}

/// The calls come in one order: the socket is created, shares its port, shares
/// its address, is bound, and listens; then nothing is left to do. Whatever a
/// call returns but minus one, the next one follows.
pub proof fn law_setup_goes_in_order(rets: Seq<i32>)
    requires
        forall|i: int| 0 <= i < rets.len() ==> #[trigger] rets[i] != -1,
    ensures
        rets.len() == 0 ==> setup_run(rets) == SetupStep::CreateSocket,
        rets.len() == 1 ==> setup_run(rets) == SetupStep::SetReusePort,
        rets.len() == 2 ==> setup_run(rets) == SetupStep::SetReuseAddr,
        rets.len() == 3 ==> setup_run(rets) == SetupStep::Bind,
        rets.len() == 4 ==> setup_run(rets) == SetupStep::Listen,
        rets.len() >= 5 ==> setup_run(rets) == SetupStep::Ready,
    decreases rets.len(),
{
    if rets.len() > 0 {
        let before = rets.drop_last();
        assert forall|i: int| 0 <= i < before.len() implies #[trigger] before[i] != -1 by {
            assert(rets[i] != -1);
        }
        assert(rets[rets.len() - 1] != -1);
        law_setup_goes_in_order(before);
    }
}

/// A call that fails ends the setup, and what comes after does not mend it.
pub proof fn law_failed_setup_stays_failed(rets: Seq<i32>, failed: int)
    requires
        0 <= failed < 5,
        failed < rets.len(),
        rets[failed] == -1,
    ensures
        setup_run(rets) == SetupStep::Failed,
    decreases rets.len(),
{
    if rets.len() > 5 {
        law_failed_setup_stays_failed(rets.drop_last(), failed);
    } else {
        law_listening_needs_every_call(rets);
    }
}

/// What a call that sets up an accepted connection gave.
#[derive(Clone, Copy, Debug, PartialEq, Eq, Structural)]
pub enum CallResult {
    Done,
    WouldBlock,
    Failed,
}

/// What is due while connections are accepted.
#[derive(Clone, Copy, Debug, PartialEq, Eq, Structural)]
pub enum AcceptStep {
    /// Accept the next connection.
    Accept,
    /// Make the connection non-blocking.
    SetNonblocking,
    /// Wait for these events on it.
    Register(u32),
    /// Enter it into the table, and accept the next one.
    Insert,
    /// No connection is waiting any more.
    Finish,
    /// Give up.
    Fail,
}

/// The step after the call of `step` gave `result`. Only while accepting does a
/// call that would have to wait mean that all is done.
pub open spec fn accept_after(step: AcceptStep, result: CallResult) -> AcceptStep {
    match (step, result) {
        (AcceptStep::Accept, CallResult::Done) => AcceptStep::SetNonblocking,
        (AcceptStep::Accept, CallResult::WouldBlock) => AcceptStep::Finish,
        (AcceptStep::SetNonblocking, CallResult::Done) => AcceptStep::Register(read_mask()),
        (AcceptStep::Register(_), CallResult::Done) => AcceptStep::Insert,
        (AcceptStep::Insert, _) => AcceptStep::Accept,
        (AcceptStep::Finish, _) => AcceptStep::Finish,
        _ => AcceptStep::Fail,
    }
}

/// The step after the call of `step` gave `result`.
pub fn accept_next(step: AcceptStep, result: CallResult) -> (r: AcceptStep)
    ensures
        r == accept_after(step, result),
{
    match step {
        AcceptStep::Accept => match result {
            CallResult::Done => AcceptStep::SetNonblocking,
            CallResult::WouldBlock => AcceptStep::Finish,
            CallResult::Failed => AcceptStep::Fail,
        },
        AcceptStep::SetNonblocking => match result {
            CallResult::Done => AcceptStep::Register(read_events()),
            _ => AcceptStep::Fail,
        },
        AcceptStep::Register(_) => match result {
            CallResult::Done => AcceptStep::Insert,
            _ => AcceptStep::Fail,
        },
        AcceptStep::Insert => AcceptStep::Accept,
        AcceptStep::Finish => AcceptStep::Finish,
        AcceptStep::Fail => AcceptStep::Fail,
    }
}

/// A connection is entered only after it was accepted, made non-blocking and
/// registered for reading.
pub proof fn law_inserted_is_registered(step: AcceptStep, result: CallResult)
    ensures
        accept_after(step, result) == AcceptStep::Insert <==> step is Register && result
            == CallResult::Done,
        accept_after(step, result) is Register <==> step == AcceptStep::SetNonblocking && result
            == CallResult::Done,
        accept_after(step, result) == AcceptStep::SetNonblocking <==> step == AcceptStep::Accept
            && result == CallResult::Done,
{
}

/// No connection is waiting any more only where accepting would have to wait;
/// the next one is accepted only once the last one was entered; a connection is
/// registered for becoming readable; and any call that fails ends the
/// accepting, as does one behind the accepting that would have to wait.
pub proof fn law_accepting_ends(step: AcceptStep, result: CallResult)
    ensures
        accept_after(step, result) == AcceptStep::Finish <==> step == AcceptStep::Finish || (step
            == AcceptStep::Accept && result == CallResult::WouldBlock),
        accept_after(step, result) == AcceptStep::Accept <==> step == AcceptStep::Insert,
        accept_after(step, result) matches AcceptStep::Register(events) ==> events
            == 0x8000_0001u32,
        accept_after(step, result) == AcceptStep::Fail <==> step == AcceptStep::Fail || (step
            == AcceptStep::Accept && result == CallResult::Failed) || ((step
            == AcceptStep::SetNonblocking || step is Register) && result != CallResult::Done),
{
}

/// The step that accepting has come to after calls that gave `results`, the
/// first of them first.
pub open spec fn accept_run(results: Seq<CallResult>) -> AcceptStep
    decreases results.len(),
{
    if results.len() == 0 {
        AcceptStep::Accept
    } else {
        accept_after(accept_run(results.drop_last()), results.last())
    }
}

/// Every connection that is waiting is accepted: each is accepted, made
/// non-blocking, registered and entered, in this order, the next one follows,
/// and all is done once accepting would have to wait.
pub proof fn law_all_waiting_are_accepted(results: Seq<CallResult>)
    requires
        forall|i: int| 0 <= i < results.len() ==> #[trigger] results[i] == CallResult::Done,
    ensures
        results.len() % 4 == 0 ==> accept_run(results) == AcceptStep::Accept,
        results.len() % 4 == 1 ==> accept_run(results) == AcceptStep::SetNonblocking,
        results.len() % 4 == 2 ==> accept_run(results) == AcceptStep::Register(0x8000_0001),
        results.len() % 4 == 3 ==> accept_run(results) == AcceptStep::Insert,
        results.len() % 4 == 0 ==> accept_run(results.push(CallResult::WouldBlock))
            == AcceptStep::Finish,
    decreases results.len(),
{
    let more = results.push(CallResult::WouldBlock);
    assert(more.drop_last() =~= results);
    if results.len() > 0 {
        let before = results.drop_last();
        assert forall|i: int| 0 <= i < before.len() implies #[trigger] before[i]
            == CallResult::Done by {
            assert(results[i] == CallResult::Done);
        }
        assert(results[results.len() - 1] == CallResult::Done);
        law_all_waiting_are_accepted(before);
    }
}

} // verus!
