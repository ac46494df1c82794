use http_server::connections::{
    close_connection, empty_table, event_target, insert_connection, settle, Target,
};
use http_server::epoll::{
    event_fd, event_token, listener_events, read_events, wait_step, write_events, ConnState,
    Connection, WaitStep,
};
use http_server::listener::{
    accept_next, backlog, endpoint, setup_next, AcceptStep, CallResult, ListenAddr, SetupError,
    SetupStep, MAX_CONNECTIONS,
};
use http_server::server::ReadOutcome;
use http_server::sink::RESPONSE_SIZE;

#[test]
fn event_masks_are_those_of_the_kernel() {
    assert_eq!(listener_events(), libc::EPOLLIN as u32);
    assert_eq!(read_events(), (libc::EPOLLIN | libc::EPOLLET) as u32);
    assert_eq!(write_events(), (libc::EPOLLOUT | libc::EPOLLET) as u32);
    assert_eq!(read_events(), 0x8000_0001);
    assert_eq!(write_events(), 0x8000_0004);
}

#[test]
fn an_event_names_its_descriptor() {
    for fd in [0, 1, 4095, i32::MAX, -1, i32::MIN] {
        assert_eq!(event_fd(event_token(fd)), fd);
    }
    assert_eq!(event_token(7), 7);
    assert_eq!(event_token(-1), u64::MAX);
    assert_eq!(event_fd(0x1_0000_0002), 2);
}

#[test]
fn an_event_has_a_target() {
    assert_eq!(event_target(3, 3), Target::Listener);
    assert_eq!(event_target(4, 3), Target::Connection(4));
}

#[test]
fn waiting_is_repeated_after_a_signal_only() {
    assert_eq!(wait_step(-1, true), WaitStep::Retry);
    assert_eq!(wait_step(-1, false), WaitStep::Fail);
    assert_eq!(wait_step(0, true), WaitStep::Ready(0));
    assert_eq!(wait_step(1024, false), WaitStep::Ready(1024));
}

fn slots(table: &[Option<Connection<u8>>]) -> Vec<Option<u8>> {
    table.iter().map(|c| c.as_ref().map(|c| c.stream)).collect()
}

fn is_fresh(connection: &Option<Connection<u8>>) -> bool {
    match connection {
        Some(Connection {
            state:
                ConnState::Reading {
                    buf,
                    read_bytes,
                    header_positions,
                },
            ..
        }) => {
            *read_bytes == 0
                && buf.iter().all(|&b| b == 0)
                && header_positions
                    .iter()
                    .all(|p| p.name == (0, 0) && p.value == (0, 0))
        }
        _ => false,
    }
}

#[test]
fn a_connection_lives_in_its_slot() {
    let mut table: Vec<Option<Connection<u8>>> = empty_table(3);
    assert_eq!(slots(&table), vec![None, None, None]);
    insert_connection(&mut table, 1, 10);
    insert_connection(&mut table, 2, 20);
    assert_eq!(slots(&table), vec![None, Some(10), Some(20)]);
    assert!(is_fresh(&table[1]));

    let mut buf = [0u8; RESPONSE_SIZE];
    buf[0] = 9;
    let outcome = ReadOutcome::Response {
        buf,
        len: 1,
        keep_alive: true,
    };
    assert_eq!(settle(&mut table, 1, outcome), Some(write_events()));
    match &table[1] {
        Some(Connection {
            stream: 10,
            state:
                ConnState::Writing {
                    buf,
                    len: 1,
                    written_bytes: 0,
                    keep_alive: true,
                },
        }) => assert_eq!(buf[0], 9),
        _ => panic!("not writing"),
    }
    assert!(is_fresh(&table[2]));

    assert_eq!(settle(&mut table, 1, ReadOutcome::Pending), None);
    assert!(!is_fresh(&table[1]));
    assert_eq!(
        settle(&mut table, 1, ReadOutcome::Reset),
        Some(read_events())
    );
    assert!(is_fresh(&table[1]));
    assert_eq!(settle(&mut table, 1, ReadOutcome::Close), None);
    assert_eq!(slots(&table), vec![None, None, Some(20)]);
    assert_eq!(settle(&mut table, 1, ReadOutcome::Reset), None);
    assert_eq!(slots(&table), vec![None, None, Some(20)]);
    close_connection(&mut table, 2);
    assert_eq!(slots(&table), vec![None, None, None]);
}

#[test]
fn a_socket_listens_after_every_call() {
    let mut step = SetupStep::CreateSocket;
    let mut seen = vec![step];
    while step != SetupStep::Ready {
        step = setup_next(step, 0);
        seen.push(step);
    }
    assert_eq!(
        seen,
        vec![
            SetupStep::CreateSocket,
            SetupStep::SetReusePort,
            SetupStep::SetReuseAddr,
            SetupStep::Bind,
            SetupStep::Listen,
            SetupStep::Ready,
        ]
    );
    for step in &seen[..5] {
        assert_eq!(setup_next(*step, -1), SetupStep::Failed);
    }
    assert_eq!(setup_next(SetupStep::Ready, -1), SetupStep::Ready);
    assert_eq!(setup_next(SetupStep::Failed, 0), SetupStep::Failed);
    assert_eq!(backlog(), 4096);
    assert_eq!(MAX_CONNECTIONS, 4096);
}

#[test]
fn only_ipv4_has_an_endpoint() {
    let e = endpoint(ListenAddr::V4 {
        octets: [127, 0, 0, 1],
        port: 9876,
    })
    .unwrap_or_else(|_| panic!());
    assert_eq!(e.address, [127, 0, 0, 1]);
    assert_eq!(u16::from_ne_bytes(e.port), 9876u16.to_be());
    match endpoint(ListenAddr::V6) {
        Err(e) => {
            assert_eq!(e, SetupError::OnlyIpv4);
            assert_eq!(e.message(), "only IPv4 is supported");
        }
        Ok(_) => panic!("an endpoint"),
    }
}

#[test]
fn connections_are_accepted_until_none_waits() {
    let events = read_events();
    let steps = [
        (AcceptStep::Accept, CallResult::Done, AcceptStep::SetNonblocking),
        (
            AcceptStep::SetNonblocking,
            CallResult::Done,
            AcceptStep::Register(events),
        ),
        (
            AcceptStep::Register(events),
            CallResult::Done,
            AcceptStep::Insert,
        ),
        (AcceptStep::Insert, CallResult::Done, AcceptStep::Accept),
        (
            AcceptStep::Accept,
            CallResult::WouldBlock,
            AcceptStep::Finish,
        ),
        (AcceptStep::Accept, CallResult::Failed, AcceptStep::Fail),
        (
            AcceptStep::SetNonblocking,
            CallResult::WouldBlock,
            AcceptStep::Fail,
        ),
        (
            AcceptStep::Register(events),
            CallResult::Failed,
            AcceptStep::Fail,
        ),
        (AcceptStep::Finish, CallResult::Done, AcceptStep::Finish),
        (AcceptStep::Fail, CallResult::Done, AcceptStep::Fail),
    ];
    for (step, result, next) in steps {
        assert_eq!(accept_next(step, result), next);
    }
}
