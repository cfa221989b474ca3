use echo_reactor::errors::EventError;
use echo_reactor::event_loop::AcceptOutcome;
use echo_reactor::event_loop::EventDispatchOutcome;
use echo_reactor::event_loop::EventLoop;
use echo_reactor::event_loop::ReadOutcome;
use echo_reactor::handles::HandleLedger;
use echo_reactor::server::build_echo_server;
use echo_reactor::socket::BEV_EVENT_EOF;
use echo_reactor::socket::BEV_EVENT_ERROR;

fn server() -> EventLoop {
    build_echo_server(HandleLedger::new()).expect("startup cannot fail on a fresh ledger")
}

fn expect_echo(lp: &mut EventLoop, fd: i32, bytes: &[u8]) -> Vec<u8> {
    match lp.on_bytes(fd, bytes.to_vec()) {
        ReadOutcome::Echoed(out) => out,
        ReadOutcome::Ignored => panic!("delivery was ignored"),
        ReadOutcome::ClosedOnError(e) => panic!("connection closed: {:?}", e),
    }
}

#[test]
fn ping_round_trip_then_half_close() {
    let mut lp = server();
    assert_eq!(lp.on_accept(10), AcceptOutcome::Adopted);
    assert_eq!(lp.data.socket_map.len(), 1);

    let reply = expect_echo(&mut lp, 10, b"ping");
    assert_eq!(reply, b"ping".to_vec());

    // the peer half-closes: exactly one close notification ...
    assert_eq!(lp.on_socket_event(10, BEV_EVENT_EOF), EventDispatchOutcome::ClosedClean);
    // ... the connection leaves the index ...
    assert_eq!(lp.data.socket_map.len(), 0);
    // ... and nothing is delivered for it afterwards
    assert_eq!(lp.on_socket_event(10, BEV_EVENT_EOF), EventDispatchOutcome::Ignored);
    assert!(matches!(lp.on_bytes(10, b"late".to_vec()), ReadOutcome::Ignored));
    assert_eq!(lp.data.socket_errs.len(), 0);
}

#[test]
fn fragmented_stream_comes_back_whole() {
    let mut lp = server();
    assert_eq!(lp.on_accept(4), AcceptOutcome::Adopted);
    let mut echoed: Vec<u8> = Vec::new();
    for fragment in [&b"p"[..], &b"in"[..], &b""[..], &b"g!"[..]] {
        echoed.extend_from_slice(&expect_echo(&mut lp, 4, fragment));
    }
    assert_eq!(echoed, b"ping!".to_vec());
}

#[test]
fn empty_delivery_echoes_nothing() {
    let mut lp = server();
    assert_eq!(lp.on_accept(4), AcceptOutcome::Adopted);
    assert_eq!(expect_echo(&mut lp, 4, b""), Vec::<u8>::new());
}

#[test]
fn unknown_descriptor_is_ignored() {
    let mut lp = server();
    assert!(matches!(lp.on_bytes(99, b"x".to_vec()), ReadOutcome::Ignored));
    assert_eq!(lp.on_socket_event(99, BEV_EVENT_EOF), EventDispatchOutcome::Ignored);
}

#[test]
fn write_failure_closes_only_that_connection() {
    let mut lp = server();
    assert_eq!(lp.on_accept(7), AcceptOutcome::Adopted);
    assert_eq!(lp.on_accept(8), AcceptOutcome::Adopted);
    assert_eq!(expect_echo(&mut lp, 8, b"before"), b"before".to_vec());

    assert!(lp.inject_write_fault(7));
    match lp.on_bytes(7, b"doomed".to_vec()) {
        ReadOutcome::ClosedOnError(e) => assert_eq!(e, EventError::WriteError),
        _ => panic!("the faulted write must close the connection"),
    }
    assert_eq!(lp.data.socket_errs, vec![EventError::WriteError]);
    assert_eq!(lp.data.socket_map.len(), 1);

    // connection 8 is untouched and still echoes
    assert_eq!(expect_echo(&mut lp, 8, b"after"), b"after".to_vec());
    assert_eq!(lp.data.socket_errs.len(), 1);
}

#[test]
fn forced_close_leaves_other_connection_alone() {
    let mut lp = server();
    assert_eq!(lp.on_accept(7), AcceptOutcome::Adopted);
    assert_eq!(lp.on_accept(8), AcceptOutcome::Adopted);

    assert_eq!(
        lp.on_socket_event(7, BEV_EVENT_ERROR),
        EventDispatchOutcome::ClosedWithError(EventError::ConnectionError)
    );
    assert_eq!(lp.data.socket_errs, vec![EventError::ConnectionError]);
    assert_eq!(lp.data.socket_map.len(), 1);
    assert_eq!(expect_echo(&mut lp, 8, b"still here"), b"still here".to_vec());
}

#[test]
fn recycled_descriptor_overwrites_stale_entry() {
    let mut lp = server();
    assert_eq!(lp.on_accept(5), AcceptOutcome::Adopted);
    let released_before = lp.data.ledger.released.len();
    // the OS recycled descriptor 5 without the stale entry having left
    assert_eq!(lp.on_accept(5), AcceptOutcome::Adopted);
    assert_eq!(lp.data.socket_map.len(), 1);
    // the stale socket's transport handle and context were released
    assert_eq!(lp.data.ledger.released.len(), released_before + 2);
    assert_eq!(expect_echo(&mut lp, 5, b"fresh"), b"fresh".to_vec());
}

#[test]
fn inject_write_fault_reports_unknown_descriptor() {
    let mut lp = server();
    assert!(!lp.inject_write_fault(42));
}
