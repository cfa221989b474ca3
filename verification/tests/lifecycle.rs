use echo_reactor::errors::EventError;
use echo_reactor::event_loop::AcceptOutcome;
use echo_reactor::event_loop::EventDispatchOutcome;
use echo_reactor::event_loop::EventLoop;
use echo_reactor::event_loop::LoopPhase;
use echo_reactor::event_loop::SignalOutcome;
use echo_reactor::event_loop::GRACE_PERIOD_MICROS;
use echo_reactor::handles::HandleLedger;
use echo_reactor::server::build_echo_server;
use echo_reactor::server::ECHO_PORT;
use echo_reactor::server::SIGINT;
use echo_reactor::socket::BEV_EVENT_EOF;

#[test]
fn ledger_release_moves_ids_exactly_once() {
    let mut ledger = HandleLedger::new();
    let a = ledger.issue().unwrap();
    let b = ledger.issue().unwrap();
    assert_eq!((a, b), (0, 1));
    assert_eq!(ledger.live_count(), 2);
    assert!(ledger.release(a));
    assert!(!ledger.release(a), "a second release must be refused");
    assert!(ledger.release(b));
    assert_eq!(ledger.live_count(), 0);
    assert_eq!(ledger.released_count(), 2);
    assert_eq!(ledger.released, vec![0, 1]);
}

#[test]
fn multiplexer_allocation_failure_is_init_error() {
    let mut ledger = HandleLedger::new();
    ledger.inject_alloc_failure();
    match EventLoop::try_new(ledger) {
        Err(e) => assert_eq!(e, EventError::InitError),
        Ok(_) => panic!("the refused allocation must fail startup"),
    }
}

#[test]
fn startup_wires_listener_and_signal() {
    let lp = build_echo_server(HandleLedger::new()).unwrap();
    assert_eq!(lp.data.connection_listeners.len(), 1);
    assert_eq!(lp.data.connection_listeners[0].port, ECHO_PORT);
    assert_eq!(lp.data.signal_events.len(), 1);
    assert_eq!(lp.data.signal_events[0].signum, SIGINT);
    assert_eq!(lp.data.socket_map.len(), 0);
    assert_eq!(lp.phase(), LoopPhase::Running);
    assert_eq!(lp.run_result(), Ok(()));
}

#[test]
fn bind_failure_is_bind_error() {
    let mut lp = EventLoop::try_new(HandleLedger::new()).unwrap();
    lp.data.ledger.inject_alloc_failure();
    assert_eq!(lp.bind_inet_port(ECHO_PORT), Err(EventError::BindError));
    assert_eq!(lp.data.connection_listeners.len(), 0);
}

#[test]
fn signal_registration_failure_is_register_error() {
    let mut lp = EventLoop::try_new(HandleLedger::new()).unwrap();
    lp.data.ledger.inject_alloc_failure();
    assert_eq!(lp.handle_signal(SIGINT), Err(EventError::RegisterError));
    assert_eq!(lp.data.signal_events.len(), 0);
}

#[test]
fn accept_failure_stays_at_connection_scope() {
    let mut lp = build_echo_server(HandleLedger::new()).unwrap();
    lp.data.ledger.inject_alloc_failure();
    assert_eq!(lp.on_accept(3), AcceptOutcome::NotAdopted);
    assert_eq!(lp.data.socket_errs, vec![EventError::ConnectionError]);
    // the reactor runs on: the failure never escalates
    assert_eq!(lp.phase(), LoopPhase::Running);
    assert_eq!(lp.run_result(), Ok(()));
    assert_eq!(lp.on_accept(3), AcceptOutcome::Adopted);
}

#[test]
fn termination_signal_schedules_two_second_grace() {
    let mut lp = build_echo_server(HandleLedger::new()).unwrap();
    assert_eq!(lp.on_signal(SIGINT), SignalOutcome::ExitScheduled(GRACE_PERIOD_MICROS));
    assert_eq!(GRACE_PERIOD_MICROS, 2_000_000);
    assert_eq!(lp.phase(), LoopPhase::ExitScheduled);
    assert_eq!(lp.data.exit_delay_micros, Some(2_000_000));

    // accepts are still dispatched during the grace period
    assert_eq!(lp.on_accept(6), AcceptOutcome::Adopted);

    lp.on_grace_elapsed();
    assert_eq!(lp.phase(), LoopPhase::Stopped);
    // no new accept is dispatched once the grace period elapsed
    assert_eq!(lp.on_accept(9), AcceptOutcome::NotAdopted);
    assert_eq!(lp.data.socket_map.len(), 1);
    // no break-error was recorded: the process exits with status 0
    assert_eq!(lp.run_result(), Ok(()));
}

#[test]
fn unregistered_signal_is_ignored() {
    let mut lp = build_echo_server(HandleLedger::new()).unwrap();
    assert_eq!(lp.on_signal(15), SignalOutcome::Ignored);
    assert_eq!(lp.phase(), LoopPhase::Running);
}

#[test]
fn break_records_the_error_for_the_caller() {
    let mut lp = build_echo_server(HandleLedger::new()).unwrap();
    lp.break_with_err(EventError::ConnectionError);
    assert_eq!(lp.phase(), LoopPhase::Stopped);
    assert_eq!(lp.run_result(), Err(EventError::ConnectionError));
}

#[test]
fn exit_records_the_requested_delay() {
    let mut lp = build_echo_server(HandleLedger::new()).unwrap();
    assert_eq!(lp.exit(123), Ok(()));
    assert_eq!(lp.data.exit_delay_micros, Some(123));
    assert_eq!(lp.phase(), LoopPhase::ExitScheduled);
}

#[test]
fn teardown_releases_every_registration_exactly_once() {
    let mut lp = build_echo_server(HandleLedger::new()).unwrap();
    assert_eq!(lp.on_accept(7), AcceptOutcome::Adopted);
    assert_eq!(lp.on_accept(8), AcceptOutcome::Adopted);
    // base 0; listener ctx 1, handle 2; signal ctx 3, handle 4;
    // socket 7: transport 5, ctx 6; socket 8: transport 7, ctx 8
    assert_eq!(lp.data.ledger.live_count(), 9);

    let ledger = lp.teardown();
    assert_eq!(ledger.live_count(), 0);
    // sockets first (handle before paired context), then the listener, then
    // the signal registration, then the multiplexer handle last
    assert_eq!(ledger.released, vec![5, 6, 7, 8, 2, 1, 4, 3, 0]);
    let mut seen = ledger.released.clone();
    seen.sort();
    seen.dedup();
    assert_eq!(seen.len(), 9, "every identifier is released exactly once");
}

#[test]
fn teardown_after_a_close_skips_what_left_already() {
    let mut lp = build_echo_server(HandleLedger::new()).unwrap();
    assert_eq!(lp.on_accept(7), AcceptOutcome::Adopted);
    assert_eq!(lp.on_socket_event(7, BEV_EVENT_EOF), EventDispatchOutcome::ClosedClean);
    // the closed socket's transport and context were released at close time
    assert_eq!(lp.data.ledger.released, vec![5, 6]);
    let ledger = lp.teardown();
    assert_eq!(ledger.live_count(), 0);
    assert_eq!(ledger.released, vec![5, 6, 2, 1, 4, 3, 0]);
}

#[test]
fn base_ptr_names_the_multiplexer_handle() {
    let lp = build_echo_server(HandleLedger::new()).unwrap();
    assert_eq!(lp.data.base_ptr(), 0);
}
