use echo_reactor::buffer::SocketBufferRef;
use echo_reactor::errors::EventError;
use echo_reactor::socket::check_event_mask;
use echo_reactor::socket::Socket;
use echo_reactor::socket::BEV_EVENT_CONNECTED;
use echo_reactor::socket::BEV_EVENT_EOF;
use echo_reactor::socket::BEV_EVENT_ERROR;
use echo_reactor::socket::BEV_EVENT_TIMEOUT;

#[test]
fn buffer_append_keeps_order() {
    let mut b = SocketBufferRef::new();
    assert_eq!(b.len(), 0);
    assert_eq!(b.add_bytes(vec![1, 2, 3]), Ok(()));
    assert_eq!(b.len(), 3);
    assert_eq!(b.add_bytes(vec![4, 5]), Ok(()));
    assert_eq!(b.len(), 5);
    assert_eq!(b.remove_all_bytes(), vec![1, 2, 3, 4, 5]);
    assert_eq!(b.len(), 0);
}

#[test]
fn buffer_remove_bytes_caps_at_max() {
    let mut b = SocketBufferRef::new();
    assert_eq!(b.add_bytes(vec![1, 2, 3, 4, 5]), Ok(()));
    assert_eq!(b.remove_bytes(2), vec![1, 2]);
    assert_eq!(b.len(), 3);
    assert_eq!(b.remove_bytes(100), vec![3, 4, 5]);
    assert_eq!(b.len(), 0);
    assert_eq!(b.remove_bytes(4), Vec::<u8>::new());
}

#[test]
fn buffer_drains_more_than_one_transfer_chunk() {
    let mut b = SocketBufferRef::new();
    let big: Vec<u8> = (0..10000u32).map(|i| (i % 251) as u8).collect();
    assert_eq!(b.add_bytes(big.clone()), Ok(()));
    assert_eq!(b.len(), 10000);
    let out = b.remove_all_bytes();
    assert_eq!(out, big);
    assert_eq!(b.len(), 0);
}

#[test]
fn buffer_move_to_transfers_up_to_max() {
    let mut src = SocketBufferRef::new();
    let mut dst = SocketBufferRef::new();
    assert_eq!(src.add_bytes(vec![1, 2, 3]), Ok(()));
    assert_eq!(dst.add_bytes(vec![9]), Ok(()));
    assert_eq!(src.move_to(&mut dst, 2), 2);
    assert_eq!(src.len(), 1);
    assert_eq!(dst.len(), 3);
    assert_eq!(src.move_to(&mut dst, 100), 1);
    assert_eq!(src.len(), 0);
    assert_eq!(dst.remove_all_bytes(), vec![9, 1, 2, 3]);
}

#[test]
fn buffer_enqueue_fault_is_one_shot() {
    let mut b = SocketBufferRef::new();
    assert_eq!(b.add_bytes(vec![1]), Ok(()));
    b.inject_add_failure();
    assert_eq!(b.add_bytes(vec![2]), Err(EventError::WriteError));
    assert_eq!(b.len(), 1);
    assert_eq!(b.add_bytes(vec![3]), Ok(()));
    assert_eq!(b.remove_all_bytes(), vec![1, 3]);
}

#[test]
fn socket_second_read_handler_is_rejected() {
    let mut sock = Socket::new(5, 1, 2);
    assert_eq!(sock.on_data(), Ok(()));
    assert_eq!(sock.on_data(), Err(EventError::AlreadyRegistered));
    // the existing registration is untouched: reads still echo
    assert_eq!(sock.input.add_bytes(vec![7, 8]), Ok(()));
    assert_eq!(sock.handle_read(), None);
    assert_eq!(sock.output.remove_all_bytes(), vec![7, 8]);
}

#[test]
fn socket_handle_read_echoes_whole_input() {
    let mut sock = Socket::new(5, 1, 2);
    assert_eq!(sock.on_data(), Ok(()));
    assert_eq!(sock.input.add_bytes(vec![1, 2, 3]), Ok(()));
    assert_eq!(sock.handle_read(), None);
    assert_eq!(sock.input.len(), 0);
    assert_eq!(sock.output.remove_all_bytes(), vec![1, 2, 3]);
}

#[test]
fn socket_read_without_handler_keeps_bytes_queued() {
    let mut sock = Socket::new(5, 1, 2);
    assert_eq!(sock.input.add_bytes(vec![1, 2]), Ok(()));
    assert_eq!(sock.handle_read(), None);
    assert_eq!(sock.input.len(), 2);
    assert_eq!(sock.output.len(), 0);
}

#[test]
fn socket_write_fault_closes_with_error() {
    let mut sock = Socket::new(5, 1, 2);
    assert_eq!(sock.on_data(), Ok(()));
    sock.output.inject_add_failure();
    assert_eq!(sock.input.add_bytes(vec![1]), Ok(()));
    assert_eq!(sock.handle_read(), Some(Err(EventError::WriteError)));
    // the close notification was consumed: closing again reports nothing
    assert_eq!(sock.close(), None);
}

#[test]
fn socket_close_notifies_exactly_once() {
    let mut sock = Socket::new(5, 1, 2);
    assert_eq!(sock.close(), Some(Ok(())));
    assert_eq!(sock.close(), None);
    assert_eq!(sock.close_with_err(EventError::ConnectionError), None);
}

#[test]
fn socket_close_with_error_carries_it() {
    let mut sock = Socket::new(5, 1, 2);
    assert_eq!(
        sock.close_with_err(EventError::ConnectionError),
        Some(Err(EventError::ConnectionError))
    );
    assert_eq!(sock.close(), None);
}

#[test]
fn socket_event_eof_closes_cleanly() {
    let mut sock = Socket::new(5, 1, 2);
    assert_eq!(sock.handle_event(BEV_EVENT_EOF), Some(Ok(())));
    assert_eq!(sock.handle_event(BEV_EVENT_ERROR), None);
}

#[test]
fn socket_event_error_closes_with_connection_error() {
    let mut sock = Socket::new(5, 1, 2);
    assert_eq!(
        sock.handle_event(BEV_EVENT_ERROR),
        Some(Err(EventError::ConnectionError))
    );
}

#[test]
fn socket_event_timeout_and_connected_are_noops() {
    let mut sock = Socket::new(5, 1, 2);
    assert_eq!(sock.handle_event(BEV_EVENT_TIMEOUT), None);
    assert_eq!(sock.handle_event(BEV_EVENT_CONNECTED), None);
    // the close handler is still armed afterwards
    assert_eq!(sock.close(), Some(Ok(())));
}

#[test]
fn event_mask_must_hold_exactly_one_condition() {
    assert!(check_event_mask(BEV_EVENT_EOF));
    assert!(check_event_mask(BEV_EVENT_ERROR));
    assert!(check_event_mask(BEV_EVENT_TIMEOUT));
    assert!(check_event_mask(BEV_EVENT_CONNECTED));
    assert!(!check_event_mask(0));
    assert!(!check_event_mask(BEV_EVENT_EOF | BEV_EVENT_ERROR));
    assert!(!check_event_mask(BEV_EVENT_TIMEOUT | BEV_EVENT_CONNECTED));
}
