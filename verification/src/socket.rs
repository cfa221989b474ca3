use vstd::prelude::*;

use crate::buffer::SocketBufferRef;
use crate::errors::EventError;

verus! {

/// Event-mask bit: the peer half-closed the connection.
pub const BEV_EVENT_EOF: u16 = 0x10;
/// Event-mask bit: an unrecoverable error was reported on the connection.
pub const BEV_EVENT_ERROR: u16 = 0x20;
/// Event-mask bit: a configured timeout fired (none is configured here).
pub const BEV_EVENT_TIMEOUT: u16 = 0x40;
/// Event-mask bit: an outbound connect completed (none originates here).
pub const BEV_EVENT_CONNECTED: u16 = 0x80;

/// Whether `flag` is set in `events`.
pub open spec fn flag_set(events: u16, flag: u16) -> bool {
    events & flag != 0
}

/// The structural invariant of a delivered event mask: exactly one of
/// EOF, error, timeout, and connected holds. A mask that breaks this must
/// be rejected at the trampoline boundary, before dispatch.
pub open spec fn valid_event_mask(events: u16) -> bool {
    (if flag_set(events, BEV_EVENT_EOF) { 1int } else { 0int })
        + (if flag_set(events, BEV_EVENT_ERROR) { 1int } else { 0int })
        + (if flag_set(events, BEV_EVENT_TIMEOUT) { 1int } else { 0int })
        + (if flag_set(events, BEV_EVENT_CONNECTED) { 1int } else { 0int }) == 1
}

/// Run-time check of `valid_event_mask`, for the trampoline that receives a
/// raw mask from the OS and must assert its shape before dispatching.
pub fn check_event_mask(events: u16) -> (r: bool)
    ensures
        r == valid_event_mask(events),
{
    let eof: bool = events & BEV_EVENT_EOF != 0;
    let error: bool = events & BEV_EVENT_ERROR != 0;
    let timeout: bool = events & BEV_EVENT_TIMEOUT != 0;
    let connected: bool = events & BEV_EVENT_CONNECTED != 0;
    let count: u32 = (if eof { 1u32 } else { 0u32 }) + (if error { 1u32 } else { 0u32 })
        + (if timeout { 1u32 } else { 0u32 }) + (if connected { 1u32 } else { 0u32 });
    count == 1
}

/// What one read delivery hands back on an echo connection: everything that
/// was already queued inbound, followed by the newly arrived bytes.
pub open spec fn echo_reply(queued: Seq<u8>, arriving: Seq<u8>) -> Seq<u8> {
    queued + arriving
}

/// The replies an echo connection produces for a run of fragment
/// deliveries, starting from `queued` bytes already in the inbound queue:
/// each delivery answers with the whole inbound queue, which is empty again
/// afterwards.
pub open spec fn echo_replies(queued: Seq<u8>, fragments: Seq<Seq<u8>>) -> Seq<Seq<u8>>
    decreases fragments.len(),
{
    if fragments.len() == 0 {
        Seq::<Seq<u8>>::empty()
    } else {
        seq![echo_reply(queued, fragments[0])]
            + echo_replies(Seq::<u8>::empty(), fragments.skip(1))
    }
}

/// On a connection with at least one delivery, the echoed stream is the
/// queued bytes followed by everything delivered, in order.
pub proof fn lemma_echo_replies_flatten(queued: Seq<u8>, fragments: Seq<Seq<u8>>)
    requires
        fragments.len() > 0,
    ensures
        echo_replies(queued, fragments).flatten() == queued + fragments.flatten(),
    decreases fragments.len(),
{
    let replies = echo_replies(queued, fragments);
    assert(replies == seq![echo_reply(queued, fragments[0])]
        + echo_replies(Seq::<u8>::empty(), fragments.skip(1)));
    assert(replies.len() > 0);
    assert(replies.first() == echo_reply(queued, fragments[0]));
    assert(replies.drop_first() =~= echo_replies(Seq::<u8>::empty(), fragments.skip(1)));
    assert(replies.flatten() == replies.first() + replies.drop_first().flatten());
    assert(fragments.flatten() == fragments.first() + fragments.drop_first().flatten());
    assert(fragments.drop_first() =~= fragments.skip(1));
    if fragments.len() == 1 {
        assert(echo_replies(Seq::<u8>::empty(), fragments.skip(1))
            =~= Seq::<Seq<u8>>::empty());
        assert(replies.drop_first().flatten() =~= Seq::<u8>::empty());
        assert(fragments.drop_first().flatten() =~= Seq::<u8>::empty());
        assert(replies.flatten() =~= queued + fragments.flatten());
    } else {
        lemma_echo_replies_flatten(Seq::<u8>::empty(), fragments.skip(1));
        assert(replies.drop_first().flatten()
            == Seq::<u8>::empty() + fragments.skip(1).flatten());
        assert(Seq::<u8>::empty() + fragments.skip(1).flatten()
            =~= fragments.skip(1).flatten());
        assert(replies.flatten() =~= queued + fragments.flatten());
    }
}

/// For every run of fragment deliveries on a freshly accepted connection —
/// whose inbound queue starts empty — the bytes echoed back, concatenated in
/// delivery order, equal the bytes sent, concatenated in delivery order:
/// fragmentation does not change the stream.
pub proof fn lemma_echo_round_trip(fragments: Seq<Seq<u8>>)
    ensures
        echo_replies(Seq::<u8>::empty(), fragments).flatten() == fragments.flatten(),
{
    if fragments.len() == 0 {
        assert(echo_replies(Seq::<u8>::empty(), fragments).flatten()
            =~= fragments.flatten());
    } else {
        lemma_echo_replies_flatten(Seq::<u8>::empty(), fragments);
        assert(Seq::<u8>::empty() + fragments.flatten() =~= fragments.flatten());
    }
}

/// The bookkeeping of one accepted connection: its descriptor, the ledger
/// identifiers of its buffered-transport handle and its callback context,
/// and which handlers are in place.
pub struct SocketDataHolder {
    /// OS-assigned descriptor of this connection.
    pub fd: i32,
    /// Ledger identifier of the buffered-transport handle.
    pub bev_handle: u64,
    /// Ledger identifier of the callback context registered with the
    /// transport; released together with — and never before — the handle.
    pub cb_ctx: u64,
    /// Whether the inbound-bytes (echo) handler is registered.
    pub read_cb: bool,
    /// Whether the close handler is still armed; it fires exactly once.
    pub close_cb: bool,
}

impl SocketDataHolder {
    /// Fresh bookkeeping for a connection: no read handler yet, close
    /// handler armed.
    pub fn new(fd: i32, bev_handle: u64, cb_ctx: u64) -> (d: Self)
        ensures
            d.fd == fd,
            d.bev_handle == bev_handle,
            d.cb_ctx == cb_ctx,
            !d.read_cb,
            d.close_cb,
    {
        SocketDataHolder { fd, bev_handle, cb_ctx, read_cb: false, close_cb: true }
    }
}

/// One accepted connection: its bookkeeping and its two byte queues.
pub struct Socket {
    pub data: SocketDataHolder,
    /// Bytes that arrived and were not yet handed to the read handler.
    pub input: SocketBufferRef,
    /// Bytes queued for transmission back to the peer.
    pub output: SocketBufferRef,
}

impl Socket {
    /// A fresh connection over the given descriptor and ledger identifiers:
    /// empty queues, close handler armed, no read handler.
    pub fn new(fd: i32, bev_handle: u64, cb_ctx: u64) -> (s: Self)
        ensures
            s.data == (SocketDataHolder {
                fd,
                bev_handle,
                cb_ctx,
                read_cb: false,
                close_cb: true,
            }),
            s.input@ == Seq::<u8>::empty(),
            s.output@ == Seq::<u8>::empty(),
            !s.input.add_fault_pending(),
            !s.output.add_fault_pending(),
    {
        Socket {
            data: SocketDataHolder::new(fd, bev_handle, cb_ctx),
            input: SocketBufferRef::new(),
            output: SocketBufferRef::new(),
        }
    }

    /// The inbound queue.
    pub fn input_buffer(&self) -> (b: &SocketBufferRef)
        ensures
            b == &self.input,
    {
        &self.input
    }

    /// The outbound queue.
    pub fn output_buffer(&self) -> (b: &SocketBufferRef)
        ensures
            b == &self.output,
    {
        &self.output
    }

    /// Register the inbound-bytes handler. Exactly one may be set: a second
    /// registration fails with `AlreadyRegistered` and replaces nothing.
    pub fn on_data(&mut self) -> (r: Result<(), EventError>)
        ensures
            old(self).data.read_cb ==> {
                &&& r == Err::<(), EventError>(EventError::AlreadyRegistered)
                &&& *final(self) == *old(self)
            },
            !old(self).data.read_cb ==> {
                &&& r == Ok::<(), EventError>(())
                &&& final(self).data == (SocketDataHolder { read_cb: true, ..old(self).data })
                &&& final(self).input == old(self).input
                &&& final(self).output == old(self).output
            },
    {
        if self.data.read_cb {
            return Err(EventError::AlreadyRegistered);
        }
        self.data.read_cb = true;
        Ok(())
    }

    /// Append bytes to the outbound queue; `WriteError` exactly when the
    /// queue cannot grow (its enqueue fault is armed).
    pub fn write(&mut self, bytes: Vec<u8>) -> (r: Result<(), EventError>)
        ensures
            final(self).data == old(self).data,
            final(self).input == old(self).input,
            final(self).output.add_fault_pending() == false,
            old(self).output.add_fault_pending() ==> {
                &&& r == Err::<(), EventError>(EventError::WriteError)
                &&& final(self).output@ == old(self).output@
            },
            !old(self).output.add_fault_pending() ==> {
                &&& r == Ok::<(), EventError>(())
                &&& final(self).output@ == old(self).output@ + bytes@
            },
    {
        self.output.add_bytes(bytes)
    }

    /// Invoke the close handler with success. It fires exactly once: the
    /// first close returns the notification, every later one returns `None`
    /// and changes nothing.
    pub fn close(&mut self) -> (r: Option<Result<(), EventError>>)
        ensures
            old(self).data.close_cb ==> r == Some(Ok::<(), EventError>(())),
            !old(self).data.close_cb ==> {
                &&& r is None
                &&& *final(self) == *old(self)
            },
            final(self).data == (SocketDataHolder { close_cb: false, ..old(self).data }),
            final(self).input == old(self).input,
            final(self).output == old(self).output,
    {
        if self.data.close_cb {
            self.data.close_cb = false;
            Some(Ok(()))
        } else {
            None
        }
    }

    /// Invoke the close handler with the carried error. Exactly once, as
    /// with `close`.
    pub fn close_with_err(&mut self, err: EventError) -> (r: Option<Result<(), EventError>>)
        ensures
            old(self).data.close_cb ==> r == Some(Err::<(), EventError>(err)),
            !old(self).data.close_cb ==> {
                &&& r is None
                &&& *final(self) == *old(self)
            },
            final(self).data == (SocketDataHolder { close_cb: false, ..old(self).data }),
            final(self).input == old(self).input,
            final(self).output == old(self).output,
    {
        if self.data.close_cb {
            self.data.close_cb = false;
            Some(Err(err))
        } else {
            None
        }
    }

    /// Read notification: with a handler registered, drain the whole inbound
    /// queue — looping the transfer primitive until nothing is left — and
    /// echo it into the outbound queue. A failing echo write closes the
    /// connection with that error; the returned notification, if any, is the
    /// close notification. Without a handler the delivery changes nothing.
    pub fn handle_read(&mut self) -> (r: Option<Result<(), EventError>>)
        ensures
            !old(self).data.read_cb ==> {
                &&& r is None
                &&& *final(self) == *old(self)
            },
            old(self).data.read_cb && !old(self).output.add_fault_pending() ==> {
                &&& r is None
                &&& final(self).data == old(self).data
                &&& final(self).input@ == Seq::<u8>::empty()
                &&& final(self).output@ == echo_reply(old(self).output@, old(self).input@)
                &&& final(self).input.add_fault_pending() == old(self).input.add_fault_pending()
                &&& !final(self).output.add_fault_pending()
            },
            old(self).data.read_cb && old(self).output.add_fault_pending() ==> {
                &&& (if old(self).data.close_cb {
                    r == Some(Err::<(), EventError>(EventError::WriteError))
                } else {
                    r is None
                })
                &&& final(self).data == (SocketDataHolder { close_cb: false, ..old(self).data })
                &&& final(self).input@ == Seq::<u8>::empty()
                &&& final(self).output@ == old(self).output@
                &&& !final(self).output.add_fault_pending()
            },
    {
        if !self.data.read_cb {
            return None;
        }
        let bytes = self.input.remove_all_bytes();
        match self.write(bytes) {
            Ok(()) => None,
            Err(err) => self.close_with_err(err),
        }
    }

    /// Write notification: informational only — the outbound queue has fully
    /// drained — and requires no action.
    pub fn handle_write(&self) {
    }

    /// Event notification. The mask must satisfy the structural invariant
    /// that exactly one condition holds. EOF closes cleanly; an error closes
    /// with `ConnectionError`; timeout and connected are no-ops here, since
    /// no timeout is configured and no outbound connect ever originates. The
    /// returned notification, if any, is the close notification.
    pub fn handle_event(&mut self, events: u16) -> (r: Option<Result<(), EventError>>)
        requires
            valid_event_mask(events),
        ensures
            flag_set(events, BEV_EVENT_EOF) ==> {
                &&& (if old(self).data.close_cb {
                    r == Some(Ok::<(), EventError>(()))
                } else {
                    r is None
                })
                &&& final(self).data == (SocketDataHolder { close_cb: false, ..old(self).data })
                &&& final(self).input == old(self).input
                &&& final(self).output == old(self).output
            },
            flag_set(events, BEV_EVENT_ERROR) ==> {
                &&& (if old(self).data.close_cb {
                    r == Some(Err::<(), EventError>(EventError::ConnectionError))
                } else {
                    r is None
                })
                &&& final(self).data == (SocketDataHolder { close_cb: false, ..old(self).data })
                &&& final(self).input == old(self).input
                &&& final(self).output == old(self).output
            },
            flag_set(events, BEV_EVENT_TIMEOUT) || flag_set(events, BEV_EVENT_CONNECTED) ==> {
                &&& r is None
                &&& *final(self) == *old(self)
            },
    {
        let eof: bool = events & BEV_EVENT_EOF != 0;
        let error: bool = events & BEV_EVENT_ERROR != 0;
        if eof {
            self.close()
        } else if error {
            self.close_with_err(EventError::ConnectionError)
        } else {
            None
        }
    }
}

} // verus!
