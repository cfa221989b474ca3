use vstd::prelude::*;
use vstd::multiset::Multiset;

use crate::errors::EventError;
use crate::handles::HandleLedger;
use crate::socket::BEV_EVENT_EOF;
use crate::socket::BEV_EVENT_ERROR;
use crate::socket::Socket;
use crate::socket::SocketDataHolder;
use crate::socket::echo_reply;
use crate::socket::flag_set;
use crate::socket::valid_event_mask;

verus! {

broadcast use
    vstd::seq_lib::lemma_seq_concat_contains_all_elements,
    vstd::seq_lib::lemma_seq_contains_after_push,
    vstd::seq_lib::lemma_seq_empty_contains_nothing,
    vstd::seq_lib::lemma_multiset_commutative,
    vstd::seq_lib::group_to_multiset_ensures,
    vstd::multiset::group_multiset_axioms;

/// The grace period between the termination signal and loop exit, in
/// microseconds: a fixed two seconds.
pub const GRACE_PERIOD_MICROS: u64 = 2_000_000;

/// One bound listening registration: the port it serves, the ledger
/// identifier of the listening handle, and that of the heap-held accept
/// callback context registered with it.
pub struct ListenerReg {
    pub port: u16,
    pub handle: u64,
    pub ctx: u64,
}

/// One persistent signal registration: the signal number, the ledger
/// identifier of the signal event, and that of its callback context.
pub struct SignalReg {
    pub signum: u32,
    pub handle: u64,
    pub ctx: u64,
}

/// Where the dispatch loop stands.
#[derive(Clone, Copy, Debug, PartialEq, Eq, Structural)]
pub enum LoopPhase {
    /// Dispatching normally.
    Running,
    /// A termination signal was taken: dispatch continues until the grace
    /// period elapses.
    ExitScheduled,
    /// Dispatch is over; no further event is dispatched.
    Stopped,
}

/// What the caller driving the OS must do after an accept delivery.
#[derive(Clone, Copy, Debug, PartialEq, Eq, Structural)]
pub enum AcceptOutcome {
    /// The descriptor was adopted into a registered socket.
    Adopted,
    /// The descriptor was not adopted; the caller must close it so that it
    /// does not leak.
    NotAdopted,
}

/// What the caller driving the OS must do after a read delivery.
pub enum ReadOutcome {
    /// No socket is indexed under the descriptor, or dispatch is over:
    /// nothing happened.
    Ignored,
    /// The connection echoed; the carried bytes are its flushed outbound
    /// queue and must be sent to the peer.
    Echoed(Vec<u8>),
    /// Echoing failed at the outbound queue; the connection was closed with
    /// the carried error, exactly one close notification.
    ClosedOnError(EventError),
}

/// What the caller driving the OS must do after an event-mask delivery.
#[derive(Clone, Copy, Debug, PartialEq, Eq, Structural)]
pub enum EventDispatchOutcome {
    /// No socket is indexed under the descriptor, or dispatch is over, or
    /// the condition asks for nothing.
    Ignored,
    /// EOF: the connection was closed cleanly, exactly one close
    /// notification.
    ClosedClean,
    /// Error: the connection was closed with the carried error, exactly one
    /// close notification.
    ClosedWithError(EventError),
}

/// What the caller driving the OS must do after a signal delivery.
#[derive(Clone, Copy, Debug, PartialEq, Eq, Structural)]
pub enum SignalOutcome {
    /// The signal is not registered, or dispatch is over.
    Ignored,
    /// Termination was taken: the caller must arm a timer for the carried
    /// grace period, in microseconds, and report its expiry.
    ExitScheduled(u64),
}

/// No two indexed sockets share a descriptor.
pub open spec fn fds_unique(s: Seq<Socket>) -> bool {
    forall|i: int, j: int|
        0 <= i < s.len() && 0 <= j < s.len() && i != j ==> s[i].data.fd != s[j].data.fd
}

/// Some indexed socket has this descriptor.
pub open spec fn has_fd(s: Seq<Socket>, fd: i32) -> bool {
    exists|i: int| 0 <= i < s.len() && s[i].data.fd == fd
}

/// The index of the socket with this descriptor (meaningful under
/// `has_fd`; unique under `fds_unique`).
pub open spec fn idx_of(s: Seq<Socket>, fd: i32) -> int {
    choose|i: int| 0 <= i < s.len() && s[i].data.fd == fd
}

/// `idx_of` points at a socket with the looked-up descriptor.
pub proof fn lemma_idx_of(s: Seq<Socket>, fd: i32)
    requires
        has_fd(s, fd),
    ensures
        0 <= idx_of(s, fd) < s.len(),
        s[idx_of(s, fd)].data.fd == fd,
{
}

/// The ledger identifiers owned by a run of sockets, in teardown order:
/// for each socket its transport handle first, then its callback context.
pub open spec fn socket_ids(s: Seq<Socket>) -> Seq<u64>
    decreases s.len(),
{
    if s.len() == 0 {
        Seq::<u64>::empty()
    } else {
        seq![s[0].data.bev_handle, s[0].data.cb_ctx] + socket_ids(s.skip(1))
    }
}

/// The ledger identifiers owned by a run of listener registrations, in
/// teardown order: each listening handle first, then its context.
pub open spec fn listener_ids(s: Seq<ListenerReg>) -> Seq<u64>
    decreases s.len(),
{
    if s.len() == 0 {
        Seq::<u64>::empty()
    } else {
        seq![s[0].handle, s[0].ctx] + listener_ids(s.skip(1))
    }
}

/// The ledger identifiers owned by a run of signal registrations, in
/// teardown order: each signal event first, then its context.
pub open spec fn signal_ids(s: Seq<SignalReg>) -> Seq<u64>
    decreases s.len(),
{
    if s.len() == 0 {
        Seq::<u64>::empty()
    } else {
        seq![s[0].handle, s[0].ctx] + signal_ids(s.skip(1))
    }
}

/// The bookkeeping of one reactor: the multiplexer handle, the resource
/// ledger, every live registration, the descriptor index of live sockets,
/// the per-connection errors collected so far, and the break-error.
pub struct EventLoopDataHolder {
    /// Ledger identifier of the multiplexer handle.
    pub base: u64,
    /// The resource ledger every handle and context of this reactor is
    /// accounted in.
    pub ledger: HandleLedger,
    /// Live listening registrations.
    pub connection_listeners: Vec<ListenerReg>,
    /// Live signal registrations.
    pub signal_events: Vec<SignalReg>,
    /// The canonical descriptor index: the live sockets, one per descriptor.
    pub socket_map: Vec<Socket>,
    /// Connection-scope errors, recorded in arrival order; they never
    /// escalate to the reactor.
    pub socket_errs: Vec<EventError>,
    /// The error recorded by the explicit break path, if any.
    pub break_reason_err: Option<EventError>,
    /// The scheduled exit delay, once termination was taken.
    pub exit_delay_micros: Option<u64>,
    /// Where dispatch stands.
    pub phase: LoopPhase,
}

impl EventLoopDataHolder {
    /// Fresh bookkeeping around an already-issued multiplexer handle.
    pub fn new(base: u64, ledger: HandleLedger) -> (d: Self)
        ensures
            d.base == base,
            d.ledger == ledger,
            d.connection_listeners@ == Seq::<ListenerReg>::empty(),
            d.signal_events@ == Seq::<SignalReg>::empty(),
            d.socket_map@ == Seq::<Socket>::empty(),
            d.socket_errs@ == Seq::<EventError>::empty(),
            d.break_reason_err is None,
            d.exit_delay_micros is None,
            d.phase == LoopPhase::Running,
    {
        EventLoopDataHolder {
            base,
            ledger,
            connection_listeners: Vec::new(),
            signal_events: Vec::new(),
            socket_map: Vec::new(),
            socket_errs: Vec::new(),
            break_reason_err: None,
            exit_delay_micros: None,
            phase: LoopPhase::Running,
        }
    }

    /// The multiplexer handle identifier.
    pub fn base_ptr(&self) -> (b: u64)
        ensures
            b == self.base,
    {
        self.base
    }

    /// Every identifier this reactor still owes the ledger, in the order
    /// teardown releases them: sockets first, then listeners, then signals,
    /// then the multiplexer handle last; within every registration the OS
    /// handle no later than its paired context.
    pub open spec fn release_order(&self) -> Seq<u64> {
        socket_ids(self.socket_map@) + listener_ids(self.connection_listeners@)
            + signal_ids(self.signal_events@) + seq![self.base]
    }

    /// Reactor consistency: the ledger is consistent, descriptors are
    /// unique, every indexed socket still has its close handler armed, and
    /// the live side of the ledger is, as a multiset, exactly what this
    /// reactor owns — so nothing is owned twice, leaked, or borrowed from
    /// elsewhere.
    pub open spec fn wf(&self) -> bool {
        &&& self.ledger.wf()
        &&& fds_unique(self.socket_map@)
        &&& forall|i: int| 0 <= i < self.socket_map@.len() ==> self.socket_map@[i].data.close_cb
        &&& self.release_order().to_multiset() == self.ledger.live@.to_multiset()
    }
}

/// In a consistent reactor, the teardown order releases every owned
/// identifier exactly once, and an identifier is live in the ledger exactly
/// when the reactor owns it.
pub proof fn lemma_wf_ownership(d: &EventLoopDataHolder)
    requires
        d.wf(),
    ensures
        d.release_order().no_duplicates(),
        forall|id: u64| d.ledger.live@.contains(id) <==> d.release_order().contains(id),
{
    d.ledger.live@.lemma_multiset_has_no_duplicates();
    assert forall|x: u64| d.release_order().to_multiset().contains(x)
        implies d.release_order().to_multiset().count(x) == 1 by {
        assert(d.ledger.live@.to_multiset().contains(x));
    }
    d.release_order().lemma_multiset_has_no_duplicates_conv();
    assert forall|id: u64|
        d.ledger.live@.contains(id) <==> d.release_order().contains(id) by {
        assert(d.ledger.live@.contains(id) <==> d.ledger.live@.to_multiset().count(id) > 0);
        assert(d.release_order().contains(id) <==> d.release_order().to_multiset().count(id) > 0);
    }
}

/// Appending a listener registration appends its handle and context to the
/// flattened identifier sequence.
pub proof fn lemma_listener_ids_push(s: Seq<ListenerReg>, r: ListenerReg)
    ensures
        listener_ids(s.push(r)) == listener_ids(s) + seq![r.handle, r.ctx],
    decreases s.len(),
{
    let t = s.push(r);
    assert(t.len() == s.len() + 1);
    if s.len() == 0 {
        assert(t[0] == r);
        assert(t.skip(1) =~= Seq::<ListenerReg>::empty());
        assert(listener_ids(t) == seq![t[0].handle, t[0].ctx] + listener_ids(t.skip(1)));
        assert(listener_ids(t) =~= listener_ids(s) + seq![r.handle, r.ctx]);
    } else {
        assert(t[0] == s[0]);
        assert(t.skip(1) =~= s.skip(1).push(r));
        lemma_listener_ids_push(s.skip(1), r);
        assert(listener_ids(t) == seq![s[0].handle, s[0].ctx]
            + (listener_ids(s.skip(1)) + seq![r.handle, r.ctx]));
        vstd::seq_lib::lemma_concat_associative(
            seq![s[0].handle, s[0].ctx],
            listener_ids(s.skip(1)),
            seq![r.handle, r.ctx],
        );
        assert(listener_ids(s) == seq![s[0].handle, s[0].ctx] + listener_ids(s.skip(1)));
        assert(listener_ids(t) =~= listener_ids(s) + seq![r.handle, r.ctx]);
    }
}

/// Appending a signal registration appends its handle and context to the
/// flattened identifier sequence.
pub proof fn lemma_signal_ids_push(s: Seq<SignalReg>, r: SignalReg)
    ensures
        signal_ids(s.push(r)) == signal_ids(s) + seq![r.handle, r.ctx],
    decreases s.len(),
{
    let t = s.push(r);
    assert(t.len() == s.len() + 1);
    if s.len() == 0 {
        assert(t[0] == r);
        assert(t.skip(1) =~= Seq::<SignalReg>::empty());
        assert(signal_ids(t) == seq![t[0].handle, t[0].ctx] + signal_ids(t.skip(1)));
        assert(signal_ids(t) =~= signal_ids(s) + seq![r.handle, r.ctx]);
    } else {
        assert(t[0] == s[0]);
        assert(t.skip(1) =~= s.skip(1).push(r));
        lemma_signal_ids_push(s.skip(1), r);
        assert(signal_ids(t) == seq![s[0].handle, s[0].ctx]
            + (signal_ids(s.skip(1)) + seq![r.handle, r.ctx]));
        vstd::seq_lib::lemma_concat_associative(
            seq![s[0].handle, s[0].ctx],
            signal_ids(s.skip(1)),
            seq![r.handle, r.ctx],
        );
        assert(signal_ids(s) == seq![s[0].handle, s[0].ctx] + signal_ids(s.skip(1)));
        assert(signal_ids(t) =~= signal_ids(s) + seq![r.handle, r.ctx]);
    }
}

/// Appending a socket appends its handle and context to the flattened
/// identifier sequence.
pub proof fn lemma_socket_ids_push(s: Seq<Socket>, x: Socket)
    ensures
        socket_ids(s.push(x)) == socket_ids(s) + seq![x.data.bev_handle, x.data.cb_ctx],
    decreases s.len(),
{
    let t = s.push(x);
    assert(t.len() == s.len() + 1);
    if s.len() == 0 {
        assert(t[0] == x);
        assert(t.skip(1) =~= Seq::<Socket>::empty());
        assert(socket_ids(t) == seq![t[0].data.bev_handle, t[0].data.cb_ctx]
            + socket_ids(t.skip(1)));
        assert(socket_ids(t) =~= socket_ids(s) + seq![x.data.bev_handle, x.data.cb_ctx]);
    } else {
        assert(t[0] == s[0]);
        assert(t.skip(1) =~= s.skip(1).push(x));
        lemma_socket_ids_push(s.skip(1), x);
        assert(socket_ids(t) == seq![s[0].data.bev_handle, s[0].data.cb_ctx]
            + (socket_ids(s.skip(1)) + seq![x.data.bev_handle, x.data.cb_ctx]));
        vstd::seq_lib::lemma_concat_associative(
            seq![s[0].data.bev_handle, s[0].data.cb_ctx],
            socket_ids(s.skip(1)),
            seq![x.data.bev_handle, x.data.cb_ctx],
        );
        assert(socket_ids(s) == seq![s[0].data.bev_handle, s[0].data.cb_ctx]
            + socket_ids(s.skip(1)));
        assert(socket_ids(t) =~= socket_ids(s) + seq![x.data.bev_handle, x.data.cb_ctx]);
    }
}

/// The flattened identifier sequence splits where the socket run splits.
pub proof fn lemma_socket_ids_split(s: Seq<Socket>, k: int)
    requires
        0 <= k <= s.len(),
    ensures
        socket_ids(s) == socket_ids(s.take(k)) + socket_ids(s.skip(k)),
    decreases k,
{
    if k == 0 {
        assert(s.take(0) =~= Seq::<Socket>::empty());
        assert(s.skip(0) =~= s);
        assert(socket_ids(s) =~= socket_ids(s.take(0)) + socket_ids(s.skip(0)));
    } else {
        lemma_socket_ids_split(s.skip(1), k - 1);
        assert(s.take(k).skip(1) =~= s.skip(1).take(k - 1));
        assert(s.skip(1).skip(k - 1) =~= s.skip(k));
        assert(s.take(k).len() == k);
        assert(s.take(k)[0] == s[0]);
        assert(socket_ids(s.take(k))
            == seq![s[0].data.bev_handle, s[0].data.cb_ctx] + socket_ids(s.skip(1).take(k - 1)));
        vstd::seq_lib::lemma_concat_associative(
            seq![s[0].data.bev_handle, s[0].data.cb_ctx],
            socket_ids(s.skip(1).take(k - 1)),
            socket_ids(s.skip(k)),
        );
        assert(socket_ids(s) =~= socket_ids(s.take(k)) + socket_ids(s.skip(k)));
    }
}

/// Removing the socket at `k` removes exactly its two identifiers from the
/// flattened sequence: what is left of the run, flattened, plus the pair.
pub proof fn lemma_socket_ids_remove(s: Seq<Socket>, k: int)
    requires
        0 <= k < s.len(),
    ensures
        socket_ids(s).to_multiset() == socket_ids(s.remove(k)).to_multiset()
            .insert(s[k].data.bev_handle).insert(s[k].data.cb_ctx),
    decreases s.len(),
{
    lemma_socket_ids_split(s, k);
    lemma_socket_ids_split(s.remove(k), k);
    assert(s.remove(k).take(k) =~= s.take(k));
    assert(s.remove(k).skip(k) =~= s.skip(k + 1));
    assert(s.skip(k).len() > 0);
    assert(s.skip(k)[0] == s[k]);
    assert(s.skip(k).skip(1) =~= s.skip(k + 1));
    assert(socket_ids(s.skip(k))
        == seq![s[k].data.bev_handle, s[k].data.cb_ctx] + socket_ids(s.skip(k + 1)));
    assert(socket_ids(s).to_multiset() == socket_ids(s.take(k)).to_multiset().add(
        seq![s[k].data.bev_handle, s[k].data.cb_ctx].to_multiset().add(
            socket_ids(s.skip(k + 1)).to_multiset(),
        ),
    )) by {
        lemma_multiset_pair_decompose(s[k].data.bev_handle, s[k].data.cb_ctx);
    }
    assert(socket_ids(s.remove(k)).to_multiset()
        == socket_ids(s.take(k)).to_multiset().add(socket_ids(s.skip(k + 1)).to_multiset()));
    lemma_multiset_pair_decompose(s[k].data.bev_handle, s[k].data.cb_ctx);
    assert(socket_ids(s).to_multiset() =~= socket_ids(s.remove(k)).to_multiset()
        .insert(s[k].data.bev_handle).insert(s[k].data.cb_ctx));
}

/// A two-element sequence, as a multiset, is two inserts into the empty
/// multiset.
pub proof fn lemma_multiset_pair_decompose(a: u64, b: u64)
    ensures
        seq![a, b].to_multiset() == Multiset::<u64>::empty().insert(a).insert(b),
{
    assert(seq![a, b] =~= Seq::<u64>::empty().push(a).push(b));
    assert(Seq::<u64>::empty().to_multiset() =~= Multiset::<u64>::empty());
    assert(seq![a, b].to_multiset() =~= Multiset::<u64>::empty().insert(a).insert(b));
}

/// The reactor core: owns the multiplexer and the bookkeeping, decides what
/// every delivery does, and owes the caller that performs the I/O exactly
/// the actions its outcomes name.
pub struct EventLoop {
    pub data: EventLoopDataHolder,
}

impl EventLoop {
    /// See `EventLoopDataHolder::wf`.
    pub open spec fn wf(&self) -> bool {
        self.data.wf()
    }

    /// Allocate the multiplexer against a fresh or emptied ledger. Fails
    /// with `InitError` exactly when the ledger refuses the allocation.
    pub fn try_new(ledger: HandleLedger) -> (r: Result<EventLoop, EventError>)
        requires
            ledger.wf(),
            ledger.live@.len() == 0,
        ensures
            r is Err <==> ledger.fail_next_alloc || ledger.next_id == u64::MAX,
            r matches Err(e) ==> e == EventError::InitError,
            r matches Ok(lp) ==> {
                &&& lp.wf()
                &&& lp.data.ledger.fail_next_alloc == false
                &&& lp.data.base == ledger.next_id
                &&& lp.data.ledger.next_id == ledger.next_id + 1
                &&& lp.data.ledger.released@ == ledger.released@
                &&& lp.data.connection_listeners@ == Seq::<ListenerReg>::empty()
                &&& lp.data.signal_events@ == Seq::<SignalReg>::empty()
                &&& lp.data.socket_map@ == Seq::<Socket>::empty()
                &&& lp.data.socket_errs@ == Seq::<EventError>::empty()
                &&& lp.data.break_reason_err is None
                &&& lp.data.exit_delay_micros is None
                &&& lp.data.phase == LoopPhase::Running
            },
    {
        let ghost l0: HandleLedger = ledger;
        let mut led = ledger;
        let base = match led.issue() {
            Some(id) => id,
            None => {
                return Err(EventError::InitError);
            },
        };
        let data = EventLoopDataHolder::new(base, led);
        let lp = EventLoop { data };
        proof {
            assert(lp.data.release_order() =~= seq![base]);
            assert(lp.data.ledger.live@ == l0.live@.push(base));
            assert(lp.data.ledger.live@ =~= seq![base]);
            assert(lp.data.release_order().to_multiset() == lp.data.ledger.live@.to_multiset());
        }
        Ok(lp)
    }

    /// Where dispatch stands.
    pub fn phase(&self) -> (p: LoopPhase)
        ensures
            p == self.data.phase,
    {
        self.data.phase
    }

    /// What dispatch ended with: `Ok` when no break-error was recorded —
    /// the process then exits with status 0 — and the recorded error
    /// otherwise.
    pub fn run_result(&self) -> (r: Result<(), EventError>)
        ensures
            self.data.break_reason_err is None <==> r is Ok,
            r matches Err(e) ==> self.data.break_reason_err == Some(e),
    {
        match self.data.break_reason_err {
            None => Ok(()),
            Some(e) => Err(e),
        }
    }

    /// Schedule loop exit after the given delay. Does not interrupt an
    /// in-flight delivery: dispatch goes on until the delay elapses.
    pub fn exit(&mut self, delay_micros: u64) -> (r: Result<(), EventError>)
        ensures
            r is Ok,
            final(self).data == (EventLoopDataHolder {
                exit_delay_micros: Some(delay_micros),
                phase: if old(self).data.phase == LoopPhase::Stopped {
                    LoopPhase::Stopped
                } else {
                    LoopPhase::ExitScheduled
                },
                ..old(self).data
            }),
    {
        self.data.exit_delay_micros = Some(delay_micros);
        if !matches!(self.data.phase, LoopPhase::Stopped) {
            self.data.phase = LoopPhase::ExitScheduled;
        }
        Ok(())
    }

    /// The scheduled grace period elapsed: dispatch is over. No accept,
    /// read, write, event, or signal delivery is dispatched afterwards.
    pub fn on_grace_elapsed(&mut self)
        ensures
            final(self).data == (EventLoopDataHolder { phase: LoopPhase::Stopped, ..old(self).data }),
    {
        self.data.phase = LoopPhase::Stopped;
    }

    /// The explicit break path: terminate dispatch immediately and record
    /// the error, retrievable through `run_result` after dispatch returns.
    pub fn break_with_err(&mut self, err: EventError)
        ensures
            final(self).data == (EventLoopDataHolder {
                phase: LoopPhase::Stopped,
                break_reason_err: Some(err),
                ..old(self).data
            }),
    {
        self.data.phase = LoopPhase::Stopped;
        self.data.break_reason_err = Some(err);
    }

    /// Bind a listening registration on `port`, with address reuse and
    /// free-on-destruction semantics, accepting every inbound connection for
    /// the lifetime of the reactor. Allocates the accept callback context
    /// and then the listening handle; fails with `BindError`, registering
    /// nothing and leaking nothing, exactly when the ledger refuses one of
    /// the two.
    pub fn bind_inet_port(&mut self, port: u16) -> (r: Result<(), EventError>)
        requires
            old(self).wf(),
        ensures
            final(self).wf(),
            final(self).data.ledger.fail_next_alloc == false,
            r is Err <==> (old(self).data.ledger.fail_next_alloc
                || old(self).data.ledger.next_id + 2 > u64::MAX),
            r matches Err(e) ==> e == EventError::BindError,
            final(self).data.signal_events@ == old(self).data.signal_events@,
            final(self).data.socket_map@ == old(self).data.socket_map@,
            final(self).data.socket_errs@ == old(self).data.socket_errs@,
            final(self).data.base == old(self).data.base,
            final(self).data.phase == old(self).data.phase,
            final(self).data.break_reason_err == old(self).data.break_reason_err,
            final(self).data.exit_delay_micros == old(self).data.exit_delay_micros,
            r is Err ==> {
                &&& final(self).data.connection_listeners@
                    == old(self).data.connection_listeners@
                &&& final(self).data.ledger.live@.to_multiset()
                    == old(self).data.ledger.live@.to_multiset()
            },
            r is Ok ==> {
                &&& final(self).data.connection_listeners@
                    == old(self).data.connection_listeners@.push(ListenerReg {
                    port,
                    handle: (old(self).data.ledger.next_id + 1) as u64,
                    ctx: old(self).data.ledger.next_id,
                })
                &&& final(self).data.ledger.next_id == old(self).data.ledger.next_id + 2
                &&& final(self).data.ledger.released@ == old(self).data.ledger.released@
            },
    {
        let ghost d0: EventLoopDataHolder = self.data;
        let ctx = match self.data.ledger.issue() {
            Some(c) => c,
            None => {
                return Err(EventError::BindError);
            },
        };
        let handle = match self.data.ledger.issue() {
            Some(h) => h,
            None => {
                let rolled_back = self.data.ledger.release(ctx);
                proof {
                    assert(rolled_back);
                    assert(self.data.ledger.live@.to_multiset()
                        =~= d0.ledger.live@.to_multiset());
                }
                return Err(EventError::BindError);
            },
        };
        let reg = ListenerReg { port, handle, ctx };
        self.data.connection_listeners.push(reg);
        proof {
            lemma_listener_ids_push(d0.connection_listeners@, reg);
            assert(self.data.release_order() == socket_ids(d0.socket_map@)
                + (listener_ids(d0.connection_listeners@) + seq![handle, ctx])
                + signal_ids(d0.signal_events@) + seq![d0.base]);
            lemma_multiset_pair_decompose(handle, ctx);
            assert(self.data.release_order().to_multiset()
                =~= d0.release_order().to_multiset().insert(ctx).insert(handle));
            assert(self.data.ledger.live@.to_multiset()
                =~= d0.ledger.live@.to_multiset().insert(ctx).insert(handle));
        }
        Ok(())
    }

    /// Install a persistent registration for `signum` on the reactor: its
    /// delivery is funneled through the multiplexer into `on_signal`, where
    /// it schedules the graceful exit. Allocates the callback context and
    /// then the signal event; fails with `RegisterError`, registering
    /// nothing and leaking nothing, exactly when the ledger refuses one of
    /// the two.
    pub fn handle_signal(&mut self, signum: u32) -> (r: Result<(), EventError>)
        requires
            old(self).wf(),
        ensures
            final(self).wf(),
            final(self).data.ledger.fail_next_alloc == false,
            r is Err <==> (old(self).data.ledger.fail_next_alloc
                || old(self).data.ledger.next_id + 2 > u64::MAX),
            r matches Err(e) ==> e == EventError::RegisterError,
            final(self).data.connection_listeners@ == old(self).data.connection_listeners@,
            final(self).data.socket_map@ == old(self).data.socket_map@,
            final(self).data.socket_errs@ == old(self).data.socket_errs@,
            final(self).data.base == old(self).data.base,
            final(self).data.phase == old(self).data.phase,
            final(self).data.break_reason_err == old(self).data.break_reason_err,
            final(self).data.exit_delay_micros == old(self).data.exit_delay_micros,
            r is Err ==> {
                &&& final(self).data.signal_events@ == old(self).data.signal_events@
                &&& final(self).data.ledger.live@.to_multiset()
                    == old(self).data.ledger.live@.to_multiset()
            },
            r is Ok ==> {
                &&& final(self).data.signal_events@ == old(self).data.signal_events@.push(
                    SignalReg {
                        signum,
                        handle: (old(self).data.ledger.next_id + 1) as u64,
                        ctx: old(self).data.ledger.next_id,
                    },
                )
                &&& final(self).data.ledger.next_id == old(self).data.ledger.next_id + 2
                &&& final(self).data.ledger.released@ == old(self).data.ledger.released@
            },
    {
        let ghost d0: EventLoopDataHolder = self.data;
        let ctx = match self.data.ledger.issue() {
            Some(c) => c,
            None => {
                return Err(EventError::RegisterError);
            },
        };
        let handle = match self.data.ledger.issue() {
            Some(h) => h,
            None => {
                let rolled_back = self.data.ledger.release(ctx);
                proof {
                    assert(rolled_back);
                    assert(self.data.ledger.live@.to_multiset()
                        =~= d0.ledger.live@.to_multiset());
                }
                return Err(EventError::RegisterError);
            },
        };
        let reg = SignalReg { signum, handle, ctx };
        self.data.signal_events.push(reg);
        proof {
            lemma_signal_ids_push(d0.signal_events@, reg);
            assert(self.data.release_order() == socket_ids(d0.socket_map@)
                + listener_ids(d0.connection_listeners@)
                + (signal_ids(d0.signal_events@) + seq![handle, ctx]) + seq![d0.base]);
            lemma_multiset_pair_decompose(handle, ctx);
            assert(self.data.release_order().to_multiset()
                =~= d0.release_order().to_multiset().insert(ctx).insert(handle));
            assert(self.data.ledger.live@.to_multiset()
                =~= d0.ledger.live@.to_multiset().insert(ctx).insert(handle));
        }
        Ok(())
    }

    /// A registered signal was delivered: schedule the graceful exit after
    /// the fixed grace period. Dispatch continues meanwhile. A signal that
    /// is not registered, or one delivered after dispatch is over, does
    /// nothing.
    pub fn on_signal(&mut self, signum: u32) -> (r: SignalOutcome)
        ensures
            old(self).data.phase == LoopPhase::Stopped
                || !has_signal(old(self).data.signal_events@, signum) ==> {
                &&& r == SignalOutcome::Ignored
                &&& final(self).data == old(self).data
            },
            old(self).data.phase != LoopPhase::Stopped
                && has_signal(old(self).data.signal_events@, signum) ==> {
                &&& r == SignalOutcome::ExitScheduled(GRACE_PERIOD_MICROS)
                &&& final(self).data == (EventLoopDataHolder {
                    phase: LoopPhase::ExitScheduled,
                    exit_delay_micros: Some(GRACE_PERIOD_MICROS),
                    ..old(self).data
                })
            },
    {
        if matches!(self.data.phase, LoopPhase::Stopped) {
            return SignalOutcome::Ignored;
        }
        let n: usize = self.data.signal_events.len();
        let mut i: usize = 0;
        let mut found: bool = false;
        while i < n
            invariant
                i <= n,
                n == self.data.signal_events@.len(),
                *self == *old(self),
                found <==> (exists|j: int|
                    0 <= j < i && self.data.signal_events@[j].signum == signum),
            decreases n - i,
        {
            if self.data.signal_events[i].signum == signum {
                found = true;
            }
            i = i + 1;
        }
        if !found {
            return SignalOutcome::Ignored;
        }
        let exit_result = self.exit(GRACE_PERIOD_MICROS);
        proof {
            assert(exit_result is Ok);
        }
        SignalOutcome::ExitScheduled(GRACE_PERIOD_MICROS)
    }

    /// Resolve a descriptor in the index: the position of its socket, or
    /// `None` when no live socket carries it.
    fn find_socket(&self, fd: i32) -> (r: Option<usize>)
        requires
            fds_unique(self.data.socket_map@),
        ensures
            r is None ==> !has_fd(self.data.socket_map@, fd),
            r matches Some(i) ==> {
                &&& has_fd(self.data.socket_map@, fd)
                &&& 0 <= i < self.data.socket_map@.len()
                &&& i == idx_of(self.data.socket_map@, fd)
                &&& self.data.socket_map@[i as int].data.fd == fd
            },
    {
        let n: usize = self.data.socket_map.len();
        let mut i: usize = 0;
        while i < n
            invariant
                i <= n,
                n == self.data.socket_map@.len(),
                fds_unique(self.data.socket_map@),
                forall|j: int| 0 <= j < i ==> self.data.socket_map@[j].data.fd != fd,
            decreases n - i,
        {
            if self.data.socket_map[i].data.fd == fd {
                proof {
                    assert(has_fd(self.data.socket_map@, fd));
                    lemma_idx_of(self.data.socket_map@, fd);
                    assert(idx_of(self.data.socket_map@, fd) == i as int);
                }
                return Some(i);
            }
            i = i + 1;
        }
        proof {
            assert(!has_fd(self.data.socket_map@, fd)) by {
                if has_fd(self.data.socket_map@, fd) {
                    let j = choose|j: int|
                        0 <= j < self.data.socket_map@.len()
                            && self.data.socket_map@[j].data.fd == fd;
                    assert(self.data.socket_map@[j].data.fd == fd);
                }
            }
        }
        None
    }

    /// Build and index a socket over a freshly accepted descriptor: a
    /// buffered-transport handle, then its callback context, then the
    /// `Socket` entry, with no read handler yet and its close handler armed.
    /// A stale entry under a recycled descriptor is overwritten: evicted from
    /// the index and its two identifiers released, handle first, before the
    /// new socket is indexed. Fails with `ConnectionError`, registering
    /// nothing and leaking nothing, exactly when the ledger refuses an
    /// allocation.
    pub fn try_new_socket(&mut self, fd: i32) -> (r: Result<(), EventError>)
        requires
            old(self).wf(),
        ensures
            final(self).wf(),
            final(self).data.ledger.fail_next_alloc == false,
            r is Err <==> (old(self).data.ledger.fail_next_alloc
                || old(self).data.ledger.next_id + 2 > u64::MAX),
            r matches Err(e) ==> e == EventError::ConnectionError,
            final(self).data.connection_listeners@ == old(self).data.connection_listeners@,
            final(self).data.signal_events@ == old(self).data.signal_events@,
            final(self).data.socket_errs@ == old(self).data.socket_errs@,
            final(self).data.base == old(self).data.base,
            final(self).data.phase == old(self).data.phase,
            final(self).data.break_reason_err == old(self).data.break_reason_err,
            final(self).data.exit_delay_micros == old(self).data.exit_delay_micros,
            r is Err ==> {
                &&& final(self).data.socket_map@ == old(self).data.socket_map@
                &&& final(self).data.ledger.live@.to_multiset()
                    == old(self).data.ledger.live@.to_multiset()
            },
            r is Ok ==> ({
                let s0 = old(self).data.socket_map@;
                let m = final(self).data.socket_map@;
                &&& m.len() > 0
                &&& m.last().data == (SocketDataHolder {
                    fd,
                    bev_handle: old(self).data.ledger.next_id,
                    cb_ctx: (old(self).data.ledger.next_id + 1) as u64,
                    read_cb: false,
                    close_cb: true,
                })
                &&& m.last().input@ == Seq::<u8>::empty()
                &&& m.last().output@ == Seq::<u8>::empty()
                &&& !m.last().input.add_fault_pending()
                &&& !m.last().output.add_fault_pending()
                &&& final(self).data.ledger.next_id == old(self).data.ledger.next_id + 2
                &&& (!has_fd(s0, fd) ==> {
                    &&& m.drop_last() == s0
                    &&& final(self).data.ledger.released@ == old(self).data.ledger.released@
                })
                &&& (has_fd(s0, fd) ==> {
                    &&& m.drop_last() == s0.remove(idx_of(s0, fd))
                    &&& final(self).data.ledger.released@ == old(self).data.ledger.released@
                        .push(s0[idx_of(s0, fd)].data.bev_handle)
                        .push(s0[idx_of(s0, fd)].data.cb_ctx)
                })
            }),
    {
        let ghost d0: EventLoopDataHolder = self.data;
        let bev = match self.data.ledger.issue() {
            Some(b) => b,
            None => {
                return Err(EventError::ConnectionError);
            },
        };
        let ctx = match self.data.ledger.issue() {
            Some(c) => c,
            None => {
                let rolled_back = self.data.ledger.release(bev);
                proof {
                    assert(rolled_back);
                    assert(self.data.ledger.live@.to_multiset()
                        =~= d0.ledger.live@.to_multiset());
                }
                return Err(EventError::ConnectionError);
            },
        };
        let ghost live_after_issue: Seq<u64> = self.data.ledger.live@;
        proof {
            assert(live_after_issue.to_multiset()
                =~= d0.ledger.live@.to_multiset().insert(bev).insert(ctx));
        }
        let stale = self.find_socket(fd);
        let ghost s0: Seq<Socket> = d0.socket_map@;
        match stale {
            Some(k) => {
                let ghost kk: int = k as int;
                let old_sock = self.data.socket_map.remove(k);
                let ghost sb: u64 = old_sock.data.bev_handle;
                let ghost sc: u64 = old_sock.data.cb_ctx;
                proof {
                    lemma_wf_ownership(&d0);
                    d0.release_order().lemma_multiset_has_no_duplicates();
                    lemma_socket_ids_remove(s0, kk);
                    assert(socket_ids(s0).to_multiset().count(sb) >= 1);
                    assert(socket_ids(s0).to_multiset().count(sc) >= 1);
                    assert(d0.release_order().to_multiset().count(sb) >= 1);
                    assert(d0.release_order().to_multiset().count(sc) >= 1);
                    assert(sb != sc) by {
                        if sb == sc {
                            assert(socket_ids(s0).to_multiset().count(sb) >= 2);
                            assert(d0.release_order().to_multiset().count(sb) >= 2);
                            assert(d0.release_order().to_multiset().contains(sb));
                        }
                    }
                    assert(self.data.ledger.live@.to_multiset().count(sb) >= 1);
                    assert(self.data.ledger.live@.contains(sb));
                }
                let ok1 = self.data.ledger.release(old_sock.data.bev_handle);
                proof {
                    assert(ok1);
                    assert(self.data.ledger.live@.to_multiset().count(sc) >= 1);
                    assert(self.data.ledger.live@.contains(sc));
                }
                let ok2 = self.data.ledger.release(old_sock.data.cb_ctx);
                proof {
                    assert(ok2);
                }
            },
            None => {},
        }
        let sock = Socket::new(fd, bev, ctx);
        self.data.socket_map.push(sock);
        proof {
            let m = self.data.socket_map@;
            assert(m.drop_last() =~= m.drop_last());
            if has_fd(s0, fd) {
                let kk = idx_of(s0, fd);
                lemma_close_isolates(s0, fd);
                lemma_socket_ids_push(s0.remove(kk), sock);
                lemma_socket_ids_remove(s0, kk);
                lemma_multiset_pair_decompose(bev, ctx);
                lemma_multiset_pair_decompose(s0[kk].data.bev_handle, s0[kk].data.cb_ctx);
                assert(m == s0.remove(kk).push(sock));
                assert(m.drop_last() =~= s0.remove(kk));
                assert(self.data.release_order() == (socket_ids(s0.remove(kk))
                    + seq![bev, ctx]) + listener_ids(d0.connection_listeners@)
                    + signal_ids(d0.signal_events@) + seq![d0.base]);
                assert(self.data.release_order().to_multiset()
                    =~= d0.release_order().to_multiset()
                        .remove(s0[kk].data.bev_handle).remove(s0[kk].data.cb_ctx)
                        .insert(bev).insert(ctx));
                assert(self.data.ledger.live@.to_multiset()
                    =~= d0.ledger.live@.to_multiset()
                        .insert(bev).insert(ctx)
                        .remove(s0[kk].data.bev_handle).remove(s0[kk].data.cb_ctx));
                assert(self.data.release_order().to_multiset()
                    =~= self.data.ledger.live@.to_multiset());
                assert(fds_unique(m)) by {
                    assert(fds_unique(s0.remove(kk)));
                    assert(!has_fd(s0.remove(kk), fd));
                    assert forall|i: int, j: int|
                        0 <= i < m.len() && 0 <= j < m.len() && i != j
                            implies m[i].data.fd != m[j].data.fd by {
                        if i < m.len() - 1 && j < m.len() - 1 {
                            assert(m[i] == s0.remove(kk)[i]);
                            assert(m[j] == s0.remove(kk)[j]);
                        } else if i == m.len() - 1 {
                            assert(m[j] == s0.remove(kk)[j]);
                            assert(m[i].data.fd == fd);
                        } else {
                            assert(m[i] == s0.remove(kk)[i]);
                            assert(m[j].data.fd == fd);
                        }
                    }
                }
            } else {
                lemma_socket_ids_push(s0, sock);
                lemma_multiset_pair_decompose(bev, ctx);
                assert(m == s0.push(sock));
                assert(m.drop_last() =~= s0);
                assert(self.data.release_order() == (socket_ids(s0) + seq![bev, ctx])
                    + listener_ids(d0.connection_listeners@) + signal_ids(d0.signal_events@)
                    + seq![d0.base]);
                assert(self.data.release_order().to_multiset()
                    =~= d0.release_order().to_multiset().insert(bev).insert(ctx));
                assert(self.data.ledger.live@.to_multiset()
                    =~= d0.ledger.live@.to_multiset().insert(bev).insert(ctx));
                assert(self.data.release_order().to_multiset()
                    =~= self.data.ledger.live@.to_multiset());
                assert(fds_unique(m)) by {
                    assert forall|i: int, j: int|
                        0 <= i < m.len() && 0 <= j < m.len() && i != j
                            implies m[i].data.fd != m[j].data.fd by {
                        if i < m.len() - 1 && j < m.len() - 1 {
                            assert(m[i] == s0[i]);
                            assert(m[j] == s0[j]);
                        } else if i == m.len() - 1 {
                            assert(m[j] == s0[j]);
                            assert(!has_fd(s0, fd));
                        } else {
                            assert(m[i] == s0[i]);
                            assert(!has_fd(s0, fd));
                        }
                    }
                }
            }
        }
        Ok(())
    }

    /// A connection was accepted on `fd`: adopt it into a socket and wire
    /// the echo read handler onto it, all on the dispatch thread. After
    /// dispatch is over no accept is dispatched: the descriptor is not
    /// adopted and the caller must close it. When adoption fails — the
    /// ledger refused an allocation — the failure stays at connection scope:
    /// it is recorded, the reactor runs on, and the caller must close the
    /// descriptor.
    pub fn on_accept(&mut self, fd: i32) -> (r: AcceptOutcome)
        requires
            old(self).wf(),
        ensures
            final(self).wf(),
            final(self).data.connection_listeners@ == old(self).data.connection_listeners@,
            final(self).data.signal_events@ == old(self).data.signal_events@,
            final(self).data.base == old(self).data.base,
            final(self).data.phase == old(self).data.phase,
            final(self).data.break_reason_err == old(self).data.break_reason_err,
            final(self).data.exit_delay_micros == old(self).data.exit_delay_micros,
            old(self).data.phase == LoopPhase::Stopped ==> {
                &&& r == AcceptOutcome::NotAdopted
                &&& final(self).data == old(self).data
            },
            old(self).data.phase != LoopPhase::Stopped ==> (r == AcceptOutcome::NotAdopted <==> (
            old(self).data.ledger.fail_next_alloc
                || old(self).data.ledger.next_id + 2 > u64::MAX)),
            old(self).data.phase != LoopPhase::Stopped && r == AcceptOutcome::NotAdopted ==> {
                &&& final(self).data.socket_map@ == old(self).data.socket_map@
                &&& final(self).data.socket_errs@ == old(self).data.socket_errs@.push(
                    EventError::ConnectionError,
                )
                &&& final(self).data.ledger.live@.to_multiset()
                    == old(self).data.ledger.live@.to_multiset()
            },
            old(self).data.phase != LoopPhase::Stopped && r == AcceptOutcome::Adopted ==> ({
                let s0 = old(self).data.socket_map@;
                let m = final(self).data.socket_map@;
                &&& final(self).data.socket_errs@ == old(self).data.socket_errs@
                &&& m.len() > 0
                &&& m.last().data == (SocketDataHolder {
                    fd,
                    bev_handle: old(self).data.ledger.next_id,
                    cb_ctx: (old(self).data.ledger.next_id + 1) as u64,
                    read_cb: true,
                    close_cb: true,
                })
                &&& m.last().input@ == Seq::<u8>::empty()
                &&& m.last().output@ == Seq::<u8>::empty()
                &&& !m.last().input.add_fault_pending()
                &&& !m.last().output.add_fault_pending()
                &&& has_fd(m, fd)
                &&& (!has_fd(s0, fd) ==> m.drop_last() == s0)
                &&& (has_fd(s0, fd) ==> m.drop_last() == s0.remove(idx_of(s0, fd)))
            }),
    {
        if matches!(self.data.phase, LoopPhase::Stopped) {
            return AcceptOutcome::NotAdopted;
        }
        let ghost d1: EventLoopDataHolder = self.data;
        match self.try_new_socket(fd) {
            Err(e) => {
                self.data.socket_errs.push(e);
                AcceptOutcome::NotAdopted
            },
            Ok(()) => {
                let ghost mid: Seq<Socket> = self.data.socket_map@;
                let mut sock = match self.data.socket_map.pop() {
                    Some(s) => s,
                    None => {
                        proof {
                            assert(false);
                        }
                        return AcceptOutcome::NotAdopted;
                    },
                };
                let reg_result = sock.on_data();
                proof {
                    assert(reg_result is Ok);
                }
                self.data.socket_map.push(sock);
                proof {
                    let m = self.data.socket_map@;
                    assert(m.len() == mid.len());
                    assert(m.drop_last() =~= mid.drop_last());
                    assert(m.last() == sock);
                    assert forall|i: int| 0 <= i < m.len() implies
                        m[i].data.bev_handle == mid[i].data.bev_handle
                            && m[i].data.cb_ctx == mid[i].data.cb_ctx
                            && m[i].data.fd == mid[i].data.fd
                            && m[i].data.close_cb == mid[i].data.close_cb by {
                        if i < m.len() - 1 {
                            assert(m[i] == mid[i]);
                        }
                    }
                    lemma_socket_ids_same(m, mid);
                    assert(self.data.release_order().to_multiset()
                        =~= self.data.ledger.live@.to_multiset());
                    assert(fds_unique(m)) by {
                        assert(fds_unique(mid));
                    }
                    assert(has_fd(m, fd)) by {
                        assert(m[m.len() - 1].data.fd == fd);
                    }
                }
                AcceptOutcome::Adopted
            },
        }
    }

    /// Bytes arrived on a connection: they join its inbound queue and the
    /// read notification is dispatched. With the echo handler registered the
    /// whole inbound queue is echoed outbound and flushed: the returned
    /// bytes must be sent to the peer. A failing echo write closes exactly
    /// that connection with `WriteError` — recorded, never escalated — and
    /// every other connection is untouched. A descriptor that resolves no
    /// socket, or a delivery after dispatch is over, changes nothing.
    pub fn on_bytes(&mut self, fd: i32, bytes: Vec<u8>) -> (r: ReadOutcome)
        requires
            old(self).wf(),
        ensures
            final(self).wf(),
            final(self).data.connection_listeners@ == old(self).data.connection_listeners@,
            final(self).data.signal_events@ == old(self).data.signal_events@,
            final(self).data.base == old(self).data.base,
            final(self).data.phase == old(self).data.phase,
            final(self).data.break_reason_err == old(self).data.break_reason_err,
            final(self).data.exit_delay_micros == old(self).data.exit_delay_micros,
            old(self).data.phase == LoopPhase::Stopped ==> {
                &&& r is Ignored
                &&& final(self).data == old(self).data
            },
            old(self).data.phase != LoopPhase::Stopped
                && !has_fd(old(self).data.socket_map@, fd) ==> {
                &&& r is Ignored
                &&& final(self).data == old(self).data
            },
            old(self).data.phase != LoopPhase::Stopped
                && has_fd(old(self).data.socket_map@, fd)
                && !old(self).data.socket_map@[idx_of(old(self).data.socket_map@, fd)].data.read_cb
                ==> ({
                let s0 = old(self).data.socket_map@;
                let k = idx_of(s0, fd);
                let m = final(self).data.socket_map@;
                &&& r is Ignored
                &&& m.len() == s0.len()
                &&& (forall|j: int| 0 <= j < s0.len() && j != k ==> m[j] == s0[j])
                &&& m[k].data == s0[k].data
                &&& m[k].input@ == s0[k].input@ + bytes@
                &&& m[k].input.add_fault_pending() == s0[k].input.add_fault_pending()
                &&& m[k].output == s0[k].output
                &&& final(self).data.ledger == old(self).data.ledger
                &&& final(self).data.socket_errs@ == old(self).data.socket_errs@
            }),
            old(self).data.phase != LoopPhase::Stopped
                && has_fd(old(self).data.socket_map@, fd)
                && old(self).data.socket_map@[idx_of(old(self).data.socket_map@, fd)].data.read_cb
                && !old(self).data.socket_map@[idx_of(old(self).data.socket_map@, fd)]
                    .output.add_fault_pending() ==> ({
                let s0 = old(self).data.socket_map@;
                let k = idx_of(s0, fd);
                let m = final(self).data.socket_map@;
                &&& (r matches ReadOutcome::Echoed(out)
                    && out@ == s0[k].output@ + echo_reply(s0[k].input@, bytes@))
                &&& m.len() == s0.len()
                &&& (forall|j: int| 0 <= j < s0.len() && j != k ==> m[j] == s0[j])
                &&& m[k].data == s0[k].data
                &&& m[k].input@ == Seq::<u8>::empty()
                &&& m[k].output@ == Seq::<u8>::empty()
                &&& m[k].input.add_fault_pending() == s0[k].input.add_fault_pending()
                &&& !m[k].output.add_fault_pending()
                &&& final(self).data.ledger == old(self).data.ledger
                &&& final(self).data.socket_errs@ == old(self).data.socket_errs@
            }),
            old(self).data.phase != LoopPhase::Stopped
                && has_fd(old(self).data.socket_map@, fd)
                && old(self).data.socket_map@[idx_of(old(self).data.socket_map@, fd)].data.read_cb
                && old(self).data.socket_map@[idx_of(old(self).data.socket_map@, fd)]
                    .output.add_fault_pending() ==> ({
                let s0 = old(self).data.socket_map@;
                let k = idx_of(s0, fd);
                &&& r == ReadOutcome::ClosedOnError(EventError::WriteError)
                &&& final(self).data.socket_map@ == s0.remove(k)
                &&& final(self).data.socket_errs@ == old(self).data.socket_errs@.push(
                    EventError::WriteError,
                )
                &&& final(self).data.ledger.released@ == old(self).data.ledger.released@.push(
                    s0[k].data.bev_handle,
                ).push(s0[k].data.cb_ctx)
                &&& final(self).data.ledger.next_id == old(self).data.ledger.next_id
            }),
    {
        let ghost d0: EventLoopDataHolder = self.data;
        let ghost s0: Seq<Socket> = d0.socket_map@;
        if matches!(self.data.phase, LoopPhase::Stopped) {
            return ReadOutcome::Ignored;
        }
        let idx = match self.find_socket(fd) {
            Some(i) => i,
            None => {
                return ReadOutcome::Ignored;
            },
        };
        let ghost kk: int = idx as int;
        let mut sock = self.data.socket_map.remove(idx);
        sock.input.append_arrival(bytes);
        if !sock.data.read_cb {
            self.data.socket_map.insert(idx, sock);
            proof {
                lemma_reinsert(s0, kk, sock);
                let m = self.data.socket_map@;
                assert forall|i: int| 0 <= i < m.len() implies
                    m[i].data.bev_handle == s0[i].data.bev_handle
                        && m[i].data.cb_ctx == s0[i].data.cb_ctx
                        && m[i].data.fd == s0[i].data.fd
                        && m[i].data.close_cb == s0[i].data.close_cb by {
                    if i != kk {
                        assert(m[i] == s0[i]);
                    }
                }
                lemma_socket_ids_same(m, s0);
                assert(fds_unique(m));
                assert(self.data.release_order().to_multiset()
                    =~= self.data.ledger.live@.to_multiset());
            }
            return ReadOutcome::Ignored;
        }
        let notice = sock.handle_read();
        match notice {
            None => {
                let out = sock.output.remove_all_bytes();
                self.data.socket_map.insert(idx, sock);
                proof {
                    lemma_reinsert(s0, kk, sock);
                    let m = self.data.socket_map@;
                    assert forall|i: int| 0 <= i < m.len() implies
                        m[i].data.bev_handle == s0[i].data.bev_handle
                            && m[i].data.cb_ctx == s0[i].data.cb_ctx
                            && m[i].data.fd == s0[i].data.fd
                            && m[i].data.close_cb == s0[i].data.close_cb by {
                        if i != kk {
                            assert(m[i] == s0[i]);
                        }
                    }
                    lemma_socket_ids_same(m, s0);
                    assert(fds_unique(m));
                    assert(self.data.release_order().to_multiset()
                        =~= self.data.ledger.live@.to_multiset());
                }
                ReadOutcome::Echoed(out)
            },
            Some(_close_notice) => {
                let ghost sb: u64 = sock.data.bev_handle;
                let ghost sc: u64 = sock.data.cb_ctx;
                proof {
                    lemma_wf_ownership(&d0);
                    d0.release_order().lemma_multiset_has_no_duplicates();
                    lemma_socket_ids_remove(s0, kk);
                    assert(socket_ids(s0).to_multiset().count(sb) >= 1);
                    assert(socket_ids(s0).to_multiset().count(sc) >= 1);
                    assert(d0.release_order().to_multiset().count(sb) >= 1);
                    assert(d0.release_order().to_multiset().count(sc) >= 1);
                    assert(sb != sc) by {
                        if sb == sc {
                            assert(socket_ids(s0).to_multiset().count(sb) >= 2);
                            assert(d0.release_order().to_multiset().count(sb) >= 2);
                            assert(d0.release_order().to_multiset().contains(sb));
                        }
                    }
                    assert(self.data.ledger.live@.to_multiset().count(sb) >= 1);
                    assert(self.data.ledger.live@.contains(sb));
                }
                let ok1 = self.data.ledger.release(sock.data.bev_handle);
                proof {
                    assert(ok1);
                    assert(self.data.ledger.live@.to_multiset().count(sc) >= 1);
                    assert(self.data.ledger.live@.contains(sc));
                }
                let ok2 = self.data.ledger.release(sock.data.cb_ctx);
                self.data.socket_errs.push(EventError::WriteError);
                proof {
                    assert(ok2);
                    lemma_close_isolates(s0, fd);
                    assert(self.data.socket_map@ == s0.remove(kk));
                    assert(self.data.release_order() == socket_ids(s0.remove(kk))
                        + listener_ids(d0.connection_listeners@) + signal_ids(d0.signal_events@)
                        + seq![d0.base]);
                    assert(self.data.release_order().to_multiset()
                        =~= d0.release_order().to_multiset().remove(sb).remove(sc));
                    assert(self.data.ledger.live@.to_multiset()
                        =~= d0.ledger.live@.to_multiset().remove(sb).remove(sc));
                    assert(self.data.release_order().to_multiset()
                        =~= self.data.ledger.live@.to_multiset());
                }
                ReadOutcome::ClosedOnError(EventError::WriteError)
            },
        }
    }

    /// An event mask was delivered on a connection; exactly one condition
    /// holds of it, asserted at the trampoline boundary. EOF closes the
    /// connection cleanly; error closes it with `ConnectionError`, recorded
    /// at connection scope; timeout and connected change nothing here. The
    /// close notification fires exactly once, the socket leaves the index
    /// before its transport handle and context are released, and every other
    /// connection is untouched. A descriptor that resolves no socket, or a
    /// delivery after dispatch is over, changes nothing.
    pub fn on_socket_event(&mut self, fd: i32, events: u16) -> (r: EventDispatchOutcome)
        requires
            old(self).wf(),
            valid_event_mask(events),
        ensures
            final(self).wf(),
            final(self).data.connection_listeners@ == old(self).data.connection_listeners@,
            final(self).data.signal_events@ == old(self).data.signal_events@,
            final(self).data.base == old(self).data.base,
            final(self).data.phase == old(self).data.phase,
            final(self).data.break_reason_err == old(self).data.break_reason_err,
            final(self).data.exit_delay_micros == old(self).data.exit_delay_micros,
            old(self).data.phase == LoopPhase::Stopped
                || !has_fd(old(self).data.socket_map@, fd)
                || !(flag_set(events, BEV_EVENT_EOF) || flag_set(events, BEV_EVENT_ERROR)) ==> {
                &&& r == EventDispatchOutcome::Ignored
                &&& final(self).data == old(self).data
            },
            old(self).data.phase != LoopPhase::Stopped
                && has_fd(old(self).data.socket_map@, fd)
                && (flag_set(events, BEV_EVENT_EOF) || flag_set(events, BEV_EVENT_ERROR)) ==> ({
                let s0 = old(self).data.socket_map@;
                let k = idx_of(s0, fd);
                &&& (flag_set(events, BEV_EVENT_EOF) ==> {
                    &&& r == EventDispatchOutcome::ClosedClean
                    &&& final(self).data.socket_errs@ == old(self).data.socket_errs@
                })
                &&& (flag_set(events, BEV_EVENT_ERROR) ==> {
                    &&& r == EventDispatchOutcome::ClosedWithError(EventError::ConnectionError)
                    &&& final(self).data.socket_errs@ == old(self).data.socket_errs@.push(
                        EventError::ConnectionError,
                    )
                })
                &&& final(self).data.socket_map@ == s0.remove(k)
                &&& final(self).data.ledger.released@ == old(self).data.ledger.released@.push(
                    s0[k].data.bev_handle,
                ).push(s0[k].data.cb_ctx)
                &&& final(self).data.ledger.next_id == old(self).data.ledger.next_id
            }),
    {
        let ghost d0: EventLoopDataHolder = self.data;
        let ghost s0: Seq<Socket> = d0.socket_map@;
        if matches!(self.data.phase, LoopPhase::Stopped) {
            return EventDispatchOutcome::Ignored;
        }
        let eof: bool = events & BEV_EVENT_EOF != 0;
        let error: bool = events & BEV_EVENT_ERROR != 0;
        if !eof && !error {
            return EventDispatchOutcome::Ignored;
        }
        let idx = match self.find_socket(fd) {
            Some(i) => i,
            None => {
                return EventDispatchOutcome::Ignored;
            },
        };
        let ghost kk: int = idx as int;
        let mut sock = self.data.socket_map.remove(idx);
        let notice = sock.handle_event(events);
        proof {
            assert(notice is Some);
        }
        let ghost sb: u64 = sock.data.bev_handle;
        let ghost sc: u64 = sock.data.cb_ctx;
        proof {
            lemma_wf_ownership(&d0);
            d0.release_order().lemma_multiset_has_no_duplicates();
            lemma_socket_ids_remove(s0, kk);
            assert(socket_ids(s0).to_multiset().count(sb) >= 1);
            assert(socket_ids(s0).to_multiset().count(sc) >= 1);
            assert(d0.release_order().to_multiset().count(sb) >= 1);
            assert(d0.release_order().to_multiset().count(sc) >= 1);
            assert(sb != sc) by {
                if sb == sc {
                    assert(socket_ids(s0).to_multiset().count(sb) >= 2);
                    assert(d0.release_order().to_multiset().count(sb) >= 2);
                    assert(d0.release_order().to_multiset().contains(sb));
                }
            }
            assert(self.data.ledger.live@.to_multiset().count(sb) >= 1);
            assert(self.data.ledger.live@.contains(sb));
        }
        let ok1 = self.data.ledger.release(sock.data.bev_handle);
        proof {
            assert(ok1);
            assert(self.data.ledger.live@.to_multiset().count(sc) >= 1);
            assert(self.data.ledger.live@.contains(sc));
        }
        let ok2 = self.data.ledger.release(sock.data.cb_ctx);
        proof {
            assert(ok2);
            lemma_close_isolates(s0, fd);
            assert(self.data.socket_map@ == s0.remove(kk));
            assert(self.data.release_order() == socket_ids(s0.remove(kk))
                + listener_ids(d0.connection_listeners@) + signal_ids(d0.signal_events@)
                + seq![d0.base]);
            assert(self.data.release_order().to_multiset()
                =~= d0.release_order().to_multiset().remove(sb).remove(sc));
            assert(self.data.ledger.live@.to_multiset()
                =~= d0.ledger.live@.to_multiset().remove(sb).remove(sc));
            assert(self.data.release_order().to_multiset()
                =~= self.data.ledger.live@.to_multiset());
        }
        if error {
            self.data.socket_errs.push(EventError::ConnectionError);
            EventDispatchOutcome::ClosedWithError(EventError::ConnectionError)
        } else {
            EventDispatchOutcome::ClosedClean
        }
    }

    /// Tear the reactor down and return the ledger as the account of it.
    ///
    /// Every still-open socket is released first — its transport handle,
    /// then its paired callback context — then every listener and every
    /// signal registration the same way, and the multiplexer handle last.
    /// Afterwards nothing is live, and the release history has grown by
    /// exactly the identifiers the reactor owned, each exactly once, in
    /// that order: no handle or context is released twice, none is leaked,
    /// and no context outlives teardown for a callback to reach.
    pub fn teardown(self) -> (r: HandleLedger)
        requires
            self.wf(),
        ensures
            r.wf(),
            r.live@.len() == 0,
            r.next_id == self.data.ledger.next_id,
            r.released@ == self.data.ledger.released@ + self.data.release_order(),
            self.data.release_order().no_duplicates(),
    {
        let ghost d0: EventLoopDataHolder = self.data;
        let ghost s0: Seq<Socket> = self.data.socket_map@;
        let ghost l0: Seq<ListenerReg> = self.data.connection_listeners@;
        let ghost g0: Seq<SignalReg> = self.data.signal_events@;
        let ghost r0: Seq<u64> = self.data.ledger.released@;
        let ghost n0: u64 = self.data.ledger.next_id;
        proof {
            lemma_wf_ownership(&d0);
        }
        let mut d: EventLoopDataHolder = self.data;
        let ghost mut j: int = 0;
        while d.socket_map.len() > 0
            invariant
                d.wf(),
                0 <= j <= s0.len(),
                d.socket_map@ == s0.skip(j),
                d.connection_listeners@ == l0,
                d.signal_events@ == g0,
                d.base == d0.base,
                d.ledger.next_id == n0,
                d.ledger.released@ == r0 + socket_ids(s0.take(j)),
            decreases d.socket_map@.len(),
        {
            let ghost dpre: EventLoopDataHolder = d;
            let sock = d.socket_map.remove(0);
            let ghost sb: u64 = sock.data.bev_handle;
            let ghost sc: u64 = sock.data.cb_ctx;
            proof {
                assert(sock == s0[j]);
                assert(s0.skip(j).skip(1) =~= s0.skip(j + 1));
                assert(socket_ids(s0.skip(j)) == seq![sb, sc] + socket_ids(s0.skip(j + 1)));
                let tail = socket_ids(s0.skip(j + 1)) + listener_ids(l0) + signal_ids(g0)
                    + seq![dpre.base];
                assert(dpre.release_order() =~= seq![sb, sc] + tail);
                lemma_head_pair_live(dpre.release_order(), dpre.ledger.live@, sb, sc, tail);
            }
            let ok1 = d.ledger.release(sock.data.bev_handle);
            proof {
                assert(ok1);
                assert(d.ledger.live@.to_multiset().count(sc) >= 1);
                assert(d.ledger.live@.contains(sc));
            }
            let ok2 = d.ledger.release(sock.data.cb_ctx);
            proof {
                assert(ok2);
                assert(d.socket_map@ =~= s0.skip(j + 1));
                assert(fds_unique(d.socket_map@)) by {
                    assert forall|p: int, q: int|
                        0 <= p < d.socket_map@.len() && 0 <= q < d.socket_map@.len() && p != q
                            implies d.socket_map@[p].data.fd != d.socket_map@[q].data.fd by {
                        assert(d.socket_map@[p] == s0.skip(j)[p + 1]);
                        assert(d.socket_map@[q] == s0.skip(j)[q + 1]);
                    }
                }
                assert forall|i: int| 0 <= i < d.socket_map@.len()
                    implies d.socket_map@[i].data.close_cb by {
                    assert(d.socket_map@[i] == s0.skip(j)[i + 1]);
                }
                assert(d.release_order() == socket_ids(s0.skip(j + 1)) + listener_ids(l0)
                    + signal_ids(g0) + seq![d.base]);
                lemma_multiset_pair_decompose(sb, sc);
                assert(d.release_order().to_multiset()
                    =~= dpre.release_order().to_multiset().remove(sb).remove(sc));
                assert(d.ledger.live@.to_multiset()
                    =~= dpre.ledger.live@.to_multiset().remove(sb).remove(sc));
                assert(d.release_order().to_multiset() =~= d.ledger.live@.to_multiset());
                assert(s0.take(j + 1) =~= s0.take(j).push(s0[j]));
                lemma_socket_ids_push(s0.take(j), s0[j]);
                assert(d.ledger.released@ =~= r0 + socket_ids(s0.take(j + 1)));
                j = j + 1;
            }
        }
        proof {
            assert(j == s0.len());
            assert(s0.take(j) =~= s0);
            assert(d.ledger.released@ == r0 + socket_ids(s0));
            assert(socket_ids(d.socket_map@) =~= Seq::<u64>::empty());
        }
        let ghost mut p: int = 0;
        while d.connection_listeners.len() > 0
            invariant
                d.wf(),
                0 <= p <= l0.len(),
                d.socket_map@.len() == 0,
                d.connection_listeners@ == l0.skip(p),
                d.signal_events@ == g0,
                d.base == d0.base,
                d.ledger.next_id == n0,
                d.ledger.released@ == (r0 + socket_ids(s0)) + listener_ids(l0.take(p)),
            decreases d.connection_listeners@.len(),
        {
            let ghost dpre: EventLoopDataHolder = d;
            let reg = d.connection_listeners.remove(0);
            let ghost hh: u64 = reg.handle;
            let ghost cc: u64 = reg.ctx;
            proof {
                assert(reg == l0[p]);
                assert(l0.skip(p).skip(1) =~= l0.skip(p + 1));
                assert(listener_ids(l0.skip(p)) == seq![hh, cc] + listener_ids(l0.skip(p + 1)));
                assert(socket_ids(dpre.socket_map@) =~= Seq::<u64>::empty());
                let tail = listener_ids(l0.skip(p + 1)) + signal_ids(g0) + seq![dpre.base];
                assert(dpre.release_order() =~= seq![hh, cc] + tail);
                lemma_head_pair_live(dpre.release_order(), dpre.ledger.live@, hh, cc, tail);
            }
            let ok1 = d.ledger.release(reg.handle);
            proof {
                assert(ok1);
                assert(d.ledger.live@.to_multiset().count(cc) >= 1);
                assert(d.ledger.live@.contains(cc));
            }
            let ok2 = d.ledger.release(reg.ctx);
            proof {
                assert(ok2);
                assert(d.connection_listeners@ =~= l0.skip(p + 1));
                assert(socket_ids(d.socket_map@) =~= Seq::<u64>::empty());
                assert(d.release_order() =~= listener_ids(l0.skip(p + 1)) + signal_ids(g0)
                    + seq![d.base]);
                assert(dpre.release_order() =~= listener_ids(l0.skip(p)) + signal_ids(g0)
                    + seq![dpre.base]);
                lemma_multiset_pair_decompose(hh, cc);
                assert(d.release_order().to_multiset()
                    =~= dpre.release_order().to_multiset().remove(hh).remove(cc));
                assert(d.ledger.live@.to_multiset()
                    =~= dpre.ledger.live@.to_multiset().remove(hh).remove(cc));
                assert(d.release_order().to_multiset() =~= d.ledger.live@.to_multiset());
                assert(l0.take(p + 1) =~= l0.take(p).push(l0[p]));
                lemma_listener_ids_push(l0.take(p), l0[p]);
                assert(d.ledger.released@ =~= (r0 + socket_ids(s0)) + listener_ids(l0.take(p + 1)));
                p = p + 1;
            }
        }
        proof {
            assert(p == l0.len());
            assert(l0.take(p) =~= l0);
            assert(d.ledger.released@ == (r0 + socket_ids(s0)) + listener_ids(l0));
        }
        let ghost mut q: int = 0;
        while d.signal_events.len() > 0
            invariant
                d.wf(),
                0 <= q <= g0.len(),
                d.socket_map@.len() == 0,
                d.connection_listeners@.len() == 0,
                d.signal_events@ == g0.skip(q),
                d.base == d0.base,
                d.ledger.next_id == n0,
                d.ledger.released@ == ((r0 + socket_ids(s0)) + listener_ids(l0))
                    + signal_ids(g0.take(q)),
            decreases d.signal_events@.len(),
        {
            let ghost dpre: EventLoopDataHolder = d;
            let reg = d.signal_events.remove(0);
            let ghost hh: u64 = reg.handle;
            let ghost cc: u64 = reg.ctx;
            proof {
                assert(reg == g0[q]);
                assert(g0.skip(q).skip(1) =~= g0.skip(q + 1));
                assert(signal_ids(g0.skip(q)) == seq![hh, cc] + signal_ids(g0.skip(q + 1)));
                assert(socket_ids(dpre.socket_map@) =~= Seq::<u64>::empty());
                assert(listener_ids(dpre.connection_listeners@) =~= Seq::<u64>::empty());
                let tail = signal_ids(g0.skip(q + 1)) + seq![dpre.base];
                assert(dpre.release_order() =~= seq![hh, cc] + tail);
                lemma_head_pair_live(dpre.release_order(), dpre.ledger.live@, hh, cc, tail);
            }
            let ok1 = d.ledger.release(reg.handle);
            proof {
                assert(ok1);
                assert(d.ledger.live@.to_multiset().count(cc) >= 1);
                assert(d.ledger.live@.contains(cc));
            }
            let ok2 = d.ledger.release(reg.ctx);
            proof {
                assert(ok2);
                assert(d.signal_events@ =~= g0.skip(q + 1));
                assert(socket_ids(d.socket_map@) =~= Seq::<u64>::empty());
                assert(listener_ids(d.connection_listeners@) =~= Seq::<u64>::empty());
                assert(d.release_order() =~= signal_ids(g0.skip(q + 1)) + seq![d.base]);
                assert(dpre.release_order() =~= signal_ids(g0.skip(q)) + seq![dpre.base]);
                lemma_multiset_pair_decompose(hh, cc);
                assert(d.release_order().to_multiset()
                    =~= dpre.release_order().to_multiset().remove(hh).remove(cc));
                assert(d.ledger.live@.to_multiset()
                    =~= dpre.ledger.live@.to_multiset().remove(hh).remove(cc));
                assert(d.release_order().to_multiset() =~= d.ledger.live@.to_multiset());
                assert(g0.take(q + 1) =~= g0.take(q).push(g0[q]));
                lemma_signal_ids_push(g0.take(q), g0[q]);
                assert(d.ledger.released@ =~= ((r0 + socket_ids(s0)) + listener_ids(l0))
                    + signal_ids(g0.take(q + 1)));
                q = q + 1;
            }
        }
        let ghost dlast: EventLoopDataHolder = d;
        proof {
            assert(q == g0.len());
            assert(g0.take(q) =~= g0);
            assert(socket_ids(dlast.socket_map@) =~= Seq::<u64>::empty());
            assert(listener_ids(dlast.connection_listeners@) =~= Seq::<u64>::empty());
            assert(signal_ids(dlast.signal_events@) =~= Seq::<u64>::empty());
            assert(dlast.release_order() =~= seq![dlast.base]);
            assert(dlast.release_order().to_multiset().count(dlast.base) >= 1) by {
                assert(dlast.release_order()[0] == dlast.base);
            }
            assert(dlast.ledger.live@.to_multiset().count(dlast.base) >= 1);
            assert(dlast.ledger.live@.contains(dlast.base));
        }
        let ok_base = d.ledger.release(d.base);
        proof {
            assert(ok_base);
            assert(seq![dlast.base].to_multiset()
                =~= Multiset::<u64>::empty().insert(dlast.base)) by {
                assert(seq![dlast.base] =~= Seq::<u64>::empty().push(dlast.base));
            }
            assert(d.ledger.live@.to_multiset() =~= Multiset::<u64>::empty());
            assert(d.ledger.live@.len() == d.ledger.live@.to_multiset().len());
            assert(d.ledger.live@.len() == 0);
            assert(d.ledger.released@ =~= r0 + (socket_ids(s0) + listener_ids(l0)
                + signal_ids(g0) + seq![d0.base]));
            assert(d.ledger.released@ =~= r0 + d0.release_order());
        }
        d.ledger
    }

    /// Arm the one-shot enqueue fault on the outbound queue of the socket
    /// under `fd`, so that its next echo write fails exactly as an
    /// out-of-memory transport would. Reports whether a socket was found;
    /// nothing else about it, or about any other connection, changes.
    pub fn inject_write_fault(&mut self, fd: i32) -> (r: bool)
        requires
            old(self).wf(),
        ensures
            final(self).wf(),
            r == has_fd(old(self).data.socket_map@, fd),
            !r ==> final(self).data == old(self).data,
            final(self).data.connection_listeners@ == old(self).data.connection_listeners@,
            final(self).data.signal_events@ == old(self).data.signal_events@,
            final(self).data.socket_errs@ == old(self).data.socket_errs@,
            final(self).data.ledger == old(self).data.ledger,
            final(self).data.base == old(self).data.base,
            final(self).data.phase == old(self).data.phase,
            final(self).data.break_reason_err == old(self).data.break_reason_err,
            final(self).data.exit_delay_micros == old(self).data.exit_delay_micros,
            r ==> ({
                let s0 = old(self).data.socket_map@;
                let k = idx_of(s0, fd);
                let m = final(self).data.socket_map@;
                &&& m.len() == s0.len()
                &&& (forall|j: int| 0 <= j < s0.len() && j != k ==> m[j] == s0[j])
                &&& m[k].data == s0[k].data
                &&& m[k].input == s0[k].input
                &&& m[k].output@ == s0[k].output@
                &&& m[k].output.add_fault_pending()
            }),
    {
        let ghost s0: Seq<Socket> = self.data.socket_map@;
        let idx = match self.find_socket(fd) {
            Some(i) => i,
            None => {
                return false;
            },
        };
        let ghost kk: int = idx as int;
        let mut sock = self.data.socket_map.remove(idx);
        sock.output.inject_add_failure();
        self.data.socket_map.insert(idx, sock);
        proof {
            lemma_reinsert(s0, kk, sock);
            let m = self.data.socket_map@;
            assert forall|i: int| 0 <= i < m.len() implies
                m[i].data.bev_handle == s0[i].data.bev_handle
                    && m[i].data.cb_ctx == s0[i].data.cb_ctx
                    && m[i].data.fd == s0[i].data.fd
                    && m[i].data.close_cb == s0[i].data.close_cb by {
                if i != kk {
                    assert(m[i] == s0[i]);
                }
            }
            lemma_socket_ids_same(m, s0);
            assert(fds_unique(m));
            assert(self.data.release_order().to_multiset()
                =~= self.data.ledger.live@.to_multiset());
        }
        true
    }
}

/// In the flattened identifier sequence of a socket run, every socket's
/// transport handle stands immediately before its paired callback context:
/// on teardown the OS handle is released no later than the context memory
/// backing its callbacks.
pub proof fn lemma_socket_ids_pairing(s: Seq<Socket>)
    ensures
        socket_ids(s).len() == 2 * s.len(),
        forall|i: int|
            0 <= i < s.len() ==> socket_ids(s)[2 * i] == (#[trigger] s[i]).data.bev_handle
                && socket_ids(s)[2 * i + 1] == s[i].data.cb_ctx,
    decreases s.len(),
{
    if s.len() == 0 {
    } else {
        lemma_socket_ids_pairing(s.skip(1));
        assert forall|i: int| 0 <= i < s.len() implies
            socket_ids(s)[2 * i] == (#[trigger] s[i]).data.bev_handle
                && socket_ids(s)[2 * i + 1] == s[i].data.cb_ctx by {
            if i == 0 {
                assert(socket_ids(s)[0] == s[0].data.bev_handle);
                assert(socket_ids(s)[1] == s[0].data.cb_ctx);
            } else {
                assert(s.skip(1)[i - 1] == s[i]);
                assert(socket_ids(s)[2 * i] == socket_ids(s.skip(1))[2 * (i - 1)]);
                assert(socket_ids(s)[2 * i + 1] == socket_ids(s.skip(1))[2 * (i - 1) + 1]);
            }
        }
    }
}

/// In the flattened identifier sequence of a listener run, every listening
/// handle stands immediately before its paired callback context: on
/// teardown the OS handle is released no later than the context memory
/// backing its callbacks.
pub proof fn lemma_listener_ids_pairing(s: Seq<ListenerReg>)
    ensures
        listener_ids(s).len() == 2 * s.len(),
        forall|i: int|
            0 <= i < s.len() ==> listener_ids(s)[2 * i] == (#[trigger] s[i]).handle
                && listener_ids(s)[2 * i + 1] == s[i].ctx,
    decreases s.len(),
{
    if s.len() == 0 {
    } else {
        lemma_listener_ids_pairing(s.skip(1));
        assert forall|i: int| 0 <= i < s.len() implies
            listener_ids(s)[2 * i] == (#[trigger] s[i]).handle
                && listener_ids(s)[2 * i + 1] == s[i].ctx by {
            if i == 0 {
                assert(listener_ids(s)[0] == s[0].handle);
                assert(listener_ids(s)[1] == s[0].ctx);
            } else {
                assert(s.skip(1)[i - 1] == s[i]);
                assert(listener_ids(s)[2 * i] == listener_ids(s.skip(1))[2 * (i - 1)]);
                assert(listener_ids(s)[2 * i + 1] == listener_ids(s.skip(1))[2 * (i - 1) + 1]);
            }
        }
    }
}

/// In the flattened identifier sequence of a signal-registration run, every
/// signal event stands immediately before its paired callback context: on
/// teardown the OS handle is released no later than the context memory
/// backing its callbacks.
pub proof fn lemma_signal_ids_pairing(s: Seq<SignalReg>)
    ensures
        signal_ids(s).len() == 2 * s.len(),
        forall|i: int|
            0 <= i < s.len() ==> signal_ids(s)[2 * i] == (#[trigger] s[i]).handle
                && signal_ids(s)[2 * i + 1] == s[i].ctx,
    decreases s.len(),
{
    if s.len() == 0 {
    } else {
        lemma_signal_ids_pairing(s.skip(1));
        assert forall|i: int| 0 <= i < s.len() implies
            signal_ids(s)[2 * i] == (#[trigger] s[i]).handle
                && signal_ids(s)[2 * i + 1] == s[i].ctx by {
            if i == 0 {
                assert(signal_ids(s)[0] == s[0].handle);
                assert(signal_ids(s)[1] == s[0].ctx);
            } else {
                assert(s.skip(1)[i - 1] == s[i]);
                assert(signal_ids(s)[2 * i] == signal_ids(s.skip(1))[2 * (i - 1)]);
                assert(signal_ids(s)[2 * i + 1] == signal_ids(s.skip(1))[2 * (i - 1) + 1]);
            }
        }
    }
}

/// Some signal registration carries this signal number.
pub open spec fn has_signal(s: Seq<SignalReg>, signum: u32) -> bool {
    exists|i: int| 0 <= i < s.len() && s[i].signum == signum
}

/// When what a reactor owns starts with the pair `a, b` and the ledger's
/// live side matches it, `a` is live, distinct from `b`, and `b` stays
/// available once `a` is released.
pub proof fn lemma_head_pair_live(order: Seq<u64>, live: Seq<u64>, a: u64, b: u64, tail: Seq<u64>)
    requires
        order.to_multiset() == live.to_multiset(),
        order == seq![a, b] + tail,
        live.no_duplicates(),
    ensures
        live.contains(a),
        a != b,
        live.to_multiset().remove(a).count(b) >= 1,
{
    lemma_multiset_pair_decompose(a, b);
    assert(order.to_multiset() == seq![a, b].to_multiset().add(tail.to_multiset()));
    assert(order.to_multiset().count(a) >= 1);
    assert(order.to_multiset().count(b) >= 1);
    live.lemma_multiset_has_no_duplicates();
    assert(a != b) by {
        if a == b {
            assert(order.to_multiset().count(a) >= 2);
            assert(live.to_multiset().count(a) >= 2);
            assert(live.to_multiset().contains(a));
        }
    }
    assert(live.to_multiset().count(a) >= 1);
    assert(live.contains(a));
    assert(live.to_multiset().remove(a).count(b) >= 1);
}

/// Taking the socket at `k` out and putting one back at the same position
/// touches no other position.
pub proof fn lemma_reinsert(s: Seq<Socket>, k: int, x: Socket)
    requires
        0 <= k < s.len(),
    ensures
        s.remove(k).insert(k, x).len() == s.len(),
        s.remove(k).insert(k, x)[k] == x,
        forall|j: int| 0 <= j < s.len() && j != k ==> s.remove(k).insert(k, x)[j] == s[j],
{
    s.remove_ensures(k);
    s.remove(k).insert_ensures(k, x);
    assert forall|j: int| 0 <= j < s.len() && j != k implies s.remove(k).insert(k, x)[j]
        == s[j] by {
        if j < k {
            assert(s.remove(k).insert(k, x)[j] == s.remove(k)[j]);
        } else {
            assert(s.remove(k).insert(k, x)[j] == s.remove(k)[j - 1]);
        }
    }
}

/// Two socket runs whose elements agree on their ledger identifiers flatten
/// to the same identifier sequence.
pub proof fn lemma_socket_ids_same(a: Seq<Socket>, b: Seq<Socket>)
    requires
        a.len() == b.len(),
        forall|i: int|
            0 <= i < a.len() ==> a[i].data.bev_handle == b[i].data.bev_handle
                && a[i].data.cb_ctx == b[i].data.cb_ctx,
    ensures
        socket_ids(a) == socket_ids(b),
    decreases a.len(),
{
    if a.len() == 0 {
        assert(socket_ids(a) =~= socket_ids(b));
    } else {
        assert forall|i: int| 0 <= i < a.skip(1).len() implies
            a.skip(1)[i].data.bev_handle == b.skip(1)[i].data.bev_handle
                && a.skip(1)[i].data.cb_ctx == b.skip(1)[i].data.cb_ctx by {
            assert(a.skip(1)[i] == a[i + 1]);
            assert(b.skip(1)[i] == b[i + 1]);
        }
        lemma_socket_ids_same(a.skip(1), b.skip(1));
        assert(socket_ids(a) =~= socket_ids(b));
    }
}

/// Closing a connection is terminal and isolated: once the socket with this
/// descriptor leaves the index, no later delivery for that descriptor
/// resolves a socket — so no read, write, or event notification can follow
/// the close notification — while every other connection's socket, with its
/// queues, handlers, and state, is exactly the one indexed before.
pub proof fn lemma_close_isolates(s: Seq<Socket>, fd: i32)
    requires
        fds_unique(s),
        has_fd(s, fd),
    ensures
        !has_fd(s.remove(idx_of(s, fd)), fd),
        fds_unique(s.remove(idx_of(s, fd))),
        forall|fd2: i32|
            fd2 != fd ==> (has_fd(s.remove(idx_of(s, fd)), fd2) <==> has_fd(s, fd2)),
        forall|fd2: i32|
            fd2 != fd && has_fd(s, fd2) ==> s.remove(idx_of(s, fd))[idx_of(
                s.remove(idx_of(s, fd)),
                fd2,
            )] == s[idx_of(s, fd2)],
{
    let k = idx_of(s, fd);
    lemma_idx_of(s, fd);
    let r = s.remove(k);
    assert(r.len() == s.len() - 1);
    assert forall|i: int| 0 <= i < r.len() implies r[i] == (if i < k {
        s[i]
    } else {
        s[i + 1]
    }) by {
        s.remove_ensures(k);
    }
    assert forall|i: int| 0 <= i < r.len() implies r[i].data.fd != fd by {
        let p: int = if i < k { i } else { i + 1 };
        assert(r[i] == s[p]);
        assert(p != k);
    }
    assert(!has_fd(r, fd));
    assert forall|i: int, j: int|
        0 <= i < r.len() && 0 <= j < r.len() && i != j implies r[i].data.fd != r[j].data.fd by {
        let p: int = if i < k { i } else { i + 1 };
        let q: int = if j < k { j } else { j + 1 };
        assert(r[i] == s[p]);
        assert(r[j] == s[q]);
    }
    assert forall|fd2: i32| fd2 != fd implies (has_fd(r, fd2) <==> has_fd(s, fd2)) by {
        if has_fd(r, fd2) {
            let i = choose|i: int| 0 <= i < r.len() && r[i].data.fd == fd2;
            let p: int = if i < k { i } else { i + 1 };
            assert(s[p].data.fd == fd2);
        }
        if has_fd(s, fd2) {
            let j = choose|j: int| 0 <= j < s.len() && s[j].data.fd == fd2;
            assert(j != k);
            let i: int = if j < k { j } else { j - 1 };
            assert(r[i].data.fd == fd2);
        }
    }
    assert forall|fd2: i32| fd2 != fd && has_fd(s, fd2) implies r[idx_of(r, fd2)] == s[idx_of(
        s,
        fd2,
    )] by {
        assert(has_fd(r, fd2));
        lemma_idx_of(r, fd2);
        lemma_idx_of(s, fd2);
        let i = idx_of(r, fd2);
        let p: int = if i < k { i } else { i + 1 };
        assert(r[i] == s[p]);
        assert(s[p].data.fd == fd2);
        assert(p == idx_of(s, fd2));
    }
}

} // verus!
