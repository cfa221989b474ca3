use vstd::prelude::*;

use crate::errors::EventError;
use crate::event_loop::EventLoop;
use crate::event_loop::LoopPhase;
use crate::event_loop::has_signal;
use crate::handles::HandleLedger;

verus! {

/// The TCP port the echo service listens on, all interfaces.
pub const ECHO_PORT: u16 = 9995;

/// The interrupt signal number the service registers for graceful shutdown.
pub const SIGINT: u32 = 2;

/// Stand up the echo service core against the given ledger: allocate the
/// multiplexer, bind the listener on `ECHO_PORT`, and register the interrupt
/// signal whose delivery schedules the graceful exit. Each startup failure
/// is fatal and names its stage: `InitError`, `BindError`, or
/// `RegisterError`, exactly when the ledger refuses the allocation that
/// stage needs. The caller then runs dispatch: it feeds accepts, bytes,
/// event masks, signals, and timer expiries to the returned reactor and
/// performs the actions its outcomes name.
pub fn build_echo_server(ledger: HandleLedger) -> (r: Result<EventLoop, EventError>)
    requires
        ledger.wf(),
        ledger.live@.len() == 0,
    ensures
        r is Err <==> (ledger.fail_next_alloc || ledger.next_id + 5 > u64::MAX),
        r matches Err(e) ==> {
            &&& (e == EventError::InitError <==> (ledger.fail_next_alloc
                || ledger.next_id == u64::MAX))
            &&& (e == EventError::BindError <==> (!ledger.fail_next_alloc
                && ledger.next_id < u64::MAX && ledger.next_id + 3 > u64::MAX))
            &&& (e == EventError::RegisterError <==> (!ledger.fail_next_alloc
                && ledger.next_id + 3 <= u64::MAX && ledger.next_id + 5 > u64::MAX))
        },
        r matches Ok(lp) ==> {
            &&& lp.wf()
            &&& lp.data.ledger.fail_next_alloc == false
            &&& lp.data.ledger.next_id == ledger.next_id + 5
            &&& lp.data.connection_listeners@.len() == 1
            &&& lp.data.connection_listeners@[0].port == ECHO_PORT
            &&& lp.data.signal_events@.len() == 1
            &&& lp.data.signal_events@[0].signum == SIGINT
            &&& has_signal(lp.data.signal_events@, SIGINT)
            &&& lp.data.socket_map@.len() == 0
            &&& lp.data.socket_errs@.len() == 0
            &&& lp.data.phase == LoopPhase::Running
            &&& lp.data.break_reason_err is None
            &&& lp.data.exit_delay_micros is None
        },
{
    let mut lp = match EventLoop::try_new(ledger) {
        Ok(l) => l,
        Err(e) => {
            return Err(e);
        },
    };
    match lp.bind_inet_port(ECHO_PORT) {
        Ok(()) => {},
        Err(e) => {
            return Err(e);
        },
    };
    match lp.handle_signal(SIGINT) {
        Ok(()) => {},
        Err(e) => {
            return Err(e);
        },
    };
    proof {
        assert(has_signal(lp.data.signal_events@, SIGINT)) by {
            assert(lp.data.signal_events@[0].signum == SIGINT);
        }
    }
    Ok(lp)
}

} // verus!

