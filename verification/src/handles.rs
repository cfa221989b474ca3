use vstd::prelude::*;

verus! {

/// The resource ledger: the accounting harness behind every OS handle and
/// callback context of one reactor.
///
/// Each multiplexer, listening handle, signal event, buffered transport, and
/// heap-held callback context is represented by an identifier drawn from this
/// ledger at registration time and given back to it exactly once on release.
/// The ledger keeps the full history — which identifiers are still live and
/// in which order the dead ones were released — so that teardown ordering and
/// exactly-once release are stated and checked, not hoped for.
///
/// Allocation can be made to fail once on purpose (`inject_alloc_failure`),
/// standing in for the OS refusing a multiplexer, bind, or signal slot.
pub struct HandleLedger {
    /// The next identifier to hand out; every id ever issued is below it.
    pub next_id: u64,
    /// Identifiers issued and not yet released.
    pub live: Vec<u64>,
    /// Identifiers released, in release order.
    pub released: Vec<u64>,
    /// One-shot fault: when set, the next `alloc` fails.
    pub fail_next_alloc: bool,
}

impl HandleLedger {
    /// Ledger consistency: no identifier is live twice, released twice, or
    /// both live and released, and none is ahead of the allocation counter.
    pub open spec fn wf(&self) -> bool {
        &&& self.live@.no_duplicates()
        &&& self.released@.no_duplicates()
        &&& forall|i: int| 0 <= i < self.live@.len() ==> self.live@[i] < self.next_id
        &&& forall|i: int| 0 <= i < self.released@.len() ==> self.released@[i] < self.next_id
        &&& forall|i: int, j: int|
            0 <= i < self.live@.len() && 0 <= j < self.released@.len()
                ==> self.live@[i] != self.released@[j]
    }

    /// An empty ledger: nothing issued, nothing released, no fault armed.
    pub fn new() -> (l: Self)
        ensures
            l.wf(),
            l.next_id == 0,
            l.live@ == Seq::<u64>::empty(),
            l.released@ == Seq::<u64>::empty(),
            !l.fail_next_alloc,
    {
        HandleLedger { next_id: 0, live: Vec::new(), released: Vec::new(), fail_next_alloc: false }
    }

    /// Arm the one-shot allocation fault: the next `alloc` fails, as an OS
    /// that refuses the resource would make it.
    pub fn inject_alloc_failure(&mut self)
        ensures
            final(self).fail_next_alloc,
            final(self).next_id == old(self).next_id,
            final(self).live@ == old(self).live@,
            final(self).released@ == old(self).released@,
    {
        self.fail_next_alloc = true;
    }

    /// Issue a fresh identifier, or fail when the fault is armed or the
    /// identifier space is spent. The fault is consumed either way; on
    /// failure nothing else changes.
    pub fn issue(&mut self) -> (r: Option<u64>)
        requires
            old(self).wf(),
        ensures
            final(self).wf(),
            final(self).fail_next_alloc == false,
            final(self).released@ == old(self).released@,
            r is None <==> old(self).fail_next_alloc || old(self).next_id == u64::MAX,
            r is None ==> {
                &&& final(self).live@ == old(self).live@
                &&& final(self).next_id == old(self).next_id
            },
            r matches Some(id) ==> {
                &&& id == old(self).next_id
                &&& final(self).next_id == old(self).next_id + 1
                &&& final(self).live@ == old(self).live@.push(id)
                &&& !old(self).live@.contains(id)
                &&& !old(self).released@.contains(id)
            },
    {
        if self.fail_next_alloc {
            self.fail_next_alloc = false;
            return None;
        }
        if self.next_id == u64::MAX {
            return None;
        }
        let id: u64 = self.next_id;
        self.next_id = self.next_id + 1;
        self.live.push(id);
        Some(id)
    }

    /// Release a live identifier: it moves from the live set to the end of
    /// the release history. Releasing an identifier that is not live reports
    /// `false` and changes nothing, so a double release is visible, never
    /// destructive.
    pub fn release(&mut self, id: u64) -> (r: bool)
        requires
            old(self).wf(),
        ensures
            final(self).wf(),
            final(self).next_id == old(self).next_id,
            final(self).fail_next_alloc == old(self).fail_next_alloc,
            r == old(self).live@.contains(id),
            !r ==> {
                &&& final(self).live@ == old(self).live@
                &&& final(self).released@ == old(self).released@
            },
            r ==> {
                &&& final(self).released@ == old(self).released@.push(id)
                &&& final(self).live@.len() == old(self).live@.len() - 1
                &&& !final(self).live@.contains(id)
                &&& final(self).live@.to_multiset() == old(self).live@.to_multiset().remove(id)
                &&& forall|x: u64|
                    x != id ==> (final(self).live@.contains(x) <==> old(self).live@.contains(x))
            },
    {
        let n: usize = self.live.len();
        let mut i: usize = 0;
        while i < n
            invariant
                i <= n,
                n == self.live@.len(),
                self.live@ == old(self).live@,
                self.released@ == old(self).released@,
                self.next_id == old(self).next_id,
                self.fail_next_alloc == old(self).fail_next_alloc,
                old(self).wf(),
                forall|j: int| 0 <= j < i ==> self.live@[j] != id,
            decreases n - i,
        {
            if self.live[i] == id {
                let ghost pre: Seq<u64> = self.live@;
                self.live.remove(i);
                self.released.push(id);
                proof {
                    assert(pre.contains(id));
                    let k: int = i as int;
                    vstd::seq_lib::to_multiset_remove(pre, k);
                    assert(self.live@.to_multiset() == pre.to_multiset().remove(id));
                    assert(self.live@ =~= pre.take(k) + pre.skip(k + 1));
                    assert forall|x: u64| x != id implies
                        (self.live@.contains(x) <==> pre.contains(x)) by {
                        if self.live@.contains(x) {
                            let m: int = choose|m: int|
                                0 <= m < self.live@.len() && self.live@[m] == x;
                            if m < k {
                                assert(pre[m] == x);
                            } else {
                                assert(pre[m + 1] == x);
                            }
                        }
                        if pre.contains(x) {
                            let m: int = choose|m: int| 0 <= m < pre.len() && pre[m] == x;
                            if m < k {
                                assert(self.live@[m] == x);
                            } else {
                                assert(m != k);
                                assert(self.live@[m - 1] == x);
                            }
                        }
                    }
                    assert(!self.live@.contains(id)) by {
                        if self.live@.contains(id) {
                            let m: int = choose|m: int|
                                0 <= m < self.live@.len() && self.live@[m] == id;
                            if m < k {
                                assert(pre[m] == id);
                            } else {
                                assert(pre[m + 1] == id);
                            }
                        }
                    }
                    assert(self.live@.no_duplicates()) by {
                        assert forall|p: int, q: int|
                            0 <= p < self.live@.len() && 0 <= q < self.live@.len() && p != q
                                implies self.live@[p] != self.live@[q] by {
                            let p2: int = if p < k { p } else { p + 1 };
                            let q2: int = if q < k { q } else { q + 1 };
                            assert(pre[p2] == self.live@[p]);
                            assert(pre[q2] == self.live@[q]);
                        }
                    }
                }
                return true;
            }
            i = i + 1;
        }
        proof {
            assert(!old(self).live@.contains(id)) by {
                if old(self).live@.contains(id) {
                    let m: int = choose|m: int|
                        0 <= m < old(self).live@.len() && old(self).live@[m] == id;
                    assert(old(self).live@[m] == id);
                }
            }
        }
        false
    }

    /// How many identifiers are still live.
    pub fn live_count(&self) -> (n: usize)
        ensures
            n == self.live@.len(),
    {
        self.live.len()
    }

    /// How many identifiers have been released.
    pub fn released_count(&self) -> (n: usize)
        ensures
            n == self.released@.len(),
    {
        self.released.len()
    }
}

} // verus!
