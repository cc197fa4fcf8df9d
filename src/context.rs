use vstd::prelude::*;
use std::collections::VecDeque;

use crate::arena::Offset;
use crate::ids::ContextId;
use crate::lookup::BroadcastGroup;
use crate::queue::LocalQueue;
use crate::runtime::link_index;

verus! {

/// The count of events that the system still owes, shared by all contexts:
/// live accessors, messages in flight, and contexts still starting. When it
/// falls to zero the system is quiescent and stops, once and for good.
pub struct ControlBlock {
    unhandled_events: u32,
    stopped: bool,
}

impl ControlBlock {
    pub closed spec fn count(&self) -> nat {
        self.unhandled_events as nat
    }

    pub closed spec fn is_stopped(&self) -> bool {
        self.stopped
    }

    /// A block that owes one event: the runtime's own hold until every context
    /// has started.
    pub fn new() -> (r: Self)
        ensures
            r.count() == 1,
            !r.is_stopped(),
    {
        ControlBlock { unhandled_events: 1, stopped: false }
    }

    pub fn unhandled_events(&self) -> (r: u32)
        ensures
            r == self.count(),
    {
        self.unhandled_events
    }

    pub fn stopped(&self) -> (r: bool)
        ensures
            r == self.is_stopped(),
    {
        self.stopped
    }

    /// Owes `n` more events: an accessor made or cloned, a message sent, a
    /// context started.
    pub fn acquire(&mut self, n: u32)
        requires
            !old(self).is_stopped(),
            old(self).count() + n <= u32::MAX,
        ensures
            final(self).count() == old(self).count() + n,
            !final(self).is_stopped(),
    {
        self.unhandled_events = self.unhandled_events + n;
    }

    /// Settles one event that gave rise to `n` new ones (the messages a handler
    /// sent to other contexts). True when nothing is owed any more; the block is
    /// then stopped.
    pub fn settle(&mut self, n: usize) -> (r: bool)
        requires
            !old(self).is_stopped(),
            old(self).count() >= 1,
            old(self).count() - 1 + n <= u32::MAX,
        ensures
            final(self).count() == old(self).count() - 1 + n,
            r <==> final(self).count() == 0,
            final(self).is_stopped() == r,
    {
        if n == 0 {
            self.release()
        } else {
            self.unhandled_events = self.unhandled_events + (n - 1) as u32;
            false
        }
    }

    /// Settles one event: an accessor dropped, a message handled with nothing
    /// sent on, a context done starting. True when nothing is owed any more; the
    /// block is then stopped.
    pub fn release(&mut self) -> (r: bool)
        requires
            !old(self).is_stopped(),
            old(self).count() >= 1,
        ensures
            final(self).count() == old(self).count() - 1,
            r <==> final(self).count() == 0,
            final(self).is_stopped() == r,
    {
        self.unhandled_events = self.unhandled_events - 1;
        if self.unhandled_events == 0 {
            self.stopped = true;
            true
        } else {
            false
        }
    }
}

/// The state of a context that messages read and write: its id, its queue of
/// deferred local work, and the messages for other contexts not sent yet.
pub struct ContextData<T> {
    id: ContextId,
    local_queue: LocalQueue<T>,
    unsent_messages: VecDeque<(ContextId, T)>,
}

/// What a context does next, once a message's handler has run.
pub enum Step<T> {
    /// Run this deferred local message.
    RunLocal(T),
    /// Send each message over the link at its index, in this order.
    Send(Vec<(usize, T)>),
    /// The system is quiescent: tell every other context to stop, and stop.
    Shutdown,
    /// Wait for the next item of the inbox.
    Receive,
}

/// The link indices and messages that a context sends for `unsent`, in order.
pub open spec fn outbound<T>(own: ContextId, unsent: Seq<(ContextId, T)>) -> Seq<(usize, T)> {
    unsent.map_values(
        |m: (ContextId, T)|
            ((m.0.0 - 1 - (if m.0.0 > own.0 { 1int } else { 0int })) as usize, m.1),
    )
}

/// FIFO per pair: two messages for the same context leave in the order they were
/// made, over the same link; messages for different contexts go over different
/// links.
pub proof fn lemma_fifo_per_pair<T>(own: ContextId, unsent: Seq<(ContextId, T)>, i: int, j: int)
    requires
        own.0 >= 1,
        forall|k: int|
            0 <= k < unsent.len() ==> (#[trigger] unsent[k]).0 != own && unsent[k].0.0 >= 1,
        0 <= i < j < unsent.len(),
    ensures
        outbound(own, unsent).len() == unsent.len(),
        outbound(own, unsent)[i].1 == unsent[i].1,
        outbound(own, unsent)[j].1 == unsent[j].1,
        unsent[i].0 == unsent[j].0 ==> outbound(own, unsent)[i].0 == outbound(own, unsent)[j].0,
        unsent[i].0 != unsent[j].0 ==> outbound(own, unsent)[i].0 != outbound(own, unsent)[j].0,
{
    assert(unsent[i].0 != own && unsent[j].0 != own);
    if unsent[i].0 != unsent[j].0 {
        assert(unsent[i].0.0 != unsent[j].0.0);
    }
}

/// The messages of `msgs` for the groups of `group` in context `own`, in order.
pub open spec fn local_part<T, M>(
    group: Seq<(ContextId, Vec<(Offset, M)>)>,
    own: ContextId,
    msgs: Seq<T>,
) -> Seq<T>
    decreases group.len(),
{
    if group.len() == 0 || msgs.len() != group.len() {
        Seq::empty()
    } else if group.last().0 == own {
        local_part(group.drop_last(), own, msgs.drop_last()).push(msgs.last())
    } else {
        local_part(group.drop_last(), own, msgs.drop_last())
    }
}

/// The messages of `msgs` for the groups of `group` in other contexts than
/// `own`, in order, each with its context.
pub open spec fn remote_part<T, M>(
    group: Seq<(ContextId, Vec<(Offset, M)>)>,
    own: ContextId,
    msgs: Seq<T>,
) -> Seq<(ContextId, T)>
    decreases group.len(),
{
    if group.len() == 0 || msgs.len() != group.len() {
        Seq::empty()
    } else if group.last().0 != own {
        remote_part(group.drop_last(), own, msgs.drop_last()).push((group.last().0, msgs.last()))
    } else {
        remote_part(group.drop_last(), own, msgs.drop_last())
    }
}

impl<T> ContextData<T> {
    pub closed spec fn spec_id(&self) -> ContextId {
        self.id
    }

    pub closed spec fn local(&self) -> Seq<T> {
        self.local_queue.pending()
    }

    pub closed spec fn unsent(&self) -> Seq<(ContextId, T)> {
        self.unsent_messages@
    }

    /// True when the context's id is valid and every message not sent yet is for
    /// another valid context.
    pub open spec fn wf(&self) -> bool {
        &&& self.spec_id().0 >= 1
        &&& forall|i: int|
            0 <= i < self.unsent().len() ==> (#[trigger] self.unsent()[i]).0 != self.spec_id()
                && self.unsent()[i].0.0 >= 1
    }

    /// The state of context `id` before any work.
    pub fn new(id: ContextId) -> (r: Self)
        requires
            id.0 >= 1,
        ensures
            r.spec_id() == id,
            r.local() == Seq::<T>::empty(),
            r.unsent() == Seq::<(ContextId, T)>::empty(),
            r.wf(),
    {
        ContextData { id, local_queue: LocalQueue::unbounded(), unsent_messages: VecDeque::new() }
    }

    pub fn id(&self) -> (r: ContextId)
        ensures
            r == self.spec_id(),
    {
        self.id
    }

    /// Routes `msg` for an actor of context `target`: to the local queue when it
    /// is this context, else to the messages to send when the handler is done.
    pub fn send_msg(&mut self, target: ContextId, msg: T)
        requires
            old(self).wf(),
            target.0 >= 1,
        ensures
            final(self).wf(),
            final(self).spec_id() == old(self).spec_id(),
            target == old(self).spec_id() ==> final(self).local() == old(self).local().push(msg)
                && final(self).unsent() == old(self).unsent(),
            target != old(self).spec_id() ==> final(self).local() == old(self).local()
                && final(self).unsent() == old(self).unsent().push((target, msg)),
    {
        if target.0 == self.id.0 {
            self.local_queue.send(msg);
        } else {
            let ghost before = self.unsent();
            self.unsent_messages.push_back((target, msg));
            assert forall|i: int| 0 <= i < self.unsent().len() implies (
            #[trigger] self.unsent()[i]).0 != self.spec_id() && self.unsent()[i].0.0 >= 1 by {
                if i < before.len() {
                    assert(self.unsent()[i] == before[i]);
                }
            }
        }
    }

    /// Schedules a broadcast over `group`: `make(c, targets)` builds one message
    /// for the targets of context `c`, which runs in this context's local queue
    /// or is sent to `c`, in the order of the group. An empty group changes
    /// nothing.
    pub fn broadcast<M: Copy, F: Fn(ContextId, &Vec<(Offset, M)>) -> T>(
        &mut self,
        group: &BroadcastGroup<M>,
        make: F,
    )
        requires
            old(self).wf(),
            forall|i: int|
                0 <= i < group.by_context@.len() ==> (#[trigger] group.by_context@[i]).0.0 >= 1,
            forall|c: ContextId, v: &Vec<(Offset, M)>| #[trigger] make.requires((c, v)),
        ensures
            final(self).wf(),
            final(self).spec_id() == old(self).spec_id(),
            exists|msgs: Seq<T>|
                {
                    &&& msgs.len() == group.by_context@.len()
                    &&& forall|i: int|
                        0 <= i < msgs.len() ==> make.ensures(
                            (group.by_context@[i].0, &group.by_context@[i].1),
                            #[trigger] msgs[i],
                        )
                    &&& final(self).local() == old(self).local() + local_part(
                        group.by_context@,
                        old(self).spec_id(),
                        msgs,
                    )
                    &&& final(self).unsent() == old(self).unsent() + remote_part(
                        group.by_context@,
                        old(self).spec_id(),
                        msgs,
                    )
                },
    {
        let ghost g = group.by_context@;
        let ghost local0 = self.local();
        let ghost unsent0 = self.unsent();
        let ghost mut msgs: Seq<T> = Seq::empty();
        let mut i: usize = 0;
        while i < group.by_context.len()
            invariant
                g == group.by_context@,
                0 <= i <= g.len(),
                self.wf(),
                self.spec_id() == old(self).spec_id(),
                local0 == old(self).local(),
                unsent0 == old(self).unsent(),
                forall|j: int| 0 <= j < g.len() ==> (#[trigger] g[j]).0.0 >= 1,
                forall|c: ContextId, v: &Vec<(Offset, M)>| #[trigger] make.requires((c, v)),
                msgs.len() == i,
                forall|j: int|
                    0 <= j < i ==> make.ensures((g[j].0, &g[j].1), #[trigger] msgs[j]),
                self.local() == local0 + local_part(g.take(i as int), self.spec_id(), msgs),
                self.unsent() == unsent0 + remote_part(g.take(i as int), self.spec_id(), msgs),
            decreases g.len() - i,
        {
            let c = group.by_context[i].0;
            let msg = make(c, &group.by_context[i].1);
            let ghost prev = msgs;
            proof {
                msgs = msgs.push(msg);
                assert(g.take(i + 1).drop_last() =~= g.take(i as int));
                assert(msgs.drop_last() =~= prev);
            }
            self.send_msg(c, msg);
            proof {
                assert(self.local() =~= local0 + local_part(g.take(i + 1), self.spec_id(), msgs));
                assert(self.unsent() =~= unsent0 + remote_part(g.take(i + 1), self.spec_id(), msgs));
            }
            i += 1;
        }
        assert(g.take(i as int) =~= g);
    }

    /// What to do once a handler has run. While deferred local work is left, it
    /// runs first, in order. Then the handled event is settled in `block`: the
    /// messages to other contexts go out in the order they were made, or, when
    /// there are none and nothing is owed any more, the system shuts down. The
    /// inbox is read again only once the local queue is empty.
    pub fn next_step(&mut self, block: &mut ControlBlock) -> (r: Step<T>)
        requires
            old(self).wf(),
            !old(block).is_stopped(),
            old(block).count() >= 1,
            old(block).count() - 1 + old(self).unsent().len() <= u32::MAX,
        ensures
            final(self).wf(),
            final(self).spec_id() == old(self).spec_id(),
            old(self).local().len() > 0 ==> r == Step::RunLocal(old(self).local()[0])
                && final(self).local() == old(self).local().drop_first() && final(self).unsent()
                == old(self).unsent() && *final(block) == *old(block),
            old(self).local().len() == 0 ==> {
                &&& final(self).local().len() == 0
                &&& final(self).unsent().len() == 0
                &&& final(block).count() == old(block).count() - 1 + old(self).unsent().len()
                &&& old(self).unsent().len() > 0 ==> (r matches Step::Send(batch) && batch@
                    == outbound(old(self).spec_id(), old(self).unsent()))
                &&& old(self).unsent().len() == 0 ==> (r is Shutdown <==> final(block).count()
                    == 0) && (r is Shutdown || r is Receive)
                &&& final(block).is_stopped() <==> r is Shutdown
            },
            !(r is RunLocal) ==> final(self).local().len() == 0,
    {
        match self.local_queue.recv() {
            Some(msg) => Step::RunLocal(msg),
            None => {
                let n = self.unsent_messages.len();
                let quiescent = block.settle(n);
                if n == 0 {
                    if quiescent {
                        Step::Shutdown
                    } else {
                        Step::Receive
                    }
                } else {
                    Step::Send(self.take_outbound())
                }
            },
        }
    }

    /// Takes the messages for other contexts, each with the index of the link it
    /// goes over, in the order they were made.
    fn take_outbound(&mut self) -> (r: Vec<(usize, T)>)
        requires
            old(self).wf(),
        ensures
            final(self).wf(),
            final(self).spec_id() == old(self).spec_id(),
            final(self).local() == old(self).local(),
            final(self).unsent().len() == 0,
            r@ == outbound(old(self).spec_id(), old(self).unsent()),
    {
        let ghost all = self.unsent();
        let mut r: Vec<(usize, T)> = Vec::with_capacity(self.unsent_messages.len());
        let ghost mut taken: int = 0;
        while self.unsent_messages.len() > 0
            invariant
                self.spec_id() == old(self).spec_id(),
                self.local() == old(self).local(),
                all == old(self).unsent(),
                self.wf(),
                old(self).wf(),
                0 <= taken <= all.len(),
                self.unsent() == all.subrange(taken, all.len() as int),
                r@ == outbound(self.spec_id(), all.take(taken)),
            decreases self.unsent().len(),
        {
            let ghost before = self.unsent();
            match self.unsent_messages.pop_front() {
                Some((target, msg)) => {
                    assert(before[0] == all[taken]);
                    let idx = link_index(self.id, target);
                    r.push((idx, msg));
                    proof {
                        taken = taken + 1;
                        assert(r@ =~= outbound(self.spec_id(), all.take(taken)));
                        assert(self.unsent() =~= all.subrange(taken, all.len() as int));
                    }
                },
                None => {},
            }
        }
        assert(all.take(taken) =~= all);
        r
    }

    /// The number of messages for other contexts not sent yet.
    pub fn unsent_len(&self) -> (r: usize)
        ensures
            r == self.unsent().len(),
    {
        self.unsent_messages.len()
    }

    /// True when no deferred local work is left.
    pub fn local_is_empty(&self) -> (r: bool)
        ensures
            r <==> self.local().len() == 0,
    {
        self.local_queue.is_empty()
    }
}

} // verus!
