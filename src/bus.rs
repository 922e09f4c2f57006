use vstd::prelude::*;
use crate::event::{Event, EventKind};

verus! {

/// One call that the bus makes: a subscriber handed the event at a position
/// of the stream, or a finish callback.
#[derive(Clone, Copy, Debug, PartialEq, Eq, Structural)]
pub enum Call {
    Handle { subscriber: usize, event: usize },
    Finish { callback: usize },
}

/// Why a registration was refused.
#[derive(Clone, Copy, Debug, PartialEq, Eq, Structural)]
pub enum BusError {
    /// Dispatch has started: no subscriber or callback may be added.
    AlreadyStarted,
}

/// The subscribers, in the order they registered, that asked for kind `k`.
pub open spec fn matching(subs: Seq<EventKind>, k: EventKind) -> Seq<usize>
    decreases subs.len(),
{
    if subs.len() == 0 {
        Seq::empty()
    } else {
        let m = matching(subs.drop_last(), k);
        if subs.last() == k {
            m.push((subs.len() - 1) as usize)
        } else {
            m
        }
    }
}

/// The calls that hand the event at position `i` to its subscribers.
pub open spec fn calls_for(subs: Seq<EventKind>, e: Event, i: int) -> Seq<Call> {
    matching(subs, e.kind()).map_values(|s: usize| Call::Handle { subscriber: s, event: i as usize })
}

/// The calls that hand each event of `events` to its subscribers, event by event.
pub open spec fn handle_calls(subs: Seq<EventKind>, events: Seq<Event>) -> Seq<Call>
    decreases events.len(),
{
    if events.len() == 0 {
        Seq::empty()
    } else {
        handle_calls(subs, events.drop_last()) + calls_for(subs, events.last(), events.len() - 1)
    }
}

/// The finish callbacks, each once, in the order they registered.
pub open spec fn finish_calls(n: nat) -> Seq<Call> {
    Seq::new(n, |i: int| Call::Finish { callback: i as usize })
}

/// All calls of one dispatch of `events`.
pub open spec fn plan(subs: Seq<EventKind>, n: nat, events: Seq<Event>) -> Seq<Call> {
    handle_calls(subs, events) + finish_calls(n)
}

/// Routes events to subscribers by kind. It holds which kind each
/// subscriber asked for, how many finish callbacks there are, and whether
/// dispatch has started; it holds nothing of what the subscribers compute.
pub struct Bus {
    subscribers: Vec<EventKind>,
    finishers: usize,
    started: bool,
}

impl Bus {
    pub closed spec fn subscribers(&self) -> Seq<EventKind> {
        self.subscribers@
    }

    pub closed spec fn finishers(&self) -> nat {
        self.finishers as nat
    }

    pub closed spec fn started(&self) -> bool {
        self.started
    }

    /// A bus with no subscriber and no callback.
    pub fn new() -> (r: Self)
        ensures
            r.subscribers() == Seq::<EventKind>::empty(),
            r.finishers() == 0,
            !r.started(),
    {
        Bus { subscribers: Vec::new(), finishers: 0, started: false }
    }

    /// Registers a subscriber for events of kind `k`; returns its number.
    pub fn on(&mut self, k: EventKind) -> (r: Result<usize, BusError>)
        ensures
            old(self).started() ==> r == Err::<usize, BusError>(BusError::AlreadyStarted)
                && *final(self) == *old(self),
            !old(self).started() ==> r == Ok::<usize, BusError>(old(self).subscribers().len() as usize)
                && final(self).subscribers() == old(self).subscribers().push(k)
                && final(self).finishers() == old(self).finishers() && !final(self).started(),
    {
        if self.started {
            return Err(BusError::AlreadyStarted);
        }
        let id = self.subscribers.len();
        self.subscribers.push(k);
        Ok(id)
    }

    /// Registers a finish callback; returns its number.
    pub fn on_finish(&mut self) -> (r: Result<usize, BusError>)
        requires
            old(self).finishers() < usize::MAX,
        ensures
            old(self).started() ==> r == Err::<usize, BusError>(BusError::AlreadyStarted)
                && *final(self) == *old(self),
            !old(self).started() ==> r == Ok::<usize, BusError>(old(self).finishers() as usize)
                && final(self).finishers() == old(self).finishers() + 1
                && final(self).subscribers() == old(self).subscribers() && !final(self).started(),
    {
        if self.started {
            return Err(BusError::AlreadyStarted);
        }
        let id = self.finishers;
        self.finishers = self.finishers + 1;
        Ok(id)
    }

    /// The calls that dispatching `events` makes: for each event in turn,
    /// each subscriber of its kind in the order they registered; then each
    /// finish callback once. After this the bus takes no registration.
    pub fn dispatch(&mut self, events: &Vec<Event>) -> (r: Vec<Call>)
        ensures
            r@ == plan(old(self).subscribers(), old(self).finishers(), events@),
            final(self).started(),
            final(self).subscribers() == old(self).subscribers(),
            final(self).finishers() == old(self).finishers(),
    {
        self.started = true;
        let subs = &self.subscribers;
        let mut out: Vec<Call> = Vec::new();
        let mut i: usize = 0;
        while i < events.len()
            invariant
                i <= events@.len(),
                out@ == handle_calls(subs@, events@.take(i as int)),
            decreases events@.len() - i,
        {
            let k = events[i].kind();
            let ghost before = out@;
            let mut j: usize = 0;
            while j < subs.len()
                invariant
                    j <= subs@.len(),
                    k == events@[i as int].kind(),
                    out@ == before + matching(subs@.take(j as int), k).map_values(
                        |s: usize| Call::Handle { subscriber: s, event: i },
                    ),
                decreases subs@.len() - j,
            {
                assert(subs@.take(j + 1).drop_last() =~= subs@.take(j as int));
                if subs[j] == k {
                    out.push(Call::Handle { subscriber: j, event: i });
                }
                assert(out@ =~= before + matching(subs@.take(j + 1), k).map_values(
                    |s: usize| Call::Handle { subscriber: s, event: i },
                ));
                j += 1;
            }
            assert(subs@.take(j as int) =~= subs@);
            assert(events@.take(i + 1).drop_last() =~= events@.take(i as int));
            i += 1;
        }
        assert(events@.take(i as int) =~= events@);
        let ghost handled = out@;
        let mut f: usize = 0;
        while f < self.finishers
            invariant
                f <= self.finishers,
                out@ == handled + finish_calls(f as nat),
            decreases self.finishers - f,
        {
            out.push(Call::Finish { callback: f });
            assert(finish_calls((f + 1) as nat) =~= finish_calls(f as nat).push(Call::Finish { callback: f }));
            f += 1;
        }
        out
    }
}

/// Every finish callback runs exactly once, after every call that hands an
/// event to a subscriber, whatever subscribers there are.
pub proof fn lemma_finish_once_at_end(subs: Seq<EventKind>, n: nat, events: Seq<Event>, f: nat)
    requires
        f < n <= usize::MAX,
    ensures
        ({
            let calls = plan(subs, n, events);
            let h = handle_calls(subs, events).len();
            &&& forall|i: int| 0 <= i < h ==> calls[i] is Handle
            &&& forall|i: int| 0 <= i < calls.len() && calls[i] == (Call::Finish { callback: f as usize })
                ==> i == h + f
            &&& calls[(h + f) as int] == Call::Finish { callback: f as usize }
            &&& calls.len() == h + n
        }),
{
    let calls = plan(subs, n, events);
    let h = handle_calls(subs, events).len();
    lemma_handle_calls_only(subs, events);
    assert forall|i: int| 0 <= i < calls.len() && calls[i] == (Call::Finish { callback: f as usize })
        implies i == h + f by {
        if i < h {
            assert(handle_calls(subs, events)[i] is Handle);
        } else {
            assert(calls[i] == finish_calls(n)[i - h]);
        }
    }
}

proof fn lemma_handle_calls_only(subs: Seq<EventKind>, events: Seq<Event>)
    ensures
        forall|i: int| 0 <= i < handle_calls(subs, events).len() ==> #[trigger] handle_calls(subs, events)[i] is Handle,
    decreases events.len(),
{
    if events.len() > 0 {
        lemma_handle_calls_only(subs, events.drop_last());
        let prev = handle_calls(subs, events.drop_last());
        let last = calls_for(subs, events.last(), events.len() - 1);
        assert forall|i: int| 0 <= i < handle_calls(subs, events).len() implies #[trigger] handle_calls(subs, events)[i] is Handle by {
            if i >= prev.len() {
                assert(last[i - prev.len()] is Handle);
            }
        }
    }
}

} // verus!
