use vstd::prelude::*;

verus! {

/// The kinds of event that subscribers can ask for.
#[derive(Clone, Copy, Debug, PartialEq, Eq, Structural)]
pub enum EventKind {
    ActivityStart,
    ActivityEnd,
    PersonDeparture,
    Other,
}

/// One event of a simulation log. Identifiers are handles of an
/// `IdRegistry`: persons, activity types, links and modes each in their own
/// category.
#[derive(Clone, Copy, Debug, PartialEq, Eq, Structural)]
pub enum Event {
    ActivityStart { time: u32, person: u64, act_type: u64, link: u64 },
    ActivityEnd { time: u32, person: u64, act_type: u64, link: u64 },
    PersonDeparture { time: u32, person: u64, leg_mode: u64, routing_mode: u64 },
    /// Any other kind of event: it carries a time and nothing this library reads.
    Other { time: u32 },
}

impl Event {
    pub open spec fn time_spec(&self) -> u32 {
        match *self {
            Event::ActivityStart { time, .. } => time,
            Event::ActivityEnd { time, .. } => time,
            Event::PersonDeparture { time, .. } => time,
            Event::Other { time } => time,
        }
    }

    pub open spec fn kind_spec(&self) -> EventKind {
        match *self {
            Event::ActivityStart { .. } => EventKind::ActivityStart,
            Event::ActivityEnd { .. } => EventKind::ActivityEnd,
            Event::PersonDeparture { .. } => EventKind::PersonDeparture,
            Event::Other { .. } => EventKind::Other,
        }
    }

    /// The simulation time at which the event happened.
    #[verifier::when_used_as_spec(time_spec)]
    pub fn time(&self) -> (r: u32)
        ensures
            r == self.time_spec(),
    {
        match self {
            Event::ActivityStart { time, .. } => *time,
            Event::ActivityEnd { time, .. } => *time,
            Event::PersonDeparture { time, .. } => *time,
            Event::Other { time } => *time,
        }
    }

    /// The kind of the event, by which subscribers are chosen.
    #[verifier::when_used_as_spec(kind_spec)]
    pub fn kind(&self) -> (r: EventKind)
        ensures
            r == self.kind_spec(),
    {
        match self {
            Event::ActivityStart { .. } => EventKind::ActivityStart,
            Event::ActivityEnd { .. } => EventKind::ActivityEnd,
            Event::PersonDeparture { .. } => EventKind::PersonDeparture,
            Event::Other { .. } => EventKind::Other,
        }
    }
}

/// Whether the times of `events` never decrease, as in a well-formed log.
pub open spec fn time_ordered(events: Seq<Event>) -> bool {
    forall|i: int, j: int| 0 <= i <= j < events.len() ==> events[i].time() <= events[j].time()
}

} // verus!
