use vstd::prelude::*;
use crate::event::{Event, time_ordered};

verus! {

/// One completed activity of a person: what it was, where, how long it
/// lasted, which of the person's activities it was, and the modes of the
/// trip that left it, once a departure has been seen.
///
/// `count` counts completed activities: the first activity a person ends
/// has count one, whether or not its start was seen. `duration` is the end
/// time less the start time, with zero standing in for a start that was not
/// seen; it is negative only where the log's times go back.
#[derive(Clone, Copy, Debug, PartialEq, Eq, Structural)]
pub struct ActivitySummary {
    pub act_type: u64,
    pub person: u64,
    pub link: u64,
    pub duration: i64,
    pub count: u64,
    pub leg_mode: Option<u64>,
    pub routing_mode: Option<u64>,
}

/// A log that breaks the pairing of events, so that no analysis of it can be trusted.
#[derive(Clone, Copy, Debug, PartialEq, Eq, Structural)]
pub enum ReplayError {
    /// An activity started for a person who had one open already.
    ActivityAlreadyOpen { person: u64 },
    /// A departure came for a person with no completed activity.
    DepartureWithoutActivity { person: u64 },
}

/// What the handler holds of one person: the start time of the open
/// activity, if any, and the completed activities in the order they ended.
pub struct PersonState {
    pub open_start: Option<u32>,
    pub records: Vec<ActivitySummary>,
}

/// The model of one person's state.
pub type PersonModel = (Option<u32>, Seq<ActivitySummary>);

/// The reducer that turns a person's start, end and departure events into
/// activity summaries. Persons are indexed by their handle.
pub struct ActivityHandler {
    persons: Vec<PersonState>,
}

pub open spec fn idle() -> PersonModel {
    (None, Seq::empty())
}

/// The state of person `p`; persons never seen are idle.
pub open spec fn person_of(s: Seq<PersonModel>, p: int) -> PersonModel {
    if 0 <= p < s.len() {
        s[p]
    } else {
        idle()
    }
}

/// `s`, extended with idle persons so that `p` has an entry.
pub open spec fn padded(s: Seq<PersonModel>, p: int) -> Seq<PersonModel> {
    if p < s.len() {
        s
    } else {
        s + Seq::new((p + 1 - s.len()) as nat, |i: int| idle())
    }
}

/// The summary that an activity end at `time` makes, given the start time
/// of the open activity and the activities completed before.
pub open spec fn ended(
    open: Option<u32>,
    done: Seq<ActivitySummary>,
    time: u32,
    person: u64,
    act_type: u64,
    link: u64,
) -> ActivitySummary {
    ActivitySummary {
        act_type,
        person,
        link,
        duration: (time - match open {
            Some(start) => start as int,
            None => 0int,
        }) as i64,
        count: (done.len() + 1) as u64,
        leg_mode: None,
        routing_mode: None,
    }
}

/// How one event changes the states of all persons.
pub open spec fn step(s: Seq<PersonModel>, e: Event) -> Result<Seq<PersonModel>, ReplayError> {
    match e {
        Event::ActivityStart { time, person, .. } => {
            if person_of(s, person as int).0 is Some {
                Err(ReplayError::ActivityAlreadyOpen { person })
            } else {
                let t = padded(s, person as int);
                Ok(t.update(person as int, (Some(time), t[person as int].1)))
            }
        },
        Event::ActivityEnd { time, person, act_type, link } => {
            let t = padded(s, person as int);
            let (open, done) = t[person as int];
            Ok(t.update(person as int, (None, done.push(ended(open, done, time, person, act_type, link)))))
        },
        Event::PersonDeparture { person, leg_mode, routing_mode, .. } => {
            let (open, done) = person_of(s, person as int);
            if done.len() == 0 {
                Err(ReplayError::DepartureWithoutActivity { person })
            } else {
                let last = done.last();
                let moved = ActivitySummary { leg_mode: Some(leg_mode), routing_mode: Some(routing_mode), ..last };
                Ok(s.update(person as int, (open, done.update(done.len() - 1, moved))))
            }
        },
        Event::Other { .. } => Ok(s),
    }
}

/// The states after a whole stream of events, or the first error in it.
pub open spec fn run(events: Seq<Event>) -> Result<Seq<PersonModel>, ReplayError>
    decreases events.len(),
{
    if events.len() == 0 {
        Ok(Seq::empty())
    } else {
        match run(events.drop_last()) {
            Ok(s) => step(s, events.last()),
            Err(err) => Err(err),
        }
    }
}

/// The number of activity ends of person `p` in `events`.
pub open spec fn ends_of(events: Seq<Event>, p: u64) -> nat
    decreases events.len(),
{
    if events.len() == 0 {
        0
    } else {
        ends_of(events.drop_last(), p) + match events.last() {
            Event::ActivityEnd { person, .. } => if person == p { 1nat } else { 0nat },
            _ => 0nat,
        }
    }
}

impl PersonState {
    pub open spec fn view(&self) -> PersonModel {
        (self.open_start, self.records@)
    }
}

impl ActivityHandler {
    pub closed spec fn view(&self) -> Seq<PersonModel> {
        self.persons@.map_values(|ps: PersonState| ps.view())
    }

    /// A handler that has seen no event.
    pub fn new() -> (r: Self)
        ensures
            r@ == Seq::<PersonModel>::empty(),
    {
        let r = ActivityHandler { persons: Vec::new() };
        assert(r@ =~= Seq::<PersonModel>::empty());
        r
    }

    /// The completed activities of person `p`, in the order they ended.
    pub fn records(&self, p: u64) -> (r: &[ActivitySummary])
        ensures
            r@ == person_of(self@, p as int).1,
    {
        if (p as u128) < (self.persons.len() as u128) {
            self.persons[p as usize].records.as_slice()
        } else {
            &[]
        }
    }

    /// Whether person `p` has an activity open.
    pub fn is_open(&self, p: u64) -> (r: bool)
        ensures
            r == (person_of(self@, p as int).0 is Some),
    {
        (p as u128) < (self.persons.len() as u128) && self.persons[p as usize].open_start.is_some()
    }

    /// Makes sure that person `p` has an entry.
    fn reach(&mut self, p: u64) -> (i: usize)
        ensures
            i == p,
            i < final(self).persons@.len(),
            final(self)@ == padded(old(self)@, p as int),
    {
        let ghost s0 = old(self)@;
        while (self.persons.len() as u128) <= (p as u128)
            invariant
                s0.len() <= self@.len(),
                s0.len() <= p ==> self@.len() <= p + 1,
                s0.len() > p ==> self@.len() == s0.len(),
                self@ =~= s0 + Seq::new((self@.len() - s0.len()) as nat, |i: int| idle()),
            decreases p + 1 - self@.len(),
        {
            let ghost before = self@;
            self.persons.push(PersonState { open_start: None, records: Vec::new() });
            assert(self@ =~= before.push(idle()));
            assert(self@ =~= s0 + Seq::new((self@.len() - s0.len()) as nat, |i: int| idle()));
        }
        assert(self@ =~= padded(s0, p as int));
        p as usize
    }

    /// Takes one event. On an error the state is left as it was.
    pub fn handle(&mut self, e: &Event) -> (r: Result<(), ReplayError>)
        requires
            forall|p: u64| #[trigger] person_of(old(self)@, p as int).1.len() < u64::MAX,
        ensures
            match step(old(self)@, *e) {
                Ok(s) => r is Ok && final(self)@ == s,
                Err(err) => r == Err::<(), ReplayError>(err) && final(self)@ == old(self)@,
            },
    {
        match *e {
            Event::ActivityStart { time, person, .. } => {
                if self.is_open(person) {
                    return Err(ReplayError::ActivityAlreadyOpen { person });
                }
                let i = self.reach(person);
                self.persons[i].open_start = Some(time);
                assert(self@ =~= step(old(self)@, *e).unwrap());
                Ok(())
            },
            Event::ActivityEnd { time, person, act_type, link } => {
                let i = self.reach(person);
                assert(self@[person as int] == person_of(old(self)@, person as int));
                let start: i64 = match self.persons[i].open_start {
                    Some(s) => s as i64,
                    None => 0,
                };
                let n = self.persons[i].records.len();
                let summary = ActivitySummary {
                    act_type,
                    person,
                    link,
                    duration: time as i64 - start,
                    count: n as u64 + 1,
                    leg_mode: None,
                    routing_mode: None,
                };
                self.persons[i].open_start = None;
                self.persons[i].records.push(summary);
                assert(self@ =~= step(old(self)@, *e).unwrap());
                Ok(())
            },
            Event::PersonDeparture { person, leg_mode, routing_mode, .. } => {
                if (person as u128) >= (self.persons.len() as u128)
                    || self.persons[person as usize].records.len() == 0 {
                    return Err(ReplayError::DepartureWithoutActivity { person });
                }
                let i = person as usize;
                let last = self.persons[i].records.len() - 1;
                let mut moved = self.persons[i].records[last];
                moved.leg_mode = Some(leg_mode);
                moved.routing_mode = Some(routing_mode);
                self.persons[i].records.set(last, moved);
                assert(self@ =~= step(old(self)@, *e).unwrap());
                Ok(())
            },
            Event::Other { .. } => Ok(()),
        }
    }
}

/// All summaries, person by person and, for each person, in the order
/// the activities ended: the rows of the final table.
pub open spec fn all_records(s: Seq<PersonModel>) -> Seq<ActivitySummary> {
    s.map_values(|m: PersonModel| m.1).flatten()
}

impl ActivityHandler {
    /// The summaries of all persons, in person order and, for each person,
    /// in the order the activities ended.
    pub fn summaries(&self) -> (r: Vec<ActivitySummary>)
        ensures
            r@ == all_records(self@),
    {
        let mut out: Vec<ActivitySummary> = Vec::new();
        let mut i: usize = 0;
        while i < self.persons.len()
            invariant
                i <= self.persons@.len(),
                out@ == self@.take(i as int).map_values(|m: PersonModel| m.1).flatten(),
            decreases self.persons@.len() - i,
        {
            let ghost before = out@;
            let recs = &self.persons[i].records;
            let mut j: usize = 0;
            while j < recs.len()
                invariant
                    j <= recs@.len(),
                    out@ == before + recs@.take(j as int),
                decreases recs@.len() - j,
            {
                out.push(recs[j]);
                assert(recs@.take(j + 1) =~= recs@.take(j as int).push(recs@[j as int]));
                j += 1;
            }
            proof {
                let firsts = self@.take(i as int).map_values(|m: PersonModel| m.1);
                firsts.lemma_flatten_push(recs@);
                assert(self@.take(i + 1).map_values(|m: PersonModel| m.1) =~= firsts.push(recs@));
                assert(recs@.take(recs@.len() as int) =~= recs@);
            }
            i += 1;
        }
        assert(self@.take(i as int) =~= self@);
        out
    }
}

/// Replays a whole stream of events into a fresh handler, stopping at the
/// first event that breaks the pairing.
pub fn replay(events: &Vec<Event>) -> (r: Result<ActivityHandler, ReplayError>)
    ensures
        match run(events@) {
            Ok(s) => r is Ok && r->Ok_0@ == s,
            Err(err) => r is Err && r->Err_0 == err,
        },
{
    let mut h = ActivityHandler::new();
    let mut i: usize = 0;
    while i < events.len()
        invariant
            i <= events@.len(),
            run(events@.take(i as int)) == Ok::<Seq<PersonModel>, ReplayError>(h@),
        decreases events@.len() - i,
    {
        proof {
            assert forall|p: u64| #[trigger] person_of(h@, p as int).1.len() < u64::MAX by {
                lemma_one_summary_per_end(events@.take(i as int), p);
                lemma_ends_bounded(events@.take(i as int), p);
            }
            assert(events@.take(i + 1).drop_last() =~= events@.take(i as int));
        }
        let res = h.handle(&events[i]);
        match res {
            Ok(()) => {},
            Err(err) => {
                proof { lemma_run_err_extends(events@, i as int + 1); }
                return Err(err);
            },
        }
        i += 1;
    }
    assert(events@.take(i as int) =~= events@);
    Ok(h)
}

proof fn lemma_ends_bounded(events: Seq<Event>, p: u64)
    ensures
        ends_of(events, p) <= events.len(),
    decreases events.len(),
{
    if events.len() > 0 {
        lemma_ends_bounded(events.drop_last(), p);
    }
}

/// Once a prefix of a stream fails, the whole stream fails the same way.
proof fn lemma_run_err_extends(events: Seq<Event>, k: int)
    requires
        0 <= k <= events.len(),
        run(events.take(k)) is Err,
    ensures
        run(events) == run(events.take(k)),
    decreases events.len() - k,
{
    if k < events.len() {
        assert(events.take(k + 1).drop_last() =~= events.take(k));
        lemma_run_err_extends(events, k + 1);
    } else {
        assert(events.take(k) =~= events);
    }
}

proof fn lemma_padded_person(s: Seq<PersonModel>, q: int, p: int)
    requires
        0 <= q,
    ensures
        person_of(padded(s, q), p) == person_of(s, p),
        q < padded(s, q).len(),
        padded(s, q).len() >= s.len(),
{
}

/// Each activity end of a person adds exactly one summary for that person,
/// and nothing else adds one: after a stream, a person has as many
/// summaries as the stream has activity ends of that person.
pub proof fn lemma_one_summary_per_end(events: Seq<Event>, p: u64)
    requires
        run(events) is Ok,
    ensures
        person_of(run(events)->Ok_0, p as int).1.len() == ends_of(events, p),
    decreases events.len(),
{
    if events.len() > 0 {
        let prev = events.drop_last();
        lemma_one_summary_per_end(prev, p);
        let s = run(prev)->Ok_0;
        match events.last() {
            Event::ActivityStart { person, .. } => {
                lemma_padded_person(s, person as int, p as int);
            },
            Event::ActivityEnd { person, .. } => {
                lemma_padded_person(s, person as int, p as int);
            },
            _ => {},
        }
    }
}

/// Whether every summary of every person carries its position among that
/// person's summaries, counted from one.
pub open spec fn counts_in_order(s: Seq<PersonModel>) -> bool {
    forall|p: int, k: int|
        0 <= p < s.len() && 0 <= k < s[p].1.len() ==> #[trigger] s[p].1[k].count == k + 1
}

/// The k-th completed activity of a person, counted from one, has
/// occurrence count k.
pub proof fn lemma_occurrence_counts(events: Seq<Event>)
    requires
        events.len() <= usize::MAX,
        run(events) is Ok,
    ensures
        counts_in_order(run(events)->Ok_0),
    decreases events.len(),
{
    if events.len() > 0 {
        let prev = events.drop_last();
        lemma_occurrence_counts(prev);
        let s = run(prev)->Ok_0;
        let t = run(events)->Ok_0;
        match events.last() {
            Event::ActivityStart { person, .. } => {
                assert(counts_in_order(padded(s, person as int)));
            },
            Event::ActivityEnd { person, .. } => {
                let u = padded(s, person as int);
                assert(counts_in_order(u));
                assert forall|q: int, k: int| 0 <= q < t.len() && 0 <= k < t[q].1.len() implies #[trigger] t[q].1[k].count == k + 1 by {
                    if q == person && k == u[q].1.len() {
                        lemma_one_summary_per_end(prev, person);
                        lemma_ends_bounded(prev, person);
                        lemma_padded_person(s, q, q);
                    }
                }
            },
            _ => {},
        }
    }
}

/// Whether no summary has a negative duration.
pub open spec fn durations_nonnegative(s: Seq<PersonModel>) -> bool {
    forall|p: int, k: int|
        0 <= p < s.len() && 0 <= k < s[p].1.len() ==> #[trigger] s[p].1[k].duration >= 0
}

/// Whether every open activity started at time `t` or before.
pub open spec fn opened_by(s: Seq<PersonModel>, t: u32) -> bool {
    forall|p: int| 0 <= p < s.len() && (#[trigger] s[p]).0 is Some ==> s[p].0->Some_0 <= t
}

proof fn lemma_durations_upto(events: Seq<Event>)
    requires
        events.len() > 0,
        time_ordered(events),
        run(events) is Ok,
    ensures
        durations_nonnegative(run(events)->Ok_0),
        opened_by(run(events)->Ok_0, events.last().time()),
    decreases events.len(),
{
    let prev = events.drop_last();
    let t = run(events)->Ok_0;
    let now = events.last().time();
    let s = run(prev)->Ok_0;
    if prev.len() > 0 {
        assert(time_ordered(prev));
        lemma_durations_upto(prev);
        assert(prev.last() == events[events.len() - 2]);
    }
    assert(durations_nonnegative(s));
    assert(opened_by(s, now));
    match events.last() {
        Event::ActivityStart { person, .. } => {
            let u = padded(s, person as int);
            assert(durations_nonnegative(u));
            assert(opened_by(u, now));
        },
        Event::ActivityEnd { person, .. } => {
            let u = padded(s, person as int);
            assert(durations_nonnegative(u));
            assert(opened_by(u, now));
            assert(durations_nonnegative(t));
        },
        _ => {},
    }
}

/// In a stream whose times never decrease, every summary has a duration of
/// zero or more.
pub proof fn lemma_durations_nonnegative(events: Seq<Event>)
    requires
        time_ordered(events),
        run(events) is Ok,
    ensures
        durations_nonnegative(run(events)->Ok_0),
{
    if events.len() > 0 {
        lemma_durations_upto(events);
    }
}

/// An activity end for a person whose activity started at `start` adds one
/// summary for that person, lasting `end - start`, and changes no other person.
pub proof fn lemma_end_closes_start(s: Seq<PersonModel>, e: Event)
    requires
        e is ActivityEnd,
        person_of(s, e->ActivityEnd_person as int).0 is Some,
    ensures
        ({
            let p = e->ActivityEnd_person as int;
            let before = person_of(s, p).1;
            let after = person_of(step(s, e)->Ok_0, p).1;
            &&& step(s, e) is Ok
            &&& after == before.push(after.last())
            &&& after.last().duration == e->ActivityEnd_time - person_of(s, p).0->Some_0
            &&& person_of(step(s, e)->Ok_0, p).0 is None
            &&& forall|q: int| q != p ==> person_of(step(s, e)->Ok_0, q) == person_of(s, q)
        }),
{
    let p = e->ActivityEnd_person as int;
    assert forall|q: int| q != p implies person_of(step(s, e)->Ok_0, q) == person_of(s, q) by {
        lemma_padded_person(s, p, q);
    }
    lemma_padded_person(s, p, p);
}

/// An activity end for a person with no open activity does not fail, and
/// the summary it adds lasts as long as the end time: the start counts as zero.
pub proof fn lemma_end_without_start(s: Seq<PersonModel>, e: Event)
    requires
        e is ActivityEnd,
        person_of(s, e->ActivityEnd_person as int).0 is None,
    ensures
        step(s, e) is Ok,
        person_of(step(s, e)->Ok_0, e->ActivityEnd_person as int).1.last().duration
            == e->ActivityEnd_time,
{
    lemma_padded_person(s, e->ActivityEnd_person as int, e->ActivityEnd_person as int);
}

/// A departure sets the modes of the person's latest summary and leaves
/// every other summary, of that person or another, as it was.
pub proof fn lemma_departure_touches_last(s: Seq<PersonModel>, e: Event)
    requires
        e is PersonDeparture,
        person_of(s, e->PersonDeparture_person as int).1.len() > 0,
    ensures
        ({
            let p = e->PersonDeparture_person as int;
            let before = person_of(s, p).1;
            let after = person_of(step(s, e)->Ok_0, p).1;
            &&& step(s, e) is Ok
            &&& after.len() == before.len()
            &&& forall|k: int| 0 <= k < before.len() - 1 ==> after[k] == before[k]
            &&& after.last() == (ActivitySummary {
                leg_mode: Some(e->PersonDeparture_leg_mode),
                routing_mode: Some(e->PersonDeparture_routing_mode),
                ..before.last()
            })
            &&& person_of(step(s, e)->Ok_0, p).0 == person_of(s, p).0
            &&& forall|q: int| q != p ==> person_of(step(s, e)->Ok_0, q) == person_of(s, q)
        }),
{
}

/// A departure for a person with no completed activity is an error.
pub proof fn lemma_departure_without_activity(s: Seq<PersonModel>, e: Event)
    requires
        e is PersonDeparture,
        person_of(s, e->PersonDeparture_person as int).1.len() == 0,
    ensures
        step(s, e) == Err::<Seq<PersonModel>, ReplayError>(
            ReplayError::DepartureWithoutActivity { person: e->PersonDeparture_person },
        ),
{
}

} // verus!
