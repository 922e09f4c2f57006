use activity_replay::bus::{Bus, BusError, Call};
use activity_replay::event::{Event, EventKind};
use activity_replay::handler::{replay, ActivityHandler, ReplayError};
use activity_replay::registry::{Category, IdRegistry};
use activity_replay::shards::{is_time_ordered, merge_order, merge_shards};
use activity_replay::table::{analyze, to_row, to_rows};

fn start(time: u32, person: u64) -> Event {
    Event::ActivityStart { time, person, act_type: 0, link: 0 }
}

fn end(time: u32, person: u64) -> Event {
    Event::ActivityEnd { time, person, act_type: 0, link: 0 }
}

fn depart(time: u32, person: u64, leg_mode: u64, routing_mode: u64) -> Event {
    Event::PersonDeparture { time, person, leg_mode, routing_mode }
}

#[test]
fn pairs_give_one_summary_each_with_exact_duration() {
    let events = vec![start(10, 0), end(25, 0), start(30, 0), end(30, 0), start(40, 0), end(100, 0)];
    let h = replay(&events).unwrap();
    let recs = h.records(0);
    assert_eq!(recs.len(), 3);
    assert_eq!(recs[0].duration, 15);
    assert_eq!(recs[1].duration, 0);
    assert_eq!(recs[2].duration, 60);
    assert!(recs.iter().all(|r| r.duration >= 0));
    assert!(!h.is_open(0));
}

#[test]
fn occurrence_count_is_position_of_activity() {
    let events = vec![
        start(1, 2), end(2, 2), start(3, 5), start(4, 2), end(5, 2), end(6, 5), start(7, 2), end(8, 2),
    ];
    let h = replay(&events).unwrap();
    let counts: Vec<u64> = h.records(2).iter().map(|r| r.count).collect();
    assert_eq!(counts, vec![1, 2, 3]);
    let counts: Vec<u64> = h.records(5).iter().map(|r| r.count).collect();
    assert_eq!(counts, vec![1]);
}

#[test]
fn departure_updates_only_latest_summary() {
    let events = vec![
        start(0, 1), end(5, 1), depart(5, 1, 7, 8), start(6, 1), end(9, 1), depart(9, 1, 3, 4),
    ];
    let h = replay(&events).unwrap();
    let recs = h.records(1);
    assert_eq!(recs.len(), 2);
    assert_eq!(recs[0].leg_mode, Some(7));
    assert_eq!(recs[0].routing_mode, Some(8));
    assert_eq!(recs[1].leg_mode, Some(3));
    assert_eq!(recs[1].routing_mode, Some(4));
    assert_eq!(recs[1].duration, 3);
}

#[test]
fn summary_without_departure_has_no_mode() {
    let h = replay(&vec![start(0, 0), end(4, 0)]).unwrap();
    assert_eq!(h.records(0)[0].leg_mode, None);
    assert_eq!(h.records(0)[0].routing_mode, None);
}

#[test]
fn registry_create_is_idempotent_and_injective() {
    let mut reg = IdRegistry::new();
    let a = reg.create(Category::Person, "alice");
    let b = reg.create(Category::Person, "bob");
    let a2 = reg.create(Category::Person, "alice");
    assert_eq!(a, a2);
    assert_ne!(a.handle, b.handle);
    assert_eq!(reg.external(a), "alice");
    assert_eq!(reg.external(b), "bob");
    assert_eq!(reg.len(Category::Person), 2);
    let l = reg.create(Category::Link, "alice");
    assert_eq!(l.handle, 0);
    assert_eq!(reg.len(Category::Link), 1);
    assert_eq!(reg.get(Category::Person, "bob"), Some(b));
    assert_eq!(reg.get(Category::Person, "carol"), None);
}

#[test]
fn registry_load_interns_in_order() {
    let entries = vec![
        (Category::Person, "p1".to_string()),
        (Category::Mode, "car".to_string()),
        (Category::Person, "p2".to_string()),
        (Category::Person, "p1".to_string()),
    ];
    let reg = IdRegistry::load(&entries);
    assert_eq!(reg.len(Category::Person), 2);
    assert_eq!(reg.get(Category::Person, "p2").unwrap().handle, 1);
    assert_eq!(reg.get(Category::Mode, "car").unwrap().handle, 0);
}

#[test]
fn two_shards_merge_by_time() {
    let shard0 = vec![start(1, 0), end(3, 0)];
    let shard1 = vec![start(2, 1), end(4, 1)];
    let shards = vec![shard0, shard1];
    let merged = merge_shards(&shards);
    let times: Vec<u32> = merged.iter().map(|e| e.time()).collect();
    assert_eq!(times, vec![1, 2, 3, 4]);
    let summaries = analyze(&shards).unwrap();
    assert_eq!(summaries.len(), 2);
    assert_eq!(summaries[0].person, 0);
    assert_eq!(summaries[0].duration, 2);
    assert_eq!(summaries[1].person, 1);
    assert_eq!(summaries[1].duration, 2);
}

#[test]
fn equal_times_go_to_lower_shard_first() {
    let shards = vec![vec![Event::Other { time: 5 }, start(5, 0)], vec![start(5, 1)], vec![Event::Other { time: 1 }]];
    let order = merge_order(&shards);
    assert_eq!(order, vec![(2, 0), (0, 0), (0, 1), (1, 0)]);
}

#[test]
fn merging_no_shards_or_empty_shards() {
    let none: Vec<Vec<Event>> = vec![];
    assert!(merge_shards(&none).is_empty());
    let empty: Vec<Vec<Event>> = vec![vec![], vec![]];
    assert!(merge_shards(&empty).is_empty());
}

#[test]
fn time_order_check() {
    assert!(is_time_ordered(&vec![start(1, 0), end(1, 0), start(2, 0)]));
    assert!(!is_time_ordered(&vec![start(2, 0), end(1, 0)]));
    assert!(is_time_ordered(&vec![]));
}

#[test]
fn end_without_start_uses_zero_start() {
    let mut h = ActivityHandler::new();
    assert_eq!(h.handle(&end(42, 3)), Ok(()));
    assert_eq!(h.records(3).len(), 1);
    assert_eq!(h.records(3)[0].duration, 42);
    assert_eq!(h.records(3)[0].count, 1);
}

#[test]
fn departure_without_activity_is_fatal() {
    let mut h = ActivityHandler::new();
    assert_eq!(
        h.handle(&depart(1, 9, 0, 0)),
        Err(ReplayError::DepartureWithoutActivity { person: 9 })
    );
    let r = replay(&vec![start(0, 4), depart(1, 4, 0, 0)]);
    assert!(matches!(r, Err(ReplayError::DepartureWithoutActivity { person: 4 })));
}

#[test]
fn second_start_while_open_is_fatal() {
    let r = replay(&vec![start(0, 1), start(1, 1)]);
    assert!(matches!(r, Err(ReplayError::ActivityAlreadyOpen { person: 1 })));
    let mut h = ActivityHandler::new();
    h.handle(&start(0, 1)).unwrap();
    assert_eq!(h.handle(&start(2, 1)), Err(ReplayError::ActivityAlreadyOpen { person: 1 }));
    assert!(h.is_open(1));
    assert_eq!(h.records(1).len(), 0);
}

#[test]
fn end_before_start_gives_negative_duration() {
    let h = replay(&vec![start(10, 0), end(4, 0)]).unwrap();
    assert_eq!(h.records(0)[0].duration, -6);
}

#[test]
fn summaries_list_person_then_time() {
    let events = vec![start(0, 1), end(1, 1), end(2, 0), start(3, 1), end(4, 1)];
    let h = replay(&events).unwrap();
    let s = h.summaries();
    let keys: Vec<(u64, u64)> = s.iter().map(|r| (r.person, r.count)).collect();
    assert_eq!(keys, vec![(0, 1), (1, 1), (1, 2)]);
}

#[test]
fn finish_callbacks_run_once_after_all_events() {
    let mut bus = Bus::new();
    assert_eq!(bus.on(EventKind::ActivityEnd), Ok(0));
    assert_eq!(bus.on_finish(), Ok(0));
    assert_eq!(bus.on(EventKind::ActivityStart), Ok(1));
    assert_eq!(bus.on(EventKind::ActivityEnd), Ok(2));
    assert_eq!(bus.on_finish(), Ok(1));
    let calls = bus.dispatch(&vec![start(0, 0), end(1, 0), Event::Other { time: 2 }]);
    assert_eq!(
        calls,
        vec![
            Call::Handle { subscriber: 1, event: 0 },
            Call::Handle { subscriber: 0, event: 1 },
            Call::Handle { subscriber: 2, event: 1 },
            Call::Finish { callback: 0 },
            Call::Finish { callback: 1 },
        ]
    );
    assert_eq!(bus.on(EventKind::Other), Err(BusError::AlreadyStarted));
    assert_eq!(bus.on_finish(), Err(BusError::AlreadyStarted));
}

#[test]
fn finish_callbacks_run_with_no_events() {
    let mut bus = Bus::new();
    bus.on_finish().unwrap();
    assert_eq!(bus.dispatch(&vec![]), vec![Call::Finish { callback: 0 }]);
}

#[test]
fn rows_resolve_names() {
    let mut reg = IdRegistry::new();
    let p = reg.create(Category::Person, "agent-7");
    let a = reg.create(Category::ActType, "work");
    let l = reg.create(Category::Link, "link-3");
    let m = reg.create(Category::Mode, "car");
    let events = vec![
        Event::ActivityStart { time: 5, person: p.handle, act_type: a.handle, link: l.handle },
        Event::ActivityEnd { time: 65, person: p.handle, act_type: a.handle, link: l.handle },
        depart(65, p.handle, m.handle, m.handle),
        Event::ActivityStart { time: 80, person: p.handle, act_type: a.handle, link: l.handle },
        Event::ActivityEnd { time: 90, person: p.handle, act_type: a.handle, link: l.handle },
    ];
    let h = replay(&events).unwrap();
    let rows = to_rows(&reg, &h.summaries()).unwrap();
    assert_eq!(rows.len(), 2);
    assert_eq!(rows[0].act_type, "work");
    assert_eq!(rows[0].person, "agent-7");
    assert_eq!(rows[0].link, "link-3");
    assert_eq!(rows[0].duration, 60);
    assert_eq!(rows[0].count, 1);
    assert_eq!(rows[0].mode, "car");
    assert_eq!(rows[0].routing_mode, "car");
    assert_eq!(rows[1].mode, "");
    assert_eq!(rows[1].count, 2);
}

#[test]
fn unknown_handle_gives_no_row() {
    let reg = IdRegistry::new();
    let h = replay(&vec![end(3, 0)]).unwrap();
    assert!(to_row(&reg, &h.records(0)[0]).is_none());
}

#[test]
fn analysis_stops_at_first_inconsistency() {
    let shards = vec![vec![start(1, 0), depart(2, 1, 0, 0)], vec![start(3, 0)]];
    assert_eq!(analyze(&shards), Err(ReplayError::DepartureWithoutActivity { person: 1 }));
}

#[test]
fn empty_log_gives_no_summaries() {
    let h = replay(&vec![]).unwrap();
    assert!(h.summaries().is_empty());
    assert!(h.records(0).is_empty());
    let none: Vec<Vec<Event>> = vec![];
    assert_eq!(analyze(&none), Ok(vec![]));
}

#[test]
fn other_events_change_nothing() {
    let h = replay(&vec![start(0, 0), Event::Other { time: 1 }, end(2, 0)]).unwrap();
    assert_eq!(h.records(0).len(), 1);
    assert_eq!(h.records(0)[0].duration, 2);
}
