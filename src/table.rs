use vstd::prelude::*;
use crate::event::Event;
use crate::handler::{ActivitySummary, ReplayError, all_records, replay, run};
use crate::registry::{Category, Id, IdRegistry};
use crate::shards::{is_merge_order, merge_shards, picked, shards_ordered};

verus! {

/// One row of the output table: a summary with its identifiers resolved to
/// their external names. A mode not yet known is the empty string.
pub struct ActivityRow {
    pub act_type: String,
    pub person: String,
    pub link: String,
    pub duration: i64,
    pub count: u64,
    pub mode: String,
    pub routing_mode: String,
}

/// Whether `h` is a handle of category `c` in `reg`.
pub open spec fn known(reg: &IdRegistry, c: Category, h: u64) -> bool {
    h < reg.names(c).len()
}

/// The name of an optional handle; none is the empty name.
pub open spec fn name_or_empty(reg: &IdRegistry, c: Category, h: Option<u64>) -> Seq<char> {
    match h {
        Some(x) => reg.names(c)[x as int],
        None => Seq::empty(),
    }
}

/// Whether every handle of `s` is known to `reg`.
pub open spec fn resolvable(reg: &IdRegistry, s: ActivitySummary) -> bool {
    &&& known(reg, Category::ActType, s.act_type)
    &&& known(reg, Category::Person, s.person)
    &&& known(reg, Category::Link, s.link)
    &&& (s.leg_mode matches Some(m) ==> known(reg, Category::Mode, m))
    &&& (s.routing_mode matches Some(m) ==> known(reg, Category::Mode, m))
}

/// Whether `row` is `s` with its handles replaced by their names.
pub open spec fn row_of(reg: &IdRegistry, s: ActivitySummary, row: ActivityRow) -> bool {
    &&& row.act_type@ == reg.names(Category::ActType)[s.act_type as int]
    &&& row.person@ == reg.names(Category::Person)[s.person as int]
    &&& row.link@ == reg.names(Category::Link)[s.link as int]
    &&& row.duration == s.duration
    &&& row.count == s.count
    &&& row.mode@ == name_or_empty(reg, Category::Mode, s.leg_mode)
    &&& row.routing_mode@ == name_or_empty(reg, Category::Mode, s.routing_mode)
}

fn resolve(reg: &IdRegistry, c: Category, h: u64) -> (r: String)
    requires
        known(reg, c, h),
    ensures
        r@ == reg.names(c)[h as int],
{
    reg.external(Id { category: c, handle: h }).to_string()
}

fn resolve_mode(reg: &IdRegistry, h: Option<u64>) -> (r: Option<String>)
    ensures
        match h {
            None => r matches Some(x) && x@ == Seq::<char>::empty(),
            Some(m) => if known(reg, Category::Mode, m) {
                r matches Some(x) && x@ == reg.names(Category::Mode)[m as int]
            } else {
                r is None
            },
        },
{
    match h {
        None => Some(String::new()),
        Some(m) => {
            if (m as u128) < (reg.len(Category::Mode) as u128) {
                Some(resolve(reg, Category::Mode, m))
            } else {
                None
            }
        },
    }
}

/// The row of summary `s`, or none if one of its handles is unknown to `reg`.
pub fn to_row(reg: &IdRegistry, s: &ActivitySummary) -> (r: Option<ActivityRow>)
    ensures
        match r {
            Some(row) => resolvable(reg, *s) && row_of(reg, *s, row),
            None => !resolvable(reg, *s),
        },
{
    if (s.act_type as u128) >= (reg.len(Category::ActType) as u128)
        || (s.person as u128) >= (reg.len(Category::Person) as u128)
        || (s.link as u128) >= (reg.len(Category::Link) as u128) {
        return None;
    }
    let mode = match resolve_mode(reg, s.leg_mode) {
        Some(m) => m,
        None => return None,
    };
    let routing_mode = match resolve_mode(reg, s.routing_mode) {
        Some(m) => m,
        None => return None,
    };
    Some(ActivityRow {
        act_type: resolve(reg, Category::ActType, s.act_type),
        person: resolve(reg, Category::Person, s.person),
        link: resolve(reg, Category::Link, s.link),
        duration: s.duration,
        count: s.count,
        mode,
        routing_mode,
    })
}

/// The rows of `summaries`, in their order, or none if a handle is unknown.
pub fn to_rows(reg: &IdRegistry, summaries: &Vec<ActivitySummary>) -> (r: Option<Vec<ActivityRow>>)
    ensures
        match r {
            Some(rows) => rows@.len() == summaries@.len()
                && (forall|i: int| 0 <= i < rows@.len() ==> resolvable(reg, #[trigger] summaries@[i]))
                && forall|i: int| 0 <= i < rows@.len() ==> row_of(reg, summaries@[i], #[trigger] rows@[i]),
            None => exists|i: int| 0 <= i < summaries@.len() && !resolvable(reg, #[trigger] summaries@[i]),
        },
{
    let mut rows: Vec<ActivityRow> = Vec::new();
    let mut i: usize = 0;
    while i < summaries.len()
        invariant
            i <= summaries@.len(),
            rows@.len() == i,
            forall|j: int| 0 <= j < i ==> resolvable(reg, #[trigger] summaries@[j]),
            forall|j: int| 0 <= j < i ==> row_of(reg, summaries@[j], #[trigger] rows@[j]),
        decreases summaries@.len() - i,
    {
        match to_row(reg, &summaries[i]) {
            Some(row) => {
                let ghost prev = rows@;
                rows.push(row);
                assert forall|j: int| 0 <= j < i + 1 implies row_of(reg, summaries@[j], #[trigger] rows@[j]) by {
                    if j < i {
                        assert(rows@[j] == prev[j]);
                    }
                }
            },
            None => return None,
        }
        i += 1;
    }
    Some(rows)
}

/// The summaries of a sharded log: the shards merged into one stream, the
/// stream replayed, and the summaries listed person by person.
pub fn analyze(shards: &Vec<Vec<Event>>) -> (r: Result<Vec<ActivitySummary>, ReplayError>)
    requires
        shards_ordered(shards@),
    ensures
        exists|order: Seq<(usize, usize)>|
            is_merge_order(shards@, order) && match run(picked(shards@, order)) {
                Ok(s) => r is Ok && r->Ok_0@ == all_records(s),
                Err(err) => r == Err::<Vec<ActivitySummary>, ReplayError>(err),
            },
{
    let events = merge_shards(shards);
    match replay(&events) {
        Ok(h) => Ok(h.summaries()),
        Err(err) => Err(err),
    }
}

} // verus!
