use vstd::prelude::*;
use crate::event::{Event, time_ordered};

verus! {

/// The time of the event at position `p` of shard `s`.
pub open spec fn time_at(shards: Seq<Vec<Event>>, q: (usize, usize)) -> int {
    shards[q.0 as int]@[q.1 as int].time() as int
}

/// Whether `q` names an event of one of the shards.
pub open spec fn in_shards(shards: Seq<Vec<Event>>, q: (usize, usize)) -> bool {
    q.0 < shards.len() && q.1 < shards[q.0 as int]@.len()
}

/// The order of the merged stream: by time, then by shard, then by
/// position in the shard.
pub open spec fn before(shards: Seq<Vec<Event>>, a: (usize, usize), b: (usize, usize)) -> bool {
    time_at(shards, a) < time_at(shards, b) || (time_at(shards, a) == time_at(shards, b) && (a.0 < b.0
        || (a.0 == b.0 && a.1 < b.1)))
}

/// Whether `order` lists every event of the shards exactly once, in the
/// order of `before`.
pub open spec fn is_merge_order(shards: Seq<Vec<Event>>, order: Seq<(usize, usize)>) -> bool {
    &&& forall|i: int| 0 <= i < order.len() ==> in_shards(shards, #[trigger] order[i])
    &&& forall|i: int, j: int| 0 <= i < j < order.len() ==> before(shards, #[trigger] order[i], #[trigger] order[j])
    &&& forall|q: (usize, usize)| in_shards(shards, q) ==> exists|i: int| 0 <= i < order.len() && #[trigger] order[i] == q
}

/// The events that `order` names.
pub open spec fn picked(shards: Seq<Vec<Event>>, order: Seq<(usize, usize)>) -> Seq<Event> {
    order.map_values(|q: (usize, usize)| shards[q.0 as int]@[q.1 as int])
}

/// Whether each shard is ordered by time.
pub open spec fn shards_ordered(shards: Seq<Vec<Event>>) -> bool {
    forall|s: int| 0 <= s < shards.len() ==> time_ordered(#[trigger] shards[s]@)
}

/// The events not yet taken from the first `n` shards, where `cur` gives how
/// many were taken from each.
pub open spec fn remaining(shards: Seq<Vec<Event>>, cur: Seq<usize>, n: int) -> int
    decreases n,
{
    if n <= 0 {
        0
    } else {
        remaining(shards, cur, n - 1) + shards[n - 1]@.len() - cur[n - 1]
    }
}

proof fn lemma_remaining_step(shards: Seq<Vec<Event>>, cur: Seq<usize>, b: int, n: int)
    requires
        0 <= b < cur.len(),
        0 <= n <= cur.len(),
        cur[b] < usize::MAX,
    ensures
        remaining(shards, cur.update(b, (cur[b] + 1) as usize), n) == remaining(shards, cur, n) - (
        if b < n {
            1int
        } else {
            0int
        }),
    decreases n,
{
    if n > 0 {
        lemma_remaining_step(shards, cur, b, n - 1);
    }
}

proof fn lemma_remaining_positive(shards: Seq<Vec<Event>>, cur: Seq<usize>, b: int, n: int)
    requires
        0 <= b < n <= cur.len(),
        n <= shards.len(),
        forall|s: int| 0 <= s < cur.len() ==> cur[s] <= #[trigger] shards[s]@.len(),
        cur[b] < shards[b]@.len(),
    ensures
        remaining(shards, cur, n) > 0,
    decreases n,
{
    if n - 1 > b {
        lemma_remaining_positive(shards, cur, b, n - 1);
    }
    lemma_remaining_nonneg(shards, cur, n - 1);
}

proof fn lemma_remaining_nonneg(shards: Seq<Vec<Event>>, cur: Seq<usize>, n: int)
    requires
        n <= cur.len(),
        n <= shards.len(),
        forall|s: int| 0 <= s < cur.len() ==> cur[s] <= #[trigger] shards[s]@.len(),
    ensures
        remaining(shards, cur, n) >= 0,
    decreases n,
{
    if n > 0 {
        lemma_remaining_nonneg(shards, cur, n - 1);
    }
}

/// Whether the times of `events` never decrease.
pub fn is_time_ordered(events: &Vec<Event>) -> (r: bool)
    ensures
        r == time_ordered(events@),
{
    if events.len() == 0 {
        return true;
    }
    let mut i: usize = 1;
    while i < events.len()
        invariant
            1 <= i <= events@.len(),
            forall|x: int, y: int| 0 <= x <= y < i ==> #[trigger] events@[x].time() <= #[trigger] events@[y].time(),
        decreases events@.len() - i,
    {
        if events[i].time() < events[i - 1].time() {
            assert(events@[i - 1].time() > events@[i as int].time());
            return false;
        }
        i += 1;
    }
    true
}

/// The positions of all events of the shards, in the order of the merged
/// stream: by time, ties going to the lower shard.
pub fn merge_order(shards: &Vec<Vec<Event>>) -> (r: Vec<(usize, usize)>)
    requires
        shards_ordered(shards@),
    ensures
        is_merge_order(shards@, r@),
{
    let k = shards.len();
    let mut cur: Vec<usize> = Vec::new();
    let mut s: usize = 0;
    while s < k
        invariant
            s <= k == shards@.len(),
            cur@.len() == s,
            forall|t: int| 0 <= t < s ==> cur@[t] == 0,
        decreases k - s,
    {
        cur.push(0);
        s += 1;
    }
    let mut out: Vec<(usize, usize)> = Vec::new();
    loop
        invariant
            k == shards@.len(),
            shards_ordered(shards@),
            cur@.len() == k,
            forall|t: int| 0 <= t < k ==> cur@[t] <= #[trigger] shards@[t]@.len(),
            forall|i: int| 0 <= i < out@.len() ==> in_shards(shards@, #[trigger] out@[i])
                && out@[i].1 < cur@[out@[i].0 as int],
            forall|i: int, j: int| 0 <= i < j < out@.len() ==> before(shards@, #[trigger] out@[i], #[trigger] out@[j]),
            forall|q: (usize, usize)| in_shards(shards@, q) && q.1 < cur@[q.0 as int]
                ==> exists|i: int| 0 <= i < out@.len() && #[trigger] out@[i] == q,
            out@.len() > 0 ==> forall|t: usize| t < k && cur@[t as int] < shards@[t as int]@.len()
                ==> before(shards@, out@.last(), (t, #[trigger] cur@[t as int])),
        ensures
            forall|u: int| 0 <= u < k ==> cur@[u] == #[trigger] shards@[u]@.len(),
        decreases remaining(shards@, cur@, k as int),
    {
        let mut best: Option<usize> = None;
        let mut t: usize = 0;
        while t < k
            invariant
                t <= k == shards@.len(),
                cur@.len() == k,
                forall|u: int| 0 <= u < k ==> cur@[u] <= #[trigger] shards@[u]@.len(),
                match best {
                    Some(b) => b < t && cur@[b as int] < shards@[b as int]@.len()
                        && forall|u: usize| u < t && cur@[u as int] < shards@[u as int]@.len()
                        ==> (time_at(shards@, (b, cur@[b as int])) < time_at(shards@, (u, #[trigger] cur@[u as int]))
                            || (time_at(shards@, (b, cur@[b as int])) == time_at(shards@, (u, cur@[u as int])) && b <= u)),
                    None => forall|u: int| 0 <= u < t ==> cur@[u] == #[trigger] shards@[u]@.len(),
                },
            decreases k - t,
        {
            let c = cur[t];
            if c < shards[t].len() {
                let take = match best {
                    None => true,
                    Some(b) => shards[t][c].time() < shards[b][cur[b]].time(),
                };
                if take {
                    best = Some(t);
                }
            }
            t += 1;
        }
        match best {
            None => {
                break;
            },
            Some(b) => {
                let c = cur[b];
                let lb = shards[b].len();
                let ghost old_out = out@;
                let ghost old_cur = cur@;
                proof {
                    lemma_remaining_positive(shards@, cur@, b as int, k as int);
                    lemma_remaining_step(shards@, cur@, b as int, k as int);
                }
                out.push((b, c));
                cur.set(b, c + 1);
                proof {
                    assert(old_cur[b as int] == c);
                    assert forall|q: (usize, usize)| in_shards(shards@, q) && q.1 < cur@[q.0 as int]
                        implies exists|i: int| 0 <= i < out@.len() && #[trigger] out@[i] == q by {
                        if q == (b, c) {
                            assert(out@[out@.len() - 1] == q);
                        } else {
                            let i = choose|i: int| 0 <= i < old_out.len() && #[trigger] old_out[i] == q;
                            assert(out@[i] == q);
                        }
                    }
                    assert forall|u: usize| u < k && cur@[u as int] < shards@[u as int]@.len()
                        implies before(shards@, out@.last(), (u, #[trigger] cur@[u as int])) by {
                        if u == b {
                            assert(time_ordered(shards@[b as int]@));
                        }
                    }
                }
            },
        }
    }
    proof {
        assert forall|q: (usize, usize)| in_shards(shards@, q)
            implies exists|i: int| 0 <= i < out@.len() && #[trigger] out@[i] == q by {
            assert(cur@[q.0 as int] == shards@[q.0 as int]@.len());
        }
    }
    out
}

/// The events of all shards merged into one stream, ordered by time, with
/// events of equal time taken from the lower shard first and, within a
/// shard, in their order there.
pub fn merge_shards(shards: &Vec<Vec<Event>>) -> (r: Vec<Event>)
    requires
        shards_ordered(shards@),
    ensures
        exists|order: Seq<(usize, usize)>| is_merge_order(shards@, order) && r@ == picked(shards@, order),
        time_ordered(r@),
{
    let order = merge_order(shards);
    let mut out: Vec<Event> = Vec::new();
    let mut i: usize = 0;
    while i < order.len()
        invariant
            i <= order@.len(),
            is_merge_order(shards@, order@),
            out@ == picked(shards@, order@.take(i as int)),
        decreases order@.len() - i,
    {
        let (s, p) = order[i];
        assert(in_shards(shards@, order@[i as int]));
        out.push(shards[s][p]);
        assert(order@.take(i + 1) =~= order@.take(i as int).push(order@[i as int]));
        assert(out@ =~= picked(shards@, order@.take(i + 1)));
        i += 1;
    }
    assert(order@.take(i as int) =~= order@);
    assert forall|a: int, b: int| 0 <= a <= b < out@.len() implies #[trigger] out@[a].time() <= #[trigger] out@[b].time() by {
        if a < b {
            assert(before(shards@, order@[a], order@[b]));
        }
    }
    out
}

} // verus!
