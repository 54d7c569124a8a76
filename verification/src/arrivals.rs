//! The order in which the fleets bound for one planet land.
//!
//! Fleets land by ascending time of arrival; fleets that land in the same turn
//! keep the order in which the snapshot lists them.

use vstd::prelude::*;
use crate::snapshot::{FleetView, GameState};

verus! {

/// The fleets whose destination is `name`, in the order of the snapshot.
pub open spec fn inbound(fleets: Seq<FleetView>, name: Seq<char>) -> Seq<FleetView> {
    fleets.filter(|f: FleetView| f.destination == name)
}

/// Where `f` joins a line of fleets: behind every fleet that lands no later
/// than `f`, counted from the rear of the line.
pub open spec fn landing_slot(line: Seq<FleetView>, f: FleetView) -> int
    decreases line.len(),
{
    if line.len() > 0 && line.last().arrival > f.arrival {
        landing_slot(line.drop_last(), f)
    } else {
        line.len() as int
    }
}

/// The fleets of `fleets` in landing order.
pub open spec fn by_arrival(fleets: Seq<FleetView>) -> Seq<FleetView>
    decreases fleets.len(),
{
    if fleets.len() == 0 {
        fleets
    } else {
        let line = by_arrival(fleets.drop_last());
        line.insert(landing_slot(line, fleets.last()), fleets.last())
    }
}

/// The fleets bound for `name`, in landing order.
pub open spec fn arrivals(fleets: Seq<FleetView>, name: Seq<char>) -> Seq<FleetView> {
    by_arrival(inbound(fleets, name))
}

/// No fleet of `line` lands before a fleet that stands in front of it.
pub open spec fn in_landing_order(line: Seq<FleetView>) -> bool {
    forall|a: int, b: int| 0 <= a <= b < line.len() ==> line[a].arrival <= line[b].arrival
}

/// The fleets of `fleets` that land in turn `t`, in their order in `fleets`.
pub open spec fn landing_at(fleets: Seq<FleetView>, t: nat) -> Seq<FleetView> {
    fleets.filter(|f: FleetView| f.arrival == t)
}

/// The fleets that the positions `order` pick out of `fleets`.
pub open spec fn picked(order: Seq<usize>, fleets: Seq<FleetView>) -> Seq<FleetView> {
    order.map_values(|i: usize| fleets[i as int])
}

/// `landing_slot` is the one position that has only later fleets behind it and
/// a fleet that lands no later directly in front of it.
pub proof fn lemma_landing_slot(line: Seq<FleetView>, f: FleetView, p: int)
    requires
        0 <= p <= line.len(),
        forall|k: int| p <= k < line.len() ==> line[k].arrival > f.arrival,
        p > 0 ==> line[p - 1].arrival <= f.arrival,
    ensures
        landing_slot(line, f) == p,
    decreases line.len(),
{
    if line.len() > 0 && line.last().arrival > f.arrival {
        lemma_landing_slot(line.drop_last(), f, p);
    }
}

/// What stands on either side of the slot that `landing_slot` picks.
pub proof fn lemma_landing_slot_sides(line: Seq<FleetView>, f: FleetView)
    ensures
        0 <= landing_slot(line, f) <= line.len(),
        forall|k: int| landing_slot(line, f) <= k < line.len() ==> line[k].arrival > f.arrival,
        landing_slot(line, f) > 0 ==> line[landing_slot(line, f) - 1].arrival <= f.arrival,
    decreases line.len(),
{
    if line.len() > 0 && line.last().arrival > f.arrival {
        let front = line.drop_last();
        lemma_landing_slot_sides(front, f);
        assert forall|k: int| landing_slot(line, f) <= k < line.len() implies line[k].arrival
            > f.arrival by {
            if k < front.len() {
                assert(line[k] == front[k]);
            }
        }
    }
}

/// The landing order holds every fleet of the input, as often as the input
/// holds it, and no other.
pub proof fn lemma_by_arrival_permutes(fleets: Seq<FleetView>)
    ensures
        by_arrival(fleets).len() == fleets.len(),
        by_arrival(fleets).to_multiset() == fleets.to_multiset(),
    decreases fleets.len(),
{
    if fleets.len() > 0 {
        let rest = fleets.drop_last();
        let line = by_arrival(rest);
        let f = fleets.last();
        lemma_by_arrival_permutes(rest);
        lemma_landing_slot_sides(line, f);
        assert(fleets == rest.push(f));
        vstd::seq_lib::to_multiset_build(rest, f);
        vstd::seq_lib::to_multiset_insert(line, landing_slot(line, f), f);
    }
}

/// The landing order is ascending in the time of arrival.
pub proof fn lemma_by_arrival_ascends(fleets: Seq<FleetView>)
    ensures
        in_landing_order(by_arrival(fleets)),
    decreases fleets.len(),
{
    if fleets.len() > 0 {
        let line = by_arrival(fleets.drop_last());
        let f = fleets.last();
        lemma_by_arrival_ascends(fleets.drop_last());
        lemma_landing_slot_sides(line, f);
        let p = landing_slot(line, f);
        let out = line.insert(p, f);
        assert forall|a: int, b: int| 0 <= a <= b < out.len() implies out[a].arrival
            <= out[b].arrival by {
            if a < p && b > p {
                assert(line[a].arrival <= line[p - 1].arrival);
                assert(out[b] == line[b - 1]);
            } else if a < p && b == p {
                assert(line[a].arrival <= line[p - 1].arrival);
            } else if a < p {
                assert(out[a] == line[a] && out[b] == line[b]);
            } else if a == p && b > p {
                assert(out[b] == line[b - 1]);
            } else if a > p {
                assert(out[a] == line[a - 1] && out[b] == line[b - 1]);
            }
        }
    }
}

/// Fleets that land in the same turn keep the order of the input: the fleets
/// of any one turn read the same in the landing order as in the input.
pub proof fn lemma_by_arrival_stable(fleets: Seq<FleetView>, t: nat)
    ensures
        landing_at(by_arrival(fleets), t) == landing_at(fleets, t),
    decreases fleets.len(),
{
    reveal(Seq::filter);
    if fleets.len() > 0 {
        let rest = fleets.drop_last();
        let line = by_arrival(rest);
        let f = fleets.last();
        let p = landing_slot(line, f);
        let at = |g: FleetView| g.arrival == t;
        lemma_by_arrival_stable(rest, t);
        lemma_landing_slot_sides(line, f);
        let front = line.subrange(0, p);
        let back = line.subrange(p, line.len() as int);
        assert(line == front + back);
        assert(line.insert(p, f) == front.push(f) + back);
        Seq::filter_distributes_over_add(front, back, at);
        Seq::filter_distributes_over_add(front.push(f), back, at);
        assert(front.push(f).drop_last() == front);
        if f.arrival == t {
            assert forall|k: int| 0 <= k < back.len() implies !at(back[k]) by {
                assert(back[k] == line[p + k]);
            }
            back.lemma_all_neg_filter_empty(at);
            assert(back.filter(at) == Seq::<FleetView>::empty());
            assert(front.filter(at) + back.filter(at) == front.filter(at));
            assert(front.push(f).filter(at) + back.filter(at) == front.push(f).filter(at));
        }
    }
}

/// What holds of every fleet of the input holds of every fleet of the landing
/// order.
pub proof fn lemma_by_arrival_keeps(fleets: Seq<FleetView>, holds: spec_fn(FleetView) -> bool)
    requires
        forall|k: int| 0 <= k < fleets.len() ==> holds(fleets[k]),
    ensures
        forall|k: int| 0 <= k < by_arrival(fleets).len() ==> holds(#[trigger] by_arrival(fleets)[k]),
    decreases fleets.len(),
{
    if fleets.len() > 0 {
        let rest = fleets.drop_last();
        let line = by_arrival(rest);
        let f = fleets.last();
        assert forall|k: int| 0 <= k < rest.len() implies holds(rest[k]) by {
            assert(rest[k] == fleets[k]);
        }
        lemma_by_arrival_keeps(rest, holds);
        lemma_landing_slot_sides(line, f);
        let p = landing_slot(line, f);
        let out = line.insert(p, f);
        assert forall|k: int| 0 <= k < out.len() implies holds(#[trigger] out[k]) by {
            if k < p {
                assert(out[k] == line[k]);
            } else if k > p {
                assert(out[k] == line[k - 1]);
            }
        }
    }
}

/// The positions in `gamestate.expeditions` of the fleets bound for `name`, in
/// landing order.
pub fn arrival_order(name: &String, gamestate: &GameState) -> (order: Vec<usize>)
    ensures
        forall|k: int| 0 <= k < order.len() ==> order[k] < gamestate.expeditions.len(),
        picked(order@, gamestate@.fleets) == arrivals(gamestate@.fleets, name@),
{
    let mut order: Vec<usize> = Vec::new();
    let total: usize = gamestate.expeditions.len();
    let ghost fleets = gamestate@.fleets;
    proof {
        reveal(Seq::filter);
        assert(fleets.take(0).len() == 0);
        assert(picked(order@, fleets) == by_arrival(inbound(fleets.take(0), name@)));
    }
    for i in 0..total
        invariant
            total == gamestate.expeditions.len(),
            fleets == gamestate@.fleets,
            forall|k: int| 0 <= k < order.len() ==> order[k] < i,
            picked(order@, fleets) == by_arrival(inbound(fleets.take(i as int), name@)),
    {
        let fleet = &gamestate.expeditions[i];
        proof {
            reveal(Seq::filter);
            assert(fleets.take(i + 1).drop_last() == fleets.take(i as int));
            assert(fleets.take(i + 1).last() == fleet@);
        }
        if fleet.destination == *name {
            let mut p: usize = order.len();
            let ghost line = picked(order@, fleets);
            while p > 0 && gamestate.expeditions[order[p - 1]].turns_remaining
                > fleet.turns_remaining
                invariant
                    total == gamestate.expeditions.len(),
                    fleets == gamestate@.fleets,
                    i < total,
                    fleet@ == fleets[i as int],
                    line == picked(order@, fleets),
                    0 <= p <= order.len(),
                    forall|k: int| 0 <= k < order.len() ==> order[k] < i,
                    forall|k: int| p <= k < line.len() ==> line[k].arrival > fleet@.arrival,
                decreases p,
            {
                p = p - 1;
            }
            proof {
                let sub = inbound(fleets.take(i as int), name@);
                lemma_landing_slot(line, fleet@, p as int);
                assert(inbound(fleets.take(i + 1), name@) == sub.push(fleet@));
                assert(sub.push(fleet@).drop_last() == sub);
                assert(picked(order@.insert(p as int, i), fleets) == line.insert(
                    p as int,
                    fleet@,
                ));
            }
            order.insert(p, i);
        }
    }
    proof {
        assert(fleets.take(total as int) == fleets);
    }
    order
}

} // verus!
