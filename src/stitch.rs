//! The itinerary stitcher. A search runs in three steps: `plan_trips`
//! resolves the primary provider's journey options against the registry
//! and finds their gaps; the caller asks the secondary provider the query of
//! each gap; `assemble` splices the first fitting answer into each gap.

use vstd::prelude::*;

use crate::registry::{lemma_lookup_in_range, lookup_result, Trenitalia};
use crate::text::text_eq;
use crate::types::{TrainNumber, TrainStation, TrainTrip};
use crate::utils::{lemma_similarity_reflexive_symmetric, match_strings, similarity_of, Threshold};
use crate::viaggiatreno::RawLeg;

verus! {

/// A primary provider leg with its stations resolved to registry positions.
#[derive(Debug)]
pub struct PlannedLeg {
    pub from: usize,
    pub to: usize,
    pub departure: i64,
    pub arrival: i64,
    pub train_number: TrainNumber,
}

/// A question for the secondary provider: journeys between the stations at
/// two registry positions, around time `at`.
#[derive(Clone, Copy, PartialEq, Eq, Structural, Debug)]
pub struct TripQuery {
    pub from: usize,
    pub to: usize,
    pub at: i64,
}

/// A gap in a journey, the query that may fill it, and the window that a
/// filler must keep to: leave no earlier than `not_before` and, where
/// there is a bound, arrive no later than `not_after`.
#[derive(Clone, Copy, PartialEq, Eq, Structural, Debug)]
pub struct GapQuery {
    pub query: TripQuery,
    pub not_before: i64,
    pub not_after: Option<i64>,
}

/// A step of a journey plan.
#[derive(Debug)]
pub enum Segment {
    Leg(PlannedLeg),
    Gap(GapQuery),
}

/// What a search does after the primary provider answered.
#[derive(Debug)]
pub enum SearchPlan {
    /// The primary provider had nothing: the secondary provider's answer
    /// to this query is the result, as it stands.
    SecondaryOnly(TripQuery),
    /// One plan per journey option that could be resolved, in order.
    Stitch(Vec<Vec<Segment>>),
}

/// Where a name leads in the registry, if anywhere.
pub open spec fn resolves(st: Seq<TrainStation>, t: Threshold, name: Seq<char>) -> bool {
    lookup_result(st, name, t) is Some
}

pub open spec fn pos(st: Seq<TrainStation>, t: Threshold, name: Seq<char>) -> int {
    lookup_result(st, name, t)->Some_0
}

/// Every station name of the option leads to a station.
pub open spec fn all_resolved(st: Seq<TrainStation>, t: Threshold, raw: Seq<RawLeg>) -> bool {
    forall|k: int|
        0 <= k < raw.len() ==> resolves(st, t, (#[trigger] raw[k]).origin@) && resolves(
            st,
            t,
            raw[k].destination@,
        )
}

/// The leg `raw` with its stations resolved.
pub open spec fn planned_leg(st: Seq<TrainStation>, t: Threshold, raw: RawLeg) -> PlannedLeg {
    PlannedLeg {
        from: pos(st, t, raw.origin@) as usize,
        to: pos(st, t, raw.destination@) as usize,
        departure: raw.departure,
        arrival: raw.arrival,
        train_number: raw.train_number,
    }
}

/// The gap between legs `k - 1` and `k`, where the first arrives at a
/// station whose name differs from that of the station the second leaves.
pub open spec fn inner_gap(st: Seq<TrainStation>, t: Threshold, raw: Seq<RawLeg>, k: int) -> Seq<
    Segment,
> {
    let prev_to = pos(st, t, raw[k - 1].destination@);
    let from = pos(st, t, raw[k].origin@);
    if k > 0 && st[prev_to].spec_name() != st[from].spec_name() {
        seq![
            Segment::Gap(
                GapQuery {
                    query: TripQuery {
                        from: prev_to as usize,
                        to: from as usize,
                        at: raw[k - 1].arrival,
                    },
                    not_before: raw[k - 1].arrival,
                    not_after: Some(raw[k].departure),
                },
            ),
        ]
    } else {
        Seq::empty()
    }
}

/// The plan of the first `n` legs: each leg, after the gap before it.
pub open spec fn body_segments(st: Seq<TrainStation>, t: Threshold, raw: Seq<RawLeg>, n: int) -> Seq<
    Segment,
>
    decreases n,
{
    if n <= 0 {
        Seq::empty()
    } else {
        body_segments(st, t, raw, n - 1) + inner_gap(st, t, raw, n - 1) + seq![
            Segment::Leg(planned_leg(st, t, raw[n - 1])),
        ]
    }
}

/// The gap before the first leg, where it leaves from a station whose name
/// is not similar enough to the requested origin's.
pub open spec fn leading_gap(
    st: Seq<TrainStation>,
    t: Threshold,
    from: int,
    when: i64,
    raw: Seq<RawLeg>,
) -> Seq<Segment> {
    if !similarity_of(raw[0].origin@, st[from].spec_name()).spec_reaches(t) {
        seq![
            Segment::Gap(
                GapQuery {
                    query: TripQuery {
                        from: from as usize,
                        to: pos(st, t, raw[0].origin@) as usize,
                        at: when,
                    },
                    not_before: when,
                    not_after: Some(raw[0].departure),
                },
            ),
        ]
    } else {
        Seq::empty()
    }
}

/// The gap after the last leg, where it arrives at a station whose name is
/// not similar enough to the requested destination's.
pub open spec fn trailing_gap(
    st: Seq<TrainStation>,
    t: Threshold,
    to: int,
    when: i64,
    raw: Seq<RawLeg>,
) -> Seq<Segment> {
    let last = raw[raw.len() - 1];
    if !similarity_of(last.destination@, st[to].spec_name()).spec_reaches(t) {
        seq![
            Segment::Gap(
                GapQuery {
                    query: TripQuery {
                        from: pos(st, t, last.destination@) as usize,
                        to: to as usize,
                        at: when,
                    },
                    not_before: last.arrival,
                    not_after: None,
                },
            ),
        ]
    } else {
        Seq::empty()
    }
}

/// The plan of one journey option from the station at `from` to the one
/// at `to`, asked for at `when`: none where a station name of the option
/// leads nowhere.
pub open spec fn candidate_plan(
    st: Seq<TrainStation>,
    t: Threshold,
    from: int,
    to: int,
    when: i64,
    raw: Seq<RawLeg>,
) -> Option<Seq<Segment>> {
    if !all_resolved(st, t, raw) {
        None
    } else {
        Some(
            leading_gap(st, t, from, when, raw) + body_segments(st, t, raw, raw.len() as int)
                + trailing_gap(st, t, to, when, raw),
        )
    }
}

/// The plans of the options that are not empty and can be resolved, in
/// the order of the options.
pub open spec fn stitch_plans(
    st: Seq<TrainStation>,
    t: Threshold,
    from: int,
    to: int,
    when: i64,
    cands: Seq<Vec<RawLeg>>,
) -> Seq<Seq<Segment>>
    decreases cands.len(),
{
    if cands.len() == 0 {
        Seq::empty()
    } else {
        let rest = stitch_plans(st, t, from, to, when, cands.drop_last());
        let c = cands.last()@;
        if c.len() > 0 && candidate_plan(st, t, from, to, when, c) is Some {
            rest.push(candidate_plan(st, t, from, to, when, c)->Some_0)
        } else {
            rest
        }
    }
}

pub open spec fn plans_view(v: Seq<Vec<Segment>>) -> Seq<Seq<Segment>> {
    v.map_values(|p: Vec<Segment>| p@)
}

/// A journey: its legs in order, and whether it is complete, that is
/// whether each leg arrives at the station the next one leaves from (by
/// short code) and no later than it leaves.
#[derive(Debug)]
pub struct Itinerary {
    pub legs: Vec<TrainTrip>,
    pub complete: bool,
}

/// Leg `a` hands over to leg `b`: same station, in time.
pub open spec fn joins(a: TrainTrip, b: TrainTrip) -> bool {
    a.arrival.0.id@ == b.departure.0.id@ && a.arrival.1 <= b.departure.1
}

pub open spec fn continuous(legs: Seq<TrainTrip>) -> bool {
    forall|i: int| 0 <= i < legs.len() - 1 ==> joins(#[trigger] legs[i], legs[i + 1])
}

/// A secondary provider journey fits a gap: it has legs, leaves no earlier
/// than the gap allows and arrives no later.
pub open spec fn fits(option: Seq<TrainTrip>, g: GapQuery) -> bool {
    &&& option.len() > 0
    &&& option[0].departure.1 >= g.not_before
    &&& match g.not_after {
        Some(b) => option[option.len() - 1].arrival.1 <= b,
        None => true,
    }
}

/// Journey `o` is the first that fits the gap.
pub open spec fn is_first_fit(options: Seq<Vec<TrainTrip>>, g: GapQuery, o: int) -> bool {
    &&& 0 <= o < options.len()
    &&& fits(options[o]@, g)
    &&& forall|p: int| 0 <= p < o ==> !fits(#[trigger] options[p]@, g)
}

/// The legs that fill a gap: those of the first journey that fits it, or
/// none.
pub open spec fn filler(options: Seq<Vec<TrainTrip>>, g: GapQuery) -> Seq<TrainTrip> {
    if exists|o: int| is_first_fit(options, g, o) {
        options[choose|o: int| is_first_fit(options, g, o)]@
    } else {
        Seq::empty()
    }
}

pub open spec fn gap_count(plan: Seq<Segment>) -> nat
    decreases plan.len(),
{
    if plan.len() == 0 {
        0
    } else {
        gap_count(plan.drop_last()) + if plan.last() is Gap {
            1nat
        } else {
            0nat
        }
    }
}

/// The trip that a planned leg stands for.
pub open spec fn trip_of(st: Seq<TrainStation>, pl: PlannedLeg) -> TrainTrip {
    TrainTrip {
        train_number: pl.train_number,
        departure: (st[pl.from as int], pl.departure),
        arrival: (st[pl.to as int], pl.arrival),
    }
}

/// The legs of a plan once its gaps are filled: `fillers` holds the
/// secondary provider's answer for each gap, in order.
pub open spec fn expected_legs(
    st: Seq<TrainStation>,
    plan: Seq<Segment>,
    fillers: Seq<Vec<Vec<TrainTrip>>>,
) -> Seq<TrainTrip>
    decreases plan.len(),
{
    if plan.len() == 0 {
        Seq::empty()
    } else {
        match plan.last() {
            Segment::Leg(pl) => expected_legs(st, plan.drop_last(), fillers) + seq![trip_of(st, pl)],
            Segment::Gap(g) => expected_legs(st, plan.drop_last(), fillers.drop_last()) + filler(
                fillers.last()@,
                g,
            ),
        }
    }
}

/// The two sequences hold the same trips.
pub open spec fn same_legs(a: Seq<TrainTrip>, b: Seq<TrainTrip>) -> bool {
    a.len() == b.len() && forall|i: int| 0 <= i < a.len() ==> (#[trigger] a[i]).same_as(&b[i])
}

/// The plan names stations of a registry of `n` stations only.
pub open spec fn plan_in_range(plan: Seq<Segment>, n: int) -> bool {
    forall|i: int|
        0 <= i < plan.len() ==> (#[trigger] plan[i] matches Segment::Leg(pl) ==> pl.from < n && pl.to
            < n)
}

proof fn lemma_gap_count_prefix(plan: Seq<Segment>, p: int)
    requires
        0 <= p <= plan.len(),
    ensures
        gap_count(plan.subrange(0, p)) <= gap_count(plan),
    decreases plan.len() - p,
{
    if p < plan.len() {
        lemma_gap_count_prefix(plan, p + 1);
        assert(plan.subrange(0, p + 1).drop_last() =~= plan.subrange(0, p));
    } else {
        assert(plan.subrange(0, p) =~= plan);
    }
}

/// The first journey of `options` that fits the gap.
pub fn first_fit(options: &Vec<Vec<TrainTrip>>, gap: &GapQuery) -> (r: Option<usize>)
    ensures
        match r {
            Some(o) => is_first_fit(options@, *gap, o as int),
            None => forall|o: int| 0 <= o < options@.len() ==> !fits(#[trigger] options@[o]@, *gap),
        },
{
    let mut o: usize = 0;
    while o < options.len()
        invariant
            o <= options@.len(),
            forall|p: int| 0 <= p < o ==> !fits(#[trigger] options@[p]@, *gap),
        decreases options@.len() - o,
    {
        let option: &Vec<TrainTrip> = &options[o];
        if option.len() > 0 && option[0].departure.1 >= gap.not_before {
            let ok: bool = match gap.not_after {
                Some(b) => option[option.len() - 1].arrival.1 <= b,
                None => true,
            };
            if ok {
                return Some(o);
            }
        }
        o = o + 1;
    }
    None
}

/// Whether every leg hands over to the next: same station, in time.
pub fn is_continuous(legs: &Vec<TrainTrip>) -> (r: bool)
    ensures
        r == continuous(legs@),
{
    let n: usize = legs.len();
    if n == 0 {
        return true;
    }
    let mut i: usize = 0;
    while i < n - 1
        invariant
            n == legs@.len(),
            n > 0,
            i <= n - 1,
            forall|j: int| 0 <= j < i ==> joins(#[trigger] legs@[j], legs@[j + 1]),
        decreases n - i,
    {
        let a: &TrainTrip = &legs[i];
        let b: &TrainTrip = &legs[i + 1];
        if !text_eq(a.arrival.0.id.as_str(), b.departure.0.id.as_str()) || a.arrival.1
            > b.departure.1 {
            assert(!joins(legs@[i as int], legs@[i + 1]));
            return false;
        }
        i = i + 1;
    }
    true
}

/// Takes the secondary provider's journeys as the result of a search, each
/// as an itinerary.
pub fn take_as_is(results: Vec<Vec<TrainTrip>>) -> (r: Vec<Itinerary>)
    ensures
        r@.len() == results@.len(),
        forall|i: int|
            0 <= i < r@.len() ==> (#[trigger] r@[i]).legs == results@[i] && r@[i].complete
                == continuous(results@[i]@),
{
    let ghost all = results@;
    let mut rest: Vec<Vec<TrainTrip>> = results;
    let mut out: Vec<Itinerary> = Vec::new();
    while rest.len() > 0
        invariant
            out@.len() + rest@.len() == all.len(),
            rest@ == all.subrange(out@.len() as int, all.len() as int),
            forall|i: int|
                0 <= i < out@.len() ==> (#[trigger] out@[i]).legs == all[i] && out@[i].complete
                    == continuous(all[i]@),
        decreases rest@.len(),
    {
        let legs: Vec<TrainTrip> = rest.remove(0);
        let complete: bool = is_continuous(&legs);
        out.push(Itinerary { legs, complete });
        assert(rest@ =~= all.subrange(out@.len() as int, all.len() as int));
    }
    out
}

/// The gap segments of a plan, in order.
pub open spec fn gap_queries(plan: Seq<Segment>) -> Seq<GapQuery>
    decreases plan.len(),
{
    if plan.len() == 0 {
        Seq::empty()
    } else {
        match plan.last() {
            Segment::Gap(g) => gap_queries(plan.drop_last()).push(g),
            Segment::Leg(_) => gap_queries(plan.drop_last()),
        }
    }
}

proof fn lemma_gap_queries_len(plan: Seq<Segment>)
    ensures
        gap_queries(plan).len() == gap_count(plan),
    decreases plan.len(),
{
    if plan.len() > 0 {
        lemma_gap_queries_len(plan.drop_last());
    }
}

/// The gaps of a plan, in order: the queries to put to the secondary
/// provider, one answer each for `assemble`.
pub fn gaps(plan: &Vec<Segment>) -> (r: Vec<GapQuery>)
    ensures
        r@ == gap_queries(plan@),
        r@.len() == gap_count(plan@),
{
    let mut out: Vec<GapQuery> = Vec::new();
    let mut p: usize = 0;
    while p < plan.len()
        invariant
            p <= plan@.len(),
            out@ == gap_queries(plan@.subrange(0, p as int)),
        decreases plan@.len() - p,
    {
        let ghost prefix = plan@.subrange(0, p + 1);
        assert(prefix.drop_last() =~= plan@.subrange(0, p as int));
        assert(prefix.last() == plan@[p as int]);
        if let Segment::Gap(g) = &plan[p] {
            out.push(*g);
        }
        p = p + 1;
    }
    assert(plan@.subrange(0, plan@.len() as int) =~= plan@);
    proof {
        lemma_gap_queries_len(plan@);
    }
    out
}

impl Trenitalia {
    /// Plans one journey option of the primary provider from the station at
    /// `from` to the one at `to`, asked for at `when`. Every station name of
    /// the option is looked up in the registry; the option is dropped where
    /// one leads nowhere.
    pub fn plan_candidate(&self, from: usize, to: usize, when: i64, raw: &Vec<RawLeg>) -> (r: Option<
        Vec<Segment>,
    >)
        requires
            self.wf(),
            from < self.stations_view().len(),
            to < self.stations_view().len(),
            raw@.len() > 0,
        ensures
            match candidate_plan(
                self.stations_view(),
                self.threshold_view(),
                from as int,
                to as int,
                when,
                raw@,
            ) {
                Some(p) => r is Some && r->Some_0@ == p,
                None => r is None,
            },
            r matches Some(v) ==> plan_in_range(v@, self.stations_view().len() as int),
    {
        let t: Threshold = self.threshold();
        let ghost st = self.stations_view();
        let n: usize = raw.len();
        let mut plan: Vec<Segment> = Vec::new();
        let first: &RawLeg = &raw[0];
        if !match_strings(first.origin.as_str(), self.station(from).get_name()).reaches(t) {
            match self.lookup(first.origin.as_str()) {
                None => {
                    return None;
                },
                Some(start) => {
                    plan.push(
                        Segment::Gap(
                            GapQuery {
                                query: TripQuery { from, to: start, at: when },
                                not_before: when,
                                not_after: Some(first.departure),
                            },
                        ),
                    );
                },
            }
        }
        let ghost lead = plan@;
        assert(lead =~= leading_gap(st, t, from as int, when, raw@));
        assert(plan_in_range(plan@, st.len() as int));
        let mut prev_to: usize = 0;
        let mut k: usize = 0;
        while k < n
            invariant
                self.wf(),
                st == self.stations_view(),
                t == self.threshold_view(),
                n == raw@.len(),
                k <= n,
                lead == leading_gap(st, t, from as int, when, raw@),
                forall|j: int|
                    0 <= j < k ==> resolves(st, t, (#[trigger] raw@[j]).origin@) && resolves(
                        st,
                        t,
                        raw@[j].destination@,
                    ),
                plan@ == lead + body_segments(st, t, raw@, k as int),
                plan_in_range(plan@, st.len() as int),
                k > 0 ==> prev_to == pos(st, t, raw@[k - 1].destination@) && prev_to < st.len(),
            decreases n - k,
        {
            let leg: &RawLeg = &raw[k];
            let a: usize = match self.lookup(leg.origin.as_str()) {
                Some(i) => i,
                None => {
                    return None;
                },
            };
            let b: usize = match self.lookup(leg.destination.as_str()) {
                Some(i) => i,
                None => {
                    return None;
                },
            };
            let ghost before = plan@;
            if k > 0 && !text_eq(self.station(prev_to).get_name(), self.station(a).get_name()) {
                plan.push(
                    Segment::Gap(
                        GapQuery {
                            query: TripQuery { from: prev_to, to: a, at: raw[k - 1].arrival },
                            not_before: raw[k - 1].arrival,
                            not_after: Some(leg.departure),
                        },
                    ),
                );
            }
            assert(plan@ =~= before + inner_gap(st, t, raw@, k as int));
            plan.push(
                Segment::Leg(
                    PlannedLeg {
                        from: a,
                        to: b,
                        departure: leg.departure,
                        arrival: leg.arrival,
                        train_number: leg.train_number.clone(),
                    },
                ),
            );
            assert(plan@ =~= lead + body_segments(st, t, raw@, k + 1));
            prev_to = b;
            k = k + 1;
        }
        let last: &RawLeg = &raw[n - 1];
        let ghost body = plan@;
        if !match_strings(last.destination.as_str(), self.station(to).get_name()).reaches(t) {
            plan.push(
                Segment::Gap(
                    GapQuery {
                        query: TripQuery { from: prev_to, to, at: when },
                        not_before: last.arrival,
                        not_after: None,
                    },
                ),
            );
        }
        assert(plan@ =~= body + trailing_gap(st, t, to as int, when, raw@));
        Some(plan)
    }

    /// Decides what a search from the station at `from` to the one at
    /// `to`, asked for at `when`, does with the primary provider's journey
    /// options: with none, it takes the secondary provider's answer for the
    /// whole journey; else it plans each option, dropping the empty ones and
    /// those with a station name that leads nowhere.
    pub fn plan_trips(&self, from: usize, to: usize, when: i64, candidates: &Vec<Vec<RawLeg>>) -> (r:
        SearchPlan)
        requires
            self.wf(),
            from < self.stations_view().len(),
            to < self.stations_view().len(),
        ensures
            candidates@.len() == 0 ==> r == SearchPlan::SecondaryOnly(
                TripQuery { from, to, at: when },
            ),
            candidates@.len() > 0 ==> r is Stitch && plans_view(r->Stitch_0@) == stitch_plans(
                self.stations_view(),
                self.threshold_view(),
                from as int,
                to as int,
                when,
                candidates@,
            ),
            r matches SearchPlan::Stitch(plans) ==> forall|i: int|
                0 <= i < plans@.len() ==> plan_in_range(
                    (#[trigger] plans@[i])@,
                    self.stations_view().len() as int,
                ),
    {
        if candidates.len() == 0 {
            return SearchPlan::SecondaryOnly(TripQuery { from, to, at: when });
        }
        let ghost st = self.stations_view();
        let ghost t = self.threshold_view();
        let mut plans: Vec<Vec<Segment>> = Vec::new();
        let mut i: usize = 0;
        while i < candidates.len()
            invariant
                self.wf(),
                st == self.stations_view(),
                t == self.threshold_view(),
                from < st.len(),
                to < st.len(),
                i <= candidates@.len(),
                plans_view(plans@) == stitch_plans(
                    st,
                    t,
                    from as int,
                    to as int,
                    when,
                    candidates@.subrange(0, i as int),
                ),
                forall|j: int|
                    0 <= j < plans@.len() ==> plan_in_range(
                        (#[trigger] plans@[j])@,
                        st.len() as int,
                    ),
            decreases candidates@.len() - i,
        {
            let ghost before = plans@;
            let ghost prefix = candidates@.subrange(0, i + 1);
            assert(prefix.drop_last() =~= candidates@.subrange(0, i as int));
            assert(prefix.last() == candidates@[i as int]);
            if candidates[i].len() > 0 {
                if let Some(p) = self.plan_candidate(from, to, when, &candidates[i]) {
                    plans.push(p);
                    assert(plans_view(plans@) =~= plans_view(before).push(plans@.last()@));
                }
            }
            i = i + 1;
        }
        assert(candidates@.subrange(0, candidates@.len() as int) =~= candidates@);
        SearchPlan::Stitch(plans)
    }

    /// Builds the itinerary of a plan, given the secondary provider's
    /// journeys for each of its gaps, in order: each planned leg becomes a
    /// trip between registry stations, and each gap takes the legs of the
    /// first journey that fits it, or stays open where none does.
    pub fn assemble(&self, plan: &Vec<Segment>, fillers: &Vec<Vec<Vec<TrainTrip>>>) -> (r:
        Itinerary)
        requires
            self.wf(),
            plan_in_range(plan@, self.stations_view().len() as int),
            fillers@.len() == gap_count(plan@),
        ensures
            same_legs(r.legs@, expected_legs(self.stations_view(), plan@, fillers@)),
            r.complete == continuous(r.legs@),
            r.complete ==> forall|i: int|
                0 <= i < r.legs@.len() - 1 ==> (#[trigger] r.legs@[i]).arrival.1 <= r.legs@[i
                    + 1].departure.1 && r.legs@[i].arrival.0.id@ == r.legs@[i + 1].departure.0.id@,
    {
        let ghost st = self.stations_view();
        let mut legs: Vec<TrainTrip> = Vec::new();
        let gaps: usize = fillers.len();
        let mut k: usize = 0;
        let mut p: usize = 0;
        while p < plan.len()
            invariant
                self.wf(),
                gaps == fillers@.len(),
                k <= gaps,
                st == self.stations_view(),
                plan_in_range(plan@, st.len() as int),
                fillers@.len() == gap_count(plan@),
                p <= plan@.len(),
                k == gap_count(plan@.subrange(0, p as int)),
                same_legs(
                    legs@,
                    expected_legs(st, plan@.subrange(0, p as int), fillers@.subrange(0, k as int)),
                ),
            decreases plan@.len() - p,
        {
            let ghost prefix = plan@.subrange(0, p + 1);
            assert(prefix.drop_last() =~= plan@.subrange(0, p as int));
            assert(prefix.last() == plan@[p as int]);
            proof {
                lemma_gap_count_prefix(plan@, p + 1);
            }
            let ghost before = legs@;
            match &plan[p] {
                Segment::Leg(pl) => {
                    assert(plan@[p as int] matches Segment::Leg(x) && x == *pl);
                    let trip = TrainTrip {
                        train_number: pl.train_number.clone(),
                        departure: (self.station(pl.from).clone(), pl.departure),
                        arrival: (self.station(pl.to).clone(), pl.arrival),
                    };
                    legs.push(trip);
                    assert(same_legs(
                        legs@,
                        expected_legs(st, prefix, fillers@.subrange(0, k as int)),
                    )) by {
                        let e = expected_legs(st, prefix, fillers@.subrange(0, k as int));
                        assert(e == expected_legs(
                            st,
                            plan@.subrange(0, p as int),
                            fillers@.subrange(0, k as int),
                        ) + seq![trip_of(st, *pl)]);
                        assert forall|i: int| 0 <= i < legs@.len() implies (
                        #[trigger] legs@[i]).same_as(&e[i]) by {
                            if i < before.len() {
                                assert(legs@[i] == before[i]);
                            }
                        }
                    }
                },
                Segment::Gap(g) => {
                    assert(plan@[p as int] matches Segment::Gap(x) && x == *g);
                    assert(gap_count(prefix) == k + 1);
                    let options: &Vec<Vec<TrainTrip>> = &fillers[k];
                    let ghost fill_prefix = fillers@.subrange(0, k + 1);
                    assert(fill_prefix.drop_last() =~= fillers@.subrange(0, k as int));
                    assert(fill_prefix.last() == fillers@[k as int]);
                    let ghost e0 = expected_legs(
                        st,
                        plan@.subrange(0, p as int),
                        fillers@.subrange(0, k as int),
                    );
                    let ghost chosen: Seq<TrainTrip> = filler(options@, *g);
                    match first_fit(options, g) {
                        Some(o) => {
                            let option: &Vec<TrainTrip> = &options[o];
                            proof {
                                assert forall|o2: int| is_first_fit(options@, *g, o2) implies o2
                                    == o by {
                                    if o2 < o {
                                        assert(!fits(options@[o2]@, *g));
                                    } else if o < o2 {
                                        assert(!fits(options@[o as int]@, *g));
                                    }
                                }
                                assert(chosen == option@);
                            }
                            let mut j: usize = 0;
                            while j < option.len()
                                invariant
                                    j <= option@.len(),
                                    chosen == option@,
                                    same_legs(legs@, e0 + chosen.subrange(0, j as int)),
                                decreases option@.len() - j,
                            {
                                let ghost mid = legs@;
                                legs.push(option[j].clone());
                                assert forall|i: int| 0 <= i < legs@.len() implies (
                                #[trigger] legs@[i]).same_as(
                                    &(e0 + chosen.subrange(0, j + 1))[i],
                                ) by {
                                    if i < mid.len() {
                                        assert(legs@[i] == mid[i]);
                                        assert((e0 + chosen.subrange(0, j + 1))[i] == (e0
                                            + chosen.subrange(0, j as int))[i]);
                                    }
                                }
                                j = j + 1;
                            }
                            assert(chosen.subrange(0, chosen.len() as int) =~= chosen);
                        },
                        None => {
                            assert(chosen =~= Seq::<TrainTrip>::empty());
                            assert(e0 + chosen =~= e0);
                        },
                    }
                    assert(expected_legs(st, prefix, fill_prefix) == e0 + chosen);
                    k = k + 1;
                },
            }
            p = p + 1;
        }
        assert(plan@.subrange(0, plan@.len() as int) =~= plan@);
        assert(fillers@.subrange(0, k as int) =~= fillers@);
        let complete: bool = is_continuous(&legs);
        Itinerary { legs, complete }
    }

    /// Builds the itinerary of each plan, given the secondary provider's
    /// journeys for the gaps of each, in order.
    pub fn assemble_all(&self, plans: &Vec<Vec<Segment>>, fillers: &Vec<Vec<Vec<Vec<TrainTrip>>>>) -> (r:
        Vec<Itinerary>)
        requires
            self.wf(),
            fillers@.len() == plans@.len(),
            forall|i: int|
                0 <= i < plans@.len() ==> plan_in_range(
                    (#[trigger] plans@[i])@,
                    self.stations_view().len() as int,
                ) && fillers@[i]@.len() == gap_count(plans@[i]@),
        ensures
            r@.len() == plans@.len(),
            forall|i: int|
                0 <= i < r@.len() ==> same_legs(
                    (#[trigger] r@[i]).legs@,
                    expected_legs(self.stations_view(), plans@[i]@, fillers@[i]@),
                ) && r@[i].complete == continuous(r@[i].legs@),
    {
        let mut out: Vec<Itinerary> = Vec::new();
        let mut i: usize = 0;
        while i < plans.len()
            invariant
                self.wf(),
                fillers@.len() == plans@.len(),
                forall|j: int|
                    0 <= j < plans@.len() ==> plan_in_range(
                        (#[trigger] plans@[j])@,
                        self.stations_view().len() as int,
                    ) && fillers@[j]@.len() == gap_count(plans@[j]@),
                i <= plans@.len(),
                out@.len() == i,
                forall|j: int|
                    0 <= j < i ==> same_legs(
                        (#[trigger] out@[j]).legs@,
                        expected_legs(self.stations_view(), plans@[j]@, fillers@[j]@),
                    ) && out@[j].complete == continuous(out@[j].legs@),
            decreases plans@.len() - i,
        {
            let it: Itinerary = self.assemble(&plans[i], &fillers[i]);
            out.push(it);
            i = i + 1;
        }
        out
    }
}

/// Each leg arrives no later than the next one leaves.
pub open spec fn time_ordered(legs: Seq<TrainTrip>) -> bool {
    forall|i: int| 0 <= i < legs.len() - 1 ==> (#[trigger] legs[i]).arrival.1 <= legs[i + 1].departure.1
}

/// Each raw leg arrives no later than the next one leaves.
pub open spec fn raw_time_ordered(raw: Seq<RawLeg>) -> bool {
    forall|k: int| 0 <= k < raw.len() - 1 ==> (#[trigger] raw[k]).arrival <= raw[k + 1].departure
}

/// Every journey offered for every gap is itself time-ordered.
pub open spec fn fillers_time_ordered(fillers: Seq<Vec<Vec<TrainTrip>>>) -> bool {
    forall|g: int, o: int|
        0 <= g < fillers.len() && 0 <= o < fillers[g]@.len() ==> time_ordered(
            (#[trigger] fillers[g]@[o])@,
        )
}

/// The earliest time at which a segment's legs may leave.
pub open spec fn seg_start(s: Segment) -> int {
    match s {
        Segment::Leg(pl) => pl.departure as int,
        Segment::Gap(g) => g.not_before as int,
    }
}

/// A bound on when the last leg of a plan's prefix arrives, whatever fills
/// its gaps; none where a gap has no upper bound.
pub open spec fn arrival_limit(plan: Seq<Segment>) -> Option<int>
    decreases plan.len(),
{
    if plan.len() == 0 {
        Some(i64::MIN as int)
    } else {
        match plan.last() {
            Segment::Leg(pl) => Some(pl.arrival as int),
            Segment::Gap(g) => match (g.not_after, arrival_limit(plan.drop_last())) {
                (Some(b), Some(x)) => Some(if b as int >= x { b as int } else { x }),
                _ => None,
            },
        }
    }
}

/// Each segment starts no earlier than the bound left by those before it.
pub open spec fn chained(plan: Seq<Segment>) -> bool
    decreases plan.len(),
{
    if plan.len() == 0 {
        true
    } else {
        &&& chained(plan.drop_last())
        &&& arrival_limit(plan.drop_last()) matches Some(x)
        &&& seg_start(plan.last()) >= x
    }
}

proof fn lemma_append_ordered(a: Seq<TrainTrip>, b: Seq<TrainTrip>)
    requires
        time_ordered(a),
        time_ordered(b),
        a.len() > 0 && b.len() > 0 ==> a[a.len() - 1].arrival.1 <= b[0].departure.1,
    ensures
        time_ordered(a + b),
{
    let e = a + b;
    assert forall|i: int| 0 <= i < e.len() - 1 implies (#[trigger] e[i]).arrival.1 <= e[i
        + 1].departure.1 by {
        if i < a.len() - 1 {
            assert(e[i] == a[i] && e[i + 1] == a[i + 1]);
        } else if i == a.len() - 1 {
            assert(e[i] == a[i] && e[i + 1] == b[0]);
        } else {
            assert(e[i] == b[i - a.len()] && e[i + 1] == b[i + 1 - a.len()]);
        }
    }
}

proof fn lemma_fillers_drop_last(fillers: Seq<Vec<Vec<TrainTrip>>>)
    requires
        fillers.len() > 0,
        fillers_time_ordered(fillers),
    ensures
        fillers_time_ordered(fillers.drop_last()),
        forall|o: int|
            0 <= o < fillers.last()@.len() ==> time_ordered((#[trigger] fillers.last()@[o])@),
{
    let f0 = fillers.drop_last();
    assert forall|a: int, o: int| 0 <= a < f0.len() && 0 <= o < f0[a]@.len() implies time_ordered(
        (#[trigger] f0[a]@[o])@,
    ) by {
        assert(f0[a] == fillers[a]);
    }
    assert forall|o: int| 0 <= o < fillers.last()@.len() implies time_ordered(
        (#[trigger] fillers.last()@[o])@,
    ) by {
        assert(fillers.last() == fillers[fillers.len() - 1]);
    }
}

proof fn lemma_filler_facts(opts: Seq<Vec<TrainTrip>>, g: GapQuery)
    requires
        forall|o: int| 0 <= o < opts.len() ==> time_ordered((#[trigger] opts[o])@),
    ensures
        time_ordered(filler(opts, g)),
        filler(opts, g).len() > 0 ==> filler(opts, g)[0].departure.1 >= g.not_before,
        filler(opts, g).len() > 0 ==> (g.not_after matches Some(b) ==> filler(opts, g)[filler(
            opts,
            g,
        ).len() - 1].arrival.1 <= b),
{
    if exists|o: int| is_first_fit(opts, g, o) {
        let o = choose|o: int| is_first_fit(opts, g, o);
        assert(filler(opts, g) == opts[o]@);
    } else {
        assert(filler(opts, g) =~= Seq::<TrainTrip>::empty());
    }
}

#[verifier::rlimit(50)]
proof fn lemma_chained_legs(
    st: Seq<TrainStation>,
    plan: Seq<Segment>,
    fillers: Seq<Vec<Vec<TrainTrip>>>,
)
    requires
        chained(plan),
        fillers.len() == gap_count(plan),
        fillers_time_ordered(fillers),
    ensures
        time_ordered(expected_legs(st, plan, fillers)),
        expected_legs(st, plan, fillers).len() > 0 ==> (arrival_limit(plan) matches Some(x) ==> {
            let e = expected_legs(st, plan, fillers);
            e[e.len() - 1].arrival.1 <= x
        }),
    decreases plan.len(),
{
    if plan.len() > 0 {
        let pre = plan.drop_last();
        match plan.last() {
            Segment::Leg(pl) => {
                lemma_chained_legs(st, pre, fillers);
                let e0 = expected_legs(st, pre, fillers);
                let tail = seq![trip_of(st, pl)];
                assert(expected_legs(st, plan, fillers) == e0 + tail);
                lemma_append_ordered(e0, tail);
            },
            Segment::Gap(g) => {
                lemma_fillers_drop_last(fillers);
                let f0 = fillers.drop_last();
                lemma_chained_legs(st, pre, f0);
                let e0 = expected_legs(st, pre, f0);
                let fl = filler(fillers.last()@, g);
                lemma_filler_facts(fillers.last()@, g);
                assert(expected_legs(st, plan, fillers) == e0 + fl);
                lemma_append_ordered(e0, fl);
                if fl.len() == 0 {
                    assert(e0 + fl =~= e0);
                } else {
                    assert((e0 + fl)[(e0 + fl).len() - 1] == fl[fl.len() - 1]);
                }
            },
        }
    }
}

proof fn lemma_concat_last(a: Seq<Segment>, s: Segment)
    ensures
        (a + seq![s]).drop_last() == a,
        (a + seq![s]).last() == s,
        (a + seq![s]).len() == a.len() + 1,
{
    assert((a + seq![s]).drop_last() =~= a);
}

proof fn lemma_body_step(st: Seq<TrainStation>, t: Threshold, raw: Seq<RawLeg>, a: Seq<Segment>, k: int)
    requires
        1 <= k <= raw.len(),
        raw_time_ordered(raw),
        chained(a),
        arrival_limit(a) matches Some(x) && x <= raw[k - 1].departure,
        k >= 2 ==> arrival_limit(a) == Some(raw[k - 2].arrival as int),
    ensures
        chained((a + inner_gap(st, t, raw, k - 1)) + seq![Segment::Leg(planned_leg(st, t, raw[k - 1]))]),
        arrival_limit((a + inner_gap(st, t, raw, k - 1)) + seq![Segment::Leg(planned_leg(st, t, raw[k - 1]))])
            == Some(raw[k - 1].arrival as int),
{
    let gap = inner_gap(st, t, raw, k - 1);
    let leg = Segment::Leg(planned_leg(st, t, raw[k - 1]));
    lemma_concat_last(a + gap, leg);
    assert(seg_start(leg) == raw[k - 1].departure as int);
    if gap.len() > 0 {
        let g = gap[0];
        assert(gap =~= seq![g]);
        lemma_concat_last(a, g);
        assert(k >= 2);
        assert(raw[k - 2].arrival <= raw[k - 1].departure);
        assert(g matches Segment::Gap(q) && q.not_before == raw[k - 2].arrival && q.not_after == Some(
            raw[k - 1].departure,
        ));
        assert(chained(a + gap));
        assert(arrival_limit(a + gap) == Some(raw[k - 1].departure as int));
    } else {
        assert(a + gap =~= a);
    }
}

proof fn lemma_body_chained(
    st: Seq<TrainStation>,
    t: Threshold,
    raw: Seq<RawLeg>,
    lead: Seq<Segment>,
    k: int,
)
    requires
        0 <= k <= raw.len(),
        raw.len() > 0,
        raw_time_ordered(raw),
        chained(lead),
        arrival_limit(lead) matches Some(x) && x <= raw[0].departure,
    ensures
        chained(lead + body_segments(st, t, raw, k)),
        k > 0 ==> arrival_limit(lead + body_segments(st, t, raw, k)) == Some(
            raw[k - 1].arrival as int,
        ),
        k == 0 ==> lead + body_segments(st, t, raw, k) == lead,
    decreases k,
{
    if k == 0 {
        assert(lead + body_segments(st, t, raw, 0) =~= lead);
    } else {
        lemma_body_chained(st, t, raw, lead, k - 1);
        let a = lead + body_segments(st, t, raw, k - 1);
        let gap = inner_gap(st, t, raw, k - 1);
        let leg = Segment::Leg(planned_leg(st, t, raw[k - 1]));
        assert(lead + body_segments(st, t, raw, k) =~= (a + gap) + seq![leg]);
        if k >= 2 {
            assert(raw[k - 2].arrival <= raw[k - 1].departure);
        }
        lemma_body_step(st, t, raw, a, k);
    }
}

/// Where the primary provider's option is time-ordered and every
/// secondary journey offered for its gaps is too, the stitched legs are
/// time-ordered: each filler keeps to the window of its gap.
#[verifier::rlimit(50)]
pub proof fn lemma_stitched_time_order(
    st: Seq<TrainStation>,
    t: Threshold,
    from: int,
    to: int,
    when: i64,
    raw: Seq<RawLeg>,
    fillers: Seq<Vec<Vec<TrainTrip>>>,
)
    requires
        raw.len() > 0,
        candidate_plan(st, t, from, to, when, raw) is Some,
        raw_time_ordered(raw),
        fillers.len() == gap_count(candidate_plan(st, t, from, to, when, raw)->Some_0),
        fillers_time_ordered(fillers),
    ensures
        time_ordered(expected_legs(st, candidate_plan(st, t, from, to, when, raw)->Some_0, fillers)),
{
    let lead = leading_gap(st, t, from, when, raw);
    let n = raw.len() as int;
    if lead.len() > 0 {
        let g = lead[0];
        assert(lead =~= seq![g]);
        assert(lead.drop_last() =~= Seq::<Segment>::empty());
        assert(lead.last() == g);
        assert(g matches Segment::Gap(q) && q.not_before == when && q.not_after == Some(
            raw[0].departure,
        ));
        assert(chained(lead.drop_last()));
        assert(chained(lead));
    } else {
        assert(lead =~= Seq::<Segment>::empty());
    }
    lemma_body_chained(st, t, raw, lead, n);
    let body = lead + body_segments(st, t, raw, n);
    let trail = trailing_gap(st, t, to, when, raw);
    let plan = candidate_plan(st, t, from, to, when, raw)->Some_0;
    if trail.len() > 0 {
        let g = trail[0];
        assert(trail =~= seq![g]);
        lemma_concat_last(body, g);
        assert(plan =~= body + seq![g]);
    } else {
        assert(plan =~= body);
    }
    lemma_chained_legs(st, plan, fillers);
}

/// A one-leg option that leaves from a station named as the requested
/// origin and arrives at one named as the requested destination is planned
/// as that leg alone: no gap, so nothing to ask the secondary provider, and
/// one itinerary of one leg.
pub proof fn lemma_direct_option(
    st: Seq<TrainStation>,
    t: Threshold,
    from: int,
    to: int,
    when: i64,
    raw: Seq<RawLeg>,
)
    requires
        t.wf(),
        0 <= from < st.len(),
        0 <= to < st.len(),
        raw.len() == 1,
        resolves(st, t, raw[0].origin@),
        resolves(st, t, raw[0].destination@),
        raw[0].origin@ == st[from].spec_name(),
        raw[0].destination@ == st[to].spec_name(),
    ensures
        candidate_plan(st, t, from, to, when, raw) == Some(
            seq![Segment::Leg(planned_leg(st, t, raw[0]))],
        ),
        gap_count(seq![Segment::Leg(planned_leg(st, t, raw[0]))]) == 0,
        expected_legs(st, seq![Segment::Leg(planned_leg(st, t, raw[0]))], Seq::empty()) == seq![
            trip_of(st, planned_leg(st, t, raw[0])),
        ],
{
    lemma_similarity_reflexive_symmetric(raw[0].origin@, raw[0].origin@);
    lemma_similarity_reflexive_symmetric(raw[0].destination@, raw[0].destination@);
    assert(all_resolved(st, t, raw));
    assert(leading_gap(st, t, from, when, raw) =~= Seq::<Segment>::empty());
    assert(trailing_gap(st, t, to, when, raw) =~= Seq::<Segment>::empty());
    assert(inner_gap(st, t, raw, 0) =~= Seq::<Segment>::empty());
    assert(body_segments(st, t, raw, 0) =~= Seq::<Segment>::empty());
    let leg = seq![Segment::Leg(planned_leg(st, t, raw[0]))];
    assert(body_segments(st, t, raw, 1) =~= leg);
    assert(Seq::<Segment>::empty() + leg + Seq::<Segment>::empty() =~= leg);
    assert(leg.drop_last() =~= Seq::<Segment>::empty());
    assert(gap_count(leg.drop_last()) == 0);
    assert(!(leg.last() is Gap));
    let e = expected_legs(st, leg, Seq::empty());
    assert(expected_legs(st, leg.drop_last(), Seq::empty()) =~= Seq::<TrainTrip>::empty());
    assert(e =~= seq![trip_of(st, planned_leg(st, t, raw[0]))]);
}

/// An option with a station name that leads nowhere is dropped and leaves
/// the plans of the others as they are: the plans are those of the options
/// without it.
pub proof fn lemma_unresolvable_option_dropped(
    st: Seq<TrainStation>,
    t: Threshold,
    from: int,
    to: int,
    when: i64,
    cands: Seq<Vec<RawLeg>>,
    k: int,
)
    requires
        0 <= k < cands.len(),
        !all_resolved(st, t, cands[k]@),
    ensures
        stitch_plans(st, t, from, to, when, cands) == stitch_plans(
            st,
            t,
            from,
            to,
            when,
            cands.remove(k),
        ),
    decreases cands.len(),
{
    if k == cands.len() - 1 {
        assert(cands.remove(k) =~= cands.drop_last());
    } else {
        lemma_unresolvable_option_dropped(st, t, from, to, when, cands.drop_last(), k);
        assert(cands.remove(k).drop_last() =~= cands.drop_last().remove(k));
        assert(cands.remove(k).last() == cands.last());
    }
}

/// The trailing gap's query: from the station the last leg arrives at to
/// the requested destination, leaving no earlier than that arrival.
pub open spec fn trailing_query(st: Seq<TrainStation>, t: Threshold, to: int, when: i64, raw: Seq<RawLeg>) -> GapQuery {
    GapQuery {
        query: TripQuery {
            from: pos(st, t, raw[raw.len() - 1].destination@) as usize,
            to: to as usize,
            at: when,
        },
        not_before: raw[raw.len() - 1].arrival,
        not_after: None,
    }
}

/// Where the last leg arrives at a station whose name is not similar
/// enough to the destination's, the plan ends with the trailing gap, and
/// the legs of the first secondary journey that fits it come after all the
/// other legs of the itinerary.
pub proof fn lemma_trailing_filler_appended(
    st: Seq<TrainStation>,
    t: Threshold,
    from: int,
    to: int,
    when: i64,
    raw: Seq<RawLeg>,
    fillers: Seq<Vec<Vec<TrainTrip>>>,
    o: int,
)
    requires
        raw.len() > 0,
        candidate_plan(st, t, from, to, when, raw) is Some,
        !similarity_of(raw[raw.len() - 1].destination@, st[to].spec_name()).spec_reaches(t),
        fillers.len() == gap_count(candidate_plan(st, t, from, to, when, raw)->Some_0),
        fillers.len() > 0,
        is_first_fit(fillers.last()@, trailing_query(st, t, to, when, raw), o),
    ensures
        ({
            let plan = candidate_plan(st, t, from, to, when, raw)->Some_0;
            &&& plan.len() > 0
            &&& plan.last() == Segment::Gap(trailing_query(st, t, to, when, raw))
            &&& expected_legs(st, plan, fillers) == expected_legs(
                st,
                plan.drop_last(),
                fillers.drop_last(),
            ) + fillers.last()@[o]@
        }),
{
    let plan = candidate_plan(st, t, from, to, when, raw)->Some_0;
    let g = trailing_query(st, t, to, when, raw);
    let body = leading_gap(st, t, from, when, raw) + body_segments(st, t, raw, raw.len() as int);
    assert(trailing_gap(st, t, to, when, raw) =~= seq![Segment::Gap(g)]);
    lemma_concat_last(body, Segment::Gap(g));
    assert(plan =~= body + seq![Segment::Gap(g)]);
    let opts = fillers.last()@;
    assert forall|o2: int| is_first_fit(opts, g, o2) implies o2 == o by {
        if o2 < o {
            assert(!fits(opts[o2]@, g));
        } else if o < o2 {
            assert(!fits(opts[o]@, g));
        }
    }
    assert(filler(opts, g) == opts[o]@);
}

/// Each leg arrives at the station (by short code) that the next one
/// leaves from.
pub open spec fn station_joined(legs: Seq<TrainTrip>) -> bool {
    forall|i: int|
        0 <= i < legs.len() - 1 ==> (#[trigger] legs[i]).arrival.0.id@ == legs[i + 1].departure.0.id@
}

pub open spec fn seg_from(s: Segment) -> int {
    match s {
        Segment::Leg(pl) => pl.from as int,
        Segment::Gap(g) => g.query.from as int,
    }
}

pub open spec fn seg_to(s: Segment) -> int {
    match s {
        Segment::Leg(pl) => pl.to as int,
        Segment::Gap(g) => g.query.to as int,
    }
}

/// Each segment starts at the station (by short code) where the one before
/// it ends.
pub open spec fn station_chained(st: Seq<TrainStation>, plan: Seq<Segment>) -> bool
    decreases plan.len(),
{
    if plan.len() <= 1 {
        true
    } else {
        &&& station_chained(st, plan.drop_last())
        &&& st[seg_to(plan[plan.len() - 2])].id@ == st[seg_from(plan.last())].id@
    }
}

/// Every gap of the plan is filled by a journey that leaves from the gap's
/// first station, arrives at its second, and is itself joined.
pub open spec fn gaps_filled(st: Seq<TrainStation>, plan: Seq<Segment>, fillers: Seq<Vec<Vec<TrainTrip>>>) -> bool {
    forall|i: int|
        0 <= i < gap_queries(plan).len() ==> {
            let f = #[trigger] filler(fillers[i]@, gap_queries(plan)[i]);
            let q = gap_queries(plan)[i].query;
            &&& f.len() > 0
            &&& station_joined(f)
            &&& f[0].departure.0.id@ == st[q.from as int].id@
            &&& f[f.len() - 1].arrival.0.id@ == st[q.to as int].id@
        }
}

proof fn lemma_append_joined(a: Seq<TrainTrip>, b: Seq<TrainTrip>)
    requires
        station_joined(a),
        station_joined(b),
        a.len() > 0 && b.len() > 0 ==> a[a.len() - 1].arrival.0.id@ == b[0].departure.0.id@,
    ensures
        station_joined(a + b),
{
    let e = a + b;
    assert forall|i: int| 0 <= i < e.len() - 1 implies (#[trigger] e[i]).arrival.0.id@ == e[i
        + 1].departure.0.id@ by {
        if i < a.len() - 1 {
            assert(e[i] == a[i] && e[i + 1] == a[i + 1]);
        } else if i == a.len() - 1 {
            assert(e[i] == a[i] && e[i + 1] == b[0]);
        } else {
            assert(e[i] == b[i - a.len()] && e[i + 1] == b[i + 1 - a.len()]);
        }
    }
}

#[verifier::rlimit(50)]
proof fn lemma_chained_stations(
    st: Seq<TrainStation>,
    plan: Seq<Segment>,
    fillers: Seq<Vec<Vec<TrainTrip>>>,
)
    requires
        station_chained(st, plan),
        fillers.len() == gap_count(plan),
        gaps_filled(st, plan, fillers),
    ensures
        station_joined(expected_legs(st, plan, fillers)),
        plan.len() > 0 ==> ({
            let e = expected_legs(st, plan, fillers);
            &&& e.len() > 0
            &&& e[0].departure.0.id@ == st[seg_from(plan[0])].id@
            &&& e[e.len() - 1].arrival.0.id@ == st[seg_to(plan.last())].id@
        }),
    decreases plan.len(),
{
    if plan.len() > 0 {
        let pre = plan.drop_last();
        lemma_gap_queries_len(plan);
        lemma_gap_queries_len(pre);
        match plan.last() {
            Segment::Leg(pl) => {
                assert(gap_queries(plan) == gap_queries(pre));
                lemma_chained_stations(st, pre, fillers);
                let e0 = expected_legs(st, pre, fillers);
                let tail = seq![trip_of(st, pl)];
                assert(expected_legs(st, plan, fillers) == e0 + tail);
                if pre.len() > 0 {
                    assert(plan[plan.len() - 2] == pre.last());
                }
                lemma_append_joined(e0, tail);
                if pre.len() > 0 {
                    assert(plan[0] == pre[0]);
                    assert((e0 + tail)[0] == e0[0]);
                }
            },
            Segment::Gap(g) => {
                let f0 = fillers.drop_last();
                assert(gap_queries(plan) == gap_queries(pre).push(g));
                assert(gaps_filled(st, pre, f0)) by {
                    assert forall|i: int| 0 <= i < gap_queries(pre).len() implies ({
                        let f = #[trigger] filler(f0[i]@, gap_queries(pre)[i]);
                        let q = gap_queries(pre)[i].query;
                        &&& f.len() > 0
                        &&& station_joined(f)
                        &&& f[0].departure.0.id@ == st[q.from as int].id@
                        &&& f[f.len() - 1].arrival.0.id@ == st[q.to as int].id@
                    }) by {
                        assert(f0[i] == fillers[i]);
                        assert(gap_queries(plan)[i] == gap_queries(pre)[i]);
                    }
                }
                lemma_chained_stations(st, pre, f0);
                let e0 = expected_legs(st, pre, f0);
                let k = gap_queries(pre).len() as int;
                assert(gap_queries(plan)[k] == g);
                assert(fillers[k] == fillers.last());
                let fl = filler(fillers.last()@, g);
                assert(expected_legs(st, plan, fillers) == e0 + fl);
                if pre.len() > 0 {
                    assert(plan[plan.len() - 2] == pre.last());
                }
                lemma_append_joined(e0, fl);
                assert((e0 + fl)[(e0 + fl).len() - 1] == fl[fl.len() - 1]);
                if pre.len() > 0 {
                    assert(plan[0] == pre[0]);
                    assert((e0 + fl)[0] == e0[0]);
                } else {
                    assert(e0 =~= Seq::<TrainTrip>::empty());
                    assert((e0 + fl)[0] == fl[0]);
                }
            },
        }
    }
}

/// Stations with the same display name have the same short code.
pub open spec fn names_identify(st: Seq<TrainStation>) -> bool {
    forall|i: int, j: int|
        0 <= i < st.len() && 0 <= j < st.len() && (#[trigger] st[i]).spec_name()
            == (#[trigger] st[j]).spec_name() ==> st[i].id@ == st[j].id@
}

#[verifier::rlimit(80)]
proof fn lemma_body_stations(
    st: Seq<TrainStation>,
    t: Threshold,
    raw: Seq<RawLeg>,
    lead: Seq<Segment>,
    k: int,
)
    requires
        0 <= k <= raw.len(),
        raw.len() > 0,
        all_resolved(st, t, raw),
        st.len() <= usize::MAX,
        names_identify(st),
        station_chained(st, lead),
        lead.len() <= 1,
        lead.len() == 1 ==> seg_to(lead[0]) == pos(st, t, raw[0].origin@),
    ensures
        station_chained(st, lead + body_segments(st, t, raw, k)),
        k > 0 ==> ({
            let a = lead + body_segments(st, t, raw, k);
            a.len() > 0 && seg_to(a.last()) == pos(st, t, raw[k - 1].destination@)
        }),
    decreases k,
{
    if k == 0 {
        assert(lead + body_segments(st, t, raw, 0) =~= lead);
    } else {
        lemma_body_stations(st, t, raw, lead, k - 1);
        let a = lead + body_segments(st, t, raw, k - 1);
        let gap = inner_gap(st, t, raw, k - 1);
        let leg = Segment::Leg(planned_leg(st, t, raw[k - 1]));
        assert(lead + body_segments(st, t, raw, k) =~= (a + gap) + seq![leg]);
        lemma_concat_last(a + gap, leg);
        assert(resolves(st, t, raw[k - 1].origin@));
        lemma_lookup_in_range(st, raw[k - 1].origin@, t);
        assert(seg_from(leg) == pos(st, t, raw[k - 1].origin@));
        assert(resolves(st, t, raw[k - 1].destination@));
        lemma_lookup_in_range(st, raw[k - 1].destination@, t);
        assert(seg_to(leg) == pos(st, t, raw[k - 1].destination@));
        if k >= 2 {
            assert(resolves(st, t, raw[k - 2].destination@));
            lemma_lookup_in_range(st, raw[k - 2].destination@, t);
        }
        if gap.len() > 0 {
            let g = gap[0];
            assert(gap =~= seq![g]);
            lemma_concat_last(a, g);
            assert(seg_from(g) == seg_to(a.last()));
            assert(a + gap == a + seq![g]);
            assert(station_chained(st, a + gap));
        } else {
            assert(a + gap =~= a);
            if a.len() > 0 && k == 1 {
                assert(lead + body_segments(st, t, raw, 0) =~= lead);
                assert(a == lead);
                assert(a.last() == lead[0]);
            }
        }
    }
}

/// Where every name of the primary provider's option leads to a station,
/// display names identify stations, and every gap is filled by a secondary
/// journey that runs, joined, between the gap's two stations, each leg of
/// the stitched itinerary arrives where the next one leaves.
#[verifier::rlimit(50)]
pub proof fn lemma_stitched_same_stations(
    st: Seq<TrainStation>,
    t: Threshold,
    from: int,
    to: int,
    when: i64,
    raw: Seq<RawLeg>,
    fillers: Seq<Vec<Vec<TrainTrip>>>,
)
    requires
        raw.len() > 0,
        candidate_plan(st, t, from, to, when, raw) is Some,
        st.len() <= usize::MAX,
        names_identify(st),
        fillers.len() == gap_count(candidate_plan(st, t, from, to, when, raw)->Some_0),
        gaps_filled(st, candidate_plan(st, t, from, to, when, raw)->Some_0, fillers),
    ensures
        station_joined(expected_legs(st, candidate_plan(st, t, from, to, when, raw)->Some_0, fillers)),
{
    let lead = leading_gap(st, t, from, when, raw);
    let n = raw.len() as int;
    assert(all_resolved(st, t, raw));
    assert(resolves(st, t, raw[0].origin@));
    lemma_lookup_in_range(st, raw[0].origin@, t);
    assert(resolves(st, t, raw[n - 1].destination@));
    lemma_lookup_in_range(st, raw[n - 1].destination@, t);
    if lead.len() > 0 {
        let g = lead[0];
        assert(lead =~= seq![g]);
        assert(seg_to(g) == pos(st, t, raw[0].origin@));
    } else {
        assert(lead =~= Seq::<Segment>::empty());
    }
    lemma_body_stations(st, t, raw, lead, n);
    let body = lead + body_segments(st, t, raw, n);
    let trail = trailing_gap(st, t, to, when, raw);
    let plan = candidate_plan(st, t, from, to, when, raw)->Some_0;
    if trail.len() > 0 {
        let g = trail[0];
        assert(trail =~= seq![g]);
        lemma_concat_last(body, g);
        assert(plan =~= body + seq![g]);
        assert(plan[plan.len() - 2] == body.last());
    } else {
        assert(plan =~= body);
    }
    lemma_chained_stations(st, plan, fillers);
}

/// Under the conditions of both laws above, the stitched itinerary is
/// continuous: each leg arrives, in time, where the next one leaves.
pub proof fn lemma_stitched_continuous(
    st: Seq<TrainStation>,
    t: Threshold,
    from: int,
    to: int,
    when: i64,
    raw: Seq<RawLeg>,
    fillers: Seq<Vec<Vec<TrainTrip>>>,
)
    requires
        raw.len() > 0,
        candidate_plan(st, t, from, to, when, raw) is Some,
        raw_time_ordered(raw),
        st.len() <= usize::MAX,
        names_identify(st),
        fillers.len() == gap_count(candidate_plan(st, t, from, to, when, raw)->Some_0),
        fillers_time_ordered(fillers),
        gaps_filled(st, candidate_plan(st, t, from, to, when, raw)->Some_0, fillers),
    ensures
        continuous(expected_legs(st, candidate_plan(st, t, from, to, when, raw)->Some_0, fillers)),
{
    lemma_stitched_time_order(st, t, from, to, when, raw, fillers);
    lemma_stitched_same_stations(st, t, from, to, when, raw, fillers);
}

/// Trips that hold the same values are continuous together: the laws on
/// expected legs carry over to the legs `assemble` returns.
pub proof fn lemma_same_legs_continuous(a: Seq<TrainTrip>, b: Seq<TrainTrip>)
    requires
        same_legs(a, b),
        continuous(b),
    ensures
        continuous(a),
{
    assert forall|i: int| 0 <= i < a.len() - 1 implies joins(#[trigger] a[i], a[i + 1]) by {
        assert(a[i].same_as(&b[i]) && a[i + 1].same_as(&b[i + 1]));
        assert(joins(b[i], b[i + 1]));
    }
}

} // verus!
