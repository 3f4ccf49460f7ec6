//! Where a train is: its stops, its delay and its current station, read
//! from the primary provider's live position report.

use vstd::prelude::*;

use crate::mapping::{VTDetailedTrainTripLeg, VTDetailedTrainTripStop};
use crate::registry::Trenitalia;
use crate::stitch::{pos, resolves};
use crate::types::TrainStation;

verus! {

/// A stop of a train's run. Times are seconds since the epoch.
#[derive(Debug)]
pub struct DetailedTrainTripStop {
    pub station: TrainStation,
    pub platform: String,
    pub arrival: Option<i64>,
    pub departure: Option<i64>,
    pub expected_arrival: Option<i64>,
    pub expected_departure: Option<i64>,
}

/// Where a train is.
#[derive(Debug)]
pub struct TrainInfo {
    pub current_station: TrainStation,
    /// Delay in minutes.
    pub current_delay: i16,
    /// The train has arrived at its current station and not left it yet.
    pub is_at_station: bool,
    pub stops: Vec<DetailedTrainTripStop>,
}

/// Whole minutes from `t` to `r`, both in milliseconds, rounded toward zero.
pub open spec fn minutes_between(r: int, t: int) -> int {
    if r >= t {
        (r - t) / 60000
    } else {
        -((t - r) / 60000)
    }
}

/// Milliseconds since the epoch as whole seconds.
pub open spec fn seconds_of(ms: Option<u64>) -> Option<i64> {
    match ms {
        Some(x) => Some((x / 1000) as i64),
        None => None,
    }
}

/// The platform of a stop: the actual departure platform, else the planned
/// one, else the actual arrival platform, else the planned one, else `?`.
pub open spec fn platform_of(f: VTDetailedTrainTripStop) -> Seq<char> {
    match (
        f.binarioEffettivoPartenzaDescrizione,
        f.binarioProgrammatoPartenzaDescrizione,
        f.binarioEffettivoArrivoDescrizione,
        f.binarioProgrammatoArrivoDescrizione,
    ) {
        (Some(p), _, _, _) => p@,
        (None, Some(p), _, _) => p@,
        (None, None, Some(p), _) => p@,
        (None, None, None, Some(p)) => p@,
        (None, None, None, None) => "?"@,
    }
}

/// The delay that a current stop shows, in minutes, where it has a
/// scheduled departure: from the actual departure where there is one, else
/// from `now`, and never below zero in that case.
pub open spec fn stop_delay(s: VTDetailedTrainTripLeg, now: i64) -> i16 {
    let t = s.fermata.partenza_teorica->Some_0 as int;
    match s.fermata.partenzaReale {
        Some(r) => minutes_between(r as int, t) as i16,
        None => {
            let d = minutes_between(now as int, t) as i16;
            if d < 0 {
                0
            } else {
                d
            }
        },
    }
}

/// The delay of the run: that of the last current stop with a scheduled
/// departure, or zero.
pub open spec fn run_delay(stops: Seq<VTDetailedTrainTripLeg>, now: i64) -> i16
    decreases stops.len(),
{
    if stops.len() == 0 {
        0
    } else if stops.last().stazioneCorrente && stops.last().fermata.partenza_teorica is Some {
        stop_delay(stops.last(), now)
    } else {
        run_delay(stops.drop_last(), now)
    }
}

/// The position of the current stop: the last one marked current, or the
/// last stop.
pub open spec fn current_index(stops: Seq<VTDetailedTrainTripLeg>) -> int {
    if has_current(stops) {
        choose|i: int|
            0 <= i < stops.len() && (#[trigger] stops[i]).stazioneCorrente && forall|j: int|
                i < j < stops.len() ==> !(#[trigger] stops[j]).stazioneCorrente
    } else {
        stops.len() - 1
    }
}

/// Some stop is marked current.
pub open spec fn has_current(stops: Seq<VTDetailedTrainTripLeg>) -> bool {
    exists|i: int| 0 <= i < stops.len() && (#[trigger] stops[i]).stazioneCorrente
}

proof fn lemma_current_step(pre: Seq<VTDetailedTrainTripLeg>, s: VTDetailedTrainTripLeg)
    ensures
        has_current(pre.push(s)) == (has_current(pre) || s.stazioneCorrente),
        s.stazioneCorrente ==> current_index(pre.push(s)) == pre.len(),
        !s.stazioneCorrente && has_current(pre) ==> current_index(pre.push(s)) == current_index(
            pre,
        ),
        has_current(pre) ==> 0 <= current_index(pre) < pre.len(),
        at_station(pre.push(s)) == (at_station(pre) || (s.stazioneCorrente
            && s.fermata.arrivoReale is Some && s.fermata.partenzaReale is None)),
{
    let next = pre.push(s);
    assert forall|i: int| 0 <= i < pre.len() implies #[trigger] next[i] == pre[i] by {}
    assert(next[pre.len() as int] == s);
    if has_current(pre) {
        let w = choose|i: int| 0 <= i < pre.len() && (#[trigger] pre[i]).stazioneCorrente;
        assert(next[w].stazioneCorrente);
        let c0 = current_index(pre);
        assert(0 <= c0 < pre.len() && pre[c0].stazioneCorrente && forall|j: int|
            c0 < j < pre.len() ==> !(#[trigger] pre[j]).stazioneCorrente) by {
            lemma_last_current_exists(pre);
        }
        if !s.stazioneCorrente {
            lemma_last_current_exists(next);
            let c = current_index(next);
            assert(next[c0].stazioneCorrente);
            if c < c0 {
            } else if c0 < c {
                assert(pre[c] == next[c]);
            }
        }
    }
    if s.stazioneCorrente {
        assert(has_current(next));
        lemma_last_current_exists(next);
        let c = current_index(next);
        if c < pre.len() {
            assert(next[pre.len() as int].stazioneCorrente);
        }
    }
    if has_current(next) && !s.stazioneCorrente {
        let w = choose|i: int| 0 <= i < next.len() && (#[trigger] next[i]).stazioneCorrente;
        assert(pre[w] == next[w]);
    }
    if at_station(pre) {
        let w = choose|i: int|
            0 <= i < pre.len() && (#[trigger] pre[i]).stazioneCorrente
                && pre[i].fermata.arrivoReale is Some && pre[i].fermata.partenzaReale is None;
        assert(next[w] == pre[w]);
    }
    if at_station(next) && !(s.stazioneCorrente && s.fermata.arrivoReale is Some
        && s.fermata.partenzaReale is None) {
        let w = choose|i: int|
            0 <= i < next.len() && (#[trigger] next[i]).stazioneCorrente
                && next[i].fermata.arrivoReale is Some && next[i].fermata.partenzaReale is None;
        assert(pre[w] == next[w]);
    }
    if s.stazioneCorrente && s.fermata.arrivoReale is Some && s.fermata.partenzaReale is None {
        assert(next[pre.len() as int] == s);
    }
}

/// Where some stop is marked current, there is a last such.
proof fn lemma_last_current_exists(stops: Seq<VTDetailedTrainTripLeg>)
    requires
        has_current(stops),
    ensures
        exists|i: int|
            0 <= i < stops.len() && (#[trigger] stops[i]).stazioneCorrente && forall|j: int|
                i < j < stops.len() ==> !(#[trigger] stops[j]).stazioneCorrente,
    decreases stops.len(),
{
    if stops.last().stazioneCorrente {
        assert(stops[stops.len() - 1].stazioneCorrente);
    } else {
        let pre = stops.drop_last();
        let w = choose|i: int| 0 <= i < stops.len() && (#[trigger] stops[i]).stazioneCorrente;
        assert(pre[w] == stops[w]);
        lemma_last_current_exists(pre);
        let c = choose|i: int|
            0 <= i < pre.len() && (#[trigger] pre[i]).stazioneCorrente && forall|j: int|
                i < j < pre.len() ==> !(#[trigger] pre[j]).stazioneCorrente;
        assert(stops[c] == pre[c]);
        assert forall|j: int| c < j < stops.len() implies !(#[trigger] stops[j]).stazioneCorrente by {
            if j < pre.len() {
                assert(stops[j] == pre[j]);
            }
        }
    }
}

/// Some current stop has seen the train arrive and not leave.
pub open spec fn at_station(stops: Seq<VTDetailedTrainTripLeg>) -> bool {
    exists|i: int|
        0 <= i < stops.len() && (#[trigger] stops[i]).stazioneCorrente
            && stops[i].fermata.arrivoReale is Some && stops[i].fermata.partenzaReale is None
}

fn seconds(ms: Option<u64>) -> (r: Option<i64>)
    ensures
        r == seconds_of(ms),
{
    match ms {
        Some(x) => Some((x / 1000) as i64),
        None => None,
    }
}

fn minutes(r: u64, t: u64) -> (m: i128)
    ensures
        m == minutes_between(r as int, t as int),
{
    if r >= t {
        ((r - t) / 60000) as i128
    } else {
        -(((t - r) / 60000) as i128)
    }
}

fn platform(f: &VTDetailedTrainTripStop) -> (r: String)
    ensures
        r@ == platform_of(*f),
{
    match (
        &f.binarioEffettivoPartenzaDescrizione,
        &f.binarioProgrammatoPartenzaDescrizione,
        &f.binarioEffettivoArrivoDescrizione,
        &f.binarioProgrammatoArrivoDescrizione,
    ) {
        (Some(p), _, _, _) => p.clone(),
        (None, Some(p), _, _) => p.clone(),
        (None, None, Some(p), _) => p.clone(),
        (None, None, None, Some(p)) => p.clone(),
        (None, None, None, None) => "?".to_owned(),
    }
}

fn delay_at(s: &VTDetailedTrainTripLeg, now: i64) -> (r: i16)
    requires
        s.fermata.partenza_teorica is Some,
    ensures
        r == stop_delay(*s, now),
{
    let t: u64 = s.fermata.partenza_teorica.unwrap();
    match s.fermata.partenzaReale {
        Some(r) => {
            let m: i128 = minutes(r, t);
            #[verifier::truncate]
            (m as i16)
        },
        None => {
            let m: i128 = if now as i128 >= t as i128 {
                (now as i128 - t as i128) / 60000
            } else {
                -((t as i128 - now as i128) / 60000)
            };
            let d: i16 = #[verifier::truncate] (m as i16);
            if d < 0 {
                0
            } else {
                d
            }
        },
    }
}

impl TrainInfo {
    /// Reads a live position report, given the time `now` in milliseconds
    /// since the epoch. `None` where the report has no stops or one of its
    /// station names leads nowhere in the registry.
    pub fn from(vtvec: &Vec<VTDetailedTrainTripLeg>, trenitalia: &Trenitalia, now: i64) -> (r:
        Option<TrainInfo>)
        requires
            trenitalia.wf(),
        ensures
            r is Some <==> vtvec@.len() > 0 && forall|i: int|
                0 <= i < vtvec@.len() ==> resolves(
                    trenitalia.stations_view(),
                    trenitalia.threshold_view(),
                    (#[trigger] vtvec@[i]).stazione@,
                ),
            r matches Some(info) ==> {
                let st = trenitalia.stations_view();
                let t = trenitalia.threshold_view();
                &&& info.stops@.len() == vtvec@.len()
                &&& forall|i: int|
                    0 <= i < vtvec@.len() ==> {
                        let s = #[trigger] info.stops@[i];
                        let v = vtvec@[i];
                        &&& s.station.same_as(&st[pos(st, t, v.stazione@)])
                        &&& s.platform@ == platform_of(v.fermata)
                        &&& s.arrival == seconds_of(v.fermata.arrivoReale)
                        &&& s.departure == seconds_of(v.fermata.partenzaReale)
                        &&& s.expected_arrival == seconds_of(v.fermata.arrivo_teorico)
                        &&& s.expected_departure == seconds_of(v.fermata.partenza_teorica)
                    }
                &&& info.current_station.same_as(
                    &st[pos(st, t, vtvec@[current_index(vtvec@)].stazione@)],
                )
                &&& info.current_delay == run_delay(vtvec@, now)
                &&& info.is_at_station == at_station(vtvec@)
            },
    {
        let n: usize = vtvec.len();
        if n == 0 {
            return None;
        }
        let ghost st = trenitalia.stations_view();
        let ghost t = trenitalia.threshold_view();
        let last: usize = match trenitalia.lookup(vtvec[n - 1].stazione.as_str()) {
            Some(i) => i,
            None => {
                return None;
            },
        };
        let mut current: usize = last;
        let mut current_set: bool = false;
        let mut delay: i16 = 0;
        let mut in_station: bool = false;
        let mut stops: Vec<DetailedTrainTripStop> = Vec::new();
        let mut k: usize = 0;
        while k < n
            invariant
                trenitalia.wf(),
                st == trenitalia.stations_view(),
                t == trenitalia.threshold_view(),
                n == vtvec@.len(),
                n > 0,
                k <= n,
                last == pos(st, t, vtvec@[n - 1].stazione@),
                last < st.len(),
                current < st.len(),
                forall|i: int| 0 <= i < k ==> resolves(st, t, (#[trigger] vtvec@[i]).stazione@),
                current_set == has_current(vtvec@.subrange(0, k as int)),
                current_set ==> current == pos(
                    st,
                    t,
                    vtvec@[current_index(vtvec@.subrange(0, k as int))].stazione@,
                ),
                !current_set ==> current == last,
                delay == run_delay(vtvec@.subrange(0, k as int), now),
                in_station == at_station(vtvec@.subrange(0, k as int)),
                stops@.len() == k,
                forall|i: int|
                    0 <= i < k ==> {
                        let s = #[trigger] stops@[i];
                        let v = vtvec@[i];
                        &&& s.station.same_as(&st[pos(st, t, v.stazione@)])
                        &&& s.platform@ == platform_of(v.fermata)
                        &&& s.arrival == seconds_of(v.fermata.arrivoReale)
                        &&& s.departure == seconds_of(v.fermata.partenzaReale)
                        &&& s.expected_arrival == seconds_of(v.fermata.arrivo_teorico)
                        &&& s.expected_departure == seconds_of(v.fermata.partenza_teorica)
                    },
            decreases n - k,
        {
            let stop: &VTDetailedTrainTripLeg = &vtvec[k];
            let here: usize = match trenitalia.lookup(stop.stazione.as_str()) {
                Some(i) => i,
                None => {
                    return None;
                },
            };
            let ghost pre = vtvec@.subrange(0, k as int);
            let ghost next = vtvec@.subrange(0, k + 1);
            assert(next.drop_last() =~= pre);
            assert(next.last() == *stop);
            if stop.stazioneCorrente {
                current = here;
                current_set = true;
                if stop.fermata.partenza_teorica.is_some() {
                    delay = delay_at(stop, now);
                }
                if stop.fermata.arrivoReale.is_some() && stop.fermata.partenzaReale.is_none() {
                    in_station = true;
                }
            }
            proof {
                assert(next =~= pre.push(*stop));
                lemma_current_step(pre, *stop);
            }
            let record = DetailedTrainTripStop {
                station: trenitalia.station(here).clone(),
                platform: platform(&stop.fermata),
                arrival: seconds(stop.fermata.arrivoReale),
                departure: seconds(stop.fermata.partenzaReale),
                expected_arrival: seconds(stop.fermata.arrivo_teorico),
                expected_departure: seconds(stop.fermata.partenza_teorica),
            };
            stops.push(record);
            k = k + 1;
        }
        assert(vtvec@.subrange(0, n as int) =~= vtvec@);
        Some(TrainInfo {
            current_station: trenitalia.station(current).clone(),
            current_delay: delay,
            is_at_station: in_station,
            stops,
        })
    }
}

} // verus!
