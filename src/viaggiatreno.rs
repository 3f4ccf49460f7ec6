//! The primary provider: its journey options, read into legs with
//! timestamps and train identities.

use vstd::prelude::*;

use crate::mapping::{VTJourneySearchResult, VTTrainSolution, VTTrainTripLeg};
use crate::time::{parse_primary_time, primary_format, wall_clock_seconds};
use crate::types::{classifies, TrainNumber};
use crate::utils::{match_train_type, parse_train_number, train_number_value};

verus! {

/// A leg as the primary provider reports it, before its station names are
/// resolved: a missing name is empty, times are seconds on the local wall
/// clock.
#[derive(Debug)]
pub struct RawLeg {
    pub origin: String,
    pub destination: String,
    pub departure: i64,
    pub arrival: i64,
    pub train_number: TrainNumber,
}

/// Why a provider's answer could not be read.
#[derive(Clone, Copy, PartialEq, Eq, Structural, Debug)]
pub enum SearchError {
    /// A timestamp is not in the provider's format.
    MalformedTime,
    /// A train number has no number in it, or one too large.
    MalformedTrainNumber,
}

pub open spec fn text_or_empty(o: Option<String>) -> Seq<char> {
    match o {
        Some(s) => s@,
        None => Seq::empty(),
    }
}

/// The leg's timestamps are well formed.
pub open spec fn leg_times_ok(vt: VTTrainTripLeg) -> bool {
    &&& wall_clock_seconds(vt.orarioPartenza@, primary_format()) is Some
    &&& wall_clock_seconds(vt.orarioArrivo@, primary_format()) is Some
}

/// The leg can be read: well-formed timestamps and a train number.
pub open spec fn leg_ok(vt: VTTrainTripLeg) -> bool {
    leg_times_ok(vt) && train_number_value(vt.numeroTreno@) is Some
}

/// `r` is what reading `vt` gives.
pub open spec fn reads_as(vt: VTTrainTripLeg, r: RawLeg) -> bool {
    &&& r.origin@ == text_or_empty(vt.origine)
    &&& r.destination@ == text_or_empty(vt.destinazione)
    &&& wall_clock_seconds(vt.orarioPartenza@, primary_format()) == Some(r.departure as int)
    &&& wall_clock_seconds(vt.orarioArrivo@, primary_format()) == Some(r.arrival as int)
    &&& train_number_value(vt.numeroTreno@) matches Some(n) && classifies(
        vt.categoriaDescrizione@,
        n as u32,
        r.train_number,
    )
}

/// Every leg of every option can be read.
pub open spec fn answer_ok(res: VTJourneySearchResult) -> bool {
    forall|i: int, j: int|
        0 <= i < res.soluzioni@.len() && 0 <= j < res.soluzioni@[i].vehicles@.len() ==> leg_ok(
            #[trigger] res.soluzioni@[i].vehicles@[j],
        )
}

fn name_or_empty(o: &Option<String>) -> (r: String)
    ensures
        r@ == text_or_empty(*o),
{
    match o {
        Some(s) => s.clone(),
        None => String::new(),
    }
}

/// Reads one leg of the primary provider.
pub fn read_leg(vt: &VTTrainTripLeg) -> (r: Result<RawLeg, SearchError>)
    ensures
        match r {
            Ok(l) => reads_as(*vt, l),
            Err(SearchError::MalformedTime) => !leg_times_ok(*vt),
            Err(SearchError::MalformedTrainNumber) => leg_times_ok(*vt) && !leg_ok(*vt),
        },
{
    let departure: i64 = match parse_primary_time(vt.orarioPartenza.as_str()) {
        Some(t) => t,
        None => return Err(SearchError::MalformedTime),
    };
    let arrival: i64 = match parse_primary_time(vt.orarioArrivo.as_str()) {
        Some(t) => t,
        None => return Err(SearchError::MalformedTime),
    };
    let number: u32 = match parse_train_number(vt.numeroTreno.as_str()) {
        Some(n) => n,
        None => return Err(SearchError::MalformedTrainNumber),
    };
    Ok(RawLeg {
        origin: name_or_empty(&vt.origine),
        destination: name_or_empty(&vt.destinazione),
        departure,
        arrival,
        train_number: match_train_type(vt.categoriaDescrizione.as_str(), number),
    })
}

/// Reads every journey option of a primary provider answer, in order. The
/// answer is refused as a whole if any leg cannot be read.
pub fn read_solutions(res: &VTJourneySearchResult) -> (r: Result<Vec<Vec<RawLeg>>, SearchError>)
    ensures
        r is Ok <==> answer_ok(*res),
        r matches Err(SearchError::MalformedTime) ==> exists|i: int, j: int|
            0 <= i < res.soluzioni@.len() && 0 <= j < res.soluzioni@[i].vehicles@.len()
                && !leg_times_ok(#[trigger] res.soluzioni@[i].vehicles@[j]),
        r matches Err(SearchError::MalformedTrainNumber) ==> exists|i: int, j: int|
            0 <= i < res.soluzioni@.len() && 0 <= j < res.soluzioni@[i].vehicles@.len()
                && leg_times_ok(#[trigger] res.soluzioni@[i].vehicles@[j])
                && !leg_ok(res.soluzioni@[i].vehicles@[j]),
        r matches Ok(v) ==> {
            &&& v@.len() == res.soluzioni@.len()
            &&& forall|i: int|
                0 <= i < v@.len() ==> (#[trigger] v@[i])@.len() == res.soluzioni@[i].vehicles@.len()
            &&& forall|i: int, j: int|
                0 <= i < v@.len() && 0 <= j < v@[i]@.len() ==> reads_as(
                    res.soluzioni@[i].vehicles@[j],
                    #[trigger] v@[i]@[j],
                )
        },
{
    let mut out: Vec<Vec<RawLeg>> = Vec::new();
    let mut i: usize = 0;
    while i < res.soluzioni.len()
        invariant
            i <= res.soluzioni@.len(),
            out@.len() == i,
            forall|a: int, b: int|
                0 <= a < i && 0 <= b < res.soluzioni@[a].vehicles@.len() ==> leg_ok(
                    #[trigger] res.soluzioni@[a].vehicles@[b],
                ),
            forall|a: int| 0 <= a < i ==> (#[trigger] out@[a])@.len() == res.soluzioni@[a].vehicles@.len(),
            forall|a: int, b: int|
                0 <= a < i && 0 <= b < out@[a]@.len() ==> reads_as(
                    res.soluzioni@[a].vehicles@[b],
                    #[trigger] out@[a]@[b],
                ),
        decreases res.soluzioni@.len() - i,
    {
        let solution: &VTTrainSolution = &res.soluzioni[i];
        let mut legs: Vec<RawLeg> = Vec::new();
        let mut j: usize = 0;
        while j < solution.vehicles.len()
            invariant
                i < res.soluzioni@.len(),
                *solution == res.soluzioni@[i as int],
                out@.len() == i,
                forall|a: int, b: int|
                    0 <= a < i && 0 <= b < res.soluzioni@[a].vehicles@.len() ==> leg_ok(
                        #[trigger] res.soluzioni@[a].vehicles@[b],
                    ),
                forall|a: int|
                    0 <= a < i ==> (#[trigger] out@[a])@.len() == res.soluzioni@[a].vehicles@.len(),
                forall|a: int, b: int|
                    0 <= a < i && 0 <= b < out@[a]@.len() ==> reads_as(
                        res.soluzioni@[a].vehicles@[b],
                        #[trigger] out@[a]@[b],
                    ),
                j <= solution.vehicles@.len(),
                legs@.len() == j,
                forall|b: int| 0 <= b < j ==> leg_ok(#[trigger] solution.vehicles@[b]),
                forall|b: int| 0 <= b < j ==> reads_as(solution.vehicles@[b], #[trigger] legs@[b]),
            decreases solution.vehicles@.len() - j,
        {
            match read_leg(&solution.vehicles[j]) {
                Ok(l) => legs.push(l),
                Err(e) => {
                    assert(res.soluzioni@[i as int].vehicles@[j as int] == solution.vehicles@[j as int]);
                    return Err(e);
                },
            }
            j = j + 1;
        }
        out.push(legs);
        i = i + 1;
    }
    Ok(out)
}

} // verus!
