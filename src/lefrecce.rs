//! The secondary provider: when it can be asked, and its journeys read
//! into trips between registry stations.

#![allow(non_snake_case)]

use vstd::prelude::*;

use crate::registry::Trenitalia;
use crate::stitch::{pos, resolves};
use crate::text::{chars_of, string_of_chars, text_eq};
use crate::time::{parse_secondary_time, secondary_format, wall_clock_seconds};
use crate::types::{classifies, TrainStation, TrainTrip};
use crate::utils::{match_train_type, parse_train_number, train_number_value};
use crate::viaggiatreno::{text_or_empty, SearchError};

verus! {

/// A train of a journey option.
#[derive(Debug)]
pub struct LFTrain {
    pub trainidentifier: String,
    pub trainacronym: Option<String>,
    pub traintype: char,
    pub pricetype: char,
}

/// A credential that a fare may ask for.
#[derive(Debug)]
pub struct LFCredential {
    pub credentialid: u16,
    pub format: u8,
    pub name: String,
    pub description: String,
    pub possiblevalues: String,
    pub typeCredential: char,
}

/// One train ride of a detailed journey.
#[derive(Debug)]
pub struct LFSegment {
    pub trainidentifier: String,
    pub trainacronym: Option<String>,
    pub departurestation: String,
    pub departuretime: String,
    pub arrivalstation: String,
    pub arrivaltime: String,
    pub nodexmlid: String,
    pub showseatmap: bool,
}

/// Whether the secondary provider can be asked for journeys between two
/// stations: they differ, and both have a name there.
pub open spec fn can_ask(from: TrainStation, to: TrainStation) -> bool {
    from.id@ != to.id@ && from.lefrecce_name is Some && to.lefrecce_name is Some
}

/// Whether to ask the secondary provider for journeys between two
/// stations; where not, the answer is taken to be empty.
pub fn secondary_allowed(from: &TrainStation, to: &TrainStation) -> (r: bool)
    ensures
        r == can_ask(*from, *to),
{
    !text_eq(from.id.as_str(), to.id.as_str()) && from.lefrecce_name.is_some()
        && to.lefrecce_name.is_some()
}

/// The last space-separated word of a text.
pub open spec fn last_word(s: Seq<char>) -> Seq<char>
    decreases s.len(),
{
    if s.len() == 0 {
        s
    } else if s.last() == ' ' {
        Seq::empty()
    } else {
        last_word(s.drop_last()).push(s.last())
    }
}

fn last_word_of(s: &str) -> (r: String)
    ensures
        r@ == last_word(s@),
{
    let chars: Vec<char> = chars_of(s);
    let mut start: usize = chars.len();
    assert(s@.subrange(0, start as int) =~= s@);
    assert(s@.subrange(start as int, s@.len() as int) =~= Seq::<char>::empty());
    assert(last_word(s@) =~= last_word(s@.subrange(0, start as int)) + s@.subrange(
        start as int,
        s@.len() as int,
    ));
    while start > 0 && chars[start - 1] != ' '
        invariant
            start <= chars@.len(),
            chars@ == s@,
            last_word(s@) == last_word(s@.subrange(0, start as int)) + s@.subrange(
                start as int,
                s@.len() as int,
            ),
        decreases start,
    {
        let ghost pre = s@.subrange(0, start as int);
        assert(pre.drop_last() =~= s@.subrange(0, start - 1));
        assert(s@.subrange(start - 1, s@.len() as int) =~= seq![pre.last()] + s@.subrange(
            start as int,
            s@.len() as int,
        ));
        start = start - 1;
    }
    let ghost pre = s@.subrange(0, start as int);
    if start > 0 {
        assert(pre.last() == ' ');
    } else {
        assert(pre.len() == 0);
    }
    assert(last_word(pre) =~= Seq::<char>::empty());
    let mut word: Vec<char> = Vec::new();
    let mut i: usize = start;
    while i < chars.len()
        invariant
            start <= i <= chars@.len(),
            chars@ == s@,
            word@ == s@.subrange(start as int, i as int),
        decreases chars@.len() - i,
    {
        word.push(chars[i]);
        assert(word@ =~= s@.subrange(start as int, i + 1));
        i = i + 1;
    }
    assert(last_word(s@) =~= word@);
    string_of_chars(&word)
}

/// The segment stands for no train ride of its own.
pub open spec fn is_same_marker(seg: LFSegment) -> bool {
    seg.trainidentifier@ == "Same"@
}

/// The segment's timestamps can be read.
pub open spec fn segment_times_ok(seg: LFSegment) -> bool {
    &&& wall_clock_seconds(seg.departuretime@, secondary_format()) is Some
    &&& wall_clock_seconds(seg.arrivaltime@, secondary_format()) is Some
}

/// The segment's timestamps and train number can be read.
pub open spec fn segment_ok(seg: LFSegment) -> bool {
    segment_times_ok(seg) && train_number_value(last_word(seg.trainidentifier@)) is Some
}

/// The segments that stand for train rides, in order.
pub open spec fn rides(segs: Seq<LFSegment>) -> Seq<LFSegment>
    decreases segs.len(),
{
    if segs.len() == 0 {
        segs
    } else if is_same_marker(segs.last()) {
        rides(segs.drop_last())
    } else {
        rides(segs.drop_last()).push(segs.last())
    }
}

/// `trip` is what reading `seg` against the registry gives.
pub open spec fn ride_reads_as(
    st: Seq<TrainStation>,
    t: crate::utils::Threshold,
    seg: LFSegment,
    trip: TrainTrip,
) -> bool {
    &&& trip.departure.0.same_as(&st[pos(st, t, seg.departurestation@)])
    &&& trip.arrival.0.same_as(&st[pos(st, t, seg.arrivalstation@)])
    &&& wall_clock_seconds(seg.departuretime@, secondary_format()) == Some(trip.departure.1 as int)
    &&& wall_clock_seconds(seg.arrivaltime@, secondary_format()) == Some(trip.arrival.1 as int)
    &&& train_number_value(last_word(seg.trainidentifier@)) matches Some(n) && classifies(
        text_or_empty(seg.trainacronym),
        n as u32,
        trip.train_number,
    )
}

impl Trenitalia {
    /// Reads one detailed journey of the secondary provider, given all its
    /// segments in order, into trips between registry stations. Segments
    /// marked `Same` are skipped. The answer as a whole is refused where a
    /// timestamp or train number cannot be read; the journey is dropped
    /// (`None`) where a station name leads nowhere in the registry.
    pub fn read_journey(&self, segments: &Vec<LFSegment>) -> (r: Result<
        Option<Vec<TrainTrip>>,
        SearchError,
    >)
        requires
            self.wf(),
        ensures
            r is Err <==> exists|i: int|
                0 <= i < rides(segments@).len() && !segment_ok(#[trigger] rides(segments@)[i]),
            r matches Err(SearchError::MalformedTime) ==> exists|i: int|
                0 <= i < rides(segments@).len() && !segment_times_ok(
                    #[trigger] rides(segments@)[i],
                ),
            r matches Err(SearchError::MalformedTrainNumber) ==> exists|i: int|
                0 <= i < rides(segments@).len() && segment_times_ok(#[trigger] rides(segments@)[i])
                    && !segment_ok(rides(segments@)[i]),
            r matches Ok(None) ==> exists|i: int|
                0 <= i < rides(segments@).len() && !(resolves(
                    self.stations_view(),
                    self.threshold_view(),
                    (#[trigger] rides(segments@)[i]).departurestation@,
                ) && resolves(
                    self.stations_view(),
                    self.threshold_view(),
                    rides(segments@)[i].arrivalstation@,
                )),
            r matches Ok(Some(trips)) ==> {
                &&& forall|i: int|
                    0 <= i < rides(segments@).len() ==> resolves(
                        self.stations_view(),
                        self.threshold_view(),
                        (#[trigger] rides(segments@)[i]).departurestation@,
                    ) && resolves(
                        self.stations_view(),
                        self.threshold_view(),
                        rides(segments@)[i].arrivalstation@,
                    )
                &&& trips@.len() == rides(segments@).len()
                &&& forall|i: int|
                    0 <= i < trips@.len() ==> ride_reads_as(
                        self.stations_view(),
                        self.threshold_view(),
                        rides(segments@)[i],
                        #[trigger] trips@[i],
                    )
            },
    {
        let ghost st = self.stations_view();
        let ghost t = self.threshold_view();
        let mut trips: Vec<TrainTrip> = Vec::new();
        let mut dropped: bool = false;
        let mut i: usize = 0;
        while i < segments.len()
            invariant
                self.wf(),
                st == self.stations_view(),
                t == self.threshold_view(),
                i <= segments@.len(),
                forall|j: int|
                    0 <= j < rides(segments@.subrange(0, i as int)).len() ==> segment_ok(
                        #[trigger] rides(segments@.subrange(0, i as int))[j],
                    ),
                dropped ==> exists|j: int|
                    0 <= j < rides(segments@.subrange(0, i as int)).len() && !(resolves(
                        st,
                        t,
                        (#[trigger] rides(segments@.subrange(0, i as int))[j]).departurestation@,
                    ) && resolves(
                        st,
                        t,
                        rides(segments@.subrange(0, i as int))[j].arrivalstation@,
                    )),
                !dropped ==> trips@.len() == rides(segments@.subrange(0, i as int)).len(),
                !dropped ==> forall|j: int|
                    0 <= j < rides(segments@.subrange(0, i as int)).len() ==> resolves(
                        st,
                        t,
                        (#[trigger] rides(segments@.subrange(0, i as int))[j]).departurestation@,
                    ) && resolves(st, t, rides(segments@.subrange(0, i as int))[j].arrivalstation@),
                !dropped ==> forall|j: int|
                    0 <= j < trips@.len() ==> ride_reads_as(
                        st,
                        t,
                        rides(segments@.subrange(0, i as int))[j],
                        #[trigger] trips@[j],
                    ),
            decreases segments@.len() - i,
        {
            let ghost done = rides(segments@.subrange(0, i as int));
            let ghost was_dropped = dropped;
            let ghost prefix = segments@.subrange(0, i + 1);
            assert(prefix.drop_last() =~= segments@.subrange(0, i as int));
            assert(prefix.last() == segments@[i as int]);
            let seg: &LFSegment = &segments[i];
            if text_eq(seg.trainidentifier.as_str(), "Same") {
                assert(rides(prefix) == done);
            } else {
                assert(rides(prefix) == done.push(*seg));
                let departure: i64 = match parse_secondary_time(seg.departuretime.as_str()) {
                    Some(x) => x,
                    None => {
                        proof {
                            lemma_rides_prefix(segments@, i + 1);
                            assert(rides(segments@)[done.len() as int] == *seg);
                        }
                        return Err(SearchError::MalformedTime);
                    },
                };
                let arrival: i64 = match parse_secondary_time(seg.arrivaltime.as_str()) {
                    Some(x) => x,
                    None => {
                        proof {
                            lemma_rides_prefix(segments@, i + 1);
                            assert(rides(segments@)[done.len() as int] == *seg);
                        }
                        return Err(SearchError::MalformedTime);
                    },
                };
                let word: String = last_word_of(seg.trainidentifier.as_str());
                let number: u32 = match parse_train_number(word.as_str()) {
                    Some(n) => n,
                    None => {
                        proof {
                            lemma_rides_prefix(segments@, i + 1);
                            assert(rides(segments@)[done.len() as int] == *seg);
                        }
                        return Err(SearchError::MalformedTrainNumber);
                    },
                };
                let a: Option<usize> = self.lookup(seg.departurestation.as_str());
                let b: Option<usize> = self.lookup(seg.arrivalstation.as_str());
                if a.is_none() || b.is_none() {
                    if !dropped {
                        assert(rides(prefix)[done.len() as int] == *seg);
                    }
                    dropped = true;
                } else if !dropped {
                    let acronym: String = match &seg.trainacronym {
                        Some(x) => x.clone(),
                        None => String::new(),
                    };
                    let from: usize = a.unwrap();
                    let to: usize = b.unwrap();
                    trips.push(
                        TrainTrip {
                            train_number: match_train_type(acronym.as_str(), number),
                            departure: (self.station(from).clone(), departure),
                            arrival: (self.station(to).clone(), arrival),
                        },
                    );
                }
            }
            proof {
                let now = rides(prefix);
                assert forall|j: int| 0 <= j < now.len() implies segment_ok(#[trigger] now[j]) by {
                    if j < done.len() {
                        assert(now[j] == done[j]);
                    }
                }
                if !dropped {
                    assert forall|j: int| 0 <= j < now.len() implies resolves(
                        st,
                        t,
                        (#[trigger] now[j]).departurestation@,
                    ) && resolves(st, t, now[j].arrivalstation@) by {
                        if j < done.len() {
                            assert(now[j] == done[j]);
                        }
                    }
                }
                if was_dropped {
                    let j = choose|j: int|
                        0 <= j < done.len() && !(resolves(
                            st,
                            t,
                            (#[trigger] done[j]).departurestation@,
                        ) && resolves(st, t, done[j].arrivalstation@));
                    assert(now[j] == done[j]);
                }
            }
            i = i + 1;
        }
        assert(segments@.subrange(0, segments@.len() as int) =~= segments@);
        if dropped {
            Ok(None)
        } else {
            Ok(Some(trips))
        }
    }
}

/// The rides of a prefix of the segments are a prefix of their rides.
proof fn lemma_rides_prefix(segs: Seq<LFSegment>, n: int)
    requires
        0 <= n <= segs.len(),
    ensures
        rides(segs.subrange(0, n)).len() <= rides(segs).len(),
        forall|j: int|
            0 <= j < rides(segs.subrange(0, n)).len() ==> #[trigger] rides(segs.subrange(0, n))[j]
                == rides(segs)[j],
    decreases segs.len() - n,
{
    if n < segs.len() {
        lemma_rides_prefix(segs, n + 1);
        let p = segs.subrange(0, n + 1);
        assert(p.drop_last() =~= segs.subrange(0, n));
        assert forall|j: int| 0 <= j < rides(segs.subrange(0, n)).len() implies #[trigger] rides(
            segs.subrange(0, n),
        )[j] == rides(p)[j] by {}
    } else {
        assert(segs.subrange(0, n) =~= segs);
    }
}

} // verus!
