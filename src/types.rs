//! The values that a journey search hands back: train identities,
//! stations and trip legs.

use vstd::prelude::*;
use vstd::string::StringExecFns;

use crate::text::{chars_of, decimal_of, decimal_text, parse_unsigned, unsigned_value};

verus! {

/// Train type and number.
#[derive(Debug)]
pub enum TrainNumber {
    Regionale { number: u32 },
    RegionaleVeloce { number: u32 },
    InterCity { number: u32 },
    FrecciaRossa { number: u32 },
    FrecciaArgento { number: u32 },
    FrecciaBianca { number: u32 },
    InterCityNotte { number: u32 },
    EuroNight { number: u32 },
    EuroCity { number: u32 },
    Bus { number: u32 },
    /// A train whose category is not in the known table: `name` is the
    /// category text as the provider gave it.
    Unknown { number: u32, name: String },
}

} // verus!

verus! {

impl TrainNumber {
    /// The train number, whatever the category.
    pub open spec fn spec_number(&self) -> u32 {
        match self {
            TrainNumber::Regionale { number } => *number,
            TrainNumber::RegionaleVeloce { number } => *number,
            TrainNumber::InterCity { number } => *number,
            TrainNumber::FrecciaRossa { number } => *number,
            TrainNumber::FrecciaArgento { number } => *number,
            TrainNumber::FrecciaBianca { number } => *number,
            TrainNumber::InterCityNotte { number } => *number,
            TrainNumber::EuroNight { number } => *number,
            TrainNumber::EuroCity { number } => *number,
            TrainNumber::Bus { number } => *number,
            TrainNumber::Unknown { number, .. } => *number,
        }
    }

    /// The train number, whatever the category.
    #[verifier::when_used_as_spec(spec_number)]
    pub fn number(&self) -> (r: u32)
        ensures
            r == self.spec_number(),
    {
        match self {
            TrainNumber::Regionale { number } => *number,
            TrainNumber::RegionaleVeloce { number } => *number,
            TrainNumber::InterCity { number } => *number,
            TrainNumber::FrecciaRossa { number } => *number,
            TrainNumber::FrecciaArgento { number } => *number,
            TrainNumber::FrecciaBianca { number } => *number,
            TrainNumber::InterCityNotte { number } => *number,
            TrainNumber::EuroNight { number } => *number,
            TrainNumber::EuroCity { number } => *number,
            TrainNumber::Bus { number } => *number,
            TrainNumber::Unknown { number, .. } => *number,
        }
    }
}

impl TrainNumber {
    /// The code that a train of this category is written with.
    pub open spec fn code(&self) -> Seq<char> {
        match self {
            TrainNumber::Regionale { .. } => "R"@,
            TrainNumber::RegionaleVeloce { .. } => "RV"@,
            TrainNumber::InterCity { .. } => "IC"@,
            TrainNumber::FrecciaRossa { .. } => "ES*FR"@,
            TrainNumber::FrecciaArgento { .. } => "ES*FA"@,
            TrainNumber::FrecciaBianca { .. } => "FB"@,
            TrainNumber::InterCityNotte { .. } => "ICN"@,
            TrainNumber::EuroNight { .. } => "EN"@,
            TrainNumber::EuroCity { .. } => "EC"@,
            TrainNumber::Bus { .. } => "BUS"@,
            TrainNumber::Unknown { .. } => "?"@,
        }
    }

    /// The train as it is usually written: its category code, then its
    /// number (`EC2019`).
    pub fn to_string(&self) -> (r: String)
        ensures
            r@ == self.code() + decimal_text(self.spec_number() as nat),
    {
        let code: &str = match self {
            TrainNumber::Regionale { .. } => "R",
            TrainNumber::RegionaleVeloce { .. } => "RV",
            TrainNumber::InterCity { .. } => "IC",
            TrainNumber::FrecciaRossa { .. } => "ES*FR",
            TrainNumber::FrecciaArgento { .. } => "ES*FA",
            TrainNumber::FrecciaBianca { .. } => "FB",
            TrainNumber::InterCityNotte { .. } => "ICN",
            TrainNumber::EuroNight { .. } => "EN",
            TrainNumber::EuroCity { .. } => "EC",
            TrainNumber::Bus { .. } => "BUS",
            TrainNumber::Unknown { .. } => "?",
        };
        let mut out: String = code.to_owned();
        let digits: String = decimal_of(self.number());
        out.append(digits.as_str());
        out
    }
}

impl Clone for TrainNumber {
    fn clone(&self) -> (r: Self)
        ensures
            r == *self,
    {
        match self {
            TrainNumber::Regionale { number } => TrainNumber::Regionale { number: *number },
            TrainNumber::RegionaleVeloce { number } => TrainNumber::RegionaleVeloce { number: *number },
            TrainNumber::InterCity { number } => TrainNumber::InterCity { number: *number },
            TrainNumber::FrecciaRossa { number } => TrainNumber::FrecciaRossa { number: *number },
            TrainNumber::FrecciaArgento { number } => TrainNumber::FrecciaArgento { number: *number },
            TrainNumber::FrecciaBianca { number } => TrainNumber::FrecciaBianca { number: *number },
            TrainNumber::InterCityNotte { number } => TrainNumber::InterCityNotte { number: *number },
            TrainNumber::EuroNight { number } => TrainNumber::EuroNight { number: *number },
            TrainNumber::EuroCity { number } => TrainNumber::EuroCity { number: *number },
            TrainNumber::Bus { number } => TrainNumber::Bus { number: *number },
            TrainNumber::Unknown { number, name } => TrainNumber::Unknown {
                number: *number,
                name: name.clone(),
            },
        }
    }
}

/// What the classifier makes of a category code and a train number: the
/// known codes of the table, each with its category; any other code gives
/// the unknown category carrying the code unchanged.
pub open spec fn classifies(code: Seq<char>, number: u32, t: TrainNumber) -> bool {
    if code == "RV"@ {
        t == TrainNumber::RegionaleVeloce { number }
    } else if code == "Regionale"@ || code == "REG"@ {
        t == TrainNumber::Regionale { number }
    } else if code == "Frecciarossa"@ || code == "FR"@ {
        t == TrainNumber::FrecciaRossa { number }
    } else if code == "Frecciaargento"@ || code == "FA"@ {
        t == TrainNumber::FrecciaArgento { number }
    } else if code == "IC"@ {
        t == TrainNumber::InterCity { number }
    } else if code == "Frecciabianca"@ || code == "FB"@ {
        t == TrainNumber::FrecciaBianca { number }
    } else if code == "ICN"@ {
        t == TrainNumber::InterCityNotte { number }
    } else if code == "EN"@ {
        t == TrainNumber::EuroNight { number }
    } else if code == "EC"@ || code == "ECB"@ {
        t == TrainNumber::EuroCity { number }
    } else if code == "Autobus"@ || code == "BUS"@ {
        t == TrainNumber::Bus { number }
    } else {
        &&& t is Unknown
        &&& t->Unknown_number == number
        &&& t->Unknown_name@ == code
    }
}

/// A station of the registry.
#[derive(Debug)]
pub struct TrainStation {
    /// Short code of the station, unique in the registry.
    pub id: String,
    /// Region code.
    pub region_id: u8,
    /// Latitude and longitude, in millionths of a degree.
    pub position: (i32, i32),
    /// The names the station goes by; the first is its display name.
    pub aliases: Vec<String>,
    /// Station code used by the primary provider.
    pub vt_id: Option<String>,
    /// Station name used by the secondary provider.
    pub lefrecce_name: Option<String>,
}

/// The text left when every occurrence of `c` is taken out of `s`.
pub open spec fn without_char(s: Seq<char>, c: char) -> Seq<char>
    decreases s.len(),
{
    if s.len() == 0 {
        s
    } else {
        let rest = without_char(s.drop_last(), c);
        if s.last() == c {
            rest
        } else {
            rest.push(s.last())
        }
    }
}

/// The number in a primary provider's station code: the code without its
/// `S` letters, read as a decimal number of at most 16 bits.
pub open spec fn short_code(code: Seq<char>) -> Option<int> {
    unsigned_value(without_char(code, 'S'), u16::MAX as int)
}

impl TrainStation {
    /// Every station has a display name.
    pub open spec fn wf(&self) -> bool {
        self.aliases@.len() > 0
    }

    /// Both stations hold the same values.
    pub open spec fn same_as(&self, o: &TrainStation) -> bool {
        &&& self.id == o.id
        &&& self.region_id == o.region_id
        &&& self.position == o.position
        &&& self.aliases@ == o.aliases@
        &&& self.vt_id == o.vt_id
        &&& self.lefrecce_name == o.lefrecce_name
    }

    pub open spec fn spec_name(&self) -> Seq<char> {
        self.aliases@[0]@
    }

    /// The station's display name: its first alias.
    pub fn get_name(&self) -> (r: &str)
        requires
            self.wf(),
        ensures
            r@ == self.spec_name(),
    {
        self.aliases[0].as_str()
    }

    /// The short form of the primary provider's code: the code without its
    /// `S` letters, read as a number and written back without leading
    /// zeros. `None` where there is no code or what is left is no number
    /// of at most five digits that fits in 16 bits.
    pub fn short_id(&self) -> (r: Option<String>)
        ensures
            r is Some <==> (self.vt_id is Some && short_code(self.vt_id->Some_0@) is Some),
            r is Some ==> r->Some_0@ == decimal_text(short_code(self.vt_id->Some_0@)->Some_0 as nat),
    {
        match &self.vt_id {
            None => None,
            Some(code) => {
                let all: Vec<char> = chars_of(code.as_str());
                let mut kept: Vec<char> = Vec::new();
                let mut i: usize = 0;
                while i < all.len()
                    invariant
                        i <= all@.len(),
                        all@ == code@,
                        kept@ == without_char(all@.subrange(0, i as int), 'S'),
                    decreases all@.len() - i,
                {
                    let ghost prefix = all@.subrange(0, i as int + 1);
                    assert(prefix.drop_last() =~= all@.subrange(0, i as int));
                    if all[i] != 'S' {
                        kept.push(all[i]);
                    }
                    i = i + 1;
                }
                assert(all@.subrange(0, all@.len() as int) =~= all@);
                match parse_unsigned(&kept, 65535) {
                    Some(v) => Some(decimal_of(v)),
                    None => None,
                }
            },
        }
    }
}

impl Clone for TrainStation {
    fn clone(&self) -> (r: Self)
        ensures
            r.same_as(self),
    {
        let aliases: Vec<String> = self.aliases.clone();
        assert(aliases@ =~= self.aliases@);
        TrainStation {
            id: self.id.clone(),
            region_id: self.region_id,
            position: self.position,
            aliases,
            vt_id: self.vt_id.clone(),
            lefrecce_name: self.lefrecce_name.clone(),
        }
    }
}

/// A stop of a train's run. Times are seconds since the epoch.
#[derive(Debug)]
pub struct TrainTripStop {
    pub station: TrainStation,
    pub platform: String,
    pub arrival: Option<i64>,
    pub departure: Option<i64>,
    pub expected_arrival: Option<i64>,
    pub expected_departure: Option<i64>,
}

/// A train's run between two stations, with its stops.
#[derive(Debug)]
pub struct DetailedTrainTrip {
    pub from: TrainStation,
    pub to: TrainStation,
    pub train_number: TrainNumber,
    pub stops: Vec<TrainTripStop>,
}

/// One train ride between two stations, with its departure and arrival
/// times in seconds on the local wall clock.
#[derive(Debug)]
pub struct TrainTrip {
    pub train_number: TrainNumber,
    /// Station and time of arrival.
    pub arrival: (TrainStation, i64),
    /// Station and time of departure.
    pub departure: (TrainStation, i64),
}

impl TrainTrip {
    /// Both trips hold the same values.
    pub open spec fn same_as(&self, o: &TrainTrip) -> bool {
        &&& self.train_number == o.train_number
        &&& self.arrival.0.same_as(&o.arrival.0)
        &&& self.arrival.1 == o.arrival.1
        &&& self.departure.0.same_as(&o.departure.0)
        &&& self.departure.1 == o.departure.1
    }

    /// How long the trip takes, in seconds.
    pub fn get_duration(&self) -> (r: i64)
        requires
            i64::MIN <= self.arrival.1 - self.departure.1 <= i64::MAX,
        ensures
            r == self.arrival.1 - self.departure.1,
    {
        self.arrival.1 - self.departure.1
    }
}

impl TrainTrip {
    /// Which of the secondary provider's journeys, given by departure and
    /// arrival time on the same clock as the trip's, is this trip: the
    /// first with both times equal to the trip's.
    pub fn fare_index(&self, journeys: &Vec<(i64, i64)>) -> (r: Option<usize>)
        ensures
            match r {
                Some(i) => i < journeys@.len() && journeys@[i as int] == (self.departure.1, self.arrival.1)
                    && forall|j: int| 0 <= j < i ==> #[trigger] journeys@[j] != (self.departure.1, self.arrival.1),
                None => forall|j: int|
                    0 <= j < journeys@.len() ==> #[trigger] journeys@[j] != (self.departure.1, self.arrival.1),
            },
    {
        let mut i: usize = 0;
        while i < journeys.len()
            invariant
                i <= journeys@.len(),
                forall|j: int| 0 <= j < i ==> #[trigger] journeys@[j] != (self.departure.1, self.arrival.1),
            decreases journeys@.len() - i,
        {
            let (d, a) = journeys[i];
            if d == self.departure.1 && a == self.arrival.1 {
                return Some(i);
            }
            i = i + 1;
        }
        None
    }
}

impl Clone for TrainTrip {
    fn clone(&self) -> (r: Self)
        ensures
            r.same_as(self),
    {
        TrainTrip {
            train_number: self.train_number.clone(),
            arrival: (self.arrival.0.clone(), self.arrival.1),
            departure: (self.departure.0.clone(), self.departure.1),
        }
    }
}

} // verus!
