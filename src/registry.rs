//! The station registry: the canonical stations and the lookups on them.

use vstd::prelude::*;

use crate::text::{text_eq, upper_of, uppercase};
use crate::types::TrainStation;
use crate::utils::{lemma_exceeds_order, match_strings, similarity_of, Similarity, Threshold};

verus! {

/// The keys under which a station is found by exact lookup: the upper-case
/// forms of its aliases, then that of its secondary provider name.
pub open spec fn station_keys(s: TrainStation) -> Seq<Seq<char>> {
    let a = s.aliases@.map_values(|x: String| upper_of(x@));
    match s.lefrecce_name {
        Some(n) => a.push(upper_of(n@)),
        None => a,
    }
}

/// Each key of each station, with the station's position, in registry order.
pub open spec fn index_entries(st: Seq<TrainStation>) -> Seq<(Seq<char>, int)>
    decreases st.len(),
{
    if st.len() == 0 {
        Seq::empty()
    } else {
        let n = st.len() - 1;
        index_entries(st.drop_last()) + station_keys(st.last()).map_values(
            |k: Seq<char>| (k, n),
        )
    }
}

/// The station that a key leads to: the last in the registry that has it.
pub open spec fn key_owner(st: Seq<TrainStation>, k: Seq<char>) -> Option<int>
    decreases st.len(),
{
    if st.len() == 0 {
        None
    } else if station_keys(st.last()).contains(k) {
        Some(st.len() - 1)
    } else {
        key_owner(st.drop_last(), k)
    }
}

/// Each alias of each station, after the station's position, in registry order.
pub open spec fn alias_entries(st: Seq<TrainStation>) -> Seq<(int, Seq<char>)>
    decreases st.len(),
{
    if st.len() == 0 {
        Seq::empty()
    } else {
        let n = st.len() - 1;
        alias_entries(st.drop_last()) + alias_tags(st.last(), n)
    }
}

/// The aliases of a station, each after the position `n`.
pub open spec fn alias_tags(s: TrainStation, n: int) -> Seq<(int, Seq<char>)> {
    s.aliases@.map_values(|a: String| (n, a@))
}

pub open spec fn table_view(v: Seq<(usize, String)>) -> Seq<(int, Seq<char>)> {
    v.map_values(|e: (usize, String)| (e.0 as int, e.1@))
}

pub open spec fn entries_view(v: Seq<(String, usize)>) -> Seq<(Seq<char>, int)> {
    v.map_values(|e: (String, usize)| (e.0@, e.1 as int))
}

/// The score of alias entry `p` against `name`.
pub open spec fn entry_score(st: Seq<TrainStation>, name: Seq<char>, p: int) -> Similarity {
    similarity_of(alias_entries(st)[p].1, name)
}

/// Entry `p` has the highest score against `name`, and is the first with it.
pub open spec fn is_best_entry(st: Seq<TrainStation>, name: Seq<char>, p: int) -> bool {
    &&& 0 <= p < alias_entries(st).len()
    &&& forall|q: int|
        0 <= q < alias_entries(st).len() ==> !(#[trigger] entry_score(st, name, q)).spec_exceeds(
            &entry_score(st, name, p),
        )
    &&& forall|q: int|
        0 <= q < p ==> entry_score(st, name, p).spec_exceeds(&#[trigger] entry_score(st, name, q))
}

/// The station that fuzzy lookup of `name` settles on: that of the first
/// best-scoring alias, where its score reaches `t`.
pub open spec fn fuzzy_owner(st: Seq<TrainStation>, name: Seq<char>, t: Threshold) -> Option<int> {
    if exists|p: int| is_best_entry(st, name, p) && entry_score(st, name, p).spec_reaches(t) {
        let p = choose|p: int| is_best_entry(st, name, p) && entry_score(st, name, p).spec_reaches(t);
        Some(alias_entries(st)[p].0)
    } else {
        None
    }
}

/// What looking up `name` gives: the station that its upper-case form is a
/// key of, else the station that fuzzy lookup settles on.
pub open spec fn lookup_result(st: Seq<TrainStation>, name: Seq<char>, t: Threshold) -> Option<int> {
    match key_owner(st, upper_of(name)) {
        Some(i) => Some(i),
        None => fuzzy_owner(st, name, t),
    }
}

/// Squared distance of a station from a point.
pub open spec fn sq_dist(s: TrainStation, p: (i32, i32)) -> int {
    let dx = s.position.0 - p.0;
    let dy = s.position.1 - p.1;
    dx * dx + dy * dy
}

/// Station `i` is nearest to `p`, and the first of the nearest.
pub open spec fn is_first_nearest(st: Seq<TrainStation>, p: (i32, i32), i: int) -> bool {
    &&& 0 <= i < st.len()
    &&& forall|j: int| 0 <= j < st.len() ==> sq_dist(st[i], p) <= sq_dist(#[trigger] st[j], p)
    &&& forall|j: int| 0 <= j < i ==> sq_dist(st[i], p) < sq_dist(#[trigger] st[j], p)
}

proof fn lemma_best_entry_unique(st: Seq<TrainStation>, name: Seq<char>, p: int, q: int)
    requires
        is_best_entry(st, name, p),
        is_best_entry(st, name, q),
    ensures
        p == q,
{
    if p < q {
        assert(!entry_score(st, name, q).spec_exceeds(&entry_score(st, name, p)));
    } else if q < p {
        assert(!entry_score(st, name, p).spec_exceeds(&entry_score(st, name, q)));
    }
}

proof fn lemma_table_bounded(st: Seq<TrainStation>)
    ensures
        forall|j: int|
            0 <= j < alias_entries(st).len() ==> 0 <= #[trigger] alias_entries(st)[j].0 < st.len(),
    decreases st.len(),
{
    if st.len() > 0 {
        lemma_table_bounded(st.drop_last());
        let e = alias_entries(st.drop_last());
        assert forall|j: int|
            0 <= j < alias_entries(st).len() implies 0 <= #[trigger] alias_entries(st)[j].0
            < st.len() by {
            if j < e.len() {
                assert(alias_entries(st)[j] == e[j]);
            }
        }
    }
}

proof fn lemma_key_owner_in_range(st: Seq<TrainStation>, k: Seq<char>)
    ensures
        key_owner(st, k) matches Some(i) ==> 0 <= i < st.len(),
    decreases st.len(),
{
    if st.len() > 0 {
        lemma_key_owner_in_range(st.drop_last(), k);
    }
}

/// A name that leads to a station leads to one of the registry.
pub proof fn lemma_lookup_in_range(st: Seq<TrainStation>, name: Seq<char>, t: Threshold)
    ensures
        lookup_result(st, name, t) matches Some(i) ==> 0 <= i < st.len(),
{
    lemma_key_owner_in_range(st, upper_of(name));
    lemma_table_bounded(st);
}

/// Every alias of a station leads back to that station, by exact lookup
/// and so by lookup with fuzzy fallback, wherever no other station has the
/// same upper-case form among its keys.
pub proof fn lemma_alias_lookup(st: Seq<TrainStation>, t: Threshold, i: int, j: int)
    requires
        0 <= i < st.len(),
        0 <= j < st[i].aliases@.len(),
        forall|l: int|
            0 <= l < st.len() && l != i ==> !station_keys(#[trigger] st[l]).contains(
                upper_of(st[i].aliases@[j]@),
            ),
    ensures
        key_owner(st, upper_of(st[i].aliases@[j]@)) == Some(i),
        lookup_result(st, st[i].aliases@[j]@, t) == Some(i),
    decreases st.len(),
{
    let k = upper_of(st[i].aliases@[j]@);
    if i == st.len() - 1 {
        assert(station_keys(st.last())[j] == k);
    } else {
        let rest = st.drop_last();
        assert(rest[i] == st[i]);
        assert forall|l: int|
            0 <= l < rest.len() && l != i implies !station_keys(#[trigger] rest[l]).contains(k) by {
            assert(rest[l] == st[l]);
        }
        lemma_alias_lookup(rest, t, i, j);
        assert(!station_keys(st[st.len() - 1]).contains(k));
    }
}

/// Why a registry could not be built.
#[derive(Clone, Copy, PartialEq, Eq, Structural, Debug)]
pub enum RegistryError {
    /// No station was given.
    Empty,
    /// The station at this position has no name.
    Nameless { position: usize },
}

/// The registry of stations, with an index from every alias and provider
/// name (in upper case) to the station.
pub struct Trenitalia {
    stations: Vec<TrainStation>,
    /// Upper-case key and position of its station, in registry order.
    fast_station_lookup: Vec<(String, usize)>,
    /// Position of the station and alias, in registry order.
    alias_table: Vec<(usize, String)>,
    /// The bound at which two names are taken to name the same station.
    threshold: Threshold,
}

proof fn lemma_entries_bounded(st: Seq<TrainStation>)
    ensures
        forall|j: int|
            0 <= j < index_entries(st).len() ==> 0 <= #[trigger] index_entries(st)[j].1 < st.len(),
    decreases st.len(),
{
    if st.len() > 0 {
        lemma_entries_bounded(st.drop_last());
        let e = index_entries(st.drop_last());
        assert forall|j: int|
            0 <= j < index_entries(st).len() implies 0 <= #[trigger] index_entries(st)[j].1
            < st.len() by {
            if j >= e.len() {
            } else {
                assert(index_entries(st)[j] == e[j]);
            }
        }
    }
}

/// The last index entry with a key names the station the key leads to; a
/// key with no entry leads nowhere.
proof fn lemma_last_entry_is_owner(st: Seq<TrainStation>, k: Seq<char>)
    ensures
        (forall|j: int| 0 <= j < index_entries(st).len() ==> #[trigger] index_entries(st)[j].0 != k)
            ==> key_owner(st, k) is None,
        forall|j: int|
            0 <= j < index_entries(st).len() && #[trigger] index_entries(st)[j].0 == k && (forall|
                l: int,
            |
                j < l < index_entries(st).len() ==> index_entries(st)[l].0 != k)
                ==> key_owner(st, k) == Some(index_entries(st)[j].1),
    decreases st.len(),
{
    if st.len() > 0 {
        let e = index_entries(st.drop_last());
        let keys = station_keys(st.last());
        let tail = keys.map_values(|x: Seq<char>| (x, st.len() - 1));
        let all = index_entries(st);
        assert(all == e + tail);
        lemma_last_entry_is_owner(st.drop_last(), k);
        if keys.contains(k) {
            let m = choose|m: int| 0 <= m < keys.len() && keys[m] == k;
            assert(all[e.len() + m].0 == k);
            assert forall|j: int|
                0 <= j < all.len() && #[trigger] all[j].0 == k && (forall|l: int|
                    j < l < all.len() ==> all[l].0 != k) implies key_owner(st, k) == Some(
                all[j].1,
            ) by {
                if j < e.len() {
                    assert(all[e.len() + m].0 == k);
                }
            }
        } else {
            assert forall|j: int| e.len() <= j < all.len() implies #[trigger] all[j].0 != k by {
                assert(all[j].0 == keys[j - e.len()]);
            }
            assert forall|j: int| 0 <= j < e.len() implies #[trigger] all[j] == e[j] by {}
            assert forall|j: int|
                0 <= j < all.len() && #[trigger] all[j].0 == k && (forall|l: int|
                    j < l < all.len() ==> all[l].0 != k) implies key_owner(st, k) == Some(
                all[j].1,
            ) by {
                assert(all[j] == e[j]);
                assert forall|l: int| j < l < e.len() implies e[l].0 != k by {
                    assert(all[l] == e[l]);
                }
            }
            if forall|j: int| 0 <= j < all.len() ==> #[trigger] all[j].0 != k {
                assert forall|j: int| 0 <= j < e.len() implies #[trigger] e[j].0 != k by {
                    assert(all[j] == e[j]);
                }
            }
        }
    }
}

impl Trenitalia {
    /// The stations, in registry order.
    pub closed spec fn stations_view(&self) -> Seq<TrainStation> {
        self.stations@
    }

    /// The bound at which two names are taken to name the same station.
    pub closed spec fn threshold_view(&self) -> Threshold {
        self.threshold
    }

    /// The registry is never empty, every station has a name, and the
    /// index holds exactly the keys of the stations.
    pub closed spec fn wf(&self) -> bool {
        &&& self.stations@.len() > 0
        &&& forall|i: int| 0 <= i < self.stations@.len() ==> (#[trigger] self.stations@[i]).wf()
        &&& entries_view(self.fast_station_lookup@) == index_entries(self.stations@)
        &&& table_view(self.alias_table@) == alias_entries(self.stations@)
        &&& self.threshold.wf()
    }

    /// Builds the registry over `stations`, with the usual bound of seven
    /// tenths for name matching.
    pub fn new(stations: Vec<TrainStation>) -> (r: Result<Trenitalia, RegistryError>)
        ensures
            match r {
                Ok(t) => {
                    &&& t.wf()
                    &&& t.stations_view() == stations@
                    &&& t.threshold_view() == Threshold { num: 7, den: 10 }
                },
                Err(RegistryError::Empty) => stations@.len() == 0,
                Err(RegistryError::Nameless { position }) => {
                    &&& position < stations@.len()
                    &&& !stations@[position as int].wf()
                    &&& forall|i: int| 0 <= i < position ==> (#[trigger] stations@[i]).wf()
                },
            },
    {
        Self::with_threshold(stations, Threshold::words_equality())
    }

    /// Builds the registry over `stations`, with `threshold` as the bound
    /// for name matching.
    pub fn with_threshold(stations: Vec<TrainStation>, threshold: Threshold) -> (r: Result<
        Trenitalia,
        RegistryError,
    >)
        requires
            threshold.wf(),
        ensures
            match r {
                Ok(t) => {
                    &&& t.wf()
                    &&& t.stations_view() == stations@
                    &&& t.threshold_view() == threshold
                },
                Err(RegistryError::Empty) => stations@.len() == 0,
                Err(RegistryError::Nameless { position }) => {
                    &&& position < stations@.len()
                    &&& !stations@[position as int].wf()
                    &&& forall|i: int| 0 <= i < position ==> (#[trigger] stations@[i]).wf()
                },
            },
    {
        if stations.len() == 0 {
            return Err(RegistryError::Empty);
        }
        let mut lookup: Vec<(String, usize)> = Vec::new();
        let mut table: Vec<(usize, String)> = Vec::new();
        let mut i: usize = 0;
        while i < stations.len()
            invariant
                i <= stations@.len(),
                forall|l: int| 0 <= l < i ==> (#[trigger] stations@[l]).wf(),
                entries_view(lookup@) == index_entries(stations@.subrange(0, i as int)),
                table_view(table@) == alias_entries(stations@.subrange(0, i as int)),
            decreases stations@.len() - i,
        {
            let station: &TrainStation = &stations[i];
            if station.aliases.len() == 0 {
                return Err(RegistryError::Nameless { position: i });
            }
            let ghost before = lookup@;
            let ghost table_before = table@;
            let ghost names = alias_tags(*station, i as int);
            let ghost keys = station_keys(*station);
            let mut j: usize = 0;
            while j < station.aliases.len()
                invariant
                    j <= station.aliases@.len(),
                    i < stations@.len(),
                    *station == stations@[i as int],
                    keys == station_keys(*station),
                    entries_view(lookup@) == entries_view(before) + keys.subrange(0, j as int).map_values(
                        |k: Seq<char>| (k, i as int),
                    ),
                    names == alias_tags(*station, i as int),
                    table_view(table@) == table_view(table_before) + names.subrange(0, j as int),
                decreases station.aliases@.len() - j,
            {
                let ghost prior_table = table@;
                assert(names.len() == station.aliases@.len());
                assert(names[j as int] == (i as int, station.aliases@[j as int]@));
                table.push((i, station.aliases[j].clone()));
                assert(table_view(table@) =~= table_view(prior_table).push(names[j as int]));
                assert(names.subrange(0, j + 1) =~= names.subrange(0, j as int).push(names[j as int]));
                let key: String = uppercase(station.aliases[j].as_str());
                let ghost prior = lookup@;
                let ghost kv = key@;
                lookup.push((key, i));
                assert(keys[j as int] == kv);
                assert(entries_view(lookup@) =~= entries_view(prior).push((kv, i as int)));
                assert(keys.subrange(0, j + 1) =~= keys.subrange(0, j as int).push(kv));
                assert(entries_view(lookup@) =~= entries_view(before) + keys.subrange(
                    0,
                    j + 1,
                ).map_values(|k: Seq<char>| (k, i as int)));
                j = j + 1;
            }
            match &station.lefrecce_name {
                Some(name) => {
                    let key: String = uppercase(name.as_str());
                    let ghost prior = lookup@;
                    let ghost kv = key@;
                    lookup.push((key, i));
                    assert(keys.len() == j + 1);
                    assert(keys[j as int] == kv);
                    assert(entries_view(lookup@) =~= entries_view(prior).push((kv, i as int)));
                    assert(keys.subrange(0, j + 1) =~= keys.subrange(0, j as int).push(kv));
                    assert(entries_view(lookup@) =~= entries_view(before) + keys.subrange(
                        0,
                        keys.len() as int,
                    ).map_values(|k: Seq<char>| (k, i as int)));
                },
                None => {},
            }
            assert(keys.subrange(0, keys.len() as int) =~= keys);
            assert(names.subrange(0, names.len() as int) =~= names);
            assert(table_view(table@) == table_view(table_before) + names);
            assert(stations@.subrange(0, i + 1).drop_last() =~= stations@.subrange(0, i as int));
            assert(stations@.subrange(0, i + 1).last() == stations@[i as int]);
            i = i + 1;
        }
        assert(stations@.subrange(0, stations@.len() as int) =~= stations@);
        Ok(Trenitalia { stations, fast_station_lookup: lookup, alias_table: table, threshold })
    }

    /// Position of the station that `key`, already in upper case, leads to.
    fn find_key(&self, key: &str) -> (r: Option<usize>)
        requires
            self.wf(),
        ensures
            r is Some <==> key_owner(self.stations@, key@) is Some,
            r matches Some(i) ==> i < self.stations@.len() && key_owner(self.stations@, key@)
                == Some(i as int),
    {
        let ghost e = index_entries(self.stations@);
        proof {
            lemma_entries_bounded(self.stations@);
            lemma_last_entry_is_owner(self.stations@, key@);
        }
        let mut j: usize = self.fast_station_lookup.len();
        while j > 0
            invariant
                self.wf(),
                e == index_entries(self.stations@),
                j <= e.len(),
                forall|l: int| j <= l < e.len() ==> #[trigger] e[l].0 != key@,
            decreases j,
        {
            j = j - 1;
            let entry: &(String, usize) = &self.fast_station_lookup[j];
            assert(entries_view(self.fast_station_lookup@)[j as int] == (entry.0@, entry.1 as int));
            assert(entries_view(self.fast_station_lookup@)[j as int] == e[j as int]);
            if text_eq(entry.0.as_str(), key) {
                proof {
                    lemma_entries_bounded(self.stations@);
                    lemma_last_entry_is_owner(self.stations@, key@);
                }
                assert(e[j as int].0 == key@);
                assert(key_owner(self.stations@, key@) == Some(e[j as int].1));
                return Some(entry.1);
            }
        }
        None
    }

    /// The station that `name` is an alias or secondary provider name of,
    /// ignoring case: the last such in the registry.
    pub fn lookup_exact(&self, name: &str) -> (r: Option<&TrainStation>)
        requires
            self.wf(),
        ensures
            match key_owner(self.stations_view(), upper_of(name@)) {
                Some(i) => r is Some && *r->Some_0 == self.stations_view()[i],
                None => r is None,
            },
    {
        let key: String = uppercase(name);
        assert(self.stations_view() == self.stations@);
        match self.find_key(key.as_str()) {
            Some(i) => Some(&self.stations[i]),
            None => None,
        }
    }

    /// Looks a station up by name: exactly first, ignoring case; failing
    /// that, the station with the alias most similar to `name`, the first
    /// such in registry order, where its similarity reaches the registry's
    /// bound. An alias that agrees with `name` but for case ends the scan.
    pub fn find_train_station(&self, name: &str) -> (r: Option<&TrainStation>)
        requires
            self.wf(),
        ensures
            match lookup_result(self.stations_view(), name@, self.threshold_view()) {
                Some(i) => r is Some && *r->Some_0 == self.stations_view()[i],
                None => r is None,
            },
    {
        match self.lookup(name) {
            Some(i) => Some(&self.stations[i]),
            None => None,
        }
    }

    /// Number of stations in the registry.
    pub fn len(&self) -> (r: usize)
        ensures
            r == self.stations_view().len(),
    {
        self.stations.len()
    }

    /// The station at position `i`.
    pub fn station(&self, i: usize) -> (r: &TrainStation)
        requires
            self.wf(),
            i < self.stations_view().len(),
        ensures
            *r == self.stations_view()[i as int],
            r.wf(),
    {
        &self.stations[i]
    }

    /// The bound at which two names are taken to name the same station.
    pub fn threshold(&self) -> (r: Threshold)
        requires
            self.wf(),
        ensures
            r == self.threshold_view(),
            r.wf(),
    {
        self.threshold
    }

    /// Position of the station that `name` leads to, as
    /// `find_train_station` looks it up.
    pub fn lookup(&self, name: &str) -> (r: Option<usize>)
        requires
            self.wf(),
        ensures
            r is Some <==> lookup_result(self.stations_view(), name@, self.threshold_view()) is Some,
            r matches Some(i) ==> i < self.stations_view().len() && lookup_result(
                self.stations_view(),
                name@,
                self.threshold_view(),
            ) == Some(i as int),
    {
        let key: String = uppercase(name);
        assert(self.stations_view() == self.stations@);
        assert(self.threshold_view() == self.threshold);
        if let Some(i) = self.find_key(key.as_str()) {
            return Some(i);
        }
        let ghost st = self.stations@;
        let ghost e = alias_entries(st);
        proof {
            lemma_table_bounded(st);
        }
        let zero = Similarity { distance: 1, scale: 1 };
        let mut best: Similarity = zero;
        let mut found: usize = 0;
        let mut p: usize = 0;
        while p < self.alias_table.len()
            invariant
                self.wf(),
                st == self.stations@,
                e == alias_entries(st),
                p <= e.len(),
                key@ == upper_of(name@),
                key_owner(st, key@) is None,
                best.scale > 0,
                zero == (Similarity { distance: 1, scale: 1 }),
                forall|q: int| 0 <= q < p ==> (#[trigger] entry_score(st, name@, q)).scale > 0,
                forall|q: int| 0 <= q < p ==> !(#[trigger] entry_score(st, name@, q)).is_exact(),
                best == zero ==> forall|q: int|
                    0 <= q < p ==> !(#[trigger] entry_score(st, name@, q)).spec_exceeds(&zero),
                best != zero ==> {
                    &&& found < p
                    &&& best == entry_score(st, name@, found as int)
                    &&& best.spec_exceeds(&zero)
                    &&& forall|q: int|
                        0 <= q < p ==> !(#[trigger] entry_score(st, name@, q)).spec_exceeds(&best)
                    &&& forall|q: int|
                        0 <= q < found ==> best.spec_exceeds(&#[trigger] entry_score(st, name@, q))
                },
            decreases e.len() - p,
        {
            let entry: &(usize, String) = &self.alias_table[p];
            assert(table_view(self.alias_table@)[p as int] == (entry.0 as int, entry.1@));
            assert(table_view(self.alias_table@)[p as int] == e[p as int]);
            let diff: Similarity = match_strings(entry.1.as_str(), name);
            assert(diff == entry_score(st, name@, p as int));
            if diff.is_exact() {
                let i: usize = entry.0;
                proof {
                    lemma_table_bounded(st);
                    assert(is_best_entry(st, name@, p as int)) by {
                        assert forall|q: int| 0 <= q < p implies diff.spec_exceeds(
                            &#[trigger] entry_score(st, name@, q),
                        ) by {
                            let sq = entry_score(st, name@, q);
                            assert(sq.distance > 0);
                            assert(sq.distance as int * diff.scale as int > 0) by (nonlinear_arith)
                                requires
                                    sq.distance > 0,
                                    diff.scale > 0,
                            ;
                        }
                    }
                    assert(diff.spec_reaches(self.threshold));
                    assert forall|p2: int|
                        is_best_entry(st, name@, p2) && entry_score(st, name@, p2).spec_reaches(
                            self.threshold,
                        ) implies p2 == p by {
                        lemma_best_entry_unique(st, name@, p as int, p2);
                    }
                }
                return Some(i);
            }
            if diff.exceeds(&best) {
                proof {
                    lemma_exceeds_order(diff, best, zero);
                    assert forall|q: int| 0 <= q < p implies !(#[trigger] entry_score(
                        st,
                        name@,
                        q,
                    )).spec_exceeds(&diff) && diff.spec_exceeds(&entry_score(st, name@, q)) by {
                        lemma_exceeds_order(entry_score(st, name@, q), best, diff);
                        lemma_exceeds_order(diff, best, entry_score(st, name@, q));
                    }
                }
                best = diff;
                found = p;
            }
            p = p + 1;
        }
        if best != zero && best.reaches(self.threshold) {
            let i: usize = self.alias_table[found].0;
            proof {
                lemma_table_bounded(st);
                assert(table_view(self.alias_table@)[found as int] == (i as int, self.alias_table@[found as int].1@));
                assert(table_view(self.alias_table@)[found as int] == e[found as int]);
                assert(is_best_entry(st, name@, found as int));
                assert forall|p2: int|
                    is_best_entry(st, name@, p2) && entry_score(st, name@, p2).spec_reaches(
                        self.threshold,
                    ) implies p2 == found by {
                    lemma_best_entry_unique(st, name@, found as int, p2);
                }
            }
            Some(i)
        } else {
            proof {
                assert forall|p2: int| is_best_entry(st, name@, p2) implies !entry_score(
                    st,
                    name@,
                    p2,
                ).spec_reaches(self.threshold) by {
                    if best == zero {
                        let s2 = entry_score(st, name@, p2);
                        assert(!s2.spec_exceeds(&zero));
                        let t = self.threshold;
                        assert((t.den as int) * (s2.distance as int) > (t.den as int - t.num as int)
                            * (s2.scale as int)) by (nonlinear_arith)
                            requires
                                s2.distance as int * 1 >= 1 * s2.scale as int,
                                s2.scale > 0,
                                0 < t.num <= t.den,
                        ;
                    } else {
                        lemma_best_entry_unique(st, name@, found as int, p2);
                    }
                }
            }
            None
        }
    }

    /// Position of the first station with the given short code.
    pub fn position_of(&self, id: &str) -> (r: Option<usize>)
        requires
            self.wf(),
        ensures
            match r {
                Some(i) => i < self.stations_view().len() && self.stations_view()[i as int].id@
                    == id@ && forall|j: int|
                    0 <= j < i ==> (#[trigger] self.stations_view()[j]).id@ != id@,
                None => forall|j: int|
                    0 <= j < self.stations_view().len() ==> (
                    #[trigger] self.stations_view()[j]).id@ != id@,
            },
    {
        let mut i: usize = 0;
        while i < self.stations.len()
            invariant
                i <= self.stations@.len(),
                forall|j: int| 0 <= j < i ==> (#[trigger] self.stations@[j]).id@ != id@,
            decreases self.stations@.len() - i,
        {
            if text_eq(self.stations[i].id.as_str(), id) {
                return Some(i);
            }
            i = i + 1;
        }
        None
    }

    /// The station with the given short code, the first such.
    pub fn get_train_station(&self, id: &str) -> (r: Option<&TrainStation>)
        requires
            self.wf(),
        ensures
            match r {
                Some(s) => exists|i: int|
                    0 <= i < self.stations_view().len() && *s == self.stations_view()[i]
                        && s.id@ == id@ && forall|j: int|
                        0 <= j < i ==> (#[trigger] self.stations_view()[j]).id@ != id@,
                None => forall|j: int|
                    0 <= j < self.stations_view().len() ==> (
                    #[trigger] self.stations_view()[j]).id@ != id@,
            },
    {
        match self.position_of(id) {
            Some(i) => Some(&self.stations[i]),
            None => None,
        }
    }

    /// The station nearest to `point` (latitude and longitude in millionths
    /// of a degree) by squared distance; of several, the first in the
    /// registry.
    pub fn nearest_station(&self, point: (i32, i32)) -> (r: &TrainStation)
        requires
            self.wf(),
        ensures
            exists|i: int|
                is_first_nearest(self.stations_view(), point, i) && *r == self.stations_view()[i],
    {
        let mut best: usize = 0;
        let mut best_dist: i128 = Self::distance(&self.stations[0], point);
        let mut i: usize = 1;
        while i < self.stations.len()
            invariant
                self.wf(),
                1 <= i <= self.stations@.len(),
                best < i,
                best_dist == sq_dist(self.stations@[best as int], point),
                forall|j: int|
                    0 <= j < i ==> best_dist <= sq_dist(#[trigger] self.stations@[j], point),
                forall|j: int| 0 <= j < best ==> best_dist < sq_dist(#[trigger] self.stations@[j], point),
            decreases self.stations@.len() - i,
        {
            let d: i128 = Self::distance(&self.stations[i], point);
            if d < best_dist {
                best = i;
                best_dist = d;
            }
            i = i + 1;
        }
        assert(is_first_nearest(self.stations@, point, best as int));
        assert(self.stations_view() == self.stations@);
        &self.stations[best]
    }

    fn distance(s: &TrainStation, point: (i32, i32)) -> (r: i128)
        ensures
            r == sq_dist(*s, point),
    {
        let dx: i128 = s.position.0 as i128 - point.0 as i128;
        let dy: i128 = s.position.1 as i128 - point.1 as i128;
        assert(dx * dx <= 0x1_0000_0000 * 0x1_0000_0000) by (nonlinear_arith)
            requires
                -0x1_0000_0000 <= dx <= 0x1_0000_0000,
        ;
        assert(dy * dy <= 0x1_0000_0000 * 0x1_0000_0000) by (nonlinear_arith)
            requires
                -0x1_0000_0000 <= dy <= 0x1_0000_0000,
        ;
        assert(dx * dx >= 0 && dy * dy >= 0) by (nonlinear_arith);
        dx * dx + dy * dy
    }
}

} // verus!
