//! The primary provider's autocomplete answers: lines of `|`-separated
//! fields, for station names and for train numbers.

use vstd::prelude::*;
use vstd::string::StrSliceExecFns;

use crate::live::TrainInfo;
use crate::registry::Trenitalia;
use crate::text::{
    chars_of, pieces_view, split_chars, split_spec, string_of_chars, text_eq,
    trim_end_chars, trim_end_spec, trim_start_chars, trim_start_spec,
};
use crate::utils::{lemma_exceeds_order, match_strings, similarity_of, Similarity};
use crate::types::TrainStation;

verus! {

/// The lines of an answer, trailing line breaks left out.
pub open spec fn answer_lines(resp: Seq<char>) -> Seq<Seq<char>> {
    split_spec(trim_end_spec(resp, '\n'), '\n')
}

/// The answer holds nothing but line breaks: it names no train.
pub open spec fn answer_empty(resp: Seq<char>) -> bool {
    trim_end_spec(resp, '\n').len() == 0
}

/// The station code of a station autocomplete answer: the second field of
/// its first line. None where the answer is empty or that line has a
/// single field.
pub open spec fn station_code(resp: Seq<char>) -> Option<Seq<char>> {
    if resp.len() == 0 {
        None
    } else {
        let fields = split_spec(answer_lines(resp)[0], '|');
        if fields.len() > 1 {
            Some(fields[1])
        } else {
            None
        }
    }
}

/// The origin station code on a line of a train number autocomplete
/// answer: in its second field, the part after the first `-`.
pub open spec fn line_origin(line: Seq<char>) -> Option<Seq<char>> {
    let fields = split_spec(line, '|');
    if fields.len() > 1 && split_spec(fields[1], '-').len() > 1 {
        Some(split_spec(fields[1], '-')[1])
    } else {
        None
    }
}

/// The station's primary provider code is `code`.
pub open spec fn has_vt_code(s: TrainStation, code: Seq<char>) -> bool {
    s.vt_id matches Some(w) && w@ == code
}

/// Why a train could not be found.
#[derive(Clone, Copy, PartialEq, Eq, Structural, Debug)]
pub enum TrainSearchError {
    /// The answer names no single train.
    NotFound,
    /// A line of the answer is not in the expected form.
    Malformed,
}

fn lines_of(resp: &str) -> (r: Vec<Vec<char>>)
    ensures
        pieces_view(r@) == answer_lines(resp@),
        r@.len() >= 1,
{
    let chars: Vec<char> = chars_of(resp);
    let trimmed: Vec<char> = trim_end_chars(&chars, '\n');
    split_chars(&trimmed, '\n')
}

fn is_blank(resp: &str) -> (r: bool)
    ensures
        r == answer_empty(resp@),
{
    let chars: Vec<char> = chars_of(resp);
    let trimmed: Vec<char> = trim_end_chars(&chars, '\n');
    trimmed.len() == 0
}

fn origin_of_line(line: &Vec<char>) -> (r: Option<String>)
    ensures
        match r {
            Some(c) => line_origin(line@) == Some(c@),
            None => line_origin(line@) is None,
        },
{
    let fields: Vec<Vec<char>> = split_chars(line, '|');
    assert(pieces_view(fields@)[0] == fields@[0]@);
    if fields.len() < 2 {
        return None;
    }
    assert(pieces_view(fields@)[1] == fields@[1]@);
    let parts: Vec<Vec<char>> = split_chars(&fields[1], '-');
    if parts.len() < 2 {
        return None;
    }
    assert(pieces_view(parts@)[1] == parts@[1]@);
    Some(string_of_chars(&parts[1]))
}

/// The station code of a station autocomplete answer.
pub fn station_code_of(response: &str) -> (r: Option<String>)
    ensures
        match r {
            Some(c) => station_code(response@) == Some(c@),
            None => station_code(response@) is None,
        },
{
    if response.unicode_len() == 0 {
        return None;
    }
    let lines: Vec<Vec<char>> = lines_of(response);
    assert(pieces_view(lines@)[0] == lines@[0]@);
    let fields: Vec<Vec<char>> = split_chars(&lines[0], '|');
    if fields.len() < 2 {
        return None;
    }
    assert(pieces_view(fields@)[1] == fields@[1]@);
    Some(string_of_chars(&fields[1]))
}

/// The origin station code of the one train that a train number
/// autocomplete answer names. An empty answer, or one naming several
/// trains, names no single train.
pub fn single_origin(response: &str) -> (r: Result<String, TrainSearchError>)
    ensures
        match r {
            Ok(c) => !answer_empty(response@) && answer_lines(response@).len() == 1 && line_origin(
                answer_lines(response@)[0],
            ) == Some(c@),
            Err(TrainSearchError::NotFound) => answer_empty(response@) || answer_lines(
                response@,
            ).len() != 1,
            Err(TrainSearchError::Malformed) => !answer_empty(response@) && answer_lines(
                response@,
            ).len() == 1 && line_origin(answer_lines(response@)[0]) is None,
        },
{
    if is_blank(response) {
        return Err(TrainSearchError::NotFound);
    }
    let lines: Vec<Vec<char>> = lines_of(response);
    if lines.len() != 1 {
        return Err(TrainSearchError::NotFound);
    }
    assert(pieces_view(lines@)[0] == lines@[0]@);
    match origin_of_line(&lines[0]) {
        Some(c) => Ok(c),
        None => Err(TrainSearchError::Malformed),
    }
}

/// The origin station codes of every train that a train number
/// autocomplete answer names, in order. An empty answer names no train.
pub fn all_origins(response: &str) -> (r: Result<Vec<String>, TrainSearchError>)
    ensures
        r is Ok <==> !answer_empty(response@) && forall|i: int|
            0 <= i < answer_lines(response@).len() ==> (#[trigger] line_origin(
                answer_lines(response@)[i],
            )) is Some,
        r matches Ok(codes) ==> codes@.len() == answer_lines(response@).len() && forall|i: int|
            0 <= i < codes@.len() ==> line_origin(answer_lines(response@)[i]) == Some(
                (#[trigger] codes@[i])@,
            ),
        r matches Err(e) ==> (e == TrainSearchError::NotFound <==> answer_empty(response@)),
{
    if is_blank(response) {
        return Err(TrainSearchError::NotFound);
    }
    let lines: Vec<Vec<char>> = lines_of(response);
    let ghost ls = answer_lines(response@);
    let mut codes: Vec<String> = Vec::new();
    let mut i: usize = 0;
    while i < lines.len()
        invariant
            i <= lines@.len(),
            pieces_view(lines@) == ls,
            ls == answer_lines(response@),
            !answer_empty(response@),
            codes@.len() == i,
            forall|j: int| 0 <= j < i ==> (#[trigger] line_origin(ls[j])) is Some,
            forall|j: int| 0 <= j < i ==> line_origin(ls[j]) == Some((#[trigger] codes@[j])@),
        decreases lines@.len() - i,
    {
        assert(pieces_view(lines@)[i as int] == lines@[i as int]@);
        match origin_of_line(&lines[i]) {
            Some(c) => codes.push(c),
            None => {
                return Err(TrainSearchError::Malformed);
            },
        }
        i = i + 1;
    }
    Ok(codes)
}

impl Trenitalia {
    /// The station that a station autocomplete answer points to: the first
    /// in the registry whose primary provider code is the answer's code.
    pub fn station_from_autocomplete(&self, response: &str) -> (r: Option<&TrainStation>)
        requires
            self.wf(),
        ensures
            match r {
                Some(s) => station_code(response@) matches Some(code) && exists|i: int|
                    0 <= i < self.stations_view().len() && *s == self.stations_view()[i]
                        && has_vt_code(*s, code) && forall|j: int|
                        0 <= j < i ==> !has_vt_code(#[trigger] self.stations_view()[j], code),
                None => station_code(response@) matches Some(code) ==> forall|j: int|
                    0 <= j < self.stations_view().len() ==> !has_vt_code(
                        #[trigger] self.stations_view()[j],
                        code,
                    ),
            },
    {
        let code: String = match station_code_of(response) {
            Some(c) => c,
            None => {
                return None;
            },
        };
        let n: usize = self.len();
        let mut i: usize = 0;
        while i < n
            invariant
                self.wf(),
                n == self.stations_view().len(),
                i <= n,
                station_code(response@) == Some(code@),
                forall|j: int|
                    0 <= j < i ==> !has_vt_code(#[trigger] self.stations_view()[j], code@),
            decreases n - i,
        {
            let s: &TrainStation = self.station(i);
            if let Some(v) = &s.vt_id {
                if text_eq(v.as_str(), code.as_str()) {
                    return Some(s);
                }
            }
            i = i + 1;
        }
        None
    }
}

impl TrainInfo {
    /// Whether the train stops at the station with the short code of
    /// `station`.
    pub fn calls_at(&self, station: &TrainStation) -> (r: bool)
        ensures
            r == exists|i: int|
                0 <= i < self.stops@.len() && (#[trigger] self.stops@[i]).station.id@
                    == station.id@,
    {
        let mut i: usize = 0;
        while i < self.stops.len()
            invariant
                i <= self.stops@.len(),
                forall|j: int| 0 <= j < i ==> (#[trigger] self.stops@[j]).station.id@ != station.id@,
            decreases self.stops@.len() - i,
        {
            if text_eq(self.stops[i].station.id.as_str(), station.id.as_str()) {
                return true;
            }
            i = i + 1;
        }
        false
    }
}

/// The origin station name on a line of a train number autocomplete
/// answer: in its first field, the part after the first `-`, without
/// leading spaces.
pub open spec fn line_origin_name(line: Seq<char>) -> Option<Seq<char>> {
    let parts = split_spec(split_spec(line, '|')[0], '-');
    if parts.len() > 1 {
        Some(trim_start_spec(parts[1], ' '))
    } else {
        None
    }
}

/// The line can be read: it has an origin name and an origin code.
pub open spec fn line_ok(line: Seq<char>) -> bool {
    line_origin_name(line) is Some && line_origin(line) is Some
}

/// How close the origin name of line `i` is to `name`.
pub open spec fn line_score(ls: Seq<Seq<char>>, name: Seq<char>, i: int) -> Similarity {
    similarity_of(line_origin_name(ls[i])->Some_0, name)
}

/// Line `i` has the origin name closest to `name`, and is the first such.
pub open spec fn is_closest_line(ls: Seq<Seq<char>>, name: Seq<char>, i: int) -> bool {
    &&& 0 <= i < ls.len()
    &&& forall|j: int|
        0 <= j < ls.len() ==> !(#[trigger] line_score(ls, name, j)).spec_exceeds(
            &line_score(ls, name, i),
        )
    &&& forall|j: int|
        0 <= j < i ==> line_score(ls, name, i).spec_exceeds(&#[trigger] line_score(ls, name, j))
}

fn origin_name_of_line(line: &Vec<char>) -> (r: Option<String>)
    ensures
        match r {
            Some(c) => line_origin_name(line@) == Some(c@),
            None => line_origin_name(line@) is None,
        },
{
    let fields: Vec<Vec<char>> = split_chars(line, '|');
    assert(pieces_view(fields@)[0] == fields@[0]@);
    let parts: Vec<Vec<char>> = split_chars(&fields[0], '-');
    if parts.len() < 2 {
        return None;
    }
    assert(pieces_view(parts@)[1] == parts@[1]@);
    let name: Vec<char> = trim_start_chars(&parts[1], ' ');
    Some(string_of_chars(&name))
}

/// The origin station code of the train that a train number autocomplete
/// answer names whose origin is `from`: the one train where there is one;
/// among several, the first whose origin name is most similar to `from`,
/// where it is similar at all.
pub fn closest_origin(response: &str, from: &str) -> (r: Result<String, TrainSearchError>)
    ensures
        ({
            let ls = answer_lines(response@);
            let zero = Similarity { distance: 1, scale: 1 };
            match r {
                Ok(c) => !answer_empty(response@) && if ls.len() == 1 {
                    line_origin(ls[0]) == Some(c@)
                } else {
                    (forall|i: int| 0 <= i < ls.len() ==> line_ok(#[trigger] ls[i])) && exists|i: int|
                        is_closest_line(ls, from@, i) && line_score(ls, from@, i).spec_exceeds(&zero)
                            && line_origin(ls[i]) == Some(c@)
                },
                Err(TrainSearchError::NotFound) => answer_empty(response@) || (ls.len() > 1 && (
                forall|i: int| 0 <= i < ls.len() ==> line_ok(#[trigger] ls[i])) && forall|i: int|
                    is_closest_line(ls, from@, i) ==> !line_score(ls, from@, i).spec_exceeds(
                        &zero,
                    )),
                Err(TrainSearchError::Malformed) => !answer_empty(response@) && if ls.len() == 1 {
                    line_origin(ls[0]) is None
                } else {
                    exists|i: int| 0 <= i < ls.len() && !line_ok(#[trigger] ls[i])
                },
            }
        }),
{
    if is_blank(response) {
        return Err(TrainSearchError::NotFound);
    }
    let lines: Vec<Vec<char>> = lines_of(response);
    let ghost ls = answer_lines(response@);
    if lines.len() == 1 {
        assert(pieces_view(lines@)[0] == lines@[0]@);
        return match origin_of_line(&lines[0]) {
            Some(c) => Ok(c),
            None => Err(TrainSearchError::Malformed),
        };
    }
    let zero = Similarity { distance: 1, scale: 1 };
    let mut best: Similarity = zero;
    let mut found: usize = 0;
    let mut code: String = String::new();
    let mut i: usize = 0;
    while i < lines.len()
        invariant
            i <= lines@.len(),
            pieces_view(lines@) == ls,
            ls == answer_lines(response@),
            ls.len() > 1,
            !answer_empty(response@),
            zero == (Similarity { distance: 1, scale: 1 }),
            best.scale > 0,
            forall|j: int| 0 <= j < i ==> line_ok(#[trigger] ls[j]),
            forall|j: int| 0 <= j < i ==> (#[trigger] line_score(ls, from@, j)).scale > 0,
            best == zero ==> forall|j: int|
                0 <= j < i ==> !(#[trigger] line_score(ls, from@, j)).spec_exceeds(&zero),
            best != zero ==> {
                &&& found < i
                &&& best == line_score(ls, from@, found as int)
                &&& best.spec_exceeds(&zero)
                &&& line_origin(ls[found as int]) == Some(code@)
                &&& forall|j: int|
                    0 <= j < i ==> !(#[trigger] line_score(ls, from@, j)).spec_exceeds(&best)
                &&& forall|j: int|
                    0 <= j < found ==> best.spec_exceeds(&#[trigger] line_score(ls, from@, j))
            },
        decreases lines@.len() - i,
    {
        assert(pieces_view(lines@)[i as int] == lines@[i as int]@);
        let name: String = match origin_name_of_line(&lines[i]) {
            Some(n) => n,
            None => {
                return Err(TrainSearchError::Malformed);
            },
        };
        let origin: String = match origin_of_line(&lines[i]) {
            Some(c) => c,
            None => {
                return Err(TrainSearchError::Malformed);
            },
        };
        let diff: Similarity = match_strings(name.as_str(), from);
        assert(diff == line_score(ls, from@, i as int));
        if diff.exceeds(&best) {
            proof {
                lemma_exceeds_order(diff, best, zero);
                assert forall|j: int| 0 <= j < i implies !(#[trigger] line_score(
                    ls,
                    from@,
                    j,
                )).spec_exceeds(&diff) && diff.spec_exceeds(&line_score(ls, from@, j)) by {
                    lemma_exceeds_order(line_score(ls, from@, j), best, diff);
                    lemma_exceeds_order(diff, best, line_score(ls, from@, j));
                }
            }
            best = diff;
            found = i;
            code = origin;
        }
        i = i + 1;
    }
    if best != zero {
        assert(is_closest_line(ls, from@, found as int));
        Ok(code)
    } else {
        proof {
            assert forall|k: int| is_closest_line(ls, from@, k) implies !line_score(
                ls,
                from@,
                k,
            ).spec_exceeds(&zero) by {}
        }
        Err(TrainSearchError::NotFound)
    }
}

} // verus!
