//! Building stations from the rows of the station tables, already split
//! into fields.

use vstd::prelude::*;

use crate::text::text_eq;
use crate::types::TrainStation;

verus! {

/// A row of the station table.
#[derive(Debug)]
pub struct StationRecord {
    pub name: String,
    pub id: String,
    pub region_id: u8,
    /// Latitude and longitude, in millionths of a degree.
    pub position: (i32, i32),
}

/// The first fields of the rows whose second field is `id`, in order.
pub open spec fn names_for(rows: Seq<(String, String)>, id: Seq<char>) -> Seq<Seq<char>>
    decreases rows.len(),
{
    if rows.len() == 0 {
        Seq::empty()
    } else {
        let rest = names_for(rows.drop_last(), id);
        if rows.last().1@ == id {
            rest.push(rows.last().0@)
        } else {
            rest
        }
    }
}

/// The second field of the last row whose first field is `id`.
pub open spec fn value_for(rows: Seq<(String, String)>, id: Seq<char>) -> Option<Seq<char>>
    decreases rows.len(),
{
    if rows.len() == 0 {
        None
    } else if rows.last().0@ == id {
        Some(rows.last().1@)
    } else {
        value_for(rows.drop_last(), id)
    }
}

pub open spec fn names_view(v: Seq<String>) -> Seq<Seq<char>> {
    v.map_values(|s: String| s@)
}

fn value_of(rows: &Vec<(String, String)>, id: &str) -> (r: Option<String>)
    ensures
        match r {
            Some(v) => value_for(rows@, id@) == Some(v@),
            None => value_for(rows@, id@) is None,
        },
{
    let mut i: usize = rows.len();
    assert(rows@.subrange(0, i as int) =~= rows@);
    while i > 0
        invariant
            i <= rows@.len(),
            value_for(rows@, id@) == value_for(rows@.subrange(0, i as int), id@),
        decreases i,
    {
        let ghost pre = rows@.subrange(0, i as int);
        assert(pre.drop_last() =~= rows@.subrange(0, i - 1));
        assert(pre.last() == rows@[i - 1]);
        if text_eq(rows[i - 1].0.as_str(), id) {
            return Some(rows[i - 1].1.clone());
        }
        i = i - 1;
    }
    assert(rows@.subrange(0, 0) =~= Seq::<(String, String)>::empty());
    None
}

/// Builds a station from its table row: its name first among its aliases,
/// then the names of the alias rows (alias, id) for its id, in order; its
/// provider codes from the last rows (id, value) for its id.
pub fn build_station(
    record: &StationRecord,
    aliases: &Vec<(String, String)>,
    lefrecce_names: &Vec<(String, String)>,
    vt_ids: &Vec<(String, String)>,
) -> (r: TrainStation)
    ensures
        r.id@ == record.id@,
        r.region_id == record.region_id,
        r.position == record.position,
        names_view(r.aliases@) == seq![record.name@] + names_for(aliases@, record.id@),
        r.wf(),
        match r.lefrecce_name {
            Some(n) => value_for(lefrecce_names@, record.id@) == Some(n@),
            None => value_for(lefrecce_names@, record.id@) is None,
        },
        match r.vt_id {
            Some(n) => value_for(vt_ids@, record.id@) == Some(n@),
            None => value_for(vt_ids@, record.id@) is None,
        },
{
    let mut names: Vec<String> = Vec::new();
    names.push(record.name.clone());
    assert(names_view(names@) =~= seq![record.name@] + names_for(aliases@.subrange(0, 0), record.id@));
    let mut i: usize = 0;
    while i < aliases.len()
        invariant
            i <= aliases@.len(),
            names_view(names@) == seq![record.name@] + names_for(
                aliases@.subrange(0, i as int),
                record.id@,
            ),
        decreases aliases@.len() - i,
    {
        let ghost pre = aliases@.subrange(0, i + 1);
        assert(pre.drop_last() =~= aliases@.subrange(0, i as int));
        assert(pre.last() == aliases@[i as int]);
        if text_eq(aliases[i].1.as_str(), record.id.as_str()) {
            let ghost before = names@;
            names.push(aliases[i].0.clone());
            assert(names_view(names@) =~= names_view(before).push(aliases@[i as int].0@));
        }
        i = i + 1;
    }
    assert(aliases@.subrange(0, aliases@.len() as int) =~= aliases@);
    TrainStation {
        id: record.id.clone(),
        region_id: record.region_id,
        position: record.position,
        aliases: names,
        vt_id: value_of(vt_ids, record.id.as_str()),
        lefrecce_name: value_of(lefrecce_names, record.id.as_str()),
    }
}

} // verus!
