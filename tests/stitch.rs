use trenitalia::registry::Trenitalia;
use trenitalia::stitch::{gaps, take_as_is, GapQuery, SearchPlan, Segment, TripQuery};
use trenitalia::types::{TrainNumber, TrainStation, TrainTrip};
use trenitalia::utils::match_strings;
use trenitalia::viaggiatreno::RawLeg;

fn station(id: &str, name: &str) -> TrainStation {
    TrainStation {
        id: id.to_string(),
        region_id: 5,
        position: (0, 0),
        aliases: vec![name.to_string()],
        vt_id: None,
        lefrecce_name: Some(name.to_string()),
    }
}

// Positions: 0 Bologna Centrale, 1 Cesena, 2 Prato, 3 Parma, 4 Firenze Santa Maria Novella, 5 Forli
fn registry() -> Trenitalia {
    Trenitalia::new(vec![
        station("BC", "Bologna Centrale"),
        station("CSN", "Cesena"),
        station("PO", "Prato"),
        station("PR", "Parma"),
        station("SMN", "Firenze Santa Maria Novella"),
        station("FO", "Forli"),
    ])
    .unwrap()
}

fn raw(origin: &str, destination: &str, departure: i64, arrival: i64, number: u32) -> RawLeg {
    RawLeg {
        origin: origin.to_string(),
        destination: destination.to_string(),
        departure,
        arrival,
        train_number: TrainNumber::Regionale { number },
    }
}

fn trip(t: &Trenitalia, from: usize, to: usize, departure: i64, arrival: i64, number: u32) -> TrainTrip {
    TrainTrip {
        train_number: TrainNumber::RegionaleVeloce { number },
        departure: (t.station(from).clone(), departure),
        arrival: (t.station(to).clone(), arrival),
    }
}

fn stitched(plan: SearchPlan) -> Vec<Vec<Segment>> {
    match plan {
        SearchPlan::Stitch(plans) => plans,
        SearchPlan::SecondaryOnly(_) => panic!("primary options expected"),
    }
}

#[test]
fn direct_option_needs_no_filler() {
    let t = registry();
    let when: i64 = 1_556_700_000;
    let cands = vec![vec![raw("Bologna Centrale", "Cesena", when + 600, when + 3600, 6511)]];
    let plans = stitched(t.plan_trips(0, 1, when, &cands));
    assert_eq!(plans.len(), 1);
    assert_eq!(plans[0].len(), 1);
    assert!(gaps(&plans[0]).is_empty());
    let it = t.assemble(&plans[0], &vec![]);
    assert_eq!(it.legs.len(), 1);
    assert!(it.complete);
    assert_eq!(it.legs[0].departure.0.id, "BC");
    assert_eq!(it.legs[0].arrival.0.id, "CSN");
    assert_eq!(it.legs[0].departure.1, when + 600);
    assert_eq!(it.legs[0].arrival.1, when + 3600);
    assert!(matches!(it.legs[0].train_number, TrainNumber::Regionale { number: 6511 }));
}

#[test]
fn no_primary_option_asks_the_secondary_once() {
    let t = registry();
    let when: i64 = 1_556_700_000;
    let plan = t.plan_trips(0, 1, when, &vec![]);
    match plan {
        SearchPlan::SecondaryOnly(q) => assert_eq!(q, TripQuery { from: 0, to: 1, at: when }),
        SearchPlan::Stitch(_) => panic!("secondary only expected"),
    }
    let answer = vec![
        vec![trip(&t, 0, 5, when + 60, when + 1800, 1), trip(&t, 5, 1, when + 1900, when + 2500, 2)],
        vec![trip(&t, 0, 1, when + 100, when + 50, 3)],
    ];
    let result = take_as_is(answer);
    assert_eq!(result.len(), 2);
    assert_eq!(result[0].legs.len(), 2);
    assert!(result[0].complete);
    assert_eq!(result[1].legs.len(), 1);
    assert!(result[1].complete);
    assert!(take_as_is(vec![]).is_empty());
}

#[test]
fn trailing_filler_is_appended() {
    let t = registry();
    let when: i64 = 1_556_700_000;
    let score = match_strings("Prato", "Parma");
    assert!(10 * score.distance > 3 * score.scale);
    let cands = vec![vec![raw("Bologna Centrale", "Prato", when + 600, when + 3600, 1)]];
    let plans = stitched(t.plan_trips(0, 3, when, &cands));
    assert_eq!(plans.len(), 1);
    let g = gaps(&plans[0]);
    assert_eq!(g.len(), 1);
    assert_eq!(
        g[0],
        GapQuery { query: TripQuery { from: 2, to: 3, at: when }, not_before: when + 3600, not_after: None }
    );
    let filler = vec![vec![trip(&t, 2, 3, when + 4000, when + 9000, 77)]];
    let it = t.assemble(&plans[0], &vec![filler]);
    assert_eq!(it.legs.len(), 2);
    assert_eq!(it.legs[0].arrival.0.id, "PO");
    assert_eq!(it.legs[1].departure.0.id, "PO");
    assert_eq!(it.legs[1].arrival.0.id, "PR");
    assert!(matches!(it.legs[1].train_number, TrainNumber::RegionaleVeloce { number: 77 }));
    assert!(it.complete);
}

#[test]
fn unresolvable_station_drops_only_its_option() {
    let t = registry();
    let when: i64 = 1_556_700_000;
    let cands = vec![
        vec![raw("Bologna Centrale", "Xqzw Jjjk Lmnop", when + 60, when + 600, 1)],
        vec![raw("Bologna Centrale", "Cesena", when + 600, when + 3600, 2)],
    ];
    let plans = stitched(t.plan_trips(0, 1, when, &cands));
    assert_eq!(plans.len(), 1);
    let it = t.assemble(&plans[0], &vec![]);
    assert!(matches!(it.legs[0].train_number, TrainNumber::Regionale { number: 2 }));
}

#[test]
fn empty_options_are_skipped() {
    let t = registry();
    let plans = stitched(t.plan_trips(0, 1, 0, &vec![vec![]]));
    assert!(plans.is_empty());
}

#[test]
fn inner_gap_takes_the_first_fitting_filler() {
    let t = registry();
    let when: i64 = 1_000_000;
    let cands = vec![vec![
        raw("Bologna Centrale", "Prato", when + 100, when + 1000, 1),
        raw("Firenze Santa Maria Novella", "Cesena", when + 5000, when + 9000, 2),
    ]];
    let plans = stitched(t.plan_trips(0, 1, when, &cands));
    let g = gaps(&plans[0]);
    assert_eq!(g.len(), 1);
    assert_eq!(
        g[0],
        GapQuery {
            query: TripQuery { from: 2, to: 4, at: when + 1000 },
            not_before: when + 1000,
            not_after: Some(when + 5000),
        }
    );
    let options = vec![
        vec![trip(&t, 2, 4, when + 900, when + 1500, 10)],
        vec![],
        vec![trip(&t, 2, 4, when + 1100, when + 5100, 11)],
        vec![trip(&t, 2, 4, when + 1200, when + 2000, 12)],
        vec![trip(&t, 2, 4, when + 1300, when + 2100, 13)],
    ];
    let it = t.assemble(&plans[0], &vec![options]);
    assert_eq!(it.legs.len(), 3);
    assert!(matches!(it.legs[1].train_number, TrainNumber::RegionaleVeloce { number: 12 }));
    assert!(it.complete);
}

#[test]
fn unfilled_gap_leaves_the_itinerary_incomplete() {
    let t = registry();
    let when: i64 = 1_000_000;
    let cands = vec![vec![
        raw("Bologna Centrale", "Prato", when + 100, when + 1000, 1),
        raw("Firenze Santa Maria Novella", "Cesena", when + 5000, when + 9000, 2),
    ]];
    let plans = stitched(t.plan_trips(0, 1, when, &cands));
    let it = t.assemble(&plans[0], &vec![vec![]]);
    assert_eq!(it.legs.len(), 2);
    assert!(!it.complete);
}

#[test]
fn leading_gap_is_bounded_by_the_first_departure() {
    let t = registry();
    let when: i64 = 1_000_000;
    let cands = vec![vec![raw("Forli", "Cesena", when + 3000, when + 4000, 1)]];
    let plans = stitched(t.plan_trips(0, 1, when, &cands));
    let g = gaps(&plans[0]);
    assert_eq!(
        g[0],
        GapQuery { query: TripQuery { from: 0, to: 5, at: when }, not_before: when, not_after: Some(when + 3000) }
    );
    let late = vec![vec![trip(&t, 0, 5, when + 100, when + 3500, 5)]];
    let it = t.assemble(&plans[0], &vec![late]);
    assert_eq!(it.legs.len(), 1);
    let fits = vec![vec![trip(&t, 0, 5, when + 100, when + 2500, 6)]];
    let it = t.assemble(&plans[0], &vec![fits]);
    assert_eq!(it.legs.len(), 2);
    assert_eq!(it.legs[0].departure.0.id, "BC");
    assert!(it.complete);
}

#[test]
fn same_name_means_no_inner_gap() {
    let t = registry();
    let cands = vec![vec![
        raw("Bologna Centrale", "Forli", 100, 200, 1),
        raw("FORLI", "Cesena", 150, 400, 2),
    ]];
    let plans = stitched(t.plan_trips(0, 1, 0, &cands));
    assert!(gaps(&plans[0]).is_empty());
    let it = t.assemble(&plans[0], &vec![]);
    assert_eq!(it.legs.len(), 2);
    assert!(!it.complete);
}

#[test]
fn every_plan_assembled() {
    let t = registry();
    let cands = vec![vec![raw("Bologna Centrale", "Cesena", 100, 200, 1)]];
    let plans = stitched(t.plan_trips(0, 1, 0, &cands));
    let all = t.assemble_all(&plans, &vec![vec![]]);
    assert_eq!(all.len(), 1);
}
