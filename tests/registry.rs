use trenitalia::registry::{RegistryError, Trenitalia};
use trenitalia::tables::{build_station, StationRecord};
use trenitalia::types::{TrainNumber, TrainStation};
use trenitalia::utils::{match_strings, Similarity, Threshold};

fn station(id: &str, names: &[&str], position: (i32, i32), vt: Option<&str>, lf: Option<&str>) -> TrainStation {
    TrainStation {
        id: id.to_string(),
        region_id: 5,
        position,
        aliases: names.iter().map(|n| n.to_string()).collect(),
        vt_id: vt.map(|v| v.to_string()),
        lefrecce_name: lf.map(|v| v.to_string()),
    }
}

fn registry() -> Trenitalia {
    let stations = vec![
        station("BZ", &["Bolzano", "Bozen"], (46_496_000, 11_358_000), Some("S02026"), Some("Bolzano")),
        station("CLZ", &["Calalzo Pieve di Cadore Cortina"], (46_450_000, 12_383_333), Some("S02960"), None),
        station("CRN", &["Carnia"], (46_374_318, 13_134_141), Some("S03035"), None),
        station("IMO", &["Imola"], (44_353_300, 11_714_100), Some("S05107"), Some("Imola")),
        station("CSN", &["Cesena"], (44_133_333, 12_233_333), Some("S05111"), Some("Cesena")),
        station("BC", &["Bologna Centrale", "Bologna C.le"], (44_505_600, 11_343_100), Some("S05043"), Some("Bologna Centrale")),
        station("MRD", &["Marradi"], (44_074_600, 11_613_300), Some("S06407"), None),
        station("PC", &["Piacenza"], (45_051_400, 9_705_000), Some("S01700"), Some("Piacenza")),
    ];
    Trenitalia::new(stations).unwrap()
}

#[test]
fn lookup_test() {
    let t = registry();
    println!("{:?}", t.find_train_station("bolzano"));
    assert!(t.lookup_exact("Bolzano").is_some());
}

#[test]
fn test() {
    let t = registry();
    let _calalzo = t.nearest_station((46_450_000, 12_383_333));
    let _carnia = t.nearest_station((46_374_318, 13_134_141));
    let imola = t.nearest_station((44_353_300, 11_714_100));
    let cesena = t.nearest_station((44_133_333, 12_233_333));
    assert_eq!(_calalzo.id, "CLZ");
    assert_eq!(_carnia.id, "CRN");
    assert_eq!(imola.id, "IMO");
    assert_eq!(cesena.id, "CSN");
    println!("{:?}", t.find_train_station("bologna centrale"));
    let _bologna = t.find_train_station("marradi").unwrap();
    assert_eq!(_bologna.id, "MRD");
    let a = TrainNumber::EuroCity { number: 2019 };
    a.to_string();
}

#[test]
fn every_alias_leads_back_to_its_station() {
    let t = registry();
    for i in 0..t.len() {
        let s = t.station(i);
        for alias in &s.aliases {
            assert_eq!(t.lookup_exact(alias).unwrap().id, s.id);
            assert_eq!(t.find_train_station(alias).unwrap().id, s.id);
            assert_eq!(t.lookup_exact(&alias.to_lowercase()).unwrap().id, s.id);
        }
    }
}

#[test]
fn secondary_name_is_a_key_in_upper_case() {
    let stations = vec![station("BZ", &["Bolzano"], (0, 0), None, Some("Bolzano Bozen"))];
    let t = Trenitalia::new(stations).unwrap();
    assert_eq!(t.lookup_exact("BOLZANO BOZEN").unwrap().id, "BZ");
    assert_eq!(t.lookup_exact("bolzano bozen").unwrap().id, "BZ");
}

#[test]
fn shared_key_leads_to_the_last_station() {
    let stations = vec![
        station("A", &["Centrale"], (0, 0), None, None),
        station("B", &["Centrale"], (0, 0), None, None),
    ];
    let t = Trenitalia::new(stations).unwrap();
    assert_eq!(t.lookup_exact("Centrale").unwrap().id, "B");
}

#[test]
fn fuzzy_lookup_finds_a_close_name() {
    let t = registry();
    assert_eq!(t.find_train_station("Bologna Centrle").unwrap().id, "BC");
    assert_eq!(t.find_train_station("Piacenz").unwrap().id, "PC");
    assert!(t.find_train_station("Xqzw Jjjk").is_none());
    assert!(t.lookup_exact("Bologna Centrle").is_none());
}

#[test]
fn fuzzy_ties_go_to_the_first_station() {
    let stations = vec![
        station("A", &["Abcdefghij"], (0, 0), None, None),
        station("B", &["Abcdefghik"], (0, 0), None, None),
    ];
    let t = Trenitalia::new(stations).unwrap();
    assert_eq!(t.find_train_station("Abcdefghiz").unwrap().id, "A");
}

#[test]
fn nearest_ties_go_to_the_first_station() {
    let stations = vec![
        station("A", &["A"], (10, 0), None, None),
        station("B", &["B"], (-10, 0), None, None),
        station("C", &["C"], (0, 10), None, None),
    ];
    let t = Trenitalia::new(stations).unwrap();
    assert_eq!(t.nearest_station((0, 0)).id, "A");
    assert_eq!(t.nearest_station((0, 9)).id, "C");
    assert_eq!(t.nearest_station((i32::MIN, i32::MAX)).id, "B");
}

#[test]
fn station_by_code() {
    let t = registry();
    assert_eq!(t.get_train_station("MRD").unwrap().get_name(), "Marradi");
    assert!(t.get_train_station("mrd").is_none());
}

#[test]
fn registry_needs_named_stations() {
    assert!(matches!(Trenitalia::new(vec![]), Err(RegistryError::Empty)));
    let stations = vec![
        station("A", &["A"], (0, 0), None, None),
        station("B", &[], (0, 0), None, None),
    ];
    assert!(matches!(Trenitalia::new(stations), Err(RegistryError::Nameless { position: 1 })));
}

#[test]
fn short_id_drops_the_letter_and_zeros() {
    let t = registry();
    assert_eq!(t.get_train_station("PC").unwrap().short_id().unwrap(), "1700");
    assert_eq!(t.get_train_station("BC").unwrap().short_id().unwrap(), "5043");
    assert!(station("X", &["X"], (0, 0), None, None).short_id().is_none());
    assert!(station("X", &["X"], (0, 0), Some("S0A1"), None).short_id().is_none());
    assert!(station("X", &["X"], (0, 0), Some("S99999"), None).short_id().is_none());
}

#[test]
fn similarity_ignores_case_and_order() {
    let a = match_strings("Cesena", "CESENA");
    assert!(a.is_exact());
    assert_eq!(a, Similarity { distance: 0, scale: 1 });
    assert_eq!(match_strings("", ""), Similarity { distance: 0, scale: 1 });
    assert_eq!(match_strings("ab", "bca"), Similarity { distance: 2, scale: 3 });
    assert_eq!(match_strings("bca", "ab"), Similarity { distance: 2, scale: 3 });
    assert_eq!(match_strings("Cesena", "Cesenatico"), Similarity { distance: 4, scale: 10 });
    assert_eq!(match_strings("", "Forli"), Similarity { distance: 5, scale: 5 });
}

#[test]
fn similarity_threshold() {
    let t = Threshold::words_equality();
    assert!(Similarity { distance: 3, scale: 10 }.reaches(t));
    assert!(!Similarity { distance: 4, scale: 10 }.reaches(t));
    assert!(Similarity { distance: 0, scale: 1 }.reaches(t));
    assert!(Similarity { distance: 1, scale: 10 }.exceeds(&Similarity { distance: 1, scale: 5 }));
    assert!(!Similarity { distance: 2, scale: 10 }.exceeds(&Similarity { distance: 1, scale: 5 }));
}

#[test]
fn stations_are_built_from_table_rows() {
    let record = StationRecord { name: "Bologna Centrale".to_string(), id: "BC".to_string(), region_id: 5, position: (44_505_600, 11_343_100) };
    let pair = |a: &str, b: &str| (a.to_string(), b.to_string());
    let aliases = vec![pair("Bologna C.le", "BC"), pair("Imola", "IMO"), pair("Bologna", "BC")];
    let lf = vec![pair("BC", "Bologna Centrale"), pair("IMO", "Imola"), pair("BC", "BOLOGNA C.LE")];
    let vt = vec![pair("IMO", "S05107")];
    let s = build_station(&record, &aliases, &lf, &vt);
    assert_eq!(s.id, "BC");
    assert_eq!(s.aliases, vec!["Bologna Centrale".to_string(), "Bologna C.le".to_string(), "Bologna".to_string()]);
    assert_eq!(s.lefrecce_name.as_deref(), Some("BOLOGNA C.LE"));
    assert!(s.vt_id.is_none());
    assert_eq!(s.position, (44_505_600, 11_343_100));
}
