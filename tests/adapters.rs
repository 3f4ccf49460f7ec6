use trenitalia::autocomplete::{all_origins, closest_origin, single_origin, station_code_of, TrainSearchError};
use trenitalia::lefrecce::{secondary_allowed, LFSegment};
use trenitalia::live::TrainInfo;
use trenitalia::mapping::{
    VTDetailedTrainTripLeg, VTDetailedTrainTripStop, VTJourneySearchResult, VTTrainSolution, VTTrainTripLeg,
};
use trenitalia::registry::Trenitalia;
use trenitalia::time::{parse_primary_time, parse_secondary_time};
use trenitalia::types::{TrainNumber, TrainStation, TrainTrip};
use trenitalia::utils::parse_train_number;
use trenitalia::viaggiatreno::{read_leg, read_solutions, SearchError};

fn station(id: &str, name: &str, vt: Option<&str>, lf: Option<&str>) -> TrainStation {
    TrainStation {
        id: id.to_string(),
        region_id: 5,
        position: (0, 0),
        aliases: vec![name.to_string()],
        vt_id: vt.map(|v| v.to_string()),
        lefrecce_name: lf.map(|v| v.to_string()),
    }
}

fn registry() -> Trenitalia {
    Trenitalia::new(vec![
        station("BC", "Bologna Centrale", Some("S05043"), Some("Bologna Centrale")),
        station("IMO", "Imola", Some("S05107"), Some("Imola")),
        station("CSN", "Cesena", Some("S05111"), Some("Cesena")),
        station("PC", "Piacenza", Some("S01700"), None),
    ])
    .unwrap()
}

fn vt_leg(origin: Option<&str>, dest: Option<&str>, dep: &str, arr: &str, cat: &str, num: &str) -> VTTrainTripLeg {
    VTTrainTripLeg {
        origine: origin.map(|s| s.to_string()),
        destinazione: dest.map(|s| s.to_string()),
        orarioPartenza: dep.to_string(),
        orarioArrivo: arr.to_string(),
        categoria: None,
        categoriaDescrizione: cat.to_string(),
        numeroTreno: num.to_string(),
    }
}

#[test]
fn primary_times_are_wall_clock_seconds() {
    assert_eq!(parse_primary_time("2019-05-01T10:15:00"), Some(1_556_705_700));
    assert_eq!(parse_primary_time("1970-01-01T00:00:00"), Some(0));
    assert_eq!(parse_primary_time("2019-05-01 10:15:00"), None);
    assert_eq!(parse_primary_time(""), None);
}

#[test]
fn secondary_times_ignore_the_offset() {
    assert_eq!(parse_secondary_time("2019-05-01T10:15:00+02:00"), Some(1_556_705_700));
    assert_eq!(parse_secondary_time("2019-05-01T10:15:00"), None);
}

#[test]
fn train_numbers_tolerate_letters() {
    assert_eq!(parse_train_number("2019"), Some(2019));
    assert_eq!(parse_train_number("+12"), Some(12));
    assert_eq!(parse_train_number("12A"), Some(120));
    assert_eq!(parse_train_number("R 5"), Some(5));
    assert_eq!(parse_train_number("4294967295"), Some(4_294_967_295));
    assert_eq!(parse_train_number("4294967296"), None);
    assert_eq!(parse_train_number(""), None);
}

#[test]
fn primary_answer_is_read_leg_by_leg() {
    let res = VTJourneySearchResult {
        soluzioni: vec![
            VTTrainSolution {
                durata: None,
                vehicles: vec![
                    vt_leg(Some("BOLOGNA CENTRALE"), Some("IMOLA"), "2019-05-01T10:15:00", "2019-05-01T10:40:00", "RV", "2301"),
                    vt_leg(None, Some("CESENA"), "2019-05-01T10:50:00", "2019-05-01T11:20:00", "Treno", "9A"),
                ],
            },
            VTTrainSolution { durata: Some("01:00".to_string()), vehicles: vec![] },
        ],
        origine: "BOLOGNA CENTRALE".to_string(),
        destinazione: "CESENA".to_string(),
        errore: None,
    };
    let legs = read_solutions(&res).unwrap();
    assert_eq!(legs.len(), 2);
    assert_eq!(legs[0].len(), 2);
    assert!(legs[1].is_empty());
    assert_eq!(legs[0][0].origin, "BOLOGNA CENTRALE");
    assert_eq!(legs[0][0].departure, 1_556_705_700);
    assert_eq!(legs[0][0].arrival, 1_556_707_200);
    assert!(matches!(legs[0][0].train_number, TrainNumber::RegionaleVeloce { number: 2301 }));
    assert_eq!(legs[0][1].origin, "");
    match &legs[0][1].train_number {
        TrainNumber::Unknown { number, name } => {
            assert_eq!(*number, 90);
            assert_eq!(name, "Treno");
        }
        _ => panic!("unknown category expected"),
    }
}

#[test]
fn malformed_primary_answer_is_refused() {
    let bad_time = vt_leg(Some("A"), Some("B"), "10:15", "2019-05-01T10:40:00", "RV", "1");
    assert!(matches!(read_leg(&bad_time), Err(SearchError::MalformedTime)));
    let bad_number = vt_leg(Some("A"), Some("B"), "2019-05-01T10:15:00", "2019-05-01T10:40:00", "RV", "");
    assert!(matches!(read_leg(&bad_number), Err(SearchError::MalformedTrainNumber)));
    let res = VTJourneySearchResult {
        soluzioni: vec![VTTrainSolution { durata: None, vehicles: vec![bad_time] }],
        origine: String::new(),
        destinazione: String::new(),
        errore: None,
    };
    assert!(matches!(read_solutions(&res), Err(SearchError::MalformedTime)));
}

fn lf_segment(id: &str, acronym: Option<&str>, from: &str, dep: &str, to: &str, arr: &str) -> LFSegment {
    LFSegment {
        trainidentifier: id.to_string(),
        trainacronym: acronym.map(|s| s.to_string()),
        departurestation: from.to_string(),
        departuretime: dep.to_string(),
        arrivalstation: to.to_string(),
        arrivaltime: arr.to_string(),
        nodexmlid: String::new(),
        showseatmap: false,
    }
}

#[test]
fn secondary_journey_is_read_into_trips() {
    let t = registry();
    let segments = vec![
        lf_segment("Frecciarossa 9541", Some("FR"), "Bologna Centrale", "2019-05-01T10:15:00+02:00", "Imola", "2019-05-01T10:40:00+02:00"),
        lf_segment("Same", None, "", "", "", ""),
        lf_segment("Regionale 6511", None, "Imola", "2019-05-01T10:50:00+02:00", "Cesena", "2019-05-01T11:20:00+02:00"),
    ];
    let trips = t.read_journey(&segments).unwrap().unwrap();
    assert_eq!(trips.len(), 2);
    assert!(matches!(trips[0].train_number, TrainNumber::FrecciaRossa { number: 9541 }));
    assert_eq!(trips[0].departure.0.id, "BC");
    assert_eq!(trips[0].arrival.0.id, "IMO");
    assert_eq!(trips[0].departure.1, 1_556_705_700);
    match &trips[1].train_number {
        TrainNumber::Unknown { number, name } => {
            assert_eq!(*number, 6511);
            assert_eq!(name, "");
        }
        _ => panic!("unknown category expected"),
    }
    assert_eq!(trips[1].arrival.0.id, "CSN");
}

#[test]
fn secondary_journey_with_unknown_station_is_dropped() {
    let t = registry();
    let segments = vec![lf_segment("RV 1", Some("RV"), "Bologna Centrale", "2019-05-01T10:15:00+02:00", "Xqzw Jjjk Lmnop", "2019-05-01T10:40:00+02:00")];
    assert!(t.read_journey(&segments).unwrap().is_none());
    let bad = vec![lf_segment("RV 1", Some("RV"), "Bologna Centrale", "10:15", "Imola", "2019-05-01T10:40:00+02:00")];
    assert!(matches!(t.read_journey(&bad), Err(SearchError::MalformedTime)));
    let bad = vec![lf_segment("RV X", Some("RV"), "Bologna Centrale", "2019-05-01T10:15:00+02:00", "Imola", "2019-05-01T10:40:00+02:00")];
    assert_eq!(t.read_journey(&bad).unwrap().unwrap().len(), 1);
    let bad = vec![lf_segment("RV ", Some("RV"), "Bologna Centrale", "2019-05-01T10:15:00+02:00", "Imola", "2019-05-01T10:40:00+02:00")];
    assert!(matches!(t.read_journey(&bad), Err(SearchError::MalformedTrainNumber)));
}

#[test]
fn secondary_is_asked_only_between_named_stations() {
    let t = registry();
    assert!(secondary_allowed(t.station(0), t.station(1)));
    assert!(!secondary_allowed(t.station(0), t.station(0)));
    assert!(!secondary_allowed(t.station(0), t.station(3)));
    assert!(!secondary_allowed(t.station(3), t.station(0)));
}

#[test]
fn station_autocomplete_answer() {
    let t = registry();
    assert_eq!(station_code_of("BOLOGNA CENTRALE|S05043\nBOLOGNA C.LE|S05044\n").unwrap(), "S05043");
    assert!(station_code_of("").is_none());
    assert!(station_code_of("BOLOGNA").is_none());
    assert_eq!(t.station_from_autocomplete("IMOLA|S05107\n").unwrap().id, "IMO");
    assert!(t.station_from_autocomplete("NOWHERE|S09999\n").is_none());
}

#[test]
fn train_autocomplete_answer() {
    assert_eq!(single_origin("6568 - PIACENZA|6568-S01700\n").unwrap(), "S01700");
    assert!(matches!(single_origin("1 - A|1-S1\n2 - B|1-S2\n"), Err(TrainSearchError::NotFound)));
    assert!(matches!(single_origin(""), Err(TrainSearchError::NotFound)));
    assert!(matches!(single_origin("\n\n"), Err(TrainSearchError::NotFound)));
    assert!(matches!(all_origins(""), Err(TrainSearchError::NotFound)));
    assert!(matches!(all_origins("1 - A|1-S1\nbroken\n"), Err(TrainSearchError::Malformed)));
    assert!(matches!(single_origin("6568|6568\n"), Err(TrainSearchError::Malformed)));
    let all = all_origins("1 - A|1-S1\n2 - B|1-S2\n").unwrap();
    assert_eq!(all, vec!["S1".to_string(), "S2".to_string()]);
    assert!(all_origins("1 - A|1-S1\nbroken\n").is_err());
}

#[test]
fn fare_is_matched_by_times() {
    let t = registry();
    let trip = TrainTrip {
        train_number: TrainNumber::Regionale { number: 1 },
        departure: (t.station(0).clone(), 100),
        arrival: (t.station(1).clone(), 200),
    };
    assert_eq!(trip.fare_index(&vec![(100, 250), (100, 200), (100, 200)]), Some(1));
    assert_eq!(trip.fare_index(&vec![(200, 100)]), None);
    assert_eq!(trip.get_duration(), 100);
}

fn stop(name: &str, current: bool, arr: Option<u64>, dep: Option<u64>, sched_dep: Option<u64>, platform: Option<&str>) -> VTDetailedTrainTripLeg {
    VTDetailedTrainTripLeg {
        last: false,
        stazioneCorrente: current,
        id: String::new(),
        stazione: name.to_string(),
        fermata: VTDetailedTrainTripStop {
            orientamento: None,
            kcNumTreno: None,
            stazione: name.to_string(),
            id: String::new(),
            listaCorrispondenza: None,
            programmata: None,
            partenza_teorica: sched_dep,
            programmataZero: None,
            effettiva: None,
            arrivo_teorico: None,
            ritardo: 0,
            partenzaTeoricaZero: None,
            arrivoTeoricoZero: None,
            isNextChanged: false,
            nextChanged: false,
            partenzaReale: dep,
            arrivoReale: arr,
            ritardoPartenza: 0,
            ritardoArrivo: 0,
            progressivo: 0,
            binarioEffettivoArrivoCodice: None,
            binarioEffettivoArrivoTipo: None,
            binarioEffettivoArrivoDescrizione: None,
            binarioProgrammatoArrivoCodice: None,
            binarioProgrammatoArrivoDescrizione: Some("3".to_string()),
            binarioEffettivoPartenzaCodice: None,
            binarioEffettivoPartenzaTipo: None,
            binarioEffettivoPartenzaDescrizione: platform.map(|p| p.to_string()),
            binarioProgrammatoPartenzaCodice: None,
            binarioProgrammatoPartenzaDescrizione: None,
            tipoFermata: 'F',
            visualizzaPrevista: false,
            nextTrattaType: 0,
            actualFermataType: 0,
            materiale_label: None,
        },
        partenzaReale: dep.is_some(),
        arrivoReale: arr.is_some(),
        first: false,
        orientamento: vec![],
        nextTrattaType: None,
        actualFermataType: None,
        previousTrattaType: None,
        trattaType: 0,
    }
}

#[test]
fn live_report_gives_delay_and_current_station() {
    let t = registry();
    let report = vec![
        stop("BOLOGNA CENTRALE", false, None, Some(1_000_000), Some(940_000), Some("5")),
        stop("IMOLA", true, Some(1_500_000), Some(1_700_000), Some(1_400_000), None),
        stop("CESENA", false, None, None, Some(2_000_000), None),
    ];
    let info = TrainInfo::from(&report, &t, 1_800_000).unwrap();
    assert_eq!(info.current_station.id, "IMO");
    assert_eq!(info.current_delay, 5);
    assert!(!info.is_at_station);
    assert_eq!(info.stops.len(), 3);
    assert_eq!(info.stops[0].platform, "5");
    assert_eq!(info.stops[1].platform, "3");
    assert_eq!(info.stops[0].departure, Some(1000));
    assert_eq!(info.stops[1].arrival, Some(1500));
    assert_eq!(info.stops[2].expected_departure, Some(2000));
    assert!(info.calls_at(t.station(2)));
    assert!(!info.calls_at(t.station(3)));
}

#[test]
fn live_report_before_departure() {
    let t = registry();
    let report = vec![
        stop("BOLOGNA CENTRALE", true, Some(900_000), None, Some(1_000_000), None),
        stop("IMOLA", false, None, None, None, None),
    ];
    let info = TrainInfo::from(&report, &t, 1_130_000).unwrap();
    assert_eq!(info.current_station.id, "BC");
    assert_eq!(info.current_delay, 2);
    assert!(info.is_at_station);
    let early = TrainInfo::from(&report, &t, 500_000).unwrap();
    assert_eq!(early.current_delay, 0);
    let none_current = vec![stop("IMOLA", false, None, None, None, None), stop("CESENA", false, None, None, None, None)];
    assert_eq!(TrainInfo::from(&none_current, &t, 0).unwrap().current_station.id, "CSN");
    assert!(TrainInfo::from(&vec![], &t, 0).is_none());
    assert!(TrainInfo::from(&vec![stop("Xqzw Jjjk Lmnop", false, None, None, None, None)], &t, 0).is_none());
}

#[test]
fn train_with_origin_closest_to_the_name() {
    let answer = "6568 - MILANO CENTRALE|6568-S01700\n6568 -  PIACENZA|6568-S01701\n6568 - PIACENZZA|6568-S01702\n";
    assert_eq!(closest_origin(answer, "Piacenza").unwrap(), "S01701");
    assert_eq!(closest_origin(answer, "milano centrale").unwrap(), "S01700");
    assert_eq!(closest_origin("6568 - PIACENZA|6568-S01700\n", "Roma").unwrap(), "S01700");
    assert!(matches!(closest_origin("1 - AB|1-S1\n2 - AB|2-S2\n", "xyz"), Err(TrainSearchError::NotFound)));
    assert!(matches!(closest_origin("", "Piacenza"), Err(TrainSearchError::NotFound)));
    assert!(matches!(closest_origin("1 - A|1-S1\nbroken|x\n", "A"), Err(TrainSearchError::Malformed)));
}
