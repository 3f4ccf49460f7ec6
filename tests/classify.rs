use trenitalia::types::TrainNumber;
use trenitalia::utils::match_train_type;

#[test]
fn known_codes_map_to_their_category() {
    assert!(matches!(match_train_type("RV", 2301), TrainNumber::RegionaleVeloce { number: 2301 }));
    assert!(matches!(match_train_type("REG", 6568), TrainNumber::Regionale { number: 6568 }));
    assert!(matches!(match_train_type("Regionale", 1), TrainNumber::Regionale { number: 1 }));
    assert!(matches!(match_train_type("FR", 9500), TrainNumber::FrecciaRossa { number: 9500 }));
    assert!(matches!(match_train_type("Frecciarossa", 9), TrainNumber::FrecciaRossa { number: 9 }));
    assert!(matches!(match_train_type("FA", 8), TrainNumber::FrecciaArgento { number: 8 }));
    assert!(matches!(match_train_type("Frecciaargento", 8), TrainNumber::FrecciaArgento { number: 8 }));
    assert!(matches!(match_train_type("IC", 583), TrainNumber::InterCity { number: 583 }));
    assert!(matches!(match_train_type("FB", 7), TrainNumber::FrecciaBianca { number: 7 }));
    assert!(matches!(match_train_type("Frecciabianca", 7), TrainNumber::FrecciaBianca { number: 7 }));
    assert!(matches!(match_train_type("ICN", 35), TrainNumber::InterCityNotte { number: 35 }));
    assert!(matches!(match_train_type("EN", 40), TrainNumber::EuroNight { number: 40 }));
    assert!(matches!(match_train_type("EC", 2019), TrainNumber::EuroCity { number: 2019 }));
    assert!(matches!(match_train_type("ECB", 2019), TrainNumber::EuroCity { number: 2019 }));
    assert!(matches!(match_train_type("BUS", 3), TrainNumber::Bus { number: 3 }));
    assert!(matches!(match_train_type("Autobus", 3), TrainNumber::Bus { number: 3 }));
}

#[test]
fn unknown_code_keeps_its_text() {
    match match_train_type("rv", 12) {
        TrainNumber::Unknown { number, name } => {
            assert_eq!(number, 12);
            assert_eq!(name, "rv");
        }
        _ => panic!("case must matter"),
    }
    match match_train_type("Treno storico", 0) {
        TrainNumber::Unknown { number, name } => {
            assert_eq!(number, 0);
            assert_eq!(name, "Treno storico");
        }
        _ => panic!("unknown category expected"),
    }
}

#[test]
fn classification_is_repeatable() {
    let a = match_train_type("Frecciabianca", 8807);
    let b = match_train_type("Frecciabianca", 8807);
    assert!(matches!(a, TrainNumber::FrecciaBianca { number: 8807 }));
    assert!(matches!(b, TrainNumber::FrecciaBianca { number: 8807 }));
    assert_eq!(a.number(), b.number());
}

#[test]
fn train_number_is_written_with_its_code() {
    let a = TrainNumber::EuroCity { number: 2019 };
    assert_eq!(a.to_string(), "EC2019");
    assert_eq!(TrainNumber::FrecciaRossa { number: 9541 }.to_string(), "ES*FR9541");
    assert_eq!(TrainNumber::Unknown { number: 7, name: "X".to_string() }.to_string(), "?7");
    assert_eq!(TrainNumber::Regionale { number: 0 }.to_string(), "R0");
}
