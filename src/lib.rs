//! Journey planning over the Italian railway network: a registry of
//! stations, fuzzy station-name matching, train classification and the
//! stitching of trip legs reported by two independent providers.

pub mod autocomplete;
pub mod lefrecce;
pub mod live;
pub mod mapping;
pub mod registry;
pub mod stitch;
pub mod tables;
pub mod text;
pub mod time;
pub mod types;
pub mod utils;
pub mod viaggiatreno;

pub use registry::Trenitalia;
pub use stitch::Itinerary;
pub use types::{TrainNumber, TrainStation, TrainTrip};
