//! The primary provider's responses, field for field.

#![allow(non_snake_case)]

use vstd::prelude::*;

verus! {

/// A journey search answer.
#[derive(Debug)]
pub struct VTJourneySearchResult {
    pub soluzioni: Vec<VTTrainSolution>,
    pub origine: String,
    pub destinazione: String,
    pub errore: Option<String>,
}

/// One journey option: its legs, in order.
#[derive(Debug)]
pub struct VTTrainSolution {
    pub durata: Option<String>,
    pub vehicles: Vec<VTTrainTripLeg>,
}

/// One leg of a journey option.
#[derive(Debug)]
pub struct VTTrainTripLeg {
    pub origine: Option<String>,
    pub destinazione: Option<String>,
    pub orarioPartenza: String,
    pub orarioArrivo: String,
    pub categoria: Option<String>,
    pub categoriaDescrizione: String,
    pub numeroTreno: String,
}

/// A stop as the live train position service reports it; times are in
/// milliseconds since the epoch.
#[derive(Debug)]
pub struct VTDetailedTrainTripStop {
    pub orientamento: Option<Vec<String>>,
    pub kcNumTreno: Option<String>,
    pub stazione: String,
    pub id: String,
    pub listaCorrispondenza: Option<Vec<String>>,
    pub programmata: Option<u64>,
    pub partenza_teorica: Option<u64>,
    pub programmataZero: Option<u64>,
    pub effettiva: Option<u64>,
    pub arrivo_teorico: Option<u64>,
    pub ritardo: i16,
    pub partenzaTeoricaZero: Option<u64>,
    pub arrivoTeoricoZero: Option<u64>,
    pub isNextChanged: bool,
    pub nextChanged: bool,
    pub partenzaReale: Option<u64>,
    pub arrivoReale: Option<u64>,
    pub ritardoPartenza: i16,
    pub ritardoArrivo: i16,
    pub progressivo: i32,
    pub binarioEffettivoArrivoCodice: Option<String>,
    pub binarioEffettivoArrivoTipo: Option<String>,
    pub binarioEffettivoArrivoDescrizione: Option<String>,
    pub binarioProgrammatoArrivoCodice: Option<String>,
    pub binarioProgrammatoArrivoDescrizione: Option<String>,
    pub binarioEffettivoPartenzaCodice: Option<String>,
    pub binarioEffettivoPartenzaTipo: Option<String>,
    pub binarioEffettivoPartenzaDescrizione: Option<String>,
    pub binarioProgrammatoPartenzaCodice: Option<String>,
    pub binarioProgrammatoPartenzaDescrizione: Option<String>,
    pub tipoFermata: char,
    pub visualizzaPrevista: bool,
    pub nextTrattaType: i8,
    pub actualFermataType: i8,
    pub materiale_label: Option<String>,
}

/// One stretch of a train's run, ending at a stop.
#[derive(Debug)]
pub struct VTDetailedTrainTripLeg {
    pub last: bool,
    pub stazioneCorrente: bool,
    pub id: String,
    pub stazione: String,
    pub fermata: VTDetailedTrainTripStop,
    pub partenzaReale: bool,
    pub arrivoReale: bool,
    pub first: bool,
    pub orientamento: Vec<String>,
    pub nextTrattaType: Option<i8>,
    pub actualFermataType: Option<i8>,
    pub previousTrattaType: Option<i8>,
    pub trattaType: i8,
}

} // verus!
