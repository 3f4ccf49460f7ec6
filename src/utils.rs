//! Train classification and fuzzy matching of station names.

use vstd::prelude::*;
use vstd::string::StrSliceExecFns;

use crate::text::{
    chars_of, is_digit, lemma_lex_le_total, lex_le, lower_of, lowercase, parse_unsigned, text_eq,
    text_le, unsigned_value,
};
use crate::types::{classifies, TrainNumber};

verus! {

/// Builds a `TrainNumber` from the provider's category text and the train
/// number. The table is matched case-sensitively.
pub fn match_train_type(description: &str, number: u32) -> (r: TrainNumber)
    ensures
        classifies(description@, number, r),
{
    if text_eq(description, "RV") {
        TrainNumber::RegionaleVeloce { number }
    } else if text_eq(description, "Regionale") || text_eq(description, "REG") {
        TrainNumber::Regionale { number }
    } else if text_eq(description, "Frecciarossa") || text_eq(description, "FR") {
        TrainNumber::FrecciaRossa { number }
    } else if text_eq(description, "Frecciaargento") || text_eq(description, "FA") {
        TrainNumber::FrecciaArgento { number }
    } else if text_eq(description, "IC") {
        TrainNumber::InterCity { number }
    } else if text_eq(description, "Frecciabianca") || text_eq(description, "FB") {
        TrainNumber::FrecciaBianca { number }
    } else if text_eq(description, "ICN") {
        TrainNumber::InterCityNotte { number }
    } else if text_eq(description, "EN") {
        TrainNumber::EuroNight { number }
    } else if text_eq(description, "EC") || text_eq(description, "ECB") {
        TrainNumber::EuroCity { number }
    } else if text_eq(description, "Autobus") || text_eq(description, "BUS") {
        TrainNumber::Bus { number }
    } else {
        TrainNumber::Unknown { number, name: description.to_owned() }
    }
}

/// The Damerau-Levenshtein distance between two texts, in characters.
pub uninterp spec fn dl_distance(a: Seq<char>, b: Seq<char>) -> nat;

/// Relies on `strsim::damerau_levenshtein`: the unrestricted
/// Damerau-Levenshtein distance of the two texts, counted in characters.
/// It is at most the longer length, as the crate's normalized score, one
/// less the distance over that length, lies between 0 and 1.
#[verifier::external_body]
fn edit_distance(a: &str, b: &str) -> (r: usize)
    ensures
        r as nat == dl_distance(a@, b@),
        r <= a@.len() || r <= b@.len(),
{
    strsim::damerau_levenshtein(a, b)
}

/// A similarity score between two names, kept as an exact fraction: it
/// stands for `1 - distance / scale`. Identical names score one.
#[derive(Clone, Copy, PartialEq, Eq, Structural, Debug)]
pub struct Similarity {
    pub distance: usize,
    pub scale: usize,
}

/// A bound on similarity scores: the fraction `num / den`.
#[derive(Clone, Copy, PartialEq, Eq, Structural, Debug)]
pub struct Threshold {
    pub num: u32,
    pub den: u32,
}

impl Threshold {
    pub open spec fn wf(self) -> bool {
        0 < self.num <= self.den
    }

    /// The bound above which two station names are taken to name the same
    /// station: seven tenths.
    pub fn words_equality() -> (r: Threshold)
        ensures
            r.num == 7,
            r.den == 10,
            r.wf(),
    {
        Threshold { num: 7, den: 10 }
    }
}

proof fn lemma_wide_product(a: int, b: int)
    requires
        0 <= a <= u64::MAX,
        0 <= b <= u64::MAX,
    ensures
        0 <= a * b <= u128::MAX,
{
    assert(a * b <= u64::MAX * u64::MAX) by (nonlinear_arith)
        requires
            0 <= a <= u64::MAX,
            0 <= b <= u64::MAX,
    ;
    assert(0 <= a * b) by (nonlinear_arith)
        requires
            0 <= a,
            0 <= b,
    ;
}

impl Similarity {
    /// The score is one: the names agree but for case.
    pub open spec fn spec_is_exact(&self) -> bool {
        self.distance == 0
    }

    #[verifier::when_used_as_spec(spec_is_exact)]
    pub fn is_exact(&self) -> (r: bool)
        ensures
            r == self.spec_is_exact(),
    {
        self.distance == 0
    }

    /// `self` scores strictly higher than `other`.
    pub open spec fn spec_exceeds(&self, other: &Similarity) -> bool {
        (self.distance as int) * (other.scale as int) < (other.distance as int) * (self.scale as int)
    }

    #[verifier::when_used_as_spec(spec_exceeds)]
    pub fn exceeds(&self, other: &Similarity) -> (r: bool)
        ensures
            r == self.spec_exceeds(other),
    {
        proof {
            lemma_wide_product(self.distance as int, other.scale as int);
            lemma_wide_product(other.distance as int, self.scale as int);
        }
        let x: u128 = (self.distance as u128) * (other.scale as u128);
        let y: u128 = (other.distance as u128) * (self.scale as u128);
        x < y
    }

    /// The score is at least `t`: `1 - distance / scale >= num / den`.
    pub open spec fn spec_reaches(&self, t: Threshold) -> bool {
        (t.den as int) * (self.distance as int) <= (t.den as int - t.num as int) * (self.scale as int)
    }

    #[verifier::when_used_as_spec(spec_reaches)]
    pub fn reaches(&self, t: Threshold) -> (r: bool)
        requires
            t.wf(),
        ensures
            r == self.spec_reaches(t),
    {
        proof {
            lemma_wide_product(t.den as int, self.distance as int);
            lemma_wide_product(t.den as int - t.num as int, self.scale as int);
        }
        let x: u128 = (t.den as u128) * (self.distance as u128);
        let y: u128 = ((t.den - t.num) as u128) * (self.scale as u128);
        x <= y
    }
}

/// Scores with a positive scale are ordered as fractions: if `a` scores
/// above `b` and `b` no lower than `c`, then `a` scores above `c`.
pub proof fn lemma_exceeds_order(a: Similarity, b: Similarity, c: Similarity)
    requires
        a.scale > 0,
        b.scale > 0,
        c.scale > 0,
    ensures
        a.spec_exceeds(&b) && !c.spec_exceeds(&b) ==> a.spec_exceeds(&c),
        a.spec_exceeds(&b) && b.spec_exceeds(&c) ==> a.spec_exceeds(&c),
        !a.spec_exceeds(&b) && !b.spec_exceeds(&c) ==> !a.spec_exceeds(&c),
        a.spec_exceeds(&b) ==> !b.spec_exceeds(&a),
{
    let (ad, as_, bd, bs, cd, cs) = (
        a.distance as int,
        a.scale as int,
        b.distance as int,
        b.scale as int,
        c.distance as int,
        c.scale as int,
    );
    assert(ad * bs < bd * as_ && cd * bs >= bd * cs ==> ad * cs < cd * as_) by (nonlinear_arith)
        requires
            as_ > 0,
            bs > 0,
            cs > 0,
    ;
    assert(ad * bs < bd * as_ && bd * cs < cd * bs ==> ad * cs < cd * as_) by (nonlinear_arith)
        requires
            as_ > 0,
            bs > 0,
            cs > 0,
    ;
    assert(ad * bs >= bd * as_ && bd * cs >= cd * bs ==> ad * cs >= cd * as_) by (nonlinear_arith)
        requires
            as_ > 0,
            bs > 0,
            cs > 0,
    ;
}

/// The similarity of two names: one where they agree but for case, else
/// one less their edit distance over the longer length. The distance is
/// taken with the two lower-case forms in lexicographic order.
pub open spec fn similarity_of(a: Seq<char>, b: Seq<char>) -> Similarity {
    let la = lower_of(a);
    let lb = lower_of(b);
    if la == lb {
        Similarity { distance: 0, scale: 1 }
    } else {
        let d = if lex_le(la, lb) { dl_distance(la, lb) } else { dl_distance(lb, la) };
        let m = if la.len() >= lb.len() { la.len() } else { lb.len() };
        Similarity { distance: d as usize, scale: m as usize }
    }
}

/// Scores how alike two names are, ignoring case.
pub fn match_strings(first: &str, second: &str) -> (r: Similarity)
    ensures
        r == similarity_of(first@, second@),
        r.scale > 0,
        r.distance <= r.scale,
{
    let a: String = lowercase(first);
    let b: String = lowercase(second);
    if a == b {
        return Similarity { distance: 0, scale: 1 };
    }
    proof {
        if a@.len() == 0 && b@.len() == 0 {
            assert(a@ =~= b@);
        }
    }
    let la: usize = a.as_str().unicode_len();
    let lb: usize = b.as_str().unicode_len();
    let d: usize = if text_le(a.as_str(), b.as_str()) {
        edit_distance(a.as_str(), b.as_str())
    } else {
        edit_distance(b.as_str(), a.as_str())
    };
    Similarity { distance: d, scale: if la >= lb { la } else { lb } }
}

/// A name is fully similar to itself, and similarity does not depend on
/// the order of the two names.
pub proof fn lemma_similarity_reflexive_symmetric(a: Seq<char>, b: Seq<char>)
    ensures
        similarity_of(a, a).is_exact(),
        similarity_of(a, b) == similarity_of(b, a),
{
    lemma_lex_le_total(lower_of(a), lower_of(b));
}

/// Two results of classifying the same code and number agree: the same
/// category, the same number and, for an unknown code, the same text.
pub proof fn lemma_classify_deterministic(code: Seq<char>, number: u32, a: TrainNumber, b: TrainNumber)
    requires
        classifies(code, number, a),
        classifies(code, number, b),
    ensures
        a.spec_number() == number,
        b.spec_number() == number,
        a is Unknown <==> b is Unknown,
        !(a is Unknown) ==> a == b,
        a is Unknown ==> a->Unknown_name@ == code && b->Unknown_name@ == code,
{
}

/// `s` with every character that is no decimal digit replaced by `0`.
pub open spec fn digits_or_zero(s: Seq<char>) -> Seq<char> {
    s.map_values(|c: char| if is_digit(c) { c } else { '0' })
}

/// The train number that a provider's text gives: the text read as a
/// number; failing that, the text with its other characters read as zeros.
pub open spec fn train_number_value(s: Seq<char>) -> Option<int> {
    match unsigned_value(s, u32::MAX as int) {
        Some(v) => Some(v),
        None => unsigned_value(digits_or_zero(s), u32::MAX as int),
    }
}

/// Reads a train number as providers write it, non-digits and all.
pub fn parse_train_number(text: &str) -> (r: Option<u32>)
    ensures
        match r {
            Some(n) => train_number_value(text@) == Some(n as int),
            None => train_number_value(text@) is None,
        },
{
    let chars: Vec<char> = chars_of(text);
    if let Some(n) = parse_unsigned(&chars, u32::MAX) {
        return Some(n);
    }
    let mut zeroed: Vec<char> = Vec::new();
    let mut i: usize = 0;
    while i < chars.len()
        invariant
            i <= chars@.len(),
            chars@ == text@,
            zeroed@ == digits_or_zero(chars@).subrange(0, i as int),
        decreases chars@.len() - i,
    {
        let c: char = chars[i];
        let z: char = if '0' <= c && c <= '9' { c } else { '0' };
        zeroed.push(z);
        assert(zeroed@ =~= digits_or_zero(chars@).subrange(0, i + 1));
        i = i + 1;
    }
    assert(zeroed@ =~= digits_or_zero(chars@));
    parse_unsigned(&zeroed, u32::MAX)
}

} // verus!
