//! The filter engine's data: bands, coefficients, and the limits they live under.
use crate::double::Double;
use vstd::prelude::*;

verus! {

/// Hard cap on bands in the cascade, so the sample loop never allocates. More are refused rather
/// than silently truncating a correction.
pub const MAX_BANDS: usize = 64;

/// The shape of one band.
#[derive(Clone, Copy, PartialEq, Eq, Structural, Debug)]
pub enum FilterKind {
    Peaking,
    LowShelf,
    HighShelf,
    /// Band-pass at unity peak; the gain is ignored (the isolate audition).
    Bandpass,
}

/// One band of a correction.
#[derive(Clone, Copy, PartialEq, Eq, Structural, Debug)]
pub struct Band {
    pub kind: FilterKind,
    pub freq_hz: Double,
    pub gain_db: Double,
    pub q: Double,
}

/// One biquad's difference-equation coefficients, `a0` normalised to 1 and `a1`/`a2` in the
/// standard (un-negated) convention.
#[derive(Clone, Copy, PartialEq, Eq, Structural, Debug)]
pub struct Coeffs {
    pub b0: Double,
    pub b1: Double,
    pub b2: Double,
    pub a1: Double,
    pub a2: Double,
}

/// How a filter's response is designed.
#[derive(Clone, Copy, PartialEq, Eq, Structural, Debug)]
pub enum ResponseModel {
    /// The usual cookbook forms.
    Rbj,
    /// Matched to the analog prototype.
    AnalogMatched,
}

/// The filter that a numeric code stands for.
pub open spec fn kind_of_code(code: u32) -> Option<FilterKind> {
    if code == 0 {
        Some(FilterKind::Peaking)
    } else if code == 1 {
        Some(FilterKind::LowShelf)
    } else if code == 2 {
        Some(FilterKind::HighShelf)
    } else if code == 3 {
        Some(FilterKind::Bandpass)
    } else {
        None
    }
}

/// The model that a numeric code stands for.
pub open spec fn model_of_code(code: u32) -> Option<ResponseModel> {
    if code == 0 {
        Some(ResponseModel::Rbj)
    } else if code == 1 {
        Some(ResponseModel::AnalogMatched)
    } else {
        None
    }
}

/// What a design request by numeric codes asks for. A code that is not known is refused rather than
/// guessed at.
pub fn biquad_design(kind: u32, freq_hz: Double, gain_db: Double, q: Double, model: u32) -> (r: Option<
    (Band, ResponseModel),
>)
    ensures
        r == (match (kind_of_code(kind), model_of_code(model)) {
            (Some(kind), Some(model)) => Some((Band { kind, freq_hz, gain_db, q }, model)),
            _ => None,
        }),
{
    let kind: FilterKind = match kind {
        0 => FilterKind::Peaking,
        1 => FilterKind::LowShelf,
        2 => FilterKind::HighShelf,
        3 => FilterKind::Bandpass,
        _ => {
            return None;
        },
    };
    let model: ResponseModel = match model {
        0 => ResponseModel::Rbj,
        1 => ResponseModel::AnalogMatched,
        _ => {
            return None;
        },
    };
    Some((Band { kind, freq_hz, gain_db, q }, model))
}

/// Each kind and each model has one code, and no other code stands for anything.
pub proof fn law_codes_name_one_thing(a: u32, b: u32)
    ensures
        kind_of_code(a) is Some <==> a < 4,
        model_of_code(a) is Some <==> a < 2,
        kind_of_code(a) == kind_of_code(b) && kind_of_code(a) is Some ==> a == b,
        model_of_code(a) == model_of_code(b) && model_of_code(a) is Some ==> a == b,
        kind_of_code(a) == Some(FilterKind::Peaking) <==> a == 0,
        kind_of_code(a) == Some(FilterKind::LowShelf) <==> a == 1,
        kind_of_code(a) == Some(FilterKind::HighShelf) <==> a == 2,
        kind_of_code(a) == Some(FilterKind::Bandpass) <==> a == 3,
        model_of_code(a) == Some(ResponseModel::Rbj) <==> a == 0,
        model_of_code(a) == Some(ResponseModel::AnalogMatched) <==> a == 1,
{
}

} // verus!
