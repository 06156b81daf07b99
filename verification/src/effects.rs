//! The effect registry: the registered effect names and their lookup.
//!
//! The timeline stores effects as a name plus a numeric parameter bag; the
//! registry resolves a name to the effect kind that the renderer
//! instantiates with those parameters.

use vstd::prelude::*;
use crate::text::{decimal, push_decimal};

verus! {

/// Errors surfaced by the effects crate.
#[derive(Debug)]
pub enum EffectError {
    /// An unknown effect name was requested from the registry.
    UnknownEffect(String),
    /// A GPU operation failed.
    Gpu(String),
}

/// The registered effects.
#[derive(Clone, Copy, PartialEq, Eq, Structural, Debug)]
pub enum EffectKind {
    /// `gaussian_blur`
    GaussianBlur,
    /// `box_blur`
    BoxBlur,
    /// `motion_blur`
    MotionBlur,
    /// `sharpen`
    Sharpen,
    /// `color_correct`
    ColorCorrect,
    /// `levels`
    Levels,
    /// `curves`
    Curves,
    /// `chroma_key`
    ChromaKey,
    /// `noise`
    Noise,
    /// `noise_reduction`
    NoiseReduction,
    /// `vignette`
    Vignette,
}

/// Every registered effect name, in registry order.
pub open spec fn registered_names() -> Seq<Seq<char>> {
    seq![
        "gaussian_blur"@,
        "box_blur"@,
        "motion_blur"@,
        "sharpen"@,
        "color_correct"@,
        "levels"@,
        "curves"@,
        "chroma_key"@,
        "noise"@,
        "noise_reduction"@,
        "vignette"@,
    ]
}

/// The registered name of each kind.
pub open spec fn kind_name(k: EffectKind) -> Seq<char> {
    match k {
        EffectKind::GaussianBlur => "gaussian_blur"@,
        EffectKind::BoxBlur => "box_blur"@,
        EffectKind::MotionBlur => "motion_blur"@,
        EffectKind::Sharpen => "sharpen"@,
        EffectKind::ColorCorrect => "color_correct"@,
        EffectKind::Levels => "levels"@,
        EffectKind::Curves => "curves"@,
        EffectKind::ChromaKey => "chroma_key"@,
        EffectKind::Noise => "noise"@,
        EffectKind::NoiseReduction => "noise_reduction"@,
        EffectKind::Vignette => "vignette"@,
    }
}

/// The number of GPU passes each effect renders: the separable blurs
/// (gaussian and box) run a horizontal and then a vertical pass; every
/// other effect runs one pass.
pub open spec fn kind_pass_count(k: EffectKind) -> nat {
    match k {
        EffectKind::GaussianBlur | EffectKind::BoxBlur => 2,
        _ => 1,
    }
}

/// Law: every registered effect renders at least one pass.
pub proof fn lemma_every_effect_has_a_pass(k: EffectKind)
    ensures
        kind_pass_count(k) >= 1,
{
}

impl EffectKind {
    /// The number of GPU passes this effect renders (see
    /// [`kind_pass_count`]).
    pub fn pass_count(&self) -> (n: usize)
        ensures
            n == kind_pass_count(*self),
            n >= 1,
    {
        match self {
            EffectKind::GaussianBlur | EffectKind::BoxBlur => 2,
            _ => 1,
        }
    }

    /// The registered name of this effect.
    pub fn name(&self) -> (s: &'static str)
        ensures
            s@ == kind_name(*self),
    {
        match self {
            EffectKind::GaussianBlur => "gaussian_blur",
            EffectKind::BoxBlur => "box_blur",
            EffectKind::MotionBlur => "motion_blur",
            EffectKind::Sharpen => "sharpen",
            EffectKind::ColorCorrect => "color_correct",
            EffectKind::Levels => "levels",
            EffectKind::Curves => "curves",
            EffectKind::ChromaKey => "chroma_key",
            EffectKind::Noise => "noise",
            EffectKind::NoiseReduction => "noise_reduction",
            EffectKind::Vignette => "vignette",
        }
    }
}

/// Every registered effect name.
pub fn registered_effects() -> (names: Vec<&'static str>)
    ensures
        names@.len() == registered_names().len(),
        forall|i: int| 0 <= i < names@.len() ==> (#[trigger] names@[i])@ == registered_names()[i],
{
    let names = vec![
        "gaussian_blur",
        "box_blur",
        "motion_blur",
        "sharpen",
        "color_correct",
        "levels",
        "curves",
        "chroma_key",
        "noise",
        "noise_reduction",
        "vignette",
    ];
    names
}

/// Resolves a registered effect name.
///
/// Fails with [`EffectError::UnknownEffect`] (carrying the name) for
/// unregistered names.
pub fn effect_kind(name: &str) -> (res: Result<EffectKind, EffectError>)
    ensures
        match res {
            Ok(k) => kind_name(k) == name@,
            Err(EffectError::UnknownEffect(n)) => n@ == name@ && !registered_names().contains(name@),
            Err(EffectError::Gpu(_)) => false,
        },
{
    let kinds = [
        EffectKind::GaussianBlur,
        EffectKind::BoxBlur,
        EffectKind::MotionBlur,
        EffectKind::Sharpen,
        EffectKind::ColorCorrect,
        EffectKind::Levels,
        EffectKind::Curves,
        EffectKind::ChromaKey,
        EffectKind::Noise,
        EffectKind::NoiseReduction,
        EffectKind::Vignette,
    ];
    let wanted = name.to_owned();
    let mut i: usize = 0;
    while i < 11
        invariant
            wanted@ == name@,
            i <= 11,
            forall|k: int| 0 <= k < 11 ==> kind_name(#[trigger] kinds[k]) == registered_names()[k],
            forall|k: int| 0 <= k < i ==> registered_names()[k] != name@,
        decreases 11 - i,
    {
        let kind = kinds[i];
        let candidate = kind.name().to_owned();
        if candidate == wanted {
            return Ok(kind);
        }
        i += 1;
    }
    assert(!registered_names().contains(name@)) by {
        if registered_names().contains(name@) {
            let k = choose|k: int| 0 <= k < registered_names().len() && registered_names()[k] == name@;
        }
    }
    Err(EffectError::UnknownEffect(wanted))
}

/// The name of every effect kind is in the registry.
pub proof fn lemma_every_kind_is_registered(k: EffectKind)
    ensures
        registered_names().contains(kind_name(k)),
{
    let names = registered_names();
    match k {
        EffectKind::GaussianBlur => assert(names[0] == kind_name(k)),
        EffectKind::BoxBlur => assert(names[1] == kind_name(k)),
        EffectKind::MotionBlur => assert(names[2] == kind_name(k)),
        EffectKind::Sharpen => assert(names[3] == kind_name(k)),
        EffectKind::ColorCorrect => assert(names[4] == kind_name(k)),
        EffectKind::Levels => assert(names[5] == kind_name(k)),
        EffectKind::Curves => assert(names[6] == kind_name(k)),
        EffectKind::ChromaKey => assert(names[7] == kind_name(k)),
        EffectKind::Noise => assert(names[8] == kind_name(k)),
        EffectKind::NoiseReduction => assert(names[9] == kind_name(k)),
        EffectKind::Vignette => assert(names[10] == kind_name(k)),
    }
}

/// The texel bytes of a curve LUT texture: the RGBA entries laid out one
/// after another.
pub fn flatten_curve_lut(lut: &Vec<[u8; 4]>) -> (bytes: Vec<u8>)
    requires
        lut.len() * 4 <= usize::MAX,
    ensures
        bytes@.len() == lut@.len() * 4,
        forall|i: int, c: int| 0 <= i < lut@.len() && 0 <= c < 4 ==> #[trigger] bytes@[i * 4 + c] == lut@[i][c],
{
    let mut bytes: Vec<u8> = Vec::new();
    let mut i: usize = 0;
    while i < lut.len()
        invariant
            i <= lut@.len(),
            lut@.len() * 4 <= usize::MAX,
            bytes@.len() == i * 4,
            forall|k: int, c: int| 0 <= k < i && 0 <= c < 4 ==> #[trigger] bytes@[k * 4 + c] == lut@[k][c],
        decreases lut@.len() - i,
    {
        let entry = lut[i];
        let ghost before = bytes@;
        bytes.push(entry[0]);
        bytes.push(entry[1]);
        bytes.push(entry[2]);
        bytes.push(entry[3]);
        assert forall|k: int, c: int| 0 <= k < i + 1 && 0 <= c < 4 implies #[trigger] bytes@[k * 4 + c] == lut@[k][c] by {
            if k < i {
                assert(bytes@[k * 4 + c] == before[k * 4 + c]);
            }
        }
        i += 1;
    }
    bytes
}

/// The keyframe property that animates parameter `key` of the effect at
/// `index` in a clip's chain: `effects.{index}.{key}`.
pub open spec fn effect_param_property_spec(index: nat, key: Seq<char>) -> Seq<char> {
    "effects."@ + decimal(index) + "."@ + key
}

/// The keyframe property name of parameter `key` of the effect at `index`.
pub fn effect_param_property(index: usize, key: &str) -> (property: String)
    ensures
        property@ == effect_param_property_spec(index as nat, key@),
{
    let mut property = String::new();
    property.append("effects.");
    push_decimal(&mut property, index as u128);
    property.append(".");
    property.append(key);
    property
}

} // verus!
