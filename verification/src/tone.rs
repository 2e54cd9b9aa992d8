//! Skin tones and the fixed enumeration order of skin-tone families.
//!
//! A family holds at most one record per tone, laid out contiguously in
//! table order: `Default` first, then the five single tones, then (for
//! two-person emoji) the twenty ordered pairs of distinct tones, in the
//! order the `rank` function gives. A same-tone pair collapses to the
//! single tone.

use vstd::prelude::*;

verus! {

/// The skin tone of an emoji: the default, one of five modifiers, or an
/// ordered pair of two distinct modifiers for two-person emoji.
#[derive(Debug, Clone, Copy, PartialEq, Eq, Hash, Structural)]
#[non_exhaustive]
pub enum SkinTone {
    Default,
    Light,
    MediumLight,
    Medium,
    MediumDark,
    Dark,
    LightAndMediumLight,
    LightAndMedium,
    LightAndMediumDark,
    LightAndDark,
    MediumLightAndLight,
    MediumLightAndMedium,
    MediumLightAndMediumDark,
    MediumLightAndDark,
    MediumAndLight,
    MediumAndMediumLight,
    MediumAndMediumDark,
    MediumAndDark,
    MediumDarkAndLight,
    MediumDarkAndMediumLight,
    MediumDarkAndMedium,
    MediumDarkAndDark,
    DarkAndLight,
    DarkAndMediumLight,
    DarkAndMedium,
    DarkAndMediumDark,
}

/// The position of a tone in the fixed family enumeration order.
pub open spec fn tone_rank(t: SkinTone) -> int {
    match t {
        SkinTone::Default => 0,
        SkinTone::Light => 1,
        SkinTone::MediumLight => 2,
        SkinTone::Medium => 3,
        SkinTone::MediumDark => 4,
        SkinTone::Dark => 5,
        SkinTone::LightAndMediumLight => 6,
        SkinTone::LightAndMedium => 7,
        SkinTone::LightAndMediumDark => 8,
        SkinTone::LightAndDark => 9,
        SkinTone::MediumLightAndLight => 10,
        SkinTone::MediumLightAndMedium => 11,
        SkinTone::MediumLightAndMediumDark => 12,
        SkinTone::MediumLightAndDark => 13,
        SkinTone::MediumAndLight => 14,
        SkinTone::MediumAndMediumLight => 15,
        SkinTone::MediumAndMediumDark => 16,
        SkinTone::MediumAndDark => 17,
        SkinTone::MediumDarkAndLight => 18,
        SkinTone::MediumDarkAndMediumLight => 19,
        SkinTone::MediumDarkAndMedium => 20,
        SkinTone::MediumDarkAndDark => 21,
        SkinTone::DarkAndLight => 22,
        SkinTone::DarkAndMediumLight => 23,
        SkinTone::DarkAndMedium => 24,
        SkinTone::DarkAndMediumDark => 25,
    }
}

/// A tone carried by a single modifier code point.
pub open spec fn is_single_tone(t: SkinTone) -> bool {
    1 <= tone_rank(t) <= 5
}

/// The skin tone, if any, that a single character denotes.
pub open spec fn spec_modifier_of(c: char) -> Option<SkinTone> {
    if c == '\u{1f3fb}' { Some(SkinTone::Light) }
    else if c == '\u{1f3fc}' { Some(SkinTone::MediumLight) }
    else if c == '\u{1f3fd}' { Some(SkinTone::Medium) }
    else if c == '\u{1f3fe}' { Some(SkinTone::MediumDark) }
    else if c == '\u{1f3ff}' { Some(SkinTone::Dark) }
    else { None }
}

/// The tone identified by an ordered pair of single tones; a same-tone
/// pair collapses to the single tone.
pub open spec fn spec_pair(a: SkinTone, b: SkinTone) -> SkinTone {
    if a == b {
        a
    } else {
        match (a, b) {
            (SkinTone::Light, SkinTone::MediumLight) => SkinTone::LightAndMediumLight,
            (SkinTone::Light, SkinTone::Medium) => SkinTone::LightAndMedium,
            (SkinTone::Light, SkinTone::MediumDark) => SkinTone::LightAndMediumDark,
            (SkinTone::Light, SkinTone::Dark) => SkinTone::LightAndDark,
            (SkinTone::MediumLight, SkinTone::Light) => SkinTone::MediumLightAndLight,
            (SkinTone::MediumLight, SkinTone::Medium) => SkinTone::MediumLightAndMedium,
            (SkinTone::MediumLight, SkinTone::MediumDark) => SkinTone::MediumLightAndMediumDark,
            (SkinTone::MediumLight, SkinTone::Dark) => SkinTone::MediumLightAndDark,
            (SkinTone::Medium, SkinTone::Light) => SkinTone::MediumAndLight,
            (SkinTone::Medium, SkinTone::MediumLight) => SkinTone::MediumAndMediumLight,
            (SkinTone::Medium, SkinTone::MediumDark) => SkinTone::MediumAndMediumDark,
            (SkinTone::Medium, SkinTone::Dark) => SkinTone::MediumAndDark,
            (SkinTone::MediumDark, SkinTone::Light) => SkinTone::MediumDarkAndLight,
            (SkinTone::MediumDark, SkinTone::MediumLight) => SkinTone::MediumDarkAndMediumLight,
            (SkinTone::MediumDark, SkinTone::Medium) => SkinTone::MediumDarkAndMedium,
            (SkinTone::MediumDark, SkinTone::Dark) => SkinTone::MediumDarkAndDark,
            (SkinTone::Dark, SkinTone::Light) => SkinTone::DarkAndLight,
            (SkinTone::Dark, SkinTone::MediumLight) => SkinTone::DarkAndMediumLight,
            (SkinTone::Dark, SkinTone::Medium) => SkinTone::DarkAndMedium,
            (SkinTone::Dark, SkinTone::MediumDark) => SkinTone::DarkAndMediumDark,
            _ => SkinTone::Default,
        }
    }
}

/// The five modifier tones, in enumeration order.
pub fn skin_tones() -> (r: Vec<SkinTone>)
    ensures
        r@ == seq![
            SkinTone::Light,
            SkinTone::MediumLight,
            SkinTone::Medium,
            SkinTone::MediumDark,
            SkinTone::Dark,
        ],
{
    let mut v: Vec<SkinTone> = Vec::new();
    v.push(SkinTone::Light);
    v.push(SkinTone::MediumLight);
    v.push(SkinTone::Medium);
    v.push(SkinTone::MediumDark);
    v.push(SkinTone::Dark);
    proof {
        assert(v@ =~= seq![
            SkinTone::Light,
            SkinTone::MediumLight,
            SkinTone::Medium,
            SkinTone::MediumDark,
            SkinTone::Dark,
        ]);
    }
    v
}

impl SkinTone {
    /// The position of this tone in the fixed family enumeration order.
    pub fn rank(self) -> (r: u8)
        ensures
            r as int == tone_rank(self),
    {
        match self {
            SkinTone::Default => 0,
            SkinTone::Light => 1,
            SkinTone::MediumLight => 2,
            SkinTone::Medium => 3,
            SkinTone::MediumDark => 4,
            SkinTone::Dark => 5,
            SkinTone::LightAndMediumLight => 6,
            SkinTone::LightAndMedium => 7,
            SkinTone::LightAndMediumDark => 8,
            SkinTone::LightAndDark => 9,
            SkinTone::MediumLightAndLight => 10,
            SkinTone::MediumLightAndMedium => 11,
            SkinTone::MediumLightAndMediumDark => 12,
            SkinTone::MediumLightAndDark => 13,
            SkinTone::MediumAndLight => 14,
            SkinTone::MediumAndMediumLight => 15,
            SkinTone::MediumAndMediumDark => 16,
            SkinTone::MediumAndDark => 17,
            SkinTone::MediumDarkAndLight => 18,
            SkinTone::MediumDarkAndMediumLight => 19,
            SkinTone::MediumDarkAndMedium => 20,
            SkinTone::MediumDarkAndDark => 21,
            SkinTone::DarkAndLight => 22,
            SkinTone::DarkAndMediumLight => 23,
            SkinTone::DarkAndMedium => 24,
            SkinTone::DarkAndMediumDark => 25,
        }
    }

    /// The modifier code point that carries this single tone.
    pub fn code_point(self) -> (r: char)
        requires
            is_single_tone(self),
        ensures
            spec_modifier_of(r) == Some(self),
    {
        match self {
            SkinTone::Light => '\u{1f3fb}',
            SkinTone::MediumLight => '\u{1f3fc}',
            SkinTone::Medium => '\u{1f3fd}',
            SkinTone::MediumDark => '\u{1f3fe}',
            _ => '\u{1f3ff}',
        }
    }
}

/// The skin tone, if any, that a single character denotes.
pub fn modifier_of(c: char) -> (r: Option<SkinTone>)
    ensures
        r == spec_modifier_of(c),
{
    if c == '\u{1f3fb}' { Some(SkinTone::Light) }
    else if c == '\u{1f3fc}' { Some(SkinTone::MediumLight) }
    else if c == '\u{1f3fd}' { Some(SkinTone::Medium) }
    else if c == '\u{1f3fe}' { Some(SkinTone::MediumDark) }
    else if c == '\u{1f3ff}' { Some(SkinTone::Dark) }
    else { None }
}

/// The tone identified by an ordered pair of single tones.
pub fn pair(a: SkinTone, b: SkinTone) -> (r: SkinTone)
    requires
        is_single_tone(a),
        is_single_tone(b),
    ensures
        r == spec_pair(a, b),
{
    if a == b {
        a
    } else {
        match (a, b) {
            (SkinTone::Light, SkinTone::MediumLight) => SkinTone::LightAndMediumLight,
            (SkinTone::Light, SkinTone::Medium) => SkinTone::LightAndMedium,
            (SkinTone::Light, SkinTone::MediumDark) => SkinTone::LightAndMediumDark,
            (SkinTone::Light, SkinTone::Dark) => SkinTone::LightAndDark,
            (SkinTone::MediumLight, SkinTone::Light) => SkinTone::MediumLightAndLight,
            (SkinTone::MediumLight, SkinTone::Medium) => SkinTone::MediumLightAndMedium,
            (SkinTone::MediumLight, SkinTone::MediumDark) => SkinTone::MediumLightAndMediumDark,
            (SkinTone::MediumLight, SkinTone::Dark) => SkinTone::MediumLightAndDark,
            (SkinTone::Medium, SkinTone::Light) => SkinTone::MediumAndLight,
            (SkinTone::Medium, SkinTone::MediumLight) => SkinTone::MediumAndMediumLight,
            (SkinTone::Medium, SkinTone::MediumDark) => SkinTone::MediumAndMediumDark,
            (SkinTone::Medium, SkinTone::Dark) => SkinTone::MediumAndDark,
            (SkinTone::MediumDark, SkinTone::Light) => SkinTone::MediumDarkAndLight,
            (SkinTone::MediumDark, SkinTone::MediumLight) => SkinTone::MediumDarkAndMediumLight,
            (SkinTone::MediumDark, SkinTone::Medium) => SkinTone::MediumDarkAndMedium,
            (SkinTone::MediumDark, SkinTone::Dark) => SkinTone::MediumDarkAndDark,
            (SkinTone::Dark, SkinTone::Light) => SkinTone::DarkAndLight,
            (SkinTone::Dark, SkinTone::MediumLight) => SkinTone::DarkAndMediumLight,
            (SkinTone::Dark, SkinTone::Medium) => SkinTone::DarkAndMedium,
            _ => SkinTone::DarkAndMediumDark,
        }
    }
}

} // verus!
