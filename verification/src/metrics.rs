//! Font metrics, and the system fonts that stand in by default.

use vstd::prelude::*;
use crate::binary64::Binary64;

verus! {

/// The generic CSS families that have a default fallback font.
#[derive(Clone, Copy, Debug, PartialEq, Eq, Hash, Structural)]
pub enum GenericFamily {
    SansSerif,
    Serif,
}

/// The metrics of the webfont that a fallback is to approximate, in the
/// font's own design units.
#[derive(Clone, Copy, Debug, PartialEq, Eq, Hash, Structural)]
pub struct FontMetrics {
    pub ascent: Binary64,
    pub descent: Binary64,
    pub line_gap: Binary64,
    /// The average advance width of the font's glyphs.
    pub avg_char_width: Binary64,
    /// The resolution of the design grid.
    pub units_per_em: u32,
}

/// A system font that is installed widely enough to serve as a fallback,
/// with the two numbers by which another font is measured against it.
#[derive(Clone, Debug, PartialEq, Eq)]
pub struct DefaultFallbackFont {
    /// The family name as it is displayed, and as a local font is asked for.
    pub name: String,
    /// The key under which the font's precomputed metrics are filed.
    pub capsize_key: String,
    /// The average advance width of the lowercase letters a to z.
    pub az_avg_width: Binary64,
    pub units_per_em: u32,
}

/// What a [`DefaultFallbackFont`] holds, with its strings as sequences.
pub ghost struct DefaultFallbackFontView {
    pub name: Seq<char>,
    pub capsize_key: Seq<char>,
    pub az_avg_width: Binary64,
    pub units_per_em: u32,
}

impl View for DefaultFallbackFont {
    type V = DefaultFallbackFontView;

    open spec fn view(&self) -> DefaultFallbackFontView {
        DefaultFallbackFontView {
            name: self.name@,
            capsize_key: self.capsize_key@,
            az_avg_width: self.az_avg_width,
            units_per_em: self.units_per_em,
        }
    }
}

/// The average lowercase advance of Arial, 40184/43 design units rounded to
/// binary64.
pub const SANS_SERIF_AVG_WIDTH_BITS: u64 = 0x408d_3417_d05f_417d;

/// The average lowercase advance of Times New Roman, 36739/43 design units
/// rounded to binary64.
pub const SERIF_AVG_WIDTH_BITS: u64 = 0x408a_b329_aca6_b29b;

/// The design grid of both default fonts.
pub const DEFAULT_UNITS_PER_EM: u32 = 2048;

/// The default fallback of each generic family: Arial for sans-serif, Times
/// New Roman for serif. The numbers are those that browsers' own default
/// stacks go by, and are not configurable.
pub open spec fn reference_font(family: GenericFamily) -> DefaultFallbackFontView {
    match family {
        GenericFamily::SansSerif => DefaultFallbackFontView {
            name: "Arial"@,
            capsize_key: "arial"@,
            az_avg_width: Binary64 { bits: SANS_SERIF_AVG_WIDTH_BITS },
            units_per_em: DEFAULT_UNITS_PER_EM,
        },
        GenericFamily::Serif => DefaultFallbackFontView {
            name: "Times New Roman"@,
            capsize_key: "timesNewRoman"@,
            az_avg_width: Binary64 { bits: SERIF_AVG_WIDTH_BITS },
            units_per_em: DEFAULT_UNITS_PER_EM,
        },
    }
}

/// The default sans-serif fallback.
pub fn default_sans_serif_font() -> (font: DefaultFallbackFont)
    ensures
        font@ == reference_font(GenericFamily::SansSerif),
{
    DefaultFallbackFont {
        name: "Arial".to_owned(),
        capsize_key: "arial".to_owned(),
        az_avg_width: Binary64 { bits: SANS_SERIF_AVG_WIDTH_BITS },
        units_per_em: DEFAULT_UNITS_PER_EM,
    }
}

/// The default serif fallback.
pub fn default_serif_font() -> (font: DefaultFallbackFont)
    ensures
        font@ == reference_font(GenericFamily::Serif),
{
    DefaultFallbackFont {
        name: "Times New Roman".to_owned(),
        capsize_key: "timesNewRoman".to_owned(),
        az_avg_width: Binary64 { bits: SERIF_AVG_WIDTH_BITS },
        units_per_em: DEFAULT_UNITS_PER_EM,
    }
}

/// The default fallback of a generic family.
pub fn lookup(family: GenericFamily) -> (font: DefaultFallbackFont)
    ensures
        font@ == reference_font(family),
{
    match family {
        GenericFamily::SansSerif => default_sans_serif_font(),
        GenericFamily::Serif => default_serif_font(),
    }
}

} // verus!
