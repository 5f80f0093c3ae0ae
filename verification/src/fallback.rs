//! Fallback descriptors: what a font family falls back to while, or instead
//! of, its webfont.

use vstd::prelude::*;
use crate::adjustment::FontAdjustment;
use crate::metrics::{
    DefaultFallbackFont, DefaultFallbackFontView, FontMetrics, GenericFamily, lookup,
    reference_font,
};

verus! {

/// An automatically generated fallback font.
#[derive(Clone, Debug, PartialEq, Eq)]
pub struct AutomaticFontFallback {
    /// The name under which the fallback is registered in the stylesheet,
    /// e.g. `__Roboto_Fallback_c123b8`. It differs from the family's public
    /// name so that two optimized fonts on one page do not collide.
    pub scoped_font_family: String,
    /// The name of the font locally, used in `src: local("{}")`.
    pub local_font_family: String,
    /// Absent where the metrics could not be computed. The name is usable
    /// all the same.
    pub adjustment: Option<FontAdjustment>,
}

/// What a font family falls back to.
#[derive(Clone, Debug, PartialEq, Eq)]
pub enum FontFallback {
    /// An automatically generated fallback font, with its adjustment if
    /// there is one.
    Automatic(AutomaticFontFallback),
    /// The fallback could not be prepared. Resolving a font's stylesheet
    /// never fails, so this is handed on in place of a failure, and the
    /// fallback is left out of the stylesheet.
    Error,
    /// A list of manually provided font names to use as fallback, as they are.
    Manual(Vec<String>),
}

/// The fallbacks of a font family, in the order of the `font-family` list.
/// A name may occur more than once.
#[derive(Clone, Debug, PartialEq, Eq)]
pub struct FontFallbacks(pub Vec<FontFallback>);

/// What an [`AutomaticFontFallback`] holds, with its strings as sequences.
pub ghost struct AutomaticFontFallbackView {
    pub scoped_font_family: Seq<char>,
    pub local_font_family: Seq<char>,
    pub adjustment: Option<FontAdjustment>,
}

/// What a [`FontFallback`] holds, with its strings as sequences.
pub ghost enum FontFallbackView {
    Automatic(AutomaticFontFallbackView),
    Error,
    Manual(Seq<Seq<char>>),
}

impl View for AutomaticFontFallback {
    type V = AutomaticFontFallbackView;

    open spec fn view(&self) -> AutomaticFontFallbackView {
        AutomaticFontFallbackView {
            scoped_font_family: self.scoped_font_family@,
            local_font_family: self.local_font_family@,
            adjustment: self.adjustment,
        }
    }
}

impl View for FontFallback {
    type V = FontFallbackView;

    open spec fn view(&self) -> FontFallbackView {
        match self {
            FontFallback::Automatic(automatic) => FontFallbackView::Automatic(automatic@),
            FontFallback::Error => FontFallbackView::Error,
            FontFallback::Manual(names) => FontFallbackView::Manual(
                names@.map_values(|name: String| name@),
            ),
        }
    }
}

impl View for FontFallbacks {
    type V = Seq<FontFallbackView>;

    open spec fn view(&self) -> Seq<FontFallbackView> {
        self.0@.map_values(|fallback: FontFallback| fallback@)
    }
}

impl FontFallbackView {
    /// Whether the fallback is an automatic one that carries an adjustment.
    pub open spec fn has_size_adjust(self) -> bool {
        match self {
            FontFallbackView::Automatic(automatic) => automatic.adjustment is Some,
            FontFallbackView::Error => false,
            FontFallbackView::Manual(_) => false,
        }
    }
}

/// Whether any of the fallbacks carries an adjustment.
pub open spec fn any_has_size_adjust(fallbacks: Seq<FontFallbackView>) -> bool {
    exists|i: int| 0 <= i < fallbacks.len() && (#[trigger] fallbacks[i]).has_size_adjust()
}

/// The adjustment for metrics that may be unavailable.
pub open spec fn adjustment_for(metrics: Option<FontMetrics>, fallback: DefaultFallbackFontView)
    -> Option<FontAdjustment> {
    match metrics {
        Some(metrics) => FontAdjustment::spec_compute(metrics, fallback),
        None => None,
    }
}

/// The fallback that [`classify`] decides on.
///
/// A manual list wins over everything else. Without one, a known generic
/// family gives its default font under the scoped name, adjusted where the
/// metrics allow; with neither there is nothing to fall back to.
pub open spec fn spec_classify(
    requested: Option<GenericFamily>,
    manual: Option<Seq<Seq<char>>>,
    metrics: Option<FontMetrics>,
    scoped_font_family: Seq<char>,
) -> FontFallbackView {
    match manual {
        Some(names) => FontFallbackView::Manual(names),
        None => match requested {
            Some(family) => FontFallbackView::Automatic(
                AutomaticFontFallbackView {
                    scoped_font_family,
                    local_font_family: reference_font(family).name,
                    adjustment: adjustment_for(metrics, reference_font(family)),
                },
            ),
            None => FontFallbackView::Error,
        },
    }
}

impl AutomaticFontFallback {
    /// The automatic fallback to `fallback` under the two given names, with
    /// the adjustment that the metrics allow: none where they are
    /// unavailable or cannot be adjusted to.
    pub fn compute(
        metrics: Option<FontMetrics>,
        fallback: &DefaultFallbackFont,
        scoped_font_family: String,
        local_font_family: String,
    ) -> (r: AutomaticFontFallback)
        ensures
            r.scoped_font_family == scoped_font_family,
            r.local_font_family == local_font_family,
            r.adjustment == adjustment_for(metrics, fallback@),
    {
        let adjustment = match metrics {
            Some(metrics) => FontAdjustment::compute(&metrics, fallback),
            None => None,
        };
        AutomaticFontFallback { scoped_font_family, local_font_family, adjustment }
    }
}

impl FontFallback {
    /// Whether the fallback is an automatic one that carries an adjustment.
    /// A manual list and the error marker never do.
    pub fn has_size_adjust(&self) -> (r: bool)
        ensures
            r == self@.has_size_adjust(),
            self is Manual || self is Error ==> !r,
            self matches FontFallback::Automatic(automatic) ==> r == (automatic.adjustment
                is Some),
    {
        match self {
            FontFallback::Automatic(automatic) => automatic.adjustment.is_some(),
            FontFallback::Error => false,
            FontFallback::Manual(_) => false,
        }
    }
}

impl FontFallbacks {
    /// Whether any of the fallbacks carries an adjustment, and with it
    /// whether the stylesheet needs adjustment rules at all. The search stops
    /// at the first one that does.
    pub fn has_size_adjust(&self) -> (r: bool)
        ensures
            r == any_has_size_adjust(self@),
            self@.len() == 0 ==> !r,
    {
        let mut i: usize = 0;
        while i < self.0.len()
            invariant
                i <= self.0.len(),
                forall|j: int| 0 <= j < i ==> !(#[trigger] self@[j]).has_size_adjust(),
            decreases self.0.len() - i,
        {
            if self.0[i].has_size_adjust() {
                assert(self@[i as int].has_size_adjust());
                return true;
            }
            i = i + 1;
        }
        false
    }
}

/// Decides what a font family falls back to.
///
/// A manual list is returned as it is, whatever else is given. Otherwise the
/// requested generic family selects its default font, which is fitted to the
/// metrics and registered under `scoped_font_family`. Where neither is given
/// the result is [`FontFallback::Error`].
pub fn classify(
    requested: Option<GenericFamily>,
    manual: Option<Vec<String>>,
    metrics: Option<FontMetrics>,
    scoped_font_family: String,
) -> (r: FontFallback)
    ensures
        r@ == spec_classify(
            requested,
            match manual {
                Some(names) => Some(names@.map_values(|name: String| name@)),
                None => None,
            },
            metrics,
            scoped_font_family@,
        ),
        manual matches Some(names) ==> r == FontFallback::Manual(names),
        manual is None && requested is None ==> r is Error,
        requested matches Some(family) ==> (manual is None ==> (r matches FontFallback::Automatic(
            automatic,
        ) && automatic.local_font_family@ == reference_font(family).name
            && automatic.scoped_font_family == scoped_font_family)),
{
    match manual {
        Some(names) => FontFallback::Manual(names),
        None => match requested {
            Some(family) => {
                let fallback = lookup(family);
                let local_font_family = fallback.name.clone();
                FontFallback::Automatic(
                    AutomaticFontFallback::compute(
                        metrics,
                        &fallback,
                        scoped_font_family,
                        local_font_family,
                    ),
                )
            },
            None => FontFallback::Error,
        },
    }
}

} // verus!
