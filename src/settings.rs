//! The choices behind the colour scheme and language settings: which value
//! wins among a stored setting, the browser's preference and a default.
use vstd::prelude::*;

verus! {

/// The colour scheme of the interface.
#[derive(Debug, Clone, Copy, PartialEq, Eq, Structural)]
pub enum ColorScheme {
    Light,
    Dark,
}

/// The colour scheme used when nothing else is known.
pub const DEFAULT_COLOR_SCHEME: ColorScheme = ColorScheme::Light;

/// Whether two strings hold the same characters.
fn same_str(a: &str, b: &str) -> (r: bool)
    ensures
        r == (a@ == b@),
{
    String::from_str(a) == String::from_str(b)
}

/// The colour scheme that a stored setting names.
pub open spec fn color_scheme_named(s: Seq<char>) -> Option<ColorScheme> {
    if s == "light"@ {
        Some(ColorScheme::Light)
    } else if s == "dark"@ {
        Some(ColorScheme::Dark)
    } else {
        None
    }
}

pub open spec fn color_scheme_name(c: ColorScheme) -> Seq<char> {
    match c {
        ColorScheme::Light => "light"@,
        ColorScheme::Dark => "dark"@,
    }
}

impl ColorScheme {
    /// The scheme named `light` or `dark`.
    pub fn from_string(s: &str) -> (r: Option<ColorScheme>)
        ensures
            r == color_scheme_named(s@),
    {
        if same_str(s, "light") {
            Some(ColorScheme::Light)
        } else if same_str(s, "dark") {
            Some(ColorScheme::Dark)
        } else {
            None
        }
    }

    /// The name of the scheme, as a stored setting holds it.
    pub fn to_string(&self) -> (r: String)
        ensures
            r@ == color_scheme_name(*self),
    {
        match self {
            ColorScheme::Light => String::from_str("light"),
            ColorScheme::Dark => String::from_str("dark"),
        }
    }
}

/// A stored name reads back as the scheme it names.
pub proof fn lemma_color_scheme_round_trip(c: ColorScheme)
    ensures
        color_scheme_named(color_scheme_name(c)) == Some(c),
{
    reveal_strlit("light");
    reveal_strlit("dark");
    assert("dark"@.len() != "light"@.len());
}

/// The scheme in effect: the stored setting where it names one, else the
/// browser's preference where it has one, else the default.
pub fn resolve_color_scheme(stored: Option<&str>, browser: Option<ColorScheme>) -> (r: ColorScheme)
    ensures
        r == (match stored {
            Some(s) if color_scheme_named(s@) is Some => color_scheme_named(s@)->0,
            _ => match browser {
                Some(b) => b,
                None => DEFAULT_COLOR_SCHEME,
            },
        }),
{
    if let Some(s) = stored {
        if let Some(c) = ColorScheme::from_string(s) {
            return c;
        }
    }
    match browser {
        Some(b) => b,
        None => DEFAULT_COLOR_SCHEME,
    }
}

/// The language used when nothing else is known.
pub open spec fn default_language() -> Seq<char> {
    "en"@
}

/// The language code of a browser locale: `en-US` is `en`, others stay.
pub open spec fn browser_language_code(l: Seq<char>) -> Seq<char> {
    if l == "en-US"@ {
        "en"@
    } else {
        l
    }
}

/// The language code of a browser locale: `en-US` becomes `en`.
pub fn transform_browser_language(browser_language: String) -> (r: String)
    ensures
        r@ == browser_language_code(browser_language@),
{
    if same_str(browser_language.as_str(), "en-US") {
        String::from_str("en")
    } else {
        browser_language
    }
}

/// The flag shown for a language.
pub open spec fn language_emoji(l: Seq<char>) -> Seq<char> {
    if l == "en"@ {
        "\u{1F1FA}\u{1F1F8}"@
    } else if l == "pl"@ {
        "\u{1F1F5}\u{1F1F1}"@
    } else {
        "\u{1F310}"@
    }
}

/// The flag shown for a language; a globe for one without a flag.
pub fn get_emoji_for_language(language: &str) -> (r: String)
    ensures
        r@ == language_emoji(language@),
{
    if same_str(language, "en") {
        String::from_str("\u{1F1FA}\u{1F1F8}")
    } else if same_str(language, "pl") {
        String::from_str("\u{1F1F5}\u{1F1F1}")
    } else {
        String::from_str("\u{1F310}")
    }
}

/// The language to use: the stored setting where there is one, else the
/// browser's language, else the default.
pub fn select_language(stored: Option<String>, browser: Option<String>) -> (r: String)
    ensures
        r@ == (match stored {
            Some(s) => s@,
            None => match browser {
                Some(b) => b@,
                None => default_language(),
            },
        }),
{
    match stored {
        Some(s) => s,
        None => match browser {
            Some(b) => b,
            None => String::from_str("en"),
        },
    }
}

/// Whether `language` is one of `supported`.
pub fn is_supported_language(language: &str, supported: &Vec<String>) -> (r: bool)
    ensures
        r == supported@.map_values(|s: String| s@).contains(language@),
{
    let mut i: usize = 0;
    while i < supported.len()
        invariant
            i <= supported@.len(),
            forall|j: int| 0 <= j < i ==> supported@[j]@ != language@,
        decreases supported@.len() - i,
    {
        if same_str(supported[i].as_str(), language) {
            assert(supported@.map_values(|s: String| s@)[i as int] == language@);
            return true;
        }
        i = i + 1;
    }
    false
}

/// The query part of a location in the browser's address bar; it carries nothing.
pub struct Query {}

} // verus!
