//! The colour theme the user chose, as the settings file records it.

use vstd::prelude::*;

verus! {

/// The colour theme.
#[derive(Debug, Clone, Copy, PartialEq, Eq, Structural)]
pub enum ThemeMode {
    Dark,
    Light,
}

/// The theme a setting names: `light` gives the light theme, anything else
/// (the default included) the dark one.
pub open spec fn theme_mode_spec(s: Seq<char>) -> ThemeMode {
    if s == seq!['l', 'i', 'g', 'h', 't'] {
        ThemeMode::Light
    } else {
        ThemeMode::Dark
    }
}

/// How the settings file records a theme.
pub open spec fn theme_setting_spec(m: ThemeMode) -> Seq<char> {
    match m {
        ThemeMode::Light => seq!['l', 'i', 'g', 'h', 't'],
        ThemeMode::Dark => seq!['d', 'a', 'r', 'k'],
    }
}

impl ThemeMode {
    /// The theme a setting names (see `theme_mode_spec`).
    pub fn from_setting(s: &str) -> (r: ThemeMode)
        ensures
            r == theme_mode_spec(s@),
    {
        let cs = crate::text::chars_of(s);
        let light: [char; 5] = ['l', 'i', 'g', 'h', 't'];
        assert(light@ =~= seq!['l', 'i', 'g', 'h', 't']);
        if crate::text::chars_eq(cs.as_slice(), light.as_slice()) {
            ThemeMode::Light
        } else {
            ThemeMode::Dark
        }
    }

    /// How the settings file records this theme: `light` or `dark`.
    pub fn setting(self) -> (r: String)
        ensures
            r@ == theme_setting_spec(self),
    {
        match self {
            ThemeMode::Light => {
                let cs: [char; 5] = ['l', 'i', 'g', 'h', 't'];
                assert(cs@ =~= seq!['l', 'i', 'g', 'h', 't']);
                crate::text::string_of(cs.as_slice())
            },
            ThemeMode::Dark => {
                let cs: [char; 4] = ['d', 'a', 'r', 'k'];
                assert(cs@ =~= seq!['d', 'a', 'r', 'k']);
                crate::text::string_of(cs.as_slice())
            },
        }
    }
}

/// A saved theme is read back as the same theme.
pub proof fn law_theme_setting_round_trip(m: ThemeMode)
    ensures
        theme_mode_spec(theme_setting_spec(m)) == m,
{
    if m == ThemeMode::Dark {
        assert(theme_setting_spec(m).len() != 5);
    }
}

} // verus!
