//! The application's colour theme and its tabs.
use vstd::prelude::*;
use crate::lang::Lang;

verus! {

/// The colour theme: follow the system, light or dark.
#[derive(Clone, Copy, PartialEq, Eq, Debug, Structural)]
pub enum AppTheme {
    System,
    Light,
    Dark,
}

impl Default for AppTheme {
    fn default() -> (t: Self)
        ensures
            t == AppTheme::System,
    {
        AppTheme::System
    }
}

impl AppTheme {
    /// The next theme of the toggle: system, light, dark, system again.
    pub open spec fn cycle_spec(self) -> AppTheme {
        match self {
            AppTheme::System => AppTheme::Light,
            AppTheme::Light => AppTheme::Dark,
            AppTheme::Dark => AppTheme::System,
        }
    }

    /// The next theme of the toggle.
    pub fn cycle(self) -> (t: AppTheme)
        ensures
            t == self.cycle_spec(),
    {
        match self {
            AppTheme::System => AppTheme::Light,
            AppTheme::Light => AppTheme::Dark,
            AppTheme::Dark => AppTheme::System,
        }
    }

    /// The toggle's icon: a computer, a sun or a moon.
    pub fn icon(self) -> (s: &'static str)
        ensures
            s@ == match self {
                AppTheme::System => "\u{1F4BB}"@,
                AppTheme::Light => "\u{2600}"@,
                AppTheme::Dark => "\u{1F319}"@,
            },
    {
        match self {
            AppTheme::System => "\u{1F4BB}",
            AppTheme::Light => "\u{2600}",
            AppTheme::Dark => "\u{1F319}",
        }
    }

    /// The translation key of the theme's tooltip.
    pub open spec fn tooltip_key(self) -> Seq<char> {
        match self {
            AppTheme::System => "theme.system"@,
            AppTheme::Light => "theme.light"@,
            AppTheme::Dark => "theme.dark"@,
        }
    }

    /// The tooltip of the toggle: the translation of the theme's key, or
    /// the key itself when the table lacks it.
    pub fn tooltip(self, lang: &Lang) -> (s: String)
        requires
            lang.wf(),
        ensures
            s@ == (if lang@.contains_key(self.tooltip_key()) {
                lang@[self.tooltip_key()]
            } else {
                self.tooltip_key()
            }),
    {
        match self {
            AppTheme::System => lang.t("theme.system"),
            AppTheme::Light => lang.t("theme.light"),
            AppTheme::Dark => lang.t("theme.dark"),
        }
    }
}

/// Three toggles bring the theme back.
pub proof fn law_theme_cycle_returns(t: AppTheme)
    ensures
        t.cycle_spec().cycle_spec().cycle_spec() == t,
        t.cycle_spec() != t,
{
}

/// The tabs of the main window.
#[derive(Clone, Copy, PartialEq, Eq, Debug, Structural)]
pub enum Tab {
    Creator,
    Profiles,
    Library,
    CardDesigner,
    Export,
}

} // verus!
