//! User settings: the default directory of saved requests, the colour
//! theme and the accent colour.
use vstd::prelude::*;

verus! {

/// The colour theme.
#[derive(Clone, Copy, Debug, PartialEq, Eq, Structural)]
pub enum Theme {
    Dark,
    Light,
}

/// The accent colour.
#[derive(Clone, Copy, Debug, PartialEq, Eq, Structural)]
pub enum Accent {
    Blue,
    Green,
    Amber,
}

/// The settings kept between runs.
pub struct Settings {
    pub default_directory: Option<String>,
    pub theme: Theme,
    pub accent: Accent,
}

impl Default for Settings {
    fn default() -> (r: Settings)
        ensures
            r.default_directory is None,
            r.theme == Theme::Dark,
            r.accent == Accent::Blue,
    {
        Settings { default_directory: None, theme: Theme::Dark, accent: Accent::Blue }
    }
}

} // verus!
