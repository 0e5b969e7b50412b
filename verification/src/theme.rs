use vstd::prelude::*;

verus! {

/// The colour theme of the application window.
#[derive(Debug, Clone, Copy, PartialEq, Eq, Structural)]
pub enum Theme {
    System,
    Light,
    Dark,
}

impl Theme {
    /// The number that stands for the theme in the settings and on the wire.
    pub open spec fn spec_code(self) -> u8 {
        match self {
            Theme::System => 0,
            Theme::Light => 1,
            Theme::Dark => 2,
        }
    }

    /// The theme that a number stands for; an unknown number gives the default.
    pub open spec fn spec_from_code(value: u8) -> Theme {
        if value == 1 {
            Theme::Light
        } else if value == 2 {
            Theme::Dark
        } else {
            Theme::System
        }
    }

    pub fn code(self) -> (res: u8)
        ensures
            res == self.spec_code(),
    {
        match self {
            Theme::System => 0,
            Theme::Light => 1,
            Theme::Dark => 2,
        }
    }
}

impl Default for Theme {
    fn default() -> (res: Theme)
        ensures
            res == Theme::System,
    {
        Theme::System
    }
}

impl From<u8> for Theme {
    fn from(value: u8) -> (res: Theme) {
        match value {
            0 => Theme::System,
            1 => Theme::Light,
            2 => Theme::Dark,
            _ => Theme::System,
        }
    }
}

impl vstd::std_specs::convert::FromSpecImpl<u8> for Theme {
    open spec fn obeys_from_spec() -> bool {
        true
    }

    open spec fn from_spec(v: u8) -> Theme {
        Theme::spec_from_code(v)
    }
}

/// The stored theme setting, held as the number of the theme.
#[derive(Debug)]
pub struct ThemeStore {
    value: u8,
}

impl View for ThemeStore {
    type V = u8;

    closed spec fn view(&self) -> u8 {
        self.value
    }
}

impl ThemeStore {
    /// A store that holds the default theme.
    pub fn new() -> (res: ThemeStore)
        ensures
            res@ == Theme::System.spec_code(),
    {
        ThemeStore { value: Theme::System.code() }
    }
}

/// Stores `theme` as the setting.
pub fn set(store: &mut ThemeStore, theme: Theme)
    ensures
        final(store)@ == theme.spec_code(),
{
    store.value = theme.code();
}

/// The theme that the setting holds.
pub fn get(store: &ThemeStore) -> (res: Theme)
    ensures
        res == Theme::spec_from_code(store@),
{
    Theme::from(store.value)
}

/// Reading the setting gives back the theme that was last stored.
pub proof fn lemma_get_after_set(theme: Theme)
    ensures
        Theme::spec_from_code(theme.spec_code()) == theme,
{
}

/// Every number reads as a theme whose number it is, except the unknown ones,
/// which read as the default theme.
pub proof fn lemma_code_of_from_code(value: u8)
    ensures
        value <= 2 ==> Theme::spec_from_code(value).spec_code() == value,
        value > 2 ==> Theme::spec_from_code(value) == Theme::System,
{
}

/// The themes are numbered from zero in the order in which they are
/// declared: `System` (the default), `Light`, `Dark`.
pub proof fn lemma_theme_numbering()
    ensures
        Theme::System.spec_code() == 0,
        Theme::Light.spec_code() == 1,
        Theme::Dark.spec_code() == 2,
{
}

} // verus!
