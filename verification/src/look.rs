//! Light and dark, and the colours that fills are shown in.
use crate::text::{chars_of, drop_white, same_text, skip_white, trimmed};
use vstd::prelude::*;

verus! {

/// Light or dark: chosen, or the system's.
#[derive(Clone, Copy, Debug, PartialEq, Eq, Structural)]
pub enum ThemeChoice {
    Dark,
    Light,
    System,
}

impl ThemeChoice {
    pub open spec fn word_of(self) -> Seq<char> {
        match self {
            ThemeChoice::Dark => "dark"@,
            ThemeChoice::Light => "light"@,
            ThemeChoice::System => "system"@,
        }
    }

    /// The choice whose word `text` is.
    pub open spec fn of_word(text: Seq<char>) -> Option<ThemeChoice> {
        if text == "dark"@ {
            Some(ThemeChoice::Dark)
        } else if text == "light"@ {
            Some(ThemeChoice::Light)
        } else if text == "system"@ {
            Some(ThemeChoice::System)
        } else {
            None
        }
    }

    /// Every choice, in the order it is offered.
    pub fn all() -> (list: [ThemeChoice; 3])
        ensures
            list@ == seq![ThemeChoice::Dark, ThemeChoice::Light, ThemeChoice::System],
    {
        let list = [ThemeChoice::Dark, ThemeChoice::Light, ThemeChoice::System];
        assert(list@ =~= seq![ThemeChoice::Dark, ThemeChoice::Light, ThemeChoice::System]);
        list
    }

    pub fn label(self) -> (text: &'static str)
        ensures
            text@ == (match self {
                ThemeChoice::Dark => "Dark"@,
                ThemeChoice::Light => "Light"@,
                ThemeChoice::System => "System"@,
            }),
    {
        match self {
            ThemeChoice::Dark => "Dark",
            ThemeChoice::Light => "Light",
            ThemeChoice::System => "System",
        }
    }

    pub fn word(self) -> (text: &'static str)
        ensures
            text@ == self.word_of(),
    {
        match self {
            ThemeChoice::Dark => "dark",
            ThemeChoice::Light => "light",
            ThemeChoice::System => "system",
        }
    }

    /// The choice that `word` names, white space around it aside.
    pub fn from_word(word: &str) -> (theme: Option<ThemeChoice>)
        ensures
            theme == ThemeChoice::of_word(trimmed(word@)),
    {
        let text = chars_of(word);
        let to: usize = text.len();
        let a: usize = skip_white(text.as_slice(), 0, to);
        let b: usize = drop_white(text.as_slice(), a, to);
        if same_text(text.as_slice(), a, b, "dark") {
            Some(ThemeChoice::Dark)
        } else if same_text(text.as_slice(), a, b, "light") {
            Some(ThemeChoice::Light)
        } else if same_text(text.as_slice(), a, b, "system") {
            Some(ThemeChoice::System)
        } else {
            None
        }
    }

    /// Whether the window is dark under this choice; `system` says whether
    /// the system is.
    pub fn is_dark(self, system: bool) -> (dark: bool)
        ensures
            dark == (self == ThemeChoice::Dark || (self == ThemeChoice::System && system)),
    {
        match self {
            ThemeChoice::Dark => true,
            ThemeChoice::Light => false,
            ThemeChoice::System => system,
        }
    }
}

/// Puts the light or the dark palette in force; whether that changed it.
pub fn set(current: &mut bool, dark: bool) -> (changed: bool)
    ensures
        *final(current) == dark,
        changed == (*old(current) != dark),
{
    let changed = *current != dark;
    *current = dark;
    changed
}

/// A theme's word names that theme, and no other.
pub proof fn law_theme_words_read_back(theme: ThemeChoice)
    ensures
        ThemeChoice::of_word(trimmed(theme.word_of())) == Some(theme),
{
    reveal_strlit("dark");
    reveal_strlit("light");
    reveal_strlit("system");
    let word = theme.word_of();
    crate::text::lemma_trimmed_bare(word);
    assert("dark"@[0] == 'd' && "light"@[0] == 'l' && "system"@[0] == 's');
}

} // verus!
