//! How far a rounded corner reaches.
use crate::recolor::{is_same_word, same_word};
use crate::text::{chars_of, drop_white, part, skip_white, trimmed};
use vstd::prelude::*;

verus! {

/// How much of each neighbouring piece a rounded node may reshape. Chosen
/// per node: a click rounds tightly, the node's menu offers the others.
#[derive(Clone, Copy, Debug, PartialEq, Eq, Structural)]
pub enum Reach {
    Tiny,
    Tight,
    Medium,
    Wide,
}

/// The reaches, gentlest first.
pub open spec fn all_reaches() -> Seq<Reach> {
    seq![Reach::Tiny, Reach::Tight, Reach::Medium, Reach::Wide]
}

impl Reach {
    pub open spec fn name(self) -> Seq<char> {
        match self {
            Reach::Tiny => "Tiny"@,
            Reach::Tight => "Tight"@,
            Reach::Medium => "Medium"@,
            Reach::Wide => "Wide"@,
        }
    }

    /// The part of each neighbouring piece that is reshaped, in hundredths.
    pub open spec fn hundredths(self) -> int {
        match self {
            Reach::Tiny => 10,
            Reach::Tight => 25,
            Reach::Medium => 50,
            Reach::Wide => 100,
        }
    }

    /// The reaches, gentlest first.
    pub fn all() -> (list: [Reach; 4])
        ensures
            list@ == all_reaches(),
    {
        let list = [Reach::Tiny, Reach::Tight, Reach::Medium, Reach::Wide];
        assert(list@ =~= all_reaches());
        list
    }

    /// The part of each neighbouring piece that is reshaped, in hundredths.
    pub fn percent(self) -> (n: u32)
        ensures
            n == self.hundredths(),
    {
        match self {
            Reach::Tiny => 10,
            Reach::Tight => 25,
            Reach::Medium => 50,
            Reach::Wide => 100,
        }
    }

    pub fn label(self) -> (text: &'static str)
        ensures
            text@ == self.name(),
    {
        match self {
            Reach::Tiny => "Tiny",
            Reach::Tight => "Tight",
            Reach::Medium => "Medium",
            Reach::Wide => "Wide",
        }
    }

    /// The reach that `text` names, whatever its case and the whitespace
    /// around it.
    pub fn parse(text: &str) -> (found: Option<Reach>)
        ensures
            match found {
                Some(reach) => same_word(trimmed(text@), reach.name()),
                None => forall|reach: Reach| !same_word(trimmed(text@), #[trigger] reach.name()),
            },
    {
        let chars = chars_of(text);
        let from: usize = skip_white(chars.as_slice(), 0, chars.len());
        let to: usize = drop_white(chars.as_slice(), from, chars.len());
        let word = part(chars.as_slice(), from, to);
        if is_same_word(word.as_str(), "Tiny") {
            Some(Reach::Tiny)
        } else if is_same_word(word.as_str(), "Tight") {
            Some(Reach::Tight)
        } else if is_same_word(word.as_str(), "Medium") {
            Some(Reach::Medium)
        } else if is_same_word(word.as_str(), "Wide") {
            Some(Reach::Wide)
        } else {
            None
        }
    }

    pub open spec fn hint_text(self) -> Seq<char> {
        match self {
            Reach::Tiny =>
                "Reshapes only the tenth of each neighboring piece nearest the node: the corner just loses its point."@,
            Reach::Tight =>
                "Reshapes only the quarter of each neighboring piece nearest the node."@,
            Reach::Medium => "Reshapes the half of each neighboring piece nearest the node."@,
            Reach::Wide => "Reshapes both neighboring pieces entirely."@,
        }
    }

    pub fn hint(self) -> (text: &'static str)
        ensures
            text@ == self.hint_text(),
    {
        match self {
            Reach::Tiny =>
                "Reshapes only the tenth of each neighboring piece nearest the node: the corner just loses its point.",
            Reach::Tight => "Reshapes only the quarter of each neighboring piece nearest the node.",
            Reach::Medium => "Reshapes the half of each neighboring piece nearest the node.",
            Reach::Wide => "Reshapes both neighboring pieces entirely.",
        }
    }
}

/// The reaches are listed gentlest first, and each is named in its own way.
pub proof fn law_reaches_grow(a: int, b: int)
    requires
        0 <= a < b < 4,
    ensures
        all_reaches()[a].hundredths() < all_reaches()[b].hundredths(),
        !same_word(all_reaches()[a].name(), all_reaches()[b].name()),
{
    reveal_strlit("Tiny");
    reveal_strlit("Tight");
    reveal_strlit("Medium");
    reveal_strlit("Wide");
    assert("Tiny"@.len() == 4 && "Tight"@.len() == 5 && "Medium"@.len() == 6 && "Wide"@.len() == 4);
    if a == 0 && b == 3 {
        assert(crate::recolor::lower("Tiny"@[0]) != crate::recolor::lower("Wide"@[0]));
    }
}

} // verus!
