//! The licence: how the app is used, what the key and its certificate stand
//! for, and what the licence server's answers change.
use crate::path_data::{digits_value, is_digit};
use crate::text::{
    chars_of, counted, decimal, drop_white, push_counted, push_decimal, push_part, same_text,
    skip_white, trimmed,
};
use vstd::prelude::*;

verus! {

/// How long the free commercial trial runs: a day.
pub const TRIAL_SECONDS: i64 = 86_400;

/// How the person said they use the app when it first asked.
#[derive(Clone, Copy, Debug, PartialEq, Eq, Structural)]
pub enum LicenceUse {
    Personal,
    Commercial,
    /// For work, free for `TRIAL_SECONDS` from this Unix time.
    Trial(i64),
}

/// A whole number as it is written, with a minus sign when negative.
pub open spec fn signed(n: int) -> Seq<char> {
    if n < 0 {
        "-"@ + decimal((-n) as nat)
    } else {
        decimal(n as nat)
    }
}

pub open spec fn all_digits(text: Seq<char>) -> bool {
    text.len() > 0 && forall|i: int| 0 <= i < text.len() ==> is_digit(#[trigger] text[i])
}

/// The whole number that `text` writes: a sign at most, then digits, within
/// the range of a clock.
pub open spec fn whole_number(text: Seq<char>) -> Option<int> {
    let minus = text.len() > 0 && text[0] == '-';
    let digits = if minus || (text.len() > 0 && text[0] == '+') {
        text.subrange(1, text.len() as int)
    } else {
        text
    };
    if !all_digits(digits) {
        None
    } else {
        let v = digits_value(digits, 0, digits.len() as int);
        let n = if minus {
            -v
        } else {
            v
        };
        if i64::MIN <= n <= i64::MAX {
            Some(n)
        } else {
            None
        }
    }
}

pub open spec fn trial_word() -> Seq<char> {
    "trial:"@
}

impl LicenceUse {
    pub open spec fn word_of(self) -> Seq<char> {
        match self {
            LicenceUse::Personal => "personal"@,
            LicenceUse::Commercial => "commercial"@,
            LicenceUse::Trial(start) => "trial:"@ + signed(start as int),
        }
    }

    /// The use that `text` names.
    pub open spec fn of_word(text: Seq<char>) -> Option<LicenceUse> {
        if text == "personal"@ {
            Some(LicenceUse::Personal)
        } else if text == "commercial"@ {
            Some(LicenceUse::Commercial)
        } else if trial_word().is_prefix_of(text) {
            match whole_number(text.subrange(trial_word().len() as int, text.len() as int)) {
                Some(start) => Some(LicenceUse::Trial(start as i64)),
                None => None,
            }
        } else {
            None
        }
    }

    pub open spec fn left(self, now: i64) -> Option<int> {
        match self {
            LicenceUse::Trial(start) => {
                let left = start + TRIAL_SECONDS - now;
                Some(
                    if left < 0 {
                        0
                    } else if left > TRIAL_SECONDS {
                        TRIAL_SECONDS as int
                    } else {
                        left
                    },
                )
            },
            _ => None,
        }
    }

    /// The use as the preferences keep it.
    pub fn word(self) -> (text: String)
        ensures
            text@ == self.word_of(),
    {
        match self {
            LicenceUse::Personal => "personal".to_owned(),
            LicenceUse::Commercial => "commercial".to_owned(),
            LicenceUse::Trial(start) => {
                let mut text = "trial:".to_owned();
                if start < 0 {
                    let ghost head = text@;
                    text.append("-");
                    let size: u64 = (-(start as i128)) as u64;
                    push_decimal(&mut text, size);
                    assert(text@ =~= head + ("-"@ + decimal(size as nat)));
                } else {
                    push_decimal(&mut text, start as u64);
                }
                text
            },
        }
    }

    /// The use that `word` names, white space around it aside.
    pub fn from_word(word: &str) -> (use_: Option<LicenceUse>)
        ensures
            use_ == LicenceUse::of_word(trimmed(word@)),
    {
        let text = chars_of(word);
        let to: usize = text.len();
        let a: usize = skip_white(text.as_slice(), 0, to);
        let b: usize = drop_white(text.as_slice(), a, to);
        if same_text(text.as_slice(), a, b, "personal") {
            return Some(LicenceUse::Personal);
        }
        if same_text(text.as_slice(), a, b, "commercial") {
            return Some(LicenceUse::Commercial);
        }
        let ghost bare = text@.subrange(a as int, b as int);
        proof {
            reveal_strlit("trial:");
        }
        if b - a < 6 || !same_text(text.as_slice(), a, a + 6, "trial:") {
            assert(!trial_word().is_prefix_of(bare)) by {
                if trial_word().is_prefix_of(bare) {
                    assert(text@.subrange(a as int, a as int + 6) =~= "trial:"@);
                }
            }
            return None;
        }
        assert(trial_word().is_prefix_of(bare)) by {
            assert(text@.subrange(a as int, a as int + 6) == "trial:"@);
            assert(forall|i: int| 0 <= i < 6 ==> bare[i] == text@.subrange(a as int, a as int + 6)[i]);
        }
        assert(bare.subrange(6, bare.len() as int) =~= text@.subrange(a as int + 6, b as int));
        match read_whole(vstd::slice::slice_subrange(text.as_slice(), a + 6, b)) {
            Some(start) => Some(LicenceUse::Trial(start)),
            None => None,
        }
    }

    /// The seconds of a trial left at `now`, 0 once it has ended; `None` when
    /// this is no trial.
    pub fn trial_left(self, now: i64) -> (left: Option<i64>)
        ensures
            left is Some == (self.left(now) is Some),
            left matches Some(seconds) ==> self.left(now) == Some(seconds as int),
    {
        match self {
            LicenceUse::Trial(start) => {
                let left: i128 = start as i128 + TRIAL_SECONDS as i128 - now as i128;
                if left < 0 {
                    Some(0)
                } else if left > TRIAL_SECONDS as i128 {
                    Some(TRIAL_SECONDS)
                } else {
                    Some(left as i64)
                }
            },
            _ => None,
        }
    }
}

/// Reads a whole number within the range of a clock.
fn read_whole(text: &[char]) -> (n: Option<i64>)
    ensures
        n is Some == (whole_number(text@) is Some),
        n matches Some(v) ==> whole_number(text@) == Some(v as int),
{
    let len: usize = text.len();
    let minus: bool = len > 0 && text[0] == '-';
    let from: usize = if minus || (len > 0 && text[0] == '+') {
        1
    } else {
        0
    };
    let ghost digits = text@.subrange(from as int, len as int);
    assert(digits == (if minus || (text@.len() > 0 && text@[0] == '+') {
        text@.subrange(1, len as int)
    } else {
        text@
    }));
    if from == len {
        return None;
    }
    let mut v: i128 = 0;
    let mut over: bool = false;
    let mut i: usize = from;
    while i < len
        invariant
            from <= i <= len,
            len == text@.len(),
            digits == text@.subrange(from as int, len as int),
            minus == (text@.len() > 0 && text@[0] == '-'),
            digits == (if minus || (text@.len() > 0 && text@[0] == '+') {
                text@.subrange(1, len as int)
            } else {
                text@
            }),
            forall|j: int| 0 <= j < i - from ==> is_digit(#[trigger] digits[j]),
            0 <= v <= 10_000_000_000_000_000_000,
            !over ==> v == digits_value(digits, 0, i - from),
            over ==> digits_value(digits, 0, i - from) > 9_223_372_036_854_775_808,
        decreases len - i,
    {
        let c: char = text[i];
        assert(digits[i - from] == c);
        if c < '0' || c > '9' {
            assert(!is_digit(digits[i - from]));
            return None;
        }
        let d: i128 = (c as u8 - 48) as i128;
        assert(digits_value(digits, 0, i - from + 1) == 10 * digits_value(digits, 0, i - from) + d);
        if !over {
            if v > 922_337_203_685_477_580 {
                over = true;
            } else {
                v = 10 * v + d;
            }
        }
        i = i + 1;
    }
    assert(all_digits(digits));
    if over {
        return None;
    }
    let n: i128 = if minus {
        -v
    } else {
        v
    };
    if n < i64::MIN as i128 || n > i64::MAX as i128 {
        return None;
    }
    Some(n as i64)
}

/// A time left in words: whole hours, rounded up, or minutes in the last hour,
/// at least one.
pub open spec fn time_left_of(seconds: int) -> Seq<char> {
    if seconds >= 3600 {
        counted(((seconds + 3599) / 3600) as nat, "hour"@)
    } else if seconds <= 60 {
        counted(1, "minute"@)
    } else {
        counted(((seconds + 59) / 60) as nat, "minute"@)
    }
}

/// A trial's time left in words.
pub fn time_left(seconds: i64) -> (text: String)
    ensures
        text@ == time_left_of(seconds as int),
{
    let (count, unit): (u64, &str) = if seconds >= 3600 {
        (((seconds as u64) + 3599) / 3600, "hour")
    } else if seconds <= 60 {
        (1, "minute")
    } else {
        ((seconds as u64 + 59) / 60, "minute")
    };
    let mut text = String::new();
    push_counted(&mut text, count, unit);
    assert(text@ =~= time_left_of(seconds as int));
    text
}

/// A licence as it is kept: the key and its latest certificate.
#[derive(Debug)]
pub struct Stored {
    pub key: String,
    pub certificate: String,
}

#[verifier::ext_equal]
pub struct StoredView {
    pub key: Seq<char>,
    pub certificate: Seq<char>,
}

impl View for Stored {
    type V = StoredView;

    open spec fn view(&self) -> StoredView {
        StoredView { key: self.key@, certificate: self.certificate@ }
    }
}

impl StoredView {
    pub open spec fn none() -> StoredView {
        StoredView { key: Seq::empty(), certificate: Seq::empty() }
    }
}

impl Default for Stored {
    fn default() -> (stored: Stored)
        ensures
            stored@ == StoredView::none(),
    {
        let stored = Stored { key: String::new(), certificate: String::new() };
        assert(stored@ =~= StoredView::none());
        stored
    }
}

/// What a licence amounts to.
#[derive(Debug)]
pub enum Standing {
    /// No key.
    Personal,
    /// A key whose certificate proves it: its seats, its number, and the day
    /// the certificate ends, in words.
    Commercial { seats: u64, licence: String, until: String },
    /// A key that the licence server has not confirmed.
    Unproven,
}

/// What the licence server said of a key.
#[derive(Debug)]
pub enum Redeemed {
    /// A certificate, and the day it ends if it proves the key to this app.
    Certificate { certificate: String, until: Option<String> },
    Refused(String),
    Unreachable(String),
}

/// A page of the licence's.
#[derive(Clone, Copy, Debug, PartialEq, Eq, Structural)]
pub enum Page {
    Buy,
    Manage,
    Details,
}

/// For work, with no key.
pub open spec fn without_key(standing: Standing, use_: Option<LicenceUse>) -> bool {
    standing is Personal && (use_ matches Some(u) && (u is Commercial || u is Trial))
}

/// The seconds of the trial left, when one was chosen.
pub open spec fn trial_of(use_: Option<LicenceUse>, now: i64) -> Option<int> {
    match use_ {
        Some(u) => u.left(now),
        None => None,
    }
}

pub open spec fn seats_text(seats: u64) -> Seq<char> {
    counted(seats as nat, "seat"@)
}

/// The card's heading: what is in force.
pub open spec fn summary_of(standing: Standing, use_: Option<LicenceUse>, now: i64) -> Seq<char> {
    match standing {
        Standing::Personal => match trial_of(use_, now) {
            Some(left) => if left == 0 {
                "Commercial trial ended · add your key"@
            } else {
                "Commercial trial · "@ + time_left_of(left) + " left"@
            },
            None => if without_key(standing, use_) {
                "Commercial · add your key"@
            } else {
                "Personal use"@
            },
        },
        Standing::Commercial { seats, licence, until } => "Commercial · "@ + seats_text(seats),
        Standing::Unproven => "Commercial · not confirmed"@,
    }
}

/// What the card says below its heading while there is no key.
pub open spec fn offer_of(use_: Option<LicenceUse>, now: i64, price: Seq<char>) -> Seq<char> {
    match trial_of(use_, now) {
        Some(left) => if left == 0 {
            "Your free day of commercial use has ended. For work, a commercial license is "@ + price
                + ": buy one, then paste the key from its email here."@
        } else {
            "Your free commercial trial ends in "@ + time_left_of(left)
                + ". To keep using VectorMagik for work after that, a commercial license is "@
                + price + ": buy one, then paste the key from its email here."@
        },
        None => if use_ == Some(LicenceUse::Commercial) {
            "You use VectorMagik for work: a commercial license is "@ + price
                + ". Buy one, then paste the key from its email here."@
        } else {
            "Free for personal and other noncommercial use. Using VectorMagik for work? A commercial license is "@
                + price + "."@
        },
    }
}

/// What the card says of a key: that it is proved, with a hint of the key and
/// the start of the licence's number, or that it waits.
pub open spec fn key_note_of(standing: Standing, hint: Seq<char>) -> Option<Seq<char>> {
    match standing {
        Standing::Personal => None,
        Standing::Commercial { seats, licence, until } => Some(
            "Commercial license, "@ + seats_text(seats) + ". Key "@ + hint + " · license "@
                + first_eight(licence@) + "."@,
        ),
        Standing::Unproven => Some(
            "Key "@ + hint + " is waiting for the license server to confirm it."@,
        ),
    }
}

pub open spec fn first_eight(text: Seq<char>) -> Seq<char> {
    text.subrange(
        0,
        if text.len() < 8 {
            text.len() as int
        } else {
            8
        },
    )
}

/// What the licence card shows.
#[derive(Debug)]
pub struct LicenceCard {
    pub summary: String,
    /// What the licence costs and what to do, while there is no key.
    pub offer: Option<String>,
    /// No licences are sold yet.
    pub soon: bool,
    /// The page its first button opens, while there is no key.
    pub page: Option<Page>,
    /// A way back to personal use.
    pub personal: bool,
    /// A field for a key.
    pub field: bool,
    /// What is known of the key.
    pub key_note: Option<String>,
    /// Until when the certificate proves it.
    pub until: Option<String>,
    pub retry: bool,
    /// Buttons to manage the subscription and to forget the key.
    pub manage: bool,
}

fn has_trial(use_: Option<LicenceUse>, now: i64) -> (left: Option<i64>)
    ensures
        left is Some == (trial_of(use_, now) is Some),
        left matches Some(seconds) ==> trial_of(use_, now) == Some(seconds as int),
{
    match use_ {
        Some(u) => u.trial_left(now),
        None => None,
    }
}

fn for_work(use_: Option<LicenceUse>) -> (yes: bool)
    ensures
        yes == (use_ matches Some(u) && (u is Commercial || u is Trial)),
{
    match use_ {
        Some(LicenceUse::Commercial) => true,
        Some(LicenceUse::Trial(_)) => true,
        _ => false,
    }
}

/// The card's heading: what is in force.
pub fn licence_summary(standing: &Standing, use_: Option<LicenceUse>, now: i64) -> (text: String)
    ensures
        text@ == summary_of(*standing, use_, now),
{
    match standing {
        Standing::Personal => match has_trial(use_, now) {
            Some(left) => if left == 0 {
                "Commercial trial ended · add your key".to_owned()
            } else {
                let mut text = "Commercial trial · ".to_owned();
                let time = time_left(left);
                text.append(time.as_str());
                text.append(" left");
                text
            },
            None => if for_work(use_) {
                "Commercial · add your key".to_owned()
            } else {
                "Personal use".to_owned()
            },
        },
        Standing::Commercial { seats, licence, until } => {
            let mut text = "Commercial · ".to_owned();
            push_counted(&mut text, *seats, "seat");
            text
        },
        Standing::Unproven => "Commercial · not confirmed".to_owned(),
    }
}

/// What the card says below its heading while there is no key; `price` is what
/// a licence costs.
pub fn licence_offer(use_: Option<LicenceUse>, now: i64, price: &str) -> (text: String)
    ensures
        text@ == offer_of(use_, now, price@),
{
    match has_trial(use_, now) {
        Some(left) => if left == 0 {
            let mut text =
                "Your free day of commercial use has ended. For work, a commercial license is ".to_owned();
            text.append(price);
            text.append(": buy one, then paste the key from its email here.");
            text
        } else {
            let mut text = "Your free commercial trial ends in ".to_owned();
            let time = time_left(left);
            text.append(time.as_str());
            text.append(
                ". To keep using VectorMagik for work after that, a commercial license is ",
            );
            text.append(price);
            text.append(": buy one, then paste the key from its email here.");
            text
        },
        None => if for_work(use_) {
            let mut text = "You use VectorMagik for work: a commercial license is ".to_owned();
            text.append(price);
            text.append(". Buy one, then paste the key from its email here.");
            text
        } else {
            let mut text =
                "Free for personal and other noncommercial use. Using VectorMagik for work? A commercial license is ".to_owned();
            text.append(price);
            text.append(".");
            text
        },
    }
}

/// What the card says of a key, with a hint of it.
pub fn key_note(standing: &Standing, hint: &str) -> (note: Option<String>)
    ensures
        note is Some == (key_note_of(*standing, hint@) is Some),
        note matches Some(text) ==> key_note_of(*standing, hint@) == Some(text@),
{
    match standing {
        Standing::Personal => None,
        Standing::Commercial { seats, licence, until } => {
            let mut text = "Commercial license, ".to_owned();
            push_counted(&mut text, *seats, "seat");
            text.append(". Key ");
            text.append(hint);
            text.append(" · license ");
            let number = chars_of(licence.as_str());
            let n: usize = if number.len() < 8 {
                number.len()
            } else {
                8
            };
            push_part(&mut text, number.as_slice(), 0, n);
            text.append(".");
            Some(text)
        },
        Standing::Unproven => {
            let mut text = "Key ".to_owned();
            text.append(hint);
            text.append(" is waiting for the license server to confirm it.");
            Some(text)
        },
    }
}

pub open spec fn until_of(standing: Standing) -> Option<Seq<char>> {
    match standing {
        Standing::Commercial { seats, licence, until } => Some(
            "Confirmed until "@ + until@ + "; it renews by itself while the subscription runs."@,
        ),
        _ => None,
    }
}

fn until_note(standing: &Standing) -> (note: Option<String>)
    ensures
        note is Some == (until_of(*standing) is Some),
        note matches Some(text) ==> until_of(*standing) == Some(text@),
{
    match standing {
        Standing::Commercial { seats, licence, until } => {
            let mut text = "Confirmed until ".to_owned();
            text.append(until.as_str());
            text.append("; it renews by itself while the subscription runs.");
            Some(text)
        },
        _ => None,
    }
}

/// What the licence card shows: `hint` is a hint of the key, `price` what a
/// licence costs, `on_sale` whether one can be bought and `pending` whether
/// the licence server is being asked.
pub fn licence_card(
    standing: &Standing,
    use_: Option<LicenceUse>,
    now: i64,
    hint: &str,
    price: &str,
    on_sale: bool,
    pending: bool,
) -> (card: LicenceCard)
    ensures
        card.summary@ == summary_of(*standing, use_, now),
        card.offer is Some == (*standing is Personal),
        card.offer matches Some(text) ==> text@ == offer_of(use_, now, price@),
        card.soon == (*standing is Personal && !on_sale),
        card.page == (if *standing is Personal {
            Some(
                if on_sale {
                    Page::Buy
                } else {
                    Page::Details
                },
            )
        } else {
            None
        }),
        card.personal == without_key(*standing, use_),
        card.field == (*standing is Personal && on_sale),
        card.key_note is Some == (key_note_of(*standing, hint@) is Some),
        card.key_note matches Some(text) ==> key_note_of(*standing, hint@) == Some(text@),
        card.until is Some == (until_of(*standing) is Some),
        card.until matches Some(text) ==> until_of(*standing) == Some(text@),
        card.retry == (*standing is Unproven && !pending),
        card.manage == !(*standing is Personal),
{
    let personal = matches!(standing, Standing::Personal);
    LicenceCard {
        summary: licence_summary(standing, use_, now),
        offer: if personal {
            Some(licence_offer(use_, now, price))
        } else {
            None
        },
        soon: personal && !on_sale,
        page: if !personal {
            None
        } else if on_sale {
            Some(Page::Buy)
        } else {
            Some(Page::Details)
        },
        personal: personal && for_work(use_),
        field: personal && on_sale,
        key_note: key_note(standing, hint),
        until: until_note(standing),
        retry: matches!(standing, Standing::Unproven) && !pending,
        manage: !personal,
    }
}

/// Why a key cannot be activated, on hover.
pub fn activate_hint(pending: bool) -> (text: &'static str)
    ensures
        text@ == (if pending {
            "Waiting for the license server."@
        } else {
            "Paste a key that starts with esk_."@
        }),
{
    if pending {
        "Waiting for the license server."
    } else {
        "Paste a key that starts with esk_."
    }
}

/// The licence in the window: what is kept, what was answered, and what is
/// being asked.
#[derive(Debug)]
pub struct Licence {
    pub stored: Stored,
    pub use_: Option<LicenceUse>,
    /// The first-run question is on screen.
    pub ask: bool,
    /// The question's key field is open.
    pub prompt_key: bool,
    /// The checkout was opened from the question, which then says so.
    pub opened: bool,
    /// What the key field holds.
    pub input: String,
    /// The card's last word about the licence.
    pub note: Option<String>,
    /// The key presented to the licence server, and whether it was typed.
    pub reply: Option<(String, bool)>,
    /// This run has offered the stored key for renewal.
    pub renewed: bool,
}

pub struct LicenceView {
    pub stored: StoredView,
    pub use_: Option<LicenceUse>,
    pub ask: bool,
    pub prompt_key: bool,
    pub opened: bool,
    pub input: Seq<char>,
    pub note: Option<Seq<char>>,
    pub reply: Option<(Seq<char>, bool)>,
    pub renewed: bool,
}

pub open spec fn text_view(text: Option<String>) -> Option<Seq<char>> {
    match text {
        Some(t) => Some(t@),
        None => None,
    }
}

pub open spec fn reply_view(reply: Option<(String, bool)>) -> Option<(Seq<char>, bool)> {
    match reply {
        Some((key, typed)) => Some((key@, typed)),
        None => None,
    }
}

impl View for Licence {
    type V = LicenceView;

    open spec fn view(&self) -> LicenceView {
        LicenceView {
            stored: self.stored@,
            use_: self.use_,
            ask: self.ask,
            prompt_key: self.prompt_key,
            opened: self.opened,
            input: self.input@,
            note: text_view(self.note),
            reply: reply_view(self.reply),
            renewed: self.renewed,
        }
    }
}

pub enum RedeemedView {
    Certificate { certificate: Seq<char>, until: Option<Seq<char>> },
    Refused(Seq<char>),
    Unreachable(Seq<char>),
}

impl View for Redeemed {
    type V = RedeemedView;

    open spec fn view(&self) -> RedeemedView {
        match self {
            Redeemed::Certificate { certificate, until } => RedeemedView::Certificate {
                certificate: certificate@,
                until: text_view(*until),
            },
            Redeemed::Refused(reason) => RedeemedView::Refused(reason@),
            Redeemed::Unreachable(reason) => RedeemedView::Unreachable(reason@),
        }
    }
}

/// The question is due: no answer and no licence yet, or a trial that has
/// ended.
pub open spec fn unasked(stored: StoredView, use_: Option<LicenceUse>, now: i64) -> bool {
    stored.key.len() == 0 && match use_ {
        None => true,
        Some(u) => u.left(now) == Some(0int),
    }
}

impl LicenceView {
    pub open spec fn noted(self, text: Seq<char>) -> LicenceView {
        LicenceView { note: Some(text), ..self }
    }

    pub open spec fn answered(self, use_: LicenceUse) -> LicenceView {
        LicenceView { use_: Some(use_), ask: false, prompt_key: false, ..self }
    }

    /// After `key` was presented to the licence server; one key at a time.
    pub open spec fn start_redeem(self, key: Seq<char>, typed: bool) -> LicenceView {
        if key.len() == 0 || self.reply is Some {
            self
        } else {
            LicenceView { reply: Some((key, typed)), note: None, ..self }
        }
    }

    /// After the licence server answered for `key`.
    pub open spec fn take_redeem(self, key: Seq<char>, typed: bool, answer: RedeemedView) -> (
        LicenceView,
        Option<Seq<char>>,
    ) {
        match answer {
            RedeemedView::Certificate { certificate, until } => match until {
                Some(day) => (
                    LicenceView {
                        stored: StoredView { key, certificate },
                        input: Seq::empty(),
                        note: None,
                        ..self.answered(LicenceUse::Commercial)
                    },
                    Some("Commercial license confirmed until "@ + day + "."@),
                ),
                None => (
                    self.noted(
                        "The license server sent a certificate this app cannot use (another product's, or an update is needed)."@,
                    ),
                    None,
                ),
            },
            RedeemedView::Refused(reason) => if typed {
                (self.noted(reason), None)
            } else {
                (
                    (LicenceView { stored: StoredView::none(), ..self }).noted(
                        "The license has ended: "@ + reason,
                    ),
                    None,
                )
            },
            RedeemedView::Unreachable(reason) => (self.noted(reason), None),
        }
    }
}

impl Licence {
    pub fn new(stored: Stored, use_: Option<LicenceUse>) -> (licence: Licence)
        ensures
            licence@ == (LicenceView {
                stored: stored@,
                use_,
                ask: false,
                prompt_key: false,
                opened: false,
                input: Seq::empty(),
                note: None,
                reply: None,
                renewed: false,
            }),
    {
        let input = String::new();
        assert(input@ =~= Seq::<char>::empty());
        Licence {
            stored,
            use_,
            ask: false,
            prompt_key: false,
            opened: false,
            input,
            note: None,
            reply: None,
            renewed: false,
        }
    }

    /// Puts the first-run question on screen when it is due, and takes it off
    /// when it is not.
    pub fn ask_licence_if_new(&mut self, now: i64)
        ensures
            final(self)@ == (LicenceView {
                ask: unasked(old(self)@.stored, old(self)@.use_, now),
                ..old(self)@
            }),
    {
        let due: bool = match self.use_ {
            None => true,
            Some(u) => match u.trial_left(now) {
                Some(left) => left == 0,
                None => false,
            },
        };
        let key = chars_of(self.stored.key.as_str());
        self.ask = key.len() == 0 && due;
    }

    /// The question's heading, and whether a trial is offered: not a second
    /// one.
    pub fn prompt(&self, now: i64) -> (shown: (&'static str, bool))
        ensures
            shown.1 == (trial_of(self@.use_, now) != Some(0int)),
            shown.0@ == (if shown.1 {
                "How will you use it?"@
            } else {
                "Your free day of commercial use has ended. How will you use it now?"@
            }),
    {
        match has_trial(self.use_, now) {
            Some(left) => if left == 0 {
                ("Your free day of commercial use has ended. How will you use it now?", false)
            } else {
                ("How will you use it?", true)
            },
            None => ("How will you use it?", true),
        }
    }

    /// Takes the answer to the question.
    pub fn answer(&mut self, use_: LicenceUse)
        ensures
            final(self)@ == old(self)@.answered(use_),
    {
        self.use_ = Some(use_);
        self.ask = false;
        self.prompt_key = false;
    }

    /// Commercial use was chosen: the key field opens and the question stays.
    pub fn choose_commercial(&mut self)
        ensures
            final(self)@ == (LicenceView { prompt_key: true, ..old(self)@ }),
    {
        self.prompt_key = true;
    }

    /// Forgets the key here.
    pub fn remove(&mut self)
        ensures
            final(self)@ == (LicenceView {
                stored: StoredView::none(),
                note: None,
                ..old(self)@
            }),
    {
        self.stored = Stored::default();
        self.note = None;
    }

    /// The app is for personal use after all.
    pub fn use_personally(&mut self)
        ensures
            final(self)@ == (LicenceView { use_: Some(LicenceUse::Personal), ..old(self)@ }),
    {
        self.use_ = Some(LicenceUse::Personal);
    }

    /// One of the licence's pages was opened; what the status line says of
    /// it.
    pub fn open_licence_url(&mut self, page: Page) -> (text: &'static str)
        ensures
            final(self)@ == (LicenceView {
                opened: old(self)@.opened || page == Page::Buy,
                ..old(self)@
            }),
            text@ == (match page {
                Page::Buy =>
                    "Opened the checkout: buy there, then paste the key from its email here in your web browser."@,
                Page::Manage => "Opened your subscription's page in your web browser."@,
                Page::Details => "Opened the license page in your web browser."@,
            }),
    {
        match page {
            Page::Buy => {
                self.opened = true;
                "Opened the checkout: buy there, then paste the key from its email here in your web browser."
            },
            Page::Manage => "Opened your subscription's page in your web browser.",
            Page::Details => "Opened the license page in your web browser.",
        }
    }

    /// Presents `key` to the licence server, unless one is being asked about;
    /// `typed` when it came from the card's field. Whether it is asked.
    pub fn start_redeem(&mut self, key: &str, typed: bool) -> (asked: bool)
        ensures
            final(self)@ == old(self)@.start_redeem(key@, typed),
            asked == (key@.len() > 0 && old(self)@.reply is None),
    {
        let text = chars_of(key);
        if text.len() == 0 || self.reply.is_some() {
            return false;
        }
        self.reply = Some((key.to_owned(), typed));
        self.note = None;
        true
    }

    /// Once per run, offers the stored key for renewal when its certificate
    /// wants it; whether it is asked about.
    pub fn renew(&mut self, wanted: bool) -> (asked: bool)
        ensures
            old(self)@.reply is Some || old(self)@.renewed ==> final(self)@ == old(self)@
                && !asked,
            !(old(self)@.reply is Some || old(self)@.renewed) ==> final(self)@ == ({
                let s = LicenceView { renewed: true, ..old(self)@ };
                if wanted {
                    s.start_redeem(s.stored.key, false)
                } else {
                    s
                }
            }) && asked == (wanted && old(self)@.stored.key.len() > 0),
    {
        if self.reply.is_some() || self.renewed {
            return false;
        }
        self.renewed = true;
        if !wanted {
            return false;
        }
        let key = self.stored.key.as_str().to_owned();
        self.start_redeem(key.as_str(), false)
    }

    /// Takes what the licence server said of the key it was asked about; the
    /// words for the status line.
    pub fn receive(&mut self, answer: Redeemed) -> (status: Option<String>)
        ensures
            match old(self)@.reply {
                Some((key, typed)) => (final(self)@, text_view(status)) == (LicenceView {
                    reply: None,
                    ..old(self)@
                }).take_redeem(key, typed, answer@),
                None => final(self)@ == old(self)@ && status is None,
            },
    {
        match self.reply.take() {
            Some((key, typed)) => self.take_redeem(key, typed, answer),
            None => None,
        }
    }

    /// The check stopped without an answer.
    pub fn check_stopped(&mut self)
        ensures
            final(self)@ == (LicenceView { reply: None, ..old(self)@ }).noted(
                "The license check stopped; try again."@,
            ),
    {
        self.reply = None;
        self.note = Some("The license check stopped; try again.".to_owned());
    }

    /// Takes what the licence server said of `key`. A key that works answers
    /// the first-run question; a typed key that is refused stays out; the
    /// stored key refused ends the licence; without a connection everything
    /// stays.
    pub fn take_redeem(&mut self, key: String, typed: bool, answer: Redeemed) -> (status: Option<
        String,
    >)
        ensures
            (final(self)@, text_view(status)) == old(self)@.take_redeem(key@, typed, answer@),
    {
        match answer {
            Redeemed::Certificate { certificate, until } => match until {
                Some(day) => {
                    self.stored = Stored { key, certificate };
                    self.input = String::new();
                    assert(self.input@ =~= Seq::<char>::empty());
                    self.note = None;
                    self.answer(LicenceUse::Commercial);
                    let mut text = "Commercial license confirmed until ".to_owned();
                    text.append(day.as_str());
                    text.append(".");
                    Some(text)
                },
                None => {
                    self.note = Some(
                        "The license server sent a certificate this app cannot use (another product's, or an update is needed).".to_owned(),
                    );
                    None
                },
            },
            Redeemed::Refused(reason) => {
                if typed {
                    self.note = Some(reason);
                } else {
                    self.stored = Stored::default();
                    let mut text = "The license has ended: ".to_owned();
                    text.append(reason.as_str());
                    self.note = Some(text);
                }
                None
            },
            Redeemed::Unreachable(reason) => {
                self.note = Some(reason);
                None
            },
        }
    }
}

/// A typed key that is refused, and no connection, leave the licence that is
/// kept and the answer to the question as they were.
pub proof fn law_failures_keep_the_licence(
    s: LicenceView,
    key: Seq<char>,
    typed: bool,
    answer: RedeemedView,
)
    requires
        answer is Unreachable || (answer is Refused && typed),
    ensures
        s.take_redeem(key, typed, answer).0.stored == s.stored,
        s.take_redeem(key, typed, answer).0.use_ == s.use_,
        s.take_redeem(key, typed, answer).0.ask == s.ask,
        s.take_redeem(key, typed, answer).0.note is Some,
{
}

/// The stored key refused ends the licence.
pub proof fn law_a_refused_stored_key_ends_the_licence(
    s: LicenceView,
    key: Seq<char>,
    reason: Seq<char>,
)
    ensures
        s.take_redeem(key, false, RedeemedView::Refused(reason)).0.stored == StoredView::none(),
{
}

/// Once answered, the question is not asked again, but for a trial that has
/// ended; and a licence that is kept is never asked about.
pub proof fn law_the_question_is_asked_once(s: LicenceView, use_: LicenceUse, now: i64)
    ensures
        !(use_ is Trial) ==> !unasked(s.answered(use_).stored, s.answered(use_).use_, now),
        s.stored.key.len() > 0 ==> !unasked(s.stored, s.use_, now),
        use_ matches LicenceUse::Trial(start) && start <= now < start + TRIAL_SECONDS ==> !unasked(
            s.answered(use_).stored,
            s.answered(use_).use_,
            now,
        ),
        use_ matches LicenceUse::Trial(start) && now >= start + TRIAL_SECONDS
            && s.stored.key.len() == 0 ==> unasked(
            s.answered(use_).stored,
            s.answered(use_).use_,
            now,
        ),
{
}

/// A use's word names that use.
pub proof fn law_licence_words_read_back(use_: LicenceUse)
    ensures
        LicenceUse::of_word(trimmed(use_.word_of())) == Some(use_),
{
    reveal_strlit("personal");
    reveal_strlit("commercial");
    reveal_strlit("trial:");
    reveal_strlit("-");
    let word = use_.word_of();
    if let LicenceUse::Trial(start) = use_ {
        let n = start as int;
        let size = (if n < 0 {
            -n
        } else {
            n
        }) as nat;
        crate::path_data::lemma_decimal(size);
        let text = signed(n);
        let digits = decimal(size);
        assert(is_digit(digits[digits.len() - 1]));
        assert(text.last() == digits.last());
        assert(word.last() == text.last());
        crate::text::lemma_trimmed_bare(word);
        assert(trial_word().is_prefix_of(word));
        assert(word.subrange(6, word.len() as int) =~= text);
        if n < 0 {
            assert(text.subrange(1, text.len() as int) =~= digits);
        } else {
            assert(is_digit(digits[0]));
        }
        assert(all_digits(digits));
        assert(whole_number(text) == Some(n));
        assert(word[0] == 't');
        assert("personal"@[0] == 'p' && "commercial"@[0] == 'c');
    } else {
        crate::text::lemma_trimmed_bare(word);
        assert("personal"@[0] == 'p' && "commercial"@[0] == 'c');
    }
}

} // verus!
