//! The window's preferences, kept between runs as lines of text: `name=on` or
//! `name=off`, light or dark, the answer to the first-run question and the
//! licence.
use crate::licence::{LicenceUse, Stored, StoredView};
use crate::look::ThemeChoice;
use crate::platform::{Command, Host};
use crate::text::{
    chars_of, drop_white, lemma_trimmed_bare, part, same_text, skip_white, stands_at, trimmed,
};
use vstd::prelude::*;

verus! {

/// The switches that are kept.
#[derive(Clone, Copy, Debug, PartialEq, Eq, Structural)]
pub struct Switches {
    /// Hold to compare.
    pub hold: bool,
    /// Convert automatically.
    pub auto: bool,
    /// Save stacked shapes.
    pub stacked: bool,
}

/// Light or dark, and the answer to the first-run question.
#[derive(Clone, Copy, Debug, PartialEq, Eq, Structural)]
pub struct Appearance {
    pub theme: ThemeChoice,
    pub answer: Option<LicenceUse>,
}

/// The place of the first `c` from `i` on, or the end.
pub open spec fn place_of(text: Seq<char>, c: char, i: int) -> int
    decreases text.len() - i,
{
    if i < 0 || i >= text.len() || text[i] == c {
        i
    } else {
        place_of(text, c, i + 1)
    }
}

/// `text` without a carriage return at its end.
pub open spec fn without_return(text: Seq<char>) -> Seq<char> {
    if text.len() > 0 && text.last() == '\r' {
        text.drop_last()
    } else {
        text
    }
}

/// The lines of `text`: each ends at a line feed, with a carriage return
/// before it or not; the last need not.
pub open spec fn lines_of(text: Seq<char>) -> Seq<Seq<char>>
    decreases text.len(),
{
    let k = place_of(text, '\n', 0);
    if text.len() == 0 {
        Seq::empty()
    } else if k < 0 || k >= text.len() {
        seq![text]
    } else {
        seq![without_return(text.subrange(0, k))] + lines_of(
            text.subrange(k + 1, text.len() as int),
        )
    }
}

/// A line's name and value, apart at its first equals sign.
pub open spec fn split_line(line: Seq<char>) -> Option<(Seq<char>, Seq<char>)> {
    let k = place_of(line, '=', 0);
    if k < line.len() {
        Some((line.subrange(0, k), line.subrange(k + 1, line.len() as int)))
    } else {
        None
    }
}

pub open spec fn on_off(text: Seq<char>) -> Option<bool> {
    if text == "on"@ {
        Some(true)
    } else if text == "off"@ {
        Some(false)
    } else {
        None
    }
}

/// The switches after one line.
pub open spec fn switched(line: Seq<char>, s: Switches) -> Switches {
    match split_line(line) {
        Some((name, value)) => match on_off(trimmed(value)) {
            Some(on) => if trimmed(name) == "hold_compare"@ {
                Switches { hold: on, ..s }
            } else if trimmed(name) == "auto_convert"@ {
                Switches { auto: on, ..s }
            } else if trimmed(name) == "save_stacked"@ {
                Switches { stacked: on, ..s }
            } else {
                s
            },
            None => s,
        },
        None => s,
    }
}

pub open spec fn switches_of(lines: Seq<Seq<char>>, s: Switches) -> Switches
    decreases lines.len(),
{
    if lines.len() == 0 {
        s
    } else {
        switches_of(lines.drop_first(), switched(lines[0], s))
    }
}

/// Light or dark and the answer after one line. A theme that is not known
/// keeps the one before; an answer that is not known is none.
pub open spec fn dressed(line: Seq<char>, a: Appearance) -> Appearance {
    match split_line(line) {
        Some((name, value)) => if name == "theme"@ {
            match ThemeChoice::of_word(trimmed(value)) {
                Some(theme) => Appearance { theme, ..a },
                None => a,
            }
        } else if name == "licence_use"@ {
            Appearance { answer: LicenceUse::of_word(trimmed(value)), ..a }
        } else {
            a
        },
        None => a,
    }
}

pub open spec fn appearance_of(lines: Seq<Seq<char>>, a: Appearance) -> Appearance
    decreases lines.len(),
{
    if lines.len() == 0 {
        a
    } else {
        appearance_of(lines.drop_first(), dressed(lines[0], a))
    }
}

/// The licence's lines: the key as it is written, and the certificate.
pub struct LicenceLines {
    pub key: Option<Seq<char>>,
    pub certificate: Seq<char>,
}

pub open spec fn licensed(line: Seq<char>, s: LicenceLines) -> LicenceLines {
    match split_line(line) {
        Some((name, value)) => if name == "licence_key"@ {
            LicenceLines { key: Some(value), ..s }
        } else if name == "licence_certificate"@ {
            LicenceLines { certificate: trimmed(value), ..s }
        } else {
            s
        },
        None => s,
    }
}

pub open spec fn licence_of(lines: Seq<Seq<char>>, s: LicenceLines) -> LicenceLines
    decreases lines.len(),
{
    if lines.len() == 0 {
        s
    } else {
        licence_of(lines.drop_first(), licensed(lines[0], s))
    }
}

pub open spec fn no_lines() -> LicenceLines {
    LicenceLines { key: None, certificate: Seq::empty() }
}

/// The licence that is kept: nothing without a well-shaped key.
pub open spec fn kept(key: Option<Seq<char>>, certificate: Seq<char>) -> StoredView {
    match key {
        Some(k) => if k.len() > 0 {
            StoredView { key: k, certificate }
        } else {
            StoredView::none()
        },
        None => StoredView::none(),
    }
}

pub open spec fn on_word(on: bool) -> Seq<char> {
    if on {
        "on"@
    } else {
        "off"@
    }
}

/// One line: a name, an equals sign, a value and the line's end.
pub open spec fn line_text(name: Seq<char>, value: Seq<char>) -> Seq<char> {
    name + "="@ + value + "\r\n"@
}

/// The preferences as they are written.
pub open spec fn prefs_text(s: Switches, stored: StoredView, a: Appearance) -> Seq<char> {
    line_text("hold_compare"@, on_word(s.hold)) + (line_text("auto_convert"@, on_word(s.auto)) + (
    line_text("save_stacked"@, on_word(s.stacked)) + (line_text("theme"@, a.theme.word_of()) + ((
    match a.answer {
        Some(use_) => line_text("licence_use"@, use_.word_of()),
        None => Seq::empty(),
    }) + (if stored.key.len() > 0 {
        line_text("licence_key"@, stored.key) + line_text(
            "licence_certificate"@,
            stored.certificate,
        )
    } else {
        Seq::empty()
    })))))
}

fn find_char(text: &[char], c: char, from: usize) -> (at: usize)
    requires
        from <= text@.len(),
    ensures
        at == place_of(text@, c, from as int),
        from <= at <= text@.len(),
{
    let mut at: usize = from;
    while at < text.len() && text[at] != c
        invariant
            from <= at <= text@.len(),
            place_of(text@, c, from as int) == place_of(text@, c, at as int),
        decreases text@.len() - at,
    {
        at = at + 1;
    }
    at
}

/// The first line of a text and what follows it.
fn first_line<'a>(text: &'a [char]) -> (found: (&'a [char], &'a [char]))
    requires
        text@.len() > 0,
    ensures
        lines_of(text@) == seq![found.0@] + lines_of(found.1@),
        found.1@.len() < text@.len(),
{
    let len: usize = text.len();
    let k: usize = find_char(text, '\n', 0);
    if k == len {
        let rest = vstd::slice::slice_subrange(text, len, len);
        assert(lines_of(rest@) =~= Seq::empty());
        assert(seq![text@] + lines_of(rest@) =~= seq![text@]);
        return (text, rest);
    }
    let rest = vstd::slice::slice_subrange(text, k + 1, len);
    let end: usize = if k > 0 && text[k - 1] == '\r' {
        k - 1
    } else {
        k
    };
    let line = vstd::slice::slice_subrange(text, 0, end);
    assert(line@ =~= without_return(text@.subrange(0, k as int)));
    (line, rest)
}

/// A line's name and value.
fn split<'a>(line: &'a [char]) -> (found: Option<(&'a [char], &'a [char])>)
    ensures
        found is Some == (split_line(line@) is Some),
        found matches Some((name, value)) ==> split_line(line@) == Some((name@, value@)),
{
    let len: usize = line.len();
    let k: usize = find_char(line, '=', 0);
    if k == len {
        None
    } else {
        Some(
            (
                vstd::slice::slice_subrange(line, 0, k),
                vstd::slice::slice_subrange(line, k + 1, len),
            ),
        )
    }
}

fn bare<'a>(text: &'a [char]) -> (inner: &'a [char])
    ensures
        inner@ == trimmed(text@),
{
    let len: usize = text.len();
    let a: usize = skip_white(text, 0, len);
    let b: usize = drop_white(text, a, len);
    vstd::slice::slice_subrange(text, a, b)
}

fn is(text: &[char], word: &str) -> (yes: bool)
    ensures
        yes == (text@ == word@),
{
    let len: usize = text.len();
    assert(text@.subrange(0, len as int) =~= text@);
    same_text(text, 0, len, word)
}

fn text_of(text: &[char]) -> (out: String)
    ensures
        out@ == text@,
{
    let len: usize = text.len();
    assert(text@.subrange(0, len as int) =~= text@);
    part(text, 0, len)
}

fn switch_line(line: &[char], s: Switches) -> (after: Switches)
    ensures
        after == switched(line@, s),
{
    match split(line) {
        Some((name, value)) => {
            let word = bare(value);
            let on: bool = if is(word, "on") {
                true
            } else if is(word, "off") {
                false
            } else {
                return s;
            };
            let name = bare(name);
            if is(name, "hold_compare") {
                Switches { hold: on, auto: s.auto, stacked: s.stacked }
            } else if is(name, "auto_convert") {
                Switches { hold: s.hold, auto: on, stacked: s.stacked }
            } else if is(name, "save_stacked") {
                Switches { hold: s.hold, auto: s.auto, stacked: on }
            } else {
                s
            }
        },
        None => s,
    }
}

/// The switches in `text`, over `defaults`; lines it does not know are
/// ignored.
pub fn parse_prefs(text: &str, defaults: Switches) -> (switches: Switches)
    ensures
        switches == switches_of(lines_of(text@), defaults),
{
    let all = chars_of(text);
    let mut rest: &[char] = all.as_slice();
    let mut s: Switches = defaults;
    while rest.len() > 0
        invariant
            switches_of(lines_of(text@), defaults) == switches_of(lines_of(rest@), s),
        decreases rest@.len(),
    {
        let ghost before = lines_of(rest@);
        let (line, after) = first_line(rest);
        assert(before.drop_first() =~= lines_of(after@));
        s = switch_line(line, s);
        rest = after;
    }
    assert(lines_of(rest@) =~= Seq::empty());
    s
}

/// Light or dark and the first-run answer in `text`; a line missing or not
/// understood keeps dark, not yet asked.
pub fn parse_appearance(text: &str) -> (appearance: Appearance)
    ensures
        appearance == appearance_of(
            lines_of(text@),
            Appearance { theme: ThemeChoice::Dark, answer: None },
        ),
{
    let all = chars_of(text);
    let mut rest: &[char] = all.as_slice();
    let mut a = Appearance { theme: ThemeChoice::Dark, answer: None };
    while rest.len() > 0
        invariant
            appearance_of(
                lines_of(text@),
                Appearance { theme: ThemeChoice::Dark, answer: None },
            ) == appearance_of(lines_of(rest@), a),
        decreases rest@.len(),
    {
        let ghost before = lines_of(rest@);
        let (line, after) = first_line(rest);
        assert(before.drop_first() =~= lines_of(after@));
        if let Some((name, value)) = split(line) {
            let word = text_of(value);
            if is(name, "theme") {
                if let Some(theme) = ThemeChoice::from_word(word.as_str()) {
                    a = Appearance { theme, answer: a.answer };
                }
            } else if is(name, "licence_use") {
                a = Appearance { theme: a.theme, answer: LicenceUse::from_word(word.as_str()) };
            }
        }
        rest = after;
    }
    assert(lines_of(rest@) =~= Seq::empty());
    a
}

/// The licence's lines in `text`: the key as it is written last, and the
/// certificate.
pub fn licence_lines(text: &str) -> (found: (Option<String>, String))
    ensures
        ({
            let l = licence_of(lines_of(text@), no_lines());
            &&& found.1@ == l.certificate
            &&& found.0 is Some == (l.key is Some)
            &&& found.0 matches Some(key) ==> l.key == Some(key@)
        }),
{
    let all = chars_of(text);
    let mut rest: &[char] = all.as_slice();
    let mut key: Option<String> = None;
    let mut certificate = String::new();
    let ghost mut s = no_lines();
    assert(certificate@ =~= s.certificate);
    while rest.len() > 0
        invariant
            licence_of(lines_of(text@), no_lines()) == licence_of(lines_of(rest@), s),
            certificate@ == s.certificate,
            key is Some == (s.key is Some),
            key matches Some(k) ==> s.key == Some(k@),
        decreases rest@.len(),
    {
        let ghost before = lines_of(rest@);
        let (line, after) = first_line(rest);
        assert(before.drop_first() =~= lines_of(after@));
        if let Some((name, value)) = split(line) {
            if is(name, "licence_key") {
                key = Some(text_of(value));
            } else if is(name, "licence_certificate") {
                certificate = text_of(bare(value));
            }
        }
        proof {
            s = licensed(line@, s);
        }
        rest = after;
    }
    assert(lines_of(rest@) =~= Seq::empty());
    (key, certificate)
}

/// The licence that is kept: `key` is the written key brought into shape,
/// `None` where it has none. A key without shape drops its certificate too.
pub fn parse_licence(key: Option<String>, certificate: String) -> (stored: Stored)
    ensures
        stored@ == kept(
            match key {
                Some(k) => Some(k@),
                None => None,
            },
            certificate@,
        ),
{
    match key {
        Some(key) => {
            let text = chars_of(key.as_str());
            if text.len() > 0 {
                Stored { key, certificate }
            } else {
                Stored::default()
            }
        },
        None => Stored::default(),
    }
}

/// A line before more text.
fn line_before(name: &str, value: &str, rest: &str) -> (out: String)
    ensures
        out@ == line_text(name@, value@) + rest@,
{
    let mut out = name.to_owned();
    out.append("=");
    out.append(value);
    out.append("\r\n");
    out.append(rest);
    out
}

fn word(on: bool) -> (text: &'static str)
    ensures
        text@ == on_word(on),
{
    if on {
        "on"
    } else {
        "off"
    }
}

/// The preferences as they are written. A licence rides along when there is
/// one.
pub fn write_prefs(switches: Switches, licence: &Stored, appearance: Appearance) -> (text: String)
    ensures
        text@ == prefs_text(switches, licence@, appearance),
{
    let key = chars_of(licence.key.as_str());
    let mut text = String::new();
    assert(text@ =~= Seq::<char>::empty());
    if key.len() > 0 {
        text = line_before("licence_certificate", licence.certificate.as_str(), "");
        proof {
            reveal_strlit("");
        }
        assert(text@ =~= line_text("licence_certificate"@, licence@.certificate));
        text = line_before("licence_key", licence.key.as_str(), text.as_str());
    }
    if let Some(answer) = appearance.answer {
        let use_ = answer.word();
        text = line_before("licence_use", use_.as_str(), text.as_str());
    } else {
        assert(Seq::<char>::empty() + text@ =~= text@);
    }
    text = line_before("theme", appearance.theme.word(), text.as_str());
    text = line_before("save_stacked", word(switches.stacked), text.as_str());
    text = line_before("auto_convert", word(switches.auto), text.as_str());
    line_before("hold_compare", word(switches.hold), text.as_str())
}

/// The preferences as last written.
#[derive(Debug)]
pub struct Saved {
    pub switches: Switches,
    pub licence: Stored,
    pub appearance: Appearance,
}

impl Saved {
    /// The text to write when a preference has changed since the last time; a
    /// browser tab hands it to the page instead.
    pub fn save_prefs(
        &mut self,
        host: &mut Host,
        switches: Switches,
        licence: &Stored,
        appearance: Appearance,
    ) -> (text: Option<String>)
        ensures
            final(self).switches == switches,
            final(self).licence@ == licence@,
            final(self).appearance == appearance,
            ({
                let changed = old(self).switches != switches || old(self).licence@ != licence@
                    || old(self).appearance != appearance;
                let now = prefs_text(switches, licence@, appearance);
                &&& text is Some == (changed && !old(host).in_browser)
                &&& text matches Some(t) ==> t@ == now
                &&& changed && old(host).in_browser ==> exists|t: String| #[trigger]
                    old(host).asked(Command::StorePrefs(t), *final(host)) && t@ == now
                &&& !(changed && old(host).in_browser) ==> *final(host) == *old(host)
            }),
    {
        let same = self.switches == switches && self.licence.key == licence.key
            && self.licence.certificate == licence.certificate && self.appearance.theme
            == appearance.theme && match (self.appearance.answer, appearance.answer) {
            (Some(a), Some(b)) => a == b,
            (None, None) => true,
            _ => false,
        };
        if same {
            return None;
        }
        self.switches = switches;
        self.licence = Stored {
            key: licence.key.as_str().to_owned(),
            certificate: licence.certificate.as_str().to_owned(),
        };
        self.appearance = appearance;
        let text = write_prefs(switches, licence, appearance);
        if host.in_browser {
            host.ask(Command::StorePrefs(text));
            return None;
        }
        Some(text)
    }
}

proof fn lemma_place(text: Seq<char>, c: char, i: int, k: int)
    requires
        0 <= i <= k <= text.len(),
        forall|j: int| i <= j < k ==> #[trigger] text[j] != c,
        k < text.len() ==> text[k] == c,
    ensures
        place_of(text, c, i) == k,
    decreases k - i,
{
    if i < k {
        lemma_place(text, c, i + 1, k);
    }
}

/// No line feed.
pub open spec fn plain(text: Seq<char>) -> bool {
    forall|i: int| 0 <= i < text.len() ==> #[trigger] text[i] != '\n'
}

/// Neither a line feed nor an equals sign.
pub open spec fn plain_name(name: Seq<char>) -> bool {
    forall|i: int| 0 <= i < name.len() ==> #[trigger] name[i] != '\n' && name[i] != '='
}

/// A written line comes first among the lines, and splits into its name and
/// value.
proof fn lemma_first_line(name: Seq<char>, value: Seq<char>, rest: Seq<char>)
    requires
        plain_name(name),
        plain(value),
    ensures
        lines_of(line_text(name, value) + rest) == seq![name + "="@ + value] + lines_of(rest),
        split_line(name + "="@ + value) == Some((name, value)),
{
    reveal_strlit("=");
    reveal_strlit("\r\n");
    let line = name + "="@ + value;
    let text = line_text(name, value) + rest;
    let k = line.len() as int + 1;
    assert forall|j: int| 0 <= j < k implies #[trigger] text[j] != '\n' by {
        if j < name.len() {
            assert(text[j] == name[j]);
        } else if j == name.len() {
            assert(text[j] == '=');
        } else if j < line.len() {
            assert(text[j] == value[j - name.len() - 1]);
        } else {
            assert(text[j] == '\r');
        }
    }
    assert(text[k] == '\n');
    lemma_place(text, '\n', 0, k);
    assert(text.subrange(0, k) =~= line.push('\r'));
    assert(without_return(line.push('\r')) =~= line);
    assert(text.subrange(k + 1, text.len() as int) =~= rest);
    let n = name.len() as int;
    assert forall|j: int| 0 <= j < n implies #[trigger] line[j] != '=' by {
        assert(line[j] == name[j]);
    }
    assert(line[n] == '=');
    lemma_place(line, '=', 0, n);
    assert(line.subrange(0, n) =~= name);
    assert(line.subrange(n + 1, line.len() as int) =~= value);
}

proof fn lemma_step(line: Seq<char>, rest: Seq<Seq<char>>, s: Switches, a: Appearance, l: LicenceLines)
    ensures
        switches_of(seq![line] + rest, s) == switches_of(rest, switched(line, s)),
        appearance_of(seq![line] + rest, a) == appearance_of(rest, dressed(line, a)),
        licence_of(seq![line] + rest, l) == licence_of(rest, licensed(line, l)),
{
    assert((seq![line] + rest).drop_first() =~= rest);
}

/// All three readings of one written line followed by more text.
proof fn lemma_line(
    name: Seq<char>,
    value: Seq<char>,
    rest: Seq<char>,
    s: Switches,
    a: Appearance,
    l: LicenceLines,
)
    requires
        plain_name(name),
        plain(value),
    ensures
        switches_of(lines_of(line_text(name, value) + rest), s) == switches_of(
            lines_of(rest),
            switched(name + "="@ + value, s),
        ),
        appearance_of(lines_of(line_text(name, value) + rest), a) == appearance_of(
            lines_of(rest),
            dressed(name + "="@ + value, a),
        ),
        licence_of(lines_of(line_text(name, value) + rest), l) == licence_of(
            lines_of(rest),
            licensed(name + "="@ + value, l),
        ),
        split_line(name + "="@ + value) == Some((name, value)),
{
    lemma_first_line(name, value, rest);
    lemma_step(name + "="@ + value, lines_of(rest), s, a, l);
}

proof fn lemma_names()
    ensures
        plain_name("hold_compare"@) && trimmed("hold_compare"@) == "hold_compare"@,
        plain_name("auto_convert"@) && trimmed("auto_convert"@) == "auto_convert"@,
        plain_name("save_stacked"@) && trimmed("save_stacked"@) == "save_stacked"@,
        plain_name("theme"@) && trimmed("theme"@) == "theme"@,
        plain_name("licence_use"@) && trimmed("licence_use"@) == "licence_use"@,
        plain_name("licence_key"@) && trimmed("licence_key"@) == "licence_key"@,
        plain_name("licence_certificate"@) && trimmed("licence_certificate"@)
            == "licence_certificate"@,
        plain("on"@) && trimmed("on"@) == "on"@,
        plain("off"@) && trimmed("off"@) == "off"@,
        "on"@ != "off"@,
        "hold_compare"@.len() == 12 && "hold_compare"@[0] == 'h',
        "auto_convert"@.len() == 12 && "auto_convert"@[0] == 'a',
        "save_stacked"@.len() == 12 && "save_stacked"@[0] == 's',
        "theme"@.len() == 5,
        "licence_use"@.len() == 11 && "licence_use"@[8] == 'u',
        "licence_key"@.len() == 11 && "licence_key"@[8] == 'k',
        "licence_certificate"@.len() == 19,
{
    reveal_strlit("hold_compare");
    reveal_strlit("auto_convert");
    reveal_strlit("save_stacked");
    reveal_strlit("theme");
    reveal_strlit("licence_use");
    reveal_strlit("licence_key");
    reveal_strlit("licence_certificate");
    reveal_strlit("on");
    reveal_strlit("off");
    lemma_trimmed_bare("hold_compare"@);
    lemma_trimmed_bare("auto_convert"@);
    lemma_trimmed_bare("save_stacked"@);
    lemma_trimmed_bare("theme"@);
    lemma_trimmed_bare("licence_use"@);
    lemma_trimmed_bare("licence_key"@);
    lemma_trimmed_bare("licence_certificate"@);
    lemma_trimmed_bare("on"@);
    lemma_trimmed_bare("off"@);
    assert("on"@.len() == 2 && "off"@.len() == 3);
}

/// The words that a theme and an answer are kept as are neither on nor off,
/// and hold no line feed.
proof fn lemma_words(a: Appearance)
    ensures
        plain(a.theme.word_of()),
        on_off(trimmed(a.theme.word_of())) is None,
        a.answer matches Some(use_) ==> plain(use_.word_of()) && on_off(trimmed(use_.word_of())) is None,
{
    reveal_strlit("dark");
    reveal_strlit("light");
    reveal_strlit("system");
    reveal_strlit("on");
    reveal_strlit("off");
    lemma_trimmed_bare(a.theme.word_of());
    if let Some(use_) = a.answer {
        reveal_strlit("personal");
        reveal_strlit("commercial");
        reveal_strlit("trial:");
        reveal_strlit("-");
        let word = use_.word_of();
        if let LicenceUse::Trial(start) = use_ {
            let size = (if start < 0 {
                -start
            } else {
                start as int
            }) as nat;
            crate::path_data::lemma_decimal(size);
            let digits = crate::text::decimal(size);
            let signed = crate::licence::signed(start as int);
            assert forall|i: int| 0 <= i < word.len() implies #[trigger] word[i] != '\n' by {
                if i >= 6 {
                    assert(word[i] == signed[i - 6]);
                    if start < 0 {
                        if i > 6 {
                            assert(signed[i - 6] == digits[i - 7]);
                            assert(crate::path_data::is_digit(digits[i - 7]));
                        }
                    } else {
                        assert(crate::path_data::is_digit(digits[i - 6]));
                    }
                }
            }
            assert(crate::path_data::is_digit(digits.last()));
            assert(word.last() == digits.last());
            lemma_trimmed_bare(word);
            assert(word[0] == 't');
        } else {
            lemma_trimmed_bare(word);
        }
    }
}

/// The preferences read back as they were written: the switches over any
/// defaults, light or dark and the answer, and the licence's lines. The key
/// and the certificate hold no line feed, and the certificate no white space
/// around it.
pub proof fn law_preferences_read_back(
    s: Switches,
    stored: StoredView,
    a: Appearance,
    defaults: Switches,
)
    requires
        plain(stored.key),
        plain(stored.certificate),
        trimmed(stored.certificate) == stored.certificate,
    ensures
        switches_of(lines_of(prefs_text(s, stored, a)), defaults) == s,
        appearance_of(
            lines_of(prefs_text(s, stored, a)),
            Appearance { theme: ThemeChoice::Dark, answer: None },
        ) == a,
        stored.key.len() > 0 ==> licence_of(lines_of(prefs_text(s, stored, a)), no_lines())
            == (LicenceLines { key: Some(stored.key), certificate: stored.certificate }),
        stored.key.len() == 0 ==> licence_of(lines_of(prefs_text(s, stored, a)), no_lines())
            == no_lines(),
{
    lemma_names();
    lemma_words(a);
    crate::look::law_theme_words_read_back(a.theme);
    let dark = Appearance { theme: ThemeChoice::Dark, answer: None };
    let tail = if stored.key.len() > 0 {
        line_text("licence_key"@, stored.key) + line_text(
            "licence_certificate"@,
            stored.certificate,
        )
    } else {
        Seq::empty()
    };
    let r4 = (match a.answer {
        Some(use_) => line_text("licence_use"@, use_.word_of()),
        None => Seq::empty(),
    }) + tail;
    let r3 = line_text("theme"@, a.theme.word_of()) + r4;
    let r2 = line_text("save_stacked"@, on_word(s.stacked)) + r3;
    let r1 = line_text("auto_convert"@, on_word(s.auto)) + r2;
    let n = no_lines();
    let d1 = Switches { hold: s.hold, ..defaults };
    let d2 = Switches { auto: s.auto, ..d1 };
    let a4 = Appearance { theme: a.theme, ..dark };
    lemma_line("hold_compare"@, on_word(s.hold), r1, defaults, dark, n);
    lemma_line("auto_convert"@, on_word(s.auto), r2, d1, dark, n);
    lemma_line("save_stacked"@, on_word(s.stacked), r3, d2, dark, n);
    lemma_line("theme"@, a.theme.word_of(), r4, s, dark, n);
    assert(prefs_text(s, stored, a) == line_text("hold_compare"@, on_word(s.hold)) + r1);
    if let Some(use_) = a.answer {
        crate::licence::law_licence_words_read_back(use_);
        lemma_line("licence_use"@, use_.word_of(), tail, s, a4, n);
    } else {
        assert(r4 =~= tail);
    }
    if stored.key.len() > 0 {
        let last = line_text("licence_certificate"@, stored.certificate);
        let k = LicenceLines { key: Some(stored.key), ..n };
        lemma_line("licence_key"@, stored.key, last, s, a, n);
        lemma_line("licence_certificate"@, stored.certificate, Seq::empty(), s, a, k);
        assert(last + Seq::<char>::empty() =~= last);
    }
    assert(lines_of(Seq::<char>::empty()) =~= Seq::empty());
}

/// No `c` of the text follows an `i`, and none comes first.
spec fn no_ic(text: Seq<char>) -> bool {
    &&& text.len() > 0 ==> text[0] != 'c'
    &&& forall|j: int| 1 <= j < text.len() && #[trigger] text[j] == 'c' ==> text[j - 1] != 'i'
}

proof fn lemma_no_ic_adds(a: Seq<char>, b: Seq<char>)
    requires
        no_ic(a),
        no_ic(b),
    ensures
        no_ic(a + b),
{
    let t = a + b;
    assert forall|j: int| 1 <= j < t.len() && #[trigger] t[j] == 'c' implies t[j - 1] != 'i' by {
        if j < a.len() {
            assert(a[j] == 'c');
        } else if j > a.len() {
            assert(b[j - a.len()] == 'c');
        } else {
            assert(b[0] == 'c');
        }
    }
    if t.len() > 0 {
        assert(a.len() == 0 ==> t[0] == b[0]);
    }
}

proof fn lemma_no_ic_line(name: Seq<char>, value: Seq<char>)
    requires
        no_ic(name),
        no_ic(value),
    ensures
        no_ic(line_text(name, value)),
{
    reveal_strlit("=");
    reveal_strlit("\r\n");
    lemma_no_ic_adds(name, "="@);
    lemma_no_ic_adds(name + "="@, value);
    lemma_no_ic_adds(name + "="@ + value, "\r\n"@);
}

/// A line's text stands in a text that it is a part of.
proof fn lemma_name_stands(front: Seq<char>, name: Seq<char>, value: Seq<char>, rest: Seq<char>)
    requires
        "licence"@.is_prefix_of(name),
    ensures
        stands_at(front + (line_text(name, value) + rest), "licence"@, front.len() as int),
{
    let text = front + (line_text(name, value) + rest);
    let word = "licence"@;
    assert forall|i: int| 0 <= i < word.len() implies text[front.len() + i]
        == #[trigger] word[i] by {
        assert(text[front.len() + i] == name[i]);
    }
}

proof fn lemma_no_ic_words(on: bool, theme: ThemeChoice)
    ensures
        no_ic("hold_compare"@),
        no_ic("auto_convert"@),
        no_ic("save_stacked"@),
        no_ic("theme"@),
        no_ic(on_word(on)),
        no_ic(theme.word_of()),
{
    reveal_strlit("hold_compare");
    reveal_strlit("auto_convert");
    reveal_strlit("save_stacked");
    reveal_strlit("theme");
    reveal_strlit("dark");
    reveal_strlit("light");
    reveal_strlit("system");
    reveal_strlit("on");
    reveal_strlit("off");
}

/// The lines that are always written.
spec fn always_text(s: Switches, theme: ThemeChoice) -> Seq<char> {
    line_text("hold_compare"@, on_word(s.hold)) + line_text("auto_convert"@, on_word(s.auto))
        + line_text("save_stacked"@, on_word(s.stacked)) + line_text("theme"@, theme.word_of())
}

proof fn lemma_always_quiet(s: Switches, theme: ThemeChoice)
    ensures
        no_ic(always_text(s, theme)),
{
    lemma_no_ic_words(s.hold, theme);
    lemma_no_ic_words(s.auto, theme);
    lemma_no_ic_words(s.stacked, theme);
    let l1 = line_text("hold_compare"@, on_word(s.hold));
    let l2 = line_text("auto_convert"@, on_word(s.auto));
    let l3 = line_text("save_stacked"@, on_word(s.stacked));
    let l4 = line_text("theme"@, theme.word_of());
    lemma_no_ic_line("hold_compare"@, on_word(s.hold));
    lemma_no_ic_line("auto_convert"@, on_word(s.auto));
    lemma_no_ic_line("save_stacked"@, on_word(s.stacked));
    lemma_no_ic_line("theme"@, theme.word_of());
    lemma_no_ic_adds(l1, l2);
    lemma_no_ic_adds(l1 + l2, l3);
    lemma_no_ic_adds(l1 + l2 + l3, l4);
}

proof fn lemma_always_first(s: Switches, stored: StoredView, a: Appearance)
    ensures
        prefs_text(s, stored, a) == always_text(s, a.theme) + ((match a.answer {
            Some(use_) => line_text("licence_use"@, use_.word_of()),
            None => Seq::empty(),
        }) + (if stored.key.len() > 0 {
            line_text("licence_key"@, stored.key) + line_text(
                "licence_certificate"@,
                stored.certificate,
            )
        } else {
            Seq::empty()
        })),
{
    let l1 = line_text("hold_compare"@, on_word(s.hold));
    let l2 = line_text("auto_convert"@, on_word(s.auto));
    let l3 = line_text("save_stacked"@, on_word(s.stacked));
    let l4 = line_text("theme"@, a.theme.word_of());
    let r = (match a.answer {
        Some(use_) => line_text("licence_use"@, use_.word_of()),
        None => Seq::empty(),
    }) + (if stored.key.len() > 0 {
        line_text("licence_key"@, stored.key) + line_text(
            "licence_certificate"@,
            stored.certificate,
        )
    } else {
        Seq::empty()
    });
    assert(l1 + (l2 + (l3 + (l4 + r))) =~= (l1 + l2 + l3 + l4) + r);
}

proof fn lemma_no_ic_no_licence(text: Seq<char>, at: int)
    requires
        no_ic(text),
    ensures
        !stands_at(text, "licence"@, at),
{
    reveal_strlit("licence");
    let word = "licence"@;
    if stands_at(text, word, at) {
        assert(text[at + 1] == word[1] && text[at + 2] == word[2]);
        assert(text[at + 2] == 'c');
    }
}

/// The preferences speak of a licence only where there is a key or an answer:
/// with neither, the word stands nowhere in them.
pub proof fn law_no_licence_line_without_a_licence(
    s: Switches,
    stored: StoredView,
    a: Appearance,
)
    ensures
        (exists|at: int| stands_at(prefs_text(s, stored, a), "licence"@, at)) <==> (
        stored.key.len() > 0 || a.answer is Some),
{
    let text = prefs_text(s, stored, a);
    let front = always_text(s, a.theme);
    let last = line_text("licence_certificate"@, stored.certificate);
    let key = line_text("licence_key"@, stored.key);
    lemma_always_first(s, stored, a);
    assert("licence"@.is_prefix_of("licence_use"@) && "licence"@.is_prefix_of("licence_key"@)) by {
        reveal_strlit("licence");
        reveal_strlit("licence_use");
        reveal_strlit("licence_key");
    }
    if let Some(use_) = a.answer {
        let rest = if stored.key.len() > 0 {
            key + last
        } else {
            Seq::empty()
        };
        lemma_name_stands(front, "licence_use"@, use_.word_of(), rest);
    } else if stored.key.len() > 0 {
        lemma_name_stands(front, "licence_key"@, stored.key, last);
        assert(Seq::<char>::empty() + (key + last) =~= key + last);
    } else {
        lemma_always_quiet(s, a.theme);
        assert(text =~= front);
        assert forall|at: int| !(#[trigger] stands_at(text, "licence"@, at)) by {
            lemma_no_ic_no_licence(text, at);
        }
    }
}

/// The folder of the system's that an installed program keeps its preferences
/// in.
#[derive(Clone, Copy, Debug, PartialEq, Eq, Structural)]
pub enum Base {
    /// `Library/Application Support` in the home folder.
    Library,
    AppData,
    XdgConfig,
    /// `.config` in the home folder.
    HomeConfig,
}

/// Where the preferences are kept.
#[derive(Clone, Copy, Debug, PartialEq, Eq, Structural)]
pub enum Place {
    /// Beside the program.
    Portable,
    Installed(Base),
}

/// What the program finds around itself.
#[derive(Clone, Copy, Debug, PartialEq, Eq, Structural)]
pub struct Surroundings {
    pub mac: bool,
    /// The preferences are beside the program already.
    pub has_file: bool,
    /// The program's folder takes files.
    pub takes_files: bool,
    /// The system names these folders.
    pub app_data: bool,
    pub xdg_config: bool,
    pub home: bool,
}

impl Surroundings {
    pub open spec fn installed(self) -> Option<Base> {
        if self.mac {
            if self.home {
                Some(Base::Library)
            } else {
                None
            }
        } else if self.app_data {
            Some(Base::AppData)
        } else if self.xdg_config {
            Some(Base::XdgConfig)
        } else if self.home {
            Some(Base::HomeConfig)
        } else {
            None
        }
    }

    pub open spec fn portable(self) -> bool {
        !self.mac && (self.has_file || self.takes_files)
    }

    /// Where an installed program keeps its preferences.
    pub fn installed_prefs(&self) -> (base: Option<Base>)
        ensures
            base == self.installed(),
    {
        if self.mac {
            if self.home {
                Some(Base::Library)
            } else {
                None
            }
        } else if self.app_data {
            Some(Base::AppData)
        } else if self.xdg_config {
            Some(Base::XdgConfig)
        } else if self.home {
            Some(Base::HomeConfig)
        } else {
            None
        }
    }

    /// Where the window keeps its preferences: beside the program when they
    /// are there already or its folder takes files, so that a copy carries
    /// its settings along; else where installed programs keep theirs. An
    /// application of a Mac is signed, and nothing is written inside it.
    pub fn prefs_path(&self) -> (place: Option<Place>)
        ensures
            place == (if self.portable() {
                Some(Place::Portable)
            } else {
                match self.installed() {
                    Some(base) => Some(Place::Installed(base)),
                    None => None,
                }
            }),
    {
        if !self.mac && (self.has_file || self.takes_files) {
            return Some(Place::Portable);
        }
        match self.installed_prefs() {
            Some(base) => Some(Place::Installed(base)),
            None => None,
        }
    }
}

/// A portable copy keeps its settings beside itself: once they are there, a
/// folder that takes no files any more changes nothing.
pub proof fn law_a_portable_copy_stays_portable(s: Surroundings)
    requires
        s.portable(),
    ensures
        (Surroundings { has_file: true, takes_files: false, ..s }).portable(),
{
}

} // verus!
