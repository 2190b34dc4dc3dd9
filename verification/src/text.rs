//! Text as sequences of characters: numbers written out, and searches.
use vstd::prelude::*;

verus! {

/// `String::push` adds the character at the end.
pub assume_specification[ String::push ](s: &mut String, ch: char)
    ensures
        final(s)@ == old(s)@.push(ch),
;

/// The character of the digit `d`, letters from ten on.
pub open spec fn digit_char(d: int) -> char {
    if d < 10 {
        (48 + d) as char
    } else {
        (55 + d) as char
    }
}

/// The character of the digit `d`.
pub fn digit(d: u8) -> (c: char)
    requires
        d < 16,
    ensures
        c == digit_char(d as int),
{
    if d < 10 {
        (48 + d) as char
    } else {
        (55 + d) as char
    }
}

/// `n` in base `base`, no leading zeros.
pub open spec fn digits_in(n: nat, base: nat) -> Seq<char>
    decreases n,
{
    if base < 2 || n < base {
        seq![digit_char(n as int)]
    } else {
        proof {
            assert(n / base < n) by (nonlinear_arith)
                requires
                    n >= base,
                    base >= 2,
            ;
        }
        digits_in(n / base, base).push(digit_char((n % base) as int))
    }
}

/// `n` as decimal digits.
pub open spec fn decimal(n: nat) -> Seq<char> {
    digits_in(n, 10)
}

/// `n` as hexadecimal digits in capitals.
pub open spec fn hex(n: nat) -> Seq<char> {
    digits_in(n, 16)
}

fn push_digits(out: &mut String, n: u128, base: u128)
    requires
        2 <= base <= 16,
    ensures
        final(out)@ == old(out)@ + digits_in(n as nat, base as nat),
    decreases n,
{
    if n >= base {
        assert(n / base < n) by (nonlinear_arith)
            requires
                n >= base,
                base >= 2,
        ;
        push_digits(out, n / base, base);
    }
    let ghost before = out@;
    out.push(digit((n % base) as u8));
    assert(n < base ==> n % base == n) by (nonlinear_arith)
        requires
            base >= 2,
    ;
    assert(out@ =~= old(out)@ + digits_in(n as nat, base as nat));
}

/// Adds `n` as decimal digits.
pub fn push_decimal(out: &mut String, n: u64)
    ensures
        final(out)@ == old(out)@ + decimal(n as nat),
{
    push_digits(out, n as u128, 10);
}

/// Adds a large number as decimal digits.
pub fn push_wide(out: &mut String, n: u128)
    ensures
        final(out)@ == old(out)@ + decimal(n as nat),
{
    push_digits(out, n, 10);
}

/// Adds `n` as hexadecimal digits in capitals.
pub fn push_hex(out: &mut String, n: u64)
    ensures
        final(out)@ == old(out)@ + hex(n as nat),
{
    push_digits(out, n as u128, 16);
}

/// `n` as decimal digits.
pub fn decimal_text(n: u64) -> (text: String)
    ensures
        text@ == decimal(n as nat),
{
    let mut text = String::new();
    push_decimal(&mut text, n);
    assert(text@ =~= decimal(n as nat));
    text
}

/// A byte as two hexadecimal digits in capitals.
pub open spec fn hex2(n: int) -> Seq<char> {
    seq![digit_char(n / 16), digit_char(n % 16)]
}

/// Adds a byte as two hexadecimal digits in capitals.
pub fn push_hex2(out: &mut String, n: u8)
    ensures
        final(out)@ == old(out)@ + hex2(n as int),
{
    out.push(digit(n / 16));
    out.push(digit(n % 16));
    assert(out@ =~= old(out)@ + hex2(n as int));
}

/// The last `places` decimal digits of `f`, leading zeros kept.
pub open spec fn padded(f: nat, places: nat) -> Seq<char>
    decreases places,
{
    if places == 0 {
        Seq::empty()
    } else {
        padded(f / 10, (places - 1) as nat).push(digit_char((f % 10) as int))
    }
}

/// The digits of `f` over ten to the power `places`, no trailing zeros.
pub open spec fn fraction(f: nat, places: nat) -> Seq<char>
    decreases places,
{
    if f == 0 || places == 0 {
        Seq::empty()
    } else if f % 10 == 0 {
        fraction(f / 10, (places - 1) as nat)
    } else {
        padded(f, places)
    }
}

/// A number of millionths with at most six decimals and no trailing zeros:
/// the shortest text that reads back the same.
pub open spec fn number(v: int) -> Seq<char> {
    let size = if v < 0 {
        -v
    } else {
        v
    };
    let sign = if v < 0 {
        seq!['-']
    } else {
        Seq::empty()
    };
    let whole = decimal((size / 1_000_000) as nat);
    let rest = (size % 1_000_000) as nat;
    if rest == 0 {
        sign + whole
    } else {
        (sign + whole).push('.') + fraction(rest, 6)
    }
}

fn push_padded(out: &mut String, f: u64, places: u64)
    requires
        places <= 6,
    ensures
        final(out)@ == old(out)@ + padded(f as nat, places as nat),
    decreases places,
{
    if places > 0 {
        push_padded(out, f / 10, places - 1);
        out.push(digit((f % 10) as u8));
    }
    assert(out@ =~= old(out)@ + padded(f as nat, places as nat));
}

/// Adds a number of millionths with at most six decimals, no trailing zeros.
pub fn push_number(out: &mut String, v: i64)
    requires
        v > i64::MIN,
    ensures
        final(out)@ == old(out)@ + number(v as int),
{
    let size: u64 = if v < 0 {
        (-v) as u64
    } else {
        v as u64
    };
    if v < 0 {
        out.push('-');
    }
    let ghost sign = if v < 0 {
        seq!['-']
    } else {
        Seq::<char>::empty()
    };
    assert(out@ =~= old(out)@ + sign);
    let whole: u64 = size / 1_000_000;
    let rest: u64 = size % 1_000_000;
    push_decimal(out, whole);
    let ghost head = sign + decimal(whole as nat);
    assert(out@ =~= old(out)@ + head);
    if rest != 0 {
        out.push('.');
        let ghost dotted = out@;
        let mut f: u64 = rest;
        let mut places: u64 = 6;
        while f % 10 == 0
            invariant
                0 < f,
                1 <= places <= 6,
                places == 6 ==> f < 1_000_000,
                places == 5 ==> f < 100_000,
                places == 4 ==> f < 10_000,
                places == 3 ==> f < 1_000,
                places == 2 ==> f < 100,
                places == 1 ==> f < 10,
                fraction(rest as nat, 6) == fraction(f as nat, places as nat),
            decreases f,
        {
            f = f / 10;
            places = places - 1;
        }
        push_padded(out, f, places);
        assert(out@ =~= old(out)@ + (head.push('.') + fraction(rest as nat, 6)));
    }
}

/// The characters of `s`.
pub fn chars_of(s: &str) -> (v: Vec<char>)
    ensures
        v@ == s@,
{
    let mut v: Vec<char> = Vec::new();
    for c in it: s.chars()
        invariant
            it.seq() == s@,
            v@ == it.seq().take(it.index() as int),
    {
        proof {
            let i = it.index() as int;
            assert(it.seq().take(i + 1) =~= it.seq().take(i).push(c));
        }
        v.push(c);
    }
    v
}

/// Adds the characters `from` to `to` of `text`.
pub fn push_part(out: &mut String, text: &[char], from: usize, to: usize)
    requires
        from <= to <= text@.len(),
    ensures
        final(out)@ == old(out)@ + text@.subrange(from as int, to as int),
{
    let mut i: usize = from;
    assert(out@ =~= old(out)@ + text@.subrange(from as int, i as int));
    while i < to
        invariant
            from <= i <= to <= text@.len(),
            out@ == old(out)@ + text@.subrange(from as int, i as int),
        decreases to - i,
    {
        out.push(text[i]);
        assert(out@ =~= old(out)@ + text@.subrange(from as int, i + 1));
        i = i + 1;
    }
}

/// The text of the characters `from` to `to` of `text`.
pub fn part(text: &[char], from: usize, to: usize) -> (out: String)
    requires
        from <= to <= text@.len(),
    ensures
        out@ == text@.subrange(from as int, to as int),
{
    let mut out = String::new();
    push_part(&mut out, text, from, to);
    assert(out@ =~= text@.subrange(from as int, to as int));
    out
}

/// `pattern` stands at `at` in `text`.
pub open spec fn stands_at(text: Seq<char>, pattern: Seq<char>, at: int) -> bool {
    &&& 0 <= at
    &&& at + pattern.len() <= text.len()
    &&& forall|i: int| 0 <= i < pattern.len() ==> text[at + i] == #[trigger] pattern[i]
}

/// `at` is the first place from `from` on where `pattern` stands in `text`.
pub open spec fn is_first(text: Seq<char>, pattern: Seq<char>, from: int, at: int) -> bool {
    &&& from <= at
    &&& stands_at(text, pattern, at)
    &&& forall|i: int| from <= i < at ==> !(#[trigger] stands_at(text, pattern, i))
}

/// The first place from `from` on where `pattern` stands in `text`.
pub open spec fn first_at(text: Seq<char>, pattern: Seq<char>, from: int) -> Option<int> {
    if exists|at: int| is_first(text, pattern, from, at) {
        Some(choose|at: int| is_first(text, pattern, from, at))
    } else {
        None
    }
}

/// `first_at` is the one place that `is_first`, and no place is there to find
/// where it has none.
pub proof fn lemma_first_at(text: Seq<char>, pattern: Seq<char>, from: int, at: int)
    ensures
        is_first(text, pattern, from, at) <==> first_at(text, pattern, from) == Some(at),
{
    if is_first(text, pattern, from, at) {
        let found = first_at(text, pattern, from)->0;
        assert(is_first(text, pattern, from, found));
        assert(at <= found) by {
            if found < at {
                assert(!stands_at(text, pattern, found));
            }
        }
        assert(found <= at) by {
            if at < found {
                assert(!stands_at(text, pattern, at));
            }
        }
    }
}

/// Where nothing was found, `first_at` is nothing.
pub proof fn lemma_first_none(text: Seq<char>, pattern: Seq<char>, from: int)
    requires
        forall|i: int| from <= i ==> !(#[trigger] stands_at(text, pattern, i)),
    ensures
        first_at(text, pattern, from) is None,
{
}

/// Whether `pattern` stands at `at` in `text`.
pub fn standing(text: &[char], pattern: &[char], at: usize) -> (ok: bool)
    requires
        at <= text@.len(),
    ensures
        ok == stands_at(text@, pattern@, at as int),
{
    let len: usize = text.len();
    if len - at < pattern.len() {
        return false;
    }
    let mut i: usize = 0;
    while i < pattern.len()
        invariant
            len == text@.len(),
            i <= pattern@.len(),
            at + pattern@.len() <= text@.len(),
            forall|j: int| 0 <= j < i ==> text@[at + j] == #[trigger] pattern@[j],
        decreases pattern@.len() - i,
    {
        if text[at + i] != pattern[i] {
            assert(text@[at + i] != pattern@[i as int]);
            return false;
        }
        i = i + 1;
    }
    true
}

/// The first place from `from` on where `pattern` stands in `text`.
pub fn find(text: &[char], pattern: &[char], from: usize) -> (at: Option<usize>)
    requires
        from <= text@.len(),
    ensures
        at is Some <==> first_at(text@, pattern@, from as int) is Some,
        at matches Some(i) ==> first_at(text@, pattern@, from as int) == Some(i as int)
            && is_first(text@, pattern@, from as int, i as int) && i + pattern@.len()
            <= text@.len(),
{
    let mut i: usize = from;
    while i < text.len()
        invariant
            from <= i <= text@.len(),
            forall|j: int| from <= j < i ==> !(#[trigger] stands_at(text@, pattern@, j)),
        decreases text@.len() - i,
    {
        if standing(text, pattern, i) {
            proof {
                lemma_first_at(text@, pattern@, from as int, i as int);
            }
            return Some(i);
        }
        i = i + 1;
    }
    if standing(text, pattern, i) {
        proof {
            lemma_first_at(text@, pattern@, from as int, i as int);
        }
        return Some(i);
    }
    proof {
        lemma_first_none(text@, pattern@, from as int);
    }
    None
}

/// The whitespace of ASCII: space, tab, line feed, form feed, carriage
/// return.
pub open spec fn ascii_white(c: char) -> bool {
    c == ' ' || c == '\t' || c == '\n' || c == '\x0C' || c == '\r'
}

pub fn is_ascii_white(c: char) -> (white: bool)
    ensures
        white == ascii_white(c),
{
    c == ' ' || c == '\t' || c == '\n' || c == '\x0C' || c == '\r'
}

/// The characters with Unicode's White_Space property.
pub open spec fn white(c: char) -> bool {
    let n = c as u32;
    ||| 0x9 <= n <= 0xD
    ||| n == 0x20
    ||| n == 0x85
    ||| n == 0xA0
    ||| n == 0x1680
    ||| 0x2000 <= n <= 0x200A
    ||| n == 0x2028
    ||| n == 0x2029
    ||| n == 0x202F
    ||| n == 0x205F
    ||| n == 0x3000
}

pub fn is_white(c: char) -> (yes: bool)
    ensures
        yes == white(c),
{
    let n: u32 = c as u32;
    (0x9 <= n && n <= 0xD) || n == 0x20 || n == 0x85 || n == 0xA0 || n == 0x1680 || (0x2000 <= n
        && n <= 0x200A) || n == 0x2028 || n == 0x2029 || n == 0x202F || n == 0x205F || n == 0x3000
}

/// The place of the first character from `from` on that is not white, at
/// most `to`.
pub open spec fn past_white(text: Seq<char>, from: int, to: int) -> int
    decreases to - from,
{
    if from >= to || !white(text[from]) {
        from
    } else {
        past_white(text, from + 1, to)
    }
}

/// The place after the last character before `to` that is not white, at
/// least `from`.
pub open spec fn before_white(text: Seq<char>, from: int, to: int) -> int
    decreases to - from,
{
    if to <= from || !white(text[to - 1]) {
        to
    } else {
        before_white(text, from, to - 1)
    }
}

/// `text` without the white characters at its start and end.
pub open spec fn trimmed(text: Seq<char>) -> Seq<char> {
    let from = past_white(text, 0, text.len() as int);
    text.subrange(from, before_white(text, from, text.len() as int))
}

pub fn skip_white(text: &[char], from: usize, to: usize) -> (at: usize)
    requires
        from <= to <= text@.len(),
    ensures
        at == past_white(text@, from as int, to as int),
        from <= at <= to,
{
    let mut at: usize = from;
    while at < to && is_white(text[at])
        invariant
            from <= at <= to <= text@.len(),
            past_white(text@, from as int, to as int) == past_white(text@, at as int, to as int),
        decreases to - at,
    {
        at = at + 1;
    }
    at
}

pub fn drop_white(text: &[char], from: usize, to: usize) -> (at: usize)
    requires
        from <= to <= text@.len(),
    ensures
        at == before_white(text@, from as int, to as int),
        from <= at <= to,
{
    let mut at: usize = to;
    while at > from && is_white(text[at - 1])
        invariant
            from <= at <= to <= text@.len(),
            before_white(text@, from as int, to as int) == before_white(
                text@,
                from as int,
                at as int,
            ),
        decreases at - from,
    {
        at = at - 1;
    }
    at
}

/// Whether the characters `from` to `to` of `text` are `word`.
pub fn same_text(text: &[char], from: usize, to: usize, word: &str) -> (same: bool)
    requires
        from <= to <= text@.len(),
    ensures
        same == (text@.subrange(from as int, to as int) == word@),
{
    let w = chars_of(word);
    let ghost part = text@.subrange(from as int, to as int);
    if w.len() != to - from {
        return false;
    }
    let mut i: usize = 0;
    while i < w.len()
        invariant
            i <= w@.len(),
            w@ == word@,
            w@.len() == to - from,
            from <= to <= text@.len(),
            part == text@.subrange(from as int, to as int),
            forall|j: int| 0 <= j < i ==> part[j] == #[trigger] w@[j],
        decreases w@.len() - i,
    {
        if text[from + i] != w[i] {
            assert(part[i as int] != w@[i as int]);
            return false;
        }
        i = i + 1;
    }
    assert(part =~= word@);
    true
}

/// A count and its unit, in the plural unless it is one.
pub open spec fn counted(n: nat, unit: Seq<char>) -> Seq<char> {
    decimal(n) + " "@ + unit + (if n == 1 {
        ""@
    } else {
        "s"@
    })
}

/// Adds a count and its unit.
pub fn push_counted(out: &mut String, n: u64, unit: &str)
    ensures
        final(out)@ == old(out)@ + counted(n as nat, unit@),
{
    let ghost head = out@;
    push_decimal(out, n);
    out.append(" ");
    out.append(unit);
    out.append(if n == 1 {
        ""
    } else {
        "s"
    });
    assert(out@ =~= head + counted(n as nat, unit@));
}

/// Text that starts and ends without white space is trimmed already.
pub proof fn lemma_trimmed_bare(text: Seq<char>)
    requires
        text.len() > 0 ==> !white(text[0]) && !white(text.last()),
    ensures
        trimmed(text) == text,
{
    assert(trimmed(text) =~= text);
}

} // verus!
