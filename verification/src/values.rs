//! The values of a pattern and of the rectangle it fills, read back from their
//! text.
use crate::dither::RunView;
use crate::markup::{attribute_of, span_from, span_of, with_value, without};
use crate::path_data::{is_digit, lemma_decimal};
use crate::pattern::{cells_data, pattern_id, pattern_text, rect_data, run_element};
use crate::text::{
    ascii_white, decimal, first_at, is_first, lemma_first_at, number, past_white, stands_at, white,
};
use crate::written::{lemma_numerals, numeral};
use vstd::prelude::*;

verus! {

/// The text stands between quotes as one word: no whitespace, no quote.
pub open spec fn one_word(text: Seq<char>) -> bool {
    forall|i: int| 0 <= i < text.len() ==> !ascii_white(#[trigger] text[i]) && text[i] != '"'
}

/// The characters that follow whitespace before place `n`.
pub open spec fn openings(text: Seq<char>, n: nat) -> Seq<char>
    decreases n,
{
    if n < 2 {
        Seq::empty()
    } else if ascii_white(text[n - 2]) {
        openings(text, (n - 1) as nat).push(text[n - 1])
    } else {
        openings(text, (n - 1) as nat)
    }
}

proof fn lemma_openings_hold(text: Seq<char>, n: nat, p: int)
    requires
        0 < p < n,
        ascii_white(text[p - 1]),
    ensures
        openings(text, n).contains(text[p]),
    decreases n,
{
    let (before, now) = (openings(text, (n - 1) as nat), openings(text, n));
    if p == n - 1 {
        assert(now[now.len() - 1] == text[p]);
    } else {
        lemma_openings_hold(text, (n - 1) as nat, p);
        let k = choose|k: int| 0 <= k < before.len() && before[k] == text[p];
        assert(now[k] == text[p]);
    }
}

proof fn lemma_openings_same(a: Seq<char>, b: Seq<char>, n: nat)
    requires
        n <= a.len() <= b.len(),
        forall|k: int| 0 <= k < a.len() ==> #[trigger] a[k] == b[k],
    ensures
        openings(a, n) == openings(b, n),
    decreases n,
{
    if n >= 2 {
        lemma_openings_same(a, b, (n - 1) as nat);
        assert(a[n - 2] == b[n - 2] && a[n - 1] == b[n - 1]);
    }
}

/// Behind a character that is not white, the openings of more text come as
/// they are.
proof fn lemma_openings_add(a: Seq<char>, b: Seq<char>, n: nat)
    requires
        a.len() > 0,
        !ascii_white(a.last()),
        n <= b.len(),
    ensures
        openings(a + b, a.len() + n) == openings(a, a.len()) + openings(b, n),
    decreases n,
{
    let t = a + b;
    if n == 0 {
        lemma_openings_same(a, t, a.len());
        assert(openings(a, a.len()) + openings(b, 0) =~= openings(a, a.len()));
    } else {
        lemma_openings_add(a, b, (n - 1) as nat);
        assert(t[a.len() + n - 1] == b[n - 1]);
        if n == 1 {
            assert(t[a.len() - 1] == a.last());
            assert(openings(b, 1) =~= openings(b, 0));
        } else {
            assert(t[a.len() + n - 2] == b[n - 2]);
            assert(openings(t, a.len() + n) =~= openings(a, a.len()) + openings(b, n));
        }
    }
}

proof fn lemma_openings_none(text: Seq<char>, n: nat)
    requires
        n <= text.len(),
        forall|k: int| 0 <= k < text.len() ==> !ascii_white(#[trigger] text[k]),
    ensures
        openings(text, n) == Seq::<char>::empty(),
    decreases n,
{
    if n >= 2 {
        lemma_openings_none(text, (n - 1) as nat);
        assert(!ascii_white(text[n - 2]));
    }
}

/// `a` and a text without whitespace behind it.
proof fn lemma_word_added(a: Seq<char>, word: Seq<char>)
    requires
        a.len() > 0,
        !ascii_white(a.last()),
        forall|k: int| 0 <= k < word.len() ==> !ascii_white(#[trigger] word[k]),
    ensures
        (a + word).len() > 0,
        !ascii_white((a + word).last()),
        openings(a + word, (a + word).len()) == openings(a, a.len()),
{
    lemma_openings_add(a, word, word.len());
    lemma_openings_none(word, word.len());
    assert(openings(a, a.len()) + Seq::<char>::empty() =~= openings(a, a.len()));
    if word.len() > 0 {
        assert(!ascii_white(word[word.len() - 1]));
    }
}

/// A place where the pattern stands has a first one at or before it.
pub proof fn lemma_first_some(text: Seq<char>, pattern: Seq<char>, from: int, at: int) -> (p: int)
    requires
        0 <= from <= at,
        stands_at(text, pattern, at),
    ensures
        first_at(text, pattern, from) == Some(p),
        is_first(text, pattern, from, p),
        from <= p <= at,
    decreases at - from,
{
    if stands_at(text, pattern, from) {
        assert(is_first(text, pattern, from, from));
        lemma_first_at(text, pattern, from, from);
        from
    } else {
        let p = lemma_first_some(text, pattern, from + 1, at);
        assert(is_first(text, pattern, from, p));
        lemma_first_at(text, pattern, from, p);
        p
    }
}

/// The value of an attribute that stands behind `at`: where no character
/// before it that follows whitespace starts its name.
proof fn lemma_span_reads(
    e: Seq<char>,
    name: Seq<char>,
    from: int,
    at: int,
    value: Seq<char>,
)
    requires
        0 < name.len(),
        forall|k: int| 0 <= k < name.len() ==> !ascii_white(#[trigger] name[k]),
        0 <= from <= at,
        0 < at,
        stands_at(e, name, at),
        ascii_white(e[at - 1]),
        at + name.len() + 2 + value.len() < e.len(),
        e[at + name.len()] == '=',
        e[at + name.len() + 1] == '"',
        stands_at(e, value, at + name.len() + 2),
        e[at + name.len() + 2 + value.len()] == '"',
        forall|k: int| 0 <= k < value.len() ==> #[trigger] value[k] != '"',
        !openings(e, at as nat).contains(name[0]),
    ensures
        span_from(e, name, from) == Some(
            (at + name.len() + 2, at + name.len() + 2 + value.len()),
        ),
    decreases at - from,
{
    let p = lemma_first_some(e, name, from, at);
    let q = at + name.len();
    assert(e[p + 0] == name[0]);
    if p == at {
        assert(!white('=') && !white('"')) by {
            assert('=' as u32 == 61 && '"' as u32 == 34);
        }
        let len = e.len() as int;
        assert(past_white(e, q, len) == q);
        assert(past_white(e, q + 1, len) == q + 1);
        let quote = seq!['"'];
        let end = q + 2 + value.len();
        assert(stands_at(e, quote, end));
        assert(is_first(e, quote, q + 2, end)) by {
            assert forall|k: int| q + 2 <= k < end implies !(#[trigger] stands_at(e, quote, k)) by {
                assert(e[q + 2 + (k - q - 2)] == value[k - q - 2]);
                if stands_at(e, quote, k) {
                    assert(e[k + 0] == quote[0]);
                }
            }
        }
        lemma_first_at(e, quote, q + 2, end);
    } else {
        if p > 0 && ascii_white(e[p - 1]) {
            lemma_openings_hold(e, at as nat, p);
        }
        if p + name.len() > at {
            assert(e[p + (at - 1 - p)] == name[at - 1 - p]);
        }
        lemma_span_reads(e, name, p + name.len(), at, value);
    }
}

/// The same, for the last attribute name of a piece of text.
proof fn lemma_value_behind(
    e: Seq<char>,
    base: int,
    lit: Seq<char>,
    off: int,
    name: Seq<char>,
    value: Seq<char>,
)
    requires
        0 <= base,
        0 < off,
        0 < name.len(),
        lit.len() == off + name.len() + 2,
        ascii_white(lit[off - 1]),
        stands_at(lit, name, off),
        lit[off + name.len()] == '=',
        lit[off + name.len() + 1] == '"',
        forall|k: int| 0 <= k < name.len() ==> !ascii_white(#[trigger] name[k]),
        stands_at(e, lit, base),
        stands_at(e, value, base + lit.len()),
        base + lit.len() + value.len() < e.len(),
        e[base + lit.len() + value.len()] == '"',
        forall|k: int| 0 <= k < value.len() ==> #[trigger] value[k] != '"',
        !openings(e, (base + off) as nat).contains(name[0]),
    ensures
        span_of(e, name) == Some((base + lit.len(), base + lit.len() + value.len())),
        attribute_of(e, name) == Some(value),
{
    let at = base + off;
    assert(e[base + (off - 1)] == lit[off - 1]);
    assert(stands_at(e, name, at)) by {
        assert forall|k: int| 0 <= k < name.len() implies e[at + k] == #[trigger] name[k] by {
            assert(lit[off + k] == name[k]);
            assert(e[base + (off + k)] == lit[off + k]);
        }
    }
    assert(e[base + (off + name.len())] == lit[off + name.len()]);
    assert(e[base + (off + name.len() + 1)] == lit[off + name.len() + 1]);
    lemma_span_reads(e, name, 0, at, value);
    let start = base + lit.len();
    let read = e.subrange(start, start + value.len());
    assert(read =~= value) by {
        assert forall|k: int| 0 <= k < value.len() implies #[trigger] read[k] == value[k] by {
            assert(e[start + k] == value[k]);
        }
    }
}

/// A number is one word.
proof fn lemma_number_word(v: int)
    ensures
        one_word(number(v)),
{
    lemma_numerals(v);
    let n = number(v);
    assert forall|i: int| 0 <= i < n.len() implies !ascii_white(#[trigger] n[i]) && n[i] != '"' by {
        assert(numeral(n[i]));
    }
}

/// The text without a quote in it.
pub open spec fn quoteless(text: Seq<char>) -> bool {
    forall|i: int| 0 <= i < text.len() ==> #[trigger] text[i] != '"'
}

proof fn lemma_quoteless_adds(a: Seq<char>, b: Seq<char>)
    requires
        quoteless(a),
        quoteless(b),
    ensures
        quoteless(a + b),
{
}

/// The cells of a tile stand between quotes.
proof fn lemma_cells_quoteless(run: RunView, n: nat)
    ensures
        quoteless(cells_data(run, n)),
    decreases n,
{
    if n > 0 {
        let (i, j) = run.inked[n - 1];
        let s = number(run.side);
        lemma_cells_quoteless(run, (n - 1) as nat);
        lemma_number_word(run.side);
        lemma_number_word(i * run.side);
        lemma_number_word(j * run.side);
        reveal_strlit("M");
        reveal_strlit(" ");
        reveal_strlit("h");
        reveal_strlit("v");
        reveal_strlit("h-");
        reveal_strlit("z");
        let a = cells_data(run, (n - 1) as nat) + "M"@;
        let b = a + number(i * run.side);
        let c = b + " "@ + number(j * run.side);
        let d = c + "h"@ + s;
        let e = d + "v"@ + s;
        let f = e + "h-"@ + s;
        assert(quoteless(a) && quoteless(b) && quoteless(c));
        assert(quoteless(d) && quoteless(e) && quoteless(f));
        assert(cells_data(run, n) == f + "z"@);
    }
}

proof fn lemma_rect_quoteless(run: RunView)
    ensures
        quoteless(rect_data(run)),
{
    lemma_number_word(run.x);
    lemma_number_word(run.y);
    lemma_number_word(run.x + run.width);
    lemma_number_word(run.y + run.height);
    reveal_strlit(" M ");
    reveal_strlit(" ");
    reveal_strlit(" H ");
    reveal_strlit(" V ");
    reveal_strlit(" Z");
    let a = " M "@ + number(run.x) + " "@ + number(run.y);
    let b = a + " H "@ + number(run.x + run.width);
    let c = b + " V "@ + number(run.y + run.height);
    let d = c + " H "@ + number(run.x);
    assert(quoteless(a) && quoteless(b) && quoteless(c) && quoteless(d));
}

/// One attribute of a text more: behind `a`, which ends in no whitespace, `lit`
/// names it, its value follows and then a quote.
proof fn lemma_one_more(
    a: Seq<char>,
    lit: Seq<char>,
    off: int,
    name: Seq<char>,
    value: Seq<char>,
    rest: Seq<char>,
)
    requires
        a.len() > 0,
        !ascii_white(a.last()),
        0 < off,
        0 < name.len(),
        lit.len() == off + name.len() + 2,
        ascii_white(lit[off - 1]),
        stands_at(lit, name, off),
        lit[off + name.len()] == '=',
        lit[off + name.len() + 1] == '"',
        forall|k: int| 0 <= k < name.len() ==> !ascii_white(#[trigger] name[k]),
        quoteless(value),
        rest.len() > 0,
        rest[0] == '"',
        !openings(a, a.len()).contains(name[0]),
        !openings(lit, off as nat).contains(name[0]),
    ensures
        attribute_of(a + lit + value + rest, name) == Some(value),
        span_of(a + lit + value + rest, name) == Some(
            ((a.len() + lit.len()) as int, (a.len() + lit.len() + value.len()) as int),
        ),
{
    let e = a + lit + value + rest;
    lemma_openings_add(a, lit, off as nat);
    lemma_openings_same(a + lit, e, a.len() + off as nat);
    let (x, y) = (openings(a, a.len()), openings(lit, off as nat));
    assert(!(x + y).contains(name[0])) by {
        if (x + y).contains(name[0]) {
            let k = choose|k: int| 0 <= k < (x + y).len() && (x + y)[k] == name[0];
            if k < x.len() {
                assert(x[k] == name[0]);
            } else {
                assert(y[k - x.len()] == name[0]);
            }
        }
    }
    lemma_value_behind(e, a.len() as int, lit, off, name, value);
}

/// A piece of text and a word behind it: their openings.
proof fn lemma_piece_added(a: Seq<char>, lit: Seq<char>, word: Seq<char>)
    requires
        a.len() > 0,
        !ascii_white(a.last()),
        lit.len() > 0,
        !ascii_white(lit.last()),
        one_word(word),
    ensures
        (a + lit + word).len() > 0,
        !ascii_white((a + lit + word).last()),
        openings(a + lit + word, (a + lit + word).len()) == openings(a, a.len()) + openings(
            lit,
            lit.len(),
        ),
{
    lemma_openings_add(a, lit, lit.len());
    assert((a + lit).last() == lit.last());
    lemma_word_added(a + lit, word);
}

/// The text before `lit` and `value` are the same however it is put together.
proof fn lemma_regroup(a: Seq<char>, lit: Seq<char>, value: Seq<char>, rest: Seq<char>)
    ensures
        a + (lit + value + rest) == a + lit + value + rest,
{
    assert(a + (lit + value + rest) =~= a + lit + value + rest);
}

/// `text` ends in no whitespace, and these are its openings.
#[verifier::opaque]
spec fn opened(text: Seq<char>, letters: Seq<char>) -> bool {
    &&& text.len() > 0
    &&& !ascii_white(text.last())
    &&& openings(text, text.len()) == letters
}

/// `lit` ends in the attribute name from `off` on and the quote behind it;
/// `before` are its openings up to there.
#[verifier::opaque]
spec fn names(lit: Seq<char>, name: Seq<char>, off: int, before: Seq<char>) -> bool {
    &&& 0 < off
    &&& 0 < name.len()
    &&& lit.len() == off + name.len() + 2
    &&& ascii_white(lit[off - 1])
    &&& stands_at(lit, name, off)
    &&& lit[off + name.len()] == '='
    &&& lit[off + name.len() + 1] == '"'
    &&& forall|k: int| 0 <= k < name.len() ==> !ascii_white(#[trigger] name[k])
    &&& openings(lit, off as nat) == before
    &&& openings(lit, lit.len()) == before.push(name[0])
}

proof fn lemma_names_first(
    lit: Seq<char>,
    name: Seq<char>,
    off: int,
    value: Seq<char>,
    rest: Seq<char>,
)
    requires
        names(lit, name, off, Seq::empty()),
        one_word(value),
        rest.len() > 0,
        rest[0] == '"',
    ensures
        attribute_of(lit + value + rest, name) == Some(value),
        span_of(lit + value + rest, name) == Some(
            (lit.len() as int, (lit.len() + value.len()) as int),
        ),
        opened(lit + value, seq![name[0]]),
{
    reveal(names);
    reveal(opened);
    let e = lit + value + rest;
    lemma_openings_same(lit, e, off as nat);
    assert(lit.last() == '"');
    assert(quoteless(value));
    lemma_value_behind(e, 0, lit, off, name, value);
    lemma_word_added(lit, value);
    assert(Seq::<char>::empty().push(name[0]) =~= seq![name[0]]);
}

proof fn lemma_names_next(
    a: Seq<char>,
    letters: Seq<char>,
    lit: Seq<char>,
    name: Seq<char>,
    off: int,
    before: Seq<char>,
    value: Seq<char>,
    rest: Seq<char>,
)
    requires
        opened(a, letters),
        names(lit, name, off, before),
        quoteless(value),
        rest.len() > 0,
        rest[0] == '"',
        !letters.contains(name[0]),
        !before.contains(name[0]),
    ensures
        attribute_of(a + lit + value + rest, name) == Some(value),
        span_of(a + lit + value + rest, name) == Some(
            ((a.len() + lit.len()) as int, (a.len() + lit.len() + value.len()) as int),
        ),
        one_word(value) ==> opened(a + lit + value, letters + before.push(name[0])),
{
    reveal(names);
    reveal(opened);
    lemma_one_more(a, lit, off, name, value, rest);
    if one_word(value) {
        assert(lit.last() == '"');
        lemma_piece_added(a, lit, value);
    }
}

proof fn lemma_piece_id()
    ensures
        names("<pattern id=\""@, "id"@, 9, Seq::<char>::empty()),
        "<pattern id=\""@.len() > 0,
        "<pattern id=\""@[0] == '<',
        "id"@[0] == 'i',
{
    let (lit, name) = ("<pattern id=\""@, "id"@);
    reveal(names);
    reveal_strlit("<pattern id=\"");
    reveal_strlit("id");
    reveal_with_fuel(openings, 14);
    let before = Seq::<char>::empty();
    assert(openings(lit, 9) =~= before);
    assert(openings(lit, 13) =~= before.push('i'));
}

proof fn lemma_piece_x()
    ensures
        names("\" patternUnits=\"userSpaceOnUse\" x=\""@, "x"@, 32, seq!['p']),
        "\" patternUnits=\"userSpaceOnUse\" x=\""@.len() > 0,
        "\" patternUnits=\"userSpaceOnUse\" x=\""@[0] == '"',
        "x"@[0] == 'x',
{
    let (lit, name) = ("\" patternUnits=\"userSpaceOnUse\" x=\""@, "x"@);
    reveal(names);
    reveal_strlit("\" patternUnits=\"userSpaceOnUse\" x=\"");
    reveal_strlit("x");
    reveal_with_fuel(openings, 36);
    let before = seq!['p'];
    assert(openings(lit, 32) =~= before);
    assert(openings(lit, 35) =~= before.push('x'));
}

proof fn lemma_piece_y()
    ensures
        names("\" y=\""@, "y"@, 2, Seq::<char>::empty()),
        "\" y=\""@.len() > 0,
        "\" y=\""@[0] == '"',
        "y"@[0] == 'y',
{
    let (lit, name) = ("\" y=\""@, "y"@);
    reveal(names);
    reveal_strlit("\" y=\"");
    reveal_strlit("y");
    reveal_with_fuel(openings, 6);
    let before = Seq::<char>::empty();
    assert(openings(lit, 2) =~= before);
    assert(openings(lit, 5) =~= before.push('y'));
}

proof fn lemma_piece_width()
    ensures
        names("\" width=\""@, "width"@, 2, Seq::<char>::empty()),
        "\" width=\""@.len() > 0,
        "\" width=\""@[0] == '"',
        "width"@[0] == 'w',
{
    let (lit, name) = ("\" width=\""@, "width"@);
    reveal(names);
    reveal_strlit("\" width=\"");
    reveal_strlit("width");
    reveal_with_fuel(openings, 10);
    let before = Seq::<char>::empty();
    assert(openings(lit, 2) =~= before);
    assert(openings(lit, 9) =~= before.push('w'));
}

proof fn lemma_piece_height()
    ensures
        names("\" height=\""@, "height"@, 2, Seq::<char>::empty()),
        "\" height=\""@.len() > 0,
        "\" height=\""@[0] == '"',
        "height"@[0] == 'h',
{
    let (lit, name) = ("\" height=\""@, "height"@);
    reveal(names);
    reveal_strlit("\" height=\"");
    reveal_strlit("height");
    reveal_with_fuel(openings, 11);
    let before = Seq::<char>::empty();
    assert(openings(lit, 2) =~= before);
    assert(openings(lit, 10) =~= before.push('h'));
}

proof fn lemma_piece_fill()
    ensures
        names("\"><path fill=\""@, "fill"@, 8, Seq::<char>::empty()),
        "\"><path fill=\""@.len() > 0,
        "\"><path fill=\""@[0] == '"',
        "fill"@[0] == 'f',
{
    let (lit, name) = ("\"><path fill=\""@, "fill"@);
    reveal(names);
    reveal_strlit("\"><path fill=\"");
    reveal_strlit("fill");
    reveal_with_fuel(openings, 15);
    let before = Seq::<char>::empty();
    assert(openings(lit, 8) =~= before);
    assert(openings(lit, 14) =~= before.push('f'));
}

proof fn lemma_piece_d()
    ensures
        names("\" d=\""@, "d"@, 2, Seq::<char>::empty()),
        "\" d=\""@.len() > 0,
        "\" d=\""@[0] == '"',
        "d"@[0] == 'd',
{
    let (lit, name) = ("\" d=\""@, "d"@);
    reveal(names);
    reveal_strlit("\" d=\"");
    reveal_strlit("d");
    reveal_with_fuel(openings, 6);
    let before = Seq::<char>::empty();
    assert(openings(lit, 2) =~= before);
    assert(openings(lit, 5) =~= before.push('d'));
}

proof fn lemma_lacks(letters: Seq<char>, more: Seq<char>, c: char, z: char)
    requires
        !letters.contains(z),
        !more.contains(z),
        c != z,
    ensures
        !(letters + more.push(c)).contains(z),
{
    let all = letters + more.push(c);
    if all.contains(z) {
        let k = choose|k: int| 0 <= k < all.len() && all[k] == z;
        if k < letters.len() {
            assert(letters[k] == z);
        } else if k < letters.len() + more.len() {
            assert(more[k - letters.len()] == z);
        }
    }
}

proof fn lemma_reads_from_d(
    p: Seq<char>,
    letters: Seq<char>,
    cells: Seq<char>,
    tail: Seq<char>,
)
    requires
        opened(p, letters),
        !letters.contains('d'),
        quoteless(cells),
        tail.len() > 0,
        tail[0] == '"',
    ensures
        ({
            let e = p + "\" d=\""@ + cells + tail;
            &&& attribute_of(e, "d"@) == Some(cells)
        }),
{
    lemma_piece_d();
    lemma_names_next(p, letters, "\" d=\""@, "d"@, 2, Seq::<char>::empty(), cells, tail);
}

proof fn lemma_reads_from_fill(
    p: Seq<char>,
    letters: Seq<char>,
    fill: Seq<char>,
    cells: Seq<char>,
    tail: Seq<char>,
)
    requires
        opened(p, letters),
        !letters.contains('f'),
        !letters.contains('d'),
        one_word(fill),
        quoteless(cells),
        tail.len() > 0,
        tail[0] == '"',
    ensures
        ({
            let e = p + "\"><path fill=\""@ + fill + "\" d=\""@ + cells + tail;
            &&& attribute_of(e, "fill"@) == Some(fill)
            &&& attribute_of(e, "d"@) == Some(cells)
        }),
{
    lemma_piece_fill();
    lemma_piece_d();
    let rest = "\" d=\""@ + cells + tail;
    let before = Seq::<char>::empty();
    let next = p + "\"><path fill=\""@ + fill;
    assert(next + "\" d=\""@ + cells + tail =~= next + rest);
    assert(rest[0] == '"');
    lemma_names_next(p, letters, "\"><path fill=\""@, "fill"@, 8, before, fill, rest);
    lemma_lacks(letters, before, 'f', 'd');
    lemma_reads_from_d(next, letters + before.push('f'), cells, tail);
}

proof fn lemma_reads_from_height(
    p: Seq<char>,
    letters: Seq<char>,
    h: Seq<char>,
    fill: Seq<char>,
    cells: Seq<char>,
    tail: Seq<char>,
)
    requires
        opened(p, letters),
        !letters.contains('h'),
        !letters.contains('f'),
        !letters.contains('d'),
        one_word(h),
        one_word(fill),
        quoteless(cells),
        tail.len() > 0,
        tail[0] == '"',
    ensures
        ({
            let e = p + "\" height=\""@ + h + "\"><path fill=\""@ + fill + "\" d=\""@ + cells
                + tail;
            &&& attribute_of(e, "height"@) == Some(h)
            &&& attribute_of(e, "fill"@) == Some(fill)
            &&& attribute_of(e, "d"@) == Some(cells)
        }),
{
    lemma_piece_height();
    lemma_piece_fill();
    let rest = "\"><path fill=\""@ + fill + "\" d=\""@ + cells + tail;
    let before = Seq::<char>::empty();
    let next = p + "\" height=\""@ + h;
    assert(next + "\"><path fill=\""@ + fill + "\" d=\""@ + cells + tail =~= next + rest);
    assert(rest[0] == '"');
    lemma_names_next(p, letters, "\" height=\""@, "height"@, 2, before, h, rest);
    lemma_lacks(letters, before, 'h', 'f');
    lemma_lacks(letters, before, 'h', 'd');
    lemma_reads_from_fill(next, letters + before.push('h'), fill, cells, tail);
}

proof fn lemma_reads_from_width(
    p: Seq<char>,
    letters: Seq<char>,
    w: Seq<char>,
    h: Seq<char>,
    fill: Seq<char>,
    cells: Seq<char>,
    tail: Seq<char>,
)
    requires
        opened(p, letters),
        !letters.contains('w'),
        !letters.contains('h'),
        !letters.contains('f'),
        !letters.contains('d'),
        one_word(w),
        one_word(h),
        one_word(fill),
        quoteless(cells),
        tail.len() > 0,
        tail[0] == '"',
    ensures
        ({
            let e = p + "\" width=\""@ + w + "\" height=\""@ + h + "\"><path fill=\""@ + fill
                + "\" d=\""@ + cells + tail;
            &&& attribute_of(e, "width"@) == Some(w)
            &&& attribute_of(e, "height"@) == Some(h)
            &&& attribute_of(e, "fill"@) == Some(fill)
            &&& attribute_of(e, "d"@) == Some(cells)
        }),
{
    lemma_piece_width();
    lemma_piece_height();
    let rest = "\" height=\""@ + h + "\"><path fill=\""@ + fill + "\" d=\""@ + cells + tail;
    let before = Seq::<char>::empty();
    let next = p + "\" width=\""@ + w;
    assert(next + "\" height=\""@ + h + "\"><path fill=\""@ + fill + "\" d=\""@ + cells
        + tail =~= next + rest);
    assert(rest[0] == '"');
    lemma_names_next(p, letters, "\" width=\""@, "width"@, 2, before, w, rest);
    lemma_lacks(letters, before, 'w', 'h');
    lemma_lacks(letters, before, 'w', 'f');
    lemma_lacks(letters, before, 'w', 'd');
    lemma_reads_from_height(next, letters + before.push('w'), h, fill, cells, tail);
}

proof fn lemma_reads_from_y(
    p: Seq<char>,
    letters: Seq<char>,
    y: Seq<char>,
    w: Seq<char>,
    h: Seq<char>,
    fill: Seq<char>,
    cells: Seq<char>,
    tail: Seq<char>,
)
    requires
        opened(p, letters),
        !letters.contains('y'),
        !letters.contains('w'),
        !letters.contains('h'),
        !letters.contains('f'),
        !letters.contains('d'),
        one_word(y),
        one_word(w),
        one_word(h),
        one_word(fill),
        quoteless(cells),
        tail.len() > 0,
        tail[0] == '"',
    ensures
        ({
            let e = p + "\" y=\""@ + y + "\" width=\""@ + w + "\" height=\""@ + h
                + "\"><path fill=\""@ + fill + "\" d=\""@ + cells + tail;
            &&& attribute_of(e, "y"@) == Some(y)
            &&& attribute_of(e, "width"@) == Some(w)
            &&& attribute_of(e, "height"@) == Some(h)
            &&& attribute_of(e, "fill"@) == Some(fill)
            &&& attribute_of(e, "d"@) == Some(cells)
        }),
{
    lemma_piece_y();
    lemma_piece_width();
    let rest = "\" width=\""@ + w + "\" height=\""@ + h + "\"><path fill=\""@ + fill
        + "\" d=\""@ + cells + tail;
    let before = Seq::<char>::empty();
    let next = p + "\" y=\""@ + y;
    assert(next + "\" width=\""@ + w + "\" height=\""@ + h + "\"><path fill=\""@ + fill
        + "\" d=\""@ + cells + tail =~= next + rest);
    assert(rest[0] == '"');
    lemma_names_next(p, letters, "\" y=\""@, "y"@, 2, before, y, rest);
    lemma_lacks(letters, before, 'y', 'w');
    lemma_lacks(letters, before, 'y', 'h');
    lemma_lacks(letters, before, 'y', 'f');
    lemma_lacks(letters, before, 'y', 'd');
    lemma_reads_from_width(next, letters + before.push('y'), w, h, fill, cells, tail);
}

proof fn lemma_reads_from_x(
    p: Seq<char>,
    letters: Seq<char>,
    x: Seq<char>,
    y: Seq<char>,
    w: Seq<char>,
    h: Seq<char>,
    fill: Seq<char>,
    cells: Seq<char>,
    tail: Seq<char>,
)
    requires
        opened(p, letters),
        !letters.contains('x'),
        !letters.contains('y'),
        !letters.contains('w'),
        !letters.contains('h'),
        !letters.contains('f'),
        !letters.contains('d'),
        one_word(x),
        one_word(y),
        one_word(w),
        one_word(h),
        one_word(fill),
        quoteless(cells),
        tail.len() > 0,
        tail[0] == '"',
    ensures
        ({
            let e = p + "\" patternUnits=\"userSpaceOnUse\" x=\""@ + x + "\" y=\""@ + y
                + "\" width=\""@ + w + "\" height=\""@ + h + "\"><path fill=\""@ + fill
                + "\" d=\""@ + cells + tail;
            &&& attribute_of(e, "x"@) == Some(x)
            &&& attribute_of(e, "y"@) == Some(y)
            &&& attribute_of(e, "width"@) == Some(w)
            &&& attribute_of(e, "height"@) == Some(h)
            &&& attribute_of(e, "fill"@) == Some(fill)
            &&& attribute_of(e, "d"@) == Some(cells)
        }),
{
    lemma_piece_x();
    lemma_piece_y();
    let rest = "\" y=\""@ + y + "\" width=\""@ + w + "\" height=\""@ + h + "\"><path fill=\""@
        + fill + "\" d=\""@ + cells + tail;
    let before = seq!['p'];
    let next = p + "\" patternUnits=\"userSpaceOnUse\" x=\""@ + x;
    assert(next + "\" y=\""@ + y + "\" width=\""@ + w + "\" height=\""@ + h
        + "\"><path fill=\""@ + fill + "\" d=\""@ + cells + tail =~= next + rest);
    assert(rest[0] == '"');
    lemma_names_next(p, letters, "\" patternUnits=\"userSpaceOnUse\" x=\""@, "x"@, 32, before, x,
        rest);
    lemma_lacks(letters, before, 'x', 'y');
    lemma_lacks(letters, before, 'x', 'w');
    lemma_lacks(letters, before, 'x', 'h');
    lemma_lacks(letters, before, 'x', 'f');
    lemma_lacks(letters, before, 'x', 'd');
    lemma_reads_from_y(next, letters + before.push('x'), y, w, h, fill, cells, tail);
}

/// A pattern's definition reads back: its name, its place, its tile's size, and
/// inside it the fill and the cells, each in the attribute it belongs in.
pub proof fn law_a_patterns_values_read_back(id: Seq<char>, fill: Seq<char>, run: RunView)
    requires
        one_word(id),
        one_word(fill),
    ensures
        attribute_of(pattern_text(id, fill, run), "id"@) == Some(id),
        attribute_of(pattern_text(id, fill, run), "x"@) == Some(number(run.x)),
        attribute_of(pattern_text(id, fill, run), "y"@) == Some(number(run.y)),
        attribute_of(pattern_text(id, fill, run), "width"@) == Some(
            number(run.period.x * run.side),
        ),
        attribute_of(pattern_text(id, fill, run), "height"@) == Some(
            number(run.period.y * run.side),
        ),
        attribute_of(pattern_text(id, fill, run), "fill"@) == Some(fill),
        attribute_of(pattern_text(id, fill, run), "d"@) == Some(
            cells_data(run, run.inked.len()),
        ),
{
    let (x, y) = (number(run.x), number(run.y));
    let (w, h) = (number(run.period.x * run.side), number(run.period.y * run.side));
    let cells = cells_data(run, run.inked.len());
    lemma_number_word(run.x);
    lemma_number_word(run.y);
    lemma_number_word(run.period.x * run.side);
    lemma_number_word(run.period.y * run.side);
    lemma_cells_quoteless(run, run.inked.len());
    let tail = "\"/></pattern>\n"@;
    assert(tail.len() > 0 && tail[0] == '"') by {
        reveal_strlit("\"/></pattern>\n");
    }
    lemma_piece_id();
    lemma_piece_x();
    let rest = "\" patternUnits=\"userSpaceOnUse\" x=\""@ + x + "\" y=\""@ + y + "\" width=\""@
        + w + "\" height=\""@ + h + "\"><path fill=\""@ + fill + "\" d=\""@ + cells + tail;
    let first = "<pattern id=\""@ + id;
    assert(first + "\" patternUnits=\"userSpaceOnUse\" x=\""@ + x + "\" y=\""@ + y
        + "\" width=\""@ + w + "\" height=\""@ + h + "\"><path fill=\""@ + fill + "\" d=\""@
        + cells + tail =~= first + rest);
    assert(rest[0] == '"');
    lemma_names_first("<pattern id=\""@, "id"@, 9, id, rest);
    lemma_reads_from_x(first, seq!['i'], x, y, w, h, fill, cells, tail);
}

/// No attribute of that name: no equals sign stands behind the name.
proof fn lemma_span_none(e: Seq<char>, name: Seq<char>, from: int)
    requires
        0 < name.len(),
        0 <= from,
        forall|p: int|
            0 <= p < e.len() && #[trigger] e[p] == '=' ==> p > 0 && !white(e[p - 1])
                && !stands_at(e, name, p - name.len()),
    ensures
        span_from(e, name, from) is None,
    decreases e.len() - from,
{
    if let Some(at) = first_at(e, name, from) {
        lemma_first_at(e, name, from, at);
        let n = e.len() as int;
        let equals = past_white(e, at + name.len(), n);
        lemma_past_white_is(e, at + name.len(), n);
        if equals < n && e[equals] == '=' {
            if equals == at + name.len() {
                assert(equals - name.len() == at);
            } else {
                assert(white(e[equals - 1]));
            }
        }
        lemma_span_none(e, name, at + name.len());
    }
}

proof fn lemma_past_white_is(text: Seq<char>, from: int, to: int)
    ensures
        past_white(text, from, to) >= from,
        past_white(text, from, to) > from ==> white(text[past_white(text, from, to) - 1]),
    decreases to - from,
{
    if from < to && white(text[from]) {
        lemma_past_white_is(text, from + 1, to);
    }
}

/// A path's element as documents write it: its fill, its data, and what stands
/// behind them.
pub open spec fn path_element(fill: Seq<char>, d: Seq<char>, tail: Seq<char>) -> Seq<char> {
    "<path fill=\""@ + fill + "\" d=\""@ + d + tail
}

/// The text without an equals sign in it.
pub open spec fn no_equals(text: Seq<char>) -> bool {
    forall|i: int| 0 <= i < text.len() ==> #[trigger] text[i] != '='
}

proof fn lemma_path_piece()
    ensures
        names("<path fill=\""@, "fill"@, 6, Seq::empty()),
        "<path fill=\""@.len() == 12,
        "fill"@[0] == 'f',
{
    let (lit, name) = ("<path fill=\""@, "fill"@);
    reveal(names);
    reveal_strlit("<path fill=\"");
    reveal_strlit("fill");
    reveal_with_fuel(openings, 13);
    assert(openings(lit, 6) =~= Seq::<char>::empty());
    assert(openings(lit, 12) =~= Seq::<char>::empty().push('f'));
}

proof fn lemma_path_reads(fill: Seq<char>, d: Seq<char>, tail: Seq<char>)
    requires
        one_word(fill),
        quoteless(d),
        tail.len() > 0,
        tail[0] == '"',
    ensures
        attribute_of(path_element(fill, d, tail), "fill"@) == Some(fill),
        attribute_of(path_element(fill, d, tail), "d"@) == Some(d),
        span_of(path_element(fill, d, tail), "fill"@) == Some((12int, (12 + fill.len()) as int)),
        span_of(path_element(fill, d, tail), "d"@) == Some(
            ((17 + fill.len()) as int, (17 + fill.len() + d.len()) as int),
        ),
{
    let e = path_element(fill, d, tail);
    let (first, second) = ("<path fill=\""@, "\" d=\""@);
    lemma_path_piece();
    lemma_piece_d();
    assert(second.len() == 5) by {
        reveal_strlit("\" d=\"");
    }
    let rest = second + d + tail;
    assert(rest[0] == '"');
    assert(first + fill + rest =~= e);
    lemma_names_first(first, "fill"@, 6, fill, rest);
    let letters = seq!['f'];
    assert(!letters.contains('d'));
    lemma_names_next(first + fill, letters, second, "d"@, 2, Seq::empty(), d, tail);
}

proof fn lemma_path_has_no_id(fill: Seq<char>, d: Seq<char>, tail: Seq<char>)
    requires
        no_equals(fill),
        no_equals(d),
        no_equals(tail),
    ensures
        span_of(path_element(fill, d, tail), "id"@) is None,
{
    let e = path_element(fill, d, tail);
    let (first, second) = ("<path fill=\""@, "\" d=\""@);
    reveal_strlit("<path fill=\"");
    reveal_strlit("\" d=\"");
    reveal_strlit("id");
    let at = 12 + fill.len() as int;
    assert(e[9] == first[9] && e[10] == first[10]);
    assert(e[at + 1] == second[1] && e[at + 2] == second[2]);
    assert(!white('l') && !white('d')) by {
        assert('l' as u32 == 108 && 'd' as u32 == 100);
    }
    assert forall|p: int| 0 <= p < e.len() && #[trigger] e[p] == '=' implies p > 0 && !white(
        e[p - 1],
    ) && !stands_at(e, "id"@, p - 2) by {
        if p < 12 {
            assert(e[p] == first[p]);
            assert(p == 10);
            if stands_at(e, "id"@, 8) {
                assert(e[8int + 1] == "id"@[1]);
            }
        } else if p < at {
            assert(e[p] == fill[p - 12]);
        } else if p < at + 5 {
            assert(e[p] == second[p - at]);
            assert(p == at + 3);
            if stands_at(e, "id"@, p - 2) {
                assert(e[p - 2 + 0] == "id"@[0]);
            }
        } else if p < at + 5 + d.len() {
            assert(e[p] == d[p - at - 5]);
        } else {
            assert(e[p] == tail[p - at - 5 - d.len()]);
        }
    }
    lemma_span_none(e, "id"@, 0);
}

/// A run of a path is drawn by the path's own element with a pattern for its
/// fill and the run's rectangle for its outline, and nothing else changed: read
/// back, the fill of that element refers to the name of the pattern's
/// definition, and the definition holds the path's fill and the run's cells.
pub proof fn law_a_runs_element_refers_to_its_pattern(
    fill: Seq<char>,
    d: Seq<char>,
    tail: Seq<char>,
    id: Seq<char>,
    run: RunView,
)
    requires
        one_word(fill),
        one_word(id),
        quoteless(d),
        no_equals(fill),
        no_equals(d),
        no_equals(tail),
        tail.len() > 0,
        tail[0] == '"',
    ensures
        ({
            let element = path_element(fill, d, tail);
            let drawn = run_element(without(element, "id"@), id, run);
            let definition = pattern_text(id, attribute_of(element, "fill"@)->0, run);
            &&& attribute_of(element, "fill"@) == Some(fill)
            &&& attribute_of(element, "d"@) == Some(d)
            &&& drawn == path_element("url(#"@ + id + ")"@, rect_data(run), tail)
            &&& attribute_of(drawn, "fill"@) == Some("url(#"@ + id + ")"@)
            &&& attribute_of(drawn, "d"@) == Some(rect_data(run))
            &&& attribute_of(definition, "id"@) == Some(id)
            &&& attribute_of(definition, "fill"@) == Some(fill)
            &&& attribute_of(definition, "d"@) == Some(cells_data(run, run.inked.len()))
        }),
{
    let url = "url(#"@ + id + ")"@;
    let rect = rect_data(run);
    lemma_path_has_no_id(fill, d, tail);
    lemma_path_reads(fill, d, tail);
    lemma_url(id);
    lemma_refilled(fill, d, tail, url);
    lemma_redrawn(url, d, tail, rect);
    lemma_rect_quoteless(run);
    lemma_path_reads(url, rect, tail);
    law_a_patterns_values_read_back(id, fill, run);
}

proof fn lemma_url(id: Seq<char>)
    requires
        one_word(id),
    ensures
        one_word("url(#"@ + id + ")"@),
{
    let url = "url(#"@ + id + ")"@;
    reveal_strlit("url(#");
    reveal_strlit(")");
    assert forall|i: int| 0 <= i < url.len() implies !ascii_white(#[trigger] url[i]) && url[i]
        != '"' by {
        if 5 <= i < 5 + id.len() {
            assert(url[i] == id[i - 5]);
        }
    }
}

/// A path with another fill.
proof fn lemma_refilled(fill: Seq<char>, d: Seq<char>, tail: Seq<char>, other: Seq<char>)
    requires
        one_word(fill),
        quoteless(d),
        tail.len() > 0,
        tail[0] == '"',
    ensures
        with_value(path_element(fill, d, tail), "fill"@, other) == path_element(other, d, tail),
{
    let element = path_element(fill, d, tail);
    let (first, second) = ("<path fill=\""@, "\" d=\""@);
    lemma_path_reads(fill, d, tail);
    lemma_path_piece();
    let n = fill.len() as int;
    assert(element.subrange(0, 12) =~= first);
    assert(element.subrange(12 + n, element.len() as int) =~= second + d + tail);
    assert(first + other + (second + d + tail) =~= first + other + second + d + tail);
}

/// A path with other data.
proof fn lemma_redrawn(fill: Seq<char>, d: Seq<char>, tail: Seq<char>, other: Seq<char>)
    requires
        one_word(fill),
        quoteless(d),
        tail.len() > 0,
        tail[0] == '"',
    ensures
        with_value(path_element(fill, d, tail), "d"@, other) == path_element(fill, other, tail),
{
    let element = path_element(fill, d, tail);
    let (first, second) = ("<path fill=\""@, "\" d=\""@);
    lemma_path_reads(fill, d, tail);
    lemma_path_piece();
    assert(second.len() == 5) by {
        reveal_strlit("\" d=\"");
    }
    let n = fill.len() as int;
    assert(element.subrange(0, 17 + n) =~= first + fill + second);
    assert(element.subrange(17 + n + d.len(), element.len() as int) =~= tail);
}

/// The names of patterns are words that hold no equals sign.
pub proof fn law_pattern_names_are_words(n: nat)
    ensures
        one_word(pattern_id(n)),
        no_equals(pattern_id(n)),
{
    lemma_decimal(n);
    reveal_strlit("vm-dither-");
    let id = pattern_id(n);
    let lead = "vm-dither-"@;
    assert forall|i: int| 0 <= i < id.len() implies !ascii_white(#[trigger] id[i]) && id[i] != '"'
        && id[i] != '=' by {
        if i < lead.len() {
            assert(id[i] == lead[i]);
        } else {
            assert(id[i] == decimal(n)[i - lead.len()]);
            assert(is_digit(decimal(n)[i - lead.len()]));
        }
    }
}

} // verus!
