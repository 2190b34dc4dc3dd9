//! What a patterned document says, read back: the outlines of its tiles and
//! rectangles, the values of its patterns, and which rectangle is filled with
//! which of them.
use crate::dither::{square_of, RunView, Square};
use crate::geometry::{Segment, Xy, REACH};
use crate::path_data::{
    digits_end, has_power, is_digit, is_letter, is_separator, law_numbers_read_back, lemma_decimal,
    lemma_fraction, lemma_ten, mantissa, number_at, prefixed, steps_from, straight_steps,
    tokens_from, Token,
};
use crate::pattern::{cells_data, chunk, parts_of, rect_data, starts, steps_of};
use crate::text::{decimal, fraction, number, stands_at};
use vstd::prelude::*;

verus! {

/// A character of a number.
pub open spec fn numeral(c: char) -> bool {
    is_digit(c) || c == '-' || c == '.'
}

/// A number's text holds digits, a sign and a point alone, and starts with no
/// point.
pub proof fn lemma_numerals(v: int)
    ensures
        number(v).len() >= 1,
        forall|k: int| 0 <= k < number(v).len() ==> numeral(#[trigger] number(v)[k]),
        number(v)[0] != '.',
        v >= 0 ==> is_digit(number(v)[0]),
        v < 0 ==> number(v)[0] == '-',
{
    let size = if v < 0 {
        -v
    } else {
        v
    };
    let whole = decimal((size / 1_000_000) as nat);
    let rest = (size % 1_000_000) as nat;
    let sign = if v < 0 {
        seq!['-']
    } else {
        Seq::<char>::empty()
    };
    lemma_decimal((size / 1_000_000) as nat);
    lemma_ten();
    let head = sign + whole;
    assert forall|k: int| 0 <= k < head.len() implies numeral(#[trigger] head[k]) by {
        if k >= sign.len() {
            assert(is_digit(whole[k - sign.len()]));
        }
    }
    assert(is_digit(whole[0]));
    assert(head[sign.len() as int] == whole[0]);
    if rest != 0 {
        lemma_fraction(rest, 6);
        let part = fraction(rest, 6);
        let text = head.push('.') + part;
        assert forall|k: int| 0 <= k < text.len() implies numeral(#[trigger] text[k]) by {
            if k < head.len() {
                assert(text[k] == head[k]);
            } else if k > head.len() {
                assert(is_digit(part[k - head.len() - 1]));
            }
        }
    }
}

/// No character at `e` goes on with a number.
pub open spec fn ends(text: Seq<char>, e: int) -> bool {
    e == text.len() || (0 <= e < text.len() && !numeral(text[e]) && text[e] != 'e' && text[e]
        != 'E')
}

proof fn lemma_digits_moved(t: Seq<char>, text: Seq<char>, i: int, k: int)
    requires
        0 <= i,
        0 <= k <= t.len(),
        stands_at(text, t, i),
        ends(text, i + t.len()),
    ensures
        digits_end(text, i + k) == i + digits_end(t, k),
        k <= digits_end(t, k) <= t.len(),
    decreases t.len() - k,
{
    if k < t.len() {
        assert(text[i + k] == t[k]);
        if is_digit(t[k]) {
            lemma_digits_moved(t, text, i, k + 1);
        }
    }
}

proof fn lemma_part_moved(t: Seq<char>, text: Seq<char>, i: int, a: int, b: int)
    requires
        0 <= i,
        0 <= a <= b <= t.len(),
        stands_at(text, t, i),
    ensures
        text.subrange(i + a, i + b) == t.subrange(a, b),
{
    let (x, y) = (text.subrange(i + a, i + b), t.subrange(a, b));
    assert forall|k: int| 0 <= k < x.len() implies #[trigger] x[k] == y[k] by {
        assert(text[i + (a + k)] == t[a + k]);
    }
    assert(x =~= y);
}

/// A number is read back wherever it stands in a text, up to what ends it.
proof fn lemma_number_stands(text: Seq<char>, i: int, v: int)
    requires
        0 <= i,
        -REACH <= v <= REACH,
        stands_at(text, number(v), i),
        ends(text, i + number(v).len()),
    ensures
        number_at(text, i) == Some((v, i + number(v).len())),
{
    let t = number(v);
    law_numbers_read_back(v);
    lemma_numerals(v);
    assert(text[i + 0] == t[0]);
    let s: int = if v < 0 {
        1
    } else {
        0
    };
    assert(!is_digit('-'));
    let a = digits_end(t, s);
    lemma_digits_moved(t, text, i, s);
    let (digits, places, b) = mantissa(t, s);
    if a < t.len() && t[a] == '.' {
        assert(text[i + a] == t[a]);
        lemma_digits_moved(t, text, i, a + 1);
        let c = digits_end(t, a + 1);
        lemma_part_moved(t, text, i, s, a);
        lemma_part_moved(t, text, i, a + 1, c);
        assert(mantissa(text, i + s) == (digits, places, i + b));
    } else {
        lemma_part_moved(t, text, i, s, a);
        if a < t.len() {
            assert(text[i + a] == t[a]);
        }
        assert(mantissa(text, i + s) == (digits, places, i + b));
    }
    assert(0 <= b <= t.len());
    assert(!has_power(t, b)) by {
        if b < t.len() {
            assert(numeral(t[b]));
        }
    }
    assert(b == t.len());
    assert(!has_power(text, i + b));
}

proof fn lemma_token_number(text: Seq<char>, i: int, v: int)
    requires
        0 <= i,
        -REACH <= v <= REACH,
        stands_at(text, number(v), i),
        ends(text, i + number(v).len()),
    ensures
        tokens_from(text, i) == prefixed(
            seq![Token::Number(v as i64)],
            tokens_from(text, i + number(v).len()),
        ),
        i + number(v).len() <= text.len(),
{
    lemma_number_stands(text, i, v);
    lemma_numerals(v);
    let t = number(v);
    assert(text[i + 0] == t[0]);
    assert(numeral(t[0]));
    assert(!is_separator(text[i]) && !is_letter(text[i])) by {
        assert('0' as u32 == 48 && '9' as u32 == 57 && '-' as u32 == 45 && ' ' as u32 == 32);
    }
}

proof fn lemma_token_letter(text: Seq<char>, i: int)
    requires
        0 <= i < text.len(),
        is_letter(text[i]),
    ensures
        tokens_from(text, i) == prefixed(
            seq![Token::Letter(text[i])],
            tokens_from(text, i + 1),
        ),
{
    assert(!is_separator(text[i]));
}

proof fn lemma_token_blank(text: Seq<char>, i: int)
    requires
        0 <= i < text.len(),
        text[i] == ' ',
    ensures
        tokens_from(text, i) == tokens_from(text, i + 1),
{
    assert(is_separator(' '));
}

/// The rectangle of a run is outlined from its corner to the right, down, to
/// the left and back: its path data is read so, with the run's own place and
/// size.
#[verifier::spinoff_prover]
#[verifier::rlimit(60)]
pub proof fn law_a_runs_rectangle_reads_back(run: RunView)
    requires
        -REACH <= run.x <= run.x + run.width <= REACH,
        -REACH <= run.y <= run.y + run.height <= REACH,
    ensures
        ({
            let (left, right) = (run.x as i64, (run.x + run.width) as i64);
            let (top, bottom) = (run.y as i64, (run.y + run.height) as i64);
            straight_steps(rect_data(run)) == Some(
                seq![
                    Segment::Move(Xy { x: left, y: top }),
                    Segment::Line(Xy { x: right, y: top }),
                    Segment::Line(Xy { x: right, y: bottom }),
                    Segment::Line(Xy { x: left, y: bottom }),
                    Segment::Close,
                ],
            )
        }),
{
    let text = rect_data(run);
    let (x0, x1) = (run.x, run.x + run.width);
    let (y0, y1) = (run.y, run.y + run.height);
    lemma_rect_places(number(x0), number(y0), number(x1), number(y1));
    let tokens = lemma_rect_tokens(text, x0, y0, x1, y1);
    lemma_rect_steps(tokens, x0, y0, x1, y1);
}

/// The letter `c` between blanks, and a text behind it.
spec fn worded(text: Seq<char>, at: int, c: char, value: Seq<char>) -> bool {
    &&& 0 <= at
    &&& at + 3 <= text.len()
    &&& text[at] == ' '
    &&& text[at + 1] == c
    &&& text[at + 2] == ' '
    &&& stands_at(text, value, at + 3)
}

/// Where the numbers and letters of a rectangle's outline stand.
spec fn rect_places(
    text: Seq<char>,
    a: Seq<char>,
    b: Seq<char>,
    c: Seq<char>,
    d: Seq<char>,
) -> bool {
    let p2 = 3 + a.len() as int;
    let p3 = p2 + 1 + b.len();
    let p4 = p3 + 3 + c.len();
    let p5 = p4 + 3 + d.len();
    let p6 = p5 + 3 + a.len();
    &&& text.len() == p6 + 2
    &&& worded(text, 0, 'M', a)
    &&& text[p2] == ' '
    &&& stands_at(text, b, p2 + 1)
    &&& worded(text, p3, 'H', c)
    &&& worded(text, p4, 'V', d)
    &&& worded(text, p5, 'H', a)
    &&& text[p6] == ' '
    &&& text[p6 + 1] == 'Z'
}

proof fn lemma_rect_places(a: Seq<char>, b: Seq<char>, c: Seq<char>, d: Seq<char>)
    ensures
        rect_places(
            " M "@ + a + " "@ + b + " H "@ + c + " V "@ + d + " H "@ + a + " Z"@,
            a,
            b,
            c,
            d,
        ),
{
    reveal_strlit(" M ");
    reveal_strlit(" ");
    reveal_strlit(" H ");
    reveal_strlit(" V ");
    reveal_strlit(" Z");
    let t1 = " M "@ + a + " "@ + b;
    let t2 = t1 + " H "@ + c;
    let t3 = t2 + " V "@ + d;
    let t4 = t3 + " H "@ + a;
    let text = t4 + " Z"@;
    assert(worded(t1, 0, 'M', a));
    assert(stands_at(t1, b, 4 + a.len() as int));
    assert(worded(t2, t1.len() as int, 'H', c));
    assert(worded(t3, t2.len() as int, 'V', d));
    assert(worded(t4, t3.len() as int, 'H', a));
    assert forall|k: int| 0 <= k < t1.len() implies #[trigger] t1[k] == text[k] by {}
    assert forall|k: int| 0 <= k < t2.len() implies #[trigger] t2[k] == text[k] by {}
    assert forall|k: int| 0 <= k < t3.len() implies #[trigger] t3[k] == text[k] by {}
    assert forall|k: int| 0 <= k < t4.len() implies #[trigger] t4[k] == text[k] by {}
    lemma_worded_in(t1, text, 0, 'M', a);
    lemma_stands_in(t1, text, b, 4 + a.len() as int);
    lemma_worded_in(t2, text, t1.len() as int, 'H', c);
    lemma_worded_in(t3, text, t2.len() as int, 'V', d);
    lemma_worded_in(t4, text, t3.len() as int, 'H', a);
    assert(text[3 + a.len() as int] == t1[3 + a.len() as int]);
}

/// What stands at the start of a text stands in the whole.
proof fn lemma_stands_in(part: Seq<char>, text: Seq<char>, value: Seq<char>, at: int)
    requires
        part.len() <= text.len(),
        forall|k: int| 0 <= k < part.len() ==> #[trigger] part[k] == text[k],
        stands_at(part, value, at),
    ensures
        stands_at(text, value, at),
{
    assert forall|k: int| 0 <= k < value.len() implies text[at + k] == #[trigger] value[k] by {
        assert(part[at + k] == value[k]);
    }
}

proof fn lemma_worded_in(part: Seq<char>, text: Seq<char>, at: int, c: char, value: Seq<char>)
    requires
        part.len() <= text.len(),
        forall|k: int| 0 <= k < part.len() ==> #[trigger] part[k] == text[k],
        worded(part, at, c, value),
    ensures
        worded(text, at, c, value),
{
    lemma_stands_in(part, text, value, at + 3);
    assert(part[at] == text[at] && part[at + 1] == text[at + 1] && part[at + 2] == text[at + 2]);
}

/// A letter and a number are two tokens.
proof fn lemma_worded_tokens(text: Seq<char>, at: int, c: char, v: int, rest: Seq<Token>)
    requires
        -REACH <= v <= REACH,
        is_letter(c),
        worded(text, at, c, number(v)),
        ends(text, at + 3 + number(v).len()),
        tokens_from(text, at + 3 + number(v).len()) == Some(rest),
    ensures
        tokens_from(text, at) == Some(seq![Token::Letter(c), Token::Number(v as i64)] + rest),
{
    lemma_token_blank(text, at);
    lemma_token_letter(text, at + 1);
    lemma_token_blank(text, at + 2);
    lemma_token_number(text, at + 3, v);
    assert(seq![Token::Letter(c)] + (seq![Token::Number(v as i64)] + rest) =~= seq![
        Token::Letter(c),
        Token::Number(v as i64),
    ] + rest);
}

proof fn lemma_rect_tokens(text: Seq<char>, x0: int, y0: int, x1: int, y1: int) -> (tokens: Seq<
    Token,
>)
    requires
        -REACH <= x0 <= REACH,
        -REACH <= y0 <= REACH,
        -REACH <= x1 <= REACH,
        -REACH <= y1 <= REACH,
        rect_places(text, number(x0), number(y0), number(x1), number(y1)),
    ensures
        tokens_from(text, 0) == Some(tokens),
        tokens == seq![
            Token::Letter('M'),
            Token::Number(x0 as i64),
            Token::Number(y0 as i64),
            Token::Letter('H'),
            Token::Number(x1 as i64),
            Token::Letter('V'),
            Token::Number(y1 as i64),
            Token::Letter('H'),
            Token::Number(x0 as i64),
            Token::Letter('Z'),
        ],
{
    let (a, b, c, d) = (
        number(x0).len() as int,
        number(y0).len() as int,
        number(x1).len() as int,
        number(y1).len() as int,
    );
    let p2 = 3 + a;
    let p3 = p2 + 1 + b;
    let p4 = p3 + 3 + c;
    let p5 = p4 + 3 + d;
    let p6 = p5 + 3 + a;
    lemma_token_blank(text, p6);
    lemma_token_letter(text, p6 + 1);
    assert(tokens_from(text, p6 + 2) == Some(Seq::<Token>::empty()));
    let r6 = seq![Token::Letter('Z')];
    assert(tokens_from(text, p6) == Some(r6)) by {
        assert(r6 + Seq::<Token>::empty() =~= r6);
    }
    lemma_worded_tokens(text, p5, 'H', x0, r6);
    let r5 = seq![Token::Letter('H'), Token::Number(x0 as i64)] + r6;
    lemma_worded_tokens(text, p4, 'V', y1, r5);
    let r4 = seq![Token::Letter('V'), Token::Number(y1 as i64)] + r5;
    lemma_worded_tokens(text, p3, 'H', x1, r4);
    let r3 = seq![Token::Letter('H'), Token::Number(x1 as i64)] + r4;
    lemma_token_number(text, p2 + 1, y0);
    lemma_token_blank(text, p2);
    let r2 = seq![Token::Number(y0 as i64)] + r3;
    assert(tokens_from(text, p2) == Some(r2));
    lemma_worded_tokens(text, 0, 'M', x0, r2);
    let tokens = seq![Token::Letter('M'), Token::Number(x0 as i64)] + r2;
    assert(tokens =~= seq![
        Token::Letter('M'),
        Token::Number(x0 as i64),
        Token::Number(y0 as i64),
        Token::Letter('H'),
        Token::Number(x1 as i64),
        Token::Letter('V'),
        Token::Number(y1 as i64),
        Token::Letter('H'),
        Token::Number(x0 as i64),
        Token::Letter('Z'),
    ]);
    tokens
}

proof fn lemma_rect_steps(tokens: Seq<Token>, x0: int, y0: int, x1: int, y1: int)
    requires
        -REACH <= x0 <= REACH,
        -REACH <= y0 <= REACH,
        -REACH <= x1 <= REACH,
        -REACH <= y1 <= REACH,
        tokens == seq![
            Token::Letter('M'),
            Token::Number(x0 as i64),
            Token::Number(y0 as i64),
            Token::Letter('H'),
            Token::Number(x1 as i64),
            Token::Letter('V'),
            Token::Number(y1 as i64),
            Token::Letter('H'),
            Token::Number(x0 as i64),
            Token::Letter('Z'),
        ],
    ensures
        steps_from(tokens, 0, 'Z', Xy { x: 0, y: 0 }, Xy { x: 0, y: 0 }) == Some(
            seq![
                Segment::Move(Xy { x: x0 as i64, y: y0 as i64 }),
                Segment::Line(Xy { x: x1 as i64, y: y0 as i64 }),
                Segment::Line(Xy { x: x1 as i64, y: y1 as i64 }),
                Segment::Line(Xy { x: x0 as i64, y: y1 as i64 }),
                Segment::Close,
            ],
        ),
{
    let p = Xy { x: x0 as i64, y: y0 as i64 };
    let q = Xy { x: x1 as i64, y: y0 as i64 };
    let r = Xy { x: x1 as i64, y: y1 as i64 };
    let t = Xy { x: x0 as i64, y: y1 as i64 };
    let all = seq![
        Segment::Move(p),
        Segment::Line(q),
        Segment::Line(r),
        Segment::Line(t),
        Segment::Close,
    ];
    assert(steps_from(tokens, 10, 'Z', p, p) == Some(Seq::<Segment>::empty()));
    assert(steps_from(tokens, 9, 'H', t, p)->0 =~= all.subrange(4, 5));
    assert(steps_from(tokens, 7, 'V', r, p)->0 =~= all.subrange(3, 5));
    assert(steps_from(tokens, 5, 'H', q, p)->0 =~= all.subrange(2, 5));
    assert(steps_from(tokens, 3, 'L', p, p)->0 =~= all.subrange(1, 5));
    assert(steps_from(tokens, 0, 'Z', Xy { x: 0, y: 0 }, Xy { x: 0, y: 0 })->0 =~= all);
}

/// The outline of one cell of a tile.
spec fn cell_text(a: Seq<char>, b: Seq<char>, s: Seq<char>) -> Seq<char> {
    "M"@ + a + " "@ + b + "h"@ + s + "v"@ + s + "h-"@ + s + "z"@
}

/// The letter `c` and a text behind it.
spec fn lettered(text: Seq<char>, at: int, c: char, value: Seq<char>) -> bool {
    &&& 0 <= at < text.len()
    &&& text[at] == c
    &&& stands_at(text, value, at + 1)
}

spec fn cell_places(text: Seq<char>, a: Seq<char>, b: Seq<char>, s: Seq<char>) -> bool {
    let p2 = 1 + a.len() as int;
    let p3 = p2 + 1 + b.len();
    let p4 = p3 + 1 + s.len();
    let p5 = p4 + 1 + s.len();
    let p6 = p5 + 2 + s.len();
    &&& text.len() == p6 + 1
    &&& lettered(text, 0, 'M', a)
    &&& lettered(text, p2, ' ', b)
    &&& lettered(text, p3, 'h', s)
    &&& lettered(text, p4, 'v', s)
    &&& lettered(text, p5, 'h', seq!['-'] + s)
    &&& text[p6] == 'z'
}

proof fn lemma_lettered_in(part: Seq<char>, text: Seq<char>, at: int, c: char, value: Seq<char>)
    requires
        part.len() <= text.len(),
        forall|k: int| 0 <= k < part.len() ==> #[trigger] part[k] == text[k],
        lettered(part, at, c, value),
    ensures
        lettered(text, at, c, value),
{
    lemma_stands_in(part, text, value, at + 1);
    assert(part[at] == text[at]);
}

proof fn lemma_cell_places(a: Seq<char>, b: Seq<char>, s: Seq<char>)
    ensures
        cell_places(cell_text(a, b, s), a, b, s),
{
    reveal_strlit("M");
    reveal_strlit(" ");
    reveal_strlit("h");
    reveal_strlit("v");
    reveal_strlit("h-");
    reveal_strlit("z");
    let t1 = "M"@ + a;
    let t2 = t1 + " "@ + b;
    let t3 = t2 + "h"@ + s;
    let t4 = t3 + "v"@ + s;
    let t5 = t4 + "h-"@ + s;
    let text = t5 + "z"@;
    assert(lettered(t1, 0, 'M', a));
    assert(lettered(t2, t1.len() as int, ' ', b));
    assert(lettered(t3, t2.len() as int, 'h', s));
    assert(lettered(t4, t3.len() as int, 'v', s));
    let minus = seq!['-'] + s;
    assert(lettered(t5, t4.len() as int, 'h', minus)) by {
        assert forall|k: int| 0 <= k < minus.len() implies t5[t4.len() + 1 + k]
            == #[trigger] minus[k] by {
            if k > 0 {
                assert(minus[k] == s[k - 1]);
            }
        }
    }
    assert forall|k: int| 0 <= k < t1.len() implies #[trigger] t1[k] == text[k] by {}
    assert forall|k: int| 0 <= k < t2.len() implies #[trigger] t2[k] == text[k] by {}
    assert forall|k: int| 0 <= k < t3.len() implies #[trigger] t3[k] == text[k] by {}
    assert forall|k: int| 0 <= k < t4.len() implies #[trigger] t4[k] == text[k] by {}
    assert forall|k: int| 0 <= k < t5.len() implies #[trigger] t5[k] == text[k] by {}
    lemma_lettered_in(t1, text, 0, 'M', a);
    lemma_lettered_in(t2, text, t1.len() as int, ' ', b);
    lemma_lettered_in(t3, text, t2.len() as int, 'h', s);
    lemma_lettered_in(t4, text, t3.len() as int, 'v', s);
    lemma_lettered_in(t5, text, t4.len() as int, 'h', minus);
}

proof fn lemma_minus(v: int)
    requires
        v > 0,
    ensures
        number(-v) == seq!['-'] + number(v),
{
    assert(number(-v) =~= seq!['-'] + number(v));
}

proof fn lemma_lettered_tokens(text: Seq<char>, at: int, c: char, v: int, rest: Seq<Token>)
    requires
        -REACH <= v <= REACH,
        is_letter(c),
        lettered(text, at, c, number(v)),
        ends(text, at + 1 + number(v).len()),
        tokens_from(text, at + 1 + number(v).len()) == Some(rest),
    ensures
        tokens_from(text, at) == Some(seq![Token::Letter(c), Token::Number(v as i64)] + rest),
{
    lemma_token_letter(text, at);
    lemma_token_number(text, at + 1, v);
    assert(seq![Token::Letter(c)] + (seq![Token::Number(v as i64)] + rest) =~= seq![
        Token::Letter(c),
        Token::Number(v as i64),
    ] + rest);
}

spec fn cell_tokens(x: int, y: int, s: int) -> Seq<Token> {
    seq![
        Token::Letter('M'),
        Token::Number(x as i64),
        Token::Number(y as i64),
        Token::Letter('h'),
        Token::Number(s as i64),
        Token::Letter('v'),
        Token::Number(s as i64),
        Token::Letter('h'),
        Token::Number((-s) as i64),
        Token::Letter('z'),
    ]
}

proof fn lemma_cell_tokens(text: Seq<char>, x: int, y: int, s: int)
    requires
        -REACH <= x <= REACH,
        -REACH <= y <= REACH,
        0 < s <= REACH,
        cell_places(text, number(x), number(y), number(s)),
    ensures
        tokens_from(text, 0) == Some(cell_tokens(x, y, s)),
{
    lemma_minus(s);
    let (a, b, n) = (
        number(x).len() as int,
        number(y).len() as int,
        number(s).len() as int,
    );
    let p2 = 1 + a;
    let p3 = p2 + 1 + b;
    let p4 = p3 + 1 + n;
    let p5 = p4 + 1 + n;
    let p6 = p5 + 2 + n;
    lemma_token_letter(text, p6);
    assert(tokens_from(text, p6 + 1) == Some(Seq::<Token>::empty()));
    let r6 = seq![Token::Letter('z')];
    assert(tokens_from(text, p6) == Some(r6)) by {
        assert(r6 + Seq::<Token>::empty() =~= r6);
    }
    lemma_lettered_tokens(text, p5, 'h', -s, r6);
    let r5 = seq![Token::Letter('h'), Token::Number((-s) as i64)] + r6;
    lemma_lettered_tokens(text, p4, 'v', s, r5);
    let r4 = seq![Token::Letter('v'), Token::Number(s as i64)] + r5;
    lemma_lettered_tokens(text, p3, 'h', s, r4);
    let r3 = seq![Token::Letter('h'), Token::Number(s as i64)] + r4;
    lemma_token_number(text, p2 + 1, y);
    lemma_token_blank(text, p2);
    let r2 = seq![Token::Number(y as i64)] + r3;
    assert(tokens_from(text, p2) == Some(r2));
    lemma_lettered_tokens(text, 0, 'M', x, r2);
    assert(seq![Token::Letter('M'), Token::Number(x as i64)] + r2 =~= cell_tokens(x, y, s));
}

proof fn lemma_cell_steps(x: int, y: int, s: int)
    requires
        -REACH <= x <= x + s <= REACH,
        -REACH <= y <= y + s <= REACH,
        0 < s,
    ensures
        steps_from(cell_tokens(x, y, s), 0, 'Z', Xy { x: 0, y: 0 }, Xy { x: 0, y: 0 }) == Some(
            cell_steps(x, y, s),
        ),
{
    let tokens = cell_tokens(x, y, s);
    let p = Xy { x: x as i64, y: y as i64 };
    let q = Xy { x: (x + s) as i64, y: y as i64 };
    let r = Xy { x: (x + s) as i64, y: (y + s) as i64 };
    let t = Xy { x: x as i64, y: (y + s) as i64 };
    let all = cell_steps(x, y, s);
    assert(steps_from(tokens, 10, 'Z', p, p) == Some(Seq::<Segment>::empty()));
    assert(steps_from(tokens, 9, 'h', t, p)->0 =~= all.subrange(4, 5));
    assert(steps_from(tokens, 7, 'v', r, p)->0 =~= all.subrange(3, 5));
    assert(steps_from(tokens, 5, 'h', q, p)->0 =~= all.subrange(2, 5));
    assert(steps_from(tokens, 3, 'L', p, p)->0 =~= all.subrange(1, 5));
    assert(steps_from(tokens, 0, 'Z', Xy { x: 0, y: 0 }, Xy { x: 0, y: 0 })->0 =~= all);
}

spec fn cell_steps(x: int, y: int, s: int) -> Seq<Segment> {
    seq![
        Segment::Move(Xy { x: x as i64, y: y as i64 }),
        Segment::Line(Xy { x: (x + s) as i64, y: y as i64 }),
        Segment::Line(Xy { x: (x + s) as i64, y: (y + s) as i64 }),
        Segment::Line(Xy { x: x as i64, y: (y + s) as i64 }),
        Segment::Close,
    ]
}

proof fn lemma_cell_square(x: int, y: int, s: int)
    requires
        -REACH <= x <= x + s <= REACH,
        -REACH <= y <= y + s <= REACH,
        0 < s,
    ensures
        square_of(cell_steps(x, y, s)) == Some(
            Square { x: x as i64, y: y as i64, side: s as i64 },
        ),
{
    let steps = cell_steps(x, y, s);
    let c = crate::dither::corners_of(steps);
    assert(crate::dither::reach_of(steps) == 4);
    assert(crate::dither::is_polygon(steps));
    let points = steps.take(4).map_values(|g: Segment| crate::dither::point_of(g));
    assert(c == points);
    assert(c.len() == 4);
    assert(c[0] == (Xy { x: x as i64, y: y as i64 }));
    assert(c[1] == (Xy { x: (x + s) as i64, y: y as i64 }));
    assert(c[2] == (Xy { x: (x + s) as i64, y: (y + s) as i64 }));
    assert(c[3] == (Xy { x: x as i64, y: (y + s) as i64 }));
    let xs = c.map_values(|p: Xy| p.x as int);
    let ys = c.map_values(|p: Xy| p.y as int);
    crate::geometry::lemma_extremes(xs);
    crate::geometry::lemma_extremes(ys);
    assert(xs[0] == x && xs[1] == x + s && xs[2] == x + s && xs[3] == x);
    assert(ys[0] == y && ys[1] == y && ys[2] == y + s && ys[3] == y + s);
    assert(crate::geometry::least(xs) == x && crate::geometry::most(xs) == x + s);
    assert(crate::geometry::least(ys) == y && crate::geometry::most(ys) == y + s);
}

/// No subpath starts in a text without the letter.
proof fn lemma_starts_added(d: Seq<char>, more: Seq<char>, n: nat)
    requires
        n <= more.len(),
        forall|k: int| 0 <= k < more.len() ==> #[trigger] more[k] != 'M',
    ensures
        starts(d + more, d.len() + n) == starts(d, d.len()),
    decreases n,
{
    if n == 0 {
        lemma_starts_same(d, d + more, d.len());
    } else {
        lemma_starts_added(d, more, (n - 1) as nat);
        assert((d + more)[d.len() + n - 1] == more[n - 1]);
    }
}

proof fn lemma_starts_same(a: Seq<char>, b: Seq<char>, n: nat)
    requires
        n <= a.len() <= b.len(),
        forall|k: int| 0 <= k < a.len() ==> #[trigger] a[k] == b[k],
    ensures
        starts(a, n) == starts(b, n),
    decreases n,
{
    if n > 0 {
        lemma_starts_same(a, b, (n - 1) as nat);
        assert(a[n - 1] == b[n - 1]);
    }
}

/// A cell's outline starts one subpath, at its front.
proof fn lemma_cell_starts(d: Seq<char>, x: int, y: int, s: int)
    ensures
        ({
            let cell = cell_text(number(x), number(y), number(s));
            &&& starts(d + cell, (d + cell).len()) == starts(d, d.len()).push(d.len() as int)
            &&& cell.len() > 0
        }),
{
    let (a, b, n) = (number(x), number(y), number(s));
    let cell = cell_text(a, b, n);
    lemma_numerals(x);
    lemma_numerals(y);
    lemma_numerals(s);
    reveal_strlit("M");
    reveal_strlit(" ");
    reveal_strlit("h");
    reveal_strlit("v");
    reveal_strlit("h-");
    reveal_strlit("z");
    let head = d + "M"@;
    let t = a + " "@ + b + "h"@ + n + "v"@ + n + "h-"@ + n + "z"@;
    assert(cell =~= "M"@ + t);
    assert(d + cell =~= head + t);
    assert forall|k: int| 0 <= k < t.len() implies #[trigger] t[k] != 'M' by {
        lemma_plain_cell(a, b, n, k);
    }
    lemma_starts_added(head, t, t.len());
    lemma_starts_same(d, head, d.len());
    assert(head[d.len() as int] == 'M');
}

proof fn lemma_plain_cell(a: Seq<char>, b: Seq<char>, n: Seq<char>, k: int)
    requires
        forall|k: int| 0 <= k < a.len() ==> numeral(#[trigger] a[k]),
        forall|k: int| 0 <= k < b.len() ==> numeral(#[trigger] b[k]),
        forall|k: int| 0 <= k < n.len() ==> numeral(#[trigger] n[k]),
        0 <= k < (a + " "@ + b + "h"@ + n + "v"@ + n + "h-"@ + n + "z"@).len(),
    ensures
        (a + " "@ + b + "h"@ + n + "v"@ + n + "h-"@ + n + "z"@)[k] != 'M',
{
    reveal_strlit(" ");
    reveal_strlit("h");
    reveal_strlit("v");
    reveal_strlit("h-");
    reveal_strlit("z");
    let t1 = a + " "@;
    let t2 = t1 + b + "h"@;
    let t3 = t2 + n + "v"@;
    let t4 = t3 + n + "h-"@;
    assert(!numeral('M'));
    let t5 = t4 + n;
    if k < t1.len() {
        if k < a.len() {
            assert(numeral(a[k]));
        }
    } else if k < t2.len() {
        if k - t1.len() < b.len() {
            assert(numeral(b[k - t1.len()]));
        }
    } else if k < t3.len() {
        if k - t2.len() < n.len() {
            assert(numeral(n[k - t2.len()]));
        }
    } else if k < t4.len() {
        if k - t3.len() < n.len() {
            assert(numeral(n[k - t3.len()]));
        }
    } else if k < t5.len() {
        assert(numeral(n[k - t4.len()]));
    }
}

/// The cells of a run's tile fit on the page's reach.
pub open spec fn tile_fits(run: RunView) -> bool {
    &&& 0 < run.side
    &&& forall|k: int|
        0 <= k < run.inked.len() ==> 0 <= (#[trigger] run.inked[k]).0 * run.side && (run.inked[k].0
            + 1) * run.side <= REACH && 0 <= run.inked[k].1 * run.side && (run.inked[k].1 + 1)
            * run.side <= REACH
}

/// The outlines of a tile's first `n` inked cells are read back as the squares
/// of those cells, each a subpath of its own, in their order: column `i` of
/// row `j` at `i` and `j` sides from the tile's corner.
pub proof fn law_a_tiles_cells_read_back(run: RunView, n: nat)
    requires
        tile_fits(run),
        n <= run.inked.len(),
    ensures
        ({
            let parts = parts_of(cells_data(run, n));
            &&& parts.len() == n
            &&& forall|k: int|
                0 <= k < n ==> square_of(#[trigger] parts[k]) == Some(
                    Square {
                        x: (run.inked[k].0 * run.side) as i64,
                        y: (run.inked[k].1 * run.side) as i64,
                        side: run.side as i64,
                    },
                )
        }),
    decreases n,
{
    let d = cells_data(run, n);
    if n == 0 {
        assert(d.len() == 0);
        assert(starts(d, 0).len() == 0);
    } else {
        let before = cells_data(run, (n - 1) as nat);
        law_a_tiles_cells_read_back(run, (n - 1) as nat);
        let (i, j) = run.inked[n - 1];
        let (x, y, s) = (i * run.side, j * run.side, run.side);
        let cell = cell_text(number(x), number(y), number(s));
        assert(0 <= run.inked[n - 1].0 * run.side);
        assert((i + 1) * s == i * s + s && (j + 1) * s == j * s + s) by (nonlinear_arith);
        lemma_cell_added(run, n);
        lemma_cell_starts(before, x, y, s);
        lemma_parts_added(before, cell);
        lemma_cell_reads(x, y, s);
        assert(parts_of(d) == parts_of(before).push(steps_of(cell)));
    }
}

proof fn lemma_cell_added(run: RunView, n: nat)
    requires
        0 < n <= run.inked.len(),
    ensures
        cells_data(run, n) == cells_data(run, (n - 1) as nat) + cell_text(
            number(run.inked[n - 1].0 * run.side),
            number(run.inked[n - 1].1 * run.side),
            number(run.side),
        ),
{
    let before = cells_data(run, (n - 1) as nat);
    let (a, b, s) = (
        number(run.inked[n - 1].0 * run.side),
        number(run.inked[n - 1].1 * run.side),
        number(run.side),
    );
    assert(before + "M"@ + a + " "@ + b + "h"@ + s + "v"@ + s + "h-"@ + s + "z"@ =~= before
        + cell_text(a, b, s));
}

proof fn lemma_cell_reads(x: int, y: int, s: int)
    requires
        -REACH <= x <= x + s <= REACH,
        -REACH <= y <= y + s <= REACH,
        0 < s <= REACH,
    ensures
        square_of(steps_of(cell_text(number(x), number(y), number(s)))) == Some(
            Square { x: x as i64, y: y as i64, side: s as i64 },
        ),
{
    let cell = cell_text(number(x), number(y), number(s));
    lemma_cell_places(number(x), number(y), number(s));
    lemma_cell_tokens(cell, x, y, s);
    lemma_cell_steps(x, y, s);
    lemma_cell_square(x, y, s);
}

/// A text that starts one subpath, at its front, adds that subpath.
proof fn lemma_parts_added(before: Seq<char>, cell: Seq<char>)
    requires
        cell.len() > 0,
        starts(before + cell, (before + cell).len()) == starts(before, before.len()).push(
            before.len() as int,
        ),
    ensures
        parts_of(before + cell) == parts_of(before).push(steps_of(cell)),
{
    let d = before + cell;
    let (was, now) = (starts(before, before.len()), starts(d, d.len()));
    lemma_starts_within(before, before.len());
    let (parts, wanted) = (parts_of(d), parts_of(before).push(steps_of(cell)));
    assert forall|k: int| 0 <= k < parts.len() implies #[trigger] parts[k] == wanted[k] by {
        if k < was.len() {
            assert(now[k] == was[k]);
            assert(0 <= was[k] < before.len());
            if k + 1 < was.len() {
                assert(now[k + 1] == was[k + 1]);
                assert(0 <= was[k + 1] < before.len());
                assert(was[k] < was[k + 1]);
            }
            assert(chunk(d, k) =~= chunk(before, k));
        } else {
            assert(chunk(d, k) =~= cell);
        }
    }
    assert(parts =~= wanted);
}

proof fn lemma_starts_within(d: Seq<char>, n: nat)
    requires
        n <= d.len(),
    ensures
        forall|k: int| 0 <= k < starts(d, n).len() ==> 0 <= #[trigger] starts(d, n)[k] < n,
        forall|k: int| 0 <= k < starts(d, n).len() ==> d[#[trigger] starts(d, n)[k]] == 'M',
        forall|a: int, b: int|
            0 <= a < b < starts(d, n).len() ==> #[trigger] starts(d, n)[a] < #[trigger] starts(
                d,
                n,
            )[b],
        forall|k: int| 0 <= k < n && #[trigger] d[k] == 'M' ==> starts(d, n).contains(k),
    decreases n,
{
    if n > 0 {
        let m = (n - 1) as nat;
        lemma_starts_within(d, m);
        let (was, now) = (starts(d, m), starts(d, n));
        assert forall|k: int| 0 <= k < now.len() implies 0 <= #[trigger] now[k] < n && d[now[k]]
            == 'M' by {
            if k < was.len() {
                assert(now[k] == was[k]);
            }
        }
        assert forall|a: int, b: int| 0 <= a < b < now.len() implies #[trigger] now[a]
            < #[trigger] now[b] by {
            assert(now[a] == was[a]);
            if b < was.len() {
                assert(now[b] == was[b]);
            }
        }
        assert forall|k: int| 0 <= k < n && #[trigger] d[k] == 'M' implies now.contains(k) by {
            if k < m {
                assert(was.contains(k));
                let j = choose|j: int| 0 <= j < was.len() && was[j] == k;
                assert(now[j] == k);
            } else {
                assert(now[was.len() as int] == k);
            }
        }
    }
}

} // verus!
