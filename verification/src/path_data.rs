//! Path data with straight steps: the letters M, L, H, V and Z, absolute, and
//! l, h, v and z, relative, with decimal numbers to the nearest millionth.
use crate::geometry::{path_ok, Segment, Xy, REACH};
use crate::text::{ascii_white, decimal, digit_char, fraction, is_ascii_white, number, padded};
use vstd::prelude::*;

verus! {

pub open spec fn is_digit(c: char) -> bool {
    '0' <= c && c <= '9'
}

/// The place of the first character from `i` on that is no digit.
pub open spec fn digits_end(text: Seq<char>, i: int) -> int
    decreases text.len() - i,
{
    if i < 0 || i >= text.len() || !is_digit(text[i]) {
        i
    } else {
        digits_end(text, i + 1)
    }
}

/// The number that the digits `i` to `j` write.
pub open spec fn digits_value(text: Seq<char>, i: int, j: int) -> int
    decreases j - i,
{
    if j <= i {
        0
    } else {
        10 * digits_value(text, i, j - 1) + (text[j - 1] as int - 48)
    }
}

/// Ten to the power `n`.
pub open spec fn ten(n: int) -> int
    decreases n,
{
    if n <= 0 {
        1
    } else {
        10 * ten(n - 1)
    }
}

/// `m` times ten to the power `k`, to the nearest whole number, a half up.
pub open spec fn scaled(m: int, k: int) -> int {
    if k >= 0 {
        m * ten(k)
    } else {
        (2 * m + ten(-k)) / (2 * ten(-k))
    }
}

/// Whether a power of ten is written at `i`: a letter e, a sign or none, and
/// a digit.
pub open spec fn has_power(text: Seq<char>, i: int) -> bool {
    let d = power_digits(text, i);
    i < text.len() && (text[i] == 'e' || text[i] == 'E') && d < text.len() && is_digit(text[d])
}

/// Where the digits of the power written at `i` start.
pub open spec fn power_digits(text: Seq<char>, i: int) -> int {
    if i + 1 < text.len() && (text[i + 1] == '-' || text[i + 1] == '+') {
        i + 2
    } else {
        i + 1
    }
}

/// The power of ten written at `i`, zero where there is none, and where it
/// ends.
pub open spec fn power_at(text: Seq<char>, i: int) -> (int, int) {
    if has_power(text, i) {
        let d = power_digits(text, i);
        let end = digits_end(text, d);
        let size = digits_value(text, d, end);
        (
            if text[i + 1] == '-' {
                -size
            } else {
                size
            },
            end,
        )
    } else {
        (0, i)
    }
}

/// The digits of a number from `s` on, without the point between them, and how
/// many stand behind it.
pub open spec fn mantissa(text: Seq<char>, s: int) -> (Seq<char>, int, int) {
    let a = digits_end(text, s);
    if a < text.len() && text[a] == '.' {
        let b = digits_end(text, a + 1);
        (text.subrange(s, a) + text.subrange(a + 1, b), b - a - 1, b)
    } else {
        (text.subrange(s, a), 0, a)
    }
}

/// The number written at `i`, in millionths to the nearest one, and where it
/// ends: a sign, digits with a point among them, of which some digit must be
/// there, and a power of ten. None past the reach.
pub open spec fn number_at(text: Seq<char>, i: int) -> Option<(int, int)> {
    let s = if i < text.len() && (text[i] == '-' || text[i] == '+') {
        i + 1
    } else {
        i
    };
    let (digits, places, b) = mantissa(text, s);
    let (power, end) = power_at(text, b);
    let size = scaled(digits_value(digits, 0, digits.len() as int), 6 + power - places);
    if digits.len() == 0 || size > REACH {
        None
    } else if text[i] == '-' {
        Some((-size, end))
    } else {
        Some((size, end))
    }
}

/// A letter or a number of path data.
#[derive(Clone, Copy, Debug, PartialEq, Eq, Structural)]
pub enum Token {
    Letter(char),
    Number(i64),
}

pub open spec fn is_letter(c: char) -> bool {
    ||| c == 'M'
    ||| c == 'L'
    ||| c == 'H'
    ||| c == 'V'
    ||| c == 'Z'
    ||| c == 'l'
    ||| c == 'h'
    ||| c == 'v'
    ||| c == 'z'
}

pub open spec fn is_separator(c: char) -> bool {
    ascii_white(c) || c == ','
}

/// `tail` with `head` before it.
pub open spec fn prefixed<T>(head: Seq<T>, tail: Option<Seq<T>>) -> Option<Seq<T>> {
    match tail {
        None => None,
        Some(rest) => Some(head + rest),
    }
}

pub proof fn lemma_digits_end(text: Seq<char>, i: int)
    requires
        0 <= i <= text.len(),
    ensures
        i <= digits_end(text, i) <= text.len(),
        forall|j: int| i <= j < digits_end(text, i) ==> is_digit(#[trigger] text[j]),
        digits_end(text, i) < text.len() ==> !is_digit(text[digits_end(text, i)]),
    decreases text.len() - i,
{
    if i < text.len() && is_digit(text[i]) {
        lemma_digits_end(text, i + 1);
    }
}

/// The letters and numbers from `i` on; none when the rest holds anything
/// else.
pub open spec fn tokens_from(text: Seq<char>, i: int) -> Option<Seq<Token>>
    decreases text.len() - i,
{
    if i < 0 || i >= text.len() {
        Some(Seq::empty())
    } else if is_separator(text[i]) {
        tokens_from(text, i + 1)
    } else if is_letter(text[i]) {
        prefixed(seq![Token::Letter(text[i])], tokens_from(text, i + 1))
    } else {
        match number_at(text, i) {
            None => None,
            Some((v, end)) => if end <= i || end > text.len() {
                None
            } else {
                prefixed(seq![Token::Number(v as i64)], tokens_from(text, end))
            },
        }
    }
}

/// A point within reach, or none.
pub open spec fn reached(x: int, y: int) -> Option<Xy> {
    if -REACH <= x <= REACH && -REACH <= y <= REACH {
        Some(Xy { x: x as i64, y: y as i64 })
    } else {
        None
    }
}

pub open spec fn number_token(tokens: Seq<Token>, i: int) -> bool {
    0 <= i < tokens.len() && tokens[i] is Number
}

pub open spec fn token_value(tokens: Seq<Token>, i: int) -> int {
    match tokens[i] {
        Token::Number(v) => v as int,
        Token::Letter(_) => 0,
    }
}

/// Whether the letter takes two numbers, or one.
pub open spec fn takes_two(letter: char) -> bool {
    letter == 'M' || letter == 'L' || letter == 'l'
}

/// Where the step of `letter` from `at` with the numbers from `j` on goes.
pub open spec fn target(tokens: Seq<Token>, j: int, letter: char, at: Xy) -> Option<Xy> {
    if takes_two(letter) {
        if !(number_token(tokens, j) && number_token(tokens, j + 1)) {
            None
        } else {
            let (x, y) = (token_value(tokens, j), token_value(tokens, j + 1));
            if letter == 'l' {
                reached(at.x + x, at.y + y)
            } else {
                reached(x, y)
            }
        }
    } else if !number_token(tokens, j) {
        None
    } else {
        let v = token_value(tokens, j);
        if letter == 'H' {
            reached(v, at.y as int)
        } else if letter == 'h' {
            reached(at.x + v, at.y as int)
        } else if letter == 'V' {
            reached(at.x as int, v)
        } else if letter == 'v' {
            reached(at.x as int, at.y + v)
        } else {
            None
        }
    }
}

/// The steps that the tokens from `i` on make: `letter` is the one that
/// numbers without a letter repeat (a line after a move, none after a close),
/// `at` where the last step went and `start` where the subpath began.
pub open spec fn steps_from(
    tokens: Seq<Token>,
    i: int,
    letter: char,
    at: Xy,
    start: Xy,
) -> Option<Seq<Segment>>
    decreases tokens.len() - i,
{
    if i < 0 || i >= tokens.len() {
        Some(Seq::empty())
    } else {
        let (c, j) = match tokens[i] {
            Token::Letter(c) => (c, i + 1),
            Token::Number(_) => (letter, i),
        };
        if c == 'Z' || c == 'z' {
            if tokens[i] is Letter {
                prefixed(seq![Segment::Close], steps_from(tokens, i + 1, 'Z', start, start))
            } else {
                None
            }
        } else {
            match target(tokens, j, c, at) {
                None => None,
                Some(p) => {
                    let next = if takes_two(c) {
                        j + 2
                    } else {
                        j + 1
                    };
                    if c == 'M' {
                        prefixed(
                            seq![Segment::Move(p)],
                            steps_from(tokens, next, 'L', p, p),
                        )
                    } else {
                        prefixed(
                            seq![Segment::Line(p)],
                            steps_from(tokens, next, c, p, start),
                        )
                    }
                },
            }
        }
    }
}

/// The steps of path data; none when it holds anything but straight steps in
/// plain numbers within reach.
pub open spec fn straight_steps(text: Seq<char>) -> Option<Seq<Segment>> {
    match tokens_from(text, 0) {
        None => None,
        Some(tokens) => steps_from(tokens, 0, 'Z', Xy { x: 0, y: 0 }, Xy { x: 0, y: 0 }),
    }
}

fn end_of_digits(text: &[char], i: usize) -> (end: usize)
    requires
        i <= text@.len(),
    ensures
        end == digits_end(text@, i as int),
        i <= end <= text@.len(),
{
    let mut end: usize = i;
    while end < text.len() && '0' <= text[end] && text[end] <= '9'
        invariant
            i <= end <= text@.len(),
            digits_end(text@, i as int) == digits_end(text@, end as int),
        decreases text@.len() - end,
    {
        end = end + 1;
    }
    end
}

proof fn lemma_value_grows(text: Seq<char>, i: int, j: int, k: int)
    requires
        i <= j <= k,
        forall|m: int| i <= m < k ==> is_digit(#[trigger] text[m]),
    ensures
        0 <= digits_value(text, i, j) <= digits_value(text, i, k),
    decreases k - i,
{
    if j < k {
        lemma_value_grows(text, i, j, k - 1);
        assert(is_digit(text[k - 1]));
    } else if i < j {
        lemma_value_grows(text, i, j - 1, j - 1);
        assert(is_digit(text[j - 1]));
    }
}

/// The number that the digits `i` to `j` write; none past `limit`.
fn value_of_digits(text: &[char], i: usize, j: usize, limit: u128) -> (value: Option<u128>)
    requires
        i <= j <= text@.len(),
        limit <= 1_000_000_000_000_000_000_000_000_000_000,
        forall|m: int| i <= m < j ==> is_digit(#[trigger] text@[m]),
    ensures
        match value {
            Some(v) => v == digits_value(text@, i as int, j as int) && v <= limit,
            None => digits_value(text@, i as int, j as int) > limit,
        },
{
    let mut value: u128 = 0;
    let mut k: usize = i;
    while k < j
        invariant
            i <= k <= j <= text@.len(),
            limit <= 1_000_000_000_000_000_000_000_000_000_000,
            forall|m: int| i <= m < j ==> is_digit(#[trigger] text@[m]),
            value == digits_value(text@, i as int, k as int),
            value <= limit,
        decreases j - k,
    {
        assert(is_digit(text@[k as int]));
        let next: u128 = 10 * value + (text[k] as u32 - 48) as u128;
        assert(next == digits_value(text@, i as int, k + 1));
        if next > limit {
            proof {
                lemma_value_grows(text@, i as int, k + 1, j as int);
            }
            return None;
        }
        value = next;
        k = k + 1;
    }
    Some(value)
}

pub proof fn lemma_ten()
    ensures
        ten(0) == 1,
        ten(1) == 10,
        ten(2) == 100,
        ten(3) == 1_000,
        ten(4) == 10_000,
        ten(5) == 100_000,
        ten(6) == 1_000_000,
{
    reveal_with_fuel(ten, 7);
}

proof fn lemma_ten_grows(m: int, n: int)
    requires
        m <= n,
    ensures
        1 <= ten(m) <= ten(n),
    decreases n,
{
    if n > 0 {
        if m < n {
            lemma_ten_grows(m, n - 1);
        } else {
            lemma_ten_grows(n - 1, n - 1);
        }
    }
}

proof fn lemma_ten_adds(m: int, n: int)
    requires
        m >= 0,
        n >= 0,
    ensures
        ten(m + n) == ten(m) * ten(n),
    decreases n,
{
    if n > 0 {
        lemma_ten_adds(m, n - 1);
        let (a, b) = (ten(m), ten(n - 1));
        assert(10 * (a * b) == a * (10 * b)) by (nonlinear_arith);
    } else {
        assert(ten(m) * 1 == ten(m));
    }
}

proof fn lemma_value_bounded(text: Seq<char>, i: int, j: int)
    requires
        i <= j,
        forall|m: int| i <= m < j ==> is_digit(#[trigger] text[m]),
    ensures
        0 <= digits_value(text, i, j) < ten(j - i),
    decreases j - i,
{
    if i < j {
        lemma_value_bounded(text, i, j - 1);
        assert(is_digit(text[j - 1]));
    }
}

/// Digits are worth those up to `q`, as many places higher as follow, and
/// those that follow.
proof fn lemma_value_split(text: Seq<char>, i: int, q: int, j: int)
    requires
        i <= q <= j,
    ensures
        digits_value(text, i, j) == digits_value(text, i, q) * ten(j - q) + digits_value(
            text,
            q,
            j,
        ),
    decreases j - q,
{
    let v = digits_value(text, i, q);
    if q < j {
        lemma_value_split(text, i, q, j - 1);
        let t = ten(j - 1 - q);
        assert(ten(j - q) == 10 * t);
        assert(10 * (v * t) == v * (10 * t)) by (nonlinear_arith);
    } else {
        assert(v * 1 == v);
    }
}

/// Leaving out the last digits of a number leaves the digits before them, one
/// more where the first digit left out is at least five.
proof fn lemma_rounded(digits: Seq<char>, cut: int)
    requires
        0 < cut <= digits.len(),
        forall|m: int| 0 <= m < digits.len() ==> is_digit(#[trigger] digits[m]),
    ensures
        scaled(digits_value(digits, 0, digits.len() as int), -cut) == digits_value(
            digits,
            0,
            digits.len() - cut,
        ) + (if digits[digits.len() - cut] as int - 48 >= 5 {
            1int
        } else {
            0
        }),
{
    let n = digits.len() as int;
    let q = n - cut;
    let (m, head, tail) = (
        digits_value(digits, 0, n),
        digits_value(digits, 0, q),
        digits_value(digits, q, n),
    );
    lemma_value_split(digits, 0, q, n);
    lemma_value_bounded(digits, q, n);
    lemma_value_split(digits, q, q + 1, n);
    lemma_value_bounded(digits, q + 1, n);
    let d = digits[q] as int - 48;
    assert(is_digit(digits[q]));
    assert(digits_value(digits, q, q + 1) == d) by {
        assert(digits_value(digits, q, q) == 0);
    }
    let u = ten(cut - 1);
    let t = ten(cut);
    assert(t == 10 * u);
    lemma_ten_grows(0, cut - 1);
    let low = digits_value(digits, q + 1, n);
    assert(tail == d * u + low);
    let up: int = if d >= 5 {
        1
    } else {
        0
    };
    assert(d >= 5 ==> d * u >= 5 * u) by (nonlinear_arith)
        requires
            u >= 1,
    ;
    assert(d <= 4 ==> d * u <= 4 * u) by (nonlinear_arith)
        requires
            u >= 1,
    ;
    assert(head * (10 * u) * 2 == head * (2 * t)) by (nonlinear_arith)
        requires
            t == 10 * u,
    ;
    assert(2 * m + t == head * (2 * t) + (2 * tail + t));
    let r = 2 * tail + t - up * (2 * t);
    assert(0 <= r < 2 * t);
    assert((head + up) * (2 * t) == head * (2 * t) + up * (2 * t)) by (nonlinear_arith);
    vstd::arithmetic::div_mod::lemma_fundamental_div_mod_converse(
        2 * m + t,
        2 * t,
        head + up,
        r,
    );
}

/// A number of fewer digits than are left out rounds to nothing.
proof fn lemma_rounded_away(digits: Seq<char>, cut: int)
    requires
        cut > digits.len(),
        forall|m: int| 0 <= m < digits.len() ==> is_digit(#[trigger] digits[m]),
    ensures
        scaled(digits_value(digits, 0, digits.len() as int), -cut) == 0,
{
    let n = digits.len() as int;
    let m = digits_value(digits, 0, n);
    lemma_value_bounded(digits, 0, n);
    lemma_ten_grows(n, cut - 1);
    let t = ten(cut);
    assert(t == 10 * ten(cut - 1));
    assert(0 <= 2 * m + t < 2 * t);
    vstd::arithmetic::div_mod::lemma_fundamental_div_mod_converse(2 * m + t, 2 * t, 0, 2 * m + t);
}

fn push_chars(out: &mut Vec<char>, text: &[char], from: usize, to: usize)
    requires
        from <= to <= text@.len(),
    ensures
        final(out)@ == old(out)@ + text@.subrange(from as int, to as int),
{
    let ghost was = out@;
    let mut k: usize = from;
    while k < to
        invariant
            from <= k <= to <= text@.len(),
            out@ =~= was + text@.subrange(from as int, k as int),
        decreases to - k,
    {
        out.push(text[k]);
        k = k + 1;
    }
}

/// The digits of a number from `s` on, without the point between them, how
/// many stand behind it, and where they end.
fn read_mantissa(text: &[char], s: usize) -> (read: (Vec<char>, usize, usize))
    requires
        s <= text@.len(),
    ensures
        (read.0@, read.1 as int, read.2 as int) == mantissa(text@, s as int),
        s <= read.2 <= text@.len(),
        read.0@.len() > 0 ==> s < read.2,
        read.1 <= read.0@.len(),
        forall|m: int| 0 <= m < read.0@.len() ==> is_digit(#[trigger] read.0@[m]),
{
    let a: usize = end_of_digits(text, s);
    proof {
        lemma_digits_end(text@, s as int);
    }
    let mut digits: Vec<char> = Vec::new();
    push_chars(&mut digits, text, s, a);
    let ghost whole = digits@;
    assert(whole =~= text@.subrange(s as int, a as int));
    if a < text.len() && text[a] == '.' {
        let b: usize = end_of_digits(text, a + 1);
        proof {
            lemma_digits_end(text@, a + 1);
        }
        push_chars(&mut digits, text, a + 1, b);
        assert forall|m: int| 0 <= m < digits@.len() implies is_digit(#[trigger] digits@[m]) by {
            if m < whole.len() {
                assert(digits@[m] == text@[s + m]);
            } else {
                assert(digits@[m] == text@[a + 1 + (m - whole.len())]);
            }
        }
        (digits, b - a - 1, b)
    } else {
        assert forall|m: int| 0 <= m < digits@.len() implies is_digit(#[trigger] digits@[m]) by {
            assert(digits@[m] == text@[s + m]);
        }
        (digits, 0, a)
    }
}

/// No power of ten that any text can offset is this large.
const FAR_POWER: u128 = 1_000_000_000_000_000_000_000_000_000_000;

/// The power of ten written at `i`, and where it ends; one past `FAR_POWER`
/// is as good as `FAR_POWER`.
fn read_power(text: &[char], i: usize) -> (read: (i128, usize))
    requires
        i <= text@.len(),
    ensures
        read.1 == power_at(text@, i as int).1,
        i <= read.1 <= text@.len(),
        -FAR_POWER <= read.0 <= FAR_POWER,
        -FAR_POWER < read.0 < FAR_POWER ==> read.0 == power_at(text@, i as int).0,
        read.0 == FAR_POWER ==> power_at(text@, i as int).0 >= FAR_POWER,
        read.0 == -FAR_POWER ==> power_at(text@, i as int).0 <= -FAR_POWER,
{
    let len: usize = text.len();
    if i >= len || !(text[i] == 'e' || text[i] == 'E') {
        return (0, i);
    }
    let minus = i + 1 < len && text[i + 1] == '-';
    let d: usize = if minus || i + 1 < len && text[i + 1] == '+' {
        i + 2
    } else {
        i + 1
    };
    if !(d < len && '0' <= text[d] && text[d] <= '9') {
        return (0, i);
    }
    let end: usize = end_of_digits(text, d);
    proof {
        lemma_digits_end(text@, d as int);
    }
    let size: i128 = match value_of_digits(text, d, end, FAR_POWER) {
        Some(v) => v as i128,
        None => FAR_POWER as i128,
    };
    if minus {
        (-size, end)
    } else {
        (size, end)
    }
}

/// `digits` times ten to the power `power`, to the nearest whole number; none
/// past the reach.
fn read_scaled(digits: &Vec<char>, power: i128) -> (size: Option<i64>)
    requires
        forall|m: int| 0 <= m < digits@.len() ==> is_digit(#[trigger] digits@[m]),
        -2 * FAR_POWER <= power <= 2 * FAR_POWER,
    ensures
        ({
            let wanted = scaled(
                digits_value(digits@, 0, digits@.len() as int),
                power as int,
            );
            match size {
                Some(v) => v == wanted && 0 <= v <= REACH,
                None => wanted > REACH,
            }
        }),
{
    let n: usize = digits.len();
    let ghost m = digits_value(digits@, 0, n as int);
    proof {
        lemma_value_bounded(digits@, 0, n as int);
    }
    if power >= 0 {
        let mut v: u128 = match value_of_digits(digits.as_slice(), 0, n, REACH as u128) {
            Some(v) => v,
            None => {
                proof {
                    lemma_ten_grows(0, power as int);
                    let t = ten(power as int);
                    assert(m * t >= m) by (nonlinear_arith)
                        requires
                            m >= 0,
                            t >= 1,
                    ;
                }
                return None;
            },
        };
        if v == 0 {
            assert(0 * ten(power as int) == 0);
            return Some(0);
        }
        let mut k: i128 = power;
        while k > 0
            invariant
                0 <= k <= power,
                0 < v <= 10 * REACH,
                v * ten(k as int) == m * ten(power as int),
                power >= 0,
            ensures
                v <= 10 * REACH,
                v > REACH ==> m * ten(power as int) > REACH,
                v <= REACH ==> v == m * ten(power as int),
            decreases k,
        {
            if v > REACH as u128 {
                proof {
                    lemma_ten_grows(0, k as int);
                    let t = ten(k as int);
                    assert(v * t >= v) by (nonlinear_arith)
                        requires
                            v >= 0,
                            t >= 1,
                    ;
                }
                break;
            }
            proof {
                let t = ten(k - 1);
                assert(ten(k as int) == 10 * t);
                assert((10 * v) * t == v * (10 * t)) by (nonlinear_arith);
            }
            v = 10 * v;
            k = k - 1;
            assert(k == 0 ==> v * ten(0) == v);
        }
        if v > REACH as u128 {
            return None;
        }
        return Some(v as i64);
    }
    let cut: i128 = -power;
    if cut > n as i128 {
        proof {
            lemma_rounded_away(digits@, cut as int);
        }
        return Some(0);
    }
    proof {
        lemma_rounded(digits@, cut as int);
    }
    let q: usize = n - cut as usize;
    assert(is_digit(digits@[q as int]));
    let up: u128 = if digits[q] as u32 - 48 >= 5 {
        1
    } else {
        0
    };
    match value_of_digits(digits.as_slice(), 0, q, REACH as u128) {
        Some(head) => {
            if head + up > REACH as u128 {
                None
            } else {
                Some((head + up) as i64)
            }
        },
        None => None,
    }
}

/// The number written at `i`, in millionths, and where it ends.
fn read_number(text: &[char], i: usize) -> (found: Option<(i64, usize)>)
    requires
        i < text@.len(),
    ensures
        match found {
            Some((v, end)) => number_at(text@, i as int) == Some((v as int, end as int)) && i < end
                <= text@.len() && -REACH <= v <= REACH,
            None => number_at(text@, i as int) is None,
        },
{
    let signed = text[i] == '-' || text[i] == '+';
    let s: usize = if signed {
        i + 1
    } else {
        i
    };
    let (digits, places, b) = read_mantissa(text, s);
    let (power, end) = read_power(text, b);
    if digits.len() == 0 {
        return None;
    }
    let count: usize = digits.len();
    let ghost (full, at) = power_at(text@, b as int);
    proof {
        lemma_far_power(digits@, power as int, full, places as int);
    }
    let size: i64 = match read_scaled(&digits, 6 + power - places as i128) {
        Some(size) => size,
        None => {
            return None;
        },
    };
    if text[i] == '-' {
        Some((-size, end))
    } else {
        Some((size, end))
    }
}

/// A power past `FAR_POWER` says no more of a number than `FAR_POWER` does:
/// nothing is left of it, or it is out of reach.
proof fn lemma_far_power(digits: Seq<char>, power: int, full: int, places: int)
    requires
        0 < digits.len() <= u64::MAX,
        0 <= places <= digits.len(),
        forall|m: int| 0 <= m < digits.len() ==> is_digit(#[trigger] digits[m]),
        -FAR_POWER <= power <= FAR_POWER,
        -FAR_POWER < power < FAR_POWER ==> power == full,
        power == FAR_POWER ==> full >= FAR_POWER,
        power == -FAR_POWER ==> full <= -FAR_POWER,
    ensures
        ({
            let m = digits_value(digits, 0, digits.len() as int);
            let (near, far) = (scaled(m, 6 + power - places), scaled(m, 6 + full - places));
            near == far || near > REACH && far > REACH
        }),
{
    let n = digits.len() as int;
    let m = digits_value(digits, 0, n);
    lemma_value_bounded(digits, 0, n);
    if power == FAR_POWER {
        let (j, k) = (6 + power - places, 6 + full - places);
        if m == 0 {
            assert(0 * ten(j) == 0 && 0 * ten(k) == 0);
        } else {
            assert(ten(20) == 100_000_000_000_000_000_000) by {
                reveal_with_fuel(ten, 21);
            }
            lemma_ten_grows(20, j);
            lemma_ten_grows(20, k);
            let (a, b) = (ten(j), ten(k));
            assert(m * a >= a && m * b >= b) by (nonlinear_arith)
                requires
                    m >= 1,
                    a >= 1,
                    b >= 1,
            ;
        }
    } else if power == -FAR_POWER {
        lemma_rounded_away(digits, -(6 + power - places));
        lemma_rounded_away(digits, -(6 + full - places));
    }
}

fn letter(c: char) -> (yes: bool)
    ensures
        yes == is_letter(c),
{
    c == 'M' || c == 'L' || c == 'H' || c == 'V' || c == 'Z' || c == 'l' || c == 'h' || c == 'v'
        || c == 'z'
}

/// The letters and numbers of `text`.
fn tokens(text: &[char]) -> (list: Option<Vec<Token>>)
    ensures
        match list {
            Some(v) => tokens_from(text@, 0) == Some(v@) && forall|i: int|
                0 <= i < v@.len() ==> token_ok(#[trigger] v@[i]),
            None => tokens_from(text@, 0) is None,
        },
{
    let mut list: Vec<Token> = Vec::new();
    let mut i: usize = 0;
    assert(prefixed(list@, tokens_from(text@, 0)) =~= tokens_from(text@, 0)) by {
        if let Some(rest) = tokens_from(text@, 0) {
            assert(list@ + rest =~= rest);
        }
    }
    while i < text.len()
        invariant
            i <= text@.len(),
            tokens_from(text@, 0) == prefixed(list@, tokens_from(text@, i as int)),
            forall|k: int| 0 <= k < list@.len() ==> token_ok(#[trigger] list@[k]),
        decreases text@.len() - i,
    {
        let c: char = text[i];
        let ghost before = list@;
        if is_ascii_white(c) || c == ',' {
            i = i + 1;
        } else if letter(c) {
            list.push(Token::Letter(c));
            proof {
                if let Some(rest) = tokens_from(text@, i + 1) {
                    assert(before + (seq![Token::Letter(c)] + rest) =~= list@ + rest);
                }
            }
            i = i + 1;
        } else {
            match read_number(text, i) {
                None => {
                    return None;
                },
                Some((v, end)) => {
                    list.push(Token::Number(v));
                    proof {
                        if let Some(rest) = tokens_from(text@, end as int) {
                            assert(before + (seq![Token::Number(v)] + rest) =~= list@ + rest);
                        }
                    }
                    i = end;
                },
            }
        }
    }
    assert(list@ + Seq::<Token>::empty() =~= list@);
    Some(list)
}

pub open spec fn token_ok(token: Token) -> bool {
    token matches Token::Number(v) ==> -REACH <= v <= REACH
}

fn number_of(tokens: &Vec<Token>, i: usize) -> (v: Option<i64>)
    requires
        forall|k: int| 0 <= k < tokens@.len() ==> token_ok(#[trigger] tokens@[k]),
    ensures
        v is Some <==> number_token(tokens@, i as int),
        v matches Some(n) ==> n == token_value(tokens@, i as int) && -REACH <= n <= REACH,
{
    if i < tokens.len() {
        assert(token_ok(tokens@[i as int]));
        match tokens[i] {
            Token::Number(v) => Some(v),
            Token::Letter(_) => None,
        }
    } else {
        None
    }
}

fn reach(x: i64, y: i64) -> (p: Option<Xy>)
    ensures
        p == reached(x as int, y as int),
        p matches Some(q) ==> q.ok(),
{
    if -REACH <= x && x <= REACH && -REACH <= y && y <= REACH {
        Some(Xy { x, y })
    } else {
        None
    }
}

fn target_of(tokens: &Vec<Token>, j: usize, c: char, at: Xy) -> (p: Option<Xy>)
    requires
        forall|k: int| 0 <= k < tokens@.len() ==> token_ok(#[trigger] tokens@[k]),
        at.ok(),
        j <= tokens@.len(),
    ensures
        p == target(tokens@, j as int, c, at),
        p matches Some(q) ==> q.ok() && j + (if takes_two(c) {
            2
        } else {
            1int
        }) <= tokens@.len(),
{
    let count: usize = tokens.len();
    let x: i64 = match number_of(tokens, j) {
        Some(v) => v,
        None => {
            return None;
        },
    };
    if c == 'M' || c == 'L' || c == 'l' {
        let y: i64 = match number_of(tokens, j + 1) {
            Some(v) => v,
            None => {
                return None;
            },
        };
        if c == 'l' {
            reach(at.x + x, at.y + y)
        } else {
            reach(x, y)
        }
    } else if c == 'H' {
        reach(x, at.y)
    } else if c == 'h' {
        reach(at.x + x, at.y)
    } else if c == 'V' {
        reach(at.x, x)
    } else if c == 'v' {
        reach(at.x, at.y + x)
    } else {
        None
    }
}

/// The steps of path data; none when it holds anything but straight steps in
/// plain numbers within reach.
pub fn read_straight(text: &[char]) -> (steps: Option<Vec<Segment>>)
    ensures
        match steps {
            Some(v) => straight_steps(text@) == Some(v@) && path_ok(v@),
            None => straight_steps(text@) is None,
        },
{
    let tokens = match tokens(text) {
        Some(tokens) => tokens,
        None => {
            return None;
        },
    };
    let zero = Xy { x: 0, y: 0 };
    let mut steps: Vec<Segment> = Vec::new();
    let mut letter: char = 'Z';
    let mut at: Xy = zero;
    let mut start: Xy = zero;
    let mut i: usize = 0;
    assert(prefixed(steps@, steps_from(tokens@, 0, 'Z', zero, zero)) =~= steps_from(
        tokens@,
        0,
        'Z',
        zero,
        zero,
    )) by {
        if let Some(rest) = steps_from(tokens@, 0, 'Z', zero, zero) {
            assert(steps@ + rest =~= rest);
        }
    }
    while i < tokens.len()
        invariant
            i <= tokens@.len(),
            forall|k: int| 0 <= k < tokens@.len() ==> token_ok(#[trigger] tokens@[k]),
            at.ok(),
            start.ok(),
            path_ok(steps@),
            zero == (Xy { x: 0, y: 0 }),
            steps_from(tokens@, 0, 'Z', zero, zero) == prefixed(
                steps@,
                steps_from(tokens@, i as int, letter, at, start),
            ),
            tokens_from(text@, 0) == Some(tokens@),
        decreases tokens@.len() - i,
    {
        let ghost before = steps@;
        let (c, j): (char, usize) = match tokens[i] {
            Token::Letter(c) => (c, i + 1),
            Token::Number(_) => (letter, i),
        };
        if c == 'Z' || c == 'z' {
            if j == i {
                return None;
            }
            steps.push(Segment::Close);
            proof {
                if let Some(rest) = steps_from(tokens@, i + 1, 'Z', start, start) {
                    assert(before + (seq![Segment::Close] + rest) =~= steps@ + rest);
                }
            }
            letter = 'Z';
            at = start;
            i = i + 1;
            continue ;
        }
        let p: Xy = match target_of(&tokens, j, c, at) {
            Some(p) => p,
            None => {
                return None;
            },
        };
        let next: usize = if c == 'M' || c == 'L' || c == 'l' {
            j + 2
        } else {
            j + 1
        };
        if c == 'M' {
            steps.push(Segment::Move(p));
            proof {
                if let Some(rest) = steps_from(tokens@, next as int, 'L', p, p) {
                    assert(before + (seq![Segment::Move(p)] + rest) =~= steps@ + rest);
                }
            }
            letter = 'L';
            start = p;
        } else {
            steps.push(Segment::Line(p));
            proof {
                if let Some(rest) = steps_from(tokens@, next as int, c, p, start) {
                    assert(before + (seq![Segment::Line(p)] + rest) =~= steps@ + rest);
                }
            }
            letter = c;
        }
        at = p;
        i = next;
    }
    assert(steps@ + Seq::<Segment>::empty() =~= steps@);
    Some(steps)
}

pub proof fn lemma_digits_until(text: Seq<char>, i: int, j: int)
    requires
        0 <= i <= j <= text.len(),
        forall|k: int| i <= k < j ==> is_digit(#[trigger] text[k]),
        j < text.len() ==> !is_digit(text[j]),
    ensures
        digits_end(text, i) == j,
    decreases j - i,
{
    if i < j {
        assert(is_digit(text[i]));
        lemma_digits_until(text, i + 1, j);
    }
}

proof fn lemma_value_moved(text: Seq<char>, i: int, j: int, other: Seq<char>, by: int)
    requires
        forall|k: int| i <= k < j ==> #[trigger] text[k] == other[k + by],
    ensures
        digits_value(text, i, j) == digits_value(other, i + by, j + by),
    decreases j - i,
{
    if i < j {
        lemma_value_moved(text, i, j - 1, other, by);
        assert(text[j - 1] == other[j - 1 + by]);
    }
}

pub proof fn lemma_decimal(n: nat)
    ensures
        decimal(n).len() >= 1,
        forall|k: int| 0 <= k < decimal(n).len() ==> is_digit(#[trigger] decimal(n)[k]),
        digits_value(decimal(n), 0, decimal(n).len() as int) == n,
    decreases n,
{
    let text = decimal(n);
    let last = text.len() - 1;
    if n < 10 {
        assert(text =~= seq![digit_char(n as int)]);
        assert(digits_value(text, 0, 0) == 0);
    } else {
        lemma_decimal(n / 10);
        let head = decimal(n / 10);
        assert(text =~= head.push(digit_char((n % 10) as int)));
        lemma_value_moved(head, 0, last as int, text, 0);
        assert forall|k: int| 0 <= k < text.len() implies is_digit(#[trigger] text[k]) by {
            if k < last {
                assert(is_digit(head[k]));
            }
        }
    }
}

proof fn lemma_padded(f: nat, places: nat)
    requires
        f < ten(places as int),
    ensures
        padded(f, places).len() == places,
        forall|k: int| 0 <= k < places ==> is_digit(#[trigger] padded(f, places)[k]),
        digits_value(padded(f, places), 0, places as int) == f,
    decreases places,
{
    if places > 0 {
        let text = padded(f, places);
        let head = padded(f / 10, (places - 1) as nat);
        lemma_padded(f / 10, (places - 1) as nat);
        assert(text =~= head.push(digit_char((f % 10) as int)));
        lemma_value_moved(head, 0, places - 1, text, 0);
        assert forall|k: int| 0 <= k < places implies is_digit(#[trigger] text[k]) by {
            if k < places - 1 {
                assert(is_digit(head[k]));
            }
        }
    }
}

pub proof fn lemma_fraction(f: nat, places: nat)
    requires
        0 < f < ten(places as int),
    ensures
        1 <= fraction(f, places).len() <= places,
        forall|k: int|
            0 <= k < fraction(f, places).len() ==> is_digit(#[trigger] fraction(f, places)[k]),
        digits_value(fraction(f, places), 0, fraction(f, places).len() as int) * ten(
            places - fraction(f, places).len(),
        ) == f,
    decreases places,
{
    if places == 0 {
    } else if f % 10 == 0 {
        lemma_fraction(f / 10, (places - 1) as nat);
        let text = fraction(f, places);
        let v = digits_value(text, 0, text.len() as int);
        let t = ten(places - 1 - text.len());
        assert(ten(places - text.len()) == 10 * t);
        assert(v * (10 * t) == 10 * (v * t)) by (nonlinear_arith);
    } else {
        lemma_padded(f, places);
    }
}

/// A number's text reads back as the number, within reach.
pub proof fn law_numbers_read_back(v: int)
    requires
        -REACH <= v <= REACH,
    ensures
        number_at(number(v), 0) == Some((v, number(v).len() as int)),
{
    let text = number(v);
    let size = if v < 0 {
        -v
    } else {
        v
    };
    let whole = decimal((size / 1_000_000) as nat);
    let rest = (size % 1_000_000) as nat;
    let s: int = if v < 0 {
        1
    } else {
        0
    };
    lemma_decimal((size / 1_000_000) as nat);
    lemma_ten();
    let a = s + whole.len();
    assert forall|k: int| 0 <= k < whole.len() implies whole[k] == #[trigger] text[k + s] by {}
    assert forall|k: int| s <= k < a implies is_digit(#[trigger] text[k]) by {
        assert(is_digit(whole[k - s]));
        assert(whole[k - s] == text[k - s + s]);
    }
    lemma_digits_until(text, s, a);
    assert(is_digit(text[s]));
    assert(text.subrange(s, a) =~= whole) by {
        assert forall|k: int| 0 <= k < whole.len() implies text.subrange(s, a)[k]
            == whole[k] by {
            assert(whole[k] == text[k + s]);
        }
    }
    if rest != 0 {
        lemma_fraction(rest, 6);
        let part = fraction(rest, 6);
        let b = a + 1 + part.len();
        assert(text[a] == '.');
        assert(text.len() == b);
        assert forall|k: int| 0 <= k < part.len() implies part[k] == #[trigger] text[k + a + 1] by {}
        assert forall|k: int| a + 1 <= k < b implies is_digit(#[trigger] text[k]) by {
            assert(is_digit(part[k - a - 1]));
            assert(part[k - a - 1] == text[k - a - 1 + a + 1]);
        }
        lemma_digits_until(text, a + 1, b);
        assert(text.subrange(a + 1, b) =~= part) by {
            assert forall|k: int| 0 <= k < part.len() implies text.subrange(a + 1, b)[k]
                == part[k] by {
                assert(part[k] == text[k + a + 1]);
            }
        }
        let digits = whole + part;
        assert(mantissa(text, s) == (digits, part.len() as int, b));
        assert(power_at(text, b) == (0int, b));
        let (w, p) = (whole.len() as int, part.len() as int);
        lemma_value_split(digits, 0, w, w + p);
        assert forall|k: int| 0 <= k < w implies #[trigger] whole[k] == digits[k + 0] by {}
        lemma_value_moved(whole, 0, w, digits, 0);
        assert forall|k: int| 0 <= k < p implies #[trigger] part[k] == digits[k + w] by {}
        lemma_value_moved(part, 0, p, digits, w);
        lemma_ten_adds(p, 6 - p);
        let (x, y, t, u) = (
            digits_value(whole, 0, w),
            digits_value(part, 0, p),
            ten(p),
            ten(6 - p),
        );
        assert((x * t + y) * u == x * (t * u) + y * u) by (nonlinear_arith);
        assert(digits_value(digits, 0, digits.len() as int) == x * t + y);
        assert(x * (t * u) == x * 1_000_000);
        assert(scaled(x * t + y, 6 - p) == size);
    } else {
        assert(text.len() == a);
        assert(mantissa(text, s) == (whole, 0int, a));
        assert(power_at(text, a) == (0int, a));
        let x = digits_value(whole, 0, whole.len() as int);
        assert(scaled(x, 6) == x * 1_000_000);
        assert(scaled(x, 6) == size);
    }
    let (digits, places, b) = mantissa(text, s);
    assert(digits.len() > 0);
    assert(scaled(digits_value(digits, 0, digits.len() as int), 6 + power_at(text, b).0 - places)
        == size);
}

} // verus!
