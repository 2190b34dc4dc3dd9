//! What is written reads back, and what is counted or kept is what it says.
use crate::colour::{channel, colour_of, grey, hex_digit, scaled, Shade};
use crate::desktop::Derive;
use crate::desktop::convert::two_decimals;
use crate::dialog::{after_marks, answer_of, position_of};
use crate::dragout::{
    header_bytes, list_bytes, path_bytes, payload_of, text_from, unit_bytes, wide_text,
};
use crate::geometry::{Segment, Xy};
use crate::hand::{Point, Rounded};
use crate::licence::{all_digits, time_left_of, LicenceUse};
use crate::look::ThemeChoice;
use crate::offer::paths_in;
use crate::path_data::{digits_value, is_digit, lemma_decimal, steps_from, Token};
use crate::prefs::{
    appearance_of, dressed, licence_of, licensed, lines_of, place_of, split_line, switched,
    switches_of, Appearance, LicenceLines, Switches,
};
use crate::process::{passes_of, targets_of, Pass};
use crate::recolor::Recolor;
use crate::text::{
    before_white, counted, decimal, digit_char, hex, hex2, lemma_trimmed_bare, past_white, stands_at,
    trimmed, white,
};
use crate::window::{ghosts_of, room_beside, room_stacked};
use vstd::prelude::*;

verus! {

/// A hexadecimal digit reads back, and is not white.
pub proof fn lemma_digit_reads(d: int)
    requires
        0 <= d < 16,
    ensures
        hex_digit(digit_char(d)) == Some(d),
        !white(digit_char(d)),
{
    let c = digit_char(d);
    assert('0' as int == 48 && '9' as int == 57);
    assert('A' as int == 65 && 'F' as int == 70 && 'a' as int == 97);
    if d < 10 {
        assert(c as int == 48 + d);
    } else {
        assert(c as int == 55 + d);
    }
}

proof fn lemma_pair_reads(text: Seq<char>, at: int, n: u8)
    requires
        0 <= at,
        at + 2 <= text.len(),
        text[at] == digit_char(n as int / 16),
        text[at + 1] == digit_char(n as int % 16),
    ensures
        channel(text, at) == Some(n as int),
{
    lemma_digit_reads(n as int / 16);
    lemma_digit_reads(n as int % 16);
}

/// A fill written in hexadecimal is painted in its own red, green and blue:
/// opaque with six digits, at the opacity that the last two say with eight.
pub proof fn law_a_written_fill_is_painted(r: u8, g: u8, b: u8, a: u8)
    ensures
        colour_of(seq!['#'] + hex2(r as int) + hex2(g as int) + hex2(b as int)) == (Shade {
            r,
            g,
            b,
            a: 255,
        }),
        ({
            let text = seq!['#'] + hex2(r as int) + hex2(g as int) + hex2(b as int) + hex2(
                a as int,
            );
            let c = colour_of(text);
            &&& c.a == a
            &&& nearest_part(r, a, c.r)
            &&& nearest_part(g, a, c.g)
            &&& nearest_part(b, a, c.b)
        }),
{
    let six = seq!['#'] + hex2(r as int) + hex2(g as int) + hex2(b as int);
    let eight = six + hex2(a as int);
    assert(!white('#')) by {
        assert('#' as u32 == 35);
    }
    assert(six.last() == hex2(b as int)[1]);
    assert(eight.last() == hex2(a as int)[1]);
    lemma_digit_reads(b as int % 16);
    lemma_digit_reads(a as int % 16);
    lemma_trimmed_bare(six);
    lemma_trimmed_bare(eight);
    lemma_pair_reads(six, 1, r);
    lemma_pair_reads(six, 3, g);
    lemma_pair_reads(six, 5, b);
    assert(eight[0] == six[0] && eight[1] == six[1] && eight[2] == six[2] && eight[3] == six[3]);
    assert(eight[4] == six[4] && eight[5] == six[5] && eight[6] == six[6]);
    lemma_pair_reads(eight, 1, r);
    lemma_pair_reads(eight, 3, g);
    lemma_pair_reads(eight, 5, b);
    lemma_pair_reads(eight, 7, a);
    crate::colour::law_opaque_colours_stay(r, g, b);
    lemma_scaled(r, a);
    lemma_scaled(g, a);
    lemma_scaled(b, a);
}

/// `v` is the whole number nearest `c` times `a / 255`.
pub open spec fn nearest_part(c: u8, a: u8, v: u8) -> bool {
    -255 < 2 * (v * 255 - c * a) < 255
}

proof fn lemma_scaled(c: u8, a: u8)
    ensures
        0 <= scaled(c, a) <= 255,
        nearest_part(c, a, scaled(c, a) as u8),
{
    let p = c * a;
    assert(0 <= p <= 255 * 255) by (nonlinear_arith)
        requires
            p == c * a,
    ;
}

/// What does not write a colour shows grey: text that does not start with its
/// sign or has another length.
pub proof fn law_other_text_shows_grey(text: Seq<char>)
    requires
        trimmed(text).len() != 7 && trimmed(text).len() != 9 || trimmed(text)[0] != '#',
    ensures
        colour_of(text) == grey(),
{
}

/// Side by side, a picture `n` by `d` scaled by `p / q` has its room, half of
/// the width without a gap of 10 points and each card's frame of 26, and the
/// height without the frame and 34 of the heading, exactly up to the scale that
/// `room_beside` says.
pub proof fn law_room_beside(ax: int, ay: int, n: int, d: int, p: int, q: int)
    requires
        n > 0,
        d > 0,
        q > 0,
    ensures
        (2 * p * n <= q * (ax - (10 + 2 * 26) * 64) && p * d <= q * (ay - (26 + 34) * 64))
            <==> 2 * p * n * d <= q * room_beside(ax, ay, n, d),
{
    let (u, v) = (ax - 62 * 64, ay - 60 * 64);
    let (a, b) = (u * d, v * 2 * n);
    assert(2 * p * n <= q * u <==> 2 * p * n * d <= q * a) by (nonlinear_arith)
        requires
            a == u * d,
            d > 0,
    ;
    assert(p * d <= q * v <==> 2 * p * n * d <= q * b) by (nonlinear_arith)
        requires
            b == v * 2 * n,
            n > 0,
    ;
    let room = room_beside(ax, ay, n, d);
    assert((2 * p * n * d <= q * a && 2 * p * n * d <= q * b) <==> 2 * p * n * d <= q * room)
        by (nonlinear_arith)
        requires
            room == a && a <= b || room == b && b <= a,
            q > 0,
    ;
}

/// One above the other, it has the width without a frame, and half of the
/// height without the gap, each card's frame and heading.
pub proof fn law_room_stacked(ax: int, ay: int, n: int, d: int, p: int, q: int)
    requires
        n > 0,
        d > 0,
        q > 0,
    ensures
        (p * n <= q * (ax - 26 * 64) && 2 * p * d <= q * (ay - (10 + 2 * 60) * 64)) <==> 2 * p * n
            * d <= q * room_stacked(ax, ay, n, d),
{
    let (u, v) = (ax - 26 * 64, ay - 130 * 64);
    let (a, b) = (u * 2 * d, v * n);
    assert(p * n <= q * u <==> 2 * p * n * d <= q * a) by (nonlinear_arith)
        requires
            a == u * 2 * d,
            d > 0,
    ;
    assert(2 * p * d <= q * v <==> 2 * p * n * d <= q * b) by (nonlinear_arith)
        requires
            b == v * n,
            n > 0,
    ;
    let room = room_stacked(ax, ay, n, d);
    assert((2 * p * n * d <= q * a && 2 * p * n * d <= q * b) <==> 2 * p * n * d <= q * room)
        by (nonlinear_arith)
        requires
            room == a && a <= b || room == b && b <= a,
            q > 0,
    ;
}

/// A time left is said in the fewest whole hours that cover it, and in the
/// fewest whole minutes within the last hour, one at least.
pub proof fn law_time_left_covers_the_time(seconds: int, n: int)
    requires
        n >= 1,
    ensures
        (3600 * (n - 1) < seconds <= 3600 * n && seconds >= 3600) ==> time_left_of(seconds)
            == counted(n as nat, "hour"@),
        (60 * (n - 1) < seconds <= 60 * n && seconds < 3600) ==> time_left_of(seconds) == counted(
            n as nat,
            "minute"@,
        ),
        seconds <= 0 ==> time_left_of(seconds) == counted(1, "minute"@),
{
}

/// A trial has its whole time left when it starts and before, none once a day
/// has passed, and a second less with every second between.
pub proof fn law_a_trial_runs_for_a_day(start: i64, now: i64)
    ensures
        ({
            let left = LicenceUse::Trial(start).left(now);
            &&& left is Some
            &&& now <= start ==> left == Some(24 * 60 * 60int)
            &&& start <= now <= start + 24 * 60 * 60 ==> left == Some(
                start + 24 * 60 * 60 - now,
            )
            &&& now >= start + 24 * 60 * 60 ==> left == Some(0int)
        }),
{
}

/// The corners that a document has cut off are marked: each rounded corner
/// without a node, in their order, and no other.
pub proof fn law_ghosts_are_the_corners_without_a_node(
    rounded: Seq<Rounded>,
    nodes: Seq<Point>,
    n: nat,
) -> (from: Seq<int>)
    requires
        n <= rounded.len(),
    ensures
        from.len() == ghosts_of(rounded, nodes, n).len(),
        forall|k: int|
            0 <= k < from.len() ==> {
                &&& 0 <= #[trigger] from[k] < n
                &&& ghosts_of(rounded, nodes, n)[k] == rounded[from[k]].at
                &&& !nodes.contains(rounded[from[k]].at)
            },
        forall|j: int, k: int| 0 <= j < k < from.len() ==> #[trigger] from[j] < #[trigger] from[k],
        forall|i: int|
            0 <= i < n && !nodes.contains((#[trigger] rounded[i]).at) ==> from.contains(i),
    decreases n,
{
    if n == 0 {
        Seq::empty()
    } else {
        let m = (n - 1) as nat;
        let before = law_ghosts_are_the_corners_without_a_node(rounded, nodes, m);
        if nodes.contains(rounded[n - 1].at) {
            before
        } else {
            let from = before.push(n - 1);
            assert forall|i: int| 0 <= i < n && !nodes.contains((#[trigger] rounded[i]).at) implies
                from.contains(i) by {
                if i < m {
                    assert(before.contains(i));
                    let k = choose|k: int| 0 <= k < before.len() && before[k] == i;
                    assert(from[k] == i);
                } else {
                    assert(from[before.len() as int] == i);
                }
            }
            from
        }
    }
}

/// The targets are the colours of the recolourings that keep their pixels
/// opaque, in their order.
pub proof fn law_targets_are_the_opaque_recolourings(list: Seq<Recolor>, n: nat) -> (from: Seq<
    int,
>)
    requires
        n <= list.len(),
    ensures
        from.len() == targets_of(list, n).len(),
        forall|k: int|
            0 <= k < from.len() ==> {
                &&& 0 <= #[trigger] from[k] < n
                &&& targets_of(list, n)[k] == list[from[k]].rgb
                &&& list[from[k]].alpha is None
            },
        forall|j: int, k: int| 0 <= j < k < from.len() ==> #[trigger] from[j] < #[trigger] from[k],
        forall|i: int|
            0 <= i < n && (#[trigger] list[i]).alpha is None ==> from.contains(i),
    decreases n,
{
    if n == 0 {
        Seq::empty()
    } else {
        let m = (n - 1) as nat;
        let before = law_targets_are_the_opaque_recolourings(list, m);
        if list[n - 1].alpha is Some {
            before
        } else {
            let from = before.push(n - 1);
            assert forall|i: int| 0 <= i < n && (#[trigger] list[i]).alpha is None implies
                from.contains(i) by {
                if i < m {
                    assert(before.contains(i));
                    let k = choose|k: int| 0 <= k < before.len() && before[k] == i;
                    assert(from[k] == i);
                } else {
                    assert(from[before.len() as int] == i);
                }
            }
            from
        }
    }
}

/// The places of `svg` before `n` where a path starts.
pub open spec fn path_places(svg: Seq<char>, n: nat) -> Set<int> {
    Set::new(|i: int| 0 <= i < n && stands_at(svg, "<path"@, i))
}

/// A drawing's shapes are the places where a path starts.
pub proof fn law_shapes_are_counted_by_their_paths(svg: Seq<char>, n: nat)
    ensures
        path_places(svg, n).finite(),
        paths_in(svg, n) == path_places(svg, n).len(),
    decreases n,
{
    let now = path_places(svg, n);
    if n == 0 {
        assert(now =~= Set::empty());
    } else {
        let m = (n - 1) as nat;
        law_shapes_are_counted_by_their_paths(svg, m);
        let before = path_places(svg, m);
        if stands_at(svg, "<path"@, n - 1) {
            assert(now =~= before.insert(n - 1));
        } else {
            assert(now =~= before);
        }
    }
}

/// Two decimals are a number's hundredths: the digits before and behind the
/// point, read as one number.
pub proof fn law_two_decimals_read_back(n: int)
    requires
        n >= 0,
    ensures
        ({
            let text = two_decimals(n);
            let point = text.len() - 3;
            &&& point >= 1
            &&& text[point] == '.'
            &&& is_digit(text[point + 1]) && is_digit(text[point + 2])
            &&& 100 * digits_value(text.subrange(0, point), 0, point) + 10 * (text[point + 1] as int
                - 48) + (text[point + 2] as int - 48) == n
        }),
{
    let whole = decimal((n / 100) as nat);
    lemma_decimal((n / 100) as nat);
    let text = two_decimals(n);
    let point = text.len() - 3;
    assert(text.subrange(0, point) =~= whole);
    assert(text[point + 1] == digit_char(n / 10 % 10));
    assert(text[point + 2] == digit_char(n % 10));
}

proof fn lemma_place(text: Seq<char>, c: char, i: int, at: int)
    requires
        0 <= i <= at < text.len(),
        text[at] == c,
        forall|k: int| i <= k < at ==> #[trigger] text[k] != c,
    ensures
        place_of(text, c, i) == at,
    decreases at - i,
{
    if i < at {
        lemma_place(text, c, i + 1, at);
    }
}

/// What a dialog answers is understood: a filter's position in digits, a line
/// end and a path come back as that position and that path, whatever the path
/// holds; without a path there is no answer.
pub proof fn law_a_dialogs_answer_reads_back(filter: nat, path: Seq<char>)
    requires
        filter <= u32::MAX,
    ensures
        answer_of(decimal(filter) + seq!['\n'] + path) == if path.len() > 0 {
            Some((path, filter as int))
        } else {
            None
        },
        answer_of(seq!['\u{feff}'] + (decimal(filter) + seq!['\n'] + path)) == answer_of(
            decimal(filter) + seq!['\n'] + path,
        ),
{
    let digits = decimal(filter);
    lemma_decimal(filter);
    let text = digits + seq!['\n'] + path;
    let k = digits.len() as int;
    assert(is_digit(digits[0]));
    assert(text[0] == digits[0]);
    assert(text[0] != '\u{feff}' && digits[0] != '+');
    assert(after_marks(text) == text);
    assert forall|i: int| 0 <= i < k implies #[trigger] text[i] != '\n' by {
        assert(text[i] == digits[i]);
        assert(is_digit(digits[i]));
    }
    lemma_place(text, '\n', 0, k);
    assert(text.subrange(0, k) =~= digits);
    assert(text.subrange(k + 1, text.len() as int) =~= path);
    assert(all_digits(digits));
    assert(position_of(digits) == Some(filter as int));
    let marked = seq!['\u{feff}'] + text;
    assert(marked.subrange(1, marked.len() as int) =~= text);
    assert(after_marks(marked) == after_marks(text));
}

/// Two bytes at `i`, the low one first.
pub open spec fn unit_at(bytes: Seq<u8>, i: int) -> int {
    bytes[i] + 256 * bytes[i + 1]
}

/// The units of `units` stand in `bytes` from `at` on, with a zero behind them.
pub open spec fn units_at(bytes: Seq<u8>, at: int, units: Seq<u16>) -> bool {
    &&& 0 <= at && at + 2 * units.len() + 2 <= bytes.len()
    &&& forall|k: int| 0 <= k < units.len() ==> unit_at(bytes, at + 2 * k) == #[trigger] units[k]
    &&& unit_at(bytes, at + 2 * units.len()) == 0
}

proof fn lemma_unit_bytes(units: Seq<u16>, n: nat, k: int)
    requires
        0 <= k < n <= units.len(),
    ensures
        unit_bytes(units, n).len() == 2 * n,
        unit_at(unit_bytes(units, n), 2 * k) == units[k],
    decreases n,
{
    lemma_unit_bytes_len(units, (n - 1) as nat);
    let before = unit_bytes(units, (n - 1) as nat);
    let now = unit_bytes(units, n);
    if k < n - 1 {
        lemma_unit_bytes(units, (n - 1) as nat, k);
        assert(now[2 * k] == before[2 * k] && now[2 * k + 1] == before[2 * k + 1]);
    } else {
        assert(now[2 * k] == (units[k] % 256) as u8 && now[2 * k + 1] == (units[k] / 256) as u8);
    }
}

proof fn lemma_unit_bytes_len(units: Seq<u16>, n: nat)
    ensures
        unit_bytes(units, n).len() == 2 * n,
    decreases n,
{
    if n > 0 {
        lemma_unit_bytes_len(units, (n - 1) as nat);
    }
}

proof fn lemma_path_bytes(path: Seq<char>)
    ensures
        units_at(path_bytes(path), 0, wide_text(path, path.len())),
        path_bytes(path).len() == 2 * wide_text(path, path.len()).len() + 2,
{
    let units = wide_text(path, path.len());
    let n = units.len();
    let bytes = path_bytes(path);
    let plain = unit_bytes(units, n);
    lemma_unit_bytes_len(units, n);
    assert forall|k: int| 0 <= k < n implies unit_at(bytes, 2 * k) == #[trigger] units[k] by {
        lemma_unit_bytes(units, n, k);
        assert(bytes[2 * k] == plain[2 * k] && bytes[2 * k + 1] == plain[2 * k + 1]);
    }
    let end = 2 * n as int;
    assert(bytes[end] == 0 && bytes[end + 1] == 0);
}

proof fn lemma_units_moved(part: Seq<u8>, all: Seq<u8>, by: int, at: int, units: Seq<u16>)
    requires
        0 <= by,
        by + part.len() <= all.len(),
        forall|i: int| 0 <= i < part.len() ==> #[trigger] part[i] == all[by + i],
        units_at(part, at, units),
    ensures
        units_at(all, by + at, units),
{
    assert forall|k: int| 0 <= k < units.len() implies unit_at(all, by + at + 2 * k)
        == #[trigger] units[k] by {
        assert(part[at + 2 * k] == all[by + (at + 2 * k)]);
        assert(part[at + 2 * k + 1] == all[by + (at + 2 * k + 1)]);
    }
    let e = at + 2 * units.len();
    assert(part[e] == all[by + e] && part[e + 1] == all[by + (e + 1)]);
}

/// The list holds every path, in their order, one behind the other.
proof fn lemma_list(paths: Seq<Seq<char>>, n: nat) -> (at: Seq<int>)
    requires
        n <= paths.len(),
    ensures
        at.len() == n + 1,
        at[0] == 0,
        at[n as int] == list_bytes(paths, n).len(),
        forall|k: int| 0 <= k < n ==> listed_at(list_bytes(paths, n), at, paths, k),
    decreases n,
{
    if n == 0 {
        seq![0int]
    } else {
        let m = (n - 1) as nat;
        let before = lemma_list(paths, m);
        let (old_bytes, bytes) = (list_bytes(paths, m), list_bytes(paths, n));
        let at = before.push(bytes.len() as int);
        lemma_path_bytes(paths[m as int]);
        assert forall|k: int| 0 <= k < n implies listed_at(bytes, at, paths, k) by {
            if k < m {
                assert(listed_at(old_bytes, before, paths, k));
                lemma_units_moved(
                    old_bytes,
                    bytes,
                    0,
                    before[k],
                    wide_text(paths[k], paths[k].len()),
                );
                assert(at[k] == before[k] && at[k + 1] == before[k + 1]);
            } else {
                lemma_units_moved(
                    path_bytes(paths[k]),
                    bytes,
                    old_bytes.len() as int,
                    0,
                    wide_text(paths[k], paths[k].len()),
                );
            }
        }
        at
    }
}

/// Path `k` stands at its place, and the next one right behind it.
pub open spec fn listed_at(bytes: Seq<u8>, at: Seq<int>, paths: Seq<Seq<char>>, k: int) -> bool {
    let units = wide_text(paths[k], paths[k].len());
    units_at(bytes, at[k], units) && at[k + 1] == at[k] + 2 * units.len() + 2
}

/// The shell's block of dropped files says what it must: where its list
/// starts, that its characters are wide, then every path in their order, each
/// ended by a zero, and a zero that ends the list and the block. Read back,
/// every path is itself.
pub proof fn law_the_payload_lists_the_paths(paths: Seq<Seq<char>>) -> (at: Seq<int>)
    ensures
        ({
            let bytes = payload_of(paths);
            let n = paths.len();
            &&& unit_at(bytes, 0) == 20 && unit_at(bytes, 2) == 0
            &&& unit_at(bytes, 16) == 1 && unit_at(bytes, 18) == 0
            &&& forall|i: int| 4 <= i < 16 ==> #[trigger] bytes[i] == 0
            &&& at.len() == n + 1
            &&& at[0] == 20
            &&& forall|k: int| 0 <= k < n ==> #[trigger] listed_at(bytes, at, paths, k)
            &&& forall|k: int|
                0 <= k < n ==> text_from(wide_text(#[trigger] paths[k], paths[k].len()), 0)
                    == paths[k]
            &&& at[n as int] + 2 == bytes.len()
            &&& unit_at(bytes, at[n as int]) == 0
        }),
{
    let bytes = payload_of(paths);
    let n = paths.len();
    let list = list_bytes(paths, n);
    let inner = lemma_list(paths, n);
    let at = Seq::new(inner.len(), |k: int| inner[k] + 20);
    let head = header_bytes();
    assert(head.len() == 20);
    assert(bytes.len() == 20 + list.len() + 2);
    assert forall|k: int| 0 <= k < n implies #[trigger] listed_at(bytes, at, paths, k) by {
        assert(listed_at(list, inner, paths, k));
        lemma_units_moved(list, bytes, 20, inner[k], wide_text(paths[k], paths[k].len()));
        assert(at[k] == inner[k] + 20 && at[k + 1] == inner[k + 1] + 20);
    }
    assert forall|k: int| 0 <= k < n implies text_from(
        wide_text(#[trigger] paths[k], paths[k].len()),
        0,
    ) == paths[k] by {
        crate::dragout::law_wide_text_reads_back(paths[k]);
    }
    assert forall|i: int| 4 <= i < 16 implies #[trigger] bytes[i] == 0 by {
        assert(bytes[i] == head[i]);
    }
    assert(bytes[0] == head[0] && bytes[1] == head[1] && bytes[2] == head[2] && bytes[3] == head[3]);
    assert(bytes[16] == head[16] && bytes[17] == head[17]);
    assert(bytes[18] == head[18] && bytes[19] == head[19]);
    at
}

/// The letter's step with the numbers `a` and `b` (or `a` alone) from `at` goes
/// to `p`: capitals say where on the page, small letters how far from `at`, and
/// one number goes across for H and down for V.
pub open spec fn goes_to(letter: char, a: int, b: int, at: Xy, p: Xy) -> bool {
    let (x, y) = (p.x as int, p.y as int);
    ||| (letter == 'M' || letter == 'L') && x == a && y == b
    ||| letter == 'l' && x - at.x == a && y - at.y == b
    ||| letter == 'H' && x == a && y == at.y
    ||| letter == 'h' && x - at.x == a && y == at.y
    ||| letter == 'V' && x == at.x && y == a
    ||| letter == 'v' && x == at.x && y - at.y == a
}

/// A straight step is read as it is written: a letter with its numbers is one
/// step to where they say, a move for M and a line for any other; more numbers
/// repeat the letter, after a move as lines.
pub proof fn law_a_step_goes_where_it_says(
    tokens: Seq<Token>,
    i: int,
    before: char,
    letter: char,
    a: i64,
    b: i64,
    at: Xy,
    start: Xy,
    p: Xy,
)
    requires
        p.ok(),
        goes_to(letter, a as int, b as int, at, p),
        0 <= i,
        ({
            let two = letter == 'M' || letter == 'L' || letter == 'l';
            &&& tokens.len() > i + 1
            &&& tokens[i + 1] == Token::Number(a)
            &&& two ==> tokens.len() > i + 2 && tokens[i + 2] == Token::Number(b)
        }),
    ensures
        ({
            let two = letter == 'M' || letter == 'L' || letter == 'l';
            let next = if two {
                i + 3
            } else {
                i + 2
            };
            let (step, again, from) = if letter == 'M' {
                (Segment::Move(p), 'L', p)
            } else {
                (Segment::Line(p), letter, start)
            };
            let rest = steps_from(tokens, next, again, p, from);
            let whole = match rest {
                Some(steps) => Some(seq![step] + steps),
                None => None,
            };
            &&& tokens[i] == Token::Letter(letter) ==> steps_from(tokens, i, before, at, start)
                == whole
            &&& letter != 'M' ==> steps_from(tokens, i + 1, letter, at, start) == whole
        }),
{
}

/// A close goes back to where the subpath started, and takes no numbers.
pub proof fn law_a_close_goes_back(tokens: Seq<Token>, i: int, before: char, at: Xy, start: Xy)
    requires
        0 <= i < tokens.len(),
        tokens[i] == Token::Letter('Z') || tokens[i] == Token::Letter('z'),
    ensures
        steps_from(tokens, i, before, at, start) == match steps_from(
            tokens,
            i + 1,
            'Z',
            start,
            start,
        ) {
            Some(steps) => Some(seq![Segment::Close] + steps),
            None => None,
        },
        i + 1 < tokens.len() && tokens[i + 1] is Number ==> steps_from(tokens, i, before, at, start)
            is None,
{
}

/// The steps that draw the shown document: the deleted shapes go first, then
/// comes the simplification where one is on, with its tolerance and whose it
/// is, then the regular shapes as they are asked for, the nodes moved, the nodes
/// deleted, and the corners rounded where there are any; nothing comes twice.
pub proof fn law_the_passes_follow_the_settings(d: Derive)
    ensures
        ({
            let p = passes_of(d);
            let k: int = if d.simplify is Some {
                1
            } else {
                0
            };
            &&& p.len() == 4 + k + (if d.rounded@.len() > 0 {
                1int
            } else {
                0
            })
            &&& p[0] == Pass::WithoutShapes
            &&& d.simplify matches Some(tolerance) ==> p[1] == (Pass::Simplify {
                tolerance,
                by_hand: d.simplify_by_hand,
            })
            &&& p[1 + k] == (Pass::Regular {
                lines: d.regularize,
                straighten: d.straighten,
                shapes: d.primitives,
            })
            &&& p[2 + k] == Pass::MoveNodes
            &&& p[3 + k] == Pass::WithoutNodes
            &&& d.rounded@.len() > 0 ==> p[4 + k] == Pass::RoundCorners
        }),
{
}

/// The number that hexadecimal digits write, the highest first.
pub open spec fn hex_value(text: Seq<char>) -> int
    decreases text.len(),
{
    if text.len() == 0 {
        0
    } else {
        16 * hex_value(text.drop_last()) + (match hex_digit(text.last()) {
            Some(d) => d,
            None => 0,
        })
    }
}

/// A handle is written in hexadecimal digits that read back as its number, no
/// zero before them.
pub proof fn law_handles_read_back(n: nat)
    ensures
        hex(n).len() >= 1,
        hex_value(hex(n)) == n,
        n > 0 ==> hex_digit(hex(n)[0]) != Some(0int),
        forall|i: int| 0 <= i < hex(n).len() ==> hex_digit(#[trigger] hex(n)[i]) is Some,
    decreases n,
{
    let text = hex(n);
    if n < 16 {
        assert(text == seq![digit_char(n as int)]);
        lemma_digit_reads(n as int);
        assert(text.drop_last() =~= Seq::empty());
        assert(hex_value(text.drop_last()) == 0);
        assert(text.last() == digit_char(n as int));
    } else {
        let less = hex(n / 16);
        law_handles_read_back(n / 16);
        assert(text == less.push(digit_char((n % 16) as int)));
        lemma_digit_reads((n % 16) as int);
        assert(text.drop_last() =~= less);
        assert(text[0] == less[0]);
        assert forall|i: int| 0 <= i < text.len() implies hex_digit(#[trigger] text[i]) is Some by {
            if i < less.len() {
                assert(text[i] == less[i]);
            }
        }
    }
}

/// The line sets the switch of that name.
pub open spec fn says(line: Seq<char>, name: Seq<char>, on: bool) -> bool {
    split_line(line) matches Some((n, v)) && trimmed(n) == name && trimmed(v) == (if on {
        "on"@
    } else {
        "off"@
    })
}

/// A switch of this name stands as `on` after the lines: the last line that
/// sets it says so, or none does and it stood so before.
pub open spec fn stands(lines: Seq<Seq<char>>, name: Seq<char>, before: bool, on: bool) -> bool {
    ||| before == on && forall|j: int|
        0 <= j < lines.len() ==> !says(#[trigger] lines[j], name, true) && !says(
            lines[j],
            name,
            false,
        )
    ||| exists|i: int|
        0 <= i < lines.len() && says(#[trigger] lines[i], name, on) && forall|j: int|
            i < j < lines.len() ==> !says(#[trigger] lines[j], name, true) && !says(
                lines[j],
                name,
                false,
            )
}

proof fn lemma_stands(lines: Seq<Seq<char>>, name: Seq<char>, before: bool, middle: bool, on: bool)
    requires
        lines.len() > 0,
        "on"@ != "off"@,
        stands(lines.drop_first(), name, middle, on),
        middle == (if says(lines[0], name, true) {
            true
        } else if says(lines[0], name, false) {
            false
        } else {
            before
        }),
    ensures
        stands(lines, name, before, on),
{
    let rest = lines.drop_first();
    if exists|i: int|
        0 <= i < rest.len() && says(#[trigger] rest[i], name, on) && forall|j: int|
            i < j < rest.len() ==> !says(#[trigger] rest[j], name, true) && !says(
                rest[j],
                name,
                false,
            ) {
        let i = choose|i: int|
            0 <= i < rest.len() && says(#[trigger] rest[i], name, on) && forall|j: int|
                i < j < rest.len() ==> !says(#[trigger] rest[j], name, true) && !says(
                    rest[j],
                    name,
                    false,
                );
        assert(says(lines[i + 1], name, on));
        assert forall|j: int| i + 1 < j < lines.len() implies !says(#[trigger] lines[j], name, true)
            && !says(lines[j], name, false) by {
            assert(lines[j] == rest[j - 1]);
        }
    } else {
        assert forall|j: int| 0 < j < lines.len() implies !says(#[trigger] lines[j], name, true)
            && !says(lines[j], name, false) by {
            assert(lines[j] == rest[j - 1]);
        }
        if says(lines[0], name, true) || says(lines[0], name, false) {
            assert(says(lines[0], name, on));
        }
    }
}

/// Of several lines for one switch the last counts; lines that name no switch,
/// or say neither on nor off, change nothing.
pub proof fn law_the_last_line_of_a_switch_counts(lines: Seq<Seq<char>>, s: Switches)
    ensures
        stands(lines, "hold_compare"@, s.hold, switches_of(lines, s).hold),
        stands(lines, "auto_convert"@, s.auto, switches_of(lines, s).auto),
        stands(lines, "save_stacked"@, s.stacked, switches_of(lines, s).stacked),
    decreases lines.len(),
{
    if lines.len() > 0 {
        let next = switched(lines[0], s);
        law_the_last_line_of_a_switch_counts(lines.drop_first(), next);
        reveal_strlit("hold_compare");
        reveal_strlit("auto_convert");
        reveal_strlit("save_stacked");
        reveal_strlit("on");
        reveal_strlit("off");
        assert("hold_compare"@[0] == 'h' && "auto_convert"@[0] == 'a' && "save_stacked"@[0] == 's');
        assert("on"@.len() == 2 && "off"@.len() == 3);
        let all = switches_of(lines, s);
        lemma_stands(lines, "hold_compare"@, s.hold, next.hold, all.hold);
        lemma_stands(lines, "auto_convert"@, s.auto, next.auto, all.auto);
        lemma_stands(lines, "save_stacked"@, s.stacked, next.stacked, all.stacked);
    }
}

/// Trimmed text is what is left between the white space at its ends: what goes
/// is white, and neither end of what stays is.
pub proof fn law_trimming_takes_white_space_alone(text: Seq<char>) -> (cut: (int, int))
    ensures
        0 <= cut.0 <= cut.1 <= text.len(),
        trimmed(text) == text.subrange(cut.0, cut.1),
        forall|i: int| 0 <= i < cut.0 ==> white(#[trigger] text[i]),
        forall|i: int| cut.1 <= i < text.len() ==> white(#[trigger] text[i]),
        cut.0 < cut.1 ==> !white(text[cut.0]) && !white(text[cut.1 - 1]),
{
    let n = text.len() as int;
    let from = past_white(text, 0, n);
    lemma_past_white(text, 0, n);
    let to = before_white(text, from, n);
    lemma_before_white(text, from, n);
    (from, to)
}

proof fn lemma_past_white(text: Seq<char>, from: int, to: int)
    requires
        from <= to,
    ensures
        from <= past_white(text, from, to) <= to,
        forall|i: int| from <= i < past_white(text, from, to) ==> white(#[trigger] text[i]),
        past_white(text, from, to) < to ==> !white(text[past_white(text, from, to)]),
    decreases to - from,
{
    if from < to && white(text[from]) {
        lemma_past_white(text, from + 1, to);
    }
}

proof fn lemma_before_white(text: Seq<char>, from: int, to: int)
    requires
        from <= to,
    ensures
        from <= before_white(text, from, to) <= to,
        forall|i: int| before_white(text, from, to) <= i < to ==> white(#[trigger] text[i]),
        before_white(text, from, to) > from ==> !white(text[before_white(text, from, to) - 1]),
    decreases to - from,
{
    if from < to && white(text[to - 1]) {
        lemma_before_white(text, from, to - 1);
    }
}

/// A line ends at a line feed, with or without a carriage return before it, and
/// the lines behind it follow; the last needs none.
pub proof fn law_lines_end_at_line_feeds(line: Seq<char>, rest: Seq<char>)
    requires
        forall|i: int| 0 <= i < line.len() ==> #[trigger] line[i] != '\n',
        line.len() > 0 ==> line.last() != '\r',
    ensures
        lines_of(line + seq!['\n'] + rest) == seq![line] + lines_of(rest),
        lines_of(line + seq!['\r', '\n'] + rest) == seq![line] + lines_of(rest),
        line.len() > 0 ==> lines_of(line) == seq![line],
{
    let n = line.len() as int;
    let a = line + seq!['\n'] + rest;
    assert forall|i: int| 0 <= i < n implies #[trigger] a[i] != '\n' by {
        assert(a[i] == line[i]);
    }
    lemma_place(a, '\n', 0, n);
    assert(a.subrange(0, n) =~= line);
    assert(a.subrange(n + 1, a.len() as int) =~= rest);
    let b = line + seq!['\r', '\n'] + rest;
    assert forall|i: int| 0 <= i < n + 1 implies #[trigger] b[i] != '\n' by {
        if i < n {
            assert(b[i] == line[i]);
        }
    }
    lemma_place(b, '\n', 0, n + 1);
    let head = b.subrange(0, n + 1);
    assert(head.last() == '\r');
    assert(head.subrange(0, head.len() - 1) =~= line);
    assert(head.drop_last() =~= line);
    assert(b.subrange(n + 2, b.len() as int) =~= rest);
    if n > 0 {
        lemma_no_place(line, '\n', 0);
    }
}

proof fn lemma_no_place(text: Seq<char>, c: char, i: int)
    requires
        0 <= i <= text.len(),
        forall|k: int| i <= k < text.len() ==> #[trigger] text[k] != c,
    ensures
        place_of(text, c, i) == text.len(),
    decreases text.len() - i,
{
    if i < text.len() {
        lemma_no_place(text, c, i + 1);
    }
}

proof fn lemma_appearance_more(lines: Seq<Seq<char>>, line: Seq<char>, a: Appearance)
    ensures
        appearance_of(lines.push(line), a) == dressed(line, appearance_of(lines, a)),
    decreases lines.len(),
{
    let all = lines.push(line);
    if lines.len() == 0 {
        assert(all.drop_first() =~= Seq::empty());
        assert(appearance_of(all.drop_first(), dressed(line, a)) == dressed(line, a));
    } else {
        assert(all.drop_first() =~= lines.drop_first().push(line));
        lemma_appearance_more(lines.drop_first(), line, dressed(lines[0], a));
    }
}

proof fn lemma_licence_more(lines: Seq<Seq<char>>, line: Seq<char>, s: LicenceLines)
    ensures
        licence_of(lines.push(line), s) == licensed(line, licence_of(lines, s)),
    decreases lines.len(),
{
    let all = lines.push(line);
    if lines.len() == 0 {
        assert(all.drop_first() =~= Seq::empty());
        assert(licence_of(all.drop_first(), licensed(line, s)) == licensed(line, s));
    } else {
        assert(all.drop_first() =~= lines.drop_first().push(line));
        lemma_licence_more(lines.drop_first(), line, licensed(lines[0], s));
    }
}

/// A later line counts over those before it, for what it names alone: a theme
/// that is known, the answer to the licence's question, the key as it is
/// written, the certificate without white space around it. A line that names
/// none of them changes nothing.
pub proof fn law_a_later_line_counts(
    lines: Seq<Seq<char>>,
    line: Seq<char>,
    name: Seq<char>,
    value: Seq<char>,
    a: Appearance,
    s: LicenceLines,
)
    requires
        split_line(line) == Some((name, value)),
    ensures
        ({
            let (before, after) = (appearance_of(lines, a), appearance_of(lines.push(line), a));
            let (had, has) = (licence_of(lines, s), licence_of(lines.push(line), s));
            let theme = ThemeChoice::of_word(trimmed(value));
            &&& name == "theme"@ && theme is Some ==> after.theme == theme->0
            &&& name != "theme"@ || theme is None ==> after.theme == before.theme
            &&& name == "licence_use"@ ==> after.answer == LicenceUse::of_word(trimmed(value))
            &&& name != "licence_use"@ ==> after.answer == before.answer
            &&& name == "licence_key"@ ==> has.key == Some(value)
            &&& name != "licence_key"@ ==> has.key == had.key
            &&& name == "licence_certificate"@ ==> has.certificate == trimmed(value)
            &&& name != "licence_certificate"@ ==> has.certificate == had.certificate
        }),
{
    lemma_appearance_more(lines, line, a);
    lemma_licence_more(lines, line, s);
    reveal_strlit("theme");
    reveal_strlit("licence_use");
    reveal_strlit("licence_key");
    reveal_strlit("licence_certificate");
    assert("theme"@.len() == 5 && "licence_use"@.len() == 11 && "licence_certificate"@.len() == 19);
    assert("licence_use"@[8] == 'u' && "licence_key"@[8] == 'k');
}

} // verus!
