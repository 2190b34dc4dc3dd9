//! Runs of equal squares in an SVG document, drawn as one rectangle each that
//! a pattern fills.
use crate::dither::{
    lemma_rank, outlined, part_dropped, run_views, runs, runs_in, square, square_of, Run, RunView,
    Square,
};
use crate::geometry::{Segment, REACH};
use crate::lattice::squares_ok;
use crate::markup::{
    attribute, attribute_of, with_attribute, with_value, without, without_attribute,
};
use crate::path_data::{read_straight, straight_steps};
use crate::text::{
    ascii_white, chars_of, decimal, drop_white, find, first_at, is_ascii_white, lemma_first_at,
    number, part, push_decimal, push_number, push_part, same_text, skip_white, standing, stands_at,
    trimmed,
};
use vstd::prelude::*;

verus! {

/// The places among the first `n` of `d` where a subpath starts.
pub open spec fn starts(d: Seq<char>, n: nat) -> Seq<int>
    decreases n,
{
    if n == 0 {
        Seq::empty()
    } else if d[n - 1] == 'M' {
        starts(d, (n - 1) as nat).push(n - 1)
    } else {
        starts(d, (n - 1) as nat)
    }
}

/// The text of subpath `k`: from its start to the next, or to the end.
pub open spec fn chunk(d: Seq<char>, k: int) -> Seq<char> {
    let s = starts(d, d.len());
    d.subrange(
        s[k],
        if k + 1 < s.len() {
            s[k + 1]
        } else {
            d.len() as int
        },
    )
}

/// The steps of a subpath's text; none where it is no straight path.
pub open spec fn steps_of(text: Seq<char>) -> Seq<Segment> {
    match straight_steps(text) {
        Some(steps) => steps,
        None => Seq::empty(),
    }
}

/// The subpaths of path data.
pub open spec fn parts_of(d: Seq<char>) -> Seq<Seq<Segment>> {
    Seq::new(starts(d, d.len()).len(), |k: int| steps_of(chunk(d, k)))
}

/// The runs that path data draws.
pub open spec fn data_runs(d: Seq<char>) -> Seq<RunView> {
    runs_in(outlined(parts_of(d), parts_of(d).len()))
}

/// The text of the first `n` subpaths without those that a run draws.
pub open spec fn kept_text(d: Seq<char>, n: nat) -> Seq<char>
    decreases n,
{
    if n == 0 {
        Seq::empty()
    } else if part_dropped(parts_of(d), n - 1) {
        kept_text(d, (n - 1) as nat)
    } else {
        kept_text(d, (n - 1) as nat) + chunk(d, n - 1)
    }
}

/// How often `pattern` stands at one of the first `n` places of `text`.
pub open spec fn uses(text: Seq<char>, pattern: Seq<char>, n: nat) -> nat
    decreases n,
{
    if n == 0 {
        0
    } else {
        uses(text, pattern, (n - 1) as nat) + (if stands_at(text, pattern, n - 1) {
            1nat
        } else {
            0nat
        })
    }
}

/// How many patterns `defs` defines.
pub open spec fn pattern_count(defs: Seq<char>) -> nat {
    uses(defs, "<pattern "@, defs.len())
}

/// The name of pattern `n`.
pub open spec fn pattern_id(n: nat) -> Seq<char> {
    "vm-dither-"@ + decimal(n)
}

/// The outlines of the first `n` inked cells of a run's tile, from the
/// tile's corner.
pub open spec fn cells_data(run: RunView, n: nat) -> Seq<char>
    decreases n,
{
    if n == 0 {
        Seq::empty()
    } else {
        let (i, j) = run.inked[n - 1];
        let s = number(run.side);
        cells_data(run, (n - 1) as nat) + "M"@ + number(i * run.side) + " "@ + number(j * run.side)
            + "h"@ + s + "v"@ + s + "h-"@ + s + "z"@
    }
}

/// The definition of a run's pattern.
pub open spec fn pattern_text(id: Seq<char>, fill: Seq<char>, run: RunView) -> Seq<char> {
    "<pattern id=\""@ + id + "\" patternUnits=\"userSpaceOnUse\" x=\""@ + number(run.x)
        + "\" y=\""@ + number(run.y) + "\" width=\""@ + number(run.period.x * run.side)
        + "\" height=\""@ + number(run.period.y * run.side) + "\"><path fill=\""@ + fill
        + "\" d=\""@ + cells_data(run, run.inked.len()) + "\"/></pattern>\n"@
}

/// The outline of a run's rectangle.
pub open spec fn rect_data(run: RunView) -> Seq<char> {
    " M "@ + number(run.x) + " "@ + number(run.y) + " H "@ + number(run.x + run.width) + " V "@
        + number(run.y + run.height) + " H "@ + number(run.x) + " Z"@
}

/// The element that draws a run: `bare` with the pattern as its fill and the
/// rectangle as its outline.
pub open spec fn run_element(bare: Seq<char>, id: Seq<char>, run: RunView) -> Seq<char> {
    with_value(with_value(bare, "fill"@, "url(#"@ + id + ")"@), "d"@, rect_data(run))
}

/// `text` with a line end where one is missing before more text.
pub open spec fn line_ended(text: Seq<char>) -> Seq<char> {
    if text.len() > 0 && text.last() != '\n' {
        text.push('\n')
    } else {
        text
    }
}

/// The elements and definitions after the first `n` of `runs` were added to
/// `out` and `defs`.
pub open spec fn with_runs(
    runs: Seq<RunView>,
    n: nat,
    bare: Seq<char>,
    fill: Seq<char>,
    out: Seq<char>,
    defs: Seq<char>,
) -> (Seq<char>, Seq<char>)
    decreases n,
{
    if n == 0 {
        (out, defs)
    } else {
        let (o, d) = with_runs(runs, (n - 1) as nat, bare, fill, out, defs);
        let id = pattern_id(pattern_count(d));
        (
            line_ended(o) + run_element(bare, id, runs[n - 1]),
            d + pattern_text(id, fill, runs[n - 1]),
        )
    }
}

/// Whether a path's runs can be patterns: a plain colour, no outline, no
/// transform, and absolute subpath starts alone.
pub open spec fn plain(element: Seq<char>) -> bool {
    &&& attribute_of(element, "fill"@) matches Some(fill) && fill.len() > 0 && fill[0] == '#'
    &&& attribute_of(element, "stroke"@) matches Some(stroke) ==> trimmed(stroke) == "none"@
    &&& attribute_of(element, "transform"@) is None
    &&& attribute_of(element, "d"@) matches Some(d) && !d.contains('m') && d.contains('M')
}

/// What a path element becomes: its text without the runs and with them as
/// rectangles, and the definitions with their patterns. None when it has no
/// runs.
pub open spec fn patterned(element: Seq<char>, defs: Seq<char>) -> Option<
    (Seq<char>, Seq<char>),
> {
    let fill = attribute_of(element, "fill"@)->0;
    let d = attribute_of(element, "d"@)->0;
    let runs = data_runs(d);
    if !plain(element) || runs.len() == 0 {
        None
    } else {
        let kept = kept_text(d, parts_of(d).len());
        let first = starts(d, d.len())[0];
        let out = if trimmed(kept).len() == 0 {
            Seq::empty()
        } else {
            with_value(element, "d"@, d.subrange(0, first) + kept)
        };
        Some(with_runs(runs, runs.len(), without(element, "id"@), fill, out, defs))
    }
}

/// Whether a path element from `at` to `end` is whole: nothing else closes
/// before its end, and its name ends with it.
pub open spec fn whole(svg: Seq<char>, at: int, end: int) -> bool {
    &&& forall|i: int| at <= i < end ==> #[trigger] svg[i] != '>'
    &&& at + 5 < end + 2
    &&& ascii_white(svg[at + 5])
}

/// The document from `from` on with its runs as patterned rectangles, and the
/// definitions after it.
pub open spec fn document_from(svg: Seq<char>, from: int, defs: Seq<char>) -> (
    Seq<char>,
    Seq<char>,
)
    decreases svg.len() - from,
{
    let rest = (svg.subrange(from, svg.len() as int), defs);
    match first_at(svg, "<path"@, from) {
        None => rest,
        Some(at) => match first_at(svg, "/>"@, at) {
            None => rest,
            Some(end) => {
                proof {
                    lemma_first_at(svg, "<path"@, from, at);
                    lemma_first_at(svg, "/>"@, at, end);
                    reveal_strlit("/>");
                }
                let element = svg.subrange(at, end + 2);
                let (piece, more) = match patterned(element, defs) {
                    Some(found) if whole(svg, at, end) => found,
                    _ => (element, defs),
                };
                let (tail, all) = document_from(svg, end + 2, more);
                (svg.subrange(from, at) + piece + tail, all)
            },
        },
    }
}

/// The place after the first `svg` tag.
pub open spec fn after_tag(out: Seq<char>) -> Option<int> {
    match first_at(out, "<svg"@, 0) {
        None => None,
        Some(at) => match first_at(out, seq!['>'], at) {
            None => None,
            Some(end) => Some(end + 1),
        },
    }
}

/// `svg` with the runs of its paths as rectangles that patterns fill.
pub open spec fn patterned_document(svg: Seq<char>) -> Seq<char> {
    let (out, defs) = document_from(svg, 0, Seq::empty());
    if defs.len() == 0 {
        out
    } else {
        match after_tag(out) {
            None => svg,
            Some(close) => out.subrange(0, close) + ("\n<defs>\n"@ + defs + "</defs>"@)
                + out.subrange(close, out.len() as int),
        }
    }
}

fn starts_of(d: &[char]) -> (list: Vec<usize>)
    ensures
        list@.map_values(|i: usize| i as int) == starts(d@, d@.len()),
        forall|k: int| 0 <= k < list@.len() ==> (#[trigger] list@[k]) < d@.len(),
        forall|a: int, b: int| 0 <= a < b < list@.len() ==> list@[a] < list@[b],
        list@.len() > 0 <==> d@.contains('M'),
{
    let mut list: Vec<usize> = Vec::new();
    let mut n: usize = 0;
    assert(list@.map_values(|i: usize| i as int) =~= starts(d@, 0));
    while n < d.len()
        invariant
            n <= d@.len(),
            list@.map_values(|i: usize| i as int) == starts(d@, n as nat),
            forall|k: int| 0 <= k < list@.len() ==> (#[trigger] list@[k]) < n,
            forall|a: int, b: int| 0 <= a < b < list@.len() ==> list@[a] < list@[b],
            list@.len() > 0 ==> d@.contains('M'),
            list@.len() == 0 ==> forall|i: int| 0 <= i < n ==> #[trigger] d@[i] != 'M',
        decreases d@.len() - n,
    {
        if d[n] == 'M' {
            let ghost before = list@;
            list.push(n);
            assert(d@[n as int] == 'M');
            assert(list@.map_values(|i: usize| i as int) =~= starts(d@, (n + 1) as nat));
        } else {
            assert(starts(d@, (n + 1) as nat) == starts(d@, n as nat));
        }
        n = n + 1;
    }
    list
}

fn text_chunk<'a>(d: &'a [char], list: &Vec<usize>, k: usize) -> (text: &'a [char])
    requires
        list@.map_values(|i: usize| i as int) == starts(d@, d@.len()),
        forall|j: int| 0 <= j < list@.len() ==> (#[trigger] list@[j]) < d@.len(),
        forall|a: int, b: int| 0 <= a < b < list@.len() ==> list@[a] < list@[b],
        k < list@.len(),
    ensures
        text@ == chunk(d@, k as int),
{
    let ghost s = list@.map_values(|i: usize| i as int);
    let count: usize = list.len();
    let end: usize = if k + 1 < count {
        list[k + 1]
    } else {
        d.len()
    };
    assert(s[k as int] == list@[k as int]);
    assert(k + 1 < count ==> s[k + 1] == list@[k + 1]);
    vstd::slice::slice_subrange(d, list[k], end)
}

fn count_patterns(defs: &str) -> (n: u64)
    ensures
        n == pattern_count(defs@),
{
    let text = chars_of(defs);
    let pattern = chars_of("<pattern ");
    let mut n: u64 = 0;
    let mut i: usize = 0;
    while i < text.len()
        invariant
            i <= text@.len(),
            text@ == defs@,
            pattern@ == "<pattern "@,
            n == uses(text@, pattern@, i as nat),
            n <= i,
        decreases text@.len() - i,
    {
        let here = standing(text.as_slice(), pattern.as_slice(), i);
        if here {
            n = n + 1;
        }
        i = i + 1;
    }
    n
}

fn id_text(n: u64) -> (id: String)
    ensures
        id@ == pattern_id(n as nat),
{
    let mut id = "vm-dither-".to_owned();
    push_decimal(&mut id, n);
    id
}

proof fn lemma_cell_fits(run: Run, k: int)
    requires
        run.ok(),
        0 <= k < run.inked@.len(),
    ensures
        0 <= run.inked@[k].0 * run.side <= 4 * REACH,
        0 <= run.inked@[k].1 * run.side <= 4 * REACH,
{
    let (i, j) = (run.inked@[k].0 as int, run.inked@[k].1 as int);
    let (px, py, s) = (run.period.x as int, run.period.y as int, run.side as int);
    assert(0 <= i * s <= px * s && 2 * px * s == 2 * (px * s)) by (nonlinear_arith)
        requires
            0 <= i < px,
            s > 0,
    ;
    assert(0 <= j * s <= py * s && 2 * py * s == 2 * (py * s)) by (nonlinear_arith)
        requires
            0 <= j < py,
            s > 0,
    ;
}

fn cells_text(run: &Run) -> (cells: String)
    requires
        run.ok(),
    ensures
        cells@ == cells_data(run@, run@.inked.len()),
{
    let mut cells = String::new();
    let mut n: usize = 0;
    assert(cells@ =~= cells_data(run@, 0));
    while n < run.inked.len()
        invariant
            n <= run.inked@.len(),
            run.ok(),
            cells@ == cells_data(run@, n as nat),
        decreases run.inked@.len() - n,
    {
        let (i, j) = run.inked[n];
        proof {
            lemma_cell_fits(*run, n as int);
            let k = run.inked@[n as int];
            assert(k.0 < run.period.x && k.1 < run.period.y);
        }
        cells.append("M");
        push_number(&mut cells, i as i64 * run.side);
        cells.append(" ");
        push_number(&mut cells, j as i64 * run.side);
        cells.append("h");
        push_number(&mut cells, run.side);
        cells.append("v");
        push_number(&mut cells, run.side);
        cells.append("h-");
        push_number(&mut cells, run.side);
        cells.append("z");
        n = n + 1;
    }
    cells
}

fn definition(id: &str, fill: &[char], run: &Run) -> (text: String)
    requires
        run.ok(),
    ensures
        text@ == pattern_text(id@, fill@, run@),
{
    let (tile_w, tile_h) = run.tile();
    let cells = cells_text(run);
    let mut text = "<pattern id=\"".to_owned();
    text.append(id);
    text.append("\" patternUnits=\"userSpaceOnUse\" x=\"");
    push_number(&mut text, run.x);
    text.append("\" y=\"");
    push_number(&mut text, run.y);
    text.append("\" width=\"");
    push_number(&mut text, tile_w);
    text.append("\" height=\"");
    push_number(&mut text, tile_h);
    text.append("\"><path fill=\"");
    assert(fill@.subrange(0, fill@.len() as int) =~= fill@);
    push_part(&mut text, fill, 0, fill.len());
    text.append("\" d=\"");
    text.append(cells.as_str());
    text.append("\"/></pattern>\n");
    text
}

fn rect_text(run: &Run) -> (text: String)
    requires
        run.ok(),
    ensures
        text@ == rect_data(run@),
{
    let mut text = " M ".to_owned();
    push_number(&mut text, run.x);
    text.append(" ");
    push_number(&mut text, run.y);
    text.append(" H ");
    push_number(&mut text, run.x + run.width);
    text.append(" V ");
    push_number(&mut text, run.y + run.height);
    text.append(" H ");
    push_number(&mut text, run.x);
    text.append(" Z");
    text
}

fn painted(bare: &[char], id: &str, run: &Run) -> (text: String)
    requires
        run.ok(),
    ensures
        text@ == run_element(bare@, id@, run@),
{
    let mut url = "url(#".to_owned();
    url.append(id);
    url.append(")");
    proof {
        reveal_strlit("fill");
        reveal_strlit("d");
    }
    let fill = chars_of("fill");
    let filled = with_attribute(bare, fill.as_slice(), url.as_str());
    let d = chars_of("d");
    let filled = chars_of(filled.as_str());
    with_attribute(filled.as_slice(), d.as_slice(), rect_text(run).as_str())
}

fn end_line(text: &mut String)
    ensures
        final(text)@ == line_ended(old(text)@),
{
    let chars = chars_of(text.as_str());
    let n: usize = chars.len();
    if n > 0 && chars[n - 1] != '\n' {
        text.push('\n');
    }
}

fn has(text: &[char], c: char) -> (yes: bool)
    ensures
        yes == text@.contains(c),
{
    let mut i: usize = 0;
    while i < text.len()
        invariant
            i <= text@.len(),
            forall|j: int| 0 <= j < i ==> #[trigger] text@[j] != c,
        decreases text@.len() - i,
    {
        if text[i] == c {
            assert(text@[i as int] == c);
            return true;
        }
        i = i + 1;
    }
    false
}

fn is_none_word(text: &[char]) -> (yes: bool)
    ensures
        yes == (trimmed(text@) == "none"@),
{
    let from: usize = skip_white(text, 0, text.len());
    let to: usize = drop_white(text, from, text.len());
    same_text(text, from, to, "none")
}

/// The place of subpath `i` among the squares, if it is one.
pub open spec fn rank_of(parts: Seq<Seq<Segment>>, i: int) -> Option<usize> {
    if square_of(parts[i]) is Some {
        Some(outlined(parts, i as nat).len() as usize)
    } else {
        None
    }
}

/// `rank` holds the places of the first `n` subpaths among the squares.
pub open spec fn ranked(rank: Seq<Option<usize>>, parts: Seq<Seq<Segment>>, n: nat) -> bool {
    forall|i: int|
        0 <= i < n ==> #[trigger] rank[i] == rank_of(parts, i) && outlined(parts, i as nat).len()
            <= i
}

/// The squares that the subpaths of `d` outline, and for each subpath its
/// place among them.
fn squares_of(d: &[char], list: &Vec<usize>) -> (found: (Vec<Square>, Vec<Option<usize>>))
    requires
        list@.map_values(|i: usize| i as int) == starts(d@, d@.len()),
        forall|j: int| 0 <= j < list@.len() ==> (#[trigger] list@[j]) < d@.len(),
        forall|a: int, b: int| 0 <= a < b < list@.len() ==> list@[a] < list@[b],
    ensures
        found.0@ == outlined(parts_of(d@), parts_of(d@).len()),
        squares_ok(found.0@),
        found.1@.len() == list@.len(),
        ranked(found.1@, parts_of(d@), list@.len()),
{
    let mut squares: Vec<Square> = Vec::new();
    let mut rank: Vec<Option<usize>> = Vec::new();
    let ghost parts = parts_of(d@);
    let mut k: usize = 0;
    assert(parts.len() == list@.len()) by {
        assert(list@.map_values(|i: usize| i as int).len() == list@.len());
    }
    assert(squares@ =~= outlined(parts, 0));
    while k < list.len()
        invariant
            list@.map_values(|i: usize| i as int) == starts(d@, d@.len()),
            forall|j: int| 0 <= j < list@.len() ==> (#[trigger] list@[j]) < d@.len(),
            forall|a: int, b: int| 0 <= a < b < list@.len() ==> list@[a] < list@[b],
            parts == parts_of(d@),
            parts.len() == list@.len(),
            k <= list@.len(),
            squares@ == outlined(parts, k as nat),
            squares_ok(squares@),
            squares@.len() <= k,
            rank@.len() == k,
            ranked(rank@, parts, k as nat),
        decreases list@.len() - k,
    {
        let ghost before = rank@;
        let text = text_chunk(d, list, k);
        assert(parts[k as int] == steps_of(text@));
        let found = match read_straight(text) {
            Some(steps) => square(steps.as_slice()),
            None => {
                assert(parts[k as int].len() == 0);
                None
            },
        };
        assert(found == square_of(parts[k as int]));
        match found {
            Some(s) => {
                rank.push(Some(squares.len()));
                squares.push(s);
            },
            None => {
                rank.push(None);
            },
        }
        proof {
            assert forall|i: int| 0 <= i < k + 1 implies #[trigger] rank@[i] == rank_of(parts, i)
                && outlined(parts, i as nat).len() <= i by {
                if i < k {
                    assert(before[i] == rank_of(parts, i));
                }
            }
        }
        k = k + 1;
    }
    (squares, rank)
}

/// The text of the subpaths that no run draws.
fn kept_of(
    d: &[char],
    list: &Vec<usize>,
    rank: &Vec<Option<usize>>,
    covered: &Vec<bool>,
) -> (kept: String)
    requires
        list@.map_values(|i: usize| i as int) == starts(d@, d@.len()),
        forall|j: int| 0 <= j < list@.len() ==> (#[trigger] list@[j]) < d@.len(),
        forall|a: int, b: int| 0 <= a < b < list@.len() ==> list@[a] < list@[b],
        rank@.len() == list@.len(),
        ranked(rank@, parts_of(d@), list@.len()),
        covered@.len() == outlined(parts_of(d@), parts_of(d@).len()).len(),
        forall|i: int|
            0 <= i < covered@.len() ==> #[trigger] covered@[i] == crate::dither::covered_by_run(
                outlined(parts_of(d@), parts_of(d@).len()),
                i,
            ),
    ensures
        kept@ == kept_text(d@, parts_of(d@).len()),
{
    let mut kept = String::new();
    let ghost parts = parts_of(d@);
    let mut k: usize = 0;
    assert(parts.len() == list@.len()) by {
        assert(list@.map_values(|i: usize| i as int).len() == list@.len());
    }
    assert(kept@ =~= kept_text(d@, 0));
    while k < list.len()
        invariant
            list@.map_values(|i: usize| i as int) == starts(d@, d@.len()),
            forall|j: int| 0 <= j < list@.len() ==> (#[trigger] list@[j]) < d@.len(),
            forall|a: int, b: int| 0 <= a < b < list@.len() ==> list@[a] < list@[b],
            parts == parts_of(d@),
            parts.len() == list@.len(),
            k <= list@.len(),
            rank@.len() == list@.len(),
            ranked(rank@, parts, list@.len()),
            covered@.len() == outlined(parts, parts.len()).len(),
            forall|i: int|
                0 <= i < covered@.len() ==> #[trigger] covered@[i] == crate::dither::covered_by_run(
                    outlined(parts, parts.len()),
                    i,
                ),
            kept@ == kept_text(d@, k as nat),
        decreases list@.len() - k,
    {
        let dropped = match rank[k] {
            Some(i) => {
                proof {
                    lemma_rank(parts, k as int);
                }
                covered[i]
            },
            None => false,
        };
        assert(dropped == part_dropped(parts, k as int));
        if !dropped {
            let text = text_chunk(d, list, k);
            assert(text@.subrange(0, text@.len() as int) =~= text@);
            push_part(&mut kept, text, 0, text.len());
        }
        k = k + 1;
    }
    kept
}

fn blank(text: &str) -> (yes: bool)
    ensures
        yes == (trimmed(text@).len() == 0),
{
    let chars = chars_of(text);
    let from: usize = skip_white(chars.as_slice(), 0, chars.len());
    drop_white(chars.as_slice(), from, chars.len()) == from
}

/// `element` (one self-closing `path`) with its runs taken out and drawn
/// after it as rectangles filled with patterns, whose definitions go to
/// `defs`; `None` when it has none.
#[verifier::spinoff_prover]
#[verifier::rlimit(60)]
pub fn patterned_path(element: &[char], defs: &mut String) -> (found: Option<String>)
    ensures
        match found {
            Some(text) => patterned(element@, old(defs)@) == Some((text@, final(defs)@)),
            None => patterned(element@, old(defs)@) is None && *final(defs) == *old(defs),
        },
{
    proof {
        reveal_strlit("fill");
        reveal_strlit("stroke");
        reveal_strlit("transform");
        reveal_strlit("d");
        reveal_strlit("id");
    }
    let fill = match attribute(element, chars_of("fill").as_slice()) {
        Some(fill) => fill,
        None => {
            return None;
        },
    };
    let d = match attribute(element, chars_of("d").as_slice()) {
        Some(d) => d,
        None => {
            return None;
        },
    };
    let outlined_too = match attribute(element, chars_of("stroke").as_slice()) {
        Some(stroke) => !is_none_word(stroke),
        None => false,
    };
    let turned = match attribute(element, chars_of("transform").as_slice()) {
        Some(_) => true,
        None => false,
    };
    if fill.len() == 0 || fill[0] != '#' || outlined_too || turned || has(d, 'm') {
        return None;
    }
    let list = starts_of(d);
    if list.len() == 0 {
        return None;
    }
    assert(list@.map_values(|i: usize| i as int)[0] == list@[0]);
    let (squares, rank) = squares_of(d, &list);
    let (found, covered) = runs(squares.as_slice());
    let ghost views = run_views(found@);
    assert(plain(element@));
    assert(views == data_runs(d@));
    if found.len() == 0 {
        return None;
    }
    let kept = kept_of(d, &list, &rank, &covered);
    let mut out = String::new();
    if !blank(kept.as_str()) {
        let mut data = part(d, 0, list[0]);
        data.append(kept.as_str());
        out = with_attribute(element, chars_of("d").as_slice(), data.as_str());
    }
    let ghost out0 = out@;
    let bare = without_attribute(element, chars_of("id").as_slice());
    let bare = chars_of(bare.as_str());
    let mut k: usize = 0;
    while k < found.len()
        invariant
            k <= found@.len(),
            views == run_views(found@),
            forall|j: int| 0 <= j < found@.len() ==> (#[trigger] found@[j]).ok(),
            (out@, defs@) == with_runs(views, k as nat, bare@, fill@, out0, old(defs)@),
        decreases found@.len() - k,
    {
        let run = &found[k];
        assert(views[k as int] == run@);
        let id = id_text(count_patterns(defs.as_str()));
        let definition = definition(id.as_str(), fill, run);
        defs.append(definition.as_str());
        end_line(&mut out);
        let drawn = painted(bare.as_slice(), id.as_str(), run);
        out.append(drawn.as_str());
        k = k + 1;
    }
    assert(bare@ == without(element@, "id"@));
    assert(out0 =~= (if trimmed(kept_text(d@, parts_of(d@).len())).len() == 0 {
        Seq::empty()
    } else {
        with_value(
            element@,
            "d"@,
            d@.subrange(0, starts(d@, d@.len())[0]) + kept_text(d@, parts_of(d@).len()),
        )
    }));
    Some(out)
}

fn is_whole(svg: &[char], at: usize, end: usize) -> (yes: bool)
    requires
        at <= end,
        end + 2 <= svg@.len(),
    ensures
        yes == whole(svg@, at as int, end as int),
{
    let len: usize = svg.len();
    let mut i: usize = at;
    while i < end
        invariant
            at <= i <= end,
            end + 2 <= svg@.len(),
            forall|j: int| at <= j < i ==> #[trigger] svg@[j] != '>',
        decreases end - i,
    {
        if svg[i] == '>' {
            assert(svg@[i as int] == '>');
            return false;
        }
        i = i + 1;
    }
    end - at > 3 && is_ascii_white(svg[at + 5])
}

/// `svg` with the runs of its paths as rectangles that patterns fill.
pub fn patterned_svg(svg: &str) -> (out: String)
    ensures
        out@ == patterned_document(svg@),
{
    let text = chars_of(svg);
    let len: usize = text.len();
    let path = chars_of("<path");
    let close = chars_of("/>");
    let mut out = String::new();
    let mut defs = String::new();
    let mut from: usize = 0;
    let ghost all = document_from(text@, 0, Seq::empty());
    proof {
        reveal_strlit("/>");
        assert(defs@ =~= Seq::<char>::empty());
        assert(out@ + document_from(text@, 0, defs@).0 =~= document_from(text@, 0, defs@).0);
    }
    loop
        invariant
            len == text@.len(),
            from <= len,
            path@ == "<path"@,
            close@ == "/>"@,
            close@.len() == 2,
            all.0 == out@ + document_from(text@, from as int, defs@).0,
            all.1 == document_from(text@, from as int, defs@).1,
        ensures
            from <= len,
            all.0 == out@ + text@.subrange(from as int, len as int),
            all.1 == defs@,
        decreases len - from,
    {
        let at: usize = match find(text.as_slice(), path.as_slice(), from) {
            Some(at) => at,
            None => {
                break;
            },
        };
        let end: usize = match find(text.as_slice(), close.as_slice(), at) {
            Some(end) => end,
            None => {
                break;
            },
        };
        let ghost (out0, defs0) = (out@, defs@);
        let element = vstd::slice::slice_subrange(text.as_slice(), at, end + 2);
        push_part(&mut out, text.as_slice(), from, at);
        let found = if is_whole(text.as_slice(), at, end) {
            patterned_path(element, &mut defs)
        } else {
            None
        };
        match found {
            Some(piece) => {
                out.append(piece.as_str());
            },
            None => {
                push_part(&mut out, text.as_slice(), at, end + 2);
            },
        }
        proof {
            let tail = document_from(text@, end + 2, defs@).0;
            let piece = out@.subrange(
                (out0 + text@.subrange(from as int, at as int)).len() as int,
                out@.len() as int,
            );
            let lead = text@.subrange(from as int, at as int);
            assert(out@ =~= out0 + lead + piece);
            assert(found matches Some(p) ==> piece =~= p@);
            assert(found is None ==> piece =~= element@);
            assert(out0 + (lead + piece + tail) =~= out@ + tail);
        }
        from = end + 2;
    }
    push_part(&mut out, text.as_slice(), from, len);
    assert(out@ == all.0);
    let done = chars_of(out.as_str());
    if defs.as_str().is_empty() {
        assert(defs@.len() == 0);
        return out;
    }
    assert(defs@.len() > 0);
    let tag = chars_of("<svg");
    let mut bracket: Vec<char> = Vec::new();
    bracket.push('>');
    assert(bracket@ =~= seq!['>']);
    let size: usize = done.len();
    let mut cut: Option<usize> = None;
    if let Some(at) = find(done.as_slice(), tag.as_slice(), 0) {
        if let Some(end) = find(done.as_slice(), bracket.as_slice(), at) {
            cut = Some(end + 1);
        }
    }
    match cut {
        None => svg.to_owned(),
        Some(cut) => {
            let mut document = part(done.as_slice(), 0, cut);
            let mut block = "\n<defs>\n".to_owned();
            block.append(defs.as_str());
            block.append("</defs>");
            document.append(block.as_str());
            push_part(&mut document, done.as_slice(), cut, size);
            document
        },
    }
}

/// A document whose squares repeat nothing is left as it is: where no path
/// has a run, nothing is written anew.
pub proof fn law_documents_without_runs_stay(svg: Seq<char>)
    requires
        document_from(svg, 0, Seq::empty()).1.len() == 0,
    ensures
        patterned_document(svg) == svg,
{
    lemma_same_tail(svg, 0);
    assert(svg.subrange(0, svg.len() as int) =~= svg);
}

proof fn lemma_same_tail(svg: Seq<char>, from: int)
    requires
        0 <= from <= svg.len(),
        document_from(svg, from, Seq::empty()).1.len() == 0,
    ensures
        document_from(svg, from, Seq::empty()).0 == svg.subrange(from, svg.len() as int),
    decreases svg.len() - from,
{
    if let Some(at) = first_at(svg, "<path"@, from) {
        if let Some(end) = first_at(svg, "/>"@, at) {
            lemma_first_at(svg, "<path"@, from, at);
            lemma_first_at(svg, "/>"@, at, end);
            reveal_strlit("/>");
            let element = svg.subrange(at, end + 2);
            if whole(svg, at, end) {
                if let Some(found) = patterned(element, Seq::empty()) {
                    lemma_some_defs(element, Seq::empty());
                    lemma_defs_grow(svg, end + 2, found.1);
                }
            }
            lemma_same_tail(svg, end + 2);
            assert(svg.subrange(from, at) + element + svg.subrange(end + 2, svg.len() as int)
                =~= svg.subrange(from, svg.len() as int));
        }
    }
}

/// A path with runs adds to the definitions.
proof fn lemma_some_defs(element: Seq<char>, defs: Seq<char>)
    requires
        patterned(element, defs) is Some,
    ensures
        patterned(element, defs) matches Some((_, more)) && more.len() > defs.len(),
{
    let fill = attribute_of(element, "fill"@)->0;
    let d = attribute_of(element, "d"@)->0;
    let runs = data_runs(d);
    let kept = kept_text(d, parts_of(d).len());
    let first = starts(d, d.len())[0];
    let out = if trimmed(kept).len() == 0 {
        Seq::empty()
    } else {
        with_value(element, "d"@, d.subrange(0, first) + kept)
    };
    lemma_with_runs_grow(runs, runs.len(), without(element, "id"@), fill, out, defs);
}

proof fn lemma_with_runs_grow(
    runs: Seq<RunView>,
    n: nat,
    bare: Seq<char>,
    fill: Seq<char>,
    out: Seq<char>,
    defs: Seq<char>,
)
    ensures
        with_runs(runs, n, bare, fill, out, defs).1.len() >= defs.len() + n,
    decreases n,
{
    if n > 0 {
        lemma_with_runs_grow(runs, (n - 1) as nat, bare, fill, out, defs);
        let (o, d) = with_runs(runs, (n - 1) as nat, bare, fill, out, defs);
        let id = pattern_id(pattern_count(d));
        reveal_strlit("<pattern id=\"");
        assert(pattern_text(id, fill, runs[n - 1]).len() >= 1);
    }
}

proof fn lemma_defs_grow(svg: Seq<char>, from: int, defs: Seq<char>)
    requires
        0 <= from <= svg.len(),
    ensures
        document_from(svg, from, defs).1.len() >= defs.len(),
    decreases svg.len() - from,
{
    if let Some(at) = first_at(svg, "<path"@, from) {
        if let Some(end) = first_at(svg, "/>"@, at) {
            lemma_first_at(svg, "<path"@, from, at);
            lemma_first_at(svg, "/>"@, at, end);
            reveal_strlit("/>");
            let element = svg.subrange(at, end + 2);
            if whole(svg, at, end) {
                if let Some(found) = patterned(element, defs) {
                    lemma_some_defs(element, defs);
                    lemma_defs_grow(svg, end + 2, found.1);
                } else {
                    lemma_defs_grow(svg, end + 2, defs);
                }
            } else {
                lemma_defs_grow(svg, end + 2, defs);
            }
        }
    }
}

} // verus!
