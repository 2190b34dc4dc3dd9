//! The patterns of a document: every run has one of its own, and its rectangle
//! is filled with it.
use crate::dither::RunView;
use crate::markup::{attribute_of, with_value, without};
use crate::path_data::lemma_decimal;
use crate::pattern::{
    data_runs, document_from, kept_text, line_ended, parts_of, pattern_count, pattern_id,
    pattern_text, patterned, patterned_document, plain, run_element, starts, uses, whole, with_runs,
};
use crate::text::{decimal, first_at, lemma_first_at, stands_at, trimmed};
use crate::values::lemma_first_some;
use vstd::prelude::*;

verus! {

/// A run of a path that a document draws: the path's element, which of its
/// runs, the name of its pattern, and where its rectangle stands.
#[verifier::ext_equal]
pub struct Entry {
    pub element: Seq<char>,
    pub k: int,
    pub id: Seq<char>,
    pub at: int,
}

impl Entry {
    /// The run that is drawn.
    pub open spec fn run(self) -> RunView {
        data_runs(attribute_of(self.element, "d"@)->0)[self.k]
    }

    /// The fill of its path.
    pub open spec fn fill(self) -> Seq<char> {
        attribute_of(self.element, "fill"@)->0
    }

    /// It is a run of a plainly filled path.
    #[verifier::opaque]
    pub open spec fn is_run(self) -> bool {
        &&& plain(self.element)
        &&& 0 <= self.k < data_runs(attribute_of(self.element, "d"@)->0).len()
    }

    /// The definition of its pattern.
    #[verifier::opaque]
    pub open spec fn definition(self) -> Seq<char> {
        pattern_text(self.id, self.fill(), self.run())
    }

    /// Its rectangle stands in `out`, filled with its pattern.
    #[verifier::opaque]
    pub open spec fn drawn_in(self, out: Seq<char>) -> bool {
        stands_at(out, run_element(without(self.element, "id"@), self.id, self.run()), self.at)
    }
}

/// The definitions of the patterns of `list`, one behind the other.
pub open spec fn definitions(list: Seq<Entry>) -> Seq<char>
    decreases list.len(),
{
    if list.len() == 0 {
        Seq::empty()
    } else {
        definitions(list.drop_last()) + list.last().definition()
    }
}

/// `part` is a part of `text`.
pub open spec fn stands_in(text: Seq<char>, part: Seq<char>) -> bool {
    exists|at: int| #[trigger] stands_at(text, part, at)
}

/// No two patterns have one name.
pub open spec fn named_apart(list: Seq<Entry>) -> bool {
    forall|a: int, b: int|
        0 <= a < b < list.len() ==> (#[trigger] list[a]).id != (#[trigger] list[b]).id
}

/// The names are numbered from `low` on, below `high`.
spec fn numbered(list: Seq<Entry>, low: nat, high: nat) -> bool {
    forall|a: int| 0 <= a < list.len() ==> numbered_one(#[trigger] list[a], low, high)
}

spec fn numbered_one(e: Entry, low: nat, high: nat) -> bool {
    exists|c: nat| low <= c < high && e.id == #[trigger] pattern_id(c)
}

proof fn lemma_ids_apart(a: nat, b: nat)
    requires
        pattern_id(a) == pattern_id(b),
    ensures
        a == b,
{
    lemma_decimal(a);
    lemma_decimal(b);
    let lead = "vm-dither-"@;
    let (x, y) = (lead + decimal(a), lead + decimal(b));
    assert(x.subrange(lead.len() as int, x.len() as int) =~= decimal(a));
    assert(y.subrange(lead.len() as int, y.len() as int) =~= decimal(b));
}

proof fn lemma_uses_grow(text: Seq<char>, more: Seq<char>, pattern: Seq<char>, n: nat)
    requires
        n <= text.len(),
    ensures
        uses(text, pattern, n) <= uses(text + more, pattern, n),
    decreases n,
{
    if n > 0 {
        lemma_uses_grow(text, more, pattern, (n - 1) as nat);
        if stands_at(text, pattern, n - 1) {
            assert forall|i: int| 0 <= i < pattern.len() implies (text + more)[n - 1 + i]
                == #[trigger] pattern[i] by {
                assert(text[n - 1 + i] == pattern[i]);
            }
            assert(stands_at(text + more, pattern, n - 1));
        }
    }
}

proof fn lemma_uses_more(text: Seq<char>, pattern: Seq<char>, m: nat, n: nat)
    requires
        m <= n,
    ensures
        uses(text, pattern, m) <= uses(text, pattern, n),
    decreases n,
{
    if m < n {
        lemma_uses_more(text, pattern, m, (n - 1) as nat);
    }
}

/// A definition adds a pattern.
proof fn lemma_definition_counts(defs: Seq<char>, id: Seq<char>, fill: Seq<char>, run: RunView)
    ensures
        pattern_count(defs) < pattern_count(defs + pattern_text(id, fill, run)),
{
    let more = pattern_text(id, fill, run);
    let all = defs + more;
    let pattern = "<pattern "@;
    reveal_strlit("<pattern ");
    reveal_strlit("<pattern id=\"");
    assert(more.len() >= 13);
    assert forall|i: int| 0 <= i < pattern.len() implies all[defs.len() + i]
        == #[trigger] pattern[i] by {
        assert(all[defs.len() + i] == more[i]);
        assert(more[i] == "<pattern id=\""@[i]);
    }
    assert(stands_at(all, pattern, defs.len() as int));
    lemma_uses_grow(defs, more, pattern, defs.len());
    lemma_uses_more(all, pattern, defs.len() + 1, all.len());
}

/// What is true of the runs drawn of `list` when they took the text from
/// `start` to `out` and the definitions from `defs` to `all`.
spec fn ledger(
    list: Seq<Entry>,
    start: int,
    out: Seq<char>,
    defs: Seq<char>,
    all: Seq<char>,
) -> bool {
    &&& all == defs + definitions(list)
    &&& pattern_count(defs) <= pattern_count(all)
    &&& numbered(list, pattern_count(defs), pattern_count(all))
    &&& named_apart(list)
    &&& forall|a: int|
        0 <= a < list.len() ==> (#[trigger] list[a]).is_run() && list[a].drawn_in(out)
            && list[a].at >= start
    &&& forall|a: int, b: int|
        0 <= a < b < list.len() ==> (#[trigger] list[a]).at < (#[trigger] list[b]).at
}

proof fn lemma_drawn_longer(e: Entry, out: Seq<char>, more: Seq<char>)
    requires
        e.drawn_in(out),
    ensures
        e.drawn_in(out + more),
{
    reveal(Entry::drawn_in);
    let text = run_element(without(e.element, "id"@), e.id, e.run());
    assert forall|i: int| 0 <= i < text.len() implies (out + more)[e.at + i]
        == #[trigger] text[i] by {
        assert(out[e.at + i] == text[i]);
    }
}

/// One run more.
proof fn lemma_ledger_push(
    before: Seq<Entry>,
    e: Entry,
    start: int,
    o: Seq<char>,
    tail: Seq<char>,
    defs: Seq<char>,
    d: Seq<char>,
)
    requires
        start <= o.len(),
        ledger(before, start, o, defs, d),
        forall|a: int| 0 <= a < before.len() ==> (#[trigger] before[a]).at < o.len(),
        e.is_run(),
        e.drawn_in(o + tail),
        e.at >= o.len(),
        e.id == pattern_id(pattern_count(d)),
        pattern_count(d) < pattern_count(d + e.definition()),
    ensures
        ledger(before.push(e), start, o + tail, defs, d + e.definition()),
{
    let list = before.push(e);
    let m = before.len();
    let (oo, dd) = (o + tail, d + e.definition());
    assert(list.drop_last() =~= before);
    assert(dd =~= defs + definitions(list));
    assert forall|a: int| 0 <= a < list.len() implies (#[trigger] list[a]).is_run()
        && list[a].drawn_in(oo) && list[a].at >= start by {
        if a < m {
            assert(list[a] == before[a]);
            lemma_drawn_longer(before[a], o, tail);
        }
    }
    assert forall|a: int, b: int| 0 <= a < b < list.len() implies (#[trigger] list[a]).at < (
    #[trigger] list[b]).at by {
        assert(list[a] == before[a]);
        if b < m {
            assert(list[b] == before[b]);
        }
    }
    assert forall|a: int| 0 <= a < list.len() implies numbered_one(
        #[trigger] list[a],
        pattern_count(defs),
        pattern_count(dd),
    ) by {
        if a < m {
            assert(list[a] == before[a]);
            assert(numbered_one(before[a], pattern_count(defs), pattern_count(d)));
            let c = choose|c: nat|
                pattern_count(defs) <= c < pattern_count(d) && before[a].id
                    == #[trigger] pattern_id(c);
            assert(list[a].id == pattern_id(c));
        } else {
            assert(list[a].id == pattern_id(pattern_count(d)));
        }
    }
    assert forall|a: int, b: int| 0 <= a < b < list.len() implies (#[trigger] list[a]).id != (
    #[trigger] list[b]).id by {
        assert(list[a] == before[a]);
        if b < m {
            assert(list[b] == before[b]);
        } else {
            assert(numbered_one(before[a], pattern_count(defs), pattern_count(d)));
            let c = choose|c: nat|
                pattern_count(defs) <= c < pattern_count(d) && before[a].id
                    == #[trigger] pattern_id(c);
            if list[a].id == list[b].id {
                lemma_ids_apart(c, pattern_count(d));
            }
        }
    }
}

proof fn lemma_runs_ledger(
    element: Seq<char>,
    n: nat,
    out: Seq<char>,
    defs: Seq<char>,
) -> (list: Seq<Entry>)
    requires
        plain(element),
        n <= data_runs(attribute_of(element, "d"@)->0).len(),
        without(element, "id"@).len() > 0,
    ensures
        ({
            let runs = data_runs(attribute_of(element, "d"@)->0);
            let bare = without(element, "id"@);
            let fill = attribute_of(element, "fill"@)->0;
            let (o, d) = with_runs(runs, n, bare, fill, out, defs);
            &&& ledger(list, out.len() as int, o, defs, d)
            &&& list.len() == n
            &&& forall|a: int|
                0 <= a < n ==> (#[trigger] list[a]).element == element && list[a].k == a
            &&& out.len() <= o.len()
            &&& forall|a: int| 0 <= a < n ==> (#[trigger] list[a]).at < o.len()
        }),
    decreases n,
{
    let runs = data_runs(attribute_of(element, "d"@)->0);
    let bare = without(element, "id"@);
    let fill = attribute_of(element, "fill"@)->0;
    if n == 0 {
        assert(defs =~= defs + definitions(Seq::empty()));
        Seq::empty()
    } else {
        let m = (n - 1) as nat;
        let before = lemma_runs_ledger(element, m, out, defs);
        let (o, d) = with_runs(runs, m, bare, fill, out, defs);
        let id = pattern_id(pattern_count(d));
        let run = runs[n - 1];
        let ended = line_ended(o);
        let text = run_element(bare, id, run);
        let (oo, dd) = (ended + text, d + pattern_text(id, fill, run));
        let e = Entry { element, k: n - 1, id, at: ended.len() as int };
        let list = before.push(e);
        lemma_definition_counts(d, id, fill, run);
        lemma_element_some(bare, id, run);
        assert(e.definition() == pattern_text(id, fill, run)) by {
            reveal(Entry::definition);
        }
        assert(e.is_run()) by {
            reveal(Entry::is_run);
        }
        let tail = if ended == o {
            text
        } else {
            seq!['\n'] + text
        };
        assert(oo =~= o + tail);
        assert(e.drawn_in(oo)) by {
            reveal(Entry::drawn_in);
            assert forall|i: int| 0 <= i < text.len() implies oo[e.at + i]
                == #[trigger] text[i] by {}
        }
        lemma_ledger_push(before, e, out.len() as int, o, tail, defs, d);
        list
    }
}

/// An element that was not empty is not empty with its runs drawn.
proof fn lemma_element_some(bare: Seq<char>, id: Seq<char>, run: RunView)
    requires
        bare.len() > 0,
    ensures
        run_element(bare, id, run).len() > 0,
{
    let url = "url(#"@ + id + ")"@;
    let rect = crate::pattern::rect_data(run);
    reveal_strlit("fill");
    reveal_strlit("d");
    crate::markup::law_a_written_value_reads_back(bare, "fill"@, url);
    let filled = with_value(bare, "fill"@, url);
    assert(filled.len() > 0);
    crate::markup::law_a_written_value_reads_back(filled, "d"@, rect);
}

/// A path's runs are drawn each by one rectangle and one pattern of its own.
/// `list` has an entry for every run of the path, in their order. The
/// definitions get the runs' patterns behind what was there, with the fill of
/// the path, under names that no two share and none has that was there
/// before. The rectangles stand in the new text in the same order, filled each
/// with its pattern.
pub proof fn law_a_paths_runs_have_patterns_of_their_own(
    element: Seq<char>,
    defs: Seq<char>,
) -> (list: Seq<Entry>)
    requires
        patterned(element, defs) is Some,
        without(element, "id"@).len() > 0,
    ensures
        ({
            let (text, all) = patterned(element, defs)->0;
            let runs = data_runs(attribute_of(element, "d"@)->0);
            &&& list.len() == runs.len() > 0
            &&& all == defs + definitions(list)
            &&& named_apart(list)
            &&& forall|a: int|
                0 <= a < list.len() ==> {
                    &&& (#[trigger] list[a]).element == element
                    &&& list[a].k == a
                    &&& list[a].drawn_in(text)
                }
            &&& forall|a: int, b: int|
                0 <= a < b < list.len() ==> (#[trigger] list[a]).at < (#[trigger] list[b]).at
            &&& forall|a: int, c: nat|
                0 <= a < list.len() && c < pattern_count(defs) ==> (#[trigger] list[a]).id
                    != #[trigger] pattern_id(c)
        }),
{
    let d = attribute_of(element, "d"@)->0;
    let runs = data_runs(d);
    let kept = kept_text(d, parts_of(d).len());
    let first = starts(d, d.len())[0];
    let out = if trimmed(kept).len() == 0 {
        Seq::empty()
    } else {
        with_value(element, "d"@, d.subrange(0, first) + kept)
    };
    let list = lemma_runs_ledger(element, runs.len(), out, defs);
    let (text, all) = patterned(element, defs)->0;
    assert forall|a: int, c: nat| 0 <= a < list.len() && c < pattern_count(defs) implies (
    #[trigger] list[a]).id != #[trigger] pattern_id(c) by {
        assert(numbered_one(list[a], pattern_count(defs), pattern_count(all)));
        let m = choose|m: nat|
            pattern_count(defs) <= m < pattern_count(all) && list[a].id == #[trigger] pattern_id(m);
        if list[a].id == pattern_id(c) {
            lemma_ids_apart(m, c);
        }
    }
    list
}

proof fn lemma_definitions_join(a: Seq<Entry>, b: Seq<Entry>)
    ensures
        definitions(a + b) == definitions(a) + definitions(b),
    decreases b.len(),
{
    if b.len() == 0 {
        assert(a + b =~= a);
        assert(definitions(a) + definitions(b) =~= definitions(a));
    } else {
        lemma_definitions_join(a, b.drop_last());
        assert((a + b).drop_last() =~= a + b.drop_last());
        assert((a + b).last() == b.last());
        let t = b.last().definition();
        assert(definitions(a) + definitions(b.drop_last()) + t =~= definitions(a) + (definitions(
            b.drop_last(),
        ) + t));
    }
}

/// `list` with every place `by` further on.
spec fn moved(list: Seq<Entry>, by: int) -> Seq<Entry> {
    list.map_values(|e: Entry| Entry { at: e.at + by, ..e })
}

proof fn lemma_definitions_moved(list: Seq<Entry>, by: int)
    ensures
        definitions(moved(list, by)) == definitions(list),
    decreases list.len(),
{
    if list.len() > 0 {
        lemma_definitions_moved(list.drop_last(), by);
        assert(moved(list, by).drop_last() =~= moved(list.drop_last(), by));
        reveal(Entry::definition);
    }
}

proof fn lemma_entry_moved(e: Entry, lead: Seq<char>, out: Seq<char>, more: Seq<char>)
    requires
        e.is_run(),
        e.drawn_in(out),
    ensures
        (Entry { at: e.at + lead.len(), ..e }).is_run(),
        (Entry { at: e.at + lead.len(), ..e }).drawn_in(lead + out + more),
{
    reveal(Entry::is_run);
    reveal(Entry::drawn_in);
    let text = run_element(without(e.element, "id"@), e.id, e.run());
    let by = lead.len() as int;
    assert forall|i: int| 0 <= i < text.len() implies (lead + out + more)[e.at + by + i]
        == #[trigger] text[i] by {
        assert(out[e.at + i] == text[i]);
    }
}

/// Entries keep what is true of them when text comes before theirs.
proof fn lemma_ledger_moved(
    list: Seq<Entry>,
    start: int,
    lead: Seq<char>,
    out: Seq<char>,
    more: Seq<char>,
    defs: Seq<char>,
    all: Seq<char>,
)
    requires
        ledger(list, start, out, defs, all),
        start >= 0,
    ensures
        ledger(moved(list, lead.len() as int), start + lead.len(), lead + out + more, defs, all),
{
    let by = lead.len() as int;
    let shifted = moved(list, by);
    lemma_definitions_moved(list, by);
    assert forall|a: int| 0 <= a < shifted.len() implies (#[trigger] shifted[a]).is_run()
        && shifted[a].drawn_in(lead + out + more) && shifted[a].at >= start + by by {
        let e = list[a];
        assert(e.is_run() && e.drawn_in(out));
        lemma_entry_moved(e, lead, out, more);
    }
    assert forall|a: int| 0 <= a < shifted.len() implies numbered_one(
        #[trigger] shifted[a],
        pattern_count(defs),
        pattern_count(all),
    ) by {
        assert(numbered_one(list[a], pattern_count(defs), pattern_count(all)));
    }
    assert forall|a: int, b: int| 0 <= a < b < shifted.len() implies (#[trigger] shifted[a]).at
        < (#[trigger] shifted[b]).at && shifted[a].id != shifted[b].id by {
        assert(list[a].at < list[b].at && list[a].id != list[b].id);
    }
}

proof fn lemma_ledger_join(
    a: Seq<Entry>,
    b: Seq<Entry>,
    out: Seq<char>,
    middle: int,
    defs: Seq<char>,
    some: Seq<char>,
    all: Seq<char>,
)
    requires
        middle >= 0,
        ledger(a, 0, out, defs, some),
        ledger(b, middle, out, some, all),
        forall|k: int| 0 <= k < a.len() ==> (#[trigger] a[k]).at < middle,
    ensures
        ledger(a + b, 0, out, defs, all),
{
    let list = a + b;
    lemma_definitions_join(a, b);
    assert(all =~= defs + definitions(list));
    let (low, mid, high) = (pattern_count(defs), pattern_count(some), pattern_count(all));
    assert forall|k: int| 0 <= k < list.len() implies (#[trigger] list[k]).is_run()
        && list[k].drawn_in(out) && list[k].at >= 0 by {
        if k < a.len() {
            assert(list[k] == a[k]);
        } else {
            assert(list[k] == b[k - a.len()]);
            assert(b[k - a.len()].at >= middle);
            assert(b[k - a.len()].drawn_in(out));
        }
    }
    assert forall|k: int| 0 <= k < list.len() implies numbered_one(
        #[trigger] list[k],
        low,
        high,
    ) by {
        if k < a.len() {
            assert(numbered_one(a[k], low, mid));
            let c = choose|c: nat| low <= c < mid && a[k].id == #[trigger] pattern_id(c);
            assert(list[k].id == pattern_id(c));
        } else {
            assert(numbered_one(b[k - a.len()], mid, high));
            let c = choose|c: nat|
                mid <= c < high && b[k - a.len()].id == #[trigger] pattern_id(c);
            assert(list[k].id == pattern_id(c));
        }
    }
    assert forall|i: int, j: int| 0 <= i < j < list.len() implies (#[trigger] list[i]).at
        < (#[trigger] list[j]).at && list[i].id != list[j].id by {
        if j < a.len() {
            assert(list[i] == a[i] && list[j] == a[j]);
        } else if i < a.len() {
            assert(list[i] == a[i] && list[j] == b[j - a.len()]);
            assert(numbered_one(a[i], low, mid));
            assert(numbered_one(b[j - a.len()], mid, high));
            let c = choose|c: nat| low <= c < mid && a[i].id == #[trigger] pattern_id(c);
            let m = choose|m: nat|
                mid <= m < high && b[j - a.len()].id == #[trigger] pattern_id(m);
            if list[i].id == list[j].id {
                lemma_ids_apart(c, m);
            }
        } else {
            assert(list[i] == b[i - a.len()] && list[j] == b[j - a.len()]);
        }
    }
}

/// The entries of a piece, and those of what comes behind it.
proof fn lemma_ledger_chain(
    head: Seq<Entry>,
    rest: Seq<Entry>,
    lead: Seq<char>,
    piece: Seq<char>,
    tail: Seq<char>,
    defs: Seq<char>,
    more: Seq<char>,
    all: Seq<char>,
) -> (list: Seq<Entry>)
    requires
        ledger(head, 0, piece, defs, more),
        ledger(rest, 0, tail, more, all),
        forall|a: int| 0 <= a < head.len() ==> (#[trigger] head[a]).at < piece.len(),
    ensures
        ledger(list, 0, lead + piece + tail, defs, all),
        list.len() == head.len() + rest.len(),
        forall|a: int|
            0 <= a < list.len() ==> (#[trigger] list[a]).element == (if a < head.len() {
                head[a].element
            } else {
                rest[a - head.len()].element
            }),
{
    lemma_ledger_moved(head, 0, lead, piece, tail, defs, more);
    let none = Seq::<char>::empty();
    lemma_ledger_moved(rest, 0, lead + piece, tail, none, more, all);
    assert(lead + piece + tail + none =~= lead + piece + tail);
    let first = moved(head, lead.len() as int);
    let second = moved(rest, (lead + piece).len() as int);
    let out = lead + piece + tail;
    assert(ledger(first, 0, out, defs, more)) by {
        assert forall|a: int| 0 <= a < first.len() implies (#[trigger] first[a]).is_run()
            && first[a].drawn_in(out) && first[a].at >= 0 by {}
    }
    assert forall|a: int| 0 <= a < first.len() implies (#[trigger] first[a]).at < (lead
        + piece).len() by {
        assert(head[a].at < piece.len());
    }
    lemma_ledger_join(first, second, out, (lead + piece).len() as int, defs, more, all);
    first + second
}

proof fn lemma_document_ledger(svg: Seq<char>, from: int, defs: Seq<char>) -> (list: Seq<Entry>)
    requires
        0 <= from <= svg.len(),
    ensures
        ({
            let (out, all) = document_from(svg, from, defs);
            ledger(list, 0, out, defs, all)
        }),
        forall|a: int| 0 <= a < list.len() ==> stands_in(svg, (#[trigger] list[a]).element),
    decreases svg.len() - from,
{
    let (out, all) = document_from(svg, from, defs);
    assert(defs =~= defs + definitions(Seq::empty()));
    match first_at(svg, "<path"@, from) {
        None => Seq::empty(),
        Some(at) => match first_at(svg, "/>"@, at) {
            None => Seq::empty(),
            Some(end) => {
                lemma_first_at(svg, "<path"@, from, at);
                lemma_first_at(svg, "/>"@, at, end);
                reveal_strlit("/>");
                let element = svg.subrange(at, end + 2);
                let found = match patterned(element, defs) {
                    Some(found) if whole(svg, at, end) => Some(found),
                    _ => None,
                };
                let (piece, more) = match found {
                    Some(found) => found,
                    None => (element, defs),
                };
                let (tail, _) = document_from(svg, end + 2, more);
                let lead = svg.subrange(from, at);
                let rest = lemma_document_ledger(svg, end + 2, more);
                assert(stands_at(svg, element, at));
                let head = if found is Some {
                    lemma_bare_some(svg, at, end);
                    lemma_path_ledger(element, defs)
                } else {
                    Seq::empty()
                };
                if found is None {
                    assert(ledger(head, 0, piece, defs, more));
                }
                let list = lemma_ledger_chain(head, rest, lead, piece, tail, defs, more, all);
                assert forall|a: int| 0 <= a < list.len() implies stands_in(
                    svg,
                    (#[trigger] list[a]).element,
                ) by {
                    if a < head.len() {
                        assert(list[a].element == head[a].element);
                        assert(stands_at(svg, list[a].element, at));
                    } else {
                        let e = rest[a - head.len()];
                        assert(list[a].element == e.element);
                        assert(stands_in(svg, e.element));
                    }
                }
                list
            },
        },
    }
}

/// A whole path element is not empty without its name.
proof fn lemma_bare_some(svg: Seq<char>, at: int, end: int)
    requires
        0 <= at,
        at + 5 < end + 2 <= svg.len(),
        stands_at(svg, "<path"@, at),
    ensures
        without(svg.subrange(at, end + 2), "id"@).len() > 0,
{
    let element = svg.subrange(at, end + 2);
    reveal_strlit("<path");
    reveal_strlit("id");
    assert(svg[at + 0] == "<path"@[0]);
    crate::markup::law_what_is_left_without_an_attribute(element, "id"@);
}

proof fn lemma_path_ledger(element: Seq<char>, defs: Seq<char>) -> (list: Seq<Entry>)
    requires
        patterned(element, defs) is Some,
        without(element, "id"@).len() > 0,
    ensures
        ({
            let (text, all) = patterned(element, defs)->0;
            &&& ledger(list, 0, text, defs, all)
            &&& forall|a: int|
                0 <= a < list.len() ==> (#[trigger] list[a]).element == element && list[a].at
                    < text.len()
        }),
{
    let d = attribute_of(element, "d"@)->0;
    let runs = data_runs(d);
    let kept = kept_text(d, parts_of(d).len());
    let first = starts(d, d.len())[0];
    let out = if trimmed(kept).len() == 0 {
        Seq::empty()
    } else {
        with_value(element, "d"@, d.subrange(0, first) + kept)
    };
    lemma_runs_ledger(element, runs.len(), out, defs)
}

/// Every run of a document is drawn by one rectangle and one pattern of its
/// own. The definitions are those of `list`, one behind the other, and no two
/// of them share a name. Every entry is a run of a path of the document; its
/// pattern has the fill of that path and the tile of that run, and its
/// rectangle, which stands in the new text, is filled with that pattern.
pub proof fn law_every_run_has_a_pattern_of_its_own(svg: Seq<char>) -> (list: Seq<Entry>)
    ensures
        ({
            let (out, defs) = document_from(svg, 0, Seq::empty());
            &&& defs == definitions(list)
            &&& named_apart(list)
            &&& forall|a: int|
                0 <= a < list.len() ==> {
                    &&& (#[trigger] list[a]).is_run()
                    &&& list[a].drawn_in(out)
                    &&& stands_in(svg, list[a].element)
                }
            &&& forall|a: int, b: int|
                0 <= a < b < list.len() ==> (#[trigger] list[a]).at < (#[trigger] list[b]).at
        }),
{
    let list = lemma_document_ledger(svg, 0, Seq::empty());
    assert(Seq::<char>::empty() + definitions(list) =~= definitions(list));
    list
}

/// A document with runs keeps all of its text around one more element, behind
/// its first `svg` tag: the definitions, in the order of their runs. One
/// without runs, or without such a tag, stays as it is.
pub proof fn law_definitions_stand_behind_the_first_tag(svg: Seq<char>, list: Seq<Entry>)
    requires
        document_from(svg, 0, Seq::empty()).1 == definitions(list),
    ensures
        ({
            let (out, defs) = document_from(svg, 0, Seq::empty());
            let document = patterned_document(svg);
            if defs.len() == 0 {
                document == out
            } else {
                match first_at(out, "<svg"@, 0) {
                    None => document == svg,
                    Some(tag) => {
                        ||| document == svg && forall|i: int|
                            tag <= i < out.len() ==> #[trigger] out[i] != '>'
                        ||| exists|close: int| #[trigger]
                            defined_at(document, out, defs, tag, close)
                    },
                }
            }
        }),
{
    let (out, defs) = document_from(svg, 0, Seq::empty());
    if defs.len() > 0 {
        if let Some(tag) = first_at(out, "<svg"@, 0) {
            lemma_first_at(out, "<svg"@, 0, tag);
            match first_at(out, seq!['>'], tag) {
                None => {
                    assert forall|i: int| tag <= i < out.len() implies #[trigger] out[i] != '>' by {
                        if out[i] == '>' {
                            assert(stands_at(out, seq!['>'], i));
                            let p = lemma_first_some(out, seq!['>'], tag, i);
                        }
                    }
                },
                Some(end) => {
                    lemma_first_at(out, seq!['>'], tag, end);
                    let document = patterned_document(svg);
                    let close = end + 1;
                    assert(out[end + 0] == seq!['>'][0]);
                    assert(out.subrange(0, close) + out.subrange(close, out.len() as int) =~= out);
                    assert forall|i: int| tag <= i < close - 1 implies #[trigger] out[i] != '>' by {
                        assert(!stands_at(out, seq!['>'], i));
                        if out[i] == '>' {
                            assert(stands_at(out, seq!['>'], i));
                        }
                    }
                    let (before, after) = (out.subrange(0, close), out.subrange(close, out.len() as int));
                    assert(document =~= before + "\n<defs>\n"@ + defs + "</defs>"@ + after);
                    assert(defined_at(document, out, defs, tag, close));
                },
            }
        }
    }
}

/// The document is `out` with `defs` in an element of their own at `close`,
/// where the tag that starts at `tag` ends.
pub open spec fn defined_at(
    document: Seq<char>,
    out: Seq<char>,
    defs: Seq<char>,
    tag: int,
    close: int,
) -> bool {
    &&& 0 <= tag < close <= out.len()
    &&& out[close - 1] == '>'
    &&& forall|i: int| tag <= i < close - 1 ==> #[trigger] out[i] != '>'
    &&& document.len() == out.len() + "\n<defs>\n"@.len() + defs.len() + "</defs>"@.len()
    &&& document == out.subrange(0, close) + "\n<defs>\n"@ + defs + "</defs>"@ + out.subrange(
        close,
        out.len() as int,
    )
}

/// Plain paths get patterns, and no others: a path with runs, filled with a
/// colour in hexadecimal, without an outline and a transform, all of whose
/// subpaths start where they say on the page. Any other stays as it is.
pub proof fn law_plain_paths_get_patterns(element: Seq<char>, defs: Seq<char>)
    ensures
        patterned(element, defs) is Some <==> {
            &&& attribute_of(element, "fill"@) matches Some(fill) && fill.len() > 0 && fill[0]
                == '#'
            &&& attribute_of(element, "stroke"@) matches Some(stroke) ==> trimmed(stroke)
                == "none"@
            &&& attribute_of(element, "transform"@) is None
            &&& attribute_of(element, "d"@) matches Some(d) && data_runs(d).len() > 0 && d.contains(
                'M',
            ) && forall|i: int| 0 <= i < d.len() ==> #[trigger] d[i] != 'm'
        },
{
    if let Some(d) = attribute_of(element, "d"@) {
        if forall|i: int| 0 <= i < d.len() ==> #[trigger] d[i] != 'm' {
            assert(!d.contains('m')) by {
                if d.contains('m') {
                    let i = choose|i: int| 0 <= i < d.len() && d[i] == 'm';
                    assert(d[i] != 'm');
                }
            }
        } else {
            let i = choose|i: int| 0 <= i < d.len() && #[trigger] d[i] == 'm';
            assert(d.contains('m'));
        }
    }
}

/// A path element of a document: where it starts and ends, and what stands
/// there instead.
pub struct Replaced {
    pub at: int,
    pub end: int,
    pub piece: Seq<char>,
}

/// The document from `from` on with the elements of `list` replaced.
pub open spec fn pieced(svg: Seq<char>, from: int, list: Seq<Replaced>) -> Seq<char>
    decreases list.len(),
{
    if list.len() == 0 {
        svg.subrange(from, svg.len() as int)
    } else {
        svg.subrange(from, list[0].at) + list[0].piece + pieced(
            svg,
            list[0].end,
            list.subrange(1, list.len() as int),
        )
    }
}

/// Where the text before element `k` starts.
pub open spec fn text_start(list: Seq<Replaced>, from: int, k: int) -> int {
    if k == 0 {
        from
    } else {
        list[k - 1].end
    }
}

/// Element `k` is the next path of the document, up to the first end of an
/// element behind it. It stays unless its runs get patterns and nothing else
/// ends inside it.
pub open spec fn next_path(svg: Seq<char>, list: Seq<Replaced>, from: int, k: int) -> bool {
    let r = list[k];
    let start = text_start(list, from, k);
    let element = svg.subrange(r.at, r.end);
    &&& start <= r.at < r.end <= svg.len()
    &&& stands_at(svg, "<path"@, r.at)
    &&& forall|i: int| start <= i < r.at ==> !(#[trigger] stands_at(svg, "<path"@, i))
    &&& stands_at(svg, "/>"@, r.end - 2)
    &&& forall|i: int| r.at <= i < r.end - 2 ==> !(#[trigger] stands_at(svg, "/>"@, i))
    &&& exists|defs: Seq<char>|
        match #[trigger] patterned(element, defs) {
            Some(found) => if whole(svg, r.at, r.end - 2) {
                r.piece == found.0
            } else {
                r.piece == element
            },
            None => r.piece == element,
        }
}

/// The text of a document stays around its paths: all of it but the path
/// elements, and of these the ones whose runs get no patterns. Every path is
/// looked at, in their order, up to the last that ends.
pub proof fn law_the_text_around_the_paths_stays(svg: Seq<char>, from: int, defs: Seq<char>) -> (list:
    Seq<Replaced>)
    requires
        0 <= from <= svg.len(),
    ensures
        document_from(svg, from, defs).0 == pieced(svg, from, list),
        forall|k: int| 0 <= k < list.len() ==> #[trigger] next_path(svg, list, from, k),
        ({
            let last = text_start(list, from, list.len() as int);
            forall|i: int|
                last <= i && #[trigger] stands_at(svg, "<path"@, i) ==> forall|j: int|
                    i <= j ==> !(#[trigger] stands_at(svg, "/>"@, j))
        }),
    decreases svg.len() - from,
{
    reveal_strlit("<path");
    reveal_strlit("/>");
    match first_at(svg, "<path"@, from) {
        None => {
            assert forall|i: int| from <= i implies !(#[trigger] stands_at(svg, "<path"@, i)) by {
                if stands_at(svg, "<path"@, i) {
                    let p = lemma_first_some(svg, "<path"@, from, i);
                }
            }
            Seq::empty()
        },
        Some(at) => {
            lemma_first_at(svg, "<path"@, from, at);
            match first_at(svg, "/>"@, at) {
                None => {
                    assert forall|j: int| at <= j implies !(#[trigger] stands_at(svg, "/>"@, j)) by {
                        if stands_at(svg, "/>"@, j) {
                            let p = lemma_first_some(svg, "/>"@, at, j);
                        }
                    }
                    assert forall|i: int| from <= i && #[trigger] stands_at(svg, "<path"@, i) implies
                        forall|j: int| i <= j ==> !(#[trigger] stands_at(svg, "/>"@, j)) by {
                        assert(at <= i);
                    }
                    Seq::empty()
                },
                Some(end) => {
                    lemma_first_at(svg, "/>"@, at, end);
                    let element = svg.subrange(at, end + 2);
                    let (piece, more) = match patterned(element, defs) {
                        Some(found) if whole(svg, at, end) => found,
                        _ => (element, defs),
                    };
                    let rest = law_the_text_around_the_paths_stays(svg, end + 2, more);
                    let first = Replaced { at, end: end + 2, piece };
                    let list = seq![first] + rest;
                    assert(list.subrange(1, list.len() as int) =~= rest);
                    assert(next_path(svg, list, from, 0)) by {
                        assert(patterned(element, defs) == patterned(element, defs));
                    }
                    assert forall|k: int| 0 <= k < list.len() implies #[trigger] next_path(
                        svg,
                        list,
                        from,
                        k,
                    ) by {
                        if k > 0 {
                            assert(next_path(svg, rest, end + 2, k - 1));
                            assert(list[k] == rest[k - 1]);
                            assert(text_start(list, from, k) == text_start(rest, end + 2, k - 1));
                        }
                    }
                    assert(text_start(list, from, list.len() as int) == text_start(
                        rest,
                        end + 2,
                        rest.len() as int,
                    ));
                    list
                },
            }
        },
    }
}

proof fn lemma_runs_after(
    runs: Seq<RunView>,
    n: nat,
    bare: Seq<char>,
    fill: Seq<char>,
    out: Seq<char>,
    defs: Seq<char>,
)
    ensures
        stands_at(with_runs(runs, n, bare, fill, out, defs).0, out, 0),
    decreases n,
{
    if n > 0 {
        lemma_runs_after(runs, (n - 1) as nat, bare, fill, out, defs);
        let before = with_runs(runs, (n - 1) as nat, bare, fill, out, defs).0;
        let now = with_runs(runs, n, bare, fill, out, defs).0;
        assert forall|i: int| 0 <= i < out.len() implies now[0 + i] == #[trigger] out[i] by {
            assert(before[0 + i] == out[i]);
            assert(line_ended(before)[i] == before[i]);
        }
    }
}

/// What no run draws of a path stays where it was: the path's element comes
/// first, as it was but for its data, which is the text up to its first subpath
/// and what is left of the others; where nothing is left of them, the element
/// is gone.
pub proof fn law_the_rest_of_a_path_stays(element: Seq<char>, defs: Seq<char>)
    requires
        patterned(element, defs) is Some,
    ensures
        ({
            let d = attribute_of(element, "d"@)->0;
            let left = kept_text(d, parts_of(d).len());
            let first = starts(d, d.len())[0];
            let (text, _) = patterned(element, defs)->0;
            if trimmed(left).len() > 0 {
                stands_at(text, with_value(element, "d"@, d.subrange(0, first) + left), 0)
            } else {
                stands_at(
                    text,
                    run_element(
                        without(element, "id"@),
                        pattern_id(pattern_count(defs)),
                        data_runs(d)[0],
                    ),
                    0,
                )
            }
        }),
{
    let fill = attribute_of(element, "fill"@)->0;
    let d = attribute_of(element, "d"@)->0;
    let runs = data_runs(d);
    let left = kept_text(d, parts_of(d).len());
    let first = starts(d, d.len())[0];
    let bare = without(element, "id"@);
    if trimmed(left).len() > 0 {
        let out = with_value(element, "d"@, d.subrange(0, first) + left);
        lemma_runs_after(runs, runs.len(), bare, fill, out, defs);
    } else {
        lemma_first_run(runs, runs.len(), bare, fill, defs);
    }
}

proof fn lemma_first_run(
    runs: Seq<RunView>,
    n: nat,
    bare: Seq<char>,
    fill: Seq<char>,
    defs: Seq<char>,
)
    requires
        n > 0,
    ensures
        stands_at(
            with_runs(runs, n, bare, fill, Seq::empty(), defs).0,
            run_element(bare, pattern_id(pattern_count(defs)), runs[0]),
            0,
        ),
    decreases n,
{
    let none = Seq::<char>::empty();
    let element = run_element(bare, pattern_id(pattern_count(defs)), runs[0]);
    let now = with_runs(runs, n, bare, fill, none, defs).0;
    if n == 1 {
        assert(with_runs(runs, 0, bare, fill, none, defs) == (none, defs));
        assert(line_ended(none) =~= none);
        assert(now =~= element);
    } else {
        lemma_first_run(runs, (n - 1) as nat, bare, fill, defs);
        let before = with_runs(runs, (n - 1) as nat, bare, fill, none, defs).0;
        assert forall|i: int| 0 <= i < element.len() implies now[0 + i] == #[trigger] element[i] by {
            assert(before[0 + i] == element[i]);
            assert(line_ended(before)[i] == before[i]);
        }
    }
}

} // verus!
