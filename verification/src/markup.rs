//! Attributes of one markup element, read and replaced in its text.
use crate::text::{
    ascii_white, before_white, drop_white, find, first_at, is_ascii_white, is_first,
    lemma_first_at, part, past_white, push_part, skip_white, standing, stands_at, white,
};
use vstd::prelude::*;

verus! {

/// The attribute value whose name stands at or after `from`: where it starts
/// and ends between its quotes. A name counts after whitespace and before an
/// equals sign; where the value then has no quotes, there is none.
pub open spec fn span_from(element: Seq<char>, name: Seq<char>, from: int) -> Option<(int, int)>
    decreases element.len() - from,
{
    let len = element.len() as int;
    match first_at(element, name, from) {
        None => None,
        Some(at) => {
            let equals = past_white(element, at + name.len(), len);
            if at > 0 && ascii_white(element[at - 1]) && equals < len && element[equals] == '=' {
                let open = past_white(element, equals + 1, len);
                if open < len && (element[open] == '"' || element[open] == '\'') {
                    match first_at(element, seq![element[open]], open + 1) {
                        None => None,
                        Some(end) => Some((open + 1, end)),
                    }
                } else {
                    None
                }
            } else if name.len() == 0 {
                None
            } else {
                proof {
                    lemma_first_at(element, name, from, at);
                }
                span_from(element, name, at + name.len())
            }
        },
    }
}

/// Where the value of the attribute `name` stands.
pub open spec fn span_of(element: Seq<char>, name: Seq<char>) -> Option<(int, int)> {
    span_from(element, name, 0)
}

/// The value of the attribute `name`.
pub open spec fn attribute_of(element: Seq<char>, name: Seq<char>) -> Option<Seq<char>> {
    match span_of(element, name) {
        None => None,
        Some((start, end)) => Some(element.subrange(start, end)),
    }
}

/// `element` with `value` as the value of its attribute `name`; as it is when
/// it has no such attribute.
pub open spec fn with_value(element: Seq<char>, name: Seq<char>, value: Seq<char>) -> Seq<char> {
    match span_of(element, name) {
        None => element,
        Some((start, end)) => element.subrange(0, start) + value + element.subrange(
            end,
            element.len() as int,
        ),
    }
}

/// The last place up to `at` where `pattern` stands.
pub open spec fn last_at(text: Seq<char>, pattern: Seq<char>, at: int) -> Option<int>
    decreases at + 1,
{
    if at < 0 {
        None
    } else if stands_at(text, pattern, at) {
        Some(at)
    } else {
        last_at(text, pattern, at - 1)
    }
}

/// `element` without its attribute `name` and the whitespace before it.
pub open spec fn without(element: Seq<char>, name: Seq<char>) -> Seq<char> {
    match span_of(element, name) {
        None => element,
        Some((start, end)) => {
            let name_at = match last_at(element, name, start - name.len()) {
                Some(at) => at,
                None => start,
            };
            element.subrange(0, before_white(element, 0, name_at)) + element.subrange(
                end + 1,
                element.len() as int,
            )
        },
    }
}

/// The span of attribute `name`'s value in `element`.
pub fn value_span(element: &[char], name: &[char]) -> (span: Option<(usize, usize)>)
    requires
        name@.len() > 0,
    ensures
        match span {
            Some((start, end)) => span_of(element@, name@) == Some((start as int, end as int))
                && start <= end < element@.len(),
            None => span_of(element@, name@) is None,
        },
{
    let len: usize = element.len();
    let mut from: usize = 0;
    loop
        invariant
            len == element@.len(),
            from <= len,
            name@.len() > 0,
            span_of(element@, name@) == span_from(element@, name@, from as int),
        decreases len - from,
    {
        let at: usize = match find(element, name, from) {
            Some(at) => at,
            None => {
                return None;
            },
        };
        let after: usize = at + name.len();
        let equals: usize = skip_white(element, after, len);
        if at > 0 && is_ascii_white(element[at - 1]) && equals < len && element[equals] == '=' {
            let open: usize = skip_white(element, equals + 1, len);
            if open < len && (element[open] == '"' || element[open] == '\'') {
                let mut quote: Vec<char> = Vec::new();
                quote.push(element[open]);
                assert(quote@ =~= seq![element@[open as int]]);
                return match find(element, quote.as_slice(), open + 1) {
                    Some(end) => Some((open + 1, end)),
                    None => None,
                };
            }
            return None;
        }
        from = after;
    }
}

/// The value of attribute `name` in `element`.
pub fn attribute<'a>(element: &'a [char], name: &[char]) -> (value: Option<&'a [char]>)
    requires
        name@.len() > 0,
    ensures
        match value {
            Some(v) => attribute_of(element@, name@) == Some(v@),
            None => attribute_of(element@, name@) is None,
        },
{
    match value_span(element, name) {
        Some((start, end)) => Some(vstd::slice::slice_subrange(element, start, end)),
        None => None,
    }
}

/// `element` with `value` as the value of its attribute `name`.
pub fn with_attribute(element: &[char], name: &[char], value: &str) -> (out: String)
    requires
        name@.len() > 0,
    ensures
        out@ == with_value(element@, name@, value@),
{
    match value_span(element, name) {
        Some((start, end)) => {
            let mut out = part(element, 0, start);
            out.append(value);
            push_part(&mut out, element, end, element.len());
            out
        },
        None => {
            assert(element@.subrange(0, element@.len() as int) =~= element@);
            part(element, 0, element.len())
        },
    }
}

/// `element` without its attribute `name` and the whitespace before it.
pub fn without_attribute(element: &[char], name: &[char]) -> (out: String)
    requires
        name@.len() > 0,
    ensures
        out@ == without(element@, name@),
{
    match value_span(element, name) {
        Some((start, end)) => {
            let mut name_at: usize = start;
            if name.len() <= start {
                let mut at: usize = start - name.len();
                let ghost top = at as int;
                loop
                    invariant_except_break
                        name_at == start,
                    invariant
                        at <= top <= start < element@.len(),
                        last_at(element@, name@, top) == last_at(element@, name@, at as int),
                    ensures
                        name_at <= start,
                        name_at == match last_at(element@, name@, top) {
                            Some(at) => at,
                            None => start as int,
                        },
                    decreases at,
                {
                    if standing(element, name, at) {
                        name_at = at;
                        break;
                    }
                    if at == 0 {
                        assert(last_at(element@, name@, -1) is None);
                        break;
                    }
                    at = at - 1;
                }
            }
            let len: usize = element.len();
            let cut: usize = drop_white(element, 0, name_at);
            let mut out = part(element, 0, cut);
            push_part(&mut out, element, end + 1, len);
            out
        },
        None => {
            assert(element@.subrange(0, element@.len() as int) =~= element@);
            part(element, 0, element.len())
        },
    }
}

/// `past_white` stops at a character that is not white, and looks at none
/// behind it.
proof fn lemma_past_white(a: Seq<char>, b: Seq<char>, from: int, stop: int)
    requires
        0 <= from <= stop < a.len(),
        stop < b.len(),
        !white(a[stop]),
        forall|i: int| 0 <= i <= stop ==> #[trigger] a[i] == b[i],
    ensures
        from <= past_white(a, from, a.len() as int) <= stop,
        past_white(a, from, a.len() as int) == past_white(b, from, b.len() as int),
    decreases stop - from,
{
    if white(a[from]) {
        lemma_past_white(a, b, from + 1, stop);
    }
}

proof fn lemma_past_white_bound(a: Seq<char>, from: int)
    requires
        0 <= from <= a.len(),
    ensures
        from <= past_white(a, from, a.len() as int) <= a.len(),
    decreases a.len() - from,
{
    if from < a.len() && white(a[from]) {
        lemma_past_white_bound(a, from + 1);
    }
}

/// What stands before `stop` is found at the same place in both texts.
proof fn lemma_first_at_same(
    a: Seq<char>,
    b: Seq<char>,
    pattern: Seq<char>,
    from: int,
    at: int,
    stop: int,
)
    requires
        0 <= from,
        is_first(a, pattern, from, at),
        at + pattern.len() <= stop <= b.len(),
        forall|i: int| 0 <= i < stop ==> #[trigger] a[i] == b[i],
        stop <= a.len(),
    ensures
        first_at(b, pattern, from) == Some(at),
{
    assert(stands_at(b, pattern, at)) by {
        assert forall|i: int| 0 <= i < pattern.len() implies b[at + i] == #[trigger] pattern[i] by {
            assert(a[at + i] == b[at + i]);
        }
    }
    assert forall|k: int| from <= k < at implies !(#[trigger] stands_at(b, pattern, k)) by {
        if stands_at(b, pattern, k) {
            assert forall|i: int| 0 <= i < pattern.len() implies a[k + i]
                == #[trigger] pattern[i] by {
                assert(a[k + i] == b[k + i]);
            }
            assert(stands_at(a, pattern, k));
        }
    }
    lemma_first_at(b, pattern, from, at);
}

/// The value's place stays and its end moves with its length, in a text with
/// the same start, another value and the same quote behind it.
proof fn lemma_span_moves(
    a: Seq<char>,
    b: Seq<char>,
    name: Seq<char>,
    from: int,
    start: int,
    end: int,
    moved: int,
)
    requires
        name.len() > 0,
        0 <= from <= a.len(),
        span_from(a, name, from) == Some((start, end)),
        start <= moved < b.len(),
        start <= a.len(),
        forall|i: int| 0 <= i < start ==> #[trigger] a[i] == b[i],
        b[moved] == a[start - 1],
        forall|i: int| start <= i < moved ==> #[trigger] b[i] != a[start - 1],
    ensures
        span_from(b, name, from) == Some((start, moved)),
    decreases a.len() - from,
{
    let at = first_at(a, name, from)->0;
    lemma_first_at(a, name, from, at);
    let len = a.len() as int;
    let after = at + name.len();
    lemma_past_white_bound(a, after);
    let equals = past_white(a, after, len);
    if at > 0 && ascii_white(a[at - 1]) && equals < len && a[equals] == '=' {
        let open = past_white(a, equals + 1, len);
        lemma_past_white_bound(a, equals + 1);
        assert(open + 1 == start);
        assert(!white(a[open])) by {
            assert(a[open] == '"' || a[open] == '\'');
            assert('"' as u32 == 34 && '\'' as u32 == 39);
        }
        assert(!white('='));
        lemma_first_at_same(a, b, name, from, at, start);
        lemma_past_white(a, b, after, equals);
        lemma_past_white(a, b, equals + 1, open);
        let quote = seq![b[open]];
        assert(stands_at(b, quote, moved));
        assert forall|k: int| open + 1 <= k < moved implies !(#[trigger] stands_at(
            b,
            quote,
            k,
        )) by {
            if stands_at(b, quote, k) {
                assert(b[k + 0] == quote[0]);
            }
        }
        lemma_first_at(b, quote, open + 1, moved);
    } else {
        lemma_span_start(a, name, after, start, end);
        assert(!white(a[start - 1])) by {
            assert('"' as u32 == 34 && '\'' as u32 == 39);
        }
        lemma_first_at_same(a, b, name, from, at, start);
        lemma_past_white(a, b, after, start - 1);
        lemma_span_moves(a, b, name, after, start, end, moved);
    }
}

/// A value's quote stands behind where its name was looked for.
proof fn lemma_span_start(a: Seq<char>, name: Seq<char>, from: int, start: int, end: int)
    requires
        name.len() > 0,
        0 <= from <= a.len(),
        span_from(a, name, from) == Some((start, end)),
    ensures
        from < start <= end < a.len(),
        a[start - 1] == '"' || a[start - 1] == '\'',
        a[end] == a[start - 1],
        forall|i: int| start <= i < end ==> #[trigger] a[i] != a[start - 1],
    decreases a.len() - from,
{
    let at = first_at(a, name, from)->0;
    lemma_first_at(a, name, from, at);
    let len = a.len() as int;
    let after = at + name.len();
    lemma_past_white_bound(a, after);
    let equals = past_white(a, after, len);
    if at > 0 && ascii_white(a[at - 1]) && equals < len && a[equals] == '=' {
        lemma_past_white_bound(a, equals + 1);
        let open = past_white(a, equals + 1, len);
        let quote = seq![a[open]];
        lemma_first_at(a, quote, open + 1, end);
        assert(stands_at(a, quote, end));
        assert(a[end + 0] == quote[0]);
        assert forall|i: int| start <= i < end implies #[trigger] a[i] != a[start - 1] by {
            if a[i] == a[start - 1] {
                assert forall|k: int| 0 <= k < quote.len() implies a[i + k]
                    == #[trigger] quote[k] by {}
                assert(stands_at(a, quote, i));
            }
        }
    } else {
        lemma_span_start(a, name, after, start, end);
    }
}

/// A value written in place of an attribute's is read back, unless it holds
/// the quote it stands between; the value that was there, written back,
/// changes nothing; and an element without the attribute stays as it is.
pub proof fn law_a_written_value_reads_back(
    element: Seq<char>,
    name: Seq<char>,
    value: Seq<char>,
)
    requires
        name.len() > 0,
    ensures
        match span_of(element, name) {
            Some((start, end)) => {
                &&& 0 < start <= end < element.len()
                &&& element[start - 1] == element[end]
                &&& !value.contains(element[end]) ==> attribute_of(
                    with_value(element, name, value),
                    name,
                ) == Some(value)
                &&& with_value(element, name, attribute_of(element, name)->0) == element
            },
            None => with_value(element, name, value) == element,
        },
{
    if let Some((start, end)) = span_of(element, name) {
        lemma_span_start(element, name, 0, start, end);
        let out = with_value(element, name, value);
        let moved = start + value.len();
        assert(with_value(element, name, attribute_of(element, name)->0) =~= element);
        if !value.contains(element[end]) {
            assert forall|i: int| start <= i < moved implies #[trigger] out[i] != element[start
                - 1] by {
                assert(out[i] == value[i - start]);
            }
            assert(out[moved] == element[end]);
            lemma_span_moves(element, out, name, 0, start, end, moved);
            assert(out.subrange(start, moved) =~= value);
        }
    }
}

/// The name stands before its value, not at the very front.
proof fn lemma_name_before(a: Seq<char>, name: Seq<char>, from: int, start: int, end: int) -> (at: int)
    requires
        name.len() > 0,
        0 <= from <= a.len(),
        span_from(a, name, from) == Some((start, end)),
    ensures
        0 < at,
        at + name.len() < start,
        stands_at(a, name, at),
    decreases a.len() - from,
{
    let at = first_at(a, name, from)->0;
    lemma_first_at(a, name, from, at);
    let len = a.len() as int;
    let after = at + name.len();
    lemma_past_white_bound(a, after);
    let equals = past_white(a, after, len);
    if at > 0 && ascii_white(a[at - 1]) && equals < len && a[equals] == '=' {
        lemma_past_white_bound(a, equals + 1);
        at
    } else {
        lemma_name_before(a, name, after, start, end)
    }
}

proof fn lemma_last_at(text: Seq<char>, pattern: Seq<char>, at: int, known: int)
    requires
        0 <= known <= at,
        stands_at(text, pattern, known),
    ensures
        last_at(text, pattern, at) matches Some(last) && known <= last <= at,
    decreases at,
{
    if !stands_at(text, pattern, at) {
        lemma_last_at(text, pattern, at - 1, known);
    }
}

proof fn lemma_before_white(text: Seq<char>, to: int)
    requires
        0 < to <= text.len(),
        !white(text[0]),
    ensures
        0 < before_white(text, 0, to) <= to,
        forall|i: int| before_white(text, 0, to) <= i < to ==> white(#[trigger] text[i]),
    decreases to,
{
    if white(text[to - 1]) {
        lemma_before_white(text, to - 1);
    }
}

/// An element without an attribute is what stands before the whitespace at its
/// name, and what stands behind its value's quote. An element that has no such
/// attribute stays as it is. `cut` is where the name is cut off.
pub proof fn law_what_is_left_without_an_attribute(element: Seq<char>, name: Seq<char>) -> (cut:
    int)
    requires
        name.len() > 0,
        element.len() > 0,
        !white(element[0]),
    ensures
        match span_of(element, name) {
            None => without(element, name) == element,
            Some((start, end)) => {
                &&& 0 < cut < start <= end < element.len()
                &&& without(element, name) == element.subrange(0, cut) + element.subrange(
                    end + 1,
                    element.len() as int,
                )
                &&& exists|at: int|
                    cut <= at && at + name.len() <= start && #[trigger] stands_at(
                        element,
                        name,
                        at,
                    ) && forall|i: int| cut <= i < at ==> white(#[trigger] element[i])
            },
        },
        without(element, name).len() > 0,
{
    if let Some((start, end)) = span_of(element, name) {
        let at = lemma_name_before(element, name, 0, start, end);
        lemma_span_start(element, name, 0, start, end);
        lemma_last_at(element, name, start - name.len(), at);
        let last = last_at(element, name, start - name.len())->0;
        lemma_last_stands(element, name, start - name.len());
        lemma_before_white(element, last);
        assert(stands_at(element, name, last));
        before_white(element, 0, last)
    } else {
        0
    }
}

proof fn lemma_last_stands(text: Seq<char>, pattern: Seq<char>, at: int)
    ensures
        last_at(text, pattern, at) matches Some(last) ==> stands_at(text, pattern, last),
    decreases at + 1,
{
    if at >= 0 && !stands_at(text, pattern, at) {
        lemma_last_stands(text, pattern, at - 1);
    }
}

} // verus!
