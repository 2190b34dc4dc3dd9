//! The system dialogs' answers.
use crate::licence::all_digits;
use crate::path_data::{digits_value, is_digit};
use crate::prefs::place_of;
use crate::text::{chars_of, part};
use vstd::prelude::*;

verus! {

/// The Open dialog's filter: every extension of the pictures that are read.
pub fn open_filter() -> (text: &'static str)
    ensures
        text@ == "*.png;*.jpg;*.jpeg;*.bmp;*.gif;*.pnm;*.pbm;*.pgm;*.ppm;*.pam"@,
{
    "*.png;*.jpg;*.jpeg;*.bmp;*.gif;*.pnm;*.pbm;*.pgm;*.ppm;*.pam"
}

/// `text` from the first character on that is no byte order mark.
pub open spec fn after_marks(text: Seq<char>) -> Seq<char>
    decreases text.len(),
{
    if text.len() > 0 && text[0] == '\u{feff}' {
        after_marks(text.subrange(1, text.len() as int))
    } else {
        text
    }
}

/// The number that `text` writes: a plus sign at most, then digits, up to the
/// largest position.
pub open spec fn position_of(text: Seq<char>) -> Option<int> {
    let digits = if text.len() > 0 && text[0] == '+' {
        text.subrange(1, text.len() as int)
    } else {
        text
    };
    if !all_digits(digits) {
        None
    } else {
        let v = digits_value(digits, 0, digits.len() as int);
        if v <= u32::MAX {
            Some(v)
        } else {
            None
        }
    }
}

/// What a dialog answered: the position of its filter on the first line, and
/// the path on the rest. Nothing when it was cancelled.
pub open spec fn answer_of(text: Seq<char>) -> Option<(Seq<char>, int)> {
    let t = after_marks(text);
    let k = place_of(t, '\n', 0);
    if k >= t.len() {
        None
    } else {
        let path = t.subrange(k + 1, t.len() as int);
        match position_of(t.subrange(0, k)) {
            Some(filter) => if path.len() > 0 {
                Some((path, filter))
            } else {
                None
            },
            None => None,
        }
    }
}

fn read_position(text: &[char]) -> (n: Option<u32>)
    ensures
        n is Some == (position_of(text@) is Some),
        n matches Some(v) ==> position_of(text@) == Some(v as int),
{
    let len: usize = text.len();
    let from: usize = if len > 0 && text[0] == '+' {
        1
    } else {
        0
    };
    let ghost digits = text@.subrange(from as int, len as int);
    assert(digits == (if text@.len() > 0 && text@[0] == '+' {
        text@.subrange(1, len as int)
    } else {
        text@
    }));
    if from == len {
        return None;
    }
    let mut v: u64 = 0;
    let mut over: bool = false;
    let mut i: usize = from;
    while i < len
        invariant
            from <= i <= len,
            len == text@.len(),
            digits == text@.subrange(from as int, len as int),
            digits == (if text@.len() > 0 && text@[0] == '+' {
                text@.subrange(1, len as int)
            } else {
                text@
            }),
            forall|j: int| 0 <= j < i - from ==> is_digit(#[trigger] digits[j]),
            v <= u32::MAX,
            !over ==> v == digits_value(digits, 0, i - from),
            over ==> digits_value(digits, 0, i - from) > u32::MAX,
        decreases len - i,
    {
        let c: char = text[i];
        assert(digits[i - from] == c);
        if c < '0' || c > '9' {
            assert(!is_digit(digits[i - from]));
            return None;
        }
        let d: u64 = (c as u8 - 48) as u64;
        assert(digits_value(digits, 0, i - from + 1) == 10 * digits_value(digits, 0, i - from) + d);
        if !over {
            let next: u64 = 10 * v + d;
            if next > u32::MAX as u64 {
                over = true;
            } else {
                v = next;
            }
        }
        i = i + 1;
    }
    assert(all_digits(digits));
    if over {
        None
    } else {
        Some(v as u32)
    }
}

/// Reads what a dialog answered: the picked path and its filter's position.
pub fn dialog_answer(text: &str) -> (picked: Option<(String, u32)>)
    ensures
        picked is Some == (answer_of(text@) is Some),
        picked matches Some((path, filter)) ==> answer_of(text@) == Some((path@, filter as int)),
{
    let all = chars_of(text);
    let len: usize = all.len();
    let mut a: usize = 0;
    assert(all@.subrange(0, len as int) =~= all@);
    while a < len && all[a] == '\u{feff}'
        invariant
            a <= len,
            len == all@.len(),
            after_marks(all@) == after_marks(all@.subrange(a as int, len as int)),
        decreases len - a,
    {
        let ghost rest = all@.subrange(a as int, len as int);
        assert(rest.subrange(1, rest.len() as int) =~= all@.subrange(a as int + 1, len as int));
        a = a + 1;
    }
    let ghost t = all@.subrange(a as int, len as int);
    assert(after_marks(text@) == t);
    let mut k: usize = a;
    while k < len && all[k] != '\n'
        invariant
            a <= k <= len,
            len == all@.len(),
            t == all@.subrange(a as int, len as int),
            place_of(t, '\n', 0) == place_of(t, '\n', k - a),
        decreases len - k,
    {
        k = k + 1;
    }
    assert(place_of(t, '\n', 0) == k - a);
    if k == len {
        return None;
    }
    let first = vstd::slice::slice_subrange(all.as_slice(), a, k);
    assert(first@ =~= t.subrange(0, k - a));
    assert(t.subrange(k - a + 1, t.len() as int) =~= all@.subrange(k as int + 1, len as int));
    match read_position(first) {
        Some(filter) => if k + 1 < len {
            Some((part(all.as_slice(), k + 1, len), filter))
        } else {
            None
        },
        None => None,
    }
}

} // verus!
