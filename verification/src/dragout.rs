//! Dragging the finished vector out of the window: what is offered to the
//! receiver, and what its answers mean. Windows alone can drag files out; the
//! file is written beforehand into a staging folder, where the receiver
//! copies it from.
use crate::text::{chars_of, digit, digit_char};
use vstd::prelude::*;

verus! {

/// How a drag ended.
#[derive(Clone, Copy, Debug, PartialEq, Eq, Structural)]
pub enum DragOutcome {
    /// The receiver accepted the file (it copies or opens it on its own).
    Dropped,
    /// Escape, a release over nothing, or a receiver that declined.
    Cancelled,
}

/// A character in UTF-16: one unit, or a high and a low one.
pub open spec fn units_of(c: char) -> Seq<u16> {
    let n = c as u32;
    if n < 0x10000 {
        seq![n as u16]
    } else {
        seq![
            (0xD800 + (n - 0x10000) / 0x400) as u16,
            (0xDC00 + (n - 0x10000) % 0x400) as u16,
        ]
    }
}

/// The first `n` characters of `text` in UTF-16.
pub open spec fn wide_text(text: Seq<char>, n: nat) -> Seq<u16>
    decreases n,
{
    if n == 0 {
        Seq::empty()
    } else {
        wide_text(text, (n - 1) as nat) + units_of(text[n - 1])
    }
}

/// Numbers of two bytes each, the low one first.
pub open spec fn unit_bytes(units: Seq<u16>, n: nat) -> Seq<u8>
    decreases n,
{
    if n == 0 {
        Seq::empty()
    } else {
        unit_bytes(units, (n - 1) as nat) + seq![
            (units[n - 1] % 256) as u8,
            (units[n - 1] / 256) as u8,
        ]
    }
}

/// A path as the shell lists it: wide characters and a zero.
pub open spec fn path_bytes(path: Seq<char>) -> Seq<u8> {
    let units = wide_text(path, path.len());
    unit_bytes(units, units.len()) + seq![0u8, 0u8]
}

/// The first `n` paths of the list.
pub open spec fn list_bytes(paths: Seq<Seq<char>>, n: nat) -> Seq<u8>
    decreases n,
{
    if n == 0 {
        Seq::empty()
    } else {
        list_bytes(paths, (n - 1) as nat) + path_bytes(paths[n - 1])
    }
}

/// The header before the list: where the list starts, the drop point, the
/// flag of the window's frame, and that characters are wide.
pub open spec fn header_bytes() -> Seq<u8> {
    seq![20u8, 0, 0, 0, 0, 0, 0, 0, 0, 0, 0, 0, 0, 0, 0, 0, 1, 0, 0, 0]
}

/// The shell's block of dropped files.
pub open spec fn payload_of(paths: Seq<Seq<char>>) -> Seq<u8> {
    header_bytes() + list_bytes(paths, paths.len()) + seq![0u8, 0u8]
}

pub open spec fn texts(paths: Seq<&str>) -> Seq<Seq<char>> {
    Seq::new(paths.len(), |k: int| paths[k]@)
}

/// `path` in UTF-16.
pub fn wide(path: &str) -> (units: Vec<u16>)
    ensures
        units@ == wide_text(path@, path@.len()),
{
    let chars = chars_of(path);
    let mut units: Vec<u16> = Vec::new();
    let mut n: usize = 0;
    assert(units@ =~= wide_text(path@, 0));
    while n < chars.len()
        invariant
            n <= chars@.len(),
            chars@ == path@,
            units@ == wide_text(path@, n as nat),
        decreases chars@.len() - n,
    {
        let c: u32 = chars[n] as u32;
        proof {
            vstd::utf8::char_is_scalar(chars@[n as int]);
        }
        let ghost before = units@;
        if c < 0x10000 {
            units.push(c as u16);
        } else {
            let rest: u32 = c - 0x10000;
            units.push((0xD800 + rest / 0x400) as u16);
            units.push((0xDC00 + rest % 0x400) as u16);
        }
        assert(units@ =~= before + units_of(path@[n as int]));
        n = n + 1;
    }
    units
}

fn push_unit(bytes: &mut Vec<u8>, unit: u16)
    ensures
        final(bytes)@ == old(bytes)@ + seq![(unit % 256) as u8, (unit / 256) as u8],
{
    bytes.push((unit % 256) as u8);
    bytes.push((unit / 256) as u8);
    assert(bytes@ =~= old(bytes)@ + seq![(unit % 256) as u8, (unit / 256) as u8]);
}

fn push_path(bytes: &mut Vec<u8>, path: &str)
    ensures
        final(bytes)@ == old(bytes)@ + path_bytes(path@),
{
    let units = wide(path);
    let mut n: usize = 0;
    assert(bytes@ =~= old(bytes)@ + unit_bytes(units@, 0));
    while n < units.len()
        invariant
            n <= units@.len(),
            bytes@ == old(bytes)@ + unit_bytes(units@, n as nat),
        decreases units@.len() - n,
    {
        push_unit(bytes, units[n]);
        assert(bytes@ =~= old(bytes)@ + unit_bytes(units@, (n + 1) as nat));
        n = n + 1;
    }
    push_unit(bytes, 0);
    assert(bytes@ =~= old(bytes)@ + path_bytes(path@));
}

/// The shell's block of dropped files: a header, then every path as UTF-16
/// with a terminating zero, then one more zero closing the list.
pub fn hdrop_payload(paths: &[&str]) -> (bytes: Vec<u8>)
    ensures
        bytes@ == payload_of(texts(paths@)),
{
    let mut bytes: Vec<u8> = Vec::new();
    push_unit(&mut bytes, 20);
    let mut k: usize = 0;
    while k < 7
        invariant
            k <= 7,
            bytes@.len() == 2 + 2 * k,
            bytes@[0] == 20,
            forall|i: int| 1 <= i < bytes@.len() ==> #[trigger] bytes@[i] == 0,
        decreases 7 - k,
    {
        push_unit(&mut bytes, 0);
        k = k + 1;
    }
    push_unit(&mut bytes, 1);
    push_unit(&mut bytes, 0);
    assert(bytes@ =~= header_bytes());
    let ghost all = texts(paths@);
    let mut n: usize = 0;
    assert(bytes@ =~= header_bytes() + list_bytes(all, 0));
    while n < paths.len()
        invariant
            n <= paths@.len(),
            all == texts(paths@),
            bytes@ == header_bytes() + list_bytes(all, n as nat),
        decreases paths@.len() - n,
    {
        push_path(&mut bytes, paths[n]);
        assert(all[n as int] == paths@[n as int]@);
        assert(bytes@ =~= header_bytes() + list_bytes(all, (n + 1) as nat));
        n = n + 1;
    }
    push_unit(&mut bytes, 0);
    assert(bytes@ =~= payload_of(all));
    bytes
}

/// What UTF-16 says: a high unit and a low one are one character, any other
/// unit is one.
pub open spec fn text_from(units: Seq<u16>, i: int) -> Seq<char>
    decreases units.len() - i,
{
    if i < 0 || i >= units.len() {
        Seq::empty()
    } else if 0xD800 <= units[i] < 0xDC00 && i + 1 < units.len() {
        seq![
            ((0x10000 + (units[i] - 0xD800) * 0x400 + (units[i + 1] - 0xDC00)) as u32) as char,
        ] + text_from(units, i + 2)
    } else {
        seq![(units[i] as u32) as char] + text_from(units, i + 1)
    }
}

proof fn lemma_wide_grows(text: Seq<char>, a: nat, b: nat)
    requires
        a <= b <= text.len(),
    ensures
        wide_text(text, a).len() <= wide_text(text, b).len(),
        forall|i: int|
            0 <= i < wide_text(text, a).len() ==> #[trigger] wide_text(text, b)[i] == wide_text(
                text,
                a,
            )[i],
    decreases b,
{
    if a < b {
        lemma_wide_grows(text, a, (b - 1) as nat);
    }
}

proof fn lemma_reads_from(text: Seq<char>, k: nat)
    requires
        k <= text.len(),
    ensures
        text_from(wide_text(text, text.len()), wide_text(text, k).len() as int) == text.subrange(
            k as int,
            text.len() as int,
        ),
    decreases text.len() - k,
{
    let units = wide_text(text, text.len());
    let i = wide_text(text, k).len() as int;
    if k == text.len() {
        assert(text.subrange(k as int, text.len() as int) =~= Seq::<char>::empty());
    } else {
        let c = text[k as int];
        let n = c as u32;
        vstd::utf8::char_is_scalar(c);
        vstd::utf8::char_u32_cast(c, n);
        lemma_wide_grows(text, k + 1, text.len());
        let next = wide_text(text, k + 1);
        assert(next =~= wide_text(text, k) + units_of(c));
        lemma_reads_from(text, k + 1);
        assert(next[i] == units[i]);
        if n < 0x10000 {
            assert(units[i] == n as u16);
            assert((units[i] as u32) as char == c);
        } else {
            assert(next[i + 1] == units[i + 1]);
            let m = n - 0x10000;
            assert(units_of(c)[0] == 0xD800 + m / 0x400);
            assert(units_of(c)[1] == 0xDC00 + m % 0x400);
            assert(0x10000 + (units[i] - 0xD800) * 0x400 + (units[i + 1] - 0xDC00) == n);
        }
        assert(seq![c] + text.subrange(k as int + 1, text.len() as int) =~= text.subrange(
            k as int,
            text.len() as int,
        ));
    }
}

/// What `wide` writes is the text: read as UTF-16 it gives back every
/// character.
pub proof fn law_wide_text_reads_back(text: Seq<char>)
    ensures
        text_from(wide_text(text, text.len()), 0) == text,
{
    lemma_reads_from(text, 0);
    assert(wide_text(text, 0).len() == 0);
    assert(text.subrange(0, text.len() as int) =~= text);
}

pub open spec fn text_view(text: Option<&str>) -> Option<Seq<char>> {
    match text {
        Some(t) => Some(t@),
        None => None,
    }
}

/// Two folders are one: by their resolved paths where both resolve, else as
/// they are written.
pub open spec fn same_folder(
    a: Seq<char>,
    b: Seq<char>,
    resolved_a: Option<Seq<char>>,
    resolved_b: Option<Seq<char>>,
) -> bool {
    if resolved_a is Some && resolved_b is Some {
        resolved_a == resolved_b
    } else {
        a == b
    }
}

fn same(a: &str, b: &str) -> (yes: bool)
    ensures
        yes == (a@ == b@),
{
    let chars = chars_of(a);
    assert(chars@.subrange(0, chars@.len() as int) =~= a@);
    crate::text::same_text(chars.as_slice(), 0, chars.len(), b)
}

/// Whether two folders are one. `resolved_a` and `resolved_b` are their paths
/// as the file system resolves them, where it does.
pub fn same_dir(a: &str, b: &str, resolved_a: Option<&str>, resolved_b: Option<&str>) -> (yes: bool)
    ensures
        yes == same_folder(a@, b@, text_view(resolved_a), text_view(resolved_b)),
{
    match (resolved_a, resolved_b) {
        (Some(x), Some(y)) => same(x, y),
        _ => same(a, b),
    }
}

/// A folder as it is written, and as the file system resolves it where it
/// does.
#[derive(Clone, Copy, Debug)]
pub struct Folder<'a> {
    pub path: &'a str,
    pub resolved: Option<&'a str>,
}

/// Whether a dropped path is one of our own staged files: a drag that ends
/// back over the window must not be taken as a request to open it. `parent`
/// is the dropped path's folder, if it has one.
pub fn is_staged(parent: Option<Folder>, staging: Folder) -> (yes: bool)
    ensures
        yes == (parent matches Some(p) && same_folder(
            p.path@,
            staging.path@,
            text_view(p.resolved),
            text_view(staging.resolved),
        )),
{
    match parent {
        Some(p) => same_dir(p.path, staging.path, p.resolved, staging.resolved),
        None => false,
    }
}

/// How long a staged file is kept, in seconds.
pub const STAGED_SECONDS: u64 = 86_400;

/// Whether a staged file of this age (seconds and further nanoseconds) is
/// removed: receivers have long finished with one older than a day. A file
/// whose age is unknown stays.
pub fn is_stale(age: Option<(u64, u32)>) -> (stale: bool)
    ensures
        stale == (age matches Some((seconds, nanos)) && (seconds > STAGED_SECONDS || (seconds
            == STAGED_SECONDS && nanos > 0))),
{
    match age {
        Some((seconds, nanos)) => seconds > STAGED_SECONDS || (seconds == STAGED_SECONDS && nanos
            > 0),
        None => false,
    }
}

/// Offers `path` to whatever the user drops it on, where there is no system
/// to drag with.
pub fn drag_file(path: &str) -> (outcome: Result<DragOutcome, String>)
    ensures
        outcome matches Err(text) && text@ == "Dragging files out of the window needs Windows"@,
{
    Err("Dragging files out of the window needs Windows".to_owned())
}

/// An interface's name in OLE.
#[derive(Clone, Copy, Debug, PartialEq, Eq)]
pub struct Guid {
    pub data1: u32,
    pub data2: u16,
    pub data3: u16,
    pub data4: [u8; 8],
}

/// OLE's own interfaces differ in their first number alone.
pub fn ole_guid(data1: u32) -> (guid: Guid)
    ensures
        guid.data1 == data1,
        guid.data2 == 0,
        guid.data3 == 0,
        guid.data4@ == seq![0xC0u8, 0, 0, 0, 0, 0, 0, 0x46],
{
    let guid = Guid { data1, data2: 0, data3: 0, data4: [0xC0, 0, 0, 0, 0, 0, 0, 0x46] };
    assert(guid.data4@ =~= seq![0xC0u8, 0, 0, 0, 0, 0, 0, 0x46]);
    guid
}

/// Whether `a` is there and names the same interface as `b`.
pub fn same_guid(a: Option<&Guid>, b: &Guid) -> (yes: bool)
    ensures
        yes == (a matches Some(x) && x.data1 == b.data1 && x.data2 == b.data2 && x.data3 == b.data3
            && x.data4@ == b.data4@),
{
    match a {
        None => false,
        Some(x) => {
            if x.data1 != b.data1 || x.data2 != b.data2 || x.data3 != b.data3 {
                return false;
            }
            let mut i: usize = 0;
            while i < 8
                invariant
                    i <= 8,
                    a == Some(x),
                    forall|j: int| 0 <= j < i ==> #[trigger] x.data4@[j] == b.data4@[j],
                decreases 8 - i,
            {
                if x.data4[i] != b.data4[i] {
                    assert(x.data4@[i as int] != b.data4@[i as int]);
                    return false;
                }
                i = i + 1;
            }
            assert(x.data4@ =~= b.data4@);
            true
        },
    }
}

pub const S_OK: i32 = 0;

/// The interface is not one of the object's.
pub const E_NOINTERFACE: i32 = -2_147_467_262;

/// An argument is missing.
pub const E_POINTER: i32 = -2_147_467_261;

/// The data does not come in that format.
pub const DV_E_FORMATETC: i32 = -2_147_221_404;

/// The drag ends with a drop.
pub const DRAGDROP_S_DROP: i32 = 0x0004_0100;

/// The drag ends without one.
pub const DRAGDROP_S_CANCEL: i32 = 0x0004_0101;

/// The format of a list of files.
pub const CF_HDROP: u16 = 15;

/// The data itself, not a picture of it.
pub const DVASPECT_CONTENT: u32 = 1;

/// The bit of data handed over in a block of memory.
pub const TYMED_HGLOBAL: u32 = 1;

/// No effect: nothing was taken.
pub const DROPEFFECT_NONE: u32 = 0;

/// The bit of the left mouse button.
pub const MK_LBUTTON: u32 = 1;

/// Number of the interface that every object has.
pub const IUNKNOWN: u32 = 0;

/// The first bit of `n`.
pub open spec fn low_bit(n: u32) -> bool {
    n % 2 == 1
}

/// The answer to a request for an interface: the one that every object has,
/// and `own`, the object's.
pub fn query_interface(iid: Option<&Guid>, own: u32, out_given: bool) -> (code: i32)
    ensures
        !out_given ==> code == E_POINTER,
        out_given ==> code == (if iid matches Some(x) && (x.data1 == IUNKNOWN || x.data1 == own)
            && x.data2 == 0 && x.data3 == 0 && x.data4@ == seq![0xC0u8, 0, 0, 0, 0, 0, 0, 0x46] {
            S_OK
        } else {
            E_NOINTERFACE
        }),
{
    if !out_given {
        E_POINTER
    } else if same_guid(iid, &ole_guid(IUNKNOWN)) || same_guid(iid, &ole_guid(own)) {
        S_OK
    } else {
        E_NOINTERFACE
    }
}

/// Whether the file list can be had in that format.
pub fn accepts(cf_format: u16, tymed: u32, aspect: u32) -> (yes: bool)
    ensures
        yes == (cf_format == CF_HDROP && low_bit(tymed) && aspect == DVASPECT_CONTENT),
{
    assert((tymed & 1u32 != 0) == (tymed % 2 == 1)) by (bit_vector);
    cf_format == CF_HDROP && tymed & TYMED_HGLOBAL != 0 && aspect == DVASPECT_CONTENT
}

/// The answer to the question whether the file list can be had in a format
/// (its number, where the data comes in, its aspect).
pub fn query_data(format: Option<(u16, u32, u32)>) -> (code: i32)
    ensures
        code == match format {
            None => E_POINTER,
            Some((cf, tymed, aspect)) => if cf == CF_HDROP && low_bit(tymed) && aspect
                == DVASPECT_CONTENT {
                S_OK
            } else {
                DV_E_FORMATETC
            },
        },
{
    match format {
        None => E_POINTER,
        Some((cf, tymed, aspect)) => if accepts(cf, tymed, aspect) {
            S_OK
        } else {
            DV_E_FORMATETC
        },
    }
}

/// Escape cancels; releasing the button drops; anything else continues.
pub fn continue_drag(escape_pressed: i32, key_state: u32) -> (code: i32)
    ensures
        code == (if escape_pressed != 0 {
            DRAGDROP_S_CANCEL
        } else if !low_bit(key_state) {
            DRAGDROP_S_DROP
        } else {
            S_OK
        }),
{
    assert((key_state & 1u32 == 0) == (key_state % 2 != 1)) by (bit_vector);
    if escape_pressed != 0 {
        DRAGDROP_S_CANCEL
    } else if key_state & MK_LBUTTON == 0 {
        DRAGDROP_S_DROP
    } else {
        S_OK
    }
}

/// The window that a drag belongs to: the active one, else the foremost.
pub fn drag_window(active: i64, foremost: i64) -> (window: i64)
    ensures
        window == (if active != 0 {
            active
        } else {
            foremost
        }),
{
    if active != 0 {
        active
    } else {
        foremost
    }
}

/// The last `places` hexadecimal digits of `n`.
pub open spec fn hex_digits(n: int, places: nat) -> Seq<char>
    decreases places,
{
    if places == 0 {
        Seq::empty()
    } else {
        hex_digits(n / 16, (places - 1) as nat).push(digit_char(n % 16))
    }
}

/// A code as the number that its bits are without a sign.
pub open spec fn unsigned(code: i32) -> int {
    if code < 0 {
        code + 0x1_0000_0000
    } else {
        code as int
    }
}

fn push_hex_digits(out: &mut String, n: u32, places: u32)
    ensures
        final(out)@ == old(out)@ + hex_digits(n as int, places as nat),
    decreases places,
{
    if places > 0 {
        push_hex_digits(out, n / 16, places - 1);
        out.push(digit((n % 16) as u8));
    }
    assert(out@ =~= old(out)@ + hex_digits(n as int, places as nat));
}

/// What the system's answer to a drag means: a drop that something took, a
/// drop that nothing took or a cancelled drag, else that it could not start.
pub fn drag_outcome(code: i32, effect: u32) -> (outcome: Result<DragOutcome, String>)
    ensures
        match outcome {
            Ok(DragOutcome::Dropped) => code == DRAGDROP_S_DROP && effect != DROPEFFECT_NONE,
            Ok(DragOutcome::Cancelled) => code == DRAGDROP_S_CANCEL || (code == DRAGDROP_S_DROP
                && effect == DROPEFFECT_NONE),
            Err(text) => code != DRAGDROP_S_DROP && code != DRAGDROP_S_CANCEL && text@
                == "The drag could not start (error 0x"@ + hex_digits(unsigned(code), 8) + ")"@,
        },
{
    if code == DRAGDROP_S_DROP && effect != DROPEFFECT_NONE {
        Ok(DragOutcome::Dropped)
    } else if code == DRAGDROP_S_DROP || code == DRAGDROP_S_CANCEL {
        Ok(DragOutcome::Cancelled)
    } else {
        let mut text = "The drag could not start (error 0x".to_owned();
        let bits: u32 = (if code < 0 {
            code as i64 + 0x1_0000_0000
        } else {
            code as i64
        }) as u32;
        push_hex_digits(&mut text, bits, 8);
        text.append(")");
        Err(text)
    }
}

/// The low sixteen bits of `v`.
pub open spec fn low_word(v: i32) -> int {
    unsigned(v) % 0x1_0000
}

/// A point as a mouse message carries it: the low words of its coordinates,
/// with the sign of the upper one.
pub fn click_point(x: i32, y: i32) -> (point: i64)
    ensures
        point == (if low_word(y) >= 0x8000 {
            low_word(y) * 0x1_0000 + low_word(x) - 0x1_0000_0000
        } else {
            low_word(y) * 0x1_0000 + low_word(x)
        }),
{
    let xs: i64 = if x < 0 {
        x as i64 + 0x1_0000_0000
    } else {
        x as i64
    };
    let ys: i64 = if y < 0 {
        y as i64 + 0x1_0000_0000
    } else {
        y as i64
    };
    let word: i64 = (ys % 0x1_0000) * 0x1_0000 + xs % 0x1_0000;
    if word >= 0x8000_0000 {
        word - 0x1_0000_0000
    } else {
        word
    }
}

} // verus!
