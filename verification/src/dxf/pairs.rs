//! A DXF being written: group code and value pairs.
use crate::geometry::Xy;
use crate::text::{decimal, hex, number, push_decimal, push_hex, push_number, push_wide};
use vstd::prelude::*;
use vstd::utf8::encode_utf8;

verus! {

/// A group's value: text, a whole number, a coordinate in millionths, or a
/// handle.
pub enum Value {
    Text(Seq<char>),
    Int(int),
    Number(int),
    Handle(nat),
}

/// A group code and its value.
pub struct Group {
    pub code: int,
    pub value: Value,
}

/// A value as it is written.
pub open spec fn written(value: Value) -> Seq<char> {
    match value {
        Value::Text(text) => text,
        Value::Int(n) => if n < 0 {
            seq!['-'] + decimal((-n) as nat)
        } else {
            decimal(n as nat)
        },
        Value::Number(n) => number(n),
        Value::Handle(n) => hex(n),
    }
}

/// A group code, right-aligned in three places.
pub open spec fn code_text(code: int) -> Seq<char> {
    let blanks = if code < 10 {
        seq![' ', ' ']
    } else if code < 100 {
        seq![' ']
    } else {
        Seq::empty()
    };
    blanks + decimal(code as nat)
}

pub open spec fn line_end() -> Seq<char> {
    seq!['\r', '\n']
}

/// A group's two lines.
pub open spec fn group_text(group: Group) -> Seq<char> {
    code_text(group.code) + line_end() + written(group.value) + line_end()
}

/// The text of `groups`: two lines each, ended by carriage return and line
/// feed.
pub open spec fn render(groups: Seq<Group>) -> Seq<char>
    decreases groups.len(),
{
    if groups.len() == 0 {
        Seq::empty()
    } else {
        render(groups.drop_last()) + group_text(groups.last())
    }
}

/// The text of two runs of groups is the text of one after the other.
pub proof fn lemma_render_adds(a: Seq<Group>, b: Seq<Group>)
    ensures
        render(a + b) == render(a) + render(b),
    decreases b.len(),
{
    if b.len() == 0 {
        assert(a + b =~= a);
        assert(render(a) + render(b) =~= render(a));
    } else {
        assert((a + b).drop_last() =~= a + b.drop_last());
        lemma_render_adds(a, b.drop_last());
        assert(render(a + b) =~= render(a) + render(b));
    }
}

/// A group takes four characters at least: the ends of its lines.
proof fn lemma_render_takes_room(groups: Seq<Group>)
    ensures
        render(groups).len() >= 4 * groups.len(),
    decreases groups.len(),
{
    if groups.len() > 0 {
        lemma_render_takes_room(groups.drop_last());
    }
}

/// A character takes a byte at least.
proof fn lemma_bytes_take_room(text: Seq<char>)
    ensures
        encode_utf8(text).len() >= text.len(),
    decreases text.len(),
{
    if text.len() > 0 {
        lemma_bytes_take_room(text.drop_first());
    }
}

pub open spec fn text(code: int, value: Seq<char>) -> Group {
    Group { code, value: Value::Text(value) }
}

pub open spec fn int_group(code: int, n: int) -> Group {
    Group { code, value: Value::Int(n) }
}

pub open spec fn coordinate(code: int, n: int) -> Group {
    Group { code, value: Value::Number(n) }
}

pub open spec fn handle(code: int, n: int) -> Group {
    Group { code, value: Value::Handle(n as nat) }
}

/// A point's x and y under `code` and `code + 10`.
pub open spec fn point2(code: int, p: Xy) -> Seq<Group> {
    seq![coordinate(code, p.x as int), coordinate(code + 10, p.y as int)]
}

/// A point with z 0.
pub open spec fn point3(code: int, p: Xy) -> Seq<Group> {
    point2(code, p).push(text(code + 20, "0.0"@))
}

/// A DXF being written: group code and value pairs, CR LF lines, the codes
/// right-aligned in three places as AutoCAD writes them.
pub struct Dxf {
    pub text: String,
    pub groups: Ghost<Seq<Group>>,
}

impl Dxf {
    pub open spec fn wf(&self) -> bool {
        self.text@ == render(self.groups@)
    }

    pub fn new() -> (dxf: Self)
        ensures
            dxf.wf(),
            dxf.groups@ == Seq::<Group>::empty(),
    {
        let text = String::new();
        Dxf { text, groups: Ghost(Seq::empty()) }
    }

    /// The size in bytes of what has been written: each group takes four at
    /// least.
    pub fn size(&self) -> (n: usize)
        requires
            self.wf(),
        ensures
            n == encode_utf8(self.text@).len(),
            n >= 4 * self.groups@.len(),
    {
        proof {
            lemma_render_takes_room(self.groups@);
            lemma_bytes_take_room(self.text@);
        }
        self.text.as_str().as_bytes().len()
    }

    fn head(&mut self, code: u16)
        requires
            old(self).wf(),
        ensures
            final(self).text@ == old(self).text@ + (code_text(code as int) + line_end()),
            final(self).groups == old(self).groups,
    {
        let ghost before = self.text@;
        if code < 10 {
            self.text.append("  ");
            proof {
                reveal_strlit("  ");
                assert("  "@ =~= seq![' ', ' ']);
            }
        } else if code < 100 {
            self.text.append(" ");
            proof {
                reveal_strlit(" ");
                assert(" "@ =~= seq![' ']);
            }
        }
        push_decimal(&mut self.text, code as u64);
        self.text.push('\r');
        self.text.push('\n');
        assert(self.text@ =~= before + (code_text(code as int) + line_end()));
    }

    /// Ends the group `group`, whose value has been written.
    fn close(&mut self, group: Ghost<Group>)
        requires
            old(self).text@ == render(old(self).groups@) + (code_text(group@.code) + line_end())
                + written(group@.value),
        ensures
            final(self).wf(),
            final(self).groups@ == old(self).groups@.push(group@),
    {
        self.text.push('\r');
        self.text.push('\n');
        proof {
            let before = self.groups@;
            self.groups@ = before.push(group@);
            assert(before.push(group@).drop_last() =~= before);
            assert(self.text@ =~= render(before) + group_text(group@));
        }
    }

    /// A group with a text value.
    pub fn pair(&mut self, code: u16, value: &str)
        requires
            old(self).wf(),
        ensures
            final(self).wf(),
            final(self).groups@ == old(self).groups@.push(text(code as int, value@)),
    {
        self.head(code);
        self.text.append(value);
        self.close(Ghost(text(code as int, value@)));
    }

    /// A group with a whole number.
    pub fn pair_int(&mut self, code: u16, n: i64)
        requires
            old(self).wf(),
            n > i64::MIN,
        ensures
            final(self).wf(),
            final(self).groups@ == old(self).groups@.push(int_group(code as int, n as int)),
    {
        self.head(code);
        let ghost before = self.text@;
        let size: u64 = if n < 0 {
            self.text.push('-');
            (-n) as u64
        } else {
            n as u64
        };
        push_decimal(&mut self.text, size);
        assert(self.text@ =~= before + written(Value::Int(n as int)));
        self.close(Ghost(int_group(code as int, n as int)));
    }

    /// A group with a count.
    pub fn pair_count(&mut self, code: u16, n: usize)
        requires
            old(self).wf(),
        ensures
            final(self).wf(),
            final(self).groups@ == old(self).groups@.push(int_group(code as int, n as int)),
    {
        self.head(code);
        push_decimal(&mut self.text, n as u64);
        self.close(Ghost(int_group(code as int, n as int)));
    }

    /// A group with a large whole number.
    pub fn pair_wide(&mut self, code: u16, n: u128)
        requires
            old(self).wf(),
        ensures
            final(self).wf(),
            final(self).groups@ == old(self).groups@.push(int_group(code as int, n as int)),
    {
        self.head(code);
        push_wide(&mut self.text, n);
        self.close(Ghost(int_group(code as int, n as int)));
    }

    /// A group with a coordinate.
    pub fn pair_number(&mut self, code: u16, n: i64)
        requires
            old(self).wf(),
            n > i64::MIN,
        ensures
            final(self).wf(),
            final(self).groups@ == old(self).groups@.push(coordinate(code as int, n as int)),
    {
        self.head(code);
        push_number(&mut self.text, n);
        self.close(Ghost(coordinate(code as int, n as int)));
    }

    /// A group with a handle.
    pub fn pair_handle(&mut self, code: u16, n: u64)
        requires
            old(self).wf(),
        ensures
            final(self).wf(),
            final(self).groups@ == old(self).groups@.push(handle(code as int, n as int)),
    {
        self.head(code);
        push_hex(&mut self.text, n);
        self.close(Ghost(handle(code as int, n as int)));
    }

    /// A point's x and y under `code` and `code + 10`.
    pub fn xy(&mut self, code: u16, p: Xy)
        requires
            old(self).wf(),
            code <= 1000,
            p.x > i64::MIN,
            p.y > i64::MIN,
        ensures
            final(self).wf(),
            final(self).groups@ == old(self).groups@ + point2(code as int, p),
    {
        self.pair_number(code, p.x);
        self.pair_number(code + 10, p.y);
        assert(self.groups@ =~= old(self).groups@ + point2(code as int, p));
    }

    /// A point with z 0.
    pub fn xyz(&mut self, code: u16, p: Xy)
        requires
            old(self).wf(),
            code <= 1000,
            p.x > i64::MIN,
            p.y > i64::MIN,
        ensures
            final(self).wf(),
            final(self).groups@ == old(self).groups@ + point3(code as int, p),
    {
        self.xy(code, p);
        self.pair(code + 20, "0.0");
        assert(self.groups@ =~= old(self).groups@ + point3(code as int, p));
    }
}

} // verus!
