//! The workspace: which picture is shown, which node or shape the pointer
//! picks, and what the cards say while there is nothing to show.
use crate::hand::{same_point, Point, Rounded};
use crate::reach::Reach;
use crate::shown;
use crate::text::{decimal, push_decimal};
use vstd::prelude::*;

verus! {

/// What the workspace shows.
#[derive(Clone, Copy, Debug, PartialEq, Eq, Structural)]
pub struct Window {
    pub view: shown::View,
    /// In the overlay, the vector rather than the bitmap.
    pub overlay_vector: bool,
    /// The overlay's buttons and keys show the other picture only while held.
    pub hold: bool,
    /// The picture shown while something is held: `Some(true)` the vector.
    pub peek: Option<bool>,
    /// The button held on the last frame.
    pub peek_button: Option<bool>,
    /// The nodes are shown.
    pub nodes: bool,
    /// Shapes are selected by clicking them.
    pub shapes_mode: bool,
    pub delete_on_click: bool,
    /// The source card shows the picture as it was traced.
    pub engine_input: bool,
}

impl Window {
    pub open spec fn holding(self) -> bool {
        self.hold && self.view == shown::View::Overlay
    }

    /// The vector is the picture that the overlay shows.
    pub open spec fn shows_vector(self, has_vector: bool) -> bool {
        has_vector && match self.peek {
            Some(vector) => vector,
            None => self.overlay_vector,
        }
    }

    /// The workspace as it opens: one picture, the vector, with its nodes.
    pub fn new() -> (window: Window)
        ensures
            window == (Window {
                view: shown::View::Overlay,
                overlay_vector: true,
                hold: false,
                peek: None,
                peek_button: None,
                nodes: true,
                shapes_mode: false,
                delete_on_click: false,
                engine_input: false,
            }),
    {
        Window {
            view: shown::View::Overlay,
            overlay_vector: true,
            hold: false,
            peek: None,
            peek_button: None,
            nodes: true,
            shapes_mode: false,
            delete_on_click: false,
            engine_input: false,
        }
    }

    /// Takes the keys held on this frame: B for the bitmap, V for the vector.
    /// Under Hold, the picture held by its key or its button shows until let
    /// go.
    pub fn take_peek(&mut self, bitmap: bool, vector: bool)
        ensures
            ({
                let o = *old(self);
                let key = if bitmap {
                    Some(false)
                } else if vector {
                    Some(true)
                } else {
                    None
                };
                *final(self) == (if o.holding() {
                    Window {
                        peek: if key is Some {
                            key
                        } else {
                            o.peek_button
                        },
                        ..o
                    }
                } else {
                    Window { peek: None, peek_button: None, ..o }
                })
            }),
    {
        if self.hold && self.view == shown::View::Overlay {
            self.peek = if bitmap {
                Some(false)
            } else if vector {
                Some(true)
            } else {
                self.peek_button
            };
        } else {
            self.peek_button = None;
            self.peek = None;
        }
    }

    /// Takes a press of B or V: outside Hold it switches to that picture.
    pub fn press(&mut self, bitmap: bool, vector: bool)
        ensures
            *final(self) == (if (bitmap || vector) && !old(self).holding() {
                Window { view: shown::View::Overlay, overlay_vector: vector, ..*old(self) }
            } else {
                *old(self)
            }),
    {
        if (bitmap || vector) && !(self.hold && self.view == shown::View::Overlay) {
            self.view = shown::View::Overlay;
            self.overlay_vector = vector;
        }
    }

    /// Takes the overlay's two buttons: under Hold, the one held; otherwise
    /// the one clicked.
    pub fn take_buttons(&mut self, bitmap: bool, vector: bool)
        ensures
            ({
                let o = *old(self);
                let button = if bitmap {
                    Some(false)
                } else if vector {
                    Some(true)
                } else {
                    None
                };
                *final(self) == (if o.view != shown::View::Overlay {
                    o
                } else if o.hold {
                    Window { peek_button: button, ..o }
                } else {
                    Window {
                        peek_button: None,
                        overlay_vector: match button {
                            Some(v) => v,
                            None => o.overlay_vector,
                        },
                        ..o
                    }
                })
            }),
    {
        if self.view != shown::View::Overlay {
            return ;
        }
        let button: Option<bool> = if bitmap {
            Some(false)
        } else if vector {
            Some(true)
        } else {
            None
        };
        if self.hold {
            self.peek_button = button;
        } else {
            self.peek_button = None;
            if let Some(v) = button {
                self.overlay_vector = v;
            }
        }
    }

    /// Whether the overlay shows the vector.
    pub fn vector_shown(&self, has_vector: bool) -> (yes: bool)
        ensures
            yes == self.shows_vector(has_vector),
    {
        has_vector && match self.peek {
            Some(vector) => vector,
            None => self.overlay_vector,
        }
    }

    /// What the two buttons' tips say.
    pub fn compare_tips(&self) -> (tips: (&'static str, &'static str))
        ensures
            tips.0@ == (if self.hold {
                "Hold to see the original  (hold B)"@
            } else {
                "Show the original  (B)"@
            }),
            tips.1@ == (if self.hold {
                "Hold to see the vector  (hold V)"@
            } else {
                "Show the vector  (V)"@
            }),
    {
        if self.hold {
            ("Hold to see the original  (hold B)", "Hold to see the vector  (hold V)")
        } else {
            ("Show the original  (B)", "Show the vector  (V)")
        }
    }
}

/// The larger picture that a card leaves room for, times twice the picture's
/// width: `ax` by `ay` points to show a picture of the ratio `n` to `d`, all
/// in 64ths of a point.
pub open spec fn room_beside(ax: int, ay: int, n: int, d: int) -> int {
    let by_width = (ax - 62 * 64) * d;
    let by_height = (ay - 60 * 64) * 2 * n;
    if by_width < by_height {
        by_width
    } else {
        by_height
    }
}

pub open spec fn room_stacked(ax: int, ay: int, n: int, d: int) -> int {
    let by_width = (ax - 26 * 64) * 2 * d;
    let by_height = (ay - 130 * 64) * n;
    if by_width < by_height {
        by_width
    } else {
        by_height
    }
}

/// A ratio is no less than a hundredth.
pub open spec fn ratio(n: u32, d: u32) -> (int, int) {
    if 100 * n < d {
        (1, 100)
    } else {
        (n as int, d as int)
    }
}

/// Picks the orientation that shows the larger picture: next to each other
/// for square and tall pictures, one above the other for wide ones or tall
/// windows, if that shows it larger by more than 15 percent. The space is in
/// 64ths of a point, the picture `n` wide and `d` high. Next to each other,
/// each card loses half a gap of 10 points and 26 of its frame; above each
/// other the same in height, and 34 for its heading.
pub fn stacked_layout(ax: i64, ay: i64, n: u32, d: u32) -> (stacked: bool)
    requires
        d > 0,
    ensures
        stacked == ({
            let (n, d) = ratio(n, d);
            100 * room_stacked(ax as int, ay as int, n, d) > 115 * room_beside(
                ax as int,
                ay as int,
                n,
                d,
            )
        }),
{
    let (n, d): (i128, i128) = if 100 * (n as u64) < d as u64 {
        (1, 100)
    } else {
        (n as i128, d as i128)
    };
    let ax: i128 = ax as i128;
    let ay: i128 = ay as i128;
    let a = scaled_by(ax - 62 * 64, d);
    let b = scaled_by((ay - 60 * 64) * 2, n);
    let c = scaled_by((ax - 26 * 64) * 2, d);
    let e = scaled_by(ay - 130 * 64, n);
    let beside = if a < b {
        a
    } else {
        b
    };
    let stacked = if c < e {
        c
    } else {
        e
    };
    100 * stacked > 115 * beside
}

fn scaled_by(v: i128, k: i128) -> (p: i128)
    requires
        -20_000_000_000_000_000_000 <= v <= 20_000_000_000_000_000_000,
        0 <= k <= 5_000_000_000,
    ensures
        p == v * k,
        -100_000_000_000_000_000_000_000_000_000 <= p <= 100_000_000_000_000_000_000_000_000_000,
{
    assert(-100_000_000_000_000_000_000_000_000_000 <= v * k
        <= 100_000_000_000_000_000_000_000_000_000) by (nonlinear_arith)
        requires
            -20_000_000_000_000_000_000 <= v <= 20_000_000_000_000_000_000,
            0 <= k <= 5_000_000_000,
    ;
    v * k
}

/// The nearest of `list` within `limit`: the first of those as near.
pub open spec fn is_nearest(list: Seq<u32>, limit: u32, at: int) -> bool {
    &&& 0 <= at < list.len()
    &&& list[at] <= limit
    &&& forall|j: int| 0 <= j < list.len() ==> list[at] <= #[trigger] list[j]
    &&& forall|j: int| 0 <= j < at ==> list[at] < #[trigger] list[j]
}

/// The node that the pointer picks: the nearest within reach. The distances,
/// and the reach, are the bits of numbers that are not negative, which order
/// as the numbers do.
pub fn pick_nearest(list: &Vec<u32>, limit: u32) -> (picked: Option<usize>)
    ensures
        picked matches Some(at) ==> is_nearest(list@, limit, at as int),
        picked is None ==> forall|j: int| 0 <= j < list@.len() ==> #[trigger] list@[j] > limit,
{
    let mut best: Option<usize> = None;
    let mut i: usize = 0;
    while i < list.len()
        invariant
            i <= list@.len(),
            best matches Some(at) ==> {
                &&& at < i
                &&& list@[at as int] <= limit
                &&& forall|j: int| 0 <= j < i ==> list@[at as int] <= #[trigger] list@[j]
                &&& forall|j: int| 0 <= j < at ==> list@[at as int] < #[trigger] list@[j]
            },
            best is None ==> forall|j: int| 0 <= j < i ==> #[trigger] list@[j] > limit,
        decreases list@.len() - i,
    {
        let d: u32 = list[i];
        let nearer: bool = match best {
            Some(at) => d < list[at],
            None => true,
        };
        if d <= limit && nearer {
            best = Some(i);
        }
        i = i + 1;
    }
    best
}

/// Of the distances, the one at `at` is the least, and the first of those as
/// small.
pub open spec fn is_least(distances: Seq<u64>, at: int) -> bool {
    &&& 0 <= at < distances.len()
    &&& forall|j: int| 0 <= j < distances.len() ==> distances[at] <= #[trigger] distances[j]
    &&& forall|j: int| 0 <= j < at ==> distances[at] < #[trigger] distances[j]
}

/// The node nearest a point, for a picture of the window without one: the
/// first of those as near. The distances are the bits of numbers that are not
/// negative; `drawn` says whether there is a document.
pub fn nearest_node(drawn: bool, distances: &Vec<u64>) -> (node: Result<usize, &'static str>)
    ensures
        match node {
            Ok(at) => drawn && is_least(distances@, at as int),
            Err(error) => if drawn {
                distances@.len() == 0 && error@ == "The document has no nodes"@
            } else {
                error@ == "Convert an image before rounding a node"@
            },
        },
{
    if !drawn {
        return Err("Convert an image before rounding a node");
    }
    if distances.len() == 0 {
        return Err("The document has no nodes");
    }
    let mut best: usize = 0;
    let mut i: usize = 1;
    while i < distances.len()
        invariant
            best < i <= distances@.len(),
            forall|j: int| 0 <= j < i ==> distances@[best as int] <= #[trigger] distances@[j],
            forall|j: int| 0 <= j < best ==> distances@[best as int] < #[trigger] distances@[j],
        decreases distances@.len() - i,
    {
        if distances[i] < distances[best] {
            best = i;
        }
        i = i + 1;
    }
    Ok(best)
}

/// The rounded corners that the shown document has no node at: they are cut
/// out of it, and their marker stays where the corner was.
pub open spec fn ghosts_of(rounded: Seq<Rounded>, nodes: Seq<Point>, n: nat) -> Seq<Point>
    decreases n,
{
    if n == 0 {
        Seq::empty()
    } else {
        let before = ghosts_of(rounded, nodes, (n - 1) as nat);
        if nodes.contains(rounded[n - 1].at) {
            before
        } else {
            before.push(rounded[n - 1].at)
        }
    }
}

fn has_point(list: &Vec<Point>, p: &Point) -> (yes: bool)
    ensures
        yes == list@.contains(*p),
{
    let mut i: usize = 0;
    while i < list.len()
        invariant
            i <= list@.len(),
            forall|j: int| 0 <= j < i ==> #[trigger] list@[j] != *p,
        decreases list@.len() - i,
    {
        if same_point(&list[i], p) {
            assert(list@[i as int] == *p);
            return true;
        }
        i = i + 1;
    }
    false
}

/// The markers of rounded corners that are cut out of the document.
pub fn ghosts(rounded: &Vec<Rounded>, nodes: &Vec<Point>) -> (list: Vec<Point>)
    ensures
        list@ == ghosts_of(rounded@, nodes@, rounded@.len()),
{
    let mut list: Vec<Point> = Vec::new();
    let mut i: usize = 0;
    assert(list@ =~= ghosts_of(rounded@, nodes@, 0));
    while i < rounded.len()
        invariant
            i <= rounded@.len(),
            list@ == ghosts_of(rounded@, nodes@, i as nat),
        decreases rounded@.len() - i,
    {
        let at: Point = rounded[i].at;
        if !has_point(nodes, &at) {
            list.push(at);
        }
        i = i + 1;
    }
    list
}

/// What the tip over a node says.
pub fn node_tip(rounding: Option<Reach>, moved: bool) -> (text: String)
    ensures
        text@ == (match rounding {
            Some(reach) => "Rounded ("@ + reach.name()
                + "). Click to restore · drag to move · right-click for more"@,
            None => if moved {
                "Moved. Click to round · drag to move · right-click to put it back"@
            } else {
                "Click to round this corner · drag to move it · right-click for more"@
            },
        }),
{
    match rounding {
        Some(reach) => {
            let mut text = "Rounded (".to_owned();
            text.append(reach.label());
            text.append("). Click to restore · drag to move · right-click for more");
            text
        },
        None => if moved {
            "Moved. Click to round · drag to move · right-click to put it back".to_owned()
        } else {
            "Click to round this corner · drag to move it · right-click for more".to_owned()
        },
    }
}

/// The heading of a node's menu.
pub fn node_heading(rounding: Option<Reach>, moved: bool) -> (text: String)
    ensures
        text@ == (match rounding {
            Some(reach) => if moved {
                "Moved · rounded corner · "@ + reach.name()
            } else {
                "Rounded corner · "@ + reach.name()
            },
            None => if moved {
                "Moved node"@
            } else {
                "Corner node"@
            },
        }),
{
    match rounding {
        Some(reach) => {
            let mut text = if moved {
                "Moved · rounded corner · ".to_owned()
            } else {
                "Rounded corner · ".to_owned()
            };
            text.append(reach.label());
            text
        },
        None => if moved {
            "Moved node".to_owned()
        } else {
            "Corner node".to_owned()
        },
    }
}

/// What the tip over a shape says.
pub fn shape_tip(color: &str, delete_on_click: bool, selected: bool) -> (text: String)
    ensures
        text@ == color@ + (if delete_on_click {
            "  ·  click to delete"@
        } else if selected {
            "  ·  selected; click to deselect · right-click for more"@
        } else {
            "  ·  click to select · right-click for more"@
        }),
{
    let mut text = color.to_owned();
    text.append(
        if delete_on_click {
            "  ·  click to delete"
        } else if selected {
            "  ·  selected; click to deselect · right-click for more"
        } else {
            "  ·  click to select · right-click for more"
        },
    );
    text
}

/// What a picture's card says on the right of its heading: that it converts,
/// or what was done to the picture before it was traced.
pub open spec fn detail_of(
    vector: bool,
    converting: bool,
    prepared: Option<(Option<usize>, bool, usize)>,
) -> Seq<char> {
    if vector {
        if converting {
            "Converting…"@
        } else {
            ""@
        }
    } else {
        match prepared {
            Some((colors, flattened, merged)) => {
                let a = match colors {
                    Some(n) => decimal(n as nat) + " colors"@,
                    None => Seq::empty(),
                };
                let b = if flattened {
                    appended(a, "flattened"@)
                } else {
                    a
                };
                if merged > 0 {
                    appended(b, decimal(merged as nat) + " merged"@)
                } else {
                    b
                }
            },
            None => ""@,
        }
    }
}

pub open spec fn appended(before: Seq<char>, more: Seq<char>) -> Seq<char> {
    if before.len() == 0 {
        more
    } else {
        before + " · "@ + more
    }
}

/// What a picture's card says on the right of its heading. `prepared` is the
/// limit of colours, whether a background was laid, and how many times pixels
/// were recoloured, once the picture was traced.
pub fn card_detail(
    vector: bool,
    converting: bool,
    prepared: Option<(Option<usize>, bool, usize)>,
) -> (text: String)
    ensures
        text@ == detail_of(vector, converting, prepared),
{
    if vector {
        return if converting {
            "Converting…".to_owned()
        } else {
            "".to_owned()
        };
    }
    match prepared {
        Some((colors, flattened, merged)) => {
            let mut text = String::new();
            let mut empty: bool = true;
            let ghost none = Seq::<char>::empty();
            assert(text@ =~= none);
            if let Some(n) = colors {
                push_decimal(&mut text, n as u64);
                assert(text@ =~= decimal(n as nat));
                text.append(" colors");
                proof {
                    reveal_strlit(" colors");
                }
                empty = false;
            }
            let ghost a = text@;
            assert(empty == (a.len() == 0));
            if flattened {
                if !empty {
                    text.append(" · ");
                }
                text.append("flattened");
                proof {
                    reveal_strlit("flattened");
                }
                assert(text@ =~= appended(a, "flattened"@));
                empty = false;
            }
            let ghost b = text@;
            assert(empty == (b.len() == 0));
            if merged > 0 {
                if !empty {
                    text.append(" · ");
                }
                push_decimal(&mut text, merged as u64);
                text.append(" merged");
                assert(text@ =~= appended(b, decimal(merged as nat) + " merged"@));
            }
            text
        },
        None => "".to_owned(),
    }
}

/// What a card says with nothing to show: on the vector's, a conversion that
/// runs, or that one can start.
pub fn empty_state(vector: bool, converting: bool, has_picture: bool) -> (title: &'static str)
    ensures
        title@ == (if vector && converting {
            "Converting…"@
        } else if vector && has_picture {
            "Ready to convert"@
        } else if vector {
            "The vector appears here"@
        } else {
            "No picture"@
        }),
{
    if vector && converting {
        "Converting…"
    } else if vector && has_picture {
        "Ready to convert"
    } else if vector {
        "The vector appears here"
    } else {
        "No picture"
    }
}

/// What the welcome card's buttons asked for.
#[derive(Clone, Copy, Debug, PartialEq, Eq, Structural)]
pub enum Start {
    Nothing,
    Browse,
    Sample,
}

/// What the welcome card says: that a file can be dropped, the status line
/// while something is under way, or what to do.
pub fn welcome_text<'a>(idle: bool, hovering: bool, status: &'a str) -> (text: (&'a str, &'static str))
    ensures
        text.0@ == (if idle && hovering {
            "Drop to open"@
        } else if !idle {
            status@
        } else {
            "Drop an image here"@
        }),
        text.1@ == (if idle && !hovering {
            "A logo, a drawing or a photo"@
        } else {
            ""@
        }),
{
    if idle && hovering {
        ("Drop to open", "")
    } else if !idle {
        (status, "")
    } else {
        ("Drop an image here", "A logo, a drawing or a photo")
    }
}

/// What a click on the welcome card asks for; nothing while something is
/// under way or a file is carried over it.
pub fn drop_zone(idle: bool, hovering: bool, browse: bool, sample: bool, zone: bool) -> (start: Start)
    ensures
        start == (if !idle || hovering {
            Start::Nothing
        } else if browse {
            Start::Browse
        } else if sample {
            Start::Sample
        } else if zone {
            Start::Browse
        } else {
            Start::Nothing
        }),
{
    if !idle || hovering {
        Start::Nothing
    } else if browse {
        Start::Browse
    } else if sample {
        Start::Sample
    } else if zone {
        Start::Browse
    } else {
        Start::Nothing
    }
}

/// A sharp tile of the drawing: the document, and the bits of the scale, the
/// display's pixels per point, and its place, with its size.
#[derive(Clone, Copy, Debug, PartialEq, Eq, Structural)]
pub struct TileKey {
    pub version: u64,
    pub scale: u32,
    pub ppp: u32,
    pub x: u32,
    pub y: u32,
    pub width: u32,
    pub height: u32,
}

/// The tile that the view last wanted, and since when.
#[derive(Clone, Copy, Debug, PartialEq, Eq, Structural)]
pub struct Wanted {
    pub key: TileKey,
    pub since: u64,
}

/// How much longer the view must rest before the tile `key` is asked for, at
/// `now`: a tile that was not wanted before starts to wait. `rest` is how long
/// it must rest, 0 where it need not.
pub fn tile_rest(wanted: &mut Option<Wanted>, key: TileKey, now: u64, rest: u64) -> (wait: Option<
    u64,
>)
    ensures
        rest == 0 ==> wait is None && *final(wanted) == *old(wanted),
        rest > 0 ==> match *old(wanted) {
            Some(w) => if w.key == key {
                let waited = if now < w.since {
                    0
                } else {
                    now - w.since
                };
                &&& *final(wanted) == *old(wanted)
                &&& wait is Some == (waited < rest)
                &&& wait matches Some(more) ==> more == rest - waited
            } else {
                *final(wanted) == Some(Wanted { key, since: now }) && wait == Some(rest)
            },
            None => *final(wanted) == Some(Wanted { key, since: now }) && wait == Some(rest),
        },
{
    if rest == 0 {
        return None;
    }
    if let Some(w) = *wanted {
        if w.key == key {
            let waited: u64 = if now < w.since {
                0
            } else {
                now - w.since
            };
            return if waited < rest {
                Some(rest - waited)
            } else {
                None
            };
        }
    }
    *wanted = Some(Wanted { key, since: now });
    Some(rest)
}

/// Takes a tile that came back: one of another document is dropped. Whether
/// it is shown, and what is still asked for.
pub fn receive_tile(key: TileKey, document: u64, pending: Option<TileKey>) -> (taken: (bool, Option<
    TileKey,
>))
    ensures
        taken.0 == (key.version == document),
        taken.1 == (if taken.0 && pending == Some(key) {
            None
        } else {
            pending
        }),
{
    if key.version != document {
        return (false, pending);
    }
    match pending {
        Some(p) => if p == key {
            (true, None)
        } else {
            (true, pending)
        },
        None => (true, None),
    }
}

/// How long the pointer must rest on the rail's scroll bar, in milliseconds,
/// before the bar takes it.
pub const RAIL_BAR_DELAY: u64 = 350;

/// Looks at the pointer on the rail's scroll bar at `now`: whether the bar
/// takes drags and clicks, and how much longer until it does. A pointer that
/// only passes over never grabs it.
pub fn rail_bar(since: &mut Option<u64>, over: bool, dragging: bool, now: u64) -> (bar: (bool, Option<
    u64,
>))
    ensures
        *final(since) == (if over || dragging {
            match *old(since) {
                Some(s) => Some(s),
                None => Some(now),
            }
        } else {
            None
        }),
        ({
            let rested = match *final(since) {
                Some(s) => if now < s {
                    0
                } else {
                    now - s
                },
                None => 0,
            };
            &&& bar.0 == (dragging || (over && rested >= RAIL_BAR_DELAY))
            &&& bar.1 is Some == (over && !bar.0)
            &&& bar.1 matches Some(more) ==> more == RAIL_BAR_DELAY - rested
        }),
{
    if !over && !dragging {
        *since = None;
        return (false, None);
    }
    let from: u64 = match *since {
        Some(s) => s,
        None => now,
    };
    *since = Some(from);
    let rested: u64 = if now < from {
        0
    } else {
        now - from
    };
    if dragging || rested >= RAIL_BAR_DELAY {
        (true, None)
    } else {
        (false, Some(RAIL_BAR_DELAY - rested))
    }
}

/// Holding to compare changes nothing for good: while a picture is held it is
/// the one shown, and once let go the picture chosen before is back.
pub proof fn law_letting_go_puts_the_picture_back(w: Window, held: bool)
    requires
        w.holding(),
    ensures
        (Window { peek: Some(held), ..w }).shows_vector(true) == held,
        (Window { peek: None, ..(Window { peek: Some(held), ..w }) }).shows_vector(true)
            == w.overlay_vector,
{
}

/// No node out of reach is picked, and at most one node is nearest.
pub proof fn law_one_node_is_nearest(list: Seq<u32>, limit: u32, a: int, b: int)
    requires
        is_nearest(list, limit, a),
        is_nearest(list, limit, b),
    ensures
        a == b,
        list[a] <= limit,
{
    if a < b {
        assert(list[b] < list[a]);
    } else if b < a {
        assert(list[a] < list[b]);
    }
}

} // verus!
