//! A picture's card: which picture it draws, with which layers over it, and
//! what the pointer does there.
use crate::desktop::shapes::Drag;
use crate::desktop::{DeriveRequest, Desktop, DesktopView, PopupsView};
use crate::hand::Point;
use crate::window::Window;
use vstd::prelude::*;

verus! {

/// The picture that a card draws.
#[derive(Clone, Copy, Debug, PartialEq, Eq, Structural)]
pub enum Drawn {
    /// The vector on screen: the result's, or the one that a running
    /// conversion replaces.
    Vector,
    /// The picture as it was traced.
    Traced,
    /// The picture as it was opened.
    Opened,
}

/// Where the nodes and the sharp tile over a vector come from.
#[derive(Clone, Copy, Debug, PartialEq, Eq, Structural)]
pub enum Layer {
    Hidden,
    Result,
    /// The result that a running conversion replaces.
    Replaced,
}

/// What a card draws.
#[derive(Clone, Copy, Debug, PartialEq, Eq, Structural)]
pub struct Layers {
    pub picture: Drawn,
    /// The picture's pixels are shown unfiltered.
    pub sharp: bool,
    pub tile: Layer,
    pub nodes: Layer,
    /// Shapes are picked instead of nodes.
    pub shapes: bool,
    /// Nodes answer the pointer.
    pub live: bool,
    /// A file over the window may be dropped here.
    pub drop: bool,
    /// The card offers to show the picture as it was traced.
    pub traced_offered: bool,
}

/// What is known of the pointer over a card on one frame.
#[derive(Clone, Copy, Debug, PartialEq, Eq, Structural)]
pub struct Pointing {
    pub vector: bool,
    /// Shapes are picked on this card instead of nodes.
    pub shapes: bool,
    /// A drag began on this frame.
    pub drag_started: bool,
    /// A drag is under way.
    pub dragged: bool,
    /// The button is up.
    pub released: bool,
    /// The node that the drag began on.
    pub pressed: Option<Point>,
    /// The node under the pointer.
    pub picked: Option<Point>,
    /// Where the pointer has carried a dragged node.
    pub carried: Option<Point>,
    /// A shape is under the pointer.
    pub shape: bool,
    pub hovered: bool,
    /// The picture is larger than its card.
    pub pannable: bool,
    pub ctrl: bool,
    /// There is a drawing from before the roundings.
    pub unrounded: bool,
}

/// How the pointer is drawn.
#[derive(Clone, Copy, Debug, PartialEq, Eq, Structural)]
pub enum Cursor {
    Crosshair,
    PointingHand,
    Grab,
    Grabbing,
}

/// What the pointer did.
#[derive(Clone, Copy, Debug, PartialEq, Eq, Structural)]
pub struct Pointed {
    /// The node drag that began.
    pub begun: Option<Drag>,
    /// The node to show the tip of, to round or to open the menu of.
    pub node: Option<Point>,
    /// The shape under the pointer answers it.
    pub shape: bool,
    /// The drag moves the view.
    pub pans: bool,
    pub cursor: Option<Cursor>,
    /// A node was dropped: the document is drawn again.
    pub derive: Option<DeriveRequest>,
}

impl DesktopView {
    /// What the card of the vector, or of the bitmap, draws. `working` says
    /// that the picture as traced can be drawn, `magnified` that a pixel of
    /// the picture covers two of the screen or more.
    pub open spec fn layers(
        self,
        window: Window,
        vector: bool,
        working: bool,
        magnified: bool,
        hovering: bool,
    ) -> Layers {
        let own = if self.result is Some {
            Layer::Result
        } else {
            Layer::Replaced
        };
        Layers {
            picture: if vector {
                Drawn::Vector
            } else if window.engine_input && working {
                Drawn::Traced
            } else {
                Drawn::Opened
            },
            sharp: !vector && magnified,
            tile: if vector {
                own
            } else {
                Layer::Hidden
            },
            nodes: if vector && window.nodes {
                own
            } else {
                Layer::Hidden
            },
            shapes: vector && window.shapes_mode && self.result is Some,
            live: vector && self.result is Some && !window.shapes_mode,
            drop: !vector && self.idle() && hovering,
            traced_offered: !vector && working && (self.picture.converted_prep matches Some(prep)
                && !prep.is_identity()),
        }
    }

    pub open spec fn dragging(self, at: Point) -> DesktopView {
        DesktopView {
            popups: PopupsView { node_menu: None, node_drag: Some(at), ..self.popups },
            ..self
        }
    }

    /// A drag begins on this frame, and carries this node.
    pub open spec fn begins(self, p: Pointing) -> Option<Point> {
        if p.vector && !p.shapes && self.popups.node_drag is None && p.drag_started {
            p.pressed
        } else {
            None
        }
    }

    pub open spec fn after_press(self, p: Pointing) -> DesktopView {
        match self.begins(p) {
            Some(node) => self.dragging(node),
            None => self,
        }
    }

    /// A node is being carried on this frame.
    pub open spec fn carries(self, p: Pointing) -> bool {
        p.vector && self.after_press(p).popups.node_drag is Some
    }

    pub open spec fn let_go(self) -> DesktopView {
        DesktopView { popups: PopupsView { node_drag: None, ..self.popups }, ..self }
    }

    /// After the pointer's frame: a node carried and let go is moved to where
    /// it was carried, and the document drawn again.
    pub open spec fn pointed(self, p: Pointing) -> (DesktopView, Option<DeriveRequest>) {
        let pressed = self.after_press(p);
        if self.carries(p) && p.released {
            let from = pressed.popups.node_drag->0;
            let to = match p.carried {
                Some(to) => to,
                None => from,
            };
            pressed.let_go().edited(pressed.hand.move_node(from, to), from != to)
        } else {
            (pressed, None)
        }
    }

    pub open spec fn cursor(self, p: Pointing) -> Option<Cursor> {
        if self.carries(p) || p.dragged {
            Some(Cursor::Grabbing)
        } else if p.picked is Some {
            Some(Cursor::PointingHand)
        } else if p.shape {
            if p.hovered {
                Some(Cursor::Crosshair)
            } else {
                None
            }
        } else if p.hovered && (p.pannable || p.ctrl) {
            Some(Cursor::Grab)
        } else {
            None
        }
    }
}

impl Desktop {
    /// What the card of the vector, or of the bitmap, draws. `working` says
    /// that the picture as traced can be drawn, `magnified` that a pixel of
    /// the picture covers two of the screen or more, `hovering` that a file
    /// is over the window.
    pub fn layers(
        &self,
        window: &Window,
        vector: bool,
        working: bool,
        magnified: bool,
        hovering: bool,
    ) -> (layers: Layers)
        ensures
            layers == self@.layers(*window, vector, working, magnified, hovering),
    {
        let shown = self.result.is_some();
        let own = if shown {
            Layer::Result
        } else {
            Layer::Replaced
        };
        let prepared = match &self.picture.converted_prep {
            Some(prep) => !prep.is_identity(),
            None => false,
        };
        Layers {
            picture: if vector {
                Drawn::Vector
            } else if window.engine_input && working {
                Drawn::Traced
            } else {
                Drawn::Opened
            },
            sharp: !vector && magnified,
            tile: if vector {
                own
            } else {
                Layer::Hidden
            },
            nodes: if vector && window.nodes {
                own
            } else {
                Layer::Hidden
            },
            shapes: vector && window.shapes_mode && shown,
            live: vector && shown && !window.shapes_mode,
            drop: !vector && self.idle() && hovering,
            traced_offered: !vector && working && prepared,
        }
    }

    /// Takes the pointer's frame over a card. A drag that starts on a node
    /// carries the node, anywhere else it moves the view; letting a node go
    /// moves it and draws the document again.
    pub fn point(&mut self, p: Pointing) -> (pointed: Pointed)
        ensures
            (final(self)@, pointed.derive) == old(self)@.pointed(p),
            pointed.begun == (match old(self)@.begins(p) {
                Some(node) => Some(
                    Drag {
                        rounding: old(self)@.hand.rounding_of(node),
                        before_rounding: old(self)@.hand.rounding_of(node) is Some && p.unrounded,
                    },
                ),
                None => None,
            }),
            pointed.node == (if old(self)@.carries(p) {
                None
            } else {
                p.picked
            }),
            pointed.shape == (p.shape && p.hovered),
            pointed.pans == (p.dragged && !old(self)@.carries(p)),
            pointed.cursor == old(self)@.cursor(p),
    {
        let mut begun: Option<Drag> = None;
        if p.vector && !p.shapes && self.popups.node_drag.is_none() && p.drag_started {
            if let Some(node) = p.pressed {
                begun = Some(self.begin_node_drag(node, p.unrounded));
            }
        }
        let carrying = p.vector && self.popups.node_drag.is_some();
        let mut derive: Option<DeriveRequest> = None;
        if carrying && p.released {
            if let Some(from) = self.popups.node_drag {
                self.popups.node_drag = None;
                let to = match p.carried {
                    Some(to) => to,
                    None => from,
                };
                derive = self.move_node(from, to);
            }
        }
        let cursor = if carrying || p.dragged {
            Some(Cursor::Grabbing)
        } else if p.picked.is_some() {
            Some(Cursor::PointingHand)
        } else if p.shape {
            if p.hovered {
                Some(Cursor::Crosshair)
            } else {
                None
            }
        } else if p.hovered && (p.pannable || p.ctrl) {
            Some(Cursor::Grab)
        } else {
            None
        };
        Pointed {
            begun,
            node: if carrying {
                None
            } else {
                p.picked
            },
            shape: p.shape && p.hovered,
            pans: p.dragged && !carrying,
            cursor,
            derive,
        }
    }
}

/// The picture that a running conversion replaces stays with its nodes, which
/// answer no pointer until the new result arrives.
pub proof fn law_a_replaced_picture_answers_no_pointer(
    s: DesktopView,
    window: Window,
    working: bool,
    magnified: bool,
    hovering: bool,
)
    requires
        s.picture.size is Some,
        window.nodes,
    ensures
        ({
            let layers = s.start().layers(window, true, working, magnified, hovering);
            layers.nodes == Layer::Replaced && layers.tile == Layer::Replaced && !layers.live
                && !layers.shapes
        }),
{
}

/// A node dragged somewhere is one move of that node: from the frame on which
/// the drag begins to the one on which it ends the view stands still, and the
/// hand's edits change once, at the end.
pub proof fn law_a_dragged_node_moves_once(s: DesktopView, node: Point, to: Point, p: Pointing, q: Pointing)
    requires
        s.popups.node_drag is None,
        p.vector && !p.shapes && p.drag_started && !p.released && p.pressed == Some(node),
        q.vector && q.released && q.carried == Some(to),
    ensures
        s.carries(p),
        s.pointed(p).0.hand == s.hand,
        s.pointed(p).1 is None,
        s.pointed(p).0.carries(q),
        s.pointed(p).0.pointed(q).0.hand == s.hand.move_node(node, to),
        s.pointed(p).0.pointed(q).0.popups.node_drag is None,
{
}

} // verus!
