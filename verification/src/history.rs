//! Undo and Redo.
use crate::settings::{same_recolors, Edits, EditsView};
use vstd::prelude::*;

verus! {

/// How many edits Undo remembers.
pub const UNDO_LIMIT: usize = 200;

/// The edits before each change, the ones undone, and the edits as last
/// recorded.
#[derive(Debug)]
pub struct History {
    pub undo: Vec<Edits>,
    pub redo: Vec<Edits>,
    pub seen: Option<Edits>,
}

#[verifier::ext_equal]
pub struct HistoryView {
    pub undo: Seq<EditsView>,
    pub redo: Seq<EditsView>,
    pub seen: Option<EditsView>,
}

pub open spec fn edits_views(list: Seq<Edits>) -> Seq<EditsView> {
    Seq::new(list.len(), |i: int| list[i]@)
}

pub open spec fn seen_view(seen: Option<Edits>) -> Option<EditsView> {
    match seen {
        Some(edits) => Some(edits@),
        None => None,
    }
}

impl View for History {
    type V = HistoryView;

    open spec fn view(&self) -> HistoryView {
        HistoryView {
            undo: edits_views(self.undo@),
            redo: edits_views(self.redo@),
            seen: seen_view(self.seen),
        }
    }
}

/// What became of a press of Undo or Redo.
#[derive(Debug)]
pub enum Step {
    /// There is nothing to undo or redo.
    Nothing,
    /// The step converts again, and a conversion, dialog or save is out.
    Busy,
    /// These edits come into force.
    Done(Edits),
}

#[verifier::ext_equal]
pub enum StepView {
    Nothing,
    Busy,
    Done(EditsView),
}

impl View for Step {
    type V = StepView;

    open spec fn view(&self) -> StepView {
        match self {
            Step::Nothing => StepView::Nothing,
            Step::Busy => StepView::Busy,
            Step::Done(edits) => StepView::Done(edits@),
        }
    }
}

impl HistoryView {
    /// Undo and Redo together remember no more than the limit.
    pub open spec fn ok(self) -> bool {
        self.undo.len() + self.redo.len() <= UNDO_LIMIT
    }

    pub open spec fn empty() -> HistoryView {
        HistoryView { undo: Seq::empty(), redo: Seq::empty(), seen: None }
    }

    /// After `before` became a step of Undo: the oldest step goes past the
    /// limit, and nothing is left to redo.
    pub open spec fn pushed(self, before: EditsView) -> HistoryView {
        let undo = self.undo.push(before);
        HistoryView {
            undo: if undo.len() > UNDO_LIMIT {
                undo.subrange(1, undo.len() as int)
            } else {
                undo
            },
            redo: Seq::empty(),
            seen: self.seen,
        }
    }

    /// After whatever changed since the last record became one step.
    pub open spec fn recorded(self, now: EditsView) -> HistoryView {
        match self.seen {
            Some(seen) => if seen == now {
                self
            } else {
                HistoryView { seen: Some(now), ..self.pushed(seen) }
            },
            None => HistoryView { seen: Some(now), ..self },
        }
    }

    /// After the edits were taken as they are without a step, but for pixels
    /// recoloured meanwhile.
    pub open spec fn settled(self, now: EditsView) -> HistoryView {
        match self.seen {
            Some(seen) => if seen.prep.recolors != now.prep.recolors {
                HistoryView { seen: Some(now), ..self.pushed(seen) }
            } else {
                HistoryView { seen: Some(now), ..self }
            },
            None => HistoryView { seen: Some(now), ..self },
        }
    }

    /// After Undo was pressed with the edits at `now`.
    pub open spec fn undone(self, now: EditsView, idle: bool) -> (HistoryView, StepView) {
        let h = self.recorded(now);
        if h.undo.len() == 0 {
            (h, StepView::Nothing)
        } else {
            let previous = h.undo.last();
            if previous.prep.recolors != now.prep.recolors && !idle {
                (h, StepView::Busy)
            } else {
                (
                    HistoryView {
                        undo: h.undo.drop_last(),
                        redo: h.redo.push(now),
                        seen: Some(previous),
                    },
                    StepView::Done(previous),
                )
            }
        }
    }

    /// After Redo was pressed with the edits at `now`.
    pub open spec fn redone(self, now: EditsView, idle: bool) -> (HistoryView, StepView) {
        let h = self.recorded(now);
        if h.redo.len() == 0 {
            (h, StepView::Nothing)
        } else {
            let next = h.redo.last();
            if next.prep.recolors != now.prep.recolors && !idle {
                (h, StepView::Busy)
            } else {
                (
                    HistoryView {
                        undo: h.undo.push(now),
                        redo: h.redo.drop_last(),
                        seen: Some(next),
                    },
                    StepView::Done(next),
                )
            }
        }
    }
}

impl History {
    pub fn new() -> (history: History)
        ensures
            history@ == HistoryView::empty(),
            history@.ok(),
    {
        let history = History { undo: Vec::new(), redo: Vec::new(), seen: None };
        assert(edits_views(history.undo@) =~= Seq::<EditsView>::empty());
        assert(edits_views(history.redo@) =~= Seq::<EditsView>::empty());
        history
    }

    fn push_undo(&mut self, before: Edits)
        requires
            old(self)@.ok(),
        ensures
            final(self)@ == old(self)@.pushed(before@),
            final(self)@.ok(),
    {
        let ghost start = edits_views(self.undo@);
        self.undo.push(before);
        assert(edits_views(self.undo@) =~= start.push(before@));
        if self.undo.len() > UNDO_LIMIT {
            let ghost all = edits_views(self.undo@);
            self.undo.remove(0);
            assert(edits_views(self.undo@) =~= all.subrange(1, all.len() as int));
        }
        self.redo = Vec::new();
        assert(edits_views(self.redo@) =~= Seq::<EditsView>::empty());
    }

    /// Makes whatever changed since the last record one step of Undo.
    pub fn record_edits(&mut self, now: &Edits)
        requires
            old(self)@.ok(),
        ensures
            final(self)@ == old(self)@.recorded(now@),
            final(self)@.ok(),
    {
        let mut before: Option<Edits> = None;
        std::mem::swap(&mut before, &mut self.seen);
        match before {
            Some(seen) => {
                if seen.is_same(now) {
                    self.seen = Some(seen);
                } else {
                    self.push_undo(seen);
                    self.seen = Some(now.copy());
                }
            },
            None => {
                self.seen = Some(now.copy());
            },
        }
    }

    /// Takes the edits as they are without a step of Undo: what a finished
    /// conversion changed by itself. Pixels recoloured with it are the user's
    /// step.
    pub fn settle_edits(&mut self, now: &Edits)
        requires
            old(self)@.ok(),
        ensures
            final(self)@ == old(self)@.settled(now@),
            final(self)@.ok(),
    {
        let mut before: Option<Edits> = None;
        std::mem::swap(&mut before, &mut self.seen);
        if let Some(seen) = before {
            if !same_recolors(&seen.prep.recolors, &now.prep.recolors) {
                self.push_undo(seen);
            }
        }
        self.seen = Some(now.copy());
    }

    /// A new picture, or none: nothing to undo or redo.
    pub fn forget(&mut self)
        ensures
            final(self)@ == HistoryView::empty(),
            final(self)@.ok(),
    {
        *self = History::new();
    }

    /// Takes back the last change; `now` are the edits in force and `idle`
    /// says that no conversion, dialog or save is out.
    pub fn undo(&mut self, now: &Edits, idle: bool) -> (step: Step)
        requires
            old(self)@.ok(),
        ensures
            (final(self)@, step@) == old(self)@.undone(now@, idle),
            final(self)@.ok(),
    {
        self.record_edits(now);
        let ghost h = self@;
        match self.undo.pop() {
            None => Step::Nothing,
            Some(previous) => {
                assert(edits_views(self.undo@) =~= h.undo.drop_last());
                assert(h.undo.last() == previous@);
                if !same_recolors(&previous.prep.recolors, &now.prep.recolors) && !idle {
                    self.undo.push(previous);
                    assert(edits_views(self.undo@) =~= h.undo);
                    return Step::Busy;
                }
                self.redo.push(now.copy());
                assert(edits_views(self.redo@) =~= h.redo.push(now@));
                self.seen = Some(previous.copy());
                Step::Done(previous)
            },
        }
    }

    /// Puts back the change Undo took away.
    pub fn redo(&mut self, now: &Edits, idle: bool) -> (step: Step)
        requires
            old(self)@.ok(),
        ensures
            (final(self)@, step@) == old(self)@.redone(now@, idle),
            final(self)@.ok(),
    {
        self.record_edits(now);
        let ghost h = self@;
        match self.redo.pop() {
            None => Step::Nothing,
            Some(next) => {
                assert(edits_views(self.redo@) =~= h.redo.drop_last());
                assert(h.redo.last() == next@);
                if !same_recolors(&next.prep.recolors, &now.prep.recolors) && !idle {
                    self.redo.push(next);
                    assert(edits_views(self.redo@) =~= h.redo);
                    return Step::Busy;
                }
                self.undo.push(now.copy());
                assert(edits_views(self.undo@) =~= h.undo.push(now@));
                self.seen = Some(next.copy());
                Step::Done(next)
            },
        }
    }
}

/// Undo takes back the last change, however much changed since the record
/// before it: a change recorded is one step.
pub proof fn law_one_step_per_change(h: HistoryView, before: EditsView, now: EditsView)
    requires
        h.seen == Some(before),
        before != now,
    ensures
        h.recorded(now).undone(now, true).1 == StepView::Done(before),
        h.undone(now, true) == h.recorded(now).undone(now, true),
        h.recorded(now).recorded(now) == h.recorded(now),
{
    let r = h.recorded(now);
    assert(r.undo.last() == before);
}

/// A new change drops what could be redone.
pub proof fn law_new_change_drops_redo(h: HistoryView, before: EditsView, now: EditsView)
    requires
        h.seen == Some(before),
        before != now,
    ensures
        h.recorded(now).redo.len() == 0,
        h.redone(now, true).1 == StepView::Nothing,
{
}

/// Redo undoes Undo: the same edits are in force, and the same steps remain.
pub proof fn law_redo_undoes_undo(h: HistoryView, now: EditsView, previous: EditsView)
    requires
        h.seen == Some(now),
        h.undone(now, true).1 == StepView::Done(previous),
    ensures
        h.undone(now, true).0.redone(previous, true) == (h, StepView::Done(now)),
{
    let u = h.undone(now, true).0;
    assert(u.redo.last() == now);
    let (r, step) = u.redone(previous, true);
    assert(u.redo.drop_last() =~= h.redo);
    assert(h.undo.drop_last().push(previous) =~= h.undo);
}

/// Undo undoes Redo.
pub proof fn law_undo_undoes_redo(h: HistoryView, now: EditsView, next: EditsView)
    requires
        h.seen == Some(now),
        h.redone(now, true).1 == StepView::Done(next),
    ensures
        h.redone(now, true).0.undone(next, true) == (h, StepView::Done(now)),
{
    let r = h.redone(now, true).0;
    assert(r.undo.last() == now);
    assert(r.undo.drop_last() =~= h.undo);
    assert(h.redo.drop_last().push(next) =~= h.redo);
}

/// A recorded change goes behind the steps there are, in their order. Only when
/// there are 200 already does one go for it: the oldest.
pub proof fn law_the_oldest_step_goes_first(h: HistoryView, before: EditsView, now: EditsView, i: int)
    requires
        h.ok(),
        h.seen == Some(before),
        before != now,
        0 <= i < h.undo.len(),
    ensures
        ({
            let after = h.recorded(now);
            let n = h.undo.len() as int;
            &&& after.seen == Some(now)
            &&& after.undo.last() == before
            &&& n < 200 ==> after.undo.len() == n + 1 && after.undo[i] == h.undo[i]
            &&& n == 200 ==> after.undo.len() == 200 && (i > 0 ==> after.undo[i - 1] == h.undo[i])
        }),
{
}

/// Nothing but a press of Undo or Redo, and a change, moves the steps: an
/// unchanged record keeps them, and a press that cannot be answered does too.
pub proof fn law_nothing_else_moves_the_steps(h: HistoryView, now: EditsView, idle: bool)
    requires
        h.seen == Some(now),
    ensures
        h.recorded(now) == h,
        !(h.undone(now, idle).1 is Done) ==> h.undone(now, idle).0 == h,
        !(h.redone(now, idle).1 is Done) ==> h.redone(now, idle).0 == h,
        h.undone(now, idle).1 is Nothing <==> h.undo.len() == 0,
        h.redone(now, idle).1 is Nothing <==> h.redo.len() == 0,
        idle ==> !(h.undone(now, idle).1 is Busy) && !(h.redone(now, idle).1 is Busy),
{
}

} // verus!
