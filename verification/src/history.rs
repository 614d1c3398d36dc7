//! Undo and redo for the document being edited.
//!
//! History is kept as whole-document snapshots rather than as a list of edit
//! commands: a document is a few kilobytes at worst, and snapshots cannot
//! drift out of sync with the editor the way hand-written inverse operations
//! can.
//!
//! Edits are grouped into bursts so one gesture is one undo step: painting a
//! stroke across twenty cells, or dragging a value through fifty
//! intermediate numbers, each undo as a single action. A burst stays open
//! while the pointer is held and closes on the first settled frame after.

use std::collections::VecDeque;

use vstd::prelude::*;

use crate::model::{DocumentView, EditableConfig};

verus! {

/// Undo steps kept.
pub const DEPTH: usize = 200;

/// Undo and redo stacks for one document.
pub struct History {
    undo: VecDeque<EditableConfig>,
    redo: Vec<EditableConfig>,
    /// The document as it was before the burst of edits in progress, held
    /// back until the burst closes so the whole gesture becomes one step.
    pending: Option<EditableConfig>,
    /// The document as of the last frame, for detecting edits.
    last: EditableConfig,
}

/// What a history holds.
#[verifier::ext_equal]
pub struct HistoryView {
    pub undo: Seq<DocumentView>,
    pub redo: Seq<DocumentView>,
    pub pending: Option<DocumentView>,
    pub last: DocumentView,
}

impl View for History {
    type V = HistoryView;

    closed spec fn view(&self) -> HistoryView {
        HistoryView {
            undo: self.undo@.map_values(|d: EditableConfig| d@),
            redo: self.redo@.map_values(|d: EditableConfig| d@),
            pending: match self.pending {
                Some(d) => Some(d@),
                None => None,
            },
            last: self.last@,
        }
    }
}

/// A history that has not yet been edited.
pub open spec fn fresh_history(document: DocumentView) -> HistoryView {
    HistoryView { undo: Seq::empty(), redo: Seq::empty(), pending: None, last: document }
}

/// The undo stack after pushing a snapshot, dropping the oldest step beyond
/// [`DEPTH`].
pub open spec fn pushed_undo(undo: Seq<DocumentView>, snapshot: DocumentView) -> Seq<DocumentView> {
    if undo.len() + 1 > DEPTH {
        undo.push(snapshot).drop_first()
    } else {
        undo.push(snapshot)
    }
}

/// The history with the burst in progress, if any, committed as one step.
pub open spec fn closed_burst(history: HistoryView) -> HistoryView {
    match history.pending {
        Some(before) => HistoryView {
            undo: pushed_undo(history.undo, before),
            pending: None,
            ..history
        },
        None => history,
    }
}

/// Noticing `document` at the end of a frame: the new history and whether
/// the document changed since the previous frame.
pub open spec fn after_frame(history: HistoryView, document: DocumentView, settled: bool) -> (
    HistoryView,
    bool,
) {
    if document != history.last {
        let opened = if history.pending is None {
            HistoryView { pending: Some(history.last), redo: Seq::empty(), ..history }
        } else {
            history
        };
        (HistoryView { last: document, ..opened }, true)
    } else if settled {
        (closed_burst(history), false)
    } else {
        (history, false)
    }
}

/// Undoing one step from `document`: the new history, the new document, and
/// whether anything was undone.
pub open spec fn undone(history: HistoryView, document: DocumentView) -> (
    HistoryView,
    DocumentView,
    bool,
) {
    let closed = closed_burst(history);
    if closed.undo.len() == 0 {
        (closed, document, false)
    } else {
        let previous = closed.undo.last();
        (
            HistoryView {
                undo: closed.undo.drop_last(),
                redo: closed.redo.push(document),
                last: previous,
                ..closed
            },
            previous,
            true,
        )
    }
}

/// Redoing one undone step from `document`: the new history, the new
/// document, and whether anything was redone.
pub open spec fn redone(history: HistoryView, document: DocumentView) -> (
    HistoryView,
    DocumentView,
    bool,
) {
    let closed = closed_burst(history);
    if closed.redo.len() == 0 {
        (closed, document, false)
    } else {
        let next = closed.redo.last();
        (
            HistoryView {
                undo: pushed_undo(closed.undo, document),
                redo: closed.redo.drop_last(),
                last: next,
                ..closed
            },
            next,
            true,
        )
    }
}

/// The undo stack never holds more than [`DEPTH`] steps.
pub open spec fn bounded(history: HistoryView) -> bool {
    history.undo.len() <= DEPTH
}


/// Redo takes back an undo: undoing from `document` and then redoing gives
/// `document` back, with nothing left half-open.
pub proof fn lemma_redo_reverses_undo(history: HistoryView, document: DocumentView)
    requires
        undone(history, document).2,
    ensures
        ({
            let (after_undo, previous, _) = undone(history, document);
            let (after_redo, restored, redid) = redone(after_undo, previous);
            &&& redid
            &&& restored == document
            &&& after_redo.last == document
            &&& after_redo.redo == closed_burst(history).redo
        }),
{
    let closed = closed_burst(history);
    let (after_undo, previous, _) = undone(history, document);
    assert(closed_burst(after_undo) == after_undo);
    assert(after_undo.redo.drop_last() =~= closed.redo);
}

/// Undo takes back a redo: redoing from `document` and then undoing gives
/// `document` back, and leaves the redo stack as it was.
pub proof fn lemma_undo_reverses_redo(history: HistoryView, document: DocumentView)
    requires
        redone(history, document).2,
    ensures
        ({
            let (after_redo, next, _) = redone(history, document);
            let (after_undo, restored, undid) = undone(after_redo, next);
            &&& undid
            &&& restored == document
            &&& after_undo.redo == closed_burst(history).redo
        }),
{
    let closed = closed_burst(history);
    let (after_redo, next, _) = redone(history, document);
    assert(closed_burst(after_redo) == after_redo);
    assert(pushed_undo(closed.undo, document).last() == document);
    assert(after_redo.redo.push(next) =~= closed.redo);
}

/// After an undo, the document it restored is what the history last saw:
/// the next settled frame showing that document is no edit, keeps
/// everything undone, and a redo brings back the document undone from.
pub proof fn lemma_undo_is_no_edit(history: HistoryView, document: DocumentView)
    requires
        undone(history, document).2,
    ensures
        ({
            let (after_undo, restored, _) = undone(history, document);
            let (after_frame_history, changed) = after_frame(after_undo, restored, true);
            &&& after_undo.last == restored
            &&& !changed
            &&& after_frame_history.redo == after_undo.redo
            &&& redone(after_frame_history, restored).2
            &&& redone(after_frame_history, restored).1 == document
        }),
{
    let (after_undo, restored, _) = undone(history, document);
    assert(closed_burst(after_undo) == after_undo);
}

/// One gesture is one undo step: however many frames a burst of edits spans
/// while the pointer is held, once it settles a single undo returns the
/// document to what it was before the burst began.
pub proof fn lemma_burst_undoes_as_one_step(
    history: HistoryView,
    edits: Seq<DocumentView>,
)
    requires
        history.pending is None,
        edits.len() > 0,
        edits[0] != history.last,
    ensures
        ({
            let held = burst_frames(history, edits);
            let settled = after_frame(held, edits.last(), true).0;
            let (_, restored, undid) = undone(settled, edits.last());
            undid && restored == history.last
        }),
{
    lemma_burst_frames(history, edits);
    let held = burst_frames(history, edits);
    let settled = after_frame(held, edits.last(), true).0;
    assert(settled == closed_burst(held));
}

/// The history after frames showing `edits` in turn while the pointer is held.
pub open spec fn burst_frames(history: HistoryView, edits: Seq<DocumentView>) -> HistoryView
    decreases edits.len(),
{
    if edits.len() == 0 {
        history
    } else {
        after_frame(burst_frames(history, edits.drop_last()), edits.last(), false).0
    }
}

proof fn lemma_burst_frames(history: HistoryView, edits: Seq<DocumentView>)
    requires
        history.pending is None,
        edits.len() > 0,
        edits[0] != history.last,
    ensures
        burst_frames(history, edits).pending == Some(history.last),
        burst_frames(history, edits).last == edits.last(),
        burst_frames(history, edits).undo == history.undo,
    decreases edits.len(),
{
    let earlier = edits.drop_last();
    if edits.len() > 1 {
        assert(earlier[0] == edits[0]);
        lemma_burst_frames(history, earlier);
    } else {
        assert(earlier.len() == 0);
        assert(burst_frames(history, earlier) == history);
    }
    assert(burst_frames(history, edits) == after_frame(burst_frames(history, earlier), edits.last(), false).0);
}

/// An edit still in progress is undoable: a single undo in the middle of a
/// drag returns to the document as it was before the drag.
pub proof fn lemma_open_burst_undoes(history: HistoryView, document: DocumentView)
    requires
        history.pending is None,
        document != history.last,
    ensures
        ({
            let held = after_frame(history, document, false).0;
            let (_, restored, undid) = undone(held, document);
            undid && restored == history.last
        }),
{
}

/// A fresh edit starts a new branch: whatever had been undone can no longer
/// be redone.
pub proof fn lemma_edit_drops_redo(history: HistoryView, document: DocumentView, settled: bool)
    requires
        history.pending is None,
        document != history.last,
    ensures
        after_frame(history, document, settled).0.redo.len() == 0,
        after_frame(history, document, settled).1,
{
}

/// Every operation keeps the undo stack within [`DEPTH`] steps.
pub proof fn lemma_history_bounded(history: HistoryView, document: DocumentView, settled: bool)
    requires
        bounded(history),
    ensures
        bounded(after_frame(history, document, settled).0),
        bounded(undone(history, document).0),
        bounded(redone(history, document).0),
{
}

impl History {
    pub closed spec fn well_formed(&self) -> bool {
        self.undo@.len() <= DEPTH
    }

    /// Starts an empty history for `config`.
    pub fn new(config: &EditableConfig) -> (history: History)
        ensures
            history@ == fresh_history(config@),
            history.well_formed(),
    {
        let history = History {
            undo: VecDeque::new(),
            redo: Vec::new(),
            pending: None,
            last: config.snapshot(),
        };
        assert(history@ =~= fresh_history(config@));
        history
    }

    /// Throws the history away and starts again from `config`.
    ///
    /// Used when a different document is loaded: undoing across an Open into
    /// the previous file's edits would be more surprising than helpful.
    pub fn reset(&mut self, config: &EditableConfig)
        ensures
            final(self)@ == fresh_history(config@),
            final(self).well_formed(),
    {
        self.undo.clear();
        self.redo.clear();
        self.pending = None;
        self.last = config.snapshot();
        assert(self@ =~= fresh_history(config@));
    }

    pub fn can_undo(&self) -> (possible: bool)
        ensures
            possible == (self@.undo.len() > 0 || self@.pending is Some),
    {
        self.undo.len() > 0 || self.pending.is_some()
    }

    pub fn can_redo(&self) -> (possible: bool)
        ensures
            possible == (self@.redo.len() > 0),
    {
        self.redo.len() > 0
    }

    /// Number of committed undo steps.
    pub fn undo_len(&self) -> (steps: usize)
        ensures
            steps == self@.undo.len(),
    {
        self.undo.len()
    }

    /// Notices edits and closes finished bursts. Returns whether the document
    /// changed since the last call.
    ///
    /// `settled` should be false while the pointer is held, so a drag is not
    /// chopped into one undo step per frame.
    pub fn track(&mut self, config: &EditableConfig, settled: bool) -> (changed: bool)
        requires
            old(self).well_formed(),
        ensures
            (final(self)@, changed) == after_frame(old(self)@, config@, settled),
            final(self).well_formed(),
    {
        if !config.same_document(&self.last) {
            if self.pending.is_none() {
                let before = self.last.snapshot();
                self.pending = Some(before);
                // A fresh edit is a new branch: whatever was undone is gone.
                self.redo.clear();
            }
            self.last = config.snapshot();
            assert(self@ =~= after_frame(old(self)@, config@, settled).0);
            return true;
        }
        if settled {
            self.close_burst();
        }
        false
    }

    /// Steps back one edit. Returns whether anything was undone.
    pub fn undo(&mut self, config: &mut EditableConfig) -> (changed: bool)
        requires
            old(self).well_formed(),
        ensures
            (final(self)@, final(config)@, changed) == undone(old(self)@, old(config)@),
            final(self).well_formed(),
    {
        // An edit still in progress is undone as a unit, not left half-open.
        self.close_burst();
        let ghost closed = self@;
        let ghost closed_undo = self.undo@;
        match self.undo.pop_back() {
            None => {
                assert(closed.undo.len() == 0);
                false
            },
            Some(previous) => {
                let mut value = previous;
                std::mem::swap(config, &mut value);
                let ghost redo_before = self.redo@;
                self.redo.push(value);
                self.last = config.snapshot();
                proof {
                    assert(self.undo@.map_values(|d: EditableConfig| d@) =~= closed.undo.drop_last());
                    assert(self.redo@.map_values(|d: EditableConfig| d@) =~= closed.redo.push(
                        old(config)@,
                    ));
                    assert(closed.undo.last() == closed_undo.last()@);
                    assert(self@ =~= undone(old(self)@, old(config)@).0);
                }
                true
            },
        }
    }

    /// Steps forward one undone edit. Returns whether anything was redone.
    pub fn redo(&mut self, config: &mut EditableConfig) -> (changed: bool)
        requires
            old(self).well_formed(),
        ensures
            (final(self)@, final(config)@, changed) == redone(old(self)@, old(config)@),
            final(self).well_formed(),
    {
        self.close_burst();
        let ghost closed = self@;
        let ghost closed_redo = self.redo@;
        match self.redo.pop() {
            None => {
                assert(closed.redo.len() == 0);
                false
            },
            Some(next) => {
                let mut value = next;
                std::mem::swap(config, &mut value);
                let ghost undo_before = self.undo@;
                self.push_undo(value);
                self.last = config.snapshot();
                proof {
                    assert(self.redo@.map_values(|d: EditableConfig| d@) =~= closed.redo.drop_last());
                    assert(closed.redo.last() == closed_redo.last()@);
                    assert(self@ =~= redone(old(self)@, old(config)@).0);
                }
                true
            },
        }
    }

    /// Commits the burst in progress, if there is one.
    fn close_burst(&mut self)
        requires
            old(self).well_formed(),
        ensures
            final(self)@ == closed_burst(old(self)@),
            final(self).well_formed(),
    {
        let pending = self.pending.take();
        match pending {
            Some(before) => {
                self.push_undo(before);
                assert(self@ =~= closed_burst(old(self)@));
            },
            None => {},
        }
    }

    fn push_undo(&mut self, snapshot: EditableConfig)
        requires
            old(self).well_formed(),
        ensures
            final(self)@ == (HistoryView {
                undo: pushed_undo(old(self)@.undo, snapshot@),
                ..old(self)@
            }),
            final(self).well_formed(),
    {
        let ghost before = self.undo@;
        self.undo.push_back(snapshot);
        if self.undo.len() > DEPTH {
            let _ = self.undo.pop_front();
        }
        proof {
            let mapped = before.map_values(|d: EditableConfig| d@);
            if before.len() + 1 > DEPTH {
                assert(self.undo@.map_values(|d: EditableConfig| d@) =~= mapped.push(snapshot@).drop_first());
            } else {
                assert(self.undo@.map_values(|d: EditableConfig| d@) =~= mapped.push(snapshot@));
            }
        }
        assert(self@ =~= (HistoryView { undo: pushed_undo(old(self)@.undo, snapshot@), ..old(self)@ }));
    }
}

} // verus!
