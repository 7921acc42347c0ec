//! Contains the [`HistoryState`]: the maps that can be gone back to (undo)
//! and forward to again (redo).
use vstd::prelude::*;

use crate::models::MetroMap;

verus! {

/// How many maps each direction of the history keeps at most.
pub const HISTORY_DEPTH: usize = 5;

/// `s` with `x` pushed on top; when that makes it deeper than
/// [`HISTORY_DEPTH`], the oldest entry is dropped.
pub open spec fn bounded_push<T>(s: Seq<T>, x: T) -> Seq<T> {
    if s.len() + 1 > HISTORY_DEPTH {
        s.push(x).drop_first()
    } else {
        s.push(x)
    }
}

/// On a stack that is not full, popping right after a push gives back the
/// pushed item and leaves the stack as it was before the push.
pub proof fn lemma_pop_undoes_push<T>(s: Seq<T>, x: T)
    requires
        s.len() < HISTORY_DEPTH,
    ensures
        bounded_push(s, x).len() > 0,
        bounded_push(s, x).last() == x,
        bounded_push(s, x).drop_last() == s,
{
    assert(s.push(x).drop_last() =~= s);
}

/// A stack that holds at most [`HISTORY_DEPTH`] items and forgets the oldest
/// one when it would hold more.
pub struct BoundedStack<T> {
    /// The items, the oldest first.
    stack: Vec<T>,
}

impl<T> View for BoundedStack<T> {
    type V = Seq<T>;

    closed spec fn view(&self) -> Seq<T> {
        self.stack@
    }
}

impl<T> BoundedStack<T> {
    /// An empty stack.
    pub fn new() -> (r: Self)
        ensures
            r@ == Seq::<T>::empty(),
    {
        BoundedStack { stack: Vec::new() }
    }

    /// Push an item on top, forgetting the oldest one if the stack would
    /// otherwise hold more than [`HISTORY_DEPTH`].
    pub fn push(&mut self, item: T)
        requires
            old(self)@.len() <= HISTORY_DEPTH,
        ensures
            final(self)@ == bounded_push(old(self)@, item),
    {
        self.stack.push(item);
        if self.stack.len() > HISTORY_DEPTH {
            self.stack.remove(0);
        }
        proof {
            let p = old(self)@.push(item);
            assert(p.remove(0) =~= p.drop_first());
        }
    }

    /// Take the item on top, if there is one.
    pub fn pop(&mut self) -> (r: Option<T>)
        ensures
            old(self)@.len() == 0 ==> r is None && final(self)@ == old(self)@,
            old(self)@.len() > 0 ==> r == Some(old(self)@.last()) && final(self)@ == old(
                self,
            )@.drop_last(),
    {
        self.stack.pop()
    }

    /// Forget all items.
    pub fn clear(&mut self)
        ensures
            final(self)@ == Seq::<T>::empty(),
    {
        self.stack.clear();
    }
}

/// What a [`HistoryState`] holds: the maps to go back to and those to go
/// forward to, the most recent last.
#[verifier::ext_equal]
pub struct HistoryView {
    pub past: Seq<MetroMap>,
    pub future: Seq<MetroMap>,
}

impl HistoryView {
    /// Neither direction holds more than [`HISTORY_DEPTH`] maps.
    pub open spec fn wf(self) -> bool {
        self.past.len() <= HISTORY_DEPTH && self.future.len() <= HISTORY_DEPTH
    }
}

/// The history after a change: the map before it can be gone back to, and
/// nothing can be redone any more.
pub open spec fn after_push(h: HistoryView, map: MetroMap) -> HistoryView {
    HistoryView { past: bounded_push(h.past, map), future: Seq::empty() }
}

/// The history after an undo from the map `current`, and the map gone back
/// to. With nothing to undo, nothing changes.
pub open spec fn after_undo(h: HistoryView, current: MetroMap) -> (HistoryView, Option<MetroMap>) {
    if h.past.len() == 0 {
        (h, None)
    } else {
        (
            HistoryView { past: h.past.drop_last(), future: bounded_push(h.future, current) },
            Some(h.past.last()),
        )
    }
}

/// The history after a redo from the map `current`, and the map gone
/// forward to. With nothing to redo, nothing changes.
pub open spec fn after_redo(h: HistoryView, current: MetroMap) -> (HistoryView, Option<MetroMap>) {
    if h.future.len() == 0 {
        (h, None)
    } else {
        (
            HistoryView { past: bounded_push(h.past, current), future: h.future.drop_last() },
            Some(h.future.last()),
        )
    }
}

/// The maps that an undo and a redo can go to.
pub struct HistoryState {
    /// The maps to go back to.
    past: BoundedStack<MetroMap>,
    /// The maps to go forward to.
    future: BoundedStack<MetroMap>,
}

impl View for HistoryState {
    type V = HistoryView;

    closed spec fn view(&self) -> HistoryView {
        HistoryView { past: self.past@, future: self.future@ }
    }
}

impl HistoryState {
    /// An empty history.
    pub fn new() -> (r: Self)
        ensures
            r@ == (HistoryView { past: Seq::empty(), future: Seq::empty() }),
            r@.wf(),
    {
        HistoryState { past: BoundedStack::new(), future: BoundedStack::new() }
    }

    /// Go back to the last map before the current one, which can then be
    /// gone forward to again. Returns `None`, and changes nothing, where
    /// there is nothing to go back to.
    pub fn undo(&mut self, current: MetroMap) -> (r: Option<MetroMap>)
        requires
            old(self)@.wf(),
        ensures
            (final(self)@, r) == after_undo(old(self)@, current),
            final(self)@.wf(),
    {
        match self.past.pop() {
            Some(map) => {
                self.future.push(current);
                Some(map)
            },
            None => None,
        }
    }

    /// Go forward to the map that the last undo left, which can then be
    /// gone back to again. Returns `None`, and changes nothing, where there
    /// is nothing to go forward to.
    pub fn redo(&mut self, current: MetroMap) -> (r: Option<MetroMap>)
        requires
            old(self)@.wf(),
        ensures
            (final(self)@, r) == after_redo(old(self)@, current),
            final(self)@.wf(),
    {
        match self.future.pop() {
            Some(map) => {
                self.past.push(current);
                Some(map)
            },
            None => None,
        }
    }

    /// If there is a map to go back to.
    pub(crate) fn has_past(&self) -> (r: bool)
        ensures
            r == (self@.past.len() > 0),
    {
        self.past.stack.len() > 0
    }

    /// If there is a map to go forward to.
    pub(crate) fn has_future(&self) -> (r: bool)
        ensures
            r == (self@.future.len() > 0),
    {
        self.future.stack.len() > 0
    }

    /// Remember the map as it was before a change: it can be gone back to,
    /// and what could be redone is forgotten.
    pub fn push_past_map(&mut self, map: MetroMap)
        requires
            old(self)@.wf(),
        ensures
            final(self)@ == after_push(old(self)@, map),
            final(self)@.wf(),
    {
        self.past.push(map);
        self.future.clear();
    }
}

/// Undoing right after a change gives back the map from before the change.
pub proof fn lemma_undo_after_push(h: HistoryView, before: MetroMap, current: MetroMap)
    requires
        h.wf(),
    ensures
        after_undo(after_push(h, before), current).1 == Some(before),
{
}

/// Right after a change there is nothing to redo.
pub proof fn lemma_nothing_to_redo_after_push(h: HistoryView, before: MetroMap, current: MetroMap)
    ensures
        after_redo(after_push(h, before), current) == (after_push(h, before), None::<MetroMap>),
{
}

/// A redo right after an undo goes forward to the map the undo started
/// from; and where the redo history was not full, it restores the history
/// exactly.
pub proof fn lemma_redo_undoes_undo(h: HistoryView, current: MetroMap)
    requires
        h.wf(),
        h.past.len() > 0,
    ensures
        ({
            let (h1, back) = after_undo(h, current);
            let (h2, forward) = after_redo(h1, back.unwrap());
            &&& forward == Some(current)
            &&& h.future.len() < HISTORY_DEPTH ==> h2 == h
        }),
{
    let (h1, back) = after_undo(h, current);
    assert(h1.past.len() < HISTORY_DEPTH);
    assert(h.past.drop_last().push(h.past.last()) =~= h.past);
    if h.future.len() < HISTORY_DEPTH {
        assert(h1.future.drop_last() =~= h.future);
    }
    let (h2, forward) = after_redo(h1, back.unwrap());
    if h.future.len() < HISTORY_DEPTH {
        assert(h2 =~= h);
    }
}

/// An undo right after a redo goes back to the map the redo started from;
/// and where the undo history was not full, it restores the history
/// exactly.
pub proof fn lemma_undo_undoes_redo(h: HistoryView, current: MetroMap)
    requires
        h.wf(),
        h.future.len() > 0,
    ensures
        ({
            let (h1, forward) = after_redo(h, current);
            let (h2, back) = after_undo(h1, forward.unwrap());
            &&& back == Some(current)
            &&& h.past.len() < HISTORY_DEPTH ==> h2 == h
        }),
{
    let (h1, forward) = after_redo(h, current);
    assert(h.future.drop_last().push(h.future.last()) =~= h.future);
    if h.past.len() < HISTORY_DEPTH {
        assert(h1.past.drop_last() =~= h.past);
    }
    let (h2, back) = after_undo(h1, forward.unwrap());
    if h.past.len() < HISTORY_DEPTH {
        assert(h2 =~= h);
    }
}

/// With nothing to undo, an undo changes nothing and gives nothing back.
pub proof fn lemma_undo_without_past(h: HistoryView, current: MetroMap)
    requires
        h.past.len() == 0,
    ensures
        after_undo(h, current) == (h, None::<MetroMap>),
{
}

/// The history keeps at most [`HISTORY_DEPTH`] maps in each direction,
/// whatever is done to it.
pub proof fn lemma_history_stays_bounded(h: HistoryView, map: MetroMap)
    requires
        h.wf(),
    ensures
        after_push(h, map).wf(),
        after_undo(h, map).0.wf(),
        after_redo(h, map).0.wf(),
{
}

} // verus!
