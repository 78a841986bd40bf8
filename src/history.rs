use vstd::prelude::*;

verus! {

/// A target that change sets of type `T` can be applied to.
///
/// Applying a change set hands back its inverse: the change set that, applied next, undoes it.
pub trait TargetMementoTrait<T>: Sized {
    /// `memento` can be applied to this target.
    spec fn memento_applies(&self, memento: &T) -> bool;

    /// `next` is this target with `memento` applied, and `inverse` is the change set that
    /// takes `next` back to this target.
    spec fn memento_result(&self, memento: &T, next: &Self, inverse: &T) -> bool;

    /// Applies `memento` and returns its inverse.
    fn apply_memento(&mut self, memento: &T) -> (inverse: T)
        requires
            old(self).memento_applies(memento),
        ensures
            old(self).memento_result(memento, final(self), &inverse),
    ;
}

/// An undo stack and a redo stack of change sets.
pub struct History<T> {
    undo_stack: Vec<T>,
    redo_stack: Vec<T>,
}

impl<T> History<T> {
    /// The change sets that undo the recorded actions, the most recent last.
    pub closed spec fn undo_entries(&self) -> Seq<T> {
        self.undo_stack@
    }

    /// The change sets that redo the undone actions, the most recently undone last.
    pub closed spec fn redo_entries(&self) -> Seq<T> {
        self.redo_stack@
    }

    /// Creates a history with nothing to undo or redo.
    pub fn new() -> (h: Self)
        ensures
            h.undo_entries() == Seq::<T>::empty(),
            h.redo_entries() == Seq::<T>::empty(),
    {
        Self { undo_stack: Vec::new(), redo_stack: Vec::new() }
    }

    /// Records the change set that undoes a new action, and forgets everything to redo.
    pub fn record(&mut self, memento: T)
        ensures
            final(self).undo_entries() == old(self).undo_entries().push(memento),
            final(self).redo_entries() == Seq::<T>::empty(),
    {
        self.undo_stack.push(memento);
        self.redo_stack.clear();
    }

    /// Whether there is an action to undo.
    pub fn undoable(&self) -> (r: bool)
        ensures
            r == (self.undo_entries().len() > 0),
    {
        self.undo_stack.len() != 0
    }

    /// Whether there is an undone action to redo.
    pub fn redoable(&self) -> (r: bool)
        ensures
            r == (self.redo_entries().len() > 0),
    {
        self.redo_stack.len() != 0
    }

    /// Applies the most recent undo change set to `target` and keeps its inverse for redo.
    /// Does nothing when there is nothing to undo.
    pub fn undo<U: TargetMementoTrait<T>>(&mut self, target: &mut U)
        requires
            old(self).undo_entries().len() > 0 ==> old(target).memento_applies(
                &old(self).undo_entries().last(),
            ),
        ensures
            old(self).undo_entries().len() == 0 ==> final(self).undo_entries() == old(
                self,
            ).undo_entries() && final(self).redo_entries() == old(self).redo_entries()
                && *final(target) == *old(target),
            old(self).undo_entries().len() > 0 ==> {
                &&& final(self).undo_entries() == old(self).undo_entries().drop_last()
                &&& final(self).redo_entries().drop_last() == old(self).redo_entries()
                &&& final(self).redo_entries().len() == old(self).redo_entries().len() + 1
                &&& old(target).memento_result(
                    &old(self).undo_entries().last(),
                    final(target),
                    &final(self).redo_entries().last(),
                )
            },
    {
        if let Some(memento) = self.undo_stack.pop() {
            let inverse = target.apply_memento(&memento);
            self.redo_stack.push(inverse);
            proof { assert(self.redo_stack@.drop_last() =~= old(self).redo_stack@); }
        }
    }

    /// Applies the most recent redo change set to `target` and keeps its inverse for undo.
    /// Does nothing when there is nothing to redo.
    pub fn redo<U: TargetMementoTrait<T>>(&mut self, target: &mut U)
        requires
            old(self).redo_entries().len() > 0 ==> old(target).memento_applies(
                &old(self).redo_entries().last(),
            ),
        ensures
            old(self).redo_entries().len() == 0 ==> final(self).undo_entries() == old(
                self,
            ).undo_entries() && final(self).redo_entries() == old(self).redo_entries()
                && *final(target) == *old(target),
            old(self).redo_entries().len() > 0 ==> {
                &&& final(self).redo_entries() == old(self).redo_entries().drop_last()
                &&& final(self).undo_entries().drop_last() == old(self).undo_entries()
                &&& final(self).undo_entries().len() == old(self).undo_entries().len() + 1
                &&& old(target).memento_result(
                    &old(self).redo_entries().last(),
                    final(target),
                    &final(self).undo_entries().last(),
                )
            },
    {
        if let Some(memento) = self.redo_stack.pop() {
            let inverse = target.apply_memento(&memento);
            self.undo_stack.push(inverse);
            proof { assert(self.undo_stack@.drop_last() =~= old(self).undo_stack@); }
        }
    }

    /// Forgets everything to undo and to redo.
    pub fn clear(&mut self)
        ensures
            final(self).undo_entries() == Seq::<T>::empty(),
            final(self).redo_entries() == Seq::<T>::empty(),
    {
        self.undo_stack.clear();
        self.redo_stack.clear();
    }
}

} // verus!
