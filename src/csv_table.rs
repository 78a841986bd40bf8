use vstd::prelude::*;

use crate::csv_read::{encode_records, records_of, CsvReader, CsvWriter};
use crate::grid_change::{
    all_ok, apply_all, apply_change, change_ok, empty_cells, grid_of, inverse_all, inverse_change,
    lemma_apply_concat, lemma_apply_one, lemma_inverse_all, sheet_of, state_ok, Axis, ChangeView,
    Grid, GridState, Sheet,
};
use crate::history::{History, TargetMementoTrait};
use crate::indirection::{slots_ok, IndirectionLayer, SlotState};
use crate::tree_array::IndexError;

verus! {

/// One reversible primitive change of a grid.
///
/// Its view is the [`ChangeView`] that says the same.
#[derive(Debug)]
enum TableChange {
    /// Sets the cell at (physical row, physical column) to the text.
    CellEdit(usize, usize, String),
    /// Inserts the physical slot at the logical position.
    Inserted(Axis, usize, usize),
    /// Removes the physical slot found at the logical position.
    Deleted(Axis, usize, usize),
    /// Puts the slot on top of the free pool.
    FreePushed(Axis, usize),
    /// Takes the slot off the top of the free pool.
    FreePopped(Axis, usize),
    /// Allocates the slot, the next one, with empty cells.
    Grown(Axis, usize),
    /// Releases the slot, the last one allocated, and its empty cells.
    Shrunk(Axis, usize),
}

impl View for TableChange {
    type V = ChangeView;

    closed spec fn view(&self) -> ChangeView {
        match self {
            TableChange::CellEdit(r, c, v) => ChangeView::CellEdit(*r, *c, v@),
            TableChange::Inserted(a, l, p) => ChangeView::Inserted(*a, *l, *p),
            TableChange::Deleted(a, l, p) => ChangeView::Deleted(*a, *l, *p),
            TableChange::FreePushed(a, p) => ChangeView::FreePushed(*a, *p),
            TableChange::FreePopped(a, p) => ChangeView::FreePopped(*a, *p),
            TableChange::Grown(a, p) => ChangeView::Grown(*a, *p),
            TableChange::Shrunk(a, p) => ChangeView::Shrunk(*a, *p),
        }
    }
}

/// The changes made by one call, or the changes that undo them.
#[derive(Debug)]
struct CSVTableMemento {
    changes: Vec<TableChange>,
}

impl View for CSVTableMemento {
    type V = Seq<ChangeView>;

    closed spec fn view(&self) -> Seq<ChangeView> {
        self.changes@.map_values(|c: TableChange| c@)
    }
}

/// The texts of a physical cell store.
pub open spec fn cells_of(t: Seq<Vec<String>>) -> Seq<Seq<Seq<char>>> {
    Seq::new(t.len(), |r: int| Seq::new(t[r]@.len(), |c: int| t[r]@[c]@))
}

/// The physical cell store and the two indirection layers of a grid.
struct GridStore {
    table: Vec<Vec<String>>,
    rows: IndirectionLayer,
    cols: IndirectionLayer,
}

impl View for GridStore {
    type V = GridState;

    closed spec fn view(&self) -> GridState {
        GridState { cells: cells_of(self.table@), rows: self.rows@, cols: self.cols@ }
    }
}

/// A row of `n` empty cells.
fn empty_row(n: usize) -> (r: Vec<String>)
    ensures
        r@.len() == n,
        forall|c: int| 0 <= c < n ==> (#[trigger] r@[c])@ == Seq::<char>::empty(),
{
    let mut r: Vec<String> = Vec::new();
    let mut i: usize = 0;
    while i < n
        invariant
            i <= n,
            r@.len() == i,
            forall|c: int| 0 <= c < i ==> (#[trigger] r@[c])@ == Seq::<char>::empty(),
        decreases n - i,
    {
        r.push(String::new());
        i = i + 1;
    }
    r
}

impl GridStore {
    closed spec fn shape_ok(&self) -> bool {
        self.rows.shape_ok() && self.cols.shape_ok()
    }

    /// Adds an empty cell at the end of every physical row.
    fn push_empty_col(&mut self)
        ensures
            final(self).rows == old(self).rows,
            final(self).cols == old(self).cols,
            cells_of(final(self).table@) == cells_of(old(self).table@).map_values(
                |row: Seq<Seq<char>>| row.push(Seq::<char>::empty()),
            ),
    {
        let n = self.table.len();
        let mut i: usize = 0;
        while i < n
            invariant
                i <= n,
                n == self.table@.len(),
                self.rows == old(self).rows,
                self.cols == old(self).cols,
                forall|r: int|
                    0 <= r < i ==> (#[trigger] self.table@[r])@.drop_last() == old(self).table@[r]@
                        && self.table@[r]@.len() == old(self).table@[r]@.len() + 1
                        && self.table@[r]@.last()@ == Seq::<char>::empty(),
                forall|r: int| i <= r < n ==> #[trigger] self.table@[r] == old(self).table@[r],
            decreases n - i,
        {
            self.table[i].push(String::new());
            i = i + 1;
        }
        proof {
            let a = cells_of(self.table@);
            let b = cells_of(old(self).table@).map_values(|row: Seq<Seq<char>>| row.push(Seq::<char>::empty()));
            assert forall|r: int| 0 <= r < n implies #[trigger] a[r] =~= b[r] by {
                let v = self.table@[r]@;
                assert forall|c: int| 0 <= c < v.len() - 1 implies v[c] == #[trigger] old(self).table@[r]@[c] by {
                    assert(v.drop_last()[c] == v[c]);
                }
            }
            assert(a =~= b);
        }
    }

    /// Drops the last cell of every physical row.
    fn pop_col(&mut self)
        requires
            forall|r: int| 0 <= r < old(self).table@.len() ==> (#[trigger] old(self).table@[r])@.len() > 0,
        ensures
            final(self).rows == old(self).rows,
            final(self).cols == old(self).cols,
            cells_of(final(self).table@) == cells_of(old(self).table@).map_values(
                |row: Seq<Seq<char>>| row.drop_last(),
            ),
    {
        let n = self.table.len();
        let mut i: usize = 0;
        while i < n
            invariant
                i <= n,
                n == self.table@.len(),
                self.rows == old(self).rows,
                self.cols == old(self).cols,
                forall|r: int| 0 <= r < n ==> (#[trigger] old(self).table@[r])@.len() > 0,
                forall|r: int| 0 <= r < i ==> (#[trigger] self.table@[r])@ == old(self).table@[r]@.drop_last(),
                forall|r: int| i <= r < n ==> #[trigger] self.table@[r] == old(self).table@[r],
            decreases n - i,
        {
            let _ = self.table[i].pop();
            i = i + 1;
        }
        proof {
            let a = cells_of(self.table@);
            let b = cells_of(old(self).table@).map_values(|row: Seq<Seq<char>>| row.drop_last());
            assert forall|r: int| 0 <= r < n implies #[trigger] a[r] =~= b[r] by {
                assert(self.table@[r]@ == old(self).table@[r]@.drop_last());
            }
            assert(a =~= b);
        }
    }

    /// Sets one physical cell and returns the text it held.
    fn set_cell(&mut self, r: usize, c: usize, value: String) -> (previous: String)
        requires
            r < old(self)@.cells.len(),
            c < old(self)@.cells[r as int].len(),
        ensures
            final(self).rows == old(self).rows,
            final(self).cols == old(self).cols,
            previous@ == old(self)@.cells[r as int][c as int],
            final(self)@.cells == old(self)@.cells.update(
                r as int,
                old(self)@.cells[r as int].update(c as int, value@),
            ),
    {
        let previous = self.table[r][c].clone();
        self.table[r][c] = value;
        proof {
            let a = cells_of(self.table@);
            let b = old(self)@.cells.update(r as int, old(self)@.cells[r as int].update(c as int, value@));
            assert(a[r as int] =~= b[r as int]);
            assert(a =~= b);
        }
        previous
    }

    /// Applies one change and returns its inverse.
    fn apply_one(&mut self, change: &TableChange) -> (inverse: TableChange)
        requires
            old(self).shape_ok(),
            change_ok(old(self)@, change@),
        ensures
            final(self).shape_ok(),
            final(self)@ == apply_change(old(self)@, change@),
            inverse@ == inverse_change(old(self)@, change@),
    {
        let ghost s0 = self@;
        match change {
            TableChange::CellEdit(r, c, v) => {
                let previous = self.set_cell(*r, *c, v.clone());
                TableChange::CellEdit(*r, *c, previous)
            },
            TableChange::Inserted(a, l, p) => {
                match a {
                    Axis::Row => self.rows.insert_slot(*l, *p),
                    Axis::Col => self.cols.insert_slot(*l, *p),
                }
                TableChange::Deleted(*a, *l, *p)
            },
            TableChange::Deleted(a, l, p) => {
                match a {
                    Axis::Row => self.rows.remove_slot(*l),
                    Axis::Col => self.cols.remove_slot(*l),
                }
                TableChange::Inserted(*a, *l, *p)
            },
            TableChange::FreePushed(a, p) => {
                match a {
                    Axis::Row => self.rows.push_free(*p),
                    Axis::Col => self.cols.push_free(*p),
                }
                TableChange::FreePopped(*a, *p)
            },
            TableChange::FreePopped(a, p) => {
                match a {
                    Axis::Row => self.rows.pop_free(),
                    Axis::Col => self.cols.pop_free(),
                }
                TableChange::FreePushed(*a, *p)
            },
            TableChange::Grown(a, p) => {
                match a {
                    Axis::Row => {
                        let row = empty_row(self.cols.next_physical());
                        self.table.push(row);
                        self.rows.grow();
                        proof {
                            let e = cells_of(self.table@);
                            assert(e[e.len() - 1] =~= empty_cells(s0.cols.next));
                            assert(e =~= s0.cells.push(empty_cells(s0.cols.next)));
                        }
                    },
                    Axis::Col => {
                        self.push_empty_col();
                        self.cols.grow();
                    },
                }
                TableChange::Shrunk(*a, *p)
            },
            TableChange::Shrunk(a, p) => {
                match a {
                    Axis::Row => {
                        let _ = self.table.pop();
                        self.rows.shrink();
                        proof {
                            assert(cells_of(self.table@) =~= s0.cells.drop_last());
                        }
                    },
                    Axis::Col => {
                        proof {
                            assert forall|r: int| 0 <= r < self.table@.len() implies (#[trigger] self.table@[r])@.len() > 0 by {
                                assert(s0.cells[r].len() == self.table@[r]@.len());
                            }
                        }
                        self.pop_col();
                        self.cols.shrink();
                    },
                }
                TableChange::Grown(*a, *p)
            },
        }
    }
}

proof fn lemma_prefix_ok(s: GridState, cs: Seq<ChangeView>, k: int)
    requires
        all_ok(s, cs),
        0 <= k < cs.len(),
    ensures
        all_ok(s, cs.take(k)),
        change_ok(apply_all(s, cs.take(k)), cs[k]),
        cs.take(k + 1).drop_last() == cs.take(k),
        cs.take(k + 1).last() == cs[k],
{
    lemma_apply_concat(s, cs.take(k + 1), cs.skip(k + 1));
    assert(cs =~= cs.take(k + 1) + cs.skip(k + 1));
    assert(cs.take(k + 1).drop_last() =~= cs.take(k));
}

impl TargetMementoTrait<CSVTableMemento> for GridStore {
    closed spec fn memento_applies(&self, memento: &CSVTableMemento) -> bool {
        self.shape_ok() && all_ok(self@, memento@)
    }

    closed spec fn memento_result(
        &self,
        memento: &CSVTableMemento,
        next: &Self,
        inverse: &CSVTableMemento,
    ) -> bool {
        &&& next.shape_ok()
        &&& next@ == apply_all(self@, memento@)
        &&& inverse@ == inverse_all(self@, memento@)
    }

    /// Applies the changes in recorded order; the inverse lists their inverses last change first.
    fn apply_memento(&mut self, memento: &CSVTableMemento) -> (inverse: CSVTableMemento) {
        let ghost s0 = self@;
        let ghost cs = memento@;
        let mut inverse: Vec<TableChange> = Vec::new();
        let mut i: usize = 0;
        proof { assert(cs.take(0) =~= Seq::<ChangeView>::empty()); }
        while i < memento.changes.len()
            invariant
                i <= memento.changes@.len(),
                cs == memento@,
                cs.len() == memento.changes@.len(),
                all_ok(s0, cs),
                self.shape_ok(),
                self@ == apply_all(s0, cs.take(i as int)),
                inverse@.map_values(|c: TableChange| c@) == inverse_all(s0, cs.take(i as int)),
            decreases memento.changes@.len() - i,
        {
            proof { lemma_prefix_ok(s0, cs, i as int); }
            let inv = self.apply_one(&memento.changes[i]);
            let ghost before = inverse@;
            inverse.insert(0, inv);
            proof {
                assert(inverse@.map_values(|c: TableChange| c@) =~= seq![inv@] + before.map_values(|c: TableChange| c@));
            }
            i = i + 1;
        }
        proof { assert(cs.take(i as int) =~= cs); }
        CSVTableMemento { changes: inverse }
    }
}

} // verus!

verus! {

/// The change sets of a stack of mementos.
spec fn stack_views(h: Seq<CSVTableMemento>) -> Seq<Seq<ChangeView>> {
    h.map_values(|m: CSVTableMemento| m@)
}

/// Starting from `s`, the change sets of the stack, top first, each apply and lead to a
/// consistent state.
pub open spec fn chain_ok(s: GridState, stack: Seq<Seq<ChangeView>>) -> bool
    decreases stack.len(),
{
    if stack.len() == 0 {
        true
    } else {
        let t = apply_all(s, stack.last());
        all_ok(s, stack.last()) && state_ok(t) && chain_ok(t, stack.drop_last())
    }
}

/// The grids that applying the stack's change sets, top first, leads through; the grid
/// reached first is last.
pub open spec fn chain_grids(s: GridState, stack: Seq<Seq<ChangeView>>) -> Seq<Sheet>
    decreases stack.len(),
{
    if stack.len() == 0 {
        Seq::empty()
    } else {
        let t = apply_all(s, stack.last());
        chain_grids(t, stack.drop_last()).push(sheet_of(t))
    }
}

/// The states that applying the stack's change sets, top first, leads through; the state
/// reached first is last.
pub open spec fn chain_states(s: GridState, stack: Seq<Seq<ChangeView>>) -> Seq<GridState>
    decreases stack.len(),
{
    if stack.len() == 0 {
        Seq::empty()
    } else {
        let t = apply_all(s, stack.last());
        chain_states(t, stack.drop_last()).push(t)
    }
}

/// Recording, on `after`, the change set that leads back to `before`.
proof fn lemma_record(
    before: GridState,
    after: GridState,
    e: Seq<ChangeView>,
    stack: Seq<Seq<ChangeView>>,
)
    requires
        state_ok(before),
        chain_ok(before, stack),
        all_ok(after, e),
        apply_all(after, e) == before,
    ensures
        chain_ok(after, stack.push(e)),
        chain_grids(after, stack.push(e)) == chain_grids(before, stack).push(sheet_of(before)),
        chain_states(after, stack.push(e)) == chain_states(before, stack).push(before),
{
    assert(stack.push(e).drop_last() =~= stack);
}

/// A grid of text cells with positional row and column edits, and undo and redo.
///
/// Rows and columns are each mapped through an [`IndirectionLayer`] onto physical slots of a
/// cell store, so that structural edits move no cell. Every mutating call records the change
/// set that undoes it.
pub struct CSVTable {
    store: GridStore,
    history: History<CSVTableMemento>,
}

impl View for CSVTable {
    type V = Grid;

    /// The rows of cells, in logical order.
    open spec fn view(&self) -> Grid {
        grid_of(self.state())
    }
}

impl CSVTable {
    /// The physical state: the cell store and both indirection layers.
    pub closed spec fn state(&self) -> GridState {
        self.store@
    }

    /// The sheets that undo leads back to, the most recent last.
    pub closed spec fn past(&self) -> Seq<Sheet> {
        chain_grids(self.store@, stack_views(self.history.undo_entries()))
    }

    /// The states that undo leads back to, the most recent last.
    pub closed spec fn past_states(&self) -> Seq<GridState> {
        chain_states(self.store@, stack_views(self.history.undo_entries()))
    }

    /// The states that redo leads forward to, the next one last.
    pub closed spec fn future_states(&self) -> Seq<GridState> {
        chain_states(self.store@, stack_views(self.history.redo_entries()))
    }

    /// The sheets that redo leads forward to, the next one last.
    pub closed spec fn future(&self) -> Seq<Sheet> {
        chain_grids(self.store@, stack_views(self.history.redo_entries()))
    }

    /// The table is consistent, and every recorded change set applies.
    pub closed spec fn wf(&self) -> bool {
        &&& self.store.shape_ok()
        &&& state_ok(self.store@)
        &&& chain_ok(self.store@, stack_views(self.history.undo_entries()))
        &&& chain_ok(self.store@, stack_views(self.history.redo_entries()))
    }

    /// The number of rows.
    pub open spec fn rows(&self) -> nat {
        self.state().rows.order.len()
    }

    /// The number of columns.
    pub open spec fn cols(&self) -> nat {
        self.state().cols.order.len()
    }

    /// The grid with its number of columns.
    pub open spec fn sheet(&self) -> Sheet {
        (self@, self.cols())
    }

    /// Creates an empty table with nothing to undo or redo.
    pub fn new() -> (t: Self)
        ensures
            t.wf(),
            t@ == Seq::<Seq<Seq<char>>>::empty(),
            t.rows() == 0,
            t.cols() == 0,
            t.state() == (GridState {
                cells: Seq::empty(),
                rows: SlotState { order: Seq::empty(), free: Seq::empty(), next: 0 },
                cols: SlotState { order: Seq::empty(), free: Seq::empty(), next: 0 },
            }),
            t.past() == Seq::<Sheet>::empty(),
            t.future() == Seq::<Sheet>::empty(),
            t.past_states() == Seq::<GridState>::empty(),
            t.future_states() == Seq::<GridState>::empty(),
    {
        let t = Self {
            store: GridStore {
                table: Vec::new(),
                rows: IndirectionLayer::new(),
                cols: IndirectionLayer::new(),
            },
            history: History::new(),
        };
        proof {
            assert(stack_views(t.history.undo_entries()) =~= Seq::<Seq<ChangeView>>::empty());
            assert(stack_views(t.history.redo_entries()) =~= Seq::<Seq<ChangeView>>::empty());
            assert(cells_of(t.store.table@) =~= Seq::<Seq<Seq<char>>>::empty());
            assert(t@ =~= Seq::<Seq<Seq<char>>>::empty());
        }
        t
    }

    /// Returns the number of rows.
    pub fn row_size(&self) -> (n: usize)
        requires
            self.wf(),
        ensures
            n == self.rows(),
            n == self@.len(),
    {
        self.store.rows.logical_len()
    }

    /// Returns the number of columns.
    pub fn col_size(&self) -> (n: usize)
        requires
            self.wf(),
        ensures
            n == self.cols(),
    {
        self.store.cols.logical_len()
    }

    /// Whether the cell at row `row_index` and column `col_index` exists.
    pub fn has_cell(&self, row_index: usize, col_index: usize) -> (r: bool)
        requires
            self.wf(),
        ensures
            r == (row_index < self.rows() && col_index < self.cols()),
    {
        row_index < self.row_size() && col_index < self.col_size()
    }

    /// Whether row `row_index` exists.
    pub fn has_row(&self, row_index: usize) -> (r: bool)
        requires
            self.wf(),
        ensures
            r == (row_index < self.rows()),
    {
        row_index < self.row_size()
    }

    /// Whether column `col_index` exists.
    pub fn has_col(&self, col_index: usize) -> (r: bool)
        requires
            self.wf(),
        ensures
            r == (col_index < self.cols()),
    {
        col_index < self.col_size()
    }

    /// The indirection layer of the rows, for inspection.
    pub fn row_layer(&self) -> (l: &IndirectionLayer)
        requires
            self.wf(),
        ensures
            l.wf(),
            l@ == self.state().rows,
    {
        &self.store.rows
    }

    /// The indirection layer of the columns, for inspection.
    pub fn col_layer(&self) -> (l: &IndirectionLayer)
        requires
            self.wf(),
        ensures
            l.wf(),
            l@ == self.state().cols,
    {
        &self.store.cols
    }

    /// Records `changes`, which take the current store back to `before`, as one undoable action.
    fn record_changes(&mut self, changes: Vec<TableChange>, Ghost(before): Ghost<GridState>)
        requires
            old(self).store.shape_ok(),
            state_ok(old(self).store@),
            state_ok(before),
            chain_ok(before, stack_views(old(self).history.undo_entries())),
            all_ok(old(self).store@, changes@.map_values(|c: TableChange| c@)),
            apply_all(old(self).store@, changes@.map_values(|c: TableChange| c@)) == before,
        ensures
            final(self).wf(),
            final(self).store == old(self).store,
            final(self).past() == chain_grids(before, stack_views(old(self).history.undo_entries())).push(
                sheet_of(before),
            ),
            final(self).past_states() == chain_states(before, stack_views(old(self).history.undo_entries())).push(
                before,
            ),
            final(self).future() == Seq::<Sheet>::empty(),
            final(self).future_states() == Seq::<GridState>::empty(),
    {
        let m = CSVTableMemento { changes };
        let ghost undo0 = stack_views(self.history.undo_entries());
        self.history.record(m);
        proof {
            assert(stack_views(self.history.undo_entries()) =~= undo0.push(m@));
            assert(stack_views(self.history.redo_entries()) =~= Seq::<Seq<ChangeView>>::empty());
            lemma_record(before, self.store@, m@, undo0);
        }
    }

    /// Inserts an empty row at `row_index`, shifting the rows at and after it down by one.
    pub fn insert_row(&mut self, row_index: usize) -> (r: Result<(), IndexError>)
        requires
            old(self).wf(),
            old(self).rows() < usize::MAX,
        ensures
            final(self).wf(),
            row_index > old(self).rows() ==> r == Err::<(), IndexError>(
                IndexError { index: row_index, len: old(self).rows() as usize },
            ) && final(self)@ == old(self)@ && final(self).past() == old(self).past()
                && final(self).future() == old(self).future() && final(self).past_states() == old(
                self,
            ).past_states() && final(self).future_states() == old(self).future_states() && final(self).state() == old(
                self,
            ).state(),
            row_index <= old(self).rows() ==> {
                &&& r.is_ok()
                &&& final(self)@ == old(self)@.insert(row_index as int, empty_cells(old(self).cols()))
                &&& final(self).past() == old(self).past().push(old(self).sheet())
                &&& final(self).past_states() == old(self).past_states().push(old(self).state())
                &&& final(self).future() == Seq::<Sheet>::empty()
                &&& final(self).future_states() == Seq::<GridState>::empty()
                &&& final(self).state().cols == old(self).state().cols
                &&& final(self).state().rows.order == old(self).state().rows.order.insert(
                    row_index as int,
                    final(self).state().rows.order[row_index as int],
                )
                &&& crate::indirection::allocated(
                    old(self).state().rows,
                    final(self).state().rows,
                    final(self).state().rows.order[row_index as int],
                )
            },
    {
        let len = self.store.rows.logical_len();
        if row_index > len {
            return Err(IndexError { index: row_index, len });
        }
        let ghost before = self.store@;
        let fresh_slot = self.store.table.len();
        let p = match self.store.rows.insert(row_index) {
            Ok(p) => p,
            Err(e) => return Err(e),
        };
        if p == fresh_slot {
            let row = empty_row(self.store.cols.next_physical());
            self.store.table.push(row);
        }
        proof {
            lemma_slots_distinct(before.rows);
            if before.rows.free.len() > 0 {
                assert(before.rows.free[before.rows.free.len() - 1] < before.rows.next);
                assert(cells_of(self.store.table@) =~= before.cells);
            } else {
                let e = cells_of(self.store.table@);
                assert(e[e.len() - 1] =~= empty_cells(before.cols.next));
                assert(e =~= before.cells.push(empty_cells(before.cols.next)));
            }
            lemma_insert_row(before, self.store@, row_index as int, p);
        }
        let mut changes: Vec<TableChange> = Vec::new();
        changes.push(TableChange::Deleted(Axis::Row, row_index, p));
        if p == fresh_slot {
            changes.push(TableChange::Shrunk(Axis::Row, p));
        } else {
            changes.push(TableChange::FreePushed(Axis::Row, p));
        }
        proof {
            assert(changes@.map_values(|c: TableChange| c@) =~= undo_insert(before.rows, Axis::Row, row_index, p));
        }
        self.record_changes(changes, Ghost(before));
        Ok(())
    }

    /// Appends an empty row after the last one.
    pub fn append_row(&mut self)
        requires
            old(self).wf(),
            old(self).rows() < usize::MAX,
        ensures
            final(self).wf(),
            final(self)@ == old(self)@.push(empty_cells(old(self).cols())),
            final(self).past() == old(self).past().push(old(self).sheet()),
            final(self).past_states() == old(self).past_states().push(old(self).state()),
            final(self).future() == Seq::<Sheet>::empty(),
            final(self).future_states() == Seq::<GridState>::empty(),
            final(self).state().cols == old(self).state().cols,
            final(self).state().rows.order == old(self).state().rows.order.push(
                final(self).state().rows.order.last(),
            ),
            crate::indirection::allocated(
                old(self).state().rows,
                final(self).state().rows,
                final(self).state().rows.order.last(),
            ),
    {
        let len = self.row_size();
        let _ = self.insert_row(len);
        proof {
            assert(old(self)@.insert(len as int, empty_cells(old(self).cols())) =~= old(self)@.push(
                empty_cells(old(self).cols()),
            ));
        }
    }

    /// Inserts an empty column at `col_index`, shifting the columns at and after it right by one.
    pub fn insert_col(&mut self, col_index: usize) -> (r: Result<(), IndexError>)
        requires
            old(self).wf(),
            old(self).cols() < usize::MAX,
        ensures
            final(self).wf(),
            col_index > old(self).cols() ==> r == Err::<(), IndexError>(
                IndexError { index: col_index, len: old(self).cols() as usize },
            ) && final(self)@ == old(self)@ && final(self).past() == old(self).past()
                && final(self).future() == old(self).future() && final(self).past_states() == old(
                self,
            ).past_states() && final(self).future_states() == old(self).future_states() && final(self).state() == old(
                self,
            ).state(),
            col_index <= old(self).cols() ==> {
                &&& r.is_ok()
                &&& final(self)@ == old(self)@.map_values(
                    |row: Seq<Seq<char>>| row.insert(col_index as int, Seq::<char>::empty()),
                )
                &&& final(self).past() == old(self).past().push(old(self).sheet())
                &&& final(self).past_states() == old(self).past_states().push(old(self).state())
                &&& final(self).future() == Seq::<Sheet>::empty()
                &&& final(self).future_states() == Seq::<GridState>::empty()
                &&& final(self).state().rows == old(self).state().rows
                &&& final(self).state().cols.order == old(self).state().cols.order.insert(
                    col_index as int,
                    final(self).state().cols.order[col_index as int],
                )
                &&& crate::indirection::allocated(
                    old(self).state().cols,
                    final(self).state().cols,
                    final(self).state().cols.order[col_index as int],
                )
            },
    {
        let len = self.store.cols.logical_len();
        if col_index > len {
            return Err(IndexError { index: col_index, len });
        }
        let ghost before = self.store@;
        let fresh_slot = self.store.cols.next_physical();
        let p = match self.store.cols.insert(col_index) {
            Ok(p) => p,
            Err(e) => return Err(e),
        };
        if p == fresh_slot {
            self.store.push_empty_col();
        }
        proof {
            lemma_slots_distinct(before.cols);
            if before.cols.free.len() > 0 {
                assert(before.cols.free[before.cols.free.len() - 1] < before.cols.next);
            }
            lemma_insert_col(before, self.store@, col_index as int, p);
        }
        let mut changes: Vec<TableChange> = Vec::new();
        changes.push(TableChange::Deleted(Axis::Col, col_index, p));
        if p == fresh_slot {
            changes.push(TableChange::Shrunk(Axis::Col, p));
        } else {
            changes.push(TableChange::FreePushed(Axis::Col, p));
        }
        proof {
            assert(changes@.map_values(|c: TableChange| c@) =~= undo_insert(before.cols, Axis::Col, col_index, p));
        }
        self.record_changes(changes, Ghost(before));
        Ok(())
    }

    /// Appends an empty column after the last one.
    pub fn append_col(&mut self)
        requires
            old(self).wf(),
            old(self).cols() < usize::MAX,
        ensures
            final(self).wf(),
            final(self)@ == old(self)@.map_values(|row: Seq<Seq<char>>| row.push(Seq::<char>::empty())),
            final(self).past() == old(self).past().push(old(self).sheet()),
            final(self).past_states() == old(self).past_states().push(old(self).state()),
            final(self).future() == Seq::<Sheet>::empty(),
            final(self).future_states() == Seq::<GridState>::empty(),
            final(self).state().rows == old(self).state().rows,
            final(self).state().cols.order == old(self).state().cols.order.push(
                final(self).state().cols.order.last(),
            ),
            crate::indirection::allocated(
                old(self).state().cols,
                final(self).state().cols,
                final(self).state().cols.order.last(),
            ),
    {
        let len = self.col_size();
        let _ = self.insert_col(len);
        proof {
            let g = old(self)@;
            assert forall|a: int| 0 <= a < g.len() implies #[trigger] g[a].insert(len as int, Seq::<char>::empty())
                =~= g[a].push(Seq::<char>::empty()) by {}
            assert(g.map_values(|row: Seq<Seq<char>>| row.insert(len as int, Seq::<char>::empty()))
                =~= g.map_values(|row: Seq<Seq<char>>| row.push(Seq::<char>::empty())));
        }
    }

    /// Deletes row `row_index`, shifting the rows after it up by one. Its physical row goes to
    /// the free pool with every cell cleared.
    pub fn delete_row(&mut self, row_index: usize) -> (r: Result<(), IndexError>)
        requires
            old(self).wf(),
        ensures
            final(self).wf(),
            row_index >= old(self).rows() ==> r == Err::<(), IndexError>(
                IndexError { index: row_index, len: old(self).rows() as usize },
            ) && final(self)@ == old(self)@ && final(self).past() == old(self).past()
                && final(self).future() == old(self).future() && final(self).past_states() == old(
                self,
            ).past_states() && final(self).future_states() == old(self).future_states() && final(self).state() == old(
                self,
            ).state(),
            row_index < old(self).rows() ==> {
                &&& r.is_ok()
                &&& final(self)@ == old(self)@.remove(row_index as int)
                &&& final(self).past() == old(self).past().push(old(self).sheet())
                &&& final(self).past_states() == old(self).past_states().push(old(self).state())
                &&& final(self).future() == Seq::<Sheet>::empty()
                &&& final(self).future_states() == Seq::<GridState>::empty()
                &&& final(self).state().cols == old(self).state().cols
                &&& final(self).state().rows == (SlotState {
                    order: old(self).state().rows.order.remove(row_index as int),
                    free: old(self).state().rows.free.push(
                        old(self).state().rows.order[row_index as int],
                    ),
                    next: old(self).state().rows.next,
                })
            },
    {
        let len = self.store.rows.logical_len();
        if row_index >= len {
            return Err(IndexError { index: row_index, len });
        }
        let ghost before = self.store@;
        proof { lemma_slots_distinct(before.rows); lemma_slots_distinct(before.cols); }
        let p = match self.store.rows.delete(row_index) {
            Ok(p) => p,
            Err(e) => return Err(e),
        };
        let live_cols = self.store.cols.physical_order();
        let ghost mid_rows = self.store.rows;
        let mut edits: Vec<TableChange> = Vec::new();
        let mut k: usize = 0;
        while k < live_cols.len()
            invariant
                self.store.shape_ok(),
                self.store.rows == mid_rows,
                self.history == old(self).history,
                before == old(self).store@,
                chain_ok(before, stack_views(old(self).history.undo_entries())),
                row_index < before.rows.order.len(),
                forall|m: int| 0 <= m < live_cols@.len() ==> #[trigger] live_cols@[m] < before.cols.next,
                self.store@.rows == mid_rows@,
                self.store@.cols == before.cols,
                state_ok(before),
                p == before.rows.order[row_index as int],
                p < before.cells.len(),
                live_cols@ == before.cols.order,
                k <= live_cols@.len(),
                self.store@.cells.len() == before.cells.len(),
                forall|r: int| 0 <= r < before.cells.len() && r != p ==> #[trigger] self.store@.cells[r] == before.cells[r],
                self.store@.cells[p as int].len() == before.cells[p as int].len(),
                forall|c: int| 0 <= c < before.cells[p as int].len() ==> #[trigger] self.store@.cells[p as int][c] == if live_cols@.subrange(0, k as int).contains(c as usize) {
                    Seq::<char>::empty()
                } else {
                    before.cells[p as int][c]
                },
                all_ok(GridState { cells: self.store@.cells, ..before }, edits@.map_values(|c: TableChange| c@)),
                apply_all(GridState { cells: self.store@.cells, ..before }, edits@.map_values(|c: TableChange| c@)) == before,
            decreases live_cols@.len() - k,
        {
            let c = live_cols[k];
            let ghost x_old = GridState { cells: self.store@.cells, ..before };
            let ghost views_old = edits@.map_values(|c: TableChange| c@);
            proof {
                assert(before.cells[p as int].len() == before.cols.next);
            }
            let previous = self.store.set_cell(p, c, String::new());
            let ghost x_new = GridState { cells: self.store@.cells, ..before };
            proof {
                lemma_prepend_edit(before, x_old, x_new, p, c, views_old);
            }
            edits.insert(0, TableChange::CellEdit(p, c, previous));
            proof {
                assert(edits@.map_values(|c: TableChange| c@) =~= seq![ChangeView::CellEdit(p, c, x_old.cells[p as int][c as int])] + views_old);
                assert forall|cc: int| 0 <= cc < before.cells[p as int].len() implies #[trigger] self.store@.cells[p as int][cc] == if live_cols@.subrange(0, k + 1).contains(cc as usize) {
                    Seq::<char>::empty()
                } else {
                    before.cells[p as int][cc]
                } by {
                    if cc as usize == c {
                        assert(live_cols@.subrange(0, k + 1)[k as int] == c);
                    } else {
                        if live_cols@.subrange(0, k + 1).contains(cc as usize) {
                            let m = choose|m: int| 0 <= m < k + 1 && #[trigger] live_cols@.subrange(0, k + 1)[m] == cc as usize;
                            assert(m < k);
                            assert(live_cols@.subrange(0, k as int)[m] == cc as usize);
                        }
                        if live_cols@.subrange(0, k as int).contains(cc as usize) {
                            let m = choose|m: int| 0 <= m < k && #[trigger] live_cols@.subrange(0, k as int)[m] == cc as usize;
                            assert(live_cols@.subrange(0, k + 1)[m] == cc as usize);
                        }
                    }
                }
            }
            k = k + 1;
        }
        let ghost after = self.store@;
        proof {
            assert(live_cols@.subrange(0, k as int) =~= before.cols.order);
            assert forall|c: int| 0 <= c < after.cells[p as int].len() implies #[trigger] after.cells[p as int][c] == Seq::<char>::empty() by {
                if !before.cols.order.contains(c as usize) {
                    assert(before.cells[p as int][c].len() == 0) by {
                        if before.cells[p as int][c].len() > 0 {
                            assert(before.cols.order.contains(c as usize));
                        }
                    }
                    assert(before.cells[p as int][c] =~= Seq::<char>::empty());
                }
            }
            assert(after.cells[p as int] =~= empty_cells(before.cols.next));
            lemma_delete_row(before, after, row_index as int);
        }
        let mut changes: Vec<TableChange> = Vec::new();
        changes.push(TableChange::Inserted(Axis::Row, row_index, p));
        changes.push(TableChange::FreePopped(Axis::Row, p));
        let ghost head = changes@.map_values(|c: TableChange| c@);
        let ghost tail = edits@.map_values(|c: TableChange| c@);
        changes.append(&mut edits);
        proof {
            assert(changes@.map_values(|c: TableChange| c@) =~= head + tail);
            assert(head =~= seq![ChangeView::Inserted(Axis::Row, row_index, p), ChangeView::FreePopped(Axis::Row, p)]);
            lemma_apply_two(after, head[0], head[1]);
            lemma_apply_concat(after, head, tail);
            let t = apply_change(apply_change(after, head[0]), head[1]);
            assert(t.rows.order =~= before.rows.order);
            assert(t.rows.free =~= before.rows.free);
            assert(t == GridState { cells: after.cells, ..before });
        }
        self.record_changes(changes, Ghost(before));
        Ok(())
    }

    /// Deletes column `col_index`, shifting the columns after it left by one. Its physical column
    /// goes to the free pool with every cell cleared.
    pub fn delete_col(&mut self, col_index: usize) -> (r: Result<(), IndexError>)
        requires
            old(self).wf(),
        ensures
            final(self).wf(),
            col_index >= old(self).cols() ==> r == Err::<(), IndexError>(
                IndexError { index: col_index, len: old(self).cols() as usize },
            ) && final(self)@ == old(self)@ && final(self).past() == old(self).past()
                && final(self).future() == old(self).future() && final(self).past_states() == old(
                self,
            ).past_states() && final(self).future_states() == old(self).future_states() && final(self).state() == old(
                self,
            ).state(),
            col_index < old(self).cols() ==> {
                &&& r.is_ok()
                &&& final(self)@ == old(self)@.map_values(|row: Seq<Seq<char>>| row.remove(col_index as int))
                &&& final(self).past() == old(self).past().push(old(self).sheet())
                &&& final(self).past_states() == old(self).past_states().push(old(self).state())
                &&& final(self).future() == Seq::<Sheet>::empty()
                &&& final(self).future_states() == Seq::<GridState>::empty()
                &&& final(self).state().rows == old(self).state().rows
                &&& final(self).state().cols == (SlotState {
                    order: old(self).state().cols.order.remove(col_index as int),
                    free: old(self).state().cols.free.push(
                        old(self).state().cols.order[col_index as int],
                    ),
                    next: old(self).state().cols.next,
                })
            },
    {
        let len = self.store.cols.logical_len();
        if col_index >= len {
            return Err(IndexError { index: col_index, len });
        }
        let ghost before = self.store@;
        proof { lemma_slots_distinct(before.rows); lemma_slots_distinct(before.cols); }
        let p = match self.store.cols.delete(col_index) {
            Ok(p) => p,
            Err(e) => return Err(e),
        };
        let live_rows = self.store.rows.physical_order();
        let ghost mid_cols = self.store.cols;
        let mut edits: Vec<TableChange> = Vec::new();
        let mut k: usize = 0;
        while k < live_rows.len()
            invariant
                self.store.shape_ok(),
                self.store.cols == mid_cols,
                self.history == old(self).history,
                before == old(self).store@,
                chain_ok(before, stack_views(old(self).history.undo_entries())),
                col_index < before.cols.order.len(),
                forall|m: int| 0 <= m < live_rows@.len() ==> #[trigger] live_rows@[m] < before.rows.next,
                self.store@.cols == mid_cols@,
                self.store@.rows == before.rows,
                state_ok(before),
                p == before.cols.order[col_index as int],
                p < before.cols.next,
                live_rows@ == before.rows.order,
                k <= live_rows@.len(),
                self.store@.cells.len() == before.cells.len(),
                forall|r: int| 0 <= r < before.cells.len() ==> (#[trigger] self.store@.cells[r]).len() == before.cells[r].len(),
                forall|r: int, c: int|
                    0 <= r < before.cells.len() && 0 <= c < before.cells[r].len() && c != p
                        ==> #[trigger] self.store@.cells[r][c] == before.cells[r][c],
                forall|r: int| 0 <= r < before.cells.len() ==> #[trigger] self.store@.cells[r][p as int] == if live_rows@.subrange(0, k as int).contains(r as usize) {
                    Seq::<char>::empty()
                } else {
                    before.cells[r][p as int]
                },
                all_ok(GridState { cells: self.store@.cells, ..before }, edits@.map_values(|c: TableChange| c@)),
                apply_all(GridState { cells: self.store@.cells, ..before }, edits@.map_values(|c: TableChange| c@)) == before,
            decreases live_rows@.len() - k,
        {
            let r = live_rows[k];
            let ghost x_old = GridState { cells: self.store@.cells, ..before };
            let ghost views_old = edits@.map_values(|c: TableChange| c@);
            let previous = self.store.set_cell(r, p, String::new());
            let ghost x_new = GridState { cells: self.store@.cells, ..before };
            proof {
                lemma_prepend_edit(before, x_old, x_new, r, p, views_old);
            }
            edits.insert(0, TableChange::CellEdit(r, p, previous));
            proof {
                assert(edits@.map_values(|c: TableChange| c@) =~= seq![ChangeView::CellEdit(r, p, x_old.cells[r as int][p as int])] + views_old);
                assert forall|rr: int| 0 <= rr < before.cells.len() implies #[trigger] self.store@.cells[rr][p as int] == if live_rows@.subrange(0, k + 1).contains(rr as usize) {
                    Seq::<char>::empty()
                } else {
                    before.cells[rr][p as int]
                } by {
                    if rr as usize == r {
                        assert(live_rows@.subrange(0, k + 1)[k as int] == r);
                    } else {
                        assert(self.store@.cells[rr] == x_old.cells[rr]);
                        if live_rows@.subrange(0, k + 1).contains(rr as usize) {
                            let m = choose|m: int| 0 <= m < k + 1 && #[trigger] live_rows@.subrange(0, k + 1)[m] == rr as usize;
                            assert(m < k);
                            assert(live_rows@.subrange(0, k as int)[m] == rr as usize);
                        }
                        if live_rows@.subrange(0, k as int).contains(rr as usize) {
                            let m = choose|m: int| 0 <= m < k && #[trigger] live_rows@.subrange(0, k as int)[m] == rr as usize;
                            assert(live_rows@.subrange(0, k + 1)[m] == rr as usize);
                        }
                    }
                }
                assert forall|rr: int, c: int|
                    0 <= rr < before.cells.len() && 0 <= c < before.cells[rr].len() && c != p
                        implies #[trigger] self.store@.cells[rr][c] == before.cells[rr][c] by {
                    assert(self.store@.cells[rr][c] == x_old.cells[rr][c]);
                }
            }
            k = k + 1;
        }
        let ghost after = self.store@;
        proof {
            assert(live_rows@.subrange(0, k as int) =~= before.rows.order);
            assert forall|r: int| 0 <= r < before.cells.len() implies #[trigger] after.cells[r][p as int].len() == 0 by {
                if !before.rows.order.contains(r as usize) {
                    if before.cells[r][p as int].len() > 0 {
                        assert(before.rows.order.contains(r as usize));
                    }
                }
            }
            lemma_delete_col(before, after, col_index as int);
        }
        let mut changes: Vec<TableChange> = Vec::new();
        changes.push(TableChange::Inserted(Axis::Col, col_index, p));
        changes.push(TableChange::FreePopped(Axis::Col, p));
        let ghost head = changes@.map_values(|c: TableChange| c@);
        let ghost tail = edits@.map_values(|c: TableChange| c@);
        changes.append(&mut edits);
        proof {
            assert(changes@.map_values(|c: TableChange| c@) =~= head + tail);
            assert(head =~= seq![ChangeView::Inserted(Axis::Col, col_index, p), ChangeView::FreePopped(Axis::Col, p)]);
            lemma_apply_two(after, head[0], head[1]);
            lemma_apply_concat(after, head, tail);
            let t = apply_change(apply_change(after, head[0]), head[1]);
            assert(t.cols.order =~= before.cols.order);
            assert(t.cols.free =~= before.cols.free);
            assert(t == GridState { cells: after.cells, ..before });
        }
        self.record_changes(changes, Ghost(before));
        Ok(())
    }

    /// Replaces the whole table with the records of a CSV text, each padded with empty cells to
    /// the widest record, and forgets everything to undo and redo.
    pub fn read_csv(&mut self, text: &str)
        ensures
            final(self).wf(),
            final(self)@ == padded(records_of(text@)),
            final(self).cols() == max_width(records_of(text@)),
            final(self).state().rows == (SlotState {
                order: Seq::new(records_of(text@).len(), |k: int| k as usize),
                free: Seq::empty(),
                next: records_of(text@).len(),
            }),
            final(self).state().cols == (SlotState {
                order: Seq::new(max_width(records_of(text@)), |k: int| k as usize),
                free: Seq::empty(),
                next: max_width(records_of(text@)),
            }),
            final(self).past() == Seq::<Sheet>::empty(),
            final(self).future() == Seq::<Sheet>::empty(),
            final(self).past_states() == Seq::<GridState>::empty(),
            final(self).future_states() == Seq::<GridState>::empty(),
    {
        let ghost all = records_of(text@);
        let mut reader = CsvReader::new(text);
        let mut records: Vec<Vec<String>> = Vec::new();
        let mut width: usize = 0;
        loop
            invariant
                reader.wf(),
                cells_of(records@) + reader.remaining() == all,
                width == max_width(cells_of(records@)),
            ensures
                cells_of(records@) == all,
                width == max_width(cells_of(records@)),
            decreases reader.remaining().len(),
        {
            let ghost got = cells_of(records@);
            match reader.next() {
                Some(record) => {
                    if record.len() > width {
                        width = record.len();
                    }
                    records.push(record);
                    proof {
                        let now = cells_of(records@);
                        assert(now.drop_last() =~= got);
                        assert(now.last() =~= record@.map_values(|f: String| f@));
                        assert(now + reader.remaining() =~= all);
                    }
                },
                None => {
                    proof { assert(got =~= all); }
                    break;
                },
            }
        }
        let ghost rs = cells_of(records@);
        proof { lemma_max_width(rs); }
        let n = records.len();
        let mut r: usize = 0;
        while r < n
            invariant
                n == records@.len(),
                r <= n,
                rs.len() == n,
                width == max_width(rs),
                forall|k: int| 0 <= k < n ==> (#[trigger] rs[k]).len() <= width,
                forall|k: int| 0 <= k < r ==> cells_of(records@)[k] == padded(rs)[k],
                forall|k: int| r <= k < n ==> #[trigger] cells_of(records@)[k] == rs[k],
            decreases n - r,
        {
            let ghost before = records@;
            proof { assert(cells_of(before)[r as int] == rs[r as int]); }
            let mut row = records.remove(r);
            proof {
                assert(row == before[r as int]);
                assert(row@.map_values(|f: String| f@) =~= rs[r as int]);
                assert(rs[r as int].len() <= width);
            }
            while row.len() < width
                invariant
                    r < rs.len(),
                    rs[r as int].len() <= row@.len() <= width,
                    row@.map_values(|f: String| f@) == rs[r as int] + empty_cells((row@.len() - rs[r as int].len()) as nat),
                decreases width - row@.len(),
            {
                let ghost prev = row@.map_values(|f: String| f@);
                row.push(String::new());
                proof {
                    assert(row@.map_values(|f: String| f@) =~= prev.push(Seq::<char>::empty()));
                    assert(row@.map_values(|f: String| f@) =~= rs[r as int] + empty_cells((row@.len() - rs[r as int].len()) as nat));
                }
            }
            records.insert(r, row);
            proof {
                assert forall|k: int| 0 <= k < n implies #[trigger] records@[k] == (if k == r { row } else { before[k] }) by {}
                assert(cells_of(records@)[r as int] =~= padded(rs)[r as int]);
                assert forall|k: int| 0 <= k < n && k != r implies #[trigger] cells_of(records@)[k] == cells_of(before)[k] by {
                    assert(cells_of(records@)[k] =~= cells_of(before)[k]);
                }
            }
            r = r + 1;
        }
        let rows = IndirectionLayer::with_len(n);
        let cols = IndirectionLayer::with_len(width);
        self.store = GridStore { table: records, rows, cols };
        self.history.clear();
        proof {
            let st = self.store@;
            let cells = cells_of(self.store.table@);
            lemma_identity_slots(n as nat);
            lemma_identity_slots(width as nat);
            assert forall|k: int| 0 <= k < n implies #[trigger] cells[k] == padded(rs)[k] by {}
            assert forall|k: int| 0 <= k < cells.len() implies #[trigger] cells[k].len() == st.cols.next by {
                assert(cells[k] == padded(rs)[k]);
            }
            let g = grid_of(st);
            assert(rs == all);
            assert forall|a: int| 0 <= a < g.len() implies #[trigger] g[a] =~= padded(rs)[a] by {
                assert(cells[a] == padded(rs)[a]);
                assert(st.rows.order[a] == a as usize);
                assert(rs[a].len() <= width);
                assert forall|b: int| 0 <= b < g[a].len() implies #[trigger] g[a][b] == padded(rs)[a][b] by {
                    assert(st.cols.order[b] == b as usize);
                }
            }
            assert(g =~= padded(rs));
            assert(stack_views(self.history.undo_entries()) =~= Seq::<Seq<ChangeView>>::empty());
            assert(stack_views(self.history.redo_entries()) =~= Seq::<Seq<ChangeView>>::empty());
        }
    }

    /// Returns the table as CSV text: each row as a record, fields quoted where they hold a
    /// comma, a double quote or a newline.
    pub fn write_csv(&self) -> (r: String)
        requires
            self.wf(),
        ensures
            r@ == encode_records(self@),
    {
        let mut csv = CsvWriter::new();
        let rows = self.row_size();
        let cols = self.col_size();
        let mut i: usize = 0;
        proof { assert(self@.subrange(0, 0) =~= Seq::<Seq<Seq<char>>>::empty()); }
        while i < rows
            invariant
                self.wf(),
                rows == self.rows(),
                cols == self.cols(),
                i <= rows,
                csv.written() == encode_records(self@.subrange(0, i as int)),
            decreases rows - i,
        {
            let mut record: Vec<String> = Vec::with_capacity(cols);
            let mut j: usize = 0;
            while j < cols
                invariant
                    self.wf(),
                    rows == self.rows(),
                    cols == self.cols(),
                    i < rows,
                    j <= cols,
                    record@.map_values(|f: String| f@) == self@[i as int].subrange(0, j as int),
                decreases cols - j,
            {
                let cell = match self.read_cell(i, j) {
                    Ok(v) => v.to_owned(),
                    Err(_) => String::new(),
                };
                let ghost before = record@.map_values(|f: String| f@);
                proof { assert(cell@ == self@[i as int][j as int]); }
                record.push(cell);
                proof {
                    assert(record@.map_values(|f: String| f@) =~= before.push(cell@));
                    assert(record@.map_values(|f: String| f@) =~= self@[i as int].subrange(0, j + 1));
                }
                j = j + 1;
            }
            proof {
                assert(self@[i as int].len() == cols);
                assert(record@.map_values(|f: String| f@) =~= self@[i as int]);
            }
            csv.write_record(record.as_slice());
            proof {
                assert(self@.subrange(0, i + 1).drop_last() =~= self@.subrange(0, i as int));
            }
            i = i + 1;
        }
        proof { assert(self@.subrange(0, i as int) =~= self@); }
        csv.text()
    }

    /// Returns the text of the cell at row `row_index` and column `col_index`.
    pub fn read_cell(&self, row_index: usize, col_index: usize) -> (r: Result<&str, IndexError>)
        requires
            self.wf(),
        ensures
            row_index >= self.rows() ==> r == Err::<&str, IndexError>(
                IndexError { index: row_index, len: self.rows() as usize },
            ),
            row_index < self.rows() && col_index >= self.cols() ==> r == Err::<&str, IndexError>(
                IndexError { index: col_index, len: self.cols() as usize },
            ),
            row_index < self.rows() && col_index < self.cols() ==> r.is_ok() && r.unwrap()@
                == self@[row_index as int][col_index as int],
    {
        let pr = match self.store.rows.resolve(row_index) {
            Ok(p) => p,
            Err(e) => return Err(e),
        };
        let pc = match self.store.cols.resolve(col_index) {
            Ok(p) => p,
            Err(e) => return Err(e),
        };
        proof { lemma_live_in_store(self.store@, row_index as int, col_index as int); }
        Ok(self.store.table[pr][pc].as_str())
    }

    /// Overwrites the text of the cell at row `row_index` and column `col_index`.
    pub fn write_cell(&mut self, row_index: usize, col_index: usize, value: &str) -> (r: Result<
        (),
        IndexError,
    >)
        requires
            old(self).wf(),
        ensures
            final(self).wf(),
            row_index >= old(self).rows() ==> r == Err::<(), IndexError>(
                IndexError { index: row_index, len: old(self).rows() as usize },
            ),
            row_index < old(self).rows() && col_index >= old(self).cols() ==> r == Err::<
                (),
                IndexError,
            >(IndexError { index: col_index, len: old(self).cols() as usize }),
            r.is_err() ==> final(self)@ == old(self)@ && final(self).past() == old(self).past()
                && final(self).future() == old(self).future() && final(self).past_states() == old(
                self,
            ).past_states() && final(self).future_states() == old(self).future_states() && final(self).state() == old(
                self,
            ).state(),
            row_index < old(self).rows() && col_index < old(self).cols() ==> {
                &&& r.is_ok()
                &&& final(self)@ == old(self)@.update(
                    row_index as int,
                    old(self)@[row_index as int].update(col_index as int, value@),
                )
                &&& final(self).state().rows == old(self).state().rows
                &&& final(self).state().cols == old(self).state().cols
                &&& final(self).past() == old(self).past().push(old(self).sheet())
                &&& final(self).past_states() == old(self).past_states().push(old(self).state())
                &&& final(self).future() == Seq::<Sheet>::empty()
                &&& final(self).future_states() == Seq::<GridState>::empty()
            },
    {
        let pr = match self.store.rows.resolve(row_index) {
            Ok(p) => p,
            Err(e) => return Err(e),
        };
        let pc = match self.store.cols.resolve(col_index) {
            Ok(p) => p,
            Err(e) => return Err(e),
        };
        let ghost before = self.store@;
        proof { lemma_live_in_store(before, row_index as int, col_index as int); }
        let previous = self.store.set_cell(pr, pc, value.to_owned());
        let mut changes: Vec<TableChange> = Vec::new();
        changes.push(TableChange::CellEdit(pr, pc, previous));
        proof {
            let after = self.store@;
            let e = changes@.map_values(|c: TableChange| c@);
            assert(e =~= seq![ChangeView::CellEdit(pr, pc, before.cells[pr as int][pc as int])]);
            lemma_apply_one(after, e[0]);
            assert(apply_change(after, e[0]).cells[pr as int] =~= before.cells[pr as int]);
            assert(apply_change(after, e[0]).cells =~= before.cells);
            lemma_write_keeps_state(before, after, row_index as int, col_index as int, value@);
        }
        self.record_changes(changes, Ghost(before));
        Ok(())
    }

    /// Whether there is an action to undo.
    pub fn undoable(&self) -> (r: bool)
        requires
            self.wf(),
        ensures
            r == (self.past().len() > 0),
    {
        self.history.undoable()
    }

    /// Whether there is an undone action to redo.
    pub fn redoable(&self) -> (r: bool)
        requires
            self.wf(),
        ensures
            r == (self.future().len() > 0),
    {
        self.history.redoable()
    }

    /// Takes the table back to the grid before the most recent action that is not undone, and
    /// returns `true`; returns `false`, changing nothing, when there is nothing to undo.
    pub fn undo(&mut self) -> (r: bool)
        requires
            old(self).wf(),
        ensures
            final(self).wf(),
            r == (old(self).past().len() > 0),
            !r ==> final(self)@ == old(self)@ && final(self).past() == old(self).past()
                && final(self).future() == old(self).future() && final(self).past_states() == old(
                self,
            ).past_states() && final(self).future_states() == old(self).future_states(),
            r ==> {
                &&& final(self).sheet() == old(self).past().last()
                &&& final(self).state() == old(self).past_states().last()
                &&& final(self).past() == old(self).past().drop_last()
                &&& final(self).past_states() == old(self).past_states().drop_last()
                &&& final(self).future() == old(self).future().push(old(self).sheet())
                &&& final(self).future_states() == old(self).future_states().push(old(self).state())
            },
    {
        let ghost s0 = self.store@;
        let ghost undo0 = stack_views(self.history.undo_entries());
        let ghost redo0 = stack_views(self.history.redo_entries());
        if !self.history.undoable() {
            return false;
        }
        proof {
            assert(self.history.undo_entries().last()@ == undo0.last());
        }
        self.history.undo(&mut self.store);
        proof {
            let t = apply_all(s0, undo0.last());
            lemma_inverse_all(s0, undo0.last());
            assert(stack_views(self.history.undo_entries()) =~= undo0.drop_last());
            assert(stack_views(self.history.redo_entries()) =~= redo0.push(
                inverse_all(s0, undo0.last()),
            ));
            lemma_record(s0, t, inverse_all(s0, undo0.last()), redo0);
        }
        true
    }

    /// Repeats the most recently undone action, and returns `true`; returns `false`, changing
    /// nothing, when there is nothing to redo.
    pub fn redo(&mut self) -> (r: bool)
        requires
            old(self).wf(),
        ensures
            final(self).wf(),
            r == (old(self).future().len() > 0),
            !r ==> final(self)@ == old(self)@ && final(self).past() == old(self).past()
                && final(self).future() == old(self).future() && final(self).past_states() == old(
                self,
            ).past_states() && final(self).future_states() == old(self).future_states(),
            r ==> {
                &&& final(self).sheet() == old(self).future().last()
                &&& final(self).state() == old(self).future_states().last()
                &&& final(self).future() == old(self).future().drop_last()
                &&& final(self).future_states() == old(self).future_states().drop_last()
                &&& final(self).past() == old(self).past().push(old(self).sheet())
                &&& final(self).past_states() == old(self).past_states().push(old(self).state())
            },
    {
        let ghost s0 = self.store@;
        let ghost undo0 = stack_views(self.history.undo_entries());
        let ghost redo0 = stack_views(self.history.redo_entries());
        if !self.history.redoable() {
            return false;
        }
        proof {
            assert(self.history.redo_entries().last()@ == redo0.last());
        }
        self.history.redo(&mut self.store);
        proof {
            let t = apply_all(s0, redo0.last());
            lemma_inverse_all(s0, redo0.last());
            assert(stack_views(self.history.redo_entries()) =~= redo0.drop_last());
            assert(stack_views(self.history.undo_entries()) =~= undo0.push(
                inverse_all(s0, redo0.last()),
            ));
            lemma_record(s0, t, inverse_all(s0, redo0.last()), undo0);
        }
        true
    }
}

/// Two changes in a row.
proof fn lemma_apply_two(s: GridState, x: ChangeView, y: ChangeView)
    ensures
        apply_all(s, seq![x, y]) == apply_change(apply_change(s, x), y),
        all_ok(s, seq![x, y]) == (change_ok(s, x) && change_ok(apply_change(s, x), y)),
{
    lemma_apply_concat(s, seq![x], seq![y]);
    assert(seq![x] + seq![y] =~= seq![x, y]);
    lemma_apply_one(s, x);
    lemma_apply_one(apply_change(s, x), y);
}

/// A slot that is not live holds only empty cells.
proof fn lemma_dead_row_empty(s: GridState, p: int)
    requires
        state_ok(s),
        0 <= p < s.cells.len(),
        !s.rows.order.contains(p as usize),
    ensures
        s.cells[p] == empty_cells(s.cols.next),
{
    assert forall|c: int| 0 <= c < s.cells[p].len() implies #[trigger] s.cells[p][c] =~= Seq::<char>::empty() by {
        if s.cells[p][c].len() > 0 {
            assert(s.rows.order.contains(p as usize));
        }
    }
    assert(s.cells[p] =~= empty_cells(s.cols.next));
}

proof fn lemma_dead_col_empty(s: GridState, p: int)
    requires
        state_ok(s),
        0 <= p < s.cols.next,
        !s.cols.order.contains(p as usize),
    ensures
        forall|r: int| 0 <= r < s.cells.len() ==> #[trigger] s.cells[r][p] == Seq::<char>::empty(),
{
    assert forall|r: int| 0 <= r < s.cells.len() implies #[trigger] s.cells[r][p] == Seq::<char>::empty() by {
        if s.cells[r][p].len() > 0 {
            assert(s.cols.order.contains(p as usize));
        }
        assert(s.cells[r][p] =~= Seq::<char>::empty());
    }
}

/// The change set that undoes inserting slot `p` at logical position `i` of axis `a`.
spec fn undo_insert(before: SlotState, a: Axis, i: usize, p: usize) -> Seq<ChangeView> {
    if before.free.len() > 0 {
        seq![ChangeView::Deleted(a, i, p), ChangeView::FreePushed(a, p)]
    } else {
        seq![ChangeView::Deleted(a, i, p), ChangeView::Shrunk(a, p)]
    }
}

proof fn lemma_insert_row(before: GridState, after: GridState, i: int, p: usize)
    requires
        state_ok(before),
        0 <= i <= before.rows.order.len(),
        before.rows.order.len() < usize::MAX,
        slots_ok(after.rows),
        after.rows.order == before.rows.order.insert(i, p),
        crate::indirection::allocated(before.rows, after.rows, p),
        after.cols == before.cols,
        after.cells == (if before.rows.free.len() > 0 {
            before.cells
        } else {
            before.cells.push(empty_cells(before.cols.next))
        }),
    ensures
        state_ok(after),
        grid_of(after) == grid_of(before).insert(i, empty_cells(before.cols.order.len())),
        all_ok(after, undo_insert(before.rows, Axis::Row, i as usize, p)),
        apply_all(after, undo_insert(before.rows, Axis::Row, i as usize, p)) == before,
{
    lemma_slots_distinct(before.rows);
    lemma_slots_distinct(before.cols);
    lemma_slots_distinct(after.rows);
    let fresh = before.rows.free.len() == 0;
    if !fresh {
        let k = before.rows.free.len() - 1;
        assert(before.rows.free[k] == p);
        assert(!before.rows.order.contains(p));
        lemma_dead_row_empty(before, p as int);
    } else {
        assert(before.rows.order + before.rows.free =~= before.rows.order);
    }
    assert(after.cells[p as int] == empty_cells(before.cols.next));
    // cells outside row `p` are unchanged
    assert forall|r: int| 0 <= r < before.cells.len() && r != p implies #[trigger] after.cells[r] == before.cells[r] by {}
    assert forall|r: int| 0 <= r < after.cells.len() implies #[trigger] after.cells[r].len() == after.cols.next by {
        if r != p {
            assert(after.cells[r] == before.cells[r]);
        }
    }
    assert forall|r: int, c: int|
        0 <= r < after.cells.len() && 0 <= c < after.cells[r].len() && #[trigger] after.cells[r][c].len() > 0
            implies after.rows.order.contains(r as usize) && after.cols.order.contains(c as usize) by {
        assert(r != p);
        assert(after.cells[r] == before.cells[r]);
        assert(before.rows.order.contains(r as usize));
        let m = choose|m: int| 0 <= m < before.rows.order.len() && before.rows.order[m] == r as usize;
        if m < i {
            assert(after.rows.order[m] == r as usize);
        } else {
            assert(after.rows.order[m + 1] == r as usize);
        }
    }
    let g = grid_of(after);
    let h = grid_of(before).insert(i, empty_cells(before.cols.order.len()));
    assert forall|a: int| 0 <= a < g.len() implies #[trigger] g[a] =~= h[a] by {
        if a < i {
            assert(after.rows.order[a] == before.rows.order[a]);
        } else if a > i {
            assert(after.rows.order[a] == before.rows.order[a - 1]);
            assert(before.rows.order[a - 1] != p);
        } else {
            assert forall|b: int| 0 <= b < g[a].len() implies #[trigger] g[a][b] == h[a][b] by {
                assert(after.cells[p as int][before.cols.order[b] as int] == Seq::<char>::empty());
            }
        }
    }
    assert(g =~= h);
    let e = undo_insert(before.rows, Axis::Row, i as usize, p);
    let d = ChangeView::Deleted(Axis::Row, i as usize, p);
    lemma_apply_two(after, e[0], e[1]);
    assert(e =~= seq![e[0], e[1]]);
    let t = apply_change(after, d);
    assert(t.rows.order =~= before.rows.order);
    if fresh {
        assert(t.cells.drop_last() =~= before.cells);
        assert(apply_change(t, e[1]).rows =~= before.rows);
    } else {
        assert(t.rows.free.push(p) =~= before.rows.free);
        assert(apply_change(t, e[1]).rows =~= before.rows);
    }
}

proof fn lemma_insert_col(before: GridState, after: GridState, j: int, p: usize)
    requires
        state_ok(before),
        0 <= j <= before.cols.order.len(),
        before.cols.order.len() < usize::MAX,
        slots_ok(after.cols),
        after.cols.order == before.cols.order.insert(j, p),
        crate::indirection::allocated(before.cols, after.cols, p),
        after.rows == before.rows,
        after.cells == (if before.cols.free.len() > 0 {
            before.cells
        } else {
            before.cells.map_values(|row: Seq<Seq<char>>| row.push(Seq::<char>::empty()))
        }),
    ensures
        state_ok(after),
        grid_of(after) == grid_of(before).map_values(|row: Seq<Seq<char>>| row.insert(j, Seq::<char>::empty())),
        all_ok(after, undo_insert(before.cols, Axis::Col, j as usize, p)),
        apply_all(after, undo_insert(before.cols, Axis::Col, j as usize, p)) == before,
{
    lemma_slots_distinct(before.rows);
    lemma_slots_distinct(before.cols);
    lemma_slots_distinct(after.cols);
    let fresh = before.cols.free.len() == 0;
    if !fresh {
        let k = before.cols.free.len() - 1;
        assert(before.cols.free[k] == p);
        assert(!before.cols.order.contains(p));
        lemma_dead_col_empty(before, p as int);
    } else {
        assert(before.cols.order + before.cols.free =~= before.cols.order);
        assert forall|r: int| 0 <= r < after.cells.len() implies #[trigger] after.cells[r] == before.cells[r].push(Seq::<char>::empty()) by {}
    }
    assert forall|r: int| 0 <= r < after.cells.len() implies #[trigger] after.cells[r][p as int] == Seq::<char>::empty() && after.cells[r].len() == after.cols.next by {}
    assert forall|r: int, c: int| 0 <= r < before.cells.len() && 0 <= c < before.cells[r].len() && c != p implies #[trigger] after.cells[r][c] == before.cells[r][c] by {
        if fresh {
            assert(after.cells[r] == before.cells[r].push(Seq::<char>::empty()));
        }
    }
    assert forall|r: int, c: int|
        0 <= r < after.cells.len() && 0 <= c < after.cells[r].len() && #[trigger] after.cells[r][c].len() > 0
            implies after.rows.order.contains(r as usize) && after.cols.order.contains(c as usize) by {
        assert(c != p);
        assert(after.cells[r][c] == before.cells[r][c]);
        assert(before.cols.order.contains(c as usize));
        let m = choose|m: int| 0 <= m < before.cols.order.len() && before.cols.order[m] == c as usize;
        if m < j {
            assert(after.cols.order[m] == c as usize);
        } else {
            assert(after.cols.order[m + 1] == c as usize);
        }
    }
    let g = grid_of(after);
    let h = grid_of(before).map_values(|row: Seq<Seq<char>>| row.insert(j, Seq::<char>::empty()));
    assert forall|a: int| 0 <= a < g.len() implies #[trigger] g[a] =~= h[a] by {
        let r = before.rows.order[a] as int;
        assert forall|b: int| 0 <= b < g[a].len() implies #[trigger] g[a][b] == h[a][b] by {
            if b < j {
                assert(after.cols.order[b] == before.cols.order[b]);
            } else if b > j {
                assert(after.cols.order[b] == before.cols.order[b - 1]);
                assert(before.cols.order[b - 1] != p);
            }
        }
    }
    assert(g =~= h);
    let e = undo_insert(before.cols, Axis::Col, j as usize, p);
    let d = ChangeView::Deleted(Axis::Col, j as usize, p);
    lemma_apply_two(after, e[0], e[1]);
    assert(e =~= seq![e[0], e[1]]);
    let t = apply_change(after, d);
    assert(t.cols.order =~= before.cols.order);
    if fresh {
        let u = apply_change(t, e[1]);
        assert forall|r: int| 0 <= r < before.cells.len() implies #[trigger] u.cells[r] =~= before.cells[r] by {
            assert(after.cells[r] == before.cells[r].push(Seq::<char>::empty()));
        }
        assert(u.cells =~= before.cells);
        assert(u.cols =~= before.cols);
    } else {
        assert(t.cols.free.push(p) =~= before.cols.free);
        assert(apply_change(t, e[1]).cols =~= before.cols);
    }
}

/// Restoring a cleared cell is the first of the recorded edits.
proof fn lemma_prepend_edit(
    before: GridState,
    x_old: GridState,
    x_new: GridState,
    r: usize,
    c: usize,
    edits: Seq<ChangeView>,
)
    requires
        r < x_old.cells.len(),
        c < x_old.cells[r as int].len(),
        x_new == (GridState {
            cells: x_old.cells.update(r as int, x_old.cells[r as int].update(c as int, Seq::<char>::empty())),
            ..x_old
        }),
        all_ok(x_old, edits),
        apply_all(x_old, edits) == before,
    ensures
        all_ok(x_new, seq![ChangeView::CellEdit(r, c, x_old.cells[r as int][c as int])] + edits),
        apply_all(x_new, seq![ChangeView::CellEdit(r, c, x_old.cells[r as int][c as int])] + edits)
            == before,
{
    let e = ChangeView::CellEdit(r, c, x_old.cells[r as int][c as int]);
    lemma_apply_concat(x_new, seq![e], edits);
    lemma_apply_one(x_new, e);
    let y = apply_change(x_new, e);
    assert(y.cells[r as int] =~= x_old.cells[r as int]);
    assert(y.cells =~= x_old.cells);
    assert(y == x_old);
}

proof fn lemma_delete_row(before: GridState, after: GridState, i: int)
    requires
        state_ok(before),
        0 <= i < before.rows.order.len(),
        slots_ok(after.rows),
        after.rows == (SlotState {
            order: before.rows.order.remove(i),
            free: before.rows.free.push(before.rows.order[i]),
            next: before.rows.next,
        }),
        after.cols == before.cols,
        after.cells.len() == before.cells.len(),
        forall|r: int| 0 <= r < before.cells.len() && r != before.rows.order[i] ==> #[trigger] after.cells[r] == before.cells[r],
        after.cells[before.rows.order[i] as int] == empty_cells(before.cols.next),
    ensures
        state_ok(after),
        grid_of(after) == grid_of(before).remove(i),
{
    lemma_slots_distinct(before.rows);
    lemma_slots_distinct(before.cols);
    let p = before.rows.order[i];
    assert forall|r: int| 0 <= r < after.cells.len() implies #[trigger] after.cells[r].len() == after.cols.next by {
        if r != p {
            assert(after.cells[r] == before.cells[r]);
        }
    }
    assert forall|r: int, c: int|
        0 <= r < after.cells.len() && 0 <= c < after.cells[r].len() && #[trigger] after.cells[r][c].len() > 0
            implies after.rows.order.contains(r as usize) && after.cols.order.contains(c as usize) by {
        assert(r != p);
        assert(after.cells[r] == before.cells[r]);
        assert(before.rows.order.contains(r as usize));
        let m = choose|m: int| 0 <= m < before.rows.order.len() && before.rows.order[m] == r as usize;
        assert(m != i);
        if m < i {
            assert(after.rows.order[m] == r as usize);
        } else {
            assert(after.rows.order[m - 1] == r as usize);
        }
    }
    let g = grid_of(after);
    let h = grid_of(before).remove(i);
    assert forall|a: int| 0 <= a < g.len() implies #[trigger] g[a] =~= h[a] by {
        if a < i {
            assert(after.rows.order[a] == before.rows.order[a]);
            assert(before.rows.order[a] != p);
        } else {
            assert(after.rows.order[a] == before.rows.order[a + 1]);
            assert(before.rows.order[a + 1] != p);
        }
    }
    assert(g =~= h);
}

proof fn lemma_delete_col(before: GridState, after: GridState, j: int)
    requires
        state_ok(before),
        0 <= j < before.cols.order.len(),
        slots_ok(after.cols),
        after.cols == (SlotState {
            order: before.cols.order.remove(j),
            free: before.cols.free.push(before.cols.order[j]),
            next: before.cols.next,
        }),
        after.rows == before.rows,
        after.cells.len() == before.cells.len(),
        forall|r: int| 0 <= r < before.cells.len() ==> (#[trigger] after.cells[r]).len() == before.cells[r].len(),
        forall|r: int, c: int|
            0 <= r < before.cells.len() && 0 <= c < before.cells[r].len() && c != before.cols.order[j]
                ==> #[trigger] after.cells[r][c] == before.cells[r][c],
        forall|r: int| 0 <= r < before.cells.len() ==> #[trigger] after.cells[r][before.cols.order[j] as int].len() == 0,
    ensures
        state_ok(after),
        grid_of(after) == grid_of(before).map_values(|row: Seq<Seq<char>>| row.remove(j)),
{
    lemma_slots_distinct(before.rows);
    lemma_slots_distinct(before.cols);
    let p = before.cols.order[j];
    assert forall|r: int, c: int|
        0 <= r < after.cells.len() && 0 <= c < after.cells[r].len() && #[trigger] after.cells[r][c].len() > 0
            implies after.rows.order.contains(r as usize) && after.cols.order.contains(c as usize) by {
        assert(c != p);
        assert(after.cells[r][c] == before.cells[r][c]);
        assert(before.cols.order.contains(c as usize));
        let m = choose|m: int| 0 <= m < before.cols.order.len() && before.cols.order[m] == c as usize;
        assert(m != j);
        if m < j {
            assert(after.cols.order[m] == c as usize);
        } else {
            assert(after.cols.order[m - 1] == c as usize);
        }
    }
    let g = grid_of(after);
    let h = grid_of(before).map_values(|row: Seq<Seq<char>>| row.remove(j));
    assert forall|a: int| 0 <= a < g.len() implies #[trigger] g[a] =~= h[a] by {
        assert forall|b: int| 0 <= b < g[a].len() implies #[trigger] g[a][b] == h[a][b] by {
            if b < j {
                assert(after.cols.order[b] == before.cols.order[b]);
                assert(before.cols.order[b] != p);
            } else {
                assert(after.cols.order[b] == before.cols.order[b + 1]);
                assert(before.cols.order[b + 1] != p);
            }
        }
    }
    assert(g =~= h);
}

/// The largest number of fields of any of the records.
pub open spec fn max_width(rs: Seq<Seq<Seq<char>>>) -> nat
    decreases rs.len(),
{
    if rs.len() == 0 {
        0
    } else {
        let w = max_width(rs.drop_last());
        if rs.last().len() > w { rs.last().len() } else { w }
    }
}

/// The records, each padded with empty fields to the largest width.
pub open spec fn padded(rs: Seq<Seq<Seq<char>>>) -> Grid {
    rs.map_values(|r: Seq<Seq<char>>| r + empty_cells((max_width(rs) - r.len()) as nat))
}

proof fn lemma_max_width(rs: Seq<Seq<Seq<char>>>)
    ensures
        forall|k: int| 0 <= k < rs.len() ==> (#[trigger] rs[k]).len() <= max_width(rs),
        rs.len() > 0 ==> exists|k: int| 0 <= k < rs.len() && (#[trigger] rs[k]).len() == max_width(rs),
        rs.len() == 0 ==> max_width(rs) == 0,
    decreases rs.len(),
{
    if rs.len() > 0 {
        lemma_max_width(rs.drop_last());
        assert forall|k: int| 0 <= k < rs.len() implies (#[trigger] rs[k]).len() <= max_width(rs) by {
            if k < rs.len() - 1 {
                assert(rs[k] == rs.drop_last()[k]);
            }
        }
        if rs.last().len() <= max_width(rs.drop_last()) && rs.len() > 1 {
            let k = choose|k: int| 0 <= k < rs.drop_last().len() && (#[trigger] rs.drop_last()[k]).len() == max_width(rs.drop_last());
            assert(rs[k] == rs.drop_last()[k]);
        } else {
            assert(rs[rs.len() - 1] == rs.last());
        }
    }
}

proof fn lemma_identity_slots(n: nat)
    requires
        n <= usize::MAX,
    ensures
        slots_ok(SlotState { order: Seq::new(n, |k: int| k as usize), free: Seq::empty(), next: n }),
        forall|k: int| 0 <= k < n ==> Seq::new(n, |k: int| k as usize).contains(#[trigger] (k as usize)),
{
    let s = SlotState { order: Seq::new(n, |k: int| k as usize), free: Seq::empty(), next: n };
    assert(s.order + s.free =~= s.order);
    assert forall|k: int| 0 <= k < n implies s.order.contains(#[trigger] (k as usize)) by {
        assert(s.order[k] == k as usize);
    }
}

/// Each layer's logical order holds distinct slots, none of them free, all below the counter.
proof fn lemma_slots_distinct(s: SlotState)
    requires
        slots_ok(s),
    ensures
        s.order.no_duplicates(),
        forall|k: int| 0 <= k < s.order.len() ==> #[trigger] s.order[k] < s.next,
        forall|k: int| 0 <= k < s.free.len() ==> #[trigger] s.free[k] < s.next,
        forall|a: int, b: int|
            0 <= a < s.order.len() && 0 <= b < s.free.len() ==> #[trigger] s.order[a] != #[trigger] s.free[b],
{
    let all = s.order + s.free;
    assert forall|a: int, b: int| 0 <= a < s.order.len() && 0 <= b < s.order.len() && a != b implies s.order[a] != s.order[b] by {
        assert(all[a] == s.order[a] && all[b] == s.order[b]);
    }
    assert forall|k: int| 0 <= k < s.order.len() implies #[trigger] s.order[k] < s.next by {
        assert(all[k] == s.order[k]);
    }
    assert forall|k: int| 0 <= k < s.free.len() implies #[trigger] s.free[k] < s.next by {
        assert(all[s.order.len() + k] == s.free[k]);
    }
    assert forall|a: int, b: int| 0 <= a < s.order.len() && 0 <= b < s.free.len() implies #[trigger] s.order[a] != #[trigger] s.free[b] by {
        assert(all[a] == s.order[a]);
        assert(all[s.order.len() + b] == s.free[b]);
    }
}

/// A live cell lies inside the store.
proof fn lemma_live_in_store(s: GridState, i: int, j: int)
    requires
        state_ok(s),
        0 <= i < s.rows.order.len(),
        0 <= j < s.cols.order.len(),
    ensures
        s.rows.order[i] < s.cells.len(),
        s.cols.order[j] < s.cells[s.rows.order[i] as int].len(),
        grid_of(s)[i][j] == s.cells[s.rows.order[i] as int][s.cols.order[j] as int],
{
    lemma_slots_distinct(s.rows);
    lemma_slots_distinct(s.cols);
}

proof fn lemma_write_keeps_state(before: GridState, after: GridState, i: int, j: int, v: Seq<char>)
    requires
        state_ok(before),
        0 <= i < before.rows.order.len(),
        0 <= j < before.cols.order.len(),
        after == (GridState {
            cells: before.cells.update(
                before.rows.order[i] as int,
                before.cells[before.rows.order[i] as int].update(before.cols.order[j] as int, v),
            ),
            ..before
        }),
    ensures
        state_ok(after),
        grid_of(after) == grid_of(before).update(i, grid_of(before)[i].update(j, v)),
{
    lemma_slots_distinct(before.rows);
    lemma_slots_distinct(before.cols);
    let pr = before.rows.order[i];
    let pc = before.cols.order[j];
    assert forall|r: int| 0 <= r < after.cells.len() implies #[trigger] after.cells[r].len() == after.cols.next by {
        if r == pr {
        }
    }
    assert forall|r: int, c: int|
        0 <= r < after.cells.len() && 0 <= c < after.cells[r].len() && #[trigger] after.cells[r][c].len() > 0
            implies after.rows.order.contains(r as usize) && after.cols.order.contains(c as usize) by {
        if r == pr && c == pc {
            assert(after.rows.order[i] == r);
            assert(after.cols.order[j] == c);
        } else {
            assert(after.cells[r][c] == before.cells[r][c]);
        }
    }
    let g = grid_of(after);
    let h = grid_of(before).update(i, grid_of(before)[i].update(j, v));
    assert forall|a: int| 0 <= a < g.len() implies #[trigger] g[a] =~= h[a] by {
        assert forall|b: int| 0 <= b < g[a].len() implies #[trigger] g[a][b] == h[a][b] by {
            if a != i {
                assert(before.rows.order[a] != pr);
            } else if b != j {
                assert(before.cols.order[b] != pc);
            }
        }
    }
    assert(g =~= h);
}

} // verus!
