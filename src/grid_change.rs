use vstd::prelude::*;

use crate::indirection::{slots_ok, SlotState};

verus! {

/// Which of the two indirection layers of a grid a change touches.
#[derive(Debug, Clone, Copy, PartialEq, Eq, Structural)]
pub enum Axis {
    Row,
    Col,
}

/// One reversible primitive change of a grid, with the text of a cell as characters.
///
/// Cell coordinates are physical slots. Logical positions and physical slots of the
/// indirection layers are those of the axis the change names.
pub enum ChangeView {
    CellEdit(usize, usize, Seq<char>),
    Inserted(Axis, usize, usize),
    Deleted(Axis, usize, usize),
    FreePushed(Axis, usize),
    FreePopped(Axis, usize),
    Grown(Axis, usize),
    Shrunk(Axis, usize),
}

/// A grid of text cells as its user sees it: rows of cells, in logical order.
pub type Grid = Seq<Seq<Seq<char>>>;

/// A grid together with its number of columns, which a grid without rows does not show.
pub type Sheet = (Grid, nat);

/// The full state of a grid: the physical cell store and both indirection layers.
pub struct GridState {
    /// The text of each cell, indexed by physical row, then physical column.
    pub cells: Seq<Seq<Seq<char>>>,
    pub rows: SlotState,
    pub cols: SlotState,
}

/// `n` empty cells.
pub open spec fn empty_cells(n: nat) -> Seq<Seq<char>> {
    Seq::new(n, |k: int| Seq::<char>::empty())
}

/// The indirection layer of the axis.
pub open spec fn layer(s: GridState, a: Axis) -> SlotState {
    match a {
        Axis::Row => s.rows,
        Axis::Col => s.cols,
    }
}

/// The state with the indirection layer of the axis replaced.
pub open spec fn with_layer(s: GridState, a: Axis, l: SlotState) -> GridState {
    match a {
        Axis::Row => GridState { rows: l, ..s },
        Axis::Col => GridState { cols: l, ..s },
    }
}

/// The grid that a state shows: cell `(i, j)` is the cell stored at the physical row behind
/// logical row `i` and the physical column behind logical column `j`.
pub open spec fn grid_of(s: GridState) -> Grid {
    Seq::new(
        s.rows.order.len(),
        |i: int| Seq::new(s.cols.order.len(), |j: int| s.cells[s.rows.order[i] as int][s.cols.order[j] as int]),
    )
}

/// The grid that a state shows, with its number of columns.
pub open spec fn sheet_of(s: GridState) -> Sheet {
    (grid_of(s), s.cols.order.len())
}

/// Both layers use their slots exactly once, the store has a row for each row slot and a cell
/// for each column slot, and only cells in a live row and a live column hold text.
pub open spec fn state_ok(s: GridState) -> bool {
    &&& slots_ok(s.rows)
    &&& slots_ok(s.cols)
    &&& s.cells.len() == s.rows.next
    &&& forall|r: int| 0 <= r < s.cells.len() ==> #[trigger] s.cells[r].len() == s.cols.next
    &&& forall|r: int, c: int|
        0 <= r < s.cells.len() && 0 <= c < s.cells[r].len() && #[trigger] s.cells[r][c].len() > 0
            ==> s.rows.order.contains(r as usize) && s.cols.order.contains(c as usize)
}

/// The change can be applied to the state.
pub open spec fn change_ok(s: GridState, c: ChangeView) -> bool {
    match c {
        ChangeView::CellEdit(r, col, v) => r < s.cells.len() && col < s.cells[r as int].len(),
        ChangeView::Inserted(a, l, p) => l <= layer(s, a).order.len() && layer(s, a).order.len()
            < usize::MAX,
        ChangeView::Deleted(a, l, p) => l < layer(s, a).order.len() && layer(s, a).order[l as int]
            == p && layer(s, a).order.len() <= usize::MAX,
        ChangeView::FreePushed(a, p) => layer(s, a).free.len() < usize::MAX,
        ChangeView::FreePopped(a, p) => layer(s, a).free.len() > 0 && layer(s, a).free.last() == p
            && layer(s, a).free.len() <= usize::MAX,
        ChangeView::Grown(a, p) => {
            &&& p == layer(s, a).next
            &&& p < usize::MAX
            &&& s.rows.next == s.cells.len()
            &&& forall|r: int| 0 <= r < s.cells.len() ==> #[trigger] s.cells[r].len() == s.cols.next
        },
        ChangeView::Shrunk(a, p) => {
            &&& p + 1 == layer(s, a).next
            &&& p < usize::MAX
            &&& s.rows.next == s.cells.len()
            &&& forall|r: int| 0 <= r < s.cells.len() ==> #[trigger] s.cells[r].len() == s.cols.next
            &&& match a {
                Axis::Row => s.cells[p as int] == empty_cells(s.cols.next),
                Axis::Col => forall|r: int|
                    0 <= r < s.cells.len() ==> #[trigger] s.cells[r][p as int].len() == 0,
            }
        },
    }
}

/// The state after the change.
pub open spec fn apply_change(s: GridState, c: ChangeView) -> GridState {
    match c {
        ChangeView::CellEdit(r, col, v) => GridState {
            cells: s.cells.update(r as int, s.cells[r as int].update(col as int, v)),
            ..s
        },
        ChangeView::Inserted(a, l, p) => with_layer(
            s,
            a,
            SlotState { order: layer(s, a).order.insert(l as int, p), ..layer(s, a) },
        ),
        ChangeView::Deleted(a, l, p) => with_layer(
            s,
            a,
            SlotState { order: layer(s, a).order.remove(l as int), ..layer(s, a) },
        ),
        ChangeView::FreePushed(a, p) => with_layer(
            s,
            a,
            SlotState { free: layer(s, a).free.push(p), ..layer(s, a) },
        ),
        ChangeView::FreePopped(a, p) => with_layer(
            s,
            a,
            SlotState { free: layer(s, a).free.drop_last(), ..layer(s, a) },
        ),
        ChangeView::Grown(a, p) => match a {
            Axis::Row => GridState {
                cells: s.cells.push(empty_cells(s.cols.next)),
                rows: SlotState { next: s.rows.next + 1, ..s.rows },
                ..s
            },
            Axis::Col => GridState {
                cells: s.cells.map_values(|row: Seq<Seq<char>>| row.push(Seq::<char>::empty())),
                cols: SlotState { next: s.cols.next + 1, ..s.cols },
                ..s
            },
        },
        ChangeView::Shrunk(a, p) => match a {
            Axis::Row => GridState {
                cells: s.cells.drop_last(),
                rows: SlotState { next: (s.rows.next - 1) as nat, ..s.rows },
                ..s
            },
            Axis::Col => GridState {
                cells: s.cells.map_values(|row: Seq<Seq<char>>| row.drop_last()),
                cols: SlotState { next: (s.cols.next - 1) as nat, ..s.cols },
                ..s
            },
        },
    }
}

/// The change that, applied right after `c`, takes the state back to `s`.
pub open spec fn inverse_change(s: GridState, c: ChangeView) -> ChangeView {
    match c {
        ChangeView::CellEdit(r, col, v) => ChangeView::CellEdit(r, col, s.cells[r as int][col as int]),
        ChangeView::Inserted(a, l, p) => ChangeView::Deleted(a, l, p),
        ChangeView::Deleted(a, l, p) => ChangeView::Inserted(a, l, p),
        ChangeView::FreePushed(a, p) => ChangeView::FreePopped(a, p),
        ChangeView::FreePopped(a, p) => ChangeView::FreePushed(a, p),
        ChangeView::Grown(a, p) => ChangeView::Shrunk(a, p),
        ChangeView::Shrunk(a, p) => ChangeView::Grown(a, p),
    }
}

/// The state after the changes, applied in order.
pub open spec fn apply_all(s: GridState, cs: Seq<ChangeView>) -> GridState
    decreases cs.len(),
{
    if cs.len() == 0 {
        s
    } else {
        apply_change(apply_all(s, cs.drop_last()), cs.last())
    }
}

/// Each of the changes, in order, can be applied to the state the earlier ones lead to.
pub open spec fn all_ok(s: GridState, cs: Seq<ChangeView>) -> bool
    decreases cs.len(),
{
    if cs.len() == 0 {
        true
    } else {
        all_ok(s, cs.drop_last()) && change_ok(apply_all(s, cs.drop_last()), cs.last())
    }
}

/// The inverses of the changes, last change first.
pub open spec fn inverse_all(s: GridState, cs: Seq<ChangeView>) -> Seq<ChangeView>
    decreases cs.len(),
{
    if cs.len() == 0 {
        Seq::empty()
    } else {
        seq![inverse_change(apply_all(s, cs.drop_last()), cs.last())] + inverse_all(
            s,
            cs.drop_last(),
        )
    }
}

pub(crate) proof fn lemma_cell_edit_inverse(s: GridState, r: usize, col: usize, v: Seq<char>)
    requires
        change_ok(s, ChangeView::CellEdit(r, col, v)),
    ensures
        ({
            let c = ChangeView::CellEdit(r, col, v);
            change_ok(apply_change(s, c), inverse_change(s, c)) && apply_change(
                apply_change(s, c),
                inverse_change(s, c),
            ) == s
        }),
{
    let c = ChangeView::CellEdit(r, col, v);
    let t = apply_change(s, c);
    let u = apply_change(t, inverse_change(s, c));
    assert(t.cells[r as int].len() == s.cells[r as int].len());
    assert(u.cells[r as int] =~= s.cells[r as int]);
    assert(u.cells =~= s.cells);
}

pub(crate) proof fn lemma_layer_inverse(s: GridState, c: ChangeView)
    requires
        change_ok(s, c),
        c is Inserted || c is Deleted || c is FreePushed || c is FreePopped,
    ensures
        change_ok(apply_change(s, c), inverse_change(s, c)),
        apply_change(apply_change(s, c), inverse_change(s, c)) == s,
{
    let t = apply_change(s, c);
    let u = apply_change(t, inverse_change(s, c));
    match c {
        ChangeView::Inserted(a, l, p) => {
            assert(layer(t, a).order[l as int] == p);
            assert(layer(t, a).order.remove(l as int) =~= layer(s, a).order);
        },
        ChangeView::Deleted(a, l, p) => {
            assert(layer(t, a).order.insert(l as int, p) =~= layer(s, a).order);
        },
        ChangeView::FreePushed(a, p) => {
            assert(layer(t, a).free.drop_last() =~= layer(s, a).free);
        },
        ChangeView::FreePopped(a, p) => {
            assert(layer(t, a).free.push(p) =~= layer(s, a).free);
        },
        _ => {},
    }
}

pub(crate) proof fn lemma_row_size_inverse(s: GridState, c: ChangeView)
    requires
        change_ok(s, c),
        c == ChangeView::Grown(Axis::Row, c->Grown_1) || c == ChangeView::Shrunk(Axis::Row, c->Shrunk_1),
    ensures
        change_ok(apply_change(s, c), inverse_change(s, c)),
        apply_change(apply_change(s, c), inverse_change(s, c)) == s,
{
    let t = apply_change(s, c);
    let u = apply_change(t, inverse_change(s, c));
    if c is Grown {
        let p = c->Grown_1;
        assert(t.cells[p as int] =~= empty_cells(t.cols.next));
        assert forall|r: int| 0 <= r < t.cells.len() implies #[trigger] t.cells[r].len() == t.cols.next by {
            if r < p {
                assert(t.cells[r] == s.cells[r]);
            }
        }
        assert(u.cells =~= s.cells);
    } else {
        let p = c->Shrunk_1;
        assert(u.cells =~= s.cells);
    }
    assert(u.rows =~= s.rows);
}

pub(crate) proof fn lemma_col_size_inverse(s: GridState, c: ChangeView)
    requires
        change_ok(s, c),
        c == ChangeView::Grown(Axis::Col, c->Grown_1) || c == ChangeView::Shrunk(Axis::Col, c->Shrunk_1),
    ensures
        change_ok(apply_change(s, c), inverse_change(s, c)),
        apply_change(apply_change(s, c), inverse_change(s, c)) == s,
{
    let t = apply_change(s, c);
    let u = apply_change(t, inverse_change(s, c));
    if c is Grown {
        let p = c->Grown_1;
        assert forall|r: int| 0 <= r < t.cells.len() implies #[trigger] t.cells[r].len() == t.cols.next && t.cells[r][p as int].len() == 0 by {
            assert(t.cells[r] == s.cells[r].push(Seq::<char>::empty()));
        }
        assert forall|r: int| 0 <= r < s.cells.len() implies #[trigger] u.cells[r] =~= s.cells[r] by {
            assert(t.cells[r] == s.cells[r].push(Seq::<char>::empty()));
        }
        assert(u.cells =~= s.cells);
    } else {
        let p = c->Shrunk_1;
        assert forall|r: int| 0 <= r < t.cells.len() implies #[trigger] t.cells[r].len() == t.cols.next by {
            assert(t.cells[r] == s.cells[r].drop_last());
        }
        assert forall|r: int| 0 <= r < s.cells.len() implies #[trigger] u.cells[r] =~= s.cells[r] by {
            assert(t.cells[r] == s.cells[r].drop_last());
            assert(s.cells[r][p as int] =~= Seq::<char>::empty());
        }
        assert(u.cells =~= s.cells);
    }
    assert(u.cols =~= s.cols);
}

pub(crate) proof fn lemma_change_inverse(s: GridState, c: ChangeView)
    requires
        change_ok(s, c),
    ensures
        change_ok(apply_change(s, c), inverse_change(s, c)),
        apply_change(apply_change(s, c), inverse_change(s, c)) == s,
{
    match c {
        ChangeView::CellEdit(r, col, v) => lemma_cell_edit_inverse(s, r, col, v),
        ChangeView::Grown(Axis::Row, _) => lemma_row_size_inverse(s, c),
        ChangeView::Shrunk(Axis::Row, _) => lemma_row_size_inverse(s, c),
        ChangeView::Grown(Axis::Col, _) => lemma_col_size_inverse(s, c),
        ChangeView::Shrunk(Axis::Col, _) => lemma_col_size_inverse(s, c),
        _ => lemma_layer_inverse(s, c),
    }
}

/// Applying a single change.
pub(crate) proof fn lemma_apply_one(s: GridState, c: ChangeView)
    ensures
        apply_all(s, seq![c]) == apply_change(s, c),
        all_ok(s, seq![c]) == change_ok(s, c),
{
    assert(seq![c].drop_last() =~= Seq::<ChangeView>::empty());
    assert(apply_all(s, Seq::<ChangeView>::empty()) == s);
    assert(all_ok(s, Seq::<ChangeView>::empty()));
}

pub(crate) proof fn lemma_apply_concat(s: GridState, a: Seq<ChangeView>, b: Seq<ChangeView>)
    ensures
        apply_all(s, a + b) == apply_all(apply_all(s, a), b),
        all_ok(s, a + b) == (all_ok(s, a) && all_ok(apply_all(s, a), b)),
    decreases b.len(),
{
    if b.len() == 0 {
        assert(a + b =~= a);
    } else {
        assert((a + b).drop_last() =~= a + b.drop_last());
        assert((a + b).last() == b.last());
        lemma_apply_concat(s, a, b.drop_last());
    }
}

/// Applying the changes and then their inverses gives back the state it started from.
pub proof fn lemma_inverse_all(s: GridState, cs: Seq<ChangeView>)
    requires
        all_ok(s, cs),
    ensures
        all_ok(apply_all(s, cs), inverse_all(s, cs)),
        apply_all(apply_all(s, cs), inverse_all(s, cs)) == s,
    decreases cs.len(),
{
    if cs.len() > 0 {
        let p = cs.drop_last();
        let sp = apply_all(s, p);
        let c = cs.last();
        let t = apply_all(s, cs);
        let x = inverse_change(sp, c);
        lemma_change_inverse(sp, c);
        lemma_inverse_all(s, p);
        lemma_apply_concat(t, seq![x], inverse_all(s, p));
        lemma_apply_one(t, x);
    }
}

} // verus!
