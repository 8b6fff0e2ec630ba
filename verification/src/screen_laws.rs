//! What a snapshot holds and what a transition starts from, said of the panes' own lines.

use crate::matrix_rain::depths;
use crate::matrix_rain::rain_is_due;
use crate::matrix_rain::reveals;
use crate::screen::differs;
use crate::screen::lemma_deepest_change;
use crate::screen::lemma_in_grid;
use crate::screen::lemma_row_major;
use crate::screen::texts;
use crate::screen::PaneDimensions;
use crate::screen::PaneSnapshot;
use crate::term_window::TabSwitchAnim;
use crate::term_window::Timestamp;
use vstd::arithmetic::div_mod::lemma_fundamental_div_mod;
use vstd::prelude::*;

verus! {

/// The cell at row `r` and column `c` of the grid is the text that the pane's line has
/// there, in every row and every column of the viewport; where the line or the cell is
/// missing it is blank.
pub proof fn lemma_grid_holds_the_cells(pane: PaneSnapshot, r: int, c: int)
    requires
        0 <= r < pane.dims.viewport_rows,
        0 <= c < pane.dims.cols,
    ensures
        ({
            let cols = pane.dims.cols as int;
            let lines = pane.lines@;
            &&& pane.shown().len() == cols * pane.dims.viewport_rows
            &&& 0 <= r * cols + c < pane.shown().len()
            &&& r < lines.len() && c < lines[r].cells@.len() ==> (match lines[r].cells@[c] {
                Some(text) => pane.shown()[r * cols + c] == text@,
                None => pane.shown()[r * cols + c].len() == 0,
            })
            &&& !(r < lines.len() && c < lines[r].cells@.len()) ==> pane.shown()[r * cols + c].len()
                == 0
        }),
{
    lemma_row_major(r, c, pane.dims.cols as int);
    lemma_in_grid(r, c, pane.dims.cols as int, pane.dims.viewport_rows as int);
}

/// Snapshots of the same extent are the same exactly where every cell of one is that of
/// the other: nothing that the panes show is lost.
pub proof fn lemma_snapshots_tell_cells_apart(p: PaneSnapshot, q: PaneSnapshot, r: int, c: int)
    requires
        p.dims.cols == q.dims.cols,
        p.dims.viewport_rows == q.dims.viewport_rows,
        0 <= r < p.dims.viewport_rows,
        0 <= c < p.dims.cols,
        r < p.lines@.len(),
        r < q.lines@.len(),
        c < p.lines@[r].cells@.len(),
        c < q.lines@[r].cells@.len(),
        p.lines@[r].cells@[c] is Some,
        q.lines@[r].cells@[c] is Some,
        p.lines@[r].cells@[c]->0@ != q.lines@[r].cells@[c]->0@,
    ensures
        p.shown()[r * p.dims.cols + c] != q.shown()[r * p.dims.cols + c],
        p.shown() != q.shown(),
        rain_is_due(Some(p), q),
        depths(Some(p), q)[c] >= r,
{
    lemma_grid_holds_the_cells(p, r, c);
    lemma_grid_holds_the_cells(q, r, c);
    lemma_depth_is_the_deepest_change(p, q, c);
    let d = depths(Some(p), q)[c];
    if d < r {
        assert(p.shown()[r * p.dims.cols + c] == q.shown()[r * p.dims.cols + c]);
    }
    assert(depths(Some(p), q)[c] >= 0);
}

/// For screens of one extent the depth of a column is its last row in which they show
/// something else: they do in that row, and in none below it; it is -1 where they do in
/// none.
pub proof fn lemma_depth_is_the_deepest_change(p: PaneSnapshot, q: PaneSnapshot, c: int)
    requires
        p.dims.cols == q.dims.cols,
        p.dims.viewport_rows == q.dims.viewport_rows,
        0 <= c < q.dims.cols,
    ensures
        ({
            let cols = q.dims.cols as int;
            let d = depths(Some(p), q)[c];
            &&& -1 <= d < q.dims.viewport_rows
            &&& d >= 0 ==> p.shown()[d * cols + c] != q.shown()[d * cols + c]
            &&& forall|r: int|
                #![trigger r * cols]
                d < r < q.dims.viewport_rows ==> p.shown()[r * cols + c] == q.shown()[r * cols + c]
        }),
{
    let cols = q.dims.cols as int;
    let rows = q.dims.viewport_rows as nat;
    lemma_deepest_change(p.shown(), q.shown(), cols, rows, c);
    let d = depths(Some(p), q)[c];
    assert forall|r: int|
        #![trigger r * cols]
        d < r < q.dims.viewport_rows implies p.shown()[r * cols + c] == q.shown()[r * cols + c] by {
        assert(!differs(p.shown(), q.shown(), cols, r, c));
    }
}

/// Without a screen of the same extent every column is rebuilt down to the last row.
pub proof fn lemma_all_rows_are_rebuilt(prev: Option<PaneSnapshot>, new: PaneSnapshot, c: int)
    requires
        0 <= c < new.dims.cols,
        match prev {
            None => true,
            Some(old_pane) => old_pane.dims.cols != new.dims.cols || old_pane.dims.viewport_rows
                != new.dims.viewport_rows,
        },
    ensures
        depths(prev, new)[c] == new.dims.viewport_rows - 1,
        new.dims.viewport_rows > 0 ==> rain_is_due(prev, new),
{
    if new.dims.viewport_rows > 0 {
        assert(depths(prev, new)[c] >= 0);
    }
}

/// A transition begins exactly where there is a screen to reveal and it shows something
/// else in some cell, or there is no screen of its extent to compare it with.
pub proof fn lemma_transition_begins(prev: Option<PaneSnapshot>, new: PaneSnapshot)
    ensures
        ({
            let some_cell = new.dims.cols > 0 && new.dims.viewport_rows > 0;
            rain_is_due(prev, new) == (some_cell && (match prev {
                None => true,
                Some(old_pane) => old_pane.dims.cols != new.dims.cols
                    || old_pane.dims.viewport_rows != new.dims.viewport_rows || old_pane.shown()
                    != new.shown(),
            }))
        }),
{
    let some_cell = new.dims.cols > 0 && new.dims.viewport_rows > 0;
    if some_cell {
        let cols = new.dims.cols as int;
        let rows = new.dims.viewport_rows as int;
        match prev {
            None => {
                lemma_all_rows_are_rebuilt(prev, new, 0);
            },
            Some(p) => {
                if p.dims.cols != new.dims.cols || p.dims.viewport_rows != new.dims.viewport_rows {
                    lemma_all_rows_are_rebuilt(prev, new, 0);
                } else {
                    let a = p.shown();
                    let b = new.shown();
                    lemma_grid_holds_the_cells(p, 0, 0);
                    lemma_grid_holds_the_cells(new, 0, 0);
                    if a != b {
                        assert(exists|i: int| 0 <= i < a.len() && a[i] != b[i]) by {
                            if forall|i: int| 0 <= i < a.len() ==> a[i] == b[i] {
                                assert(a =~= b);
                            }
                        }
                        let i = choose|i: int| 0 <= i < a.len() && a[i] != b[i];
                        let r = i / cols;
                        let c = i % cols;
                        lemma_fundamental_div_mod(i, cols);
                        assert(cols * r == r * cols) by (nonlinear_arith);
                        assert(0 <= r < rows) by (nonlinear_arith)
                            requires
                                i == r * cols + c,
                                0 <= c < cols,
                                0 <= i < cols * rows,
                        ;
                        lemma_depth_is_the_deepest_change(p, new, c);
                        let d = depths(prev, new)[c];
                        if d < r {
                            assert(a[r * cols + c] == b[r * cols + c]);
                        }
                        assert(depths(prev, new)[c] >= 0);
                    }
                    if rain_is_due(prev, new) {
                        let c = choose|c: int| 0 <= c < cols && #[trigger] depths(prev, new)[c] >= 0;
                        lemma_depth_is_the_deepest_change(p, new, c);
                    }
                }
            },
        }
    }
}

/// A transition holds what the two panes show: each cell of the new one and, where the
/// previous one has its extent, each of that; the pane that it reveals and when it began;
/// and nothing shaped.
pub proof fn lemma_transition_holds_the_cells(
    anim: TabSwitchAnim,
    prev: Option<PaneSnapshot>,
    new: PaneSnapshot,
    now: Timestamp,
    r: int,
    c: int,
)
    requires
        reveals(anim, prev, new, now),
        0 <= r < new.dims.viewport_rows,
        0 <= c < new.dims.cols,
    ensures
        anim.start == now,
        anim.pane_id == new.pane_id,
        anim.cols == new.dims.cols,
        anim.rows == new.dims.viewport_rows,
        anim.glyphs@.dom() =~= Set::<Seq<char>>::empty(),
        anim.depth@.len() == anim.cols,
        anim.cells@.len() == anim.cols * anim.rows,
        ({
            let at = r * anim.cols + c;
            let has_old = match prev {
                None => false,
                Some(old_pane) => old_pane.dims.cols == new.dims.cols
                    && old_pane.dims.viewport_rows == new.dims.viewport_rows,
            };
            &&& 0 <= at < anim.cells@.len()
            &&& anim.cells@[at]@ == (if r < new.lines@.len() && c < new.lines@[r].cells@.len() {
                match new.lines@[r].cells@[c] {
                    Some(text) => text@,
                    None => Seq::empty(),
                }
            } else {
                Seq::empty()
            })
            &&& !has_old ==> anim.old_cells@.len() == 0 && anim.depth@[c] == anim.rows - 1
            &&& has_old ==> {
                let lines = prev->0.lines@;
                let d = anim.depth@[c] as int;
                &&& anim.old_cells@.len() == anim.cells@.len()
                &&& anim.old_cells@[at]@ == (if r < lines.len() && c < lines[r].cells@.len() {
                    match lines[r].cells@[c] {
                        Some(text) => text@,
                        None => Seq::empty(),
                    }
                } else {
                    Seq::empty()
                })
                &&& -1 <= d < anim.rows
                &&& r > d ==> anim.old_cells@[at]@ == anim.cells@[at]@
                &&& r == d ==> anim.old_cells@[at]@ != anim.cells@[at]@
            }
        }),
{
    let cols = anim.cols as int;
    let at = r * cols + c;
    lemma_grid_holds_the_cells(new, r, c);
    assert(texts(anim.cells@).len() == anim.cells@.len());
    assert(texts(anim.old_cells@).len() == anim.old_cells@.len());
    assert(texts(anim.cells@)[at] == anim.cells@[at]@);
    assert(anim.depth@[c] == depths(prev, new)[c]);
    if let Some(p) = prev {
        if p.dims.cols == new.dims.cols && p.dims.viewport_rows == new.dims.viewport_rows {
            lemma_grid_holds_the_cells(p, r, c);
            assert(texts(anim.old_cells@)[at] == anim.old_cells@[at]@);
            lemma_depth_is_the_deepest_change(p, new, c);
            if r > depths(prev, new)[c] {
                assert(p.shown()[r * cols + c] == new.shown()[r * cols + c]);
            }
        } else {
            lemma_all_rows_are_rebuilt(prev, new, c);
        }
    } else {
        lemma_all_rows_are_rebuilt(prev, new, c);
    }
}

/// The viewport shows as many rows as it has, from its top on.
pub proof fn lemma_viewport_rows(dims: PaneDimensions, first: int, end: int)
    requires
        dims.shows(first, end),
    ensures
        first == dims.physical_top,
        end - first == dims.viewport_rows,
{
}

} // verus!
