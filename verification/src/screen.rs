//! Snapshots of a pane's visible text, and where two of them differ.

use crate::screen_laws::lemma_grid_holds_the_cells;
use vstd::arithmetic::div_mod::lemma_fundamental_div_mod;
use vstd::arithmetic::div_mod::lemma_fundamental_div_mod_converse;
use vstd::prelude::*;

verus! {

/// The extent of a pane's viewport.
#[derive(Clone, Copy, PartialEq, Eq, Structural, Debug)]
pub struct PaneDimensions {
    pub cols: usize,
    pub viewport_rows: usize,
    /// The row of the scrollback that the viewport starts with.
    pub physical_top: isize,
}

/// One line of a pane. A column that no cell starts in has no text.
#[derive(Clone, Debug)]
pub struct Line {
    pub cells: Vec<Option<String>>,
}

/// What a pane shows at one moment.
#[derive(Clone, Debug)]
pub struct PaneSnapshot {
    pub pane_id: usize,
    pub dims: PaneDimensions,
    /// The lines of the viewport, from the top.
    pub lines: Vec<Line>,
}

impl PaneDimensions {
    /// The rows that the viewport shows: the first, and the one past the last.
    pub fn visible_rows(&self) -> (rows: (isize, isize))
        requires
            self.physical_top + self.viewport_rows <= isize::MAX,
            self.viewport_rows <= isize::MAX,
        ensures
            rows.0 == self.physical_top,
            rows.1 == self.physical_top + self.viewport_rows,
            self.shows(rows.0 as int, rows.1 as int),
    {
        (self.physical_top, self.physical_top + self.viewport_rows as isize)
    }

    /// The viewport shows the rows from `first` to the one before `end`.
    pub open spec fn shows(self, first: int, end: int) -> bool {
        first == self.physical_top && end == self.physical_top + self.viewport_rows
    }

    /// The number of cells in the viewport, where it can be counted.
    pub open spec fn countable(self) -> bool {
        self.cols * self.viewport_rows <= usize::MAX
    }
}

/// The text of each cell.
pub open spec fn texts(cells: Seq<String>) -> Seq<Seq<char>> {
    Seq::new(cells.len(), |i: int| cells[i]@)
}

/// The text at row `r` and column `c` of the lines; blank where there is none.
pub open spec fn text_at(lines: Seq<Line>, r: int, c: int) -> Seq<char> {
    if 0 <= r < lines.len() && 0 <= c < lines[r].cells@.len() {
        match lines[r].cells@[c] {
            Some(text) => text@,
            None => Seq::empty(),
        }
    } else {
        Seq::empty()
    }
}

/// A row-major grid of the texts that the lines show.
pub open spec fn grid(lines: Seq<Line>, cols: nat, rows: nat) -> Seq<Seq<char>> {
    Seq::new(cols * rows, |i: int| text_at(lines, i / (cols as int), i % (cols as int)))
}

impl PaneSnapshot {
    /// The text of each cell of the viewport, row by row.
    pub open spec fn shown(self) -> Seq<Seq<char>> {
        grid(self.lines@, self.dims.cols as nat, self.dims.viewport_rows as nat)
    }
}

/// Row and column of a place in a row-major grid.
pub proof fn lemma_row_major(r: int, c: int, cols: int)
    requires
        0 <= c < cols,
    ensures
        (r * cols + c) / cols == r,
        (r * cols + c) % cols == c,
{
    lemma_fundamental_div_mod_converse(r * cols + c, cols, r, c);
}

/// A place of the grid is in it.
pub proof fn lemma_in_grid(r: int, c: int, cols: int, rows: int)
    requires
        0 <= c < cols,
        0 <= r < rows,
    ensures
        0 <= r * cols + c < cols * rows,
{
    assert(0 <= r * cols + c < cols * rows) by (nonlinear_arith)
        requires
            0 <= c < cols,
            0 <= r < rows,
    ;
}

/// The text of the line's cell at `c`, where it has one.
fn cell_text(line: &Line, c: usize) -> (text: String)
    ensures
        text@ == (if c < line.cells@.len() {
            match line.cells@[c as int] {
                Some(text) => text@,
                None => Seq::empty(),
            }
        } else {
            Seq::empty()
        }),
{
    if c < line.cells.len() {
        match &line.cells[c] {
            Some(text) => text.clone(),
            None => String::new(),
        }
    } else {
        String::new()
    }
}

/// Snapshot the visible viewport of the pane as a row-major grid of graphemes:
/// its columns, its rows and the grid.
pub fn capture_screen(pane: &PaneSnapshot) -> (screen: (usize, usize, Vec<String>))
    requires
        pane.dims.countable(),
    ensures
        screen.0 == pane.dims.cols,
        screen.1 == pane.dims.viewport_rows,
        texts(screen.2@) == pane.shown(),
        screen.2@.len() == pane.dims.cols * pane.dims.viewport_rows,
        forall|i: int|
            0 <= i < screen.2@.len() ==> (#[trigger] screen.2@[i])@ == ({
                let r = i / pane.dims.cols as int;
                let c = i % pane.dims.cols as int;
                if r < pane.lines@.len() && c < pane.lines@[r].cells@.len()
                    && pane.lines@[r].cells@[c] is Some {
                    pane.lines@[r].cells@[c]->0@
                } else {
                    Seq::empty()
                }
            }),
{
    let cols = pane.dims.cols;
    let rows = pane.dims.viewport_rows;
    let mut cells: Vec<String> = Vec::new();
    let ghost all = pane.shown();
    let mut r: usize = 0;
    assert(texts(cells@) =~= all.take(0));
    assert(0 * cols == 0);
    while r < rows
        invariant
            r <= rows,
            rows == pane.dims.viewport_rows,
            cols == pane.dims.cols,
            all == pane.shown(),
            cells@.len() == r * cols,
            texts(cells@) == all.take(r * cols),
            r * cols <= cols * rows <= usize::MAX,
        decreases rows - r,
    {
        let mut c: usize = 0;
        while c < cols
            invariant
                c <= cols,
                r < rows,
                rows == pane.dims.viewport_rows,
                cols == pane.dims.cols,
                all == pane.shown(),
                cells@.len() == r * cols + c,
                texts(cells@) == all.take(r * cols + c),
                cols * rows <= usize::MAX,
            decreases cols - c,
        {
            let ghost before = cells@;
            let text = if r < pane.lines.len() {
                cell_text(&pane.lines[r], c)
            } else {
                String::new()
            };
            proof {
                lemma_row_major(r as int, c as int, cols as int);
                lemma_in_grid(r as int, c as int, cols as int, rows as int);
                assert(all[r * cols + c] == text@);
            }
            cells.push(text);
            assert(texts(cells@) =~= texts(before).push(text@));
            assert(all.take(r * cols + c + 1) =~= all.take(r * cols + c).push(text@));
            c = c + 1;
        }
        proof {
            assert((r + 1) * cols == r * cols + cols) by (nonlinear_arith);
            assert((r + 1) * cols <= cols * rows) by (nonlinear_arith)
                requires
                    r + 1 <= rows,
            ;
        }
        r = r + 1;
    }
    assert(rows * cols == cols * rows) by (nonlinear_arith);
    assert(all.take(rows * cols) =~= all);
    assert forall|i: int| 0 <= i < cells@.len() implies (#[trigger] cells@[i])@ == ({
        let r = i / pane.dims.cols as int;
        let c = i % pane.dims.cols as int;
        if r < pane.lines@.len() && c < pane.lines@[r].cells@.len() && pane.lines@[r].cells@[c] is Some {
            pane.lines@[r].cells@[c]->0@
        } else {
            Seq::empty()
        }
    }) by {
        let wide = cols as int;
        lemma_fundamental_div_mod(i, wide);
        assert(wide * (i / wide) == (i / wide) * wide) by (nonlinear_arith);
        assert(0 <= i / wide < rows) by (nonlinear_arith)
            requires
                i == (i / wide) * wide + i % wide,
                0 <= i % wide < wide,
                0 <= i < wide * rows,
        ;
        lemma_grid_holds_the_cells(*pane, i / wide, i % wide);
        assert(texts(cells@)[i] == cells@[i]@);
    }
    (cols, rows, cells)
}

/// The texts of the two grids differ at row `r` of column `c`.
pub open spec fn differs(
    old_texts: Seq<Seq<char>>,
    new_texts: Seq<Seq<char>>,
    cols: int,
    r: int,
    c: int,
) -> bool {
    old_texts[r * cols + c] != new_texts[r * cols + c]
}

/// The deepest of the first `rows` rows in which column `c` of the two grids
/// differs; -1 where there is none.
pub open spec fn deepest_change(
    old_texts: Seq<Seq<char>>,
    new_texts: Seq<Seq<char>>,
    cols: int,
    rows: nat,
    c: int,
) -> int
    decreases rows,
{
    if rows == 0 {
        -1
    } else if differs(old_texts, new_texts, cols, rows - 1, c) {
        rows - 1
    } else {
        deepest_change(old_texts, new_texts, cols, (rows - 1) as nat, c)
    }
}

/// The deepest changed row is a changed row, and no row below it is one; there
/// is none exactly where the column is unchanged.
pub proof fn lemma_deepest_change(
    old_texts: Seq<Seq<char>>,
    new_texts: Seq<Seq<char>>,
    cols: int,
    rows: nat,
    c: int,
)
    ensures
        ({
            let d = deepest_change(old_texts, new_texts, cols, rows, c);
            &&& -1 <= d < rows
            &&& d >= 0 ==> differs(old_texts, new_texts, cols, d, c)
            &&& forall|r: int|
                d < r < rows ==> !#[trigger] differs(old_texts, new_texts, cols, r, c)
            &&& d < 0 <==> (forall|r: int|
                0 <= r < rows ==> !#[trigger] differs(old_texts, new_texts, cols, r, c))
        }),
    decreases rows,
{
    if rows > 0 {
        lemma_deepest_change(old_texts, new_texts, cols, (rows - 1) as nat, c);
    }
}

/// The deepest changed row of each column of two grids of the same extent; -1 for
/// a column that is unchanged.
pub fn changed_depths(
    old_cells: &Vec<String>,
    new_cells: &Vec<String>,
    cols: usize,
    rows: usize,
) -> (depth: Vec<i32>)
    requires
        cols * rows <= usize::MAX,
        rows <= i32::MAX,
        old_cells@.len() == cols * rows,
        new_cells@.len() == cols * rows,
    ensures
        depth@.len() == cols,
        forall|c: int|
            0 <= c < cols ==> #[trigger] depth@[c] == deepest_change(
                texts(old_cells@),
                texts(new_cells@),
                cols as int,
                rows as nat,
                c,
            ),
{
    let mut depth: Vec<i32> = Vec::new();
    let ghost old_texts = texts(old_cells@);
    let ghost new_texts = texts(new_cells@);
    let mut c: usize = 0;
    while c < cols
        invariant
            c <= cols,
            cols * rows <= usize::MAX,
            rows <= i32::MAX,
            old_cells@.len() == cols * rows,
            new_cells@.len() == cols * rows,
            old_texts == texts(old_cells@),
            new_texts == texts(new_cells@),
            depth@.len() == c,
            forall|k: int|
                0 <= k < c ==> #[trigger] depth@[k] == deepest_change(
                    old_texts,
                    new_texts,
                    cols as int,
                    rows as nat,
                    k,
                ),
        decreases cols - c,
    {
        let mut d: i32 = -1;
        let mut r: usize = 0;
        while r < rows
            invariant
                r <= rows,
                c < cols,
                cols * rows <= usize::MAX,
                rows <= i32::MAX,
                old_cells@.len() == cols * rows,
                new_cells@.len() == cols * rows,
                old_texts == texts(old_cells@),
                new_texts == texts(new_cells@),
                d == deepest_change(old_texts, new_texts, cols as int, r as nat, c as int),
            decreases rows - r,
        {
            proof {
                lemma_in_grid(r as int, c as int, cols as int, rows as int);
                assert(0 <= r * cols <= r * cols + c);
            }
            let i: usize = r * cols + c;
            if old_cells[i] != new_cells[i] {
                assert(differs(old_texts, new_texts, cols as int, r as int, c as int));
                d = r as i32;
            } else {
                assert(!differs(old_texts, new_texts, cols as int, r as int, c as int));
            }
            r = r + 1;
        }
        depth.push(d);
        c = c + 1;
    }
    depth
}

} // verus!
