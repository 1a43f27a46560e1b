//! The grid of the terminal that shows a command's output: cells with a
//! character, colors and attributes, a cursor, and the edits that the
//! escape sequences of the output ask for.
use vstd::prelude::*;

verus! {

/// The code of the foreground color among the named colors.
pub const FOREGROUND: u16 = 256;

/// The code of the background color among the named colors.
pub const BACKGROUND: u16 = 257;

/// A color of the terminal: a named color by its code (0 to 15 the
/// palette, 256 on the foreground, background, cursor and dim colors), an
/// exact color, or an index in the 256-color table.
#[derive(Debug, Copy, Clone, PartialEq, Eq, Structural)]
pub enum TermColor {
    Named(u16),
    Spec(u8, u8, u8),
    Indexed(u8),
}

/// The attributes of a cell's text.
#[derive(Debug, Copy, Clone, PartialEq, Eq, Structural)]
pub struct CellAttrs {
    pub bold: bool,
    pub italic: bool,
}

/// One cell of the grid.
#[derive(Debug, Copy, Clone, PartialEq, Eq, Structural)]
pub struct Cell {
    pub ch: char,
    pub fg: TermColor,
    pub bg: TermColor,
    pub attrs: CellAttrs,
}

/// No attributes.
pub open spec fn no_attrs() -> CellAttrs {
    CellAttrs { bold: false, italic: false }
}

/// The cell of a fresh row: a space in the default colors.
pub open spec fn default_cell() -> Cell {
    Cell {
        ch: ' ',
        fg: TermColor::Named(FOREGROUND),
        bg: TermColor::Named(BACKGROUND),
        attrs: no_attrs(),
    }
}

impl Cell {
    /// A space in the default colors, without attributes.
    pub fn default_cell() -> (c: Cell)
        ensures
            c == default_cell(),
    {
        Cell {
            ch: ' ',
            fg: TermColor::Named(FOREGROUND),
            bg: TermColor::Named(BACKGROUND),
            attrs: CellAttrs { bold: false, italic: false },
        }
    }
}

/// A fresh row of `w` cells.
pub open spec fn default_row(w: nat) -> Seq<Cell> {
    Seq::new(w, |i: int| default_cell())
}

/// The rows with fresh rows added until there is a row `y`.
pub open spec fn grown(g: Seq<Seq<Cell>>, y: int, w: nat) -> Seq<Seq<Cell>> {
    if g.len() > y {
        g
    } else {
        g + Seq::new((y + 1 - g.len()) as nat, |i: int| default_row(w))
    }
}

/// A cell cleared to a space on the background `bg`; its foreground and
/// attributes stay.
pub open spec fn blank(c: Cell, bg: TermColor) -> Cell {
    Cell { ch: ' ', fg: c.fg, bg, attrs: c.attrs }
}

/// The row with the cells from `from` to before `to` cleared.
pub open spec fn blanked(row: Seq<Cell>, from: int, to: int, bg: TermColor) -> Seq<Cell> {
    Seq::new(row.len(), |i: int| if from <= i < to { blank(row[i], bg) } else { row[i] })
}

/// The row with the cells at `a` and `b` exchanged.
pub open spec fn swapped(row: Seq<Cell>, a: int, b: int) -> Seq<Cell> {
    row.update(a, row[b]).update(b, row[a])
}

/// The row after exchanging the cells at `dest + o` and `src + o` for `o`
/// from `k - 1` down to 0: the cells from `src` move to `dest`.
pub open spec fn swaps_back(row: Seq<Cell>, src: int, dest: int, k: nat) -> Seq<Cell>
    decreases k,
{
    if k == 0 {
        row
    } else {
        swaps_back(swapped(row, dest + k - 1, src + k - 1), src, dest, (k - 1) as nat)
    }
}

/// The row after exchanging the cells at `start + o` and `end + o` for
/// `o` from 0 to `k - 1`: the cells from `end` move to `start`.
pub open spec fn swaps_forward(row: Seq<Cell>, start: int, end: int, k: nat) -> Seq<Cell>
    decreases k,
{
    if k == 0 {
        row
    } else {
        swapped(swaps_forward(row, start, end, (k - 1) as nat), start + k - 1, end + k - 1)
    }
}

/// The smaller of two numbers.
pub open spec fn min(a: int, b: int) -> int {
    if a <= b {
        a
    } else {
        b
    }
}

/// The row after inserting `n` blanks at column `x` of a grid `w` wide:
/// the cells from `x` move right by as many as fit, and those that fall
/// off the end come back as the blanks, cleared on `bg`.
pub open spec fn inserted(row: Seq<Cell>, x: int, n: int, w: int, bg: TermColor) -> Seq<Cell> {
    let k = min(n, w - x);
    blanked(swaps_back(row, x, x + k, (w - x - k) as nat), x, x + k, bg)
}

/// The row after deleting `n` cells at column `x` of a grid `w` wide: the
/// cells after them move left, and the last cells of the row are cleared
/// on `bg`.
pub open spec fn deleted(row: Seq<Cell>, x: int, n: int, w: int, bg: TermColor) -> Seq<Cell> {
    let k = min(n, w);
    let end = min(x + k, w - 1);
    blanked(swaps_forward(row, x, end, (w - end) as nat), w - k, w, bg)
}

/// Where a tab moves the cursor from column `x` of a grid `w` wide: to the
/// next multiple of eight, or to the last column.
pub open spec fn next_tab(x: int, w: int) -> int {
    if x + 1 == w {
        x
    } else {
        min((x / 8 + 1) * 8, w - 1)
    }
}

/// The row and the column after `c` tabs from column `x`: each marks the
/// cell under the cursor with a tab character if it holds a space, then
/// moves to the next tab stop.
pub open spec fn tabbed(row: Seq<Cell>, x: int, c: nat, w: int) -> (Seq<Cell>, int)
    decreases c,
{
    if c == 0 {
        (row, x)
    } else {
        let marked = if row[x].ch == ' ' {
            row.update(x, Cell { ch: '\t', ..row[x] })
        } else {
            row
        };
        tabbed(marked, next_tab(x, w), (c - 1) as nat, w)
    }
}

/// The columns from `x` up to before `x + n`, cut at `w`.
pub open spec fn cut(x: int, n: int, w: int) -> int {
    min(x + n, w)
}

/// Which part of the cursor's line a clear takes.
#[derive(Debug, Copy, Clone, PartialEq, Eq, Structural)]
pub enum LineClearMode {
    Right,
    Left,
    All,
}

/// A change of the attributes that new text gets.
#[derive(Debug, Copy, Clone, PartialEq, Eq, Structural)]
pub enum TermAttr {
    Foreground(TermColor),
    Background(TermColor),
    Reset,
    Bold,
    CancelBold,
    Italic,
    CancelItalic,
    /// An attribute that the grid does not show
    Other,
}

/// A mode of the terminal.
#[derive(Debug, Copy, Clone, PartialEq, Eq, Structural)]
pub enum TermMode {
    Insert,
    LineFeedNewLine,
    /// A mode that the grid does not know
    Unknown,
}

/// The grid and its cursor. Rows are added as the cursor reaches them;
/// each holds `width` cells.
pub struct Term {
    pub cells: Vec<Vec<Cell>>,
    pub cursor_y: usize,
    pub cursor_x: usize,
    pub cursor_fg: TermColor,
    pub cursor_bg: TermColor,
    pub cursor_attrs: CellAttrs,
    pub width: usize,
    pub insert_mode: bool,
}

/// The settings of a grid that its edits keep: width, colors and
/// attributes of new text, and the insert mode.
pub struct Pen {
    pub width: usize,
    pub fg: TermColor,
    pub bg: TermColor,
    pub attrs: CellAttrs,
    pub insert_mode: bool,
}

impl Term {
    /// The rows of the grid.
    pub open spec fn grid(&self) -> Seq<Seq<Cell>> {
        self.cells@.map_values(|r: Vec<Cell>| r@)
    }

    /// The settings of the grid.
    pub open spec fn pen(&self) -> Pen {
        Pen {
            width: self.width,
            fg: self.cursor_fg,
            bg: self.cursor_bg,
            attrs: self.cursor_attrs,
            insert_mode: self.insert_mode,
        }
    }

    /// The grid is well formed: it is at least one cell wide, the cursor
    /// is on a column of it, and every row has `width` cells.
    pub open spec fn wf(&self) -> bool {
        &&& self.width >= 1
        &&& self.cursor_x < self.width
        &&& forall|i: int| 0 <= i < self.cells@.len() ==> #[trigger] self.cells@[i]@.len() == self.width
    }

    /// An empty grid `width` cells wide, with the cursor at its start and
    /// the default colors.
    pub fn new(width: usize) -> (t: Term)
        ensures
            t.grid() == Seq::<Seq<Cell>>::empty(),
            t.cursor_x == 0,
            t.cursor_y == 0,
            t.pen() == (Pen {
                width,
                fg: TermColor::Named(FOREGROUND),
                bg: TermColor::Named(BACKGROUND),
                attrs: no_attrs(),
                insert_mode: false,
            }),
            t.wf() == (width >= 1),
    {
        let t = Term {
            cells: Vec::new(),
            cursor_y: 0,
            cursor_x: 0,
            cursor_fg: TermColor::Named(FOREGROUND),
            cursor_bg: TermColor::Named(BACKGROUND),
            cursor_attrs: CellAttrs { bold: false, italic: false },
            width,
            insert_mode: false,
        };
        proof {
            assert(t.grid() =~= Seq::<Seq<Cell>>::empty());
        }
        t
    }

    /// Adds fresh rows until there is a row `y`.
    pub fn allocate_rows_until(&mut self, y: usize)
        requires
            old(self).wf(),
            y < usize::MAX,
        ensures
            final(self).wf(),
            final(self).grid() == grown(old(self).grid(), y as int, old(self).width as nat),
            final(self).cursor_x == old(self).cursor_x,
            final(self).cursor_y == old(self).cursor_y,
            final(self).pen() == old(self).pen(),
    {
        let ghost g0 = self.grid();
        while self.cells.len() <= y
            invariant
                self.wf(),
                y < usize::MAX,
                self.pen() == old(self).pen(),
                self.cursor_x == old(self).cursor_x,
                self.cursor_y == old(self).cursor_y,
                g0 == old(self).grid(),
                g0.len() <= self.grid().len(),
                self.grid().len() <= g0.len() || self.grid().len() <= y + 1,
                self.grid() == g0 + Seq::new(
                    (self.grid().len() - g0.len()) as nat,
                    |i: int| default_row(self.width as nat),
                ),
            decreases y + 1 - self.cells.len(),
        {
            let row = blank_row(self.width);
            let ghost before = self.grid();
            self.cells.push(row);
            proof {
                assert(self.grid() =~= before.push(default_row(self.width as nat)));
                assert(self.grid() =~= g0 + Seq::new(
                    (self.grid().len() - g0.len()) as nat,
                    |i: int| default_row(self.width as nat),
                ));
            }
        }
        proof {
            if g0.len() > y {
                assert(self.grid() =~= g0);
            } else {
                assert(self.grid() =~= grown(g0, y as int, self.width as nat));
            }
        }
    }
}

/// Exchanging cells keeps the length of the row.
proof fn lemma_swaps_len(row: Seq<Cell>, a: int, b: int, k: nat)
    requires
        0 <= a <= b,
        b + k <= row.len(),
    ensures
        swaps_back(row, a, b, k).len() == row.len(),
        swaps_forward(row, a, b, k).len() == row.len(),
    decreases k,
{
    if k > 0 {
        lemma_swaps_len(swapped(row, b + k - 1, a + k - 1), a, b, (k - 1) as nat);
        lemma_swaps_len(row, a, b, (k - 1) as nat);
    }
}

/// The rows of a grid are the views of its vectors.
proof fn lemma_grid(t: &Term)
    ensures
        t.grid().len() == t.cells@.len(),
        forall|i: int| 0 <= i < t.cells@.len() ==> #[trigger] t.grid()[i] == t.cells@[i]@,
{
}

/// Growing the rows until there is a row `y` keeps them and makes a row `y`.
proof fn lemma_grown(g: Seq<Seq<Cell>>, y: int, w: nat)
    requires
        y >= 0,
    ensures
        grown(g, y, w).len() > y,
        grown(g, y, w).len() >= g.len(),
        forall|i: int| 0 <= i < g.len() ==> #[trigger] grown(g, y, w)[i] == g[i],
        forall|i: int| g.len() <= i < grown(g, y, w).len() ==> #[trigger] grown(g, y, w)[i] == default_row(w),
{
}

impl Term {
    /// Puts `row` in place of row `y`, giving back the row that was there.
    fn replace_row(&mut self, y: usize, row: Vec<Cell>) -> (was: Vec<Cell>)
        requires
            y < old(self).cells@.len(),
        ensures
            was@ == old(self).grid()[y as int],
            final(self).grid() == old(self).grid().update(y as int, row@),
            final(self).cursor_x == old(self).cursor_x,
            final(self).cursor_y == old(self).cursor_y,
            final(self).pen() == old(self).pen(),
    {
        let mut r = row;
        std::mem::swap(&mut self.cells[y], &mut r);
        proof {
            assert(self.grid() =~= old(self).grid().update(y as int, row@));
        }
        r
    }

    /// The cell under the cursor, after adding rows up to the cursor's.
    pub fn cursor_cell(&mut self) -> (c: Cell)
        requires
            old(self).wf(),
            old(self).cursor_y < usize::MAX,
        ensures
            final(self).wf(),
            final(self).grid() == grown(old(self).grid(), old(self).cursor_y as int, old(self).width as nat),
            c == final(self).grid()[old(self).cursor_y as int][old(self).cursor_x as int],
            final(self).cursor_x == old(self).cursor_x,
            final(self).cursor_y == old(self).cursor_y,
            final(self).pen() == old(self).pen(),
    {
        self.allocate_rows_until(self.cursor_y);
        proof {
            lemma_grid(self);
            lemma_grown(old(self).grid(), self.cursor_y as int, self.width as nat);
        }
        self.cells[self.cursor_y][self.cursor_x]
    }

    /// Inserts `n` blanks at the cursor, in the cursor's row (which must
    /// exist): the rest of the row moves right.
    pub fn insert_blank(&mut self, n: usize)
        requires
            old(self).wf(),
            old(self).cursor_y < old(self).cells@.len(),
        ensures
            final(self).wf(),
            final(self).grid() == old(self).grid().update(
                old(self).cursor_y as int,
                inserted(
                    old(self).grid()[old(self).cursor_y as int],
                    old(self).cursor_x as int,
                    n as int,
                    old(self).width as int,
                    old(self).cursor_bg,
                ),
            ),
            final(self).cursor_x == old(self).cursor_x,
            final(self).cursor_y == old(self).cursor_y,
            final(self).pen() == old(self).pen(),
    {
        let y = self.cursor_y;
        let x = self.cursor_x;
        let k = if n < self.width - x {
            n
        } else {
            self.width - x
        };
        let dest = x + k;
        let ncells = self.width - dest;
        proof {
            lemma_grid(self);
        }
        let mut row = self.replace_row(y, Vec::new());
        proof {
            lemma_grid(self);
            assert(row@.len() == self.width);
            lemma_swaps_len(row@, x as int, dest as int, ncells as nat);
        }
        swap_back(&mut row, x, dest, ncells);
        blank_cells(&mut row, x, dest, self.cursor_bg);
        self.replace_row(y, row);
        proof {
            lemma_grid(self);
            lemma_grid(old(self));
            assert(self.grid() =~= old(self).grid().update(
                y as int,
                inserted(old(self).grid()[y as int], x as int, n as int, self.width as int, self.cursor_bg),
            ));
            assert forall|i: int| 0 <= i < self.cells@.len() implies #[trigger] self.cells@[i]@.len()
                == self.width by {
                assert(self.grid()[i] == self.cells@[i]@);
                assert(old(self).grid()[i] == old(self).cells@[i]@);
            }
        }
    }

    /// Writes `ch` at the cursor in the colors and attributes of new text
    /// (after inserting a blank there, in insert mode), and moves the cursor
    /// right, to the next line after the last column.
    pub fn input(&mut self, ch: char)
        requires
            old(self).wf(),
            old(self).cursor_y < usize::MAX,
        ensures
            final(self).wf(),
            ({
                let y = old(self).cursor_y as int;
                let x = old(self).cursor_x as int;
                let w = old(self).width as int;
                let g0 = grown(old(self).grid(), y, w as nat);
                let g1 = if old(self).insert_mode {
                    g0.update(y, inserted(g0[y], x, 1, w, old(self).cursor_bg))
                } else {
                    g0
                };
                let c = Cell {
                    ch,
                    fg: old(self).cursor_fg,
                    bg: old(self).cursor_bg,
                    attrs: old(self).cursor_attrs,
                };
                final(self).grid() == g1.update(y, g1[y].update(x, c))
            }),
            final(self).cursor_x == if old(self).cursor_x + 1 >= old(self).width {
                0
            } else {
                old(self).cursor_x + 1
            },
            final(self).cursor_y == if old(self).cursor_x + 1 >= old(self).width {
                old(self).cursor_y + 1
            } else {
                old(self).cursor_y as int
            },
            final(self).pen() == old(self).pen(),
    {
        self.allocate_rows_until(self.cursor_y);
        proof {
            lemma_grid(self);
            lemma_grown(old(self).grid(), self.cursor_y as int, self.width as nat);
        }
        if self.insert_mode {
            self.insert_blank(1);
        }
        let y = self.cursor_y;
        let x = self.cursor_x;
        let c = Cell { ch, fg: self.cursor_fg, bg: self.cursor_bg, attrs: self.cursor_attrs };
        proof {
            lemma_grid(self);
        }
        let mut row = self.replace_row(y, Vec::new());
        proof {
            assert(row@.len() == self.width);
        }
        row[x] = c;
        proof {
            lemma_grid(self);
        }
        self.replace_row(y, row);
        proof {
            lemma_grid(self);
            assert forall|i: int| 0 <= i < self.cells@.len() implies #[trigger] self.cells@[i]@.len()
                == self.width by {
                assert(self.grid()[i] == self.cells@[i]@);
            }
        }
        self.cursor_x = self.cursor_x + 1;
        if self.cursor_x >= self.width {
            self.cursor_x = 0;
            self.cursor_y = self.cursor_y + 1;
        }
    }
}

impl Term {
    /// Clears the cells from `from` to before `to` in row `y`.
    fn blank_in_row(&mut self, y: usize, from: usize, to: usize)
        requires
            old(self).wf(),
            y < old(self).cells@.len(),
            from <= to <= old(self).width,
        ensures
            final(self).wf(),
            final(self).grid() == old(self).grid().update(
                y as int,
                blanked(old(self).grid()[y as int], from as int, to as int, old(self).cursor_bg),
            ),
            final(self).cursor_x == old(self).cursor_x,
            final(self).cursor_y == old(self).cursor_y,
            final(self).pen() == old(self).pen(),
    {
        proof {
            lemma_grid(self);
        }
        let mut row = self.replace_row(y, Vec::new());
        blank_cells(&mut row, from, to, self.cursor_bg);
        proof {
            lemma_grid(self);
        }
        self.replace_row(y, row);
        proof {
            lemma_grid(self);
            lemma_grid(old(self));
            assert forall|i: int| 0 <= i < self.cells@.len() implies #[trigger] self.cells@[i]@.len()
                == self.width by {
                assert(self.grid()[i] == self.cells@[i]@);
                assert(old(self).grid()[i] == old(self).cells@[i]@);
            }
        }
    }

    /// Deletes `n` cells at the cursor, in the cursor's row (which must
    /// exist): the rest of the row moves left and its end is cleared.
    pub fn delete_chars(&mut self, n: usize)
        requires
            old(self).wf(),
            old(self).cursor_y < old(self).cells@.len(),
            old(self).cursor_x + min(n as int, old(self).width as int) <= usize::MAX,
        ensures
            final(self).wf(),
            final(self).grid() == old(self).grid().update(
                old(self).cursor_y as int,
                deleted(
                    old(self).grid()[old(self).cursor_y as int],
                    old(self).cursor_x as int,
                    n as int,
                    old(self).width as int,
                    old(self).cursor_bg,
                ),
            ),
            final(self).cursor_x == old(self).cursor_x,
            final(self).cursor_y == old(self).cursor_y,
            final(self).pen() == old(self).pen(),
    {
        let y = self.cursor_y;
        let x = self.cursor_x;
        let w = self.width;
        let k = if n < w {
            n
        } else {
            w
        };
        let end = if x + k < w - 1 {
            x + k
        } else {
            w - 1
        };
        let ncells = w - end;
        proof {
            lemma_grid(self);
        }
        let mut row = self.replace_row(y, Vec::new());
        proof {
            lemma_grid(self);
            lemma_swaps_len(row@, x as int, end as int, ncells as nat);
        }
        swap_forward(&mut row, x, end, ncells);
        blank_cells(&mut row, w - k, w, self.cursor_bg);
        self.replace_row(y, row);
        proof {
            lemma_grid(self);
            lemma_grid(old(self));
            assert(self.grid() =~= old(self).grid().update(
                y as int,
                deleted(old(self).grid()[y as int], x as int, n as int, w as int, self.cursor_bg),
            ));
            assert forall|i: int| 0 <= i < self.cells@.len() implies #[trigger] self.cells@[i]@.len()
                == self.width by {
                assert(self.grid()[i] == self.cells@[i]@);
                assert(old(self).grid()[i] == old(self).cells@[i]@);
            }
        }
    }

    /// Clears `n` cells from the cursor on, up to the end of its row (rows
    /// are added up to the cursor's).
    pub fn erase_chars(&mut self, n: usize)
        requires
            old(self).wf(),
            old(self).cursor_y < usize::MAX,
            old(self).cursor_x + n <= usize::MAX,
        ensures
            final(self).wf(),
            ({
                let y = old(self).cursor_y as int;
                let x = old(self).cursor_x as int;
                let g0 = grown(old(self).grid(), y, old(self).width as nat);
                final(self).grid() == g0.update(
                    y,
                    blanked(g0[y], x, cut(x, n as int, old(self).width as int), old(self).cursor_bg),
                )
            }),
            final(self).cursor_x == old(self).cursor_x,
            final(self).cursor_y == old(self).cursor_y,
            final(self).pen() == old(self).pen(),
    {
        self.allocate_rows_until(self.cursor_y);
        proof {
            lemma_grid(self);
            lemma_grown(old(self).grid(), self.cursor_y as int, self.width as nat);
        }
        let start = self.cursor_x;
        let end = if start + n < self.width {
            start + n
        } else {
            self.width
        };
        self.blank_in_row(self.cursor_y, start, end);
    }

    /// Clears the cursor's row right of the cursor (the cursor's cell
    /// included), left of it (the cursor's cell included), or all of it;
    /// rows are added up to the cursor's.
    pub fn clear_line(&mut self, mode: LineClearMode)
        requires
            old(self).wf(),
            old(self).cursor_y < usize::MAX,
        ensures
            final(self).wf(),
            ({
                let y = old(self).cursor_y as int;
                let x = old(self).cursor_x as int;
                let w = old(self).width as int;
                let g0 = grown(old(self).grid(), y, w as nat);
                let (from, to) = match mode {
                    LineClearMode::Right => (x, w),
                    LineClearMode::Left => (0, cut(x, 1, w)),
                    LineClearMode::All => (0, w),
                };
                final(self).grid() == g0.update(y, blanked(g0[y], from, to, old(self).cursor_bg))
            }),
            final(self).cursor_x == old(self).cursor_x,
            final(self).cursor_y == old(self).cursor_y,
            final(self).pen() == old(self).pen(),
    {
        self.allocate_rows_until(self.cursor_y);
        proof {
            lemma_grid(self);
            lemma_grown(old(self).grid(), self.cursor_y as int, self.width as nat);
        }
        let (from, to) = match mode {
            LineClearMode::Right => (self.cursor_x, self.width),
            LineClearMode::Left => (0, if self.cursor_x + 1 < self.width {
                self.cursor_x + 1
            } else {
                self.width
            }),
            LineClearMode::All => (0, self.width),
        };
        self.blank_in_row(self.cursor_y, from, to);
    }

    /// Puts `count` tabs: each marks the cell under the cursor with a tab
    /// character if it holds a space, then moves the cursor to the next
    /// multiple of eight, or to the last column. Rows are added up to the
    /// cursor's if there is a tab to put.
    pub fn put_tab(&mut self, count: u16)
        requires
            old(self).wf(),
            old(self).cursor_y < usize::MAX,
        ensures
            final(self).wf(),
            count == 0 ==> final(self).grid() == old(self).grid() && final(self).cursor_x
                == old(self).cursor_x,
            count > 0 ==> ({
                let y = old(self).cursor_y as int;
                let w = old(self).width as int;
                let g0 = grown(old(self).grid(), y, w as nat);
                let (row, x) = tabbed(g0[y], old(self).cursor_x as int, count as nat, w);
                final(self).grid() == g0.update(y, row) && final(self).cursor_x == x
            }),
            final(self).cursor_y == old(self).cursor_y,
            final(self).pen() == old(self).pen(),
    {
        if count == 0 {
            return;
        }
        self.allocate_rows_until(self.cursor_y);
        proof {
            lemma_grid(self);
            lemma_grown(old(self).grid(), self.cursor_y as int, self.width as nat);
        }
        let y = self.cursor_y;
        let w = self.width;
        let mut row = self.replace_row(y, Vec::new());
        let ghost row0 = row@;
        let mut x = self.cursor_x;
        let mut c = count;
        while c > 0
            invariant
                row@.len() == w,
                w >= 1,
                x < w,
                c <= count,
                tabbed(row0, old(self).cursor_x as int, count as nat, w as int) == tabbed(
                    row@,
                    x as int,
                    c as nat,
                    w as int,
                ),
            decreases c,
        {
            let cell = row[x];
            if cell.ch == ' ' {
                row[x] = Cell { ch: '\t', ..cell };
            }
            let step = 8 - x % 8;
            proof {
                assert(x + step == (x / 8 + 1) * 8);
            }
            x = if x + 1 == w {
                x
            } else if step < w - 1 - x {
                x + step
            } else {
                w - 1
            };
            c -= 1;
        }
        proof {
            lemma_grid(self);
        }
        self.replace_row(y, row);
        self.cursor_x = x;
        proof {
            lemma_grid(self);
            lemma_grid(old(self));
            assert forall|i: int| 0 <= i < self.cells@.len() implies #[trigger] self.cells@[i]@.len()
                == self.width by {
                assert(self.grid()[i] == self.cells@[i]@);
            }
        }
    }

    /// Moves the cursor forward by tabs: to the next multiple of eight (it
    /// stays on one it is on; more tabs than one move no further), at most
    /// to the last column.
    pub fn move_forward_tabs(&mut self, count: u16)
        requires
            old(self).wf(),
            count >= 1 ==> old(self).cursor_x + 7 <= usize::MAX,
            count >= 2 ==> (old(self).cursor_x + 7) / 8 * 8 + 7 <= usize::MAX,
        ensures
            final(self).wf(),
            final(self).grid() == old(self).grid(),
            final(self).cursor_x == if count == 0 {
                old(self).cursor_x as int
            } else {
                min((old(self).cursor_x + 7) / 8 * 8, old(self).width - 1)
            },
            final(self).cursor_y == old(self).cursor_y,
            final(self).pen() == old(self).pen(),
    {
        let mut x = self.cursor_x;
        let mut i: u16 = 0;
        while i < count
            invariant
                i <= count,
                count >= 1 ==> old(self).cursor_x + 7 <= usize::MAX,
                count >= 2 ==> (old(self).cursor_x + 7) / 8 * 8 + 7 <= usize::MAX,
                x == if i == 0 {
                    old(self).cursor_x as int
                } else {
                    (old(self).cursor_x + 7) / 8 * 8
                },
            decreases count - i,
        {
            x = (x + 7) / 8 * 8;
            i += 1;
        }
        self.cursor_x = if x < self.width - 1 {
            x
        } else {
            self.width - 1
        };
    }

    /// Moves the cursor to row `line` (0 for a negative one) and column
    /// `col` (at most the last), adding rows up to it.
    pub fn goto(&mut self, line: i32, col: usize)
        requires
            old(self).wf(),
        ensures
            final(self).wf(),
            final(self).cursor_y == if line < 0 {
                0
            } else {
                line as int
            },
            final(self).cursor_x == min(col as int, old(self).width - 1),
            final(self).grid() == grown(old(self).grid(), final(self).cursor_y as int, old(self).width as nat),
            final(self).pen() == old(self).pen(),
    {
        self.cursor_y = if line < 0 {
            0
        } else {
            line as usize
        };
        self.cursor_x = if col < self.width - 1 {
            col
        } else {
            self.width - 1
        };
        self.allocate_rows_until(self.cursor_y);
    }

    /// Moves the cursor to row `line` (0 for a negative one), adding rows
    /// up to it.
    pub fn goto_line(&mut self, line: i32)
        requires
            old(self).wf(),
        ensures
            final(self).wf(),
            final(self).cursor_y == if line < 0 {
                0
            } else {
                line as int
            },
            final(self).cursor_x == old(self).cursor_x,
            final(self).grid() == grown(old(self).grid(), final(self).cursor_y as int, old(self).width as nat),
            final(self).pen() == old(self).pen(),
    {
        self.cursor_y = if line < 0 {
            0
        } else {
            line as usize
        };
        self.allocate_rows_until(self.cursor_y);
    }

    /// Moves the cursor to column `col`, at most the last.
    pub fn goto_col(&mut self, col: usize)
        requires
            old(self).wf(),
        ensures
            final(self).wf(),
            final(self).cursor_x == min(col as int, old(self).width - 1),
            final(self).cursor_y == old(self).cursor_y,
            final(self).grid() == old(self).grid(),
            final(self).pen() == old(self).pen(),
    {
        self.cursor_x = if col < self.width - 1 {
            col
        } else {
            self.width - 1
        };
    }

    /// Moves the cursor up `n` rows, at most to the first.
    pub fn move_up(&mut self, n: usize)
        requires
            old(self).wf(),
        ensures
            final(self).wf(),
            final(self).cursor_y == if old(self).cursor_y >= n {
                old(self).cursor_y - n
            } else {
                0
            },
            final(self).cursor_x == old(self).cursor_x,
            final(self).grid() == old(self).grid(),
            final(self).pen() == old(self).pen(),
    {
        self.cursor_y = self.cursor_y.saturating_sub(n);
    }

    /// Moves the cursor down `n` rows, adding rows up to it.
    pub fn move_down(&mut self, n: usize)
        requires
            old(self).wf(),
            old(self).cursor_y + n < usize::MAX,
        ensures
            final(self).wf(),
            final(self).cursor_y == old(self).cursor_y + n,
            final(self).cursor_x == old(self).cursor_x,
            final(self).grid() == grown(old(self).grid(), final(self).cursor_y as int, old(self).width as nat),
            final(self).pen() == old(self).pen(),
    {
        self.cursor_y = self.cursor_y + n;
        self.allocate_rows_until(self.cursor_y);
    }

    /// Moves the cursor right `n` columns, at most to the last.
    pub fn move_forward(&mut self, n: usize)
        requires
            old(self).wf(),
            old(self).cursor_x + n <= usize::MAX,
        ensures
            final(self).wf(),
            final(self).cursor_x == min(old(self).cursor_x + n, old(self).width - 1),
            final(self).cursor_y == old(self).cursor_y,
            final(self).grid() == old(self).grid(),
            final(self).pen() == old(self).pen(),
    {
        let x = self.cursor_x + n;
        self.cursor_x = if x < self.width - 1 {
            x
        } else {
            self.width - 1
        };
    }

    /// Moves the cursor left `n` columns, at most to the first.
    pub fn move_backward(&mut self, n: usize)
        requires
            old(self).wf(),
        ensures
            final(self).wf(),
            final(self).cursor_x == if old(self).cursor_x >= n {
                old(self).cursor_x - n
            } else {
                0
            },
            final(self).cursor_y == old(self).cursor_y,
            final(self).grid() == old(self).grid(),
            final(self).pen() == old(self).pen(),
    {
        self.cursor_x = self.cursor_x.saturating_sub(n);
    }

    /// Moves the cursor one column left, unless it is on the first.
    pub fn backspace(&mut self)
        requires
            old(self).wf(),
        ensures
            final(self).wf(),
            final(self).cursor_x == if old(self).cursor_x >= 1 {
                old(self).cursor_x - 1
            } else {
                0
            },
            final(self).cursor_y == old(self).cursor_y,
            final(self).grid() == old(self).grid(),
            final(self).pen() == old(self).pen(),
    {
        self.cursor_x = self.cursor_x.saturating_sub(1);
    }

    /// Moves the cursor to the first column.
    pub fn carriage_return(&mut self)
        requires
            old(self).wf(),
        ensures
            final(self).wf(),
            final(self).cursor_x == 0,
            final(self).cursor_y == old(self).cursor_y,
            final(self).grid() == old(self).grid(),
            final(self).pen() == old(self).pen(),
    {
        self.cursor_x = 0;
    }

    /// Moves the cursor one row down; the row is added when text reaches
    /// it.
    pub fn linefeed(&mut self)
        requires
            old(self).wf(),
            old(self).cursor_y < usize::MAX,
        ensures
            final(self).wf(),
            final(self).cursor_y == old(self).cursor_y + 1,
            final(self).cursor_x == old(self).cursor_x,
            final(self).grid() == old(self).grid(),
            final(self).pen() == old(self).pen(),
    {
        self.cursor_y = self.cursor_y + 1;
    }

    /// Moves the cursor one row down, as a line feed does.
    pub fn newline(&mut self)
        requires
            old(self).wf(),
            old(self).cursor_y < usize::MAX,
        ensures
            final(self).wf(),
            final(self).cursor_y == old(self).cursor_y + 1,
            final(self).cursor_x == old(self).cursor_x,
            final(self).grid() == old(self).grid(),
            final(self).pen() == old(self).pen(),
    {
        self.cursor_y = self.cursor_y + 1;
    }

    /// Changes the colors or attributes of new text; a reset gives back the
    /// default colors and no attributes.
    pub fn terminal_attribute(&mut self, attr: TermAttr)
        requires
            old(self).wf(),
        ensures
            final(self).wf(),
            final(self).grid() == old(self).grid(),
            final(self).cursor_x == old(self).cursor_x,
            final(self).cursor_y == old(self).cursor_y,
            final(self).width == old(self).width,
            final(self).insert_mode == old(self).insert_mode,
            final(self).cursor_fg == match attr {
                TermAttr::Foreground(c) => c,
                TermAttr::Reset => TermColor::Named(FOREGROUND),
                _ => old(self).cursor_fg,
            },
            final(self).cursor_bg == match attr {
                TermAttr::Background(c) => c,
                TermAttr::Reset => TermColor::Named(BACKGROUND),
                _ => old(self).cursor_bg,
            },
            final(self).cursor_attrs == match attr {
                TermAttr::Reset => no_attrs(),
                TermAttr::Bold => CellAttrs { bold: true, ..old(self).cursor_attrs },
                TermAttr::CancelBold => CellAttrs { bold: false, ..old(self).cursor_attrs },
                TermAttr::Italic => CellAttrs { italic: true, ..old(self).cursor_attrs },
                TermAttr::CancelItalic => CellAttrs { italic: false, ..old(self).cursor_attrs },
                _ => old(self).cursor_attrs,
            },
    {
        match attr {
            TermAttr::Foreground(c) => self.cursor_fg = c,
            TermAttr::Background(c) => self.cursor_bg = c,
            TermAttr::Reset => {
                self.cursor_fg = TermColor::Named(FOREGROUND);
                self.cursor_bg = TermColor::Named(BACKGROUND);
                self.cursor_attrs = CellAttrs { bold: false, italic: false };
            },
            TermAttr::Bold => self.cursor_attrs.bold = true,
            TermAttr::CancelBold => self.cursor_attrs.bold = false,
            TermAttr::Italic => self.cursor_attrs.italic = true,
            TermAttr::CancelItalic => self.cursor_attrs.italic = false,
            TermAttr::Other => {},
        }
    }

    /// Turns a mode on: insert mode is the one that the grid keeps.
    pub fn set_mode(&mut self, mode: TermMode)
        requires
            old(self).wf(),
        ensures
            final(self).wf(),
            final(self).insert_mode == (mode == TermMode::Insert || old(self).insert_mode),
            final(self).grid() == old(self).grid(),
            final(self).cursor_x == old(self).cursor_x,
            final(self).cursor_y == old(self).cursor_y,
            final(self).width == old(self).width,
            final(self).cursor_fg == old(self).cursor_fg,
            final(self).cursor_bg == old(self).cursor_bg,
            final(self).cursor_attrs == old(self).cursor_attrs,
    {
        if let TermMode::Insert = mode {
            self.insert_mode = true;
        }
    }

    /// Turns a mode off: insert mode is the one that the grid keeps.
    pub fn unset_mode(&mut self, mode: TermMode)
        requires
            old(self).wf(),
        ensures
            final(self).wf(),
            final(self).insert_mode == (mode != TermMode::Insert && old(self).insert_mode),
            final(self).grid() == old(self).grid(),
            final(self).cursor_x == old(self).cursor_x,
            final(self).cursor_y == old(self).cursor_y,
            final(self).width == old(self).width,
            final(self).cursor_fg == old(self).cursor_fg,
            final(self).cursor_bg == old(self).cursor_bg,
            final(self).cursor_attrs == old(self).cursor_attrs,
    {
        if let TermMode::Insert = mode {
            self.insert_mode = false;
        }
    }
}

/// The palette entry that a named color takes, and whether it is shown
/// dimmed: the sixteen palette colors are themselves; the foreground and
/// the cursor take the first entry, the background the eighth; the dim
/// colors (codes 259 to 266) take the first eight entries dimmed; the
/// bright foreground takes the ninth entry and the dim foreground the
/// first, dimmed. Other codes name no color.
pub open spec fn named_slot(n: u16) -> Option<(int, bool)> {
    if n < 16 {
        Some((n as int, false))
    } else if n == FOREGROUND || n == 258 {
        Some((0, false))
    } else if n == BACKGROUND {
        Some((7, false))
    } else if 259 <= n <= 266 {
        Some((n - 259, true))
    } else if n == 267 {
        Some((8, false))
    } else if n == 268 {
        Some((0, true))
    } else {
        None
    }
}

impl Term {
    /// The color that `color` is shown in, with a palette of sixteen
    /// entries: its red, green and blue, and whether it is to be dimmed.
    pub fn resolve(&self, palette: &[(u8, u8, u8)], color: TermColor) -> (r: ((u8, u8, u8), bool))
        requires
            palette@.len() == 16,
            color matches TermColor::Indexed(i) ==> i < 16,
            color matches TermColor::Named(n) ==> named_slot(n) is Some,
        ensures
            match color {
                TermColor::Spec(red, green, blue) => r == ((red, green, blue), false),
                TermColor::Indexed(i) => r == (palette@[i as int], false),
                TermColor::Named(n) => r == (
                    palette@[named_slot(n).unwrap().0],
                    named_slot(n).unwrap().1,
                ),
            },
    {
        match color {
            TermColor::Spec(red, green, blue) => ((red, green, blue), false),
            TermColor::Indexed(i) => (palette[i as usize], false),
            TermColor::Named(n) => {
                if n < 16 {
                    (palette[n as usize], false)
                } else if n == FOREGROUND || n == 258 {
                    (palette[0], false)
                } else if n == BACKGROUND {
                    (palette[7], false)
                } else if 259 <= n && n <= 266 {
                    (palette[(n - 259) as usize], true)
                } else if n == 267 {
                    (palette[8], false)
                } else {
                    (palette[0], true)
                }
            },
        }
    }
}

/// Exchanging cells backwards moves the `k` cells from `src` to `dest`
/// and leaves the cells outside `src` to `dest + k` alone.
proof fn lemma_swaps_back(row: Seq<Cell>, src: int, dest: int, k: nat)
    requires
        0 <= src <= dest,
        dest + k <= row.len(),
    ensures
        forall|j: int| 0 <= j < k ==> #[trigger] swaps_back(row, src, dest, k)[dest + j] == row[src + j],
        forall|p: int|
            0 <= p < row.len() && !(src <= p < dest + k) ==> #[trigger] swaps_back(row, src, dest, k)[p]
                == row[p],
    decreases k,
{
    lemma_swaps_len(row, src, dest, k);
    if k > 0 {
        let row1 = swapped(row, dest + k - 1, src + k - 1);
        lemma_swaps_back(row1, src, dest, (k - 1) as nat);
        assert forall|j: int| 0 <= j < k implies #[trigger] swaps_back(row, src, dest, k)[dest + j]
            == row[src + j] by {
            if j < k - 1 {
                assert(swaps_back(row1, src, dest, (k - 1) as nat)[dest + j] == row1[src + j]);
            } else {
                assert(swaps_back(row1, src, dest, (k - 1) as nat)[dest + k - 1] == row1[dest + k - 1]);
            }
        }
    }
}

/// Exchanging cells forwards moves the `k` cells from `end` to `start` and
/// leaves the cells outside `start` to `end + k` alone.
proof fn lemma_swaps_forward(row: Seq<Cell>, start: int, end: int, k: nat)
    requires
        0 <= start <= end,
        end + k <= row.len(),
    ensures
        forall|j: int|
            0 <= j < k ==> #[trigger] swaps_forward(row, start, end, k)[start + j] == row[end + j],
        forall|p: int|
            0 <= p < row.len() && !(start <= p < end + k) ==> #[trigger] swaps_forward(
                row,
                start,
                end,
                k,
            )[p] == row[p],
    decreases k,
{
    lemma_swaps_len(row, start, end, k);
    if k > 0 {
        lemma_swaps_forward(row, start, end, (k - 1) as nat);
        lemma_swaps_len(row, start, end, (k - 1) as nat);
        let f = swaps_forward(row, start, end, (k - 1) as nat);
        assert forall|j: int| 0 <= j < k implies #[trigger] swaps_forward(row, start, end, k)[start
            + j] == row[end + j] by {
            if j < k - 1 {
                assert(f[start + j] == row[end + j]);
            } else {
                assert(f[end + k - 1] == row[end + k - 1]);
            }
        }
    }
}

/// Inserting blanks at column `x` keeps the cells left of it, clears
/// the inserted cells, and moves the cells from `x` right past them.
pub proof fn law_insert_blank_moves_the_rest_right(row: Seq<Cell>, x: int, n: int, bg: TermColor)
    requires
        0 <= x < row.len(),
        n >= 0,
    ensures
        ({
            let w = row.len() as int;
            let k = min(n, w - x);
            let r = inserted(row, x, n, w, bg);
            &&& r.len() == w
            &&& forall|i: int| 0 <= i < x ==> #[trigger] r[i] == row[i]
            &&& forall|i: int| x <= i < x + k ==> (#[trigger] r[i]).ch == ' ' && r[i].bg == bg
            &&& forall|j: int| 0 <= j < w - x - k ==> #[trigger] r[x + k + j] == row[x + j]
        }),
{
    let w = row.len() as int;
    let k = min(n, w - x);
    lemma_swaps_len(row, x, x + k, (w - x - k) as nat);
    lemma_swaps_back(row, x, x + k, (w - x - k) as nat);
    let sw = swaps_back(row, x, x + k, (w - x - k) as nat);
    let r = inserted(row, x, n, w, bg);
    assert forall|j: int| 0 <= j < w - x - k implies #[trigger] r[x + k + j] == row[x + j] by {
        assert(sw[x + k + j] == row[x + j]);
    }
}

/// Deleting `n` cells at column `x`, where the row has more than `n`
/// cells from `x` on, keeps the cells left of `x`, moves the cells after
/// the deleted ones left to `x`, and clears the last `n` cells.
pub proof fn law_delete_chars_moves_the_rest_left(row: Seq<Cell>, x: int, n: int, bg: TermColor)
    requires
        0 <= x < row.len(),
        0 <= n,
        x + n < row.len(),
    ensures
        ({
            let w = row.len() as int;
            let r = deleted(row, x, n, w, bg);
            &&& r.len() == w
            &&& forall|i: int| 0 <= i < x ==> #[trigger] r[i] == row[i]
            &&& forall|j: int| 0 <= j < w - x - n ==> #[trigger] r[x + j] == row[x + n + j]
            &&& forall|i: int| w - n <= i < w ==> (#[trigger] r[i]).ch == ' ' && r[i].bg == bg
        }),
{
    let w = row.len() as int;
    lemma_swaps_len(row, x, x + n, (w - x - n) as nat);
    lemma_swaps_forward(row, x, x + n, (w - x - n) as nat);
    let sw = swaps_forward(row, x, x + n, (w - x - n) as nat);
    let r = deleted(row, x, n, w, bg);
    assert forall|j: int| 0 <= j < w - x - n implies #[trigger] r[x + j] == row[x + n + j] by {
        assert(sw[x + j] == row[x + n + j]);
    }
    assert forall|i: int| 0 <= i < x implies #[trigger] r[i] == row[i] by {
        assert(sw[i] == row[i]);
    }
}

/// A fresh row of `w` cells.
fn blank_row(w: usize) -> (r: Vec<Cell>)
    ensures
        r@ == default_row(w as nat),
{
    let mut r: Vec<Cell> = Vec::new();
    let mut i: usize = 0;
    while i < w
        invariant
            i <= w,
            r@ == default_row(i as nat),
        decreases w - i,
    {
        r.push(Cell::default_cell());
        proof {
            assert(r@ =~= default_row((i + 1) as nat));
        }
        i += 1;
    }
    r
}

/// Exchanges the cells at `a` and `b`.
fn swap_cells(row: &mut Vec<Cell>, a: usize, b: usize)
    requires
        a < old(row)@.len(),
        b < old(row)@.len(),
    ensures
        final(row)@ == swapped(old(row)@, a as int, b as int),
{
    let x = row[a];
    let y = row[b];
    row[a] = y;
    row[b] = x;
}

/// Clears the cells from `from` to before `to`.
fn blank_cells(row: &mut Vec<Cell>, from: usize, to: usize, bg: TermColor)
    requires
        from <= to <= old(row)@.len(),
    ensures
        final(row)@ == blanked(old(row)@, from as int, to as int, bg),
{
    let mut i = from;
    while i < to
        invariant
            from <= i <= to <= row@.len(),
            row@.len() == old(row)@.len(),
            row@ == blanked(old(row)@, from as int, i as int, bg),
        decreases to - i,
    {
        let c = row[i];
        row[i] = Cell { ch: ' ', fg: c.fg, bg, attrs: c.attrs };
        proof {
            assert(row@ =~= blanked(old(row)@, from as int, i + 1, bg));
        }
        i += 1;
    }
}

/// Exchanges the cells at `dest + o` and `src + o` for `o` from `k - 1`
/// down to 0.
fn swap_back(row: &mut Vec<Cell>, src: usize, dest: usize, k: usize)
    requires
        src <= dest,
        dest + k <= old(row)@.len(),
    ensures
        final(row)@ == swaps_back(old(row)@, src as int, dest as int, k as nat),
{
    let mut o = k;
    while o > 0
        invariant
            src <= dest,
            dest + k <= row.len(),
            o <= k,
            swaps_back(old(row)@, src as int, dest as int, k as nat) == swaps_back(
                row@,
                src as int,
                dest as int,
                o as nat,
            ),
        decreases o,
    {
        o -= 1;
        swap_cells(row, dest + o, src + o);
    }
}

/// Exchanges the cells at `start + o` and `end + o` for `o` from 0 to
/// `k - 1`.
fn swap_forward(row: &mut Vec<Cell>, start: usize, end: usize, k: usize)
    requires
        start <= end,
        end + k <= old(row)@.len(),
    ensures
        final(row)@ == swaps_forward(old(row)@, start as int, end as int, k as nat),
{
    let mut o: usize = 0;
    while o < k
        invariant
            start <= end,
            end + k <= row.len(),
            o <= k,
            row@ == swaps_forward(old(row)@, start as int, end as int, o as nat),
        decreases k - o,
    {
        swap_cells(row, start + o, end + o);
        o += 1;
    }
}

} // verus!
