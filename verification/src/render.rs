//! The renderer: turns a grid and a (possibly empty) path into text, one
//! line per row, one glyph plus a separating space per cell, with the path
//! glyph optionally wrapped in a terminal color-escape pair.

use vstd::prelude::*;

use crate::grid::{path_contains, Maze, Pos, Spot};

verus! {

/// The glyph marking a cell on the path.
pub const PATH_CHAR: char = '+';

/// The glyph of a blocked cell.
pub const WALL_CHAR: char = '@';

/// The glyph of an open cell off the path.
pub const EMPTY_CHAR: char = '.';

/// The glyph drawn for cell `(x, y)`: the path glyph when the path holds
/// that position, else the glyph of the cell's own state.
pub open spec fn cell_glyph(m: Maze, path: Seq<Pos>, x: int, y: int) -> char {
    if path.contains(Pos { x: x as i32, y: y as i32 }) {
        PATH_CHAR
    } else if m.spot_at(x, y) == Spot::Empty {
        EMPTY_CHAR
    } else {
        WALL_CHAR
    }
}

/// The text of one rendered cell: its glyph and the separating space.
pub open spec fn cell_text(m: Maze, path: Seq<Pos>, x: int, y: int) -> Seq<char> {
    seq![cell_glyph(m, path, x, y), ' ']
}

/// The first `upto` cells of row `y`, after the newline that opens the row.
pub open spec fn row_text(m: Maze, path: Seq<Pos>, y: int, upto: int) -> Seq<char>
    decreases upto,
{
    if upto <= 0 {
        seq!['\n']
    } else {
        row_text(m, path, y, upto - 1) + cell_text(m, path, upto - 1, y)
    }
}

/// The first `upto` rows of the rendering.
pub open spec fn grid_text(m: Maze, path: Seq<Pos>, upto: int) -> Seq<char>
    decreases upto,
{
    if upto <= 0 {
        Seq::empty()
    } else {
        grid_text(m, path, upto - 1) + row_text(m, path, upto - 1, m.size as int)
    }
}

/// The colored text of one rendered cell: a cell on the path carries the
/// bold-red escape pair around its glyph; other cells render as in
/// `cell_text`.
pub open spec fn cell_text_colored(m: Maze, path: Seq<Pos>, x: int, y: int) -> Seq<char> {
    if path.contains(Pos { x: x as i32, y: y as i32 }) {
        seq!['\x1b', '[', '1', ';', '3', '1', 'm', '+', '\x1b', '[', '0', 'm', ' ']
    } else {
        cell_text(m, path, x, y)
    }
}

/// The first `upto` cells of the colored row `y`.
pub open spec fn row_text_colored(m: Maze, path: Seq<Pos>, y: int, upto: int) -> Seq<char>
    decreases upto,
{
    if upto <= 0 {
        seq!['\n']
    } else {
        row_text_colored(m, path, y, upto - 1) + cell_text_colored(m, path, upto - 1, y)
    }
}

/// The first `upto` rows of the colored rendering.
pub open spec fn grid_text_colored(m: Maze, path: Seq<Pos>, upto: int) -> Seq<char>
    decreases upto,
{
    if upto <= 0 {
        Seq::empty()
    } else {
        grid_text_colored(m, path, upto - 1) + row_text_colored(m, path, upto - 1, m.size as int)
    }
}

impl Maze {
    /// Renders the grid with the path overlaid: one line per row, opened by
    /// a newline, holding one glyph plus a separating space per cell.
    pub fn render(&self, path: &Vec<Pos>) -> (s: String)
        requires
            self.well_formed(),
        ensures
            s@ == grid_text(*self, path@, self.size as int),
    {
        let ghost m = *self;
        let mut s = String::new();
        let mut y: i32 = 0;
        while y < self.size
            invariant
                m == *self,
                m.well_formed(),
                0 <= y <= m.size,
                s@ == grid_text(m, path@, y as int),
            decreases m.size - y,
        {
            proof {
                reveal_strlit("\n");
                assert(("\n")@ =~= row_text(m, path@, y as int, 0));
            }
            s.append("\n");
            let mut x: i32 = 0;
            while x < self.size
                invariant
                    m == *self,
                    m.well_formed(),
                    0 <= y < m.size,
                    0 <= x <= m.size,
                    s@ == grid_text(m, path@, y as int) + row_text(m, path@, y as int, x as int),
                decreases m.size - x,
            {
                let pos = Pos { x, y };
                if path_contains(path, &pos) {
                    proof {
                        reveal_strlit("+ ");
                        assert(("+ ")@ =~= cell_text(m, path@, x as int, y as int));
                    }
                    s.append("+ ");
                } else if self.get(x, y) == Spot::Empty {
                    proof {
                        reveal_strlit(". ");
                        assert((". ")@ =~= cell_text(m, path@, x as int, y as int));
                    }
                    s.append(". ");
                } else {
                    proof {
                        reveal_strlit("@ ");
                        assert(("@ ")@ =~= cell_text(m, path@, x as int, y as int));
                    }
                    s.append("@ ");
                }
                x = x + 1;
            }
            y = y + 1;
        }
        s
    }

    /// Renders the grid as `render` does, with each path glyph wrapped in
    /// the bold-red escape pair for terminals.
    pub fn render_colored(&self, path: &Vec<Pos>) -> (s: String)
        requires
            self.well_formed(),
        ensures
            s@ == grid_text_colored(*self, path@, self.size as int),
    {
        let ghost m = *self;
        let mut s = String::new();
        let mut y: i32 = 0;
        while y < self.size
            invariant
                m == *self,
                m.well_formed(),
                0 <= y <= m.size,
                s@ == grid_text_colored(m, path@, y as int),
            decreases m.size - y,
        {
            proof {
                reveal_strlit("\n");
                assert(("\n")@ =~= row_text_colored(m, path@, y as int, 0));
            }
            s.append("\n");
            let mut x: i32 = 0;
            while x < self.size
                invariant
                    m == *self,
                    m.well_formed(),
                    0 <= y < m.size,
                    0 <= x <= m.size,
                    s@ == grid_text_colored(m, path@, y as int) + row_text_colored(
                        m,
                        path@,
                        y as int,
                        x as int,
                    ),
                decreases m.size - x,
            {
                let pos = Pos { x, y };
                if path_contains(path, &pos) {
                    proof {
                        reveal_strlit("\x1b[1;31m+\x1b[0m ");
                        assert(("\x1b[1;31m+\x1b[0m ")@ =~= cell_text_colored(
                            m,
                            path@,
                            x as int,
                            y as int,
                        ));
                    }
                    s.append("\x1b[1;31m+\x1b[0m ");
                } else if self.get(x, y) == Spot::Empty {
                    proof {
                        reveal_strlit(". ");
                        assert((". ")@ =~= cell_text_colored(m, path@, x as int, y as int));
                    }
                    s.append(". ");
                } else {
                    proof {
                        reveal_strlit("@ ");
                        assert(("@ ")@ =~= cell_text_colored(m, path@, x as int, y as int));
                    }
                    s.append("@ ");
                }
                x = x + 1;
            }
            y = y + 1;
        }
        s
    }
}

/// Every character of a row rendered with an empty path is a newline, a
/// space, or a plain cell glyph — never the path glyph.
proof fn lemma_row_empty_path(m: Maze, path: Seq<Pos>, y: int, upto: int)
    requires
        path.len() == 0,
    ensures
        forall|j: int|
            0 <= j < row_text(m, path, y, upto).len() ==> #[trigger] row_text(m, path, y, upto)[j]
                != PATH_CHAR,
    decreases upto,
{
    if upto > 0 {
        lemma_row_empty_path(m, path, y, upto - 1);
        let prev = row_text(m, path, y, upto - 1);
        let cur = row_text(m, path, y, upto);
        assert forall|j: int| 0 <= j < cur.len() implies cur[j] != PATH_CHAR by {
            if j < prev.len() {
                assert(cur[j] == prev[j]);
            } else {
                assert(cur[j] == cell_text(m, path, upto - 1, y)[j - prev.len()]);
                assert(cell_glyph(m, path, upto - 1, y) != PATH_CHAR);
            }
        }
    }
}

/// Rendering with an empty path produces no path glyph anywhere: only wall
/// and empty glyphs, separators, and newlines appear.
pub proof fn lemma_render_empty_path(m: Maze, path: Seq<Pos>, upto: int)
    requires
        path.len() == 0,
    ensures
        forall|j: int|
            0 <= j < grid_text(m, path, upto).len() ==> #[trigger] grid_text(m, path, upto)[j]
                != PATH_CHAR,
    decreases upto,
{
    if upto > 0 {
        lemma_render_empty_path(m, path, upto - 1);
        lemma_row_empty_path(m, path, upto - 1, m.size as int);
        let prev = grid_text(m, path, upto - 1);
        let row = row_text(m, path, upto - 1, m.size as int);
        let cur = grid_text(m, path, upto);
        assert forall|j: int| 0 <= j < cur.len() implies cur[j] != PATH_CHAR by {
            if j < prev.len() {
                assert(cur[j] == prev[j]);
            } else {
                assert(cur[j] == row[j - prev.len()]);
            }
        }
    }
}

/// With an empty path, a colored row carries no escape pair: it is the
/// plain row.
proof fn lemma_row_colored_empty_path(m: Maze, path: Seq<Pos>, y: int, upto: int)
    requires
        path.len() == 0,
    ensures
        row_text_colored(m, path, y, upto) == row_text(m, path, y, upto),
    decreases upto,
{
    if upto > 0 {
        lemma_row_colored_empty_path(m, path, y, upto - 1);
        assert(!path.contains(Pos { x: (upto - 1) as i32, y: y as i32 }));
    }
}

/// With an empty path, the colored rendering carries no escape pair: it is
/// exactly the plain rendering, so no path glyph appears in it either.
pub proof fn lemma_render_colored_empty_path(m: Maze, path: Seq<Pos>, upto: int)
    requires
        path.len() == 0,
    ensures
        grid_text_colored(m, path, upto) == grid_text(m, path, upto),
    decreases upto,
{
    if upto > 0 {
        lemma_render_colored_empty_path(m, path, upto - 1);
        lemma_row_colored_empty_path(m, path, upto - 1, m.size as int);
    }
}

/// The length of a rendered row: the opening newline plus two characters
/// per cell.
proof fn lemma_row_text_len(m: Maze, path: Seq<Pos>, y: int, upto: int)
    requires
        upto >= 0,
    ensures
        row_text(m, path, y, upto).len() == 1 + 2 * upto,
    decreases upto,
{
    if upto > 0 {
        lemma_row_text_len(m, path, y, upto - 1);
    }
}

/// The character of row `y` at offset `1 + 2 * x` is the glyph of cell
/// `(x, y)`, and the character after it is the separating space.
proof fn lemma_row_text_index(m: Maze, path: Seq<Pos>, y: int, upto: int, x: int)
    requires
        0 <= x < upto,
    ensures
        row_text(m, path, y, upto).len() == 1 + 2 * upto,
        row_text(m, path, y, upto)[1 + 2 * x] == cell_glyph(m, path, x, y),
        row_text(m, path, y, upto)[2 + 2 * x] == ' ',
    decreases upto,
{
    lemma_row_text_len(m, path, y, upto);
    if x < upto - 1 {
        lemma_row_text_index(m, path, y, upto - 1, x);
    } else {
        lemma_row_text_len(m, path, y, upto - 1);
    }
}

/// The length of the rendering: one row of `1 + 2 * size` characters per
/// grid row.
proof fn lemma_grid_text_len(m: Maze, path: Seq<Pos>, upto: int)
    requires
        upto >= 0,
        m.size >= 0,
    ensures
        grid_text(m, path, upto).len() == upto * (1 + 2 * m.size),
    decreases upto,
{
    if upto <= 0 {
        assert(upto * (1 + 2 * m.size) == 0) by (nonlinear_arith)
            requires
                upto == 0,
        ;
    } else {
        lemma_grid_text_len(m, path, upto - 1);
        lemma_row_text_len(m, path, upto - 1, m.size as int);
        assert((upto - 1) * (1 + 2 * m.size) + (1 + 2 * m.size) == upto * (1 + 2 * m.size))
            by (nonlinear_arith);
    }
}

/// Within the rendering, the characters of row `y` start at offset
/// `y * (1 + 2 * size)`.
proof fn lemma_grid_text_index(m: Maze, path: Seq<Pos>, upto: int, y: int, j: int)
    requires
        m.size >= 0,
        0 <= y < upto,
        0 <= j < 1 + 2 * m.size,
    ensures
        grid_text(m, path, upto).len() == upto * (1 + 2 * m.size),
        grid_text(m, path, upto)[y * (1 + 2 * m.size) + j] == row_text(m, path, y, m.size as int)[j],
    decreases upto,
{
    lemma_grid_text_len(m, path, upto);
    lemma_row_text_len(m, path, y, m.size as int);
    if y < upto - 1 {
        lemma_grid_text_index(m, path, upto - 1, y, j);
        lemma_grid_text_len(m, path, upto - 1);
        assert(y * (1 + 2 * m.size) + j < (upto - 1) * (1 + 2 * m.size)) by (nonlinear_arith)
            requires
                0 <= y < upto - 1,
                m.size >= 0,
                0 <= j < 1 + 2 * m.size,
        ;
    } else {
        lemma_grid_text_len(m, path, upto - 1);
        assert(y * (1 + 2 * m.size) + j == (upto - 1) * (1 + 2 * m.size) + j) by (nonlinear_arith)
            requires
                y == upto - 1,
        ;
    }
}

/// The rendering marks exactly the positions on the path with the path
/// glyph: at the glyph slot of cell `(x, y)` stands the path glyph iff the
/// path holds that position, and otherwise the glyph of the cell's own
/// state.
pub proof fn lemma_render_marks_path(m: Maze, path: Seq<Pos>, x: int, y: int)
    requires
        m.well_formed(),
        0 <= x < m.size,
        0 <= y < m.size,
    ensures
        ({
            let s = grid_text(m, path, m.size as int);
            let c = s[y * (1 + 2 * m.size) + 1 + 2 * x];
            &&& s.len() == m.size * (1 + 2 * m.size)
            &&& (c == PATH_CHAR <==> path.contains(Pos { x: x as i32, y: y as i32 }))
            &&& (!path.contains(Pos { x: x as i32, y: y as i32 }) ==> c == (
            if m.spot_at(x, y) == Spot::Empty {
                EMPTY_CHAR
            } else {
                WALL_CHAR
            }))
        }),
{
    lemma_grid_text_index(m, path, m.size as int, y, 1 + 2 * x);
    lemma_row_text_index(m, path, y, m.size as int, x);
}

} // verus!
