//! From text to a board and back: splitting a text into lines, reading a
//! board and a position from the lines of a drawing, and drawing them.

use crate::board::BoardView;
use crate::board::ChessBoard;
use crate::cell_set::cell_lt;
use crate::cell_set::Cell;
use crate::cell_set::CellSet;
use crate::state::GameState;
use crate::state::StateView;
use vstd::prelude::*;
use vstd::string::StrSliceExecFns;

verus! {

/// `String::push` of std, which vstd does not specify: taken from its
/// documentation to append the given character to the end of the string.
pub assume_specification[ String::push ](s: &mut String, c: char)
    ensures
        final(s)@ == old(s)@.push(c),
;

/// The number of characters before the first line feed of `text`, or all of
/// them where it has none.
pub open spec fn line_len(text: Seq<char>) -> nat
    decreases text.len(),
{
    if text.len() == 0 || text[0] == '\n' {
        0
    } else {
        1 + line_len(text.skip(1))
    }
}

/// A line without the carriage return that ends it, if one does.
pub open spec fn without_return(line: Seq<char>) -> Seq<char> {
    if line.len() > 0 && line.last() == '\r' {
        line.drop_last()
    } else {
        line
    }
}

/// The lines of `text`. A line ends at a line feed, and a carriage return
/// just before that line feed is not part of the line; what follows the last
/// line feed is a line if it is not empty.
pub open spec fn lines_of(text: Seq<char>) -> Seq<Seq<char>>
    decreases text.len(),
{
    if text.len() == 0 {
        Seq::empty()
    } else {
        let n = line_len(text);
        if n >= text.len() {
            seq![text]
        } else {
            seq![without_return(text.take(n as int))] + lines_of(text.skip(n as int + 1))
        }
    }
}

/// The entries of `lines` that are not empty, in their order.
pub open spec fn nonempty(lines: Seq<Seq<char>>) -> Seq<Seq<char>>
    decreases lines.len(),
{
    if lines.len() == 0 {
        Seq::empty()
    } else if lines[0].len() == 0 {
        nonempty(lines.skip(1))
    } else {
        seq![lines[0]] + nonempty(lines.skip(1))
    }
}

/// The views of a vector of strings.
pub open spec fn texts(v: Seq<String>) -> Seq<Seq<char>> {
    Seq::new(v.len(), |i: int| v[i]@)
}

/// `lines` with `line` added at the end, unless `line` is empty.
spec fn with_line(lines: Seq<Seq<char>>, line: Seq<char>) -> Seq<Seq<char>> {
    if line.len() == 0 {
        lines
    } else {
        lines.push(line)
    }
}

/// The lines that are not empty once `rest` has been read, where `done` are
/// those that were complete before it, and `cur` is the line under way.
spec fn lines_after(done: Seq<Seq<char>>, cur: Seq<char>, rest: Seq<char>) -> Seq<Seq<char>>
    decreases rest.len(),
{
    if rest.len() == 0 {
        with_line(done, cur)
    } else if rest[0] == '\n' {
        lines_after(with_line(done, without_return(cur)), Seq::empty(), rest.skip(1))
    } else {
        lines_after(done, cur.push(rest[0]), rest.skip(1))
    }
}

/// Before a text, characters that are no line feed lengthen its first line.
proof fn lemma_line_len(cur: Seq<char>, rest: Seq<char>)
    requires
        forall|k: int| 0 <= k < cur.len() ==> cur[k] != '\n',
    ensures
        line_len(cur + rest) == cur.len() + line_len(rest),
    decreases cur.len(),
{
    if cur.len() == 0 {
        assert(cur + rest =~= rest);
    } else {
        assert((cur + rest).skip(1) =~= cur.skip(1) + rest);
        assert((cur + rest)[0] == cur[0]);
        lemma_line_len(cur.skip(1), rest);
    }
}

/// Reading on from the middle of a line gives the lines of the whole text.
proof fn lemma_lines_after(done: Seq<Seq<char>>, cur: Seq<char>, rest: Seq<char>)
    requires
        forall|k: int| 0 <= k < cur.len() ==> cur[k] != '\n',
    ensures
        lines_after(done, cur, rest) == done + nonempty(lines_of(cur + rest)),
    decreases rest.len(),
{
    let text = cur + rest;
    lemma_line_len(cur, rest);
    if rest.len() == 0 {
        assert(text =~= cur);
        if cur.len() == 0 {
            assert(done + nonempty(lines_of(text)) =~= done);
        } else {
            let all = seq![cur];
            assert(all.skip(1) =~= Seq::<Seq<char>>::empty());
            assert(nonempty(all.skip(1)) =~= Seq::<Seq<char>>::empty());
            assert(nonempty(all) =~= seq![cur]);
            assert(done + seq![cur] =~= done.push(cur));
        }
    } else if rest[0] == '\n' {
        let n = cur.len() as int;
        assert(line_len(rest) == 0);
        assert(text.take(n) =~= cur);
        assert(text.skip(n + 1) =~= rest.skip(1));
        let line = without_return(cur);
        let tail = lines_of(rest.skip(1));
        let all = seq![line] + tail;
        assert(lines_of(text) == all);
        assert(all.skip(1) =~= tail);
        assert(all[0] == line);
        lemma_lines_after(with_line(done, line), Seq::empty(), rest.skip(1));
        assert(Seq::<char>::empty() + rest.skip(1) =~= rest.skip(1));
        if line.len() == 0 {
            assert(nonempty(all) == nonempty(tail));
        } else {
            assert(nonempty(all) == seq![line] + nonempty(tail));
            assert(done.push(line) + nonempty(tail) =~= done + (seq![line] + nonempty(tail)));
        }
    } else {
        assert(cur.push(rest[0]) + rest.skip(1) =~= text);
        lemma_lines_after(done, cur.push(rest[0]), rest.skip(1));
    }
}

/// The line under way, where `held` says that a carriage return was read
/// last and is not in `cur` yet.
spec fn under_way(cur: Seq<char>, held: bool) -> Seq<char> {
    if held {
        cur.push('\r')
    } else {
        cur
    }
}

/// The lines of `text` that are not empty.
pub fn read_lines(text: &str) -> (r: Vec<String>)
    ensures
        texts(r@) == nonempty(lines_of(text@)),
{
    let mut out: Vec<String> = Vec::new();
    let mut cur = String::new();
    let mut held = false;
    proof {
        lemma_lines_after(Seq::empty(), Seq::empty(), text@);
        assert(Seq::<char>::empty() + text@ =~= text@);
        assert(Seq::<Seq<char>>::empty() + nonempty(lines_of(text@)) =~= nonempty(
            lines_of(text@),
        ));
        assert(texts(out@) =~= Seq::<Seq<char>>::empty());
        assert(text@.skip(0) =~= text@);
    }
    for c in it: text.chars()
        invariant
            it.seq() == text@,
            forall|k: int| 0 <= k < cur@.len() ==> cur@[k] != '\n',
            !held ==> cur@.len() == 0 || cur@.last() != '\r',
            lines_after(texts(out@), under_way(cur@, held), text@.skip(it.index() as int))
                == nonempty(lines_of(text@)),
    {
        let ghost rest = text@.skip(it.index() as int);
        let ghost done = texts(out@);
        let ghost line = under_way(cur@, held);
        proof {
            assert(rest[0] == c);
            assert(rest.skip(1) =~= text@.skip(it.index() + 1));
        }
        if c == '\n' {
            proof {
                assert(without_return(line) =~= cur@);
            }
            if !cur.as_str().is_empty() {
                out.push(cur);
                proof {
                    assert(texts(out@) =~= with_line(done, without_return(line)));
                }
            }
            cur = String::new();
            held = false;
        } else {
            if held {
                cur.push('\r');
            }
            if c == '\r' {
                held = true;
            } else {
                cur.push(c);
                held = false;
            }
            proof {
                assert(under_way(cur@, held) =~= line.push(c));
            }
        }
    }
    proof {
        assert(text@.skip(text@.len() as int) =~= Seq::<char>::empty());
    }
    let ghost done = texts(out@);
    if held {
        cur.push('\r');
    }
    if !cur.as_str().is_empty() {
        out.push(cur);
        proof {
            assert(texts(out@) =~= done.push(cur@));
        }
    }
    out
}

/// Why a drawing is not a board with a position on it.
#[derive(Debug, Clone, Copy, PartialEq, Eq)]
pub enum BoardError {
    /// It has more rows or columns than a machine integer can count.
    TooLarge,
    /// The row is not as long as the first one.
    Ragged { row: usize },
    /// The character at this place is none of `S`, `D`, `#` and `.`.
    UnknownSymbol { row: usize, col: usize },
    /// No `D` marks the dragon.
    MissingDragon,
    /// No `S` marks a sheep.
    MissingSheep,
}

/// Whether `c` is one of the characters of a drawing: `S` for a sheep, `D`
/// for the dragon, `#` for a safe cell and `.` for any other cell.
pub open spec fn is_symbol(c: char) -> bool {
    c == 'S' || c == 'D' || c == '#' || c == '.'
}

/// Whether the drawing has more rows or columns than can be counted.
pub open spec fn too_large(grid: Seq<Seq<char>>) -> bool {
    grid.len() > isize::MAX || (grid.len() > 0 && grid[0].len() > isize::MAX)
}

/// Whether row `i` is as long as the first row and holds nothing but
/// symbols.
pub open spec fn row_fine(grid: Seq<Seq<char>>, i: int) -> bool {
    grid[i].len() == grid[0].len() && forall|j: int|
        0 <= j < grid[i].len() ==> is_symbol(#[trigger] grid[i][j])
}

/// Whether row `i` is the first that is not fine.
pub open spec fn first_bad_row(grid: Seq<Seq<char>>, i: int) -> bool {
    0 <= i < grid.len() && !row_fine(grid, i) && forall|k: int| 0 <= k < i ==> row_fine(grid, k)
}

/// Whether column `j` holds the first character of `row` that is no symbol.
pub open spec fn first_unknown(row: Seq<char>, j: int) -> bool {
    0 <= j < row.len() && !is_symbol(row[j]) && forall|k: int|
        0 <= k < j ==> is_symbol(#[trigger] row[k])
}

/// Whether the cell `c` comes, in reading order, before column `col` of row
/// `row`.
pub open spec fn read_before(c: Cell, row: int, col: int) -> bool {
    c.0 < row || (c.0 == row && c.1 < col)
}

/// The cells of the drawing that are marked `ch` and come before column
/// `col` of row `row`.
pub open spec fn marks_before(grid: Seq<Seq<char>>, ch: char, row: int, col: int) -> Set<Cell> {
    Set::new(
        |c: Cell|
            {
                &&& 0 <= c.0 < grid.len()
                &&& 0 <= c.1 < grid[c.0 as int].len()
                &&& grid[c.0 as int][c.1 as int] == ch
                &&& read_before(c, row, col)
            },
    )
}

/// The cells of the drawing that are marked `ch`.
pub open spec fn marks(grid: Seq<Seq<char>>, ch: char) -> Set<Cell> {
    marks_before(grid, ch, grid.len() as int, 0)
}

/// Whether `c` is, in reading order, the last of `cells`.
pub open spec fn last_of(cells: Set<Cell>, c: Cell) -> bool {
    cells.contains(c) && forall|d: Cell| cells.contains(d) ==> !cell_lt(c, d)
}

/// Reads a board and a position from the rows of a drawing, in which `S`
/// marks a sheep, `D` the dragon, `#` a safe cell and `.` any other cell.
/// Where several cells are marked `D`, the last one in reading order holds
/// the dragon. The first fault in reading order is the one reported; a
/// missing dragon or sheep is reported only of a drawing without such a
/// fault.
pub fn from_text(lines: &Vec<String>) -> (r: Result<(ChessBoard, GameState), BoardError>)
    ensures
        match r {
            Ok((board, state)) => {
                &&& !too_large(texts(lines@))
                &&& forall|i: int| 0 <= i < lines@.len() ==> row_fine(texts(lines@), i)
                &&& board@ == (BoardView {
                    width: texts(lines@)[0].len() as int,
                    height: lines@.len() as int,
                    safe: marks(texts(lines@), '#'),
                })
                &&& state@.sheep == marks(texts(lines@), 'S')
                &&& !state@.sheep.is_empty()
                &&& last_of(marks(texts(lines@), 'D'), state@.dragon)
                &&& state@.on_board(board@)
                &&& board@.in_bounds(state@.dragon)
            },
            Err(BoardError::TooLarge) => too_large(texts(lines@)),
            Err(BoardError::Ragged { row }) => {
                &&& !too_large(texts(lines@))
                &&& first_bad_row(texts(lines@), row as int)
                &&& texts(lines@)[row as int].len() != texts(lines@)[0].len()
            },
            Err(BoardError::UnknownSymbol { row, col }) => {
                &&& !too_large(texts(lines@))
                &&& first_bad_row(texts(lines@), row as int)
                &&& texts(lines@)[row as int].len() == texts(lines@)[0].len()
                &&& first_unknown(texts(lines@)[row as int], col as int)
            },
            Err(BoardError::MissingDragon) => {
                &&& !too_large(texts(lines@))
                &&& forall|i: int| 0 <= i < lines@.len() ==> row_fine(texts(lines@), i)
                &&& marks(texts(lines@), 'D').is_empty()
            },
            Err(BoardError::MissingSheep) => {
                &&& !too_large(texts(lines@))
                &&& forall|i: int| 0 <= i < lines@.len() ==> row_fine(texts(lines@), i)
                &&& !marks(texts(lines@), 'D').is_empty()
                &&& marks(texts(lines@), 'S').is_empty()
            },
        },
{
    let ghost grid = texts(lines@);
    let limit: usize = isize::MAX as usize;
    let height = lines.len();
    if height > limit {
        return Err(BoardError::TooLarge);
    }
    let width = if height > 0 {
        lines[0].as_str().unicode_len()
    } else {
        0
    };
    if width > limit {
        return Err(BoardError::TooLarge);
    }
    let mut sheep = CellSet::new();
    let mut safe = CellSet::new();
    let mut dragon: Option<Cell> = None;
    let mut i: usize = 0;
    while i < height
        invariant
            i <= height,
            height == lines@.len(),
            grid == texts(lines@),
            height <= isize::MAX,
            width <= isize::MAX,
            height > 0 ==> width == grid[0].len(),
            forall|k: int| 0 <= k < i ==> row_fine(grid, k),
            sheep@ == marks_before(grid, 'S', i as int, 0),
            safe@ == marks_before(grid, '#', i as int, 0),
            dragon is None ==> marks_before(grid, 'D', i as int, 0).is_empty(),
            dragon matches Some(d) ==> last_of(marks_before(grid, 'D', i as int, 0), d),
        decreases height - i,
    {
        let line = lines[i].as_str();
        if line.unicode_len() != width {
            return Err(BoardError::Ragged { row: i });
        }
        let row = i as isize;
        let mut at: usize = 0;
        for c in it: line.chars()
            invariant
                it.seq() == grid[i as int],
                at == it.index(),
                height <= isize::MAX,
                width == grid[0].len(),
                forall|k: int| 0 <= k < i ==> row_fine(grid, k),
                i < height,
                row == i,
                height == lines@.len(),
                grid == texts(lines@),
                grid[i as int].len() == width,
                width <= isize::MAX,
                forall|k: int| 0 <= k < it.index() ==> is_symbol(#[trigger] grid[i as int][k]),
                sheep@ == marks_before(grid, 'S', i as int, it.index() as int),
                safe@ == marks_before(grid, '#', i as int, it.index() as int),
                dragon is None ==> marks_before(grid, 'D', i as int, it.index() as int).is_empty(),
                dragon matches Some(d) ==> last_of(
                    marks_before(grid, 'D', i as int, it.index() as int),
                    d,
                ),
        {
            let ghost j = it.index() as int;
            let col = count_to(at, width);
            let here: Cell = (row, col);
            proof {
                assert(grid[i as int][j] == c);
            }
            if c == 'S' {
                sheep.insert(here);
            } else if c == 'D' {
                dragon = Some(here);
            } else if c == '#' {
                safe.insert(here);
            } else if c != '.' {
                return Err(BoardError::UnknownSymbol { row: i, col: at });
            }
            at += 1;
            proof {
                lemma_next_mark(grid, 'S', i as int, j);
                lemma_next_mark(grid, '#', i as int, j);
                lemma_next_mark(grid, 'D', i as int, j);
                if c == 'D' {
                    assert(last_of(marks_before(grid, 'D', i as int, j + 1), here));
                } else if dragon is Some {
                    assert(last_of(marks_before(grid, 'D', i as int, j + 1), dragon->0));
                }
            }
        }
        proof {
            lemma_next_row(grid, 'S', i as int);
            lemma_next_row(grid, '#', i as int);
            lemma_next_row(grid, 'D', i as int);
        }
        i += 1;
    }
    let dragon = match dragon {
        Some(d) => d,
        None => {
            return Err(BoardError::MissingDragon);
        },
    };
    if sheep.is_empty() {
        return Err(BoardError::MissingSheep);
    }
    proof {
        assert(marks(grid, 'D').contains(dragon));
        assert forall|c: Cell| safe@.contains(c) implies 0 <= c.0 < height && 0 <= c.1
            < width by {
            assert(row_fine(grid, c.0 as int));
        }
        assert forall|c: Cell| sheep@.contains(c) implies 0 <= c.0 < height && 0 <= c.1
            < width by {
            assert(row_fine(grid, c.0 as int));
        }
        assert(row_fine(grid, dragon.0 as int));
    }
    match ChessBoard::new(width as isize, height as isize, safe) {
        Some(board) => Ok((board, GameState { sheep, dragon })),
        None => {
            proof {
                assert(false);
            }
            Err(BoardError::TooLarge)
        },
    }
}

/// A count that is below `limit`, as a coordinate.
fn count_to(n: usize, limit: usize) -> (r: isize)
    requires
        n < limit <= isize::MAX,
    ensures
        r == n,
{
    n as isize
}

/// Reading one more cell of a row adds that cell to the marks read, if it
/// bears the mark.
proof fn lemma_next_mark(grid: Seq<Seq<char>>, ch: char, i: int, j: int)
    requires
        0 <= i < grid.len() <= isize::MAX,
        0 <= j < grid[i].len() <= isize::MAX,
    ensures
        marks_before(grid, ch, i, j + 1) == if grid[i][j] == ch {
            marks_before(grid, ch, i, j).insert((i as isize, j as isize))
        } else {
            marks_before(grid, ch, i, j)
        },
{
    let here: Cell = (i as isize, j as isize);
    let before = marks_before(grid, ch, i, j);
    let after = marks_before(grid, ch, i, j + 1);
    if grid[i][j] == ch {
        assert(after =~= before.insert(here));
    } else {
        assert(after =~= before);
    }
}

/// The marks read at the end of a row are those read at the start of the
/// next.
proof fn lemma_next_row(grid: Seq<Seq<char>>, ch: char, i: int)
    requires
        0 <= i < grid.len(),
    ensures
        marks_before(grid, ch, i, grid[i].len() as int) == marks_before(grid, ch, i + 1, 0),
{
    assert(marks_before(grid, ch, i, grid[i].len() as int) =~= marks_before(grid, ch, i + 1, 0));
}

/// The character that stands for a cell in a drawing of the whole position:
/// `D` for the dragon's cell, else `S` where a sheep stands, else `#` for a
/// safe cell, else `.`.
pub open spec fn symbol_at(b: BoardView, s: StateView, c: Cell) -> char {
    if c == s.dragon {
        'D'
    } else if s.sheep.contains(c) {
        'S'
    } else if b.safe.contains(c) {
        '#'
    } else {
        '.'
    }
}

/// The character that stands for a cell in a drawing of the sheep alone.
pub open spec fn sheep_symbol_at(s: StateView, c: Cell) -> char {
    if s.sheep.contains(c) {
        'S'
    } else {
        '.'
    }
}

/// Row `i` of the drawing of the whole position.
pub open spec fn drawn_row(b: BoardView, s: StateView, i: int) -> Seq<char> {
    Seq::new(b.width as nat, |j: int| symbol_at(b, s, (i as isize, j as isize)))
}

/// Row `i` of the drawing of the sheep.
pub open spec fn drawn_sheep_row(b: BoardView, s: StateView, i: int) -> Seq<char> {
    Seq::new(b.width as nat, |j: int| sheep_symbol_at(s, (i as isize, j as isize)))
}

/// The drawing of the board with the position on it, row by row.
pub fn render_board(board: &ChessBoard, state: &GameState) -> (r: Vec<String>)
    ensures
        r@.len() == board@.height,
        forall|i: int| 0 <= i < r@.len() ==> (#[trigger] r@[i])@ == drawn_row(board@, state@, i),
{
    let height = board.height();
    let width = board.width();
    let mut out: Vec<String> = Vec::new();
    let mut row: isize = 0;
    while row < height
        invariant
            0 <= row <= height,
            height == board@.height,
            width == board@.width,
            0 <= width,
            out@.len() == row,
            forall|i: int| 0 <= i < row ==> (#[trigger] out@[i])@ == drawn_row(board@, state@, i),
        decreases height - row,
    {
        let mut line = String::new();
        let mut col: isize = 0;
        while col < width
            invariant
                0 <= col <= width,
                width == board@.width,
                line@.len() == col,
                forall|j: int|
                    0 <= j < col ==> #[trigger] line@[j] == symbol_at(
                        board@,
                        state@,
                        (row, j as isize),
                    ),
            decreases width - col,
        {
            let pos: Cell = (row, col);
            let c = if pos.0 == state.dragon.0 && pos.1 == state.dragon.1 {
                'D'
            } else if state.sheep.contains(pos) {
                'S'
            } else if board.is_safe(pos) {
                '#'
            } else {
                '.'
            };
            line.push(c);
            col += 1;
        }
        proof {
            assert(line@ =~= drawn_row(board@, state@, row as int));
        }
        out.push(line);
        row += 1;
    }
    out
}

/// The drawing of the sheep alone on the board, row by row.
pub fn render_sheep(board: &ChessBoard, state: &GameState) -> (r: Vec<String>)
    ensures
        r@.len() == board@.height,
        forall|i: int|
            0 <= i < r@.len() ==> (#[trigger] r@[i])@ == drawn_sheep_row(board@, state@, i),
{
    let height = board.height();
    let width = board.width();
    let mut out: Vec<String> = Vec::new();
    let mut row: isize = 0;
    while row < height
        invariant
            0 <= row <= height,
            height == board@.height,
            width == board@.width,
            0 <= width,
            out@.len() == row,
            forall|i: int|
                0 <= i < row ==> (#[trigger] out@[i])@ == drawn_sheep_row(board@, state@, i),
        decreases height - row,
    {
        let mut line = String::new();
        let mut col: isize = 0;
        while col < width
            invariant
                0 <= col <= width,
                width == board@.width,
                line@.len() == col,
                forall|j: int|
                    0 <= j < col ==> #[trigger] line@[j] == sheep_symbol_at(
                        state@,
                        (row, j as isize),
                    ),
            decreases width - col,
        {
            let c = if state.sheep.contains((row, col)) {
                'S'
            } else {
                '.'
            };
            line.push(c);
            col += 1;
        }
        proof {
            assert(line@ =~= drawn_sheep_row(board@, state@, row as int));
        }
        out.push(line);
        row += 1;
    }
    out
}

} // verus!
