use vstd::prelude::*;
use vstd::string::*;
use vstd::seq_lib::lemma_seq_contains_after_push;
use crate::notation::views;

verus! {

/// A cell of the grid, by column (`x`) and row (`y`), both counted from zero.
#[derive(Clone, Copy, Debug, PartialEq, Eq, Hash, Structural)]
pub struct Point {
    pub x: usize,
    pub y: usize,
}

/// Why a sequence of rows is not a square board.
#[derive(Clone, Copy, Debug, PartialEq, Eq, Structural)]
pub enum InvalidBoardError {
    /// The first row is missing or holds fewer than two symbols.
    TooSmall,
    /// The row with this index (the first row has index 0) does not fit a
    /// square of the first row's length.
    RowSizeMismatch(usize),
}

/// A square grid of symbols, stored row by row.
#[derive(Debug)]
pub struct Board {
    letters: String,
    size: usize,
}

/// Whether `p` lies on a grid of side `side`.
pub open spec fn on_board(side: nat, p: Point) -> bool {
    p.x < side && p.y < side
}

/// Whether `q` is one of the up to eight cells around `p`: each coordinate
/// differs by at most one, and `q` is not `p` itself.
pub open spec fn adjacent(p: Point, q: Point) -> bool {
    &&& p != q
    &&& p.x - q.x <= 1
    &&& q.x - p.x <= 1
    &&& p.y - q.y <= 1
    &&& q.y - p.y <= 1
}

/// Whether `q` is a cell of a grid of side `side` that touches `p`.
pub open spec fn neighbour(side: nat, p: Point, q: Point) -> bool {
    on_board(side, q) && adjacent(p, q)
}

/// Whether row `i` is what a square of side `side` has at that index: a row
/// of `side` symbols below `side`, and no row at all from `side` on.
pub open spec fn row_fits(rows: Seq<Seq<char>>, side: nat, i: int) -> bool {
    if i < side {
        i < rows.len() && rows[i].len() == side
    } else {
        i >= rows.len()
    }
}

/// Whether `rows` has no first row, or one of fewer than two symbols.
pub open spec fn too_small(rows: Seq<Seq<char>>) -> bool {
    rows.len() == 0 || rows[0].len() < 2
}

/// Whether `i` is the first index after 0 whose row does not fit the square
/// that the first row of `rows` announces.
pub open spec fn first_misfit(rows: Seq<Seq<char>>, i: int) -> bool {
    &&& 1 <= i
    &&& !row_fits(rows, rows[0].len(), i)
    &&& forall|j: int| 1 <= j < i ==> row_fits(rows, rows[0].len(), j)
}

/// Whether `rows` is a square of side at least two.
pub open spec fn is_square(rows: Seq<Seq<char>>) -> bool {
    &&& rows.len() >= 2
    &&& forall|i: int| 0 <= i < rows.len() ==> (#[trigger] rows[i]).len() == rows.len()
}

/// The first `n` rows of `rows`, one after the other.
spec fn join_rows(rows: Seq<Seq<char>>, n: nat) -> Seq<char>
    decreases n,
{
    if n == 0 {
        Seq::empty()
    } else {
        join_rows(rows, (n - 1) as nat) + rows[n - 1]
    }
}

/// The cells of a grid, counted row by row, are numbered below the square of
/// its side.
pub proof fn lemma_cell_index(side: nat, x: nat, y: nat)
    requires
        x < side,
        y < side,
    ensures
        y * side + x < side * side,
        0 <= y * side,
{
    assert((y + 1) * side <= side * side) by (nonlinear_arith)
        requires
            y + 1 <= side,
    ;
    assert((y + 1) * side == y * side + side) by (nonlinear_arith);
}

proof fn lemma_join_rows(rows: Seq<Seq<char>>, side: nat, n: nat)
    requires
        n <= rows.len(),
        forall|i: int| 0 <= i < n ==> (#[trigger] rows[i]).len() == side,
    ensures
        join_rows(rows, n).len() == n * side,
        forall|x: int, y: int|
            0 <= x < side && 0 <= y < n ==> #[trigger] join_rows(rows, n)[y * side + x]
                == rows[y][x],
    decreases n,
{
    if n == 0 {
        assert(0 * side == 0) by (nonlinear_arith);
    } else {
        let m = (n - 1) as nat;
        lemma_join_rows(rows, side, m);
        assert(n * side == m * side + side) by (nonlinear_arith)
            requires
                n == m + 1,
        ;
        assert forall|x: int, y: int| 0 <= x < side && 0 <= y < n implies #[trigger] join_rows(
            rows,
            n,
        )[y * side + x] == rows[y][x] by {
            if y < m {
                assert((y + 1) * side <= m * side) by (nonlinear_arith)
                    requires
                        y + 1 <= m,
                ;
                assert((y + 1) * side == y * side + side) by (nonlinear_arith);
            }
        }
    }
}

impl Board {
    /// The side length of the grid.
    pub closed spec fn side(&self) -> nat {
        self.size as nat
    }

    /// The symbols of the grid, row by row.
    pub closed spec fn cells(&self) -> Seq<char> {
        self.letters@
    }

    /// A board is a square of side at least two.
    #[verifier::type_invariant]
    pub open spec fn wf(&self) -> bool {
        &&& self.side() >= 2
        &&& self.cells().len() == self.side() * self.side()
        &&& self.side() * self.side() <= usize::MAX
    }

    /// The symbol on cell `p`.
    pub open spec fn symbol_at(&self, p: Point) -> char {
        self.cells()[p.y * self.side() + p.x]
    }

    /// Builds the board from its rows, given top to bottom.
    ///
    /// The first row decides the side length. Every row of the square must
    /// be there with that many symbols, and no row may follow the square.
    pub fn from_rows(rows: &Vec<String>) -> (res: Result<Board, InvalidBoardError>)
        ensures
            too_small(views(rows@)) ==> res == Err::<Board, _>(InvalidBoardError::TooSmall),
            !too_small(views(rows@)) && !is_square(views(rows@)) ==> ({
                &&& res matches Err(InvalidBoardError::RowSizeMismatch(i))
                &&& first_misfit(views(rows@), i as int)
            }),
            is_square(views(rows@)) ==> ({
                &&& res matches Ok(b)
                &&& b.wf()
                &&& b.side() == rows.len()
                &&& forall|p: Point|
                    on_board(b.side(), p) ==> #[trigger] b.symbol_at(p)
                        == rows[p.y as int]@[p.x as int]
            }),
    {
        let ghost texts = views(rows@);
        if rows.len() == 0 {
            return Err(InvalidBoardError::TooSmall);
        }
        let size = rows[0].as_str().unicode_len();
        if size < 2 {
            return Err(InvalidBoardError::TooSmall);
        }
        let mut letters = rows[0].clone();
        let mut i: usize = 1;
        assert(letters@ == join_rows(texts, 1)) by {
            assert(join_rows(texts, 0) == Seq::<char>::empty());
        }
        while i < size
            invariant
                texts == views(rows@),
                rows.len() >= 1,
                size == texts[0].len(),
                size >= 2,
                1 <= i <= size,
                i <= rows.len(),
                forall|j: int| 0 <= j < i ==> (#[trigger] texts[j]).len() == size,
                letters@ == join_rows(texts, i as nat),
            decreases size - i,
        {
            if i >= rows.len() {
                return Err(InvalidBoardError::RowSizeMismatch(i));
            }
            if rows[i].as_str().unicode_len() != size {
                return Err(InvalidBoardError::RowSizeMismatch(i));
            }
            letters.append(rows[i].as_str());
            i += 1;
        }
        if rows.len() > size {
            return Err(InvalidBoardError::RowSizeMismatch(size));
        }
        // Counting the cells shows that their number is one that the machine can hold.
        let cells = letters.as_str().unicode_len();
        proof {
            lemma_join_rows(texts, size as nat, size as nat);
            assert(cells == size * size);
        }
        Ok(Board { letters, size })
    }

    /// The side length of the grid.
    pub fn size(&self) -> (n: usize)
        ensures
            n == self.side(),
    {
        self.size
    }

    /// The symbols of the grid, row by row.
    pub fn letters(&self) -> (s: &str)
        ensures
            s@ == self.cells(),
    {
        self.letters.as_str()
    }
}

/// The one-symbol string on cell `point` of `board`.
pub fn get_letter(point: &Point, board: &Board) -> (letter: String)
    requires
        on_board(board.side(), *point),
    ensures
        letter@ == seq![board.symbol_at(*point)],
{
    proof {
        use_type_invariant(board);
        lemma_cell_index(board.side(), point.x as nat, point.y as nat);
    }
    let index = point.y * board.size + point.x;
    let letter = String::from_str(board.letters.as_str().substring_char(index, index + 1));
    letter
}

/// The cells of a grid of side `size` that touch `point`, each once: those
/// whose coordinates both differ from the point's by at most one, without
/// the point itself.
pub fn get_adjacent_points(point: &Point, size: &usize) -> (points: Vec<Point>)
    ensures
        forall|q: Point| #[trigger] points@.contains(q) <==> neighbour(*size as nat, *point, q),
        points@.no_duplicates(),
{
    let side = *size;
    let x_from = if point.x > 0 { point.x - 1 } else { 0 };
    let y_from = if point.y > 0 { point.y - 1 } else { 0 };
    let x_to = if point.x < side && point.x + 1 < side { point.x + 2 } else { side };
    let y_to = if point.y < side && point.y + 1 < side { point.y + 2 } else { side };
    let mut points: Vec<Point> = Vec::new();
    let mut x = x_from;
    while x < x_to
        invariant
            x_from <= x,
            x_from == (if point.x > 0 { point.x - 1 } else { 0 }),
            y_from == (if point.y > 0 { point.y - 1 } else { 0 }),
            x_to == (if point.x + 2 <= side { point.x + 2 } else { side as int }),
            y_to == (if point.y + 2 <= side { point.y + 2 } else { side as int }),
            forall|q: Point| #[trigger]
                points@.contains(q) <==> neighbour(side as nat, *point, q) && q.x < x,
            points@.no_duplicates(),
        decreases x_to - x,
    {
        let mut y = y_from;
        while y < y_to
            invariant
                x_from <= x < x_to,
                y_from <= y,
                x_from == (if point.x > 0 { point.x - 1 } else { 0 }),
                y_from == (if point.y > 0 { point.y - 1 } else { 0 }),
                x_to == (if point.x + 2 <= side { point.x + 2 } else { side as int }),
                y_to == (if point.y + 2 <= side { point.y + 2 } else { side as int }),
                forall|q: Point| #[trigger]
                    points@.contains(q) <==> neighbour(side as nat, *point, q) && (q.x < x || (q.x
                        == x && q.y < y)),
                points@.no_duplicates(),
            decreases y_to - y,
        {
            let q = Point { x, y };
            if !(x == point.x && y == point.y) {
                let ghost before = points@;
                assert(!before.contains(q));
                points.push(q);
                assert forall|r: Point| #[trigger]
                    points@.contains(r) <==> neighbour(side as nat, *point, r) && (r.x < x || (r.x
                        == x && r.y < y + 1)) by {
                    lemma_seq_contains_after_push(before, q, r);
                }
            }
            y += 1;
        }
        x += 1;
    }
    points
}

} // verus!
