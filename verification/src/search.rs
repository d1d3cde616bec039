use vstd::prelude::*;
use vstd::string::*;
use vstd::seq_lib::lemma_seq_contains_after_push;
use crate::board::{
    adjacent, get_adjacent_points, get_letter, lemma_cell_index, neighbour, on_board, Board, Point,
};
use crate::dictionary::{is_prefix_of, prefix_set, uses_only};
use crate::wordset::WordSet;

verus! {

/// A walk over the board in progress: the cells it has visited, in order,
/// and the symbols gathered so far.
#[derive(Debug)]
pub struct Path {
    pub points: Vec<Point>,
    pub string: String,
}

impl Clone for Path {
    fn clone(&self) -> (copy: Self)
        ensures
            copy.points@ == self.points@,
            copy.string@ == self.string@,
    {
        Path { points: self.points.clone(), string: self.string.clone() }
    }
}

impl Path {
    /// Whether the path is a walk over `board` together with the symbols on
    /// its cells.
    pub open spec fn follows(&self, board: &Board) -> bool {
        is_trace(board, self.points@) && self.string@ == spelled(board, self.points@)
    }
}

/// The symbols on the cells `points`, in that order.
pub open spec fn spelled(board: &Board, points: Seq<Point>) -> Seq<char> {
    Seq::new(points.len(), |i: int| board.symbol_at(points[i]))
}

/// Whether the cell after position `i` of `points` touches the cell at `i`.
pub open spec fn step(points: Seq<Point>, i: int) -> bool {
    adjacent(points[i], points[i + 1])
}

/// Whether `points` is a walk over the board: at least one cell, each on
/// the board, none twice, each after the first touching the one before it.
pub open spec fn is_trace(board: &Board, points: Seq<Point>) -> bool {
    &&& points.len() >= 1
    &&& forall|i: int| 0 <= i < points.len() ==> on_board(board.side(), #[trigger] points[i])
    &&& forall|i: int, j: int| 0 <= i < j < points.len() ==> points[i] != points[j]
    &&& forall|i: int| 0 <= i < points.len() - 1 ==> #[trigger] step(points, i)
}

/// Whether some walk over the board spells `word`.
pub open spec fn traceable(board: &Board, word: Seq<char>) -> bool {
    exists|points: Seq<Point>| is_trace(board, points) && spelled(board, points) == word
}

/// The words of `words` that some walk over the board spells.
pub open spec fn traced_words(board: &Board, words: Set<Seq<char>>) -> Set<Seq<char>> {
    Set::new(|w: Seq<char>| words.contains(w) && traceable(board, w))
}

/// Whether `ext` carries a walk that has visited `visited` further: its
/// cells lie on the board, none was visited and none comes twice, the first
/// touches the last visited cell, and each of the others touches the one
/// before it.
pub open spec fn continues(board: &Board, visited: Seq<Point>, ext: Seq<Point>) -> bool {
    &&& visited.len() >= 1
    &&& ext.len() >= 1
    &&& forall|i: int|
        0 <= i < ext.len() ==> on_board(board.side(), #[trigger] ext[i]) && !visited.contains(
            ext[i],
        )
    &&& forall|i: int, j: int| 0 <= i < j < ext.len() ==> ext[i] != ext[j]
    &&& adjacent(visited.last(), ext[0])
    &&& forall|i: int| 0 <= i < ext.len() - 1 ==> #[trigger] step(ext, i)
}

/// Whether the search follows `ext` to its end: after each of its cells,
/// what has been gathered is in `prefixes`.
pub open spec fn survives(
    board: &Board,
    stem: Seq<char>,
    ext: Seq<Point>,
    prefixes: Set<Seq<char>>,
) -> bool {
    forall|k: int|
        1 <= k <= ext.len() ==> prefixes.contains(stem + #[trigger] spelled(board, ext.take(k)))
}

/// Whether the search from a walk over `visited` that has gathered `stem`
/// finds `word` at the end of `ext`.
pub open spec fn reaches(
    board: &Board,
    visited: Seq<Point>,
    stem: Seq<char>,
    words: Set<Seq<char>>,
    prefixes: Set<Seq<char>>,
    ext: Seq<Point>,
    word: Seq<char>,
) -> bool {
    &&& continues(board, visited, ext)
    &&& survives(board, stem, ext, prefixes)
    &&& word == stem + spelled(board, ext)
    &&& words.contains(word)
}

/// The words that the search finds from a walk over `visited` that has
/// gathered `stem`: the words of `words` that some way of carrying the walk
/// further ends on, where pruning by `prefixes` lets the search go that way.
pub open spec fn reached(
    board: &Board,
    visited: Seq<Point>,
    stem: Seq<char>,
    words: Set<Seq<char>>,
    prefixes: Set<Seq<char>>,
) -> Set<Seq<char>> {
    Set::new(
        |w: Seq<char>| exists|ext: Seq<Point>| reaches(board, visited, stem, words, prefixes, ext, w),
    )
}

/// What the search finds by stepping from a walk over `visited` to `q`:
/// nothing if `q` was visited or pruning stops the step, else the gathered
/// string if it is a word, and all that is reached from the longer walk.
pub open spec fn branch(
    board: &Board,
    visited: Seq<Point>,
    stem: Seq<char>,
    words: Set<Seq<char>>,
    prefixes: Set<Seq<char>>,
    q: Point,
) -> Set<Seq<char>> {
    let longer = stem.push(board.symbol_at(q));
    if visited.contains(q) || !prefixes.contains(longer) {
        Set::empty()
    } else if words.contains(longer) {
        reached(board, visited.push(q), longer, words, prefixes).insert(longer)
    } else {
        reached(board, visited.push(q), longer, words, prefixes)
    }
}

/// The words that the search finds when it starts on cell `p` alone.
pub open spec fn found_from(
    board: &Board,
    words: Set<Seq<char>>,
    prefixes: Set<Seq<char>>,
    p: Point,
) -> Set<Seq<char>> {
    reached(board, seq![p], seq![board.symbol_at(p)], words, prefixes)
}

/// The words that the search finds on `board`, from whatever cell.
pub open spec fn found(board: &Board, words: Set<Seq<char>>, prefixes: Set<Seq<char>>) -> Set<
    Seq<char>,
> {
    Set::new(
        |w: Seq<char>|
            exists|p: Point|
                on_board(board.side(), p) && #[trigger] found_from(board, words, prefixes, p).contains(
                    w,
                ),
    )
}

/// The number of cells `(x, y)` with `x < n` that are not in `visited`.
pub open spec fn free_in_row(visited: Seq<Point>, y: nat, n: nat) -> nat
    decreases n,
{
    if n == 0 {
        0
    } else {
        free_in_row(visited, y, (n - 1) as nat) + if visited.contains(
            Point { x: (n - 1) as usize, y: y as usize },
        ) {
            0nat
        } else {
            1nat
        }
    }
}

/// The number of cells in the first `m` rows of a grid of side `side` that
/// are not in `visited`.
pub open spec fn free_in_rows(side: nat, visited: Seq<Point>, m: nat) -> nat
    decreases m,
{
    if m == 0 {
        0
    } else {
        free_in_rows(side, visited, (m - 1) as nat) + free_in_row(visited, (m - 1) as nat, side)
    }
}

/// The number of cells of a grid of side `side` that are not in `visited`.
pub open spec fn free_cells(side: nat, visited: Seq<Point>) -> nat {
    free_in_rows(side, visited, side)
}

/// Visiting one more cell frees none in a row, and takes one where the cell
/// is new and in the part of the row that is counted.
proof fn lemma_free_in_row_shrinks(visited: Seq<Point>, q: Point, y: nat, n: nat)
    requires
        n <= usize::MAX,
        y <= usize::MAX,
    ensures
        free_in_row(visited.push(q), y, n) <= free_in_row(visited, y, n),
        q.y == y && q.x < n && !visited.contains(q) ==> free_in_row(visited.push(q), y, n)
            < free_in_row(visited, y, n),
    decreases n,
{
    if n > 0 {
        lemma_free_in_row_shrinks(visited, q, y, (n - 1) as nat);
        let cell = Point { x: (n - 1) as usize, y: y as usize };
        lemma_seq_contains_after_push(visited, q, cell);
    }
}

/// Visiting one more cell frees none, and takes one where the cell is new
/// and in the rows that are counted.
proof fn lemma_free_in_rows_shrinks(side: nat, visited: Seq<Point>, q: Point, m: nat)
    requires
        side <= usize::MAX,
        m <= usize::MAX,
    ensures
        free_in_rows(side, visited.push(q), m) <= free_in_rows(side, visited, m),
        q.y < m && q.x < side && !visited.contains(q) ==> free_in_rows(side, visited.push(q), m)
            < free_in_rows(side, visited, m),
    decreases m,
{
    if m > 0 {
        lemma_free_in_rows_shrinks(side, visited, q, (m - 1) as nat);
        lemma_free_in_row_shrinks(visited, q, (m - 1) as nat, side);
    }
}

/// With no cell visited, all of a row is free.
proof fn lemma_free_in_row_unvisited(y: nat, n: nat)
    ensures
        free_in_row(Seq::empty(), y, n) == n,
    decreases n,
{
    if n > 0 {
        lemma_free_in_row_unvisited(y, (n - 1) as nat);
    }
}

/// With no cell visited, all of the rows are free.
proof fn lemma_free_in_rows_unvisited(side: nat, m: nat)
    ensures
        free_in_rows(side, Seq::empty(), m) == m * side,
    decreases m,
{
    if m == 0 {
        assert(0 * side == 0) by (nonlinear_arith);
    } else {
        lemma_free_in_rows_unvisited(side, (m - 1) as nat);
        lemma_free_in_row_unvisited((m - 1) as nat, side);
        assert(m * side == (m - 1) * side + side) by (nonlinear_arith);
    }
}

/// Distinct cells of the board, and the cells that they leave free, are
/// together no more than the board has.
proof fn lemma_distinct_cells_take_room(side: nat, points: Seq<Point>)
    requires
        side <= usize::MAX,
        forall|i: int| 0 <= i < points.len() ==> on_board(side, #[trigger] points[i]),
        forall|i: int, j: int| 0 <= i < j < points.len() ==> points[i] != points[j],
    ensures
        points.len() + free_cells(side, points) <= side * side,
    decreases points.len(),
{
    if points.len() == 0 {
        assert(points =~= Seq::<Point>::empty());
        lemma_free_in_rows_unvisited(side, side);
    } else {
        let head = points.drop_last();
        let q = points.last();
        lemma_distinct_cells_take_room(side, head);
        assert(!head.contains(q)) by {
            if head.contains(q) {
                let i = choose|i: int| 0 <= i < head.len() && head[i] == q;
                assert(points[i] == points[points.len() - 1]);
            }
        }
        assert(head.push(q) =~= points);
        lemma_free_in_rows_shrinks(side, head, q, side);
    }
}

/// The symbols of a walk are the first cell's symbol and the symbols of the
/// rest.
proof fn lemma_spelled_cons(board: &Board, q: Point, rest: Seq<Point>)
    ensures
        spelled(board, seq![q] + rest) == seq![board.symbol_at(q)] + spelled(board, rest),
{
    assert(spelled(board, seq![q] + rest) =~= seq![board.symbol_at(q)] + spelled(board, rest));
}

/// A walk of one cell spells that cell's symbol.
proof fn lemma_spelled_one(board: &Board, q: Point)
    ensures
        spelled(board, seq![q]) == seq![board.symbol_at(q)],
{
}

/// Whatever a step to a neighbour finds, the search from the walk finds.
proof fn lemma_branch_is_reached(
    board: &Board,
    visited: Seq<Point>,
    stem: Seq<char>,
    words: Set<Seq<char>>,
    prefixes: Set<Seq<char>>,
    q: Point,
    w: Seq<char>,
)
    requires
        visited.len() >= 1,
        neighbour(board.side(), visited.last(), q),
        branch(board, visited, stem, words, prefixes, q).contains(w),
    ensures
        reached(board, visited, stem, words, prefixes).contains(w),
{
    let c = board.symbol_at(q);
    let longer = stem.push(c);
    let further = reached(board, visited.push(q), longer, words, prefixes);
    if further.contains(w) {
        let rest = choose|rest: Seq<Point>|
            reaches(board, visited.push(q), longer, words, prefixes, rest, w);
        let ext = seq![q] + rest;
        assert forall|i: int| 0 <= i < ext.len() implies on_board(board.side(), #[trigger] ext[i])
            && !visited.contains(ext[i]) by {
            if i > 0 {
                assert(ext[i] == rest[i - 1]);
                lemma_seq_contains_after_push(visited, q, rest[i - 1]);
            }
        }
        assert forall|i: int, j: int| 0 <= i < j < ext.len() implies ext[i] != ext[j] by {
            assert(ext[j] == rest[j - 1]);
            lemma_seq_contains_after_push(visited, q, rest[j - 1]);
            if i > 0 {
                assert(ext[i] == rest[i - 1]);
            }
        }
        assert forall|i: int| 0 <= i < ext.len() - 1 implies #[trigger] step(ext, i) by {
            if i == 0 {
                assert(ext[1] == rest[0]);
                assert(visited.push(q).last() == q);
            } else {
                assert(step(rest, i - 1));
                assert(ext[i] == rest[i - 1]);
                assert(ext[i + 1] == rest[i]);
            }
        }
        assert(continues(board, visited, ext));
        assert forall|k: int| 1 <= k <= ext.len() implies prefixes.contains(
            stem + #[trigger] spelled(board, ext.take(k)),
        ) by {
            assert(ext.take(k) =~= seq![q] + rest.take(k - 1));
            lemma_spelled_cons(board, q, rest.take(k - 1));
            assert(stem + (seq![c] + spelled(board, rest.take(k - 1))) =~= longer + spelled(
                board,
                rest.take(k - 1),
            ));
            if k == 1 {
                assert(rest.take(0) =~= Seq::<Point>::empty());
                assert(spelled(board, rest.take(0)) =~= Seq::<char>::empty());
                assert(longer + spelled(board, rest.take(0)) =~= longer);
            }
        }
        lemma_spelled_cons(board, q, rest);
        assert(stem + (seq![c] + spelled(board, rest)) =~= longer + spelled(board, rest));
        assert(reaches(board, visited, stem, words, prefixes, ext, w));
    } else {
        assert(w == longer && words.contains(longer));
        let ext = seq![q];
        lemma_spelled_one(board, q);
        assert(stem + seq![c] =~= longer);
        assert forall|k: int| 1 <= k <= ext.len() implies prefixes.contains(
            stem + #[trigger] spelled(board, ext.take(k)),
        ) by {
            assert(ext.take(k) =~= ext);
        }
        assert(reaches(board, visited, stem, words, prefixes, ext, w));
    }
}

/// Whatever the search from a walk finds, it finds by a step to some
/// neighbour of the walk's last cell.
proof fn lemma_reached_is_branch(
    board: &Board,
    visited: Seq<Point>,
    stem: Seq<char>,
    words: Set<Seq<char>>,
    prefixes: Set<Seq<char>>,
    w: Seq<char>,
) -> (q: Point)
    requires
        reached(board, visited, stem, words, prefixes).contains(w),
    ensures
        neighbour(board.side(), visited.last(), q),
        branch(board, visited, stem, words, prefixes, q).contains(w),
{
    let ext = choose|ext: Seq<Point>| reaches(board, visited, stem, words, prefixes, ext, w);
    let q = ext[0];
    let c = board.symbol_at(q);
    let longer = stem.push(c);
    let rest = ext.skip(1);
    assert(ext =~= seq![q] + rest);
    assert(ext.take(1) =~= seq![q]);
    lemma_spelled_one(board, q);
    assert(stem + seq![c] =~= longer);
    lemma_spelled_cons(board, q, rest);
    assert(stem + (seq![c] + spelled(board, rest)) =~= longer + spelled(board, rest));
    if ext.len() == 1 {
        assert(rest =~= Seq::<Point>::empty());
        assert(spelled(board, rest) =~= Seq::<char>::empty());
        assert(longer + spelled(board, rest) =~= longer);
    } else {
        assert forall|i: int| 0 <= i < rest.len() implies on_board(
            board.side(),
            #[trigger] rest[i],
        ) && !visited.push(q).contains(rest[i]) by {
            assert(rest[i] == ext[i + 1]);
            lemma_seq_contains_after_push(visited, q, rest[i]);
        }
        assert forall|i: int, j: int| 0 <= i < j < rest.len() implies rest[i] != rest[j] by {
            assert(rest[i] == ext[i + 1] && rest[j] == ext[j + 1]);
        }
        assert(step(ext, 0));
        assert(visited.push(q).last() == q);
        assert forall|i: int| 0 <= i < rest.len() - 1 implies #[trigger] step(rest, i) by {
            assert(step(ext, i + 1));
            assert(rest[i] == ext[i + 1] && rest[i + 1] == ext[i + 2]);
        }
        assert(continues(board, visited.push(q), rest));
        assert forall|k: int| 1 <= k <= rest.len() implies prefixes.contains(
            longer + #[trigger] spelled(board, rest.take(k)),
        ) by {
            assert(ext.take(k + 1) =~= seq![q] + rest.take(k));
            lemma_spelled_cons(board, q, rest.take(k));
            assert(stem + (seq![c] + spelled(board, rest.take(k))) =~= longer + spelled(
                board,
                rest.take(k),
            ));
            assert(prefixes.contains(stem + spelled(board, ext.take(k + 1))));
        }
        assert(reaches(board, visited.push(q), longer, words, prefixes, rest, w));
    }
    q
}

/// Whether `q` is one of `points`.
pub fn contains_point(points: &Vec<Point>, q: Point) -> (found: bool)
    ensures
        found == points@.contains(q),
{
    let mut i: usize = 0;
    while i < points.len()
        invariant
            i <= points.len(),
            !points@.take(i as int).contains(q),
        decreases points.len() - i,
    {
        if points[i] == q {
            return true;
        }
        i += 1;
    }
    assert(points@.take(i as int) == points@);
    false
}

/// Carries the search on from `path`: steps to each cell that touches the
/// last cell of `path` and is not on it, gives the step up where the longer
/// string is not in `prefixes`, records the longer string in `results`
/// where it is in `words`, and goes on from the longer path in the same way.
pub fn continue_path(
    path: Path,
    board: &Board,
    words: &WordSet,
    prefixes: &WordSet,
    results: &mut WordSet,
)
    requires
        path.points.len() >= 1,
        words.wf(),
        prefixes.wf(),
        old(results).wf(),
    ensures
        final(results).wf(),
        final(results)@ == old(results)@.union(
            reached(board, path.points@, path.string@, words@, prefixes@),
        ),
    decreases free_cells(board.side(), path.points@),
{
    let ghost visited = path.points@;
    let ghost stem = path.string@;
    let ghost start = results@;
    let size = board.size();
    let last = path.points[path.points.len() - 1];
    let around = get_adjacent_points(&last, &size);
    let mut i: usize = 0;
    while i < around.len()
        invariant
            i <= around.len(),
            visited == path.points@,
            stem == path.string@,
            visited.len() >= 1,
            last == visited.last(),
            size == board.side(),
            forall|q: Point| #[trigger] around@.contains(q) <==> neighbour(size as nat, last, q),
            words.wf(),
            prefixes.wf(),
            results.wf(),
            forall|w: Seq<char>| #[trigger]
                results@.contains(w) <==> start.contains(w) || exists|j: int|
                    0 <= j < i && #[trigger] branch(
                        board,
                        visited,
                        stem,
                        words@,
                        prefixes@,
                        around@[j],
                    ).contains(w),
        decreases around.len() - i,
    {
        let q = around[i];
        let ghost before = results@;
        let ghost longer = stem.push(board.symbol_at(q));
        assert(around@.contains(q));
        if !contains_point(&path.points, q) {
            let mut new_path = path.clone();
            new_path.string.append(get_letter(&q, board).as_str());
            assert(new_path.string@ == longer);
            if prefixes.contains(new_path.string.as_str()) {
                new_path.points.push(q);
                if words.contains(new_path.string.as_str()) {
                    results.insert(new_path.string.clone());
                }
                proof {
                    lemma_free_in_rows_shrinks(board.side(), visited, q, board.side());
                }
                continue_path(new_path, board, words, prefixes, results);
            }
        }
        proof {
            let step_finds = branch(board, visited, stem, words@, prefixes@, q);
            assert(results@ == before.union(step_finds));
        }
        i += 1;
    }
    proof {
        let all = reached(board, visited, stem, words@, prefixes@);
        assert forall|w: Seq<char>| results@.contains(w) <==> start.union(all).contains(w) by {
            if results@.contains(w) && !start.contains(w) {
                let j = choose|j: int|
                    0 <= j < i && #[trigger] branch(
                        board,
                        visited,
                        stem,
                        words@,
                        prefixes@,
                        around@[j],
                    ).contains(w);
                assert(around@.contains(around@[j]));
                lemma_branch_is_reached(board, visited, stem, words@, prefixes@, around@[j], w);
            }
            if all.contains(w) {
                let q = lemma_reached_is_branch(board, visited, stem, words@, prefixes@, w);
                assert(around@.contains(q));
                let j = choose|j: int| 0 <= j < around@.len() && around@[j] == q;
                assert(branch(board, visited, stem, words@, prefixes@, around@[j]).contains(w));
            }
        }
    }
}

/// The path that stands on `point` alone.
pub fn start_path(point: Point, board: &Board) -> (path: Path)
    requires
        on_board(board.side(), point),
    ensures
        path.points@ == seq![point],
        path.string@ == seq![board.symbol_at(point)],
        path.follows(board),
{
    let mut points: Vec<Point> = Vec::new();
    points.push(point);
    proof {
        lemma_spelled_one(board, point);
    }
    Path { points, string: get_letter(&point, board) }
}

/// Searches the whole board: starts a path on every cell and carries each
/// on as `continue_path` does.
pub fn search_board(board: &Board, words: &WordSet, prefixes: &WordSet) -> (results: WordSet)
    requires
        words.wf(),
        prefixes.wf(),
    ensures
        results.wf(),
        results@ == found(board, words@, prefixes@),
{
    let size = board.size();
    let mut results = WordSet::new();
    let mut x: usize = 0;
    while x < size
        invariant
            x <= size,
            size == board.side(),
            words.wf(),
            prefixes.wf(),
            results.wf(),
            forall|w: Seq<char>| #[trigger]
                results@.contains(w) <==> exists|p: Point|
                    on_board(size as nat, p) && p.x < x && #[trigger] found_from(
                        board,
                        words@,
                        prefixes@,
                        p,
                    ).contains(w),
        decreases size - x,
    {
        let mut y: usize = 0;
        while y < size
            invariant
                x < size,
                y <= size,
                size == board.side(),
                words.wf(),
                prefixes.wf(),
                results.wf(),
                forall|w: Seq<char>| #[trigger]
                    results@.contains(w) <==> exists|p: Point|
                        on_board(size as nat, p) && (p.x < x || (p.x == x && p.y < y))
                            && #[trigger] found_from(board, words@, prefixes@, p).contains(w),
            decreases size - y,
        {
            let point = Point { x, y };
            let ghost before = results@;
            continue_path(start_path(point, board), board, words, prefixes, &mut results);
            proof {
                assert(results@ == before.union(found_from(board, words@, prefixes@, point)));
            }
            y += 1;
        }
        x += 1;
    }
    results
}

/// What the search finds from a walk over the board, some longer walk over
/// the board spells: the walk carried further along the cells that the
/// search took.
pub proof fn lemma_reached_words_are_traced(
    board: &Board,
    visited: Seq<Point>,
    words: Set<Seq<char>>,
    prefixes: Set<Seq<char>>,
    w: Seq<char>,
)
    requires
        is_trace(board, visited),
        reached(board, visited, spelled(board, visited), words, prefixes).contains(w),
    ensures
        words.contains(w),
        traceable(board, w),
        w.len() > visited.len(),
        w.take(visited.len() as int) == spelled(board, visited),
{
    let stem = spelled(board, visited);
    let ext = choose|ext: Seq<Point>| reaches(board, visited, stem, words, prefixes, ext, w);
    let points = visited + ext;
    let n = visited.len() as int;
    assert forall|i: int| 0 <= i < points.len() - 1 implies #[trigger] step(points, i) by {
        if i < n - 1 {
            assert(step(visited, i));
            assert(points[i] == visited[i] && points[i + 1] == visited[i + 1]);
        } else if i == n - 1 {
            assert(points[i] == visited.last() && points[i + 1] == ext[0]);
        } else {
            assert(step(ext, i - n));
            assert(points[i] == ext[i - n] && points[i + 1] == ext[i - n + 1]);
        }
    }
    assert(spelled(board, points) =~= stem + spelled(board, ext));
}

/// Pruning loses nothing. Where `prefixes` holds every non-empty beginning
/// of every word, and no word is shorter than two symbols, the search finds
/// exactly the words that some walk over the board spells.
pub proof fn lemma_search_finds_traced_words(
    board: &Board,
    words: Set<Seq<char>>,
    prefixes: Set<Seq<char>>,
)
    requires
        board.wf(),
        prefixes == prefix_set(words),
        forall|w: Seq<char>| words.contains(w) ==> w.len() >= 2,
    ensures
        found(board, words, prefixes) == traced_words(board, words),
{
    assert forall|w: Seq<char>| found(board, words, prefixes).contains(w) implies traced_words(
        board,
        words,
    ).contains(w) by {
        let p = choose|p: Point|
            on_board(board.side(), p) && #[trigger] found_from(board, words, prefixes, p).contains(
                w,
            );
        lemma_spelled_one(board, p);
        lemma_reached_words_are_traced(board, seq![p], words, prefixes, w);
    }
    assert forall|w: Seq<char>| traced_words(board, words).contains(w) implies found(
        board,
        words,
        prefixes,
    ).contains(w) by {
        let points = choose|points: Seq<Point>|
            is_trace(board, points) && spelled(board, points) == w;
        let p = points[0];
        let c = board.symbol_at(p);
        let ext = points.skip(1);
        assert(points =~= seq![p] + ext);
        assert forall|i: int| 0 <= i < ext.len() implies on_board(board.side(), #[trigger] ext[i])
            && !seq![p].contains(ext[i]) by {
            assert(ext[i] == points[i + 1]);
        }
        assert forall|i: int, j: int| 0 <= i < j < ext.len() implies ext[i] != ext[j] by {
            assert(ext[i] == points[i + 1] && ext[j] == points[j + 1]);
        }
        assert(step(points, 0));
        assert forall|i: int| 0 <= i < ext.len() - 1 implies #[trigger] step(ext, i) by {
            assert(step(points, i + 1));
            assert(ext[i] == points[i + 1] && ext[i + 1] == points[i + 2]);
        }
        assert(continues(board, seq![p], ext));
        assert forall|k: int| 1 <= k <= ext.len() implies prefixes.contains(
            seq![c] + #[trigger] spelled(board, ext.take(k)),
        ) by {
            let head = seq![c] + spelled(board, ext.take(k));
            lemma_spelled_cons(board, p, ext.take(k));
            assert(points.take(k + 1) =~= seq![p] + ext.take(k));
            assert(spelled(board, points.take(k + 1)) =~= w.take(k + 1));
            assert(is_prefix_of(head, w));
        }
        lemma_spelled_cons(board, p, ext);
        assert(reaches(board, seq![p], seq![c], words, prefixes, ext, w));
        assert(found_from(board, words, prefixes, p).contains(w));
    }
}

/// A word that some walk over the board spells is made of symbols of the
/// board and has at most as many symbols as the board has cells.
pub proof fn lemma_traced_word_fits_board(board: &Board, word: Seq<char>)
    requires
        board.wf(),
        traceable(board, word),
    ensures
        uses_only(word, board.cells()),
        1 <= word.len() <= board.side() * board.side(),
{
    let points = choose|points: Seq<Point>| is_trace(board, points) && spelled(board, points) == word;
    let side = board.side();
    assert(side <= side * side) by (nonlinear_arith)
        requires
            side >= 2,
    ;
    lemma_distinct_cells_take_room(side, points);
    assert forall|i: int| 0 <= i < word.len() implies board.cells().contains(
        #[trigger] word[i],
    ) by {
        let p = points[i];
        lemma_cell_index(board.side(), p.x as nat, p.y as nat);
        assert(word[i] == board.cells()[p.y * board.side() + p.x]);
    }
}

} // verus!
