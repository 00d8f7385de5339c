//! The letter grid: positions, weighted cells and adjacency.

use vstd::prelude::*;

verus! {

/// A coordinate pair. It lies in the grid when both coordinates are in `0..5`.
#[derive(Clone, Copy, Debug, PartialEq, Eq, Structural)]
pub struct PositionInMatrix {
    pub x: isize,
    pub y: isize,
}

/// One cell of the grid: its letter, the points it is worth, and the factor
/// by which it multiplies the score of a word that passes through it.
#[derive(Clone, Copy, Debug, PartialEq, Eq, Structural)]
pub struct CharInMatrix {
    pub char: char,
    pub value: u16,
    pub word_multiplier: u16,
}

/// The grid, indexed by row (`y`) and then by column (`x`).
pub type Matrix = [[CharInMatrix; 5]; 5];

/// Why an operation of the engine was given up.
#[derive(Clone, Copy, Debug, PartialEq, Eq, Structural)]
pub enum EngineError {
    /// A position outside the grid reached a grid lookup.
    OutOfBounds,
    /// The dictionary could not answer a request.
    LookupUnavailable,
}

impl PositionInMatrix {
    /// Both coordinates are in `0..5`.
    pub open spec fn in_grid(self) -> bool {
        0 <= self.x < 5 && 0 <= self.y < 5
    }

    /// `other` is one king move away from `self`.
    pub open spec fn touches(self, other: PositionInMatrix) -> bool {
        &&& self != other
        &&& -1 <= other.x - self.x <= 1
        &&& -1 <= other.y - self.y <= 1
    }
}

/// The cell at a position that lies in the grid.
pub open spec fn cell_at(matrix: Matrix, position: PositionInMatrix) -> CharInMatrix
    recommends
        position.in_grid(),
{
    matrix[position.y as int][position.x as int]
}

/// The position `(dx, dy)` away from `position`, if it lies in the grid.
pub open spec fn shifted(position: PositionInMatrix, dx: int, dy: int) -> Seq<PositionInMatrix> {
    if 0 <= position.x + dx < 5 && 0 <= position.y + dy < 5 {
        seq![PositionInMatrix { x: (position.x + dx) as isize, y: (position.y + dy) as isize }]
    } else {
        Seq::empty()
    }
}

/// The neighbours of a position: the eight king moves, clockwise from the
/// upper left, without those that leave the grid.
pub open spec fn neighbors(position: PositionInMatrix) -> Seq<PositionInMatrix> {
    shifted(position, -1, -1) + shifted(position, 0, -1) + shifted(position, 1, -1) + shifted(
        position,
        1,
        0,
    ) + shifted(position, 1, 1) + shifted(position, 0, 1) + shifted(position, -1, 1) + shifted(
        position,
        -1,
        0,
    )
}

/// The path is a walk in the grid that visits no cell twice: each position
/// lies in the grid, is one king move away from the one before it, and
/// occurs once.
pub open spec fn simple_walk(path: Seq<PositionInMatrix>) -> bool {
    &&& forall|i: int| 0 <= i < path.len() ==> (#[trigger] path[i]).in_grid()
    &&& forall|i: int| 0 < i < path.len() ==> path[i - 1].touches(#[trigger] path[i])
    &&& path.no_duplicates()
}

/// The points of the cells on a path, added up.
pub open spec fn path_points(matrix: Matrix, path: Seq<PositionInMatrix>) -> int
    decreases path.len(),
{
    if path.len() == 0 {
        0
    } else {
        path_points(matrix, path.drop_last()) + cell_at(matrix, path.last()).value
    }
}

/// The letters of the cells on a path.
pub open spec fn path_letters(matrix: Matrix, path: Seq<PositionInMatrix>) -> Seq<char> {
    path.map_values(|position: PositionInMatrix| cell_at(matrix, position).char)
}

/// Looks a cell up. A position outside the grid is refused.
pub fn find_char_in_matrix<'a>(matrix: &'a Matrix, position: &PositionInMatrix) -> (found: Result<
    &'a CharInMatrix,
    EngineError,
>)
    ensures
        position.in_grid() ==> found == Ok::<&CharInMatrix, EngineError>(
            &cell_at(*matrix, *position),
        ),
        !position.in_grid() ==> found == Err::<&CharInMatrix, EngineError>(
            EngineError::OutOfBounds,
        ),
{
    if position.x >= 0 && position.x < 5 && position.y >= 0 && position.y < 5 {
        let row: usize = position.y as usize;
        let column: usize = position.x as usize;
        Ok(&matrix[row][column])
    } else {
        Err(EngineError::OutOfBounds)
    }
}

/// Appends the position `(dx, dy)` away from `position` if it lies in the grid.
fn push_shifted(found: &mut Vec<PositionInMatrix>, position: PositionInMatrix, dx: isize, dy: isize)
    requires
        -1 <= dx <= 1,
        -1 <= dy <= 1,
    ensures
        final(found)@ == old(found)@ + shifted(position, dx as int, dy as int),
{
    if position.x >= -1 && position.x <= 5 && position.y >= -1 && position.y <= 5 {
        let x: isize = position.x + dx;
        let y: isize = position.y + dy;
        if x >= 0 && y >= 0 && x < 5 && y < 5 {
            found.push(PositionInMatrix { x, y });
            assert(final(found)@ =~= old(found)@ + shifted(position, dx as int, dy as int));
            return ;
        }
    }
    assert(final(found)@ =~= old(found)@ + shifted(position, dx as int, dy as int));
}

/// The in-grid neighbours of a position, always in the same order.
pub fn find_neighbor(position: PositionInMatrix) -> (found: Vec<PositionInMatrix>)
    ensures
        found@ == neighbors(position),
{
    let mut found: Vec<PositionInMatrix> = Vec::new();
    push_shifted(&mut found, position, -1, -1);
    push_shifted(&mut found, position, 0, -1);
    push_shifted(&mut found, position, 1, -1);
    push_shifted(&mut found, position, 1, 0);
    push_shifted(&mut found, position, 1, 1);
    push_shifted(&mut found, position, 0, 1);
    push_shifted(&mut found, position, -1, 1);
    push_shifted(&mut found, position, -1, 0);
    assert(found@ =~= neighbors(position));
    found
}

/// `other` lies in the grid, `(dx, dy)` away from `position`.
spec fn is_shift(position: PositionInMatrix, other: PositionInMatrix, dx: int, dy: int) -> bool {
    other.in_grid() && other.x == position.x + dx && other.y == position.y + dy
}

/// What appending one shifted position does to membership and distinctness.
proof fn lemma_append_shifted(
    before: Seq<PositionInMatrix>,
    position: PositionInMatrix,
    dx: int,
    dy: int,
)
    ensures
        forall|other: PositionInMatrix| #[trigger]
            (before + shifted(position, dx, dy)).contains(other) <==> before.contains(other)
                || is_shift(position, other, dx, dy),
        (before + shifted(position, dx, dy)).len() <= before.len() + 1,
        before.no_duplicates() && (forall|other: PositionInMatrix| #[trigger]
            before.contains(other) ==> !is_shift(position, other, dx, dy)) ==> (before + shifted(
            position,
            dx,
            dy,
        )).no_duplicates(),
{
    let extra = shifted(position, dx, dy);
    let after = before + extra;
    assert forall|other: PositionInMatrix| #[trigger]
        after.contains(other) <==> before.contains(other) || is_shift(
            position,
            other,
            dx,
            dy,
        ) by {
        if after.contains(other) {
            let i = choose|i: int| 0 <= i < after.len() && after[i] == other;
            if i < before.len() {
                assert(before[i] == other);
            } else {
                assert(extra[i - before.len()] == other);
            }
        }
        if before.contains(other) {
            let i = choose|i: int| 0 <= i < before.len() && before[i] == other;
            assert(after[i] == other);
        }
        if is_shift(position, other, dx, dy) {
            assert(extra[0] == other);
            assert(after[before.len() as int] == other);
        }
    }
    if before.no_duplicates() && (forall|other: PositionInMatrix| #[trigger]
        before.contains(other) ==> !is_shift(position, other, dx, dy)) {
        assert forall|i: int, j: int| 0 <= i < after.len() && 0 <= j < after.len() && i != j implies after[i] != after[j] by {
            if i < before.len() && j < before.len() {
                assert(before[i] != before[j]);
            } else if i < before.len() {
                assert(before.contains(before[i]));
                assert(is_shift(position, extra[0], dx, dy));
            } else if j < before.len() {
                assert(before.contains(before[j]));
                assert(is_shift(position, extra[0], dx, dy));
            }
        }
    }
}

/// A position is a neighbour of `position` exactly if it lies in the grid and
/// is one king move away; no neighbour is listed twice.
pub proof fn lemma_neighbors_are_king_moves(position: PositionInMatrix)
    ensures
        forall|other: PositionInMatrix| #[trigger]
            neighbors(position).contains(other) <==> other.in_grid() && position.touches(other),
        neighbors(position).no_duplicates(),
        neighbors(position).len() <= 8,
{
    let a = shifted(position, -1, -1);
    let b = a + shifted(position, 0, -1);
    let c = b + shifted(position, 1, -1);
    let d = c + shifted(position, 1, 0);
    let e = d + shifted(position, 1, 1);
    let f = e + shifted(position, 0, 1);
    let g = f + shifted(position, -1, 1);
    let h = g + shifted(position, -1, 0);
    assert(Seq::<PositionInMatrix>::empty() + shifted(position, -1, -1) =~= a);
    lemma_append_shifted(Seq::empty(), position, -1, -1);
    lemma_append_shifted(a, position, 0, -1);
    lemma_append_shifted(b, position, 1, -1);
    lemma_append_shifted(c, position, 1, 0);
    lemma_append_shifted(d, position, 1, 1);
    lemma_append_shifted(e, position, 0, 1);
    lemma_append_shifted(f, position, -1, 1);
    lemma_append_shifted(g, position, -1, 0);
    assert(a.no_duplicates());
    assert(b.no_duplicates());
    assert(c.no_duplicates());
    assert(d.no_duplicates());
    assert(e.no_duplicates());
    assert(f.no_duplicates());
    assert(g.no_duplicates());
    assert(h.no_duplicates());
    assert(h == neighbors(position));
    assert forall|other: PositionInMatrix| #[trigger]
        h.contains(other) <==> other.in_grid() && position.touches(other) by {
        assert(!Seq::<PositionInMatrix>::empty().contains(other));
    }
}

/// The cell with the given number, counting row by row.
pub open spec fn nth_cell(number: int) -> PositionInMatrix {
    PositionInMatrix { x: (number % 5) as isize, y: (number / 5) as isize }
}

/// How many of the first `cells` cells are not on the path.
pub open spec fn unvisited_among(seen: Seq<PositionInMatrix>, cells: nat) -> nat
    decreases cells,
{
    if cells == 0 {
        0
    } else {
        let before = unvisited_among(seen, (cells - 1) as nat);
        if seen.contains(nth_cell(cells - 1)) {
            before
        } else {
            before + 1
        }
    }
}

/// How many cells of the grid are not on the path.
pub open spec fn unvisited(seen: Seq<PositionInMatrix>) -> nat {
    unvisited_among(seen, 25)
}

/// One more cell on the path leaves one cell fewer unvisited.
pub proof fn lemma_unvisited_among(
    seen: Seq<PositionInMatrix>,
    position: PositionInMatrix,
    cells: nat,
)
    requires
        position.in_grid(),
        !seen.contains(position),
        cells <= 25,
    ensures
        unvisited_among(seen.push(position), cells) + (if position.y * 5 + position.x < cells {
            1int
        } else {
            0int
        }) == unvisited_among(seen, cells),
    decreases cells,
{
    if cells > 0 {
        lemma_unvisited_among(seen, position, (cells - 1) as nat);
        let cell = nth_cell(cells - 1);
        let longer = seen.push(position);
        if cell == position {
            assert(longer[seen.len() as int] == cell);
        } else {
            if seen.contains(cell) {
                let i = choose|i: int| 0 <= i < seen.len() && seen[i] == cell;
                assert(longer[i] == cell);
            }
            if longer.contains(cell) {
                let i = choose|i: int| 0 <= i < longer.len() && longer[i] == cell;
                assert(seen[i] == cell);
            }
        }
    }
}

/// With no cell on the path, every cell is unvisited.
proof fn lemma_unvisited_of_none(cells: nat)
    ensures
        unvisited_among(Seq::empty(), cells) == cells,
    decreases cells,
{
    if cells > 0 {
        lemma_unvisited_of_none((cells - 1) as nat);
    }
}

/// A walk that visits no cell twice has at most as many cells as the grid.
pub proof fn lemma_simple_walk_is_short(path: Seq<PositionInMatrix>)
    requires
        simple_walk(path),
    ensures
        path.len() + unvisited(path) == 25,
        path.len() <= 25,
    decreases path.len(),
{
    if path.len() == 0 {
        assert(path =~= Seq::empty());
        lemma_unvisited_of_none(25);
    } else {
        let before = path.drop_last();
        assert(simple_walk(before)) by {
            assert forall|i: int| 0 < i < before.len() implies before[i - 1].touches(
                #[trigger] before[i],
            ) by {
                assert(path[i - 1].touches(path[i]));
            }
        }
        lemma_simple_walk_is_short(before);
        assert(!before.contains(path.last())) by {
            if before.contains(path.last()) {
                let i = choose|i: int| 0 <= i < before.len() && before[i] == path.last();
                assert(path[i] == path[path.len() - 1]);
            }
        }
        lemma_unvisited_among(before, path.last(), 25);
        assert(before.push(path.last()) =~= path);
    }
}

/// A walk that visits no cell twice can go on to a neighbour that it has not
/// visited.
pub proof fn lemma_simple_walk_push(seen: Seq<PositionInMatrix>, position: PositionInMatrix)
    requires
        simple_walk(seen),
        seen.len() > 0,
        position.in_grid(),
        seen.last().touches(position),
        !seen.contains(position),
    ensures
        simple_walk(seen.push(position)),
{
    let longer = seen.push(position);
    assert forall|i: int, j: int| 0 <= i < longer.len() && 0 <= j < longer.len() && i != j implies longer[i] != longer[j] by {
        if i < seen.len() {
            assert(seen.contains(seen[i]));
        }
        if j < seen.len() {
            assert(seen.contains(seen[j]));
        }
    }
    assert forall|i: int| 0 < i < longer.len() implies longer[i - 1].touches(
        #[trigger] longer[i],
    ) by {
        if i < seen.len() {
            assert(seen[i - 1].touches(seen[i]));
        }
    }
}

/// The beginning of a walk that visits no cell twice is such a walk.
pub proof fn lemma_simple_walk_take(seen: Seq<PositionInMatrix>, length: int)
    requires
        simple_walk(seen),
        0 <= length <= seen.len(),
    ensures
        simple_walk(seen.take(length)),
{
    let shorter = seen.take(length);
    assert forall|i: int| 0 < i < shorter.len() implies shorter[i - 1].touches(
        #[trigger] shorter[i],
    ) by {
        assert(seen[i - 1].touches(seen[i]));
    }
}

} // verus!
