//! Reading the scored words off an exploration tree.
//!
//! The tree is traversed once, depth first. Along the way the walker keeps the
//! letters and positions of the nodes it is inside of, the points they add up
//! to, and a multiplier; each node that ends a word yields one [`Word`].

use vstd::prelude::*;
use trees::Tree;
use trees::TreeWalk;
use crate::grid::{cell_at, find_char_in_matrix, path_points, CharInMatrix, EngineError, Matrix, PositionInMatrix};
use crate::tree::{tree_shape, visits, walk_forward, walk_from, walk_get, walk_pending, CharLeaf, Shape, Visit, VisitKind};
use crate::words::{lemma_walk_outcome, lemma_words_cover_their_points, walk_words, walkable};

verus! {

/// A word found in the grid: its letters, its score, and the cells that spell
/// it, from the first letter to the last.
#[derive(Debug, PartialEq, Eq)]
pub struct Word {
    pub word: String,
    pub value: u16,
    pub path: Vec<PositionInMatrix>,
}

/// A [`Word`] as a mathematical value.
pub ghost struct WordView {
    pub word: Seq<char>,
    pub value: int,
    pub path: Seq<PositionInMatrix>,
}

impl View for Word {
    type V = WordView;

    open spec fn view(&self) -> WordView {
        WordView { word: self.word@, value: self.value as int, path: self.path@ }
    }
}

/// The views of a list of words.
pub open spec fn words_view(words: Seq<Word>) -> Seq<WordView> {
    words.map_values(|word: Word| word@)
}

/// What the walker carries while it is inside some nodes: their letters,
/// their positions, the sum of their points, and the multiplier in effect.
pub ghost struct Running {
    pub prefix: Seq<char>,
    pub path: Seq<PositionInMatrix>,
    pub total: int,
    pub multiplier: int,
}

/// The state in which a walk starts.
pub open spec fn fresh() -> Running {
    Running { prefix: Seq::empty(), path: Seq::empty(), total: 0, multiplier: 1 }
}

/// The greater of two numbers.
pub open spec fn larger(a: int, b: int) -> int {
    if a > b {
        a
    } else {
        b
    }
}

/// The word that ends at a node on `cell`, met in state `run`: the points of
/// the path including this cell, times the greater of the multiplier in
/// effect and the cell's own.
pub open spec fn spelled(cell: CharInMatrix, leaf: CharLeaf, run: Running) -> WordView {
    WordView {
        word: run.prefix.push(leaf.char),
        value: (run.total + cell.value) * larger(cell.word_multiplier as int, run.multiplier),
        path: run.path.push(leaf.pos),
    }
}

/// The words that meeting a node yields: one if the node ends a word.
pub open spec fn emitted(cell: CharInMatrix, leaf: CharLeaf, run: Running) -> Seq<WordView> {
    if leaf.is_word {
        seq![spelled(cell, leaf, run)]
    } else {
        Seq::empty()
    }
}

/// The state inside a node: its letter, position and points are added, and a
/// cell multiplier above 1 raises the multiplier in effect.
pub open spec fn entered(cell: CharInMatrix, leaf: CharLeaf, run: Running) -> Running {
    Running {
        prefix: run.prefix.push(leaf.char),
        path: run.path.push(leaf.pos),
        total: run.total + cell.value,
        multiplier: if cell.word_multiplier > 1 {
            larger(run.multiplier, cell.word_multiplier as int)
        } else {
            run.multiplier
        },
    }
}

/// `sequence` without its last item, if it has one.
pub open spec fn popped<T>(sequence: Seq<T>) -> Seq<T> {
    if sequence.len() == 0 {
        sequence
    } else {
        sequence.drop_last()
    }
}

/// The state after a node is left: its letter, position and points are taken
/// off again, and a cell multiplier above 1 resets the multiplier in effect
/// to 1, whatever it was before the node was entered.
pub open spec fn left(cell: CharInMatrix, run: Running) -> Running {
    Running {
        prefix: popped(run.prefix),
        path: popped(run.path),
        total: run.total - cell.value,
        multiplier: if cell.word_multiplier > 1 {
            1
        } else {
            run.multiplier
        },
    }
}

/// The state after a visit.
pub open spec fn after(cell: CharInMatrix, visit: Visit, run: Running) -> Running {
    match visit.kind {
        VisitKind::Begin => entered(cell, visit.leaf, run),
        VisitKind::Leaf => run,
        VisitKind::End => left(cell, run),
    }
}

/// The words that a visit yields.
pub open spec fn found(cell: CharInMatrix, visit: Visit, run: Running) -> Seq<WordView> {
    match visit.kind {
        VisitKind::Begin => emitted(cell, visit.leaf, run),
        VisitKind::Leaf => emitted(cell, visit.leaf, run),
        VisitKind::End => Seq::empty(),
    }
}

/// The numbers that a visit computes fit in 16 bits: the sum of points when
/// the node is entered or ends a word, the score of that word, and the sum
/// after the node is left.
pub open spec fn in_range(cell: CharInMatrix, visit: Visit, run: Running) -> bool {
    &&& visit.kind != VisitKind::End && visit.leaf.is_word ==> {
        &&& run.total + cell.value <= u16::MAX
        &&& spelled(cell, visit.leaf, run).value <= u16::MAX
    }
    &&& visit.kind == VisitKind::Begin ==> run.total + cell.value <= u16::MAX
    &&& visit.kind == VisitKind::End ==> run.total - cell.value >= 0
}

/// How a walk ends.
pub ghost enum Outcome {
    /// Every visit was made; these are the words, in the order found.
    Done(Seq<WordView>),
    /// A node stands on a position outside the grid.
    OutOfBounds,
    /// A sum or a score does not fit in 16 bits.
    OutOfRange,
}

/// Makes the visits in `pending` one by one, starting in state `run` with
/// `words` already found, and stops at the first that cannot be made.
pub open spec fn replay(
    matrix: Matrix,
    pending: Seq<Visit>,
    run: Running,
    words: Seq<WordView>,
) -> Outcome
    decreases pending.len(),
{
    if pending.len() == 0 {
        Outcome::Done(words)
    } else {
        let visit = pending[0];
        let cell = cell_at(matrix, visit.leaf.pos);
        if !visit.leaf.pos.in_grid() {
            Outcome::OutOfBounds
        } else if !in_range(cell, visit, run) {
            Outcome::OutOfRange
        } else {
            replay(
                matrix,
                pending.drop_first(),
                after(cell, visit, run),
                words + found(cell, visit, run),
            )
        }
    }
}

/// How the walk over a whole tree ends.
pub open spec fn walk_outcome(matrix: Matrix, shape: Shape) -> Outcome {
    replay(matrix, visits(shape), fresh(), Seq::empty())
}

/// `list` holds the words of the tree, in the order in which a depth-first
/// traversal meets the nodes that end them. Each has as many cells as
/// letters, and scores at least the points of its cells.
pub open spec fn well_listed(matrix: Matrix, shape: Shape, list: Seq<Word>) -> bool {
    &&& words_view(list) == walk_words(matrix, shape)
    &&& forall|i: int|
        0 <= i < list.len() ==> {
            let word = #[trigger] list[i];
            &&& word.word@.len() == word.path@.len()
            &&& word.value >= path_points(matrix, word.path@)
        }
}

/// Any list that holds the words of the tree is well listed.
proof fn lemma_listed(matrix: Matrix, shape: Shape)
    ensures
        forall|list: Seq<Word>|
            words_view(list) == walk_words(matrix, shape) ==> #[trigger] well_listed(
                matrix,
                shape,
                list,
            ),
{
    lemma_words_cover_their_points(matrix, shape);
    assert forall|list: Seq<Word>| words_view(list) == walk_words(matrix, shape) implies #[trigger] well_listed(
        matrix,
        shape,
        list,
    ) by {
        assert forall|i: int| 0 <= i < list.len() implies {
            let word = #[trigger] list[i];
            &&& word.word@.len() == word.path@.len()
            &&& word.value >= path_points(matrix, word.path@)
        } by {
            assert(words_view(list)[i] == list[i]@);
        }
    }
}

/// A copy of a path.
fn copy_path(path: &Vec<PositionInMatrix>) -> (copy: Vec<PositionInMatrix>)
    ensures
        copy@ == path@,
{
    let mut copy: Vec<PositionInMatrix> = Vec::new();
    let mut i: usize = 0;
    while i < path.len()
        invariant
            i <= path.len(),
            copy@ == path@.take(i as int),
        decreases path.len() - i,
    {
        copy.push(path[i]);
        assert(copy@ =~= path@.take(i as int + 1));
        i = i + 1;
    }
    assert(path@.take(path.len() as int) =~= path@);
    copy
}

/// The walker's state as held in variables.
spec fn held(
    prefix: String,
    path: Vec<PositionInMatrix>,
    current_value: u16,
    multiplier: u16,
) -> Running {
    Running {
        prefix: prefix@,
        path: path@,
        total: current_value as int,
        multiplier: multiplier as int,
    }
}

/// Adds the word that ends at this node, if the node ends a word. Gives
/// `false`, and adds nothing, if the points or the score of that word do not
/// fit in 16 bits.
fn add_if_word(
    words: &mut Vec<Word>,
    data: &CharLeaf,
    char_in_matrix: &CharInMatrix,
    path: &Vec<PositionInMatrix>,
    current_prefix: &String,
    current_value: u16,
    current_multiplier: u16,
) -> (fits: bool)
    ensures
        fits == (data.is_word ==> {
            &&& current_value + char_in_matrix.value <= u16::MAX
            &&& spelled(
                *char_in_matrix,
                *data,
                held(*current_prefix, *path, current_value, current_multiplier),
            ).value <= u16::MAX
        }),
        fits ==> words_view(final(words)@) == words_view(old(words)@) + emitted(
            *char_in_matrix,
            *data,
            held(*current_prefix, *path, current_value, current_multiplier),
        ),
{
    let ghost run = held(*current_prefix, *path, current_value, current_multiplier);
    if data.is_word {
        let points: u16 = match current_value.checked_add(char_in_matrix.value) {
            Some(points) => points,
            None => { return false; },
        };
        let factor: u16 = if char_in_matrix.word_multiplier > current_multiplier {
            char_in_matrix.word_multiplier
        } else {
            current_multiplier
        };
        let value: u16 = match points.checked_mul(factor) {
            Some(value) => value,
            None => { return false; },
        };
        let mut word_path = copy_path(path);
        word_path.push(data.pos);
        let mut word = current_prefix.clone();
        word.push(data.char);
        let entry = Word { word, value, path: word_path };
        assert(entry@ == spelled(*char_in_matrix, *data, run));
        words.push(entry);
        assert(words_view(final(words)@) =~= words_view(old(words)@) + emitted(
            *char_in_matrix,
            *data,
            run,
        ));
        true
    } else {
        assert(words_view(final(words)@) =~= words_view(old(words)@) + emitted(
            *char_in_matrix,
            *data,
            run,
        ));
        true
    }
}

/// Walks the tree and lists the words it holds, in the order in which the
/// traversal meets the nodes that end them.
///
/// `None` if a sum of points or a score does not fit in 16 bits;
/// `Some(Err(OutOfBounds))` if the traversal comes to a node outside the grid
/// before that.
pub fn walk_tree_checked(tree: Tree<CharLeaf>, matrix: &Matrix) -> (listed: Option<
    Result<Vec<Word>, EngineError>,
>)
    ensures
        match walk_outcome(*matrix, tree_shape(tree)) {
            Outcome::Done(words) => listed matches Some(Ok(list)) && words_view(list@) == words,
            Outcome::OutOfBounds => listed matches Some(Err(error)) && error
                == EngineError::OutOfBounds,
            Outcome::OutOfRange => listed is None,
        },
        listed matches Some(Ok(list)) ==> well_listed(*matrix, tree_shape(tree), list@),
        walkable(*matrix, tree_shape(tree), fresh()) <==> listed matches Some(Ok(_)),
{
    proof {
        lemma_walk_outcome(*matrix, tree_shape(tree));
        lemma_listed(*matrix, tree_shape(tree));
    }
    let mut walk: TreeWalk<CharLeaf> = walk_from(tree);
    let mut words: Vec<Word> = Vec::new();
    let mut prefix: String = String::new();
    let mut path: Vec<PositionInMatrix> = Vec::new();
    let mut current_value: u16 = 0;
    let mut multiplier: u16 = 1;
    let ghost goal = walk_outcome(*matrix, tree_shape(tree));
    assert(words_view(words@) =~= Seq::empty());
    loop
        invariant
            goal == walk_outcome(*matrix, tree_shape(tree)),
            goal is Done <==> walkable(*matrix, tree_shape(tree), fresh()),
            replay(
                *matrix,
                walk_pending(walk),
                held(prefix, path, current_value, multiplier),
                words_view(words@),
            ) == goal,
        ensures
            walk_pending(walk).len() == 0,
            goal == Outcome::Done(words_view(words@)),
        decreases walk_pending(walk).len(),
    {
        let visit: Visit = match walk_get(&walk) {
            Some(visit) => visit,
            None => { break ; },
        };
        let ghost run = held(prefix, path, current_value, multiplier);
        let data: CharLeaf = visit.leaf;
        let char_in_matrix: CharInMatrix = match find_char_in_matrix(matrix, &data.pos) {
            Ok(cell) => *cell,
            Err(error) => { return Some(Err(error)); },
        };
        match visit.kind {
            VisitKind::Begin => {
                if !add_if_word(
                    &mut words,
                    &data,
                    &char_in_matrix,
                    &path,
                    &prefix,
                    current_value,
                    multiplier,
                ) {
                    return None;
                }
                prefix.push(data.char);
                path.push(data.pos);
                if char_in_matrix.word_multiplier > 1 {
                    if char_in_matrix.word_multiplier > multiplier {
                        multiplier = char_in_matrix.word_multiplier;
                    }
                }
                current_value = match current_value.checked_add(char_in_matrix.value) {
                    Some(sum) => sum,
                    None => { return None; },
                };
            },
            VisitKind::Leaf => {
                if !add_if_word(
                    &mut words,
                    &data,
                    &char_in_matrix,
                    &path,
                    &prefix,
                    current_value,
                    multiplier,
                ) {
                    return None;
                }
            },
            VisitKind::End => {
                prefix.pop();
                path.pop();
                if char_in_matrix.word_multiplier > 1 {
                    multiplier = 1;
                }
                current_value = match current_value.checked_sub(char_in_matrix.value) {
                    Some(rest) => rest,
                    None => { return None; },
                };
                assert(path@ =~= popped(run.path));
            },
        }
        assert(held(prefix, path, current_value, multiplier) == after(char_in_matrix, visit, run));
        walk_forward(&mut walk);
    }
    Some(Ok(words))
}

/// Walks the tree and lists the words it holds, in the order in which the
/// traversal meets the nodes that end them; `Err(OutOfBounds)` if a node
/// stands outside the grid.
///
/// The sums of points and the scores must fit in 16 bits.
pub fn walk_tree(tree: Tree<CharLeaf>, matrix: &Matrix) -> (listed: Result<Vec<Word>, EngineError>)
    requires
        !(walk_outcome(*matrix, tree_shape(tree)) is OutOfRange),
    ensures
        match walk_outcome(*matrix, tree_shape(tree)) {
            Outcome::Done(words) => listed matches Ok(list) && words_view(list@) == words,
            Outcome::OutOfBounds => listed matches Err(error) && error == EngineError::OutOfBounds,
            Outcome::OutOfRange => false,
        },
        listed matches Ok(list) ==> well_listed(*matrix, tree_shape(tree), list@),
        walkable(*matrix, tree_shape(tree), fresh()) <==> listed is Ok,
{
    match walk_tree_checked(tree, matrix) {
        Some(listed) => listed,
        None => {
            proof {
                assert(false);
            }
            Err(EngineError::OutOfBounds)
        },
    }
}

} // verus!
