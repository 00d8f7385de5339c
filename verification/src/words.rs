//! The words of a tree, node by node, and what holds of them.
//!
//! [`walk_words`] says which words a tree holds without speaking of a
//! traversal. The walk of [`crate::walk`] finds exactly these, wherever it
//! comes to an end ([`lemma_walk_outcome`]).

use vstd::prelude::*;
use crate::grid::{cell_at, lemma_simple_walk_is_short, path_points, simple_walk, Matrix, PositionInMatrix};
use crate::tree::{routed, visits, visits_of_all, Shape, Visit, VisitKind};
use crate::walk::{emitted, entered, fresh, in_range, larger, left, popped, replay, spelled, walk_outcome, Outcome, Running, WordView};

verus! {

/// What the walk of a subtree leaves behind: the words found in it, and the
/// multiplier in effect after it.
pub ghost struct Walked {
    pub words: Seq<WordView>,
    pub multiplier: int,
}

/// `run` with another multiplier.
pub open spec fn with_multiplier(run: Running, multiplier: int) -> Running {
    Running { prefix: run.prefix, path: run.path, total: run.total, multiplier }
}

/// The walk of one subtree that is met in state `run`: the word that ends at
/// its root, if any, and then the words of its children, each met inside the
/// root.
pub open spec fn walk_node(matrix: Matrix, shape: Shape, run: Running) -> Walked
    decreases shape,
{
    let cell = cell_at(matrix, shape.leaf.pos);
    let here = emitted(cell, shape.leaf, run);
    if shape.children.len() == 0 {
        Walked { words: here, multiplier: run.multiplier }
    } else {
        let below = walk_children(matrix, shape.children, entered(cell, shape.leaf, run));
        Walked {
            words: here + below.words,
            multiplier: if cell.word_multiplier > 1 {
                1
            } else {
                below.multiplier
            },
        }
    }
}

/// The walk of several subtrees, one after the other: each is met with the
/// multiplier that the one before it left.
pub open spec fn walk_children(matrix: Matrix, shapes: Seq<Shape>, run: Running) -> Walked
    decreases shapes,
{
    if shapes.len() == 0 {
        Walked { words: Seq::empty(), multiplier: run.multiplier }
    } else {
        let first = walk_node(matrix, shapes[0], run);
        let others = walk_children(
            matrix,
            shapes.drop_first(),
            with_multiplier(run, first.multiplier),
        );
        Walked { words: first.words + others.words, multiplier: others.multiplier }
    }
}

/// The words of a tree, in the order in which a depth-first traversal meets
/// the nodes that end them.
pub open spec fn walk_words(matrix: Matrix, shape: Shape) -> Seq<WordView> {
    walk_node(matrix, shape, fresh()).words
}

/// The subtree can be walked from state `run`: each of its nodes lies in the
/// grid, and each sum of points and each score fits in 16 bits.
pub open spec fn walkable(matrix: Matrix, shape: Shape, run: Running) -> bool
    decreases shape,
{
    let cell = cell_at(matrix, shape.leaf.pos);
    &&& shape.leaf.pos.in_grid()
    &&& shape.leaf.is_word ==> {
        &&& run.total + cell.value <= u16::MAX
        &&& spelled(cell, shape.leaf, run).value <= u16::MAX
    }
    &&& shape.children.len() > 0 ==> {
        &&& run.total + cell.value <= u16::MAX
        &&& all_walkable(matrix, shape.children, entered(cell, shape.leaf, run))
    }
}

/// The subtrees can be walked one after the other from state `run`.
pub open spec fn all_walkable(matrix: Matrix, shapes: Seq<Shape>, run: Running) -> bool
    decreases shapes,
{
    shapes.len() == 0 || {
        &&& walkable(matrix, shapes[0], run)
        &&& all_walkable(
            matrix,
            shapes.drop_first(),
            with_multiplier(run, walk_node(matrix, shapes[0], run).multiplier),
        )
    }
}

/// The traversal of one subtree, followed by other visits: if the subtree
/// can be walked, its words are found and the other visits follow with the
/// multiplier it leaves; if not, the walk does not come to its end.
proof fn lemma_replay_tree(
    matrix: Matrix,
    shape: Shape,
    rest: Seq<Visit>,
    run: Running,
    words: Seq<WordView>,
)
    requires
        run.total >= 0,
    ensures
        walkable(matrix, shape, run) ==> replay(matrix, visits(shape) + rest, run, words)
            == replay(
            matrix,
            rest,
            with_multiplier(run, walk_node(matrix, shape, run).multiplier),
            words + walk_node(matrix, shape, run).words,
        ),
        !walkable(matrix, shape, run) ==> !(replay(matrix, visits(shape) + rest, run, words)
            is Done),
    decreases shape, 0int,
{
    let cell = cell_at(matrix, shape.leaf.pos);
    let pending = visits(shape) + rest;
    let here = emitted(cell, shape.leaf, run);
    if shape.children.len() == 0 {
        assert(pending[0] == Visit { kind: VisitKind::Leaf, leaf: shape.leaf });
        assert(pending.drop_first() =~= rest);
        assert(with_multiplier(run, run.multiplier) == run);
    } else {
        let begin = Visit { kind: VisitKind::Begin, leaf: shape.leaf };
        let end = Visit { kind: VisitKind::End, leaf: shape.leaf };
        let tail = seq![end] + rest;
        assert(pending[0] == begin);
        assert(pending.drop_first() =~= visits_of_all(shape.children) + tail);
        if shape.leaf.pos.in_grid() && in_range(cell, begin, run) {
            let inside = entered(cell, shape.leaf, run);
            lemma_replay_trees(matrix, shape.children, tail, inside, words + here);
            if all_walkable(matrix, shape.children, inside) {
                let below = walk_children(matrix, shape.children, inside);
                let last = with_multiplier(inside, below.multiplier);
                assert(tail[0] == end);
                assert(tail.drop_first() =~= rest);
                assert(in_range(cell, end, last));
                assert(popped(last.prefix) =~= run.prefix);
                assert(popped(last.path) =~= run.path);
                assert(left(cell, last) == with_multiplier(
                    run,
                    walk_node(matrix, shape, run).multiplier,
                ));
                assert(words + here + below.words =~= words + walk_node(matrix, shape, run).words);
            }
        }
    }
}

/// The same for the traversals of several subtrees.
proof fn lemma_replay_trees(
    matrix: Matrix,
    shapes: Seq<Shape>,
    rest: Seq<Visit>,
    run: Running,
    words: Seq<WordView>,
)
    requires
        run.total >= 0,
    ensures
        all_walkable(matrix, shapes, run) ==> replay(
            matrix,
            visits_of_all(shapes) + rest,
            run,
            words,
        ) == replay(
            matrix,
            rest,
            with_multiplier(run, walk_children(matrix, shapes, run).multiplier),
            words + walk_children(matrix, shapes, run).words,
        ),
        !all_walkable(matrix, shapes, run) ==> !(replay(
            matrix,
            visits_of_all(shapes) + rest,
            run,
            words,
        ) is Done),
    decreases shapes, 1int,
{
    if shapes.len() == 0 {
        assert(visits_of_all(shapes) + rest =~= rest);
        assert(with_multiplier(run, run.multiplier) == run);
        assert(words + Seq::<WordView>::empty() =~= words);
    } else {
        let others = shapes.drop_first();
        let tail = visits_of_all(others) + rest;
        assert(visits_of_all(shapes) + rest =~= visits(shapes[0]) + tail);
        lemma_replay_tree(matrix, shapes[0], tail, run, words);
        if walkable(matrix, shapes[0], run) {
            let first = walk_node(matrix, shapes[0], run);
            let next = with_multiplier(run, first.multiplier);
            lemma_replay_trees(matrix, others, rest, next, words + first.words);
            if all_walkable(matrix, others, next) {
                let after = walk_children(matrix, others, next);
                assert(with_multiplier(next, after.multiplier) == with_multiplier(
                    run,
                    walk_children(matrix, shapes, run).multiplier,
                ));
                assert(words + first.words + after.words =~= words + walk_children(
                    matrix,
                    shapes,
                    run,
                ).words);
            }
        }
    }
}

/// The walk of a tree comes to its end exactly if the tree can be walked,
/// and it then has found the words of the tree.
pub proof fn lemma_walk_outcome(matrix: Matrix, shape: Shape)
    ensures
        walkable(matrix, shape, fresh()) ==> walk_outcome(matrix, shape) == Outcome::Done(
            walk_words(matrix, shape),
        ),
        !walkable(matrix, shape, fresh()) ==> !(walk_outcome(matrix, shape) is Done),
{
    lemma_replay_tree(matrix, shape, Seq::empty(), fresh(), Seq::empty());
    assert(visits(shape) + Seq::<Visit>::empty() =~= visits(shape));
    assert(Seq::<WordView>::empty() + walk_words(matrix, shape) =~= walk_words(matrix, shape));
}

/// How many nodes of the tree end a word.
pub open spec fn word_ends(shape: Shape) -> nat
    decreases shape,
{
    (if shape.leaf.is_word {
        1nat
    } else {
        0nat
    }) + word_ends_in_all(shape.children)
}

/// How many nodes of the trees end a word.
pub open spec fn word_ends_in_all(shapes: Seq<Shape>) -> nat
    decreases shapes,
{
    if shapes.len() == 0 {
        0
    } else {
        word_ends(shapes[0]) + word_ends_in_all(shapes.drop_first())
    }
}

/// A subtree yields one word for each of its nodes that ends a word.
proof fn lemma_node_word_count(matrix: Matrix, shape: Shape, run: Running)
    ensures
        walk_node(matrix, shape, run).words.len() == word_ends(shape),
    decreases shape, 0int,
{
    if shape.children.len() > 0 {
        let cell = cell_at(matrix, shape.leaf.pos);
        lemma_children_word_count(matrix, shape.children, entered(cell, shape.leaf, run));
    } else {
        assert(word_ends_in_all(shape.children) == 0);
    }
}

/// The same for several subtrees.
proof fn lemma_children_word_count(matrix: Matrix, shapes: Seq<Shape>, run: Running)
    ensures
        walk_children(matrix, shapes, run).words.len() == word_ends_in_all(shapes),
    decreases shapes, 1int,
{
    if shapes.len() > 0 {
        lemma_node_word_count(matrix, shapes[0], run);
        let first = walk_node(matrix, shapes[0], run);
        lemma_children_word_count(
            matrix,
            shapes.drop_first(),
            with_multiplier(run, first.multiplier),
        );
    }
}

/// A tree has one word for each node that ends a word: words that read the
/// same on different paths are all listed.
pub proof fn lemma_one_word_per_word_end(matrix: Matrix, shape: Shape)
    ensures
        walk_words(matrix, shape).len() == word_ends(shape),
{
    lemma_node_word_count(matrix, shape, fresh());
}

/// A state that a walk can be in: as many letters as positions, the points
/// of those positions as the sum, and a multiplier of at least 1.
pub open spec fn steady(matrix: Matrix, run: Running) -> bool {
    &&& run.prefix.len() == run.path.len()
    &&& run.total == path_points(matrix, run.path)
    &&& run.multiplier >= 1
}

/// The word has as many cells as letters, and its score is at least the
/// points of its cells.
pub open spec fn covers_its_points(matrix: Matrix, word: WordView) -> bool {
    &&& word.word.len() == word.path.len()
    &&& word.value >= path_points(matrix, word.path)
}

/// From a state that a walk can be in, the word that ends at a node covers
/// its points, and the state inside the node is such a state again.
proof fn lemma_steady_inside(matrix: Matrix, shape: Shape, run: Running)
    requires
        steady(matrix, run),
    ensures
        steady(matrix, entered(cell_at(matrix, shape.leaf.pos), shape.leaf, run)),
        covers_its_points(matrix, spelled(cell_at(matrix, shape.leaf.pos), shape.leaf, run)),
{
    let cell = cell_at(matrix, shape.leaf.pos);
    let path = run.path.push(shape.leaf.pos);
    assert(path.drop_last() =~= run.path);
    lemma_points_not_negative(matrix, run.path);
    let factor = larger(cell.word_multiplier as int, run.multiplier);
    let points = run.total + cell.value;
    assert(points * factor >= points) by (nonlinear_arith)
        requires
            points >= 0,
            factor >= 1,
    ;
}

/// Points do not add up to less than nothing.
pub proof fn lemma_points_not_negative(matrix: Matrix, path: Seq<PositionInMatrix>)
    ensures
        path_points(matrix, path) >= 0,
    decreases path.len(),
{
    if path.len() > 0 {
        lemma_points_not_negative(matrix, path.drop_last());
    }
}

/// From a state that a walk can be in, every word of a subtree covers its
/// points, and the multiplier that the subtree leaves is at least 1.
proof fn lemma_node_covers(matrix: Matrix, shape: Shape, run: Running)
    requires
        steady(matrix, run),
    ensures
        walk_node(matrix, shape, run).multiplier >= 1,
        forall|i: int|
            0 <= i < walk_node(matrix, shape, run).words.len() ==> covers_its_points(
                matrix,
                #[trigger] walk_node(matrix, shape, run).words[i],
            ),
    decreases shape, 0int,
{
    lemma_steady_inside(matrix, shape, run);
    if shape.children.len() > 0 {
        let cell = cell_at(matrix, shape.leaf.pos);
        lemma_children_cover(matrix, shape.children, entered(cell, shape.leaf, run));
    }
}

/// The same for several subtrees.
proof fn lemma_children_cover(matrix: Matrix, shapes: Seq<Shape>, run: Running)
    requires
        steady(matrix, run),
    ensures
        walk_children(matrix, shapes, run).multiplier >= 1,
        forall|i: int|
            0 <= i < walk_children(matrix, shapes, run).words.len() ==> covers_its_points(
                matrix,
                #[trigger] walk_children(matrix, shapes, run).words[i],
            ),
    decreases shapes, 1int,
{
    if shapes.len() > 0 {
        lemma_node_covers(matrix, shapes[0], run);
        let first = walk_node(matrix, shapes[0], run);
        lemma_children_cover(matrix, shapes.drop_first(), with_multiplier(run, first.multiplier));
    }
}

/// Every word of a tree has as many cells as letters, and its score is at
/// least the points of its cells: no multiplier is below 1.
pub proof fn lemma_words_cover_their_points(matrix: Matrix, shape: Shape)
    ensures
        forall|i: int|
            0 <= i < walk_words(matrix, shape).len() ==> covers_its_points(
                matrix,
                #[trigger] walk_words(matrix, shape)[i],
            ),
{
    lemma_node_covers(matrix, shape, fresh());
}

/// The cells of every word of a subtree whose paths visit no cell twice
/// are such a path.
proof fn lemma_node_paths(matrix: Matrix, shape: Shape, run: Running)
    requires
        routed(shape, run.path),
    ensures
        forall|i: int|
            0 <= i < walk_node(matrix, shape, run).words.len() ==> simple_walk(
                (#[trigger] walk_node(matrix, shape, run).words[i]).path,
            ),
    decreases shape, 0int,
{
    let cell = cell_at(matrix, shape.leaf.pos);
    let here = emitted(cell, shape.leaf, run);
    let found = walk_node(matrix, shape, run).words;
    if shape.children.len() > 0 {
        let inside = entered(cell, shape.leaf, run);
        lemma_children_paths(matrix, shape.children, inside);
        let below = walk_children(matrix, shape.children, inside).words;
        assert forall|i: int| 0 <= i < found.len() implies simple_walk(
            (#[trigger] found[i]).path,
        ) by {
            if i >= here.len() {
                assert(found[i] == below[i - here.len()]);
            }
        }
    }
}

/// The same for several subtrees.
proof fn lemma_children_paths(matrix: Matrix, shapes: Seq<Shape>, run: Running)
    requires
        forall|i: int| 0 <= i < shapes.len() ==> routed(#[trigger] shapes[i], run.path),
    ensures
        forall|i: int|
            0 <= i < walk_children(matrix, shapes, run).words.len() ==> simple_walk(
                (#[trigger] walk_children(matrix, shapes, run).words[i]).path,
            ),
    decreases shapes, 1int,
{
    if shapes.len() > 0 {
        lemma_node_paths(matrix, shapes[0], run);
        let first = walk_node(matrix, shapes[0], run);
        let others = shapes.drop_first();
        assert forall|i: int| 0 <= i < others.len() implies routed(
            #[trigger] others[i],
            run.path,
        ) by {
            assert(others[i] == shapes[i + 1]);
        }
        let next = with_multiplier(run, first.multiplier);
        lemma_children_paths(matrix, others, next);
        let after = walk_children(matrix, others, next).words;
        let found = walk_children(matrix, shapes, run).words;
        assert forall|i: int| 0 <= i < found.len() implies simple_walk(
            (#[trigger] found[i]).path,
        ) by {
            if i < first.words.len() {
                assert(found[i] == first.words[i]);
            } else {
                assert(found[i] == after[i - first.words.len()]);
            }
        }
    }
}

/// In a tree whose paths from the root visit no cell twice, the cells of
/// every word are a walk in the grid that visits no cell twice.
pub proof fn lemma_words_visit_no_cell_twice(matrix: Matrix, shape: Shape)
    requires
        routed(shape, Seq::empty()),
    ensures
        forall|i: int|
            0 <= i < walk_words(matrix, shape).len() ==> simple_walk(
                (#[trigger] walk_words(matrix, shape)[i]).path,
            ),
{
    lemma_node_paths(matrix, shape, fresh());
}

/// The cells of every word of a subtree begin with the path above the
/// subtree and the cell of its root.
proof fn lemma_node_starts(matrix: Matrix, shape: Shape, run: Running)
    ensures
        forall|i: int|
            0 <= i < walk_node(matrix, shape, run).words.len() ==> run.path.push(
                shape.leaf.pos,
            ).is_prefix_of((#[trigger] walk_node(matrix, shape, run).words[i]).path),
    decreases shape, 0int,
{
    let cell = cell_at(matrix, shape.leaf.pos);
    let here = emitted(cell, shape.leaf, run);
    let found = walk_node(matrix, shape, run).words;
    let stem = run.path.push(shape.leaf.pos);
    if shape.children.len() > 0 {
        let inside = entered(cell, shape.leaf, run);
        lemma_children_start(matrix, shape.children, inside);
        let below = walk_children(matrix, shape.children, inside).words;
        assert forall|i: int| 0 <= i < found.len() implies stem.is_prefix_of(
            (#[trigger] found[i]).path,
        ) by {
            if i >= here.len() {
                assert(found[i] == below[i - here.len()]);
            }
        }
    }
}

/// The cells of every word of several subtrees begin with the path above
/// them.
proof fn lemma_children_start(matrix: Matrix, shapes: Seq<Shape>, run: Running)
    ensures
        forall|i: int|
            0 <= i < walk_children(matrix, shapes, run).words.len() ==> run.path.is_prefix_of(
                (#[trigger] walk_children(matrix, shapes, run).words[i]).path,
            ),
    decreases shapes, 1int,
{
    if shapes.len() > 0 {
        lemma_node_starts(matrix, shapes[0], run);
        let first = walk_node(matrix, shapes[0], run);
        let next = with_multiplier(run, first.multiplier);
        lemma_children_start(matrix, shapes.drop_first(), next);
        let after = walk_children(matrix, shapes.drop_first(), next).words;
        let found = walk_children(matrix, shapes, run).words;
        assert forall|i: int| 0 <= i < found.len() implies run.path.is_prefix_of(
            (#[trigger] found[i]).path,
        ) by {
            if i < first.words.len() {
                assert(found[i] == first.words[i]);
                assert(run.path.is_prefix_of(run.path.push(shapes[0].leaf.pos)));
            } else {
                assert(found[i] == after[i - first.words.len()]);
            }
        }
    }
}

/// The cells of every word of a tree begin with the cell of the root.
pub proof fn lemma_words_start_at_root(matrix: Matrix, shape: Shape)
    ensures
        forall|i: int|
            0 <= i < walk_words(matrix, shape).len() ==> {
                let word = #[trigger] walk_words(matrix, shape)[i];
                word.path.len() >= 1 && word.path[0] == shape.leaf.pos
            },
{
    lemma_node_starts(matrix, shape, fresh());
    assert forall|i: int| 0 <= i < walk_words(matrix, shape).len() implies {
        let word = #[trigger] walk_words(matrix, shape)[i];
        word.path.len() >= 1 && word.path[0] == shape.leaf.pos
    } by {
        let word = walk_words(matrix, shape)[i];
        let stem = fresh().path.push(shape.leaf.pos);
        assert(stem.is_prefix_of(word.path));
        assert(stem[0] == word.path[0]);
    }
}

/// No cell of the grid is worth more than `points`, and none multiplies by
/// more than `factor`.
pub open spec fn capped(matrix: Matrix, points: int, factor: int) -> bool {
    forall|position: PositionInMatrix| #[trigger]
        position.in_grid() ==> cell_at(matrix, position).value <= points && cell_at(
            matrix,
            position,
        ).word_multiplier <= factor
}

/// A state that a walk can be in on a path of limited points and factor.
spec fn tame(run: Running, points: int, factor: int) -> bool {
    &&& 0 <= run.total <= points * run.path.len()
    &&& 1 <= run.multiplier <= factor
}

/// On a path of limited points and factor, the sum and the score at a node
/// fit in 16 bits, and the state inside the node is limited in the same way.
proof fn lemma_tame_inside(matrix: Matrix, shape: Shape, run: Running, points: int, factor: int)
    requires
        routed(shape, run.path),
        capped(matrix, points, factor),
        tame(run, points, factor),
        25 * points * factor <= u16::MAX,
    ensures
        tame(entered(cell_at(matrix, shape.leaf.pos), shape.leaf, run), points, factor),
        run.total + cell_at(matrix, shape.leaf.pos).value <= u16::MAX,
        spelled(cell_at(matrix, shape.leaf.pos), shape.leaf, run).value <= u16::MAX,
        shape.leaf.pos.in_grid(),
{
    let cell = cell_at(matrix, shape.leaf.pos);
    let path = run.path.push(shape.leaf.pos);
    lemma_simple_walk_is_short(path);
    assert(path[path.len() - 1].in_grid());
    assert(shape.leaf.pos.in_grid());
    let length = run.path.len() as int;
    let sum = run.total + cell.value;
    let times = larger(cell.word_multiplier as int, run.multiplier);
    assert(sum <= points * (length + 1)) by (nonlinear_arith)
        requires
            run.total <= points * length,
            sum == run.total + cell.value,
            cell.value <= points,
    ;
    assert(sum * times <= 25 * points * factor) by (nonlinear_arith)
        requires
            0 <= sum <= points * (length + 1),
            length + 1 <= 25,
            1 <= times <= factor,
            0 <= points,
    ;
    assert(sum <= sum * times) by (nonlinear_arith)
        requires
            0 <= sum,
            1 <= times,
    ;
}

/// On a grid of limited points and factors, a subtree whose paths visit no
/// cell twice can be walked, and leaves a multiplier within the limit.
proof fn lemma_node_walkable(matrix: Matrix, shape: Shape, run: Running, points: int, factor: int)
    requires
        routed(shape, run.path),
        capped(matrix, points, factor),
        tame(run, points, factor),
        25 * points * factor <= u16::MAX,
    ensures
        walkable(matrix, shape, run),
        1 <= walk_node(matrix, shape, run).multiplier <= factor,
    decreases shape, 0int,
{
    lemma_tame_inside(matrix, shape, run, points, factor);
    if shape.children.len() > 0 {
        let cell = cell_at(matrix, shape.leaf.pos);
        lemma_children_walkable(
            matrix,
            shape.children,
            entered(cell, shape.leaf, run),
            points,
            factor,
        );
    }
}

/// The same for several subtrees.
proof fn lemma_children_walkable(
    matrix: Matrix,
    shapes: Seq<Shape>,
    run: Running,
    points: int,
    factor: int,
)
    requires
        forall|i: int| 0 <= i < shapes.len() ==> routed(#[trigger] shapes[i], run.path),
        capped(matrix, points, factor),
        tame(run, points, factor),
        25 * points * factor <= u16::MAX,
    ensures
        all_walkable(matrix, shapes, run),
        1 <= walk_children(matrix, shapes, run).multiplier <= factor,
    decreases shapes, 1int,
{
    if shapes.len() > 0 {
        lemma_node_walkable(matrix, shapes[0], run, points, factor);
        let first = walk_node(matrix, shapes[0], run);
        let others = shapes.drop_first();
        assert forall|i: int| 0 <= i < others.len() implies routed(
            #[trigger] others[i],
            run.path,
        ) by {
            assert(others[i] == shapes[i + 1]);
        }
        lemma_children_walkable(
            matrix,
            others,
            with_multiplier(run, first.multiplier),
            points,
            factor,
        );
    }
}

/// On a grid of limited points and factors, a tree whose paths from the
/// root visit no cell twice can be walked: a path has at most 25 cells, so
/// no score exceeds 25 times the points of a cell times the factor.
pub proof fn lemma_routed_tree_is_walkable(matrix: Matrix, shape: Shape, points: int, factor: int)
    requires
        routed(shape, Seq::empty()),
        capped(matrix, points, factor),
        factor >= 1,
        25 * points * factor <= u16::MAX,
    ensures
        walkable(matrix, shape, fresh()),
        walk_outcome(matrix, shape) == Outcome::Done(walk_words(matrix, shape)),
{
    assert(points * 0 == 0);
    lemma_node_walkable(matrix, shape, fresh(), points, factor);
    lemma_walk_outcome(matrix, shape);
}

} // verus!
