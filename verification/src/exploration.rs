//! The exploration tree of a starting cell, and what holds of it and of its
//! words.

use vstd::prelude::*;
use crate::construction::{admitted, admitted_among, survivors};
use crate::dictionary::{completes, offers, NextLetter};
use crate::grid::{cell_at, lemma_neighbors_are_king_moves, lemma_simple_walk_push, lemma_unvisited_among, neighbors, path_letters, simple_walk, unvisited, Matrix, PositionInMatrix};
use crate::tree::{lone, routed, CharLeaf, Shape};
use crate::walk::{entered, fresh, walk_outcome, Outcome, Running, WordView};
use crate::words::{capped, covers_its_points, lemma_routed_tree_is_walkable, lemma_words_cover_their_points, lemma_words_start_at_root, lemma_words_visit_no_cell_twice, walk_children, walk_node, walk_words, with_multiplier};

verus! {

/// A dictionary as a mathematical value: what it answers for each prefix.
pub type Dictionary = spec_fn(Seq<char>) -> Seq<NextLetter>;

/// A child of the node at the end of the path `seen` is what the rules
/// allow: it stands on a neighbour that is not on the path; it carries the
/// letter of its cell; and if the dictionary was asked, it offers that letter
/// and decides whether the child ends a word, else the child ends none.
pub open spec fn admissible(
    matrix: Matrix,
    seen: Seq<PositionInMatrix>,
    reply: Option<Seq<NextLetter>>,
    leaf: CharLeaf,
) -> bool {
    &&& neighbors(seen.last()).contains(leaf.pos)
    &&& !seen.contains(leaf.pos)
    &&& leaf.char == cell_at(matrix, leaf.pos).char
    &&& match reply {
        Some(candidates) => offers(candidates, leaf.char) && leaf.is_word == completes(
            candidates,
            leaf.char,
        ),
        None => !leaf.is_word,
    }
}

/// A leaf is among the children that some neighbours give rise to exactly
/// if its position is one of them and gives rise to it.
proof fn lemma_admitted_among(
    matrix: Matrix,
    seen: Seq<PositionInMatrix>,
    reply: Option<Seq<NextLetter>>,
    around: Seq<PositionInMatrix>,
)
    ensures
        forall|leaf: CharLeaf| #[trigger]
            admitted_among(matrix, seen, reply, around).contains(leaf) <==> around.contains(
                leaf.pos,
            ) && admitted(matrix, seen, reply, leaf.pos) == seq![leaf],
    decreases around.len(),
{
    let all = admitted_among(matrix, seen, reply, around);
    if around.len() == 0 {
        assert forall|leaf: CharLeaf| #[trigger]
            all.contains(leaf) <==> around.contains(leaf.pos) && admitted(
                matrix,
                seen,
                reply,
                leaf.pos,
            ) == seq![leaf] by {}
    } else {
        let before = admitted_among(matrix, seen, reply, around.drop_last());
        let extra = admitted(matrix, seen, reply, around.last());
        lemma_admitted_among(matrix, seen, reply, around.drop_last());
        assert forall|leaf: CharLeaf| #[trigger]
            all.contains(leaf) <==> around.contains(leaf.pos) && admitted(
                matrix,
                seen,
                reply,
                leaf.pos,
            ) == seq![leaf] by {
            if all.contains(leaf) {
                let i = choose|i: int| 0 <= i < all.len() && all[i] == leaf;
                if i < before.len() {
                    assert(before[i] == leaf);
                    assert(before.contains(leaf));
                    let j = choose|j: int|
                        0 <= j < around.drop_last().len() && around.drop_last()[j] == leaf.pos;
                    assert(around[j] == leaf.pos);
                } else {
                    assert(extra[i - before.len()] == leaf);
                    assert(extra =~= seq![leaf]);
                    assert(around[around.len() - 1] == leaf.pos);
                }
            }
            if around.contains(leaf.pos) && admitted(matrix, seen, reply, leaf.pos) == seq![leaf] {
                let j = choose|j: int| 0 <= j < around.len() && around[j] == leaf.pos;
                if j < around.len() - 1 {
                    assert(around.drop_last()[j] == leaf.pos);
                    assert(before.contains(leaf));
                    let i = choose|i: int| 0 <= i < before.len() && before[i] == leaf;
                    assert(all[i] == leaf);
                } else {
                    assert(extra[0] == leaf);
                    assert(all[before.len() as int] == leaf);
                }
            }
        }
    }
}

/// The children of a node are exactly the leaves that the rules allow.
pub proof fn lemma_survivors_are_admissible(
    matrix: Matrix,
    seen: Seq<PositionInMatrix>,
    reply: Option<Seq<NextLetter>>,
)
    ensures
        forall|leaf: CharLeaf| #[trigger]
            survivors(matrix, seen, reply).contains(leaf) <==> admissible(
                matrix,
                seen,
                reply,
                leaf,
            ),
{
    lemma_admitted_among(matrix, seen, reply, neighbors(seen.last()));
    assert forall|leaf: CharLeaf| #[trigger]
        survivors(matrix, seen, reply).contains(leaf) <==> admissible(
            matrix,
            seen,
            reply,
            leaf,
        ) by {
        let one = admitted(matrix, seen, reply, leaf.pos);
        if one == seq![leaf] {
            assert(one[0] == leaf);
        }
        if admissible(matrix, seen, reply, leaf) {
            assert(one =~= seq![leaf]);
        }
    }
}

/// What the dictionary says about the path `seen`. It is asked only once two
/// letters are matched: the root's children are not pruned.
pub open spec fn reply_for(matrix: Matrix, dictionary: Dictionary, seen: Seq<PositionInMatrix>) -> Option<
    Seq<NextLetter>,
> {
    if seen.len() > 1 {
        Some(dictionary(path_letters(matrix, seen)))
    } else {
        None
    }
}

/// The subtree below the node `leaf` at the end of the path `seen`: its
/// children are the neighbours that are not on the path and that the
/// dictionary does not rule out, each with its own subtree.
pub open spec fn grown(
    matrix: Matrix,
    dictionary: Dictionary,
    seen: Seq<PositionInMatrix>,
    leaf: CharLeaf,
) -> Shape
    decreases unvisited(seen),
    via grown_decreases
{
    let kids = survivors(matrix, seen, reply_for(matrix, dictionary, seen));
    Shape {
        leaf,
        children: Seq::new(
            kids.len(),
            |i: int|
                if 0 <= i < kids.len() {
                    grown(matrix, dictionary, seen.push(kids[i].pos), kids[i])
                } else {
                    lone(leaf)
                },
        ),
    }
}

#[via_fn]
proof fn grown_decreases(
    matrix: Matrix,
    dictionary: Dictionary,
    seen: Seq<PositionInMatrix>,
    leaf: CharLeaf,
) {
    let kids = survivors(matrix, seen, reply_for(matrix, dictionary, seen));
    assert forall|i: int| 0 <= i < kids.len() implies unvisited(seen.push(kids[i].pos))
        < unvisited(seen) by {
        lemma_child_leaves_fewer(matrix, seen, reply_for(matrix, dictionary, seen), i);
    }
}

/// Going down to a child leaves fewer cells unvisited.
pub proof fn lemma_child_leaves_fewer(
    matrix: Matrix,
    seen: Seq<PositionInMatrix>,
    reply: Option<Seq<NextLetter>>,
    i: int,
)
    requires
        0 <= i < survivors(matrix, seen, reply).len(),
    ensures
        admissible(matrix, seen, reply, survivors(matrix, seen, reply)[i]),
        survivors(matrix, seen, reply)[i].pos.in_grid(),
        seen.last().touches(survivors(matrix, seen, reply)[i].pos),
        unvisited(seen.push(survivors(matrix, seen, reply)[i].pos)) < unvisited(seen),
{
    let kids = survivors(matrix, seen, reply);
    lemma_survivors_are_admissible(matrix, seen, reply);
    assert(kids.contains(kids[i]));
    lemma_neighbors_are_king_moves(seen.last());
    lemma_unvisited_among(seen, kids[i].pos, 25);
}

/// What the root of the exploration tree carries: the letter of the starting
/// cell. The root never ends a word.
pub open spec fn root_leaf(matrix: Matrix, start: PositionInMatrix) -> CharLeaf {
    CharLeaf { char: cell_at(matrix, start).char, is_word: false, pos: start }
}

/// The exploration tree of a starting cell: every walk from that cell that
/// visits no cell twice and that the dictionary does not rule out.
pub open spec fn exploration_tree(
    matrix: Matrix,
    dictionary: Dictionary,
    start: PositionInMatrix,
) -> Shape {
    grown(matrix, dictionary, seq![start], root_leaf(matrix, start))
}

/// Below a walk that visits no cell twice, the paths of the subtree visit
/// no cell twice either.
proof fn lemma_grown_routed(
    matrix: Matrix,
    dictionary: Dictionary,
    seen: Seq<PositionInMatrix>,
    leaf: CharLeaf,
)
    requires
        simple_walk(seen),
        seen.len() >= 1,
        seen.last() == leaf.pos,
    ensures
        routed(grown(matrix, dictionary, seen, leaf), seen.drop_last()),
    decreases unvisited(seen),
{
    let shape = grown(matrix, dictionary, seen, leaf);
    let reply = reply_for(matrix, dictionary, seen);
    let kids = survivors(matrix, seen, reply);
    assert(seen.drop_last().push(leaf.pos) =~= seen);
    assert forall|i: int| 0 <= i < shape.children.len() implies routed(
        #[trigger] shape.children[i],
        seen,
    ) by {
        lemma_child_leaves_fewer(matrix, seen, reply, i);
        lemma_simple_walk_push(seen, kids[i].pos);
        lemma_grown_routed(matrix, dictionary, seen.push(kids[i].pos), kids[i]);
        assert(seen.push(kids[i].pos).drop_last() =~= seen);
    }
}

/// In the exploration tree no path from the root visits a cell twice: each
/// is a walk in the grid from the starting cell. The root does not end a
/// word.
pub proof fn lemma_exploration_tree_routed(
    matrix: Matrix,
    dictionary: Dictionary,
    start: PositionInMatrix,
)
    requires
        start.in_grid(),
    ensures
        routed(exploration_tree(matrix, dictionary, start), Seq::empty()),
        exploration_tree(matrix, dictionary, start).leaf.pos == start,
        !exploration_tree(matrix, dictionary, start).leaf.is_word,
{
    lemma_grown_routed(matrix, dictionary, seq![start], root_leaf(matrix, start));
    assert(seq![start].drop_last() =~= Seq::<PositionInMatrix>::empty());
}

/// The dictionary stands behind a node: `letters` are the letters from the
/// root down to it. From the third letter on, the dictionary offered the
/// node's letter for the letters before it, and the node ends a word exactly
/// if the dictionary said so; a node nearer the root ends no word.
pub open spec fn vouched(dictionary: Dictionary, letters: Seq<char>, is_word: bool) -> bool {
    if letters.len() >= 3 {
        &&& offers(dictionary(letters.drop_last()), letters.last())
        &&& is_word == completes(dictionary(letters.drop_last()), letters.last())
    } else {
        !is_word
    }
}

/// Below the path `above`, every node of `shape` carries the letter of its
/// cell and has the dictionary behind it.
pub open spec fn vetted(
    matrix: Matrix,
    dictionary: Dictionary,
    shape: Shape,
    above: Seq<PositionInMatrix>,
) -> bool
    decreases shape,
{
    &&& shape.leaf.char == cell_at(matrix, shape.leaf.pos).char
    &&& vouched(
        dictionary,
        path_letters(matrix, above.push(shape.leaf.pos)),
        shape.leaf.is_word,
    )
    &&& forall|i: int|
        0 <= i < shape.children.len() ==> vetted(
            matrix,
            dictionary,
            #[trigger] shape.children[i],
            above.push(shape.leaf.pos),
        )
}

/// Below a node that has the dictionary behind it, every node of the
/// subtree has it too.
proof fn lemma_grown_vetted(
    matrix: Matrix,
    dictionary: Dictionary,
    seen: Seq<PositionInMatrix>,
    leaf: CharLeaf,
)
    requires
        seen.len() >= 1,
        seen.last() == leaf.pos,
        leaf.char == cell_at(matrix, leaf.pos).char,
        vouched(dictionary, path_letters(matrix, seen), leaf.is_word),
    ensures
        vetted(matrix, dictionary, grown(matrix, dictionary, seen, leaf), seen.drop_last()),
    decreases unvisited(seen),
{
    let shape = grown(matrix, dictionary, seen, leaf);
    let reply = reply_for(matrix, dictionary, seen);
    let kids = survivors(matrix, seen, reply);
    assert(seen.drop_last().push(leaf.pos) =~= seen);
    assert forall|i: int| 0 <= i < shape.children.len() implies vetted(
        matrix,
        dictionary,
        #[trigger] shape.children[i],
        seen,
    ) by {
        lemma_child_leaves_fewer(matrix, seen, reply, i);
        let longer = seen.push(kids[i].pos);
        assert(path_letters(matrix, longer).drop_last() =~= path_letters(matrix, seen));
        lemma_grown_vetted(matrix, dictionary, longer, kids[i]);
        assert(longer.drop_last() =~= seen);
    }
}

/// Every node of the exploration tree carries the letter of its cell and
/// has the dictionary behind it.
pub proof fn lemma_exploration_tree_vetted(
    matrix: Matrix,
    dictionary: Dictionary,
    start: PositionInMatrix,
)
    ensures
        vetted(matrix, dictionary, exploration_tree(matrix, dictionary, start), Seq::empty()),
{
    lemma_grown_vetted(matrix, dictionary, seq![start], root_leaf(matrix, start));
    assert(seq![start].drop_last() =~= Seq::<PositionInMatrix>::empty());
}

/// From the third letter on, the dictionary offered each letter for the
/// letters before it.
pub open spec fn continued(dictionary: Dictionary, letters: Seq<char>) -> bool {
    forall|k: int|
        2 <= k < letters.len() ==> offers(dictionary(#[trigger] letters.take(k)), letters[k])
}

/// The dictionary stands behind the word: it has at least three letters,
/// each from the third on was offered for the letters before it, and the
/// last was said to end a word.
pub open spec fn backed(dictionary: Dictionary, word: Seq<char>) -> bool {
    &&& word.len() >= 3
    &&& continued(dictionary, word)
    &&& completes(dictionary(word.drop_last()), word.last())
}

/// The word spells the letters of its cells, and the dictionary stands
/// behind it.
pub open spec fn spelled_and_backed(matrix: Matrix, dictionary: Dictionary, word: WordView) -> bool {
    &&& word.word == path_letters(matrix, word.path)
    &&& backed(dictionary, word.word)
}

/// Letters that the dictionary offered one by one stay so with one more
/// letter that it offered for them.
proof fn lemma_continued_push(dictionary: Dictionary, letters: Seq<char>, letter: char)
    requires
        continued(dictionary, letters),
        letters.len() >= 2 ==> offers(dictionary(letters), letter),
    ensures
        continued(dictionary, letters.push(letter)),
{
    let longer = letters.push(letter);
    assert forall|k: int| 2 <= k < longer.len() implies offers(
        dictionary(#[trigger] longer.take(k)),
        longer[k],
    ) by {
        if k < letters.len() {
            assert(longer.take(k) =~= letters.take(k));
        } else {
            assert(longer.take(k) =~= letters);
        }
    }
}

/// The words of a subtree whose nodes have the dictionary behind them
/// spell their cells and have the dictionary behind them.
proof fn lemma_node_backed(matrix: Matrix, dictionary: Dictionary, shape: Shape, run: Running)
    requires
        vetted(matrix, dictionary, shape, run.path),
        run.prefix == path_letters(matrix, run.path),
        continued(dictionary, run.prefix),
    ensures
        forall|i: int|
            0 <= i < walk_node(matrix, shape, run).words.len() ==> spelled_and_backed(
                matrix,
                dictionary,
                #[trigger] walk_node(matrix, shape, run).words[i],
            ),
    decreases shape, 0int,
{
    let cell = cell_at(matrix, shape.leaf.pos);
    let inside = entered(cell, shape.leaf, run);
    let found = walk_node(matrix, shape, run).words;
    assert(inside.prefix =~= path_letters(matrix, inside.path));
    assert(inside.prefix.drop_last() =~= run.prefix);
    lemma_continued_push(dictionary, run.prefix, shape.leaf.char);
    if shape.children.len() > 0 {
        lemma_children_backed(matrix, dictionary, shape.children, inside);
        let below = walk_children(matrix, shape.children, inside).words;
        assert forall|i: int| 0 <= i < found.len() implies spelled_and_backed(
            matrix,
            dictionary,
            #[trigger] found[i],
        ) by {
            if shape.leaf.is_word && i == 0 {
            } else {
                assert(found[i] == below[i - (found.len() - below.len())]);
            }
        }
    }
}

/// The same for the words of several subtrees.
proof fn lemma_children_backed(
    matrix: Matrix,
    dictionary: Dictionary,
    shapes: Seq<Shape>,
    run: Running,
)
    requires
        forall|i: int|
            0 <= i < shapes.len() ==> vetted(matrix, dictionary, #[trigger] shapes[i], run.path),
        run.prefix == path_letters(matrix, run.path),
        continued(dictionary, run.prefix),
    ensures
        forall|i: int|
            0 <= i < walk_children(matrix, shapes, run).words.len() ==> spelled_and_backed(
                matrix,
                dictionary,
                #[trigger] walk_children(matrix, shapes, run).words[i],
            ),
    decreases shapes, 1int,
{
    if shapes.len() > 0 {
        lemma_node_backed(matrix, dictionary, shapes[0], run);
        let first = walk_node(matrix, shapes[0], run);
        let others = shapes.drop_first();
        assert forall|i: int| 0 <= i < others.len() implies vetted(
            matrix,
            dictionary,
            #[trigger] others[i],
            run.path,
        ) by {
            assert(others[i] == shapes[i + 1]);
        }
        let next = with_multiplier(run, first.multiplier);
        lemma_children_backed(matrix, dictionary, others, next);
        let after = walk_children(matrix, others, next).words;
        let found = walk_children(matrix, shapes, run).words;
        assert forall|i: int| 0 <= i < found.len() implies spelled_and_backed(
            matrix,
            dictionary,
            #[trigger] found[i],
        ) by {
            if i < first.words.len() {
                assert(found[i] == first.words[i]);
            } else {
                assert(found[i] == after[i - first.words.len()]);
            }
        }
    }
}

/// What holds of every word of an exploration tree. Its cells are a walk in
/// the grid that visits no cell twice, one cell for each letter, and it
/// spells their letters. It scores at least the points of its cells. And no
/// letter of it goes against the dictionary: from the third on, each was
/// offered for the letters before it, and the last was said to end a word.
pub proof fn lemma_words_of_exploration_tree(
    matrix: Matrix,
    dictionary: Dictionary,
    start: PositionInMatrix,
)
    requires
        start.in_grid(),
    ensures
        forall|i: int|
            0 <= i < walk_words(matrix, exploration_tree(matrix, dictionary, start)).len() ==> {
                let word = #[trigger] walk_words(
                    matrix,
                    exploration_tree(matrix, dictionary, start),
                )[i];
                &&& simple_walk(word.path)
                &&& word.path.len() == word.word.len()
                &&& word.path[0] == start
                &&& covers_its_points(matrix, word)
                &&& spelled_and_backed(matrix, dictionary, word)
            },
{
    let shape = exploration_tree(matrix, dictionary, start);
    lemma_exploration_tree_routed(matrix, dictionary, start);
    lemma_exploration_tree_vetted(matrix, dictionary, start);
    lemma_words_visit_no_cell_twice(matrix, shape);
    lemma_words_cover_their_points(matrix, shape);
    assert(fresh().prefix =~= path_letters(matrix, fresh().path));
    lemma_node_backed(matrix, dictionary, shape, fresh());
    lemma_words_start_at_root(matrix, shape);
}

/// On a grid of limited points and factors the walk of an exploration tree
/// comes to its end: no sum and no score leaves the range of 16 bits.
pub proof fn lemma_exploration_tree_is_walkable(
    matrix: Matrix,
    dictionary: Dictionary,
    start: PositionInMatrix,
    points: int,
    factor: int,
)
    requires
        start.in_grid(),
        capped(matrix, points, factor),
        factor >= 1,
        25 * points * factor <= u16::MAX,
    ensures
        walk_outcome(matrix, exploration_tree(matrix, dictionary, start)) == Outcome::Done(
            walk_words(matrix, exploration_tree(matrix, dictionary, start)),
        ),
{
    lemma_exploration_tree_routed(matrix, dictionary, start);
    lemma_routed_tree_is_walkable(
        matrix,
        exploration_tree(matrix, dictionary, start),
        points,
        factor,
    );
}

} // verus!
