//! Growing the exploration tree of one starting cell.
//!
//! The tree holds every walk from the starting cell that visits no cell twice
//! and that the dictionary does not rule out. The dictionary is not called
//! from here: the construction stops whenever it needs an answer, hands out
//! the prefix to look up, and goes on when it is given the answer.

use vstd::prelude::*;
use trees::Tree;
use crate::dictionary::{completes, find_next_letter, offers, NextLetter};
use crate::grid::{cell_at, find_neighbor, lemma_neighbors_are_king_moves, neighbors, EngineError, Matrix, PositionInMatrix};
use crate::tree::{lone, tree_new, tree_push_back, tree_shape, with_child, CharLeaf, Shape};

verus! {

/// The child that a neighbour gives rise to below a node whose path from the
/// root is `seen`: none if the neighbour is on that path already, or if the
/// dictionary was asked and does not offer its letter. The child ends a word
/// if the dictionary was asked and says so.
pub open spec fn admitted(
    matrix: Matrix,
    seen: Seq<PositionInMatrix>,
    reply: Option<Seq<NextLetter>>,
    neighbor: PositionInMatrix,
) -> Seq<CharLeaf> {
    let letter = cell_at(matrix, neighbor).char;
    if (reply matches Some(candidates) ==> offers(candidates, letter)) && !seen.contains(neighbor) {
        seq![
            CharLeaf {
                char: letter,
                is_word: reply matches Some(candidates) && completes(candidates, letter),
                pos: neighbor,
            },
        ]
    } else {
        Seq::empty()
    }
}

/// The children that the given neighbours give rise to, in their order.
pub open spec fn admitted_among(
    matrix: Matrix,
    seen: Seq<PositionInMatrix>,
    reply: Option<Seq<NextLetter>>,
    around: Seq<PositionInMatrix>,
) -> Seq<CharLeaf>
    decreases around.len(),
{
    if around.len() == 0 {
        Seq::empty()
    } else {
        admitted_among(matrix, seen, reply, around.drop_last()) + admitted(
            matrix,
            seen,
            reply,
            around.last(),
        )
    }
}

/// The children of the node at the end of the path `seen`, given what the
/// dictionary said about the letters of that path (`None`: it was not asked).
pub open spec fn survivors(
    matrix: Matrix,
    seen: Seq<PositionInMatrix>,
    reply: Option<Seq<NextLetter>>,
) -> Seq<CharLeaf> {
    admitted_among(matrix, seen, reply, neighbors(seen.last()))
}

/// A node under construction, as a mathematical value.
pub ghost struct FrameView {
    /// The node with the subtrees that are finished.
    pub shape: Shape,
    /// The children that the node is to have, in order.
    pub waiting: Seq<CharLeaf>,
    /// How many of them have been started.
    pub next: nat,
}

/// A construction that waits for the dictionary, as a mathematical value: the
/// nodes under construction, from the root down to the node whose children
/// the awaited answer decides.
pub ghost struct BuilderView {
    pub matrix: Matrix,
    pub frames: Seq<FrameView>,
}

impl BuilderView {
    /// The positions from the root down to the node that waits for an answer.
    pub open spec fn seen(self) -> Seq<PositionInMatrix> {
        self.frames.map_values(|frame: FrameView| frame.shape.leaf.pos)
    }

    /// The letters from the root down to the node that waits for an answer:
    /// the prefix to look up.
    pub open spec fn request(self) -> Seq<char> {
        self.frames.map_values(|frame: FrameView| frame.shape.leaf.char)
    }
}

/// A construction, as a mathematical value.
pub ghost enum ConstructionView {
    Pending(BuilderView),
    Finished(Shape),
}

/// Goes on until the dictionary is needed or the tree is finished: starts the
/// next child of the deepest node if one is left, and otherwise hangs that
/// node below its parent and looks at the parent.
pub open spec fn settle(matrix: Matrix, frames: Seq<FrameView>) -> ConstructionView
    decreases frames.len(),
{
    let top = frames.last();
    if top.next < top.waiting.len() {
        ConstructionView::Pending(
            BuilderView {
                matrix,
                frames: frames.drop_last().push(
                    FrameView { shape: top.shape, waiting: top.waiting, next: top.next + 1 },
                ).push(
                    FrameView {
                        shape: lone(top.waiting[top.next as int]),
                        waiting: Seq::empty(),
                        next: 0,
                    },
                ),
            },
        )
    } else if frames.len() <= 1 {
        ConstructionView::Finished(top.shape)
    } else {
        let parent = frames[frames.len() - 2];
        settle(
            matrix,
            frames.take(frames.len() - 2).push(
                FrameView {
                    shape: with_child(parent.shape, top.shape),
                    waiting: parent.waiting,
                    next: parent.next,
                },
            ),
        )
    }
}

/// The construction right after it was started: the root has every
/// neighbour as a child, since the dictionary is not asked about one letter.
pub open spec fn started(matrix: Matrix, start: PositionInMatrix) -> ConstructionView {
    let root = CharLeaf { char: cell_at(matrix, start).char, is_word: false, pos: start };
    settle(
        matrix,
        seq![FrameView { shape: lone(root), waiting: survivors(matrix, seq![start], None), next: 0 }],
    )
}

/// The construction after the dictionary answered the pending request with
/// `candidates`.
pub open spec fn answered(builder: BuilderView, candidates: Seq<NextLetter>) -> ConstructionView {
    let top = builder.frames.last();
    settle(
        builder.matrix,
        builder.frames.drop_last().push(
            FrameView {
                shape: top.shape,
                waiting: survivors(builder.matrix, builder.seen(), Some(candidates)),
                next: 0,
            },
        ),
    )
}

/// A node under construction.
struct Frame {
    tree: Tree<CharLeaf>,
    leaf: CharLeaf,
    waiting: Vec<CharLeaf>,
    next: usize,
}

impl Frame {
    spec fn view(self) -> FrameView {
        FrameView { shape: tree_shape(self.tree), waiting: self.waiting@, next: self.next as nat }
    }

    spec fn wf(self) -> bool {
        self.leaf == tree_shape(self.tree).leaf
    }
}

/// The nodes under construction, as mathematical values.
spec fn frames_view(frames: Seq<Frame>) -> Seq<FrameView> {
    frames.map_values(|frame: Frame| frame.view())
}

/// Each frame keeps beside its tree what the root of that tree carries.
spec fn frames_wf(frames: Seq<Frame>) -> bool {
    forall|i: int| 0 <= i < frames.len() ==> (#[trigger] frames[i]).wf()
}

/// A construction that waits for an answer of the dictionary.
pub struct Builder {
    matrix: Matrix,
    frames: Vec<Frame>,
}

impl View for Builder {
    type V = BuilderView;

    closed spec fn view(&self) -> BuilderView {
        BuilderView { matrix: self.matrix, frames: frames_view(self.frames@) }
    }
}

/// A construction: it either waits for the dictionary or has finished the
/// tree.
pub enum Construction {
    Pending(Builder),
    Finished(Tree<CharLeaf>),
}

impl View for Construction {
    type V = ConstructionView;

    open spec fn view(&self) -> ConstructionView {
        match *self {
            Construction::Pending(builder) => ConstructionView::Pending(builder@),
            Construction::Finished(tree) => ConstructionView::Finished(tree_shape(tree)),
        }
    }
}

/// An answer of the dictionary, as a mathematical value.
pub open spec fn heard(reply: Option<Vec<NextLetter>>) -> Option<Seq<NextLetter>> {
    match reply {
        Some(candidates) => Some(candidates@),
        None => None,
    }
}

/// Whether the position is on the path.
fn has_position(seen: &Vec<PositionInMatrix>, position: PositionInMatrix) -> (has: bool)
    ensures
        has == seen@.contains(position),
{
    let mut i: usize = 0;
    while i < seen.len()
        invariant
            i <= seen.len(),
            forall|j: int| 0 <= j < i ==> seen@[j] != position,
        decreases seen.len() - i,
    {
        if seen[i] == position {
            return true;
        }
        i = i + 1;
    }
    false
}

/// The children of the node at the end of the path `seen`.
fn surviving(matrix: &Matrix, seen: &Vec<PositionInMatrix>, reply: &Option<Vec<NextLetter>>) -> (kept:
    Vec<CharLeaf>)
    requires
        seen.len() > 0,
    ensures
        kept@ == survivors(*matrix, seen@, heard(*reply)),
{
    let around = find_neighbor(seen[seen.len() - 1]);
    let mut kept: Vec<CharLeaf> = Vec::new();
    let mut i: usize = 0;
    assert(around@.take(0) =~= Seq::empty());
    while i < around.len()
        invariant
            i <= around.len(),
            seen.len() > 0,
            around@ == neighbors(seen@.last()),
            kept@ == admitted_among(*matrix, seen@, heard(*reply), around@.take(i as int)),
        decreases around.len() - i,
    {
        let neighbor = around[i];
        proof {
            lemma_neighbors_are_king_moves(seen@.last());
            assert(around@.contains(neighbor));
            assert(around@.take(i as int + 1).drop_last() =~= around@.take(i as int));
        }
        let row: usize = neighbor.y as usize;
        let column: usize = neighbor.x as usize;
        let letter = matrix[row][column].char;
        let mut allowed: bool = true;
        let mut is_word: bool = false;
        match reply {
            Some(candidates) => {
                match find_next_letter(candidates, letter) {
                    Some(candidate) => {
                        is_word = candidate.would_be_word;
                    },
                    None => {
                        allowed = false;
                    },
                }
            },
            None => {},
        }
        if allowed && !has_position(seen, neighbor) {
            kept.push(CharLeaf { char: letter, is_word, pos: neighbor });
        }
        assert(kept@ =~= admitted_among(*matrix, seen@, heard(*reply), around@.take(i as int + 1)));
        i = i + 1;
    }
    assert(around@.take(around.len() as int) =~= around@);
    kept
}

/// Goes on until the dictionary is needed or the tree is finished.
fn settle_frames(matrix: Matrix, frames: Vec<Frame>) -> (state: Construction)
    requires
        frames.len() > 0,
        frames_wf(frames@),
    ensures
        state@ == settle(matrix, frames_view(frames@)),
{
    let ghost goal = settle(matrix, frames_view(frames@));
    let mut stack = frames;
    loop
        invariant
            stack.len() > 0,
            frames_wf(stack@),
            goal == settle(matrix, frames_view(frames@)),
            settle(matrix, frames_view(stack@)) == goal,
        decreases stack.len(),
    {
        let ghost before = frames_view(stack@);
        let ghost held = stack@;
        let mut top = stack.pop().unwrap();
        assert(top == held.last());
        assert(top.wf());
        assert(stack@ =~= held.drop_last());
        assert(frames_view(stack@) =~= before.drop_last());
        if top.next < top.waiting.len() {
            let child = top.waiting[top.next];
            let started = Frame { tree: top.tree, leaf: top.leaf, waiting: top.waiting, next: top.next + 1 };
            let below = Frame { tree: tree_new(child), leaf: child, waiting: Vec::new(), next: 0 };
            stack.push(started);
            stack.push(below);
            let builder = Builder { matrix, frames: stack };
            proof {
                assert(builder@.frames =~= before.drop_last().push(
                    FrameView {
                        shape: before.last().shape,
                        waiting: before.last().waiting,
                        next: before.last().next + 1,
                    },
                ).push(
                    FrameView {
                        shape: lone(before.last().waiting[before.last().next as int]),
                        waiting: Seq::empty(),
                        next: 0,
                    },
                ));
            }
            return Construction::Pending(builder);
        }
        if stack.len() == 0 {
            return Construction::Finished(top.tree);
        }
        let ghost rest = stack@;
        let parent = stack.pop().unwrap();
        assert(parent == rest.last());
        assert(parent.wf());
        assert(stack@ =~= held.take(held.len() - 2));
        let mut tree = parent.tree;
        tree_push_back(&mut tree, top.tree);
        stack.push(Frame { tree, leaf: parent.leaf, waiting: parent.waiting, next: parent.next });
        proof {
            assert(frames_view(stack@) =~= before.take(before.len() - 2).push(
                FrameView {
                    shape: with_child(before[before.len() - 2].shape, before.last().shape),
                    waiting: before[before.len() - 2].waiting,
                    next: before[before.len() - 2].next,
                },
            ));
        }
    }
}

impl Builder {
    #[verifier::type_invariant]
    spec fn wf(self) -> bool {
        self.frames.len() > 0 && frames_wf(self.frames@)
    }

    /// The prefix that the dictionary is to be asked about: the letters from
    /// the root down to the node whose children are to be decided.
    pub fn request(&self) -> (prefix: Vec<char>)
        ensures
            prefix@ == self@.request(),
            prefix.len() >= 1,
    {
        proof {
            use_type_invariant(self);
        }
        let mut prefix: Vec<char> = Vec::new();
        let mut i: usize = 0;
        while i < self.frames.len()
            invariant
                i <= self.frames.len(),
                frames_wf(self.frames@),
                prefix@ == self@.request().take(i as int),
            decreases self.frames.len() - i,
        {
            assert(self.frames@[i as int].wf());
            prefix.push(self.frames[i].leaf.char);
            assert(prefix@ =~= self@.request().take(i as int + 1));
            i = i + 1;
        }
        assert(self@.request().take(self.frames.len() as int) =~= self@.request());
        prefix
    }

    /// The positions from the root down to the node whose children are to be
    /// decided.
    fn seen(&self) -> (seen: Vec<PositionInMatrix>)
        ensures
            seen@ == self@.seen(),
            seen.len() >= 1,
    {
        proof {
            use_type_invariant(self);
        }
        let mut seen: Vec<PositionInMatrix> = Vec::new();
        let mut i: usize = 0;
        while i < self.frames.len()
            invariant
                i <= self.frames.len(),
                frames_wf(self.frames@),
                seen@ == self@.seen().take(i as int),
            decreases self.frames.len() - i,
        {
            assert(self.frames@[i as int].wf());
            seen.push(self.frames[i].leaf.pos);
            assert(seen@ =~= self@.seen().take(i as int + 1));
            i = i + 1;
        }
        assert(self@.seen().take(self.frames.len() as int) =~= self@.seen());
        seen
    }

    /// Goes on with the answer to the pending request: `Some` with the
    /// letters that may follow the prefix, or `None` if the dictionary could
    /// not answer, which ends the construction with `LookupUnavailable`.
    pub fn resume(self, reply: Option<Vec<NextLetter>>) -> (next: Result<Construction, EngineError>)
        ensures
            match reply {
                Some(candidates) => next matches Ok(state) && state@ == answered(
                    self@,
                    candidates@,
                ),
                None => next matches Err(error) && error == EngineError::LookupUnavailable,
            },
    {
        proof {
            use_type_invariant(&self);
        }
        if reply.is_none() {
            return Err(EngineError::LookupUnavailable);
        }
        let seen = self.seen();
        let kept = surviving(&self.matrix, &seen, &reply);
        let ghost before = self@;
        let ghost held = self.frames@;
        let matrix = self.matrix;
        let mut frames = self.frames;
        let top = frames.pop().unwrap();
        assert(top == held.last());
        assert(top.wf());
        assert(frames@ =~= held.drop_last());
        frames.push(Frame { tree: top.tree, leaf: top.leaf, waiting: kept, next: 0 });
        proof {
            assert(frames_view(frames@) =~= before.frames.drop_last().push(
                FrameView {
                    shape: before.frames.last().shape,
                    waiting: survivors(before.matrix, before.seen(), heard(reply)),
                    next: 0,
                },
            ));
        }
        Ok(settle_frames(matrix, frames))
    }
}

/// Starts the construction of the exploration tree of `starting_position`.
/// The root never ends a word. A position outside the grid is refused.
pub fn construct_exploration_tree(matrix: Matrix, starting_position: PositionInMatrix) -> (first:
    Result<Construction, EngineError>)
    ensures
        starting_position.in_grid() ==> (first matches Ok(state) && state@ == started(
            matrix,
            starting_position,
        )),
        !starting_position.in_grid() ==> (first matches Err(error) && error
            == EngineError::OutOfBounds),
{
    if !(starting_position.x >= 0 && starting_position.x < 5 && starting_position.y >= 0
        && starting_position.y < 5) {
        return Err(EngineError::OutOfBounds);
    }
    let row: usize = starting_position.y as usize;
    let column: usize = starting_position.x as usize;
    let root = CharLeaf { char: matrix[row][column].char, is_word: false, pos: starting_position };
    let mut seen: Vec<PositionInMatrix> = Vec::new();
    seen.push(starting_position);
    assert(seen@ =~= seq![starting_position]);
    let waiting = surviving(&matrix, &seen, &None);
    let mut frames: Vec<Frame> = Vec::new();
    frames.push(Frame { tree: tree_new(root), leaf: root, waiting, next: 0 });
    proof {
        assert(frames_view(frames@) =~= seq![
            FrameView {
                shape: lone(root),
                waiting: survivors(matrix, seq![starting_position], None),
                next: 0,
            },
        ]);
    }
    Ok(settle_frames(matrix, frames))
}

} // verus!
