//! That a construction grows the exploration tree.
//!
//! A construction is driven from outside: whoever runs it hands it the
//! answers of the dictionary. This file says what it means that those answers
//! are the answers of one dictionary ([`tracks`], [`reached`]), and shows that
//! the construction then builds nothing but the exploration tree of its
//! starting cell.

use vstd::prelude::*;
use crate::construction::{answered, settle, started, survivors, BuilderView, ConstructionView, FrameView};
use crate::exploration::{exploration_tree, grown, lemma_child_leaves_fewer, lemma_survivors_are_admissible, reply_for, root_leaf, Dictionary};
use crate::grid::{cell_at, lemma_simple_walk_push, lemma_simple_walk_take, path_letters, simple_walk, Matrix, PositionInMatrix};
use crate::tree::{lone, with_child};
use crate::walk::walk_outcome;
use crate::words::walk_words;

verus! {

/// The positions of the nodes under construction, from the root down.
pub open spec fn seen_of(matrix: Matrix, frames: Seq<FrameView>) -> Seq<PositionInMatrix> {
    BuilderView { matrix, frames }.seen()
}

/// The node of `frame` stands at the end of the path `seen`, it is to have
/// the children that the dictionary allows there, and the first `finished`
/// of them hang below it, each with its whole subtree.
pub open spec fn frame_grown(
    matrix: Matrix,
    dictionary: Dictionary,
    seen: Seq<PositionInMatrix>,
    frame: FrameView,
    finished: int,
) -> bool {
    &&& frame.waiting == survivors(matrix, seen, reply_for(matrix, dictionary, seen))
    &&& 0 <= finished <= frame.waiting.len()
    &&& frame.shape.children.len() == finished
    &&& forall|j: int|
        0 <= j < finished ==> #[trigger] frame.shape.children[j] == grown(
            matrix,
            dictionary,
            seen.push(frame.waiting[j].pos),
            frame.waiting[j],
        )
}

/// The nodes under construction lie on one path from the root, which starts
/// at `start` and visits no cell twice. Each of them but the deepest has the
/// children before the one under construction finished, and the next frame
/// holds that one.
pub open spec fn chained(
    matrix: Matrix,
    dictionary: Dictionary,
    start: PositionInMatrix,
    frames: Seq<FrameView>,
) -> bool {
    &&& frames.len() >= 1
    &&& simple_walk(seen_of(matrix, frames))
    &&& frames[0].shape.leaf == root_leaf(matrix, start)
    &&& forall|k: int|
        0 <= k < frames.len() - 1 ==> {
            let frame = #[trigger] frames[k];
            &&& frame.next >= 1
            &&& frame_grown(
                matrix,
                dictionary,
                seen_of(matrix, frames).take(k + 1),
                frame,
                frame.next - 1,
            )
            &&& frame.next <= frame.waiting.len()
            &&& frames[k + 1].shape.leaf == frame.waiting[frame.next - 1]
        }
}

/// The construction waits for what `dictionary` says about its deepest node,
/// and all it has built so far is part of the exploration tree of `start`
/// under that dictionary.
pub open spec fn tracks(builder: BuilderView, dictionary: Dictionary, start: PositionInMatrix) -> bool {
    &&& builder.frames.len() >= 2
    &&& chained(builder.matrix, dictionary, start, builder.frames)
    &&& builder.frames.last().shape.children.len() == 0
}

/// The children of the deepest node are decided, and those that were started
/// are finished.
pub open spec fn decided(
    matrix: Matrix,
    dictionary: Dictionary,
    start: PositionInMatrix,
    frames: Seq<FrameView>,
) -> bool {
    &&& chained(matrix, dictionary, start, frames)
    &&& frame_grown(
        matrix,
        dictionary,
        seen_of(matrix, frames),
        frames.last(),
        frames.last().next as int,
    )
}

/// The construction is on its way to the exploration tree of `start` under
/// `dictionary`, or has arrived.
pub open spec fn follows(
    state: ConstructionView,
    matrix: Matrix,
    dictionary: Dictionary,
    start: PositionInMatrix,
) -> bool {
    match state {
        ConstructionView::Pending(builder) => builder.matrix == matrix && tracks(
            builder,
            dictionary,
            start,
        ),
        ConstructionView::Finished(shape) => shape == exploration_tree(matrix, dictionary, start),
    }
}

/// The frames after the next child of the deepest node was started.
spec fn descended(frames: Seq<FrameView>) -> Seq<FrameView> {
    let top = frames.last();
    frames.drop_last().push(
        FrameView { shape: top.shape, waiting: top.waiting, next: top.next + 1 },
    ).push(
        FrameView { shape: lone(top.waiting[top.next as int]), waiting: Seq::empty(), next: 0 },
    )
}

/// The frames after the deepest node was hung below its parent.
spec fn ascended(frames: Seq<FrameView>) -> Seq<FrameView> {
    let top = frames.last();
    let parent = frames[frames.len() - 2];
    frames.take(frames.len() - 2).push(
        FrameView {
            shape: with_child(parent.shape, top.shape),
            waiting: parent.waiting,
            next: parent.next,
        },
    )
}

/// Starting the next child of the deepest node leads to a construction that
/// tracks the dictionary.
proof fn lemma_descend(
    matrix: Matrix,
    dictionary: Dictionary,
    start: PositionInMatrix,
    frames: Seq<FrameView>,
)
    requires
        decided(matrix, dictionary, start, frames),
        frames.last().next < frames.last().waiting.len(),
    ensures
        tracks(BuilderView { matrix, frames: descended(frames) }, dictionary, start),
{
    let n = frames.len() as int;
    let top = frames.last();
    let seen = seen_of(matrix, frames);
    let child = top.waiting[top.next as int];
    let deeper = descended(frames);
    let longer = seen_of(matrix, deeper);
    lemma_child_leaves_fewer(matrix, seen, reply_for(matrix, dictionary, seen), top.next as int);
    lemma_simple_walk_push(seen, child.pos);
    assert(longer =~= seen.push(child.pos));
    assert forall|k: int| 0 <= k < deeper.len() - 1 implies {
        let frame = #[trigger] deeper[k];
        &&& frame.next >= 1
        &&& frame_grown(matrix, dictionary, longer.take(k + 1), frame, frame.next - 1)
        &&& frame.next <= frame.waiting.len()
        &&& deeper[k + 1].shape.leaf == frame.waiting[frame.next - 1]
    } by {
        assert(longer.take(k + 1) =~= seen.take(k + 1));
        if k < n - 1 {
            assert(deeper[k] == frames[k]);
        } else {
            assert(seen.take(n) =~= seen);
        }
    }
}

/// A node whose children all hang below it, each with its whole subtree, is
/// the whole subtree of that node.
proof fn lemma_frame_complete(
    matrix: Matrix,
    dictionary: Dictionary,
    seen: Seq<PositionInMatrix>,
    frame: FrameView,
)
    requires
        frame_grown(matrix, dictionary, seen, frame, frame.waiting.len() as int),
    ensures
        frame.shape == grown(matrix, dictionary, seen, frame.shape.leaf),
{
    let done = grown(matrix, dictionary, seen, frame.shape.leaf);
    assert(frame.shape.children =~= done.children);
}

/// Without the deepest node, the nodes under construction still lie on one
/// path from the root.
proof fn lemma_ascend_chain(
    matrix: Matrix,
    dictionary: Dictionary,
    start: PositionInMatrix,
    frames: Seq<FrameView>,
)
    requires
        chained(matrix, dictionary, start, frames),
        frames.len() >= 2,
    ensures
        chained(matrix, dictionary, start, ascended(frames)),
        seen_of(matrix, ascended(frames)) == seen_of(matrix, frames).drop_last(),
{
    let n = frames.len() as int;
    let seen = seen_of(matrix, frames);
    let fewer = ascended(frames);
    let shorter = seen_of(matrix, fewer);
    assert(shorter =~= seen.drop_last());
    lemma_simple_walk_take(seen, n - 1);
    assert forall|k: int| 0 <= k < fewer.len() - 1 implies {
        let frame = #[trigger] fewer[k];
        &&& frame.next >= 1
        &&& frame_grown(matrix, dictionary, shorter.take(k + 1), frame, frame.next - 1)
        &&& frame.next <= frame.waiting.len()
        &&& fewer[k + 1].shape.leaf == frame.waiting[frame.next - 1]
    } by {
        assert(shorter.take(k + 1) =~= seen.take(k + 1));
        assert(fewer[k] == frames[k]);
        assert(fewer[k + 1].shape.leaf == frames[k + 1].shape.leaf);
    }
}

/// A parent below which its finished child is hung has one more of its
/// children finished.
proof fn lemma_ascend_top(
    matrix: Matrix,
    dictionary: Dictionary,
    seen: Seq<PositionInMatrix>,
    parent: FrameView,
    top: FrameView,
)
    requires
        seen.len() >= 1,
        parent.next >= 1,
        parent.next <= parent.waiting.len(),
        frame_grown(matrix, dictionary, seen.drop_last(), parent, parent.next - 1),
        frame_grown(matrix, dictionary, seen, top, top.waiting.len() as int),
        top.shape.leaf == parent.waiting[parent.next - 1],
        top.shape.leaf.pos == seen.last(),
    ensures
        frame_grown(
            matrix,
            dictionary,
            seen.drop_last(),
            FrameView {
                shape: with_child(parent.shape, top.shape),
                waiting: parent.waiting,
                next: parent.next,
            },
            parent.next as int,
        ),
{
    let joined = FrameView {
        shape: with_child(parent.shape, top.shape),
        waiting: parent.waiting,
        next: parent.next,
    };
    let shorter = seen.drop_last();
    assert(seen =~= shorter.push(top.shape.leaf.pos));
    lemma_frame_complete(matrix, dictionary, seen, top);
    assert forall|j: int| 0 <= j < joined.next implies #[trigger] joined.shape.children[j]
        == grown(matrix, dictionary, shorter.push(joined.waiting[j].pos), joined.waiting[j]) by {
        if j < parent.next - 1 {
            assert(joined.shape.children[j] == parent.shape.children[j]);
        }
    }
}

/// Hanging the finished deepest node below its parent leaves the parent
/// with its children decided and those that were started finished.
proof fn lemma_ascend(
    matrix: Matrix,
    dictionary: Dictionary,
    start: PositionInMatrix,
    frames: Seq<FrameView>,
)
    requires
        decided(matrix, dictionary, start, frames),
        frames.last().next >= frames.last().waiting.len(),
        frames.len() >= 2,
    ensures
        decided(matrix, dictionary, start, ascended(frames)),
{
    let n = frames.len() as int;
    let seen = seen_of(matrix, frames);
    lemma_ascend_chain(matrix, dictionary, start, frames);
    let parent = frames[n - 2];
    assert(seen.take(n - 2 + 1) =~= seen.drop_last());
    lemma_ascend_top(matrix, dictionary, seen, parent, frames.last());
}

/// Once the children of the deepest node are decided, going on leads to a
/// construction that tracks the dictionary, or to the exploration tree.
proof fn lemma_settle_follows(
    matrix: Matrix,
    dictionary: Dictionary,
    start: PositionInMatrix,
    frames: Seq<FrameView>,
)
    requires
        decided(matrix, dictionary, start, frames),
    ensures
        follows(settle(matrix, frames), matrix, dictionary, start),
    decreases frames.len(),
{
    let top = frames.last();
    if top.next < top.waiting.len() {
        lemma_descend(matrix, dictionary, start, frames);
    } else if frames.len() <= 1 {
        assert(seen_of(matrix, frames) =~= seq![start]);
        lemma_frame_complete(matrix, dictionary, seq![start], top);
    } else {
        lemma_ascend(matrix, dictionary, start, frames);
        lemma_settle_follows(matrix, dictionary, start, ascended(frames));
    }
}

/// A construction that was just started is on its way to the exploration
/// tree, whatever the dictionary.
pub proof fn lemma_started_follows(
    matrix: Matrix,
    dictionary: Dictionary,
    start: PositionInMatrix,
)
    requires
        start.in_grid(),
    ensures
        follows(started(matrix, start), matrix, dictionary, start),
{
    let root = root_leaf(matrix, start);
    let frames = seq![
        FrameView { shape: lone(root), waiting: survivors(matrix, seq![start], None), next: 0 },
    ];
    assert(seen_of(matrix, frames) =~= seq![start]);
    lemma_settle_follows(matrix, dictionary, start, frames);
}

/// While a construction tracks the dictionary, it asks about the letters of
/// the cells on the path to its deepest node.
pub proof fn lemma_request_spells_the_path(
    builder: BuilderView,
    dictionary: Dictionary,
    start: PositionInMatrix,
)
    requires
        tracks(builder, dictionary, start),
    ensures
        builder.request() == path_letters(builder.matrix, builder.seen()),
        simple_walk(builder.seen()),
        builder.seen()[0] == start,
        builder.request().len() >= 2,
{
    let matrix = builder.matrix;
    let frames = builder.frames;
    let seen = builder.seen();
    assert forall|k: int| 0 <= k < frames.len() implies (#[trigger] frames[k]).shape.leaf.char
        == cell_at(matrix, seen[k]).char by {
        if k > 0 {
            let above = frames[k - 1];
            let path = seen.take(k);
            let reply = reply_for(matrix, dictionary, path);
            lemma_survivors_are_admissible(matrix, path, reply);
            assert(survivors(matrix, path, reply).contains(above.waiting[above.next - 1]));
        }
    }
    assert(builder.request() =~= path_letters(matrix, seen));
}

/// While a construction tracks the dictionary and is given what the
/// dictionary answers to its request, it goes on tracking the dictionary, or
/// finishes with the exploration tree.
pub proof fn lemma_answered_follows(
    builder: BuilderView,
    dictionary: Dictionary,
    start: PositionInMatrix,
)
    requires
        tracks(builder, dictionary, start),
    ensures
        follows(
            answered(builder, dictionary(builder.request())),
            builder.matrix,
            dictionary,
            start,
        ),
{
    let matrix = builder.matrix;
    let frames = builder.frames;
    let n = frames.len() as int;
    let seen = builder.seen();
    let top = frames.last();
    lemma_request_spells_the_path(builder, dictionary, start);
    let asked = FrameView {
        shape: top.shape,
        waiting: survivors(matrix, seen, Some(dictionary(builder.request()))),
        next: 0,
    };
    let next = frames.drop_last().push(asked);
    assert(seen_of(matrix, next) =~= seen);
    assert forall|k: int| 0 <= k < next.len() - 1 implies {
        let frame = #[trigger] next[k];
        &&& frame.next >= 1
        &&& frame_grown(matrix, dictionary, seen.take(k + 1), frame, frame.next - 1)
        &&& frame.next <= frame.waiting.len()
        &&& next[k + 1].shape.leaf == frame.waiting[frame.next - 1]
    } by {
        assert(next[k] == frames[k]);
    }
    assert(chained(matrix, dictionary, start, next));
    lemma_settle_follows(matrix, dictionary, start, next);
}

/// The construction after the dictionary has answered `answers` requests:
/// each request is answered with what `dictionary` says about it, and a
/// finished construction stays as it is.
pub open spec fn reached(
    matrix: Matrix,
    dictionary: Dictionary,
    start: PositionInMatrix,
    answers: nat,
) -> ConstructionView
    decreases answers,
{
    if answers == 0 {
        started(matrix, start)
    } else {
        match reached(matrix, dictionary, start, (answers - 1) as nat) {
            ConstructionView::Pending(builder) => answered(
                builder,
                dictionary(builder.request()),
            ),
            ConstructionView::Finished(shape) => ConstructionView::Finished(shape),
        }
    }
}

/// However many requests the dictionary has answered, the construction is on
/// its way to the exploration tree or has finished with it: it never
/// finishes with another tree.
pub proof fn lemma_reached_follows(
    matrix: Matrix,
    dictionary: Dictionary,
    start: PositionInMatrix,
    answers: nat,
)
    requires
        start.in_grid(),
    ensures
        follows(reached(matrix, dictionary, start, answers), matrix, dictionary, start),
    decreases answers,
{
    if answers == 0 {
        lemma_started_follows(matrix, dictionary, start);
    } else {
        lemma_reached_follows(matrix, dictionary, start, (answers - 1) as nat);
        match reached(matrix, dictionary, start, (answers - 1) as nat) {
            ConstructionView::Pending(builder) => {
                lemma_answered_follows(builder, dictionary, start);
            },
            ConstructionView::Finished(shape) => {},
        }
    }
}

/// Building and walking twice gives the same: two constructions for the same
/// grid, starting cell and dictionary finish with the same tree, and the
/// walks of that tree end alike, with the same words.
pub proof fn lemma_same_words_every_time(
    matrix: Matrix,
    dictionary: Dictionary,
    start: PositionInMatrix,
    first: nat,
    second: nat,
)
    requires
        start.in_grid(),
        reached(matrix, dictionary, start, first) is Finished,
        reached(matrix, dictionary, start, second) is Finished,
    ensures
        reached(matrix, dictionary, start, first) == reached(matrix, dictionary, start, second),
        walk_outcome(matrix, reached(matrix, dictionary, start, first)->Finished_0)
            == walk_outcome(matrix, reached(matrix, dictionary, start, second)->Finished_0),
        walk_words(matrix, reached(matrix, dictionary, start, first)->Finished_0).to_multiset()
            == walk_words(
            matrix,
            reached(matrix, dictionary, start, second)->Finished_0,
        ).to_multiset(),
{
    lemma_reached_follows(matrix, dictionary, start, first);
    lemma_reached_follows(matrix, dictionary, start, second);
}

} // verus!
