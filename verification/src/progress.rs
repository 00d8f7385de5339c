//! That a construction comes to its end, and how often it asks on the way.

use vstd::prelude::*;
use crate::construction::{settle, survivors, BuilderView, ConstructionView, FrameView};
use crate::exploration::{exploration_tree, grown, root_leaf, Dictionary};
use crate::tracking::{frame_grown, lemma_reached_follows, reached, tracks};
use crate::grid::{Matrix, PositionInMatrix};
use crate::tree::{lone, with_child, Shape};

verus! {

/// How many nodes the tree has.
pub open spec fn node_count(shape: Shape) -> nat
    decreases shape,
{
    1 + node_count_of_all(shape.children)
}

/// How many nodes the trees have together.
pub open spec fn node_count_of_all(shapes: Seq<Shape>) -> nat
    decreases shapes,
{
    if shapes.len() == 0 {
        0
    } else {
        node_count(shapes[0]) + node_count_of_all(shapes.drop_first())
    }
}

/// How many nodes a construction has made so far.
pub open spec fn begun(frames: Seq<FrameView>) -> nat
    decreases frames.len(),
{
    if frames.len() == 0 {
        0
    } else {
        begun(frames.drop_last()) + node_count(frames.last().shape)
    }
}

/// The nodes of two lists of trees add up.
proof fn lemma_count_concat(first: Seq<Shape>, second: Seq<Shape>)
    ensures
        node_count_of_all(first + second) == node_count_of_all(first) + node_count_of_all(second),
    decreases first.len(),
{
    if first.len() == 0 {
        assert(first + second =~= second);
    } else {
        assert((first + second).drop_first() =~= first.drop_first() + second);
        lemma_count_concat(first.drop_first(), second);
    }
}

/// A list of one tree has the nodes of that tree.
proof fn lemma_count_one(shape: Shape)
    ensures
        node_count_of_all(seq![shape]) == node_count(shape),
{
    assert(seq![shape].drop_first() =~= Seq::<Shape>::empty());
    assert(node_count_of_all(Seq::<Shape>::empty()) == 0);
}

/// The first `at` of some trees and the next one have no more nodes than
/// all of them.
proof fn lemma_count_part(shapes: Seq<Shape>, at: int)
    requires
        0 <= at < shapes.len(),
    ensures
        node_count_of_all(shapes.take(at)) + node_count(shapes[at]) <= node_count_of_all(shapes),
{
    let before = shapes.take(at);
    let rest = shapes.skip(at);
    assert(shapes =~= before + rest);
    assert(rest =~= seq![shapes[at]] + rest.drop_first());
    lemma_count_concat(before, rest);
    lemma_count_concat(seq![shapes[at]], rest.drop_first());
    lemma_count_one(shapes[at]);
}

/// The nodes made in two runs of frames add up.
proof fn lemma_begun_concat(first: Seq<FrameView>, second: Seq<FrameView>)
    ensures
        begun(first + second) == begun(first) + begun(second),
    decreases second.len(),
{
    if second.len() == 0 {
        assert(first + second =~= first);
    } else {
        assert((first + second).drop_last() =~= first + second.drop_last());
        lemma_begun_concat(first, second.drop_last());
    }
}

/// One frame has made the nodes of its tree.
proof fn lemma_begun_one(frame: FrameView)
    ensures
        begun(seq![frame]) == node_count(frame.shape),
{
    assert(seq![frame].drop_last() =~= Seq::<FrameView>::empty());
    assert(begun(Seq::<FrameView>::empty()) == 0);
}

/// One more frame adds the nodes of its tree.
proof fn lemma_begun_push(frames: Seq<FrameView>, frame: FrameView)
    ensures
        begun(frames.push(frame)) == begun(frames) + node_count(frame.shape),
{
    assert(frames.push(frame).drop_last() =~= frames);
}

/// A tree that is only a root has one node.
proof fn lemma_count_lone(shape: Shape)
    requires
        shape.children.len() == 0,
    ensures
        node_count(shape) == 1,
{
}

/// One more subtree adds its nodes.
proof fn lemma_count_with_child(shape: Shape, child: Shape)
    ensures
        node_count(with_child(shape, child)) == node_count(shape) + node_count(child),
{
    assert(with_child(shape, child).children =~= shape.children + seq![child]);
    lemma_count_concat(shape.children, seq![child]);
    lemma_count_one(child);
}

/// Going on makes one more node if it ends in a request, and none if it ends
/// with the tree.
proof fn lemma_settle_begun(matrix: Matrix, frames: Seq<FrameView>)
    requires
        frames.len() >= 1,
    ensures
        match settle(matrix, frames) {
            ConstructionView::Pending(builder) => begun(builder.frames) == begun(frames) + 1,
            ConstructionView::Finished(shape) => node_count(shape) == begun(frames),
        },
    decreases frames.len(),
{
    let n = frames.len() as int;
    let top = frames.last();
    let under = frames.drop_last();
    assert(frames =~= under.push(top));
    lemma_begun_push(under, top);
    if top.next < top.waiting.len() {
        let raised = FrameView { shape: top.shape, waiting: top.waiting, next: top.next + 1 };
        let below = FrameView {
            shape: lone(top.waiting[top.next as int]),
            waiting: Seq::empty(),
            next: 0,
        };
        lemma_begun_push(under, raised);
        lemma_begun_push(under.push(raised), below);
        lemma_count_lone(below.shape);
    } else if n <= 1 {
        assert(under =~= Seq::<FrameView>::empty());
        assert(begun(under) == 0);
    } else {
        let parent = frames[n - 2];
        let joined = FrameView {
            shape: with_child(parent.shape, top.shape),
            waiting: parent.waiting,
            next: parent.next,
        };
        let least = frames.take(n - 2);
        let fewer = least.push(joined);
        assert(under =~= least.push(parent));
        lemma_begun_push(least, parent);
        lemma_begun_push(least, joined);
        lemma_count_with_child(parent.shape, top.shape);
        lemma_settle_begun(matrix, fewer);
    }
}

/// What a frame holds of the subtree that its node will have in the end:
/// the first children, and the next one is the one that comes after them.
proof fn lemma_frame_part(
    matrix: Matrix,
    dictionary: Dictionary,
    seen: Seq<PositionInMatrix>,
    frame: FrameView,
    finished: int,
)
    requires
        frame_grown(matrix, dictionary, seen, frame, finished),
    ensures
        grown(matrix, dictionary, seen, frame.shape.leaf).children.len() == frame.waiting.len(),
        frame.shape.children == grown(matrix, dictionary, seen, frame.shape.leaf).children.take(
            finished,
        ),
        finished < frame.waiting.len() ==> grown(
            matrix,
            dictionary,
            seen,
            frame.shape.leaf,
        ).children[finished] == grown(
            matrix,
            dictionary,
            seen.push(frame.waiting[finished].pos),
            frame.waiting[finished],
        ),
{
    let whole = grown(matrix, dictionary, seen, frame.shape.leaf);
    assert(frame.shape.children =~= whole.children.take(finished));
}

/// The nodes made from the frame `from` down are nodes of the subtree that
/// the node of that frame will have in the end.
proof fn lemma_begun_below(
    builder: BuilderView,
    dictionary: Dictionary,
    start: PositionInMatrix,
    from: int,
)
    requires
        tracks(builder, dictionary, start),
        0 <= from < builder.frames.len(),
    ensures
        begun(builder.frames.skip(from)) <= node_count(
            grown(
                builder.matrix,
                dictionary,
                builder.seen().take(from + 1),
                builder.frames[from].shape.leaf,
            ),
        ),
    decreases builder.frames.len() - from,
{
    let matrix = builder.matrix;
    let frames = builder.frames;
    let n = frames.len() as int;
    let frame = frames[from];
    let seen = builder.seen().take(from + 1);
    let whole = grown(matrix, dictionary, seen, frame.shape.leaf);
    assert(frames.skip(from) =~= seq![frame] + frames.skip(from + 1));
    lemma_begun_concat(seq![frame], frames.skip(from + 1));
    lemma_begun_one(frame);
    if from == n - 1 {
        assert(frames.skip(from + 1) =~= Seq::<FrameView>::empty());
        assert(begun(Seq::<FrameView>::empty()) == 0);
        lemma_count_lone(frame.shape);
    } else {
        lemma_begun_below(builder, dictionary, start, from + 1);
        let at = frame.next - 1;
        let child = frames[from + 1].shape.leaf;
        assert(child == frame.waiting[at]);
        assert(builder.seen().take(from + 2) =~= seen.push(child.pos));
        assert(frame_grown(matrix, dictionary, seen, frame, at));
        lemma_frame_part(matrix, dictionary, seen, frame, at);
        lemma_count_part(whole.children, at);
    }
}

/// A construction that tracks the dictionary has made no more nodes than
/// the exploration tree has.
proof fn lemma_begun_bounded(builder: BuilderView, dictionary: Dictionary, start: PositionInMatrix)
    requires
        tracks(builder, dictionary, start),
    ensures
        begun(builder.frames) <= node_count(exploration_tree(builder.matrix, dictionary, start)),
{
    lemma_begun_below(builder, dictionary, start, 0);
    assert(builder.frames.skip(0) =~= builder.frames);
    assert(builder.seen().take(1) =~= seq![start]);
}

/// After `answers` answers a construction that still waits has made two
/// nodes more than it got answers; one that has finished got an answer for
/// each node but the root.
proof fn lemma_answers_counted(
    matrix: Matrix,
    dictionary: Dictionary,
    start: PositionInMatrix,
    answers: nat,
)
    requires
        start.in_grid(),
    ensures
        match reached(matrix, dictionary, start, answers) {
            ConstructionView::Pending(builder) => begun(builder.frames) == answers + 2 && answers
                + 2 <= node_count(exploration_tree(matrix, dictionary, start)),
            ConstructionView::Finished(shape) => answers + 1 >= node_count(
                exploration_tree(matrix, dictionary, start),
            ),
        },
    decreases answers,
{
    let total = node_count(exploration_tree(matrix, dictionary, start));
    lemma_reached_follows(matrix, dictionary, start, answers);
    if answers == 0 {
        let root = root_leaf(matrix, start);
        let frames = seq![
            FrameView { shape: lone(root), waiting: survivors(matrix, seq![start], None), next: 0 },
        ];
        lemma_settle_begun(matrix, frames);
        lemma_begun_one(frames[0]);
        assert(node_count_of_all(lone(root).children) == 0);
    } else {
        lemma_answers_counted(matrix, dictionary, start, (answers - 1) as nat);
        lemma_reached_follows(matrix, dictionary, start, (answers - 1) as nat);
        match reached(matrix, dictionary, start, (answers - 1) as nat) {
            ConstructionView::Pending(builder) => {
                let top = builder.frames.last();
                let asked = FrameView {
                    shape: top.shape,
                    waiting: survivors(
                        builder.matrix,
                        builder.seen(),
                        Some(dictionary(builder.request())),
                    ),
                    next: 0,
                };
                let next = builder.frames.drop_last().push(asked);
                assert(next.drop_last() =~= builder.frames.drop_last());
                lemma_settle_begun(builder.matrix, next);
            },
            ConstructionView::Finished(shape) => {},
        }
    }
    match reached(matrix, dictionary, start, answers) {
        ConstructionView::Pending(builder) => {
            lemma_begun_bounded(builder, dictionary, start);
        },
        ConstructionView::Finished(shape) => {},
    }
}

/// A construction comes to its end: it asks the dictionary once for each
/// node of the exploration tree but the root, and with the last answer it
/// finishes with that tree.
pub proof fn lemma_construction_finishes(
    matrix: Matrix,
    dictionary: Dictionary,
    start: PositionInMatrix,
)
    requires
        start.in_grid(),
    ensures
        forall|answers: nat|
            answers + 1 < node_count(exploration_tree(matrix, dictionary, start))
                ==> #[trigger] reached(matrix, dictionary, start, answers) is Pending,
        reached(
            matrix,
            dictionary,
            start,
            (node_count(exploration_tree(matrix, dictionary, start)) - 1) as nat,
        ) == ConstructionView::Finished(exploration_tree(matrix, dictionary, start)),
{
    let total = node_count(exploration_tree(matrix, dictionary, start));
    assert forall|answers: nat| answers + 1 < total implies #[trigger] reached(
        matrix,
        dictionary,
        start,
        answers,
    ) is Pending by {
        lemma_answers_counted(matrix, dictionary, start, answers);
    }
    lemma_answers_counted(matrix, dictionary, start, (total - 1) as nat);
    lemma_reached_follows(matrix, dictionary, start, (total - 1) as nat);
}

} // verus!
