//! The search engine: it explores the game tree to a fixed depth, caches a
//! score in each node, carries the score of the best reply up to its parent,
//! and recommends one of the best moves at the root.
//!
//! The replies to a position are its legal moves that lead to a playable
//! position. The rules engine yields a few moves that lead elsewhere; the
//! search passes them over.

use vstd::prelude::*;
use rand::rngs::StdRng;
use crate::evaluator::{evaluate, evaluation, lemma_evaluation_fits};
use crate::node::{
    law_best_is_highest,
    law_standing_is_an_order,
    lemma_children_wf,
    lemma_with_child_holds,
    lemma_with_child_wf,
    saturated,
    NodeView,
    SearchNode,
};
use crate::rules::{
    has_reply,
    is_playable,
    is_reply,
    legal_moves_of,
    position_after,
    side_to_move_of,
    Move,
    Position,
    Side,
    SQUARES,
};
use crate::score::law_order_total;
use crate::selector::{
    candidates,
    is_top,
    law_candidate_exists,
    law_candidates_are_the_best,
    law_tied_children_are_all_candidates,
    select,
};

verus! {

/// The number of plies still to explore below a node at `depth`.
pub open spec fn depth_left(max_depth: usize, depth: usize) -> nat {
    if depth >= max_depth {
        0
    } else {
        (max_depth - depth) as nat
    }
}

/// The node that is made for the reply `mv` in `position`, before anything
/// below it is explored: a leaf that holds the score of the position after
/// the move, seen from `side`. After the move the other side is to move.
pub open spec fn reply_node(position: Position, side: Side, mv: Move) -> NodeView {
    NodeView::leaf(
        evaluation(position_after(position, mv), side),
        side_to_move_of(position).opposite(),
        Some(mv),
    )
}

/// The subtree that stands for the reply `mv` in `position` once `left`
/// plies are explored from `position`.
pub open spec fn reply_tree(position: Position, side: Side, left: nat, mv: Move) -> NodeView
    decreases left, 0nat, 0nat,
{
    if left == 0 {
        reply_node(position, side, mv)
    } else {
        explored(
            reply_node(position, side, mv),
            position_after(position, mv),
            side,
            (left - 1) as nat,
            false,
        )
    }
}

/// The tree that `node` becomes when `left` plies are explored below it from
/// `position`: every legal move is visited in turn, and a node that is not
/// the root then takes the score of its best child.
pub open spec fn explored(
    node: NodeView,
    position: Position,
    side: Side,
    left: nat,
    at_root: bool,
) -> NodeView
    decreases left, 2nat, 0nat,
{
    if left == 0 {
        node
    } else {
        let grown = visited(node, position, side, left, legal_moves_of(position).len());
        if at_root {
            grown
        } else {
            grown.with_best_value()
        }
    }
}

/// The tree that `node` becomes when the first `count` legal moves of
/// `position` are visited, with `left` plies to explore. A move is passed
/// over where the node holds a child for it already whose score is below the
/// node's own, and where it leads to a position that is not playable; for
/// any other move the reply is made, explored with one ply less, and kept as
/// the child for that move.
pub open spec fn visited(
    node: NodeView,
    position: Position,
    side: Side,
    left: nat,
    count: nat,
) -> NodeView
    decreases left, 1nat, count,
{
    if count == 0 || left == 0 {
        node
    } else {
        let before = visited(node, position, side, left, (count - 1) as nat);
        let mv = legal_moves_of(position)[count - 1];
        if before.prunes(mv) || !is_playable(position_after(position, mv)) {
            before
        } else {
            before.with_child(reply_tree(position, side, left, mv))
        }
    }
}

/// The root that a search starts from: a leaf without a move that holds the
/// score of `position` itself.
pub open spec fn root_of(position: Position, side: Side) -> NodeView {
    NodeView::leaf(evaluation(position, side), side_to_move_of(position), None)
}

/// The tree that a search of `position` to `max_depth` plies builds.
pub open spec fn search_tree(position: Position, side: Side, max_depth: nat) -> NodeView {
    explored(root_of(position, side), position, side, max_depth, true)
}

/// What a search may recommend: nothing exactly where it explores nothing
/// or the position has no reply; else a reply that is a candidate at the
/// root of the tree built; and the reply itself where the position has one
/// legal move only.
pub open spec fn is_recommended(
    position: Position,
    side: Side,
    max_depth: usize,
    choice: Option<Move>,
) -> bool {
    &&& choice is None <==> max_depth == 0 || !has_reply(position)
    &&& choice is Some ==> is_reply(position, choice.unwrap())
    &&& choice is Some ==> candidates(search_tree(position, side, max_depth as nat)).contains(
        choice.unwrap(),
    )
    &&& max_depth >= 1 && legal_moves_of(position).len() == 1 && is_reply(
        position,
        legal_moves_of(position)[0],
    ) ==> choice == Some(legal_moves_of(position)[0])
}

/// Explores the game tree below `node`, which stands for `position` at
/// `depth`, down to `max_depth`. At `max_depth` and below nothing is added.
pub fn expand(
    position: &Position,
    side: Side,
    max_depth: usize,
    depth: usize,
    node: &mut SearchNode,
)
    requires
        old(node)@.wf(),
    ensures
        final(node)@ == explored(
            old(node)@,
            *position,
            side,
            depth_left(max_depth, depth),
            depth == 0,
        ),
        final(node)@.wf(),
    decreases depth_left(max_depth, depth),
{
    if depth >= max_depth {
        return ;
    }
    let ghost start = node@;
    let ghost left = depth_left(max_depth, depth);
    let moves = position.legal_moves();
    let mut i: usize = 0;
    while i < moves.len()
        invariant
            i <= moves.len(),
            depth < max_depth,
            left == depth_left(max_depth, depth),
            moves@ == legal_moves_of(*position),
            forall|j: int|
                0 <= j < moves@.len() ==> (#[trigger] moves@[j]).from < SQUARES && moves@[j].to
                    < SQUARES,
            node@ == visited(start, *position, side, left, i as nat),
            node@.wf(),
        decreases moves.len() - i,
    {
        let mv = moves[i];
        if !node.prunes(mv) {
            match position.after_legal(mv) {
                Some(next) => {
                    let value = evaluate(&next, side);
                    let mut child = SearchNode::new(value, next.side_to_move(), mv);
                    expand(&next, side, max_depth, depth + 1, &mut child);
                    proof {
                        lemma_reply_tree_keeps(*position, side, left, mv);
                    }
                    node.add_child(child);
                },
                None => {},
            }
        }
        i = i + 1;
    }
    if depth != 0 {
        node.adopt_best_value();
    }
}

/// Recommends a move for `position` and counts the nodes of the tree that
/// was built for it, the root included; the count is `usize::MAX` where
/// there are more.
pub fn search_with_count(
    position: &Position,
    side: Side,
    max_depth: usize,
    rng: &mut StdRng,
) -> (outcome: (Option<Move>, usize))
    ensures
        is_recommended(*position, side, max_depth, outcome.0),
        outcome.1 == saturated(search_tree(*position, side, max_depth as nat).size()),
{
    let value = evaluate(position, side);
    let mut root = SearchNode::root(value, position.side_to_move());
    expand(position, side, max_depth, 0, &mut root);
    let choice = select(&root, rng);
    let count = root.size();
    proof {
        law_search_recommends_replies(*position, side, max_depth as nat);
        if choice is Some {
            assert(is_reply(*position, choice.unwrap()));
        }
        if legal_moves_of(*position).len() == 1 && choice is Some {
            let found = choose|k: int|
                0 <= k < legal_moves_of(*position).len() && legal_moves_of(*position)[k]
                    == choice.unwrap();
            assert(found == 0);
        }
    }
    (choice, count)
}

/// Recommends a move for `position`: explores the game tree to `max_depth`
/// plies and picks, at random, one of the replies whose child has the
/// highest score at the root. `None` where nothing is explored: at depth 0,
/// and where the position has no reply.
pub fn search(position: &Position, side: Side, max_depth: usize, rng: &mut StdRng) -> (choice:
    Option<Move>)
    ensures
        choice is None <==> max_depth == 0 || !has_reply(*position),
        choice is Some ==> is_reply(*position, choice.unwrap()),
        choice is Some ==> legal_moves_of(*position).contains(choice.unwrap()),
        choice is Some ==> candidates(search_tree(*position, side, max_depth as nat)).contains(
            choice.unwrap(),
        ),
        max_depth >= 1 && legal_moves_of(*position).len() == 1 && is_reply(
            *position,
            legal_moves_of(*position)[0],
        ) ==> choice == Some(legal_moves_of(*position)[0]),
{
    search_with_count(position, side, max_depth, rng).0
}

/// Exploring a node changes neither its move nor its side to move, and at
/// the root not its score either.
pub proof fn lemma_explored_keeps(
    node: NodeView,
    position: Position,
    side: Side,
    left: nat,
    at_root: bool,
)
    ensures
        explored(node, position, side, left, at_root).mv == node.mv,
        explored(node, position, side, left, at_root).turn == node.turn,
        at_root ==> explored(node, position, side, left, at_root).value == node.value,
        left == 0 ==> explored(node, position, side, left, at_root) == node,
{
    if left > 0 {
        lemma_visited_keeps(node, position, side, left, legal_moves_of(position).len());
    }
}

/// Visiting moves changes neither the move of a node nor its side to move
/// nor its score.
pub proof fn lemma_visited_keeps(
    node: NodeView,
    position: Position,
    side: Side,
    left: nat,
    count: nat,
)
    ensures
        visited(node, position, side, left, count).mv == node.mv,
        visited(node, position, side, left, count).turn == node.turn,
        visited(node, position, side, left, count).value == node.value,
    decreases count,
{
    if count > 0 && left > 0 {
        lemma_visited_keeps(node, position, side, left, (count - 1) as nat);
    }
}

/// The subtree of a reply has the reply as its move, and in it the side is
/// to move that does not move in the position replied to. With one ply to
/// explore it is the leaf made for the reply.
pub proof fn lemma_reply_tree_keeps(position: Position, side: Side, left: nat, mv: Move)
    ensures
        reply_tree(position, side, left, mv).mv == Some(mv),
        reply_tree(position, side, left, mv).turn == side_to_move_of(position).opposite(),
        left <= 1 ==> reply_tree(position, side, left, mv) == reply_node(position, side, mv),
{
    if left > 0 {
        lemma_explored_keeps(
            reply_node(position, side, mv),
            position_after(position, mv),
            side,
            (left - 1) as nat,
            false,
        );
    }
}

/// After the first `count` legal moves are visited, a node holds a child
/// for a move exactly where it held one before or the move is a reply among
/// those visited.
pub proof fn lemma_visited_holds(
    node: NodeView,
    position: Position,
    side: Side,
    left: nat,
    count: nat,
    mv: Move,
)
    requires
        left > 0,
        count <= legal_moves_of(position).len(),
    ensures
        visited(node, position, side, left, count).holds(Some(mv)) <==> node.holds(Some(mv)) || (
        is_playable(position_after(position, mv)) && exists|k: int|
            0 <= k < count && #[trigger] legal_moves_of(position)[k] == mv),
    decreases count,
{
    let moves = legal_moves_of(position);
    if count > 0 {
        let before = visited(node, position, side, left, (count - 1) as nat);
        let after = visited(node, position, side, left, count);
        let last = moves[count - 1];
        let passed = before.prunes(last) || !is_playable(position_after(position, last));
        lemma_visited_holds(node, position, side, left, (count - 1) as nat, mv);
        lemma_reply_tree_keeps(position, side, left, last);
        if !passed {
            lemma_with_child_holds(before, reply_tree(position, side, left, last), Some(mv));
        }
        if after.holds(Some(mv)) {
            if !before.holds(Some(mv)) {
                assert(moves[count - 1] == mv);
            } else if !node.holds(Some(mv)) {
                let k = choose|k: int| 0 <= k < count - 1 && #[trigger] moves[k] == mv;
                assert(0 <= k < count && moves[k] == mv);
            }
        }
        if is_playable(position_after(position, mv)) && exists|k: int|
            0 <= k < count && #[trigger] moves[k] == mv {
            let k = choose|k: int| 0 <= k < count && #[trigger] moves[k] == mv;
            if k < count - 1 {
                assert(before.holds(Some(mv)));
            }
        }
    }
}

/// Whether `child` is the subtree of a reply among the first `count` legal
/// moves of `position`.
pub open spec fn is_reply_tree(
    position: Position,
    side: Side,
    left: nat,
    count: nat,
    child: NodeView,
) -> bool {
    exists|k: int|
        0 <= k < count && k < legal_moves_of(position).len() && is_playable(
            position_after(position, #[trigger] legal_moves_of(position)[k]),
        ) && child == reply_tree(position, side, left, legal_moves_of(position)[k])
}

/// After the first `count` legal moves are visited, every child of a node
/// that had none before is the subtree of a reply among those moves.
pub proof fn lemma_visited_children(
    node: NodeView,
    position: Position,
    side: Side,
    left: nat,
    count: nat,
)
    requires
        node.children.len() == 0,
        count <= legal_moves_of(position).len(),
    ensures
        forall|i: int|
            0 <= i < visited(node, position, side, left, count).children.len()
                ==> is_reply_tree(
                position,
                side,
                left,
                count,
                #[trigger] visited(node, position, side, left, count).children[i],
            ),
    decreases count,
{
    let moves = legal_moves_of(position);
    let after = visited(node, position, side, left, count);
    if count > 0 && left > 0 {
        let before = visited(node, position, side, left, (count - 1) as nat);
        let last = moves[count - 1];
        let grown = reply_tree(position, side, left, last);
        lemma_visited_children(node, position, side, left, (count - 1) as nat);
        assert forall|i: int| 0 <= i < after.children.len() implies is_reply_tree(
            position,
            side,
            left,
            count,
            #[trigger] after.children[i],
        ) by {
            if after.children[i] == grown && after != before {
                assert(is_playable(position_after(position, moves[count - 1])));
            } else {
                assert(after.children[i] == before.children[i]);
                assert(is_reply_tree(position, side, left, (count - 1) as nat, before.children[i]));
                let k = choose|k: int|
                    0 <= k < count - 1 && k < moves.len() && is_playable(
                        position_after(position, #[trigger] moves[k]),
                    ) && before.children[i] == reply_tree(position, side, left, moves[k]);
                assert(0 <= k < count && is_playable(position_after(position, moves[k])));
            }
        }
    }
}

/// Exploring a well-formed tree leaves it well formed.
pub proof fn lemma_explored_wf(
    node: NodeView,
    position: Position,
    side: Side,
    left: nat,
    at_root: bool,
)
    requires
        node.wf(),
    ensures
        explored(node, position, side, left, at_root).wf(),
    decreases left, 2nat, 0nat,
{
    if left > 0 {
        let grown = visited(node, position, side, left, legal_moves_of(position).len());
        lemma_visited_wf(node, position, side, left, legal_moves_of(position).len());
        lemma_children_wf(grown);
        if grown.children.len() > 0 {
            law_best_is_highest(grown.children, grown.children.len());
        }
    }
}

/// Visiting moves of a well-formed tree leaves it well formed.
pub proof fn lemma_visited_wf(
    node: NodeView,
    position: Position,
    side: Side,
    left: nat,
    count: nat,
)
    requires
        node.wf(),
    ensures
        visited(node, position, side, left, count).wf(),
    decreases left, 1nat, count,
{
    if count > 0 && left > 0 {
        let before = visited(node, position, side, left, (count - 1) as nat);
        let mv = legal_moves_of(position)[count - 1];
        lemma_visited_wf(node, position, side, left, (count - 1) as nat);
        if !before.prunes(mv) && is_playable(position_after(position, mv)) {
            let next = position_after(position, mv);
            lemma_evaluation_fits(next, side);
            lemma_explored_wf(
                reply_node(position, side, mv),
                next,
                side,
                (left - 1) as nat,
                false,
            );
            lemma_reply_tree_keeps(position, side, left, mv);
            lemma_with_child_wf(before, reply_tree(position, side, left, mv));
        }
    }
}

/// The tree that a search builds is well formed.
pub proof fn lemma_search_tree_wf(position: Position, side: Side, max_depth: nat)
    ensures
        search_tree(position, side, max_depth).wf(),
{
    lemma_evaluation_fits(position, side);
    lemma_explored_wf(root_of(position, side), position, side, max_depth, true);
}

/// Once at least one ply is explored, the root of a search holds a child
/// for a move exactly where the move is a reply in the position searched.
pub proof fn lemma_root_holds_replies(position: Position, side: Side, max_depth: nat, mv: Move)
    requires
        max_depth > 0,
    ensures
        search_tree(position, side, max_depth).holds(Some(mv)) <==> is_reply(position, mv),
{
    let moves = legal_moves_of(position);
    let root = root_of(position, side);
    lemma_visited_holds(root, position, side, max_depth, moves.len(), mv);
    assert(!root.holds(Some(mv)));
    if moves.contains(mv) {
        let k = choose|k: int| 0 <= k < moves.len() && moves[k] == mv;
        assert(0 <= k < moves.len() && moves[k] == mv);
    }
}

/// A search recommends replies only, and has a move to recommend exactly
/// where it explores at least one ply and the position has a reply.
pub proof fn law_search_recommends_replies(position: Position, side: Side, max_depth: nat)
    ensures
        candidates(search_tree(position, side, max_depth)).len() == 0 <==> max_depth == 0
            || !has_reply(position),
        forall|mv: Move|
            candidates(search_tree(position, side, max_depth)).contains(mv) ==> #[trigger] is_reply(
                position,
                mv,
            ),
{
    let tree = search_tree(position, side, max_depth);
    lemma_search_tree_wf(position, side, max_depth);
    law_candidate_exists(tree);
    lemma_children_wf(tree);
    if max_depth > 0 {
        if has_reply(position) {
            let mv = choose|mv: Move| is_reply(position, mv);
            lemma_root_holds_replies(position, side, max_depth, mv);
        }
        if tree.children.len() > 0 {
            let first = tree.children[0].mv.unwrap();
            assert(tree.holds(Some(first)));
            lemma_root_holds_replies(position, side, max_depth, first);
        }
    }
    assert forall|mv: Move| candidates(tree).contains(mv) implies #[trigger] is_reply(
        position,
        mv,
    ) by {
        law_candidates_are_the_best(tree, mv);
        let place = choose|i: int| is_top(tree, i) && (#[trigger] tree.children[i]).mv == Some(mv);
        assert(tree.children[place].mv == Some(mv));
        assert(tree.holds(Some(mv)));
        if max_depth > 0 {
            lemma_root_holds_replies(position, side, max_depth, mv);
        }
    }
}

/// Where a position has one legal move only, the move is a reply, and at
/// least one ply is explored, that move is the only candidate of the search.
pub proof fn law_single_reply_is_recommended(position: Position, side: Side, max_depth: nat)
    requires
        max_depth >= 1,
        legal_moves_of(position).len() == 1,
        is_reply(position, legal_moves_of(position)[0]),
    ensures
        candidates(search_tree(position, side, max_depth)).len() > 0,
        forall|mv: Move|
            candidates(search_tree(position, side, max_depth)).contains(mv) ==> mv
                == legal_moves_of(position)[0],
{
    let moves = legal_moves_of(position);
    law_search_recommends_replies(position, side, max_depth);
    assert forall|mv: Move|
        candidates(search_tree(position, side, max_depth)).contains(mv) implies mv
        == moves[0] by {
        assert(is_reply(position, mv));
        let k = choose|k: int| 0 <= k < moves.len() && moves[k] == mv;
        assert(k == 0);
    }
}

/// At depth 0 a search explores nothing and has no move to recommend.
pub proof fn law_depth_zero_recommends_nothing(position: Position, side: Side)
    ensures
        search_tree(position, side, 0) == root_of(position, side),
        candidates(search_tree(position, side, 0)).len() == 0,
{
}

/// Building the tree is a function of the position, the side and the depth:
/// two trees explored from the same node under the same three have the same
/// score at the root, and are the same tree.
pub proof fn law_exploring_is_repeatable(
    first: NodeView,
    second: NodeView,
    node: NodeView,
    position: Position,
    side: Side,
    max_depth: usize,
    depth: usize,
)
    requires
        first == explored(node, position, side, depth_left(max_depth, depth), depth == 0),
        second == explored(node, position, side, depth_left(max_depth, depth), depth == 0),
    ensures
        first.value == second.value,
        first == second,
{
}

/// What the score of an explored node is: below the root, a node without
/// children holds the score that it was made with, and a node with children
/// the score of its best child; the root keeps its own.
pub proof fn law_explored_value(
    node: NodeView,
    position: Position,
    side: Side,
    left: nat,
    at_root: bool,
)
    ensures
        ({
            let tree = explored(node, position, side, left, at_root);
            &&& at_root || tree.children.len() == 0 ==> tree.value == node.value
            &&& !at_root && left > 0 && tree.children.len() > 0 ==> tree.value
                == tree.children[tree.best_index()].value
        }),
{
    if left > 0 {
        lemma_visited_keeps(node, position, side, left, legal_moves_of(position).len());
    }
}

/// Below the root, a node that was a leaf and has children once it is
/// explored holds the highest score among its children: in all of them the
/// same side is to move, so the best child is the one of the highest score.
pub proof fn law_explored_value_is_highest(
    node: NodeView,
    position: Position,
    side: Side,
    left: nat,
)
    requires
        node.wf(),
        node.children.len() == 0,
        left > 0,
    ensures
        ({
            let tree = explored(node, position, side, left, false);
            &&& forall|i: int|
                0 <= i < tree.children.len() ==> (#[trigger] tree.children[i]).turn
                    == side_to_move_of(position).opposite()
            &&& forall|i: int|
                0 <= i < tree.children.len() ==> (#[trigger] tree.children[i]).value.le(tree.value)
            &&& tree.children.len() > 0 ==> exists|i: int|
                0 <= i < tree.children.len() && (#[trigger] tree.children[i]).value == tree.value
        }),
{
    let count = legal_moves_of(position).len();
    let grown = visited(node, position, side, left, count);
    let tree = explored(node, position, side, left, false);
    lemma_visited_wf(node, position, side, left, count);
    lemma_children_wf(grown);
    lemma_visited_children(node, position, side, left, count);
    assert(tree.children == grown.children);
    assert forall|i: int| 0 <= i < tree.children.len() implies (#[trigger] tree.children[i]).turn
        == side_to_move_of(position).opposite() by {
        assert(is_reply_tree(position, side, left, count, grown.children[i]));
        let k = choose|k: int|
            0 <= k < count && k < legal_moves_of(position).len() && is_playable(
                position_after(position, #[trigger] legal_moves_of(position)[k]),
            ) && grown.children[i] == reply_tree(position, side, left, legal_moves_of(position)[k]);
        lemma_reply_tree_keeps(position, side, left, legal_moves_of(position)[k]);
    }
    if tree.children.len() > 0 {
        let best = grown.best_index();
        law_best_is_highest(grown.children, grown.children.len());
        assert(tree.value == grown.children[best].value);
        assert(tree.children[best].value == tree.value);
        assert forall|i: int| 0 <= i < tree.children.len() implies (
        #[trigger] tree.children[i]).value.le(tree.value) by {
            assert(!grown.children[i].outranks(grown.children[best]));
            assert(grown.children[i].turn == grown.children[best].turn);
            law_order_total(grown.children[i].value, grown.children[best].value);
            law_standing_is_an_order(
                grown.children[i],
                grown.children[best],
                grown.children[best],
            );
        }
    }
}

/// Where all the replies to a position lead to positions of the same score,
/// every one of them is a candidate of a search of one ply: the move that
/// the search recommends is any of the replies.
pub proof fn law_tied_replies_are_all_candidates(position: Position, side: Side)
    requires
        forall|first: Move, second: Move|
            #![trigger is_reply(position, first), is_reply(position, second)]
            is_reply(position, first) && is_reply(position, second) ==> evaluation(
                position_after(position, first),
                side,
            ).same(evaluation(position_after(position, second), side)),
    ensures
        forall|mv: Move|
            #[trigger] is_reply(position, mv) ==> candidates(
                search_tree(position, side, 1),
            ).contains(mv),
{
    let tree = search_tree(position, side, 1);
    let moves = legal_moves_of(position);
    let count = moves.len();
    lemma_search_tree_wf(position, side, 1);
    lemma_visited_children(root_of(position, side), position, side, 1, count);
    assert forall|i: int| 0 <= i < tree.children.len() implies {
        &&& (#[trigger] tree.children[i]).mv is Some
        &&& is_reply(position, tree.children[i].mv.unwrap())
        &&& tree.children[i].value == evaluation(
            position_after(position, tree.children[i].mv.unwrap()),
            side,
        )
    } by {
        assert(is_reply_tree(position, side, 1, count, tree.children[i]));
        let k = choose|k: int|
            0 <= k < count && k < moves.len() && is_playable(
                position_after(position, #[trigger] moves[k]),
            ) && tree.children[i] == reply_tree(position, side, 1, moves[k]);
        lemma_reply_tree_keeps(position, side, 1, moves[k]);
        assert(moves.contains(moves[k]));
    }
    assert forall|i: int, j: int|
        0 <= i < tree.children.len() && 0 <= j < tree.children.len() implies (
    #[trigger] tree.children[i]).value.same((#[trigger] tree.children[j]).value) by {
        assert(is_reply(position, tree.children[i].mv.unwrap()));
        assert(is_reply(position, tree.children[j].mv.unwrap()));
    }
    law_tied_children_are_all_candidates(tree);
    assert forall|mv: Move| #[trigger] is_reply(position, mv) implies candidates(tree).contains(
        mv,
    ) by {
        lemma_root_holds_replies(position, side, 1, mv);
        let place = tree.index_of(Some(mv));
        assert(tree.children[place].mv == Some(mv));
        assert(candidates(tree)[place] == mv);
    }
}

} // verus!
