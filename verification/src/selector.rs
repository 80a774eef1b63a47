//! The move selector: among the children of a root, those of the highest
//! score are the candidates, and one of them is picked at random.

use vstd::prelude::*;
use rand::rngs::StdRng;
use rand::seq::SliceRandom;
use crate::node::{lemma_children_wf, NodeView, SearchNode};
use crate::rules::Move;
use crate::score::{law_order_total, law_order_transitive, Fraction, Score};

verus! {

/// `rand::rngs::StdRng`, the random number generator that a caller seeds and
/// hands in. Nothing inside it is visible here.
#[verifier::external_type_specification]
#[verifier::external_body]
pub struct ExStdRng(StdRng);

/// The place of the first child of the highest score among the first
/// `limit` of `children`.
pub open spec fn top_below(children: Seq<NodeView>, limit: nat) -> int
    decreases limit,
{
    if limit <= 1 {
        0
    } else {
        let top = top_below(children, (limit - 1) as nat);
        if children[top].value.lt(children[limit - 1].value) {
            limit - 1
        } else {
            top
        }
    }
}

/// The highest score among the children of `root`, where it has children.
pub open spec fn top_value(root: NodeView) -> Fraction {
    root.children[top_below(root.children, root.children.len())].value
}

/// The moves of those of the first `limit` of `children` whose score is the
/// same number as `top`, in the order of the children.
pub open spec fn candidates_below(children: Seq<NodeView>, top: Fraction, limit: nat) -> Seq<Move>
    decreases limit,
{
    if limit == 0 {
        Seq::empty()
    } else {
        let rest = candidates_below(children, top, (limit - 1) as nat);
        match children[limit - 1].mv {
            Some(mv) => if children[limit - 1].value.same(top) {
                rest.push(mv)
            } else {
                rest
            },
            None => rest,
        }
    }
}

/// The candidates at `root`: the moves of the children whose score is the
/// highest among the children, in the order of the children.
pub open spec fn candidates(root: NodeView) -> Seq<Move> {
    if root.children.len() == 0 {
        Seq::empty()
    } else {
        candidates_below(root.children, top_value(root), root.children.len())
    }
}

/// Whether the child in place `place` has the highest score among the
/// children of `root`.
pub open spec fn is_top(root: NodeView, place: int) -> bool {
    &&& 0 <= place < root.children.len()
    &&& forall|j: int|
        0 <= j < root.children.len() ==> (#[trigger] root.children[j]).value.le(
            root.children[place].value,
        )
}

/// `SliceRandom::choose` on the candidates: `None` for an empty slice, else
/// one of its elements, picked by a uniformly distributed index. Which one
/// depends on the state of `rng`, so only what holds of every outcome is
/// stated.
#[verifier::external_body]
fn choose_among(candidates: &Vec<Move>, rng: &mut StdRng) -> (picked: Option<Move>)
    ensures
        candidates@.len() == 0 ==> picked is None,
        candidates@.len() > 0 ==> picked is Some && candidates@.contains(picked.unwrap()),
{
    candidates.choose(rng).copied()
}

/// The highest score among the children of `root`; `None` where it has no
/// children.
pub fn highest_value(root: &SearchNode) -> (top: Option<Score>)
    ensures
        top is None <==> root@.children.len() == 0,
        top is Some ==> top.unwrap()@ == top_value(root@),
{
    let count = root.child_count();
    if count == 0 {
        return None;
    }
    let mut top: Score = root.child(0).value();
    let mut i: usize = 1;
    while i < count
        invariant
            1 <= i <= count,
            count == root@.children.len(),
            top@ == root@.children[top_below(root@.children, i as nat)].value,
        decreases count - i,
    {
        let value = root.child(i).value();
        if top.less_than(&value) {
            top = value;
        }
        i = i + 1;
    }
    Some(top)
}

/// The candidates at `root`.
pub fn best_moves(root: &SearchNode) -> (moves: Vec<Move>)
    ensures
        moves@ == candidates(root@),
{
    let mut moves: Vec<Move> = Vec::new();
    match highest_value(root) {
        None => {},
        Some(top) => {
            let count = root.child_count();
            let mut i: usize = 0;
            while i < count
                invariant
                    i <= count,
                    count == root@.children.len(),
                    top@ == top_value(root@),
                    moves@ == candidates_below(root@.children, top@, i as nat),
                decreases count - i,
            {
                let child = root.child(i);
                match child.mv() {
                    Some(mv) => {
                        if child.value().equals(&top) {
                            moves.push(mv);
                        }
                    },
                    None => {},
                }
                i = i + 1;
            }
        },
    }
    moves
}

/// One of the candidates at `root`, picked at random; `None` where there is
/// no candidate.
pub fn select(root: &SearchNode, rng: &mut StdRng) -> (choice: Option<Move>)
    ensures
        choice is None <==> candidates(root@).len() == 0,
        choice is Some ==> candidates(root@).contains(choice.unwrap()),
        candidates(root@).len() == 1 ==> choice == Some(candidates(root@)[0]),
{
    let moves = best_moves(root);
    let choice = choose_among(&moves, rng);
    assert(moves@.len() == 1 && moves@.contains(choice.unwrap()) ==> choice.unwrap() == moves@[0]);
    choice
}

/// The first child of the highest score among the first `limit` is one of
/// them, and none of them has a higher score.
pub proof fn lemma_top_is_highest(children: Seq<NodeView>, limit: nat)
    requires
        1 <= limit <= children.len(),
        forall|i: int| 0 <= i < children.len() ==> (#[trigger] children[i]).value.den > 0,
    ensures
        0 <= top_below(children, limit) < limit,
        forall|j: int|
            0 <= j < limit ==> (#[trigger] children[j]).value.le(
                children[top_below(children, limit)].value,
            ),
    decreases limit,
{
    let top = top_below(children, limit);
    if limit > 1 {
        let earlier = top_below(children, (limit - 1) as nat);
        lemma_top_is_highest(children, (limit - 1) as nat);
        assert forall|j: int| 0 <= j < limit implies (#[trigger] children[j]).value.le(
            children[top].value,
        ) by {
            law_order_total(children[earlier].value, children[limit - 1].value);
            law_order_transitive(children[j].value, children[earlier].value, children[top].value);
        }
    }
}

/// A move is among the first `limit` candidates exactly where one of the
/// first `limit` children has it and has a score that is the same number as
/// `top`.
pub proof fn lemma_candidates_below(
    children: Seq<NodeView>,
    top: Fraction,
    limit: nat,
    mv: Move,
)
    requires
        limit <= children.len(),
    ensures
        candidates_below(children, top, limit).contains(mv) <==> exists|i: int|
            0 <= i < limit && (#[trigger] children[i]).mv == Some(mv) && children[i].value.same(
                top,
            ),
    decreases limit,
{
    if limit > 0 {
        let rest = candidates_below(children, top, (limit - 1) as nat);
        let all = candidates_below(children, top, limit);
        let last = children[limit - 1];
        lemma_candidates_below(children, top, (limit - 1) as nat, mv);
        if last.mv is Some && last.value.same(top) {
            assert(all == rest.push(last.mv.unwrap()));
            assert(all.contains(mv) <==> rest.contains(mv) || last.mv.unwrap() == mv) by {
                if all.contains(mv) {
                    let k = choose|k: int| 0 <= k < all.len() && all[k] == mv;
                    if k < rest.len() {
                        assert(rest[k] == mv);
                    }
                }
                if rest.contains(mv) {
                    let k = choose|k: int| 0 <= k < rest.len() && rest[k] == mv;
                    assert(all[k] == mv);
                }
                if last.mv.unwrap() == mv {
                    assert(all[rest.len() as int] == mv);
                }
            }
        }
        if all.contains(mv) {
            if rest.contains(mv) {
                let i = choose|i: int|
                    0 <= i < limit - 1 && (#[trigger] children[i]).mv == Some(mv)
                        && children[i].value.same(top);
                assert(0 <= i < limit && children[i].mv == Some(mv) && children[i].value.same(top));
            } else {
                assert(children[limit - 1].mv == Some(mv) && children[limit - 1].value.same(top));
            }
        }
        if exists|i: int|
            0 <= i < limit && (#[trigger] children[i]).mv == Some(mv) && children[i].value.same(
                top,
            ) {
            let i = choose|i: int|
                0 <= i < limit && (#[trigger] children[i]).mv == Some(mv)
                    && children[i].value.same(top);
            if i < limit - 1 {
                assert(rest.contains(mv));
            }
        }
    }
}

/// The candidates are the moves of the children of the highest score: a
/// move is a candidate exactly where a child has it whose score no other
/// child's score exceeds.
pub proof fn law_candidates_are_the_best(root: NodeView, mv: Move)
    requires
        root.wf(),
    ensures
        candidates(root).contains(mv) <==> exists|i: int|
            is_top(root, i) && (#[trigger] root.children[i]).mv == Some(mv),
{
    let children = root.children;
    let count = children.len();
    lemma_children_wf(root);
    if count > 0 {
        let top = top_below(children, count);
        lemma_top_is_highest(children, count);
        lemma_candidates_below(children, top_value(root), count, mv);
        if candidates(root).contains(mv) {
            let i = choose|i: int|
                0 <= i < count && (#[trigger] children[i]).mv == Some(mv) && children[i].value.same(
                    top_value(root),
                );
            assert forall|j: int| 0 <= j < count implies (#[trigger] children[j]).value.le(
                children[i].value,
            ) by {
                law_order_total(children[i].value, children[top].value);
                law_order_transitive(children[j].value, children[top].value, children[i].value);
            }
            assert(is_top(root, i));
        }
        if exists|i: int| is_top(root, i) && (#[trigger] root.children[i]).mv == Some(mv) {
            let i = choose|i: int| is_top(root, i) && (#[trigger] root.children[i]).mv == Some(mv);
            assert(children[top].value.le(children[i].value));
            assert(children[i].value.le(children[top].value));
            law_order_total(children[i].value, children[top].value);
            assert(0 <= i < count && children[i].mv == Some(mv) && children[i].value.same(
                top_value(root),
            ));
        }
    } else {
        assert(!candidates(root).contains(mv));
    }
}

/// There is a candidate exactly where the root has a child.
pub proof fn law_candidate_exists(root: NodeView)
    requires
        root.wf(),
    ensures
        candidates(root).len() > 0 <==> root.children.len() > 0,
{
    let children = root.children;
    let count = children.len();
    lemma_children_wf(root);
    if count > 0 {
        let top = top_below(children, count);
        lemma_top_is_highest(children, count);
        let mv = children[top].mv.unwrap();
        lemma_candidates_below(children, top_value(root), count, mv);
        assert(children[top].mv == Some(mv) && children[top].value.same(top_value(root)));
        assert(candidates(root).contains(mv));
    }
}

/// Where all the children of a root have the same score, every child's
/// move is a candidate, in the place of the child: the move selected is any
/// of them.
pub proof fn law_tied_children_are_all_candidates(root: NodeView)
    requires
        root.wf(),
        forall|i: int, j: int|
            0 <= i < root.children.len() && 0 <= j < root.children.len() ==> (
            #[trigger] root.children[i]).value.same((#[trigger] root.children[j]).value),
    ensures
        candidates(root).len() == root.children.len(),
        forall|i: int|
            0 <= i < root.children.len() ==> #[trigger] candidates(root)[i]
                == root.children[i].mv.unwrap(),
{
    if root.children.len() > 0 {
        lemma_children_wf(root);
        lemma_top_is_highest(root.children, root.children.len());
        lemma_tied_below(root, top_value(root), root.children.len());
    }
}

/// Where the first `limit` children all have a move and the score `top`,
/// their moves are the first `limit` candidates, in their order.
proof fn lemma_tied_below(root: NodeView, top: Fraction, limit: nat)
    requires
        limit <= root.children.len(),
        forall|i: int|
            0 <= i < root.children.len() ==> (#[trigger] root.children[i]).mv is Some
                && root.children[i].value.same(top),
    ensures
        candidates_below(root.children, top, limit).len() == limit,
        forall|i: int|
            0 <= i < limit ==> #[trigger] candidates_below(root.children, top, limit)[i]
                == root.children[i].mv.unwrap(),
    decreases limit,
{
    if limit > 0 {
        lemma_tied_below(root, top, (limit - 1) as nat);
        assert(root.children[limit - 1].mv is Some);
    }
}

/// No move is a candidate twice: a uniformly distributed place among the
/// candidates picks each candidate move with the same probability.
pub proof fn law_candidates_differ(root: NodeView)
    requires
        root.wf(),
    ensures
        candidates(root).no_duplicates(),
{
    if root.children.len() > 0 {
        lemma_candidates_differ_below(root, top_value(root), root.children.len());
    }
}

/// The first `limit` candidates differ from each other, and each is the
/// move of one of the first `limit` children.
proof fn lemma_candidates_differ_below(root: NodeView, top: Fraction, limit: nat)
    requires
        root.wf(),
        limit <= root.children.len(),
    ensures
        candidates_below(root.children, top, limit).no_duplicates(),
    decreases limit,
{
    if limit > 0 {
        let rest = candidates_below(root.children, top, (limit - 1) as nat);
        let all = candidates_below(root.children, top, limit);
        let last = root.children[limit - 1];
        lemma_candidates_differ_below(root, top, (limit - 1) as nat);
        if last.mv is Some && last.value.same(top) {
            let mv = last.mv.unwrap();
            lemma_candidates_below(root.children, top, (limit - 1) as nat, mv);
            assert(!rest.contains(mv)) by {
                if rest.contains(mv) {
                    let i = choose|i: int|
                        0 <= i < limit - 1 && (#[trigger] root.children[i]).mv == Some(mv)
                            && root.children[i].value.same(top);
                    assert(root.children[i].mv != root.children[limit - 1].mv);
                }
            }
            assert forall|i: int, j: int|
                0 <= i < all.len() && 0 <= j < all.len() && i != j implies all[i] != all[j] by {
                if i < rest.len() && j < rest.len() {
                    assert(rest[i] != rest[j]);
                } else if i < rest.len() {
                    assert(rest.contains(rest[i]));
                } else {
                    assert(rest.contains(rest[j]));
                }
            }
        }
    }
}

} // verus!
