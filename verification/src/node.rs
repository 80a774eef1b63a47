//! The search tree: one node for each branch explored, with its cached
//! score, the move that led to it and the replies explored below it.
//!
//! A node owns its children. They are kept in the order in which they were
//! added, at most one for each move; the best of them is found by comparing
//! their current scores, so that the ranking never lags behind a score.

use vstd::prelude::*;
use crate::rules::{Move, Side};
use crate::score::{law_order_total, law_order_transitive, Fraction, Score};

verus! {

/// How one node stands against another in the ranking of siblings.
#[derive(Clone, Copy, Debug, PartialEq, Eq, Structural)]
pub enum Standing {
    Below,
    Level,
    Above,
}

/// The mathematical value of a search tree.
pub struct NodeView {
    /// The cached score.
    pub value: Fraction,
    /// The side to move once the node's move is made.
    pub turn: Side,
    /// The move that led from the parent to this node; the root has none.
    pub mv: Option<Move>,
    /// The replies explored so far, in the order in which they were added.
    pub children: Seq<NodeView>,
}

impl NodeView {
    /// The tree is well formed: scores fit, every node below the root has a
    /// move, and no two children of a node have the same move.
    pub open spec fn wf(self) -> bool
        decreases self,
    {
        &&& self.value.fits()
        &&& forall|i: int|
            0 <= i < self.children.len() ==> (#[trigger] self.children[i]).mv is Some
                && self.children[i].wf()
        &&& forall|i: int, j: int|
            0 <= i < j < self.children.len() ==> (#[trigger] self.children[i]).mv != (
            #[trigger] self.children[j]).mv
    }

    /// A node without children.
    pub open spec fn leaf(value: Fraction, turn: Side, mv: Option<Move>) -> NodeView {
        NodeView { value, turn, mv, children: Seq::empty() }
    }

    /// The number of nodes of the tree.
    pub open spec fn size(self) -> nat
        decreases self, 1nat,
    {
        1 + Self::size_below(self.children, self.children.len())
    }

    /// The number of nodes of the first `limit` trees of `children`.
    pub open spec fn size_below(children: Seq<NodeView>, limit: nat) -> nat
        decreases children, 0nat, limit,
    {
        if limit == 0 || limit > children.len() {
            0
        } else {
            Self::size_below(children, (limit - 1) as nat) + children[limit - 1].size()
        }
    }

    /// Whether a child is kept for `mv`.
    pub open spec fn holds(self, mv: Option<Move>) -> bool {
        exists|i: int| 0 <= i < self.children.len() && (#[trigger] self.children[i]).mv == mv
    }

    /// The place of the child kept for `mv`, where there is one.
    pub open spec fn index_of(self, mv: Option<Move>) -> int {
        choose|i: int| 0 <= i < self.children.len() && (#[trigger] self.children[i]).mv == mv
    }

    /// The tree with `child` kept for its move: in the place of the child
    /// that was kept for that move, or behind the others where none was.
    pub open spec fn with_child(self, child: NodeView) -> NodeView {
        if self.holds(child.mv) {
            NodeView { children: self.children.update(self.index_of(child.mv), child), ..self }
        } else {
            NodeView { children: self.children.push(child), ..self }
        }
    }

    /// How this node stands against `other`: by the side to move, White
    /// before Black, and between nodes of one side by the score.
    pub open spec fn standing(self, other: NodeView) -> Standing {
        if self.turn.spec_index() < other.turn.spec_index() {
            Standing::Below
        } else if self.turn.spec_index() > other.turn.spec_index() {
            Standing::Above
        } else if self.value.lt(other.value) {
            Standing::Below
        } else if other.value.lt(self.value) {
            Standing::Above
        } else {
            Standing::Level
        }
    }

    /// Whether this node ranks strictly above `other`.
    pub open spec fn outranks(self, other: NodeView) -> bool {
        self.standing(other) == Standing::Above
    }

    /// The place of the best of the first `limit` of `children`: the first
    /// of them that none of them outranks.
    pub open spec fn best_below(children: Seq<NodeView>, limit: nat) -> int
        decreases limit,
    {
        if limit <= 1 {
            0
        } else {
            let best = Self::best_below(children, (limit - 1) as nat);
            if children[limit - 1].outranks(children[best]) {
                limit - 1
            } else {
                best
            }
        }
    }

    /// The place of the best child, where there are children.
    pub open spec fn best_index(self) -> int {
        Self::best_below(self.children, self.children.len())
    }

    /// The tree whose root has taken the score of its best child; a root
    /// without children keeps its own.
    pub open spec fn with_best_value(self) -> NodeView {
        if self.children.len() == 0 {
            self
        } else {
            NodeView { value: self.children[self.best_index()].value, ..self }
        }
    }

    /// Whether exploring `mv` is skipped: a child is kept for it already,
    /// and its score is below this node's own.
    pub open spec fn prunes(self, mv: Move) -> bool {
        self.holds(Some(mv)) && self.children[self.index_of(Some(mv))].value.lt(self.value)
    }
}

/// The number `count` as a `usize`, and `usize::MAX` where it does not fit.
pub open spec fn saturated(count: nat) -> usize {
    if count > usize::MAX {
        usize::MAX
    } else {
        count as usize
    }
}

/// A node of the search tree. It owns the nodes below it.
pub struct SearchNode {
    value: Score,
    turn: Side,
    mv: Option<Move>,
    children: Vec<SearchNode>,
}

impl View for SearchNode {
    type V = NodeView;

    closed spec fn view(&self) -> NodeView {
        self.model()
    }
}

impl SearchNode {
    /// The tree that the node and the nodes below it stand for.
    closed spec fn model(self) -> NodeView
        decreases self,
    {
        NodeView {
            value: self.value@,
            turn: self.turn,
            mv: self.mv,
            children: Seq::new(
                self.children.len() as nat,
                |i: int|
                    if 0 <= i < self.children.len() {
                        self.children[i].model()
                    } else {
                        NodeView::leaf(self.value@, self.turn, None)
                    },
            ),
        }
    }

    /// The view of a node, part by part.
    proof fn lemma_view(self)
        ensures
            self@.value == self.value@,
            self@.turn == self.turn,
            self@.mv == self.mv,
            self@.children.len() == self.children.len(),
            forall|i: int|
                0 <= i < self.children.len() ==> {
                    &&& #[trigger] self@.children[i] == self.children[i]@
                    &&& self@.children[i].value == self.children[i].value@
                    &&& self@.children[i].turn == self.children[i].turn
                    &&& self@.children[i].mv == self.children[i].mv
                },
    {
        assert forall|i: int| 0 <= i < self.children.len() implies {
            &&& #[trigger] self@.children[i] == self.children[i]@
            &&& self@.children[i].value == self.children[i].value@
            &&& self@.children[i].turn == self.children[i].turn
            &&& self@.children[i].mv == self.children[i].mv
        } by {
            assert(self.children[i]@ == self.children[i].model());
        }
    }

    /// A node without children and without a move: the root of a tree.
    pub fn root(value: Score, turn: Side) -> (node: SearchNode)
        ensures
            node@ == NodeView::leaf(value@, turn, None),
            node@.wf(),
    {
        proof {
            use_type_invariant(&value);
        }
        let node = SearchNode { value, turn, mv: None, children: Vec::new() };
        assert(node@.children =~= Seq::empty());
        node
    }

    /// A node without children, reached by `mv`.
    pub fn new(value: Score, turn: Side, mv: Move) -> (node: SearchNode)
        ensures
            node@ == NodeView::leaf(value@, turn, Some(mv)),
            node@.wf(),
    {
        proof {
            use_type_invariant(&value);
        }
        let node = SearchNode { value, turn, mv: Some(mv), children: Vec::new() };
        assert(node@.children =~= Seq::empty());
        node
    }

    /// The cached score.
    pub fn value(&self) -> (value: Score)
        ensures
            value@ == self@.value,
    {
        self.value
    }

    /// The side to move once the node's move is made.
    pub fn turn(&self) -> (turn: Side)
        ensures
            turn == self@.turn,
    {
        self.turn
    }

    /// The move that led to this node; the root has none.
    pub fn mv(&self) -> (mv: Option<Move>)
        ensures
            mv == self@.mv,
    {
        self.mv
    }

    /// The number of children.
    pub fn child_count(&self) -> (count: usize)
        ensures
            count == self@.children.len(),
    {
        proof {
            self.lemma_view();
        }
        self.children.len()
    }

    /// The child in place `index`.
    pub fn child(&self, index: usize) -> (child: &SearchNode)
        requires
            index < self@.children.len(),
        ensures
            child@ == self@.children[index as int],
    {
        proof {
            self.lemma_view();
        }
        &self.children[index]
    }

    /// The place of the child kept for `mv`, if one is.
    pub fn find(&self, mv: Option<Move>) -> (place: Option<usize>)
        requires
            self@.wf(),
        ensures
            place is Some <==> self@.holds(mv),
            place is Some ==> place.unwrap() == self@.index_of(mv) && 0 <= place.unwrap()
                < self@.children.len() && self@.children[place.unwrap() as int].mv == mv,
    {
        proof {
            self.lemma_view();
        }
        let mut i: usize = 0;
        while i < self.children.len()
            invariant
                i <= self.children.len(),
                self@.wf(),
                self@.children.len() == self.children.len(),
                forall|j: int|
                    0 <= j < self.children.len() ==> (#[trigger] self@.children[j]).mv
                        == self.children[j].mv,
                forall|j: int| 0 <= j < i ==> (#[trigger] self@.children[j]).mv != mv,
            decreases self.children.len() - i,
        {
            if self.children[i].mv == mv {
                assert(self@.children[i as int].mv == mv);
                let ghost chosen = self@.index_of(mv);
                assert(self@.children[chosen].mv == mv);
                assert(chosen == i) by {
                    if chosen < i {
                        assert(self@.children[chosen].mv != self@.children[i as int].mv);
                    } else if chosen > i {
                        assert(self@.children[i as int].mv != self@.children[chosen].mv);
                    }
                }
                return Some(i);
            }
            i = i + 1;
        }
        None
    }

    /// Keeps `child` for its move: in the place of the child that was kept
    /// for that move, or behind the others where none was.
    pub fn add_child(&mut self, child: SearchNode)
        requires
            old(self)@.wf(),
            child@.wf(),
            child@.mv is Some,
        ensures
            final(self)@ == old(self)@.with_child(child@),
            final(self)@.wf(),
    {
        let ghost before = self@;
        let ghost added = child@;
        proof {
            self.lemma_view();
            child.lemma_view();
        }
        match self.find(child.mv) {
            Some(place) => {
                self.children.set(place, child);
                proof {
                    self.lemma_view();
                }
                assert(self@.children =~= before.children.update(place as int, added));
            },
            None => {
                self.children.push(child);
                proof {
                    self.lemma_view();
                }
                assert(self@.children =~= before.children.push(added));
            },
        }
        proof {
            lemma_with_child_wf(before, added);
        }
    }

    /// How this node stands against `other` in the ranking of siblings.
    pub fn standing(&self, other: &SearchNode) -> (standing: Standing)
        ensures
            standing == self@.standing(other@),
    {
        proof {
            self.lemma_view();
            other.lemma_view();
        }
        let mine = self.turn.index();
        let theirs = other.turn.index();
        if mine < theirs {
            Standing::Below
        } else if mine > theirs {
            Standing::Above
        } else if self.value.less_than(&other.value) {
            Standing::Below
        } else if other.value.less_than(&self.value) {
            Standing::Above
        } else {
            Standing::Level
        }
    }

    /// The place of the best child: the first that no child outranks.
    /// `None` where there are no children.
    pub fn best_child(&self) -> (place: Option<usize>)
        ensures
            place is None <==> self@.children.len() == 0,
            place is Some ==> place.unwrap() == self@.best_index() && place.unwrap()
                < self@.children.len(),
    {
        proof {
            self.lemma_view();
        }
        if self.children.len() == 0 {
            return None;
        }
        let mut best: usize = 0;
        let mut i: usize = 1;
        while i < self.children.len()
            invariant
                1 <= i <= self.children.len(),
                best < i,
                best == NodeView::best_below(self@.children, i as nat),
                self@.children.len() == self.children.len(),
                forall|j: int|
                    0 <= j < self.children.len() ==> #[trigger] self@.children[j]
                        == self.children[j]@,
            decreases self.children.len() - i,
        {
            if self.children[i].standing(&self.children[best]) == Standing::Above {
                best = i;
            }
            i = i + 1;
        }
        Some(best)
    }

    /// Takes the score of the best child; a node without children keeps
    /// its own.
    pub fn adopt_best_value(&mut self)
        requires
            old(self)@.wf(),
        ensures
            final(self)@ == old(self)@.with_best_value(),
            final(self)@.wf(),
    {
        let ghost before = self@;
        proof {
            self.lemma_view();
        }
        match self.best_child() {
            Some(place) => {
                let best = self.children[place].value;
                proof {
                    use_type_invariant(&best);
                }
                self.value = best;
                proof {
                    self.lemma_view();
                }
                assert(self@.children =~= before.children);
            },
            None => {},
        }
    }

    /// The number of nodes of the tree, and `usize::MAX` where there are
    /// more.
    pub fn size(&self) -> (count: usize)
        ensures
            count == saturated(self@.size()),
        decreases self,
    {
        proof {
            self.lemma_view();
        }
        let mut count: usize = 1;
        let mut i: usize = 0;
        while i < self.children.len()
            invariant
                i <= self.children.len(),
                self@.children.len() == self.children.len(),
                forall|j: int|
                    0 <= j < self.children.len() ==> #[trigger] self@.children[j]
                        == self.children[j]@,
                count == saturated(1 + NodeView::size_below(self@.children, i as nat)),
            decreases self.children.len() - i,
        {
            let below = self.children[i].size();
            count = count.saturating_add(below);
            i = i + 1;
        }
        count
    }

    /// Whether exploring `mv` is skipped: a child is kept for it already,
    /// and its score is below this node's own.
    pub fn prunes(&self, mv: Move) -> (skip: bool)
        requires
            self@.wf(),
        ensures
            skip == self@.prunes(mv),
    {
        proof {
            self.lemma_view();
        }
        match self.find(Some(mv)) {
            Some(place) => self.children[place].value.less_than(&self.value),
            None => false,
        }
    }
}

/// The children of a well-formed tree are well formed, have a move each,
/// and hold scores that fit.
pub proof fn lemma_children_wf(node: NodeView)
    requires
        node.wf(),
    ensures
        forall|i: int|
            0 <= i < node.children.len() ==> {
                &&& (#[trigger] node.children[i]).wf()
                &&& node.children[i].mv is Some
                &&& node.children[i].value.fits()
                &&& node.children[i].value.den > 0
            },
{
    assert forall|i: int| 0 <= i < node.children.len() implies {
        &&& (#[trigger] node.children[i]).wf()
        &&& node.children[i].mv is Some
        &&& node.children[i].value.fits()
        &&& node.children[i].value.den > 0
    } by {
        assert(node.children[i].wf());
    }
}

/// Keeping one more child for its move leaves a well-formed tree well formed.
pub proof fn lemma_with_child_wf(node: NodeView, child: NodeView)
    requires
        node.wf(),
        child.wf(),
        child.mv is Some,
    ensures
        node.with_child(child).wf(),
{
    let after = node.with_child(child);
    if node.holds(child.mv) {
        let place = node.index_of(child.mv);
        assert(node.children[place].mv == child.mv);
        assert forall|i: int| 0 <= i < after.children.len() implies (
        #[trigger] after.children[i]).mv is Some && after.children[i].wf() by {
            if i != place {
                assert(after.children[i] == node.children[i]);
            }
        }
        assert forall|i: int, j: int| 0 <= i < j < after.children.len() implies (
        #[trigger] after.children[i]).mv != (#[trigger] after.children[j]).mv by {
            assert(after.children[i].mv == node.children[i].mv);
            assert(after.children[j].mv == node.children[j].mv);
        }
    } else {
        assert forall|i: int| 0 <= i < after.children.len() implies (
        #[trigger] after.children[i]).mv is Some && after.children[i].wf() by {
            if i < node.children.len() {
                assert(after.children[i] == node.children[i]);
            }
        }
        assert forall|i: int, j: int| 0 <= i < j < after.children.len() implies (
        #[trigger] after.children[i]).mv != (#[trigger] after.children[j]).mv by {
            assert(after.children[i] == node.children[i]);
            if j < node.children.len() {
                assert(after.children[j] == node.children[j]);
            } else {
                assert(node.children[i].mv != child.mv);
            }
        }
    }
}

/// Keeping a child adds its move to those that a node holds a child for,
/// and no other.
pub proof fn lemma_with_child_holds(node: NodeView, child: NodeView, mv: Option<Move>)
    ensures
        node.with_child(child).holds(mv) <==> node.holds(mv) || child.mv == mv,
{
    let after = node.with_child(child);
    let kept = node.holds(child.mv);
    let place = node.index_of(child.mv);
    if kept {
        assert(node.children[place].mv == child.mv);
    }
    if after.holds(mv) {
        let i = choose|i: int|
            0 <= i < after.children.len() && (#[trigger] after.children[i]).mv == mv;
        if (kept && i != place) || (!kept && i < node.children.len()) {
            assert(node.children[i].mv == mv);
        }
    }
    if node.holds(mv) {
        let i = choose|i: int|
            0 <= i < node.children.len() && (#[trigger] node.children[i]).mv == mv;
        assert(after.children[i].mv == mv);
    }
    if child.mv == mv {
        if kept {
            assert(after.children[place].mv == mv);
        } else {
            assert(after.children[node.children.len() as int].mv == mv);
        }
    }
}

/// The ranking of siblings is an order: two nodes stand against each other
/// in opposite ways, and standing at least level carries over.
pub proof fn law_standing_is_an_order(a: NodeView, b: NodeView, c: NodeView)
    requires
        a.value.den > 0,
        b.value.den > 0,
        c.value.den > 0,
    ensures
        a.standing(a) == Standing::Level,
        a.standing(b) == Standing::Above <==> b.standing(a) == Standing::Below,
        a.standing(b) == Standing::Level <==> b.standing(a) == Standing::Level,
        !c.outranks(b) && !b.outranks(a) ==> !c.outranks(a),
        b.outranks(a) && !c.outranks(a) ==> b.outranks(c),
{
    law_order_total(a.value, b.value);
    law_order_total(b.value, c.value);
    law_order_total(a.value, c.value);
    law_order_transitive(a.value, b.value, c.value);
    law_order_transitive(c.value, b.value, a.value);
    law_order_transitive(c.value, a.value, b.value);
}

/// The best of the first `limit` children is one of them, none of them
/// outranks it, and it outranks all that come before it.
pub proof fn law_best_is_highest(children: Seq<NodeView>, limit: nat)
    requires
        1 <= limit <= children.len(),
        forall|i: int| 0 <= i < children.len() ==> (#[trigger] children[i]).value.den > 0,
    ensures
        0 <= NodeView::best_below(children, limit) < limit,
        forall|j: int|
            0 <= j < limit ==> !(#[trigger] children[j]).outranks(
                children[NodeView::best_below(children, limit)],
            ),
        forall|j: int|
            0 <= j < NodeView::best_below(children, limit) ==> children[NodeView::best_below(
                children,
                limit,
            )].outranks(#[trigger] children[j]),
    decreases limit,
{
    let best = NodeView::best_below(children, limit);
    if limit == 1 {
        law_standing_is_an_order(children[0], children[0], children[0]);
    } else {
        let earlier = NodeView::best_below(children, (limit - 1) as nat);
        let last = children[limit - 1];
        law_best_is_highest(children, (limit - 1) as nat);
        assert forall|j: int| 0 <= j < limit implies !(#[trigger] children[j]).outranks(
            children[best],
        ) by {
            law_standing_is_an_order(children[earlier], last, children[j]);
            law_standing_is_an_order(last, children[j], last);
        }
        assert forall|j: int| 0 <= j < best implies children[best].outranks(
            #[trigger] children[j],
        ) by {
            law_standing_is_an_order(children[earlier], last, children[j]);
        }
    }
}

} // verus!
