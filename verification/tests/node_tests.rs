use checkmate::node::{SearchNode, Standing};
use checkmate::rules::{Move, PieceKind, Side};
use checkmate::score::Score;

fn mv(from: u8, to: u8) -> Move {
    Move { from, to, promotion: None }
}

fn parts(score: Score) -> (i64, i64) {
    (score.numerator(), score.denominator())
}

#[test]
fn new_node_is_a_leaf_with_its_move() {
    let node = SearchNode::new(Score::ratio(3, 4), Side::Black, mv(12, 28));
    assert_eq!(parts(node.value()), (3, 4));
    assert_eq!(node.turn(), Side::Black);
    assert_eq!(node.mv(), Some(mv(12, 28)));
    assert_eq!(node.child_count(), 0);
    assert_eq!(node.size(), 1);
    assert_eq!(node.best_child(), None);
}

#[test]
fn root_has_no_move() {
    let root = SearchNode::root(Score::whole(1), Side::White);
    assert_eq!(root.mv(), None);
    assert_eq!(root.turn(), Side::White);
    assert_eq!(parts(root.value()), (1, 1));
    assert_eq!(root.child_count(), 0);
}

#[test]
fn add_child_keeps_children_in_order() {
    let mut root = SearchNode::root(Score::whole(0), Side::White);
    root.add_child(SearchNode::new(Score::whole(1), Side::Black, mv(1, 2)));
    root.add_child(SearchNode::new(Score::whole(2), Side::Black, mv(3, 4)));
    root.add_child(SearchNode::new(Score::whole(3), Side::Black, mv(5, 6)));
    assert_eq!(root.child_count(), 3);
    assert_eq!(root.child(0).mv(), Some(mv(1, 2)));
    assert_eq!(root.child(1).mv(), Some(mv(3, 4)));
    assert_eq!(root.child(2).mv(), Some(mv(5, 6)));
    assert_eq!(parts(root.value()), (0, 1));
    assert_eq!(root.size(), 4);
}

#[test]
fn add_child_replaces_the_child_of_the_same_move() {
    let mut root = SearchNode::root(Score::whole(0), Side::White);
    root.add_child(SearchNode::new(Score::whole(1), Side::Black, mv(1, 2)));
    root.add_child(SearchNode::new(Score::whole(2), Side::Black, mv(3, 4)));
    root.add_child(SearchNode::new(Score::whole(7), Side::White, mv(1, 2)));
    assert_eq!(root.child_count(), 2);
    assert_eq!(root.child(0).mv(), Some(mv(1, 2)));
    assert_eq!(parts(root.child(0).value()), (7, 1));
    assert_eq!(root.child(0).turn(), Side::White);
    assert_eq!(root.child(1).mv(), Some(mv(3, 4)));
    assert_eq!(parts(root.child(1).value()), (2, 1));
}

#[test]
fn moves_differ_by_their_promotion() {
    let mut root = SearchNode::root(Score::whole(0), Side::White);
    let queen = Move { from: 48, to: 56, promotion: Some(PieceKind::Queen) };
    let knight = Move { from: 48, to: 56, promotion: Some(PieceKind::Knight) };
    root.add_child(SearchNode::new(Score::whole(1), Side::Black, queen));
    root.add_child(SearchNode::new(Score::whole(2), Side::Black, knight));
    assert_eq!(root.child_count(), 2);
    assert_eq!(root.find(Some(queen)), Some(0));
    assert_eq!(root.find(Some(knight)), Some(1));
    assert_eq!(root.find(Some(mv(48, 56))), None);
}

#[test]
fn find_gives_the_place_of_a_move() {
    let mut root = SearchNode::root(Score::whole(0), Side::White);
    assert_eq!(root.find(Some(mv(1, 2))), None);
    root.add_child(SearchNode::new(Score::whole(1), Side::Black, mv(1, 2)));
    root.add_child(SearchNode::new(Score::whole(2), Side::Black, mv(3, 4)));
    assert_eq!(root.find(Some(mv(1, 2))), Some(0));
    assert_eq!(root.find(Some(mv(3, 4))), Some(1));
    assert_eq!(root.find(Some(mv(2, 1))), None);
    assert_eq!(root.find(None), None);
}

#[test]
fn standing_goes_by_the_side_first() {
    let white = SearchNode::new(Score::whole(9), Side::White, mv(1, 2));
    let black = SearchNode::new(Score::whole(-9), Side::Black, mv(3, 4));
    assert_eq!(white.standing(&black), Standing::Below);
    assert_eq!(black.standing(&white), Standing::Above);
}

#[test]
fn standing_goes_by_the_score_within_a_side() {
    let low = SearchNode::new(Score::ratio(1, 3), Side::Black, mv(1, 2));
    let high = SearchNode::new(Score::ratio(1, 2), Side::Black, mv(3, 4));
    let same = SearchNode::new(Score::ratio(2, 4), Side::Black, mv(5, 6));
    assert_eq!(low.standing(&high), Standing::Below);
    assert_eq!(high.standing(&low), Standing::Above);
    assert_eq!(high.standing(&same), Standing::Level);
    assert_eq!(same.standing(&high), Standing::Level);
    assert_eq!(low.standing(&low), Standing::Level);
}

#[test]
fn best_child_is_the_first_of_the_highest() {
    let mut root = SearchNode::root(Score::whole(0), Side::White);
    root.add_child(SearchNode::new(Score::whole(1), Side::Black, mv(1, 2)));
    root.add_child(SearchNode::new(Score::whole(5), Side::Black, mv(3, 4)));
    root.add_child(SearchNode::new(Score::ratio(10, 2), Side::Black, mv(5, 6)));
    root.add_child(SearchNode::new(Score::whole(4), Side::Black, mv(7, 8)));
    assert_eq!(root.best_child(), Some(1));
}

#[test]
fn best_child_prefers_black_to_move() {
    let mut root = SearchNode::root(Score::whole(0), Side::White);
    root.add_child(SearchNode::new(Score::whole(9), Side::White, mv(1, 2)));
    root.add_child(SearchNode::new(Score::whole(-2), Side::Black, mv(3, 4)));
    root.add_child(SearchNode::new(Score::whole(-3), Side::Black, mv(5, 6)));
    assert_eq!(root.best_child(), Some(1));
}

#[test]
fn adopt_best_value_takes_the_score_of_the_best_child() {
    let mut node = SearchNode::new(Score::whole(0), Side::White, mv(9, 10));
    node.add_child(SearchNode::new(Score::ratio(1, 3), Side::Black, mv(1, 2)));
    node.add_child(SearchNode::new(Score::ratio(7, 2), Side::Black, mv(3, 4)));
    node.adopt_best_value();
    assert_eq!(parts(node.value()), (7, 2));
    assert_eq!(node.mv(), Some(mv(9, 10)));
    assert_eq!(node.turn(), Side::White);
    assert_eq!(node.child_count(), 2);
}

#[test]
fn adopt_best_value_leaves_a_leaf_alone() {
    let mut node = SearchNode::new(Score::ratio(4, 9), Side::White, mv(9, 10));
    node.adopt_best_value();
    assert_eq!(parts(node.value()), (4, 9));
}

#[test]
fn prunes_a_known_move_of_lower_score_only() {
    let mut node = SearchNode::new(Score::whole(2), Side::White, mv(9, 10));
    node.add_child(SearchNode::new(Score::whole(1), Side::Black, mv(1, 2)));
    node.add_child(SearchNode::new(Score::whole(2), Side::Black, mv(3, 4)));
    node.add_child(SearchNode::new(Score::whole(3), Side::Black, mv(5, 6)));
    assert!(node.prunes(mv(1, 2)));
    assert!(!node.prunes(mv(3, 4)));
    assert!(!node.prunes(mv(5, 6)));
    assert!(!node.prunes(mv(7, 8)));
}

#[test]
fn size_counts_every_node() {
    let mut inner = SearchNode::new(Score::whole(0), Side::Black, mv(1, 2));
    inner.add_child(SearchNode::new(Score::whole(1), Side::White, mv(3, 4)));
    inner.add_child(SearchNode::new(Score::whole(2), Side::White, mv(5, 6)));
    let mut root = SearchNode::root(Score::whole(0), Side::White);
    root.add_child(inner);
    root.add_child(SearchNode::new(Score::whole(3), Side::Black, mv(7, 8)));
    assert_eq!(root.size(), 5);
    assert_eq!(root.child(0).size(), 3);
    assert_eq!(root.child(1).size(), 1);
}
