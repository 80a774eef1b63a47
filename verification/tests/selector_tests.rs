use checkmate::node::SearchNode;
use checkmate::rules::{Move, Side};
use checkmate::score::Score;
use checkmate::selector::{best_moves, highest_value, select};
use rand::rngs::StdRng;
use rand::SeedableRng;

fn mv(from: u8, to: u8) -> Move {
    Move { from, to, promotion: None }
}

fn root_with(children: &[(i32, Move)]) -> SearchNode {
    let mut root = SearchNode::root(Score::whole(0), Side::White);
    for (value, mv) in children.iter() {
        root.add_child(SearchNode::new(Score::whole(*value), Side::Black, *mv));
    }
    root
}

#[test]
fn empty_root_has_no_candidate() {
    let root = SearchNode::root(Score::whole(0), Side::White);
    assert!(highest_value(&root).is_none());
    assert!(best_moves(&root).is_empty());
    let mut rng = StdRng::seed_from_u64(1);
    assert_eq!(select(&root, &mut rng), None);
}

#[test]
fn highest_value_is_the_maximum() {
    let root = root_with(&[(1, mv(1, 2)), (5, mv(3, 4)), (-7, mv(5, 6)), (4, mv(7, 8))]);
    let top = highest_value(&root).expect("a root with children");
    assert_eq!((top.numerator(), top.denominator()), (5, 1));
}

#[test]
fn single_best_child_is_selected_whatever_the_seed() {
    let root = root_with(&[(1, mv(1, 2)), (5, mv(3, 4)), (-7, mv(5, 6)), (4, mv(7, 8))]);
    assert_eq!(best_moves(&root), vec![mv(3, 4)]);
    for seed in 0..50 {
        let mut rng = StdRng::seed_from_u64(seed);
        assert_eq!(select(&root, &mut rng), Some(mv(3, 4)));
    }
}

#[test]
fn ties_are_all_candidates_in_the_order_of_the_children() {
    let mut root = root_with(&[(5, mv(1, 2)), (1, mv(3, 4)), (5, mv(5, 6))]);
    root.add_child(SearchNode::new(Score::ratio(10, 2), Side::White, mv(7, 8)));
    assert_eq!(best_moves(&root), vec![mv(1, 2), mv(5, 6), mv(7, 8)]);
}

#[test]
fn selection_ignores_the_side_to_move() {
    let mut root = SearchNode::root(Score::whole(0), Side::White);
    root.add_child(SearchNode::new(Score::whole(9), Side::White, mv(1, 2)));
    root.add_child(SearchNode::new(Score::whole(-2), Side::Black, mv(3, 4)));
    assert_eq!(root.best_child(), Some(1));
    assert_eq!(best_moves(&root), vec![mv(1, 2)]);
}

#[test]
fn selection_picks_one_of_the_ties() {
    let root = root_with(&[(5, mv(1, 2)), (1, mv(3, 4)), (5, mv(5, 6))]);
    for seed in 0..50 {
        let mut rng = StdRng::seed_from_u64(seed);
        let choice = select(&root, &mut rng).expect("a root with children");
        assert!(choice == mv(1, 2) || choice == mv(5, 6));
    }
}

#[test]
fn selection_repeats_under_the_same_seed() {
    let root = root_with(&[(5, mv(1, 2)), (5, mv(3, 4)), (5, mv(5, 6)), (5, mv(7, 8))]);
    let mut first = StdRng::seed_from_u64(2024);
    let mut second = StdRng::seed_from_u64(2024);
    for _ in 0..100 {
        assert_eq!(select(&root, &mut first), select(&root, &mut second));
    }
}

#[test]
fn ties_are_selected_with_equal_frequency() {
    let moves = [mv(1, 2), mv(3, 4), mv(5, 6), mv(7, 8), mv(9, 10)];
    let mut root = SearchNode::root(Score::whole(0), Side::White);
    for m in moves.iter() {
        root.add_child(SearchNode::new(Score::whole(5), Side::Black, *m));
    }
    root.add_child(SearchNode::new(Score::whole(4), Side::Black, mv(11, 12)));
    let trials = 20000;
    let mut counts = [0usize; 5];
    let mut rng = StdRng::seed_from_u64(7);
    for _ in 0..trials {
        let choice = select(&root, &mut rng).expect("a root with children");
        let place = moves.iter().position(|m| *m == choice).expect("one of the ties");
        counts[place] += 1;
    }
    for count in counts.iter() {
        let frequency = *count as f64 / trials as f64;
        assert!((frequency - 0.2).abs() < 0.02);
    }
}

#[test]
fn children_of_one_score_are_all_candidates() {
    let mut root = SearchNode::root(Score::whole(0), Side::White);
    let moves = [mv(1, 2), mv(3, 4), mv(5, 6), mv(7, 8)];
    let scores = [Score::ratio(1, 2), Score::ratio(2, 4), Score::ratio(21, 42), Score::ratio(3, 6)];
    for i in 0..moves.len() {
        root.add_child(SearchNode::new(scores[i], Side::Black, moves[i]));
    }
    assert_eq!(best_moves(&root), moves.to_vec());
    let mut seen = [false; 4];
    let mut rng = StdRng::seed_from_u64(13);
    for _ in 0..400 {
        let choice = select(&root, &mut rng).expect("a root with children");
        seen[moves.iter().position(|m| *m == choice).expect("a child's move")] = true;
    }
    assert!(seen.iter().all(|s| *s));
}
