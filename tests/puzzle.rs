use number_puzzle::operation::{Operation, OperationKind};
use number_puzzle::pairs::get_all_pairs_ordered;
use number_puzzle::search::{find_shortest_solution, solve};
use number_puzzle::state::GameState;

fn test_all_pairs(numbers: &Vec<i32>, expected_pairs: Vec<(i32, i32)>) {
    let actual_pairs = get_all_pairs_ordered(numbers);

    assert!(
        actual_pairs.len() == expected_pairs.len(),
        "Incorrect number of pairs created. Created: {:?}, expected: {:?}",
        actual_pairs,
        expected_pairs
    );
    assert!(actual_pairs.iter().all(|pair| expected_pairs.contains(pair)), "All actual pairs are expected");
    assert!(expected_pairs.iter().all(|pair| actual_pairs.contains(pair)), "All expected pairs are actually created.");
}

#[test]
fn all_pairs_empty() {
    let numbers = vec![];
    let expected_pairs = vec![];
    test_all_pairs(&numbers, expected_pairs);
}

#[test]
fn all_pairs_single() {
    let numbers = vec![1];
    let expected_pairs = vec![];
    test_all_pairs(&numbers, expected_pairs);
}

#[test]
fn all_pairs_two() {
    let numbers = vec![1, 2];
    let expected_pairs = vec![(1, 2), (2, 1)];
    test_all_pairs(&numbers, expected_pairs);
}

#[test]
fn all_pairs_three() {
    let numbers = vec![1, 2, 3];
    let expected_pairs = vec![(1, 2), (2, 1), (1, 3), (3, 1), (2, 3), (3, 2)];
    test_all_pairs(&numbers, expected_pairs);
}

#[test]
fn all_pairs_exact_order_and_count() {
    let pairs = get_all_pairs_ordered(&vec![1, 2, 3]);
    assert_eq!(pairs, vec![(1, 2), (2, 1), (1, 3), (3, 1), (2, 3), (3, 2)]);
    let five = get_all_pairs_ordered(&vec![4, 4, 7, 1, 9]);
    assert_eq!(five.len(), 20);
    let dup = get_all_pairs_ordered(&vec![5, 5]);
    assert_eq!(dup, vec![(5, 5), (5, 5)]);
}

#[test]
fn evaluate_examples() {
    assert_eq!(Operation::apply((5, 3), OperationKind::Subtract), Some(2));
    assert_eq!(Operation::apply((3, 5), OperationKind::Subtract), None);
    assert_eq!(Operation::apply((6, 3), OperationKind::Divide), Some(2));
    assert_eq!(Operation::apply((6, 4), OperationKind::Divide), None);
    assert_eq!(Operation::apply((7, 0), OperationKind::Divide), None);
    assert_eq!(Operation::apply((0, 0), OperationKind::Divide), None);
    assert_eq!(Operation::apply((2, 3), OperationKind::Add), Some(5));
    assert_eq!(Operation::apply((4, 5), OperationKind::Multiply), Some(20));
    assert_eq!(Operation::apply((-6, 3), OperationKind::Divide), Some(-2));
    assert_eq!(Operation::apply((-7, 2), OperationKind::Divide), None);
    assert_eq!(Operation::apply((4, 4), OperationKind::Subtract), Some(0));
}

#[test]
fn evaluate_out_of_range_is_undefined() {
    assert_eq!(Operation::apply((i32::MAX, 1), OperationKind::Add), None);
    assert_eq!(Operation::apply((i32::MAX, 2), OperationKind::Multiply), None);
    assert_eq!(Operation::apply((i32::MIN, -1), OperationKind::Divide), None);
    assert_eq!(Operation::apply((i32::MAX, -1), OperationKind::Subtract), None);
}

#[test]
fn operation_record_is_frozen() {
    let op = Operation::new((9, 3), OperationKind::Divide);
    assert_eq!(op.operands(), (9, 3));
    assert_eq!(op.kind(), OperationKind::Divide);
    assert_eq!(op.value(), Some(3));
    let bad = Operation::new((9, 4), OperationKind::Divide);
    assert_eq!(bad.value(), None);
}

#[test]
fn operator_symbols() {
    assert_eq!(OperationKind::Add.symbol(), '+');
    assert_eq!(OperationKind::Subtract.symbol(), '-');
    assert_eq!(OperationKind::Multiply.symbol(), '*');
    assert_eq!(OperationKind::Divide.symbol(), '/');
}

#[test]
fn new_state_has_no_history() {
    let g = GameState::new(vec![1, 2, 3], 6);
    assert_eq!(g.numbers(), &vec![1, 2, 3]);
    assert_eq!(g.target(), 6);
    assert!(g.history().is_empty());
}

#[test]
fn expansion_conserves_count() {
    let g = GameState::new(vec![1, 2, 3], 100);
    let children = g.apply_operations();
    assert!(!children.is_empty());
    for c in &children {
        assert_eq!(c.numbers().len(), 2);
        assert_eq!(c.history().len(), 1);
        assert_eq!(c.target(), 100);
    }
    for c in &children {
        for gc in c.apply_operations() {
            assert_eq!(gc.numbers().len(), 1);
            assert_eq!(gc.history().len(), 2);
        }
    }
}

#[test]
fn expansion_children_in_order() {
    let g = GameState::new(vec![6, 3], 0);
    let children = g.apply_operations();
    let numbers: Vec<Vec<i32>> = children.iter().map(|c| c.numbers().clone()).collect();
    assert_eq!(numbers, vec![vec![9], vec![9], vec![3], vec![18], vec![18], vec![2]]);
    let first = children[0].history()[0];
    assert_eq!(first.operands(), (6, 3));
    assert_eq!(first.kind(), OperationKind::Add);
    assert_eq!(first.value(), Some(9));
}

#[test]
fn expansion_removes_one_instance_of_duplicates() {
    let g = GameState::new(vec![2, 2, 5], 0);
    let children = g.apply_operations();
    let first = &children[0];
    assert_eq!(first.history()[0].operands(), (2, 2));
    assert_eq!(first.numbers(), &vec![5, 4]);
    for c in &children {
        assert_eq!(c.numbers().len(), 2);
    }
}

#[test]
fn expansion_of_small_states_is_empty() {
    assert!(GameState::new(vec![], 1).apply_operations().is_empty());
    assert!(GameState::new(vec![7], 7).apply_operations().is_empty());
}

#[test]
fn solution_predicate() {
    assert!(GameState::new(vec![1, 5, 9], 5).is_solution());
    assert!(!GameState::new(vec![1, 5, 9], 4).is_solution());
    assert!(!GameState::new(vec![], 0).is_solution());
}

fn rendered(g: &GameState) -> Vec<(i32, char, i32, Option<i32>)> {
    g.history()
        .iter()
        .map(|o| (o.operands().0, o.kind().symbol(), o.operands().1, o.value()))
        .collect()
}

#[test]
fn search_two_numbers_reaches_target() {
    let solutions = solve(GameState::new(vec![1, 2], 3));
    let mut found: Vec<_> = solutions.iter().map(rendered).collect();
    found.sort();
    assert_eq!(found, vec![vec![(1, '+', 2, Some(3))], vec![(2, '+', 1, Some(3))]]);
    let best = find_shortest_solution(solutions).unwrap();
    assert_eq!(best.history().len(), 1);
    assert!(best.numbers().contains(&3));
}

#[test]
fn search_without_solution() {
    let solutions = solve(GameState::new(vec![2, 4], 100));
    assert!(solutions.is_empty());
    assert!(find_shortest_solution(solutions).is_none());
}

#[test]
fn search_of_empty_and_single_inputs() {
    assert!(solve(GameState::new(vec![], 0)).is_empty());
    assert!(solve(GameState::new(vec![5], 5)).is_empty());
    assert!(find_shortest_solution(vec![]).is_none());
}

#[test]
fn search_finds_the_shortest_path() {
    let solutions = solve(GameState::new(vec![1, 2, 3], 9));
    assert!(solutions.iter().all(|s| s.is_solution()));
    assert!(solutions.iter().any(|s| s.history().len() == 2));
    let best = find_shortest_solution(solutions).unwrap();
    assert_eq!(best.history().len(), 2);
    let direct = find_shortest_solution(solve(GameState::new(vec![3, 3, 5], 9))).unwrap();
    assert_eq!(rendered(&direct), vec![(3, '*', 3, Some(9))]);
}

fn descend(numbers: Vec<i32>, depth: usize) -> GameState {
    let mut g = GameState::new(numbers, 0);
    for _ in 0..depth {
        g = g.apply_operations().into_iter().next().unwrap();
    }
    g
}

#[test]
fn shortest_selection_picks_fewest_operations() {
    let set = vec![descend(vec![1, 1, 1, 1], 3), descend(vec![1, 1, 1, 1], 1), descend(vec![1, 1, 1, 1], 2)];
    let lens: Vec<usize> = set.iter().map(|g| g.history().len()).collect();
    assert_eq!(lens, vec![3, 1, 2]);
    let best = find_shortest_solution(set).unwrap();
    assert_eq!(best.history().len(), 1);
    assert_eq!(best.numbers(), &vec![1, 1, 2]);
}

#[test]
fn shortest_selection_tie_keeps_first() {
    for _ in 0..3 {
        let set = vec![descend(vec![1, 2, 3, 4], 2), descend(vec![5, 6, 7, 8], 2)];
        let best = find_shortest_solution(set).unwrap();
        assert_eq!(best.history().len(), 2);
        assert_eq!(best.history()[0].operands(), (1, 2));
    }
}

#[test]
fn search_is_deterministic() {
    let run = || {
        let mut found: Vec<_> = solve(GameState::new(vec![2, 3, 4, 5], 14)).iter().map(rendered).collect();
        found.sort();
        found
    };
    let first = run();
    let second = run();
    assert!(!first.is_empty());
    assert_eq!(first, second);
}
