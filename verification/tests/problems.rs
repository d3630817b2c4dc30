use algos::bus_routes::Solution as BusSolution;
use algos::problems::search::Solution as SearchSolution;
use algos::problems::valid_parentheses::Solution as ParenSolution;

#[test]
fn search_insert_examples() {
    assert_eq!(SearchSolution::search_insert(vec![1, 3, 5, 6], 5), 2);
    assert_eq!(SearchSolution::search_insert(vec![1, 3, 5, 6], 2), 1);
    assert_eq!(SearchSolution::search_insert(vec![1, 3, 5, 6], 7), 4);
    assert_eq!(SearchSolution::search_insert(vec![1, 3, 5, 6], 0), 0);
    assert_eq!(SearchSolution::search_insert(vec![], 3), 0);
}

#[test]
fn is_valid_examples() {
    assert!(ParenSolution::is_valid("()".to_string()));
    assert!(ParenSolution::is_valid("()[]{}".to_string()));
    assert!(!ParenSolution::is_valid("(]".to_string()));
    assert!(ParenSolution::is_valid("([])".to_string()));
    assert!(!ParenSolution::is_valid("([)]".to_string()));
    assert!(!ParenSolution::is_valid("(".to_string()));
    assert!(!ParenSolution::is_valid(")".to_string()));
    assert!(!ParenSolution::is_valid("a".to_string()));
    assert!(ParenSolution::is_valid("".to_string()));
}

#[test]
fn buses_examples() {
    assert_eq!(
        BusSolution::num_buses_to_destination(vec![vec![1, 2, 7], vec![3, 6, 7]], 1, 6),
        2
    );
    assert_eq!(
        BusSolution::num_buses_to_destination(
            vec![vec![7, 12], vec![4, 5, 15], vec![6], vec![15, 19], vec![9, 12, 13]],
            15,
            12
        ),
        -1
    );
    assert_eq!(BusSolution::num_buses_to_destination(vec![vec![1, 2]], 3, 3), 0);
    assert_eq!(BusSolution::num_buses_to_destination(vec![vec![1, 2]], 1, 2), 1);
    assert_eq!(BusSolution::num_buses_to_destination(vec![], 1, 2), -1);
}
