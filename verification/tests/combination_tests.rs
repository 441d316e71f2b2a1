use prime_families::combination::PositionCombinations;
use prime_families::combination::ToString;
use std::collections::HashSet;

fn collect_all(mut combinator: PositionCombinations) -> Vec<Vec<bool>> {
    let mut result = Vec::new();
    while let Some(pattern) = combinator.next() {
        result.push(pattern);
    }
    result
}

#[test]
fn test_combination_2_3_4() {
    let combinator = PositionCombinations::new(2, 3, 4);
    let result = collect_all(combinator);
    let mut number_solutions = result.len();
    let mut solution = HashSet::new();
    solution.insert(vec![false, false, true, true]);
    solution.insert(vec![false, true, false, true]);
    solution.insert(vec![false, true, true, false]);
    solution.insert(vec![false, true, true, true]);
    solution.insert(vec![true, true, false, false]);
    solution.insert(vec![true, false, true, false]);
    solution.insert(vec![true, false, false, true]);
    solution.insert(vec![true, false, true, true]);
    solution.insert(vec![true, true, false, true]);
    solution.insert(vec![true, true, true, false]);
    for item in solution {
        assert!(result.contains(&item));
        number_solutions -= 1;
    }
    assert_eq!(number_solutions, 0);
}

#[test]
fn test_combination_2_2_3() {
    let combinator = PositionCombinations::new(2, 2, 3);
    let result = collect_all(combinator);
    let mut number_solutions = result.len();
    let mut solution = HashSet::new();
    solution.insert(vec![false, true, true]);
    solution.insert(vec![true, false, true]);
    solution.insert(vec![true, true, false]);
    for item in solution {
        assert!(result.contains(&item));
        number_solutions -= 1;
    }
    assert_eq!(number_solutions, 0);
}

#[test]
fn test_combination_binary_counter_order() {
    let combinator = PositionCombinations::new(2, 2, 3);
    let result = collect_all(combinator);
    assert_eq!(
        result,
        vec![
            vec![true, true, false],
            vec![true, false, true],
            vec![false, true, true],
        ]
    );
}

#[test]
fn test_combination_all_true_qualifies() {
    let combinator = PositionCombinations::new(1, 3, 3);
    let result = collect_all(combinator);
    assert_eq!(result.len(), 7);
    assert_eq!(result[result.len() - 1], vec![true, true, true]);
}

#[test]
fn test_combination_empty_cases() {
    let combinator = PositionCombinations::new(1, 2, 0);
    let result = collect_all(combinator);
    assert!(result.is_empty());

    let combinator = PositionCombinations::new(4, 5, 3);
    let result = collect_all(combinator);
    assert!(result.is_empty());
}

#[test]
fn test_pattern_to_string() {
    let pattern = vec![true, false, true, false];
    assert_eq!(pattern.to_string(), "x.x.");
    let empty: Vec<bool> = Vec::new();
    assert_eq!(empty.to_string(), "");
}

#[test]
fn test_exhausted_enumerator_stays_exhausted() {
    let mut combinator = PositionCombinations::new(1, 2, 2);
    while combinator.next().is_some() {}
    assert!(combinator.next().is_none());
    assert!(combinator.next().is_none());
}
