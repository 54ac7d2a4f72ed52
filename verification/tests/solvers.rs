//! Each alternative strategy agrees with the naive scan over a shared
//! dictionary.

use beekeeper::{BitmaskBlockSolver, BitmaskSolver, NaiveSolver, Puzzle, Solver, TrieSolver};

fn dictionary() -> Vec<String> {
    [
        "cabbage", "baggage", "deface", "facade", "decade", "dead", "beef", "cafe", "face",
        "bead", "abed", "badge", "cage", "gaffe", "efface", "added", "zebra", "quick", "ace",
        "bad", "egg", "axolotl", "feedback", "cabbagge",
    ]
    .iter()
    .map(|w| w.to_string())
    .collect()
}

fn puzzle() -> Puzzle {
    Puzzle {
        center_letter: 'a',
        outer_letters: ['b', 'c', 'd', 'e', 'f', 'g'],
    }
}

#[test]
fn test_trie_solver() {
    let dictionary = dictionary();
    let naive = NaiveSolver::new(dictionary.clone());
    let trie = TrieSolver::new(dictionary.clone());
    let puzzle = puzzle();

    let mut naive_solution = naive.solve(&puzzle);
    let mut trie_solution = trie.solve(&puzzle);

    naive_solution.sort();
    trie_solution.sort();
    assert!(naive_solution == trie_solution);
}

#[test]
fn test_bitmask_solver() {
    let dictionary = dictionary();
    let naive = NaiveSolver::new(dictionary.clone());
    let bitmask = BitmaskSolver::new(dictionary.clone());
    let puzzle = puzzle();

    let mut naive_solution = naive.solve(&puzzle);
    let mut bitmask_solution = bitmask.solve(&puzzle);

    naive_solution.sort();
    bitmask_solution.sort();
    assert!(naive_solution == bitmask_solution);
}

#[test]
fn test_blockbitmask_solver() {
    let dictionary = dictionary();
    let naive = NaiveSolver::new(dictionary.clone());
    let block_bitmask = BitmaskBlockSolver::new(dictionary.clone(), 50);
    let puzzle = puzzle();

    let mut naive_solution = naive.solve(&puzzle);
    let mut block_bitmask_solution = block_bitmask.solve(&puzzle);

    naive_solution.sort();
    block_bitmask_solution.sort();
    assert!(naive_solution == block_bitmask_solution);
}

#[test]
fn test_expected_answers() {
    let puzzle = puzzle();
    let expected: Vec<String> = [
        "abed", "added", "badge", "baggage", "bead", "cabbage", "cabbagge", "cafe", "cage",
        "dead", "decade", "deface", "efface", "facade", "face", "gaffe",
    ]
    .iter()
    .map(|w| w.to_string())
    .collect();
    for solution in [
        NaiveSolver::new(dictionary()).solve(&puzzle),
        TrieSolver::new(dictionary()).solve(&puzzle),
        BitmaskSolver::new(dictionary()).solve(&puzzle),
        BitmaskBlockSolver::new(dictionary(), 4).solve(&puzzle),
    ] {
        let mut solution = solution;
        solution.sort();
        assert_eq!(solution, expected);
    }
}
