//! Scenario and unit tests for the puzzle value, the letter codec, and the
//! edge cases of every solver.

use beekeeper::{BitmaskBlockSolver, BitmaskSolver, NaiveSolver, Puzzle, Solver, TrieSolver};

fn words(list: &[&str]) -> Vec<String> {
    list.iter().map(|w| w.to_string()).collect()
}

#[test]
fn test_scenario_single_answer() {
    // "bee" and "eel" are too short, "peeve" uses the forbidden 'v',
    // "geese" the forbidden 's', "axolotl" several forbidden letters;
    // only "epee" survives, for every strategy and block size.
    let dictionary = words(&["bee", "eel", "epee", "peeve", "geese", "axolotl"]);
    let puzzle = Puzzle {
        center_letter: 'e',
        outer_letters: ['p', 'u', 'n', 'i', 'g', 'x'],
    };
    let expected = words(&["epee"]);
    assert_eq!(NaiveSolver::new(dictionary.clone()).solve(&puzzle), expected);
    assert_eq!(TrieSolver::new(dictionary.clone()).solve(&puzzle), expected);
    assert_eq!(BitmaskSolver::new(dictionary.clone()).solve(&puzzle), expected);
    assert_eq!(BitmaskBlockSolver::new(dictionary.clone(), 1).solve(&puzzle), expected);
    assert_eq!(
        BitmaskBlockSolver::new(dictionary.clone(), dictionary.len()).solve(&puzzle),
        expected
    );
}

#[test]
fn test_empty_dictionary() {
    let dictionary: Vec<String> = Vec::new();
    let puzzle = Puzzle {
        center_letter: 'e',
        outer_letters: ['p', 'u', 'n', 'i', 'g', 'x'],
    };
    assert!(NaiveSolver::new(dictionary.clone()).solve(&puzzle).is_empty());
    assert!(TrieSolver::new(dictionary.clone()).solve(&puzzle).is_empty());
    assert!(BitmaskSolver::new(dictionary.clone()).solve(&puzzle).is_empty());
    assert!(BitmaskBlockSolver::new(dictionary.clone(), 1).solve(&puzzle).is_empty());
}

#[test]
fn test_only_forbidden_letters() {
    let dictionary = words(&["jazz", "mummy", "worry", "quartz"]);
    let puzzle = Puzzle {
        center_letter: 'e',
        outer_letters: ['p', 'u', 'n', 'i', 'g', 'x'],
    };
    assert!(NaiveSolver::new(dictionary.clone()).solve(&puzzle).is_empty());
    assert!(TrieSolver::new(dictionary.clone()).solve(&puzzle).is_empty());
    assert!(BitmaskSolver::new(dictionary.clone()).solve(&puzzle).is_empty());
    assert!(BitmaskBlockSolver::new(dictionary.clone(), 2).solve(&puzzle).is_empty());
}

#[test]
fn test_minimum_length() {
    // "eee" satisfies every letter rule but is one character too short.
    let dictionary = words(&["eee", "eeee"]);
    let puzzle = Puzzle {
        center_letter: 'e',
        outer_letters: ['p', 'u', 'n', 'i', 'g', 'x'],
    };
    let expected = words(&["eeee"]);
    assert_eq!(NaiveSolver::new(dictionary.clone()).solve(&puzzle), expected);
    assert_eq!(TrieSolver::new(dictionary.clone()).solve(&puzzle), expected);
    assert_eq!(BitmaskSolver::new(dictionary.clone()).solve(&puzzle), expected);
    assert_eq!(BitmaskBlockSolver::new(dictionary.clone(), 3).solve(&puzzle), expected);
}

#[test]
fn test_mandatory_center_letter() {
    // "ping" uses only allowed letters but never the center letter.
    let dictionary = words(&["ping", "pine"]);
    let puzzle = Puzzle {
        center_letter: 'e',
        outer_letters: ['p', 'u', 'n', 'i', 'g', 'x'],
    };
    let expected = words(&["pine"]);
    assert_eq!(NaiveSolver::new(dictionary.clone()).solve(&puzzle), expected);
    assert_eq!(TrieSolver::new(dictionary.clone()).solve(&puzzle), expected);
    assert_eq!(BitmaskSolver::new(dictionary.clone()).solve(&puzzle), expected);
    assert_eq!(BitmaskBlockSolver::new(dictionary.clone(), 1).solve(&puzzle), expected);
}

#[test]
fn test_letter_containment() {
    // "peeves" contains the center letter but also the forbidden 's' and 'v'.
    let dictionary = words(&["peeves", "genie"]);
    let puzzle = Puzzle {
        center_letter: 'e',
        outer_letters: ['p', 'u', 'n', 'i', 'g', 'x'],
    };
    let expected = words(&["genie"]);
    assert_eq!(NaiveSolver::new(dictionary.clone()).solve(&puzzle), expected);
    assert_eq!(TrieSolver::new(dictionary.clone()).solve(&puzzle), expected);
    assert_eq!(BitmaskSolver::new(dictionary.clone()).solve(&puzzle), expected);
    assert_eq!(BitmaskBlockSolver::new(dictionary.clone(), 2).solve(&puzzle), expected);
}

#[test]
fn test_unusual_characters_never_match() {
    // Uppercase, accented and punctuation characters all land on the
    // reserved mask bit and can never satisfy a lowercase puzzle.
    let dictionary = words(&["Pine", "pin e", "pin-e", "pin\u{e9}", "pene"]);
    let puzzle = Puzzle {
        center_letter: 'e',
        outer_letters: ['p', 'u', 'n', 'i', 'g', 'x'],
    };
    let expected = words(&["pene"]);
    assert_eq!(NaiveSolver::new(dictionary.clone()).solve(&puzzle), expected);
    assert_eq!(TrieSolver::new(dictionary.clone()).solve(&puzzle), expected);
    assert_eq!(BitmaskSolver::new(dictionary.clone()).solve(&puzzle), expected);
    assert_eq!(BitmaskBlockSolver::new(dictionary.clone(), 2).solve(&puzzle), expected);
}

#[test]
fn test_block_size_invariance() {
    let dictionary = words(&[
        "pining", "genie", "pigpen", "unpen", "ennui", "piing", "genip", "geese", "epee",
        "inept", "pixie", "nixie",
    ]);
    let puzzle = Puzzle {
        center_letter: 'e',
        outer_letters: ['p', 'u', 'n', 'i', 'g', 'x'],
    };
    let mut flat = BitmaskSolver::new(dictionary.clone()).solve(&puzzle);
    flat.sort();
    for block_size in [1, 2, 3, 5, dictionary.len(), 50] {
        let mut blocked = BitmaskBlockSolver::new(dictionary.clone(), block_size).solve(&puzzle);
        blocked.sort();
        assert_eq!(blocked, flat);
    }
}

#[test]
fn test_bitmask_letter_values() {
    assert_eq!(BitmaskSolver::bitmask_letter(&'a'), 1);
    assert_eq!(BitmaskSolver::bitmask_letter(&'b'), 2);
    assert_eq!(BitmaskSolver::bitmask_letter(&'e'), 1 << 4);
    assert_eq!(BitmaskSolver::bitmask_letter(&'z'), 1 << 25);
    // Anything that is not a lowercase letter lands on the reserved bit.
    assert_eq!(BitmaskSolver::bitmask_letter(&'A'), 1 << 26);
    assert_eq!(BitmaskSolver::bitmask_letter(&'7'), 1 << 26);
    assert_eq!(BitmaskSolver::bitmask_letter(&'-'), 1 << 26);
    assert_eq!(BitmaskSolver::bitmask_letter(&'\u{e9}'), 1 << 26);
}

#[test]
fn test_word_mask_values() {
    assert_eq!(BitmaskSolver::bitmask_word(""), 0);
    assert_eq!(BitmaskSolver::bitmask_word("abc"), 0b111);
    assert_eq!(BitmaskSolver::bitmask_word("cab"), 0b111);
    assert_eq!(BitmaskSolver::bitmask_word("epee"), (1 << 4) | (1 << 15));
}

#[test]
fn test_word_mask_idempotence() {
    // The mask only sees which letters occur: order and repetition change
    // nothing.
    assert_eq!(
        BitmaskSolver::bitmask_word("bee"),
        BitmaskSolver::bitmask_word("ebe")
    );
    assert_eq!(
        BitmaskSolver::bitmask_word("bee"),
        BitmaskSolver::bitmask_word("beebee")
    );
    assert_eq!(
        BitmaskSolver::bitmask_word("facade"),
        BitmaskSolver::bitmask_word("decaf")
    );
}

#[test]
fn test_puzzle_to_string() {
    let puzzle = Puzzle {
        center_letter: 'e',
        outer_letters: ['x', 'p', 'u', 'n', 'i', 'g'],
    };
    assert_eq!(puzzle.to_string(), "e: xpunig".to_string());
}

#[test]
fn test_word_is_valid() {
    let puzzle = Puzzle {
        center_letter: 'e',
        outer_letters: ['p', 'u', 'n', 'i', 'g', 'x'],
    };
    let solver = NaiveSolver::new(Vec::new());
    assert!(solver.word_is_valid(&puzzle, "epee"));
    assert!(solver.word_is_valid(&puzzle, "e"));
    assert!(!solver.word_is_valid(&puzzle, "ping"));
    assert!(!solver.word_is_valid(&puzzle, "peeve"));
    assert!(!solver.word_is_valid(&puzzle, "Epee"));
    assert!(!solver.word_is_valid(&puzzle, ""));
}

#[test]
fn test_duplicate_outer_letters() {
    // Duplicated outer letters, even duplicating the center letter, only
    // lose filtering power; the answer set does not change.
    let dictionary = words(&["genie", "pine", "ping", "peeves"]);
    let distinct = Puzzle {
        center_letter: 'e',
        outer_letters: ['p', 'u', 'n', 'i', 'g', 'x'],
    };
    let duplicated = Puzzle {
        center_letter: 'e',
        outer_letters: ['p', 'e', 'n', 'i', 'g', 'p'],
    };
    let naive = NaiveSolver::new(dictionary.clone());
    let mut base = naive.solve(&distinct);
    base.retain(|w| !w.contains('u') && !w.contains('x'));
    let mut dup = naive.solve(&duplicated);
    base.sort();
    dup.sort();
    assert_eq!(dup, base);
}

#[test]
fn test_duplicate_words() {
    // A duplicated dictionary entry is reported twice by the scanning
    // strategies and once by the trie, which indexes words as a set.
    let dictionary = words(&["pine", "pine"]);
    let puzzle = Puzzle {
        center_letter: 'e',
        outer_letters: ['p', 'u', 'n', 'i', 'g', 'x'],
    };
    assert_eq!(NaiveSolver::new(dictionary.clone()).solve(&puzzle), words(&["pine", "pine"]));
    assert_eq!(BitmaskSolver::new(dictionary.clone()).solve(&puzzle), words(&["pine", "pine"]));
    assert_eq!(
        BitmaskBlockSolver::new(dictionary.clone(), 1).solve(&puzzle),
        words(&["pine", "pine"])
    );
    assert_eq!(TrieSolver::new(dictionary.clone()).solve(&puzzle), words(&["pine"]));
}
