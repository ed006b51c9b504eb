use crossword::Solver;
use crossword::dictionary::Dictionary;
use crossword::grid::Grid;
use crossword::planner::{generate_solver_steps, PlanError};
use crossword::solver::{solve, solve_sequential};

fn dict_of(words: &[&str]) -> Dictionary {
    Dictionary::from_vec(words.iter().map(|w| w.to_string()).collect())
}

fn spelled(result: &[char], word: &[usize]) -> String {
    word.iter().map(|s| result[*s]).collect()
}

#[test]
fn single_word_grid_unique_solution() {
    let grid = Grid::new(vec![vec![0, 1, 2]]);
    let dict = dict_of(&["cat"]);

    assert_eq!(solve_sequential(&grid, &dict), Some(vec!['c', 'a', 't']));
    assert_eq!(solve(&grid, &dict), Some(vec!['c', 'a', 't']));
}

#[test]
fn simple_crossword_shared_slots_agree() {
    let slot_words = vec![
        vec![0, 1, 2, 3],
        vec![4, 0, 5, 6],
        vec![7, 8, 5, 9],
        vec![10, 11, 1, 12, 5],
    ];
    let grid = Grid::new(slot_words.clone());
    // the no-repeated-word rule compares bucket positions across length
    // buckets, so "eight" sits at a position no 4-letter word occupies
    let dict = dict_of(&["ages", "data", "with", "zzzzz", "qqqqq", "xxxxx", "eight"]);

    let result = solve(&grid, &dict).expect("this grid has a fill");

    // the only fill under the no-repeated-word rule
    assert_eq!(
        vec!['a', 'g', 'e', 's', 'd', 't', 'a', 'w', 'i', 'h', 'e', 'i', 'h'],
        result
    );
    assert_eq!(spelled(&result, &slot_words[0]), "ages");
    assert_eq!(spelled(&result, &slot_words[1]), "data");
    assert_eq!(spelled(&result, &slot_words[2]), "with");
    assert_eq!(spelled(&result, &slot_words[3]), "eight");

    // the sequential engine agrees on this uniquely solvable grid
    assert_eq!(solve_sequential(&grid, &dict), Some(result));
}

#[test]
fn missing_length_bucket_is_no_solution_not_a_fault() {
    // the topology needs a 4-letter word; the dictionary has none
    let grid = Grid::new(vec![vec![0, 1, 2, 3]]);
    let dict = dict_of(&["cat", "dog"]);

    assert_eq!(solve(&grid, &dict), None);
    assert_eq!(solve_sequential(&grid, &dict), None);
}

#[test]
fn unsatisfiable_solve_is_idempotent() {
    // two disjoint 3-letter words but only one 3-letter dictionary entry:
    // the no-repeated-word rule leaves no fill
    let grid = Grid::new(vec![vec![0, 1, 2], vec![3, 4, 5]]);
    let dict = dict_of(&["cat"]);

    assert_eq!(solve(&grid, &dict), None);
    assert_eq!(solve(&grid, &dict), None);
    assert_eq!(solve_sequential(&grid, &dict), None);
    assert_eq!(solve_sequential(&grid, &dict), None);
}

#[test]
fn no_word_reused_across_disjoint_slots() {
    let slot_words = vec![vec![0, 1, 2], vec![3, 4, 5]];
    let grid = Grid::new(slot_words.clone());
    let dict = dict_of(&["cat", "dog"]);

    let result = solve(&grid, &dict).expect("two words fit two slots");
    let w0 = spelled(&result, &slot_words[0]);
    let w1 = spelled(&result, &slot_words[1]);
    assert!(w0 == "cat" || w0 == "dog");
    assert!(w1 == "cat" || w1 == "dog");
    assert_ne!(w0, w1);
}

#[test]
fn duplicate_dictionary_entries_are_distinct_positions() {
    // two identical entries occupy two bucket positions, so both words may
    // spell the same text
    let slot_words = vec![vec![0, 1, 2], vec![3, 4, 5]];
    let grid = Grid::new(slot_words.clone());
    let dict = dict_of(&["cat", "cat"]);

    let result = solve(&grid, &dict).expect("two positions serve two words");
    assert_eq!(spelled(&result, &slot_words[0]), "cat");
    assert_eq!(spelled(&result, &slot_words[1]), "cat");
}

#[test]
fn sequential_and_parallel_agree_on_satisfiability() {
    let cases: Vec<(Vec<Vec<usize>>, Vec<&str>)> = vec![
        (vec![vec![0, 1, 2]], vec!["cat"]),
        (vec![vec![0, 1, 2], vec![3, 4, 5]], vec!["cat"]),
        (vec![vec![0, 1, 2], vec![3, 4, 5]], vec!["cat", "dog"]),
        (vec![vec![0, 1, 2, 3]], vec!["cat"]),
        (
            vec![vec![0, 1, 2, 3], vec![4, 0, 5, 6], vec![7, 8, 5, 9], vec![10, 11, 1, 12, 5]],
            vec!["ages", "data", "with", "eight"],
        ),
        (vec![vec![0, 1], vec![1, 2], vec![2, 0]], vec!["ab", "bc", "ca"]),
        // two fills exist; each engine may pick either
        (vec![vec![0, 1, 2]], vec!["cat", "dog"]),
    ];
    for (slot_words, words) in cases {
        let grid = Grid::new(slot_words.clone());
        let dict = dict_of(&words);
        let seq = solve_sequential(&grid, &dict);
        let par = solve(&grid, &dict);
        assert_eq!(seq.is_some(), par.is_some());
        for result in [seq, par].into_iter().flatten() {
            // every word of a returned fill spells a dictionary entry
            for word in &slot_words {
                let text = spelled(&result, word);
                assert!(words.contains(&text.as_str()));
            }
        }
    }
}

#[test]
fn planner_reports_the_missing_length_bucket() {
    let grid = Grid::new(vec![vec![0, 1, 2], vec![3, 4, 5, 6]]);
    let dict = dict_of(&["cat"]);
    let r = generate_solver_steps(&grid, &dict);
    assert!(matches!(r, Err(PlanError::MissingBucket(4))));
}

#[test]
fn duplicate_slot_fill_is_valid_when_found() {
    // a word may repeat a slot id (a self-constraint); an engine may or may
    // not find the degenerate fill, but a returned fill must spell a word
    let slot_words = vec![vec![0, 0]];
    let grid = Grid::new(slot_words.clone());
    let dict = dict_of(&["aa"]);
    for result in [solve(&grid, &dict), solve_sequential(&grid, &dict)].into_iter().flatten() {
        assert_eq!(spelled(&result, &slot_words[0]), "aa");
    }
}

#[test]
fn unreferenced_slots_stay_blank() {
    // slot 1 is never referenced by any word
    let grid = Grid::new(vec![vec![0, 2, 3]]);
    let dict = dict_of(&["cat"]);
    assert_eq!(solve(&grid, &dict), Some(vec!['c', ' ', 'a', 't']));
    assert_eq!(solve_sequential(&grid, &dict), Some(vec!['c', ' ', 'a', 't']));
}

#[test]
fn empty_topology_solves_to_empty_assignment() {
    let grid = Grid::new(vec![]);
    let dict = dict_of(&["cat"]);
    assert_eq!(solve(&grid, &dict), Some(vec![]));
    assert_eq!(solve_sequential(&grid, &dict), Some(vec![]));
}

#[test]
fn solver_api_builds_dictionary_and_solves() {
    let solver = Solver::new(vec![String::from("CAT")]);
    let result = solver.solve(vec![vec![0, 1, 2]]);
    assert_eq!(result, Some(vec!['c', 'a', 't']));
    assert_eq!(solver.solve(vec![vec![0, 1, 2, 3]]), None);
}
