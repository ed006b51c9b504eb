use crossword::grid::Grid;
use crossword::index::PatternIndex;
use crossword::dictionary::Dictionary;

#[test]
fn grid_derives_slot_count_and_adjacency() {
    let slot_words = vec![
        vec![0, 1, 2, 3],
        vec![4, 0, 5, 6],
        vec![7, 8, 5, 9],
        vec![10, 11, 1, 12, 5],
    ];
    let g = Grid::new(slot_words.clone());
    assert_eq!(g.num_words(), 4);
    assert_eq!(g.slots, 13);
    assert_eq!(g.words, slot_words);
    assert_eq!(g.slot_to_words[0], vec![0, 1]);
    assert_eq!(g.slot_to_words[1], vec![0, 3]);
    assert_eq!(g.slot_to_words[5], vec![1, 2, 3]);
    assert_eq!(g.slot_to_words[10], vec![3]);
}

#[test]
fn grid_rebuild_yields_identical_adjacency() {
    let slot_words = vec![vec![0, 1, 2, 3], vec![4, 0, 5, 6], vec![7, 8, 5, 9]];
    let g1 = Grid::new(slot_words.clone());
    let g2 = Grid::new(slot_words);
    assert_eq!(g1.slots, g2.slots);
    assert_eq!(g1.slot_to_words, g2.slot_to_words);
    assert_eq!(g1.words, g2.words);
}

#[test]
fn grid_records_duplicate_slot_once() {
    let g = Grid::new(vec![vec![2, 2, 7]]);
    assert_eq!(g.slots, 8);
    assert_eq!(g.slot_to_words[2], vec![0]);
    assert_eq!(g.slot_to_words[7], vec![0]);
    assert_eq!(g.slot_to_words[3], Vec::<usize>::new());
}

#[test]
fn empty_grid_has_no_slots() {
    let g = Grid::new(vec![]);
    assert_eq!(g.slots, 0);
    assert_eq!(g.num_words(), 0);
}

#[test]
fn pattern_index_query_filters_by_known_letters() {
    let dict = Dictionary::from_vec(vec![
        String::from("foo"),
        String::from("bar"),
        String::from("baz"),
    ]);
    // letters at position 0 are known, positions 1 and 2 are open
    let idx = PatternIndex::new(vec![0], 3, &dict);
    let matches = idx.query(&vec!['b']);
    assert_eq!(
        matches,
        vec![(1, vec!['a', 'r']), (2, vec!['a', 'z'])]
    );
    assert_eq!(idx.query(&vec!['f']), vec![(0, vec!['o', 'o'])]);
    assert_eq!(idx.query(&vec!['x']), vec![]);
}

#[test]
fn pattern_index_empty_key_matches_whole_bucket() {
    let dict = Dictionary::from_vec(vec![String::from("ab"), String::from("cd")]);
    let idx = PatternIndex::new(vec![], 2, &dict);
    let matches = idx.query(&vec![]);
    assert_eq!(matches, vec![(0, vec!['a', 'b']), (1, vec!['c', 'd'])]);
}
