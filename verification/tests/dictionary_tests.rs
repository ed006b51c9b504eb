use crossword::dictionary::Dictionary;

fn simple_dict() -> Dictionary {
    Dictionary::from_vec(vec![
        // 3:
        String::from("foo"), // 0
        String::from("BAR"), // 1
        String::from("baz"), // 2
        // 4:
        String::from("quad"), // 0
        String::from("plex"), // 1
        String::from("plan"), // 2
    ])
}

#[test]
fn test_dict() {
    let d = simple_dict();

    assert_eq!(
        vec![
            vec!['f', 'o', 'o'],
            vec!['b', 'a', 'r'],
            vec!['b', 'a', 'z'],
        ],
        d.words[3]
    );

    assert_eq!(
        vec![
            vec!['q', 'u', 'a', 'd'],
            vec!['p', 'l', 'e', 'x'],
            vec!['p', 'l', 'a', 'n'],
        ],
        d.words[4]
    );
}

#[test]
fn dict_bucket_len_reports_sizes() {
    let d = simple_dict();
    assert_eq!(d.bucket_len(3), 3);
    assert_eq!(d.bucket_len(4), 3);
    assert_eq!(d.bucket_len(5), 0);
    assert_eq!(d.bucket_len(0), 0);
}

#[test]
fn dict_accepts_empty_and_duplicate_words() {
    let d = Dictionary::from_vec(vec![
        String::from(""),
        String::from("cat"),
        String::from("cat"),
    ]);
    assert_eq!(d.bucket_len(0), 1);
    assert_eq!(d.words[0], vec![Vec::<char>::new()]);
    // duplicates keep two distinct bucket positions
    assert_eq!(d.words[3], vec![vec!['c', 'a', 't'], vec!['c', 'a', 't']]);
}

#[test]
fn dict_lower_cases_only_ascii_uppercase() {
    let d = Dictionary::from_vec(vec![String::from("MiX3-Z")]);
    assert_eq!(d.words[6], vec![vec!['m', 'i', 'x', '3', '-', 'z']]);
}
