use std::collections::HashMap;

use puzzles::inventory::{checksum, common_string_parts, count_items, CommonString};

#[test]
fn test_checksum() {
    assert_eq!(
        checksum(&[
            "abcdef", "bababc", "abbcde", "abcccd",
            "aabcdd", "abcdee", "ababab",
        ]),
        12
    );
}

#[test]
fn test_count_items() {
    let mut expected_counts = HashMap::new();

    expected_counts.insert(1, 2 as usize);
    expected_counts.insert(2, 1);
    expected_counts.insert(3, 1);
    expected_counts.insert(5, 4);

    let stuff = count_items(&[1, 1, 2, 3, 5, 5, 5, 5]);

    // poor man's hashmap equality comparison
    assert_eq!(expected_counts.len(), stuff.len());

    for (k, v) in expected_counts {
        assert_eq!(stuff.get(&k).unwrap(), &v);
    }
}

#[test]
fn test_common_string_parts() {
    let strings = [
        "abcde", "fghij", "klmno", "pqrst",
        "fguij", "axcye", "wvxyz"
    ];

    assert_eq!(
        common_string_parts(&strings, 1),
        vec![
            CommonString { common: "fgij".into(), left: "fghij", right: "fguij"}
        ]
    );

    assert_eq!(
        common_string_parts(&strings, 2),
        vec![
            CommonString { common: "ace".into(), left: "abcde", right: "axcye"}
        ]
    );
}

#[test]
fn test_common_string_parts_different_lengths() {
    let strings = ["abc", "abdef"];

    assert_eq!(
        common_string_parts(&strings, 1),
        vec![]
    );

    assert_eq!(
        common_string_parts(&strings, 2),
        vec![]
    );

    assert_eq!(
        common_string_parts(&strings, 3),
        vec![]
    );
}
