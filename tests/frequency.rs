use std::collections::HashMap;

use exercises::letter_frequency::{char_frequency, count_letters, merge, Tally};

fn as_map(t: Tally) -> HashMap<char, usize> {
    let n = t.len();
    let m: HashMap<char, usize> = t.into_iter().collect();
    assert_eq!(m.len(), n);
    m
}

#[test]
fn test_frequency_1_worker() {
    let input = vec!["abc"];
    let expected: HashMap<char, usize> = vec![('a', 1), ('b', 1), ('c', 1)].into_iter().collect();
    assert_eq!(expected, as_map(count_letters(&input)));

    let input = vec!["abc", "abc"];
    let expected: HashMap<char, usize> = vec![('a', 2), ('b', 2), ('c', 2)].into_iter().collect();
    assert_eq!(expected, as_map(count_letters(&input)));
}

#[test]
fn test_frequency_2_workers() {
    let input = vec!["abc"; 999];
    let mut acc = count_letters(&input[..500]);
    merge(&mut acc, &count_letters(&input[500..]));
    let expected: HashMap<char, usize> =
        vec![('a', 999), ('b', 999), ('c', 999)].into_iter().collect();
    assert_eq!(expected, as_map(acc));

    let input = vec!["abc", "abc"];
    let mut acc = count_letters(&input[..1]);
    merge(&mut acc, &count_letters(&input[1..]));
    let expected: HashMap<char, usize> = vec![('a', 2), ('b', 2), ('c', 2)].into_iter().collect();
    assert_eq!(expected, as_map(acc));
}

#[test]
fn letters_fold_ascii_case_only() {
    let expected: HashMap<char, usize> =
        vec![('a', 3), ('\u{c4}', 1), ('\u{e4}', 1), ('z', 1)].into_iter().collect();
    assert_eq!(expected, as_map(count_letters(&["aA1 ,", "\u{c4}\u{e4}Z", "a!"])));
    assert!(count_letters(&[]).is_empty());
    assert!(count_letters(&["123 !?"]).is_empty());
}

#[test]
fn characters_without_numbers_or_punctuation() {
    let expected: HashMap<char, usize> = vec![('a', 2), (' ', 3), ('b', 1), ('\u{df}', 1)]
        .into_iter()
        .collect();
    assert_eq!(expected, as_map(char_frequency("A a, b! 42\u{df}\u{664}")));
}
