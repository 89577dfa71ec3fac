use json_diff::lcs::DiffComponent::{Deletion, Insertion, Unchanged};
use json_diff::lcs::{DiffComponent, LcsTable};

#[test]
fn test_lcs_table() {
    let a: Vec<char> = "gac".chars().collect();
    let b: Vec<char> = "agcat".chars().collect();

    let table = LcsTable::new(&a, &b);
    let actual_lengths = table.lengths();
    let expected_lengths: Vec<Vec<usize>> = vec![
        vec![0, 0, 0, 0, 0, 0],
        vec![0, 0, 1, 1, 1, 1],
        vec![0, 1, 1, 1, 2, 2],
        vec![0, 1, 1, 2, 2, 2],
    ];

    assert_eq!(&expected_lengths, actual_lengths);
}

#[test]
fn test_diff() {
    let a: Vec<char> = "axb".chars().collect();
    let b: Vec<char> = "abc".chars().collect();

    let table = LcsTable::new(&a, &b);
    let diff = table.diff();
    assert_eq!(
        diff,
        vec![
            Unchanged(&'a', &'a'),
            Deletion(&'x'),
            Unchanged(&'b', &'b'),
            Insertion(&'c')
        ]
    );
}

#[test]
fn ties_prefer_deletion() {
    let a: Vec<char> = "x".chars().collect();
    let b: Vec<char> = "y".chars().collect();

    let table = LcsTable::new(&a, &b);
    assert_eq!(table.diff(), vec![Insertion(&'y'), Deletion(&'x')]);
}

#[test]
fn empty_sequences_align_to_nothing() {
    let a: Vec<char> = Vec::new();
    let b: Vec<char> = Vec::new();

    let table = LcsTable::new(&a, &b);
    assert_eq!(table.diff(), Vec::<DiffComponent<&char>>::new());
    assert_eq!(table.lengths(), &vec![vec![0usize]]);
}

#[test]
fn alignment_never_exceeds_both_lengths() {
    let a: Vec<char> = "abcdef".chars().collect();
    let b: Vec<char> = "xbdyfz".chars().collect();

    let table = LcsTable::new(&a, &b);
    let diff = table.diff();
    assert!(diff.len() <= a.len() + b.len());
    assert_eq!(table.lengths()[6][6], 3);
}
