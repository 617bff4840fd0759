use nn_rust::fixed::Fixed;
use nn_rust::nn::data_format::{copy_range, fields, number_fields, split, stands_at, without};
use nn_rust::nn::data_set::{class_targets, one_hot};
use nn_rust::scalar::Scalar;

fn bytes(text: &str) -> Vec<u8> {
    text.as_bytes().to_vec()
}

fn strings(pieces: Vec<Vec<u8>>) -> Vec<String> {
    pieces.into_iter().map(|piece| String::from_utf8(piece).unwrap()).collect()
}

#[test]
fn split_cuts_at_every_occurrence() {
    assert_eq!(strings(split(&bytes("a,b,,c"), &bytes(","))), vec!["a", "b", "", "c"]);
    assert_eq!(strings(split(&bytes("{1},{2},{3}"), &bytes("},{"))), vec!["{1", "2", "3}"]);
    assert_eq!(strings(split(&bytes(",a,"), &bytes(","))), vec!["", "a", ""]);
}

#[test]
fn split_without_an_occurrence_gives_one_piece() {
    assert_eq!(strings(split(&bytes("abc"), &bytes(","))), vec!["abc"]);
    assert_eq!(strings(split(&bytes(""), &bytes(","))), vec![""]);
    assert_eq!(strings(split(&bytes("ab"), &bytes("abc"))), vec!["ab"]);
    assert_eq!(strings(split(&bytes("abc"), &bytes(""))), vec!["abc"]);
}

#[test]
fn split_finds_matches_from_the_left_without_overlap() {
    assert_eq!(strings(split(&bytes("aaaa"), &bytes("aa"))), vec!["", "", ""]);
    assert_eq!(strings(split(&bytes("aaa"), &bytes("aa"))), vec!["", "a"]);
    assert_eq!(strings(split(&bytes("xabab"), &bytes("ab"))), vec!["x", "", ""]);
}

#[test]
fn split_agrees_with_the_standard_split() {
    let samples = ["{1, 2},{3, 4}", "},{},{", "}},{{", "no separator", "},{", "a},{b},c},{"];
    for sample in samples {
        let expected: Vec<String> = sample.split("},{").map(|piece| piece.to_string()).collect();
        assert_eq!(strings(split(&bytes(sample), &bytes("},{"))), expected);
    }
}

#[test]
fn stands_at_tells_a_match() {
    assert!(stands_at(&bytes("abcabc"), &bytes("bc"), 1));
    assert!(stands_at(&bytes("abcabc"), &bytes("bc"), 4));
    assert!(!stands_at(&bytes("abcabc"), &bytes("bc"), 2));
    assert!(!stands_at(&bytes("abcabc"), &bytes("bc"), 5));
    assert!(!stands_at(&bytes("abcabc"), &bytes("bc"), 9));
    assert!(stands_at(&bytes("abc"), &bytes(""), 3));
}

#[test]
fn copy_range_copies_the_bytes_between() {
    assert_eq!(copy_range(&bytes("abcdef"), 1, 4), bytes("bcd"));
    assert_eq!(copy_range(&bytes("abcdef"), 2, 2), bytes(""));
    assert_eq!(copy_range(&bytes("abcdef"), 0, 6), bytes("abcdef"));
}

#[test]
fn without_drops_a_byte() {
    assert_eq!(without(&bytes(" 1 . 5 "), b' '), bytes("1.5"));
    assert_eq!(without(&bytes("{{1}"), b'{'), bytes("1}"));
    assert_eq!(without(&bytes("abc"), b'x'), bytes("abc"));
    assert_eq!(without(&bytes(""), b'x'), bytes(""));
}

#[test]
fn fields_drops_braces_and_blanks() {
    assert_eq!(strings(fields(&bytes("{1.5, 2, -3.25"))), vec!["1.5", "2", "-3.25"]);
    assert_eq!(strings(fields(&bytes("4 , 5}"))), vec!["4", "5"]);
    assert_eq!(strings(fields(&bytes(""))), vec![""]);
}

#[test]
fn number_fields_reads_records_of_numbers() {
    let all = number_fields(&bytes("{0.1, 0.2, 0.3},{4, 5, 6},{7,8,9}"));
    let read: Vec<Vec<String>> = all.into_iter().map(strings).collect();
    assert_eq!(
        read,
        vec![vec!["0.1", "0.2", "0.3"], vec!["4", "5", "6"], vec!["7", "8", "9"]]
    );
}

#[test]
fn number_fields_of_one_record() {
    let read: Vec<Vec<String>> = number_fields(&bytes("{1, 2}")).into_iter().map(strings).collect();
    assert_eq!(read, vec![vec!["1", "2"]]);
}

#[test]
fn one_hot_names_one_class() {
    let one = Fixed::from_ratio(1, 1);
    let zero = Fixed::from_ratio(0, 1);
    assert_eq!(one_hot::<Fixed>(3, 1), vec![zero, one, zero]);
    assert_eq!(one_hot::<Fixed>(3, 5), vec![zero, zero, zero]);
    assert_eq!(one_hot::<Fixed>(0, 0), Vec::<Fixed>::new());
}

#[test]
fn class_targets_come_class_by_class() {
    let one = Fixed::from_ratio(1, 1);
    let zero = Fixed::from_ratio(0, 1);
    let targets = class_targets::<Fixed>(3, 2);
    assert_eq!(
        targets,
        vec![
            vec![one, zero, zero],
            vec![one, zero, zero],
            vec![zero, one, zero],
            vec![zero, one, zero],
            vec![zero, zero, one],
            vec![zero, zero, one],
        ]
    );
    assert!(class_targets::<Fixed>(3, 0).is_empty());
    assert!(class_targets::<Fixed>(0, 4).is_empty());
}
