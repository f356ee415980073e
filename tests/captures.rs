use rustpcre::captures::Captures;
use rustpcre::ovector::{captures_from_ovector, span_fits_subject, spans_fit_subject, OVECTOR_LEN};

/// An offset vector with the given pairs first and zeros after them, as
/// the matcher leaves a zero-filled vector.
fn offsets(pairs: &[(i32, i32)]) -> Vec<i32> {
    let mut v = vec![0i32; OVECTOR_LEN];
    for (k, (start, end)) in pairs.iter().enumerate() {
        v[2 * k] = *start;
        v[2 * k + 1] = *end;
    }
    v
}

fn read(subject: &str, pairs: &[(i32, i32)], status: i32) -> Option<Captures> {
    let v = offsets(pairs);
    assert!(spans_fit_subject(subject, &v));
    captures_from_ovector(subject, &v, status)
}

#[test]
fn two_groups_in_order() {
    // "(.)bcd(e.g)" against "abcdefg"
    let m = read("abcdefg", &[(0, 7), (0, 1), (4, 7)], 3).unwrap();
    assert_eq!(m.len(), 2);
    assert_eq!(m.index(0), "a");
    assert_eq!(m.index(1), "efg");
    assert_eq!(m.substrings(), vec!["a", "efg"]);
}

#[test]
fn no_groups_declared() {
    // "..." against "abc"
    let m = read("abc", &[(0, 3)], 1).unwrap();
    assert!(m.is_empty());
    assert_eq!(m.len(), 0);
    assert!(m.substrings().is_empty());
    assert_eq!(m.group_slots(), 9);
}

#[test]
fn negative_status_is_no_match() {
    // "...." against "ab": no match
    assert!(read("ab", &[], -1).is_none());
    assert!(read("ab", &[], -2).is_none());
}

#[test]
fn zero_status_still_reads_groups() {
    let m = read("abc", &[(0, 3), (1, 2)], 0).unwrap();
    assert_eq!(m.substrings(), vec!["b"]);
}

#[test]
fn groups_by_number() {
    // "(?<foo>..).(?<bar>..)" against "abcde": foo is group 1, bar group 2
    let m = read("abcde", &[(0, 5), (0, 2), (3, 5)], 3).unwrap();
    assert_eq!(m.group(1), Some("ab"));
    assert_eq!(m.group(2), Some("de"));
    // an unknown name resolves to a negative number
    assert_eq!(m.group(-7), None);
    assert_eq!(m.group(0), None);
    assert_eq!(m.group(3), None);
    assert_eq!(m.group(10), None);
}

#[test]
fn group_that_did_not_take_part_keeps_later_numbers() {
    // "(a)?(b)" against "b": group 1 unset
    let m = read("b", &[(0, 1), (-1, -1), (0, 1)], 3).unwrap();
    assert_eq!(m.substrings(), vec!["b"]);
    assert_eq!(m.index(0), "b");
    assert_eq!(m.group(1), None);
    assert_eq!(m.group(2), Some("b"));
}

#[test]
fn empty_and_negative_spans_are_dropped() {
    let m = read("abcd", &[(0, 4), (2, 2), (-1, 3), (1, 4)], 4).unwrap();
    assert_eq!(m.len(), 1);
    assert_eq!(m.index(0), "bcd");
    assert_eq!(m.group(1), None);
    assert_eq!(m.group(2), None);
    assert_eq!(m.group(3), Some("bcd"));
}

#[test]
fn last_usable_group_is_read_and_workspace_is_not() {
    let mut v = offsets(&[(0, 3)]);
    v[18] = 0;
    v[19] = 2;
    // pairs past two thirds of the vector are workspace
    v[20] = 1;
    v[21] = 3;
    assert!(spans_fit_subject("abc", &v));
    let m = captures_from_ovector("abc", &v, 1).unwrap();
    assert_eq!(m.substrings(), vec!["ab"]);
    assert_eq!(m.group(9), Some("ab"));
}

#[test]
fn multibyte_text_is_cut_on_bytes() {
    // "\u{e9}" takes bytes 1..3 of "h\u{e9}llo"
    let m = read("h\u{e9}llo", &[(0, 6), (1, 3), (3, 6)], 3).unwrap();
    assert_eq!(m.index(0), "\u{e9}");
    assert_eq!(m.index(1), "llo");
}

#[test]
fn spans_off_the_text_do_not_fit() {
    assert!(!spans_fit_subject("abc", &offsets(&[(0, 3), (1, 4)])));
    assert!(!spans_fit_subject("abc", &offsets(&[(0, 3), (2, 1)])));
    assert!(!spans_fit_subject("h\u{e9}llo", &offsets(&[(0, 6), (2, 4)])));
    assert!(spans_fit_subject("abc", &offsets(&[(0, 3), (-1, -1), (3, 3)])));
    assert!(span_fits_subject("h\u{e9}llo", 1, 3));
    assert!(!span_fits_subject("h\u{e9}llo", 1, 2));
    assert!(!span_fits_subject("h\u{e9}llo", 2, 3));
    assert!(!span_fits_subject("abc", -1, 2));
    assert!(span_fits_subject("abc", 3, 3));
}

#[test]
fn reading_twice_gives_equal_matches() {
    let v = offsets(&[(0, 7), (0, 1), (4, 7)]);
    let first = captures_from_ovector("abcdefg", &v, 3).unwrap();
    let second = captures_from_ovector("abcdefg", &v, 3).unwrap();
    assert_eq!(first.substrings(), second.substrings());
}

#[test]
fn captures_from_groups_by_number() {
    let m = Captures::from_groups(vec![None, Some("x".to_string()), Some("yz".to_string())]);
    assert_eq!(m.group_slots(), 3);
    assert_eq!(m.len(), 2);
    assert_eq!(m.index(1), "yz");
    assert_eq!(m.group(1), None);
    assert_eq!(m.group(2), Some("x"));
}
