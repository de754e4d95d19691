use glob::multislice::AllMultiSliceOccurencesIterator;
use glob::multislice::MultiSlice;

fn collect_occurences(mut iterator: AllMultiSliceOccurencesIterator) -> Vec<usize> {
    let mut occurences: Vec<usize> = Vec::new();
    while let Some(position) = iterator.next() {
        occurences.push(position);
    }
    occurences
}

fn multislice_of(slices: &[&str]) -> MultiSlice {
    let mut ms = MultiSlice::new();
    for slice in slices {
        ms.push(slice);
    }
    ms
}

#[test]
fn test_get_empty() {
    let ms = MultiSlice::new();
    let slice = ms.get(0);
    assert!(slice.is_none());
}

#[test]
fn test_get_single() {
    let ms = MultiSlice::from("abc");
    let slice = ms.get(0);
    assert_eq!(slice, Some("abc"));
}

#[test]
fn test_get_two() {
    let mut ms = MultiSlice::from("abc");
    ms.push("def");
    assert_eq!(ms.get(0), Some("abc"));
    assert_eq!(ms.get(1), Some("def"));
}

#[test]
fn test_equality_with_same_slice() {
    let left = MultiSlice::from("abc");
    let right = MultiSlice::from("abc");
    assert_eq!(left, right);
}

#[test]
fn test_inequality_with_single_slice() {
    let left = MultiSlice::from("abc");
    let right = MultiSlice::from("def");
    assert_ne!(left, right);
}

#[test]
fn test_equality_with_slice_split_into_two() {
    let left = MultiSlice::from("abcd");
    let mut right = MultiSlice::new();
    right.push("ab");
    right.push("cd");
    assert_eq!(left, right);
}

#[test]
fn test_equality_with_overlapping_slices() {
    let mut left = MultiSlice::new();
    left.push("abc");
    left.push("def");
    let mut right = MultiSlice::new();
    right.push("ab");
    right.push("cd");
    right.push("ef");
    assert_eq!(left, right);
}

#[test]
fn test_equality_of_empty_ms_with_empty_string() {
    let left = MultiSlice::new();
    let right = MultiSlice::from("");
    assert_eq!(left, right);
}

#[test]
fn test_equality_with_trailing_empty_string() {
    let left = MultiSlice::from("42");
    let mut right = MultiSlice::from("42");
    right.push("");
    assert_eq!(left, right);
}

#[test]
fn test_equality_with_preceding_empty_string() {
    let mut left = MultiSlice::new();
    left.push("");
    left.push("4");
    left.push("2");
    let right = MultiSlice::from("42");
    assert_eq!(left, right);
}

#[test]
fn test_equality_with_interspersed_empty_strings() {
    let mut left = MultiSlice::new();
    left.push("Hell");
    left.push("");
    left.push("o, ");
    left.push("Worl");
    left.push("");
    left.push("d");
    left.push("");
    left.push("!");
    let right = multislice_of(&["He", "", "llo", "", ", W", "orl", "", "d!"]);
    assert_eq!(left, right);
}

#[test]
fn test_inequality_with_interspersed_empty_strings() {
    let mut left = MultiSlice::new();
    left.push("");
    left.push("ab");
    left.push("");
    left.push("cd");
    left.push("");
    left.push("");
    let right = multislice_of(&["a", "", "", "bc", "d", "", "e", "", "f"]);
    left.push("Ef"); // uppercase E vs. lower-case e
    assert_ne!(left, right);
}

#[test]
fn test_combined_length_empty() {
    let ms = MultiSlice::new();
    assert_eq!(ms.get_combined_length(), 0);
}

#[test]
fn test_combined_length_with_empty_string() {
    let ms = MultiSlice::from("");
    assert_eq!(ms.get_combined_length(), 0);
}

#[test]
fn test_combined_length_with_multiple_empty_strings() {
    let ms = multislice_of(&["", ""]);
    assert_eq!(ms.get_combined_length(), 0);
}

#[test]
fn test_combined_length_with_one_string() {
    let ms = MultiSlice::from("abc");
    assert_eq!(ms.get_combined_length(), 3);
}

#[test]
fn test_combined_length_with_multiple_strings() {
    let ms = multislice_of(&["abc", "de", "f"]);
    assert_eq!(ms.get_combined_length(), 6);
}

#[test]
fn test_combined_length_with_empty_strings_interspersed() {
    let ms = multislice_of(&["", "ab", "", "", "c", "defgh", "", "i", ""]);
    assert_eq!(ms.get_combined_length(), 9);
}

#[test]
fn test_empty_multislice_matches_at_string_start() {
    let ms = MultiSlice::new();
    assert!(ms.matches_string_start("abc"));
    assert!(ms.matches_string_start(""));
    assert!(ms.matches_string_start("42"));
}

#[test]
fn test_ms_with_empty_strings_matches_at_string_start() {
    let mut ms = MultiSlice::new();
    ms.push("");
    ms.push("");
    assert!(ms.matches_string_start(""));
    assert!(ms.matches_string_start("abc"));
    assert!(ms.matches_string_start("4711"));
}

#[test]
fn test_ms_not_matches_empty_string() {
    let ms = multislice_of(&["", "", "a"]);
    assert!(!ms.matches_string_start(""));
}

#[test]
fn test_ms_matches_identical_string_at_start() {
    let ms = MultiSlice::from("abc");
    assert!(ms.matches_string_start("abc"));
}

#[test]
fn test_split_ms_matches_identical_string_at_start() {
    let ms = multislice_of(&["ab", "", "c", ""]);
    assert!(ms.matches_string_start("abc"));
}

#[test]
fn test_split_ms_matches_longer_string_at_start() {
    let ms = multislice_of(&["", "", "a", "", "", "bc"]);
    assert!(ms.matches_string_start("abcd"));
}

#[test]
fn test_split_ms_matches_subslice_of_string() {
    let ms = multislice_of(&["", "a", "", "", "n", ""]);
    assert!(ms.matches_string_start(&"banana"[1..]));
    assert!(ms.matches_string_start(&"banana"[3..]));
    assert!(!ms.matches_string_start(&"banana"[5..]));
}

#[test]
fn test_ms_not_matches_substring_at_start() {
    let ms = MultiSlice::from("123");
    assert!(!ms.matches_string_start("12"));
}

#[test]
fn test_split_ms_not_matches_independent_string() {
    let ms = multislice_of(&["", "", "a", "b", "", "", "cdef", "", ""]);
    assert!(!ms.matches_string_start("foo"));
}

#[test]
fn test_ms_not_matches_at_string_start_but_later() {
    let ms = MultiSlice::from("def");
    assert!(!ms.matches_string_start("abcdef"));
    assert!(ms.matches_string_start(&"abcdef"[3..]));
}

#[test]
fn test_find_all_occurences_with_emtpy_slice_and_string() {
    let ms = MultiSlice::new();
    let occurences: Vec<usize> = collect_occurences(ms.find_all_occurences_in(""));
    assert_eq!(occurences.as_slice(), &[0]);
}

#[test]
fn test_find_all_occurences_with_empty_slice_and_non_empty_string() {
    let ms = MultiSlice::new();
    let occurences: Vec<usize> = collect_occurences(ms.find_all_occurences_in("abc"));
    assert_eq!(occurences.as_slice(), &[0, 1, 2, 3]);
}

#[test]
fn test_find_all_occurences_with_slice_of_empty_string_and_non_empty_string() {
    let ms = MultiSlice::from("");
    let occurences: Vec<usize> = collect_occurences(ms.find_all_occurences_in("ab"));
    assert_eq!(occurences.as_slice(), &[0, 1, 2]);
}

#[test]
fn test_find_all_occurences_with_slice_of_empty_strings_and_non_empty_string() {
    let mut ms = MultiSlice::from("");
    ms.push("");
    ms.push("");
    let occurences: Vec<usize> = collect_occurences(ms.find_all_occurences_in("foobar"));
    assert_eq!(occurences.as_slice(), &[0, 1, 2, 3, 4, 5, 6]);
}

#[test]
fn test_find_all_occurences_with_non_empty_slice_and_empty_string() {
    let ms = MultiSlice::from("a");
    let occurences: Vec<usize> = collect_occurences(ms.find_all_occurences_in(""));
    assert_eq!(occurences.as_slice(), &[] as &[usize]);
}

#[test]
fn test_find_all_occurences_with_non_empty_slice_and_matching_string() {
    let ms = MultiSlice::from("Hello, World");
    let occurences: Vec<usize> = collect_occurences(ms.find_all_occurences_in("Hello, World"));
    assert_eq!(occurences.as_slice(), &[0]);
}

#[test]
fn test_find_all_occurences_with_split_multislice_and_matching_string() {
    let mut ms = MultiSlice::from("Hello, ");
    ms.push("World");
    let occurences: Vec<usize> = collect_occurences(ms.find_all_occurences_in("Hello, World"));
    assert_eq!(occurences.as_slice(), &[0]);
}

#[test]
fn test_find_all_occurences_with_split_multislice_and_partial_string() {
    let mut ms = MultiSlice::from("Hello, ");
    ms.push("World");
    let occurences: Vec<usize> = collect_occurences(ms.find_all_occurences_in("Hello, "));
    assert_eq!(occurences.as_slice(), &[] as &[usize]);
}

#[test]
fn test_find_all_occurences_with_longer_string() {
    let ms = MultiSlice::from("llo");
    let occurences: Vec<usize> = collect_occurences(ms.find_all_occurences_in("Hello, World!"));
    assert_eq!(occurences.as_slice(), &[2]);
}

#[test]
fn test_find_all_occurences_with_split_multislice_within_string() {
    let mut ms = MultiSlice::from("");
    ms.push("");
    ms.push("el");
    ms.push("");
    ms.push("lo");
    ms.push("");
    let occurences: Vec<usize> = collect_occurences(ms.find_all_occurences_in("Hello, World!"));
    assert_eq!(occurences.as_slice(), &[1]);
}

#[test]
fn test_find_all_occurences_with_multiple_occurences() {
    let mut ms = MultiSlice::from("");
    ms.push("a");
    ms.push("");
    ms.push("");
    ms.push("n");
    ms.push("");
    let occurences: Vec<usize> = collect_occurences(ms.find_all_occurences_in("banana"));
    assert_eq!(occurences.as_slice(), &[1, 3]);
}

#[test]
fn test_find_all_occurences_with_multiple_occurences_again() {
    let ms = multislice_of(&["", "a", "", "", "n", "", ""]);
    let occurences: Vec<usize> = collect_occurences(ms.find_all_occurences_in("ananas"));
    assert_eq!(occurences.as_slice(), &[0, 2]);
}

#[test]
fn test_find_all_occurences_single_char_ascending() {
    let ms = MultiSlice::from("a");
    let occurences: Vec<usize> = collect_occurences(ms.find_all_occurences_in("banana"));
    assert_eq!(occurences.as_slice(), &[1, 3, 5]);
}

#[test]
fn test_equality_independent_of_segmentation_with_empty_pushes() {
    let one_push = MultiSlice::from("abcd");
    let mut two_pushes = MultiSlice::new();
    two_pushes.push("ab");
    two_pushes.push("cd");
    let mut with_empties = MultiSlice::new();
    with_empties.push("");
    with_empties.push("ab");
    with_empties.push("");
    with_empties.push("cd");
    with_empties.push("");
    assert_eq!(one_push, two_pushes);
    assert_eq!(one_push, with_empties);
    assert_eq!(two_pushes, with_empties);
}
