use rkl::select::{get_candidate_option, get_candidate_size, parse_selection, Choice};

#[test]
fn test_get_candidate_option() {
    let alphabet = get_candidate_option(3);
    assert_eq!("abc", alphabet);
    // getting max candidate size
    let alphabet = get_candidate_option(100);
    assert_eq!("abcdefghijklmnopqrstuvwxy", alphabet);
}

#[test]
fn test_get_candidate_option_bounds() {
    assert_eq!(get_candidate_option(0), "");
    assert_eq!(get_candidate_option(1), "a");
    assert_eq!(get_candidate_option(25), "abcdefghijklmnopqrstuvwxy");
    assert_eq!(get_candidate_option(26), "abcdefghijklmnopqrstuvwxy");
}

#[test]
fn test_get_candidate_size_values() {
    // without a configured value, the default window applies
    assert_eq!(get_candidate_size(None), 5);
    // a size that is too large is clamped to the maximum
    assert_eq!(get_candidate_size(Some("100")), 25);
    // a negative or non-numeric size falls back to the default
    assert_eq!(get_candidate_size(Some("-1")), 5);
    assert_eq!(get_candidate_size(Some("abcd")), 5);
}

#[test]
fn test_get_candidate_size_boundaries() {
    assert_eq!(get_candidate_size(Some("")), 5);
    assert_eq!(get_candidate_size(Some("0")), 5);
    assert_eq!(get_candidate_size(Some("1")), 1);
    assert_eq!(get_candidate_size(Some("24")), 24);
    assert_eq!(get_candidate_size(Some("25")), 25);
    assert_eq!(get_candidate_size(Some("26")), 25);
    assert_eq!(get_candidate_size(Some("007")), 7);
    assert_eq!(get_candidate_size(Some("99999999999999999999")), 25);
}

#[test]
fn test_parse_selection_valid_labels() {
    assert_eq!(parse_selection("a", 3).unwrap(), Choice::At(0));
    assert_eq!(parse_selection("c", 3).unwrap(), Choice::At(2));
    assert_eq!(parse_selection("z", 3).unwrap(), Choice::All);
    // trimmed and lowercased before the validity check
    assert_eq!(parse_selection("  B \n", 3).unwrap(), Choice::At(1));
    assert_eq!(parse_selection("Z", 3).unwrap(), Choice::All);
}

#[test]
fn test_parse_selection_invalid() {
    // out-of-range label: only a..c are assigned for three candidates
    assert!(parse_selection("d", 3).is_err());
    // wrong length
    assert!(parse_selection("ab", 3).is_err());
    assert!(parse_selection("", 3).is_err());
    assert!(parse_selection("   ", 3).is_err());
    // not a label at all
    assert!(parse_selection("?", 3).is_err());
    assert!(parse_selection("1", 3).is_err());
}
