use lxp_scan::fuzzy::score;

#[test]
fn empty_query_matches_everything_equally() {
    assert_eq!(score("", "Button"), Some(0));
}

#[test]
fn prefix_beats_substring_beats_subsequence() {
    let prefix = score("but", "Button").unwrap();
    let substring = score("but", "BackButton").unwrap();
    let subsequence = score("bt", "Button").unwrap();
    assert!(prefix > substring, "{prefix} vs {substring}");
    assert!(substring > subsequence, "{substring} vs {subsequence}");
}

#[test]
fn shorter_candidate_wins_within_a_class() {
    assert!(score("but", "Button").unwrap() > score("but", "ButtonGroupHeader").unwrap());
}

#[test]
fn non_matches_return_none() {
    assert_eq!(score("xyz", "Button"), None);
    // subsequence must respect character order
    assert_eq!(score("nb", "Button"), None);
}

#[test]
fn exact_scores_per_class() {
    let w: i128 = 1 << 64;
    assert_eq!(score("BUT", "Button"), Some(3 * w - 6));
    assert_eq!(score("ton", "Button"), Some(2 * w - 6));
    assert_eq!(score("bn", "Button"), Some(w - 6));
    // byte length, not character count
    assert_eq!(score("é", "éa"), Some(3 * w - 3));
}

#[test]
fn class_decides_before_length() {
    let long_prefix = format!("but{}", "x".repeat(5000));
    assert!(score("but", &long_prefix).unwrap() > score("but", "BackButton").unwrap());
    let long_substring = format!("{}but", "x".repeat(5000));
    assert!(score("but", &long_substring).unwrap() > score("bt", "Button").unwrap());
}

#[test]
fn whitespace_is_exactly_the_white_space_property() {
    for c in (0u32..=0x10FFFF).filter_map(char::from_u32) {
        let trimmed = lxp_scan::text::trim_chars(&vec![c]);
        assert_eq!(trimmed.is_empty(), c.is_whitespace(), "U+{:04X}", c as u32);
    }
}
