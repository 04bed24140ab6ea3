use r_vlr_util::text::{closest_candidates, levenshtein, levenshtein_with_costs, CaseSensitivity, Comparator};
use std::cmp::Ordering;

#[test]
fn comparator_supports_core_operations() {
    let comparator = Comparator::case_insensitive();
    assert!(comparator.equals("Value", "value"));
    assert_eq!(comparator.compare("a", "B"), Ordering::Less);
    assert!(comparator.has_prefix("SomeValue", "some"));
    assert!(comparator.has_suffix("SomeValue", "VALUE"));
    assert_eq!(comparator.find("SomeValue", "MEV"), Some(2));
}

#[test]
fn levenshtein_and_candidate_ordering_work() {
    assert_eq!(levenshtein("kitten", "sitting"), 3);
    assert_eq!(levenshtein("café", "cafe"), 1);
    let results = closest_candidates(
        "colour",
        &["color", "collar", "completely"],
        CaseSensitivity::Sensitive,
    );
    assert_eq!(results[0], ("color", 1));
}

#[test]
fn case_sensitive_comparator_distinguishes_case() {
    let comparator = Comparator::case_sensitive();
    assert!(!comparator.equals("Value", "value"));
    assert_eq!(comparator.compare("a", "B"), Ordering::Greater);
    assert_eq!(comparator.compare("same", "same"), Ordering::Equal);
    assert!(!comparator.has_prefix("SomeValue", "some"));
    assert_eq!(comparator.find("SomeValue", "Value"), Some(4));
    assert_eq!(comparator.find("SomeValue", "value"), None);
    assert!(comparator.is_blank(""));
    assert!(!comparator.is_blank("x"));
}

#[test]
fn levenshtein_is_symmetric_and_zero_on_equal_text() {
    assert_eq!(levenshtein("", ""), 0);
    assert_eq!(levenshtein("abc", "abc"), 0);
    assert_eq!(levenshtein("", "abc"), 3);
    assert_eq!(levenshtein("flaw", "lawn"), levenshtein("lawn", "flaw"));
    assert_eq!(levenshtein_with_costs("ab", "", 2, 5, 7), 10);
    assert_eq!(levenshtein_with_costs("", "ab", 2, 5, 7), 4);
    assert_eq!(levenshtein_with_costs("a", "b", 2, 5, 7), 7);
}

#[test]
fn candidates_are_ordered_by_distance_then_input_order() {
    let results = closest_candidates("Cat", &["bat", "cat", "hat"], CaseSensitivity::Insensitive);
    assert_eq!(results, vec![("cat", 0), ("bat", 1), ("hat", 1)]);
}
