use advent_of_code::year_2015::day_05::{is_nice_word, is_nice_word2};

#[test]
fn test_is_nice_word_examples() {
    // Three vowels, a double letter, and none of the disallowed strings.
    assert!(is_nice_word("ugknbfddgicrmopn"));

    // All requirements, even though the letters the rules use overlap.
    assert!(is_nice_word("aaa"));

    // No double letter.
    assert!(!is_nice_word("jchzalrnumimnmhp"));

    // Contains the string `xy`.
    assert!(!is_nice_word("haegwjzuvuyypxyu"));

    // Only one vowel.
    assert!(!is_nice_word("dvszwmarrgswjxmb"));
}

#[test]
fn test_is_nice_word2_examples() {
    // A pair that appears twice (`qj`) and a repeat with a gap (`zxz`).
    assert!(is_nice_word2("qjhvhtzxzqqjkmpb"));

    // All requirements, even though the letters the rules use overlap.
    assert!(is_nice_word2("xxyxx"));

    // A pair that appears twice, but no repeat with one letter between.
    assert!(!is_nice_word2("uurcxstgmygtbstg"));

    // A repeat with one letter between (`odo`), but no pair twice.
    assert!(!is_nice_word2("ieodomkazucvgmuy"));

    // Overlapping pairs only: `aaa` must not count as two pairs.
    assert!(!is_nice_word2("aaa"));
    assert!(is_nice_word2("aaaa"));
}

#[test]
fn test_is_nice_word_short_input() {
    assert!(!is_nice_word(""));
    assert!(!is_nice_word("a"));
    assert!(!is_nice_word2(""));
    assert!(!is_nice_word2("aba"));
}
