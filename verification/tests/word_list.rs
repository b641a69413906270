use wordbox::filter_words;
use wordbox::sanitize::{char_is_ascii_punctuation, char_is_whitespace, is_clean, may_stand};

fn words(list: &[&str]) -> Vec<String> {
    list.iter().map(|w| w.to_string()).collect()
}

#[test]
fn lowercase_words_are_kept_in_their_order() {
    let lines = words(&["zebra", "apple", "mango"]);
    assert_eq!(filter_words(lines.clone()), lines);
}

#[test]
fn lines_with_an_uppercase_letter_are_dropped() {
    assert_eq!(filter_words(words(&["Paris", "paris", "iPad", "NASA", "ipad"])), words(&["paris", "ipad"]));
    assert!(!is_clean("École"));
    assert!(!is_clean("straßE"));
    assert!(is_clean("école"));
}

#[test]
fn lines_with_punctuation_are_dropped() {
    let lines = words(&["don't", "dont", "e-mail", "email", "a.b", "what?", "x_y", "tilde~", "{a}", "ok"]);
    assert_eq!(filter_words(lines), words(&["dont", "email", "ok"]));
}

#[test]
fn lines_with_white_space_are_dropped() {
    let lines = words(&["ice cream", "icecream", " lead", "trail ", "tab\tbed", "nb\u{a0}sp", "wide\u{3000}gap"]);
    assert_eq!(filter_words(lines), words(&["icecream"]));
}

#[test]
fn digits_and_other_letters_pass() {
    assert_eq!(filter_words(words(&["abc1", "été", "日本", "42"])), words(&["abc1", "été", "日本", "42"]));
}

#[test]
fn the_empty_line_is_a_word() {
    assert!(is_clean(""));
    assert_eq!(filter_words(words(&["", "a", ""])), words(&["", "a", ""]));
    assert_eq!(filter_words(Vec::new()), Vec::<String>::new());
}

#[test]
fn a_character_stands_only_if_it_is_none_of_the_three() {
    assert!(may_stand(false, false, false));
    assert!(!may_stand(true, false, false));
    assert!(!may_stand(false, true, false));
    assert!(!may_stand(false, false, true));
    assert!(!may_stand(true, true, false));
    assert!(!may_stand(true, false, true));
    assert!(!may_stand(false, true, true));
    assert!(!may_stand(true, true, true));
}

#[test]
fn white_space_is_what_std_takes_for_it() {
    let mut c = '\u{0}';
    loop {
        assert_eq!(char_is_whitespace(c), c.is_whitespace());
        if c == char::MAX {
            break;
        }
        c = char::from_u32(c as u32 + 1).unwrap_or('\u{e000}');
    }
    assert!(char_is_whitespace(' '));
    assert!(char_is_whitespace('\t'));
    assert!(char_is_whitespace('\n'));
    assert!(char_is_whitespace('\u{3000}'));
    assert!(!char_is_whitespace('\u{8}'));
    assert!(!char_is_whitespace('\u{e}'));
    assert!(!char_is_whitespace('\u{200b}'));
    assert!(!char_is_whitespace('a'));
}

#[test]
fn the_punctuation_marks_are_those_of_ascii() {
    for c in '\u{0}'..='\u{ff}' {
        assert_eq!(char_is_ascii_punctuation(c), c.is_ascii_punctuation());
    }
    assert!(char_is_ascii_punctuation('!'));
    assert!(char_is_ascii_punctuation('/'));
    assert!(char_is_ascii_punctuation(':'));
    assert!(char_is_ascii_punctuation('@'));
    assert!(char_is_ascii_punctuation('['));
    assert!(char_is_ascii_punctuation('`'));
    assert!(char_is_ascii_punctuation('{'));
    assert!(char_is_ascii_punctuation('~'));
    assert!(!char_is_ascii_punctuation(' '));
    assert!(!char_is_ascii_punctuation('0'));
    assert!(!char_is_ascii_punctuation('9'));
    assert!(!char_is_ascii_punctuation('A'));
    assert!(!char_is_ascii_punctuation('Z'));
    assert!(!char_is_ascii_punctuation('a'));
    assert!(!char_is_ascii_punctuation('z'));
    assert!(!char_is_ascii_punctuation('\u{7f}'));
    assert!(!char_is_ascii_punctuation('¿'));
}
