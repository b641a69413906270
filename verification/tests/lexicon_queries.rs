use wordbox::lexicon::contains_length;
use wordbox::words::{char_count, chars_of, starts_with};
use wordbox::{HashMapLexicon, Lexicon, VecLexicon};

fn words(list: &[&str]) -> Vec<String> {
    list.iter().map(|w| w.to_string()).collect()
}

fn sorted(mut list: Vec<String>) -> Vec<String> {
    list.sort();
    list
}

#[test]
fn vec_lexicon_keeps_only_the_allowed_lengths() {
    let lexicon = VecLexicon::initialize(words(&["a", "ab", "abc", "bc"]), vec![2]);
    assert_eq!(lexicon.words_with_prefix(&String::new(), 2), words(&["ab", "bc"]));
    assert_eq!(lexicon.words_with_prefix(&String::new(), 1), Vec::<String>::new());
    assert_eq!(lexicon.words_with_prefix(&String::new(), 3), Vec::<String>::new());
}

#[test]
fn hash_lexicon_keeps_only_the_allowed_lengths() {
    let lexicon = HashMapLexicon::initialize(words(&["a", "ab", "abc", "bc"]), vec![2]);
    assert_eq!(lexicon.words_with_prefix(&String::new(), 2), words(&["ab", "bc"]));
    assert_eq!(lexicon.words_with_prefix(&String::new(), 1), Vec::<String>::new());
    assert_eq!(lexicon.words_with_prefix(&String::new(), 3), Vec::<String>::new());
}

#[test]
fn vec_lexicon_answers_in_insertion_order() {
    let lexicon = VecLexicon::initialize(words(&["cat", "cab", "dog", "car", "cot"]), vec![3]);
    assert_eq!(lexicon.words_with_prefix(&"ca".to_string(), 3), words(&["cat", "cab", "car"]));
    assert_eq!(lexicon.words_with_prefix(&"c".to_string(), 3), words(&["cat", "cab", "car", "cot"]));
    assert_eq!(lexicon.words_with_prefix(&"dog".to_string(), 3), words(&["dog"]));
}

#[test]
fn hash_lexicon_answers_in_insertion_order() {
    let lexicon = HashMapLexicon::initialize(words(&["cat", "cab", "dog", "car", "cot"]), vec![3]);
    assert_eq!(lexicon.words_with_prefix(&"ca".to_string(), 3), words(&["cat", "cab", "car"]));
    assert_eq!(lexicon.words_with_prefix(&"c".to_string(), 3), words(&["cat", "cab", "car", "cot"]));
    assert_eq!(lexicon.words_with_prefix(&"dog".to_string(), 3), words(&["dog"]));
}

#[test]
fn a_prefix_filters_by_length_too() {
    let list = words(&["pin", "pine", "pint", "pi", "spin"]);
    let flat = VecLexicon::initialize(list.clone(), vec![2, 3, 4]);
    let indexed = HashMapLexicon::initialize(list, vec![2, 3, 4]);
    for lexicon_answers in [
        [
            flat.words_with_prefix(&"pi".to_string(), 4),
            flat.words_with_prefix(&"pi".to_string(), 3),
            flat.words_with_prefix(&"pi".to_string(), 2),
        ],
        [
            indexed.words_with_prefix(&"pi".to_string(), 4),
            indexed.words_with_prefix(&"pi".to_string(), 3),
            indexed.words_with_prefix(&"pi".to_string(), 2),
        ],
    ] {
        assert_eq!(lexicon_answers[0], words(&["pine", "pint"]));
        assert_eq!(lexicon_answers[1], words(&["pin"]));
        assert_eq!(lexicon_answers[2], words(&["pi"]));
    }
}

#[test]
fn an_unknown_prefix_gives_no_words() {
    let list = words(&["ab", "cd"]);
    let flat = VecLexicon::initialize(list.clone(), vec![2]);
    let indexed = HashMapLexicon::initialize(list, vec![2]);
    assert_eq!(flat.words_with_prefix(&"x".to_string(), 2), Vec::<String>::new());
    assert_eq!(indexed.words_with_prefix(&"x".to_string(), 2), Vec::<String>::new());
    assert_eq!(flat.words_with_prefix(&"abc".to_string(), 2), Vec::<String>::new());
    assert_eq!(indexed.words_with_prefix(&"abc".to_string(), 2), Vec::<String>::new());
    assert_eq!(flat.words_with_prefix(&"b".to_string(), 2), Vec::<String>::new());
    assert_eq!(indexed.words_with_prefix(&"b".to_string(), 2), Vec::<String>::new());
}

#[test]
fn an_empty_word_list_gives_an_empty_lexicon() {
    let flat = VecLexicon::initialize(Vec::new(), vec![1, 2]);
    let indexed = HashMapLexicon::initialize(Vec::new(), vec![1, 2]);
    assert_eq!(flat.words_with_prefix(&String::new(), 1), Vec::<String>::new());
    assert_eq!(indexed.words_with_prefix(&String::new(), 1), Vec::<String>::new());
    assert_eq!(indexed.prefix_count(), 0);
}

#[test]
fn no_allowed_length_keeps_nothing() {
    let flat = VecLexicon::initialize(words(&["ab", "cd"]), Vec::new());
    let indexed = HashMapLexicon::initialize(words(&["ab", "cd"]), Vec::new());
    assert_eq!(flat.words_with_prefix(&String::new(), 2), Vec::<String>::new());
    assert_eq!(indexed.words_with_prefix(&String::new(), 2), Vec::<String>::new());
}

#[test]
fn a_word_given_twice_is_found_once() {
    let twice = words(&["ab", "ab"]);
    let flat = VecLexicon::initialize(twice.clone(), vec![2]);
    let indexed = HashMapLexicon::initialize(twice, vec![2]);
    assert_eq!(flat.words_with_prefix(&"a".to_string(), 2), words(&["ab"]));
    assert_eq!(indexed.words_with_prefix(&"a".to_string(), 2), words(&["ab"]));
    assert_eq!(flat.words_with_prefix(&String::new(), 2), words(&["ab"]));
    assert_eq!(indexed.words_with_prefix(&String::new(), 2), words(&["ab"]));
    assert_eq!(indexed.prefix_count(), 3);
}

#[test]
fn a_repeated_word_stays_where_it_was_first_given() {
    let list = words(&["ab", "ac", "ab", "ad", "ac", "abc", "ab"]);
    let flat = VecLexicon::initialize(list.clone(), vec![2, 3]);
    let indexed = HashMapLexicon::initialize(list, vec![2, 3]);
    assert_eq!(flat.words_with_prefix(&"a".to_string(), 2), words(&["ab", "ac", "ad"]));
    assert_eq!(indexed.words_with_prefix(&"a".to_string(), 2), words(&["ab", "ac", "ad"]));
    assert_eq!(flat.words_with_prefix(&"ab".to_string(), 3), words(&["abc"]));
    assert_eq!(indexed.words_with_prefix(&"ab".to_string(), 3), words(&["abc"]));
    assert_eq!(flat.to_text(), "ab, ac, ad, abc");
}

#[test]
fn a_word_of_a_dropped_length_may_be_repeated_freely() {
    let list = words(&["abc", "ab", "abc", "ab"]);
    let indexed = HashMapLexicon::initialize(list, vec![2]);
    assert_eq!(indexed.words_with_prefix(&String::new(), 2), words(&["ab"]));
    assert_eq!(indexed.words_with_prefix(&String::new(), 3), Vec::<String>::new());
}

#[test]
fn distinct_words_are_found_once_each() {
    let list = words(&["ab", "ac", "ad", "bc"]);
    let indexed = HashMapLexicon::initialize(list, vec![2]);
    let found = indexed.words_with_prefix(&"a".to_string(), 2);
    let mut unique = found.clone();
    unique.sort();
    unique.dedup();
    assert_eq!(unique.len(), found.len());
    assert_eq!(found, words(&["ab", "ac", "ad"]));
}

#[test]
fn length_counts_characters() {
    let list = words(&["été", "ete", "étés"]);
    let flat = VecLexicon::initialize(list.clone(), vec![3]);
    let indexed = HashMapLexicon::initialize(list, vec![3]);
    assert_eq!(flat.words_with_prefix(&String::new(), 3), words(&["été", "ete"]));
    assert_eq!(indexed.words_with_prefix(&String::new(), 3), words(&["été", "ete"]));
    assert_eq!(flat.words_with_prefix(&"é".to_string(), 3), words(&["été"]));
    assert_eq!(indexed.words_with_prefix(&"ét".to_string(), 3), words(&["été"]));
}

#[test]
fn the_two_lexicons_answer_alike() {
    let list = words(&["area", "rail", "idle", "also", "redo", "are", "air", "ale", "a", "an"]);
    let lengths = vec![1, 3, 4];
    let flat = VecLexicon::initialize(list.clone(), lengths.clone());
    let indexed = HashMapLexicon::initialize(list, lengths);
    for prefix in ["", "a", "ar", "are", "area", "r", "re", "i", "z", "al"] {
        for len in 0..6 {
            assert_eq!(
                flat.words_with_prefix(&prefix.to_string(), len),
                indexed.words_with_prefix(&prefix.to_string(), len)
            );
        }
    }
}

#[test]
fn rebuilding_in_another_order_answers_with_the_same_sets() {
    let first = HashMapLexicon::initialize(words(&["cat", "cab", "dog", "car", "do"]), vec![2, 3]);
    let second = HashMapLexicon::initialize(words(&["do", "car", "dog", "cab", "cat"]), vec![2, 3]);
    for prefix in ["", "c", "ca", "cat", "d", "do", "dog", "x"] {
        for len in 0..5 {
            assert_eq!(
                sorted(first.words_with_prefix(&prefix.to_string(), len)),
                sorted(second.words_with_prefix(&prefix.to_string(), len))
            );
        }
    }
    assert_eq!(second.words_with_prefix(&"ca".to_string(), 3), words(&["car", "cab", "cat"]));
}

#[test]
fn rebuilding_from_the_same_list_answers_identically() {
    let list = words(&["cat", "cab", "dog", "car", "do"]);
    let first = HashMapLexicon::initialize(list.clone(), vec![2, 3]);
    let second = HashMapLexicon::initialize(list, vec![2, 3]);
    for prefix in ["", "c", "ca", "d", "do"] {
        for len in 0..5 {
            assert_eq!(
                first.words_with_prefix(&prefix.to_string(), len),
                second.words_with_prefix(&prefix.to_string(), len)
            );
        }
    }
}

#[test]
fn every_prefix_of_a_word_is_indexed() {
    let indexed = HashMapLexicon::initialize(words(&["ab", "ac"]), vec![2]);
    assert_eq!(indexed.prefix_count(), 4);
    let longer = HashMapLexicon::initialize(words(&["abc", "abd", "xyz", "no"]), vec![3]);
    assert_eq!(longer.prefix_count(), 8);
    for k in 0..=3 {
        let prefix: String = "abc".chars().take(k).collect();
        assert!(longer.words_with_prefix(&prefix, 3).contains(&"abc".to_string()));
    }
}

#[test]
fn a_flat_lexicon_is_written_as_a_list() {
    let lexicon = VecLexicon::initialize(words(&["cat", "horse", "dog", "owl"]), vec![3]);
    assert_eq!(lexicon.to_text(), "cat, dog, owl");
    assert_eq!(VecLexicon::initialize(words(&["cat"]), vec![3]).to_text(), "cat");
    assert_eq!(VecLexicon::initialize(words(&["cat"]), vec![4]).to_text(), "");
}

#[test]
fn contains_length_finds_what_is_there() {
    assert!(contains_length(&vec![4, 6], 6));
    assert!(contains_length(&vec![4, 6], 4));
    assert!(!contains_length(&vec![4, 6], 5));
    assert!(!contains_length(&Vec::new(), 0));
}

#[test]
fn characters_are_counted_and_listed() {
    assert_eq!(char_count(""), 0);
    assert_eq!(char_count("word"), 4);
    assert_eq!(char_count("été"), 3);
    assert_eq!(chars_of("été"), vec!['é', 't', 'é']);
    assert_eq!(chars_of(""), Vec::<char>::new());
}

#[test]
fn starts_with_compares_the_leading_characters() {
    let word = chars_of("rail");
    assert!(starts_with(&word, &chars_of("")));
    assert!(starts_with(&word, &chars_of("ra")));
    assert!(starts_with(&word, &chars_of("rail")));
    assert!(!starts_with(&word, &chars_of("rails")));
    assert!(!starts_with(&word, &chars_of("ri")));
    assert!(!starts_with(&word, &chars_of("a")));
}
