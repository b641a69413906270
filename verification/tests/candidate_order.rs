use rand::rngs::StdRng;
use rand::{Rng, SeedableRng};
use wordbox::ranking::rank_moves;
use wordbox::scoring::{column_choices, smallest};
use wordbox::tiebreak::{seed_for_row, FIRST_SEED, KEY_MAX, KEY_MIN};
use wordbox::{HashMapLexicon, Lexicon, VecLexicon, WordBox};

fn words(list: &[&str]) -> Vec<String> {
    list.iter().map(|w| w.to_string()).collect()
}

fn scored(list: &[(usize, i32, &str)]) -> Vec<(usize, i32, String)> {
    list.iter().map(|m| (m.0, m.1, m.2.to_string())).collect()
}

/// The next rows of a box, worked out from the flat lexicon and the
/// generator directly.
fn expected_moves(rows: &[String], row_dim: usize, col_dim: usize, lexicon: &VecLexicon) -> Vec<String> {
    let mut generator = StdRng::seed_from_u64(124 + rows.len() as u64);
    let mut moves: Vec<(usize, i32, String)> = Vec::new();
    for word in lexicon.words_with_prefix(&String::new(), col_dim) {
        let mut placed = rows.to_vec();
        placed.push(word.clone());
        let mut counts = Vec::new();
        for i in 0..col_dim {
            let prefix: String = placed.iter().map(|w| w.chars().nth(i).unwrap()).collect();
            counts.push(lexicon.words_with_prefix(&prefix, row_dim).len());
        }
        if counts.contains(&0) {
            continue;
        }
        let least = *counts.iter().min().unwrap();
        let key: i32 = generator.gen_range(0..=20);
        moves.push((least, key, word));
    }
    moves.sort();
    moves.reverse();
    moves.into_iter().map(|m| m.2).collect()
}

#[test]
fn the_highest_score_is_tried_first() {
    let ranked = rank_moves(scored(&[(1, 0, "low"), (7, 0, "top"), (3, 0, "mid")]));
    assert_eq!(ranked, words(&["top", "mid", "low"]));
}

#[test]
fn equal_scores_go_by_the_higher_key() {
    let ranked = rank_moves(scored(&[(2, 5, "five"), (2, 20, "most"), (2, 0, "zero"), (2, 9, "nine")]));
    assert_eq!(ranked, words(&["most", "nine", "five", "zero"]));
}

#[test]
fn equal_keys_go_by_the_later_word() {
    let ranked = rank_moves(scored(&[(2, 5, "ab"), (2, 5, "b"), (2, 5, "abc"), (2, 5, "aa")]));
    assert_eq!(ranked, words(&["b", "abc", "ab", "aa"]));
}

#[test]
fn the_score_outweighs_the_key_and_the_key_the_word() {
    let ranked = rank_moves(scored(&[
        (1, 20, "zz"),
        (2, 0, "aa"),
        (2, 1, "ab"),
        (1, 20, "zy"),
        (3, 0, "a"),
    ]));
    assert_eq!(ranked, words(&["a", "ab", "aa", "zz", "zy"]));
}

#[test]
fn words_beyond_ascii_are_ordered_by_code_point() {
    let ranked = rank_moves(scored(&[(1, 0, "z"), (1, 0, "é"), (1, 0, "a"), (1, 0, "日")]));
    assert_eq!(ranked, words(&["日", "é", "z", "a"]));
}

#[test]
fn ranking_nothing_gives_nothing() {
    assert_eq!(rank_moves(Vec::new()), Vec::<String>::new());
}

#[test]
fn ranking_keeps_every_move() {
    let ranked = rank_moves(scored(&[(1, 3, "ab"), (1, 3, "ab"), (4, 0, "cd")]));
    assert_eq!(ranked, words(&["cd", "ab", "ab"]));
}

#[test]
fn smallest_gives_the_least_count() {
    assert_eq!(smallest(&vec![3, 1, 2]), 1);
    assert_eq!(smallest(&vec![5]), 5);
    assert_eq!(smallest(&vec![4, 4, 0, 9]), 0);
    assert_eq!(smallest(&vec![2, 2]), 2);
}

#[test]
fn column_choices_counts_the_completions_of_each_column() {
    let lexicon = VecLexicon::initialize(words(&["ab", "ac", "ad", "ba", "bb", "ca"]), vec![2]);
    assert_eq!(column_choices(&words(&["ab"]), 2, 2, &lexicon), vec![3, 2]);
    assert_eq!(column_choices(&words(&["ad"]), 2, 2, &lexicon), vec![3, 0]);
    assert_eq!(column_choices(&words(&["ca"]), 2, 2, &lexicon), vec![1, 3]);
    assert_eq!(column_choices(&words(&["ab", "ba"]), 2, 2, &lexicon), vec![1, 1]);
    assert_eq!(column_choices(&words(&["ab", "bc"]), 2, 2, &lexicon), vec![1, 0]);
    assert_eq!(column_choices(&Vec::new(), 2, 2, &lexicon), vec![6, 6]);
}

#[test]
fn the_seed_follows_the_number_of_rows() {
    assert_eq!(FIRST_SEED, 124);
    assert_eq!(seed_for_row(0), 124);
    assert_eq!(seed_for_row(1), 125);
    assert_eq!(seed_for_row(40), 164);
    assert_eq!(seed_for_row(usize::MAX), 124u64.wrapping_add(usize::MAX as u64));
}

#[test]
fn keys_run_from_zero_to_twenty() {
    assert_eq!(KEY_MIN, 0);
    assert_eq!(KEY_MAX, 20);
}

#[test]
fn infeasible_rows_are_dropped_and_the_rest_ranked_by_score() {
    let lexicon = VecLexicon::initialize(words(&["ab", "ac", "ad", "ba", "bb", "ca"]), vec![2]);
    let empty = WordBox::new(2, 2).unwrap();
    let moves = empty.next_moves(&lexicon);
    assert_eq!(moves.len(), 5);
    assert!(!moves.contains(&"ad".to_string()));
    let mut best = moves[..3].to_vec();
    best.sort();
    assert_eq!(best, words(&["ab", "ba", "bb"]));
    let mut rest = moves[3..].to_vec();
    rest.sort();
    assert_eq!(rest, words(&["ac", "ca"]));
}

#[test]
fn next_moves_are_those_of_the_generator_seeded_with_the_row_index() {
    let lexicon = VecLexicon::initialize(words(&["ab", "ac", "ad", "ba", "bb", "ca"]), vec![2]);
    let empty = WordBox::new(2, 2).unwrap();
    assert_eq!(empty.next_moves(&lexicon), expected_moves(&[], 2, 2, &lexicon));
    let one = empty.add_word("ab".to_string());
    assert_eq!(one.next_moves(&lexicon), expected_moves(&words(&["ab"]), 2, 2, &lexicon));
}

#[test]
fn ties_are_broken_by_drawn_keys() {
    let letters: Vec<String> = ('a'..='z').map(|c| c.to_string()).collect();
    let lexicon = VecLexicon::initialize(letters.clone(), vec![1]);
    let moves = WordBox::new(1, 1).unwrap().next_moves(&lexicon);
    assert_eq!(moves, expected_moves(&[], 1, 1, &lexicon));
    let mut backwards = letters.clone();
    backwards.reverse();
    assert_ne!(moves, backwards);
    assert_ne!(moves, letters);
    let mut all = moves.clone();
    all.sort();
    assert_eq!(all, letters);
}

#[test]
fn each_depth_draws_from_its_own_seed() {
    let mut list: Vec<String> = ('a'..='z').map(|c| c.to_string()).collect();
    for first in 'a'..='z' {
        for second in 'a'..='z' {
            list.push(format!("{}{}{}", first, second, second));
        }
    }
    let lexicon = VecLexicon::initialize(list, vec![1, 3]);
    let empty = WordBox::new(3, 1).unwrap();
    let at_top = empty.next_moves(&lexicon);
    let below = empty.add_word("a".to_string()).next_moves(&lexicon);
    assert_eq!(at_top, expected_moves(&[], 3, 1, &lexicon));
    assert_eq!(below, expected_moves(&words(&["a"]), 3, 1, &lexicon));
    assert_eq!(at_top.len(), 26);
    assert_eq!(below.len(), 26);
    assert_ne!(at_top, below);
}

#[test]
fn a_complete_box_has_no_next_moves() {
    let lexicon = VecLexicon::initialize(words(&["a", "b"]), vec![1]);
    let done = WordBox::new(1, 1).unwrap().add_word("a".to_string());
    assert_eq!(done.next_moves(&lexicon), Vec::<String>::new());
}

#[test]
fn no_words_of_the_row_length_give_no_moves() {
    let lexicon = VecLexicon::initialize(words(&["abc", "def"]), vec![3]);
    assert_eq!(WordBox::new(2, 2).unwrap().next_moves(&lexicon), Vec::<String>::new());
}

#[test]
fn both_lexicons_give_the_same_moves() {
    let list = words(&["ab", "ac", "ad", "ba", "bb", "ca", "abc", "bca", "cab"]);
    let flat = VecLexicon::initialize(list.clone(), vec![2, 3]);
    let indexed = HashMapLexicon::initialize(list, vec![2, 3]);
    for (rows, cols) in [(2, 2), (3, 2), (2, 3), (3, 3)] {
        let empty = WordBox::new(rows, cols).unwrap();
        assert_eq!(empty.next_moves(&flat), empty.next_moves(&indexed));
    }
}

#[test]
fn every_next_move_leaves_each_column_a_completion() {
    let list = words(&["ab", "ac", "ad", "ba", "bb", "ca", "da"]);
    let lexicon = VecLexicon::initialize(list, vec![2]);
    let empty = WordBox::new(2, 2).unwrap();
    for first in empty.next_moves(&lexicon) {
        assert!(column_choices(&vec![first.clone()], 2, 2, &lexicon).iter().all(|n| *n > 0));
        let one = empty.add_word(first.clone());
        for second in one.next_moves(&lexicon) {
            let counts = column_choices(&vec![first.clone(), second], 2, 2, &lexicon);
            assert!(counts.iter().all(|n| *n > 0));
        }
    }
}

#[test]
fn the_first_seed_orders_the_alphabet_as_its_generator_draws() {
    let letters: Vec<String> = ('a'..='z').map(|c| c.to_string()).collect();
    let lexicon = VecLexicon::initialize(letters, vec![1]);
    let moves = WordBox::new(1, 1).unwrap().next_moves(&lexicon);
    assert_eq!(
        moves,
        words(&[
            "x", "u", "f", "w", "l", "z", "c", "t", "e", "p", "i", "a", "v", "j", "g", "n", "k",
            "b", "m", "y", "o", "h", "q", "s", "r", "d",
        ])
    );
}
