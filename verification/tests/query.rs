use wordle_solver::{Guesser, WordData};

fn sample() -> Vec<String> {
    vec!["apple", "zoola", "bytea", "zycxu", "jklqa"].into_iter().map(String::from).collect()
}

fn session() -> WordData {
    WordData::new(sample()).unwrap()
}

#[test]
fn chain_of_the_sample_leaves_apple() {
    let mut data = session();
    data.contains("apple");
    assert_eq!(data.possible_word_ids, vec![0]);
    data.doesnt_contain("by");
    assert_eq!(data.possible_word_ids, vec![0]);
    data.at_position(0, 'a');
    assert_eq!(data.possible_word_ids, vec![0]);
    data.not_at_position(1, 'l');
    assert_eq!(data.possible_word_ids, vec![0]);
    assert_eq!(data.results(), vec!["apple"]);
}

#[test]
fn chain_in_one_expression() {
    let mut data = session();
    let words = data
        .contains("apple")
        .doesnt_contain("by")
        .at_position(0, 'a')
        .not_at_position(1, 'l')
        .results();
    assert_eq!(words, vec!["apple"]);
}

#[test]
fn guesser_runs_its_chain() {
    let mut guesser = Guesser::new(sample()).unwrap();
    assert_eq!(guesser.apply_filters(), vec!["apple"]);
    assert_eq!(guesser.word_data.possible_word_ids, vec![0]);
}

#[test]
fn guesser_rejects_a_bad_list() {
    assert!(Guesser::new(vec![String::from("APPLE")]).is_err());
}

#[test]
fn slot_past_the_word_leaves_nothing() {
    let mut data = session();
    assert_eq!(data.at_position(5, 'a').results(), Vec::<String>::new());
    let mut data = session();
    assert_eq!(data.at_position(usize::MAX, 'a').results(), Vec::<String>::new());
}

#[test]
fn letter_never_at_the_slot_leaves_nothing() {
    let mut data = session();
    assert_eq!(data.at_position(0, 'q').results(), Vec::<String>::new());
    let mut data = session();
    assert_eq!(data.at_position(0, 'A').results(), Vec::<String>::new());
}

#[test]
fn not_at_a_slot_past_the_word_removes_nothing() {
    let mut data = session();
    assert_eq!(data.not_at_position(7, 'a').results(), sample());
}

#[test]
fn contains_keeps_words_with_the_letter() {
    let mut data = session();
    data.contains("z");
    assert_eq!(data.possible_word_ids, vec![1, 3]);
    assert_eq!(data.results(), vec!["zoola", "zycxu"]);
}

#[test]
fn contains_means_every_letter() {
    let mut data = session();
    assert_eq!(data.contains("az").results(), vec!["zoola"]);
}

#[test]
fn contains_of_a_letter_in_no_word_leaves_nothing() {
    let mut data = session();
    assert_eq!(data.contains("w").results(), Vec::<String>::new());
}

#[test]
fn contains_of_a_character_outside_the_alphabet_leaves_nothing() {
    let mut data = session();
    assert_eq!(data.contains("A").results(), Vec::<String>::new());
}

#[test]
fn contains_of_no_letter_changes_nothing() {
    let mut data = session();
    assert_eq!(data.contains("").results(), sample());
    assert_eq!(data.doesnt_contain("").results(), sample());
}

#[test]
fn doesnt_contain_means_any_letter() {
    let mut data = session();
    assert_eq!(data.doesnt_contain("zb").results(), vec!["apple", "jklqa"]);
}

#[test]
fn contains_and_doesnt_contain_split_the_set() {
    for letter in ["a", "z", "p", "w", "y"] {
        let mut with = session();
        with.contains(letter);
        let mut without = session();
        without.doesnt_contain(letter);
        let mut all: Vec<usize> = with.possible_word_ids.clone();
        for id in &without.possible_word_ids {
            assert!(!with.possible_word_ids.contains(id));
            all.push(*id);
        }
        all.sort();
        assert_eq!(all, vec![0, 1, 2, 3, 4]);
    }
}

#[test]
fn at_then_not_at_leaves_nothing() {
    let mut data = session();
    data.at_position(0, 'z');
    assert_eq!(data.possible_word_ids, vec![1, 3]);
    data.not_at_position(0, 'z');
    assert_eq!(data.possible_word_ids, Vec::<usize>::new());
    assert_eq!(data.results(), Vec::<String>::new());
}

#[test]
fn at_position_keeps_and_not_at_position_removes() {
    let mut data = session();
    assert_eq!(data.at_position(4, 'a').results(), vec!["zoola", "bytea", "jklqa"]);
    let mut data = session();
    assert_eq!(data.not_at_position(4, 'a').results(), vec!["apple", "zycxu"]);
}

#[test]
fn order_of_the_chain_does_not_matter() {
    let mut first = session();
    first.contains("a").doesnt_contain("p").at_position(4, 'a').not_at_position(0, 'z');
    let mut second = session();
    second.not_at_position(0, 'z').at_position(4, 'a').doesnt_contain("p").contains("a");
    let mut third = session();
    third.at_position(4, 'a').contains("a").not_at_position(0, 'z').doesnt_contain("p");
    assert_eq!(first.possible_word_ids, vec![2, 4]);
    assert_eq!(second.possible_word_ids, vec![2, 4]);
    assert_eq!(third.possible_word_ids, vec![2, 4]);
}

#[test]
fn contains_twice_is_contains_once() {
    let mut once = session();
    once.contains("o");
    let mut twice = session();
    twice.contains("o").contains("o");
    assert_eq!(once.possible_word_ids, vec![1]);
    assert_eq!(twice.possible_word_ids, vec![1]);
}

#[test]
fn candidates_never_grow() {
    let mut data = session();
    let mut last = data.possible_word_ids.len();
    data.contains("a");
    assert!(data.possible_word_ids.len() <= last);
    last = data.possible_word_ids.len();
    data.doesnt_contain("j");
    assert!(data.possible_word_ids.len() <= last);
    last = data.possible_word_ids.len();
    data.not_at_position(0, 'b');
    assert!(data.possible_word_ids.len() <= last);
    last = data.possible_word_ids.len();
    data.at_position(1, 'o');
    assert!(data.possible_word_ids.len() <= last);
    assert_eq!(data.possible_word_ids, vec![1]);
}

#[test]
fn results_leave_the_session_as_it_is() {
    let mut data = session();
    data.contains("a");
    assert_eq!(data.results(), vec!["apple", "zoola", "bytea", "jklqa"]);
    assert_eq!(data.results(), vec!["apple", "zoola", "bytea", "jklqa"]);
    data.at_position(0, 'b');
    assert_eq!(data.results(), vec!["bytea"]);
}

#[test]
fn buckets_are_copied_out() {
    let data = session();
    assert_eq!(data.containing_letter('z'), vec![1, 3]);
    assert_eq!(data.containing_letter('w'), Vec::<usize>::new());
    assert_eq!(data.containing_letter_at('a', 4), vec![1, 2, 4]);
    assert_eq!(data.containing_letter_at('a', 1), Vec::<usize>::new());
    assert_eq!(data.containing_letter_at('a', 5), Vec::<usize>::new());
}

#[test]
fn well_formed_candidate_sets() {
    let mut data = session();
    assert!(data.is_well_formed());
    data.possible_word_ids = vec![0, 2, 4];
    assert!(data.is_well_formed());
    data.possible_word_ids = vec![0, 5];
    assert!(!data.is_well_formed());
    data.possible_word_ids = vec![2, 1];
    assert!(!data.is_well_formed());
    data.possible_word_ids = vec![1, 1];
    assert!(!data.is_well_formed());
    data.possible_word_ids = Vec::new();
    assert!(data.is_well_formed());
}
