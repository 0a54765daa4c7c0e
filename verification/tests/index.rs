use std::collections::HashMap;
use wordle_solver::alphabet::{key_of, IndexError};
use wordle_solver::{CachedWordData, Mode, WordData};

fn sample() -> Vec<String> {
    vec!["apple", "zoola", "bytea", "zycxu", "jklqa"].into_iter().map(String::from).collect()
}

fn key(c: char) -> u32 {
    c as u32
}

#[test]
fn key_is_code_point() {
    assert_eq!(key_of('a'), 97);
    assert_eq!(key_of('z'), 122);
    assert_eq!(key_of('{'), 123);
}

#[test]
fn bitmask_of_apple() {
    // a = bit 0, e = bit 4, l = bit 11, p = bit 15
    assert_eq!(WordData::calculate_bitmask("apple"), Ok(1 + 16 + 2048 + 32768));
}

#[test]
fn bitmask_ignores_count_and_position() {
    assert_eq!(WordData::calculate_bitmask("aab"), WordData::calculate_bitmask("bba"));
    assert_eq!(WordData::calculate_bitmask("aab"), Ok(3));
}

#[test]
fn bitmask_of_empty_word_is_zero() {
    assert_eq!(WordData::calculate_bitmask(""), Ok(0));
}

#[test]
fn bitmask_of_whole_alphabet() {
    assert_eq!(
        WordData::calculate_bitmask("abcdefghijklmnopqrstuvwxyz"),
        Ok((1u32 << 26) - 1)
    );
    assert_eq!(WordData::calculate_bitmask("z"), Ok(1u32 << 25));
}

#[test]
fn bitmask_rejects_other_characters() {
    assert_eq!(WordData::calculate_bitmask("Apple"), Err(IndexError::InvalidInput));
    assert_eq!(WordData::calculate_bitmask("ap le"), Err(IndexError::InvalidInput));
    assert_eq!(WordData::calculate_bitmask("appl{"), Err(IndexError::InvalidInput));
    assert_eq!(WordData::calculate_bitmask("appl`"), Err(IndexError::InvalidInput));
    assert_eq!(WordData::calculate_bitmask("café"), Err(IndexError::InvalidInput));
}

#[test]
fn bitmask_array_follows_the_list() {
    let words = vec![String::from("ab"), String::from("c"), String::from("ab")];
    assert_eq!(WordData::build_bitmask_array(&words), Ok(vec![3, 4, 3]));
}

#[test]
fn bitmask_array_rejects_a_bad_word() {
    let words = vec![String::from("ab"), String::from("C")];
    assert_eq!(WordData::build_bitmask_array(&words), Err(IndexError::InvalidInput));
}

#[test]
fn presence_index_of_bitmasks() {
    // masks of "ab", "c", "ab"
    let index = WordData::build_presence_index(&[3, 4, 3]);
    assert_eq!(index.len(), 3);
    assert_eq!(index.get(&key('a')), Some(&vec![0, 2]));
    assert_eq!(index.get(&key('b')), Some(&vec![0, 2]));
    assert_eq!(index.get(&key('c')), Some(&vec![1]));
    assert_eq!(index.get(&key('d')), None);
}

#[test]
fn presence_index_skips_bits_past_the_alphabet() {
    let index = WordData::build_presence_index(&[1u32 << 26, 1u32 << 31]);
    assert!(index.is_empty());
}

#[test]
fn presence_index_of_sample() {
    let data = WordData::new(sample()).unwrap();
    assert_eq!(data.presence_index.get(&key('a')), Some(&vec![0, 1, 2, 4]));
    assert_eq!(data.presence_index.get(&key('z')), Some(&vec![1, 3]));
    assert_eq!(data.presence_index.get(&key('p')), Some(&vec![0]));
    assert_eq!(data.presence_index.get(&key('w')), None);
}

#[test]
fn position_index_of_sample() {
    let index = WordData::build_position_index(&sample());
    assert_eq!(index[0].get(&key('z')), Some(&vec![1, 3]));
    assert_eq!(index[0].get(&key('a')), Some(&vec![0]));
    assert_eq!(index[4].get(&key('a')), Some(&vec![1, 2, 4]));
    assert_eq!(index[1].get(&key('p')), Some(&vec![0]));
    assert_eq!(index[1].get(&key('a')), None);
    assert_eq!(index[0].len(), 4);
}

#[test]
fn position_index_of_short_and_long_words() {
    let words = vec![String::from("ab"), String::from("abcdefg"), String::from("")];
    let index = WordData::build_position_index(&words);
    assert_eq!(index[0].get(&key('a')), Some(&vec![0, 1]));
    assert_eq!(index[1].get(&key('b')), Some(&vec![0, 1]));
    assert_eq!(index[2].get(&key('c')), Some(&vec![1]));
    assert_eq!(index[4].get(&key('e')), Some(&vec![1]));
    assert_eq!(index[4].len(), 1);
}

#[test]
fn every_id_counts_up() {
    assert_eq!(WordData::every_id(0), Vec::<usize>::new());
    assert_eq!(WordData::every_id(4), vec![0, 1, 2, 3]);
}

#[test]
fn initialize_builds_all_fields() {
    let data = WordData::initialize(sample()).unwrap();
    assert_eq!(data.word_list, sample());
    assert_eq!(data.bitmask_array.len(), 5);
    assert_eq!(data.bitmask_array[0], 1 + 16 + 2048 + 32768);
    assert_eq!(data.possible_word_ids, vec![0, 1, 2, 3, 4]);
    assert!(data.is_well_formed());
}

#[test]
fn initialize_rejects_a_bad_word() {
    let words = vec![String::from("apple"), String::from("Zoola")];
    assert_eq!(WordData::initialize(words).err(), Some(IndexError::InvalidInput));
    let words = vec![String::from("apple"), String::from("zo-la")];
    assert_eq!(WordData::new(words).err(), Some(IndexError::InvalidInput));
}

#[test]
fn empty_list_gives_empty_index() {
    let data = WordData::new(Vec::new()).unwrap();
    assert!(data.presence_index.is_empty());
    assert!(data.possible_word_ids.is_empty());
    assert_eq!(data.results(), Vec::<String>::new());
}

#[test]
fn duplicates_keep_their_own_ids() {
    let words = vec![String::from("apple"), String::from("apple")];
    let mut data = WordData::new(words).unwrap();
    assert_eq!(data.presence_index.get(&key('a')), Some(&vec![0, 1]));
    assert_eq!(data.contains("a").results(), vec!["apple", "apple"]);
}

#[test]
fn rebuilding_gives_the_same_index() {
    let first = WordData::new(sample()).unwrap();
    let second = WordData::new(sample()).unwrap();
    assert_eq!(first.word_list, second.word_list);
    assert_eq!(first.bitmask_array, second.bitmask_array);
    assert_eq!(first.presence_index, second.presence_index);
    assert_eq!(first.position_index, second.position_index);
    assert_eq!(first.possible_word_ids, second.possible_word_ids);
}

#[test]
fn saved_index_opens_as_the_same_index() {
    let built = WordData::new(sample()).unwrap();
    let cached = built.save_to_cache();
    assert_eq!(cached.word_list, built.word_list);
    let reloaded = WordData::from_cache(Some(cached)).unwrap();
    assert_eq!(reloaded.word_list, built.word_list);
    assert_eq!(reloaded.bitmask_array, built.bitmask_array);
    assert_eq!(reloaded.presence_index, built.presence_index);
    assert_eq!(reloaded.position_index, built.position_index);
    assert_eq!(reloaded.possible_word_ids, vec![0, 1, 2, 3, 4]);
}

#[test]
fn save_leaves_the_candidates_out_and_load_resets_them() {
    let mut data = WordData::new(sample()).unwrap();
    data.contains("z");
    assert_eq!(data.possible_word_ids, vec![1, 3]);
    let cached = data.save_to_cache();
    assert!(data.load_from_cache(Some(cached)));
    assert_eq!(data.possible_word_ids, vec![0, 1, 2, 3, 4]);
}

#[test]
fn load_without_a_cache_changes_nothing() {
    let mut data = WordData::new(sample()).unwrap();
    data.contains("z");
    assert!(!data.load_from_cache(None));
    assert_eq!(data.possible_word_ids, vec![1, 3]);
    assert_eq!(data.word_list, sample());
}

#[test]
fn load_takes_the_cached_fields() {
    let mut data = WordData::new(sample()).unwrap();
    let mut presence: HashMap<u32, Vec<usize>> = HashMap::new();
    presence.insert(key('q'), vec![1]);
    let cached = CachedWordData {
        word_list: vec![String::from("ab"), String::from("qa")],
        bitmask_array: vec![3, 65537],
        position_index: Default::default(),
        presence_index: presence,
    };
    assert!(data.load_from_cache(Some(cached)));
    assert_eq!(data.word_list, vec!["ab", "qa"]);
    assert_eq!(data.bitmask_array, vec![3, 65537]);
    assert_eq!(data.possible_word_ids, vec![0, 1]);
    assert_eq!(data.contains("q").results(), vec!["qa"]);
}

#[test]
fn from_cache_without_a_cache_is_not_found() {
    assert_eq!(WordData::from_cache(None).err(), Some(IndexError::NotFound));
}

#[test]
fn mode_names() {
    assert_eq!(Mode::parse("cache"), Ok(Mode::Cache));
    assert_eq!(Mode::parse("words"), Ok(Mode::Words));
    assert_eq!(Mode::parse("word"), Err(IndexError::InvalidInput));
    assert_eq!(Mode::parse("Cache"), Err(IndexError::InvalidInput));
    assert_eq!(Mode::parse(""), Err(IndexError::InvalidInput));
    assert_eq!(Mode::parse("caches"), Err(IndexError::InvalidInput));
}

#[test]
fn same_text_compares_characters() {
    assert!(wordle_solver::mode::same_text("", ""));
    assert!(wordle_solver::mode::same_text("héllo", "héllo"));
    assert!(!wordle_solver::mode::same_text("hello", "hellp"));
    assert!(!wordle_solver::mode::same_text("hello", "hell"));
}
