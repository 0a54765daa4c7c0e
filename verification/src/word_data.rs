//! The index and its construction from a word list.

use crate::alphabet::{
    all_lowercase, bit_is_set, has_offset, is_bitmask_of, is_lowercase, key_of,
    lemma_key_names_letter, lemma_set_bit, letter_key, letter_offset, IndexError, ALPHABET_SIZE,
    FIRST_LETTER,
};
use crate::model::{
    all_ids, bucket_of, buckets, ids_where, is_letter_key, lemma_ids_where, mask_flags,
    position_ids, position_model, presence_ids, presence_model, slot_flags, texts,
};
use std::collections::HashMap;
use vstd::prelude::*;
use vstd::std_specs::hash::*;

verus! {

/// Number of position slots, the length of the words the index is made for.
pub const WORD_LENGTH: usize = 5;

/// A word list with its indexes, and the ids that a query session has not
/// ruled out yet.
#[derive(Debug)]
pub struct WordData {
    /// The words; a word's id is its place in this list.
    pub word_list: Vec<String>,
    /// The presence bitmask of each word, by id.
    pub bitmask_array: Vec<u32>,
    /// Per slot, from a character's key to the ids of the words that have it
    /// there.
    pub position_index: [HashMap<u32, Vec<usize>>; 5],
    /// From a letter's key to the ids of the words that hold it anywhere.
    pub presence_index: HashMap<u32, Vec<usize>>,
    /// The candidate set: the ids still possible, ascending.
    pub possible_word_ids: Vec<usize>,
}

/// Every word is made of lowercase letters only.
pub open spec fn valid_words(words: Seq<Seq<char>>) -> bool {
    forall|id: int| 0 <= id < words.len() ==> all_lowercase(#[trigger] words[id])
}

/// `masks` holds the presence bitmask of each word, by id.
pub open spec fn are_bitmasks_of(masks: Seq<u32>, words: Seq<Seq<char>>) -> bool {
    &&& masks.len() == words.len()
    &&& forall|id: int| 0 <= id < words.len() ==> is_bitmask_of(#[trigger] masks[id], words[id])
}

/// The presence index as far as the letters before offset `k`.
pub open spec fn presence_model_before(masks: Seq<u32>, k: u32) -> Map<u32, Seq<usize>> {
    Map::new(
        |key: u32|
            is_letter_key(key) && key < FIRST_LETTER + k && presence_ids(masks, key).len() > 0,
        |key: u32| presence_ids(masks, key),
    )
}

/// Appends `id` to the bucket of `key`, which is made if it is not there.
fn add_to_bucket(index: &mut HashMap<u32, Vec<usize>>, key: u32, id: usize)
    ensures
        buckets(final(index)@) == buckets(old(index)@).insert(
            key,
            bucket_of(old(index)@, key).push(id),
        ),
{
    broadcast use group_hash_axioms;

    let mut bucket = match index.remove(&key) {
        Some(found) => found,
        None => Vec::new(),
    };
    bucket.push(id);
    index.insert(key, bucket);
    assert(buckets(index@) =~= buckets(old(index)@).insert(
        key,
        bucket_of(old(index)@, key).push(id),
    ));
}

/// Builds the position index of one slot.
fn build_slot_index(word_list: &[String], slot: usize) -> (index: HashMap<u32, Vec<usize>>)
    ensures
        buckets(index@) == position_model(texts(word_list@), slot as int),
{
    let mut index: HashMap<u32, Vec<usize>> = HashMap::new();
    let n: usize = word_list.len();
    let mut id: usize = 0;
    let ghost words = texts(word_list@);
    proof {
        assert(buckets(index@) =~= position_model(words.take(0), slot as int));
    }
    while id < n
        invariant
            n == word_list@.len(),
            words == texts(word_list@),
            id <= n,
            buckets(index@) == position_model(words.take(id as int), slot as int),
        decreases n - id,
    {
        let word: &String = &word_list[id];
        let ghost before = index@;
        let ghost seen = words.take(id as int);
        let ghost more = words.take(id + 1);
        let ghost mut added: Option<u32> = None;
        if slot < word.as_str().unicode_len() {
            let key: u32 = key_of(word.as_str().get_char(slot));
            add_to_bucket(&mut index, key, id);
            proof {
                added = Some(key);
            }
        }
        proof {
            assert(more[id as int] == words[id as int]);
            assert(words[id as int] == word@);
            assert forall|key: u32|
                position_ids(more, slot as int, key) == if added == Some(key) {
                    position_ids(seen, slot as int, key).push(id)
                } else {
                    position_ids(seen, slot as int, key)
                } by {
                assert(slot_flags(more, slot as int, key).drop_last() =~= slot_flags(
                    seen,
                    slot as int,
                    key,
                ));
            }
            if let Some(key) = added {
                assert(bucket_of(before, key) =~= position_ids(seen, slot as int, key)) by {
                    let model = position_model(seen, slot as int);
                    assert(buckets(before) == model);
                    assert(buckets(before).contains_key(key) == before.contains_key(key));
                    assert(model.contains_key(key) == (position_ids(seen, slot as int, key).len()
                        > 0));
                    if before.contains_key(key) {
                        assert(buckets(before)[key] == before[key]@);
                        assert(model[key] == position_ids(seen, slot as int, key));
                    }
                }
            }
            assert forall|key: u32| #[trigger]
                buckets(index@).contains_key(key) == position_model(
                    more,
                    slot as int,
                ).contains_key(key) by {
                assert(buckets(before).contains_key(key) == position_model(
                    seen,
                    slot as int,
                ).contains_key(key));
            }
            assert forall|key: u32| #[trigger]
                buckets(index@).contains_key(key) implies buckets(index@)[key] == position_model(
                more,
                slot as int,
            )[key] by {
                if added != Some(key) {
                    assert(buckets(before).contains_key(key));
                    assert(buckets(before)[key] == position_model(seen, slot as int)[key]);
                }
            }
            assert(buckets(index@) =~= position_model(more, slot as int));
        }
        id = id + 1;
    }
    proof {
        assert(words.take(n as int) =~= words);
    }
    index
}

impl WordData {
    /// The texts of the words, by id.
    pub open spec fn words(&self) -> Seq<Seq<char>> {
        texts(self.word_list@)
    }

    /// The candidate set, ascending.
    pub open spec fn candidates(&self) -> Seq<usize> {
        self.possible_word_ids@
    }

    /// The bucket that the presence index holds for `letter`; empty where it
    /// holds none.
    pub open spec fn presence_bucket(&self, letter: char) -> Seq<usize> {
        bucket_of(self.presence_index@, letter_key(letter))
    }

    /// The bucket that the position index holds for `letter` at `position`;
    /// empty where it holds none, and at a position that is no slot.
    pub open spec fn position_bucket(&self, position: int, letter: char) -> Seq<usize> {
        if 0 <= position < WORD_LENGTH {
            bucket_of(self.position_index@[position]@, letter_key(letter))
        } else {
            Seq::empty()
        }
    }

    /// The word with this id holds `letter`.
    pub open spec fn word_has(&self, id: usize, letter: char) -> bool {
        id < self.word_list@.len() && self.words()[id as int].contains(letter)
    }

    /// The word with this id holds every one of `letters`.
    pub open spec fn word_has_all(&self, id: usize, letters: Seq<char>) -> bool {
        forall|k: int| 0 <= k < letters.len() ==> self.word_has(id, #[trigger] letters[k])
    }

    /// The word with this id holds none of `letters`.
    pub open spec fn word_has_none(&self, id: usize, letters: Seq<char>) -> bool {
        forall|k: int| 0 <= k < letters.len() ==> !self.word_has(id, #[trigger] letters[k])
    }

    /// The word with this id has `letter` at `position`, which is a slot.
    pub open spec fn word_has_at(&self, id: usize, position: int, letter: char) -> bool {
        &&& id < self.word_list@.len()
        &&& 0 <= position < WORD_LENGTH
        &&& position < self.words()[id as int].len()
        &&& self.words()[id as int][position] == letter
    }

    /// The indexes are those of the word list: the bitmasks, the presence
    /// index and the position index are what the words determine.
    pub open spec fn indexed(&self) -> bool {
        &&& valid_words(self.words())
        &&& are_bitmasks_of(self.bitmask_array@, self.words())
        &&& buckets(self.presence_index@) == presence_model(self.bitmask_array@)
        &&& forall|slot: int|
            0 <= slot < WORD_LENGTH ==> buckets(#[trigger] self.position_index@[slot]@)
                == position_model(self.words(), slot)
    }

    /// The candidate set is ascending and holds ids of words only.
    pub open spec fn wf(&self) -> bool {
        crate::model::is_candidate_set(self.candidates(), self.word_list@.len())
    }

    /// Computes the presence bitmask of `word`, or rejects a word that holds a
    /// character outside the alphabet.
    pub fn calculate_bitmask(word: &str) -> (res: Result<u32, IndexError>)
        ensures
            res.is_ok() <==> all_lowercase(word@),
            res matches Ok(mask) ==> is_bitmask_of(mask, word@),
            res matches Err(e) ==> e == IndexError::InvalidInput,
    {
        let n: usize = word.unicode_len();
        let mut mask: u32 = 0;
        let mut i: usize = 0;
        proof {
            lemma_set_bit(0, 0);
        }
        while i < n
            invariant
                n == word@.len(),
                i <= n,
                all_lowercase(word@.take(i as int)),
                is_bitmask_of(mask, word@.take(i as int)),
            decreases n - i,
        {
            let c = word.get_char(i);
            let key: u32 = key_of(c);
            if key < FIRST_LETTER || key >= FIRST_LETTER + ALPHABET_SIZE {
                return Err(IndexError::InvalidInput);
            }
            let off: u32 = key - FIRST_LETTER;
            let ghost before = mask;
            mask = mask | (1u32 << off);
            proof {
                lemma_set_bit(before, off);
                let prev = word@.take(i as int);
                let next = word@.take(i + 1);
                assert(next[i as int] == c);
                assert forall|j: int| 0 <= j < next.len() implies is_lowercase(#[trigger] next[j]) by {
                    if j < i {
                        assert(next[j] == prev[j]);
                    }
                }
                assert forall|k: u32| k < 32 implies (#[trigger] bit_is_set(mask, k) <==> has_offset(
                    next,
                    k as int,
                )) by {
                    if has_offset(next, k as int) {
                        let j = choose|j: int|
                            0 <= j < next.len() && letter_offset(#[trigger] next[j]) == k;
                        if j < i {
                            assert(prev[j] == next[j]);
                            assert(has_offset(prev, k as int));
                        }
                    }
                    if has_offset(prev, k as int) {
                        let j = choose|j: int|
                            0 <= j < prev.len() && letter_offset(#[trigger] prev[j]) == k;
                        assert(next[j] == prev[j]);
                    }
                }
            }
            i = i + 1;
        }
        proof {
            assert(word@.take(n as int) =~= word@);
        }
        Ok(mask)
    }

    /// Computes the presence bitmask of every word, or rejects the list if a
    /// word holds a character outside the alphabet.
    pub fn build_bitmask_array(word_list: &[String]) -> (res: Result<Vec<u32>, IndexError>)
        ensures
            res.is_ok() <==> valid_words(texts(word_list@)),
            res matches Ok(masks) ==> are_bitmasks_of(masks@, texts(word_list@)),
            res matches Err(e) ==> e == IndexError::InvalidInput,
    {
        let n: usize = word_list.len();
        let mut masks: Vec<u32> = Vec::new();
        let mut id: usize = 0;
        let ghost words = texts(word_list@);
        while id < n
            invariant
                n == word_list@.len(),
                words == texts(word_list@),
                id <= n,
                valid_words(words.take(id as int)),
                are_bitmasks_of(masks@, words.take(id as int)),
            decreases n - id,
        {
            let ghost seen = words.take(id as int);
            let ghost more = words.take(id + 1);
            match Self::calculate_bitmask(word_list[id].as_str()) {
                Ok(mask) => {
                    masks.push(mask);
                },
                Err(e) => {
                    assert(!all_lowercase(words[id as int]));
                    return Err(e);
                },
            }
            proof {
                assert forall|j: int| 0 <= j < more.len() implies all_lowercase(
                    #[trigger] more[j],
                ) && is_bitmask_of(masks@[j], more[j]) by {
                    if j < id {
                        assert(more[j] == seen[j]);
                    }
                }
            }
            id = id + 1;
        }
        proof {
            assert(words.take(n as int) =~= words);
        }
        Ok(masks)
    }

    /// Builds the position index: for each slot, the bucket of each character
    /// that some word has there. A character past the last slot is in no bucket.
    pub fn build_position_index(word_list: &[String]) -> (index: [HashMap<u32, Vec<usize>>; 5])
        ensures
            forall|slot: int|
                0 <= slot < WORD_LENGTH ==> buckets(#[trigger] index@[slot]@) == position_model(
                    texts(word_list@),
                    slot,
                ),
    {
        let first = build_slot_index(word_list, 0);
        let second = build_slot_index(word_list, 1);
        let third = build_slot_index(word_list, 2);
        let fourth = build_slot_index(word_list, 3);
        let fifth = build_slot_index(word_list, 4);
        [first, second, third, fourth, fifth]
    }

    /// Builds the presence index from the bitmasks: for each letter whose bit
    /// some bitmask has, the ids of those bitmasks, ascending.
    pub fn build_presence_index(bitmask_array: &[u32]) -> (index: HashMap<u32, Vec<usize>>)
        ensures
            buckets(index@) == presence_model(bitmask_array@),
    {
        broadcast use group_hash_axioms;

        let mut index: HashMap<u32, Vec<usize>> = HashMap::new();
        let n: usize = bitmask_array.len();
        let ghost masks = bitmask_array@;
        let mut k: u32 = 0;
        proof {
            assert(buckets(index@) =~= presence_model_before(masks, 0));
        }
        while k < ALPHABET_SIZE
            invariant
                n == bitmask_array@.len(),
                masks == bitmask_array@,
                k <= ALPHABET_SIZE,
                buckets(index@) == presence_model_before(masks, k),
            decreases ALPHABET_SIZE - k,
        {
            let key: u32 = FIRST_LETTER + k;
            let mut bucket: Vec<usize> = Vec::new();
            let mut id: usize = 0;
            while id < n
                invariant
                    n == bitmask_array@.len(),
                    masks == bitmask_array@,
                    k < ALPHABET_SIZE,
                    id <= n,
                    bucket@ == ids_where(mask_flags(masks.take(id as int), k)),
                decreases n - id,
            {
                proof {
                    assert(mask_flags(masks.take(id + 1), k).drop_last() =~= mask_flags(
                        masks.take(id as int),
                        k,
                    ));
                    assert(masks.take(id + 1)[id as int] == masks[id as int]);
                }
                if (bitmask_array[id] >> k) & 1 == 1 {
                    bucket.push(id);
                }
                id = id + 1;
            }
            proof {
                assert(masks.take(n as int) =~= masks);
                assert(bucket@ == presence_ids(masks, key));
            }
            let ghost before = index@;
            if bucket.len() > 0 {
                index.insert(key, bucket);
            }
            proof {
                assert forall|other: u32| #[trigger]
                    buckets(index@).contains_key(other) == presence_model_before(
                        masks,
                        (k + 1) as u32,
                    ).contains_key(other) by {
                    assert(buckets(before).contains_key(other) == presence_model_before(
                        masks,
                        k,
                    ).contains_key(other));
                }
                assert forall|other: u32| #[trigger]
                    buckets(index@).contains_key(other) implies buckets(index@)[other]
                    == presence_model_before(masks, (k + 1) as u32)[other] by {
                    if other != key {
                        assert(buckets(before).contains_key(other));
                        assert(buckets(before)[other] == presence_model_before(masks, k)[other]);
                    }
                }
                assert(buckets(index@) =~= presence_model_before(masks, (k + 1) as u32));
            }
            k = k + 1;
        }
        proof {
            assert(presence_model_before(masks, ALPHABET_SIZE) =~= presence_model(masks));
        }
        index
    }

    /// Builds the index of `word_list` and opens a session on it with every
    /// id a candidate. A list in which some word holds a character outside
    /// `'a'..='z'` is rejected.
    pub fn initialize(word_list: Vec<String>) -> (res: Result<Self, IndexError>)
        ensures
            res.is_ok() <==> valid_words(texts(word_list@)),
            res matches Ok(data) ==> {
                &&& data.word_list == word_list
                &&& data.indexed()
                &&& data.wf()
                &&& data.candidates() == all_ids(word_list@.len())
            },
            res matches Err(e) ==> e == IndexError::InvalidInput,
    {
        let bitmask_array = match Self::build_bitmask_array(word_list.as_slice()) {
            Ok(masks) => masks,
            Err(e) => {
                return Err(e);
            },
        };
        let position_index = Self::build_position_index(word_list.as_slice());
        let presence_index = Self::build_presence_index(bitmask_array.as_slice());
        let possible_word_ids = Self::every_id(word_list.len());
        Ok(WordData { word_list, bitmask_array, position_index, presence_index, possible_word_ids })
    }

    /// The ids `0..count`, ascending: the candidate set of a fresh session.
    pub fn every_id(count: usize) -> (ids: Vec<usize>)
        ensures
            ids@ == all_ids(count as nat),
    {
        let mut ids: Vec<usize> = Vec::new();
        let mut id: usize = 0;
        while id < count
            invariant
                id <= count,
                ids@ == all_ids(id as nat),
            decreases count - id,
        {
            ids.push(id);
            proof {
                assert(ids@ =~= all_ids((id + 1) as nat));
            }
            id = id + 1;
        }
        ids
    }

    /// Builds the index of `word_list` and opens a session on it: see
    /// [`WordData::initialize`].
    pub fn new(word_list: Vec<String>) -> (res: Result<Self, IndexError>)
        ensures
            res.is_ok() <==> valid_words(texts(word_list@)),
            res matches Ok(data) ==> {
                &&& data.word_list == word_list
                &&& data.indexed()
                &&& data.wf()
                &&& data.candidates() == all_ids(word_list@.len())
            },
            res matches Err(e) ==> e == IndexError::InvalidInput,
    {
        Self::initialize(word_list)
    }
}

/// In the index of a word list, the presence bucket of a letter holds exactly
/// the ids of the words that hold the letter.
pub proof fn lemma_presence_bucket_of_words(data: WordData, letter: char, id: usize)
    requires
        data.indexed(),
    ensures
        data.presence_bucket(letter).contains(id) <==> data.word_has(id, letter),
{
    let key = letter_key(letter);
    let masks = data.bitmask_array@;
    let words = data.words();
    let model = presence_model(masks);
    assert(masks.len() == data.bitmask_array.len());
    assert(buckets(data.presence_index@).contains_key(key) == data.presence_index@.contains_key(
        key,
    ));
    assert(model.contains_key(key) == (is_letter_key(key) && presence_ids(masks, key).len() > 0));
    if id < words.len() {
        let word = words[id as int];
        if word.contains(letter) {
            let i = choose|i: int| 0 <= i < word.len() && word[i] == letter;
            assert(is_lowercase(word[i]));
        }
    }
    if is_letter_key(key) {
        let off = (key - FIRST_LETTER) as u32;
        lemma_ids_where(mask_flags(masks, off));
        if data.presence_index@.contains_key(key) {
            assert(buckets(data.presence_index@)[key] == data.presence_index@[key]@);
            assert(model[key] == presence_ids(masks, key));
        } else {
            assert(presence_ids(masks, key).len() == 0);
            if presence_ids(masks, key).contains(id) {
                let i = choose|i: int|
                    0 <= i < presence_ids(masks, key).len() && presence_ids(masks, key)[i] == id;
            }
        }
        assert(data.presence_bucket(letter).contains(id) <==> presence_ids(masks, key).contains(
            id,
        ));
        if id < words.len() {
            let word = words[id as int];
            assert(is_bitmask_of(masks[id as int], word));
            assert(bit_is_set(masks[id as int], off) <==> has_offset(word, off as int));
            if has_offset(word, off as int) {
                let i = choose|i: int|
                    0 <= i < word.len() && letter_offset(#[trigger] word[i]) == off;
                lemma_key_names_letter(word[i], letter);
            }
            if word.contains(letter) {
                let i = choose|i: int| 0 <= i < word.len() && word[i] == letter;
                assert(letter_offset(word[i]) == off);
            }
        }
    }
}

/// In the index of a word list, the position bucket of a letter at a slot
/// holds exactly the ids of the words that have the letter at that slot.
pub proof fn lemma_position_bucket_of_words(data: WordData, position: int, letter: char, id: usize)
    requires
        data.indexed(),
    ensures
        data.position_bucket(position, letter).contains(id) <==> data.word_has_at(
            id,
            position,
            letter,
        ),
{
    if 0 <= position < WORD_LENGTH {
        let key = letter_key(letter);
        let words = data.words();
        let index = data.position_index@[position]@;
        let model = position_model(words, position);
        let ids = position_ids(words, position, key);
        assert(words.len() == data.word_list.len());
        assert(buckets(index) == model);
        assert(buckets(index).contains_key(key) == index.contains_key(key));
        assert(model.contains_key(key) == (ids.len() > 0));
        lemma_ids_where(slot_flags(words, position, key));
        if index.contains_key(key) {
            assert(buckets(index)[key] == index[key]@);
            assert(model[key] == ids);
        } else {
            if ids.contains(id) {
                let i = choose|i: int| 0 <= i < ids.len() && ids[i] == id;
            }
        }
        assert(data.position_bucket(position, letter).contains(id) <==> ids.contains(id));
        if id < words.len() && position < words[id as int].len() {
            let found = words[id as int][position];
            lemma_key_names_letter(found, letter);
        }
    }
}

} // verus!
