//! The persisted form of an index, and how a session is opened from it.

use crate::alphabet::IndexError;
use crate::model::all_ids;
use crate::word_data::WordData;
use std::collections::HashMap;
use vstd::prelude::*;

verus! {

/// What is kept of an index between runs: the words and the three structures
/// derived from them.
#[derive(Debug)]
pub struct CachedWordData {
    /// The words; a word's id is its place in this list.
    pub word_list: Vec<String>,
    /// The presence bitmask of each word, by id.
    pub bitmask_array: Vec<u32>,
    /// Per slot, from a character's key to the ids of the words that have it
    /// there.
    pub position_index: [HashMap<u32, Vec<usize>>; 5],
    /// From a letter's key to the ids of the words that hold it anywhere.
    pub presence_index: HashMap<u32, Vec<usize>>,
}

/// A copy of a word list.
fn copy_words(words: &Vec<String>) -> (copy: Vec<String>)
    ensures
        copy@ == words@,
{
    let mut copy: Vec<String> = Vec::new();
    let mut i: usize = 0;
    while i < words.len()
        invariant
            i <= words.len(),
            copy@ == words@.take(i as int),
        decreases words.len() - i,
    {
        copy.push(words[i].clone());
        proof {
            assert(copy@ =~= words@.take(i + 1));
        }
        i = i + 1;
    }
    proof {
        assert(words@.take(words.len() as int) =~= words@);
    }
    copy
}

impl WordData {
    /// `cached` holds the words and the indexes of this value.
    pub open spec fn cached_as(&self, cached: &CachedWordData) -> bool {
        &&& cached.word_list@ == self.word_list@
        &&& cached.bitmask_array@ == self.bitmask_array@
        &&& cached.presence_index@ == self.presence_index@
        &&& forall|slot: int|
            0 <= slot < 5 ==> (#[trigger] cached.position_index@[slot])@
                == self.position_index@[slot]@
    }

    /// Takes the words and the indexes from `cached`, if there are any, and
    /// makes every id a candidate again. Without them nothing changes. Tells
    /// whether there were any.
    pub fn load_from_cache(&mut self, cached: Option<CachedWordData>) -> (loaded: bool)
        ensures
            loaded == cached.is_some(),
            cached matches Some(data) ==> {
                &&& final(self).word_list == data.word_list
                &&& final(self).bitmask_array == data.bitmask_array
                &&& final(self).position_index == data.position_index
                &&& final(self).presence_index == data.presence_index
                &&& final(self).candidates() == all_ids(data.word_list@.len())
                &&& final(self).wf()
            },
            cached.is_none() ==> *final(self) == *old(self),
    {
        match cached {
            Some(data) => {
                self.word_list = data.word_list;
                self.bitmask_array = data.bitmask_array;
                self.position_index = data.position_index;
                self.presence_index = data.presence_index;
                self.possible_word_ids = Self::every_id(self.word_list.len());
                true
            },
            None => false,
        }
    }

    /// Opens a session on a persisted index, with every id a candidate; fails
    /// where there is none.
    pub fn from_cache(cached: Option<CachedWordData>) -> (res: Result<Self, IndexError>)
        ensures
            res.is_ok() <==> cached.is_some(),
            res matches Err(e) ==> e == IndexError::NotFound,
            res matches Ok(session) ==> {
                &&& session.cached_as(&cached->Some_0)
                &&& session.candidates() == all_ids(session.word_list@.len())
                &&& session.wf()
            },
    {
        match cached {
            Some(data) => {
                let possible_word_ids = Self::every_id(data.word_list.len());
                Ok(
                    WordData {
                        word_list: data.word_list,
                        bitmask_array: data.bitmask_array,
                        position_index: data.position_index,
                        presence_index: data.presence_index,
                        possible_word_ids,
                    },
                )
            },
            None => Err(IndexError::NotFound),
        }
    }

    /// The words and the indexes, copied, as they are persisted. The candidate
    /// set is not part of it.
    pub fn save_to_cache(&self) -> (cached: CachedWordData)
        ensures
            self.cached_as(&cached),
    {
        let word_list = copy_words(&self.word_list);
        let bitmask_array = self.bitmask_array.clone();
        assert(bitmask_array@ =~= self.bitmask_array@);
        let position_index = [
            self.position_index[0].clone(),
            self.position_index[1].clone(),
            self.position_index[2].clone(),
            self.position_index[3].clone(),
            self.position_index[4].clone(),
        ];
        let presence_index = self.presence_index.clone();
        CachedWordData { word_list, bitmask_array, position_index, presence_index }
    }
}

} // verus!
