//! The query session: constraints that narrow the candidate set, and the
//! words that are left.

use crate::alphabet::key_of;
use crate::laws::{law_contains_by_words, law_doesnt_contain_by_words, law_position_by_words};
use crate::model::{
    keep_listed, texts, lemma_filter_all, lemma_filter_candidates, lemma_filter_next,
    lemma_filter_twice,
};
use crate::word_data::{WordData, WORD_LENGTH};
use std::collections::HashMap;
use vstd::prelude::*;
use vstd::std_specs::hash::*;

verus! {

/// Whether `id` stands in `bucket`.
fn is_listed(bucket: &Vec<usize>, id: usize) -> (found: bool)
    ensures
        found == bucket@.contains(id),
{
    let mut i: usize = 0;
    while i < bucket.len()
        invariant
            i <= bucket.len(),
            forall|j: int| 0 <= j < i ==> bucket@[j] != id,
        decreases bucket.len() - i,
    {
        if bucket[i] == id {
            return true;
        }
        i = i + 1;
    }
    false
}

/// The ids of `ids` that stand in `bucket` (`listed`), or that do not
/// (`!listed`), in the order they had.
fn retain_listed(ids: &Vec<usize>, bucket: &Vec<usize>, listed: bool) -> (kept: Vec<usize>)
    ensures
        kept@ == keep_listed(ids@, bucket@, listed),
{
    let mut kept: Vec<usize> = Vec::new();
    let mut i: usize = 0;
    let ghost wanted = |id: usize| bucket@.contains(id) == listed;
    proof {
        reveal(Seq::filter);
        assert(ids@.take(0).filter(wanted) =~= Seq::<usize>::empty());
    }
    while i < ids.len()
        invariant
            i <= ids.len(),
            wanted == |id: usize| bucket@.contains(id) == listed,
            kept@ == ids@.take(i as int).filter(wanted),
        decreases ids.len() - i,
    {
        let id: usize = ids[i];
        proof {
            lemma_filter_next(ids@, wanted, i as int);
        }
        if is_listed(bucket, id) == listed {
            kept.push(id);
        }
        i = i + 1;
    }
    proof {
        assert(ids@.take(ids.len() as int) =~= ids@);
    }
    kept
}

/// The bucket that `index` holds for `key`, copied; empty where it holds none.
fn copy_bucket(index: &HashMap<u32, Vec<usize>>, key: u32) -> (ids: Vec<usize>)
    ensures
        ids@ == crate::model::bucket_of(index@, key),
{
    broadcast use group_hash_axioms;

    match index.get(&key) {
        Some(bucket) => {
            let ids = bucket.clone();
            assert(ids@ =~= bucket@);
            ids
        },
        None => Vec::new(),
    }
}

impl WordData {
    /// `other` has the same words and the same indexes.
    pub open spec fn same_index(&self, other: &WordData) -> bool {
        &&& self.word_list == other.word_list
        &&& self.bitmask_array == other.bitmask_array
        &&& self.position_index == other.position_index
        &&& self.presence_index == other.presence_index
    }

    /// `id` stands in the presence bucket of every one of `letters`.
    pub open spec fn in_every_bucket(&self, id: usize, letters: Seq<char>) -> bool {
        forall|k: int|
            0 <= k < letters.len() ==> (#[trigger] self.presence_bucket(letters[k])).contains(id)
    }

    /// `id` stands in the presence bucket of none of `letters`.
    pub open spec fn in_no_bucket(&self, id: usize, letters: Seq<char>) -> bool {
        forall|k: int|
            0 <= k < letters.len() ==> !(#[trigger] self.presence_bucket(letters[k])).contains(id)
    }

    /// What `contains(letters)` leaves of `ids`.
    pub open spec fn with_letters(&self, ids: Seq<usize>, letters: Seq<char>) -> Seq<usize> {
        ids.filter(|id: usize| self.in_every_bucket(id, letters))
    }

    /// What `doesnt_contain(letters)` leaves of `ids`.
    pub open spec fn without_letters(&self, ids: Seq<usize>, letters: Seq<char>) -> Seq<usize> {
        ids.filter(|id: usize| self.in_no_bucket(id, letters))
    }

    /// What `at_position(position, letter)` leaves of `ids`.
    pub open spec fn with_letter_at(&self, ids: Seq<usize>, position: int, letter: char) -> Seq<
        usize,
    > {
        keep_listed(ids, self.position_bucket(position, letter), true)
    }

    /// What `not_at_position(position, letter)` leaves of `ids`.
    pub open spec fn without_letter_at(
        &self,
        ids: Seq<usize>,
        position: int,
        letter: char,
    ) -> Seq<usize> {
        keep_listed(ids, self.position_bucket(position, letter), false)
    }

    /// The ids of `ids` whose word holds every one of `letters`.
    pub open spec fn holding_all(&self, ids: Seq<usize>, letters: Seq<char>) -> Seq<usize> {
        ids.filter(|id: usize| self.word_has_all(id, letters))
    }

    /// The ids of `ids` whose word holds none of `letters`.
    pub open spec fn holding_none(&self, ids: Seq<usize>, letters: Seq<char>) -> Seq<usize> {
        ids.filter(|id: usize| self.word_has_none(id, letters))
    }

    /// The ids of `ids` whose word has `letter` at `position`.
    pub open spec fn having_at(&self, ids: Seq<usize>, position: int, letter: char) -> Seq<usize> {
        ids.filter(|id: usize| self.word_has_at(id, position, letter))
    }

    /// The ids of `ids` whose word does not have `letter` at `position`.
    pub open spec fn not_having_at(&self, ids: Seq<usize>, position: int, letter: char) -> Seq<
        usize,
    > {
        ids.filter(|id: usize| !self.word_has_at(id, position, letter))
    }

    /// The texts of the candidates' words, in ascending order of id.
    pub open spec fn result_texts(&self) -> Seq<Seq<char>> {
        Seq::new(self.candidates().len(), |i: int| self.words()[self.candidates()[i] as int])
    }

    /// The ids in the presence bucket of `letter`; none where the index has no
    /// such bucket.
    pub fn containing_letter(&self, letter: char) -> (ids: Vec<usize>)
        ensures
            ids@ == self.presence_bucket(letter),
    {
        copy_bucket(&self.presence_index, key_of(letter))
    }

    /// The ids in the position bucket of `letter` at `position`; none where the
    /// index has no such bucket, and none at a position that is no slot.
    pub fn containing_letter_at(&self, letter: char, position: usize) -> (ids: Vec<usize>)
        ensures
            ids@ == self.position_bucket(position as int, letter),
    {
        if position < WORD_LENGTH {
            copy_bucket(&self.position_index[position], key_of(letter))
        } else {
            Vec::new()
        }
    }

    /// Keeps the candidates that stand in the position bucket of `letter` at
    /// `position`.
    pub fn at_position(&mut self, position: usize, letter: char) -> (session: &mut Self)
        ensures
            *final(self) == *final(session),
            session.same_index(old(self)),
            old(self).wf() ==> session.wf(),
            session.candidates().len() <= old(self).candidates().len(),
            session.candidates() == old(self).with_letter_at(
                old(self).candidates(),
                position as int,
                letter,
            ),
            old(self).indexed() ==> session.candidates() == old(self).having_at(
                old(self).candidates(),
                position as int,
                letter,
            ),
    {
        let filtered_ids = self.containing_letter_at(letter, position);
        let kept = retain_listed(&self.possible_word_ids, &filtered_ids, true);
        proof {
            let wanted = |id: usize| filtered_ids@.contains(id) == true;
            lemma_filter_candidates(self.candidates(), self.word_list@.len(), wanted);
            if self.indexed() {
                law_position_by_words(*self, self.candidates(), position as int, letter);
            }
        }
        self.possible_word_ids = kept;
        self
    }

    /// Removes the candidates that stand in the position bucket of `letter` at
    /// `position`.
    pub fn not_at_position(&mut self, position: usize, letter: char) -> (session: &mut Self)
        ensures
            *final(self) == *final(session),
            session.same_index(old(self)),
            old(self).wf() ==> session.wf(),
            session.candidates().len() <= old(self).candidates().len(),
            session.candidates() == old(self).without_letter_at(
                old(self).candidates(),
                position as int,
                letter,
            ),
            old(self).indexed() ==> session.candidates() == old(self).not_having_at(
                old(self).candidates(),
                position as int,
                letter,
            ),
    {
        let filtered_ids = self.containing_letter_at(letter, position);
        let kept = retain_listed(&self.possible_word_ids, &filtered_ids, false);
        proof {
            let wanted = |id: usize| filtered_ids@.contains(id) == false;
            lemma_filter_candidates(self.candidates(), self.word_list@.len(), wanted);
            if self.indexed() {
                law_position_by_words(*self, self.candidates(), position as int, letter);
            }
        }
        self.possible_word_ids = kept;
        self
    }

    /// Keeps the candidates that stand in the presence bucket of every letter
    /// of `letters`.
    pub fn contains(&mut self, letters: &str) -> (session: &mut Self)
        ensures
            *final(self) == *final(session),
            session.same_index(old(self)),
            old(self).wf() ==> session.wf(),
            session.candidates().len() <= old(self).candidates().len(),
            session.candidates() == old(self).with_letters(old(self).candidates(), letters@),
            old(self).indexed() ==> session.candidates() == old(self).holding_all(
                old(self).candidates(),
                letters@,
            ),
    {
        let n: usize = letters.unicode_len();
        let mut i: usize = 0;
        let ghost start = *self;
        proof {
            lemma_filter_all(
                start.candidates(),
                |id: usize| start.in_every_bucket(id, letters@.take(0)),
            );
        }
        while i < n
            invariant
                n == letters@.len(),
                i <= n,
                self.same_index(&start),
                start.wf() ==> self.wf(),
                self.candidates().len() <= start.candidates().len(),
                self.candidates() == start.with_letters(
                    start.candidates(),
                    letters@.take(i as int),
                ),
            decreases n - i,
        {
            let letter = letters.get_char(i);
            let filtered_ids = self.containing_letter(letter);
            let kept = retain_listed(&self.possible_word_ids, &filtered_ids, true);
            proof {
                let seen = letters@.take(i as int);
                let more = letters@.take(i + 1);
                let before = |id: usize| start.in_every_bucket(id, seen);
                let wanted = |id: usize| filtered_ids@.contains(id) == true;
                let after = |id: usize| start.in_every_bucket(id, more);
                assert forall|id: usize| #[trigger] after(id) <==> (before(id) && wanted(id)) by {
                    assert(more[i as int] == letter);
                    assert(forall|k: int| 0 <= k < i ==> seen[k] == more[k]);
                    if before(id) && wanted(id) {
                        assert forall|k: int| 0 <= k < more.len() implies (
                        #[trigger] start.presence_bucket(more[k])).contains(id) by {
                            if k < i {
                                assert(start.presence_bucket(seen[k]).contains(id));
                            }
                        }
                    }
                    if after(id) {
                        assert(start.presence_bucket(more[i as int]).contains(id));
                        assert forall|k: int| 0 <= k < seen.len() implies (
                        #[trigger] start.presence_bucket(seen[k])).contains(id) by {
                            assert(start.presence_bucket(more[k]).contains(id));
                        }
                    }
                }
                lemma_filter_twice(start.candidates(), before, wanted, after);
                lemma_filter_candidates(start.candidates(), start.word_list@.len(), after);
            }
            self.possible_word_ids = kept;
            i = i + 1;
        }
        proof {
            assert(letters@.take(n as int) =~= letters@);
            if start.indexed() {
                law_contains_by_words(start, start.candidates(), letters@);
            }
        }
        self
    }

    /// Removes the candidates that stand in the presence bucket of any letter
    /// of `letters`.
    pub fn doesnt_contain(&mut self, letters: &str) -> (session: &mut Self)
        ensures
            *final(self) == *final(session),
            session.same_index(old(self)),
            old(self).wf() ==> session.wf(),
            session.candidates().len() <= old(self).candidates().len(),
            session.candidates() == old(self).without_letters(old(self).candidates(), letters@),
            old(self).indexed() ==> session.candidates() == old(self).holding_none(
                old(self).candidates(),
                letters@,
            ),
    {
        let n: usize = letters.unicode_len();
        let mut i: usize = 0;
        let ghost start = *self;
        proof {
            lemma_filter_all(
                start.candidates(),
                |id: usize| start.in_no_bucket(id, letters@.take(0)),
            );
        }
        while i < n
            invariant
                n == letters@.len(),
                i <= n,
                self.same_index(&start),
                start.wf() ==> self.wf(),
                self.candidates().len() <= start.candidates().len(),
                self.candidates() == start.without_letters(
                    start.candidates(),
                    letters@.take(i as int),
                ),
            decreases n - i,
        {
            let letter = letters.get_char(i);
            let filtered_ids = self.containing_letter(letter);
            let kept = retain_listed(&self.possible_word_ids, &filtered_ids, false);
            proof {
                let seen = letters@.take(i as int);
                let more = letters@.take(i + 1);
                let before = |id: usize| start.in_no_bucket(id, seen);
                let wanted = |id: usize| filtered_ids@.contains(id) == false;
                let after = |id: usize| start.in_no_bucket(id, more);
                assert forall|id: usize| #[trigger] after(id) <==> (before(id) && wanted(id)) by {
                    assert(more[i as int] == letter);
                    assert(forall|k: int| 0 <= k < i ==> seen[k] == more[k]);
                    if before(id) && wanted(id) {
                        assert forall|k: int| 0 <= k < more.len() implies !(
                        #[trigger] start.presence_bucket(more[k])).contains(id) by {
                            if k < i {
                                assert(!start.presence_bucket(seen[k]).contains(id));
                            }
                        }
                    }
                    if after(id) {
                        assert(!start.presence_bucket(more[i as int]).contains(id));
                        assert forall|k: int| 0 <= k < seen.len() implies !(
                        #[trigger] start.presence_bucket(seen[k])).contains(id) by {
                            assert(!start.presence_bucket(more[k]).contains(id));
                        }
                    }
                }
                lemma_filter_twice(start.candidates(), before, wanted, after);
                lemma_filter_candidates(start.candidates(), start.word_list@.len(), after);
            }
            self.possible_word_ids = kept;
            i = i + 1;
        }
        proof {
            assert(letters@.take(n as int) =~= letters@);
            if start.indexed() {
                law_doesnt_contain_by_words(start, start.candidates(), letters@);
            }
        }
        self
    }

    /// The words of the candidates, in ascending order of id. The session
    /// stays as it is.
    pub fn results(&self) -> (words: Vec<String>)
        requires
            self.wf(),
        ensures
            texts(words@) == self.result_texts(),
    {
        let mut words: Vec<String> = Vec::new();
        let mut i: usize = 0;
        while i < self.possible_word_ids.len()
            invariant
                self.wf(),
                i <= self.candidates().len(),
                words@.len() == i,
                forall|j: int|
                    0 <= j < i ==> (#[trigger] words@[j])@ == self.words()[self.candidates()[j] as int],
            decreases self.candidates().len() - i,
        {
            let id: usize = self.possible_word_ids[i];
            words.push(self.word_list[id].clone());
            i = i + 1;
        }
        proof {
            assert(texts(words@) =~= self.result_texts());
        }
        words
    }

    /// Whether the candidate set is ascending and holds ids of words only.
    pub fn is_well_formed(&self) -> (ok: bool)
        ensures
            ok == self.wf(),
    {
        let n: usize = self.possible_word_ids.len();
        let count: usize = self.word_list.len();
        let mut i: usize = 0;
        while i < n
            invariant
                n == self.candidates().len(),
                count == self.word_list@.len(),
                i <= n,
                forall|j: int| 0 <= j < i ==> (#[trigger] self.candidates()[j]) < count,
                forall|j: int, k: int|
                    0 <= j < k < i ==> self.candidates()[j] < self.candidates()[k],
            decreases n - i,
        {
            let id: usize = self.possible_word_ids[i];
            if id >= count {
                return false;
            }
            if i > 0 && self.possible_word_ids[i - 1] >= id {
                return false;
            }
            i = i + 1;
        }
        true
    }
}

} // verus!
