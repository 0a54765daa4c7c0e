//! A guesser: a session on the index of a word list, with a fixed chain of
//! constraints to run on it.

use crate::alphabet::IndexError;
use crate::laws::{lemma_same_index_narrows_alike, Constraint};
use crate::model::{all_ids, texts};
use crate::word_data::{valid_words, WordData};
use vstd::prelude::*;

verus! {

/// A session on the index of a word list.
pub struct Guesser {
    /// The index and the candidate set.
    pub word_data: WordData,
}

impl Guesser {
    /// What the fixed chain leaves of `ids` on the index of `data`: the words
    /// with all of `a`, `p`, `l`, `e`, without `b` and `y`, with `a` first and
    /// without `l` second.
    pub open spec fn after_filters(data: WordData, ids: Seq<usize>) -> Seq<usize> {
        data.without_letter_at(
            data.with_letter_at(
                data.without_letters(
                    data.without_letters(data.with_letters(ids, "apple"@), "by"@),
                    "y"@,
                ),
                0,
                'a',
            ),
            1,
            'l',
        )
    }

    /// Builds the index of `words` and opens a session on it. A list in which
    /// some word holds a character outside `'a'..='z'` is rejected.
    pub fn new(words: Vec<String>) -> (res: Result<Self, IndexError>)
        ensures
            res.is_ok() <==> valid_words(texts(words@)),
            res matches Ok(guesser) ==> {
                &&& guesser.word_data.word_list == words
                &&& guesser.word_data.indexed()
                &&& guesser.word_data.wf()
                &&& guesser.word_data.candidates() == all_ids(words@.len())
            },
            res matches Err(e) ==> e == IndexError::InvalidInput,
    {
        match WordData::new(words) {
            Ok(word_data) => Ok(Guesser { word_data }),
            Err(e) => Err(e),
        }
    }

    /// Runs the fixed chain on the session and gives the words that are left.
    pub fn apply_filters(&mut self) -> (words: Vec<String>)
        requires
            old(self).word_data.wf(),
        ensures
            final(self).word_data.same_index(&old(self).word_data),
            final(self).word_data.wf(),
            final(self).word_data.candidates() == Self::after_filters(
                old(self).word_data,
                old(self).word_data.candidates(),
            ),
            texts(words@) == final(self).word_data.result_texts(),
    {
        let ghost start = self.word_data;
        let ghost ids0 = start.candidates();
        self.word_data.contains("apple");
        let ghost first = self.word_data;
        self.word_data.doesnt_contain("by");
        let ghost second = self.word_data;
        self.word_data.doesnt_contain("y");
        let ghost third = self.word_data;
        self.word_data.at_position(0, 'a');
        let ghost fourth = self.word_data;
        self.word_data.not_at_position(1, 'l');
        proof {
            lemma_same_index_narrows_alike(
                first,
                start,
                first.candidates(),
                Constraint::DoesntContain("by"@),
            );
            lemma_same_index_narrows_alike(
                second,
                start,
                second.candidates(),
                Constraint::DoesntContain("y"@),
            );
            lemma_same_index_narrows_alike(
                third,
                start,
                third.candidates(),
                Constraint::AtPosition(0, 'a'),
            );
            lemma_same_index_narrows_alike(
                fourth,
                start,
                fourth.candidates(),
                Constraint::NotAtPosition(1, 'l'),
            );
        }
        self.word_data.results()
    }
}

} // verus!
