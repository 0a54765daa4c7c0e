//! What holds of every index and every session: what the constraints mean in
//! terms of the words, and how they compose.

use crate::alphabet::lemma_bitmask_unique;
use crate::cache::CachedWordData;
use crate::model::{
    buckets, lemma_filter_agree, lemma_filter_all, lemma_filter_members, lemma_filter_twice,
    position_model,
};
use crate::word_data::{
    lemma_position_bucket_of_words, lemma_presence_bucket_of_words, WordData, WORD_LENGTH,
};
use vstd::prelude::*;

verus! {

/// One constraint of a chain, as the laws below speak of it.
pub enum Constraint {
    /// The word holds every one of these letters.
    Contains(Seq<char>),
    /// The word holds none of these letters.
    DoesntContain(Seq<char>),
    /// The word has this letter at this position.
    AtPosition(int, char),
    /// The word does not have this letter at this position.
    NotAtPosition(int, char),
}

impl WordData {
    /// What one constraint leaves of `ids`.
    pub open spec fn narrowed(&self, ids: Seq<usize>, constraint: Constraint) -> Seq<usize> {
        match constraint {
            Constraint::Contains(letters) => self.with_letters(ids, letters),
            Constraint::DoesntContain(letters) => self.without_letters(ids, letters),
            Constraint::AtPosition(position, letter) => self.with_letter_at(ids, position, letter),
            Constraint::NotAtPosition(position, letter) => self.without_letter_at(
                ids,
                position,
                letter,
            ),
        }
    }

    /// What a chain of constraints leaves of `ids`, applied first to last.
    pub open spec fn narrowed_by_all(&self, ids: Seq<usize>, chain: Seq<Constraint>) -> Seq<usize>
        decreases chain.len(),
    {
        if chain.len() == 0 {
            ids
        } else {
            self.narrowed(self.narrowed_by_all(ids, chain.drop_last()), chain.last())
        }
    }

    /// `id` meets `constraint`, by the buckets of the index.
    pub open spec fn meets(&self, id: usize, constraint: Constraint) -> bool {
        match constraint {
            Constraint::Contains(letters) => self.in_every_bucket(id, letters),
            Constraint::DoesntContain(letters) => self.in_no_bucket(id, letters),
            Constraint::AtPosition(position, letter) => self.position_bucket(
                position,
                letter,
            ).contains(id),
            Constraint::NotAtPosition(position, letter) => !self.position_bucket(
                position,
                letter,
            ).contains(id),
        }
    }

    /// `id` meets every constraint of `chain`.
    pub open spec fn meets_all(&self, id: usize, chain: Seq<Constraint>) -> bool {
        forall|k: int| 0 <= k < chain.len() ==> self.meets(id, #[trigger] chain[k])
    }
}

/// On the index of a word list, `contains` keeps exactly the candidates whose
/// word holds every one of the letters.
pub proof fn law_contains_by_words(data: WordData, ids: Seq<usize>, letters: Seq<char>)
    requires
        data.indexed(),
    ensures
        data.with_letters(ids, letters) == data.holding_all(ids, letters),
{
    assert forall|id: usize|
        data.in_every_bucket(id, letters) <==> data.word_has_all(id, letters) by {
        assert forall|k: int| 0 <= k < letters.len() implies (data.presence_bucket(
            #[trigger] letters[k],
        ).contains(id) <==> data.word_has(id, letters[k])) by {
            lemma_presence_bucket_of_words(data, letters[k], id);
        }
    }
    lemma_filter_agree(
        ids,
        |id: usize| data.in_every_bucket(id, letters),
        |id: usize| data.word_has_all(id, letters),
    );
}

/// On the index of a word list, `doesnt_contain` keeps exactly the candidates
/// whose word holds none of the letters.
pub proof fn law_doesnt_contain_by_words(data: WordData, ids: Seq<usize>, letters: Seq<char>)
    requires
        data.indexed(),
    ensures
        data.without_letters(ids, letters) == data.holding_none(ids, letters),
{
    assert forall|id: usize|
        data.in_no_bucket(id, letters) <==> data.word_has_none(id, letters) by {
        assert forall|k: int| 0 <= k < letters.len() implies (data.presence_bucket(
            #[trigger] letters[k],
        ).contains(id) <==> data.word_has(id, letters[k])) by {
            lemma_presence_bucket_of_words(data, letters[k], id);
        }
    }
    lemma_filter_agree(
        ids,
        |id: usize| data.in_no_bucket(id, letters),
        |id: usize| data.word_has_none(id, letters),
    );
}

/// On the index of a word list, `at_position` keeps exactly the candidates
/// whose word has the letter at the position, and `not_at_position` exactly
/// the others. At a position that is no slot, or past the end of the word, no
/// word has the letter.
pub proof fn law_position_by_words(data: WordData, ids: Seq<usize>, position: int, letter: char)
    requires
        data.indexed(),
    ensures
        data.with_letter_at(ids, position, letter) == data.having_at(ids, position, letter),
        data.without_letter_at(ids, position, letter) == data.not_having_at(
            ids,
            position,
            letter,
        ),
{
    let bucket = data.position_bucket(position, letter);
    assert forall|id: usize| bucket.contains(id) <==> data.word_has_at(id, position, letter) by {
        lemma_position_bucket_of_words(data, position, letter, id);
    }
    lemma_filter_agree(
        ids,
        |id: usize| bucket.contains(id) == true,
        |id: usize| data.word_has_at(id, position, letter),
    );
    lemma_filter_agree(
        ids,
        |id: usize| bucket.contains(id) == false,
        |id: usize| !data.word_has_at(id, position, letter),
    );
}

/// On the index of a word list, `contains` of one letter keeps the id of
/// every word that holds the letter, and removes the id of every word that
/// does not.
pub proof fn law_contains_keeps_words_with_letter(
    data: WordData,
    ids: Seq<usize>,
    letter: char,
    id: usize,
)
    requires
        data.indexed(),
        ids.contains(id),
        id < data.word_list@.len(),
    ensures
        data.with_letters(ids, seq![letter]).contains(id) <==> data.words()[id as int].contains(
            letter,
        ),
{
    let letters = seq![letter];
    law_contains_by_words(data, ids, letters);
    lemma_filter_members(ids, |other: usize| data.word_has_all(other, letters));
    assert(letters[0] == letter);
    assert(data.word_has_all(id, letters) <==> data.word_has(id, letter));
}

/// `contains` and `doesnt_contain` of one letter split a candidate set: each
/// id of it is in what exactly one of the two leaves, and neither leaves any
/// other id.
pub proof fn law_contains_and_doesnt_contain_split(data: WordData, ids: Seq<usize>, letter: char)
    ensures
        forall|id: usize|
            ids.contains(id) <==> (#[trigger] data.with_letters(ids, seq![letter]).contains(id)
                || data.without_letters(ids, seq![letter]).contains(id)),
        forall|id: usize|
            !(#[trigger] data.with_letters(ids, seq![letter]).contains(id)
                && data.without_letters(ids, seq![letter]).contains(id)),
{
    let letters = seq![letter];
    lemma_filter_members(ids, |id: usize| data.in_every_bucket(id, letters));
    lemma_filter_members(ids, |id: usize| data.in_no_bucket(id, letters));
    assert forall|id: usize|
        data.in_every_bucket(id, letters) <==> !data.in_no_bucket(id, letters) by {
        assert(letters[0] == letter);
        assert(data.in_every_bucket(id, letters) <==> data.presence_bucket(letter).contains(id));
        assert(data.in_no_bucket(id, letters) <==> !data.presence_bucket(letter).contains(id));
    }
}

/// `at_position` followed by `not_at_position` of the same letter at the same
/// position leaves no candidate.
pub proof fn law_at_then_not_at_is_empty(
    data: WordData,
    ids: Seq<usize>,
    position: int,
    letter: char,
)
    ensures
        data.without_letter_at(data.with_letter_at(ids, position, letter), position, letter)
            == Seq::<usize>::empty(),
{
    let bucket = data.position_bucket(position, letter);
    let first = data.with_letter_at(ids, position, letter);
    let second = data.without_letter_at(first, position, letter);
    lemma_filter_members(ids, |id: usize| bucket.contains(id) == true);
    lemma_filter_members(first, |id: usize| bucket.contains(id) == false);
    if second.len() > 0 {
        assert(second.contains(second[0]));
    }
    assert(second =~= Seq::<usize>::empty());
}

/// Where the index holds no bucket for the letter at the position, and at a
/// position that is no slot, `at_position` leaves no candidate.
pub proof fn law_at_position_without_bucket(
    data: WordData,
    ids: Seq<usize>,
    position: int,
    letter: char,
)
    requires
        data.position_bucket(position, letter).len() == 0,
    ensures
        data.with_letter_at(ids, position, letter) == Seq::<usize>::empty(),
        !(0 <= position < WORD_LENGTH) ==> data.position_bucket(position, letter).len() == 0,
{
    let bucket = data.position_bucket(position, letter);
    let left = data.with_letter_at(ids, position, letter);
    lemma_filter_members(ids, |id: usize| bucket.contains(id) == true);
    if left.len() > 0 {
        assert(left.contains(left[0]));
        let at = choose|at: int| 0 <= at < bucket.len() && bucket[at] == left[0];
    }
    assert(left =~= Seq::<usize>::empty());
}

/// `contains` of the same letters twice in a row leaves what one `contains`
/// leaves.
pub proof fn law_contains_twice(data: WordData, ids: Seq<usize>, letters: Seq<char>)
    ensures
        data.with_letters(data.with_letters(ids, letters), letters) == data.with_letters(
            ids,
            letters,
        ),
{
    let wanted = |id: usize| data.in_every_bucket(id, letters);
    lemma_filter_twice(ids, wanted, wanted, wanted);
}

/// One constraint keeps the ids that meet it.
pub proof fn lemma_narrowed_is_filter(data: WordData, ids: Seq<usize>, constraint: Constraint)
    ensures
        data.narrowed(ids, constraint) == ids.filter(|id: usize| data.meets(id, constraint)),
{
    let met = |id: usize| data.meets(id, constraint);
    match constraint {
        Constraint::Contains(letters) => {
            lemma_filter_agree(ids, |id: usize| data.in_every_bucket(id, letters), met);
        },
        Constraint::DoesntContain(letters) => {
            lemma_filter_agree(ids, |id: usize| data.in_no_bucket(id, letters), met);
        },
        Constraint::AtPosition(position, letter) => {
            let bucket = data.position_bucket(position, letter);
            lemma_filter_agree(ids, |id: usize| bucket.contains(id) == true, met);
        },
        Constraint::NotAtPosition(position, letter) => {
            let bucket = data.position_bucket(position, letter);
            lemma_filter_agree(ids, |id: usize| bucket.contains(id) == false, met);
        },
    }
}

/// Two sessions on the same index narrow alike.
pub proof fn lemma_same_index_narrows_alike(
    first: WordData,
    second: WordData,
    ids: Seq<usize>,
    constraint: Constraint,
)
    requires
        first.same_index(&second),
    ensures
        first.narrowed(ids, constraint) == second.narrowed(ids, constraint),
{
    lemma_narrowed_is_filter(first, ids, constraint);
    lemma_narrowed_is_filter(second, ids, constraint);
    assert forall|id: usize|
        first.meets(id, constraint) <==> second.meets(id, constraint) by {
        match constraint {
            Constraint::Contains(letters) => {
                assert forall|k: int| 0 <= k < letters.len() implies first.presence_bucket(
                    #[trigger] letters[k],
                ) == second.presence_bucket(letters[k]) by {}
            },
            Constraint::DoesntContain(letters) => {
                assert forall|k: int| 0 <= k < letters.len() implies first.presence_bucket(
                    #[trigger] letters[k],
                ) == second.presence_bucket(letters[k]) by {}
            },
            Constraint::AtPosition(position, letter) => {},
            Constraint::NotAtPosition(position, letter) => {},
        }
    }
    lemma_filter_agree(
        ids,
        |id: usize| first.meets(id, constraint),
        |id: usize| second.meets(id, constraint),
    );
}

/// A chain keeps the ids that meet every constraint of it.
pub proof fn lemma_chain_is_filter(data: WordData, ids: Seq<usize>, chain: Seq<Constraint>)
    ensures
        data.narrowed_by_all(ids, chain) == ids.filter(|id: usize| data.meets_all(id, chain)),
    decreases chain.len(),
{
    let all = |id: usize| data.meets_all(id, chain);
    if chain.len() == 0 {
        lemma_filter_all(ids, all);
    } else {
        let front = chain.drop_last();
        let before = |id: usize| data.meets_all(id, front);
        let last = |id: usize| data.meets(id, chain.last());
        lemma_chain_is_filter(data, ids, front);
        lemma_narrowed_is_filter(data, data.narrowed_by_all(ids, front), chain.last());
        assert forall|id: usize| #[trigger] all(id) <==> (before(id) && last(id)) by {
            if before(id) && last(id) {
                assert forall|k: int| 0 <= k < chain.len() implies data.meets(
                    id,
                    #[trigger] chain[k],
                ) by {
                    if k < front.len() {
                        assert(front[k] == chain[k]);
                    }
                }
            }
            if all(id) {
                assert(data.meets(id, chain[chain.len() - 1]));
                assert forall|k: int| 0 <= k < front.len() implies data.meets(
                    id,
                    #[trigger] front[k],
                ) by {
                    assert(front[k] == chain[k]);
                }
            }
        }
        lemma_filter_twice(ids, before, last, all);
    }
}

/// The order of a chain does not matter: two chains that hold the same
/// constraints, each as often as the other, leave the same candidates.
pub proof fn law_chain_order_independent(
    data: WordData,
    ids: Seq<usize>,
    chain: Seq<Constraint>,
    permuted: Seq<Constraint>,
)
    requires
        chain.to_multiset() == permuted.to_multiset(),
    ensures
        data.narrowed_by_all(ids, chain) == data.narrowed_by_all(ids, permuted),
{
    lemma_chain_is_filter(data, ids, chain);
    lemma_chain_is_filter(data, ids, permuted);
    chain.to_multiset_ensures();
    permuted.to_multiset_ensures();
    assert forall|id: usize| data.meets_all(id, chain) <==> data.meets_all(id, permuted) by {
        if data.meets_all(id, chain) {
            assert forall|k: int| 0 <= k < permuted.len() implies data.meets(
                id,
                #[trigger] permuted[k],
            ) by {
                assert(permuted.contains(permuted[k]));
                assert(permuted.to_multiset().count(permuted[k]) > 0);
                assert(chain.contains(permuted[k]));
                let at = choose|at: int| 0 <= at < chain.len() && chain[at] == permuted[k];
                assert(data.meets(id, chain[at]));
            }
        }
        if data.meets_all(id, permuted) {
            assert forall|k: int| 0 <= k < chain.len() implies data.meets(
                id,
                #[trigger] chain[k],
            ) by {
                assert(chain.contains(chain[k]));
                assert(chain.to_multiset().count(chain[k]) > 0);
                assert(permuted.contains(chain[k]));
                let at = choose|at: int| 0 <= at < permuted.len() && permuted[at] == chain[k];
                assert(data.meets(id, permuted[at]));
            }
        }
    }
    lemma_filter_agree(
        ids,
        |id: usize| data.meets_all(id, chain),
        |id: usize| data.meets_all(id, permuted),
    );
}

/// The words determine their index: two indexes of the same words hold the
/// same bitmasks and the same buckets.
pub proof fn law_index_is_determined(first: WordData, second: WordData)
    requires
        first.indexed(),
        second.indexed(),
        first.words() == second.words(),
    ensures
        first.bitmask_array@ == second.bitmask_array@,
        buckets(first.presence_index@) == buckets(second.presence_index@),
        forall|slot: int|
            0 <= slot < WORD_LENGTH ==> buckets(#[trigger] first.position_index@[slot]@)
                == buckets(second.position_index@[slot]@),
{
    assert forall|id: int| 0 <= id < first.bitmask_array@.len() implies first.bitmask_array@[id]
        == second.bitmask_array@[id] by {
        lemma_bitmask_unique(
            first.bitmask_array@[id],
            second.bitmask_array@[id],
            first.words()[id],
        );
    }
    assert(first.bitmask_array@ =~= second.bitmask_array@);
    assert forall|slot: int| 0 <= slot < WORD_LENGTH implies buckets(
        #[trigger] first.position_index@[slot]@,
    ) == buckets(second.position_index@[slot]@) by {
        assert(buckets(second.position_index@[slot]@) == position_model(second.words(), slot));
    }
}

/// An index that is persisted and opened again is the index that was
/// persisted: what holds the same words and structures as the index of a word
/// list is the index of that word list.
pub proof fn law_reloaded_index_is_the_index(
    built: WordData,
    cached: CachedWordData,
    reloaded: WordData,
)
    requires
        built.indexed(),
        built.cached_as(&cached),
        reloaded.cached_as(&cached),
    ensures
        reloaded.indexed(),
        reloaded.words() == built.words(),
        reloaded.bitmask_array@ == built.bitmask_array@,
        buckets(reloaded.presence_index@) == buckets(built.presence_index@),
        forall|slot: int|
            0 <= slot < WORD_LENGTH ==> buckets(#[trigger] reloaded.position_index@[slot]@)
                == buckets(built.position_index@[slot]@),
{
    assert(reloaded.word_list@ == built.word_list@);
    assert forall|slot: int| 0 <= slot < WORD_LENGTH implies buckets(
        #[trigger] reloaded.position_index@[slot]@,
    ) == position_model(reloaded.words(), slot) by {
        assert(cached.position_index@[slot]@ == built.position_index@[slot]@);
        assert(reloaded.position_index@[slot]@ == built.position_index@[slot]@);
        assert(buckets(built.position_index@[slot]@) == position_model(built.words(), slot));
    }
}

} // verus!
