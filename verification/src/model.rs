//! The mathematical model of the two indexes: which ids stand in which
//! bucket, and in what order.

use crate::alphabet::{bit_is_set, letter_key, ALPHABET_SIZE, FIRST_LETTER};
use vstd::prelude::*;

verus! {

/// The texts of a list of words.
pub open spec fn texts(list: Seq<String>) -> Seq<Seq<char>> {
    Seq::new(list.len(), |i: int| list[i]@)
}

/// All ids of a list of `n` words, ascending.
pub open spec fn all_ids(n: nat) -> Seq<usize> {
    Seq::new(n, |i: int| i as usize)
}

/// The ids at which `flags` holds, in ascending order.
pub open spec fn ids_where(flags: Seq<bool>) -> Seq<usize>
    decreases flags.len(),
{
    if flags.len() == 0 {
        Seq::empty()
    } else {
        let rest = ids_where(flags.drop_last());
        if flags.last() {
            rest.push((flags.len() - 1) as usize)
        } else {
            rest
        }
    }
}

/// `ids` is strictly ascending.
pub open spec fn ascending(ids: Seq<usize>) -> bool {
    forall|i: int, j: int| 0 <= i < j < ids.len() ==> ids[i] < ids[j]
}

/// `ids_where` lists exactly the ids at which the flag holds, each once and
/// in ascending order.
pub proof fn lemma_ids_where(flags: Seq<bool>)
    requires
        flags.len() <= usize::MAX,
    ensures
        ids_where(flags).len() <= flags.len(),
        forall|id: usize| #[trigger]
            ids_where(flags).contains(id) <==> (id < flags.len() && flags[id as int]),
        ascending(ids_where(flags)),
    decreases flags.len(),
{
    if flags.len() > 0 {
        let front = flags.drop_last();
        let rest = ids_where(front);
        let last_id = (flags.len() - 1) as usize;
        lemma_ids_where(front);
        let out = ids_where(flags);
        assert forall|id: usize| #[trigger] out.contains(id) <==> (id < flags.len() && flags[id as int]) by {
            if out.contains(id) {
                let i = choose|i: int| 0 <= i < out.len() && out[i] == id;
                if i < rest.len() {
                    assert(rest[i] == id);
                    assert(rest.contains(id));
                    assert(id < front.len());
                    assert(front[id as int] == flags[id as int]);
                }
            }
            if id < flags.len() && flags[id as int] {
                if id == last_id {
                    assert(out[out.len() - 1] == id);
                } else {
                    assert(front[id as int] == flags[id as int]);
                    assert(rest.contains(id));
                    let i = choose|i: int| 0 <= i < rest.len() && rest[i] == id;
                    assert(out[i] == id);
                }
            }
        }
        assert forall|i: int, j: int| 0 <= i < j < out.len() implies out[i] < out[j] by {
            assert(rest[i] == out[i]);
            assert(rest.contains(rest[i]));
            if j < rest.len() {
                assert(out[j] == rest[j]);
            }
        }
    }
}

/// Per word, whether bit `k` of its bitmask is set.
pub open spec fn mask_flags(masks: Seq<u32>, k: u32) -> Seq<bool> {
    Seq::new(masks.len(), |id: int| bit_is_set(masks[id], k))
}

/// Per word, whether the character with key `key` stands at `slot`.
pub open spec fn slot_flags(words: Seq<Seq<char>>, slot: int, key: u32) -> Seq<bool> {
    Seq::new(words.len(), |id: int| slot < words[id].len() && letter_key(words[id][slot]) == key)
}

/// `key` is the code point of one of the 26 letters.
pub open spec fn is_letter_key(key: u32) -> bool {
    FIRST_LETTER <= key < FIRST_LETTER + ALPHABET_SIZE
}

/// The presence bucket of the letter with key `key`: the ids whose bitmask has
/// that letter's bit set, ascending.
pub open spec fn presence_ids(masks: Seq<u32>, key: u32) -> Seq<usize> {
    ids_where(mask_flags(masks, (key - FIRST_LETTER) as u32))
}

/// The position bucket of `key` at `slot`: the ids of the words that have that
/// character at that slot, ascending.
pub open spec fn position_ids(words: Seq<Seq<char>>, slot: int, key: u32) -> Seq<usize> {
    ids_where(slot_flags(words, slot, key))
}

/// The presence index of a bitmask array: one bucket for each letter that
/// some word holds, and no empty bucket.
pub open spec fn presence_model(masks: Seq<u32>) -> Map<u32, Seq<usize>> {
    Map::new(
        |key: u32| is_letter_key(key) && presence_ids(masks, key).len() > 0,
        |key: u32| presence_ids(masks, key),
    )
}

/// The position index of a word list at one slot: one bucket for each
/// character that some word has there, and no empty bucket.
pub open spec fn position_model(words: Seq<Seq<char>>, slot: int) -> Map<u32, Seq<usize>> {
    Map::new(
        |key: u32| position_ids(words, slot, key).len() > 0,
        |key: u32| position_ids(words, slot, key),
    )
}

/// What a stored index maps each key to, bucket by bucket.
pub open spec fn buckets(index: Map<u32, Vec<usize>>) -> Map<u32, Seq<usize>> {
    Map::new(|key: u32| index.contains_key(key), |key: u32| index[key]@)
}

/// The bucket that `index` holds for `key`; empty where it holds none.
pub open spec fn bucket_of(index: Map<u32, Vec<usize>>, key: u32) -> Seq<usize> {
    if index.contains_key(key) {
        index[key]@
    } else {
        Seq::empty()
    }
}

/// The ids of `ids` that stand in `bucket` (`listed`), or that do not
/// (`!listed`), in the order they had.
pub open spec fn keep_listed(ids: Seq<usize>, bucket: Seq<usize>, listed: bool) -> Seq<usize> {
    ids.filter(|id: usize| bucket.contains(id) == listed)
}

/// Filtering one more element keeps what was kept and adds the element if it
/// passes.
pub proof fn lemma_filter_next<A>(s: Seq<A>, p: spec_fn(A) -> bool, i: int)
    requires
        0 <= i < s.len(),
    ensures
        s.take(i + 1).filter(p) == if p(s[i]) {
            s.take(i).filter(p).push(s[i])
        } else {
            s.take(i).filter(p)
        },
{
    reveal(Seq::filter);
    assert(s.take(i + 1).drop_last() =~= s.take(i));
}

/// What a filter keeps: the elements that pass, and no others.
pub proof fn lemma_filter_members<A>(s: Seq<A>, p: spec_fn(A) -> bool)
    ensures
        forall|x: A| #[trigger] s.filter(p).contains(x) <==> (s.contains(x) && p(x)),
    decreases s.len(),
{
    reveal(Seq::filter);
    if s.len() > 0 {
        let front = s.drop_last();
        lemma_filter_members(front, p);
        let out = s.filter(p);
        assert forall|x: A| #[trigger] out.contains(x) <==> (s.contains(x) && p(x)) by {
            if out.contains(x) {
                let i = choose|i: int| 0 <= i < out.len() && out[i] == x;
                if i < front.filter(p).len() {
                    assert(front.filter(p)[i] == x);
                    assert(front.filter(p).contains(x));
                    let j = choose|j: int| 0 <= j < front.len() && front[j] == x;
                    assert(s[j] == x);
                } else {
                    assert(s[s.len() - 1] == x);
                }
            }
            if s.contains(x) && p(x) {
                let j = choose|j: int| 0 <= j < s.len() && s[j] == x;
                if j < front.len() {
                    assert(front[j] == x);
                    assert(front.filter(p).contains(x));
                    let i = choose|i: int|
                        0 <= i < front.filter(p).len() && front.filter(p)[i] == x;
                    assert(out[i] == x);
                } else {
                    assert(out[out.len() - 1] == x);
                }
            }
        }
    }
}

/// Two filters in a row are one filter by both conditions.
pub proof fn lemma_filter_twice<A>(
    s: Seq<A>,
    p: spec_fn(A) -> bool,
    q: spec_fn(A) -> bool,
    both: spec_fn(A) -> bool,
)
    requires
        forall|x: A| s.contains(x) ==> (#[trigger] both(x) <==> (p(x) && q(x))),
    ensures
        s.filter(p).filter(q) == s.filter(both),
    decreases s.len(),
{
    reveal(Seq::filter);
    if s.len() > 0 {
        let front = s.drop_last();
        assert forall|x: A| front.contains(x) implies (#[trigger] both(x) <==> (p(x) && q(x))) by {
            let j = choose|j: int| 0 <= j < front.len() && front[j] == x;
            assert(s[j] == x);
        }
        lemma_filter_twice(front, p, q, both);
        assert(s[s.len() - 1] == s.last());
        assert(s.contains(s.last()));
        if p(s.last()) {
            assert(front.filter(p).push(s.last()).drop_last() =~= front.filter(p));
        }
    } else {
        assert(s.filter(p) =~= Seq::<A>::empty());
    }
}

/// Filters by conditions that agree on the elements keep the same.
pub proof fn lemma_filter_agree<A>(s: Seq<A>, p: spec_fn(A) -> bool, q: spec_fn(A) -> bool)
    requires
        forall|x: A| s.contains(x) ==> (#[trigger] p(x) <==> q(x)),
    ensures
        s.filter(p) == s.filter(q),
    decreases s.len(),
{
    reveal(Seq::filter);
    if s.len() > 0 {
        let front = s.drop_last();
        assert forall|x: A| front.contains(x) implies (#[trigger] p(x) <==> q(x)) by {
            let j = choose|j: int| 0 <= j < front.len() && front[j] == x;
            assert(s[j] == x);
        }
        lemma_filter_agree(front, p, q);
        assert(s[s.len() - 1] == s.last());
        assert(s.contains(s.last()));
    }
}

/// A filter that every element passes keeps the sequence as it is.
pub proof fn lemma_filter_all<A>(s: Seq<A>, p: spec_fn(A) -> bool)
    requires
        forall|x: A| s.contains(x) ==> #[trigger] p(x),
    ensures
        s.filter(p) == s,
    decreases s.len(),
{
    reveal(Seq::filter);
    if s.len() > 0 {
        let front = s.drop_last();
        assert forall|x: A| front.contains(x) implies #[trigger] p(x) by {
            let j = choose|j: int| 0 <= j < front.len() && front[j] == x;
            assert(s[j] == x);
        }
        lemma_filter_all(front, p);
        assert(s[s.len() - 1] == s.last());
        assert(s.contains(s.last()));
        assert(front.push(s.last()) =~= s);
    } else {
        assert(s.filter(p) =~= s);
    }
}

/// A filter keeps an ascending sequence ascending.
pub proof fn lemma_filter_ascending(ids: Seq<usize>, p: spec_fn(usize) -> bool)
    requires
        ascending(ids),
    ensures
        ascending(ids.filter(p)),
    decreases ids.len(),
{
    reveal(Seq::filter);
    if ids.len() > 0 {
        let front = ids.drop_last();
        assert(ascending(front)) by {
            assert forall|i: int, j: int| 0 <= i < j < front.len() implies front[i] < front[j] by {
                assert(front[i] == ids[i] && front[j] == ids[j]);
            }
        }
        lemma_filter_ascending(front, p);
        lemma_filter_members(front, p);
        let rest = front.filter(p);
        let out = ids.filter(p);
        assert forall|i: int, j: int| 0 <= i < j < out.len() implies out[i] < out[j] by {
            assert(rest[i] == out[i]);
            if j < rest.len() {
                assert(rest[j] == out[j]);
            } else {
                assert(rest.contains(rest[i]));
                let at = choose|at: int| 0 <= at < front.len() && front[at] == rest[i];
                assert(ids[at] == front[at]);
            }
        }
    }
}

/// `ids` is a candidate set over `count` words: ascending ids of words.
pub open spec fn is_candidate_set(ids: Seq<usize>, count: nat) -> bool {
    &&& ascending(ids)
    &&& forall|i: int| 0 <= i < ids.len() ==> (#[trigger] ids[i]) < count
}

/// A filter never adds an id, and narrows a candidate set to a candidate set.
pub proof fn lemma_filter_candidates(ids: Seq<usize>, count: nat, p: spec_fn(usize) -> bool)
    ensures
        ids.filter(p).len() <= ids.len(),
        is_candidate_set(ids, count) ==> is_candidate_set(ids.filter(p), count),
{
    ids.lemma_filter_len(p);
    if is_candidate_set(ids, count) {
        lemma_filter_ascending(ids, p);
        lemma_filter_members(ids, p);
        let out = ids.filter(p);
        assert forall|i: int| 0 <= i < out.len() implies (#[trigger] out[i]) < count by {
            assert(out.contains(out[i]));
            let at = choose|at: int| 0 <= at < ids.len() && ids[at] == out[i];
            assert(ids[at] < count);
        }
    }
}

} // verus!
