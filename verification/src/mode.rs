//! The ways to obtain an index: from a persisted one, or from a word list.

use crate::alphabet::IndexError;
use vstd::prelude::*;

verus! {

/// Where an index comes from.
#[derive(Debug, Clone, Copy, PartialEq, Eq)]
pub enum Mode {
    /// A persisted index is opened.
    Cache,
    /// The index is built from a word list, and persisted.
    Words,
}

/// Whether two strings hold the same characters.
pub fn same_text(first: &str, second: &str) -> (same: bool)
    ensures
        same == (first@ == second@),
{
    let n: usize = first.unicode_len();
    if second.unicode_len() != n {
        return false;
    }
    let mut i: usize = 0;
    while i < n
        invariant
            n == first@.len(),
            n == second@.len(),
            i <= n,
            forall|j: int| 0 <= j < i ==> first@[j] == second@[j],
        decreases n - i,
    {
        if first.get_char(i) != second.get_char(i) {
            return false;
        }
        i = i + 1;
    }
    proof {
        assert(first@ =~= second@);
    }
    true
}

impl Mode {
    /// The mode that `name` names, if it names one.
    pub open spec fn named(name: Seq<char>) -> Option<Mode> {
        if name == "cache"@ {
            Some(Mode::Cache)
        } else if name == "words"@ {
            Some(Mode::Words)
        } else {
            None
        }
    }

    /// Reads a mode: `"cache"` or `"words"`. Any other name is rejected.
    pub fn parse(name: &str) -> (res: Result<Mode, IndexError>)
        ensures
            res == match Mode::named(name@) {
                Some(mode) => Ok::<Mode, IndexError>(mode),
                None => Err::<Mode, IndexError>(IndexError::InvalidInput),
            },
    {
        if same_text(name, "cache") {
            Ok(Mode::Cache)
        } else if same_text(name, "words") {
            Ok(Mode::Words)
        } else {
            Err(IndexError::InvalidInput)
        }
    }
}

} // verus!
