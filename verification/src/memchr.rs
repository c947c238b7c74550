use vstd::prelude::*;
use crate::lines::{first_index_of, is_first_at, lemma_first_unique};

verus! {

/// The position of the first `needle` in `haystack`, or `None` where there is none.
pub fn memchr<'a>(haystack: &'a [u8], needle: u8) -> (r: Option<usize>)
    ensures
        match r {
            Some(i) => first_index_of(haystack@, needle) == Some(i as int),
            None => first_index_of(haystack@, needle) is None,
        },
{
    if haystack.is_empty() {
        return None;
    }
    let mut index: usize = 0;
    while index < haystack.len()
        invariant
            index <= haystack@.len(),
            forall|j: int| 0 <= j < index ==> haystack@[j] != needle,
        decreases haystack@.len() - index,
    {
        if haystack[index] == needle {
            proof {
                assert(is_first_at(haystack@, needle, index as int));
                lemma_first_unique(haystack@, needle, index as int);
            }
            return Some(index);
        }
        index = index + 1;
    }
    None
}

} // verus!
