//! Queries: the words a user searches for.

use vstd::prelude::*;
use crate::results::texts;
use crate::text::{lowercase, to_lower};

verus! {

/// How many results a query answers with at most.
pub const RESULT_LIMIT: usize = 10;

/// The terms to look up for a query of `words`: each word in lower case, in
/// order; `None` for a query without words.
pub fn normalize_query(words: &Vec<String>) -> (r: Option<Vec<String>>)
    ensures
        r is None <==> words@.len() == 0,
        r matches Some(terms) ==> texts(terms@) == texts(words@).map_values(
            |w: Seq<char>| lowercase(w),
        ),
{
    if words.len() == 0 {
        return None;
    }
    let mut terms: Vec<String> = Vec::new();
    let mut i: usize = 0;
    while i < words.len()
        invariant
            i <= words.len(),
            texts(terms@) =~= texts(words@).map_values(|w: Seq<char>| lowercase(w)).take(i as int),
        decreases words.len() - i,
    {
        let ghost before = texts(terms@);
        terms.push(to_lower(words[i].as_str()));
        assert(texts(terms@) =~= before.push(lowercase(words@[i as int]@)));
        assert(texts(words@)[i as int] == words@[i as int]@);
        i = i + 1;
    }
    Some(terms)
}

} // verus!
