//! The languages that a recognizer is given.

use vstd::prelude::*;
use crate::text::texts;

verus! {

/// The languages to use where the caller names none.
pub open spec fn default_langs() -> Seq<Seq<char>> {
    seq!["en-US"@]
}

/// The languages that a recognizer is given.
pub open spec fn resolved(preferred: Seq<Seq<char>>) -> Seq<Seq<char>> {
    if preferred.len() == 0 {
        default_langs()
    } else {
        preferred
    }
}

/// The languages that a recognizer is given: those of the caller, or American
/// English where there are none.
pub fn resolve_langs(preferred: Vec<String>) -> (r: Vec<String>)
    ensures
        texts(r@) == resolved(texts(preferred@)),
        r@.len() > 0,
{
    if preferred.len() == 0 {
        let mut r: Vec<String> = Vec::new();
        r.push("en-US".to_owned());
        assert(texts(r@) =~= default_langs());
        r
    } else {
        preferred
    }
}

/// A recognizer is always given a language, and languages that the caller
/// names are left as they are.
pub proof fn law_there_is_always_a_language(preferred: Seq<Seq<char>>)
    ensures
        resolved(preferred).len() > 0,
        preferred.len() > 0 ==> resolved(preferred) == preferred,
        resolved(resolved(preferred)) == resolved(preferred),
{
}

/// The language of a caller who names none is American English, and that alone.
pub proof fn law_american_english_is_the_default(preferred: Seq<Seq<char>>)
    requires
        preferred.len() == 0,
    ensures
        resolved(preferred).len() == 1,
        resolved(preferred)[0] == "en-US"@,
        resolved(preferred) == default_langs(),
{
}

} // verus!
