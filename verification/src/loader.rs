//! Loading a country's table: which keys name a table, where a table is kept,
//! and what loading gives for a key and the text that is kept for it.

use vstd::prelude::*;

use crate::records::{Dataset, ReleaseView};
use crate::table::{parse_table, table_of};
use crate::text::chars_of;

verus! {

/// Why a table could not be loaded.
#[derive(Clone, Copy, PartialEq, Eq, Structural, Debug)]
pub enum LoadError {
    /// There is no table for the key.
    NotFound,
    /// There is a stored text for the key, but it is no table.
    Malformed,
}

/// Whether `c` may stand in a country key: an ASCII letter or digit, `_` or `-`.
pub open spec fn is_key_char(c: char) -> bool {
    let code = c as u32;
    ||| 0x30 <= code <= 0x39
    ||| 0x41 <= code <= 0x5A
    ||| 0x61 <= code <= 0x7A
    ||| c == '_'
    ||| c == '-'
}

/// Whether `key` may name a table: it is not empty and holds only characters
/// that may stand in a key.
pub open spec fn is_key(key: Seq<char>) -> bool {
    &&& key.len() > 0
    &&& forall|i: int| 0 <= i < key.len() ==> is_key_char(#[trigger] key[i])
}

/// Where the table of `key` is kept.
pub open spec fn location_of(key: Seq<char>) -> Seq<char> {
    "../export/"@ + key + ".csv"@
}

/// A key that may name a table holds nothing that could lead out of the
/// directory of the tables: no dot, no slash, no backslash and no colon.
pub proof fn lemma_key_stays_in_place(key: Seq<char>)
    requires
        is_key(key),
    ensures
        forall|i: int|
            0 <= i < key.len() ==> (#[trigger] key[i]) != '.' && key[i] != '/' && key[i] != '\\'
                && key[i] != ':',
{
    assert forall|i: int| 0 <= i < key.len() implies (#[trigger] key[i]) != '.' && key[i] != '/'
        && key[i] != '\\' && key[i] != ':' by {
        assert(is_key_char(key[i]));
    }
}

/// Whether `key` may name a table.
pub fn is_valid_key(key: &str) -> (answer: bool)
    ensures
        answer == is_key(key@),
{
    let chars = chars_of(key);
    if chars.len() == 0 {
        return false;
    }
    let mut i: usize = 0;
    while i < chars.len()
        invariant
            i <= chars.len(),
            chars@ == key@,
            forall|k: int| 0 <= k < i ==> is_key_char(#[trigger] key@[k]),
        decreases chars.len() - i,
    {
        let c = chars[i];
        let code: u32 = c as u32;
        let allowed = (0x30 <= code && code <= 0x39) || (0x41 <= code && code <= 0x5A) || (0x61
            <= code && code <= 0x7A) || c == '_' || c == '-';
        if !allowed {
            assert(!is_key_char(key@[i as int]));
            return false;
        }
        i += 1;
    }
    true
}

/// Where the table of `key` is kept; nowhere, if `key` may not name a table.
pub fn dataset_location(key: &str) -> (location: Option<String>)
    ensures
        is_key(key@) ==> location is Some && location->0@ == location_of(key@),
        !is_key(key@) ==> location is None,
{
    if is_valid_key(key) {
        let mut location = String::from_str("../export/");
        location.append(key);
        location.append(".csv");
        Some(location)
    } else {
        None
    }
}

/// What loading the table of `key` gives, where `stored` is the text kept for
/// the key, if any.
pub open spec fn loaded(key: Seq<char>, stored: Option<Seq<char>>) -> Result<
    Seq<ReleaseView>,
    LoadError,
> {
    if !is_key(key) {
        Err(LoadError::NotFound)
    } else {
        match stored {
            None => Err(LoadError::NotFound),
            Some(text) => table_of(text),
        }
    }
}

/// The text that is kept for a key, if any, as characters.
pub open spec fn stored_text(stored: Option<&str>) -> Option<Seq<char>> {
    match stored {
        Some(text) => Some(text@),
        None => None,
    }
}

/// What the outcome of loading holds.
pub open spec fn outcome_view(outcome: Result<Dataset, LoadError>) -> Result<
    Seq<ReleaseView>,
    LoadError,
> {
    match outcome {
        Ok(dataset) => Ok(dataset@),
        Err(error) => Err(error),
    }
}

/// Loads the table of `country_key`, where `stored` is the text that is kept
/// at the place of that key, if there is one. A key that may not name a table
/// has no table, whatever is stored.
pub fn load(country_key: &str, stored: Option<&str>) -> (outcome: Result<Dataset, LoadError>)
    ensures
        outcome_view(outcome) == loaded(country_key@, stored_text(stored)),
{
    if !is_valid_key(country_key) {
        return Err(LoadError::NotFound);
    }
    match stored {
        None => Err(LoadError::NotFound),
        Some(text) => parse_table(text),
    }
}

} // verus!
