//! Brings the free-text release dates of a table into one comparable form.

use chrono::{Datelike, NaiveDate};
use vstd::prelude::*;

use crate::date::CanonicalDate;
use crate::text::{trim, trimmed, Padding};

verus! {

/// The date that chrono's `NaiveDate::parse_from_str` reads out of `text` under
/// the format string `layout`, or `None` where it reports an error.
pub uninterp spec fn parsed_date(text: Seq<char>, layout: Seq<char>) -> Option<CanonicalDate>;

/// Calls chrono's `NaiveDate::parse_from_str` and takes the year, month and day
/// out of the date it returns, with `Datelike::year`, `month` and `day`.
/// Trusted, not proved: the outcome depends on `text` and `layout` alone, and a
/// date that chrono returns exists in the calendar, with its year in chrono's
/// range.
#[verifier::external_body]
fn parse_with_layout(text: &str, layout: &str) -> (date: Option<CanonicalDate>)
    ensures
        date == parsed_date(text@, layout@),
        date matches Some(d) ==> d.is_valid(),
{
    match NaiveDate::parse_from_str(text, layout) {
        Ok(date) => Some(CanonicalDate { year: date.year(), month: date.month(), day: date.day() }),
        Err(_) => None,
    }
}

/// The accepted day-month-year layouts, in the order in which they are tried:
/// the day zero-padded, unpadded, and space-padded.
pub open spec fn layouts() -> Seq<Seq<char>> {
    seq!["%d %b, %Y"@, "%-d %b, %Y"@, "%e %b, %Y"@]
}

/// The first date among `attempts`, or the sentinel where there is none.
pub open spec fn first_parsed(attempts: Seq<Option<CanonicalDate>>) -> CanonicalDate
    decreases attempts.len(),
{
    if attempts.len() == 0 {
        CanonicalDate::sentinel()
    } else {
        match attempts.first() {
            Some(date) => date,
            None => first_parsed(attempts.drop_first()),
        }
    }
}

/// A raw date without the whitespace around it and, inside that, without the
/// quote characters that enclose it.
pub open spec fn stripped(raw: Seq<char>) -> Seq<char> {
    trimmed(trimmed(raw, Padding::Whitespace), Padding::Quotes)
}

/// The canonical date of a raw date: what the first layout that reads it makes
/// of it, and the sentinel where none does.
pub open spec fn normalized(raw: Seq<char>) -> CanonicalDate {
    first_parsed(layouts().map_values(|layout: Seq<char>| parsed_date(stripped(raw), layout)))
}

/// Picks the outcome of the first layout that read a date; the sentinel if none did.
pub fn settle(attempts: &Vec<Option<CanonicalDate>>) -> (date: CanonicalDate)
    ensures
        date == first_parsed(attempts@),
{
    let mut i: usize = 0;
    assert(attempts@.skip(0) == attempts@);
    while i < attempts.len()
        invariant
            i <= attempts.len(),
            first_parsed(attempts@) == first_parsed(attempts@.skip(i as int)),
        decreases attempts.len() - i,
    {
        if let Some(date) = attempts[i] {
            return date;
        }
        assert(attempts@.skip(i as int).drop_first() == attempts@.skip(i as int + 1));
        i += 1;
    }
    CanonicalDate::sentinel()
}

/// Converts a raw release date into its canonical date. Never fails: a text
/// that no layout reads becomes the sentinel.
pub fn normalize(raw: &str) -> (date: CanonicalDate)
    ensures
        date == normalized(raw@),
        date.is_valid(),
{
    let text = trim(trim(raw, Padding::Whitespace), Padding::Quotes);
    let mut attempts: Vec<Option<CanonicalDate>> = Vec::new();
    attempts.push(parse_with_layout(text, "%d %b, %Y"));
    attempts.push(parse_with_layout(text, "%-d %b, %Y"));
    attempts.push(parse_with_layout(text, "%e %b, %Y"));
    proof {
        let expected = layouts().map_values(
            |layout: Seq<char>| parsed_date(stripped(raw@), layout),
        );
        assert(attempts@ =~= expected);
        lemma_first_parsed_valid(attempts@);
    }
    settle(&attempts)
}

/// Where every date among `attempts` is valid, so is the one picked.
pub proof fn lemma_first_parsed_valid(attempts: Seq<Option<CanonicalDate>>)
    requires
        forall|i: int|
            0 <= i < attempts.len() && attempts[i] is Some ==> (
            #[trigger] attempts[i])->0.is_valid(),
    ensures
        first_parsed(attempts).is_valid(),
    decreases attempts.len(),
{
    if attempts.len() > 0 && attempts.first() is None {
        let rest = attempts.drop_first();
        assert forall|i: int| 0 <= i < rest.len() && rest[i] is Some implies (
        #[trigger] rest[i])->0.is_valid() by {
            assert(rest[i] == attempts[i + 1]);
        }
        lemma_first_parsed_valid(rest);
    }
}

} // verus!
