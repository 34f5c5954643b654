//! The replies to the commands of the bot: what is said for a country, given
//! the text kept for it and the day on which the command is given.

use chrono::{Datelike, Utc};
use vstd::prelude::*;

use crate::date::CanonicalDate;
use crate::loader::{load, loaded, stored_text};
use crate::query::{query, selected, Mode};
use crate::render::{render, rendered};

verus! {

/// The reply to a request for the releases of `country`: the fixed message
/// where its table cannot be loaded, `no_data` where the query finds no
/// release, and the listing otherwise.
pub open spec fn reply(
    country: Seq<char>,
    stored: Option<Seq<char>>,
    mode: Mode,
    limit: nat,
    no_data: Seq<char>,
    today: CanonicalDate,
) -> Seq<char> {
    match loaded(country, stored) {
        Err(_) => "Error, country not found"@,
        Ok(records) => {
            let result = selected(records, mode, limit, today);
            if result.len() == 0 {
                no_data
            } else {
                rendered(result, country, limit)
            }
        },
    }
}

/// Answers a request for up to `limit` releases of `country` in the given
/// mode. `stored` is the text kept for the country, if any; `today` is the
/// reference date; `no_data` is said where no release is found.
pub fn respond(
    country: &str,
    stored: Option<&str>,
    mode: Mode,
    limit: usize,
    no_data: &str,
    today: CanonicalDate,
) -> (text: String)
    ensures
        text@ == reply(country@, stored_text(stored), mode, limit as nat, no_data@, today),
{
    match load(country, stored) {
        Err(_) => String::from_str("Error, country not found"),
        Ok(dataset) => {
            let result = query(&dataset, mode, limit, today);
            if result.is_empty() {
                String::from_str(no_data)
            } else {
                render(&result, country, limit)
            }
        },
    }
}

/// Reads the clock with chrono's `Utc::now` and takes the year, month and day
/// out of its date in UTC. Trusted, not proved: that day exists in the
/// calendar, with its year in chrono's range. Nothing is said of which day it
/// is.
#[verifier::external_body]
fn today_utc() -> (today: CanonicalDate)
    ensures
        today.is_valid(),
{
    let now = Utc::now().naive_utc().date();
    CanonicalDate { year: now.year(), month: now.month(), day: now.day() }
}

/// What is said where the five latest releases are asked for and none is found.
pub open spec fn no_data_of_five() -> Seq<char> {
    "Sorry, we don't have enough data :("@
}

/// What is said where the three latest releases are asked for and none is found.
pub open spec fn no_data_of_three() -> Seq<char> {
    "Sorry, we didn't find any games :("@
}

/// The reply to "the latest 5 releases of `country`" on the day `today`: its
/// five most recent releases before that day.
pub fn latest5_on(country: &str, stored: Option<&str>, today: CanonicalDate) -> (text: String)
    ensures
        text@ == reply(country@, stored_text(stored), Mode::Past, 5, no_data_of_five(), today),
{
    respond(country, stored, Mode::Past, 5, "Sorry, we don't have enough data :(", today)
}

/// The reply to "the latest 3 releases of `country`" on the day `today`: its
/// three most recent releases before that day.
pub fn latest3_on(country: &str, stored: Option<&str>, today: CanonicalDate) -> (text: String)
    ensures
        text@ == reply(country@, stored_text(stored), Mode::Past, 3, no_data_of_three(), today),
{
    respond(country, stored, Mode::Past, 3, "Sorry, we didn't find any games :(", today)
}

/// The reply to "the latest 5 releases of `country`" on the day that the
/// clock shows in UTC.
pub fn latest5(country: &str, stored: Option<&str>) -> (text: String)
    ensures
        exists|today: CanonicalDate| #[trigger]
            today.is_valid() && text@ == reply(
                country@,
                stored_text(stored),
                Mode::Past,
                5,
                no_data_of_five(),
                today,
            ),
{
    latest5_on(country, stored, today_utc())
}

/// The reply to "the latest 3 releases of `country`" on the day that the
/// clock shows in UTC.
pub fn latest3(country: &str, stored: Option<&str>) -> (text: String)
    ensures
        exists|today: CanonicalDate| #[trigger]
            today.is_valid() && text@ == reply(
                country@,
                stored_text(stored),
                Mode::Past,
                3,
                no_data_of_three(),
                today,
            ),
{
    latest3_on(country, stored, today_utc())
}

/// The reply to "the next 3 releases": upcoming releases are not ranked yet.
pub fn next3() -> (text: String)
    ensures
        text@ == "# MODS WEKOS, NOT IMPLEMENTED YET"@,
{
    String::from_str("# MODS WEKOS, NOT IMPLEMENTED YET")
}

/// The reply to "the next 5 releases": upcoming releases are not ranked yet.
pub fn next5() -> (text: String)
    ensures
        text@ == "# MODS WEKOS, NOT IMPLEMENTED YET"@,
{
    String::from_str("# MODS WEKOS, NOT IMPLEMENTED YET")
}

/// The reply to a ping.
pub fn ping() -> (text: String)
    ensures
        text@ == "# MODS WEKOS"@,
{
    String::from_str("# MODS WEKOS")
}

} // verus!
