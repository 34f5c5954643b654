//! Renders an answer as a block of text, one entry per release.

use vstd::prelude::*;

use crate::records::{truncated, NormalizedRecord, NormalizedView, QueryResult};
use crate::text::{trim, trimmed, Padding};

verus! {

/// The line that names the country, and the empty line after it.
pub open spec fn heading(country: Seq<char>) -> Seq<char> {
    "## 🎮 Latest Games from: "@ + country + "\n\n"@
}

/// The entry of one release: its name, its release date and its link in angle
/// brackets, each on a line of its own, and an empty line. The name and the
/// link stand without the quote characters around them.
pub open spec fn entry(record: NormalizedView) -> Seq<char> {
    "🎯 **"@ + trimmed(record.name, Padding::Quotes) + "**\n"@ + "📅 Released: "@
        + record.release_date.iso_text() + "\n"@ + "🔗 <"@ + trimmed(record.link, Padding::Quotes)
        + ">\n"@ + "\n"@
}

/// The entries of `records`, one after the other.
pub open spec fn entries(records: Seq<NormalizedView>) -> Seq<char>
    decreases records.len(),
{
    if records.len() == 0 {
        Seq::empty()
    } else {
        entries(records.drop_last()) + entry(records.last())
    }
}

/// The listing of an answer: the heading, then the entries of its first
/// `limit` rows.
pub open spec fn rendered(result: Seq<NormalizedView>, country: Seq<char>, limit: nat) -> Seq<
    char,
> {
    heading(country) + entries(truncated(result, limit))
}

/// Writes the entry of one release at the end of `text`.
pub fn push_entry(text: &mut String, record: &NormalizedRecord)
    ensures
        final(text)@ == old(text)@ + entry(record@),
{
    let date = record.release_date.to_iso_text();
    text.append("🎯 **");
    text.append(trim(record.name.as_str(), Padding::Quotes));
    text.append("**\n");
    text.append("📅 Released: ");
    text.append(date.as_str());
    text.append("\n");
    text.append("🔗 <");
    text.append(trim(record.link.as_str(), Padding::Quotes));
    text.append(">\n");
    text.append("\n");
    proof {
        assert(text@ =~= old(text)@ + entry(record@));
    }
}

/// Renders the first `limit` rows of `result` under a heading that names
/// `country`. An empty answer gives the heading alone.
pub fn render(result: &QueryResult, country: &str, limit: usize) -> (text: String)
    ensures
        text@ == rendered(result@, country@, limit as nat),
{
    let mut text = String::new();
    text.append("## 🎮 Latest Games from: ");
    text.append(country);
    text.append("\n\n");
    let shown: usize = if limit < result.records.len() {
        limit
    } else {
        result.records.len()
    };
    let ghost rows = truncated(result@, limit as nat);
    let mut i: usize = 0;
    proof {
        assert(text@ =~= heading(country@) + entries(rows.take(0)));
    }
    while i < shown
        invariant
            i <= shown,
            shown == rows.len(),
            shown <= result.records.len(),
            rows == truncated(result@, limit as nat),
            text@ == heading(country@) + entries(rows.take(i as int)),
        decreases shown - i,
    {
        proof {
            assert(rows[i as int] == result.records@[i as int]@);
            assert(rows.take(i as int + 1).drop_last() =~= rows.take(i as int));
            assert(rows.take(i as int + 1).last() == rows[i as int]);
        }
        push_entry(&mut text, &result.records[i]);
        proof {
            assert(text@ =~= heading(country@) + entries(rows.take(i as int + 1)));
        }
        i += 1;
    }
    proof {
        assert(rows.take(i as int) =~= rows);
    }
    text
}

/// Rendering is a function of what the answer holds: two renderings of the
/// same rows under the same country and limit are the same text.
pub proof fn lemma_render_repeatable(
    result: Seq<NormalizedView>,
    country: Seq<char>,
    limit: nat,
    first: Seq<char>,
    second: Seq<char>,
)
    requires
        first == rendered(result, country, limit),
        second == rendered(result, country, limit),
    ensures
        first == second,
{
}

} // verus!
