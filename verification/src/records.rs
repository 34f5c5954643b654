//! The rows of a release table, before and after their dates are normalized.

use vstd::prelude::*;

use crate::date::CanonicalDate;

verus! {

/// One row of a country's table, as stored: its release date is raw text.
#[derive(Debug, PartialEq, Eq)]
pub struct ReleaseRecord {
    pub name: String,
    pub release_date: String,
    pub link: String,
}

/// What a [`ReleaseRecord`] holds, as plain texts.
pub struct ReleaseView {
    pub name: Seq<char>,
    pub release_date: Seq<char>,
    pub link: Seq<char>,
}

impl View for ReleaseRecord {
    type V = ReleaseView;

    open spec fn view(&self) -> ReleaseView {
        ReleaseView { name: self.name@, release_date: self.release_date@, link: self.link@ }
    }
}

impl Clone for ReleaseRecord {
    fn clone(&self) -> (copy: Self)
        ensures
            copy@ == self@,
    {
        ReleaseRecord {
            name: self.name.clone(),
            release_date: self.release_date.clone(),
            link: self.link.clone(),
        }
    }
}

impl ReleaseRecord {
    /// A row with the given name, raw release date and link.
    pub fn new(name: &str, release_date: &str, link: &str) -> (record: ReleaseRecord)
        ensures
            record@ == (ReleaseView { name: name@, release_date: release_date@, link: link@ }),
    {
        ReleaseRecord {
            name: String::from_str(name),
            release_date: String::from_str(release_date),
            link: String::from_str(link),
        }
    }
}

/// A row whose release date is a canonical date.
#[derive(Debug, PartialEq, Eq)]
pub struct NormalizedRecord {
    pub name: String,
    pub release_date: CanonicalDate,
    pub link: String,
}

/// What a [`NormalizedRecord`] holds, as plain values.
pub struct NormalizedView {
    pub name: Seq<char>,
    pub release_date: CanonicalDate,
    pub link: Seq<char>,
}

impl View for NormalizedRecord {
    type V = NormalizedView;

    open spec fn view(&self) -> NormalizedView {
        NormalizedView { name: self.name@, release_date: self.release_date, link: self.link@ }
    }
}

impl Clone for NormalizedRecord {
    fn clone(&self) -> (copy: Self)
        ensures
            copy@ == self@,
    {
        NormalizedRecord {
            name: self.name.clone(),
            release_date: self.release_date,
            link: self.link.clone(),
        }
    }
}

/// What a sequence of stored rows holds.
pub open spec fn release_views(records: Seq<ReleaseRecord>) -> Seq<ReleaseView> {
    records.map_values(|record: ReleaseRecord| record@)
}

/// What a sequence of normalized rows holds.
pub open spec fn normalized_views(records: Seq<NormalizedRecord>) -> Seq<NormalizedView> {
    records.map_values(|record: NormalizedRecord| record@)
}

/// The first `limit` rows of `records`, or all of them where there are fewer.
pub open spec fn truncated(records: Seq<NormalizedView>, limit: nat) -> Seq<NormalizedView> {
    if limit < records.len() {
        records.take(limit as int)
    } else {
        records
    }
}

/// The rows of one country's table, in the order of the table.
#[derive(Debug, PartialEq, Eq)]
pub struct Dataset {
    pub records: Vec<ReleaseRecord>,
}

impl View for Dataset {
    type V = Seq<ReleaseView>;

    open spec fn view(&self) -> Seq<ReleaseView> {
        release_views(self.records@)
    }
}

impl Clone for Dataset {
    fn clone(&self) -> (copy: Self)
        ensures
            copy@ == self@,
    {
        let mut records: Vec<ReleaseRecord> = Vec::new();
        let mut i: usize = 0;
        while i < self.records.len()
            invariant
                i <= self.records.len(),
                release_views(records@) == release_views(self.records@).take(i as int),
            decreases self.records.len() - i,
        {
            let record = self.records[i].clone();
            proof {
                let all = release_views(self.records@);
                assert(all[i as int] == record@);
                assert(all.take(i as int + 1) =~= all.take(i as int).push(record@));
                assert(release_views(records@.push(record)) =~= release_views(records@).push(
                    record@,
                ));
            }
            records.push(record);
            i += 1;
        }
        proof {
            assert(release_views(self.records@).take(i as int) =~= release_views(self.records@));
        }
        Dataset { records }
    }
}

impl Dataset {
    /// The table with the given rows.
    pub fn new(records: Vec<ReleaseRecord>) -> (dataset: Dataset)
        ensures
            dataset.records == records,
    {
        Dataset { records }
    }

    /// The number of rows.
    pub fn len(&self) -> (count: usize)
        ensures
            count == self@.len(),
    {
        self.records.len()
    }
}

/// The answer to a query: normalized rows, ranked and cut to the requested number.
#[derive(Debug, PartialEq, Eq)]
pub struct QueryResult {
    pub records: Vec<NormalizedRecord>,
}

impl View for QueryResult {
    type V = Seq<NormalizedView>;

    open spec fn view(&self) -> Seq<NormalizedView> {
        normalized_views(self.records@)
    }
}

impl Clone for QueryResult {
    fn clone(&self) -> (copy: Self)
        ensures
            copy@ == self@,
    {
        let mut records: Vec<NormalizedRecord> = Vec::new();
        let mut i: usize = 0;
        while i < self.records.len()
            invariant
                i <= self.records.len(),
                normalized_views(records@) == normalized_views(self.records@).take(i as int),
            decreases self.records.len() - i,
        {
            let record = self.records[i].clone();
            proof {
                let all = normalized_views(self.records@);
                assert(all[i as int] == record@);
                assert(all.take(i as int + 1) =~= all.take(i as int).push(record@));
                assert(normalized_views(records@.push(record)) =~= normalized_views(
                    records@,
                ).push(record@));
            }
            records.push(record);
            i += 1;
        }
        proof {
            assert(normalized_views(self.records@).take(i as int) =~= normalized_views(
                self.records@,
            ));
        }
        QueryResult { records }
    }
}

impl QueryResult {
    /// The number of rows.
    pub fn len(&self) -> (count: usize)
        ensures
            count == self@.len(),
    {
        self.records.len()
    }

    /// Whether there is no row.
    pub fn is_empty(&self) -> (answer: bool)
        ensures
            answer == (self@.len() == 0),
    {
        self.records.len() == 0
    }
}

} // verus!
