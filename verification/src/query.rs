//! The query engine: normalizes a table's dates, leaves out the rows without a
//! date, ranks the rest from the most recent release down, filters them against
//! a reference date and keeps the first few.

use vstd::prelude::*;

use crate::date::CanonicalDate;
use crate::normalize::{normalize, normalized};
use crate::ranking::{
    announced, by_recency, descending, distinct_days, is_announced, lemma_by_recency_descending,
    lemma_by_recency_keeps_days_distinct, lemma_by_recency_permutes, lemma_by_recency_same_rows,
    lemma_strict_where_days_distinct, rank, strictly_descending,
};
use crate::records::{
    normalized_views, truncated, Dataset, NormalizedRecord, NormalizedView, QueryResult,
    ReleaseView,
};

verus! {

/// How a query relates release dates to the reference date.
#[derive(Clone, Copy, PartialEq, Eq, Structural, Debug)]
pub enum Mode {
    /// Releases strictly before the reference date.
    Past,
    /// Releases on the reference date or after it.
    Future,
    /// Every release.
    All,
}

impl Mode {
    /// Whether a release on `date` passes this mode's filter on `reference`.
    pub open spec fn includes(self, date: CanonicalDate, reference: CanonicalDate) -> bool {
        match self {
            Mode::Past => date.earlier_than(reference),
            Mode::Future => !date.earlier_than(reference),
            Mode::All => true,
        }
    }

    /// Whether a release on `date` passes this mode's filter on `reference`.
    pub fn accepts(&self, date: &CanonicalDate, reference: &CanonicalDate) -> (answer: bool)
        ensures
            answer == self.includes(*date, *reference),
    {
        match self {
            Mode::Past => date.precedes(reference),
            Mode::Future => !date.precedes(reference),
            Mode::All => true,
        }
    }
}

/// A stored row with its raw date replaced by the canonical date.
pub open spec fn normalized_record(record: ReleaseView) -> NormalizedView {
    NormalizedView {
        name: record.name,
        release_date: normalized(record.release_date),
        link: record.link,
    }
}

/// The rows of a table with their dates normalized, in the order of the table.
pub open spec fn normalized_records(records: Seq<ReleaseView>) -> Seq<NormalizedView> {
    records.map_values(|record: ReleaseView| normalized_record(record))
}

/// The rows of `ranked` that pass the filter of `mode` on `reference`, in their order.
pub open spec fn passing(
    ranked: Seq<NormalizedView>,
    mode: Mode,
    reference: CanonicalDate,
) -> Seq<NormalizedView> {
    ranked.filter(|record: NormalizedView| mode.includes(record.release_date, reference))
}

/// The answer to a query on a table: its dated rows from the most recent down,
/// filtered by `mode` against `reference`, the first `limit` of them.
pub open spec fn selected(
    records: Seq<ReleaseView>,
    mode: Mode,
    limit: nat,
    reference: CanonicalDate,
) -> Seq<NormalizedView> {
    truncated(passing(by_recency(announced(normalized_records(records))), mode, reference), limit)
}

/// Normalizes the date of every row of `dataset`, in the order of the table.
pub fn normalize_all(dataset: &Dataset) -> (records: Vec<NormalizedRecord>)
    ensures
        normalized_views(records@) == normalized_records(dataset@),
        forall|i: int| 0 <= i < records@.len() ==> (#[trigger] records@[i]).release_date.is_valid(),
{
    let mut records: Vec<NormalizedRecord> = Vec::new();
    let mut i: usize = 0;
    while i < dataset.records.len()
        invariant
            i <= dataset.records.len(),
            normalized_views(records@) == normalized_records(dataset@.take(i as int)),
            forall|k: int|
                0 <= k < records@.len() ==> (#[trigger] records@[k]).release_date.is_valid(),
        decreases dataset.records.len() - i,
    {
        let row = &dataset.records[i];
        let record = NormalizedRecord {
            name: row.name.clone(),
            release_date: normalize(row.release_date.as_str()),
            link: row.link.clone(),
        };
        proof {
            let seen = dataset@.take(i as int);
            let row_view = dataset@[i as int];
            assert(record@ == normalized_record(row_view));
            assert(dataset@.take(i as int + 1) =~= seen.push(row_view));
            assert(normalized_records(seen.push(row_view)) =~= normalized_records(seen).push(
                normalized_record(row_view),
            ));
            assert(normalized_views(records@.push(record)) =~= normalized_views(records@).push(
                record@,
            ));
        }
        records.push(record);
        i += 1;
    }
    assert(dataset@.take(i as int) == dataset@);
    records
}

/// Filtering the first rows of a ranking gives the first rows of the filtered ranking.
proof fn lemma_passing_prefix(
    ranked: Seq<NormalizedView>,
    mode: Mode,
    reference: CanonicalDate,
    seen: int,
)
    requires
        0 <= seen <= ranked.len(),
    ensures
        passing(ranked.take(seen), mode, reference).len() <= passing(
            ranked,
            mode,
            reference,
        ).len(),
        passing(ranked.take(seen), mode, reference) == passing(ranked, mode, reference).take(
            passing(ranked.take(seen), mode, reference).len() as int,
        ),
{
    let passes = |record: NormalizedView| mode.includes(record.release_date, reference);
    assert(ranked =~= ranked.take(seen) + ranked.skip(seen));
    Seq::filter_distributes_over_add(ranked.take(seen), ranked.skip(seen), passes);
    assert(ranked.take(seen).filter(passes) =~= ranked.filter(passes).take(
        ranked.take(seen).filter(passes).len() as int,
    ));
}

/// Filters a ranking by `mode` against `reference` and keeps its first `limit` rows.
pub fn select(
    ranked: &Vec<NormalizedRecord>,
    mode: Mode,
    limit: usize,
    reference: &CanonicalDate,
) -> (result: QueryResult)
    ensures
        result@ == truncated(
            passing(normalized_views(ranked@), mode, *reference),
            limit as nat,
        ),
{
    let ghost rows = normalized_views(ranked@);
    let mut chosen: Vec<NormalizedRecord> = Vec::new();
    let mut i: usize = 0;
    proof {
        reveal(Seq::filter);
        assert(rows.take(0).len() == 0);
        assert(normalized_views(chosen@) =~= passing(rows.take(0), mode, *reference));
    }
    while i < ranked.len() && chosen.len() < limit
        invariant
            i <= ranked.len(),
            chosen.len() <= limit,
            rows == normalized_views(ranked@),
            normalized_views(chosen@) == passing(rows.take(i as int), mode, *reference),
        decreases ranked.len() - i,
    {
        proof {
            assert(rows[i as int] == ranked@[i as int]@);
            assert(rows.take(i as int + 1) =~= rows.take(i as int).push(rows[i as int]));
            rows.take(i as int).lemma_filter_push(
                rows[i as int],
                |record: NormalizedView| mode.includes(record.release_date, *reference),
            );
        }
        if mode.accepts(&ranked[i].release_date, reference) {
            let record = ranked[i].clone();
            proof {
                assert(normalized_views(chosen@.push(record)) =~= normalized_views(chosen@).push(
                    record@,
                ));
            }
            chosen.push(record);
        }
        i += 1;
    }
    proof {
        lemma_passing_prefix(rows, mode, *reference, i as int);
        if i == ranked.len() {
            assert(rows.take(i as int) =~= rows);
        }
    }
    QueryResult { records: chosen }
}

/// Answers a query on `dataset`: its rows with a release date, from the most
/// recent release down, filtered by `mode` against `reference`, the first
/// `limit` of them. A table without such rows gives an empty answer.
pub fn query(dataset: &Dataset, mode: Mode, limit: usize, reference: CanonicalDate) -> (result:
    QueryResult)
    ensures
        result@ == selected(dataset@, mode, limit as nat, reference),
        result@.len() <= limit,
        result@.len() <= dataset@.len(),
        forall|i: int|
            0 <= i < result@.len() ==> (#[trigger] result@[i]).release_date
                != CanonicalDate::sentinel(),
        forall|i: int| 0 <= i < result@.len() ==> (#[trigger] result@[i]).release_date.is_valid(),
        forall|i: int|
            0 <= i < result@.len() ==> mode.includes(
                (#[trigger] result@[i]).release_date,
                reference,
            ),
        descending(result@),
        strictly_descending(result@) <==> distinct_days(result@),
        distinct_days(announced(normalized_records(dataset@))) ==> distinct_days(result@),
{
    let normalized = normalize_all(dataset);
    let ghost all = normalized_views(normalized@);
    let ranked = rank(normalized);
    let result = select(&ranked, mode, limit, &reference);
    proof {
        lemma_limit_respected(dataset@, mode, limit as nat, reference);
        lemma_sentinel_excluded(dataset@, mode, limit as nat, reference);
        lemma_results_pass_the_filter(dataset@, mode, limit as nat, reference);
        lemma_results_descend(dataset@, mode, limit as nat, reference);
        lemma_results_descend_strictly(dataset@, mode, limit as nat, reference);
        if distinct_days(announced(normalized_records(dataset@))) {
            lemma_results_keep_days_distinct(dataset@, mode, limit as nat, reference);
        }
        assert forall|i: int| 0 <= i < result@.len() implies (
        #[trigger] result@[i]).release_date.is_valid() by {
            lemma_results_from_table(dataset@, mode, limit as nat, reference, i);
            let k = choose|k: int| 0 <= k < all.len() && all[k] == result@[i];
            assert(all[k] == normalized@[k]@);
        }
    }
    result
}

/// Every row of a filtered ranking is a row of the ranking that passes the filter.
proof fn lemma_passing_rows(
    ranked: Seq<NormalizedView>,
    mode: Mode,
    reference: CanonicalDate,
    i: int,
)
    requires
        0 <= i < passing(ranked, mode, reference).len(),
    ensures
        ranked.contains(passing(ranked, mode, reference)[i]),
        mode.includes(passing(ranked, mode, reference)[i].release_date, reference),
{
    let passes = |record: NormalizedView| mode.includes(record.release_date, reference);
    let kept = ranked.filter(passes);
    ranked.lemma_filter_pred(passes, i);
    assert(kept.contains(kept[i]));
    ranked.lemma_filter_contains_rev(passes, kept[i]);
}

/// Every row of the rows with a date is a row that was given, and has a date.
proof fn lemma_announced_rows(records: Seq<NormalizedView>, i: int)
    requires
        0 <= i < announced(records).len(),
    ensures
        records.contains(announced(records)[i]),
        is_announced(announced(records)[i]),
{
    let dated = |record: NormalizedView| is_announced(record);
    let kept = records.filter(dated);
    records.lemma_filter_pred(dated, i);
    assert(kept.contains(kept[i]));
    records.lemma_filter_contains_rev(dated, kept[i]);
}

/// Leaving rows out keeps the others in descending order.
proof fn lemma_filter_keeps_descending(
    ranked: Seq<NormalizedView>,
    keep: spec_fn(NormalizedView) -> bool,
)
    requires
        descending(ranked),
    ensures
        descending(ranked.filter(keep)),
    decreases ranked.len(),
{
    reveal(Seq::filter);
    if ranked.len() > 0 {
        let rest = ranked.drop_last();
        let kept = rest.filter(keep);
        assert forall|i: int, j: int| 0 <= i < j < rest.len() implies !(
        #[trigger] rest[i]).release_date.earlier_than((#[trigger] rest[j]).release_date) by {
            assert(rest[i] == ranked[i] && rest[j] == ranked[j]);
        }
        lemma_filter_keeps_descending(rest, keep);
        if keep(ranked.last()) {
            let grown = kept.push(ranked.last());
            assert forall|i: int, j: int| 0 <= i < j < grown.len() implies !(
            #[trigger] grown[i]).release_date.earlier_than((#[trigger] grown[j]).release_date) by {
                if j < kept.len() {
                    assert(grown[i] == kept[i] && grown[j] == kept[j]);
                } else {
                    assert(kept.contains(kept[i]));
                    rest.lemma_filter_contains_rev(keep, kept[i]);
                    let m = choose|m: int| 0 <= m < rest.len() && rest[m] == kept[i];
                    assert(ranked[m] == grown[i]);
                    assert(ranked[ranked.len() - 1] == grown[j]);
                }
            }
        }
    }
}

/// Leaving rows out keeps the release dates of the others distinct.
proof fn lemma_filter_keeps_days_distinct(
    records: Seq<NormalizedView>,
    keep: spec_fn(NormalizedView) -> bool,
)
    requires
        distinct_days(records),
    ensures
        distinct_days(records.filter(keep)),
    decreases records.len(),
{
    reveal(Seq::filter);
    if records.len() > 0 {
        let rest = records.drop_last();
        let kept = rest.filter(keep);
        assert forall|i: int, j: int| 0 <= i < j < rest.len() implies (
        #[trigger] rest[i]).release_date != (#[trigger] rest[j]).release_date by {
            assert(rest[i] == records[i] && rest[j] == records[j]);
        }
        lemma_filter_keeps_days_distinct(rest, keep);
        if keep(records.last()) {
            let grown = kept.push(records.last());
            assert forall|i: int, j: int| 0 <= i < j < grown.len() implies (
            #[trigger] grown[i]).release_date != (#[trigger] grown[j]).release_date by {
                if j < kept.len() {
                    assert(grown[i] == kept[i] && grown[j] == kept[j]);
                } else {
                    assert(kept.contains(kept[i]));
                    rest.lemma_filter_contains_rev(keep, kept[i]);
                    let m = choose|m: int| 0 <= m < rest.len() && rest[m] == kept[i];
                    assert(records[m] == grown[i]);
                    assert(records[records.len() - 1] == grown[j]);
                }
            }
        }
    }
}

/// An answer never holds more rows than were asked for, nor more than the table has.
pub proof fn lemma_limit_respected(
    records: Seq<ReleaseView>,
    mode: Mode,
    limit: nat,
    reference: CanonicalDate,
)
    ensures
        selected(records, mode, limit, reference).len() <= limit,
        selected(records, mode, limit, reference).len() <= records.len(),
        records.len() == 0 ==> selected(records, mode, limit, reference).len() == 0,
{
    let all = normalized_records(records);
    let dated = announced(all);
    all.lemma_filter_len(|record: NormalizedView| is_announced(record));
    lemma_by_recency_permutes(dated);
    by_recency(dated).lemma_filter_len(
        |record: NormalizedView| mode.includes(record.release_date, reference),
    );
}

/// Every row of an answer is a row of the table, normalized.
pub proof fn lemma_results_from_table(
    records: Seq<ReleaseView>,
    mode: Mode,
    limit: nat,
    reference: CanonicalDate,
    i: int,
)
    requires
        0 <= i < selected(records, mode, limit, reference).len(),
    ensures
        normalized_records(records).contains(selected(records, mode, limit, reference)[i]),
        by_recency(announced(normalized_records(records))).contains(
            selected(records, mode, limit, reference)[i],
        ),
        announced(normalized_records(records)).contains(
            selected(records, mode, limit, reference)[i],
        ),
{
    let all = normalized_records(records);
    let dated = announced(all);
    let ranked = by_recency(dated);
    let kept = passing(ranked, mode, reference);
    let row = selected(records, mode, limit, reference)[i];
    assert(row == kept[i]);
    lemma_passing_rows(ranked, mode, reference, i);
    lemma_by_recency_same_rows(dated, row);
    let k = choose|k: int| 0 <= k < dated.len() && dated[k] == row;
    lemma_announced_rows(all, k);
}

/// No row with the sentinel for its date appears in an answer.
pub proof fn lemma_sentinel_excluded(
    records: Seq<ReleaseView>,
    mode: Mode,
    limit: nat,
    reference: CanonicalDate,
)
    ensures
        forall|i: int|
            0 <= i < selected(records, mode, limit, reference).len() ==> (#[trigger] selected(
                records,
                mode,
                limit,
                reference,
            )[i]).release_date != CanonicalDate::sentinel(),
{
    let all = normalized_records(records);
    let dated = announced(all);
    let result = selected(records, mode, limit, reference);
    assert forall|i: int| 0 <= i < result.len() implies (#[trigger] result[i]).release_date
        != CanonicalDate::sentinel() by {
        lemma_results_from_table(records, mode, limit, reference, i);
        let k = choose|k: int| 0 <= k < dated.len() && dated[k] == result[i];
        lemma_announced_rows(all, k);
    }
}

/// Every row of an answer passes the filter of the mode: in the mode `Past`
/// each release is strictly before the reference date, in the mode `Future`
/// none is.
pub proof fn lemma_results_pass_the_filter(
    records: Seq<ReleaseView>,
    mode: Mode,
    limit: nat,
    reference: CanonicalDate,
)
    ensures
        forall|i: int|
            0 <= i < selected(records, mode, limit, reference).len() ==> mode.includes(
                (#[trigger] selected(records, mode, limit, reference)[i]).release_date,
                reference,
            ),
{
    let ranked = by_recency(announced(normalized_records(records)));
    let kept = passing(ranked, mode, reference);
    let result = selected(records, mode, limit, reference);
    assert forall|i: int| 0 <= i < result.len() implies mode.includes(
        (#[trigger] result[i]).release_date,
        reference,
    ) by {
        assert(result[i] == kept[i]);
        lemma_passing_rows(ranked, mode, reference, i);
    }
}

/// In an answer no row is older than a row that follows it.
pub proof fn lemma_results_descend(
    records: Seq<ReleaseView>,
    mode: Mode,
    limit: nat,
    reference: CanonicalDate,
)
    ensures
        descending(selected(records, mode, limit, reference)),
{
    let ranked = by_recency(announced(normalized_records(records)));
    let kept = passing(ranked, mode, reference);
    let result = selected(records, mode, limit, reference);
    lemma_by_recency_descending(announced(normalized_records(records)));
    lemma_filter_keeps_descending(
        ranked,
        |record: NormalizedView| mode.includes(record.release_date, reference),
    );
    assert forall|i: int, j: int| 0 <= i < j < result.len() implies !(
    #[trigger] result[i]).release_date.earlier_than((#[trigger] result[j]).release_date) by {
        assert(result[i] == kept[i] && result[j] == kept[j]);
    }
}

/// Every row of an answer is strictly older than the rows before it, unless
/// two rows of the answer share a release date.
pub proof fn lemma_results_descend_strictly(
    records: Seq<ReleaseView>,
    mode: Mode,
    limit: nat,
    reference: CanonicalDate,
)
    ensures
        strictly_descending(selected(records, mode, limit, reference)) <==> distinct_days(
            selected(records, mode, limit, reference),
        ),
{
    lemma_results_descend(records, mode, limit, reference);
    lemma_strict_where_days_distinct(selected(records, mode, limit, reference));
}

/// Where no two dated rows of the table share a release date, no two rows of
/// an answer do.
pub proof fn lemma_results_keep_days_distinct(
    records: Seq<ReleaseView>,
    mode: Mode,
    limit: nat,
    reference: CanonicalDate,
)
    requires
        distinct_days(announced(normalized_records(records))),
    ensures
        distinct_days(selected(records, mode, limit, reference)),
{
    let ranked = by_recency(announced(normalized_records(records)));
    let kept = passing(ranked, mode, reference);
    let result = selected(records, mode, limit, reference);
    lemma_by_recency_keeps_days_distinct(announced(normalized_records(records)));
    lemma_filter_keeps_days_distinct(
        ranked,
        |record: NormalizedView| mode.includes(record.release_date, reference),
    );
    assert forall|i: int, j: int| 0 <= i < j < result.len() implies (
    #[trigger] result[i]).release_date != (#[trigger] result[j]).release_date by {
        assert(result[i] == kept[i] && result[j] == kept[j]);
    }
}

} // verus!
