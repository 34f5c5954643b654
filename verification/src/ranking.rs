//! Ranking rows by release date, the most recent first.

use vstd::prelude::*;
use vstd::seq_lib::*;

use crate::date::CanonicalDate;
use crate::records::{normalized_views, NormalizedRecord, NormalizedView};

verus! {

/// Whether a row has a release date, that is, any date but the sentinel.
pub open spec fn is_announced(record: NormalizedView) -> bool {
    record.release_date != CanonicalDate::sentinel()
}

/// The rows that have a release date, in their order.
pub open spec fn announced(records: Seq<NormalizedView>) -> Seq<NormalizedView> {
    records.filter(|record: NormalizedView| is_announced(record))
}

/// Where a release on `date` enters a ranking: before the first row that is
/// older, and so after every row of the same day.
pub open spec fn insertion_point(ranked: Seq<NormalizedView>, date: CanonicalDate) -> int
    decreases ranked.len(),
{
    if ranked.len() == 0 || ranked.first().release_date.earlier_than(date) {
        0
    } else {
        1 + insertion_point(ranked.drop_first(), date)
    }
}

/// The rows from the most recent release down; rows of the same day keep the
/// order they came in.
pub open spec fn by_recency(records: Seq<NormalizedView>) -> Seq<NormalizedView>
    decreases records.len(),
{
    if records.len() == 0 {
        records
    } else {
        let ranked = by_recency(records.drop_last());
        ranked.insert(insertion_point(ranked, records.last().release_date), records.last())
    }
}

/// No row is older than a row that follows it.
pub open spec fn descending(records: Seq<NormalizedView>) -> bool {
    forall|i: int, j: int|
        0 <= i < j < records.len() ==> !(#[trigger] records[i]).release_date.earlier_than(
            (#[trigger] records[j]).release_date,
        )
}

/// Every row is older than the rows before it.
pub open spec fn strictly_descending(records: Seq<NormalizedView>) -> bool {
    forall|i: int, j: int|
        0 <= i < j < records.len() ==> (#[trigger] records[j]).release_date.earlier_than(
            (#[trigger] records[i]).release_date,
        )
}

/// The rows released on `day`, in their order.
pub open spec fn on_day(records: Seq<NormalizedView>, day: CanonicalDate) -> Seq<NormalizedView> {
    records.filter(|row: NormalizedView| row.release_date == day)
}

/// No two rows share a release date.
pub open spec fn distinct_days(records: Seq<NormalizedView>) -> bool {
    forall|i: int, j: int|
        0 <= i < j < records.len() ==> (#[trigger] records[i]).release_date != (
        #[trigger] records[j]).release_date
}

/// The insertion point lies inside the ranking or at its end; the rows before
/// it are not older than `date`, and the row at it is.
pub proof fn lemma_insertion_point(ranked: Seq<NormalizedView>, date: CanonicalDate)
    ensures
        0 <= insertion_point(ranked, date) <= ranked.len(),
        forall|k: int|
            0 <= k < insertion_point(ranked, date) ==> !(
            #[trigger] ranked[k]).release_date.earlier_than(date),
        insertion_point(ranked, date) < ranked.len() ==> ranked[insertion_point(
            ranked,
            date,
        )].release_date.earlier_than(date),
    decreases ranked.len(),
{
    if ranked.len() == 0 || ranked.first().release_date.earlier_than(date) {
    } else {
        let rest = ranked.drop_first();
        lemma_insertion_point(rest, date);
        assert forall|k: int| 0 <= k < insertion_point(ranked, date) implies !(
        #[trigger] ranked[k]).release_date.earlier_than(date) by {
            if k > 0 {
                assert(ranked[k] == rest[k - 1]);
            }
        }
        if insertion_point(ranked, date) < ranked.len() {
            assert(ranked[insertion_point(ranked, date)] == rest[insertion_point(rest, date)]);
        }
    }
}

/// Ranking rearranges the rows: it neither adds, drops nor changes one.
pub proof fn lemma_by_recency_permutes(records: Seq<NormalizedView>)
    ensures
        by_recency(records).to_multiset() == records.to_multiset(),
        by_recency(records).len() == records.len(),
    decreases records.len(),
{
    broadcast use group_to_multiset_ensures;

    if records.len() > 0 {
        let ranked = by_recency(records.drop_last());
        lemma_by_recency_permutes(records.drop_last());
        lemma_insertion_point(ranked, records.last().release_date);
        assert(records =~= records.drop_last().push(records.last()));
    }
}

/// A ranking holds exactly the rows it was given.
pub proof fn lemma_by_recency_same_rows(records: Seq<NormalizedView>, row: NormalizedView)
    ensures
        by_recency(records).contains(row) <==> records.contains(row),
{
    lemma_by_recency_permutes(records);
    to_multiset_contains(by_recency(records), row);
    to_multiset_contains(records, row);
}

/// In a ranking no row is older than a row that follows it.
pub proof fn lemma_by_recency_descending(records: Seq<NormalizedView>)
    ensures
        descending(by_recency(records)),
    decreases records.len(),
{
    if records.len() > 0 {
        let ranked = by_recency(records.drop_last());
        let date = records.last().release_date;
        let at = insertion_point(ranked, date);
        let grown = ranked.insert(at, records.last());
        lemma_by_recency_descending(records.drop_last());
        lemma_insertion_point(ranked, date);
        assert forall|i: int, j: int| 0 <= i < j < grown.len() implies !(
        #[trigger] grown[i]).release_date.earlier_than((#[trigger] grown[j]).release_date) by {
            if j < at {
                assert(grown[i] == ranked[i] && grown[j] == ranked[j]);
            } else if j == at {
                assert(grown[i] == ranked[i]);
            } else if i < at {
                assert(grown[i] == ranked[i] && grown[j] == ranked[j - 1]);
            } else if i == at {
                assert(grown[j] == ranked[j - 1]);
                if at < j - 1 {
                    assert(!ranked[at].release_date.earlier_than(ranked[j - 1].release_date));
                }
            } else {
                assert(grown[i] == ranked[i - 1] && grown[j] == ranked[j - 1]);
            }
        }
    }
}

/// Ranking rows of which no two share a release date gives such rows again.
pub proof fn lemma_by_recency_keeps_days_distinct(records: Seq<NormalizedView>)
    requires
        distinct_days(records),
    ensures
        distinct_days(by_recency(records)),
    decreases records.len(),
{
    if records.len() > 0 {
        let earlier = records.drop_last();
        let ranked = by_recency(earlier);
        let last = records.last();
        let at = insertion_point(ranked, last.release_date);
        let grown = ranked.insert(at, last);
        assert forall|i: int, j: int| 0 <= i < j < earlier.len() implies (
        #[trigger] earlier[i]).release_date != (#[trigger] earlier[j]).release_date by {
            assert(earlier[i] == records[i] && earlier[j] == records[j]);
        }
        lemma_by_recency_keeps_days_distinct(earlier);
        lemma_insertion_point(ranked, last.release_date);
        assert forall|k: int| 0 <= k < ranked.len() implies (
        #[trigger] ranked[k]).release_date != last.release_date by {
            lemma_by_recency_same_rows(earlier, ranked[k]);
            assert(ranked.contains(ranked[k]));
            let m = choose|m: int| 0 <= m < earlier.len() && earlier[m] == ranked[k];
            assert(records[m] == ranked[k]);
            assert(records[records.len() - 1] == last);
        }
        assert forall|i: int, j: int| 0 <= i < j < grown.len() implies (
        #[trigger] grown[i]).release_date != (#[trigger] grown[j]).release_date by {
            if i < at {
                assert(grown[i] == ranked[i]);
            } else if i > at {
                assert(grown[i] == ranked[i - 1]);
            }
            if j < at {
                assert(grown[j] == ranked[j]);
            } else if j > at {
                assert(grown[j] == ranked[j - 1]);
            }
        }
    }
}

/// The rows of one day stand in a ranking in the order they were given in.
/// With [`lemma_by_recency_descending`] this fixes the ranking.
pub proof fn lemma_by_recency_stable(records: Seq<NormalizedView>, day: CanonicalDate)
    ensures
        on_day(by_recency(records), day) == on_day(records, day),
    decreases records.len(),
{
    let that_day = |row: NormalizedView| row.release_date == day;
    if records.len() == 0 {
    } else {
        let earlier = records.drop_last();
        let ranked = by_recency(earlier);
        let last = records.last();
        let at = insertion_point(ranked, last.release_date);
        let grown = ranked.insert(at, last);
        lemma_by_recency_stable(earlier, day);
        lemma_by_recency_descending(earlier);
        lemma_insertion_point(ranked, last.release_date);
        let head = ranked.take(at);
        let tail = ranked.skip(at);
        assert(ranked =~= head + tail);
        assert(grown =~= head.push(last) + tail);
        Seq::filter_distributes_over_add(head, tail, that_day);
        Seq::filter_distributes_over_add(head.push(last), tail, that_day);
        head.lemma_filter_push(last, that_day);
        assert(records =~= earlier.push(last));
        earlier.lemma_filter_push(last, that_day);
        if that_day(last) {
            assert forall|k: int| 0 <= k < tail.len() implies !that_day(#[trigger] tail[k]) by {
                assert(tail[k] == ranked[at + k]);
                if k > 0 {
                    assert(!ranked[at].release_date.earlier_than(ranked[at + k].release_date));
                }
            }
            tail.lemma_all_neg_filter_empty(that_day);
            assert(tail.filter(that_day) =~= Seq::<NormalizedView>::empty());
            assert(grown.filter(that_day) =~= ranked.filter(that_day).push(last));
        }
    }
}

/// The rows of `day` in a sequence: those of its first row, if that is of the
/// day, and then those of the rest.
proof fn lemma_on_day_from_front(records: Seq<NormalizedView>, day: CanonicalDate)
    requires
        records.len() > 0,
    ensures
        on_day(records, day) == if records.first().release_date == day {
            seq![records.first()] + on_day(records.drop_first(), day)
        } else {
            on_day(records.drop_first(), day)
        },
{
    let that_day = |row: NormalizedView| row.release_date == day;
    assert(records =~= seq![records.first()] + records.drop_first());
    records.drop_first().lemma_filter_prepend(records.first(), that_day);
    assert(Seq::<NormalizedView>::empty() + on_day(records.drop_first(), day) =~= on_day(
        records.drop_first(),
        day,
    ));
}

/// A row of a sequence is among the rows of its day.
proof fn lemma_on_day_has(records: Seq<NormalizedView>, i: int)
    requires
        0 <= i < records.len(),
    ensures
        on_day(records, records[i].release_date).contains(records[i]),
{
    let day = records[i].release_date;
    records.lemma_filter_contains(|row: NormalizedView| row.release_date == day, i);
}

/// A row among the rows of a day is a row of the sequence, and of that day.
proof fn lemma_on_day_row(records: Seq<NormalizedView>, day: CanonicalDate, k: int) -> (i: int)
    requires
        0 <= k < on_day(records, day).len(),
    ensures
        0 <= i < records.len(),
        records[i] == on_day(records, day)[k],
        records[i].release_date == day,
{
    let that_day = |row: NormalizedView| row.release_date == day;
    let rows = on_day(records, day);
    records.lemma_filter_pred(that_day, k);
    assert(rows.contains(rows[k]));
    records.lemma_filter_contains_rev(that_day, rows[k]);
    choose|i: int| 0 <= i < records.len() && records[i] == rows[k]
}

/// Two sequences in descending order that hold the same rows for each day, in
/// the same order, are the same sequence.
proof fn lemma_descending_by_days(left: Seq<NormalizedView>, right: Seq<NormalizedView>)
    requires
        descending(left),
        descending(right),
        forall|day: CanonicalDate| #[trigger] on_day(left, day) == on_day(right, day),
    ensures
        left == right,
    decreases left.len(),
{
    if left.len() == 0 {
        if right.len() > 0 {
            lemma_on_day_has(right, 0);
            let day = right[0].release_date;
            assert(on_day(left, day) == on_day(right, day));
            reveal(Seq::filter);
            assert(on_day(left, day).len() == 0);
        }
        assert(left =~= right);
    } else if right.len() == 0 {
        lemma_on_day_has(left, 0);
        let day = left[0].release_date;
        assert(on_day(left, day) == on_day(right, day));
        reveal(Seq::filter);
        assert(on_day(right, day).len() == 0);
    } else {
        let first_day = left[0].release_date;
        let other_day = right[0].release_date;
        lemma_on_day_has(left, 0);
        lemma_on_day_has(right, 0);
        assert(on_day(left, first_day) == on_day(right, first_day));
        assert(on_day(left, other_day) == on_day(right, other_day));
        let in_right = choose|k: int|
            0 <= k < on_day(right, first_day).len() && on_day(right, first_day)[k] == left[0];
        let i = lemma_on_day_row(right, first_day, in_right);
        let in_left = choose|k: int|
            0 <= k < on_day(left, other_day).len() && on_day(left, other_day)[k] == right[0];
        let j = lemma_on_day_row(left, other_day, in_left);
        if i > 0 {
            assert(!right[0].release_date.earlier_than(right[i].release_date));
        }
        if j > 0 {
            assert(!left[0].release_date.earlier_than(left[j].release_date));
        }
        assert(first_day == other_day);
        lemma_on_day_from_front(left, first_day);
        lemma_on_day_from_front(right, first_day);
        assert(on_day(left, first_day)[0] == left[0]);
        assert(on_day(right, first_day)[0] == right[0]);
        assert(left[0] == right[0]);
        let left_rest = left.drop_first();
        let right_rest = right.drop_first();
        assert forall|day: CanonicalDate| #[trigger]
            on_day(left_rest, day) == on_day(right_rest, day) by {
            lemma_on_day_from_front(left, day);
            lemma_on_day_from_front(right, day);
            assert(on_day(left, day) == on_day(right, day));
            if left[0].release_date == day {
                let head = seq![left[0]];
                assert(on_day(left_rest, day) =~= (head + on_day(left_rest, day)).skip(1));
                assert(on_day(right_rest, day) =~= (head + on_day(right_rest, day)).skip(1));
            }
        }
        assert forall|a: int, b: int| 0 <= a < b < left_rest.len() implies !(
        #[trigger] left_rest[a]).release_date.earlier_than(
            (#[trigger] left_rest[b]).release_date,
        ) by {
            assert(left_rest[a] == left[a + 1] && left_rest[b] == left[b + 1]);
        }
        assert forall|a: int, b: int| 0 <= a < b < right_rest.len() implies !(
        #[trigger] right_rest[a]).release_date.earlier_than(
            (#[trigger] right_rest[b]).release_date,
        ) by {
            assert(right_rest[a] == right[a + 1] && right_rest[b] == right[b + 1]);
        }
        lemma_descending_by_days(left_rest, right_rest);
        assert(left =~= seq![left[0]] + left_rest);
        assert(right =~= seq![right[0]] + right_rest);
    }
}

/// The ranking of some rows is their only arrangement in descending order in
/// which the rows of each day stand in the order they were given in.
pub proof fn lemma_by_recency_unique(records: Seq<NormalizedView>, arranged: Seq<NormalizedView>)
    requires
        descending(arranged),
        forall|day: CanonicalDate| #[trigger] on_day(arranged, day) == on_day(records, day),
    ensures
        arranged == by_recency(records),
{
    lemma_by_recency_descending(records);
    assert forall|day: CanonicalDate| #[trigger]
        on_day(arranged, day) == on_day(by_recency(records), day) by {
        lemma_by_recency_stable(records, day);
        assert(on_day(arranged, day) == on_day(records, day));
    }
    lemma_descending_by_days(arranged, by_recency(records));
}

/// Rows in descending order are in strictly descending order exactly where no
/// two of them share a release date.
pub proof fn lemma_strict_where_days_distinct(records: Seq<NormalizedView>)
    requires
        descending(records),
    ensures
        strictly_descending(records) <==> distinct_days(records),
{
    if distinct_days(records) {
        assert forall|i: int, j: int| 0 <= i < j < records.len() implies (
        #[trigger] records[j]).release_date.earlier_than((#[trigger] records[i]).release_date) by {
            assert(!records[i].release_date.earlier_than(records[j].release_date));
            assert(records[i].release_date != records[j].release_date);
        }
    }
    if strictly_descending(records) {
        assert forall|i: int, j: int| 0 <= i < j < records.len() implies (
        #[trigger] records[i]).release_date != (#[trigger] records[j]).release_date by {
            assert(records[j].release_date.earlier_than(records[i].release_date));
        }
    }
}

/// Two rankings made one: row after row, the older of the two last rows goes
/// to the end; where both are of one day, the last row of `right` does.
pub open spec fn merged(left: Seq<NormalizedView>, right: Seq<NormalizedView>) -> Seq<
    NormalizedView,
>
    decreases left.len() + right.len(),
{
    if left.len() == 0 {
        right
    } else if right.len() == 0 {
        left
    } else if left.last().release_date.earlier_than(right.last().release_date) {
        merged(left.drop_last(), right).push(left.last())
    } else {
        merged(left, right.drop_last()).push(right.last())
    }
}

/// Without its last row a sequence in descending order is still in descending order.
proof fn lemma_drop_last_descending(records: Seq<NormalizedView>)
    requires
        descending(records),
        records.len() > 0,
    ensures
        descending(records.drop_last()),
{
    let rest = records.drop_last();
    assert forall|i: int, j: int| 0 <= i < j < rest.len() implies !(
    #[trigger] rest[i]).release_date.earlier_than((#[trigger] rest[j]).release_date) by {
        assert(rest[i] == records[i] && rest[j] == records[j]);
    }
}

/// Merging two rankings gives a ranking that holds the rows of both and no other.
proof fn lemma_merged_descending(left: Seq<NormalizedView>, right: Seq<NormalizedView>)
    requires
        descending(left),
        descending(right),
    ensures
        descending(merged(left, right)),
        merged(left, right).len() == left.len() + right.len(),
        forall|i: int|
            0 <= i < merged(left, right).len() ==> left.contains(
                #[trigger] merged(left, right)[i],
            ) || right.contains(merged(left, right)[i]),
    decreases left.len() + right.len(),
{
    let all = merged(left, right);
    if left.len() == 0 || right.len() == 0 {
        assert forall|i: int| 0 <= i < all.len() implies left.contains(#[trigger] all[i])
            || right.contains(all[i]) by {
            if left.len() == 0 {
                assert(right[i] == all[i]);
            } else {
                assert(left[i] == all[i]);
            }
        }
    } else {
        let from_left = left.last().release_date.earlier_than(right.last().release_date);
        let shorter_left = if from_left {
            left.drop_last()
        } else {
            left
        };
        let shorter_right = if from_left {
            right
        } else {
            right.drop_last()
        };
        let oldest = if from_left {
            left.last()
        } else {
            right.last()
        };
        let front = merged(shorter_left, shorter_right);
        if from_left {
            lemma_drop_last_descending(left);
        } else {
            lemma_drop_last_descending(right);
        }
        lemma_merged_descending(shorter_left, shorter_right);
        assert(all == front.push(oldest));
        assert forall|i: int| 0 <= i < front.len() implies left.contains(#[trigger] front[i])
            || right.contains(front[i]) by {
            if shorter_left.contains(front[i]) {
                let k = choose|k: int| 0 <= k < shorter_left.len() && shorter_left[k] == front[i];
                assert(left[k] == front[i]);
            } else {
                let k = choose|k: int|
                    0 <= k < shorter_right.len() && shorter_right[k] == front[i];
                assert(right[k] == front[i]);
            }
        }
        assert forall|i: int| 0 <= i < all.len() implies left.contains(#[trigger] all[i])
            || right.contains(all[i]) by {
            if i < front.len() {
                assert(all[i] == front[i]);
            } else if from_left {
                assert(left[left.len() - 1] == all[i]);
            } else {
                assert(right[right.len() - 1] == all[i]);
            }
        }
        assert forall|i: int, j: int| 0 <= i < j < all.len() implies !(
        #[trigger] all[i]).release_date.earlier_than((#[trigger] all[j]).release_date) by {
            assert(all[i] == front[i]);
            if j < front.len() {
                assert(all[j] == front[j]);
            } else {
                assert(left.contains(front[i]) || right.contains(front[i]));
                if left.contains(front[i]) {
                    let k = choose|k: int| 0 <= k < left.len() && left[k] == front[i];
                    if k < left.len() - 1 {
                        assert(!left[k].release_date.earlier_than(
                            left[left.len() - 1].release_date,
                        ));
                    }
                } else {
                    let k = choose|k: int| 0 <= k < right.len() && right[k] == front[i];
                    if k < right.len() - 1 {
                        assert(!right[k].release_date.earlier_than(
                            right[right.len() - 1].release_date,
                        ));
                    }
                }
            }
        }
    }
}

/// In the merge of two rankings the rows of one day are those of `left`, then
/// those of `right`.
proof fn lemma_merged_on_day(
    left: Seq<NormalizedView>,
    right: Seq<NormalizedView>,
    day: CanonicalDate,
)
    requires
        descending(left),
        descending(right),
    ensures
        on_day(merged(left, right), day) == on_day(left, day) + on_day(right, day),
    decreases left.len() + right.len(),
{
    let that_day = |row: NormalizedView| row.release_date == day;
    if left.len() == 0 {
        reveal(Seq::filter);
        assert(on_day(left, day) + on_day(right, day) =~= on_day(right, day));
    } else if right.len() == 0 {
        reveal(Seq::filter);
        assert(on_day(left, day) + on_day(right, day) =~= on_day(left, day));
    } else if left.last().release_date.earlier_than(right.last().release_date) {
        let rest = left.drop_last();
        lemma_drop_last_descending(left);
        lemma_merged_on_day(rest, right, day);
        merged(rest, right).lemma_filter_push(left.last(), that_day);
        assert(left =~= rest.push(left.last()));
        rest.lemma_filter_push(left.last(), that_day);
        if that_day(left.last()) {
            assert forall|k: int| 0 <= k < right.len() implies !that_day(#[trigger] right[k]) by {
                if k < right.len() - 1 {
                    assert(!right[k].release_date.earlier_than(
                        right[right.len() - 1].release_date,
                    ));
                }
            }
            right.lemma_all_neg_filter_empty(that_day);
            assert(on_day(right, day) =~= Seq::<NormalizedView>::empty());
            assert(on_day(merged(left, right), day) =~= on_day(left, day) + on_day(right, day));
        }
    } else {
        let rest = right.drop_last();
        lemma_drop_last_descending(right);
        lemma_merged_on_day(left, rest, day);
        merged(left, rest).lemma_filter_push(right.last(), that_day);
        assert(right =~= rest.push(right.last()));
        rest.lemma_filter_push(right.last(), that_day);
        assert(on_day(merged(left, right), day) =~= on_day(left, day) + on_day(right, day));
    }
}

/// Merging the rankings of two runs of rows gives the ranking of the two runs
/// put together.
pub proof fn lemma_merged_rankings(left: Seq<NormalizedView>, right: Seq<NormalizedView>)
    ensures
        merged(by_recency(left), by_recency(right)) == by_recency(left + right),
{
    let all = merged(by_recency(left), by_recency(right));
    lemma_by_recency_descending(left);
    lemma_by_recency_descending(right);
    lemma_merged_descending(by_recency(left), by_recency(right));
    assert forall|day: CanonicalDate| #[trigger] on_day(all, day) == on_day(left + right, day) by {
        lemma_merged_on_day(by_recency(left), by_recency(right), day);
        lemma_by_recency_stable(left, day);
        lemma_by_recency_stable(right, day);
        Seq::filter_distributes_over_add(
            left,
            right,
            |row: NormalizedView| row.release_date == day,
        );
    }
    lemma_by_recency_unique(left + right, all);
}

/// Merges two rankings into one.
fn merge(left: Vec<NormalizedRecord>, right: Vec<NormalizedRecord>) -> (all: Vec<NormalizedRecord>)
    ensures
        normalized_views(all@) == merged(normalized_views(left@), normalized_views(right@)),
{
    let ghost wanted = merged(normalized_views(left@), normalized_views(right@));
    let mut left = left;
    let mut right = right;
    let mut oldest: Vec<NormalizedRecord> = Vec::new();
    proof {
        assert(wanted =~= wanted + normalized_views(oldest@).reverse());
    }
    while left.len() > 0 && right.len() > 0
        invariant
            wanted == merged(normalized_views(left@), normalized_views(right@)) + normalized_views(
                oldest@,
            ).reverse(),
        decreases left.len() + right.len(),
    {
        let ghost found = normalized_views(oldest@);
        let ghost before_left = normalized_views(left@);
        let ghost before_right = normalized_views(right@);
        let from_left = left[left.len() - 1].release_date.precedes(
            &right[right.len() - 1].release_date,
        );
        proof {
            assert(before_left.last() == left@[left@.len() - 1]@);
            assert(before_right.last() == right@[right@.len() - 1]@);
        }
        let row = if from_left {
            left.pop().unwrap()
        } else {
            right.pop().unwrap()
        };
        proof {
            if from_left {
                assert(normalized_views(left@) =~= before_left.drop_last());
            } else {
                assert(normalized_views(right@) =~= before_right.drop_last());
            }
            let front = merged(normalized_views(left@), normalized_views(right@));
            assert(normalized_views(oldest@.push(row)) =~= found.push(row@));
            assert(front.push(row@) + found.reverse() =~= front + found.push(row@).reverse());
        }
        oldest.push(row);
    }
    let mut all = if left.len() == 0 {
        right
    } else {
        left
    };
    while oldest.len() > 0
        invariant
            wanted == normalized_views(all@) + normalized_views(oldest@).reverse(),
        decreases oldest.len(),
    {
        let ghost found = normalized_views(oldest@);
        let ghost front = normalized_views(all@);
        let row = oldest.pop().unwrap();
        proof {
            assert(found.last() == row@);
            assert(normalized_views(oldest@) =~= found.drop_last());
            assert(normalized_views(all@.push(row)) =~= front.push(row@));
            assert(front + found.reverse() =~= front.push(row@) + found.drop_last().reverse());
        }
        all.push(row);
    }
    proof {
        assert(wanted =~= normalized_views(all@));
    }
    all
}

/// Ranks rows from the most recent release down.
fn sort(records: Vec<NormalizedRecord>) -> (ranked: Vec<NormalizedRecord>)
    ensures
        normalized_views(ranked@) == by_recency(normalized_views(records@)),
    decreases records@.len(),
{
    let ghost given = normalized_views(records@);
    if records.len() <= 1 {
        proof {
            if given.len() == 1 {
                assert(by_recency(given.drop_last()) =~= Seq::<NormalizedView>::empty());
                assert(by_recency(given) =~= given);
            }
        }
        return records;
    }
    let mut front = records;
    let middle: usize = front.len() / 2;
    let back = front.split_off(middle);
    proof {
        assert(given =~= normalized_views(front@) + normalized_views(back@));
        lemma_merged_rankings(normalized_views(front@), normalized_views(back@));
    }
    let front = sort(front);
    let back = sort(back);
    merge(front, back)
}

/// Ranks the rows that have a release date from the most recent release down.
pub fn rank(records: Vec<NormalizedRecord>) -> (ranked: Vec<NormalizedRecord>)
    ensures
        normalized_views(ranked@) == by_recency(announced(normalized_views(records@))),
{
    let ghost given = normalized_views(records@);
    let mut dated: Vec<NormalizedRecord> = Vec::new();
    proof {
        reveal(Seq::filter);
        assert(given.take(0).len() == 0);
        assert(normalized_views(dated@) =~= announced(given.take(0)));
    }
    for record in it: records
        invariant
            it.seq() == records@,
            given == normalized_views(records@),
            normalized_views(dated@) == announced(given.take(it.index() as int)),
    {
        proof {
            let seen = given.take(it.index() as int);
            assert(given[it.index() as int] == record@);
            assert(given.take(it.index() as int + 1) =~= seen.push(record@));
            seen.lemma_filter_push(record@, |record: NormalizedView| is_announced(record));
            assert(normalized_views(dated@.push(record)) =~= normalized_views(dated@).push(
                record@,
            ));
        }
        if !record.release_date.is_sentinel() {
            dated.push(record);
        }
    }
    proof {
        assert(given.take(records@.len() as int) =~= given);
    }
    sort(dated)
}

} // verus!
