use game_releases::date::CanonicalDate;
use game_releases::query::{normalize_all, query, select, Mode};
use game_releases::ranking::rank;
use game_releases::records::{Dataset, NormalizedRecord, QueryResult, ReleaseRecord};

fn date(year: i32, month: u32, day: u32) -> CanonicalDate {
    CanonicalDate::new(year, month, day).unwrap()
}

fn table(rows: &[(&str, &str)]) -> Dataset {
    Dataset::new(
        rows.iter()
            .map(|row| ReleaseRecord::new(row.0, row.1, &format!("link/{}", row.0)))
            .collect(),
    )
}

fn row(name: &str, release_date: CanonicalDate) -> NormalizedRecord {
    NormalizedRecord { name: name.to_string(), release_date, link: format!("link/{name}") }
}

fn names(result: &QueryResult) -> Vec<&str> {
    result.records.iter().map(|record| record.name.as_str()).collect()
}

fn dates(result: &QueryResult) -> Vec<CanonicalDate> {
    result.records.iter().map(|record| record.release_date).collect()
}

fn sample() -> Dataset {
    table(&[
        ("old", "05 May, 2001"),
        ("unannounced", "Coming soon"),
        ("newest", "01 Feb, 2030"),
        ("recent", "10 Mar, 2023"),
        ("today", "01 Jan, 2024"),
        ("empty", ""),
        ("older", "22 Dec, 2022"),
        ("collision", "01 Jan, 1980"),
        ("yesterday", "31 Dec, 2023"),
    ])
}

#[test]
fn three_rows_one_of_them_without_a_date_give_two_past_releases() {
    let dataset = table(&[("a", "10 Mar, 2023"), ("b", "01 Jan, 1980"), ("c", "22 Dec, 2022")]);
    let result = query(&dataset, Mode::Past, 5, date(2024, 1, 1));
    assert_eq!(result.len(), 2);
    assert_eq!(dates(&result), vec![date(2023, 3, 10), date(2022, 12, 22)]);
    assert_eq!(
        result,
        QueryResult { records: vec![row("a", date(2023, 3, 10)), row("c", date(2022, 12, 22))] }
    );
}

#[test]
fn a_table_without_rows_gives_an_empty_answer() {
    for mode in [Mode::Past, Mode::Future, Mode::All] {
        let result = query(&table(&[]), mode, 5, date(2024, 1, 1));
        assert!(result.is_empty());
        assert_eq!(result.len(), 0);
        assert_eq!(result, QueryResult { records: vec![] });
    }
}

#[test]
fn a_table_without_dated_rows_gives_an_empty_answer() {
    let dataset = table(&[("a", "Coming soon"), ("b", "01 Jan, 1980"), ("c", "")]);
    for mode in [Mode::Past, Mode::Future, Mode::All] {
        assert!(query(&dataset, mode, 5, date(2024, 1, 1)).is_empty());
    }
}

#[test]
fn past_keeps_what_is_strictly_before_the_reference() {
    let result = query(&sample(), Mode::Past, 10, date(2024, 1, 1));
    assert_eq!(names(&result), vec!["yesterday", "recent", "older", "old"]);
}

#[test]
fn future_keeps_the_reference_and_what_is_after_it() {
    let result = query(&sample(), Mode::Future, 10, date(2024, 1, 1));
    assert_eq!(names(&result), vec!["newest", "today"]);
}

#[test]
fn all_keeps_every_dated_row() {
    let result = query(&sample(), Mode::All, 10, date(2024, 1, 1));
    assert_eq!(names(&result), vec!["newest", "today", "yesterday", "recent", "older", "old"]);
}

#[test]
fn the_answer_holds_the_first_rows_up_to_the_limit() {
    let reference = date(2024, 1, 1);
    assert_eq!(names(&query(&sample(), Mode::Past, 3, reference)), vec!["yesterday", "recent",
        "older"]);
    assert_eq!(names(&query(&sample(), Mode::Past, 1, reference)), vec!["yesterday"]);
    assert_eq!(names(&query(&sample(), Mode::Past, 4, reference)).len(), 4);
    assert_eq!(names(&query(&sample(), Mode::Past, 5, reference)).len(), 4);
    assert_eq!(names(&query(&sample(), Mode::All, 5, reference)), vec!["newest", "today",
        "yesterday", "recent", "older"]);
    assert!(query(&sample(), Mode::Past, 0, reference).is_empty());
    assert_eq!(query(&sample(), Mode::All, usize::MAX, reference).len(), 6);
}

#[test]
fn no_answer_is_longer_than_its_limit() {
    for mode in [Mode::Past, Mode::Future, Mode::All] {
        for limit in 0..=8usize {
            let result = query(&sample(), mode, limit, date(2024, 1, 1));
            assert!(result.len() <= limit);
        }
    }
}

#[test]
fn no_answer_holds_the_sentinel() {
    for mode in [Mode::Past, Mode::Future, Mode::All] {
        for reference in [date(1970, 1, 1), date(1980, 1, 1), date(1980, 1, 2), date(2024, 1, 1)] {
            let result = query(&sample(), mode, 10, reference);
            assert!(dates(&result).iter().all(|day| *day != CanonicalDate::sentinel()));
            assert!(names(&result).iter().all(|name| *name != "collision"
                && *name != "unannounced" && *name != "empty"));
        }
    }
}

#[test]
fn past_answers_descend_strictly_and_stay_before_the_reference() {
    let reference = date(2024, 1, 1);
    let result = query(&sample(), Mode::Past, 10, reference);
    let days = dates(&result);
    assert!(days.iter().all(|day| day.precedes(&reference)));
    assert!(days.windows(2).all(|pair| pair[1].precedes(&pair[0])));
}

#[test]
fn rows_of_one_day_keep_the_order_of_the_table() {
    let dataset = table(&[
        ("first", "10 Mar, 2023"),
        ("early", "01 Jan, 2020"),
        ("second", "10 Mar, 2023"),
        ("late", "01 Jan, 2024"),
        ("third", "\"10 Mar, 2023\""),
    ]);
    let result = query(&dataset, Mode::All, 10, date(2024, 1, 1));
    assert_eq!(names(&result), vec!["late", "first", "second", "third", "early"]);
    let days = dates(&result);
    assert!(days.windows(2).all(|pair| !pair[0].precedes(&pair[1])));
    assert!(!days.windows(2).all(|pair| pair[1].precedes(&pair[0])));
    let cut = query(&dataset, Mode::All, 3, date(2024, 1, 1));
    assert_eq!(names(&cut), vec!["late", "first", "second"]);
}

#[test]
fn the_table_is_left_as_it_was() {
    let dataset = sample();
    let before = dataset.records.clone();
    let _ = query(&dataset, Mode::Past, 3, date(2024, 1, 1));
    assert_eq!(dataset.records, before);
}

#[test]
fn normalize_all_keeps_the_order_and_the_other_fields() {
    let dataset = table(&[("a", "10 Mar, 2023"), ("b", "soon"), ("c", " 5 Jan, 2024")]);
    assert_eq!(
        normalize_all(&dataset),
        vec![
            row("a", date(2023, 3, 10)),
            row("b", CanonicalDate::sentinel()),
            row("c", date(2024, 1, 5)),
        ]
    );
    assert_eq!(normalize_all(&table(&[])), vec![]);
}

#[test]
fn rank_orders_from_the_most_recent_down_and_drops_the_sentinel() {
    let rows = vec![
        row("a", date(2022, 12, 22)),
        row("b", CanonicalDate::sentinel()),
        row("c", date(2023, 3, 10)),
        row("d", date(2022, 12, 22)),
        row("e", date(2025, 1, 1)),
        row("f", date(1979, 12, 31)),
    ];
    assert_eq!(
        rank(rows),
        vec![
            row("e", date(2025, 1, 1)),
            row("c", date(2023, 3, 10)),
            row("a", date(2022, 12, 22)),
            row("d", date(2022, 12, 22)),
            row("f", date(1979, 12, 31)),
        ]
    );
    assert_eq!(rank(vec![]), vec![]);
    assert_eq!(rank(vec![row("b", CanonicalDate::sentinel())]), vec![]);
}

#[test]
fn select_filters_and_cuts_without_reordering() {
    let ranked = vec![
        row("e", date(2025, 1, 1)),
        row("c", date(2023, 3, 10)),
        row("a", date(2022, 12, 22)),
        row("f", date(1979, 12, 31)),
    ];
    let reference = date(2023, 3, 10);
    assert_eq!(
        select(&ranked, Mode::Past, 5, &reference).records,
        vec![row("a", date(2022, 12, 22)), row("f", date(1979, 12, 31))]
    );
    assert_eq!(
        select(&ranked, Mode::Past, 1, &reference).records,
        vec![row("a", date(2022, 12, 22))]
    );
    assert_eq!(
        select(&ranked, Mode::Future, 5, &reference).records,
        vec![row("e", date(2025, 1, 1)), row("c", date(2023, 3, 10))]
    );
    assert_eq!(select(&ranked, Mode::All, 3, &reference).records.len(), 3);
    assert_eq!(select(&ranked, Mode::All, 0, &reference).records, vec![]);
    assert_eq!(select(&vec![], Mode::All, 3, &reference).records, vec![]);
}

#[test]
fn modes_compare_against_the_reference() {
    let reference = date(2024, 1, 1);
    assert!(Mode::Past.accepts(&date(2023, 12, 31), &reference));
    assert!(!Mode::Past.accepts(&reference, &reference));
    assert!(!Mode::Past.accepts(&date(2024, 1, 2), &reference));
    assert!(!Mode::Future.accepts(&date(2023, 12, 31), &reference));
    assert!(Mode::Future.accepts(&reference, &reference));
    assert!(Mode::Future.accepts(&date(2024, 1, 2), &reference));
    assert!(Mode::All.accepts(&date(2023, 12, 31), &reference));
    assert!(Mode::All.accepts(&reference, &reference));
    assert!(Mode::All.accepts(&date(2024, 1, 2), &reference));
}

fn scattered(count: usize) -> Vec<NormalizedRecord> {
    let mut state: u64 = 0x2545F4914F6CDD1D;
    let mut rows = Vec::new();
    for i in 0..count {
        state ^= state << 13;
        state ^= state >> 7;
        state ^= state << 17;
        let year = 1978 + (state % 5) as i32;
        let month = 1 + ((state >> 8) % 3) as u32;
        let day = 1 + ((state >> 16) % 4) as u32;
        rows.push(row(&format!("row{i}"), date(year, month, day)));
    }
    rows
}

#[test]
fn rank_agrees_with_a_stable_sort_of_the_dated_rows() {
    for count in [0usize, 1, 2, 3, 4, 5, 7, 8, 9, 16, 17, 100, 1000] {
        let rows = scattered(count);
        let mut expected: Vec<NormalizedRecord> = rows
            .iter()
            .filter(|row| row.release_date != CanonicalDate::sentinel())
            .cloned()
            .collect();
        expected.sort_by(|a, b| {
            let a = (a.release_date.year, a.release_date.month, a.release_date.day);
            let b = (b.release_date.year, b.release_date.month, b.release_date.day);
            b.cmp(&a)
        });
        assert_eq!(rank(rows), expected);
    }
}

#[test]
fn rank_handles_a_long_table() {
    let rows = scattered(200_000);
    let dated = rows.iter().filter(|row| !row.release_date.is_sentinel()).count();
    let ranked = rank(rows);
    assert_eq!(ranked.len(), dated);
    assert!(ranked.windows(2).all(|pair| !pair[0].release_date.precedes(&pair[1].release_date)));
}

#[test]
fn rank_handles_tables_that_are_in_order_already() {
    let mut rows = Vec::new();
    for year in 0..3000 {
        rows.push(row(&format!("y{year}"), date(year, 6, 15)));
    }
    let mut descending = rows.clone();
    descending.reverse();
    assert_eq!(rank(rows), descending);
    assert_eq!(rank(descending.clone()), descending);
}

#[test]
fn copies_of_tables_and_answers_hold_the_same_rows() {
    let dataset = sample();
    assert_eq!(dataset.clone(), dataset);
    assert_eq!(dataset.clone().len(), 9);
    let result = query(&dataset, Mode::All, 4, date(2024, 1, 1));
    assert_eq!(result.clone(), result);
    assert_eq!(result.clone().len(), 4);
    let record = ReleaseRecord::new("a", "10 Mar, 2023", "l");
    assert_eq!(record.clone(), record);
    assert_eq!(record.name, "a");
    assert_eq!(record.release_date, "10 Mar, 2023");
    assert_eq!(record.link, "l");
}
