use scrapestore::serialize::{row_metric_bits, sort_rows_by_start, sorted_columns};
use scrapestore::values::{merge_values, Metric, ValuesReading, ValuesRow};

fn metric(name: &str, v: f64) -> Metric {
    Metric { name: String::from(name), bits: v.to_bits() }
}

fn reading(from: i64, to: i64, metrics: Vec<Metric>) -> ValuesReading {
    ValuesReading { delivery_from: from, delivery_to: to, metrics }
}

fn value_of(row: &ValuesRow, name: &str) -> Option<f64> {
    row_metric_bits(&row.cells, &String::from(name)).map(f64::from_bits)
}

#[test]
fn first_merge_creates_row_and_reports_change() {
    let mut rows: Vec<ValuesRow> = Vec::new();
    let incoming = vec![reading(1000, 2000, vec![metric("a", 1.0)])];
    let changed = merge_values(&mut rows, &incoming, 100);
    assert!(changed);
    assert_eq!(rows.len(), 1);
    assert_eq!(rows[0].start, 1000);
    assert_eq!(rows[0].end, 2000);
    assert_eq!(rows[0].scraped_at, 100);
    assert_eq!(value_of(&rows[0], "a"), Some(1.0));
}

#[test]
fn remerge_of_same_reading_changes_nothing() {
    let mut rows: Vec<ValuesRow> = Vec::new();
    let incoming = vec![reading(1000, 2000, vec![metric("a", 1.0), metric("b", -3.5)])];
    assert!(merge_values(&mut rows, &incoming, 100));
    let snapshot: Vec<(i64, i64, i64, Option<f64>, Option<f64>)> = rows
        .iter()
        .map(|r| (r.start, r.end, r.scraped_at, value_of(r, "a"), value_of(r, "b")))
        .collect();
    let changed = merge_values(&mut rows, &incoming, 999);
    assert!(!changed);
    let after: Vec<(i64, i64, i64, Option<f64>, Option<f64>)> = rows
        .iter()
        .map(|r| (r.start, r.end, r.scraped_at, value_of(r, "a"), value_of(r, "b")))
        .collect();
    assert_eq!(snapshot, after);
}

#[test]
fn values_compaction_keeps_one_row_per_interval() {
    let mut rows: Vec<ValuesRow> = Vec::new();
    assert!(merge_values(&mut rows, &vec![reading(1000, 2000, vec![metric("a", 1.0)])], 100));
    let changed = merge_values(
        &mut rows,
        &vec![reading(1000, 2000, vec![metric("a", 1.0), metric("b", 2.0)])],
        200,
    );
    assert!(changed, "the new column b must count as a change");
    assert_eq!(rows.len(), 1, "same interval compacts to a single row");
    assert_eq!(value_of(&rows[0], "a"), Some(1.0));
    assert_eq!(value_of(&rows[0], "b"), Some(2.0));
    assert_eq!(rows[0].scraped_at, 200, "the change instant is updated on the second merge");
}

#[test]
fn unchanged_metric_alone_does_not_update_row() {
    let mut rows: Vec<ValuesRow> = Vec::new();
    assert!(merge_values(&mut rows, &vec![reading(1000, 2000, vec![metric("a", 1.0)])], 100));
    let changed = merge_values(&mut rows, &vec![reading(1000, 2000, vec![metric("a", 1.0)])], 200);
    assert!(!changed);
    assert_eq!(rows[0].scraped_at, 100, "an unchanged value leaves the change instant alone");
}

#[test]
fn tolerance_ignores_representation_noise() {
    let mut rows: Vec<ValuesRow> = Vec::new();
    assert!(merge_values(&mut rows, &vec![reading(1000, 2000, vec![metric("a", 1.0)])], 100));
    // Differs by exactly one epsilon, not more: below the change threshold.
    let noisy = 1.0 + f64::EPSILON;
    let changed = merge_values(&mut rows, &vec![reading(1000, 2000, vec![metric("a", noisy)])], 200);
    assert!(!changed, "a difference within the tolerance is no change");
    // Differs by several epsilons: a real change.
    let moved = 1.0 + 4.0 * f64::EPSILON;
    let changed = merge_values(&mut rows, &vec![reading(1000, 2000, vec![metric("a", moved)])], 300);
    assert!(changed, "a difference above the tolerance is a change");
    assert_eq!(value_of(&rows[0], "a"), Some(moved));
}

#[test]
fn row_without_recorded_change_instant_is_not_restamped() {
    // A row read from a file without a change-instant column carries 0; an
    // incoming reading identical within tolerance leaves it untouched.
    let mut rows = vec![ValuesRow {
        start: 1000,
        end: 2000,
        scraped_at: 0,
        cells: vec![metric("a", 1.0)],
    }];
    let changed = merge_values(&mut rows, &vec![reading(1000, 2000, vec![metric("a", 1.0)])], 500);
    assert!(!changed);
    assert_eq!(rows[0].scraped_at, 0);
}

#[test]
fn metrics_absent_from_incoming_are_kept() {
    let mut rows: Vec<ValuesRow> = Vec::new();
    assert!(merge_values(
        &mut rows,
        &vec![reading(1000, 2000, vec![metric("a", 1.0), metric("b", 2.0)])],
        100,
    ));
    assert!(merge_values(&mut rows, &vec![reading(1000, 2000, vec![metric("b", 9.0)])], 200));
    assert_eq!(value_of(&rows[0], "a"), Some(1.0), "a is untouched, not cleared");
    assert_eq!(value_of(&rows[0], "b"), Some(9.0));
}

#[test]
fn empty_batch_changes_nothing() {
    let mut rows: Vec<ValuesRow> = Vec::new();
    assert!(merge_values(&mut rows, &vec![reading(1000, 2000, vec![metric("a", 1.0)])], 100));
    let changed = merge_values(&mut rows, &Vec::new(), 200);
    assert!(!changed);
    assert_eq!(rows.len(), 1);
}

#[test]
fn reading_with_no_metrics_still_creates_its_row() {
    let mut rows: Vec<ValuesRow> = Vec::new();
    let changed = merge_values(&mut rows, &vec![reading(1000, 2000, Vec::new())], 100);
    assert!(changed, "an unseen interval counts as a change even without metrics");
    assert_eq!(rows.len(), 1);
    assert_eq!(rows[0].scraped_at, 100);
    assert!(rows[0].cells.is_empty());
}

#[test]
fn columns_are_the_sorted_union_of_metric_names() {
    let mut rows: Vec<ValuesRow> = Vec::new();
    assert!(merge_values(
        &mut rows,
        &vec![
            reading(1000, 2000, vec![metric("price_max", 1.0)]),
            reading(3000, 4000, vec![metric("load", 2.0), metric("price_avg", 3.0)]),
        ],
        100,
    ));
    let cols = sorted_columns(&rows);
    let names: Vec<&str> = cols.iter().map(|c| c.as_str()).collect();
    assert_eq!(names, vec!["load", "price_avg", "price_max"]);
}

#[test]
fn rows_are_rewritten_sorted_by_start() {
    let mut rows: Vec<ValuesRow> = Vec::new();
    assert!(merge_values(
        &mut rows,
        &vec![
            reading(5000, 6000, vec![metric("a", 1.0)]),
            reading(1000, 2000, vec![metric("a", 2.0)]),
            reading(3000, 4000, vec![metric("a", 3.0)]),
        ],
        100,
    ));
    let sorted = sort_rows_by_start(rows);
    let starts: Vec<i64> = sorted.iter().map(|r| r.start).collect();
    assert_eq!(starts, vec![1000, 3000, 5000]);
}
