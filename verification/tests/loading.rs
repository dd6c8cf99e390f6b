use flood_reports::regional::build_regional_summary;
use flood_reports::reports::generate_reports;
use flood_reports::store::{LoadReport, RecordStore};

fn headers() -> Vec<String> {
    vec![
        "FundingYear".to_string(),
        "Region".to_string(),
        "MainIsland".to_string(),
        "Contractor".to_string(),
        "ApprovedBudgetForContract".to_string(),
        "ContractCost".to_string(),
        "StartDate".to_string(),
        "ActualCompletionDate".to_string(),
    ]
}

fn row(
    year: &str,
    region: &str,
    island: &str,
    contractor: &str,
    budget: &str,
    cost: &str,
    start: &str,
    completion: &str,
) -> Option<Vec<String>> {
    Some(vec![
        year.to_string(),
        region.to_string(),
        island.to_string(),
        contractor.to_string(),
        budget.to_string(),
        cost.to_string(),
        start.to_string(),
        completion.to_string(),
    ])
}

#[test]
fn clean_load_counts_every_row() {
    let mut store = RecordStore::new();
    let rows = vec![
        row("2021", "R1", "Luzon", "C", "100", "80", "2021-01-01", "2021-01-11"),
        row("2022", "R1", "Luzon", "C", "100", "90", "2022-01-01", "2022-02-10"),
        row("2023", "R1", "Luzon", "C", "100", "70", "2023-01-01", "2023-01-06"),
    ];
    let report = store.load_rows(&headers(), &rows);
    assert_eq!(
        report,
        LoadReport { total_rows: 3, filtered_rows: 3, error_count: 0 }
    );
    assert_eq!(store.len(), 3);
}

#[test]
fn out_of_scope_year_is_skipped_silently() {
    let mut store = RecordStore::new();
    let rows = vec![row(
        "2020", "R1", "Luzon", "C", "100", "80", "2020-01-01", "2020-01-11",
    )];
    let report = store.load_rows(&headers(), &rows);
    assert_eq!(report.total_rows, 1);
    assert_eq!(report.filtered_rows, 0);
    assert_eq!(report.error_count, 0);
    assert_eq!(store.len(), 0);
    // nothing reaches the reports either
    assert!(generate_reports(&store, 1000).is_none());
}

#[test]
fn out_of_scope_rows_leave_totals_untouched() {
    let mut store = RecordStore::new();
    let rows = vec![
        row("2020", "R1", "Luzon", "C", "500", "80", "2020-01-01", "2020-01-11"),
        row("2021", "R1", "Luzon", "C", "100", "80", "2021-01-01", "2021-01-11"),
    ];
    let report = store.load_rows(&headers(), &rows);
    assert_eq!(report.total_rows, 2);
    assert_eq!(report.filtered_rows, 1);
    assert_eq!(report.error_count, 0);
    let summary = build_regional_summary(store.records());
    assert_eq!(summary.len(), 1);
    // only the in-scope budget is summed
    assert_eq!(summary[0].total_budget_cents, 10000);
}

#[test]
fn bad_fields_are_counted_as_errors() {
    let mut store = RecordStore::new();
    let rows = vec![
        // unparsable year
        row("soon", "R1", "Luzon", "C", "100", "80", "2021-01-01", "2021-01-11"),
        // empty region
        row("2021", "", "Luzon", "C", "100", "80", "2021-01-01", "2021-01-11"),
        // empty contractor while the column is present
        row("2021", "R1", "Luzon", "", "100", "80", "2021-01-01", "2021-01-11"),
        // unparsable amount
        row("2021", "R1", "Luzon", "C", "a lot", "80", "2021-01-01", "2021-01-11"),
        // negative amounts are not valid currency text
        row("2021", "R1", "Luzon", "C", "-100", "80", "2021-01-01", "2021-01-11"),
        // invalid calendar date
        row("2021", "R1", "Luzon", "C", "100", "80", "2021-02-29", "2021-03-01"),
        // a line that could not be read at all
        None,
        // one good row
        row("2021", "R1", "Luzon", "C", "100", "80", "2021-01-01", "2021-01-11"),
    ];
    let report = store.load_rows(&headers(), &rows);
    assert_eq!(report.total_rows, 8);
    assert_eq!(report.filtered_rows, 1);
    assert_eq!(report.error_count, 7);
    assert_eq!(store.len(), 1);
}

#[test]
fn short_row_is_rejected() {
    let mut store = RecordStore::new();
    let rows = vec![Some(vec!["2021".to_string(), "R1".to_string()])];
    let report = store.load_rows(&headers(), &rows);
    assert_eq!(report.error_count, 1);
    assert_eq!(store.len(), 0);
}

#[test]
fn missing_required_column_rejects_rows() {
    let mut store = RecordStore::new();
    let partial: Vec<String> = vec!["FundingYear".to_string(), "Region".to_string()];
    let rows = vec![Some(vec!["2021".to_string(), "R1".to_string()])];
    let report = store.load_rows(&partial, &rows);
    assert_eq!(report.error_count, 1);
    assert_eq!(store.len(), 0);
}

#[test]
fn contractor_column_is_optional() {
    let mut store = RecordStore::new();
    let hs: Vec<String> = vec![
        "FundingYear".to_string(),
        "Region".to_string(),
        "MainIsland".to_string(),
        "ApprovedBudgetForContract".to_string(),
        "ContractCost".to_string(),
        "StartDate".to_string(),
        "ActualCompletionDate".to_string(),
    ];
    let rows = vec![Some(vec![
        "2021".to_string(),
        "R1".to_string(),
        "Luzon".to_string(),
        "100".to_string(),
        "80".to_string(),
        "2021-01-01".to_string(),
        "2021-01-11".to_string(),
    ])];
    let report = store.load_rows(&hs, &rows);
    assert_eq!(report.filtered_rows, 1);
    assert_eq!(report.error_count, 0);
    assert_eq!(store.len(), 1);
}

#[test]
fn loads_accumulate() {
    let mut store = RecordStore::new();
    let rows = vec![row(
        "2021", "R1", "Luzon", "C", "100", "80", "2021-01-01", "2021-01-11",
    )];
    store.load_rows(&headers(), &rows);
    store.load_rows(&headers(), &rows);
    assert_eq!(store.len(), 2);
}

#[test]
fn empty_store_generates_no_reports() {
    let store = RecordStore::new();
    assert!(generate_reports(&store, 1000).is_none());
}

#[test]
fn loaded_store_generates_both_reports() {
    let mut store = RecordStore::new();
    let mut rows = Vec::new();
    for _ in 0..5 {
        rows.push(row(
            "2021", "R1", "Luzon", "C", "100", "80", "2021-01-01", "2021-01-11",
        ));
    }
    store.load_rows(&headers(), &rows);
    let reports = generate_reports(&store, 1000).unwrap();
    assert_eq!(reports.regional.len(), 1);
    assert_eq!(reports.ranking.len(), 1);
    assert_eq!(reports.regional[0].total_budget_cents, 5 * 10000);
    assert_eq!(reports.ranking[0].contractor, "C");
}
