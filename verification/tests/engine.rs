use flood_reports::contractor::build_contractor_ranking;
use flood_reports::dates::Date;
use flood_reports::regional::build_regional_summary;
use flood_reports::stats::group_stats;
use flood_reports::store::ProjectRecord;

fn d(year: u32, month: u32, day: u32) -> Date {
    Date { year, month, day }
}

fn rec(
    region: &str,
    island: &str,
    contractor: &str,
    budget_cents: i64,
    cost_cents: i64,
    start: Date,
    completion: Date,
    year: i64,
) -> ProjectRecord {
    ProjectRecord {
        region: region.to_string(),
        main_island: island.to_string(),
        contractor: contractor.to_string(),
        approved_budget_cents: budget_cents,
        contract_cost_cents: cost_cents,
        start,
        completion,
        funding_year: year,
    }
}

#[test]
fn median_odd_count() {
    // savings 10, 20, 30 units -> median 20 units (4000 half-cents twice)
    let g = vec![
        rec("R", "I", "C", 1000, 0, d(2021, 1, 1), d(2021, 1, 2), 2021),
        rec("R", "I", "C", 2000, 0, d(2021, 1, 1), d(2021, 1, 2), 2021),
        rec("R", "I", "C", 3000, 0, d(2021, 1, 1), d(2021, 1, 2), 2021),
    ];
    let st = group_stats(&g);
    assert_eq!(st.med_twice, 2 * 2000);
}

#[test]
fn median_even_count() {
    // savings 10, 20, 30, 40 units -> median 25 units
    let g = vec![
        rec("R", "I", "C", 4000, 0, d(2021, 1, 1), d(2021, 1, 2), 2021),
        rec("R", "I", "C", 1000, 0, d(2021, 1, 1), d(2021, 1, 2), 2021),
        rec("R", "I", "C", 3000, 0, d(2021, 1, 1), d(2021, 1, 2), 2021),
        rec("R", "I", "C", 2000, 0, d(2021, 1, 1), d(2021, 1, 2), 2021),
    ];
    let st = group_stats(&g);
    // twice the median: 20 + 30 units in cents
    assert_eq!(st.med_twice, 2000 + 3000);
}

#[test]
fn delay_clamped_at_zero() {
    // completion before start contributes a delay of zero
    let r = rec("R", "I", "C", 100, 0, d(2021, 5, 10), d(2021, 5, 1), 2021);
    assert_eq!(r.delay_days(), 0);
    let g = vec![r];
    let st = group_stats(&g);
    assert_eq!(st.avg_delay_centi, 0);
}

#[test]
fn regional_scenario_three_records() {
    // one group: budgets 100, savings 10/20/30 units, delays 10/40/5 days
    let records = vec![
        rec("R1", "Luzon", "C", 10000, 8000, d(2021, 1, 1), d(2021, 1, 11), 2021),
        rec("R1", "Luzon", "C", 10000, 9000, d(2022, 1, 1), d(2022, 2, 10), 2022),
        rec("R1", "Luzon", "C", 10000, 7000, d(2023, 1, 1), d(2023, 1, 6), 2023),
    ];
    let rows = build_regional_summary(&records);
    assert_eq!(rows.len(), 1);
    let row = &rows[0];
    assert_eq!(row.region, "R1");
    assert_eq!(row.main_island, "Luzon");
    assert_eq!(row.total_budget_cents, 30000);
    // savings sorted 10, 20, 30 units -> median 20 units
    assert_eq!(row.median_savings_twice_cents, 2 * 2000);
    // (10 + 40 + 5) / 3 days = 18.33 days
    assert_eq!(row.avg_delay_centi, 1833);
    // 100 * 1/3 percent = 33.3 percent
    assert_eq!(row.delay_over30_deci, 333);
    // a single group is its own minimum and maximum: full score
    assert_eq!(row.efficiency_centi, 10000);
}

#[test]
fn scores_stay_in_range_and_order_descending() {
    let mut records = Vec::new();
    // group A: savings 50 units, delay 10 days -> high raw efficiency
    records.push(rec("A", "I", "C", 10000, 5000, d(2021, 1, 1), d(2021, 1, 11), 2021));
    // group B: savings 10 units, delay 40 days -> low raw efficiency
    records.push(rec("B", "I", "C", 10000, 9000, d(2021, 1, 1), d(2021, 2, 10), 2021));
    // group C: savings 30 units, delay 20 days -> middle raw efficiency
    records.push(rec("C", "I", "C", 10000, 7000, d(2021, 1, 1), d(2021, 1, 21), 2021));
    let rows = build_regional_summary(&records);
    assert_eq!(rows.len(), 3);
    for row in &rows {
        assert!(row.efficiency_centi >= 0 && row.efficiency_centi <= 10000);
    }
    // extremes map to the ends of the scale
    assert_eq!(rows[0].region, "A");
    assert_eq!(rows[0].efficiency_centi, 10000);
    assert_eq!(rows[2].region, "B");
    assert_eq!(rows[2].efficiency_centi, 0);
    assert!(rows[0].efficiency_centi >= rows[1].efficiency_centi);
    assert!(rows[1].efficiency_centi >= rows[2].efficiency_centi);
}

#[test]
fn equal_raw_scores_all_get_full_score() {
    // two groups with identical statistics share one raw efficiency
    let records = vec![
        rec("A", "I", "C", 10000, 8000, d(2021, 1, 1), d(2021, 1, 11), 2021),
        rec("B", "I", "C", 10000, 8000, d(2021, 1, 1), d(2021, 1, 11), 2021),
    ];
    let rows = build_regional_summary(&records);
    assert_eq!(rows.len(), 2);
    assert_eq!(rows[0].efficiency_centi, 10000);
    assert_eq!(rows[1].efficiency_centi, 10000);
    // ties keep the first-seen order
    assert_eq!(rows[0].region, "A");
    assert_eq!(rows[1].region, "B");
}

#[test]
fn contractor_needs_five_records() {
    let mut records = Vec::new();
    for _ in 0..4 {
        records.push(rec("R", "I", "Four", 10000, 8000, d(2021, 1, 1), d(2021, 1, 11), 2021));
    }
    for _ in 0..5 {
        records.push(rec("R", "I", "Five", 10000, 8000, d(2021, 1, 1), d(2021, 1, 11), 2021));
    }
    let rows = build_contractor_ranking(&records, 1000);
    assert_eq!(rows.len(), 1);
    assert_eq!(rows[0].contractor, "Five");
    assert_eq!(rows[0].num_projects, 5);
}

#[test]
fn contractor_ranking_fields_and_order() {
    let mut records = Vec::new();
    // Big: 5 projects of cost 100 units each, no delay, savings 50 each
    for _ in 0..5 {
        records.push(rec("R", "I", "Big", 15000, 10000, d(2021, 1, 1), d(2021, 1, 1), 2021));
    }
    // Small: 5 projects of cost 10 units each, no delay, savings 5 each
    for _ in 0..5 {
        records.push(rec("R", "I", "Small", 1500, 1000, d(2021, 1, 1), d(2021, 1, 1), 2021));
    }
    let rows = build_contractor_ranking(&records, 1000);
    assert_eq!(rows.len(), 2);
    assert_eq!(rows[0].contractor, "Big");
    assert_eq!(rows[0].total_cost_cents, 50000);
    assert_eq!(rows[0].total_savings_cents, 25000);
    assert_eq!(rows[1].contractor, "Small");
    // zero delay, savings ratio 0.5 -> reliability 50 points exactly
    assert_eq!(rows[0].reliability_centi, 5000);
    assert!(!rows[0].high_risk);
    assert_eq!(rows[0].risk_label(), "Low Risk");
}

#[test]
fn reliability_clamped_high_and_low() {
    let mut records = Vec::new();
    // savings ratio far above 1 and no delay: the raw index would exceed
    // 100 points, so it is clamped to 100
    for _ in 0..5 {
        records.push(rec("R", "I", "Great", 100000, 100, d(2021, 1, 1), d(2021, 1, 1), 2021));
    }
    // negative savings: the raw index is negative, so it is clamped to 0
    for _ in 0..5 {
        records.push(rec("R", "I", "Poor", 100, 10000, d(2021, 1, 1), d(2021, 1, 1), 2021));
    }
    let rows = build_contractor_ranking(&records, 1000);
    assert_eq!(rows.len(), 2);
    for row in &rows {
        assert!(row.reliability_centi >= 0 && row.reliability_centi <= 10000);
    }
    assert_eq!(rows[0].contractor, "Poor");
    assert_eq!(rows[0].reliability_centi, 0);
    assert!(rows[0].high_risk);
    assert_eq!(rows[0].risk_label(), "High Risk");
    assert_eq!(rows[1].contractor, "Great");
    assert_eq!(rows[1].reliability_centi, 10000);
}

#[test]
fn reliability_just_below_fifty_points_is_high_risk() {
    let mut records = Vec::new();
    // no delay, savings ratio 4999/10000: reliability 49.99 points
    for _ in 0..5 {
        records.push(rec("R", "I", "Close", 14999, 10000, d(2021, 1, 1), d(2021, 1, 1), 2021));
    }
    let rows = build_contractor_ranking(&records, 1000);
    assert_eq!(rows.len(), 1);
    assert_eq!(rows[0].reliability_centi, 4999);
    assert!(rows[0].high_risk);
}

#[test]
fn ranking_cap_cuts_after_sorting() {
    let mut records = Vec::new();
    for t in 0..3i64 {
        let name = format!("C{}", t);
        for _ in 0..5 {
            // later contractors cost more, so they rank first
            records.push(rec(
                "R",
                "I",
                &name,
                10000,
                1000 * (t + 1),
                d(2021, 1, 1),
                d(2021, 1, 1),
                2021,
            ));
        }
    }
    let rows = build_contractor_ranking(&records, 2);
    assert_eq!(rows.len(), 2);
    assert_eq!(rows[0].contractor, "C2");
    assert_eq!(rows[1].contractor, "C1");
}

#[test]
fn zero_total_cost_gives_zero_reliability() {
    let mut records = Vec::new();
    for _ in 0..5 {
        records.push(rec("R", "I", "Free", 1000, 0, d(2021, 1, 1), d(2021, 1, 1), 2021));
    }
    let rows = build_contractor_ranking(&records, 1000);
    assert_eq!(rows.len(), 1);
    assert_eq!(rows[0].total_cost_cents, 0);
    assert_eq!(rows[0].reliability_centi, 0);
    assert!(rows[0].high_risk);
}
