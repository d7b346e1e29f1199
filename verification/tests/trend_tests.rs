use wastewater::date::Date;
use wastewater::db::{insert_wastewater_sample, SampleStore, WasteWaterSample};
use wastewater::decimal::Decimal;
use wastewater::trend::{trend_query, TrendResult};

fn sample(county: &str, target: &str, day: u8, mantissa: u128, scale: u32) -> WasteWaterSample {
    WasteWaterSample {
        sample_collection_date: Date { year: 2024, month: 1, day },
        site_name: format!("Site-{day}"),
        county: county.to_string(),
        pcr_pathogen_target: target.to_string(),
        pcr_gene_target: "N1".to_string(),
        normalized_pathogen_concentration: Decimal { negative: false, mantissa, scale },
        date_updated: 1705348800000000,
        poll_timestamp: 1705400000,
    }
}

#[test]
fn zero_matches_reports_no_data() {
    let mut store = SampleStore::new();
    assert!(insert_wastewater_sample(&mut store, sample("King", "RSV", 10, 5, 0)));
    let r = trend_query(&store, "Pierce", "RSV");
    assert!(matches!(r, TrendResult::NoData));
    let r = trend_query(&store, "King", "FLUAV");
    assert!(matches!(r, TrendResult::NoData));
}

#[test]
fn one_match_reports_no_prior_distinct_from_no_data() {
    let mut store = SampleStore::new();
    assert!(insert_wastewater_sample(&mut store, sample("King", "RSV", 10, 5, 0)));
    assert!(insert_wastewater_sample(&mut store, sample("Pierce", "RSV", 11, 9, 0)));
    match trend_query(&store, "King", "RSV") {
        TrendResult::NoPrior { latest } => {
            assert_eq!(latest.sample_collection_date.day, 10);
            assert_eq!(latest.normalized_pathogen_concentration.mantissa, 5);
        },
        other => panic!("expected NoPrior, got {other:?}"),
    }
}

#[test]
fn two_matches_report_signed_difference() {
    let mut store = SampleStore::new();
    // latest 2024-01-12 value 3.5; previous 2024-01-05 value 5.0
    assert!(insert_wastewater_sample(&mut store, sample("King", "RSV", 5, 50, 1)));
    assert!(insert_wastewater_sample(&mut store, sample("King", "RSV", 12, 35, 1)));
    match trend_query(&store, "King", "RSV") {
        TrendResult::Trend { latest, previous, difference } => {
            assert_eq!(latest.sample_collection_date.day, 12);
            assert_eq!(previous.sample_collection_date.day, 5);
            // 3.5 - 5.0 = -1.5
            assert!(difference.negative);
            assert_eq!(difference.mantissa, 15);
            assert_eq!(difference.scale, 1);
        },
        other => panic!("expected Trend, got {other:?}"),
    }
}

#[test]
fn latest_and_previous_ignore_other_filters() {
    let mut store = SampleStore::new();
    assert!(insert_wastewater_sample(&mut store, sample("King", "RSV", 1, 1, 0)));
    assert!(insert_wastewater_sample(&mut store, sample("King", "FLUAV", 20, 100, 0)));
    assert!(insert_wastewater_sample(&mut store, sample("Pierce", "RSV", 21, 200, 0)));
    assert!(insert_wastewater_sample(&mut store, sample("King", "RSV", 8, 4, 0)));
    match trend_query(&store, "King", "RSV") {
        TrendResult::Trend { latest, previous, difference } => {
            assert_eq!(latest.sample_collection_date.day, 8);
            assert_eq!(previous.sample_collection_date.day, 1);
            assert!(!difference.negative);
            assert_eq!(difference.mantissa, 3);
            assert_eq!(difference.scale, 0);
        },
        other => panic!("expected Trend, got {other:?}"),
    }
}

#[test]
fn equal_dates_break_ties_deterministically() {
    let mut store = SampleStore::new();
    let mut a = sample("King", "RSV", 10, 1, 0);
    a.site_name = "First".to_string();
    let mut b = sample("King", "RSV", 10, 2, 0);
    b.site_name = "Second".to_string();
    assert!(insert_wastewater_sample(&mut store, a));
    assert!(insert_wastewater_sample(&mut store, b));
    for _ in 0..5 {
        match trend_query(&store, "King", "RSV") {
            TrendResult::Trend { latest, previous, .. } => {
                // The earliest-stored record wins an equal-date tie.
                assert_eq!(latest.site_name, "First");
                assert_eq!(previous.site_name, "Second");
            },
            other => panic!("expected Trend, got {other:?}"),
        }
    }
}
