use wastewater::csv_data::{parse_data, ParseError};
use wastewater::date::Date;
use wastewater::db::{
    insert_wastewater_sample, insert_wastewater_samples, SampleStore, WasteWaterSample,
};
use wastewater::decimal::Decimal;

fn sample(site: &str, day: u8, concentration: u128) -> WasteWaterSample {
    WasteWaterSample {
        sample_collection_date: Date { year: 2024, month: 1, day },
        site_name: site.to_string(),
        county: "King".to_string(),
        pcr_pathogen_target: "sars-cov-2".to_string(),
        pcr_gene_target: "N1".to_string(),
        normalized_pathogen_concentration: Decimal {
            negative: false,
            mantissa: concentration,
            scale: 0,
        },
        date_updated: 1705348800000000,
        poll_timestamp: 1705400000,
    }
}

#[test]
fn insert_if_absent_is_idempotent() {
    let mut store = SampleStore::new();
    let first = insert_wastewater_sample(&mut store, sample("SiteA", 10, 5));
    assert!(first);
    assert_eq!(store.len(), 1);
    let second = insert_wastewater_sample(&mut store, sample("SiteA", 10, 5));
    assert!(!second);
    assert_eq!(store.len(), 1);
    // And still false on every later try.
    let third = insert_wastewater_sample(&mut store, sample("SiteA", 10, 5));
    assert!(!third);
    assert_eq!(store.len(), 1);
}

#[test]
fn duplicate_key_keeps_first_seen_values() {
    let mut store = SampleStore::new();
    assert!(insert_wastewater_sample(&mut store, sample("SiteA", 10, 5)));

    // Same natural key, different concentration and update instant.
    let mut republished = sample("SiteA", 10, 999);
    republished.date_updated = 1719860400000000;
    republished.poll_timestamp = 1720000000;
    let inserted = insert_wastewater_sample(&mut store, republished);
    assert!(!inserted);

    assert_eq!(store.len(), 1);
    let kept = &store.records()[0];
    assert_eq!(kept.normalized_pathogen_concentration.mantissa, 5);
    assert_eq!(kept.date_updated, 1705348800000000);
    assert_eq!(kept.poll_timestamp, 1705400000);
}

#[test]
fn differing_key_fields_are_distinct_records() {
    let mut store = SampleStore::new();
    assert!(insert_wastewater_sample(&mut store, sample("SiteA", 10, 5)));
    assert!(insert_wastewater_sample(&mut store, sample("SiteB", 10, 5)));
    assert!(insert_wastewater_sample(&mut store, sample("SiteA", 11, 5)));
    let mut other_county = sample("SiteA", 10, 5);
    other_county.county = "Pierce".to_string();
    assert!(insert_wastewater_sample(&mut store, other_county));
    let mut other_target = sample("SiteA", 10, 5);
    other_target.pcr_pathogen_target = "RSV".to_string();
    assert!(insert_wastewater_sample(&mut store, other_target));
    let mut other_gene = sample("SiteA", 10, 5);
    other_gene.pcr_gene_target = "N2".to_string();
    assert!(insert_wastewater_sample(&mut store, other_gene));
    assert_eq!(store.len(), 6);
}

#[test]
fn batch_counts_every_input_once() {
    let mut store = SampleStore::new();
    assert!(insert_wastewater_sample(&mut store, sample("Existing", 1, 5)));

    let mut inputs: Vec<Result<WasteWaterSample, ParseError>> = Vec::new();
    for day in 2..=8 {
        inputs.push(Ok(sample("SiteA", day, 10)));
    }
    inputs.push(Ok(sample("Existing", 1, 777))); // duplicates the stored row
    inputs.push(Err(ParseError::BadDate));
    inputs.push(Err(ParseError::BadConcentration));
    assert_eq!(inputs.len(), 10);

    let report = insert_wastewater_samples(&mut store, inputs);
    assert_eq!(report.inserted, 7);
    assert_eq!(report.skipped_duplicate, 1);
    assert_eq!(report.failed_conversion, 2);
    assert_eq!(report.total, 10);
    assert_eq!(store.len(), 8);
    // The duplicated key kept its first-seen value.
    assert_eq!(store.records()[0].normalized_pathogen_concentration.mantissa, 5);
}

#[test]
fn batch_detects_duplicates_within_itself() {
    let mut store = SampleStore::new();
    let inputs: Vec<Result<WasteWaterSample, ParseError>> = vec![
        Ok(sample("SiteA", 10, 1)),
        Ok(sample("SiteA", 10, 2)),
        Ok(sample("SiteA", 10, 3)),
    ];
    let report = insert_wastewater_samples(&mut store, inputs);
    assert_eq!(report.inserted, 1);
    assert_eq!(report.skipped_duplicate, 2);
    assert_eq!(report.failed_conversion, 0);
    assert_eq!(report.total, 3);
    assert_eq!(store.len(), 1);
    assert_eq!(store.records()[0].normalized_pathogen_concentration.mantissa, 1);
}

#[test]
fn empty_batch_reports_all_zero() {
    let mut store = SampleStore::new();
    let report = insert_wastewater_samples(&mut store, Vec::new());
    assert_eq!(report.inserted, 0);
    assert_eq!(report.skipped_duplicate, 0);
    assert_eq!(report.failed_conversion, 0);
    assert_eq!(report.total, 0);
    assert_eq!(store.len(), 0);
}

#[test]
fn normalization_keeps_row_fields() {
    let input = "Sample Collection Date,Site Name,County,PCR Pathogen Target,PCR Gene Target,Normalized Pathogen Concentration (gene copies/person/day),Date/Time Updated\n\
        2024-01-10,SiteA,King,RSV,M,1.5,2024-01-15 12:00:00.000000\n";
    let rows = parse_data(input).unwrap();
    let row = rows.into_iter().next().unwrap().unwrap();
    let s = WasteWaterSample::from_row(row, 1705400000);
    assert_eq!(s.sample_collection_date, Date { year: 2024, month: 1, day: 10 });
    assert_eq!(s.site_name, "SiteA");
    assert_eq!(s.county, "King");
    assert_eq!(s.pcr_pathogen_target, "RSV");
    assert_eq!(s.pcr_gene_target, "M");
    assert_eq!(s.normalized_pathogen_concentration.mantissa, 15);
    assert_eq!(s.normalized_pathogen_concentration.scale, 1);
    assert_eq!(s.date_updated, 1705348800000000);
    assert_eq!(s.poll_timestamp, 1705400000);
}

#[test]
fn try_from_row_stamps_a_poll_timestamp() {
    let input = "Sample Collection Date,Site Name,County,PCR Pathogen Target,PCR Gene Target,Normalized Pathogen Concentration (gene copies/person/day),Date/Time Updated\n\
        2024-01-10,SiteA,King,RSV,M,1,2024-01-15 12:00:00.000000\n";
    let rows = parse_data(input).unwrap();
    let row = rows.into_iter().next().unwrap().unwrap();
    let s = WasteWaterSample::try_from_row(row).unwrap();
    // The clock runs after 2024-01-01 on any sane host.
    assert!(s.poll_timestamp > 1704067200);
    assert_eq!(s.site_name, "SiteA");
}
