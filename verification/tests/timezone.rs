use wastewater::civil::{parse_civil_chars, resolve_pacific};
use wastewater::csv_data::{parse_data, ParseError};

const HEADER: &str = "Sample Collection Date,Site Name,County,PCR Pathogen Target,PCR Gene Target,Normalized Pathogen Concentration (gene copies/person/day),Date/Time Updated";

fn chars(s: &str) -> Vec<char> {
    s.chars().collect()
}

#[test]
fn fall_back_resolves_to_later_instant() {
    // 2024-11-03 01:30 occurs twice in the Pacific zone; the later instant
    // is the standard-time one (UTC-8), 09:30 UTC.
    let input = format!(
        "{HEADER}\n2024-11-03,SiteA,King,RSV,M,1,2024-11-03 01:30:00.000000\n"
    );
    let rows = parse_data(&input).unwrap();
    let row = rows[0].as_ref().unwrap();
    assert_eq!(row.date_updated, 1730626200000000);
}

#[test]
fn fall_back_is_deterministic_across_runs() {
    let civil = parse_civil_chars(&chars("2024-11-03 01:30:00.000000")).unwrap();
    let first = resolve_pacific(&civil).unwrap();
    for _ in 0..10 {
        let again = resolve_pacific(&civil).unwrap();
        assert_eq!(again, first);
    }
    assert_eq!(first, 1730626200000000);
}

#[test]
fn spring_forward_yields_invalid_local_time() {
    // 2024-03-10 02:30 does not exist in the Pacific zone.
    let input = format!(
        "{HEADER}\n2024-03-10,SiteA,King,RSV,M,1,2024-03-10 02:30:00.000000\n"
    );
    let rows = parse_data(&input).unwrap();
    match &rows[0] {
        Err(ParseError::InvalidLocalTime(text)) => {
            assert_eq!(text, "2024-03-10 02:30:00.000000");
        },
        other => panic!("expected InvalidLocalTime, got {other:?}"),
    }
}

#[test]
fn unambiguous_times_resolve_to_single_instant() {
    let civil = parse_civil_chars(&chars("2024-01-15 12:00:00.000000")).unwrap();
    assert_eq!(resolve_pacific(&civil).unwrap(), 1705348800000000);
    let civil = parse_civil_chars(&chars("2024-07-01 12:00:00.000000")).unwrap();
    assert_eq!(resolve_pacific(&civil).unwrap(), 1719860400000000);
}

#[test]
fn civil_text_shape_is_checked() {
    assert!(parse_civil_chars(&chars("2024-01-15 12:00:00.5")).is_some());
    assert!(parse_civil_chars(&chars("2024-01-15 12:00:00.123456")).is_some());
    assert!(parse_civil_chars(&chars("2024-01-15 12:00:00")).is_none());
    assert!(parse_civil_chars(&chars("2024-01-15 24:00:00.000000")).is_none());
    assert!(parse_civil_chars(&chars("2024-01-15 12:60:00.000000")).is_none());
    assert!(parse_civil_chars(&chars("2024-01-15T12:00:00.000000")).is_none());
    // Fractional digits scale to microseconds.
    let c = parse_civil_chars(&chars("2024-01-15 12:00:00.5")).unwrap();
    assert_eq!(c.micro, 500000);
}
