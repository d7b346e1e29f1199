use wastewater::csv_data::{parse_data, ParseError};
use wastewater::date::parse_date_chars;
use wastewater::date::Date;
use wastewater::date::date_to_text;
use wastewater::decimal::{decimal_to_text, parse_decimal_chars};

const HEADER: &str = "Sample Collection Date,Site Name,County,PCR Pathogen Target,PCR Gene Target,Normalized Pathogen Concentration (gene copies/person/day),Date/Time Updated";

fn chars(s: &str) -> Vec<char> {
    s.chars().collect()
}

#[test]
fn parses_one_plain_row() {
    let input = format!(
        "{HEADER}\n2024-01-10,Tacoma Central,Pierce,sars-cov-2,N1,123.45,2024-01-15 12:00:00.000000\n"
    );
    let rows = parse_data(&input).unwrap();
    assert_eq!(rows.len(), 1);
    let row = rows[0].as_ref().unwrap();
    assert_eq!(row.sample_collection_date, Date { year: 2024, month: 1, day: 10 });
    assert_eq!(row.site_name, "Tacoma Central");
    assert_eq!(row.county, "Pierce");
    assert_eq!(row.pcr_pathogen_target, "sars-cov-2");
    assert_eq!(row.pcr_gene_target, "N1");
    assert!(!row.normalized_pathogen_concentration.negative);
    assert_eq!(row.normalized_pathogen_concentration.mantissa, 12345);
    assert_eq!(row.normalized_pathogen_concentration.scale, 2);
    // 2024-01-15 12:00:00 is unambiguous Pacific standard time (UTC-8).
    assert_eq!(row.date_updated, 1705348800000000);
}

#[test]
fn header_order_does_not_matter() {
    let input = "County,Sample Collection Date,PCR Gene Target,Site Name,Normalized Pathogen Concentration (gene copies/person/day),Date/Time Updated,PCR Pathogen Target\n\
        King,2024-02-29,N2,Brightwater,7,2024-07-01 12:00:00.000000,RSV\n";
    let rows = parse_data(input).unwrap();
    assert_eq!(rows.len(), 1);
    let row = rows[0].as_ref().unwrap();
    assert_eq!(row.sample_collection_date, Date { year: 2024, month: 2, day: 29 });
    assert_eq!(row.site_name, "Brightwater");
    assert_eq!(row.county, "King");
    assert_eq!(row.pcr_pathogen_target, "RSV");
    assert_eq!(row.pcr_gene_target, "N2");
    assert_eq!(row.date_updated, 1719860400000000);
}

#[test]
fn quoted_field_with_comma_and_escaped_quote() {
    let input = format!(
        "{HEADER}\n2024-01-10,\"Site \"\"A\"\", North\",Pierce,FLUAV,M,0.5,2024-01-15 12:00:00.000000\n"
    );
    let rows = parse_data(&input).unwrap();
    let row = rows[0].as_ref().unwrap();
    assert_eq!(row.site_name, "Site \"A\", North");
}

#[test]
fn crlf_line_endings_are_accepted() {
    let input = format!(
        "{HEADER}\r\n2024-01-10,SiteX,King,FLUBV,M,42,2024-01-15 12:00:00.000000\r\n"
    );
    let rows = parse_data(&input).unwrap();
    assert_eq!(rows.len(), 1);
    assert_eq!(rows[0].as_ref().unwrap().site_name, "SiteX");
}

#[test]
fn missing_column_fails_whole_parse() {
    let input = "Sample Collection Date,Site Name,County\n2024-01-10,SiteX,King\n";
    let err = parse_data(input).unwrap_err();
    assert!(matches!(err, ParseError::MissingColumn));
}

#[test]
fn empty_input_fails_whole_parse() {
    assert!(matches!(parse_data("").unwrap_err(), ParseError::MissingColumn));
}

#[test]
fn row_errors_do_not_abort_the_stream() {
    let input = format!(
        "{HEADER}\n\
        2024-02-30,SiteA,King,RSV,M,1,2024-01-15 12:00:00.000000\n\
        2024-01-10,SiteB,King,RSV,M,notanumber,2024-01-15 12:00:00.000000\n\
        2024-01-10,SiteC,King,RSV,M,1,2024-01-15 12:00\n\
        2024-01-10,SiteD,King,RSV\n\
        2024-01-11,SiteE,King,RSV,M,2,2024-01-15 12:00:00.000000\n"
    );
    let rows = parse_data(&input).unwrap();
    assert_eq!(rows.len(), 5);
    assert!(matches!(rows[0], Err(ParseError::BadDate)));
    assert!(matches!(rows[1], Err(ParseError::BadConcentration)));
    assert!(matches!(rows[2], Err(ParseError::BadTimestamp)));
    assert!(matches!(rows[3], Err(ParseError::WrongFieldCount)));
    assert_eq!(rows[4].as_ref().unwrap().site_name, "SiteE");
}

#[test]
fn text_after_closing_quote_is_malformed() {
    let input = format!(
        "{HEADER}\n2024-01-10,\"SiteA\"junk,King,RSV,M,1,2024-01-15 12:00:00.000000\n"
    );
    let rows = parse_data(&input).unwrap();
    assert!(matches!(rows[0], Err(ParseError::MalformedLine)));
}

#[test]
fn decimal_parses_exactly() {
    let d = parse_decimal_chars(&chars("123.45")).unwrap();
    assert!(!d.negative);
    assert_eq!(d.mantissa, 12345);
    assert_eq!(d.scale, 2);

    let d = parse_decimal_chars(&chars("-0.007")).unwrap();
    assert!(d.negative);
    assert_eq!(d.mantissa, 7);
    assert_eq!(d.scale, 3);

    let d = parse_decimal_chars(&chars("42")).unwrap();
    assert_eq!(d.mantissa, 42);
    assert_eq!(d.scale, 0);

    assert!(parse_decimal_chars(&chars("")).is_none());
    assert!(parse_decimal_chars(&chars("1.")).is_none());
    assert!(parse_decimal_chars(&chars(".5")).is_none());
    assert!(parse_decimal_chars(&chars("1.2.3")).is_none());
    assert!(parse_decimal_chars(&chars("abc")).is_none());
    // 19 digits exceed the supported width.
    assert!(parse_decimal_chars(&chars("1234567890123456789")).is_none());
    assert!(parse_decimal_chars(&chars("123456789012345678")).is_some());
}

#[test]
fn decimal_subtraction_is_exact() {
    let a = parse_decimal_chars(&chars("5.0")).unwrap();
    let b = parse_decimal_chars(&chars("3.5")).unwrap();
    let d = wastewater::decimal::sub(&a, &b);
    assert!(!d.negative);
    assert_eq!(d.mantissa, 15);
    assert_eq!(d.scale, 1);

    let d = wastewater::decimal::sub(&b, &a);
    assert!(d.negative);
    assert_eq!(d.mantissa, 15);
    assert_eq!(d.scale, 1);

    // Differing scales are aligned: 1.25 - 0.5 = 0.75.
    let a = parse_decimal_chars(&chars("1.25")).unwrap();
    let b = parse_decimal_chars(&chars("0.5")).unwrap();
    let d = wastewater::decimal::sub(&a, &b);
    assert!(!d.negative);
    assert_eq!(d.mantissa, 75);
    assert_eq!(d.scale, 2);

    // Subtracting a negative adds: 1 - (-2) = 3.
    let a = parse_decimal_chars(&chars("1")).unwrap();
    let b = parse_decimal_chars(&chars("-2")).unwrap();
    let d = wastewater::decimal::sub(&a, &b);
    assert!(!d.negative);
    assert_eq!(d.mantissa, 3);
    assert_eq!(d.scale, 0);
}

#[test]
fn date_validity_is_checked() {
    assert!(parse_date_chars(&chars("2024-02-29")).is_some());
    assert!(parse_date_chars(&chars("2023-02-29")).is_none());
    assert!(parse_date_chars(&chars("2023-13-01")).is_none());
    assert!(parse_date_chars(&chars("2023-00-10")).is_none());
    assert!(parse_date_chars(&chars("2023-1-01")).is_none());
    assert!(parse_date_chars(&chars("2023-04-31")).is_none());
    assert_eq!(
        parse_date_chars(&chars("1999-12-31")).unwrap(),
        Date { year: 1999, month: 12, day: 31 }
    );
}

#[test]
fn final_line_without_newline_is_parsed() {
    let input = format!(
        "{HEADER}\n2024-01-10,SiteX,King,RSV,M,9,2024-01-15 12:00:00.000000"
    );
    let rows = parse_data(&input).unwrap();
    assert_eq!(rows.len(), 1);
    assert_eq!(rows[0].as_ref().unwrap().normalized_pathogen_concentration.mantissa, 9);
}

#[test]
fn duplicated_header_name_uses_first_occurrence() {
    let input = "Sample Collection Date,Site Name,Site Name,County,PCR Pathogen Target,PCR Gene Target,Normalized Pathogen Concentration (gene copies/person/day),Date/Time Updated\n\
        2024-01-10,First,Second,King,RSV,M,1,2024-01-15 12:00:00.000000\n";
    let rows = parse_data(input).unwrap();
    assert_eq!(rows[0].as_ref().unwrap().site_name, "First");
}

#[test]
fn unquoted_quote_inside_field_is_literal() {
    let input = format!(
        "{HEADER}\n2024-01-10,Site A\"B,King,RSV,M,1,2024-01-15 12:00:00.000000\n"
    );
    let rows = parse_data(&input).unwrap();
    assert_eq!(rows[0].as_ref().unwrap().site_name, "Site A\"B");
}

#[test]
fn empty_lines_are_skipped() {
    let input = format!(
        "{HEADER}\n\n2024-01-10,SiteX,King,RSV,M,9,2024-01-15 12:00:00.000000\n\n"
    );
    let rows = parse_data(&input).unwrap();
    assert_eq!(rows.len(), 1);
    assert_eq!(rows[0].as_ref().unwrap().site_name, "SiteX");
}

#[test]
fn date_text_round_trips() {
    let d = Date { year: 2024, month: 2, day: 29 };
    let text = date_to_text(&d);
    assert_eq!(text, "2024-02-29");
    assert_eq!(parse_date_chars(&chars(&text)), Some(d));
    let d = Date { year: 987, month: 12, day: 1 };
    assert_eq!(date_to_text(&d), "0987-12-01");
}

#[test]
fn decimal_text_round_trips() {
    let d = parse_decimal_chars(&chars("123.45")).unwrap();
    assert_eq!(decimal_to_text(&d), "123.45");
    let d = parse_decimal_chars(&chars("-0.007")).unwrap();
    assert_eq!(decimal_to_text(&d), "-0.007");
    let d = parse_decimal_chars(&chars("42")).unwrap();
    assert_eq!(decimal_to_text(&d), "42");
    let d = parse_decimal_chars(&chars("0.50")).unwrap();
    assert_eq!(decimal_to_text(&d), "0.50");
    assert_eq!(parse_decimal_chars(&chars(&decimal_to_text(&d))), Some(d));
}
