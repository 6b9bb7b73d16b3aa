use bin_lookup::{parse_records, BinDb, BinDbError, BinRecord};

const DATA: &str = "BIN,Brand,Type,CountryName,isoCode3,isoCode2\n\
411111,VISA,CREDIT,UNITED STATES,USA,US\n\
510510,MASTERCARD,DEBIT,CANADA,CAN,CA\n\
401288,VISA,CREDIT,UNITED STATES,USA,US\n\
370000,AMEX,CREDIT,FRANCE,FRA,FR\n";

fn sample_db() -> BinDb {
    BinDb::new(DATA.as_bytes()).expect("sample dataset must build")
}

fn build_err(data: &[u8]) -> BinDbError {
    match BinDb::new(data) {
        Err(e) => e,
        Ok(_) => panic!("dataset unexpectedly built"),
    }
}

#[test]
fn test_dictionary_initialization() {
    let result = parse_records(DATA.as_bytes());

    assert!(
        result.is_ok(),
        "Dictionary initialization failed: {:?}",
        result.err()
    );
    assert!(
        !result.unwrap().is_empty(),
        "Dictionary initialized but is empty."
    );
}

#[test]
fn test_successful_batch_lookup() {
    let db = sample_db();
    let mock_bins = vec!["123456".to_string(), "987654".to_string()];

    let found_codes = db.get_iso2_codes(&mock_bins);

    assert!(
        found_codes.is_empty() || found_codes.len() <= 2,
        "Batch lookup returned an unexpected number of results."
    );

    for code in &found_codes {
        assert!(!code.is_empty(), "Found code should not be empty.");
    }
}

#[test]
fn end_to_end_single_hit() {
    let db = sample_db();
    let found = db.get_iso2_codes(&vec!["411111".to_string()]);
    assert_eq!(found, vec!["US".to_string()]);
}

#[test]
fn end_to_end_hit_and_miss() {
    let db = sample_db();
    let found = db.get_iso2_codes(&vec!["411111".to_string(), "000001".to_string()]);
    assert_eq!(found, vec!["US".to_string()]);
}

#[test]
fn misses_are_silent() {
    let db = sample_db();
    let found = db.get_iso2_codes(&vec!["000000".to_string(), "999999".to_string()]);
    assert!(found.is_empty());
}

#[test]
fn duplicate_queries_collapse() {
    let db = sample_db();
    let found = db.get_iso2_codes(&vec!["411111".to_string(), "411111".to_string()]);
    assert_eq!(found.len(), 1);
    assert_eq!(found[0], "US");
}

#[test]
fn same_country_counted_once() {
    let db = sample_db();
    let found = db.get_iso2_codes(&vec!["411111".to_string(), "401288".to_string()]);
    assert_eq!(found, vec!["US".to_string()]);
}

#[test]
fn result_never_larger_than_batch() {
    let db = sample_db();
    let bins = vec![
        "411111".to_string(),
        "510510".to_string(),
        "370000".to_string(),
        "411111".to_string(),
        "000000".to_string(),
    ];
    let found = db.get_iso2_codes(&bins);
    assert!(found.len() <= bins.len());
    assert_eq!(found.len(), 3);
}

#[test]
fn repeated_lookup_is_stable() {
    let db = sample_db();
    let bins = vec!["510510".to_string(), "370000".to_string()];
    let first = db.get_iso2_codes(&bins);
    let second = db.get_iso2_codes(&bins);
    assert_eq!(first, second);
    let mut sorted = first.clone();
    sorted.sort();
    assert_eq!(sorted, vec!["CA".to_string(), "FR".to_string()]);
}

#[test]
fn probing_with_stored_bin_returns_its_record() {
    let db = sample_db();
    let records = parse_records(DATA.as_bytes()).unwrap();
    for rec in &records {
        let found = db.get(&rec.bin).expect("every parsed BIN must be indexed");
        assert!(found == rec);
    }
}

#[test]
fn record_fields_are_decoded_exactly() {
    let db = sample_db();
    let rec: &BinRecord = db.get("411111").unwrap();
    assert_eq!(rec.bin, "411111");
    assert_eq!(rec.brand, "VISA");
    assert_eq!(rec.card_type, "CREDIT");
    assert_eq!(rec.country_name, "UNITED STATES");
    assert_eq!(rec.iso_code_3, "USA");
    assert_eq!(rec.iso_code_2, "US");
}

#[test]
fn later_duplicate_row_wins() {
    let data = "BIN,Brand,Type,CountryName,isoCode3,isoCode2\n\
411111,VISA,CREDIT,UNITED STATES,USA,US\n\
411111,VISA,DEBIT,CANADA,CAN,CA\n";
    let db = BinDb::new(data.as_bytes()).unwrap();
    assert_eq!(db.len(), 1);
    let rec = db.get("411111").unwrap();
    assert_eq!(rec.country_name, "CANADA");
    assert_eq!(rec.iso_code_2, "CA");
}

#[test]
fn crlf_and_blank_lines_are_tolerated() {
    let data = "BIN,Brand,Type,CountryName,isoCode3,isoCode2\r\n\
\r\n\
411111,VISA,CREDIT,UNITED STATES,USA,US\r\n\
\n\
510510,MASTERCARD,DEBIT,CANADA,CAN,CA";
    let db = BinDb::new(data.as_bytes()).unwrap();
    assert_eq!(db.len(), 2);
    assert_eq!(db.get("510510").unwrap().iso_code_2, "CA");
}

#[test]
fn invalid_utf8_is_a_decode_error() {
    let mut data = b"BIN,Brand,Type,CountryName,isoCode3,isoCode2\n".to_vec();
    data.extend_from_slice(b"411111,VISA,CREDIT,UNITED\xff STATES,USA,US\n");
    let err = build_err(data.as_slice());
    assert_eq!(err, BinDbError::DecodeError);
}

#[test]
fn missing_header_is_a_parse_error_at_row_zero() {
    let err = build_err(b"");
    assert_eq!(err, BinDbError::ParseError { row: 0 });

    let err = build_err(b"411111,VISA,CREDIT,UNITED STATES,USA,US\n");
    assert_eq!(err, BinDbError::ParseError { row: 0 });
}

#[test]
fn reordered_header_is_rejected() {
    let data = "Brand,BIN,Type,CountryName,isoCode3,isoCode2\n\
VISA,411111,CREDIT,UNITED STATES,USA,US\n";
    let err = build_err(data.as_bytes());
    assert_eq!(err, BinDbError::ParseError { row: 0 });
}

#[test]
fn short_row_aborts_the_whole_load() {
    let data = "BIN,Brand,Type,CountryName,isoCode3,isoCode2\n\
411111,VISA,CREDIT,UNITED STATES,USA,US\n\
510510,MASTERCARD,DEBIT\n\
370000,AMEX,CREDIT,FRANCE,FRA,FR\n";
    let err = build_err(data.as_bytes());
    assert_eq!(err, BinDbError::ParseError { row: 2 });
}

#[test]
fn long_row_aborts_the_whole_load() {
    let data = "BIN,Brand,Type,CountryName,isoCode3,isoCode2\n\
411111,VISA,CREDIT,UNITED STATES,USA,US,EXTRA\n";
    let err = build_err(data.as_bytes());
    assert_eq!(err, BinDbError::ParseError { row: 1 });
}

#[test]
fn header_only_dataset_builds_empty() {
    let db = BinDb::new(b"BIN,Brand,Type,CountryName,isoCode3,isoCode2\n").unwrap();
    assert!(db.is_empty());
    assert_eq!(db.len(), 0);
    assert!(db.get_iso2_codes(&vec!["411111".to_string()]).is_empty());
}

#[test]
fn empty_batch_yields_empty_result() {
    let db = sample_db();
    let found = db.get_iso2_codes(&Vec::new());
    assert!(found.is_empty());
}

#[test]
fn embedded_comma_splits_the_field() {
    let data = "BIN,Brand,Type,CountryName,isoCode3,isoCode2\n\
411111,VISA,CREDIT,KOREA, REPUBLIC OF,KOR,KR\n";
    let err = build_err(data.as_bytes());
    assert_eq!(err, BinDbError::ParseError { row: 1 });
}

#[test]
fn record_equality_is_field_by_field() {
    let records = parse_records(DATA.as_bytes()).unwrap();
    assert!(records[0] == records[0]);
    assert!(!(records[0] == records[1]));
}
