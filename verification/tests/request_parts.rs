use rinha_de_backend_2026_fabio_rust::config::{port_from_setting, ConfigError, DEFAULT_PORT};
use rinha_de_backend_2026_fabio_rust::resources::{select_reference_source, ReferenceSource};
use rinha_de_backend_2026_fabio_rust::vectorize::{
    is_unknown_merchant, parse_utc, time_features, time_features_of, TimeFeatures, VectorizeError,
};

#[test]
fn time_features_read_hour_weekday_and_elapsed_seconds() {
    let features = time_features("2026-03-11T20:23:35Z", Some("2026-03-11T14:58:35Z")).unwrap();
    assert_eq!(
        features,
        TimeFeatures { hour: 20, weekday_from_monday: 2, seconds_since_last: Some(19_500) }
    );

    let features = time_features("2026-03-11T18:45:53Z", None).unwrap();
    assert_eq!(features, TimeFeatures { hour: 18, weekday_from_monday: 2, seconds_since_last: None });

    let features = time_features("2026-03-15T00:10:00Z", Some("2026-03-10T00:10:00Z")).unwrap();
    assert_eq!(features.hour, 0);
    assert_eq!(features.weekday_from_monday, 6);
    assert_eq!(features.seconds_since_last, Some(5 * 86_400));
}

#[test]
fn time_features_convert_offsets_to_utc() {
    let features = time_features("2026-03-11T23:30:00-03:00", Some("2026-03-12T03:00:00Z")).unwrap();
    assert_eq!(features.hour, 2);
    assert_eq!(features.weekday_from_monday, 3);
    assert_eq!(features.seconds_since_last, Some(-1_800));
}

#[test]
fn elapsed_seconds_truncate_toward_zero() {
    let features = time_features("2026-03-11T10:00:00.5Z", Some("2026-03-11T10:00:01.2Z")).unwrap();
    assert_eq!(features.seconds_since_last, Some(0));
    let features = time_features("2026-03-11T10:00:02.1Z", Some("2026-03-11T10:00:00.6Z")).unwrap();
    assert_eq!(features.seconds_since_last, Some(1));
}

#[test]
fn invalid_timestamps_are_reported_with_their_text() {
    assert_eq!(
        time_features("not-a-timestamp", Some("2026-03-11T14:58:35Z")),
        Err(VectorizeError::InvalidTimestamp("not-a-timestamp".to_string()))
    );
    assert_eq!(
        time_features("2026-03-11T20:23:35Z", Some("yesterday")),
        Err(VectorizeError::InvalidTimestamp("yesterday".to_string()))
    );
    assert_eq!(
        time_features("bad", Some("worse")),
        Err(VectorizeError::InvalidTimestamp("bad".to_string()))
    );
}

#[test]
fn unknown_merchant_is_one_the_customer_never_used() {
    let known = vec!["MERC-009".to_string(), "MERC-001".to_string(), "MERC-001".to_string()];
    assert!(!is_unknown_merchant(&known, &"MERC-001".to_string()));
    assert!(is_unknown_merchant(&known, &"MERC-777".to_string()));
    assert!(is_unknown_merchant(&[], &"MERC-XYZ".to_string()));
}

#[test]
fn port_defaults_when_missing_or_blank() {
    assert_eq!(port_from_setting(None).unwrap(), DEFAULT_PORT);
    assert_eq!(port_from_setting(Some("")).unwrap(), 9999);
    assert_eq!(port_from_setting(Some(" \t\n")).unwrap(), 9999);
}

#[test]
fn port_is_read_from_the_setting() {
    assert_eq!(port_from_setting(Some("10001")).unwrap(), 10001);
    assert_eq!(port_from_setting(Some("+80")).unwrap(), 80);
    assert_eq!(port_from_setting(Some("0")).unwrap(), 0);
    assert_eq!(port_from_setting(Some("65535")).unwrap(), 65535);
}

#[test]
fn invalid_ports_are_errors() {
    for text in ["abc", "65536", "-1", " 10001", "10001 ", "+"] {
        match port_from_setting(Some(text)) {
            Err(ConfigError::InvalidPort(_)) => {}
            other => panic!("{text:?} gave {other:?}"),
        }
    }
}

#[test]
fn references_come_from_the_first_file_present() {
    assert_eq!(select_reference_source(true, true, true), Some(ReferenceSource::BinaryIndex));
    assert_eq!(select_reference_source(false, true, true), Some(ReferenceSource::GzipJson));
    assert_eq!(select_reference_source(false, false, true), Some(ReferenceSource::Json));
    assert_eq!(select_reference_source(false, false, false), None);
}

#[test]
fn same_instants_with_other_offsets_give_the_same_features() {
    let utc = time_features("2026-03-11T18:45:53Z", Some("2026-03-11T14:58:35Z")).unwrap();
    let local = time_features("2026-03-11T15:45:53-03:00", Some("2026-03-11T11:58:35-03:00")).unwrap();
    assert_eq!(utc, local);
    assert_eq!(
        local,
        TimeFeatures { hour: 18, weekday_from_monday: 2, seconds_since_last: Some(13_638) }
    );
}

#[test]
fn elapsed_seconds_across_a_leap_second_follow_chrono() {
    let features = time_features("2015-07-01T01:00:00Z", Some("2015-06-30T23:59:60.5Z")).unwrap();
    assert_eq!(features.seconds_since_last, Some(3_599));
    let features = time_features("2015-06-30T23:59:60.5Z", Some("2015-06-30T23:00:00Z")).unwrap();
    assert_eq!(
        features,
        TimeFeatures { hour: 23, weekday_from_monday: 1, seconds_since_last: Some(3_600) }
    );
    let features = time_features("2015-07-01T00:00:00Z", Some("2015-06-30T23:59:60.5Z")).unwrap();
    assert_eq!(features.seconds_since_last, Some(0));
}

#[test]
fn previous_transactions_not_earlier_give_no_positive_seconds() {
    let same = time_features("2026-03-11T10:00:00Z", Some("2026-03-11T07:00:00-03:00")).unwrap();
    assert_eq!(same.seconds_since_last, Some(0));
    let later = time_features("2026-03-11T10:00:00.2Z", Some("2026-03-11T10:00:02.1Z")).unwrap();
    assert_eq!(later.seconds_since_last, Some(-1));
}

#[test]
fn features_of_parsed_instants() {
    let now = parse_utc("2026-03-11T18:45:53Z").unwrap();
    let previous = parse_utc("2026-03-11T14:49:20.5Z").unwrap();
    assert_eq!(
        time_features_of(&now, Some(&previous)),
        TimeFeatures { hour: 18, weekday_from_monday: 2, seconds_since_last: Some(14_192) }
    );
    assert_eq!(
        time_features_of(&previous, None),
        TimeFeatures { hour: 14, weekday_from_monday: 2, seconds_since_last: None }
    );
}
