use file_organizer::event_handler::format_filename_at;
use file_organizer::event_handler::format_filename_with_timestamp;
use file_organizer::event_handler::timestamp_digits;
use file_organizer::event_handler::ProcessorFailure;
use file_organizer::event_handler::Timestamp;

fn ts(year: u32, month: u32, day: u32, hour: u32, minute: u32, second: u32) -> Timestamp {
    Timestamp { year, month, day, hour, minute, second }
}

#[test]
fn test_timestamp_digits_exact() {
    let t = ts(2024, 1, 2, 3, 4, 5);
    assert_eq!(timestamp_digits(&t), "20240102030405");
    let t = ts(999, 12, 31, 23, 59, 59);
    assert_eq!(timestamp_digits(&t), "09991231235959");
}

#[test]
fn test_format_filename_at_exact() {
    let t = ts(2024, 1, 2, 3, 4, 5);
    assert_eq!(
        format_filename_at("report.csv", &t),
        Ok("report-20240102030405.csv".to_string())
    );
    assert_eq!(
        format_filename_at("archive.tar.gz", &t),
        Ok("archive.tar-20240102030405.gz".to_string())
    );
}

#[test]
fn test_format_filename_no_extension_rejected() {
    let t = ts(2024, 1, 2, 3, 4, 5);
    assert_eq!(
        format_filename_at("README", &t),
        Err(ProcessorFailure::PreconditionViolation)
    );
    assert_eq!(
        format_filename_with_timestamp("README"),
        Err(ProcessorFailure::PreconditionViolation)
    );
}

#[test]
fn test_rename_with_timestamp_pattern() {
    // The namer's output for `report.csv` always matches
    // `report-\d{14}\.csv`, whatever the clock says.
    let out = format_filename_with_timestamp("report.csv").unwrap();
    assert!(out.starts_with("report-"));
    assert!(out.ends_with(".csv"));
    let middle = &out["report-".len()..out.len() - ".csv".len()];
    assert_eq!(middle.len(), 14);
    assert!(middle.chars().all(|c| c.is_ascii_digit()));
}

#[test]
fn test_timestamp_from_fields_keeps_drawn_values() {
    let t = Timestamp::from_fields(2024, 1, 2, 3, 4, 5).unwrap();
    assert_eq!(t, ts(2024, 1, 2, 3, 4, 5));
    assert!(Timestamp::from_fields(0, 1, 1, 0, 0, 0).is_ok());
    assert!(Timestamp::from_fields(9999, 12, 31, 23, 59, 59).is_ok());
}

#[test]
fn test_timestamp_from_fields_rejects_unprintable_years() {
    assert_eq!(
        Timestamp::from_fields(-1, 1, 1, 0, 0, 0),
        Err(ProcessorFailure::IoFailure)
    );
    assert_eq!(
        Timestamp::from_fields(10000, 1, 1, 0, 0, 0),
        Err(ProcessorFailure::IoFailure)
    );
}

#[test]
fn test_clock_reading_in_range() {
    let t = Timestamp::now().unwrap();
    assert!(t.year <= 9999);
    assert!((1..=12).contains(&t.month));
    assert!((1..=31).contains(&t.day));
    assert!(t.hour <= 23);
    assert!(t.minute <= 59);
    assert!(t.second <= 59);
}
