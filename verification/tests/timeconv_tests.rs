use osr_codec::timeconv::datetime_to_ticks;
use osr_codec::timeconv::ticks_to_datetime;
use osr_codec::timeconv::ticks_to_unix_seconds;
use osr_codec::timeconv::unix_seconds_to_ticks;

#[test]
fn timestamp_to_datetime() {
    let timestamp_in_ticks = 637691351690000000;
    let datetime = ticks_to_datetime(timestamp_in_ticks).unwrap();

    assert_eq!(datetime.format_ymd_hms(), "2021-10-06 16:39:29")
}

#[test]
fn ticks_to_seconds_drops_the_subsecond_part() {
    // 637691351690000000 ticks carry no sub-second part; one more tick
    // still lands in the same second.
    assert_eq!(ticks_to_unix_seconds(637691351690000000), 1633538369);
    assert_eq!(ticks_to_unix_seconds(637691351690000001), 1633538369);
}

#[test]
fn seconds_to_ticks_round_trip() {
    let ticks = unix_seconds_to_ticks(1633538369).unwrap();
    assert_eq!(ticks, 637691351690000000);
    assert_eq!(ticks_to_unix_seconds(ticks), 1633538369);
}

#[test]
fn seconds_before_the_tick_epoch_are_rejected() {
    assert_eq!(unix_seconds_to_ticks(-62_135_596_800), Some(0));
    assert_eq!(unix_seconds_to_ticks(-62_135_596_801), None);
    assert_eq!(unix_seconds_to_ticks(i64::MAX), None);
}

#[test]
fn datetime_fields_of_a_tick_count() {
    let dt = ticks_to_datetime(637691351690000000).unwrap();
    assert_eq!(dt.year, 2021);
    assert_eq!(dt.month, 10);
    assert_eq!(dt.day, 6);
    assert_eq!(dt.hour, 16);
    assert_eq!(dt.minute, 39);
    assert_eq!(dt.second, 29);
}

#[test]
fn datetime_to_ticks_inverts_ticks_to_datetime() {
    let dt = ticks_to_datetime(637691351690000000).unwrap();
    assert_eq!(datetime_to_ticks(&dt), Some(637691351690000000));
}

#[test]
fn datetime_to_ticks_rejects_impossible_fields() {
    let mut dt = ticks_to_datetime(637691351690000000).unwrap();
    dt.month = 13;
    assert_eq!(datetime_to_ticks(&dt), None);
    dt.month = 2;
    dt.day = 30;
    assert_eq!(datetime_to_ticks(&dt), None);
}
