use chrono::DateTime;
use chrono::Duration;
use chrono::Timelike;
use chrono::Utc;
use gfs_index::s3_utils::build_grib_key_prefix;
use gfs_index::time::determine_latest_possible_run;
use gfs_index::time::previous_run;
use gfs_index::time::UtcInstant;

fn instant_of(time: DateTime<Utc>) -> UtcInstant {
    UtcInstant { secs: time.timestamp(), nanos: time.timestamp_subsec_nanos() }
}

fn sample_times() -> Vec<DateTime<Utc>> {
    let mut times = Vec::new();
    let mut secs: i64 = -3 * 86400 - 12345;
    while secs < 1_900_000_000 {
        times.push(DateTime::from_timestamp(secs, 123_456_789).unwrap());
        secs += 7_654_321;
    }
    times.push(DateTime::from_timestamp(1709251199, 999_999_999).unwrap());
    times.push(DateTime::from_timestamp(1709251200, 0).unwrap());
    times.push(DateTime::from_timestamp(951782400, 0).unwrap());
    times
}

#[test]
fn latest_run_agrees_with_the_calendar() {
    for now in sample_times() {
        let hour = (now.hour() / 6) * 6;
        let expected = now
            .with_hour(hour)
            .unwrap()
            .with_minute(0)
            .unwrap()
            .with_second(0)
            .unwrap()
            .with_nanosecond(0)
            .unwrap();
        let run = determine_latest_possible_run(instant_of(now)).unwrap();
        assert_eq!(run, instant_of(expected), "{}", now);
        assert_eq!(expected.hour() % 6, 0);
        assert!(expected <= now);
    }
}

#[test]
fn previous_run_agrees_with_the_calendar() {
    for now in sample_times() {
        let run = determine_latest_possible_run(instant_of(now)).unwrap();
        let earlier = previous_run(run).unwrap();
        let latest = DateTime::from_timestamp(run.secs, run.nanos).unwrap();
        assert_eq!(earlier, instant_of(latest - Duration::hours(6)));
    }
}

#[test]
fn prefix_agrees_with_the_calendar_format() {
    for now in sample_times() {
        let run = determine_latest_possible_run(instant_of(now)).unwrap();
        let latest = DateTime::from_timestamp(run.secs, run.nanos).unwrap();
        let expected = latest.format("gfs.%Y%m%d/%H/atmos/gfs.t%Hz.pgrb2.0p25").to_string();
        assert_eq!(build_grib_key_prefix(&run), Some(expected));
    }
}
