use chrono::DateTime;
use git_of_theseus::calendar::{
    assign_cohorts, cohort_from_ts, cohort_of_date, timestamp_text, DateError, FIRST_SECOND, LAST_SECOND,
};
use git_of_theseus::git::load_commit_meta;

#[test]
fn cohorts_of_times() {
    assert_eq!(cohort_from_ts(0, "%Y"), Ok("1970".to_string()));
    assert_eq!(cohort_from_ts(-1, "%Y-%m-%d"), Ok("1969-12-31".to_string()));
    assert_eq!(cohort_from_ts(1431648000, "%Y"), Ok("2015".to_string()));
    assert_eq!(cohort_from_ts(1431648000, "%Y-%m"), Ok("2015-05".to_string()));
    assert_eq!(cohort_from_ts(1431648000, "all"), Ok("all".to_string()));
    assert_eq!(cohort_from_ts(1431648000, ""), Ok("".to_string()));
}

#[test]
fn times_outside_the_calendar() {
    assert_eq!(
        cohort_from_ts(LAST_SECOND + 1, "%Y"),
        Err(DateError::BadTimestamp(LAST_SECOND + 1))
    );
    assert_eq!(cohort_from_ts(i64::MIN, "%Y"), Err(DateError::BadTimestamp(i64::MIN)));
    assert_eq!(timestamp_text(i64::MAX), Err(DateError::BadTimestamp(i64::MAX)));
}

#[test]
fn malformed_formats() {
    assert_eq!(cohort_from_ts(0, "%"), Err(DateError::BadFormat));
    assert_eq!(cohort_from_ts(0, "%Q"), Err(DateError::BadFormat));
    assert_eq!(cohort_from_ts(i64::MAX, "%Q"), Err(DateError::BadTimestamp(i64::MAX)));
}

#[test]
fn bounds_are_those_of_chrono() {
    assert!(DateTime::from_timestamp(FIRST_SECOND, 0).is_some());
    assert!(DateTime::from_timestamp(FIRST_SECOND - 1, 0).is_none());
    assert!(DateTime::from_timestamp(LAST_SECOND, 0).is_some());
    assert!(DateTime::from_timestamp(LAST_SECOND + 1, 0).is_none());
}

#[test]
fn time_stamps() {
    assert_eq!(timestamp_text(0), Ok("1970-01-01T00:00:00+00:00".to_string()));
    assert_eq!(timestamp_text(1431648000), Ok("2015-05-15T00:00:00+00:00".to_string()));
    assert_eq!(timestamp_text(-1), Ok("1969-12-31T23:59:59+00:00".to_string()));
    assert_eq!(
        timestamp_text(LAST_SECOND),
        Ok("+262142-12-31T23:59:59+00:00".to_string())
    );
    assert_eq!(
        timestamp_text(FIRST_SECOND),
        Ok("-262143-01-01T00:00:00+00:00".to_string())
    );
}

#[test]
fn cohorts_of_commits() {
    let commits = load_commit_meta("a\t0\tA\ta@x\nb\t1431648000\tB\tb@y\n");
    match assign_cohorts(&commits, "%Y") {
        Ok(cohorts) => {
            assert_eq!(cohorts.len(), 2);
            assert_eq!(cohorts.get("a").unwrap(), "1970");
            assert_eq!(cohorts.get("b").unwrap(), "2015");
        }
        Err(_) => panic!("all times have a cohort"),
    }
}

#[test]
fn first_commit_without_cohort() {
    let log = format!("a\t0\tA\ta@x\nb\t{}\tB\tb@y\nc\t{}\tC\tc@z\n", i64::MAX, i64::MIN);
    let commits = load_commit_meta(&log);
    match assign_cohorts(&commits, "%Y") {
        Ok(_) => panic!("two times have no cohort"),
        Err(e) => assert_eq!(e, DateError::BadTimestamp(i64::MAX)),
    }
    match assign_cohorts(&commits, "%Q") {
        Ok(_) => panic!("the format is malformed"),
        Err(e) => assert_eq!(e, DateError::BadFormat),
    }
}

#[test]
fn cohorts_of_written_dates() {
    let written = || Some("1984".to_string());
    assert_eq!(cohort_of_date(7, true, written()), Ok("1984".to_string()));
    assert_eq!(cohort_of_date(7, true, None), Err(DateError::BadFormat));
    assert_eq!(cohort_of_date(7, false, None), Err(DateError::BadTimestamp(7)));
    assert_eq!(cohort_of_date(7, false, written()), Err(DateError::BadTimestamp(7)));
}
