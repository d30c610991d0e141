use cstimer_analyzer::dates::{date_of_timestamp, Date};
use cstimer_analyzer::options::TargetRange;
use cstimer_analyzer::record::{Record, SolveState};
use cstimer_analyzer::session::Session;

fn clean_record(time: u32, ts: i64) -> Record {
    Record::from(SolveState::Clean, time, String::new(), String::new(), ts)
}

fn session_of(times: &[u32]) -> Session {
    let records: Vec<Record> =
        times.iter().enumerate().map(|(i, t)| clean_record(*t, i as i64)).collect();
    Session::from(1, String::from("main"), (0, 100), records)
}

#[test]
fn session_accessors() {
    let records = vec![
        clean_record(1200, 10),
        Record::from(SolveState::Dnf, 900, String::new(), String::new(), 20),
        Record::from(SolveState::Plus2, 1500, String::new(), String::new(), 30),
    ];
    let session = Session::from(3, String::from("practice"), (10, 30), records);
    assert_eq!(session.rank(), 3);
    assert_eq!(session.name(), "practice");
    assert_eq!(session.date_time(), (10, 30));
    assert_eq!(session.record_count(), 3);
    assert_eq!(session.record_not_dnf_count(), 2);
    assert_eq!(session.records().len(), 3);
    let not_dnf = session.records_not_dnf();
    assert_eq!(not_dnf.len(), 2);
    assert_eq!(not_dnf[0].time(), 1200);
    assert_eq!(not_dnf[1].time(), 1500);
    assert_eq!(session.records()[1].solve_state(), SolveState::Dnf);
}

#[test]
fn recent_count_at_least_total_returns_whole_session() {
    let times = [1200, 1100, 1050, 1300, 1000, 1400, 1600, 900, 1700, 1800, 1950, 1000];
    let session = session_of(&times);
    let sub = session.try_from_target_range(&TargetRange::SolvesCount(20)).unwrap();
    assert_eq!(sub.record_count(), 12);
    for (i, t) in times.iter().enumerate() {
        assert_eq!(sub.records()[i].time(), *t);
    }
    assert_eq!(sub.rank(), session.rank());
    assert_eq!(sub.name(), session.name());
}

#[test]
fn recent_count_takes_trailing_records() {
    let session = session_of(&[1, 2, 3, 4, 5]);
    let sub = session.try_from_target_range(&TargetRange::SolvesCount(3)).unwrap();
    assert_eq!(sub.record_count(), 3);
    assert_eq!(sub.records()[0].time(), 3);
    assert_eq!(sub.records()[1].time(), 4);
    assert_eq!(sub.records()[2].time(), 5);
}

#[test]
fn recent_percentage_rounds_up() {
    let session = session_of(&[1, 2, 3, 4, 5, 6, 7, 8, 9, 10, 11, 12]);
    // 25% of 12 records is exactly 3.
    let sub = session.try_from_target_range(&TargetRange::Percentage(25)).unwrap();
    assert_eq!(sub.record_count(), 3);
    assert_eq!(sub.records()[0].time(), 10);
    // 30% of 12 records is 3.6, rounded up to 4.
    let sub = session.try_from_target_range(&TargetRange::Percentage(30)).unwrap();
    assert_eq!(sub.record_count(), 4);
    assert_eq!(sub.records()[0].time(), 9);
}

#[test]
fn recent_date_range_filters_by_utc_day() {
    const DAY: i64 = 86_400;
    let records = vec![
        clean_record(100, 3600),          // 1970-01-01
        clean_record(200, 2 * DAY + 10),  // 1970-01-03
        clean_record(300, 4 * DAY + 10),  // 1970-01-05
    ];
    let session = Session::from(1, String::from("days"), (0, 5 * DAY), records);

    let start = Date { year: 1970, month: 1, day: 3 };
    let open_ended = session
        .try_from_target_range(&TargetRange::DateRange(start, None))
        .unwrap();
    assert_eq!(open_ended.record_count(), 2);
    assert_eq!(open_ended.records()[0].time(), 200);
    assert_eq!(open_ended.records()[1].time(), 300);

    let end = Date { year: 1970, month: 1, day: 3 };
    let bounded = session
        .try_from_target_range(&TargetRange::DateRange(start, Some(end)))
        .unwrap();
    assert_eq!(bounded.record_count(), 1);
    assert_eq!(bounded.records()[0].time(), 200);

    let far = Date { year: 1980, month: 1, day: 1 };
    assert!(session.try_from_target_range(&TargetRange::DateRange(far, None)).is_none());
}

#[test]
fn date_of_timestamp_reads_utc_calendar() {
    assert_eq!(date_of_timestamp(0), Date { year: 1970, month: 1, day: 1 });
    assert_eq!(date_of_timestamp(365 * 86_400), Date { year: 1971, month: 1, day: 1 });
    assert_eq!(date_of_timestamp(86_399), Date { year: 1970, month: 1, day: 1 });
    assert_eq!(date_of_timestamp(86_400), Date { year: 1970, month: 1, day: 2 });
}

#[test]
fn date_ordering() {
    let a = Date { year: 2023, month: 12, day: 31 };
    let b = Date { year: 2024, month: 1, day: 1 };
    let c = Date { year: 2024, month: 1, day: 15 };
    assert!(a.le(&b));
    assert!(b.le(&c));
    assert!(!c.le(&b));
    assert!(b.le(&b));
}

#[test]
fn record_from_raw_mappings() {
    let rec = Record::from_raw(0, 5000, String::new(), String::new(), 1).unwrap();
    assert_eq!(rec.solve_state(), SolveState::Clean);
    assert_eq!(rec.time(), 5000);

    let rec = Record::from_raw(2000, 5000, String::new(), String::new(), 1).unwrap();
    assert_eq!(rec.solve_state(), SolveState::Plus2);
    assert_eq!(rec.time(), 7000);

    let rec = Record::from_raw(-1, 5000, String::new(), String::new(), 1).unwrap();
    assert_eq!(rec.solve_state(), SolveState::Dnf);
    assert_eq!(rec.time(), 5000);

    let rec = Record::from_raw(0, -5000, String::new(), String::new(), 1).unwrap();
    assert_eq!(rec.solve_state(), SolveState::Dnf);
    assert_eq!(rec.time(), 5000);

    let rec = Record::from_raw(2000, -3000, String::new(), String::new(), 1).unwrap();
    assert_eq!(rec.solve_state(), SolveState::Dnf);
    assert_eq!(rec.time(), 3000);

    assert!(Record::from_raw(7, 5000, String::new(), String::new(), 1).is_none());
}
