use cstimer_analyzer::options::StatsType;
use cstimer_analyzer::record::{Record, SolveState};
use cstimer_analyzer::session::Session;

fn record_of(state: SolveState, time: u32, comment: &str, ts: i64) -> Record {
    Record::from(state, time, String::new(), String::from(comment), ts)
}

fn session_of(records: Vec<Record>) -> Session {
    Session::from(1, String::from("main"), (0, 100), records)
}

fn clean_session(times: &[u32]) -> Session {
    session_of(
        times
            .iter()
            .enumerate()
            .map(|(i, t)| record_of(SolveState::Clean, *t, "", i as i64))
            .collect(),
    )
}

const SCENARIO: [u32; 12] =
    [1200, 1100, 1050, 1300, 1000, 1400, 1600, 900, 1700, 1800, 1950, 1000];

#[test]
fn pbs_single_scenario() {
    let session = clean_session(&SCENARIO);
    let pbs = session.pbs(&StatsType::Single);
    let entries: Vec<(usize, u32)> = pbs.iter().map(|e| (e.0, e.1)).collect();
    // The opening record sets the first best; after it, only strict
    // improvements are emitted.
    assert_eq!(entries, vec![(0, 1200), (1, 1100), (2, 1050), (4, 1000), (7, 900)]);
    assert_eq!(&entries[1..], &[(1, 1100), (2, 1050), (4, 1000), (7, 900)]);
    for e in &pbs {
        assert_eq!(e.2.time(), e.1);
    }
}

#[test]
fn pbs_ties_are_not_personal_bests() {
    let session = clean_session(&[1000, 1000, 900, 900]);
    let pbs = session.pbs(&StatsType::Single);
    let entries: Vec<(usize, u32)> = pbs.iter().map(|e| (e.0, e.1)).collect();
    assert_eq!(entries, vec![(0, 1000), (2, 900)]);
}

#[test]
fn pbs_trends_scenario() {
    let session = clean_session(&SCENARIO);
    let pbs = session.pbs(&StatsType::Single);
    let trends = session.pbs_trends(&pbs);
    let expected: Vec<(usize, u32)> = vec![
        (1, 1200),
        (2, 1100),
        (3, 1050),
        (4, 1050),
        (5, 1000),
        (6, 1000),
        (7, 1000),
        (8, 900),
        (9, 900),
        (10, 900),
        (11, 900),
        (12, 900),
    ];
    assert_eq!(trends, expected);
}

#[test]
fn summary_scenario() {
    let session = clean_session(&SCENARIO);
    let (best, worst, mean, average) = session.summary();
    assert_eq!(best, 900);
    assert_eq!(worst, 1950);
    // The times sum to 16000 over 12 records: 1333.33 rounds to 1333.
    assert_eq!(mean, 1333);
    // Cutoff for 12 records is 1: the sorted times lose 900 and 1950, the
    // remaining ten average to 1315.
    assert_eq!(average, Some(1315));
}

#[test]
fn summary_mean_rounds_half_up() {
    let session = clean_session(&[1, 2]);
    let (best, worst, mean, average) = session.summary();
    assert_eq!(best, 1);
    assert_eq!(worst, 2);
    assert_eq!(mean, 2);
    // An average over two records would trim one from each end: no value.
    assert_eq!(average, None);
}

#[test]
fn solve_states_partition() {
    let session = session_of(vec![
        record_of(SolveState::Clean, 1000, "", 0),
        record_of(SolveState::Plus2, 1500, "", 1),
        record_of(SolveState::Dnf, 900, "", 2),
        record_of(SolveState::Clean, 1100, "", 3),
        record_of(SolveState::Dnf, 800, "", 4),
    ]);
    assert_eq!(session.solve_states(), (2, 1, 2));
}

#[test]
fn trend_mean_blocked_by_dnf() {
    let session = session_of(vec![
        record_of(SolveState::Clean, 1000, "", 0),
        record_of(SolveState::Dnf, 1500, "", 1),
        record_of(SolveState::Clean, 1100, "", 2),
        record_of(SolveState::Clean, 1200, "", 3),
        record_of(SolveState::Clean, 1300, "", 4),
    ]);
    let trend = session.trend(&StatsType::Mean(3));
    assert_eq!(trend, vec![(1, 0), (2, 0), (3, 0), (4, 0), (5, 1200)]);
}

#[test]
fn trend_average_tolerates_one_dnf() {
    let session = session_of(vec![
        record_of(SolveState::Dnf, 1000, "", 0),
        record_of(SolveState::Clean, 1100, "", 1),
        record_of(SolveState::Clean, 1200, "", 2),
        record_of(SolveState::Clean, 1300, "", 3),
        record_of(SolveState::Clean, 1400, "", 4),
    ]);
    // With the DNF counting as slowest, the trimmed middle is 1200..1400.
    let trend = session.trend(&StatsType::Average(5));
    assert_eq!(trend, vec![(1, 0), (2, 0), (3, 0), (4, 0), (5, 1300)]);
}

#[test]
fn trend_average_rejected_past_dnf_threshold() {
    let session = session_of(vec![
        record_of(SolveState::Dnf, 1000, "", 0),
        record_of(SolveState::Dnf, 1100, "", 1),
        record_of(SolveState::Clean, 1200, "", 2),
        record_of(SolveState::Clean, 1300, "", 3),
        record_of(SolveState::Clean, 1400, "", 4),
    ]);
    // Two DNFs exceed the cutoff of one: no value, rendered as zero.
    let trend = session.trend(&StatsType::Average(5));
    assert_eq!(trend, vec![(1, 0), (2, 0), (3, 0), (4, 0), (5, 0)]);
}

#[test]
fn trend_single_shows_each_time() {
    let session = clean_session(&[500, 600, 700]);
    assert_eq!(session.trend(&StatsType::Single), vec![(1, 500), (2, 600), (3, 700)]);
}

#[test]
fn decide_interval_scenario() {
    // A spread of 900 to 1950 ms: the interval nearest 24 buckets among
    // multiples of 100 is 100 itself.
    let session = clean_session(&SCENARIO);
    assert_eq!(session.decide_interval(), 100);
}

#[test]
fn decide_interval_narrow_spread_defaults_to_grain() {
    let session = clean_session(&[1000, 1050]);
    assert_eq!(session.decide_interval(), 100);
}

#[test]
fn group_counts_by_interval() {
    let session = clean_session(&SCENARIO);
    let groups = session.group(100, &StatsType::Single);
    let expected: Vec<(u32, usize)> = vec![
        (900, 1),
        (1000, 3),
        (1100, 1),
        (1200, 1),
        (1300, 1),
        (1400, 1),
        (1500, 0),
        (1600, 1),
        (1700, 1),
        (1800, 1),
        (1900, 1),
    ];
    assert_eq!(groups, expected);
}

#[test]
fn group_with_auto_interval_scenario() {
    let session = clean_session(&SCENARIO);
    let interval = session.decide_interval();
    assert_eq!(interval, 100);
    let groups = session.group(interval, &StatsType::Single);
    assert_eq!(groups.len(), 11);
    let total: usize = groups.iter().map(|g| g.1).sum();
    assert_eq!(total, 12);
}

#[test]
fn group_drops_undefined_stats() {
    let session = session_of(vec![
        record_of(SolveState::Dnf, 1000, "", 0),
        record_of(SolveState::Clean, 1150, "", 1),
    ]);
    let groups = session.group(100, &StatsType::Single);
    assert_eq!(groups, vec![(1100, 1)]);
    // A lone value on an exact interval boundary floors and ceils to the
    // same bound: no bucket at all.
    let session = session_of(vec![record_of(SolveState::Clean, 1100, "", 0)]);
    assert_eq!(session.group(100, &StatsType::Single), vec![]);
}

#[test]
fn commented_records_keep_order_and_one_based_positions() {
    let session = session_of(vec![
        record_of(SolveState::Clean, 1000, "", 0),
        record_of(SolveState::Clean, 1100, "nice", 1),
        record_of(SolveState::Clean, 1200, "", 2),
        record_of(SolveState::Dnf, 1300, "popped", 3),
    ]);
    let commented = session.commented_records();
    assert_eq!(commented.len(), 2);
    assert_eq!(commented[0].0, 2);
    assert_eq!(commented[0].1.comment(), "nice");
    assert_eq!(commented[1].0, 4);
    assert_eq!(commented[1].1.comment(), "popped");
}

#[test]
fn days_with_record_counts_distinct_days() {
    const DAY: i64 = 86_400;
    let session = session_of(vec![
        record_of(SolveState::Clean, 1000, "", 0),
        record_of(SolveState::Clean, 1100, "", 10),
        record_of(SolveState::Clean, 1200, "", DAY),
        record_of(SolveState::Clean, 1300, "", DAY + 5),
        record_of(SolveState::Clean, 1400, "", 2 * DAY),
    ]);
    assert_eq!(session.days_with_record(), 3);
}
