use cstimer_analyzer::time::HumanReadable;

#[test]
fn test_to_readable_string() {
    let pairs = [
        (0, "0.000"),
        (1, "0.001"),
        (12, "0.012"),
        (123, "0.123"),
        (1000, "1.000"),
        (1001, "1.001"),
        (1012, "1.012"),
        (1123, "1.123"),
        (10000, "10.000"),
        (10001, "10.001"),
        (10012, "10.012"),
        (10123, "10.123"),
        (60000, "1:00.000"),
        (3_600_000, "1:0:00.000"),
    ];

    for (millis, readable) in pairs {
        let millis: u32 = millis;
        assert_eq!(millis.to_readable_string(), readable.to_string());
    }
}

/// Reads a readable duration string back into milliseconds.
fn millis_of_readable(s: &str) -> u32 {
    let mut units: Vec<&str> = s.split(':').collect();
    let sec_part = units.pop().unwrap();
    let (secs, millis) = sec_part.split_once('.').unwrap();
    let mut total: u32 = secs.parse::<u32>().unwrap() * 1000 + millis.parse::<u32>().unwrap();
    let mut factor: u32 = 60_000;
    while let Some(unit) = units.pop() {
        total += unit.parse::<u32>().unwrap() * factor;
        factor *= 60;
    }
    total
}

#[test]
fn readable_round_trip_boundaries() {
    let boundaries: [u32; 9] =
        [0, 999, 1000, 9999, 10000, 59999, 60000, 3_599_999, 3_600_000];

    for millis in boundaries {
        let readable = millis.to_readable_string();
        assert_eq!(millis_of_readable(&readable), millis);
    }
}
