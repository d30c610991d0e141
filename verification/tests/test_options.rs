use cstimer_analyzer::dates::Date;
use cstimer_analyzer::options::{
    AnalysisOption, ParseAnalysisOptionError, ParseStatsTypeError, ParseTargetRangeError,
    StatsType, TargetRange,
};

#[test]
fn stats_type_parse_scenarios() {
    assert_eq!(StatsType::try_from("AO5"), Ok(StatsType::Average(5)));
    assert_eq!(StatsType::try_from("mo1"), Ok(StatsType::Single));
    assert_eq!(StatsType::try_from("ao0"), Err(ParseStatsTypeError::ScaleIsZero));
}

#[test]
fn stats_type_parse_variants() {
    assert_eq!(StatsType::try_from("single"), Ok(StatsType::Single));
    assert_eq!(StatsType::try_from("  SINGLE  "), Ok(StatsType::Single));
    assert_eq!(StatsType::try_from(" MO12 "), Ok(StatsType::Mean(12)));
    assert_eq!(StatsType::try_from("ao1"), Ok(StatsType::Single));
    assert_eq!(StatsType::try_from("mo0"), Err(ParseStatsTypeError::ScaleIsZero));
    assert_eq!(StatsType::try_from("mo"), Err(ParseStatsTypeError::InvalidScale));
    assert_eq!(StatsType::try_from("mo5x"), Err(ParseStatsTypeError::InvalidScale));
    assert_eq!(StatsType::try_from("xyz"), Err(ParseStatsTypeError::InvalidFormat));
    assert_eq!(StatsType::try_from(""), Err(ParseStatsTypeError::InvalidFormat));
    assert_eq!(StatsType::try_from("ao007"), Ok(StatsType::Average(7)));
}

#[test]
fn stats_type_scale() {
    assert_eq!(StatsType::Single.scale(), 1);
    assert_eq!(StatsType::Mean(3).scale(), 3);
    assert_eq!(StatsType::Average(12).scale(), 12);
}

#[test]
fn percentage_bounds_rejected_at_parse() {
    assert_eq!(
        TargetRange::try_from("100%"),
        Err(ParseTargetRangeError::InvalidPercentage)
    );
    assert_eq!(
        TargetRange::try_from("0%"),
        Err(ParseTargetRangeError::InvalidPercentage)
    );
    assert_eq!(TargetRange::try_from("1%"), Ok(TargetRange::Percentage(1)));
    assert_eq!(TargetRange::try_from("99%"), Ok(TargetRange::Percentage(99)));
    assert_eq!(
        TargetRange::try_from("300%"),
        Err(ParseTargetRangeError::InvalidNumber)
    );
    assert_eq!(
        TargetRange::try_from("x%"),
        Err(ParseTargetRangeError::InvalidNumber)
    );
}

#[test]
fn target_range_counts() {
    assert_eq!(TargetRange::try_from("12"), Ok(TargetRange::SolvesCount(12)));
    assert_eq!(TargetRange::try_from(" 7 "), Ok(TargetRange::SolvesCount(7)));
    assert_eq!(TargetRange::try_from("0"), Err(ParseTargetRangeError::InvalidNumber));
}

#[test]
fn target_range_dates() {
    let start = Date { year: 2024, month: 1, day: 2 };
    let end = Date { year: 2024, month: 2, day: 3 };
    assert_eq!(
        TargetRange::try_from("2024-01-02"),
        Ok(TargetRange::DateRange(start, None))
    );
    assert_eq!(
        TargetRange::try_from("2024-01-02, 2024-02-03"),
        Ok(TargetRange::DateRange(start, Some(end)))
    );
    assert_eq!(
        TargetRange::try_from("2024-02-03,2024-01-02"),
        Err(ParseTargetRangeError::InvalidDateRange)
    );
    assert_eq!(
        TargetRange::try_from("2024-01-01,2024-01-02,2024-01-03"),
        Err(ParseTargetRangeError::InvalidDateCount)
    );
    assert_eq!(
        TargetRange::try_from("2024-13-01"),
        Err(ParseTargetRangeError::InvalidDateFormat)
    );
    assert_eq!(
        TargetRange::try_from("abc"),
        Err(ParseTargetRangeError::InvalidDateFormat)
    );
}

#[test]
fn analysis_option_parse() {
    assert_eq!(AnalysisOption::try_from("summary"), Ok(AnalysisOption::Summary));
    assert_eq!(AnalysisOption::try_from("commented"), Ok(AnalysisOption::Commented));
    assert_eq!(
        AnalysisOption::try_from("pbs(ao5)"),
        Ok(AnalysisOption::Pbs(StatsType::Average(5)))
    );
    assert_eq!(
        AnalysisOption::try_from("group(ao5,100)"),
        Ok(AnalysisOption::Group(StatsType::Average(5), 100))
    );
    assert_eq!(
        AnalysisOption::try_from("group(mo3, 0)"),
        Ok(AnalysisOption::Group(StatsType::Mean(3), 0))
    );
    assert_eq!(
        AnalysisOption::try_from("trend(mo3)"),
        Ok(AnalysisOption::Trend(StatsType::Mean(3)))
    );
    assert_eq!(
        AnalysisOption::try_from("recent(50%)"),
        Ok(AnalysisOption::Recent(TargetRange::Percentage(50)))
    );
    assert_eq!(
        AnalysisOption::try_from("recent(10)"),
        Ok(AnalysisOption::Recent(TargetRange::SolvesCount(10)))
    );
}

#[test]
fn analysis_option_parse_errors() {
    assert_eq!(
        AnalysisOption::try_from("bogus"),
        Err(ParseAnalysisOptionError::InvalidFormat)
    );
    assert_eq!(
        AnalysisOption::try_from("pbs(ao0)"),
        Err(ParseAnalysisOptionError::InvalidStats(ParseStatsTypeError::ScaleIsZero))
    );
    assert_eq!(
        AnalysisOption::try_from("recent(100%)"),
        Err(ParseAnalysisOptionError::InvalidTarget(
            ParseTargetRangeError::InvalidPercentage
        ))
    );
    assert_eq!(
        AnalysisOption::try_from("group(ao5)"),
        Err(ParseAnalysisOptionError::InvalidFormat)
    );
    assert_eq!(
        AnalysisOption::try_from("group(ao5,x)"),
        Err(ParseAnalysisOptionError::InvalidStats(ParseStatsTypeError::InvalidScale))
    );
    assert_eq!(
        AnalysisOption::try_from("pbs(ao5"),
        Err(ParseAnalysisOptionError::InvalidFormat)
    );
    // This entry point expects sanitized lines: upper case is not folded here.
    assert_eq!(
        AnalysisOption::try_from("SUMMARY"),
        Err(ParseAnalysisOptionError::InvalidFormat)
    );
}

#[test]
fn analysis_option_stats_type() {
    assert_eq!(
        AnalysisOption::Pbs(StatsType::Average(5)).stats_type(),
        Some(&StatsType::Average(5))
    );
    assert_eq!(
        AnalysisOption::Group(StatsType::Mean(3), 100).stats_type(),
        Some(&StatsType::Mean(3))
    );
    assert_eq!(
        AnalysisOption::Trend(StatsType::Single).stats_type(),
        Some(&StatsType::Single)
    );
    assert_eq!(AnalysisOption::Summary.stats_type(), None);
    assert_eq!(AnalysisOption::Commented.stats_type(), None);
    assert_eq!(
        AnalysisOption::Recent(TargetRange::SolvesCount(5)).stats_type(),
        None
    );
}
