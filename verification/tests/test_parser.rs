use cstimer_analyzer::dates::Date;
use cstimer_analyzer::options::{AnalysisOption, StatsType, TargetRange};
use cstimer_analyzer::parser::parse_options;

#[test]
fn parse_options_pipeline() {
    let text = "summary\n# whole-line comment\nPBS(AO5)\nsummary\n\n  group(ao12, 0) # trailing comment\nrecent(25%)\nnot an option\ncommented\n";
    let options = parse_options(text);
    assert_eq!(
        options,
        vec![
            AnalysisOption::Summary,
            AnalysisOption::Pbs(StatsType::Average(5)),
            AnalysisOption::Group(StatsType::Average(12), 0),
            AnalysisOption::Recent(TargetRange::Percentage(25)),
            AnalysisOption::Commented,
        ]
    );
}

#[test]
fn parse_options_deduplicates_preserving_order() {
    let text = "pbs(ao5)\nsummary\npbs( AO5 )\nsummary";
    let options = parse_options(text);
    assert_eq!(
        options,
        vec![
            AnalysisOption::Pbs(StatsType::Average(5)),
            AnalysisOption::Summary,
        ]
    );
}

#[test]
fn parse_options_drops_bad_lines_silently() {
    let text = "##\nnope\nmo5\n100%\n";
    assert_eq!(parse_options(text), vec![]);
    assert_eq!(parse_options(""), vec![]);
}

#[test]
fn parse_options_handles_crlf_lines() {
    let text = "summary\r\ncommented\r\n";
    let options = parse_options(text);
    assert_eq!(
        options,
        vec![AnalysisOption::Summary, AnalysisOption::Commented]
    );
}

#[test]
fn parse_options_reads_date_ranges() {
    let text = "recent(2024-01-01,2024-02-01)\nrecent( 2024-01-01 , 2024-02-01 )\nrecent(2024-03-05)";
    let options = parse_options(text);
    let start = Date { year: 2024, month: 1, day: 1 };
    let end = Date { year: 2024, month: 2, day: 1 };
    let lone = Date { year: 2024, month: 3, day: 5 };
    assert_eq!(
        options,
        vec![
            AnalysisOption::Recent(TargetRange::DateRange(start, Some(end))),
            AnalysisOption::Recent(TargetRange::DateRange(lone, None)),
        ]
    );
}

#[test]
fn parse_options_keeps_distinct_variants() {
    let text = "recent(5)\nrecent(5%)\npbs(mo5)\npbs(ao5)\ngroup(ao5,100)\ngroup(ao5,200)";
    let options = parse_options(text);
    assert_eq!(options.len(), 6);
}
