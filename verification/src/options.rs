//! The option language: the statistic-kind grammar (`single`, `mo<n>`,
//! `ao<n>`), the target-range grammar (a count, a percentage, or one or two
//! dates), and the analysis options built from them.

use vstd::prelude::*;

use crate::dates::{date_parse_of, parse_ymd, Date};
use crate::text::{
    chars_eq_str, lower_chars, lower_spec, parse_num_spec, parse_usize_digits, parse_usize_spec,
    split_chars, split_spec, str_chars, subvec_chars, trim_chars, trim_spec,
};
use crate::time::Milliseconds;

verus! {

/// The scale of statistics.
pub type StatsScale = usize;

/// The type of statistics.
#[derive(Debug, Clone, Copy, PartialEq, Eq, Hash, Structural)]
pub enum StatsType {
    /// A single solve.
    Single,

    /// The plain mean of some solves, no DNF allowed.
    Mean(StatsScale),

    /// The cutoff average of some solves, cutting off at least 5% of the
    /// records on both ends; up to 5% DNFs are allowed.
    Average(StatsScale),
}

/// An error which can be returned when parsing a `StatsType`.
#[derive(Debug, Clone, Copy, PartialEq, Eq, Structural)]
pub enum ParseStatsTypeError {
    /// Unknown format.
    InvalidFormat,

    /// The scale is not a readable number.
    InvalidScale,

    /// The scale is zero.
    ScaleIsZero,
}

impl StatsType {
    /// The scale of the stats type.
    pub open spec fn spec_scale(&self) -> StatsScale {
        match self {
            StatsType::Single => 1,
            StatsType::Mean(scale) => *scale,
            StatsType::Average(scale) => *scale,
        }
    }

    /// Returns the scale of the stats type.
    #[verifier::when_used_as_spec(spec_scale)]
    pub fn scale(&self) -> (r: StatsScale)
        ensures
            r == self.spec_scale(),
    {
        match self {
            StatsType::Single => 1,
            StatsType::Mean(scale) => *scale,
            StatsType::Average(scale) => *scale,
        }
    }

    /// True of every stats type a parse can produce: the scale is positive,
    /// and a scale of one is canonicalized to `Single`.
    pub open spec fn wf(&self) -> bool {
        match self {
            StatsType::Single => true,
            StatsType::Mean(scale) => *scale >= 2,
            StatsType::Average(scale) => *scale >= 2,
        }
    }
}

/// The stats type denoted by a scale read from the text after `mo` or `ao`:
/// a missing or unreadable number is an error, zero is an error, one is
/// canonicalized to `Single`.
pub open spec fn scaled_stats(n: Option<StatsScale>, average: bool) -> Result<
    StatsType,
    ParseStatsTypeError,
> {
    match n {
        None => Err(ParseStatsTypeError::InvalidScale),
        Some(scale) => if scale == 0 {
            Err(ParseStatsTypeError::ScaleIsZero)
        } else if scale == 1 {
            Ok(StatsType::Single)
        } else if average {
            Ok(StatsType::Average(scale))
        } else {
            Ok(StatsType::Mean(scale))
        },
    }
}

/// The stats type denoted by `s`: after trimming and lowercasing, `single`,
/// `mo` followed by a positive number, or `ao` followed by a positive number.
pub open spec fn parse_stats_type_spec(s: Seq<char>) -> Result<StatsType, ParseStatsTypeError> {
    let t = lower_spec(trim_spec(s));
    if t == "single"@ {
        Ok(StatsType::Single)
    } else if t.len() >= 2 && t.subrange(0, 2) == "mo"@ {
        scaled_stats(parse_usize_spec(t.skip(2)), false)
    } else if t.len() >= 2 && t.subrange(0, 2) == "ao"@ {
        scaled_stats(parse_usize_spec(t.skip(2)), true)
    } else {
        Err(ParseStatsTypeError::InvalidFormat)
    }
}

/// Parses a stats type from the characters of a line.
fn parse_stats_type_vec(cs: &Vec<char>) -> (r: Result<StatsType, ParseStatsTypeError>)
    ensures
        r == parse_stats_type_spec(cs@),
        r matches Ok(t) ==> t.wf(),
{
    let trimmed = trim_chars(cs);
    let t = lower_chars(&trimmed);
    let n = t.len();

    if chars_eq_str(&t, 0, n, "single") {
        proof {
            assert(t@.subrange(0, n as int) =~= t@);
        }
        return Ok(StatsType::Single);
    }
    proof {
        assert(t@.subrange(0, n as int) =~= t@);
    }

    if n >= 2 && chars_eq_str(&t, 0, 2, "mo") {
        let scale = parse_usize_digits(&t, 2, n);
        proof {
            assert(t@.subrange(2, n as int) =~= t@.skip(2));
        }
        return match scale {
            None => Err(ParseStatsTypeError::InvalidScale),
            Some(0) => Err(ParseStatsTypeError::ScaleIsZero),
            Some(1) => Ok(StatsType::Single),
            Some(k) => Ok(StatsType::Mean(k)),
        };
    }

    if n >= 2 && chars_eq_str(&t, 0, 2, "ao") {
        let scale = parse_usize_digits(&t, 2, n);
        proof {
            assert(t@.subrange(2, n as int) =~= t@.skip(2));
        }
        return match scale {
            None => Err(ParseStatsTypeError::InvalidScale),
            Some(0) => Err(ParseStatsTypeError::ScaleIsZero),
            Some(1) => Ok(StatsType::Single),
            Some(k) => Ok(StatsType::Average(k)),
        };
    }

    Err(ParseStatsTypeError::InvalidFormat)
}

impl StatsType {
    /// Parses a stats type from text.
    pub fn try_from(value: &str) -> (r: Result<StatsType, ParseStatsTypeError>)
        ensures
            r == parse_stats_type_spec(value@),
            r matches Ok(t) ==> t.wf(),
    {
        let cs = str_chars(value);
        parse_stats_type_vec(&cs)
    }
}

/// An error which can be returned when parsing a `TargetRange`.
#[derive(Debug, Clone, Copy, PartialEq, Eq, Structural)]
pub enum ParseTargetRangeError {
    /// Unknown format.
    InvalidFormat,

    /// The count or percentage is not a readable number.
    InvalidNumber,

    /// The percentage lies outside 1 to 99.
    InvalidPercentage,

    /// More than two dates.
    InvalidDateCount,

    /// A date does not read as `YYYY-MM-DD`.
    InvalidDateFormat,

    /// The end date is earlier than the start date.
    InvalidDateRange,
}

/// A trailing subset of a session's records.
#[derive(Debug, Clone, Copy, PartialEq, Eq)]
pub enum TargetRange {
    /// Count of solves, must be > 0.
    SolvesCount(usize),

    /// Percentage in [1, 99].
    Percentage(u8),

    /// Start from a specific date, up to an optional end date.
    DateRange(Date, Option<Date>),
}

impl TargetRange {
    /// True of every target range a parse can produce.
    pub open spec fn wf(&self) -> bool {
        match self {
            TargetRange::SolvesCount(count) => *count >= 1,
            TargetRange::Percentage(pct) => 1 <= *pct <= 99,
            TargetRange::DateRange(start, end) => start.wf() && match end {
                Some(end) => end.wf() && start.spec_le(*end),
                None => true,
            },
        }
    }

    /// Returns true if `self` and `other` are the same range.
    pub fn eq_value(&self, other: &TargetRange) -> (r: bool)
        ensures
            r == (*self == *other),
    {
        match (self, other) {
            (TargetRange::SolvesCount(a), TargetRange::SolvesCount(b)) => a == b,
            (TargetRange::Percentage(a), TargetRange::Percentage(b)) => a == b,
            (TargetRange::DateRange(a, ae), TargetRange::DateRange(b, be)) => a == b && match (
                ae,
                be,
            ) {
                (Some(x), Some(y)) => x == y,
                (None, None) => true,
                _ => false,
            },
            _ => false,
        }
    }
}

/// The `Date` a parsed (year, month, day) triple stands for.
pub open spec fn date_of_triple(d: (i32, u8, u8)) -> Date {
    Date { year: d.0, month: d.1, day: d.2 }
}

/// The target range denoted by `s`, once trimmed: digits ending in `%` are a
/// percentage, bare digits are a count of solves, and anything else is read
/// as one or two comma-separated dates.
pub open spec fn parse_target_range_spec(s: Seq<char>) -> Result<
    TargetRange,
    ParseTargetRangeError,
> {
    let t = trim_spec(s);
    if t.len() > 0 && t.last() == '%' {
        match parse_num_spec(t.drop_last()) {
            Some(p) => if p > u8::MAX {
                Err(ParseTargetRangeError::InvalidNumber)
            } else if 1 <= p <= 99 {
                Ok(TargetRange::Percentage(p as u8))
            } else {
                Err(ParseTargetRangeError::InvalidPercentage)
            },
            None => Err(ParseTargetRangeError::InvalidNumber),
        }
    } else if parse_usize_spec(t) is Some {
        let count = parse_usize_spec(t)->Some_0;
        if count >= 1 {
            Ok(TargetRange::SolvesCount(count))
        } else {
            Err(ParseTargetRangeError::InvalidNumber)
        }
    } else {
        let parts = split_spec(t, ',');
        match date_parse_of(trim_spec(parts[0])) {
            None => Err(ParseTargetRangeError::InvalidDateFormat),
            Some(d0) => if parts.len() == 1 {
                Ok(TargetRange::DateRange(date_of_triple(d0), None))
            } else if parts.len() == 2 {
                match date_parse_of(trim_spec(parts[1])) {
                    None => Err(ParseTargetRangeError::InvalidDateFormat),
                    Some(d1) => if !date_of_triple(d0).spec_le(date_of_triple(d1)) {
                        Err(ParseTargetRangeError::InvalidDateRange)
                    } else {
                        Ok(
                            TargetRange::DateRange(
                                date_of_triple(d0),
                                Some(date_of_triple(d1)),
                            ),
                        )
                    },
                }
            } else {
                Err(ParseTargetRangeError::InvalidDateCount)
            },
        }
    }
}

/// Parses a target range from the characters of a line.
fn parse_target_range_vec(cs: &Vec<char>) -> (r: Result<TargetRange, ParseTargetRangeError>)
    ensures
        r == parse_target_range_spec(cs@),
        r matches Ok(t) ==> t.wf(),
{
    let t = trim_chars(cs);
    let n = t.len();

    if n > 0 && t[n - 1] == '%' {
        proof {
            assert(t@.subrange(0, n - 1) =~= t@.drop_last());
            crate::text::lemma_parse_usize_num(t@.drop_last());
        }
        let p = parse_usize_digits(&t, 0, n - 1);
        return match p {
            Some(p) => if p > u8::MAX as usize {
                Err(ParseTargetRangeError::InvalidNumber)
            } else if 1 <= p && p <= 99 {
                Ok(TargetRange::Percentage(p as u8))
            } else {
                Err(ParseTargetRangeError::InvalidPercentage)
            },
            None => Err(ParseTargetRangeError::InvalidNumber),
        };
    }

    proof {
        assert(t@.subrange(0, n as int) =~= t@);
    }
    if let Some(count) = parse_usize_digits(&t, 0, n) {
        return if count >= 1 {
            Ok(TargetRange::SolvesCount(count))
        } else {
            Err(ParseTargetRangeError::InvalidNumber)
        };
    }

    let parts = split_chars(&t, ',');
    proof {
        lemma_split_nonempty(t@, ',');
    }
    let first = trim_chars(&parts[0]);
    match parse_ymd(&first) {
        None => Err(ParseTargetRangeError::InvalidDateFormat),
        Some((year, month, day)) => {
            let start = Date { year, month, day };
            if parts.len() == 1 {
                Ok(TargetRange::DateRange(start, None))
            } else if parts.len() == 2 {
                let second = trim_chars(&parts[1]);
                match parse_ymd(&second) {
                    None => Err(ParseTargetRangeError::InvalidDateFormat),
                    Some((y2, m2, d2)) => {
                        let end = Date { year: y2, month: m2, day: d2 };
                        if !start.le(&end) {
                            Err(ParseTargetRangeError::InvalidDateRange)
                        } else {
                            Ok(TargetRange::DateRange(start, Some(end)))
                        }
                    },
                }
            } else {
                Err(ParseTargetRangeError::InvalidDateCount)
            }
        },
    }
}

proof fn lemma_split_nonempty(s: Seq<char>, sep: char)
    ensures
        split_spec(s, sep).len() >= 1,
{
}

impl TargetRange {
    /// Parses a target range from text.
    pub fn try_from(input: &str) -> (r: Result<TargetRange, ParseTargetRangeError>)
        ensures
            r == parse_target_range_spec(input@),
            r matches Ok(t) ==> t.wf(),
    {
        let cs = str_chars(input);
        parse_target_range_vec(&cs)
    }
}

/// An error which can be returned when parsing an analysis option.
#[derive(Debug, Clone, Copy, PartialEq, Eq, Structural)]
pub enum ParseAnalysisOptionError {
    /// Unknown format.
    InvalidFormat,

    /// Parsing the stats type or a numeric parameter failed.
    InvalidStats(ParseStatsTypeError),

    /// Parsing the target range failed.
    InvalidTarget(ParseTargetRangeError),
}

/// Option of a single analysis.
#[derive(Debug, Clone, Copy, PartialEq, Eq)]
pub enum AnalysisOption {
    /// A summary over solve times in the session.
    Summary,

    /// PB histories of some stats type.
    Pbs(StatsType),

    /// Groups of solve times of some stats type, by some time interval
    /// between groups.
    Group(StatsType, Milliseconds),

    /// Trends of solve times of some stats type.
    Trend(StatsType),

    /// Some recent solves specified by a number, percentage or a range of
    /// days.
    Recent(TargetRange),

    /// `Record`s that have a non-empty comment.
    Commented,
}

impl AnalysisOption {
    /// The stats type of the analysis option, if it carries one.
    pub open spec fn spec_stats_type(&self) -> Option<StatsType> {
        match self {
            AnalysisOption::Pbs(s_type) => Some(*s_type),
            AnalysisOption::Group(s_type, _) => Some(*s_type),
            AnalysisOption::Trend(s_type) => Some(*s_type),
            _ => None,
        }
    }

    /// Returns the stats type of the analysis option.
    pub fn stats_type(&self) -> (r: Option<&StatsType>)
        ensures
            match r {
                Some(t) => self.spec_stats_type() == Some(*t),
                None => self.spec_stats_type() is None,
            },
    {
        match self {
            AnalysisOption::Pbs(s_type) => Some(s_type),
            AnalysisOption::Group(s_type, _) => Some(s_type),
            AnalysisOption::Trend(s_type) => Some(s_type),
            _ => None,
        }
    }

    /// True of every analysis option a parse can produce.
    pub open spec fn wf(&self) -> bool {
        match self {
            AnalysisOption::Pbs(s_type) => s_type.wf(),
            AnalysisOption::Group(s_type, _) => s_type.wf(),
            AnalysisOption::Trend(s_type) => s_type.wf(),
            AnalysisOption::Recent(range) => range.wf(),
            _ => true,
        }
    }

    /// Returns true if `self` and `other` are the same option.
    pub fn eq_value(&self, other: &AnalysisOption) -> (r: bool)
        ensures
            r == (*self == *other),
    {
        match (self, other) {
            (AnalysisOption::Summary, AnalysisOption::Summary) => true,
            (AnalysisOption::Pbs(a), AnalysisOption::Pbs(b)) => a == b,
            (AnalysisOption::Group(a, ai), AnalysisOption::Group(b, bi)) => a == b && ai == bi,
            (AnalysisOption::Trend(a), AnalysisOption::Trend(b)) => a == b,
            (AnalysisOption::Recent(a), AnalysisOption::Recent(b)) => a.eq_value(b),
            (AnalysisOption::Commented, AnalysisOption::Commented) => true,
            _ => false,
        }
    }
}

/// The interval denoted by the second argument of `group(...)`: trimmed
/// digits that fit in a `Milliseconds`.
pub open spec fn parse_interval_spec(s: Seq<char>) -> Result<
    Milliseconds,
    ParseAnalysisOptionError,
> {
    match parse_num_spec(trim_spec(s)) {
        Some(v) => if v > u32::MAX {
            Err(ParseAnalysisOptionError::InvalidStats(ParseStatsTypeError::InvalidScale))
        } else {
            Ok(v as Milliseconds)
        },
        None => Err(ParseAnalysisOptionError::InvalidStats(ParseStatsTypeError::InvalidScale)),
    }
}

/// The analysis option denoted by a sanitized (lowercased, trimmed) line.
pub open spec fn parse_analysis_option_spec(s: Seq<char>) -> Result<
    AnalysisOption,
    ParseAnalysisOptionError,
> {
    if s == "summary"@ {
        Ok(AnalysisOption::Summary)
    } else if s.len() >= 5 && s.subrange(0, 4) == "pbs("@ && s.last() == ')' {
        match parse_stats_type_spec(s.subrange(4, s.len() - 1)) {
            Ok(stats) => Ok(AnalysisOption::Pbs(stats)),
            Err(e) => Err(ParseAnalysisOptionError::InvalidStats(e)),
        }
    } else if s.len() >= 7 && s.subrange(0, 6) == "group("@ && s.last() == ')' {
        let parts = split_spec(s.subrange(6, s.len() - 1), ',');
        if parts.len() != 2 {
            Err(ParseAnalysisOptionError::InvalidFormat)
        } else {
            match parse_stats_type_spec(parts[0]) {
                Err(e) => Err(ParseAnalysisOptionError::InvalidStats(e)),
                Ok(stats) => match parse_interval_spec(parts[1]) {
                    Ok(interval) => Ok(AnalysisOption::Group(stats, interval)),
                    Err(e) => Err(e),
                },
            }
        }
    } else if s.len() >= 7 && s.subrange(0, 6) == "trend("@ && s.last() == ')' {
        match parse_stats_type_spec(s.subrange(6, s.len() - 1)) {
            Ok(stats) => Ok(AnalysisOption::Trend(stats)),
            Err(e) => Err(ParseAnalysisOptionError::InvalidStats(e)),
        }
    } else if s.len() >= 8 && s.subrange(0, 7) == "recent("@ && s.last() == ')' {
        match parse_target_range_spec(s.subrange(7, s.len() - 1)) {
            Ok(range) => Ok(AnalysisOption::Recent(range)),
            Err(e) => Err(ParseAnalysisOptionError::InvalidTarget(e)),
        }
    } else if s == "commented"@ {
        Ok(AnalysisOption::Commented)
    } else {
        Err(ParseAnalysisOptionError::InvalidFormat)
    }
}

/// Parses an analysis option from the characters of a sanitized line.
pub(crate) fn parse_analysis_option_vec(cs: &Vec<char>) -> (r: Result<
    AnalysisOption,
    ParseAnalysisOptionError,
>)
    ensures
        r == parse_analysis_option_spec(cs@),
        r matches Ok(op) ==> op.wf(),
{
    let n = cs.len();
    proof {
        assert(cs@.subrange(0, n as int) =~= cs@);
    }

    if chars_eq_str(cs, 0, n, "summary") {
        return Ok(AnalysisOption::Summary);
    }

    if n >= 5 && chars_eq_str(cs, 0, 4, "pbs(") && cs[n - 1] == ')' {
        let inner = subvec_chars(cs, 4, n - 1);
        return match parse_stats_type_vec(&inner) {
            Ok(stats) => Ok(AnalysisOption::Pbs(stats)),
            Err(e) => Err(ParseAnalysisOptionError::InvalidStats(e)),
        };
    }

    if n >= 7 && chars_eq_str(cs, 0, 6, "group(") && cs[n - 1] == ')' {
        let inner = subvec_chars(cs, 6, n - 1);
        let parts = split_chars(&inner, ',');
        if parts.len() != 2 {
            return Err(ParseAnalysisOptionError::InvalidFormat);
        }
        return match parse_stats_type_vec(&parts[0]) {
            Err(e) => Err(ParseAnalysisOptionError::InvalidStats(e)),
            Ok(stats) => {
                let arg = trim_chars(&parts[1]);
                let m = arg.len();
                proof {
                    assert(arg@.subrange(0, m as int) =~= arg@);
                    crate::text::lemma_parse_usize_num(arg@);
                }
                match parse_usize_digits(&arg, 0, m) {
                    Some(v) => if v > u32::MAX as usize {
                        Err(
                            ParseAnalysisOptionError::InvalidStats(
                                ParseStatsTypeError::InvalidScale,
                            ),
                        )
                    } else {
                        Ok(AnalysisOption::Group(stats, v as Milliseconds))
                    },
                    None => Err(
                        ParseAnalysisOptionError::InvalidStats(ParseStatsTypeError::InvalidScale),
                    ),
                }
            },
        };
    }

    if n >= 7 && chars_eq_str(cs, 0, 6, "trend(") && cs[n - 1] == ')' {
        let inner = subvec_chars(cs, 6, n - 1);
        return match parse_stats_type_vec(&inner) {
            Ok(stats) => Ok(AnalysisOption::Trend(stats)),
            Err(e) => Err(ParseAnalysisOptionError::InvalidStats(e)),
        };
    }

    if n >= 8 && chars_eq_str(cs, 0, 7, "recent(") && cs[n - 1] == ')' {
        let inner = subvec_chars(cs, 7, n - 1);
        return match parse_target_range_vec(&inner) {
            Ok(range) => Ok(AnalysisOption::Recent(range)),
            Err(e) => Err(ParseAnalysisOptionError::InvalidTarget(e)),
        };
    }

    if chars_eq_str(cs, 0, n, "commented") {
        return Ok(AnalysisOption::Commented);
    }

    Err(ParseAnalysisOptionError::InvalidFormat)
}

impl AnalysisOption {
    /// Parses an analysis option from a sanitized (lowercased, trimmed)
    /// line of text.
    pub fn try_from(value: &str) -> (r: Result<AnalysisOption, ParseAnalysisOptionError>)
        ensures
            r == parse_analysis_option_spec(value@),
            r matches Ok(op) ==> op.wf(),
    {
        let cs = str_chars(value);
        parse_analysis_option_vec(&cs)
    }
}

} // verus!
