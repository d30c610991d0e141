//! Whole-file option parsing: lines are cut at their first `#`, trimmed,
//! lowercased and dropped when empty; each surviving line is parsed on its
//! own, unparseable lines are silently dropped, and duplicates are removed
//! while the first-seen order is preserved.

use vstd::prelude::*;

use crate::options::{parse_analysis_option_spec, parse_analysis_option_vec, AnalysisOption};
use crate::text::{
    find_char, find_char_exec, lower_chars, lower_spec, split_chars, split_spec, str_chars,
    subvec_chars, trim_chars, trim_spec,
};

verus! {

/// One line of option text, cut at its first `#`, trimmed and lowercased.
pub open spec fn sanitize_line_spec(line: Seq<char>) -> Seq<char> {
    lower_spec(trim_spec(line.subrange(0, find_char(line, '#'))))
}

/// The sanitized lines, empty ones dropped, in order.
pub open spec fn sanitize_lines_spec(lines: Seq<Seq<char>>) -> Seq<Seq<char>>
    decreases lines.len(),
{
    if lines.len() == 0 {
        Seq::empty()
    } else {
        let rest = sanitize_lines_spec(lines.drop_last());
        let t = sanitize_line_spec(lines.last());
        if t.len() > 0 {
            rest.push(t)
        } else {
            rest
        }
    }
}

/// The surviving lines of a whole option text.
pub open spec fn sanitize_spec(s: Seq<char>) -> Seq<Seq<char>> {
    sanitize_lines_spec(split_spec(s, '\n'))
}

/// Applies sanitization to the options text: the characters of each line
/// that survives, in order.
pub fn sanitize_options(options: &str) -> (r: Vec<Vec<char>>)
    ensures
        r@.len() == sanitize_spec(options@).len(),
        forall|k: int| 0 <= k < r@.len() ==> r@[k]@ == #[trigger] sanitize_spec(options@)[k],
{
    let cs = str_chars(options);
    let lines = split_chars(&cs, '\n');
    let n = lines.len();
    let ghost all = split_spec(options@, '\n');
    let mut out: Vec<Vec<char>> = Vec::new();
    let mut i: usize = 0;
    while i < n
        invariant
            i <= n,
            n == all.len(),
            lines@.len() == all.len(),
            forall|k: int| 0 <= k < n ==> lines@[k]@ == #[trigger] all[k],
            out@.len() == sanitize_lines_spec(all.subrange(0, i as int)).len(),
            forall|k: int|
                0 <= k < out@.len() ==> out@[k]@ == #[trigger] sanitize_lines_spec(
                    all.subrange(0, i as int),
                )[k],
        decreases n - i,
    {
        let line = &lines[i];
        let cut_at = find_char_exec(line, '#');
        proof {
            crate::text::lemma_find_char(line@, '#');
        }
        let cut = subvec_chars(line, 0, cut_at);
        let trimmed = trim_chars(&cut);
        let t = lower_chars(&trimmed);
        proof {
            assert(t@ == sanitize_line_spec(all[i as int]));
            assert(all.subrange(0, i + 1).drop_last() =~= all.subrange(0, i as int));
            assert(all.subrange(0, i + 1).last() == all[i as int]);
        }
        if t.len() > 0 {
            out.push(t);
        }
        i += 1;
    }
    proof {
        assert(all.subrange(0, n as int) =~= all);
    }
    out
}

/// The options read from the sanitized lines, unparseable lines dropped and
/// duplicates removed, first-seen order preserved.
pub open spec fn parsed_options_spec(lines: Seq<Seq<char>>) -> Seq<AnalysisOption>
    decreases lines.len(),
{
    if lines.len() == 0 {
        Seq::empty()
    } else {
        let rest = parsed_options_spec(lines.drop_last());
        match parse_analysis_option_spec(lines.last()) {
            Ok(op) => if rest.contains(op) {
                rest
            } else {
                rest.push(op)
            },
            Err(_) => rest,
        }
    }
}

/// The deduplicated, ordered options a whole option text denotes.
pub open spec fn parse_options_spec(s: Seq<char>) -> Seq<AnalysisOption> {
    parsed_options_spec(sanitize_spec(s))
}

/// Returns true if `v` holds `op`.
fn contains_option(v: &Vec<AnalysisOption>, op: &AnalysisOption) -> (r: bool)
    ensures
        r == v@.contains(*op),
{
    let n = v.len();
    let mut i: usize = 0;
    while i < n
        invariant
            i <= n,
            n == v@.len(),
            forall|k: int| 0 <= k < i ==> v@[k] != *op,
        decreases n - i,
    {
        if v[i].eq_value(op) {
            assert(v@.contains(*op));
            return true;
        }
        i += 1;
    }
    false
}

/// Parses options and removes duplicates, keeping the first-seen order.
pub fn parse_options(options: &str) -> (r: Vec<AnalysisOption>)
    ensures
        r@ == parse_options_spec(options@),
        forall|k: int| 0 <= k < r@.len() ==> (#[trigger] r@[k]).wf(),
        forall|k: int, l: int| 0 <= k < l < r@.len() ==> r@[k] != r@[l],
{
    let lines = sanitize_options(options);
    let n = lines.len();
    let ghost sane = sanitize_spec(options@);
    let mut out: Vec<AnalysisOption> = Vec::new();
    let mut i: usize = 0;
    while i < n
        invariant
            i <= n,
            n == sane.len(),
            lines@.len() == sane.len(),
            forall|k: int| 0 <= k < n ==> lines@[k]@ == #[trigger] sane[k],
            out@ == parsed_options_spec(sane.subrange(0, i as int)),
            forall|k: int| 0 <= k < out@.len() ==> (#[trigger] out@[k]).wf(),
            forall|k: int, l: int| 0 <= k < l < out@.len() ==> out@[k] != out@[l],
        decreases n - i,
    {
        proof {
            assert(sane.subrange(0, i + 1).drop_last() =~= sane.subrange(0, i as int));
            assert(sane.subrange(0, i + 1).last() == sane[i as int]);
        }
        match parse_analysis_option_vec(&lines[i]) {
            Ok(op) => {
                if !contains_option(&out, &op) {
                    proof {
                        assert(forall|k: int| 0 <= k < out@.len() ==> out@[k] != op);
                    }
                    out.push(op);
                }
            },
            Err(_) => {},
        }
        i += 1;
    }
    proof {
        assert(sane.subrange(0, n as int) =~= sane);
    }
    out
}

} // verus!
