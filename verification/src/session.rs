//! A training session: an ordered, immutable-after-construction collection
//! of records plus display metadata, with a cached view of the records that
//! are not DNF.

use vstd::prelude::*;

use std::rc::Rc;

use crate::dates::{civil_date_of, date_of_timestamp, Date};
use crate::options::{date_of_triple, TargetRange};
use crate::record::{Record, SolveState};
use crate::time::Milliseconds;

verus! {

/// A group of `Record`s: a starting time and a count of the records whose
/// statistic falls within one interval from that start.
pub type GroupTime = (Milliseconds, usize);

/// Relies on `std::rc::Rc::clone`: the returned handle refers to the same
/// record as the argument.
#[verifier::external_body]
pub(crate) fn rc_clone(r: &Rc<Record>) -> (res: Rc<Record>)
    ensures
        res == *r,
{
    Rc::clone(r)
}

/// The records of `s` that are not DNF, in order.
pub open spec fn not_dnf_of(s: Seq<Record>) -> Seq<Record>
    decreases s.len(),
{
    if s.len() == 0 {
        Seq::empty()
    } else {
        let rest = not_dnf_of(s.drop_last());
        if s.last().solve_state != SolveState::Dnf {
            rest.push(s.last())
        } else {
            rest
        }
    }
}

/// The last `count` records of `s`, or all of them when `count` reaches the
/// whole length; original order preserved.
pub open spec fn trailing(s: Seq<Record>, count: int) -> Seq<Record> {
    if count >= s.len() {
        s
    } else {
        s.skip(s.len() - count)
    }
}

/// How many trailing records a percentage selects: the percentage of the
/// total, rounded up.
pub open spec fn percentage_take(n: int, p: int) -> int {
    (n * p + 99) / 100
}

/// True if the record's UTC calendar date lies on or after `start` and, when
/// an end date is present, on or before it.
pub open spec fn record_date_in_range(r: Record, start: Date, end: Option<Date>) -> bool {
    let d = date_of_triple(civil_date_of(r.date_time));
    start.spec_le(d) && match end {
        Some(e) => d.spec_le(e),
        None => true,
    }
}

/// The records of `s` whose date lies in the given range, in order.
pub open spec fn date_filter(s: Seq<Record>, start: Date, end: Option<Date>) -> Seq<Record>
    decreases s.len(),
{
    if s.len() == 0 {
        Seq::empty()
    } else {
        let rest = date_filter(s.drop_last(), start, end);
        if record_date_in_range(s.last(), start, end) {
            rest.push(s.last())
        } else {
            rest
        }
    }
}

/// The records a target range selects out of `s`.
pub open spec fn target_records(s: Seq<Record>, tr: TargetRange) -> Seq<Record> {
    match tr {
        TargetRange::SolvesCount(count) => trailing(s, count as int),
        TargetRange::Percentage(p) => trailing(s, percentage_take(s.len() as int, p as int)),
        TargetRange::DateRange(start, end) => date_filter(s, start, end),
    }
}

pub proof fn lemma_not_dnf_len(s: Seq<Record>)
    ensures
        0 <= not_dnf_of(s).len() <= s.len(),
    decreases s.len(),
{
    if s.len() > 0 {
        lemma_not_dnf_len(s.drop_last());
    }
}

/// `Recent` over a count at least the whole length returns the entire
/// session unchanged, in original order.
pub proof fn lemma_recent_count_all(s: Seq<Record>, count: usize)
    requires
        count >= s.len(),
    ensures
        target_records(s, TargetRange::SolvesCount(count)) == s,
{
}

/// A training session.
#[derive(Debug)]
pub struct Session {
    rank: usize,
    name: String,
    date_time: (i64, i64),
    records: Vec<Rc<Record>>,
    records_not_dnf: Vec<Rc<Record>>,
}

impl Session {
    /// The records of the session, in chronological attempt order.
    pub closed spec fn recs(self) -> Seq<Record> {
        self.records@.map_values(|r: Rc<Record>| *r)
    }

    /// The cached records that are not DNF, in order.
    pub closed spec fn not_dnf_recs(self) -> Seq<Record> {
        self.records_not_dnf@.map_values(|r: Rc<Record>| *r)
    }

    /// The display rank.
    pub closed spec fn spec_rank(self) -> usize {
        self.rank
    }

    /// The display name.
    pub closed spec fn spec_name(self) -> Seq<char> {
        self.name@
    }

    /// The opening and closing timestamps.
    pub closed spec fn spec_date_time(self) -> (i64, i64) {
        self.date_time
    }

    #[verifier::type_invariant]
    spec fn wf(self) -> bool {
        self.not_dnf_recs() == not_dnf_of(self.recs())
    }

    /// Creates a new `Session` from its fields.
    pub fn from(rank: usize, name: String, date_time: (i64, i64), records: Vec<Record>) -> (s:
        Session)
        ensures
            s.spec_rank() == rank,
            s.spec_name() == name@,
            s.spec_date_time() == date_time,
            s.recs() == records@,
    {
        let ghost orig = records@;
        let mut rest = records;
        let mut rev: Vec<Rc<Record>> = Vec::new();
        while rest.len() > 0
            invariant
                rest@ == orig.subrange(0, rest@.len() as int),
                rev@.len() + rest@.len() == orig.len(),
                forall|k: int| 0 <= k < rev@.len() ==> rev@[k] == orig[orig.len() - 1 - k],
            decreases rest@.len(),
        {
            proof {
                assert(rest@.last() == orig[rest@.len() - 1]);
                assert(rest@.subrange(0, rest@.len() - 1) =~= orig.subrange(0, rest@.len() - 1));
            }
            let r = rest.pop().unwrap();
            rev.push(Rc::new(r));
        }
        let mut rcs: Vec<Rc<Record>> = Vec::new();
        while rev.len() > 0
            invariant
                rcs@.len() + rev@.len() == orig.len(),
                forall|k: int| 0 <= k < rev@.len() ==> rev@[k] == orig[orig.len() - 1 - k],
                forall|k: int| 0 <= k < rcs@.len() ==> rcs@[k] == orig[k],
            decreases rev@.len(),
        {
            let r = rev.pop().unwrap();
            rcs.push(r);
        }
        proof {
            assert(rcs@.map_values(|r: Rc<Record>| *r) =~= orig);
        }
        let records_not_dnf = filter_not_dnf(&rcs);
        let s = Session { rank, name, date_time, records: rcs, records_not_dnf };
        proof {
            assert(s.recs() =~= orig);
        }
        s
    }

    /// The name of a `Session`.
    pub fn name(&self) -> (r: &str)
        ensures
            r@ == self.spec_name(),
    {
        self.name.as_str()
    }

    /// The rank of a `Session`.
    pub fn rank(&self) -> (r: usize)
        ensures
            r == self.spec_rank(),
    {
        self.rank
    }

    /// The opening and closing timestamps of a `Session`, in seconds since
    /// the Unix epoch.
    pub fn date_time(&self) -> (r: (i64, i64))
        ensures
            r == self.spec_date_time(),
    {
        self.date_time
    }

    /// The `Record`s of a `Session`.
    pub fn records(&self) -> (r: &Vec<Rc<Record>>)
        ensures
            r@.len() == self.recs().len(),
            forall|k: int| 0 <= k < r@.len() ==> r@[k] == #[trigger] self.recs()[k],
    {
        &self.records
    }

    /// The `Record`s of a `Session` that are not DNF.
    pub fn records_not_dnf(&self) -> (r: &Vec<Rc<Record>>)
        ensures
            r@.len() == not_dnf_of(self.recs()).len(),
            forall|k: int| 0 <= k < r@.len() ==> r@[k] == #[trigger] not_dnf_of(self.recs())[k],
    {
        proof {
            use_type_invariant(self);
        }
        &self.records_not_dnf
    }

    /// The number of `Record`s.
    pub fn record_count(&self) -> (r: usize)
        ensures
            r == self.recs().len(),
    {
        self.records.len()
    }

    /// The number of `Record`s that are not DNF.
    pub fn record_not_dnf_count(&self) -> (r: usize)
        ensures
            r == not_dnf_of(self.recs()).len(),
    {
        proof {
            use_type_invariant(self);
        }
        self.records_not_dnf.len()
    }

    /// Creates a `Session` from an existing one, whose records are those
    /// within the specified range; `None` when that selection is empty.
    pub fn try_from_target_range(&self, target_range: &TargetRange) -> (r: Option<Session>)
        ensures
            match r {
                Some(sub) => target_records(self.recs(), *target_range).len() > 0
                    && sub.recs() == target_records(self.recs(), *target_range) && sub.spec_rank()
                    == self.spec_rank() && sub.spec_name() == self.spec_name()
                    && sub.spec_date_time() == self.spec_date_time(),
                None => target_records(self.recs(), *target_range).len() == 0,
            },
    {
        let records = self.records_in_target_range(target_range);
        if records.len() == 0 {
            proof {
                assert(records@.map_values(|r: Rc<Record>| *r) =~= Seq::<Record>::empty());
            }
            return None;
        }
        let records_not_dnf = filter_not_dnf(&records);
        let mut name_copy = String::new();
        name_copy.append(self.name.as_str());
        let s = Session {
            rank: self.rank,
            name: name_copy,
            date_time: self.date_time,
            records,
            records_not_dnf,
        };
        proof {
            assert(s.spec_name() =~= self.spec_name());
        }
        Some(s)
    }

    /// The `Record`s within the specified `TargetRange`.
    fn records_in_target_range(&self, target_range: &TargetRange) -> (r: Vec<Rc<Record>>)
        ensures
            r@.map_values(|x: Rc<Record>| *x) == target_records(self.recs(), *target_range),
    {
        let n = self.records.len();
        match target_range {
            TargetRange::SolvesCount(count) => {
                let take = if *count < n {
                    *count
                } else {
                    n
                };
                let r = self.clone_trailing(take);
                proof {
                    if *count >= n {
                        assert(trailing(self.recs(), *count as int) == self.recs());
                    }
                }
                r
            },
            TargetRange::Percentage(percentage) => {
                proof {
                    assert((n as u128) * (*percentage as u128) <= (n as u128) * 255)
                        by (nonlinear_arith)
                        requires
                            *percentage as u128 <= 255,
                    ;
                }
                let take_wide = ((n as u128) * (*percentage as u128) + 99) / 100;
                let take = if take_wide >= n as u128 {
                    n
                } else {
                    take_wide as usize
                };
                proof {
                    assert(take_wide == percentage_take(n as int, *percentage as int));
                    if take_wide >= n as u128 {
                        assert(trailing(self.recs(), percentage_take(n as int, *percentage as int))
                            == self.recs());
                        assert(trailing(self.recs(), n as int) == self.recs());
                    }
                }
                self.clone_trailing(take)
            },
            TargetRange::DateRange(start, end) => {
                let mut out: Vec<Rc<Record>> = Vec::new();
                let mut i: usize = 0;
                while i < n
                    invariant
                        i <= n,
                        n == self.records@.len(),
                        n == self.recs().len(),
                        out@.map_values(|x: Rc<Record>| *x) == date_filter(
                            self.recs().subrange(0, i as int),
                            *start,
                            *end,
                        ),
                        forall|k: int|
                            0 <= k < self.records@.len() ==> self.records@[k]
                                == #[trigger] self.recs()[k],
                    decreases n - i,
                {
                    proof {
                        let pre = self.recs().subrange(0, i as int);
                        let cur = self.recs().subrange(0, i + 1);
                        assert(cur.drop_last() =~= pre);
                        assert(cur.last() == self.recs()[i as int]);
                    }
                    let rec = &self.records[i];
                    let d = date_of_timestamp(rec.date_time);
                    let keep = start.le(&d) && match end {
                        Some(e) => d.le(e),
                        None => true,
                    };
                    if keep {
                        out.push(rc_clone(rec));
                        proof {
                            assert(out@.map_values(|x: Rc<Record>| *x) =~= date_filter(
                                self.recs().subrange(0, i + 1),
                                *start,
                                *end,
                            ));
                        }
                    }
                    i += 1;
                }
                proof {
                    assert(self.recs().subrange(0, n as int) =~= self.recs());
                }
                out
            },
        }
    }

    /// Handles to the last `take` records.
    fn clone_trailing(&self, take: usize) -> (r: Vec<Rc<Record>>)
        requires
            take <= self.recs().len(),
        ensures
            r@.map_values(|x: Rc<Record>| *x) == trailing(self.recs(), take as int),
    {
        let n = self.records.len();
        proof {
            assert(self.recs().len() == n);
        }
        let mut out: Vec<Rc<Record>> = Vec::new();
        let mut i: usize = n - take;
        while i < n
            invariant
                n - take <= i <= n,
                n == self.records@.len(),
                n == self.recs().len(),
                out@.len() == i - (n - take),
                forall|k: int|
                    0 <= k < out@.len() ==> out@[k] == #[trigger] self.recs()[n - take + k],
                forall|k: int|
                    0 <= k < self.records@.len() ==> self.records@[k] == #[trigger] self.recs()[k],
            decreases n - i,
        {
            out.push(rc_clone(&self.records[i]));
            i += 1;
        }
        proof {
            let m = out@.map_values(|x: Rc<Record>| *x);
            let t = trailing(self.recs(), take as int);
            if take < n {
                assert(t == self.recs().skip(n - take));
                assert forall|k: int| 0 <= k < take implies m[k] == t[k] by {
                    assert(out@.len() == take);
                    assert(m[k] == *out@[k]);
                    assert(out@[k] == self.recs()[n - take + k]);
                    assert(t[k] == self.recs().skip(n - take)[k]);
                    assert(self.recs().skip(n - take)[k] == self.recs()[n - take + k]);
                }
            } else {
                assert forall|k: int| 0 <= k < take implies m[k] == t[k] by {
                    assert(out@[k] == self.recs()[n - take + k]);
                    assert(t[k] == self.recs()[k]);
                }
            }
            assert(m =~= t);
        }
        out
    }
}

/// Handles to the records of `rcs` that are not DNF, in order.
fn filter_not_dnf(rcs: &Vec<Rc<Record>>) -> (r: Vec<Rc<Record>>)
    ensures
        r@.map_values(|x: Rc<Record>| *x) == not_dnf_of(rcs@.map_values(|x: Rc<Record>| *x)),
{
    let ghost all = rcs@.map_values(|x: Rc<Record>| *x);
    let n = rcs.len();
    let mut out: Vec<Rc<Record>> = Vec::new();
    let mut i: usize = 0;
    while i < n
        invariant
            i <= n,
            n == rcs@.len(),
            n == all.len(),
            forall|k: int| 0 <= k < n ==> rcs@[k] == #[trigger] all[k],
            out@.map_values(|x: Rc<Record>| *x) == not_dnf_of(all.subrange(0, i as int)),
        decreases n - i,
    {
        proof {
            let pre = all.subrange(0, i as int);
            let cur = all.subrange(0, i + 1);
            assert(cur.drop_last() =~= pre);
            assert(cur.last() == all[i as int]);
        }
        let rec = &rcs[i];
        if !rec.solve_state.is_dnf() {
            out.push(rc_clone(rec));
            proof {
                assert(out@.map_values(|x: Rc<Record>| *x) =~= not_dnf_of(
                    all.subrange(0, i + 1),
                ));
            }
        }
        i += 1;
    }
    proof {
        assert(all.subrange(0, n as int) =~= all);
    }
    out
}

} // verus!
