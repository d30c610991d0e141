//! The statistics engine: windowed single/mean/cutoff-average statistics,
//! summaries, outcome tallies, personal bests, bucketed grouping, trend
//! series and comment extraction, all pure functions over a session's
//! record sequence.

use vstd::prelude::*;

use vstd::arithmetic::div_mod::{
    lemma_div_is_ordered, lemma_div_multiples_vanish_fancy, lemma_div_pos_is_pos,
};
use vstd::relations::{sorted_by, total_ordering};
use vstd::seq_lib::lemma_multiset_commutative;
use vstd::seq_lib::lemma_sorted_unique;

use crate::options::StatsType;
use crate::record::{Record, SolveState};
use std::rc::Rc;

use crate::session::{not_dnf_of, rc_clone, GroupTime, Session};
use crate::time::Milliseconds;

verus! {

/// The ascending order on `u32` statistics values.
pub open spec fn u32_leq() -> spec_fn(u32, u32) -> bool {
    |x: u32, y: u32| x <= y
}

/// The durations of the records, in order.
pub open spec fn times_of(recs: Seq<Record>) -> Seq<u32> {
    recs.map_values(|r: Record| r.time)
}

/// The key a record sorts by inside a cutoff average: a DNF counts as the
/// slowest possible time.
pub open spec fn avg_key(r: Record) -> u32 {
    if r.solve_state == SolveState::Dnf {
        u32::MAX
    } else {
        r.time
    }
}

/// The cutoff-average keys of the records, in order.
pub open spec fn keys_of(recs: Seq<Record>) -> Seq<u32> {
    recs.map_values(|r: Record| avg_key(r))
}

/// The sum of a sequence of durations.
pub open spec fn sum_of(s: Seq<u32>) -> int
    decreases s.len(),
{
    if s.len() == 0 {
        0
    } else {
        sum_of(s.drop_last()) + s.last()
    }
}

/// How many records have the given solve state.
pub open spec fn count_state(recs: Seq<Record>, st: SolveState) -> int
    decreases recs.len(),
{
    if recs.len() == 0 {
        0
    } else {
        count_state(recs.drop_last(), st) + if recs.last().solve_state == st {
            1int
        } else {
            0int
        }
    }
}

/// The arithmetic mean of a sum over `count` items, rounded to the nearest
/// unit with halves rounding up.
pub open spec fn round_mean_spec(sum: int, count: int) -> int {
    (2 * sum + count) / (2 * count)
}

/// How many records a cutoff average discards on each end: five percent of
/// the scale, rounded up.
pub open spec fn cutoff_of(scale: int) -> int {
    (scale + 19) / 20
}

/// The plain mean over a window: no value as soon as one record is DNF,
/// otherwise the rounded mean of the durations.
pub open spec fn mean_of(recs: Seq<Record>) -> Option<u32> {
    if count_state(recs, SolveState::Dnf) > 0 {
        None
    } else {
        Some(round_mean_spec(sum_of(times_of(recs)), recs.len() as int) as u32)
    }
}

/// The cutoff average over a window: the keys sorted ascending with DNFs
/// slowest, the lowest and highest `cutoff` entries discarded, and the rest
/// averaged; no value when nothing would remain or when more than `cutoff`
/// records are DNF.
pub open spec fn average_of(recs: Seq<Record>) -> Option<u32> {
    let scale = recs.len() as int;
    let cut = cutoff_of(scale);
    let take = scale - 2 * cut;
    if take <= 0 || count_state(recs, SolveState::Dnf) > cut {
        None
    } else {
        let sorted = keys_of(recs).sort_by(u32_leq());
        Some(round_mean_spec(sum_of(sorted.subrange(cut, cut + take)), take) as u32)
    }
}

/// The window a statistic at position `pos` aggregates over.
pub open spec fn stat_window(s: Seq<Record>, pos: int, scale: int) -> Seq<Record> {
    s.subrange(pos + 1 - scale, pos + 1)
}

/// The windowed statistic of the given kind at position `pos`.
pub open spec fn stat_at(s: Seq<Record>, pos: int, kind: StatsType) -> Option<u32> {
    match kind {
        StatsType::Single => if s[pos].solve_state == SolveState::Dnf {
            None
        } else {
            Some(s[pos].time)
        },
        StatsType::Mean(k) => mean_of(stat_window(s, pos, k as int)),
        StatsType::Average(k) => average_of(stat_window(s, pos, k as int)),
    }
}

/// The sum of `count` durations never exceeds `count` times the largest
/// possible duration.
proof fn lemma_sum_bound(s: Seq<u32>)
    ensures
        0 <= sum_of(s) <= s.len() * (u32::MAX as int),
    decreases s.len(),
{
    if s.len() > 0 {
        lemma_sum_bound(s.drop_last());
        assert((s.len() - 1) * (u32::MAX as int) + (u32::MAX as int) == s.len() * (
        u32::MAX as int)) by (nonlinear_arith);
    }
}

/// The rounded mean of a bounded sum stays within `u32`.
proof fn lemma_round_mean_bound(sum: int, count: int)
    requires
        count >= 1,
        0 <= sum <= count * (u32::MAX as int),
    ensures
        0 <= round_mean_spec(sum, count) <= u32::MAX,
{
    let m = u32::MAX as int;
    lemma_div_pos_is_pos(2 * sum + count, 2 * count);
    assert(2 * sum + count <= (2 * count) * m + count) by (nonlinear_arith)
        requires
            sum <= count * m,
    ;
    lemma_div_is_ordered(2 * sum + count, (2 * count) * m + count, 2 * count);
    lemma_div_multiples_vanish_fancy(m, count, 2 * count);
}

/// The rounded mean, computed exactly in wide integers.
fn round_mean(sum: u128, count: usize) -> (r: Milliseconds)
    requires
        count >= 1,
        sum as int <= count as int * (u32::MAX as int),
    ensures
        r as int == round_mean_spec(sum as int, count as int),
{
    proof {
        lemma_round_mean_bound(sum as int, count as int);
        assert(count as int * (u32::MAX as int) <= (u64::MAX as int) * (u32::MAX as int))
            by (nonlinear_arith)
            requires
                count as int <= u64::MAX as int,
        ;
    }
    let r_wide = (2 * sum + count as u128) / (2 * count as u128);
    r_wide as u32
}

/// `x` inserted into the ascending sequence `s`, keeping the order.
pub open spec fn insert_sorted(x: u32, s: Seq<u32>) -> Seq<u32>
    decreases s.len(),
{
    if s.len() == 0 {
        seq![x]
    } else if x <= s[0] {
        seq![x] + s
    } else {
        seq![s[0]] + insert_sorted(x, s.drop_first())
    }
}

proof fn lemma_insert_sorted(x: u32, s: Seq<u32>)
    requires
        sorted_by(s, u32_leq()),
    ensures
        sorted_by(insert_sorted(x, s), u32_leq()),
        insert_sorted(x, s).to_multiset() == s.to_multiset().insert(x),
        insert_sorted(x, s).len() == s.len() + 1,
    decreases s.len(),
{
    broadcast use vstd::seq_lib::group_to_multiset_ensures;
    broadcast use vstd::multiset::group_multiset_axioms;

    let leq = u32_leq();
    if s.len() == 0 {
        assert(s =~= Seq::<u32>::empty());
        assert(seq![x] =~= Seq::<u32>::empty().push(x));
        vstd::multiset::lemma_multiset_empty_len(s.to_multiset());
        assert(insert_sorted(x, s).to_multiset() =~= s.to_multiset().insert(x));
    } else if x <= s[0] {
        let r = seq![x] + s;
        assert forall|i: int, j: int| 0 <= i < j < r.len() implies leq(r[i], r[j]) by {
            if i == 0 {
                if j > 1 {
                    assert(leq(s[0], s[j - 1]));
                }
            } else {
                assert(leq(s[i - 1], s[j - 1]));
            }
        }
        lemma_multiset_commutative(seq![x], s);
        assert(seq![x] =~= Seq::<u32>::empty().push(x));
        vstd::multiset::lemma_multiset_empty_len(Seq::<u32>::empty().to_multiset());
        assert(r.to_multiset() =~= s.to_multiset().insert(x));
    } else {
        let df = s.drop_first();
        assert forall|i: int, j: int| 0 <= i < j < df.len() implies leq(df[i], df[j]) by {
            assert(leq(s[i + 1], s[j + 1]));
        }
        lemma_insert_sorted(x, df);
        let rec = insert_sorted(x, df);
        let r = seq![s[0]] + rec;
        // Every element of `rec` is `x` or an element of `df`, so `s[0]`
        // stays below all of them.
        assert forall|i: int, j: int| 0 <= i < j < r.len() implies leq(r[i], r[j]) by {
            if i == 0 {
                let e = rec[j - 1];
                assert(rec.to_multiset().count(e) > 0);
                if e == x {
                    assert(leq(s[0], e));
                } else {
                    assert(df.to_multiset().count(e) > 0);
                    assert(df.contains(e));
                    let k = choose|k: int| 0 <= k < df.len() && df[k] == e;
                    assert(leq(s[0], s[k + 1]));
                }
            } else {
                assert(leq(rec[i - 1], rec[j - 1]));
            }
        }
        lemma_multiset_commutative(seq![s[0]], rec);
        assert(seq![s[0]] =~= Seq::<u32>::empty().push(s[0]));
        vstd::multiset::lemma_multiset_empty_len(Seq::<u32>::empty().to_multiset());
        assert(s =~= seq![s[0]] + df);
        lemma_multiset_commutative(seq![s[0]], df);
        assert(r.to_multiset() =~= s.to_multiset().insert(x));
    }
}

/// `s` sorted ascending by repeated insertion.
pub open spec fn isort(s: Seq<u32>) -> Seq<u32>
    decreases s.len(),
{
    if s.len() == 0 {
        Seq::empty()
    } else {
        insert_sorted(s.last(), isort(s.drop_last()))
    }
}

proof fn lemma_isort(s: Seq<u32>)
    ensures
        sorted_by(isort(s), u32_leq()),
        isort(s).to_multiset() == s.to_multiset(),
        isort(s).len() == s.len(),
    decreases s.len(),
{
    broadcast use vstd::seq_lib::group_to_multiset_ensures;

    if s.len() == 0 {
    } else {
        lemma_isort(s.drop_last());
        lemma_insert_sorted(s.last(), isort(s.drop_last()));
        assert(s.drop_last().push(s.last()) =~= s);
    }
}

/// Insertion sort agrees with the library's sorting of a sequence.
proof fn lemma_isort_is_sort_by(s: Seq<u32>)
    ensures
        isort(s) == s.sort_by(u32_leq()),
{
    lemma_isort(s);
    s.lemma_sort_by_ensures(u32_leq());
    let leq = u32_leq();
    assert(total_ordering(leq));
    lemma_sorted_unique(isort(s), s.sort_by(leq), leq);
}

/// The split point of an ordered insertion: with everything before `i`
/// strictly below `x` and, when `i` is in range, `x` at most `s[i]`, the
/// insertion puts `x` exactly at `i`.
proof fn lemma_insert_sorted_split(x: u32, s: Seq<u32>, i: int)
    requires
        0 <= i <= s.len(),
        forall|k: int| 0 <= k < i ==> s[k] < x,
        i < s.len() ==> x <= s[i],
    ensures
        insert_sorted(x, s) == s.subrange(0, i) + seq![x] + s.skip(i),
    decreases i,
{
    if i == 0 {
        if s.len() == 0 {
            assert(insert_sorted(x, s) =~= s.subrange(0, 0) + seq![x] + s.skip(0));
        } else {
            assert(insert_sorted(x, s) =~= s.subrange(0, 0) + seq![x] + s.skip(0));
        }
    } else {
        assert(s[0] < x);
        let df = s.drop_first();
        assert(forall|k: int| 0 <= k < i - 1 ==> #[trigger] df[k] == s[k + 1] && s[k + 1] < x);
        assert(i - 1 < df.len() ==> x <= df[i - 1]);
        lemma_insert_sorted_split(x, df, i - 1);
        assert(insert_sorted(x, s) =~= seq![s[0]] + (df.subrange(0, i - 1) + seq![x] + df.skip(
            i - 1,
        )));
        assert(seq![s[0]] + (df.subrange(0, i - 1) + seq![x] + df.skip(i - 1)) =~= s.subrange(
            0,
            i,
        ) + seq![x] + s.skip(i));
    }
}

/// `x` inserted into `v` before the first element it is at most equal to.
fn insert_sorted_exec(v: &Vec<u32>, x: u32) -> (r: Vec<u32>)
    ensures
        r@ == insert_sorted(x, v@),
{
    let n = v.len();
    let mut i: usize = 0;
    while i < n && v[i] < x
        invariant
            i <= n,
            n == v@.len(),
            forall|k: int| 0 <= k < i ==> v@[k] < x,
        decreases n - i,
    {
        i += 1;
    }
    proof {
        lemma_insert_sorted_split(x, v@, i as int);
    }
    let mut r: Vec<u32> = Vec::new();
    let mut j: usize = 0;
    while j < i
        invariant
            j <= i <= n,
            n == v@.len(),
            r@ == v@.subrange(0, j as int),
        decreases i - j,
    {
        r.push(v[j]);
        proof {
            assert(r@ =~= v@.subrange(0, j + 1));
        }
        j += 1;
    }
    r.push(x);
    let mut j: usize = i;
    while j < n
        invariant
            i <= j <= n,
            n == v@.len(),
            r@ == v@.subrange(0, i as int) + seq![x] + v@.subrange(i as int, j as int),
        decreases n - j,
    {
        r.push(v[j]);
        proof {
            assert(r@ =~= v@.subrange(0, i as int) + seq![x] + v@.subrange(i as int, j + 1));
        }
        j += 1;
    }
    proof {
        assert(v@.subrange(i as int, n as int) =~= v@.skip(i as int));
        assert(r@ =~= v@.subrange(0, i as int) + seq![x] + v@.skip(i as int));
    }
    r
}

/// A window holding a record with the given state counts it at least once.
proof fn lemma_count_state_pos(recs: Seq<Record>, st: SolveState, i: int)
    requires
        0 <= i < recs.len(),
        recs[i].solve_state == st,
    ensures
        count_state(recs, st) > 0,
    decreases recs.len(),
{
    lemma_count_state_nonneg(recs.drop_last(), st);
    if i < recs.len() - 1 {
        lemma_count_state_pos(recs.drop_last(), st, i);
    }
}

proof fn lemma_count_state_nonneg(recs: Seq<Record>, st: SolveState)
    ensures
        count_state(recs, st) >= 0,
    decreases recs.len(),
{
    if recs.len() > 0 {
        lemma_count_state_nonneg(recs.drop_last(), st);
    }
}

/// `v` sorted ascending.
fn sort_u32(v: &Vec<u32>) -> (r: Vec<u32>)
    ensures
        r@ == v@.sort_by(u32_leq()),
        r@.len() == v@.len(),
{
    let n = v.len();
    let mut out: Vec<u32> = Vec::new();
    let mut i: usize = 0;
    while i < n
        invariant
            i <= n,
            n == v@.len(),
            out@ == isort(v@.subrange(0, i as int)),
        decreases n - i,
    {
        proof {
            assert(v@.subrange(0, i + 1).drop_last() =~= v@.subrange(0, i as int));
            assert(v@.subrange(0, i + 1).last() == v@[i as int]);
        }
        out = insert_sorted_exec(&out, v[i]);
        i += 1;
    }
    proof {
        assert(v@.subrange(0, n as int) =~= v@);
        lemma_isort_is_sort_by(v@);
        lemma_isort(v@);
    }
    out
}

impl Session {
    /// Stats a single solve, or the mean or average over some solves, at
    /// position `pos`. The window must not underflow: callers only ask for
    /// positions from `scale - 1` on.
    pub(crate) fn stats(&self, pos: usize, s_type: &StatsType) -> (r: Option<Milliseconds>)
        requires
            s_type.spec_scale() >= 1,
            pos < self.recs().len(),
            pos + 1 >= s_type.spec_scale(),
        ensures
            r == stat_at(self.recs(), pos as int, *s_type),
    {
        let records = self.records();
        let n = records.len();
        proof {
            assert(pos < n);
        }
        match s_type {
            StatsType::Single => {
                let rec: &Record = &records[pos];
                if rec.solve_state.is_dnf() {
                    None
                } else {
                    Some(rec.time)
                }
            },
            StatsType::Mean(s_scale) => {
                let scale = *s_scale;
                let start = pos + 1 - scale;
                let ghost w = stat_window(self.recs(), pos as int, scale as int);
                let mut sum: u128 = 0;
                let mut j: usize = start;
                while j < pos + 1
                    invariant
                        start <= j <= pos + 1,
                        pos < n,
                        n == records@.len(),
                        start == pos + 1 - scale,
                        records@.len() == self.recs().len(),
                        forall|k: int|
                            0 <= k < records@.len() ==> records@[k] == #[trigger] self.recs()[k],
                        *s_type == StatsType::Mean(scale),
                        w == stat_window(self.recs(), pos as int, scale as int),
                        sum == sum_of(times_of(self.recs().subrange(start as int, j as int))),
                        count_state(
                            self.recs().subrange(start as int, j as int),
                            SolveState::Dnf,
                        ) == 0,
                        sum <= (j - start) * (u32::MAX as int),
                    decreases pos + 1 - j,
                {
                    proof {
                        let pre = self.recs().subrange(start as int, j as int);
                        let cur = self.recs().subrange(start as int, j + 1);
                        assert(cur.drop_last() =~= pre);
                        assert(cur.last() == self.recs()[j as int]);
                        assert(times_of(cur).drop_last() =~= times_of(pre));
                        assert(times_of(cur).last() == cur.last().time);
                    }
                    let rec: &Record = &records[j];
                    if rec.solve_state.is_dnf() {
                        proof {
                            assert(w[j - start] == self.recs()[j as int]);
                            lemma_count_state_pos(w, SolveState::Dnf, j - start);
                        }
                        return None;
                    }
                    proof {
                        assert((j - start) * (u32::MAX as int) + (u32::MAX as int) == (j + 1
                            - start) * (u32::MAX as int)) by (nonlinear_arith);
                        assert((j + 1 - start) * (u32::MAX as int) <= (u64::MAX as int) * (
                        u32::MAX as int)) by (nonlinear_arith)
                            requires
                                0 <= j + 1 - start <= u64::MAX as int,
                        ;
                    }
                    sum = sum + (rec.time as u128);
                    j += 1;
                }
                proof {
                    assert(self.recs().subrange(start as int, j as int) =~= w);
                }
                Some(round_mean(sum, scale))
            },
            StatsType::Average(s_scale) => {
                let scale = *s_scale;
                let start = pos + 1 - scale;
                let ghost w = stat_window(self.recs(), pos as int, scale as int);
                let cutoff = scale / 20 + (if scale % 20 == 0 {
                    0
                } else {
                    1
                });
                proof {
                    assert(cutoff == cutoff_of(scale as int));
                }
                let take = if scale <= 2 * cutoff {
                    0
                } else {
                    scale - 2 * cutoff
                };
                if take == 0 {
                    return None;
                }
                let mut keys: Vec<u32> = Vec::new();
                let mut dnfs: usize = 0;
                let mut j: usize = start;
                while j < pos + 1
                    invariant
                        start <= j <= pos + 1,
                        pos < n,
                        n == records@.len(),
                        start == pos + 1 - scale,
                        records@.len() == self.recs().len(),
                        forall|k: int|
                            0 <= k < records@.len() ==> records@[k] == #[trigger] self.recs()[k],
                        keys@.len() == j - start,
                        forall|k: int|
                            0 <= k < keys@.len() ==> keys@[k] == avg_key(
                                #[trigger] self.recs()[start + k],
                            ),
                        dnfs == count_state(
                            self.recs().subrange(start as int, j as int),
                            SolveState::Dnf,
                        ),
                        dnfs <= j - start,
                    decreases pos + 1 - j,
                {
                    proof {
                        let pre = self.recs().subrange(start as int, j as int);
                        let cur = self.recs().subrange(start as int, j + 1);
                        assert(cur.drop_last() =~= pre);
                        assert(cur.last() == self.recs()[j as int]);
                    }
                    let rec: &Record = &records[j];
                    if rec.solve_state.is_dnf() {
                        dnfs += 1;
                        keys.push(u32::MAX);
                    } else {
                        keys.push(rec.time);
                    }
                    j += 1;
                }
                proof {
                    assert(self.recs().subrange(start as int, j as int) =~= w);
                    assert forall|k: int| 0 <= k < scale implies keys@[k] == #[trigger] keys_of(
                        w,
                    )[k] by {
                        assert(w[k] == self.recs()[start + k]);
                    }
                    assert(keys@ =~= keys_of(w));
                }
                if dnfs > cutoff {
                    return None;
                }
                let sorted = sort_u32(&keys);
                let upper = cutoff + take;
                let mut sum: u128 = 0;
                let mut j2: usize = cutoff;
                while j2 < upper
                    invariant
                        cutoff <= j2 <= upper,
                        upper == cutoff + take,
                        upper <= sorted@.len(),
                        sum == sum_of(sorted@.subrange(cutoff as int, j2 as int)),
                        sum <= (j2 - cutoff) * (u32::MAX as int),
                    decreases upper - j2,
                {
                    proof {
                        let pre = sorted@.subrange(cutoff as int, j2 as int);
                        let cur = sorted@.subrange(cutoff as int, j2 + 1);
                        assert(cur.drop_last() =~= pre);
                        assert(cur.last() == sorted@[j2 as int]);
                        assert((j2 - cutoff) * (u32::MAX as int) + (u32::MAX as int) == (j2 + 1
                            - cutoff) * (u32::MAX as int)) by (nonlinear_arith);
                        assert((j2 + 1 - cutoff) * (u32::MAX as int) <= (u64::MAX as int) * (
                        u32::MAX as int)) by (nonlinear_arith)
                            requires
                                0 <= j2 + 1 - cutoff <= u64::MAX as int,
                        ;
                    }
                    sum = sum + (sorted[j2] as u128);
                    j2 += 1;
                }
                Some(round_mean(sum, take))
            },
        }
    }
}

/// The smallest duration in `s`, or the largest possible duration when `s`
/// is empty.
pub open spec fn min_of(s: Seq<u32>) -> u32
    decreases s.len(),
{
    if s.len() == 0 {
        u32::MAX
    } else {
        let m = min_of(s.drop_last());
        if s.last() < m {
            s.last()
        } else {
            m
        }
    }
}

/// The largest duration in `s`, or zero when `s` is empty.
pub open spec fn max_of(s: Seq<u32>) -> u32
    decreases s.len(),
{
    if s.len() == 0 {
        0
    } else {
        let m = max_of(s.drop_last());
        if s.last() > m {
            s.last()
        } else {
            m
        }
    }
}

/// In a non-empty sequence the minimum never exceeds the maximum.
pub proof fn lemma_min_le_max(s: Seq<u32>)
    requires
        s.len() > 0,
    ensures
        min_of(s) <= max_of(s),
    decreases s.len(),
{
    if s.len() > 1 {
        lemma_min_le_max(s.drop_last());
    }
}

/// The defined statistics of the given kind at every position below `upto`,
/// in position order.
pub open spec fn stats_data_upto(s: Seq<Record>, kind: StatsType, upto: int) -> Seq<u32>
    decreases upto,
{
    if upto <= 0 || upto < kind.spec_scale() {
        Seq::empty()
    } else {
        let rest = stats_data_upto(s, kind, upto - 1);
        match stat_at(s, upto - 1, kind) {
            Some(v) => rest.push(v),
            None => rest,
        }
    }
}

/// All defined statistics of the given kind over the whole record sequence.
pub open spec fn stats_data_spec(s: Seq<Record>, kind: StatsType) -> Seq<u32> {
    stats_data_upto(s, kind, s.len() as int)
}

impl Session {
    /// All non-DNF data of the specified `StatsType` over the `Session`.
    fn stats_data(&self, s_type: &StatsType) -> (r: Vec<u32>)
        requires
            s_type.spec_scale() >= 1,
        ensures
            r@ == stats_data_spec(self.recs(), *s_type),
    {
        let n = self.record_count();
        let scale = s_type.scale();
        let mut out: Vec<u32> = Vec::new();
        if n == 0 || n < scale {
            proof {
                assert(out@ =~= stats_data_spec(self.recs(), *s_type));
            }
            return out;
        }
        let mut i: usize = scale - 1;
        proof {
            assert(stats_data_upto(self.recs(), *s_type, i as int) =~= Seq::<u32>::empty());
        }
        while i < n
            invariant
                scale - 1 <= i <= n,
                scale == s_type.spec_scale(),
                scale >= 1,
                n == self.recs().len(),
                out@ == stats_data_upto(self.recs(), *s_type, i as int),
            decreases n - i,
        {
            match self.stats(i, s_type) {
                Some(v) => out.push(v),
                None => {},
            }
            i += 1;
        }
        out
    }

    /// Best and worst solve times among the records that are not DNF.
    fn best_and_worst(&self) -> (r: (Milliseconds, Milliseconds))
        ensures
            r.0 == min_of(times_of(not_dnf_of(self.recs()))),
            r.1 == max_of(times_of(not_dnf_of(self.recs()))),
    {
        let nd = self.records_not_dnf();
        let n = nd.len();
        let ghost ts = times_of(not_dnf_of(self.recs()));
        let mut best: u32 = u32::MAX;
        let mut worst: u32 = 0;
        let mut i: usize = 0;
        while i < n
            invariant
                i <= n,
                n == nd@.len(),
                n == ts.len(),
                forall|k: int|
                    0 <= k < n ==> nd@[k] == #[trigger] not_dnf_of(self.recs())[k],
                ts == times_of(not_dnf_of(self.recs())),
                best == min_of(ts.subrange(0, i as int)),
                worst == max_of(ts.subrange(0, i as int)),
            decreases n - i,
        {
            proof {
                let pre = ts.subrange(0, i as int);
                let cur = ts.subrange(0, i + 1);
                assert(cur.drop_last() =~= pre);
                assert(cur.last() == ts[i as int]);
                assert(ts[i as int] == not_dnf_of(self.recs())[i as int].time);
            }
            let rec: &Record = &nd[i];
            let t = rec.time;
            if t < best {
                best = t;
            }
            if t > worst {
                worst = t;
            }
            i += 1;
        }
        proof {
            assert(ts.subrange(0, n as int) =~= ts);
        }
        (best, worst)
    }

    /// Mean of solve times that are not DNF.
    fn mean(&self) -> (r: Milliseconds)
        requires
            not_dnf_of(self.recs()).len() >= 1,
        ensures
            r as int == round_mean_spec(
                sum_of(times_of(not_dnf_of(self.recs()))),
                not_dnf_of(self.recs()).len() as int,
            ),
    {
        let nd = self.records_not_dnf();
        let n = nd.len();
        let ghost ts = times_of(not_dnf_of(self.recs()));
        let mut sum: u128 = 0;
        let mut i: usize = 0;
        while i < n
            invariant
                i <= n,
                n == nd@.len(),
                n == ts.len(),
                forall|k: int|
                    0 <= k < n ==> nd@[k] == #[trigger] not_dnf_of(self.recs())[k],
                ts == times_of(not_dnf_of(self.recs())),
                sum == sum_of(ts.subrange(0, i as int)),
                sum <= i * (u32::MAX as int),
            decreases n - i,
        {
            proof {
                let pre = ts.subrange(0, i as int);
                let cur = ts.subrange(0, i + 1);
                assert(cur.drop_last() =~= pre);
                assert(cur.last() == ts[i as int]);
                assert(ts[i as int] == not_dnf_of(self.recs())[i as int].time);
                assert(i * (u32::MAX as int) + (u32::MAX as int) == (i + 1) * (u32::MAX as int))
                    by (nonlinear_arith);
                assert((i + 1) * (u32::MAX as int) <= (u64::MAX as int) * (u32::MAX as int))
                    by (nonlinear_arith)
                    requires
                        0 <= i + 1 <= u64::MAX as int,
                ;
            }
            let rec: &Record = &nd[i];
            sum = sum + (rec.time as u128);
            i += 1;
        }
        proof {
            assert(ts.subrange(0, n as int) =~= ts);
        }
        round_mean(sum, n)
    }

    /// The counts of solve states of the `Session`: OK, +2 and DNF.
    pub fn solve_states(&self) -> (r: (usize, usize, usize))
        ensures
            r.0 == count_state(self.recs(), SolveState::Clean),
            r.1 == count_state(self.recs(), SolveState::Plus2),
            r.2 == count_state(self.recs(), SolveState::Dnf),
    {
        let records = self.records();
        let n = records.len();
        let mut ok: usize = 0;
        let mut plus2: usize = 0;
        let mut dnf: usize = 0;
        let mut i: usize = 0;
        while i < n
            invariant
                i <= n,
                n == records@.len(),
                n == self.recs().len(),
                forall|k: int|
                    0 <= k < n ==> records@[k] == #[trigger] self.recs()[k],
                ok == count_state(self.recs().subrange(0, i as int), SolveState::Clean),
                plus2 == count_state(self.recs().subrange(0, i as int), SolveState::Plus2),
                dnf == count_state(self.recs().subrange(0, i as int), SolveState::Dnf),
                ok + plus2 + dnf == i,
            decreases n - i,
        {
            proof {
                let pre = self.recs().subrange(0, i as int);
                let cur = self.recs().subrange(0, i + 1);
                assert(cur.drop_last() =~= pre);
                assert(cur.last() == self.recs()[i as int]);
            }
            let rec: &Record = &records[i];
            match rec.solve_state {
                SolveState::Clean => ok += 1,
                SolveState::Plus2 => plus2 += 1,
                SolveState::Dnf => dnf += 1,
            }
            i += 1;
        }
        proof {
            assert(self.recs().subrange(0, n as int) =~= self.recs());
        }
        (ok, plus2, dnf)
    }

    /// The best, worst, mean and cutoff average of the `Session`, where the
    /// average may be DNF, represented by `None`. The session must hold at
    /// least one record that is not DNF.
    pub fn summary(&self) -> (r: (Milliseconds, Milliseconds, Milliseconds, Option<Milliseconds>))
        requires
            not_dnf_of(self.recs()).len() >= 1,
        ensures
            r.0 == min_of(times_of(not_dnf_of(self.recs()))),
            r.1 == max_of(times_of(not_dnf_of(self.recs()))),
            r.2 as int == round_mean_spec(
                sum_of(times_of(not_dnf_of(self.recs()))),
                not_dnf_of(self.recs()).len() as int,
            ),
            r.3 == stat_at(
                self.recs(),
                self.recs().len() - 1,
                StatsType::Average(self.recs().len() as usize),
            ),
    {
        proof {
            crate::session::lemma_not_dnf_len(self.recs());
        }
        let record_count = self.record_count();
        let (best, worst) = self.best_and_worst();
        let mean = self.mean();
        let average = self.stats(record_count - 1, &StatsType::Average(record_count));
        (best, worst, mean, average)
    }
}

/// The running best after a sequence of personal-best entries: the value of
/// the last entry, or the largest possible duration before any entry.
pub open spec fn pb_best(entries: Seq<(int, u32)>) -> u32 {
    if entries.len() == 0 {
        u32::MAX
    } else {
        entries.last().1
    }
}

/// The personal-best history of the given kind over positions below `upto`:
/// scanning upward, a position whose statistic exists and strictly improves
/// on the running best is emitted with the new best.
pub open spec fn pbs_upto(s: Seq<Record>, kind: StatsType, upto: int) -> Seq<(int, u32)>
    decreases upto,
{
    if upto <= 0 || upto < kind.spec_scale() {
        Seq::empty()
    } else {
        let rest = pbs_upto(s, kind, upto - 1);
        match stat_at(s, upto - 1, kind) {
            Some(v) => if v < pb_best(rest) {
                rest.push((upto - 1, v))
            } else {
                rest
            },
            None => rest,
        }
    }
}

/// The whole personal-best history of the given kind.
pub open spec fn pbs_spec(s: Seq<Record>, kind: StatsType) -> Seq<(int, u32)> {
    pbs_upto(s, kind, s.len() as int)
}

/// Personal bests are strictly decreasing in value and strictly increasing
/// in position; every emitted entry carries the statistic defined at its
/// position, and positions never precede `scale - 1`.
pub proof fn lemma_pbs_strict(s: Seq<Record>, kind: StatsType, upto: int)
    ensures
        forall|i: int, j: int|
            0 <= i < j < pbs_upto(s, kind, upto).len() ==> pbs_upto(s, kind, upto)[i].1
                > pbs_upto(s, kind, upto)[j].1 && pbs_upto(s, kind, upto)[i].0 < pbs_upto(
                s,
                kind,
                upto,
            )[j].0,
        forall|k: int|
            0 <= k < pbs_upto(s, kind, upto).len() ==> stat_at(
                s,
                (#[trigger] pbs_upto(s, kind, upto)[k]).0,
                kind,
            ) == Some(pbs_upto(s, kind, upto)[k].1) && kind.spec_scale() - 1 <= pbs_upto(
                s,
                kind,
                upto,
            )[k].0 < upto,
    decreases upto,
{
    if upto <= 0 || upto < kind.spec_scale() {
    } else {
        lemma_pbs_strict(s, kind, upto - 1);
        let rest = pbs_upto(s, kind, upto - 1);
        let cur = pbs_upto(s, kind, upto);
        if cur.len() == rest.len() + 1 {
            assert forall|i: int, j: int| 0 <= i < j < cur.len() implies cur[i].1 > cur[j].1
                && cur[i].0 < cur[j].0 by {
                if j < cur.len() - 1 {
                    assert(cur[i] == rest[i] && cur[j] == rest[j]);
                } else {
                    assert(cur[j] == (upto - 1, stat_at(s, upto - 1, kind)->Some_0));
                    if i < rest.len() - 1 && rest.len() > 0 {
                        assert(rest[i].1 > rest[rest.len() - 1].1);
                    }
                }
            }
        }
    }
}

/// A trend value: the statistic where it exists, and zero where it does
/// not, meaning "no data yet".
pub open spec fn stat_or_zero(o: Option<u32>) -> u32 {
    match o {
        Some(v) => v,
        None => 0,
    }
}

impl Session {
    /// `Record`s that broke the personal best of the specified `StatsType`,
    /// each with its position and the new best.
    pub fn pbs(&self, s_type: &StatsType) -> (r: Vec<(usize, Milliseconds, Rc<Record>)>)
        requires
            s_type.spec_scale() >= 1,
        ensures
            r@.len() == pbs_spec(self.recs(), *s_type).len(),
            forall|k: int|
                0 <= k < r@.len() ==> (#[trigger] r@[k]).0 as int == pbs_spec(
                    self.recs(),
                    *s_type,
                )[k].0 && r@[k].1 == pbs_spec(self.recs(), *s_type)[k].1 && r@[k].2
                == self.recs()[pbs_spec(self.recs(), *s_type)[k].0],
    {
        let records = self.records();
        let n = records.len();
        let scale = s_type.scale();
        let mut pb: u32 = u32::MAX;
        let mut out: Vec<(usize, Milliseconds, Rc<Record>)> = Vec::new();
        if n == 0 || n < scale {
            proof {
                assert(pbs_spec(self.recs(), *s_type) =~= Seq::<(int, u32)>::empty());
            }
            return out;
        }
        let mut i: usize = scale - 1;
        proof {
            assert(pbs_upto(self.recs(), *s_type, i as int) =~= Seq::<(int, u32)>::empty());
        }
        while i < n
            invariant
                scale - 1 <= i <= n,
                scale == s_type.spec_scale(),
                scale >= 1,
                n == records@.len(),
                n == self.recs().len(),
                forall|k: int|
                    0 <= k < n ==> records@[k] == #[trigger] self.recs()[k],
                pb == pb_best(pbs_upto(self.recs(), *s_type, i as int)),
                out@.len() == pbs_upto(self.recs(), *s_type, i as int).len(),
                forall|k: int|
                    0 <= k < out@.len() ==> (#[trigger] out@[k]).0 as int == pbs_upto(
                        self.recs(),
                        *s_type,
                        i as int,
                    )[k].0 && out@[k].1 == pbs_upto(self.recs(), *s_type, i as int)[k].1
                        && out@[k].2 == self.recs()[pbs_upto(self.recs(), *s_type, i as int)[k].0],
            decreases n - i,
        {
            if let Some(stats) = self.stats(i, s_type) {
                if stats < pb {
                    pb = stats;
                    out.push((i, stats, rc_clone(&records[i])));
                }
            }
            i += 1;
        }
        out
    }

    /// A trend of the specified type over solves: one value per record,
    /// zero before the first full window and where the statistic is DNF.
    pub fn trend(&self, s_type: &StatsType) -> (r: Vec<(usize, u32)>)
        requires
            s_type.spec_scale() >= 1,
        ensures
            r@.len() == self.recs().len(),
            forall|k: int|
                0 <= k < r@.len() ==> (#[trigger] r@[k]).0 == k + 1,
            forall|k: int|
                0 <= k < r@.len() && k < s_type.spec_scale() - 1 ==> (#[trigger] r@[k]).1 == 0,
            forall|k: int|
                0 <= k < r@.len() && k >= s_type.spec_scale() - 1 ==> (#[trigger] r@[k]).1
                    == stat_or_zero(stat_at(self.recs(), k, *s_type)),
    {
        let records = self.records();
        let n = records.len();
        let scale = s_type.scale();
        let mut out: Vec<(usize, u32)> = Vec::new();
        let mut i: usize = 0;
        while i < n
            invariant
                i <= n,
                scale == s_type.spec_scale(),
                scale >= 1,
                n == records@.len(),
                n == self.recs().len(),
                forall|k: int|
                    0 <= k < n ==> records@[k] == #[trigger] self.recs()[k],
                out@.len() == i,
                forall|k: int|
                    0 <= k < i ==> (#[trigger] out@[k]).0 == k + 1,
                forall|k: int|
                    0 <= k < i && k < scale - 1 ==> (#[trigger] out@[k]).1 == 0,
                forall|k: int|
                    0 <= k < i && k >= scale - 1 ==> (#[trigger] out@[k]).1 == stat_or_zero(
                        stat_at(self.recs(), k, *s_type),
                    ),
            decreases n - i,
        {
            if i + 1 >= scale {
                let v = match self.stats(i, s_type) {
                    Some(v) => v,
                    None => 0,
                };
                out.push((i + 1, v));
            } else {
                out.push((i + 1, 0));
            }
            i += 1;
        }
        out
    }
}

/// The personal best standing at position `i`: the value of the last entry
/// at or before `i`, or zero when there is none yet.
pub open spec fn pb_value_at(entries: Seq<(usize, Milliseconds, Rc<Record>)>, i: int) -> u32
    decreases entries.len(),
{
    if entries.len() == 0 {
        0
    } else if entries.last().0 <= i {
        entries.last().1
    } else {
        pb_value_at(entries.drop_last(), i)
    }
}

proof fn lemma_pb_value_at(entries: Seq<(usize, Milliseconds, Rc<Record>)>, i: int, j: int)
    requires
        forall|a: int, b: int| 0 <= a < b < entries.len() ==> entries[a].0 < entries[b].0,
        0 <= j <= entries.len(),
        forall|k: int| 0 <= k < j ==> entries[k].0 <= i,
        j < entries.len() ==> entries[j].0 > i,
    ensures
        pb_value_at(entries, i) == if j == 0 {
            0u32
        } else {
            entries[j - 1].1
        },
    decreases entries.len(),
{
    if entries.len() > 0 {
        if j == entries.len() {
        } else {
            assert(entries[j].0 <= entries[entries.len() - 1].0 || j == entries.len() - 1);
            assert(entries.last().0 > i);
            lemma_pb_value_at(entries.drop_last(), i, j);
        }
    }
}

impl Session {
    /// A trend of the personal best over solves: one value per record, the
    /// best standing at that record, zero before the first personal best.
    /// The entries must come in strictly increasing positions within the
    /// session, as `pbs` produces them.
    pub fn pbs_trends(&self, pbs: &Vec<(usize, Milliseconds, Rc<Record>)>) -> (r: Vec<
        (usize, u32),
    >)
        requires
            forall|a: int, b: int| 0 <= a < b < pbs@.len() ==> pbs@[a].0 < pbs@[b].0,
            forall|k: int| 0 <= k < pbs@.len() ==> (#[trigger] pbs@[k]).0 < self.recs().len(),
        ensures
            r@.len() == self.recs().len(),
            forall|k: int| 0 <= k < r@.len() ==> (#[trigger] r@[k]).0 == k + 1,
            forall|k: int| 0 <= k < r@.len() ==> (#[trigger] r@[k]).1 == pb_value_at(pbs@, k),
    {
        let n = self.record_count();
        let m = pbs.len();
        let mut out: Vec<(usize, u32)> = Vec::new();
        let mut j: usize = 0;
        let mut i: usize = 0;
        while i < n
            invariant
                i <= n,
                j <= m,
                m == pbs@.len(),
                n == self.recs().len(),
                forall|a: int, b: int| 0 <= a < b < m ==> pbs@[a].0 < pbs@[b].0,
                forall|k: int| 0 <= k < j ==> (#[trigger] pbs@[k]).0 <= i as int - 1,
                j < m ==> pbs@[j as int].0 > i as int - 1,
                out@.len() == i,
                forall|k: int| 0 <= k < i ==> (#[trigger] out@[k]).0 == k + 1,
                forall|k: int| 0 <= k < i ==> (#[trigger] out@[k]).1 == pb_value_at(pbs@, k),
            decreases n - i,
        {
            while j < m && pbs[j].0 <= i
                invariant
                    j <= m,
                    m == pbs@.len(),
                    forall|a: int, b: int| 0 <= a < b < m ==> pbs@[a].0 < pbs@[b].0,
                    forall|k: int| 0 <= k < j ==> (#[trigger] pbs@[k]).0 <= i as int,
                decreases m - j,
            {
                j += 1;
            }
            proof {
                lemma_pb_value_at(pbs@, i as int, j as int);
            }
            let v = if j > 0 {
                pbs[j - 1].1
            } else {
                0
            };
            out.push((i + 1, v));
            i += 1;
        }
        out
    }
}

/// The auto-interval search from multiple `i` on: scanning increasing
/// multiples of the grain, the scan continues only while the bucket count's
/// distance to the target strictly improves, and keeps the last strict
/// improvement. On a tie the earlier, smaller multiple wins.
pub open spec fn decide_interval_from(diff: int, i: int, closest: int, k: int) -> int
    decreases diff / 100 - i,
{
    if i < 1 || i >= diff / 100 {
        k * 100
    } else {
        let groups = diff / (i * 100);
        let delta = if groups >= 24 {
            groups - 24
        } else {
            24 - groups
        };
        if delta < closest {
            decide_interval_from(diff, i + 1, delta, i)
        } else {
            k * 100
        }
    }
}

/// The auto-selected grouping interval for a spread of `diff` milliseconds.
pub open spec fn decide_interval_spec(diff: int) -> int {
    decide_interval_from(diff, 1, u32::MAX as int, 1)
}

impl Session {
    /// Decides a proper interval for grouping in case it is zero: the
    /// multiple of 100 ms whose bucket count over the session's spread comes
    /// nearest 24, by the first-local-minimum scan. The session must hold at
    /// least one record that is not DNF.
    pub fn decide_interval(&self) -> (r: Milliseconds)
        requires
            not_dnf_of(self.recs()).len() >= 1,
        ensures
            r as int == decide_interval_spec(
                max_of(times_of(not_dnf_of(self.recs()))) as int - min_of(
                    times_of(not_dnf_of(self.recs())),
                ) as int,
            ),
            r >= 100,
    {
        proof {
            lemma_min_le_max(times_of(not_dnf_of(self.recs())));
            assert(times_of(not_dnf_of(self.recs())).len() > 0);
        }
        let (best, worst) = self.best_and_worst();
        let diff = worst - best;
        let bound = diff / 100;
        let mut closest: u32 = u32::MAX;
        let mut k: u32 = 1;
        let mut i: u32 = 1;
        while i < bound
            invariant_except_break
                1 <= i,
                bound == diff / 100,
                1 <= k,
                k == 1 || k as int * 100 <= diff as int,
                decide_interval_spec(diff as int) == decide_interval_from(
                    diff as int,
                    i as int,
                    closest as int,
                    k as int,
                ),
            ensures
                1 <= k,
                k == 1 || k as int * 100 <= diff as int,
                decide_interval_spec(diff as int) == k as int * 100,
            decreases bound - i,
        {
            let interval = i * 100;
            proof {
                assert((diff as int / 100) * 100 <= diff as int) by (nonlinear_arith);
            }
            let groups = diff / interval;
            let delta = if groups >= 24 {
                groups - 24
            } else {
                24 - groups
            };
            if delta < closest {
                closest = delta;
                k = i;
            } else {
                break ;
            }
            i += 1;
        }
        proof {
            if k > 1 {
                assert(k as int * 100 <= u32::MAX as int);
            }
        }
        k * 100
    }
}

/// How many data points fall in the half-open interval `[lo, hi)`.
pub open spec fn count_in_bucket(data: Seq<u32>, lo: int, hi: int) -> int
    decreases data.len(),
{
    if data.len() == 0 {
        0
    } else {
        count_in_bucket(data.drop_last(), lo, hi) + if lo <= data.last() < hi {
            1int
        } else {
            0int
        }
    }
}

/// `v` rounded down to a multiple of `interval`.
pub open spec fn bucket_floor(v: int, interval: int) -> int {
    (v / interval) * interval
}

/// `v` rounded up to a multiple of `interval`.
pub open spec fn bucket_ceil(v: int, interval: int) -> int {
    ((v + interval - 1) / interval) * interval
}

impl Session {
    /// Splits times of the specified `StatsType` into groups by a fixed
    /// interval: one bucket per `interval` step from the floored minimum to
    /// the ceiled maximum, counting the data points within each.
    pub fn group(&self, interval: Milliseconds, s_type: &StatsType) -> (r: Vec<GroupTime>)
        requires
            interval >= 1,
            s_type.spec_scale() >= 1,
        ensures
            ({
                let data = stats_data_spec(self.recs(), *s_type);
                let lo = bucket_floor(min_of(data) as int, interval as int);
                let hi = bucket_ceil(max_of(data) as int, interval as int);
                &&& data.len() == 0 ==> r@.len() == 0
                &&& data.len() > 0 ==> r@.len() as int * interval as int == hi - lo
                &&& forall|b: int|
                    0 <= b < r@.len() ==> (#[trigger] r@[b]).0 as int == lo + b * interval
                        && r@[b].1 as int == count_in_bucket(
                        data,
                        lo + b * interval,
                        lo + (b + 1) * interval,
                    )
            }),
    {
        let data = self.stats_data(s_type);
        let ghost dv = stats_data_spec(self.recs(), *s_type);
        let n = data.len();
        let mut out: Vec<GroupTime> = Vec::new();
        if n == 0 {
            return out;
        }
        let mut mn: u32 = u32::MAX;
        let mut mx: u32 = 0;
        let mut i: usize = 0;
        while i < n
            invariant
                i <= n,
                n == data@.len(),
                data@ == dv,
                mn == min_of(dv.subrange(0, i as int)),
                mx == max_of(dv.subrange(0, i as int)),
            decreases n - i,
        {
            proof {
                let pre = dv.subrange(0, i as int);
                let cur = dv.subrange(0, i + 1);
                assert(cur.drop_last() =~= pre);
                assert(cur.last() == dv[i as int]);
            }
            let t = data[i];
            if t < mn {
                mn = t;
            }
            if t > mx {
                mx = t;
            }
            i += 1;
        }
        proof {
            assert(dv.subrange(0, n as int) =~= dv);
        }
        let iw = interval as u64;
        let qlo = (mn as u64) / iw;
        let qhi = ((mx as u64) + iw - 1) / iw;
        proof {
            assert(qlo as int == min_of(dv) as int / interval as int);
            assert(qhi as int == (max_of(dv) as int + interval - 1) / interval as int);
            lemma_div_is_ordered(mn as int, mx as int + interval - 1, interval as int);
            assert(qhi as int * iw as int <= mx as int + iw as int - 1) by (nonlinear_arith)
                requires
                    iw as int >= 1,
                    qhi as int == (mx as int + iw as int - 1) / (iw as int),
            ;
            assert(qlo as int * iw as int <= mn as int) by (nonlinear_arith)
                requires
                    iw as int >= 1,
                    qlo as int == mn as int / (iw as int),
            ;
        }
        let nb = qhi - qlo;
        let mut b: u64 = 0;
        while b < nb
            invariant
                b <= nb,
                nb == qhi - qlo,
                qlo <= qhi,
                iw == interval as u64,
                iw >= 1,
                n == data@.len(),
                data@ == dv,
                qhi * iw <= (mx as u64) + iw - 1,
                mx == max_of(dv),
                qlo as int * interval as int == bucket_floor(min_of(dv) as int, interval as int),
                qhi as int * interval as int == bucket_ceil(max_of(dv) as int, interval as int),
                out@.len() == b,
                forall|c: int|
                    0 <= c < b ==> (#[trigger] out@[c]).0 as int == qlo as int * interval as int
                        + c * interval && out@[c].1 as int == count_in_bucket(
                        dv,
                        qlo as int * interval as int + c * interval,
                        qlo as int * interval as int + (c + 1) * interval,
                    ),
            decreases nb - b,
        {
            proof {
                assert((qlo + b) * iw <= qhi * iw && (qlo + b) * iw + iw <= qhi * iw)
                    by (nonlinear_arith)
                    requires
                        b < qhi - qlo,
                        iw >= 1,
                ;
            }
            let start = (qlo + b) * iw;
            let hi_b = start + iw;
            let mut cnt: usize = 0;
            let mut j: usize = 0;
            while j < n
                invariant
                    j <= n,
                    n == data@.len(),
                    data@ == dv,
                    cnt <= j,
                    cnt == count_in_bucket(dv.subrange(0, j as int), start as int, hi_b as int),
                decreases n - j,
            {
                proof {
                    let pre = dv.subrange(0, j as int);
                    let cur = dv.subrange(0, j + 1);
                    assert(cur.drop_last() =~= pre);
                    assert(cur.last() == dv[j as int]);
                }
                let t = data[j] as u64;
                if t >= start && t < hi_b {
                    cnt += 1;
                }
                j += 1;
            }
            proof {
                assert(dv.subrange(0, n as int) =~= dv);
                assert(start as int == qlo as int * interval as int + b as int * interval)
                    by (nonlinear_arith)
                    requires
                        start == (qlo + b) * iw,
                        iw == interval as u64,
                ;
                assert(hi_b as int == qlo as int * interval as int + (b as int + 1) * interval)
                    by (nonlinear_arith)
                    requires
                        hi_b == (qlo + b) * iw + iw,
                        iw == interval as u64,
                ;
                assert(start <= (mx as u64) + iw - 1 - iw);
            }
            out.push((start as u32, cnt));
            b += 1;
        }
        proof {
            assert(out@.len() as int * interval as int == qhi as int * interval as int - qlo as int
                * interval as int) by (nonlinear_arith)
                requires
                    out@.len() == qhi - qlo,
                    interval as int == iw as int,
            ;
        }
        out
    }
}

/// The commented records of `s`: each record whose annotation is non-empty,
/// with its 1-based position, in order.
pub open spec fn commented_of(s: Seq<Record>) -> Seq<(int, Record)>
    decreases s.len(),
{
    if s.len() == 0 {
        Seq::empty()
    } else {
        let rest = commented_of(s.drop_last());
        if s.last().comment@.len() > 0 {
            rest.push((s.len() as int, s.last()))
        } else {
            rest
        }
    }
}

/// The UTC calendar dates of the records, in order.
pub open spec fn dates_of(s: Seq<Record>) -> Seq<(i32, u8, u8)> {
    s.map_values(|r: Record| crate::dates::civil_date_of(r.date_time))
}

impl Session {
    /// `Record`s with a comment, each with its 1-based position.
    pub fn commented_records(&self) -> (r: Vec<(usize, Rc<Record>)>)
        ensures
            r@.len() == commented_of(self.recs()).len(),
            forall|k: int|
                0 <= k < r@.len() ==> (#[trigger] r@[k]).0 as int == commented_of(
                    self.recs(),
                )[k].0 && r@[k].1 == commented_of(self.recs())[k].1,
    {
        let records = self.records();
        let n = records.len();
        let mut out: Vec<(usize, Rc<Record>)> = Vec::new();
        let mut i: usize = 0;
        while i < n
            invariant
                i <= n,
                n == records@.len(),
                n == self.recs().len(),
                forall|k: int| 0 <= k < n ==> records@[k] == #[trigger] self.recs()[k],
                out@.len() == commented_of(self.recs().subrange(0, i as int)).len(),
                forall|k: int|
                    0 <= k < out@.len() ==> (#[trigger] out@[k]).0 as int == commented_of(
                        self.recs().subrange(0, i as int),
                    )[k].0 && out@[k].1 == commented_of(self.recs().subrange(0, i as int))[k].1,
            decreases n - i,
        {
            proof {
                let pre = self.recs().subrange(0, i as int);
                let cur = self.recs().subrange(0, i + 1);
                assert(cur.drop_last() =~= pre);
                assert(cur.last() == self.recs()[i as int]);
            }
            let rec: &Record = &records[i];
            if !rec.comment.as_str().is_empty() {
                out.push((i + 1, rc_clone(&records[i])));
            }
            i += 1;
        }
        proof {
            assert(self.recs().subrange(0, n as int) =~= self.recs());
        }
        out
    }

    /// Count of days that have at least one `Record` in the `Session`: the
    /// number of distinct UTC calendar dates among the records.
    pub fn days_with_record(&self) -> (r: usize)
        ensures
            r == dates_of(self.recs()).to_set().len(),
    {
        let records = self.records();
        let n = records.len();
        let ghost dates = dates_of(self.recs());
        let mut seen: Vec<(i32, u8, u8)> = Vec::new();
        let mut i: usize = 0;
        while i < n
            invariant
                i <= n,
                n == records@.len(),
                n == self.recs().len(),
                n == dates.len(),
                dates == dates_of(self.recs()),
                forall|k: int| 0 <= k < n ==> records@[k] == #[trigger] self.recs()[k],
                forall|k: int|
                    0 <= k < n ==> dates[k] == crate::dates::civil_date_of(
                        (#[trigger] self.recs()[k]).date_time,
                    ),
                seen@.no_duplicates(),
                seen@.to_set() == dates.subrange(0, i as int).to_set(),
            decreases n - i,
        {
            let rec: &Record = &records[i];
            let d = crate::dates::timestamp_civil_date(rec.date_time);
            let mut found = false;
            let m = seen.len();
            let mut j: usize = 0;
            while j < m
                invariant
                    j <= m,
                    m == seen@.len(),
                    !found ==> forall|k: int| 0 <= k < j ==> seen@[k] != d,
                    found ==> seen@.contains(d),
                decreases m - j,
            {
                let e = seen[j];
                if e.0 == d.0 && e.1 == d.1 && e.2 == d.2 {
                    found = true;
                    proof {
                        assert(seen@[j as int] == d);
                    }
                }
                j += 1;
            }
            proof {
                let pre = dates.subrange(0, i as int);
                let cur = dates.subrange(0, i + 1);
                assert(cur.drop_last() =~= pre);
                assert(cur.last() == dates[i as int]);
                assert(dates[i as int] == d);
                assert(cur =~= pre.push(d));
                assert forall|x: (i32, u8, u8)| cur.to_set().contains(x) <==> pre.to_set().insert(
                    d,
                ).contains(x) by {
                    if cur.contains(x) {
                        let w = choose|w: int| 0 <= w < cur.len() && cur[w] == x;
                        if w < pre.len() {
                            assert(pre[w] == x);
                        }
                    }
                    if pre.contains(x) {
                        let w = choose|w: int| 0 <= w < pre.len() && pre[w] == x;
                        assert(cur[w] == x);
                    }
                    if x == d {
                        assert(cur[cur.len() - 1] == x);
                    }
                }
                assert(cur.to_set() =~= pre.to_set().insert(d));
            }
            if !found {
                proof {
                    assert(!seen@.contains(d)) by {
                        if seen@.contains(d) {
                            let w = choose|w: int| 0 <= w < seen@.len() && seen@[w] == d;
                        }
                    }
                    assert(seen@.push(d).no_duplicates());
                    assert forall|x: (i32, u8, u8)|
                        seen@.push(d).to_set().contains(x) <==> seen@.to_set().insert(d).contains(
                            x,
                        ) by {
                        if seen@.push(d).contains(x) {
                            let w = choose|w: int|
                                0 <= w < seen@.push(d).len() && seen@.push(d)[w] == x;
                            if w < seen@.len() {
                                assert(seen@[w] == x);
                            }
                        }
                        if seen@.contains(x) {
                            let w = choose|w: int| 0 <= w < seen@.len() && seen@[w] == x;
                            assert(seen@.push(d)[w] == x);
                        }
                        if x == d {
                            assert(seen@.push(d)[seen@.len() as int] == x);
                        }
                    }
                    assert(seen@.push(d).to_set() =~= seen@.to_set().insert(d));
                }
                seen.push(d);
            } else {
                proof {
                    assert(seen@.to_set().contains(d));
                    assert(seen@.to_set() =~= seen@.to_set().insert(d));
                }
            }
            i += 1;
        }
        proof {
            assert(dates.subrange(0, n as int) =~= dates);
            seen@.unique_seq_to_set();
        }
        seen.len()
    }
}

proof fn lemma_count_state_exists(recs: Seq<Record>, st: SolveState)
    ensures
        count_state(recs, st) > 0 <==> exists|i: int|
            0 <= i < recs.len() && recs[i].solve_state == st,
    decreases recs.len(),
{
    lemma_count_state_nonneg(recs, st);
    if recs.len() > 0 {
        lemma_count_state_exists(recs.drop_last(), st);
        if count_state(recs, st) > 0 {
            if recs.last().solve_state == st {
                assert(recs[recs.len() - 1].solve_state == st);
            } else {
                let i = choose|i: int|
                    0 <= i < recs.drop_last().len() && recs.drop_last()[i].solve_state == st;
                assert(recs[i].solve_state == st);
            }
        }
        if exists|i: int| 0 <= i < recs.len() && recs[i].solve_state == st {
            let i = choose|i: int| 0 <= i < recs.len() && recs[i].solve_state == st;
            if i < recs.len() - 1 {
                assert(recs.drop_last()[i].solve_state == st);
            }
            lemma_count_state_nonneg(recs.drop_last(), st);
        }
    }
}

/// A plain mean over a window has no value exactly when at least one record
/// in that window is DNF; with no DNF in the window, its value is the
/// rounded mean of the window's durations.
pub proof fn lemma_mean_none_iff_dnf(s: Seq<Record>, pos: int, scale: usize)
    requires
        1 <= scale,
        scale <= pos + 1,
        pos < s.len(),
    ensures
        stat_at(s, pos, StatsType::Mean(scale)) is None <==> exists|j: int|
            pos + 1 - scale <= j <= pos && s[j].solve_state == SolveState::Dnf,
        stat_at(s, pos, StatsType::Mean(scale)) matches Some(v) ==> v as int == round_mean_spec(
            sum_of(times_of(stat_window(s, pos, scale as int))),
            scale as int,
        ),
{
    let w = stat_window(s, pos, scale as int);
    lemma_count_state_exists(w, SolveState::Dnf);
    assert forall|i: int| 0 <= i < w.len() implies w[i] == s[pos + 1 - scale + i] by {}
    if exists|j: int| pos + 1 - scale <= j <= pos && s[j].solve_state == SolveState::Dnf {
        let j = choose|j: int| pos + 1 - scale <= j <= pos && s[j].solve_state == SolveState::Dnf;
        assert(w[j - (pos + 1 - scale)].solve_state == SolveState::Dnf);
    }
    lemma_count_state_nonneg(w, SolveState::Dnf);
    if count_state(w, SolveState::Dnf) == 0 {
        lemma_sum_bound(times_of(w));
        lemma_round_mean_bound(sum_of(times_of(w)), scale as int);
    }
}

/// A cutoff average discards exactly `ceil(scale / 20)` values on each side
/// — the tightest multiple-of-twenty bound witnesses that — and it has no
/// value exactly when nothing would remain after the trim or when the count
/// of DNF records in the window, not the trimmed count, exceeds the cutoff.
/// When it has a value, that value is the rounded mean of the sorted keys
/// with `cutoff` entries dropped at each end.
pub proof fn lemma_average_cutoff(s: Seq<Record>, pos: int, scale: usize)
    requires
        1 <= scale,
        scale <= pos + 1,
        pos < s.len(),
    ensures
        ({
            let w = stat_window(s, pos, scale as int);
            let cut = cutoff_of(scale as int);
            let take = scale - 2 * cut;
            &&& 20 * (cut - 1) < scale <= 20 * cut
            &&& (stat_at(s, pos, StatsType::Average(scale)) is None <==> take <= 0 || count_state(
                w,
                SolveState::Dnf,
            ) > cut)
            &&& (stat_at(s, pos, StatsType::Average(scale)) matches Some(v) ==> v as int
                == round_mean_spec(
                sum_of(keys_of(w).sort_by(u32_leq()).subrange(cut, cut + take)),
                take,
            ))
        }),
{
    let w = stat_window(s, pos, scale as int);
    let cut = cutoff_of(scale as int);
    let take = scale - 2 * cut;
    vstd::arithmetic::div_mod::lemma_fundamental_div_mod(scale as int + 19, 20);
    assert(w.len() == scale);
    if !(take <= 0 || count_state(w, SolveState::Dnf) > cut) {
        let sorted = keys_of(w).sort_by(u32_leq());
        keys_of(w).lemma_sort_by_ensures(u32_leq());
        broadcast use vstd::seq_lib::group_to_multiset_ensures;

        assert(sorted.to_multiset().len() == keys_of(w).to_multiset().len());
        assert(sorted.len() == keys_of(w).len());
        lemma_sum_bound(sorted.subrange(cut, cut + take));
        lemma_round_mean_bound(sum_of(sorted.subrange(cut, cut + take)), take);
    }
}

} // verus!
