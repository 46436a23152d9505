//! The timeline aggregator: bucket a filtered entry sequence into
//! fixed-width time intervals and report per-bucket counts plus the
//! observed time span.
use vstd::prelude::*;

verus! {

use vstd::seq_lib::*;
use vstd::arithmetic::div_mod::lemma_fundamental_div_mod;
use crate::models::LogFilter;
use crate::parser::{Entry, EntryV};
use crate::query::{entry_matches, filter_entries, ts_in_unit};
use crate::text::{
    digit_run_end, digit_run_end_x, digits_val, lemma_digit_run_end, parse_dec_u64, str_eq,
};

/// Timeline query parameters: a filter plus the bucket interval.
#[derive(Debug)]
pub struct TimelineFilter {
    pub log_filter: LogFilter,
    pub interval: String,
}

/// One bucket: its start time (in the query's unit) and how many filtered
/// entries fall in it.
#[derive(Debug, Clone, Copy, PartialEq, Eq, Structural)]
pub struct TimelineBucket {
    pub timestamp: u64,
    pub count: usize,
}

/// The timeline: sparse ascending buckets and the observed span.
#[derive(Debug)]
pub struct TimelineResponse {
    pub buckets: Vec<TimelineBucket>,
    pub min_timestamp: u64,
    pub max_timestamp: u64,
}

/// Why a timeline query was rejected.
#[derive(Debug, PartialEq, Eq)]
pub enum TimelineError {
    InvalidInterval { interval: String },
}

/// The interval used when a query names none.
pub fn default_interval() -> (r: String)
    ensures
        r@ == "1s"@,
{
    String::from_str("1s")
}

/// Microseconds per interval unit symbol.
pub open spec fn interval_factor(unit: Seq<char>) -> Option<u64> {
    if unit == "us"@ {
        Some(1u64)
    } else if unit == "ms"@ {
        Some(1000u64)
    } else if unit == "s"@ {
        Some(1000000u64)
    } else if unit == "m"@ {
        Some(60000000u64)
    } else {
        None
    }
}

/// The interval grammar: one or more digits then a unit symbol, denoting a
/// positive span that fits the microsecond representation. A zero value
/// would make the bucket width zero and is rejected with the rest.
pub open spec fn spec_parse_interval(s: Seq<char>) -> Option<u64> {
    let d = digit_run_end(s, 0);
    if d == 0 {
        None
    } else {
        let v = digits_val(s.take(d));
        match interval_factor(s.skip(d)) {
            None => None,
            Some(f) => if 1 <= v && v * f <= u64::MAX {
                Some((v * f) as u64)
            } else {
                None
            },
        }
    }
}

/// Parse an interval such as `250ms` into microseconds.
pub fn parse_interval(interval: &str) -> (r: Option<u64>)
    ensures
        r == spec_parse_interval(interval@),
{
    proof {
        reveal_strlit("us");
        reveal_strlit("ms");
        reveal_strlit("s");
        reveal_strlit("m");
        lemma_digit_run_end(interval@, 0);
    }
    let len = interval.unicode_len();
    let d = digit_run_end_x(interval, 0);
    if d == 0 {
        return None;
    }
    let num_tok = interval.substring_char(0, d);
    let unit = interval.substring_char(d, len);
    proof {
        assert(num_tok@ =~= interval@.take(d as int));
        assert(unit@ =~= interval@.skip(d as int));
    }
    let factor: u64 = if str_eq(unit, "us") {
        1
    } else if str_eq(unit, "ms") {
        1000
    } else if str_eq(unit, "s") {
        1000000
    } else if str_eq(unit, "m") {
        60000000
    } else {
        return None;
    };
    let value = match parse_dec_u64(num_tok) {
        Some(v) => v,
        None => {
            proof {
                let v = digits_val(interval@.take(d as int));
                assert(v > u64::MAX);
                assert(v * factor > u64::MAX) by (nonlinear_arith)
                    requires
                        v > u64::MAX,
                        factor >= 1,
                ;
            }
            return None;
        },
    };
    if value == 0 {
        return None;
    }
    value.checked_mul(factor)
}

/// Whether the interval asks for microsecond precision.
pub open spec fn ends_us(s: Seq<char>) -> bool {
    s.len() >= 2 && s[s.len() - 2] == 'u' && s[s.len() - 1] == 's'
}

fn ends_us_x(s: &str) -> (r: bool)
    ensures
        r == ends_us(s@),
{
    let len = s.unicode_len();
    len >= 2 && s.get_char(len - 2) == 'u' && s.get_char(len - 1) == 's'
}

/// The least element of a nonempty sequence.
pub open spec fn seq_min(s: Seq<u64>) -> u64
    recommends
        s.len() > 0,
    decreases s.len(),
{
    if s.len() <= 1 {
        s[0]
    } else {
        let m = seq_min(s.drop_first());
        if s[0] <= m {
            s[0]
        } else {
            m
        }
    }
}

/// The greatest element of a nonempty sequence.
pub open spec fn seq_max(s: Seq<u64>) -> u64
    recommends
        s.len() > 0,
    decreases s.len(),
{
    if s.len() <= 1 {
        s[0]
    } else {
        let m = seq_max(s.drop_first());
        if s[0] >= m {
            s[0]
        } else {
            m
        }
    }
}

pub proof fn lemma_seq_min_push(s: Seq<u64>, x: u64)
    requires
        s.len() > 0,
    ensures
        seq_min(s.push(x)) == if x < seq_min(s) {
            x
        } else {
            seq_min(s)
        },
    decreases s.len(),
{
    reveal_with_fuel(seq_min, 3);
    if s.len() == 1 {
        assert(s.push(x).drop_first() =~= seq![x]);
        assert(seq_min(seq![x]) == x);
    } else {
        assert(s.push(x).drop_first() =~= s.drop_first().push(x));
        lemma_seq_min_push(s.drop_first(), x);
    }
}

pub proof fn lemma_seq_max_push(s: Seq<u64>, x: u64)
    requires
        s.len() > 0,
    ensures
        seq_max(s.push(x)) == if x > seq_max(s) {
            x
        } else {
            seq_max(s)
        },
    decreases s.len(),
{
    reveal_with_fuel(seq_max, 3);
    if s.len() == 1 {
        assert(s.push(x).drop_first() =~= seq![x]);
        assert(seq_max(seq![x]) == x);
    } else {
        assert(s.push(x).drop_first() =~= s.drop_first().push(x));
        lemma_seq_max_push(s.drop_first(), x);
    }
}

/// Every element lies between the minimum and the maximum.
pub proof fn lemma_seq_min_max_bounds(s: Seq<u64>, i: int)
    requires
        0 <= i < s.len(),
    ensures
        seq_min(s) <= s[i] <= seq_max(s),
    decreases s.len(),
{
    if s.len() > 1 && i > 0 {
        lemma_seq_min_max_bounds(s.drop_first(), i - 1);
    }
}

/// The start of the bucket holding time `t`, for buckets of width `iv`
/// anchored at the observed minimum `mn`.
pub open spec fn bucket_start(t: u64, mn: u64, iv: u64) -> u64
    recommends
        iv >= 1,
        mn <= t,
{
    ((((t - mn) as int / iv as int) * iv as int) + mn) as u64
}

/// A time lies in the half-open range of its bucket.
pub proof fn lemma_bucket_range(t: u64, mn: u64, iv: u64)
    requires
        iv >= 1,
        mn <= t,
    ensures
        bucket_start(t, mn, iv) <= t < bucket_start(t, mn, iv) + iv,
{
    lemma_fundamental_div_mod((t - mn) as int, iv as int);
    let q = (t - mn) as int / iv as int;
    assert(0 <= q && q * iv <= t - mn) by (nonlinear_arith)
        requires
            iv >= 1,
            t >= mn,
            q == (t - mn) as int / iv as int,
    ;
}

/// Every time counted in a bucket lies in that bucket's half-open range.
pub proof fn lemma_bucket_members_in_range(tss: Seq<u64>, mn: u64, iv: u64, b: u64, k: int)
    requires
        iv >= 1,
        0 <= k < tss.len(),
        mn <= tss[k],
        bucket_start(tss[k], mn, iv) == b,
    ensures
        b <= tss[k] < b + iv,
{
    lemma_bucket_range(tss[k], mn, iv);
}

/// How many of the given times fall in the bucket starting at `b`.
pub open spec fn count_of(ts: Seq<u64>, mn: u64, iv: u64, b: u64) -> nat {
    ts.filter(|t: u64| bucket_start(t, mn, iv) == b).len()
}

/// The total of the bucket counts.
pub open spec fn sum_counts(bs: Seq<TimelineBucket>) -> nat
    decreases bs.len(),
{
    if bs.len() == 0 {
        0
    } else {
        (bs[0].count + sum_counts(bs.drop_first())) as nat
    }
}

proof fn lemma_sum_insert(bs: Seq<TimelineBucket>, a: int, b: TimelineBucket)
    requires
        0 <= a <= bs.len(),
    ensures
        sum_counts(bs.insert(a, b)) == sum_counts(bs) + b.count,
    decreases a,
{
    if a == 0 {
        assert(bs.insert(0, b)[0] == b);
        assert(bs.insert(0, b).drop_first() =~= bs);
    } else {
        assert(bs.insert(a, b)[0] == bs[0]);
        assert(bs.insert(a, b).drop_first() =~= bs.drop_first().insert(a - 1, b));
        lemma_sum_insert(bs.drop_first(), a - 1, b);
    }
}

proof fn lemma_sum_update(bs: Seq<TimelineBucket>, a: int, b: TimelineBucket)
    requires
        0 <= a < bs.len(),
    ensures
        sum_counts(bs.update(a, b)) == sum_counts(bs) - bs[a].count + b.count,
    decreases a,
{
    if a == 0 {
        assert(bs.update(0, b)[0] == b);
        assert(bs.update(0, b).drop_first() =~= bs.drop_first());
    } else {
        assert(bs.update(a, b)[0] == bs[0]);
        assert(bs.update(a, b).drop_first() =~= bs.drop_first().update(a - 1, b));
        lemma_sum_update(bs.drop_first(), a - 1, b);
    }
}

/// A sequence with no member satisfying the predicate filters to nothing.
proof fn lemma_filter_none<A>(s: Seq<A>, pred: spec_fn(A) -> bool)
    requires
        forall|i: int| 0 <= i < s.len() ==> !pred(#[trigger] s[i]),
    ensures
        s.filter(pred).len() == 0,
    decreases s.len(),
{
    reveal(Seq::filter);
    if s.len() > 0 {
        lemma_filter_none(s.drop_last(), pred);
    }
}

/// What a correct sparse timeline is for the bucketed times `tss`:
/// strictly ascending bucket starts, each count the bucket's population
/// and positive, every time's bucket present, and the counts summing to
/// the number of times.
pub open spec fn buckets_ok(tss: Seq<u64>, mn: u64, iv: u64, bs: Seq<TimelineBucket>) -> bool {
    &&& (forall|a: int, b: int|
        0 <= a < b < bs.len() ==> (#[trigger] bs[a]).timestamp < (#[trigger] bs[b]).timestamp)
    &&& (forall|a: int|
        0 <= a < bs.len() ==> (#[trigger] bs[a]).count == count_of(tss, mn, iv, bs[a].timestamp))
    &&& (forall|a: int| 0 <= a < bs.len() ==> (#[trigger] bs[a]).count > 0)
    &&& (forall|k: int|
        0 <= k < tss.len() ==> exists|a: int|
            0 <= a < bs.len() && (#[trigger] bs[a]).timestamp == bucket_start(
                #[trigger] tss[k],
                mn,
                iv,
            ))
    &&& sum_counts(bs) == tss.len()
}

/// Answer a timeline query: filter, then bucket the matches by time into
/// intervals of the requested width, reporting the observed span.
pub fn get_timeline(entries: &Vec<Entry>, filter: &TimelineFilter) -> (r: Result<
    TimelineResponse,
    TimelineError,
>)
    ensures
        ({
            let fs = entries.deep_view().filter(
                |e: EntryV| entry_matches(filter.log_filter.deep_view(), e),
            );
            let micro = ends_us(filter.interval@);
            let tss = fs.map_values(|e: EntryV| ts_in_unit(e.ts, micro));
            match spec_parse_interval(filter.interval@) {
                None => r matches Err(TimelineError::InvalidInterval { interval })
                    && interval@ == filter.interval@,
                Some(iv_us) => {
                    let iv = if micro {
                        iv_us
                    } else {
                        (iv_us / 1000) as u64
                    };
                    r matches Ok(resp) && (if tss.len() == 0 {
                        resp.min_timestamp == 0 && resp.max_timestamp == 0 && resp.buckets@
                            == Seq::<TimelineBucket>::empty()
                    } else {
                        resp.min_timestamp == seq_min(tss) && resp.max_timestamp == seq_max(tss)
                            && buckets_ok(tss, seq_min(tss), iv, resp.buckets@)
                    })
                },
            }
        }),
{
    let iv_us = match parse_interval(filter.interval.as_str()) {
        Some(v) => v,
        None => {
            return Err(TimelineError::InvalidInterval { interval: filter.interval.clone() });
        },
    };
    let micro = ends_us_x(filter.interval.as_str());
    let filtered = filter_entries(entries, &filter.log_filter);
    let ghost fs = entries.deep_view().filter(
        |e: EntryV| entry_matches(filter.log_filter.deep_view(), e),
    );
    let ghost tss = fs.map_values(|e: EntryV| ts_in_unit(e.ts, micro));
    let n = filtered.len();
    proof {
        assert(filtered.deep_view() == fs);
        assert(tss.len() == fs.len());
    }
    if n == 0 {
        let empty: Vec<TimelineBucket> = Vec::new();
        proof {
            assert(empty@ =~= Seq::<TimelineBucket>::empty());
        }
        return Ok(TimelineResponse { buckets: empty, min_timestamp: 0, max_timestamp: 0 });
    }
    // the interval in the unit timestamps are compared in
    let iv: u64 = if micro {
        iv_us
    } else {
        iv_us / 1000
    };
    proof {
        lemma_interval_width(filter.interval@, iv_us);
        if !ends_us(filter.interval@) {
            assert(iv_us / 1000 >= 1);
        }
    }
    // the observed span
    let e0: &Entry = filtered[0];
    let first: u64 = if micro {
        e0.ts / 1000
    } else {
        e0.ts / 1000000
    };
    let mut mn: u64 = first;
    let mut mx: u64 = first;
    let mut j: usize = 1;
    proof {
        assert(tss[0] == ts_in_unit(fs[0].ts, micro));
        assert(tss.take(1) =~= seq![tss[0]]);
    }
    while j < n
        invariant
            1 <= j <= n,
            n == fs.len(),
            tss.len() == fs.len(),
            filtered.deep_view() == fs,
            n == filtered@.len(),
            tss == fs.map_values(|e: EntryV| ts_in_unit(e.ts, micro)),
            mn == seq_min(tss.take(j as int)),
            mx == seq_max(tss.take(j as int)),
        decreases n - j,
    {
        let ej: &Entry = filtered[j];
        let t: u64 = if micro {
            ej.ts / 1000
        } else {
            ej.ts / 1000000
        };
        proof {
            assert(tss[j as int] == ts_in_unit(fs[j as int].ts, micro));
            assert(t == tss[j as int]);
            assert(tss.take(j + 1) =~= tss.take(j as int).push(tss[j as int]));
            lemma_seq_min_push(tss.take(j as int), tss[j as int]);
            lemma_seq_max_push(tss.take(j as int), tss[j as int]);
        }
        if t < mn {
            mn = t;
        }
        if t > mx {
            mx = t;
        }
        j = j + 1;
    }
    proof {
        assert(tss.take(n as int) =~= tss);
        assert forall|x: int| 0 <= x < tss.len() implies mn <= #[trigger] tss[x] by {
            lemma_seq_min_max_bounds(tss, x);
        }
    }
    // bucket the times, keeping the vector sorted by bucket start
    let mut buckets: Vec<TimelineBucket> = Vec::new();
    let mut k: usize = 0;
    proof {
        assert(buckets@ =~= Seq::<TimelineBucket>::empty());
        assert(tss.take(0) =~= Seq::<u64>::empty());
        assert forall|b: u64| count_of(tss.take(0), mn, iv, b) == 0 by {
            lemma_filter_none(tss.take(0), |t: u64| bucket_start(t, mn, iv) == b);
        }
    }
    while k < n
        invariant
            0 <= k <= n,
            n == fs.len(),
            tss.len() == fs.len(),
            filtered.deep_view() == fs,
            n == filtered@.len(),
            tss == fs.map_values(|e: EntryV| ts_in_unit(e.ts, micro)),
            micro ==> iv == iv_us,
            iv >= 1,
            forall|x: int| 0 <= x < tss.len() ==> mn <= #[trigger] tss[x],
            forall|a: int, b: int|
                0 <= a < b < buckets@.len() ==> (#[trigger] buckets@[a]).timestamp < (
                #[trigger] buckets@[b]).timestamp,
            forall|a: int|
                0 <= a < buckets@.len() ==> (#[trigger] buckets@[a]).count == count_of(
                    tss.take(k as int),
                    mn,
                    iv,
                    buckets@[a].timestamp,
                ),
            forall|a: int| 0 <= a < buckets@.len() ==> (#[trigger] buckets@[a]).count > 0,
            forall|x: int|
                0 <= x < k ==> exists|a: int|
                    0 <= a < buckets@.len() && (#[trigger] buckets@[a]).timestamp == bucket_start(
                        #[trigger] tss[x],
                        mn,
                        iv,
                    ),
            sum_counts(buckets@) == k,
        decreases n - k,
    {
        let ek: &Entry = filtered[k];
        let t: u64 = if micro {
            ek.ts / 1000
        } else {
            ek.ts / 1000000
        };
        proof {
            assert(tss[k as int] == ts_in_unit(fs[k as int].ts, micro));
            assert(t == tss[k as int]);
            assert(mn <= t);
            lemma_fundamental_div_mod((t - mn) as int, iv as int);
        }
        let q = (t - mn) / iv;
        proof {
            assert(0 <= q && q * iv <= t - mn) by (nonlinear_arith)
                requires
                    iv >= 1,
                    t >= mn,
                    q == (t - mn) as int / iv as int,
            ;
        }
        let bt = q * iv + mn;
        proof {
            assert(bt == bucket_start(t, mn, iv));
        }
        let ghost old_buckets = buckets@;
        let ghost processed = tss.take(k as int);
        proof {
            assert(tss.take(k + 1) =~= processed.push(t));
        }
        let mut a: usize = 0;
        while a < buckets.len() && buckets[a].timestamp < bt
            invariant
                0 <= a <= buckets@.len(),
                forall|x: int| 0 <= x < a ==> (#[trigger] buckets@[x]).timestamp < bt,
            decreases buckets@.len() - a,
        {
            a = a + 1;
        }
        if a < buckets.len() && buckets[a].timestamp == bt {
            let c = buckets[a].count;
            proof {
                broadcast use Seq::lemma_filter_len;

                assert(c == count_of(processed, mn, iv, bt));
                assert(c <= processed.len());
            }
            buckets.set(a, TimelineBucket { timestamp: bt, count: c + 1 });
            proof {
                lemma_sum_update(old_buckets, a as int, TimelineBucket { timestamp: bt, count: (c + 1) as usize });
                assert forall|x: int| 0 <= x < buckets@.len() implies (
                #[trigger] buckets@[x]).count == count_of(
                    tss.take(k + 1),
                    mn,
                    iv,
                    buckets@[x].timestamp,
                ) by {
                    processed.lemma_filter_push(
                        t,
                        |t2: u64| bucket_start(t2, mn, iv) == buckets@[x].timestamp,
                    );
                    if x != a {
                        assert(buckets@[x] == old_buckets[x]);
                        assert(buckets@[x].timestamp != bt);
                    }
                }
                assert forall|x: int| 0 <= x < k + 1 implies exists|a2: int|
                    0 <= a2 < buckets@.len() && (#[trigger] buckets@[a2]).timestamp
                        == bucket_start(#[trigger] tss[x], mn, iv) by {
                    if x == k {
                        assert(buckets@[a as int].timestamp == bucket_start(tss[x], mn, iv));
                    } else {
                        let a0 = choose|a0: int|
                            0 <= a0 < old_buckets.len() && (#[trigger] old_buckets[a0]).timestamp
                                == bucket_start(tss[x], mn, iv);
                        assert(buckets@[a0].timestamp == old_buckets[a0].timestamp);
                    }
                }
            }
        } else {
            proof {
                // the new bucket start is absent: positions before `a` are
                // smaller, positions from `a` on are larger
                assert forall|x: int| 0 <= x < old_buckets.len() implies (
                #[trigger] old_buckets[x]).timestamp != bt by {
                    if x >= a {
                        if a < old_buckets.len() && x > a {
                            assert(old_buckets[a as int].timestamp < old_buckets[x].timestamp);
                        }
                    }
                }
                assert(count_of(processed, mn, iv, bt) == 0) by {
                    lemma_filter_none(processed, |t2: u64| bucket_start(t2, mn, iv) == bt);
                    assert forall|x: int| 0 <= x < processed.len() implies !(bucket_start(
                        #[trigger] processed[x],
                        mn,
                        iv,
                    ) == bt) by {
                        assert(processed[x] == tss[x]);
                        let a0 = choose|a0: int|
                            0 <= a0 < old_buckets.len() && (#[trigger] old_buckets[a0]).timestamp
                                == bucket_start(tss[x], mn, iv);
                    }
                }
            }
            buckets.insert(a, TimelineBucket { timestamp: bt, count: 1 });
            proof {
                lemma_sum_insert(old_buckets, a as int, TimelineBucket { timestamp: bt, count: 1 });
                assert(buckets@ =~= old_buckets.insert(a as int, TimelineBucket { timestamp: bt, count: 1 }));
                assert(buckets@.len() == old_buckets.len() + 1);
                assert(forall|x: int| 0 <= x < a ==> buckets@[x] == old_buckets[x]);
                assert(buckets@[a as int] == (TimelineBucket { timestamp: bt, count: 1 }));
                assert(forall|x: int|
                    a <= x < old_buckets.len() ==> buckets@[x + 1] == old_buckets[x]);
                assert forall|x: int, y: int| 0 <= x < y < buckets@.len() implies (
                #[trigger] buckets@[x]).timestamp < (#[trigger] buckets@[y]).timestamp by {
                    if x == a {
                        assert(buckets@[y] == old_buckets[y - 1]);
                        if y - 1 > a {
                            assert(old_buckets[a as int].timestamp < old_buckets[y - 1].timestamp);
                        }
                    } else if y == a {
                        assert(buckets@[x] == old_buckets[x]);
                    } else if x < a && y > a {
                        assert(buckets@[x] == old_buckets[x]);
                        assert(buckets@[y] == old_buckets[y - 1]);
                        if a < old_buckets.len() && y - 1 > a {
                            assert(old_buckets[a as int].timestamp < old_buckets[y - 1].timestamp);
                        }
                    }
                }
                assert forall|x: int| 0 <= x < buckets@.len() implies (
                #[trigger] buckets@[x]).count == count_of(
                    tss.take(k + 1),
                    mn,
                    iv,
                    buckets@[x].timestamp,
                ) by {
                    processed.lemma_filter_push(
                        t,
                        |t2: u64| bucket_start(t2, mn, iv) == buckets@[x].timestamp,
                    );
                    if x < a {
                        assert(buckets@[x] == old_buckets[x]);
                        assert(buckets@[x].timestamp != bt);
                    } else if x > a {
                        assert(buckets@[x] == old_buckets[x - 1]);
                        assert(buckets@[x].timestamp != bt);
                    }
                }
                assert forall|x: int| 0 <= x < k + 1 implies exists|a2: int|
                    0 <= a2 < buckets@.len() && (#[trigger] buckets@[a2]).timestamp
                        == bucket_start(#[trigger] tss[x], mn, iv) by {
                    if x == k {
                        assert(buckets@[a as int].timestamp == bucket_start(tss[x], mn, iv));
                    } else {
                        let a0 = choose|a0: int|
                            0 <= a0 < old_buckets.len() && (#[trigger] old_buckets[a0]).timestamp
                                == bucket_start(tss[x], mn, iv);
                        if a0 < a {
                            assert(buckets@[a0].timestamp == bucket_start(tss[x], mn, iv));
                        } else {
                            assert(buckets@[a0 + 1].timestamp == bucket_start(tss[x], mn, iv));
                        }
                    }
                }
            }
        }
        k = k + 1;
    }
    proof {
        assert(tss.take(n as int) =~= tss);
    }
    Ok(TimelineResponse { buckets, min_timestamp: mn, max_timestamp: mx })
}

/// A parsed interval is at least one microsecond, and at least a thousand
/// when its unit is coarser than microseconds.
proof fn lemma_interval_width(s: Seq<char>, iv_us: u64)
    requires
        spec_parse_interval(s) == Some(iv_us),
    ensures
        iv_us >= 1,
        !ends_us(s) ==> iv_us >= 1000,
{
    reveal_strlit("us");
    reveal_strlit("ms");
    reveal_strlit("s");
    reveal_strlit("m");
    lemma_digit_run_end(s, 0);
    let d = digit_run_end(s, 0);
    let v = digits_val(s.take(d));
    let unit = s.skip(d);
    let f = interval_factor(unit)->Some_0;
    assert(v >= 1);
    assert(iv_us == v * f);
    assert(v * f >= f) by (nonlinear_arith)
        requires
            v >= 1,
            f >= 0,
    ;
    assert(f >= 1);
    if !ends_us(s) {
        if unit == "us"@ {
            assert(("us"@).len() == 2);
            assert(unit.len() == s.len() - d);
            assert(s.len() == d + 2);
            assert(s[s.len() - 2] == unit[0]);
            assert(s[s.len() - 1] == unit[1]);
            assert(false);
        }
        assert(f >= 1000);
    }
}

} // verus!
