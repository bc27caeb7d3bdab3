use vstd::prelude::*;

use crate::numeric::{Numeric, MAX_SCALE};
use crate::types::{BrokerError, CandleStickData, GraphGranularity, TimeSeriesData, Timestamp};

verus! {

pub const SECONDS_PER_MINUTE: i128 = 60;

pub const SECONDS_PER_DAY: i128 = 86400;

pub const SECONDS_PER_WEEK: i128 = 604800;

/// Intraday charts use one bucket per two hours.
pub const MINUTES_PER_INTRADAY_BUCKET: i128 = 120;

pub const WEEKS_PER_MONTH: i128 = 4;

/// A quarter is a fourth of a year, in whole days.
pub const DAYS_PER_QUARTER: i128 = 91;

pub const DAYS_PER_YEAR: i128 = 365;

/// How many buckets a span of `span` seconds is cut into; divisions truncate.
pub open spec fn bucket_count_of(span: int, g: GraphGranularity) -> int {
    match g {
        GraphGranularity::IntraDay => (span / 60) / 120,
        GraphGranularity::Daily => span / 86400,
        GraphGranularity::Weekly => span / 604800,
        GraphGranularity::Monthly => (span / 604800) / 4,
        GraphGranularity::Quarterly => (span / 86400) / 91,
        GraphGranularity::Anually => (span / 86400) / 365,
    }
}

/// Ticks come in order of time.
pub open spec fn is_sorted(s: Seq<TimeSeriesData>) -> bool {
    forall|i: int, j: int| 0 <= i < j < s.len() ==> s[i].as_of <= s[j].as_of
}

/// Every price can be multiplied with another input amount exactly.
pub open spec fn prices_wf(s: Seq<TimeSeriesData>) -> bool {
    forall|i: int| 0 <= i < s.len() ==> s[i].price.scale <= MAX_SCALE
}

/// The ticks of `s` inside `[start, end]`, in their order.
pub open spec fn in_window(s: Seq<TimeSeriesData>, start: int, end: int) -> Seq<TimeSeriesData>
    decreases s.len(),
{
    if s.len() == 0 {
        Seq::empty()
    } else {
        let rest = in_window(s.drop_last(), start, end);
        if start <= s.last().as_of <= end {
            rest.push(s.last())
        } else {
            rest
        }
    }
}

/// The lowest price of a non-empty run of ticks; the first one among equals.
pub open spec fn min_price(s: Seq<TimeSeriesData>) -> Numeric
    decreases s.len(),
{
    if s.len() <= 1 {
        s[0].price
    } else {
        let m = min_price(s.drop_last());
        if s.last().price.units() < m.units() {
            s.last().price
        } else {
            m
        }
    }
}

/// The highest price of a non-empty run of ticks; the first one among equals.
pub open spec fn max_price(s: Seq<TimeSeriesData>) -> Numeric
    decreases s.len(),
{
    if s.len() <= 1 {
        s[0].price
    } else {
        let m = max_price(s.drop_last());
        if s.last().price.units() > m.units() {
            s.last().price
        } else {
            m
        }
    }
}

/// The candlestick of a non-empty run of ticks.
pub open spec fn candle_of(s: Seq<TimeSeriesData>) -> CandleStickData {
    CandleStickData {
        open_date_time: s[0].as_of,
        open: s[0].price,
        close: s.last().price,
        low: min_price(s),
        high: max_price(s),
    }
}

pub open spec fn min_nat(a: nat, b: nat) -> nat {
    if a <= b {
        a
    } else {
        b
    }
}

/// Where bucket `b` of `n` starts when `len` ticks are cut into `n` runs whose
/// sizes differ by at most one, the longer runs first.
pub open spec fn bucket_start(len: nat, n: nat, b: nat) -> nat {
    b * (len / n) + min_nat(b, len % n)
}

/// The ticks of bucket `b`.
pub open spec fn bucket(s: Seq<TimeSeriesData>, n: nat, b: nat) -> Seq<TimeSeriesData> {
    s.subrange(bucket_start(s.len(), n, b) as int, bucket_start(s.len(), n, b + 1) as int)
}

/// The candlesticks of the non-empty buckets among `n`, in order.
pub open spec fn ntile_candles(s: Seq<TimeSeriesData>, n: nat) -> Seq<CandleStickData> {
    Seq::new(min_nat(n, s.len()), |b: int| candle_of(bucket(s, n, b as nat)))
}

/// The bucket count that is used: the formula's, and at least one.
pub open spec fn effective_bucket_count(start: int, end: int, g: GraphGranularity) -> nat {
    let c = bucket_count_of(end - start, g);
    if c < 1 {
        1
    } else {
        c as nat
    }
}

/// The candlesticks of the ticks of `s` inside `[start, end]`.
pub open spec fn candles_for(s: Seq<TimeSeriesData>, start: int, end: int, g: GraphGranularity) -> Seq<
    CandleStickData,
> {
    ntile_candles(in_window(s, start, end), effective_bucket_count(start, end, g))
}

/// How many buckets the range from `start` to `end` is cut into at granularity `g`.
pub fn bucket_count(start: Timestamp, end: Timestamp, g: GraphGranularity) -> (r: Result<
    i64,
    BrokerError,
>)
    ensures
        end <= start ==> r matches Err(BrokerError::InvalidRange),
        start < end ==> (r matches Ok(c) && c == bucket_count_of(end - start, g)),
{
    if end <= start {
        return Err(BrokerError::InvalidRange);
    }
    let span: i128 = end as i128 - start as i128;
    let c: i128 = match g {
        GraphGranularity::IntraDay => (span / SECONDS_PER_MINUTE) / MINUTES_PER_INTRADAY_BUCKET,
        GraphGranularity::Daily => span / SECONDS_PER_DAY,
        GraphGranularity::Weekly => span / SECONDS_PER_WEEK,
        GraphGranularity::Monthly => (span / SECONDS_PER_WEEK) / WEEKS_PER_MONTH,
        GraphGranularity::Quarterly => (span / SECONDS_PER_DAY) / DAYS_PER_QUARTER,
        GraphGranularity::Anually => (span / SECONDS_PER_DAY) / DAYS_PER_YEAR,
    };
    Ok(c as i64)
}

/// The candlestick of `ticks[lo..hi]`.
fn reduce_bucket(ticks: &Vec<TimeSeriesData>, lo: usize, hi: usize) -> (r: CandleStickData)
    requires
        lo < hi <= ticks.len(),
        prices_wf(ticks@),
    ensures
        r == candle_of(ticks@.subrange(lo as int, hi as int)),
{
    let first = ticks[lo];
    let mut low = first.price;
    let mut high = first.price;
    let mut j: usize = lo + 1;
    while j < hi
        invariant
            lo < j <= hi <= ticks.len(),
            prices_wf(ticks@),
            low == min_price(ticks@.subrange(lo as int, j as int)),
            high == max_price(ticks@.subrange(lo as int, j as int)),
            low.scale <= MAX_SCALE,
            high.scale <= MAX_SCALE,
        decreases hi - j,
    {
        let p = ticks[j].price;
        proof {
            let s = ticks@.subrange(lo as int, j as int + 1);
            assert(s.drop_last() =~= ticks@.subrange(lo as int, j as int));
        }
        if p.lt(&low) {
            low = p;
        }
        if high.lt(&p) {
            high = p;
        }
        j = j + 1;
    }
    CandleStickData {
        open_date_time: first.as_of,
        open: first.price,
        close: ticks[hi - 1].price,
        low,
        high,
    }
}

proof fn lemma_bucket_step(len: nat, n: nat, b: nat)
    requires
        n >= 1,
        b < min_nat(n, len),
    ensures
        bucket_start(len, n, b + 1) == bucket_start(len, n, b) + len / n + (if b < len % n {
            1nat
        } else {
            0nat
        }),
        bucket_start(len, n, b) < bucket_start(len, n, b + 1) <= len,
{
    let q = len / n;
    let r = len % n;
    vstd::arithmetic::div_mod::lemma_fundamental_div_mod(len as int, n as int);
    assert((b + 1) * q == b * q + q) by (nonlinear_arith);
    if q == 0 {
        assert(len == r) by (nonlinear_arith)
            requires
                len == n * q + r,
                q == 0,
        ;
    } else {
        assert((b + 1) * q + q * (n - b - 1) == n * q) by (nonlinear_arith)
            requires
                b < n,
        ;
        assert(q * (n - b - 1) >= 0) by (nonlinear_arith)
            requires
                b < n,
                q >= 0,
        ;
    }
}

proof fn lemma_bucket_end(len: nat, n: nat, b: nat)
    requires
        n >= 1,
        b <= min_nat(n, len),
        bucket_start(len, n, b) == len,
    ensures
        b == min_nat(n, len),
{
    let q = len / n;
    let r = len % n;
    vstd::arithmetic::div_mod::lemma_fundamental_div_mod(len as int, n as int);
    if b < min_nat(n, len) {
        lemma_bucket_step(len, n, b);
    }
}

proof fn lemma_bucket_full(len: nat, n: nat)
    requires
        n >= 1,
    ensures
        bucket_start(len, n, min_nat(n, len)) == len,
{
    let q = len / n;
    let r = len % n;
    vstd::arithmetic::div_mod::lemma_fundamental_div_mod(len as int, n as int);
    if len < n {
        vstd::arithmetic::div_mod::lemma_basic_div(len as int, n as int);
        vstd::arithmetic::div_mod::lemma_small_mod(len, n);
        assert(len * q == 0) by (nonlinear_arith)
            requires
                q == 0,
        ;
    } else {
        assert(n * q == q * n) by (nonlinear_arith);
    }
}

proof fn lemma_bucket_start_zero(len: nat, n: nat)
    requires
        n >= 1,
    ensures
        bucket_start(len, n, 0) == 0,
{
    assert(0 * (len / n) == 0) by (nonlinear_arith);
}

/// Cuts `ticks` into `n` runs of near-equal length, the longer runs first,
/// and returns the candlestick of each non-empty run.
pub fn ntile(ticks: &Vec<TimeSeriesData>, n: u64) -> (r: Vec<CandleStickData>)
    requires
        n >= 1,
        prices_wf(ticks@),
    ensures
        r@ == ntile_candles(ticks@, n as nat),
{
    let len = ticks.len();
    let q: u64 = len as u64 / n;
    let rem: u64 = len as u64 % n;
    let mut out: Vec<CandleStickData> = Vec::new();
    let mut b: u64 = 0;
    let mut pos: usize = 0;
    let ghost s = ticks@;
    proof {
        lemma_bucket_start_zero(len as nat, n as nat);
    }
    while pos < len
        invariant
            s == ticks@,
            len == s.len(),
            n >= 1,
            q == len as nat / n as nat,
            rem == len as nat % n as nat,
            prices_wf(s),
            b <= min_nat(n as nat, len as nat),
            pos == bucket_start(len as nat, n as nat, b as nat),
            pos <= len,
            out@ == ntile_candles(s, n as nat).take(b as int),
        decreases len - pos,
    {
        proof {
            if b == min_nat(n as nat, len as nat) {
                lemma_bucket_full(len as nat, n as nat);
            }
            lemma_bucket_step(len as nat, n as nat, b as nat);
        }
        let size: usize = if b < rem {
            (q + 1) as usize
        } else {
            q as usize
        };
        let c = reduce_bucket(ticks, pos, pos + size);
        out.push(c);
        proof {
            assert(out@ =~= ntile_candles(s, n as nat).take(b as int + 1));
        }
        pos = pos + size;
        b = b + 1;
    }
    proof {
        lemma_bucket_end(len as nat, n as nat, b as nat);
        assert(out@ =~= ntile_candles(s, n as nat));
    }
    out
}

/// The ticks of `ticks` inside `[start, end]`, in their order.
pub fn select_window(ticks: &Vec<TimeSeriesData>, start: Timestamp, end: Timestamp) -> (r: Vec<
    TimeSeriesData,
>)
    ensures
        r@ == in_window(ticks@, start as int, end as int),
{
    let mut out: Vec<TimeSeriesData> = Vec::new();
    let mut i: usize = 0;
    while i < ticks.len()
        invariant
            i <= ticks.len(),
            out@ == in_window(ticks@.take(i as int), start as int, end as int),
        decreases ticks.len() - i,
    {
        let t = ticks[i];
        proof {
            assert(ticks@.take(i as int + 1).drop_last() =~= ticks@.take(i as int));
        }
        if start <= t.as_of && t.as_of <= end {
            out.push(t);
        }
        i = i + 1;
    }
    proof {
        assert(ticks@.take(ticks.len() as int) =~= ticks@);
    }
    out
}

/// The candlesticks of the ticks inside `[start, end]`, cut into as many
/// buckets as the span and the granularity give (at least one).
pub fn get_candle_sticks(
    ticks: &Vec<TimeSeriesData>,
    start: Timestamp,
    end: Timestamp,
    g: GraphGranularity,
) -> (r: Result<Vec<CandleStickData>, BrokerError>)
    requires
        prices_wf(ticks@),
        is_sorted(ticks@),
    ensures
        end <= start ==> r matches Err(BrokerError::InvalidRange),
        start < end ==> (r matches Ok(v) && v@ == candles_for(ticks@, start as int, end as int, g)),
        r matches Ok(v) ==> v@.len() <= effective_bucket_count(start as int, end as int, g),
        r matches Ok(v) ==> forall|i: int, j: int|
            0 <= i < j < v@.len() ==> v@[i].open_date_time <= v@[j].open_date_time,
        r matches Ok(v) ==> forall|i: int|
            0 <= i < v@.len() ==> (#[trigger] v@[i]).is_consistent() && start <= v@[i].open_date_time
                <= end,
{
    let count = match bucket_count(start, end, g) {
        Ok(c) => c,
        Err(e) => return Err(e),
    };
    let n: u64 = if count < 1 {
        1
    } else {
        count as u64
    };
    let window = select_window(ticks, start, end);
    proof {
        lemma_window(ticks@, start as int, end as int);
        assert forall|i: int| 0 <= i < window@.len() implies window@[i].price.scale <= MAX_SCALE by {
            let j = choose|j: int| 0 <= j < ticks@.len() && ticks@[j] == window@[i];
        }
        lemma_candles_shape(ticks@, start as int, end as int, g);
    }
    Ok(ntile(&window, n))
}

/// Every tick of the window is a tick of `s` inside `[start, end]`, and a
/// window of sorted ticks is sorted.
pub proof fn lemma_window(s: Seq<TimeSeriesData>, start: int, end: int)
    ensures
        forall|i: int|
            0 <= i < in_window(s, start, end).len() ==> s.contains(
                #[trigger] in_window(s, start, end)[i],
            ) && start <= in_window(s, start, end)[i].as_of <= end,
        is_sorted(s) ==> is_sorted(in_window(s, start, end)),
    decreases s.len(),
{
    if s.len() > 0 {
        let d = s.drop_last();
        lemma_window(d, start, end);
        let rest = in_window(d, start, end);
        let w = in_window(s, start, end);
        assert forall|i: int| 0 <= i < rest.len() implies s.contains(rest[i]) by {
            let j = choose|j: int| 0 <= j < d.len() && d[j] == rest[i];
            assert(s[j] == rest[i]);
        }
        if start <= s.last().as_of <= end {
            assert(s[s.len() - 1] == s.last());
            assert forall|i: int| 0 <= i < w.len() implies s.contains(#[trigger] w[i]) && start
                <= w[i].as_of <= end by {
                if i < rest.len() {
                    assert(w[i] == rest[i]);
                }
            }
            if is_sorted(s) {
                assert forall|i: int, j: int| 0 <= i < j < w.len() implies w[i].as_of
                    <= w[j].as_of by {
                    if j == w.len() - 1 {
                        let k = choose|k: int| 0 <= k < d.len() && d[k] == rest[i];
                        assert(s[k] == w[i]);
                    }
                }
            }
        }
    }
}

/// The lowest price is at most, and the highest at least, every price of the run.
pub proof fn lemma_min_max_bound(s: Seq<TimeSeriesData>)
    requires
        s.len() >= 1,
    ensures
        forall|k: int|
            0 <= k < s.len() ==> min_price(s).units() <= #[trigger] s[k].price.units()
                <= max_price(s).units(),
    decreases s.len(),
{
    if s.len() > 1 {
        lemma_min_max_bound(s.drop_last());
        assert forall|k: int| 0 <= k < s.len() implies min_price(s).units()
            <= #[trigger] s[k].price.units() <= max_price(s).units() by {
            if k < s.len() - 1 {
                assert(s.drop_last()[k] == s[k]);
            }
        }
    }
}

proof fn lemma_bucket_monotone(len: nat, n: nat, a: nat, b: nat)
    requires
        n >= 1,
        a < b <= min_nat(n, len),
    ensures
        bucket_start(len, n, a) < bucket_start(len, n, b) <= len,
    decreases b - a,
{
    lemma_bucket_step(len, n, a);
    if a + 1 < b {
        lemma_bucket_monotone(len, n, a + 1, b);
    }
}

/// The candlesticks of sorted ticks: no more than the buckets asked for, in
/// order of their opening time, each with its low and high around its open
/// and close.
pub proof fn lemma_ntile_shape(s: Seq<TimeSeriesData>, n: nat)
    requires
        n >= 1,
        is_sorted(s),
    ensures
        ntile_candles(s, n).len() <= n,
        ntile_candles(s, n).len() <= s.len(),
        forall|i: int, j: int|
            0 <= i < j < ntile_candles(s, n).len() ==> ntile_candles(s, n)[i].open_date_time
                <= ntile_candles(s, n)[j].open_date_time,
        forall|i: int| 0 <= i < ntile_candles(s, n).len() ==> (#[trigger] ntile_candles(s, n)[i]).is_consistent(),
        forall|i: int|
            0 <= i < ntile_candles(s, n).len() ==> (#[trigger] ntile_candles(s, n)[i]).open_date_time
                == s[bucket_start(s.len(), n, i as nat) as int].as_of,
{
    let c = ntile_candles(s, n);
    let len = s.len();
    assert forall|i: int| 0 <= i < c.len() implies (#[trigger] c[i]).is_consistent()
        && c[i].open_date_time == s[bucket_start(len, n, i as nat) as int].as_of by {
        lemma_bucket_step(len, n, i as nat);
        let t = bucket(s, n, i as nat);
        lemma_min_max_bound(t);
        assert(t[t.len() - 1] == t.last());
        assert(s[bucket_start(len, n, i as nat) as int] == t[0]);
    }
    assert forall|i: int, j: int| 0 <= i < j < c.len() implies c[i].open_date_time
        <= c[j].open_date_time by {
        lemma_bucket_monotone(len, n, i as nat, j as nat);
        lemma_bucket_step(len, n, j as nat);
        assert(c[i].open_date_time == s[bucket_start(len, n, i as nat) as int].as_of);
        assert(c[j].open_date_time == s[bucket_start(len, n, j as nat) as int].as_of);
    }
}

/// What `get_candle_sticks` returns for sorted ticks: at most the effective
/// bucket count of candlesticks, in order of their opening time, each
/// consistent, each opening inside the range.
pub proof fn lemma_candles_shape(s: Seq<TimeSeriesData>, start: int, end: int, g: GraphGranularity)
    requires
        is_sorted(s),
        start < end,
    ensures
        candles_for(s, start, end, g).len() <= effective_bucket_count(start, end, g),
        forall|i: int, j: int|
            0 <= i < j < candles_for(s, start, end, g).len() ==> candles_for(s, start, end, g)[i].open_date_time
                <= candles_for(s, start, end, g)[j].open_date_time,
        forall|i: int|
            0 <= i < candles_for(s, start, end, g).len() ==> (#[trigger] candles_for(
                s,
                start,
                end,
                g,
            )[i]).is_consistent() && start <= candles_for(s, start, end, g)[i].open_date_time
                <= end,
{
    let w = in_window(s, start, end);
    let n = effective_bucket_count(start, end, g);
    lemma_window(s, start, end);
    lemma_ntile_shape(w, n);
    assert forall|i: int| 0 <= i < candles_for(s, start, end, g).len() implies start
        <= (#[trigger] candles_for(s, start, end, g)[i]).open_date_time <= end by {
        let k = bucket_start(w.len(), n, i as nat) as int;
        lemma_bucket_step(w.len(), n, i as nat);
        assert(ntile_candles(w, n)[i].open_date_time == w[k].as_of);
    }
}

} // verus!
