use vstd::prelude::*;
use crate::amount::{scale_value, scaled};
use crate::date::Date;
use crate::parse::{
    codes_of, lemma_range_filter_props, range_filter, views_of, Currency, Record, RecordView,
    Records,
};

verus! {

/// A failure of the rolling aggregator.
#[derive(Debug, Clone, Copy, PartialEq, Eq, Structural)]
pub enum StatsError {
    /// The bucket duration exceeds the aggregation period.
    BucketExceedsPeriod,
    /// No record in range, or fewer than two without bucketing: no rate
    /// can be computed.
    TooFewRecords,
    /// A normalized value does not fit the fixed-point range.
    AmountOverflow,
}

impl StatsError {
    /// A short human-readable cause.
    pub fn describe(&self) -> &'static str {
        match self {
            StatsError::BucketExceedsPeriod => "buckets duration cannot be longer than period",
            StatsError::TooFewRecords => "too few records in range to compute a rate",
            StatsError::AmountOverflow => "a normalized amount does not fit the numeric range",
        }
    }
}

/// The bucket that a record `key - first_key` days past the first
/// record falls in: bucket `k` covers the days in
/// `(k * width, (k + 1) * width]`, with the first record in bucket 0.
/// A record past the current bucket's bound closes that bucket and is
/// compared again against the next bound, one width at a time, so a
/// record far ahead leaves a run of empty buckets behind it (each then
/// dropped by the two-record rule) rather than being skipped.
pub open spec fn bucket_of(first_key: int, width: int, key: int) -> int {
    let d = key - first_key;
    if d <= 0 {
        0
    } else {
        (d - 1) / width
    }
}

/// A later date never falls in an earlier bucket.
pub proof fn lemma_bucket_of_monotone(first_key: int, width: int, k1: int, k2: int)
    requires
        width >= 1,
        k1 <= k2,
    ensures
        0 <= bucket_of(first_key, width, k1) <= bucket_of(first_key, width, k2),
{
    let d1 = k1 - first_key;
    let d2 = k2 - first_key;
    if d2 > 0 {
        vstd::arithmetic::div_mod::lemma_div_is_ordered(0, d2 - 1, width);
        if d1 > 0 {
            vstd::arithmetic::div_mod::lemma_div_is_ordered(d1 - 1, d2 - 1, width);
        }
    }
}

/// The records of `rs` that fall in bucket `k`, in order.
pub open spec fn bucket_records(rs: Seq<RecordView>, first_key: int, width: int, k: int) -> Seq<
    RecordView,
>
    decreases rs.len(),
{
    if rs.len() == 0 {
        Seq::empty()
    } else {
        let rest = bucket_records(rs.drop_last(), first_key, width, k);
        if bucket_of(first_key, width, rs.last().date.key()) == k {
            rest.push(rs.last())
        } else {
            rest
        }
    }
}

/// The bucket partition of a non-empty record sequence: everything in
/// one bucket when no width is given, else one bucket per index up to
/// the last record's bucket.
pub open spec fn buckets_of(rs: Seq<RecordView>, bucket: Option<u64>) -> Seq<Seq<RecordView>> {
    match bucket {
        None => seq![rs],
        Some(b) => Seq::new(
            (1 + bucket_of(rs[0].date.key(), b as int, rs.last().date.key())) as nat,
            |k: int| bucket_records(rs, rs[0].date.key(), b as int, k),
        ),
    }
}

/// The records a bucket is reduced to before normalization: its first
/// and last under `sum`, else all of them.
pub open spec fn selected(bk: Seq<RecordView>, sum: bool) -> Seq<RecordView> {
    if sum {
        seq![bk[0], bk.last()]
    } else {
        bk
    }
}

/// The normalized output of one bucket: nothing under two records;
/// otherwise the first record with every amount zero and then, for each
/// later record, the per-currency change from the first, scaled from
/// the elapsed days onto the period.
pub open spec fn normalize_bucket(bk: Seq<RecordView>, period: int, sum: bool) -> Seq<RecordView> {
    if bk.len() < 2 {
        Seq::empty()
    } else {
        let sel = selected(bk, sum);
        Seq::new(
            sel.len(),
            |i: int|
                RecordView {
                    date: sel[i].date,
                    savings: if i == 0 {
                        Seq::new(sel[0].savings.len(), |j: int| 0i64)
                    } else {
                        Seq::new(
                            sel[i].savings.len(),
                            |j: int|
                                scaled(
                                    sel[i].savings[j] - sel[0].savings[j],
                                    period,
                                    sel[i].date.key() - sel[0].date.key(),
                                ) as i64,
                        )
                    },
                },
        )
    }
}

/// Whether every normalized amount of the bucket fits an `i64`.
pub open spec fn bucket_fits(bk: Seq<RecordView>, period: int, sum: bool) -> bool {
    bk.len() < 2 || {
        let sel = selected(bk, sum);
        forall|i: int, j: int|
            1 <= i < sel.len() && 0 <= j < sel[i].savings.len() ==> i64::MIN <= scaled(
                (#[trigger] sel[i].savings[j]) - sel[0].savings[j],
                period,
                sel[i].date.key() - sel[0].date.key(),
            ) <= i64::MAX
    }
}

/// Whether every bucket's normalized amounts fit an `i64`.
pub open spec fn all_buckets_fit(bks: Seq<Seq<RecordView>>, period: int, sum: bool) -> bool {
    forall|k: int| 0 <= k < bks.len() ==> bucket_fits(#[trigger] bks[k], period, sum)
}

/// The buckets' normalized outputs concatenated in bucket order.
pub open spec fn flatten_normalized(bks: Seq<Seq<RecordView>>, period: int, sum: bool) -> Seq<
    RecordView,
>
    decreases bks.len(),
{
    if bks.len() == 0 {
        Seq::empty()
    } else {
        flatten_normalized(bks.drop_last(), period, sum) + normalize_bucket(
            bks.last(),
            period,
            sum,
        )
    }
}

/// A bucket with fewer than two records contributes no output records.
pub proof fn lemma_small_bucket_empty(bk: Seq<RecordView>, period: int, sum: bool)
    requires
        bk.len() < 2,
    ensures
        normalize_bucket(bk, period, sum) == Seq::<RecordView>::empty(),
{
}

/// A two-record bucket whose spacing equals the period returns the raw
/// per-currency delta unscaled (wherever that delta is representable).
pub proof fn lemma_normalize_period_spacing(bk: Seq<RecordView>, period: int, sum: bool)
    requires
        bk.len() == 2,
        period >= 1,
        bk[1].date.key() - bk[0].date.key() == period,
    ensures
        normalize_bucket(bk, period, sum).len() == 2,
        forall|j: int|
            0 <= j < bk[1].savings.len() && i64::MIN <= (#[trigger] bk[1].savings[j])
                - bk[0].savings[j] <= i64::MAX ==> normalize_bucket(bk, period, sum)[1].savings[j]
                == bk[1].savings[j] - bk[0].savings[j],
{
    let sel = selected(bk, sum);
    assert(sel =~= bk);
    let out = normalize_bucket(bk, period, sum);
    assert forall|j: int|
        0 <= j < bk[1].savings.len() && i64::MIN <= (#[trigger] bk[1].savings[j])
            - bk[0].savings[j] <= i64::MAX implies out[1].savings[j] == bk[1].savings[j]
        - bk[0].savings[j] by {
        let d = bk[1].savings[j] - bk[0].savings[j];
        assert(scaled(d, period, period) == d) by {
            if d >= 0 {
                vstd::arithmetic::div_mod::lemma_div_multiples_vanish(d, period);
            } else {
                vstd::arithmetic::div_mod::lemma_div_multiples_vanish(-d, period);
            }
        }
    }
}

/// Records of one bucket are records of the sequence, keep its order,
/// and all fall in that bucket.
pub proof fn lemma_bucket_records_props(rs: Seq<RecordView>, first: int, b: int, k: int)
    requires
        forall|i: int, j: int|
            0 <= i < j < rs.len() ==> (#[trigger] rs[i]).date.key() < (#[trigger] rs[j]).date.key(),
    ensures
        ({
            let f = bucket_records(rs, first, b, k);
            &&& f.len() <= rs.len()
            &&& forall|i: int|
                0 <= i < f.len() ==> exists|x: int| 0 <= x < rs.len() && #[trigger] f[i] == rs[x]
            &&& forall|i: int, j: int|
                0 <= i < j < f.len() ==> (#[trigger] f[i]).date.key() < (
                #[trigger] f[j]).date.key()
            &&& forall|i: int|
                0 <= i < f.len() ==> bucket_of(first, b, (#[trigger] f[i]).date.key()) == k
        }),
    decreases rs.len(),
{
    if rs.len() > 0 {
        let d = rs.drop_last();
        lemma_bucket_records_props(d, first, b, k);
        let f = bucket_records(rs, first, b, k);
        let fd = bucket_records(d, first, b, k);
        let keep = bucket_of(first, b, rs.last().date.key()) == k;
        assert forall|i: int| 0 <= i < f.len() implies exists|x: int|
            0 <= x < rs.len() && #[trigger] f[i] == rs[x] by {
            if keep && i == f.len() - 1 {
                assert(f[i] == rs[rs.len() - 1]);
            } else {
                assert(f[i] == fd[i]);
                let x = choose|x: int| 0 <= x < d.len() && fd[i] == d[x];
                assert(f[i] == rs[x]);
            }
        }
        if keep {
            assert forall|i: int| 0 <= i < fd.len() implies (#[trigger] fd[i]).date.key()
                < rs.last().date.key() by {
                let x = choose|x: int| 0 <= x < d.len() && fd[i] == d[x];
                assert(rs[x].date.key() < rs[rs.len() - 1].date.key());
            }
        }
        assert forall|i: int, j: int| 0 <= i < j < f.len() implies (#[trigger] f[i]).date.key() < (
        #[trigger] f[j]).date.key() by {
            if keep && j == f.len() - 1 {
                assert(f[i] == fd[i]);
            } else {
                assert(f[i] == fd[i] && f[j] == fd[j]);
            }
        }
        assert forall|i: int| 0 <= i < f.len() implies bucket_of(
            first,
            b,
            (#[trigger] f[i]).date.key(),
        ) == k by {
            if !(keep && i == f.len() - 1) {
                assert(f[i] == fd[i]);
            }
        }
    }
}

/// The band of day keys a bucket covers: bucket `k` reaches up to
/// `first + (k + 1) * width`, and past `first + k * width` for `k` at
/// least one.
pub proof fn lemma_bucket_of_range(first: int, width: int, key: int)
    requires
        width >= 1,
    ensures
        bucket_of(first, width, key) >= 0,
        key <= first + (bucket_of(first, width, key) + 1) * width,
        bucket_of(first, width, key) >= 1 ==> key > first + bucket_of(first, width, key) * width,
{
    let d = key - first;
    if d <= 0 {
        assert((0 + 1) * width == width) by (nonlinear_arith);
    } else {
        let k = (d - 1) / width;
        vstd::arithmetic::div_mod::lemma_fundamental_div_mod(d - 1, width);
        vstd::arithmetic::div_mod::lemma_div_is_ordered(0, d - 1, width);
        assert(d - 1 == width * k + (d - 1) % width);
        assert(0 <= (d - 1) % width < width) by {
            vstd::arithmetic::div_mod::lemma_mod_division_less_than_divisor(d - 1, width);
        }
        assert(width * k == k * width) by (nonlinear_arith);
        assert((k + 1) * width == k * width + width) by (nonlinear_arith);
        assert(d - 1 < k * width + width);
        assert(d - 1 >= k * width);
    }
}

/// Once every record at or past `i` falls outside bucket `k`, the
/// bucket is already complete within the first `i` records.
pub proof fn lemma_bucket_records_complete(rs: Seq<RecordView>, first: int, b: int, k: int, i: int)
    requires
        0 <= i <= rs.len(),
        forall|x: int|
            i <= x < rs.len() ==> bucket_of(first, b, (#[trigger] rs[x]).date.key()) != k,
    ensures
        bucket_records(rs.take(i), first, b, k) == bucket_records(rs, first, b, k),
    decreases rs.len() - i,
{
    if i < rs.len() {
        let d = rs.drop_last();
        assert forall|x: int|
            i <= x < d.len() implies bucket_of(first, b, (#[trigger] d[x]).date.key()) != k by {
            assert(d[x] == rs[x]);
        }
        lemma_bucket_records_complete(d, first, b, k, i);
        assert(d.take(i) =~= rs.take(i));
    } else {
        assert(rs.take(i) =~= rs);
    }
}

/// Normalizes one bucket of records: per-currency change from the
/// bucket's first record, scaled from elapsed days onto the period;
/// a bucket of fewer than two records yields nothing, a designed skip.
pub fn calculate_records(records: &Vec<Record>, period: u64, sum: bool) -> (r: Result<
    Vec<Record>,
    StatsError,
>)
    requires
        period >= 1,
        forall|i: int| 0 <= i < records@.len() ==> (#[trigger] records@[i]@).date.valid(),
        forall|i: int, j: int|
            0 <= i < j < records@.len() ==> records@[i]@.date.key() < records@[j]@.date.key(),
        forall|i: int|
            0 <= i < records@.len() ==> (#[trigger] records@[i]@).savings.len()
                == records@[0]@.savings.len(),
    ensures
        ({
            let bk = views_of(records@);
            match r {
                Ok(out) => bucket_fits(bk, period as int, sum) && views_of(out@)
                    == normalize_bucket(bk, period as int, sum),
                Err(StatsError::AmountOverflow) => !bucket_fits(bk, period as int, sum),
                Err(_) => false,
            }
        }),
        records@.len() < 2 ==> (r matches Ok(out) && out@.len() == 0),
{
    let ghost bk = views_of(records@);
    let n = records.len();
    if n < 2 {
        let out: Vec<Record> = Vec::new();
        proof {
            assert(views_of(out@) =~= normalize_bucket(bk, period as int, sum));
        }
        return Ok(out);
    }
    let sel: Vec<Record> = if sum {
        let mut s: Vec<Record> = Vec::new();
        s.push(records[0].duplicate());
        s.push(records[n - 1].duplicate());
        s
    } else {
        let mut s: Vec<Record> = Vec::new();
        let mut t: usize = 0;
        while t < n
            invariant
                t <= n,
                n == records@.len(),
                s@.len() == t,
                forall|x: int| 0 <= x < t ==> #[trigger] s@[x]@ == records@[x]@,
            decreases n - t,
        {
            s.push(records[t].duplicate());
            t += 1;
        }
        s
    };
    let ghost selv = selected(bk, sum);
    proof {
        assert(views_of(sel@) =~= selv);
    }
    let m = sel.len();
    let w = sel[0].savings.len();
    proof {
        assert(selv.len() == m);
        assert(m >= 2);
        assert forall|i: int| 0 <= i < m implies (#[trigger] selv[i]).savings.len() == w
            && selv[i].date.valid() by {
            assert(selv[i] == sel@[i]@);
            assert(selv[0] == sel@[0]@);
            if sum {
                assert(bk[0] == records@[0]@);
                assert(bk.last() == records@[records@.len() - 1]@);
                if i == 0 {
                    assert(selv[i] == bk[0]);
                } else {
                    assert(selv[i] == bk.last());
                }
            } else {
                assert(selv == bk);
                assert(bk[i] == records@[i]@);
                assert(bk[0] == records@[0]@);
            }
        }
        assert forall|i: int| 1 <= i < m implies (#[trigger] selv[i]).date.key()
            > selv[0].date.key() by {
        }
    }
    let mut zeros: Vec<i64> = Vec::new();
    while zeros.len() < w
        invariant
            zeros@.len() <= w,
            forall|j: int| 0 <= j < zeros@.len() ==> #[trigger] zeros@[j] == 0i64,
        decreases w - zeros@.len(),
    {
        zeros.push(0);
    }
    let mut out: Vec<Record> = Vec::new();
    let ghost z = zeros@;
    out.push(Record { date: sel[0].date, savings: zeros });
    let ghost norm = normalize_bucket(bk, period as int, sum);
    proof {
        assert(norm.len() == m);
        assert(z =~= norm[0].savings);
        assert(out@[0]@ == norm[0]);
        assert(views_of(out@) =~= norm.take(1));
    }
    let k0 = sel[0].date.day_key();
    let mut i: usize = 1;
    while i < m
        invariant
            1 <= i <= m,
            2 <= m == sel@.len(),
            period >= 1,
            bk == views_of(records@),
            selv == views_of(sel@),
            selv == selected(bk, sum),
            bk.len() >= 2,
            norm == normalize_bucket(bk, period as int, sum),
            norm.len() == m,
            forall|x: int|
                0 <= x < m ==> (#[trigger] selv[x]).savings.len() == w && selv[x].date.valid(),
            forall|x: int| 1 <= x < m ==> (#[trigger] selv[x]).date.key() > selv[0].date.key(),
            k0 as int == selv[0].date.key(),
            views_of(out@) == norm.take(i as int),
            forall|a: int, b: int|
                1 <= a < i && 0 <= b < w ==> i64::MIN <= scaled(
                    (#[trigger] selv[a].savings[b]) - selv[0].savings[b],
                    period as int,
                    selv[a].date.key() - selv[0].date.key(),
                ) <= i64::MAX,
        decreases m - i,
    {
        proof {
            assert(selv[i as int] == sel@[i as int]@);
            assert(selv[0] == sel@[0]@);
        }
        let ki = sel[i].date.day_key();
        let days: u64 = (ki - k0) as u64;
        let mut savings: Vec<i64> = Vec::new();
        let mut j: usize = 0;
        while j < w
            invariant
                j <= w,
                1 <= i < m,
                2 <= m == sel@.len(),
                period >= 1,
                bk == views_of(records@),
                selv == views_of(sel@),
                selv == selected(bk, sum),
                bk.len() >= 2,
                selv.len() == m,
                forall|x: int|
                    0 <= x < m ==> (#[trigger] selv[x]).savings.len() == w && selv[x].date.valid(),
                days as int == selv[i as int].date.key() - selv[0].date.key(),
                days >= 1,
                savings@.len() == j,
                forall|b: int|
                    0 <= b < j ==> #[trigger] savings@[b] == scaled(
                        selv[i as int].savings[b] - selv[0].savings[b],
                        period as int,
                        days as int,
                    ),
                forall|b: int|
                    0 <= b < j ==> i64::MIN <= scaled(
                        (#[trigger] selv[i as int].savings[b]) - selv[0].savings[b],
                        period as int,
                        days as int,
                    ) <= i64::MAX,
            decreases w - j,
        {
            proof {
                assert(selv[i as int] == sel@[i as int]@);
                assert(selv[0] == sel@[0]@);
            }
            let a = sel[i].savings[j];
            let base = sel[0].savings[j];
            let delta: i128 = a as i128 - base as i128;
            match scale_value(delta, period, days) {
                Some(v) => {
                    savings.push(v);
                },
                None => {
                    proof {
                        let dd = selv[i as int].savings[j as int] - selv[0].savings[j as int];
                        assert(delta as int == dd);
                        assert(!(i64::MIN <= scaled(
                            dd,
                            period as int,
                            selv[i as int].date.key() - selv[0].date.key(),
                        ) <= i64::MAX));
                        assert(!bucket_fits(bk, period as int, sum));
                    }
                    return Err(StatsError::AmountOverflow);
                },
            }
            j += 1;
        }
        let ghost sv = savings@;
        out.push(Record { date: sel[i].date, savings });
        proof {
            let pfx = norm.take(i + 1);
            assert(pfx.drop_last() =~= norm.take(i as int));
            assert(norm[i as int].savings =~= sv);
            assert(out@[i as int]@ == norm[i as int]);
            assert(views_of(out@) =~= norm.take(i + 1));
        }
        i += 1;
    }
    proof {
        assert(norm.take(m as int) =~= norm);
        assert(bucket_fits(bk, period as int, sum));
    }
    Ok(out)
}


/// Normalized rolling rate-of-change over a ledger: filters records to
/// the optional date range, partitions them into buckets of the given
/// width (everything in one bucket without a width), and normalizes
/// each bucket onto the period; buckets of fewer than two records are
/// dropped.
#[verifier::rlimit(100)]
pub fn calculate_rolling_average(
    records: Records,
    period: u64,
    sum: bool,
    buckets: Option<u64>,
    start_date: Option<Date>,
    end_date: Option<Date>,
) -> (r: Result<Records, StatsError>)
    requires
        records.wf(),
        period >= 1,
        buckets matches Some(b) ==> b >= 1,
        start_date matches Some(s) ==> s.valid(),
        end_date matches Some(e) ==> e.valid(),
    ensures
        ({
            let filtered = range_filter(records@.records, start_date, end_date);
            match r {
                Ok(out) => {
                    &&& !(buckets matches Some(b) && b > period)
                    &&& filtered.len() > 0
                    &&& (buckets is Some || filtered.len() >= 2)
                    &&& all_buckets_fit(buckets_of(filtered, buckets), period as int, sum)
                    &&& out@.currencies == records@.currencies
                    &&& out@.records == flatten_normalized(
                        buckets_of(filtered, buckets),
                        period as int,
                        sum,
                    )
                    &&& out.wf()
                    &&& out.filepath@ == records.filepath@
                },
                Err(StatsError::BucketExceedsPeriod) => buckets matches Some(b) && b > period,
                Err(StatsError::TooFewRecords) => !(buckets matches Some(b) && b > period) && (
                filtered.len() == 0 || (filtered.len() < 2 && buckets is None)),
                Err(StatsError::AmountOverflow) => {
                    &&& !(buckets matches Some(b) && b > period)
                    &&& filtered.len() > 0
                    &&& (buckets is Some || filtered.len() >= 2)
                    &&& !all_buckets_fit(buckets_of(filtered, buckets), period as int, sum)
                },
            }
        }),
{
    let ghost v = records@;
    match buckets {
        Some(b) => {
            if b > period {
                return Err(StatsError::BucketExceedsPeriod);
            }
        },
        None => {},
    }
    let mut currencies: Vec<Currency> = Vec::new();
    let mut ci: usize = 0;
    while ci < records.currencies.len()
        invariant
            ci <= records.currencies@.len(),
            currencies@.len() == ci,
            forall|x: int| 0 <= x < ci ==> #[trigger] currencies@[x].0@ == records.currencies@[x].0@,
        decreases records.currencies@.len() - ci,
    {
        currencies.push(records.currencies[ci].duplicate());
        ci += 1;
    }
    proof {
        assert(codes_of(currencies@) =~= v.currencies);
    }
    let filepath = records.filepath.clone();
    let ghost filtered = range_filter(v.records, start_date, end_date);
    proof {
        lemma_range_filter_props(v.records, start_date, end_date);
        assert forall|x: int| 0 <= x < filtered.len() implies (#[trigger] filtered[x]).date.valid()
            && filtered[x].savings.len() == v.currencies.len() by {
            let y = choose|y: int| 0 <= y < v.records.len() && filtered[x] == v.records[y];
            assert(v.records[y].date.valid());
        }
        assert forall|i: int|
            0 <= i < v.records.len() implies (#[trigger] v.records[i]).date.valid() by {}
    }
    let recs: Vec<Record> = records.records_newer_older_than(start_date, end_date);
    let n = recs.len();
    proof {
        assert(views_of(recs@) == filtered);
        assert(filtered.len() == n);
    }
    if n == 0 {
        return Err(StatsError::TooFewRecords);
    }
    match buckets {
        None => {
            if n < 2 {
                return Err(StatsError::TooFewRecords);
            }
            proof {
                assert forall|x: int|
                    0 <= x < recs@.len() implies (#[trigger] recs@[x]@).date.valid() && recs@[x]@.savings.len()
                    == v.currencies.len() by {
                    assert(recs@[x]@ == filtered[x]);
                }
                assert forall|x: int, y: int|
                    0 <= x < y < recs@.len() implies recs@[x]@.date.key() < recs@[y]@.date.key() by {
                    assert(recs@[x]@ == filtered[x] && recs@[y]@ == filtered[y]);
                }
            }
            match calculate_records(&recs, period, sum) {
                Ok(out) => {
                    proof {
                        let bks = buckets_of(filtered, buckets);
                        assert(bks =~= seq![filtered]);
                        assert(bks.drop_last() =~= Seq::<Seq<RecordView>>::empty());
                        assert(bks.last() == filtered);
                        assert(flatten_normalized(bks.drop_last(), period as int, sum)
                            =~= Seq::<RecordView>::empty());
                        assert(flatten_normalized(bks, period as int, sum) =~= normalize_bucket(
                            filtered,
                            period as int,
                            sum,
                        ));
                        assert forall|k: int| 0 <= k < bks.len() implies bucket_fits(
                            #[trigger] bks[k],
                            period as int,
                            sum,
                        ) by {
                            assert(bks[k] == filtered);
                        }
                    }
                    let led = Records { records: out, currencies, filepath };
                    proof {
                        let w = v.currencies.len() as int;
                        lemma_normalize_shape_raw(filtered, period as int, sum, w);
                        let nb = normalize_bucket(filtered, period as int, sum);
                        assert(led@.currencies =~= v.currencies);
                        assert(led@.records == nb);
                        assert forall|x: int| 0 <= x < led@.records.len() implies (
                        #[trigger] led@.records[x]).savings.len() == led@.currencies.len()
                            && led@.records[x].date.valid() by {
                            assert(led@.records[x] == nb[x]);
                        }
                        assert forall|x: int, y: int|
                            0 <= x < y < led@.records.len() implies (
                        #[trigger] led@.records[x]).date.key() < (
                        #[trigger] led@.records[y]).date.key() by {
                            assert(led@.records[x] == nb[x] && led@.records[y] == nb[y]);
                        }
                        assert(led.wf());
                    }
                    Ok(led)
                },
                Err(e) => {
                    proof {
                        let bks = buckets_of(filtered, buckets);
                        assert(bks =~= seq![filtered]);
                        assert(bks[0] == filtered);
                        assert(!bucket_fits(filtered, period as int, sum));
                    }
                    Err(e)
                },
            }
        },
        Some(b) => {
            proof {
                assert forall|x: int|
                    0 <= x < recs@.len() implies (#[trigger] recs@[x]@).date.valid() && recs@[x]@.savings.len()
                    == v.currencies.len() by {
                    assert(recs@[x]@ == filtered[x]);
                }
                assert forall|x: int, y: int|
                    0 <= x < y < recs@.len() implies recs@[x]@.date.key() < recs@[y]@.date.key() by {
                    assert(recs@[x]@ == filtered[x] && recs@[y]@ == filtered[y]);
                }
                assert(views_of(recs@) =~= filtered);
            }
            match bucketed_average(&recs, period, sum, b) {
                Ok(out_records) => {
                    let led = Records { records: out_records, currencies, filepath };
                    proof {
                        assert(led@.currencies =~= v.currencies);
                        assert(recs@[0]@ == filtered[0]);
                        assert(recs@[0]@.savings.len() == v.currencies.len());
                        assert forall|x: int| 0 <= x < led@.records.len() implies (
                        #[trigger] led@.records[x]).savings.len() == led@.currencies.len()
                            && led@.records[x].date.valid() by {
                            assert(led@.records[x] == led.records@[x]@);
                        }
                        assert forall|x: int, y: int|
                            0 <= x < y < led@.records.len() implies (
                        #[trigger] led@.records[x]).date.key() < (
                        #[trigger] led@.records[y]).date.key() by {
                            assert(led@.records[x] == led.records@[x]@);
                            assert(led@.records[y] == led.records@[y]@);
                        }
                        assert(led.wf());
                    }
                    Ok(led)
                },
                Err(e) => Err(e),
            }
        },
    }
}

/// The shape of a normalized bucket taken as given: records as wide as
/// the bucket's, on the bucket's own valid dates, strictly ascending.
#[verifier::rlimit(100)]
proof fn lemma_normalize_shape_raw(bk: Seq<RecordView>, period: int, sum: bool, w: int)
    requires
        forall|x: int| 0 <= x < bk.len() ==> (#[trigger] bk[x]).date.valid(),
        forall|x: int| 0 <= x < bk.len() ==> (#[trigger] bk[x]).savings.len() == w,
        forall|x: int, y: int|
            0 <= x < y < bk.len() ==> (#[trigger] bk[x]).date.key() < (#[trigger] bk[y]).date.key(),
    ensures
        ({
            let nb = normalize_bucket(bk, period, sum);
            &&& forall|x: int|
                0 <= x < nb.len() ==> (#[trigger] nb[x]).date.valid() && nb[x].savings.len() == w
            &&& forall|x: int, y: int|
                0 <= x < y < nb.len() ==> (#[trigger] nb[x]).date.key() < (
                #[trigger] nb[y]).date.key()
        }),
{
    let nb = normalize_bucket(bk, period, sum);
    if bk.len() >= 2 {
        let sel = selected(bk, sum);
        assert forall|x: int|
            0 <= x < sel.len() implies (exists|y: int| 0 <= y < bk.len() && #[trigger] sel[x]
                == bk[y]) by {
            if sum {
                if x == 0 {
                    assert(sel[x] == bk[0]);
                } else {
                    assert(sel[x] == bk[bk.len() - 1]);
                }
            } else {
                assert(sel[x] == bk[x]);
            }
        }
        assert forall|x: int, y: int|
            0 <= x < y < sel.len() implies sel[x].date.key() < sel[y].date.key() by {
            if sum {
                assert(sel[x] == bk[0] && sel[y] == bk[bk.len() - 1]);
            }
        }
        assert forall|x: int|
            0 <= x < nb.len() implies (#[trigger] nb[x]).date.valid() && nb[x].savings.len()
            == w by {
            assert(nb[x].date == sel[x].date);
            assert(nb[x].savings.len() == sel[x].savings.len());
            let y = choose|y: int| 0 <= y < bk.len() && sel[x] == bk[y];
        }
        assert forall|x: int, y: int|
            0 <= x < y < nb.len() implies (#[trigger] nb[x]).date.key() < (
        #[trigger] nb[y]).date.key() by {
            assert(nb[x].date == sel[x].date && nb[y].date == sel[y].date);
        }
    } else {
        assert(nb =~= Seq::<RecordView>::empty());
    }
}

/// The shape of one bucket's normalized output: records as wide as the
/// input's, on valid dates inside the bucket's key band, strictly
/// ascending.
#[verifier::rlimit(100)]
proof fn lemma_normalized_bucket_shape(
    rs: Seq<RecordView>,
    fk: int,
    bi: int,
    k: int,
    period: int,
    sum: bool,
    w: int,
)
    requires
        bi >= 1,
        rs.len() >= 1,
        fk == rs[0].date.key(),
        forall|x: int| 0 <= x < rs.len() ==> (#[trigger] rs[x]).date.valid(),
        forall|x: int| 0 <= x < rs.len() ==> (#[trigger] rs[x]).savings.len() == w,
        forall|x: int, y: int|
            0 <= x < y < rs.len() ==> (#[trigger] rs[x]).date.key() < (#[trigger] rs[y]).date.key(),
    ensures
        ({
            let nb = normalize_bucket(bucket_records(rs, fk, bi, k), period, sum);
            &&& forall|x: int|
                0 <= x < nb.len() ==> (#[trigger] nb[x]).date.valid() && nb[x].savings.len() == w
                    && nb[x].date.key() <= fk + (k + 1) * bi && (k >= 1 ==> nb[x].date.key() > fk
                    + k * bi)
            &&& forall|x: int, y: int|
                0 <= x < y < nb.len() ==> (#[trigger] nb[x]).date.key() < (
                #[trigger] nb[y]).date.key()
        }),
{
    lemma_bucket_records_props(rs, fk, bi, k);
    let cv = bucket_records(rs, fk, bi, k);
    let nb = normalize_bucket(cv, period, sum);
    assert forall|x: int| 0 <= x < cv.len() implies (#[trigger] cv[x]).date.valid()
        && cv[x].savings.len() == w && cv[x].date.key() <= fk + (k + 1) * bi && (k >= 1
        ==> cv[x].date.key() > fk + k * bi) by {
        let z = choose|z: int| 0 <= z < rs.len() && cv[x] == rs[z];
        assert(bucket_of(fk, bi, cv[x].date.key()) == k);
        lemma_bucket_of_range(fk, bi, cv[x].date.key());
    }
    lemma_normalize_shape_raw(cv, period, sum, w);
    if cv.len() >= 2 {
        let sel = selected(cv, sum);
        assert forall|x: int| 0 <= x < nb.len() implies (#[trigger] nb[x]).date.key() <= fk + (k
            + 1) * bi && (k >= 1 ==> nb[x].date.key() > fk + k * bi) by {
            assert(nb[x].date == sel[x].date);
            if sum {
                if x == 0 {
                    assert(sel[x] == cv[0]);
                } else {
                    assert(sel[x] == cv[cv.len() - 1]);
                }
            } else {
                assert(sel[x] == cv[x]);
            }
        }
    } else {
        assert(nb =~= Seq::<RecordView>::empty());
    }
}

/// The bucketed arm of the rolling aggregator: partitions the sorted
/// records into buckets of `b` days, normalizes each bucket onto the
/// period, and concatenates the outputs.
#[verifier::rlimit(100)]
fn bucketed_average(recs: &Vec<Record>, period: u64, sum: bool, b: u64) -> (r: Result<
    Vec<Record>,
    StatsError,
>)
    requires
        period >= 1,
        1 <= b <= period,
        recs@.len() >= 1,
        forall|x: int| 0 <= x < recs@.len() ==> (#[trigger] recs@[x]@).date.valid(),
        forall|x: int, y: int|
            0 <= x < y < recs@.len() ==> recs@[x]@.date.key() < recs@[y]@.date.key(),
        forall|x: int|
            0 <= x < recs@.len() ==> (#[trigger] recs@[x]@).savings.len()
                == recs@[0]@.savings.len(),
    ensures
        ({
            let filtered = views_of(recs@);
            match r {
                Ok(out) => {
                    &&& all_buckets_fit(buckets_of(filtered, Some(b)), period as int, sum)
                    &&& views_of(out@) == flatten_normalized(
                        buckets_of(filtered, Some(b)),
                        period as int,
                        sum,
                    )
                    &&& forall|x: int|
                        0 <= x < out@.len() ==> (#[trigger] out@[x]@).savings.len()
                            == recs@[0]@.savings.len() && out@[x]@.date.valid()
                    &&& forall|x: int, y: int|
                        0 <= x < y < out@.len() ==> out@[x]@.date.key() < out@[y]@.date.key()
                },
                Err(StatsError::AmountOverflow) => !all_buckets_fit(
                    buckets_of(filtered, Some(b)),
                    period as int,
                    sum,
                ),
                Err(_) => false,
            }
        }),
{
    let ghost filtered = views_of(recs@);
    let ghost wdt = recs@[0]@.savings.len() as int;
    let n = recs.len();
    proof {
        assert forall|x: int|
            0 <= x < filtered.len() implies (#[trigger] filtered[x]).date.valid()
            && filtered[x].savings.len() == wdt by {
            assert(filtered[x] == recs@[x]@);
        }
        assert forall|x: int, y: int|
            0 <= x < y < filtered.len() implies (#[trigger] filtered[x]).date.key() < (
        #[trigger] filtered[y]).date.key() by {
            assert(filtered[x] == recs@[x]@ && filtered[y] == recs@[y]@);
        }
    }
    let first_key: u32 = recs[0].date.day_key();
    let ghost fk = filtered[0].date.key();
    let mut out_records: Vec<Record> = Vec::new();
    let mut cur: Vec<Record> = Vec::new();
    let mut bound: u128 = first_key as u128 + b as u128;
    let ghost mut k_cur: int = 0;
    let mut i: usize = 0;
    proof {
        assert(recs@[0]@ == filtered[0]);
        assert(fk == first_key as int);
        assert(views_of(cur@) =~= bucket_records(filtered.take(0), fk, b as int, 0)) by {
            assert(filtered.take(0) =~= Seq::<RecordView>::empty());
        }
        assert(views_of(out_records@) =~= flatten_normalized(
            Seq::new(0, |k: int| bucket_records(filtered, fk, b as int, k)),
            period as int,
            sum,
        ));
        lemma_bucket_of_monotone(fk, b as int, fk, filtered[n - 1].date.key());
    }
    while i < n
        invariant
            0 <= i <= n,
            n == recs@.len(),
            n >= 1,
            views_of(recs@) == filtered,
            filtered.len() == n,
            1 <= b <= period,
            filtered == views_of(recs@),
            fk == filtered[0].date.key(),
            forall|x: int|
                0 <= x < n ==> (#[trigger] filtered[x]).date.valid()
                    && filtered[x].savings.len() == wdt,
            forall|x: int, y: int|
                0 <= x < y < n ==> (#[trigger] filtered[x]).date.key() < (
                #[trigger] filtered[y]).date.key(),
            k_cur >= 0,
            bound as int == fk + (k_cur + 1) * (b as int),
            forall|x: int|
                0 <= x < i ==> bucket_of(fk, b as int, (#[trigger] filtered[x]).date.key())
                    <= k_cur,
            i < n ==> bucket_of(fk, b as int, filtered[i as int].date.key()) >= k_cur,
            k_cur <= bucket_of(fk, b as int, filtered[n - 1].date.key()),
            views_of(cur@) == bucket_records(filtered.take(i as int), fk, b as int, k_cur),
            views_of(out_records@) == flatten_normalized(
                Seq::new(k_cur as nat, |k: int| bucket_records(filtered, fk, b as int, k)),
                period as int,
                sum,
            ),
            k_cur == 0 ==> out_records@.len() == 0,
            forall|x: int|
                0 <= x < out_records@.len() ==> (#[trigger] out_records@[x]@).savings.len() == wdt
                    && out_records@[x]@.date.valid() && out_records@[x]@.date.key() <= fk + k_cur
                    * (b as int),
            forall|x: int, y: int|
                0 <= x < y < out_records@.len() ==> out_records@[x]@.date.key()
                    < out_records@[y]@.date.key(),
            forall|k: int|
                0 <= k < k_cur ==> bucket_fits(
                    bucket_records(filtered, fk, b as int, #[trigger] (k + 0)),
                    period as int,
                    sum,
                ),
        decreases n - i, (if i < n && filtered[i as int].date.key() > bound as int {
            filtered[i as int].date.key() - bound as int
        } else {
            0int
        }),
    {
        proof {
            assert(recs@[i as int]@ == filtered[i as int]);
        }
        let key = recs[i].date.day_key();
        if (key as u128) > bound {
            // the record starts a later bucket: close this one
            proof {
                let bi = b as int;
                let d = key as int - fk;
                assert(d - 1 >= (k_cur + 1) * bi);
                assert(d >= 1) by (nonlinear_arith)
                    requires d - 1 >= (k_cur + 1) * bi, k_cur >= 0, bi >= 1;
                vstd::arithmetic::div_mod::lemma_div_is_ordered((k_cur + 1) * bi, d - 1, bi);
                vstd::arithmetic::div_mod::lemma_div_multiples_vanish(k_cur + 1, bi);
                assert((k_cur + 1) * bi == bi * (k_cur + 1)) by (nonlinear_arith);
                assert(((k_cur + 1) * bi) / bi == k_cur + 1);
                assert((d - 1) / bi >= k_cur + 1);
                assert(bucket_of(fk, bi, key as int) >= k_cur + 1);
                assert forall|x: int|
                    i <= x < n implies bucket_of(
                    fk,
                    bi,
                    (#[trigger] filtered[x]).date.key(),
                ) != k_cur by {
                    lemma_bucket_of_monotone(fk, bi, key as int, filtered[x].date.key());
                }
                lemma_bucket_records_complete(filtered, fk, bi, k_cur, i as int);
                lemma_bucket_records_props(filtered, fk, bi, k_cur);
                let cv = views_of(cur@);
                assert forall|x: int| 0 <= x < cur@.len() implies (#[trigger] cur@[x]@).date.valid()
                    && cur@[x]@.savings.len() == wdt by {
                    assert(cur@[x]@ == cv[x]);
                    let y = choose|y: int| 0 <= y < filtered.len() && cv[x] == filtered[y];
                }
                assert forall|x: int, y: int| 0 <= x < y < cur@.len() implies cur@[x]@.date.key()
                    < cur@[y]@.date.key() by {
                    assert(cur@[x]@ == cv[x] && cur@[y]@ == cv[y]);
                }
            }
            match calculate_records(&cur, period, sum) {
                Ok(mut normd) => {
                    let ghost old_out = out_records@;
                    let ghost old_normd = normd@;
                    let ghost old_cur = cur@;
                    let ghost nbv = views_of(normd@);
                    out_records.append(&mut normd);
                    proof {
                        let bi = b as int;
                        let nb = normalize_bucket(
                            bucket_records(filtered, fk, bi, k_cur),
                            period as int,
                            sum,
                        );
                        assert(nbv == nb);
                        lemma_normalized_bucket_shape(
                            filtered,
                            fk,
                            bi,
                            k_cur,
                            period as int,
                            sum,
                            wdt,
                        );
                        assert(out_records@ == old_out + old_normd);
                        assert forall|x: int|
                            0 <= x < out_records@.len() implies (
                        #[trigger] out_records@[x]@).savings.len() == wdt
                            && out_records@[x]@.date.valid() && out_records@[x]@.date.key() <= fk
                            + (k_cur + 1) * bi by {
                            if x < old_out.len() {
                                assert(out_records@[x] == old_out[x]);
                                assert((k_cur + 1) * bi == k_cur * bi + bi) by (nonlinear_arith);
                            } else {
                                assert(out_records@[x] == old_normd[x - old_out.len()]);
                                assert(out_records@[x]@ == nb[x - old_out.len()]);
                            }
                        }
                        assert forall|x: int, y: int|
                            0 <= x < y < out_records@.len() implies out_records@[x]@.date.key()
                            < out_records@[y]@.date.key() by {
                            if y < old_out.len() {
                                assert(out_records@[x] == old_out[x]
                                    && out_records@[y] == old_out[y]);
                            } else if x >= old_out.len() {
                                assert(out_records@[x]@ == nb[x - old_out.len()]
                                    && out_records@[y]@ == nb[y - old_out.len()]);
                            } else {
                                assert(out_records@[x] == old_out[x]);
                                assert(out_records@[y]@ == nb[y - old_out.len()]);
                                assert(k_cur >= 1);
                            }
                        }
                        let old_seq = Seq::new(
                            k_cur as nat,
                            |k: int| bucket_records(filtered, fk, bi, k),
                        );
                        let new_seq = Seq::new(
                            (k_cur + 1) as nat,
                            |k: int| bucket_records(filtered, fk, bi, k),
                        );
                        assert(new_seq.drop_last() =~= old_seq);
                        assert(new_seq.last() == bucket_records(filtered, fk, bi, k_cur));
                        assert(views_of(out_records@) =~= flatten_normalized(
                            new_seq,
                            period as int,
                            sum,
                        ));
                    }
                },
                Err(e) => {
                    proof {
                        let bks = buckets_of(filtered, Some(b));
                        assert(bks.len() == 1 + bucket_of(
                            fk,
                            b as int,
                            filtered[n - 1].date.key(),
                        ));
                        assert(bks[k_cur] == bucket_records(filtered, fk, b as int, k_cur));
                        assert(!bucket_fits(bks[k_cur], period as int, sum));
                    }
                    return Err(e);
                },
            }
            cur = Vec::new();
            bound = bound + b as u128;
            proof {
                let bi = b as int;
                k_cur = k_cur + 1;
                assert((k_cur + 1) * bi == k_cur * bi + bi) by (nonlinear_arith);
                assert(k_cur * bi == (k_cur - 1 + 1) * bi);
                assert(views_of(cur@) =~= bucket_records(
                    filtered.take(i as int),
                    fk,
                    bi,
                    k_cur,
                )) by {
                    assert forall|x: int|
                        0 <= x < filtered.take(i as int).len() implies bucket_of(
                        fk,
                        bi,
                        (#[trigger] filtered.take(i as int)[x]).date.key(),
                    ) != k_cur by {
                        assert(filtered.take(i as int)[x] == filtered[x]);
                    }
                    lemma_bucket_records_complete(
                        filtered.take(i as int),
                        fk,
                        bi,
                        k_cur,
                        0,
                    );
                    assert(filtered.take(i as int).take(0) =~= Seq::<RecordView>::empty());
                }
                lemma_bucket_of_monotone(fk, bi, key as int, filtered[n - 1].date.key());
            }
        } else {
            cur.push(recs[i].duplicate());
            proof {
                let bi = b as int;
                let d = key as int - fk;
                assert(bucket_of(fk, bi, key as int) <= k_cur) by {
                    if d > 0 && (d - 1) / bi > k_cur {
                        vstd::arithmetic::div_mod::lemma_fundamental_div_mod(d - 1, bi);
                        vstd::arithmetic::div_mod::lemma_mod_division_less_than_divisor(
                            d - 1,
                            bi,
                        );
                        assert((d - 1) / bi * bi <= d - 1) by (nonlinear_arith)
                            requires
                                bi * ((d - 1) / bi) + (d - 1) % bi == d - 1,
                                (d - 1) % bi >= 0,
                        ;
                        assert((k_cur + 1) * bi <= (d - 1) / bi * bi) by (nonlinear_arith)
                            requires
                                bi >= 1,
                                k_cur + 1 <= (d - 1) / bi,
                        ;
                        assert(d <= (k_cur + 1) * bi);
                        assert(false);
                    }
                }
                assert(bucket_of(fk, bi, key as int) == k_cur);
                let pfx = filtered.take(i + 1);
                assert(pfx.drop_last() =~= filtered.take(i as int));
                assert(pfx.last() == filtered[i as int]);
                assert(views_of(cur@) =~= bucket_records(pfx, fk, bi, k_cur));
                if i + 1 < n {
                    lemma_bucket_of_monotone(
                        fk,
                        bi,
                        key as int,
                        filtered[i + 1].date.key(),
                    );
                }
            }
            i += 1;
        }
    }
    // close the final bucket
    proof {
        lemma_bucket_records_complete(filtered, fk, b as int, k_cur, n as int);
        assert(filtered.take(n as int) =~= filtered);
        assert(bucket_of(fk, b as int, filtered[n - 1].date.key()) <= k_cur);
        assert(k_cur == bucket_of(fk, b as int, filtered[n - 1].date.key()));
        lemma_bucket_records_props(filtered, fk, b as int, k_cur);
        let cv = views_of(cur@);
        assert forall|x: int| 0 <= x < cur@.len() implies (#[trigger] cur@[x]@).date.valid()
            && cur@[x]@.savings.len() == wdt by {
            assert(cur@[x]@ == cv[x]);
            let y = choose|y: int| 0 <= y < filtered.len() && cv[x] == filtered[y];
        }
        assert forall|x: int, y: int| 0 <= x < y < cur@.len() implies cur@[x]@.date.key()
            < cur@[y]@.date.key() by {
            assert(cur@[x]@ == cv[x] && cur@[y]@ == cv[y]);
        }
    }
    match calculate_records(&cur, period, sum) {
        Ok(mut normd) => {
            let ghost old_out = out_records@;
            let ghost old_normd = normd@;
            let ghost nbv = views_of(normd@);
            out_records.append(&mut normd);
            proof {
                let bi = b as int;
                let nb = normalize_bucket(
                    bucket_records(filtered, fk, bi, k_cur),
                    period as int,
                    sum,
                );
                assert(nbv == nb);
                lemma_normalized_bucket_shape(filtered, fk, bi, k_cur, period as int, sum, wdt);
                assert(out_records@ == old_out + old_normd);
                assert forall|x: int|
                    0 <= x < out_records@.len() implies (
                #[trigger] out_records@[x]@).savings.len() == wdt
                    && out_records@[x]@.date.valid() by {
                    if x < old_out.len() {
                        assert(out_records@[x] == old_out[x]);
                    } else {
                        assert(out_records@[x] == old_normd[x - old_out.len()]);
                        assert(out_records@[x]@ == nb[x - old_out.len()]);
                    }
                }
                assert forall|x: int, y: int|
                    0 <= x < y < out_records@.len() implies out_records@[x]@.date.key()
                    < out_records@[y]@.date.key() by {
                    if y < old_out.len() {
                        assert(out_records@[x] == old_out[x] && out_records@[y] == old_out[y]);
                    } else if x >= old_out.len() {
                        assert(out_records@[x]@ == nb[x - old_out.len()]
                            && out_records@[y]@ == nb[y - old_out.len()]);
                    } else {
                        assert(out_records@[x] == old_out[x]);
                        assert(out_records@[y]@ == nb[y - old_out.len()]);
                        assert(k_cur >= 1);
                    }
                }
            }
        },
        Err(e) => {
            proof {
                let bks = buckets_of(filtered, Some(b));
                assert(bks[k_cur] == bucket_records(filtered, fk, b as int, k_cur));
                assert(!bucket_fits(bks[k_cur], period as int, sum));
            }
            return Err(e);
        },
    }
    proof {
        let bi = b as int;
        let bks = buckets_of(filtered, Some(b));
        let old_seq = Seq::new(k_cur as nat, |k: int| bucket_records(filtered, fk, bi, k));
        assert(bks =~= old_seq.push(bucket_records(filtered, fk, bi, k_cur)));
        assert(bks.drop_last() =~= old_seq);
        assert(bks.last() == bucket_records(filtered, fk, bi, k_cur));
        assert(views_of(out_records@) =~= flatten_normalized(bks, period as int, sum));
        assert forall|k: int| 0 <= k < bks.len() implies bucket_fits(
            #[trigger] bks[k],
            period as int,
            sum,
        ) by {
            assert(bks[k] == bucket_records(filtered, fk, bi, k + 0));
        }
    }
    Ok(out_records)
}


} // verus!
