use vstd::prelude::*;
use crate::arith::{
    ratio_of, Ratio,
    lemma_elem_le_sum, lemma_sum_range_add, lemma_sum_range_mono, lemma_sum_range_nonneg,
    lemma_sum_range_split, lemma_sum_range_update, seq_sum, sum_range,
};

verus! {

/// Number of quality buckets: one per ASCII code below this bound.
pub const QUALITY_BUCKETS: usize = 150;

/// Offset of the Sanger / Illumina 1.9 encoding.
pub const SANGER_ENCODING_OFFSET: usize = 32;

/// Offset of the Illumina 1.3 and 1.5 encodings.
pub const ILLUMINA_1_3_ENCODING_OFFSET: usize = 64;

/// An input that the statistics cannot be computed from.
#[derive(Clone, Copy, Debug, PartialEq, Eq, Structural)]
pub enum QcError {
    /// A quality character below every known encoding.
    QualityTooLow(usize),
    /// A quality character above every known encoding.
    QualityTooHigh(usize),
    /// A contaminant sequence holding a character other than A, C, G, T.
    IllegalBase(u8),
    /// A contaminant hit direction other than forward or reverse.
    InvalidDirection(usize),
}

/// Histogram of quality characters observed at one read position.
#[derive(Clone, Debug)]
pub struct QualityCount {
    actual_counts: Vec<usize>,
    total_counts: usize,
}

/// Threshold that a cumulative count must reach for the `p`-th percentile.
pub open spec fn percentile_threshold(total: int, p: int) -> int {
    (total * p) / 100
}

/// First index `i >= from` at which the counts from `offset` up to and
/// including `i` reach `t`, if there is one.
pub open spec fn first_reaching(s: Seq<usize>, offset: int, t: int, from: int) -> Option<int>
    decreases s.len() - from,
{
    if from < 0 || from >= s.len() {
        None
    } else if sum_range(s, offset, from + 1) >= t {
        Some(from)
    } else {
        first_reaching(s, offset, t, from + 1)
    }
}

/// The `p`-th percentile of a histogram, as a Phred value above `offset`.
pub open spec fn percentile_of(s: Seq<usize>, total: int, offset: int, p: int) -> int {
    match first_reaching(s, offset, percentile_threshold(total, p), offset) {
        Some(i) => i - offset,
        None => 0,
    }
}

/// Sum of `s[j] * (j - offset)` for `offset <= j < hi`.
pub open spec fn weighted_sum(s: Seq<usize>, offset: int, hi: int) -> int
    decreases hi - offset,
{
    if hi <= offset {
        0
    } else {
        weighted_sum(s, offset, hi - 1) + s[hi - 1] * (hi - 1 - offset)
    }
}

/// Weighted mean of the Phred values above `offset`, as a ratio; `0 / 1`
/// without observations.
pub open spec fn weighted_mean(s: Seq<usize>, offset: int) -> Ratio {
    ratio_of(weighted_sum(s, offset, s.len() as int), sum_range(s, offset, s.len() as int))
}

/// Truncated mean of the Phred values above `offset`; zero without observations.
pub open spec fn mean_of(s: Seq<usize>, offset: int) -> int {
    let n = sum_range(s, offset, s.len() as int);
    if n == 0 {
        0
    } else {
        weighted_sum(s, offset, s.len() as int) / n
    }
}

proof fn lemma_weighted_sum_bound(s: Seq<usize>, offset: int, hi: int)
    requires
        0 <= offset <= hi <= s.len(),
    ensures
        0 <= weighted_sum(s, offset, hi) <= (hi - offset) * sum_range(s, offset, hi),
    decreases hi - offset,
{
    if hi > offset {
        lemma_weighted_sum_bound(s, offset, hi - 1);
        lemma_sum_range_nonneg(s, offset, hi - 1);
        let w = weighted_sum(s, offset, hi - 1);
        let a = sum_range(s, offset, hi - 1);
        let k = hi - 1 - offset;
        let x = s[hi - 1] as int;
        assert(w + x * k <= (k + 1) * (a + x)) by (nonlinear_arith)
            requires
                0 <= w <= k * a,
                0 <= a,
                0 <= x,
                0 <= k,
        ;
        assert(0 <= x * k) by (nonlinear_arith)
            requires
                0 <= x,
                0 <= k,
        ;
    }
}

proof fn lemma_first_reaching_found(s: Seq<usize>, offset: int, t: int, from: int)
    requires
        0 <= offset <= from <= s.len(),
        sum_range(s, offset, s.len() as int) >= t,
        from < s.len() || t <= sum_range(s, offset, from),
    ensures
        from < s.len() ==> first_reaching(s, offset, t, from) is Some,
    decreases s.len() - from,
{
    if from < s.len() && sum_range(s, offset, from + 1) < t {
        lemma_first_reaching_found(s, offset, t, from + 1);
    }
}

proof fn lemma_first_reaching_ge(s: Seq<usize>, offset: int, t: int, from: int)
    requires
        first_reaching(s, offset, t, from) is Some,
    ensures
        first_reaching(s, offset, t, from)->0 >= from,
    decreases s.len() - from,
{
    if from >= 0 && from < s.len() && sum_range(s, offset, from + 1) < t {
        lemma_first_reaching_ge(s, offset, t, from + 1);
    }
}

proof fn lemma_first_reaching_lt(s: Seq<usize>, offset: int, t: int, from: int)
    requires
        first_reaching(s, offset, t, from) is Some,
    ensures
        first_reaching(s, offset, t, from)->0 < s.len(),
    decreases s.len() - from,
{
    if from >= 0 && from < s.len() && sum_range(s, offset, from + 1) < t {
        lemma_first_reaching_lt(s, offset, t, from + 1);
    }
}

/// A percentile of a full histogram is a Phred value below the bucket count.
pub proof fn lemma_percentile_of_bound(s: Seq<usize>, total: int, offset: int, p: int)
    requires
        s.len() == QUALITY_BUCKETS,
        offset >= 0,
    ensures
        0 <= percentile_of(s, total, offset, p) < QUALITY_BUCKETS,
{
    let t = percentile_threshold(total, p);
    if first_reaching(s, offset, t, offset) is Some {
        lemma_first_reaching_ge(s, offset, t, offset);
        lemma_first_reaching_lt(s, offset, t, offset);
    }
}

/// A mean of a full histogram is a Phred value at most the bucket count.
pub proof fn lemma_mean_of_bound(s: Seq<usize>, offset: int)
    requires
        s.len() == QUALITY_BUCKETS,
        offset >= 0,
    ensures
        0 <= mean_of(s, offset) <= QUALITY_BUCKETS,
{
    let n = sum_range(s, offset, s.len() as int);
    if n != 0 && offset < QUALITY_BUCKETS {
        lemma_weighted_sum_bound(s, offset, QUALITY_BUCKETS as int);
        lemma_sum_range_nonneg(s, offset, QUALITY_BUCKETS as int);
        let w = weighted_sum(s, offset, QUALITY_BUCKETS as int);
        let k = QUALITY_BUCKETS as int - offset;
        assert(w / n <= 150) by (nonlinear_arith)
            requires
                0 <= w <= k * n,
                0 < k <= 150,
                n > 0,
        ;
        assert(w / n >= 0) by (nonlinear_arith)
            requires
                0 <= w,
                n > 0,
        ;
    }
}

/// A first index reaching a higher threshold lies no earlier.
proof fn lemma_first_reaching_mono(s: Seq<usize>, offset: int, t1: int, t2: int, from: int)
    requires
        0 <= offset <= from,
        t1 <= t2,
        first_reaching(s, offset, t2, from) is Some,
    ensures
        first_reaching(s, offset, t1, from) is Some,
        first_reaching(s, offset, t1, from)->0 <= first_reaching(s, offset, t2, from)->0,
    decreases s.len() - from,
{
    if sum_range(s, offset, from + 1) < t1 {
        lemma_first_reaching_mono(s, offset, t1, t2, from + 1);
    } else {
        lemma_first_reaching_ge(s, offset, t2, from);
    }
}

impl QualityCount {
    /// The bucket counts.
    pub closed spec fn counts(&self) -> Seq<usize> {
        self.actual_counts@
    }

    /// The number of observations recorded.
    pub closed spec fn total(&self) -> int {
        self.total_counts as int
    }

    /// One bucket per ASCII code below the bucket bound, and a total that
    /// equals the sum of the buckets.
    pub open spec fn wf(&self) -> bool {
        &&& self.counts().len() == QUALITY_BUCKETS
        &&& self.total() == seq_sum(self.counts())
    }

    /// An empty histogram.
    pub fn new() -> (r: QualityCount)
        ensures
            r.wf(),
            r.total() == 0,
            r.counts() == Seq::new(QUALITY_BUCKETS as nat, |i: int| 0usize),
    {
        let v: Vec<usize> = vec![0usize; QUALITY_BUCKETS];
        let r = QualityCount { actual_counts: v, total_counts: 0 };
        assert(r.counts() =~= Seq::new(QUALITY_BUCKETS as nat, |i: int| 0usize));
        proof {
            lemma_sum_zero(r.counts(), QUALITY_BUCKETS as int);
        }
        r
    }

    /// Records one observation of the quality character `c_ascii`.
    pub fn add_value(&mut self, c_ascii: usize)
        requires
            old(self).wf(),
            c_ascii < QUALITY_BUCKETS,
            old(self).total() < usize::MAX,
        ensures
            final(self).wf(),
            final(self).total() == old(self).total() + 1,
            final(self).counts() == old(self).counts().update(
                c_ascii as int,
                (old(self).counts()[c_ascii as int] + 1) as usize,
            ),
    {
        proof {
            lemma_elem_le_sum(self.counts(), 0, c_ascii as int, QUALITY_BUCKETS as int);
        }
        let ghost before = self.counts();
        self.total_counts = self.total_counts + 1;
        let v = self.actual_counts[c_ascii] + 1;
        self.actual_counts.set(c_ascii, v);
        proof {
            lemma_sum_range_update(before, 0, QUALITY_BUCKETS as int, c_ascii as int, v);
        }
    }

    /// Adds the observations of `quality_count` to this histogram.
    pub fn add_quality_count(&mut self, quality_count: &QualityCount)
        requires
            old(self).wf(),
            quality_count.wf(),
            old(self).total() + quality_count.total() <= usize::MAX,
        ensures
            final(self).wf(),
            final(self).total() == old(self).total() + quality_count.total(),
            forall|i: int|
                0 <= i < QUALITY_BUCKETS ==> final(self).counts()[i] == old(self).counts()[i]
                    + quality_count.counts()[i],
    {
        let ghost a = self.counts();
        let ghost b = quality_count.counts();
        let mut i: usize = 0;
        while i < QUALITY_BUCKETS
            invariant
                self.actual_counts@.len() == QUALITY_BUCKETS,
                a.len() == QUALITY_BUCKETS,
                b.len() == QUALITY_BUCKETS,
                b == quality_count.counts(),
                self.total_counts == old(self).total(),
                seq_sum(a) + seq_sum(b) <= usize::MAX,
                seq_sum(a) == old(self).total(),
                seq_sum(b) == quality_count.total(),
                i <= QUALITY_BUCKETS,
                forall|j: int| 0 <= j < i ==> self.actual_counts@[j] == a[j] + b[j],
                forall|j: int| i <= j < QUALITY_BUCKETS ==> self.actual_counts@[j] == a[j],
            decreases QUALITY_BUCKETS - i,
        {
            proof {
                lemma_elem_le_sum(a, 0, i as int, QUALITY_BUCKETS as int);
                lemma_elem_le_sum(b, 0, i as int, QUALITY_BUCKETS as int);
                lemma_sum_range_nonneg(a, 0, QUALITY_BUCKETS as int);
                lemma_sum_range_nonneg(b, 0, QUALITY_BUCKETS as int);
            }
            let v = self.actual_counts[i] + quality_count.actual_counts[i];
            self.actual_counts.set(i, v);
            i = i + 1;
        }
        self.total_counts = self.total_counts + quality_count.total_counts;
        proof {
            lemma_sum_range_add(a, b, self.actual_counts@, 0, QUALITY_BUCKETS as int);
        }
    }

    /// The number of observations recorded.
    pub fn total_counts(&self) -> (r: usize)
        ensures
            r == self.total(),
    {
        self.total_counts
    }

    /// The lowest quality character observed, or `'\u{3e8}'` when none was.
    pub fn get_min_char(&self) -> (r: char)
        requires
            self.wf(),
        ensures
            (exists|i: int| 0 <= i < QUALITY_BUCKETS && self.counts()[i] > 0) ==> {
                &&& (r as int) < QUALITY_BUCKETS
                &&& self.counts()[r as int] > 0
                &&& forall|j: int| 0 <= j < (r as int) ==> self.counts()[j] == 0
            },
            (forall|i: int| 0 <= i < QUALITY_BUCKETS ==> self.counts()[i] == 0) ==> r == '\u{3e8}',
    {
        let mut i: usize = 0;
        while i < QUALITY_BUCKETS
            invariant
                self.wf(),
                i <= QUALITY_BUCKETS,
                forall|j: int| 0 <= j < i ==> self.counts()[j] == 0,
            decreases QUALITY_BUCKETS - i,
        {
            if self.actual_counts[i] > 0 {
                return (i as u8) as char;
            }
            i = i + 1;
        }
        '\u{3e8}'
    }

    /// The highest quality character observed, or `'\u{3e8}'` when none was.
    pub fn get_max_char(&self) -> (r: char)
        requires
            self.wf(),
        ensures
            (exists|i: int| 0 <= i < QUALITY_BUCKETS && self.counts()[i] > 0) ==> {
                &&& (r as int) < QUALITY_BUCKETS
                &&& self.counts()[r as int] > 0
                &&& forall|j: int| (r as int) < j < QUALITY_BUCKETS ==> self.counts()[j] == 0
            },
            (forall|i: int| 0 <= i < QUALITY_BUCKETS ==> self.counts()[i] == 0) ==> r == '\u{3e8}',
    {
        let mut i: usize = QUALITY_BUCKETS;
        while i > 0
            invariant
                self.wf(),
                i <= QUALITY_BUCKETS,
                forall|j: int| i <= j < QUALITY_BUCKETS ==> self.counts()[j] == 0,
            decreases i,
        {
            let idx = i - 1;
            if self.actual_counts[idx] > 0 {
                return (idx as u8) as char;
            }
            i = idx;
        }
        '\u{3e8}'
    }

    /// Mean of the Phred values (character minus `offset`) of the
    /// observations at or above `offset`, weighted by their counts, as an
    /// exact ratio; `0 / 1` when there are none.
    pub fn get_mean(&self, offset: usize) -> (r: Ratio)
        requires
            self.wf(),
        ensures
            r == weighted_mean(self.counts(), offset as int),
    {
        let (total, count) = self.mean_parts(offset);
        Ratio::of(total, count as u128)
    }

    /// The truncated mean, `mean_of`, which the per-group averages use.
    pub(crate) fn truncated_mean(&self, offset: usize) -> (r: usize)
        requires
            self.wf(),
        ensures
            r == mean_of(self.counts(), offset as int),
    {
        let (total, count) = self.mean_parts(offset);
        let ghost s = self.counts();
        if count == 0 {
            0
        } else {
            proof {
                lemma_weighted_sum_bound(s, offset as int, QUALITY_BUCKETS as int);
                let n = count as int;
                let w = total as int;
                assert(w <= 150 * n) by (nonlinear_arith)
                    requires
                        0 <= w <= (150 - offset) * n,
                        0 <= offset,
                        n > 0,
                ;
                assert(w / n <= 150) by (nonlinear_arith)
                    requires
                        0 <= w <= 150 * n,
                        n > 0,
                ;
            }
            (total / (count as u128)) as usize
        }
    }

    /// (weighted sum, number) of the observations at or above `offset`.
    fn mean_parts(&self, offset: usize) -> (r: (u128, usize))
        requires
            self.wf(),
        ensures
            r.0 == weighted_sum(self.counts(), offset as int, QUALITY_BUCKETS as int),
            r.1 == sum_range(self.counts(), offset as int, QUALITY_BUCKETS as int),
            offset < QUALITY_BUCKETS || r.1 == 0,
    {
        let ghost s = self.counts();
        let mut total: u128 = 0;
        let mut count: usize = 0;
        let mut i: usize = offset;
        if offset >= QUALITY_BUCKETS {
            assert(sum_range(s, offset as int, QUALITY_BUCKETS as int) == 0);
            assert(weighted_sum(s, offset as int, QUALITY_BUCKETS as int) == 0);
            return (0, 0);
        }
        proof {
            lemma_sum_range_split(s, 0, offset as int, QUALITY_BUCKETS as int);
            lemma_sum_range_nonneg(s, 0, offset as int);
        }
        while i < QUALITY_BUCKETS
            invariant
                self.wf(),
                s == self.counts(),
                offset <= i <= QUALITY_BUCKETS,
                total == weighted_sum(s, offset as int, i as int),
                count == sum_range(s, offset as int, i as int),
                sum_range(s, offset as int, QUALITY_BUCKETS as int) <= usize::MAX,
            decreases QUALITY_BUCKETS - i,
        {
            proof {
                lemma_sum_range_mono(s, offset as int, i as int + 1, QUALITY_BUCKETS as int);
                lemma_weighted_sum_bound(s, offset as int, i as int + 1);
                lemma_sum_range_nonneg(s, offset as int, i as int + 1);
                let n = sum_range(s, offset as int, i as int + 1);
                let k = i as int + 1 - offset as int;
                assert(k * n <= 150 * 18446744073709551615) by (nonlinear_arith)
                    requires
                        0 <= k <= 150,
                        0 <= n <= 18446744073709551615,
                ;
            }
            let c = self.actual_counts[i];
            total = total + (c as u128) * ((i - offset) as u128);
            count = count + c;
            i = i + 1;
        }
        (total, count)
    }

    /// The Phred value (character minus `offset`) of the first bucket at or
    /// above `offset` at which the cumulative count reaches `percentile`
    /// percent of all observations; zero when no bucket does.
    pub fn get_percentile(&self, offset: usize, percentile: usize) -> (r: usize)
        requires
            self.wf(),
        ensures
            r == percentile_of(self.counts(), self.total(), offset as int, percentile as int),
    {
        let ghost s = self.counts();
        proof {
            let a = self.total_counts as int;
            let b = percentile as int;
            assert(a * b <= 340282366920938463463374607431768211455) by (nonlinear_arith)
                requires
                    0 <= a <= 18446744073709551615,
                    0 <= b <= 18446744073709551615,
            ;
        }
        let threshold: u128 = ((self.total_counts as u128) * (percentile as u128)) / 100;
        let mut count: usize = 0;
        let mut i: usize = offset;
        let ghost t = percentile_threshold(self.total(), percentile as int);
        if offset >= QUALITY_BUCKETS {
            return 0;
        }
        proof {
            lemma_sum_range_split(s, 0, offset as int, QUALITY_BUCKETS as int);
            lemma_sum_range_nonneg(s, 0, offset as int);
        }
        while i < QUALITY_BUCKETS
            invariant
                self.wf(),
                s == self.counts(),
                offset <= i <= QUALITY_BUCKETS,
                threshold == t,
                t == percentile_threshold(self.total(), percentile as int),
                count == sum_range(s, offset as int, i as int),
                sum_range(s, offset as int, QUALITY_BUCKETS as int) <= usize::MAX,
                first_reaching(s, offset as int, t, offset as int) == first_reaching(
                    s,
                    offset as int,
                    t,
                    i as int,
                ),
            decreases QUALITY_BUCKETS - i,
        {
            proof {
                lemma_sum_range_mono(s, offset as int, i as int + 1, QUALITY_BUCKETS as int);
                lemma_sum_range_nonneg(s, offset as int, i as int + 1);
            }
            count = count + self.actual_counts[i];
            assert(count == sum_range(s, offset as int, i as int + 1));
            if (count as u128) >= threshold {
                assert(first_reaching(s, offset as int, t, i as int) == Some(i as int));
                assert(first_reaching(s, offset as int, t, offset as int) == Some(i as int));
                return i - offset;
            }
            i = i + 1;
        }
        0
    }
}

proof fn lemma_sum_zero(s: Seq<usize>, n: int)
    requires
        0 <= n <= s.len(),
        forall|i: int| 0 <= i < n ==> s[i] == 0,
    ensures
        sum_range(s, 0, n) == 0,
    decreases n,
{
    if n > 0 {
        lemma_sum_zero(s, n - 1);
    }
}

/// The histogram total stays equal to the sum of its buckets across any
/// number of recorded observations.
pub proof fn quality_count_total_is_sum(q: QualityCount)
    requires
        q.wf(),
    ensures
        q.total() == seq_sum(q.counts()),
{
}

/// A higher percentile never gives a lower Phred value, provided that no
/// observation lies below the encoding offset and the percentiles are at
/// most one hundred.
pub proof fn percentile_monotonic(q: QualityCount, offset: usize, p1: usize, p2: usize)
    requires
        q.wf(),
        p1 <= p2 <= 100,
        offset < QUALITY_BUCKETS,
        forall|i: int| 0 <= i < offset ==> q.counts()[i] == 0,
    ensures
        percentile_of(q.counts(), q.total(), offset as int, p1 as int) <= percentile_of(
            q.counts(),
            q.total(),
            offset as int,
            p2 as int,
        ),
{
    let s = q.counts();
    let n = QUALITY_BUCKETS as int;
    lemma_sum_range_split(s, 0, offset as int, n);
    lemma_sum_zero(s, offset as int);
    let t1 = percentile_threshold(q.total(), p1 as int);
    let t2 = percentile_threshold(q.total(), p2 as int);
    lemma_sum_range_nonneg(s, 0, n);
    assert(t1 <= t2) by (nonlinear_arith)
        requires
            t1 == (q.total() * p1) / 100,
            t2 == (q.total() * p2) / 100,
            p1 <= p2,
            q.total() >= 0,
    ;
    assert(t2 <= q.total()) by (nonlinear_arith)
        requires
            t2 == (q.total() * p2) / 100,
            p2 <= 100,
            q.total() >= 0,
    ;
    lemma_first_reaching_found(s, offset as int, t2, offset as int);
    lemma_first_reaching_mono(s, offset as int, t1, t2, offset as int);
}

/// Name and offset of a quality encoding.
#[derive(Clone, Debug)]
pub struct PhredEncoding {
    pub name: String,
    pub offset: usize,
}

impl PhredEncoding {
    /// The offset of the encoding that the lowest quality character `c`
    /// points to, or the error for it.
    pub open spec fn spec_encoding_of(c: int) -> Result<int, QcError> {
        if c < 33 {
            Err(QcError::QualityTooLow(c as usize))
        } else if c < 64 {
            Ok(SANGER_ENCODING_OFFSET as int)
        } else if c <= 126 {
            Ok(ILLUMINA_1_3_ENCODING_OFFSET as int)
        } else {
            Err(QcError::QualityTooHigh(c as usize))
        }
    }

    /// An encoding with the given name and offset.
    pub fn new(name: &str, offset: usize) -> (r: PhredEncoding)
        ensures
            r.name@ == name@,
            r.offset == offset,
    {
        PhredEncoding { name: name.to_owned(), offset }
    }

    /// The encoding that the lowest quality character `acscii_num` points to.
    pub fn get_fastq_encoding_offset(acscii_num: usize) -> (r: Result<PhredEncoding, QcError>)
        ensures
            match r {
                Ok(e) => PhredEncoding::spec_encoding_of(acscii_num as int) == Ok::<int, QcError>(
                    e.offset as int,
                ),
                Err(e) => PhredEncoding::spec_encoding_of(acscii_num as int) == Err::<int, QcError>(e),
            },
            acscii_num < 33 ==> r == Err::<PhredEncoding, QcError>(
                QcError::QualityTooLow(acscii_num),
            ),
            33 <= acscii_num < 64 ==> r is Ok && r->Ok_0.name@ == "Sanger / Illumina 1.9"@
                && r->Ok_0.offset == SANGER_ENCODING_OFFSET,
            acscii_num == ILLUMINA_1_3_ENCODING_OFFSET + 1 ==> r is Ok && r->Ok_0.name@
                == "Illumina 1.3"@ && r->Ok_0.offset == ILLUMINA_1_3_ENCODING_OFFSET,
            64 <= acscii_num <= 126 && acscii_num != ILLUMINA_1_3_ENCODING_OFFSET + 1 ==> r is Ok
                && r->Ok_0.name@ == "Illumina 1.5"@ && r->Ok_0.offset
                == ILLUMINA_1_3_ENCODING_OFFSET,
            acscii_num > 126 ==> r == Err::<PhredEncoding, QcError>(
                QcError::QualityTooHigh(acscii_num),
            ),
    {
        if acscii_num < 33 {
            Err(QcError::QualityTooLow(acscii_num))
        } else if acscii_num < 64 {
            Ok(PhredEncoding::new("Sanger / Illumina 1.9", SANGER_ENCODING_OFFSET))
        } else if acscii_num == ILLUMINA_1_3_ENCODING_OFFSET + 1 {
            Ok(PhredEncoding::new("Illumina 1.3", ILLUMINA_1_3_ENCODING_OFFSET))
        } else if acscii_num <= 126 {
            Ok(PhredEncoding::new("Illumina 1.5", ILLUMINA_1_3_ENCODING_OFFSET))
        } else {
            Err(QcError::QualityTooHigh(acscii_num))
        }
    }

    /// The encoding's name.
    pub fn name(&self) -> (r: String)
        ensures
            r@ == self.name@,
    {
        self.name.clone()
    }

    /// The encoding's offset.
    pub fn offset(&self) -> (r: usize)
        ensures
            r == self.offset,
    {
        self.offset
    }
}

} // verus!
