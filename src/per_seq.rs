use vstd::prelude::*;
use crate::quality::{PhredEncoding, QcError};
use crate::record::SeqRecord;

verus! {

/// Number of distinct truncated mean qualities a read can have.
pub const SCORE_SLOTS: usize = 256;

/// Sum of the first `n` bytes of `s`.
pub open spec fn byte_sum(s: Seq<u8>, n: int) -> int
    decreases n,
{
    if n <= 0 {
        0
    } else {
        byte_sum(s, n - 1) + s[n - 1]
    }
}

/// Smallest of the first `n` bytes of `s`, or `init` when it is smaller.
pub open spec fn byte_min(s: Seq<u8>, n: int, init: int) -> int
    decreases n,
{
    if n <= 0 {
        init
    } else {
        let m = byte_min(s, n - 1, init);
        if (s[n - 1] as int) < m {
            s[n - 1] as int
        } else {
            m
        }
    }
}

/// Largest of the first `n` bytes of `s`, or `init` when it is larger.
pub open spec fn byte_max(s: Seq<u8>, n: int, init: int) -> int
    decreases n,
{
    if n <= 0 {
        init
    } else {
        let m = byte_max(s, n - 1, init);
        if (s[n - 1] as int) > m {
            s[n - 1] as int
        } else {
            m
        }
    }
}

/// Truncated mean of the bytes of a non-empty `s`.
pub open spec fn mean_quality(s: Seq<u8>) -> int {
    byte_sum(s, s.len() as int) / (s.len() as int)
}

proof fn lemma_byte_sum_bounds(s: Seq<u8>, n: int, init: int)
    requires
        0 <= n <= s.len(),
        init >= 0,
    ensures
        0 <= byte_sum(s, n) <= 255 * n,
        byte_sum(s, n) >= n * byte_min(s, n, init) || n == 0,
        byte_min(s, n, init) <= init,
        byte_min(s, n, init) >= 0,
    decreases n,
{
    if n > 0 {
        lemma_byte_sum_bounds(s, n - 1, init);
        let m = byte_min(s, n, init);
        let pm = byte_min(s, n - 1, init);
        assert(m <= pm);
        if n - 1 > 0 {
            assert((n - 1) * pm >= (n - 1) * m) by (nonlinear_arith)
                requires
                    m <= pm,
                    n - 1 >= 0,
            ;
        } else {
            assert((n - 1) * m == 0) by (nonlinear_arith)
                requires
                    n == 1,
            ;
        }
        assert(n * m == (n - 1) * m + m) by (nonlinear_arith);
    }
}

/// The smallest byte is at least any bound that `init` and every byte meet.
pub proof fn lemma_byte_min_ge(s: Seq<u8>, n: int, init: int, x: int)
    requires
        0 <= n <= s.len(),
        init >= x,
        forall|i: int| 0 <= i < n ==> s[i] >= x,
    ensures
        byte_min(s, n, init) >= x,
    decreases n,
{
    if n > 0 {
        lemma_byte_min_ge(s, n - 1, init, x);
    }
}

/// A read's mean quality lies between its lowest quality and the slot count.
pub proof fn lemma_mean_at_least_min(s: Seq<u8>, init: int)
    requires
        s.len() > 0,
        init >= 0,
    ensures
        byte_min(s, s.len() as int, init) <= mean_quality(s) < SCORE_SLOTS,
        0 <= mean_quality(s),
{
    let n = s.len() as int;
    lemma_byte_sum_bounds(s, n, init);
    let m = byte_min(s, n, init);
    let t = byte_sum(s, n);
    assert(m <= t / n) by (nonlinear_arith)
        requires
            t >= n * m,
            n > 0,
    ;
    assert(t / n <= 255) by (nonlinear_arith)
        requires
            0 <= t <= 255 * n,
            n > 0,
    ;
}

/// Number of reads per truncated mean quality, and the distribution over
/// Phred scores with its most frequent score.
#[derive(Clone, Debug)]
pub struct PerSeqQualityScore {
    average_score_counts: Vec<usize>,
    y_category_count: Vec<usize>,
    x_category_quality: Vec<usize>,
    max_counts: usize,
    most_frequent_score: usize,
    lowest_char: usize,
}

/// The distribution of `counts` from its first to its last non-empty
/// slot, and the Phred scores of those slots read with `offset`, with the
/// first most frequent score and its count.
pub open spec fn distribution_is(
    counts: Seq<usize>,
    offset: int,
    y: Seq<usize>,
    x: Seq<usize>,
    max_counts: int,
    most_frequent: int,
) -> bool {
    &&& (forall|i: int| 0 <= i < counts.len() ==> counts[i] == 0) ==> {
        &&& y.len() == 0
        &&& x.len() == 0
        &&& max_counts == 0
        &&& most_frequent == 0
    }
    &&& (exists|i: int| 0 <= i < counts.len() && counts[i] > 0) ==> exists|lo: int, hi: int, m: int|
        distribution_from(counts, offset, y, x, max_counts, most_frequent, lo, hi, m)
}

/// The distribution spans the slots `lo..=hi`, the first and last that are
/// not empty, and its first most frequent entry is at `m`.
pub open spec fn distribution_from(
    counts: Seq<usize>,
    offset: int,
    y: Seq<usize>,
    x: Seq<usize>,
    max_counts: int,
    most_frequent: int,
    lo: int,
    hi: int,
    m: int,
) -> bool {
    &&& 0 <= lo <= hi < counts.len()
    &&& counts[lo] > 0
    &&& counts[hi] > 0
    &&& forall|j: int| 0 <= j < lo ==> counts[j] == 0
    &&& forall|j: int| hi < j < counts.len() ==> counts[j] == 0
    &&& y == counts.subrange(lo, hi + 1)
    &&& x.len() == y.len()
    &&& forall|j: int| 0 <= j < x.len() ==> #[trigger] x[j] == lo + j - offset
    &&& 0 <= m < y.len()
    &&& max_counts == y[m]
    &&& most_frequent == x[m]
    &&& forall|j: int| 0 <= j < y.len() ==> y[j] <= y[m]
    &&& forall|j: int| 0 <= j < m ==> y[j] < y[m]
}

impl PerSeqQualityScore {
    pub closed spec fn spec_counts(&self) -> Seq<usize> {
        self.average_score_counts@
    }

    pub closed spec fn spec_lowest_char(&self) -> int {
        self.lowest_char as int
    }

    pub closed spec fn spec_y(&self) -> Seq<usize> {
        self.y_category_count@
    }

    pub closed spec fn spec_x(&self) -> Seq<usize> {
        self.x_category_quality@
    }

    pub closed spec fn spec_max_counts(&self) -> int {
        self.max_counts as int
    }

    pub closed spec fn spec_most_frequent_score(&self) -> int {
        self.most_frequent_score as int
    }

    /// Number of reads per score of the distribution.
    pub fn y_category_count(&self) -> (r: &Vec<usize>)
        ensures
            r@ == self.spec_y(),
    {
        &self.y_category_count
    }

    /// The Phred scores of the distribution.
    pub fn x_category_quality(&self) -> (r: &Vec<usize>)
        ensures
            r@ == self.spec_x(),
    {
        &self.x_category_quality
    }

    /// Count of the most frequent score.
    pub fn max_counts(&self) -> (r: usize)
        ensures
            r == self.spec_max_counts(),
    {
        self.max_counts
    }

    /// The most frequent score.
    pub fn most_frequent_score(&self) -> (r: usize)
        ensures
            r == self.spec_most_frequent_score(),
    {
        self.most_frequent_score
    }

    /// Lowest quality character seen.
    pub fn lowest_char(&self) -> (r: usize)
        ensures
            r == self.spec_lowest_char(),
    {
        self.lowest_char
    }

    /// The lowest quality character is a natural number.
    pub proof fn lemma_nonneg(&self)
        ensures
            self.spec_lowest_char() >= 0,
    {
    }

    /// One slot per mean quality, and no read has a mean below the lowest
    /// quality character seen.
    pub open spec fn wf(&self) -> bool {
        &&& self.spec_counts().len() == SCORE_SLOTS
        &&& self.spec_lowest_char() <= 126
        &&& forall|i: int| 0 <= i < self.spec_lowest_char() ==> self.spec_counts()[i] == 0
    }

    /// No reads seen.
    pub fn new() -> (r: PerSeqQualityScore)
        ensures
            r.wf(),
            r.spec_counts() == Seq::new(SCORE_SLOTS as nat, |i: int| 0usize),
            r.spec_lowest_char() == 126,
    {
        let r = PerSeqQualityScore {
            average_score_counts: vec![0usize; SCORE_SLOTS],
            y_category_count: Vec::new(),
            x_category_quality: Vec::new(),
            max_counts: 0,
            most_frequent_score: 0,
            lowest_char: 126,
        };
        assert(r.spec_counts() =~= Seq::new(SCORE_SLOTS as nat, |i: int| 0usize));
        r
    }

    /// What one call of `process_sequence` does, from `o` to `n`.
    pub open spec fn processed(o: Self, n: Self, record: SeqRecord) -> bool {
        &&& (n.spec_lowest_char() == byte_min(
                record.qual@,
                record.qual@.len() as int,
                o.spec_lowest_char()
            ))
        &&& (n.spec_counts() == if record.qual@.len() > 0 {
                o.spec_counts().update(
                    mean_quality(record.qual@),
                    (o.spec_counts()[mean_quality(record.qual@)] + 1) as usize,
                )
            } else {
                o.spec_counts()
            })
    }

    /// Counts one read under its truncated mean quality character, and
    /// lowers the lowest quality character seen; a read without qualities
    /// only takes part in the latter.
    pub fn process_sequence(&mut self, record: &SeqRecord)
        requires
            old(self).wf(),
            record.qual@.len() > 0 ==> old(self).spec_counts()[mean_quality(record.qual@)] < usize::MAX,
        ensures
            final(self).wf(),
            Self::processed(*old(self), *final(self), *record),
    {
        let qual = &record.qual;
        let n = qual.len();
        let mut total: u128 = 0;
        let mut lowest: usize = self.lowest_char;
        let mut i: usize = 0;
        while i < n
            invariant
                n == qual@.len(),
                i <= n,
                total == byte_sum(qual@, i as int),
                lowest == byte_min(qual@, i as int, old(self).spec_lowest_char()),
                total <= 255 * i,
            decreases n - i,
        {
            proof {
                lemma_byte_sum_bounds(qual@, i as int, old(self).spec_lowest_char());
            }
            let c = qual[i] as usize;
            if c < lowest {
                lowest = c;
            }
            total = total + qual[i] as u128;
            i = i + 1;
        }
        proof {
            lemma_byte_sum_bounds(qual@, n as int, old(self).spec_lowest_char());
        }
        self.lowest_char = lowest;
        if n > 0 {
            proof {
                lemma_mean_at_least_min(qual@, old(self).spec_lowest_char());
            }
            let average = (total / (n as u128)) as usize;
            let v = self.average_score_counts[average] + 1;
            self.average_score_counts.set(average, v);
        }
    }

    /// Fills the distribution of mean Phred scores, with the encoding that
    /// the lowest quality character seen points to; fails when it points to
    /// none.
    pub fn calculate_distribution(&mut self) -> (r: Result<(), QcError>)
        requires
            old(self).wf(),
        ensures
            final(self).wf(),
            final(self).spec_counts() == old(self).spec_counts(),
            final(self).spec_lowest_char() == old(self).spec_lowest_char(),
            r is Err <==> old(self).spec_lowest_char() < 33,
            r is Err ==> r == Err::<(), QcError>(QcError::QualityTooLow(old(self).spec_lowest_char() as usize)),
            r is Ok ==> distribution_is(
                old(self).spec_counts(),
                if old(self).spec_lowest_char() < 64 {
                    32int
                } else {
                    64int
                },
                final(self).spec_y(),
                final(self).spec_x(),
                final(self).spec_max_counts(),
                final(self).spec_most_frequent_score(),
            ),
    {
        let encoding = match PhredEncoding::get_fastq_encoding_offset(self.lowest_char) {
            Ok(e) => e,
            Err(e) => {
                return Err(e);
            },
        };
        let offset = encoding.offset;
        let ghost counts = self.spec_counts();
        let mut lo: usize = 0;
        while lo < SCORE_SLOTS && self.average_score_counts[lo] == 0
            invariant
                self.wf(),
                counts == self.spec_counts(),
                lo <= SCORE_SLOTS,
                forall|j: int| 0 <= j < lo ==> counts[j] == 0,
            decreases SCORE_SLOTS - lo,
        {
            lo = lo + 1;
        }
        self.max_counts = 0;
        self.most_frequent_score = 0;
        if lo == SCORE_SLOTS {
            self.y_category_count = Vec::new();
            self.x_category_quality = Vec::new();
            assert(distribution_is(counts, offset as int, self.spec_y(), self.spec_x(), 0, 0));
            return Ok(());
        }
        let mut hi: usize = SCORE_SLOTS - 1;
        while self.average_score_counts[hi] == 0
            invariant
                self.wf(),
                counts == self.spec_counts(),
                lo <= hi < SCORE_SLOTS,
                counts[lo as int] > 0,
                forall|j: int| hi < j < SCORE_SLOTS ==> counts[j] == 0,
            decreases hi,
        {
            hi = hi - 1;
        }
        assert(lo >= self.lowest_char);
        assert(offset <= self.lowest_char);
        let mut y: Vec<usize> = Vec::new();
        let mut x: Vec<usize> = Vec::new();
        let mut max_counts: usize = 0;
        let mut most_frequent: usize = 0;
        let ghost mut m: int = 0;
        let mut k: usize = lo;
        while k <= hi
            invariant
                self.wf(),
                counts == self.spec_counts(),
                lo <= k <= hi + 1,
                hi < SCORE_SLOTS,
                offset <= lo,
                counts[lo as int] > 0,
                y@ == counts.subrange(lo as int, k as int),
                x@.len() == y@.len(),
                forall|j: int| 0 <= j < x@.len() ==> #[trigger] x@[j] == lo + j - offset,
                k > lo ==> {
                    &&& 0 <= m < y@.len()
                    &&& max_counts == y@[m]
                    &&& most_frequent == x@[m]
                    &&& forall|j: int| 0 <= j < y@.len() ==> y@[j] <= y@[m]
                    &&& forall|j: int| 0 <= j < m ==> y@[j] < y@[m]
                },
                k == lo ==> max_counts == 0,
            decreases hi + 1 - k,
        {
            let c = self.average_score_counts[k];
            y.push(c);
            x.push(k - offset);
            if c > max_counts {
                max_counts = c;
                most_frequent = k - offset;
                proof {
                    m = (k - lo) as int;
                }
            }
            k = k + 1;
            assert(y@ =~= counts.subrange(lo as int, k as int));
        }
        self.y_category_count = y;
        self.x_category_quality = x;
        self.max_counts = max_counts;
        self.most_frequent_score = most_frequent;
        assert(distribution_from(
            counts,
            offset as int,
            y@,
            x@,
            max_counts as int,
            most_frequent as int,
            lo as int,
            hi as int,
            m,
        ));
        Ok(())
    }
}

} // verus!
