use vstd::prelude::*;
use crate::arith::{ratio_of, Ratio};
use crate::base_group::BaseGroup;
use crate::quality::{
    lemma_mean_of_bound, lemma_percentile_of_bound, mean_of, percentile_of, QualityCount,
    QUALITY_BUCKETS,
};

verus! {

/// Fewest observations at a position for it to count towards a percentile.
pub const MIN_PERCENTILE_OBSERVATIONS: usize = 100;

/// Bucket counts of an empty histogram.
pub open spec fn zero_counts() -> Seq<usize> {
    Seq::new(QUALITY_BUCKETS as nat, |i: int| 0usize)
}

/// Bucket counts at position `i`, empty beyond the positions held.
pub open spec fn counts_at(qs: Seq<QualityCount>, i: int) -> Seq<usize> {
    if 0 <= i < qs.len() {
        qs[i].counts()
    } else {
        zero_counts()
    }
}

/// Observations at position `i`, none beyond the positions held.
pub open spec fn total_at(qs: Seq<QualityCount>, i: int) -> int {
    if 0 <= i < qs.len() {
        qs[i].total()
    } else {
        0
    }
}

/// (sum of percentiles, number of positions) over the positions from `lo`
/// below `hi` with at least the minimum number of observations.
pub open spec fn percentile_sum(qs: Seq<QualityCount>, lo: int, hi: int, offset: int, p: int) -> (int, int)
    decreases hi - lo,
{
    if hi <= lo {
        (0, 0)
    } else {
        let prev = percentile_sum(qs, lo, hi - 1, offset, p);
        if qs[hi - 1].total() >= MIN_PERCENTILE_OBSERVATIONS {
            (prev.0 + percentile_of(qs[hi - 1].counts(), qs[hi - 1].total(), offset, p), prev.1 + 1)
        } else {
            prev
        }
    }
}

/// (sum of means, number of positions) over the positions from `lo` below
/// `hi` with at least one observation.
pub open spec fn mean_sum(qs: Seq<QualityCount>, lo: int, hi: int, offset: int) -> (int, int)
    decreases hi - lo,
{
    if hi <= lo {
        (0, 0)
    } else {
        let prev = mean_sum(qs, lo, hi - 1, offset);
        if qs[hi - 1].total() > 0 {
            (prev.0 + mean_of(qs[hi - 1].counts(), offset), prev.1 + 1)
        } else {
            prev
        }
    }
}

/// Average percentile over a group of positions (1-based, inclusive).
pub open spec fn group_percentile(qs: Seq<QualityCount>, lower: int, upper: int, offset: int, p: int) -> Ratio {
    let s = percentile_sum(qs, lower - 1, upper, offset, p);
    ratio_of(s.0, s.1)
}

/// Average mean quality over a group of positions (1-based, inclusive).
pub open spec fn group_mean(qs: Seq<QualityCount>, lower: int, upper: int, offset: int) -> Ratio {
    let s = mean_sum(qs, lower - 1, upper, offset);
    ratio_of(s.0, s.1)
}

/// `n` is `o` after one read with qualities `qual`: grown to the read's
/// length, with one more observation of `qual[i]` at each position `i`.
pub open spec fn qualities_added(o: Seq<QualityCount>, n: Seq<QualityCount>, qual: Seq<u8>) -> bool {
    &&& n.len() == if qual.len() > o.len() {
        qual.len() as int
    } else {
        o.len() as int
    }
    &&& forall|i: int| 0 <= i < n.len() ==> (#[trigger] n[i]).wf()
    &&& forall|i: int|
        0 <= i < n.len() ==> {
            &&& (#[trigger] n[i]).total() == total_at(o, i) + if i < qual.len() {
                1int
            } else {
                0int
            }
            &&& n[i].counts() == if i < qual.len() {
                counts_at(o, i).update(qual[i] as int, (counts_at(o, i)[qual[i] as int] + 1) as usize)
            } else {
                counts_at(o, i)
            }
        }
}

/// Records the quality characters of one read in per-position
/// histograms, growing them to the read's length.
pub fn add_qualities(qs: &mut Vec<QualityCount>, qual: &Vec<u8>)
    requires
        forall|i: int| 0 <= i < old(qs)@.len() ==> (#[trigger] old(qs)@[i]).wf(),
        forall|i: int| 0 <= i < qual@.len() ==> qual@[i] < QUALITY_BUCKETS,
        forall|i: int|
            0 <= i < old(qs)@.len() ==> (#[trigger] old(qs)@[i]).total()
                < usize::MAX,
    ensures
        forall|i: int| 0 <= i < final(qs)@.len() ==> (#[trigger] final(qs)@[i]).wf(),
        final(qs)@.len() == if qual@.len() > old(qs)@.len() {
            qual@.len() as int
        } else {
            old(qs)@.len() as int
        },
        forall|i: int|
            0 <= i < final(qs)@.len() ==> {
                &&& (#[trigger] final(qs)@[i]).total() == total_at(old(qs)@, i) + if i
                    < qual@.len() {
                    1int
                } else {
                    0int
                }
                &&& final(qs)@[i].counts() == if i < qual@.len() {
                    counts_at(old(qs)@, i).update(
                        qual@[i] as int,
                        (counts_at(old(qs)@, i)[qual@[i] as int] + 1) as usize,
                    )
                } else {
                    counts_at(old(qs)@, i)
                }
            },
{
    let ghost old_qs = qs@;
    let qual_len = qual.len();
    while qs.len() < qual_len
        invariant
            forall|k: int| 0 <= k < qs@.len() ==> (#[trigger] qs@[k]).wf(),
            old_qs.len() <= qs@.len() <= if qual_len > old_qs.len() {
                qual_len as int
            } else {
                old_qs.len() as int
            },
            qual_len == qual@.len(),
            forall|i: int|
                0 <= i < qs@.len() ==> (#[trigger] qs@[i]).counts()
                    == counts_at(old_qs, i) && qs@[i].total() == total_at(old_qs, i),
        decreases qual_len - qs@.len(),
    {
        qs.push(QualityCount::new());
    }
    let mut i: usize = 0;
    while i < qual_len
        invariant
            forall|k: int| 0 <= k < qs@.len() ==> (#[trigger] qs@[k]).wf(),
            qual_len == qual@.len(),
            i <= qual_len <= qs@.len(),
            qs@.len() == if qual_len > old_qs.len() {
                qual_len as int
            } else {
                old_qs.len() as int
            },
            forall|k: int| 0 <= k < qual@.len() ==> qual@[k] < QUALITY_BUCKETS,
            forall|k: int|
                0 <= k < old_qs.len() ==> (#[trigger] old_qs[k]).total() < usize::MAX,
            forall|k: int|
                0 <= k < qs@.len() ==> {
                    &&& (#[trigger] qs@[k]).total() == total_at(old_qs, k) + if k
                        < i {
                        1int
                    } else {
                        0int
                    }
                    &&& qs@[k].counts() == if k < i {
                        counts_at(old_qs, k).update(
                            qual@[k] as int,
                            (counts_at(old_qs, k)[qual@[k] as int] + 1) as usize,
                        )
                    } else {
                        counts_at(old_qs, k)
                    }
                },
        decreases qual_len - i,
    {
        assert(qs@[i as int].total() == total_at(old_qs, i as int));
        qs[i].add_value(qual[i] as usize);
        i = i + 1;
    }
}

/// Per-position quality histograms, and per group of positions the mean,
/// median, quartiles and 10th / 90th percentiles of quality.
#[derive(Clone, Debug)]
pub struct PerBaseSeqQuality {
    quality_counts: Vec<QualityCount>,
    base_pos: Vec<usize>,
    mean: Vec<Ratio>,
    median: Vec<Ratio>,
    lower_quartile: Vec<Ratio>,
    upper_quartile: Vec<Ratio>,
    lowest: Vec<Ratio>,
    highest: Vec<Ratio>,
    xlabels: Vec<String>,
}

impl PerBaseSeqQuality {
    pub closed spec fn counts(&self) -> Seq<QualityCount> {
        self.quality_counts@
    }

    pub closed spec fn spec_mean(&self) -> Seq<Ratio> {
        self.mean@
    }

    pub closed spec fn spec_median(&self) -> Seq<Ratio> {
        self.median@
    }

    pub closed spec fn spec_lower_quartile(&self) -> Seq<Ratio> {
        self.lower_quartile@
    }

    pub closed spec fn spec_upper_quartile(&self) -> Seq<Ratio> {
        self.upper_quartile@
    }

    pub closed spec fn spec_lowest(&self) -> Seq<Ratio> {
        self.lowest@
    }

    pub closed spec fn spec_highest(&self) -> Seq<Ratio> {
        self.highest@
    }

    pub closed spec fn spec_labels(&self) -> Seq<Seq<char>> {
        self.xlabels@.map_values(|s: String| s@)
    }

    /// The report holds, per group of `groups`, the statistics of the
    /// histograms for characters read with `offset`.
    pub open spec fn report_is(&self, groups: Seq<BaseGroup>, offset: int) -> bool {
        let qs = self.counts();
        &&& self.spec_mean().len() == groups.len()
        &&& self.spec_median().len() == groups.len()
        &&& self.spec_lowest().len() == groups.len()
        &&& self.spec_highest().len() == groups.len()
        &&& self.spec_lower_quartile().len() == groups.len()
        &&& self.spec_upper_quartile().len() == groups.len()
        &&& self.spec_labels() == groups.map_values(|g: BaseGroup| g.name@)
        &&& forall|g: int|
            0 <= g < groups.len() ==> {
                let lo = (#[trigger] groups[g]).lower_count as int;
                let hi = groups[g].upper_count as int;
                &&& self.spec_lowest()[g] == group_percentile(qs, lo, hi, offset, 10)
                &&& self.spec_highest()[g] == group_percentile(qs, lo, hi, offset, 90)
                &&& self.spec_median()[g] == group_percentile(qs, lo, hi, offset, 50)
                &&& self.spec_lower_quartile()[g] == group_percentile(qs, lo, hi, offset, 25)
                &&& self.spec_upper_quartile()[g] == group_percentile(qs, lo, hi, offset, 75)
                &&& self.spec_mean()[g] == group_mean(qs, lo, hi, offset)
            }
    }

    /// Every position's histogram is well formed.
    pub open spec fn wf(&self) -> bool {
        forall|i: int| 0 <= i < self.counts().len() ==> (#[trigger] self.counts()[i]).wf()
    }

    /// No histograms and no report.
    pub fn new() -> (r: PerBaseSeqQuality)
        ensures
            r.wf(),
            r.counts().len() == 0,
            r.spec_mean().len() == 0,
    {
        PerBaseSeqQuality {
            quality_counts: Vec::new(),
            base_pos: Vec::new(),
            mean: Vec::new(),
            median: Vec::new(),
            lower_quartile: Vec::new(),
            upper_quartile: Vec::new(),
            lowest: Vec::new(),
            highest: Vec::new(),
            xlabels: Vec::new(),
        }
    }

    /// Per group, the average mean quality.
    pub fn mean(&self) -> (r: &Vec<Ratio>)
        ensures
            r@ == self.spec_mean(),
    {
        &self.mean
    }

    /// Per group, the average median quality.
    pub fn median(&self) -> (r: &Vec<Ratio>)
        ensures
            r@ == self.spec_median(),
    {
        &self.median
    }

    /// Per group, the average 25th percentile.
    pub fn lower_quartile(&self) -> (r: &Vec<Ratio>)
        ensures
            r@ == self.spec_lower_quartile(),
    {
        &self.lower_quartile
    }

    /// Per group, the average 75th percentile.
    pub fn upper_quartile(&self) -> (r: &Vec<Ratio>)
        ensures
            r@ == self.spec_upper_quartile(),
    {
        &self.upper_quartile
    }

    /// Per group, the average 10th percentile.
    pub fn lowest(&self) -> (r: &Vec<Ratio>)
        ensures
            r@ == self.spec_lowest(),
    {
        &self.lowest
    }

    /// Per group, the average 90th percentile.
    pub fn highest(&self) -> (r: &Vec<Ratio>)
        ensures
            r@ == self.spec_highest(),
    {
        &self.highest
    }

    /// The group labels.
    pub fn xlabels(&self) -> (r: &Vec<String>)
        ensures
            r@.map_values(|s: String| s@) == self.spec_labels(),
    {
        &self.xlabels
    }

    /// The per-position histograms.
    pub fn quality_counts(&self) -> (r: &Vec<QualityCount>)
        ensures
            r@ == self.counts(),
    {
        &self.quality_counts
    }

    /// What one call of `process_qual` does, from `o` to `n`.
    pub open spec fn processed_qual(o: Self, n: Self, qual: Vec<u8>) -> bool {
        &&& (n.counts().len() == if qual@.len() > o.counts().len() {
                qual@.len() as int
            } else {
                o.counts().len() as int
            })
        &&& (forall|i: int|
                0 <= i < n.counts().len() ==> {
                    &&& (#[trigger] n.counts()[i]).total() == total_at(o.counts(), i) + if i
                        < qual@.len() {
                        1int
                    } else {
                        0int
                    }
                    &&& n.counts()[i].counts() == if i < qual@.len() {
                        counts_at(o.counts(), i).update(
                            qual@[i] as int,
                            (counts_at(o.counts(), i)[qual@[i] as int] + 1) as usize,
                        )
                    } else {
                        counts_at(o.counts(), i)
                    }
                })
    }

    /// Records the quality characters of one read, position by position,
    /// growing the histograms to the read's length.
    pub fn process_qual(&mut self, qual: &Vec<u8>)
        requires
            old(self).wf(),
            forall|i: int| 0 <= i < qual@.len() ==> qual@[i] < QUALITY_BUCKETS,
            forall|i: int|
                0 <= i < old(self).counts().len() ==> (#[trigger] old(self).counts()[i]).total()
                    < usize::MAX,
        ensures
            final(self).wf(),
            Self::processed_qual(*old(self), *final(self), *qual),
    {
        add_qualities(&mut self.quality_counts, qual);
    }

    /// Adds histograms position by position, growing to the longer of the two.
    pub fn add_quality_counts(&mut self, quality_counts: &Vec<QualityCount>)
        requires
            old(self).wf(),
            forall|i: int| 0 <= i < quality_counts@.len() ==> (#[trigger] quality_counts@[i]).wf(),
            forall|i: int|
                0 <= i < quality_counts@.len() ==> total_at(old(self).counts(), i) + (
                #[trigger] quality_counts@[i]).total() <= usize::MAX,
        ensures
            final(self).wf(),
            final(self).counts().len() == if quality_counts@.len() > old(self).counts().len() {
                quality_counts@.len() as int
            } else {
                old(self).counts().len() as int
            },
            forall|i: int|
                0 <= i < final(self).counts().len() ==> {
                    &&& (#[trigger] final(self).counts()[i]).total() == total_at(old(self).counts(), i)
                        + total_at(quality_counts@, i)
                    &&& forall|b: int|
                        0 <= b < QUALITY_BUCKETS ==> final(self).counts()[i].counts()[b]
                            == counts_at(old(self).counts(), i)[b] + counts_at(
                            quality_counts@,
                            i,
                        )[b]
                },
    {
        let ghost old_qs = self.counts();
        let other_len = quality_counts.len();
        while self.quality_counts.len() < other_len
            invariant
                self.wf(),
                old_qs.len() <= self.counts().len() <= if other_len > old_qs.len() {
                    other_len as int
                } else {
                    old_qs.len() as int
                },
                other_len == quality_counts@.len(),
                forall|i: int|
                    0 <= i < self.counts().len() ==> (#[trigger] self.counts()[i]).counts()
                        == counts_at(old_qs, i) && self.counts()[i].total() == total_at(old_qs, i),
            decreases other_len - self.counts().len(),
        {
            self.quality_counts.push(QualityCount::new());
        }
        let mut i: usize = 0;
        while i < other_len
            invariant
                self.wf(),
                other_len == quality_counts@.len(),
                i <= other_len <= self.counts().len(),
                self.counts().len() == if other_len > old_qs.len() {
                    other_len as int
                } else {
                    old_qs.len() as int
                },
                forall|k: int| 0 <= k < quality_counts@.len() ==> (#[trigger] quality_counts@[k]).wf(),
                forall|k: int|
                    0 <= k < quality_counts@.len() ==> total_at(old_qs, k) + (
                    #[trigger] quality_counts@[k]).total() <= usize::MAX,
                forall|k: int|
                    0 <= k < self.counts().len() ==> {
                        &&& (#[trigger] self.counts()[k]).total() == total_at(old_qs, k) + if k < i {
                            total_at(quality_counts@, k)
                        } else {
                            0
                        }
                        &&& forall|b: int|
                            0 <= b < QUALITY_BUCKETS ==> self.counts()[k].counts()[b] == counts_at(
                                old_qs,
                                k,
                            )[b] + if k < i {
                                counts_at(quality_counts@, k)[b]
                            } else {
                                0
                            }
                    },
            decreases other_len - i,
        {
            assert(self.counts()[i as int].total() == total_at(old_qs, i as int));
            self.quality_counts[i].add_quality_count(&quality_counts[i]);
            i = i + 1;
        }
    }

    /// Fills the report for quality characters read with `offset`: per group
    /// of positions, the averages over its positions of the 10th, 25th,
    /// 50th, 75th and 90th percentiles (positions with at least 100
    /// observations) and of the mean (positions with any observation).
    pub fn get_percentages(&mut self, offset: usize)
        requires
            old(self).wf(),
            old(self).counts().len() <= usize::MAX / 8,
        ensures
            final(self).wf(),
            final(self).counts() == old(self).counts(),
            exists|groups: Seq<BaseGroup>|
                BaseGroup::are_base_groups(groups, old(self).counts().len() as int)
                    && #[trigger] final(self).report_is(groups, offset as int),
    {
        let groups = BaseGroup::make_base_groups(self.quality_counts.len());
        let length = groups.len();
        let mut base_pos: Vec<usize> = Vec::new();
        let mut mean: Vec<Ratio> = Vec::new();
        let mut median: Vec<Ratio> = Vec::new();
        let mut lowest: Vec<Ratio> = Vec::new();
        let mut highest: Vec<Ratio> = Vec::new();
        let mut lower_quartile: Vec<Ratio> = Vec::new();
        let mut upper_quartile: Vec<Ratio> = Vec::new();
        let mut xlabels: Vec<String> = Vec::new();
        proof {
            BaseGroup::lemma_groups_in_range(groups@, self.counts().len() as int);
        }
        let mut i: usize = 0;
        while i < length
            invariant
                self.wf(),
                length == groups@.len(),
                BaseGroup::are_base_groups(groups@, self.counts().len() as int),
                i <= length,
                base_pos@.len() == i,
                mean@.len() == i,
                median@.len() == i,
                lowest@.len() == i,
                highest@.len() == i,
                lower_quartile@.len() == i,
                upper_quartile@.len() == i,
                xlabels@.len() == i,
                forall|g: int|
                    0 <= g < i ==> {
                        let lo = groups@[g].lower_count as int;
                        let hi = groups@[g].upper_count as int;
                        let qs = self.counts();
                        &&& #[trigger] lowest@[g] == group_percentile(qs, lo, hi, offset as int, 10)
                        &&& highest@[g] == group_percentile(qs, lo, hi, offset as int, 90)
                        &&& median@[g] == group_percentile(qs, lo, hi, offset as int, 50)
                        &&& lower_quartile@[g] == group_percentile(qs, lo, hi, offset as int, 25)
                        &&& upper_quartile@[g] == group_percentile(qs, lo, hi, offset as int, 75)
                        &&& mean@[g] == group_mean(qs, lo, hi, offset as int)
                    },
                forall|g: int| 0 <= g < i ==> (#[trigger] xlabels@[g])@ == groups@[g].name@,
            decreases length - i,
        {
            let min_base = groups[i].lower_count;
            let max_base = groups[i].upper_count;
            proof {
                BaseGroup::lemma_groups_in_range(groups@, self.counts().len() as int);
            }
            xlabels.push(groups[i].name.clone());
            base_pos.push(i + 1);
            lowest.push(self.get_percentile(min_base, max_base, offset, 10));
            highest.push(self.get_percentile(min_base, max_base, offset, 90));
            mean.push(self.get_mean(min_base, max_base, offset));
            median.push(self.get_percentile(min_base, max_base, offset, 50));
            lower_quartile.push(self.get_percentile(min_base, max_base, offset, 25));
            upper_quartile.push(self.get_percentile(min_base, max_base, offset, 75));
            i = i + 1;
        }
        self.base_pos = base_pos;
        self.mean = mean;
        self.median = median;
        self.lowest = lowest;
        self.highest = highest;
        self.lower_quartile = lower_quartile;
        self.upper_quartile = upper_quartile;
        self.xlabels = xlabels;
        assert(self.spec_labels() =~= groups@.map_values(|g: BaseGroup| g.name@));
        assert forall|g: int| 0 <= g < groups@.len() implies {
            let lo = (#[trigger] groups@[g]).lower_count as int;
            let hi = groups@[g].upper_count as int;
            let qs = self.counts();
            &&& self.spec_lowest()[g] == group_percentile(qs, lo, hi, offset as int, 10)
            &&& self.spec_highest()[g] == group_percentile(qs, lo, hi, offset as int, 90)
            &&& self.spec_median()[g] == group_percentile(qs, lo, hi, offset as int, 50)
            &&& self.spec_lower_quartile()[g] == group_percentile(qs, lo, hi, offset as int, 25)
            &&& self.spec_upper_quartile()[g] == group_percentile(qs, lo, hi, offset as int, 75)
            &&& self.spec_mean()[g] == group_mean(qs, lo, hi, offset as int)
        } by {
            assert(self.lowest@[g] == group_percentile(
                self.counts(),
                groups@[g].lower_count as int,
                groups@[g].upper_count as int,
                offset as int,
                10,
            ));
        }
        assert(self.report_is(groups@, offset as int));
    }

    fn get_percentile(&self, minbp: usize, maxbp: usize, offset: usize, percentile: usize) -> (r: Ratio)
        requires
            self.wf(),
            1 <= minbp,
            maxbp <= self.counts().len(),
        ensures
            r == group_percentile(self.counts(), minbp as int, maxbp as int, offset as int, percentile as int),
    {
        let mut count: u128 = 0;
        let mut total: u128 = 0;
        let mut i: usize = minbp - 1;
        if i >= maxbp {
            return Ratio::of(0, 0);
        }
        while i < maxbp
            invariant
                self.wf(),
                1 <= minbp <= i + 1,
                i <= maxbp <= self.counts().len(),
                (total as int, count as int) == percentile_sum(self.counts(), minbp - 1, i as int, offset as int, percentile as int),
                count <= i,
                total <= 150 * i,
            decreases maxbp - i,
        {
            if self.quality_counts[i].total_counts() >= MIN_PERCENTILE_OBSERVATIONS {
                let p = self.quality_counts[i].get_percentile(offset, percentile);
                proof {
                    let q = self.counts()[i as int];
                    lemma_percentile_of_bound(q.counts(), q.total(), offset as int, percentile as int);
                }
                count = count + 1;
                total = total + p as u128;
            }
            i = i + 1;
        }
        Ratio::of(total, count)
    }

    fn get_mean(&self, minbp: usize, maxbp: usize, offset: usize) -> (r: Ratio)
        requires
            self.wf(),
            1 <= minbp,
            maxbp <= self.counts().len(),
        ensures
            r == group_mean(self.counts(), minbp as int, maxbp as int, offset as int),
    {
        let mut count: u128 = 0;
        let mut total: u128 = 0;
        let mut i: usize = minbp - 1;
        if i >= maxbp {
            return Ratio::of(0, 0);
        }
        while i < maxbp
            invariant
                self.wf(),
                1 <= minbp <= i + 1,
                i <= maxbp <= self.counts().len(),
                (total as int, count as int) == mean_sum(self.counts(), minbp - 1, i as int, offset as int),
                count <= i,
                total <= 150 * i,
            decreases maxbp - i,
        {
            if self.quality_counts[i].total_counts() > 0 {
                let m = self.quality_counts[i].truncated_mean(offset);
                proof {
                    lemma_mean_of_bound(self.counts()[i as int].counts(), offset as int);
                }
                count = count + 1;
                total = total + m as u128;
            }
            i = i + 1;
        }
        Ratio::of(total, count)
    }
}

} // verus!
