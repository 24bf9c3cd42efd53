use vstd::prelude::*;
use crate::arith::{lemma_sum_range_le, lemma_sum_range_nonneg, lemma_sum_range_split, seq_sum, sum_range, lemma_sum_range_update};
use crate::base_group::pow10;
use crate::text::decimal;
use crate::record::SeqRecord;
use crate::text::{format_number, format_number_range};

verus! {

/// Longest read length the distribution is kept for.
pub const MAX_TRACKED_LENGTH: usize = 0x1000_0000;

/// The `j`-th candidate width of a length category: 1, 2, 5, 10, 20, ...
pub open spec fn size_candidate(j: nat) -> int {
    let base = if j % 3 == 0 {
        1int
    } else if j % 3 == 1 {
        2int
    } else {
        5int
    };
    base * pow10(j / 3)
}

/// `interval` is the first candidate width that cuts `min..=max` into at
/// most 50 widths.
pub open spec fn is_size_interval(min: int, max: int, interval: int) -> bool {
    exists|j: nat|
        {
            &&& interval == size_candidate(j)
            &&& (max - min) / interval <= 50
            &&& forall|i: nat| i < j ==> (max - min) / size_candidate(i) > 50
        }
}

/// `min` rounded to the nearest multiple of `interval`, halves up.
pub open spec fn rounded_start(min: int, interval: int) -> int {
    ((2 * min + interval) / (2 * interval)) * interval
}

/// Number of categories of width `interval` from `start` that begin at or
/// before `max`.
pub open spec fn category_count(start: int, interval: int, max: int) -> int {
    if start > max {
        0
    } else {
        (max - start) / interval + 1
    }
}

/// Reads counted in category `i`: lengths from `start + i * interval` to the
/// category's end or `max`, whichever is first.
pub open spec fn category_sum(counts: Seq<usize>, start: int, interval: int, max: int, i: int) -> int {
    let lo = start + interval * i;
    let e = lo + interval - 1;
    let hi = if e > max {
        max
    } else {
        e
    };
    let top = if hi + 1 < counts.len() {
        hi + 1
    } else {
        counts.len() as int
    };
    if lo < top {
        sum_range(counts, lo, top)
    } else {
        0
    }
}

/// Number of reads of each length, and their distribution over length
/// categories of a common width.
#[derive(Clone, Debug)]
pub struct SeqLenDistribution {
    len_counts: Vec<usize>,
    graph_counts: Vec<usize>,
    x_categories: Vec<String>,
    max: usize,
    reads: usize,
}

/// Sum of `v[lo..top]`, zero when the range is empty.
fn sum_between(v: &Vec<usize>, lo: usize, top: usize) -> (r: usize)
    requires
        top <= v@.len(),
        lo < top ==> sum_range(v@, lo as int, top as int) <= usize::MAX,
    ensures
        r == if lo < top {
            sum_range(v@, lo as int, top as int)
        } else {
            0
        },
{
    if lo >= top {
        return 0;
    }
    let mut sum: usize = 0;
    let mut bp: usize = lo;
    while bp < top
        invariant
            lo <= bp <= top <= v@.len(),
            sum == sum_range(v@, lo as int, bp as int),
            sum_range(v@, lo as int, top as int) <= usize::MAX,
        decreases top - bp,
    {
        proof {
            crate::arith::lemma_sum_range_mono(v@, lo as int, bp + 1, top as int);
        }
        sum = sum + v[bp];
        bp = bp + 1;
    }
    sum
}

/// Whether category `k` begins at or before `max`.
proof fn lemma_category_bound(start: int, interval: int, max: int, k: int)
    requires
        interval >= 1,
        k >= 0,
        start >= 0,
    ensures
        (start + interval * k <= max) <==> (k < category_count(start, interval, max)),
{
    if start <= max {
        let q = (max - start) / interval;
        assert((start + interval * k <= max) <==> (k <= q)) by (nonlinear_arith)
            requires
                interval >= 1,
                k >= 0,
                start <= max,
                q == (max - start) / interval,
        ;
    } else {
        assert(interval * k >= 0) by (nonlinear_arith)
            requires
                interval >= 1,
                k >= 0,
        ;
    }
}

impl SeqLenDistribution {
    pub closed spec fn spec_counts(&self) -> Seq<usize> {
        self.len_counts@
    }

    pub closed spec fn spec_reads(&self) -> int {
        self.reads as int
    }

    pub closed spec fn spec_graph(&self) -> Seq<usize> {
        self.graph_counts@
    }

    pub closed spec fn spec_max(&self) -> int {
        self.max as int
    }

    /// The counts add up to the reads, and cover lengths below the limit.
    pub open spec fn wf(&self) -> bool {
        &&& seq_sum(self.spec_counts()) == self.spec_reads()
        &&& self.spec_counts().len() <= MAX_TRACKED_LENGTH + 2
    }

    /// No reads counted.
    pub fn new() -> (r: SeqLenDistribution)
        ensures
            r.wf(),
            r.spec_reads() == 0,
            r.spec_counts().len() == 0,
    {
        SeqLenDistribution {
            len_counts: Vec::new(),
            graph_counts: Vec::new(),
            x_categories: Vec::new(),
            max: 0,
            reads: 0,
        }
    }

    /// What one call of `process_sequence` does, from `o` to `n`.
    pub open spec fn processed(o: Self, n: Self, record: SeqRecord) -> bool {
        &&& (n.spec_reads() == o.spec_reads() + 1)
        &&& (n.spec_counts().len() >= record.seq@.len() + 2)
        &&& (forall|l: int|
                0 <= l < n.spec_counts().len() ==> #[trigger] n.spec_counts()[l] == (if l
                    < o.spec_counts().len() {
                    o.spec_counts()[l] as int
                } else {
                    0
                }) + if l == record.seq@.len() {
                    1int
                } else {
                    0int
                })
    }

    /// Counts one read under its length.
    pub fn process_sequence(&mut self, record: &SeqRecord)
        requires
            old(self).wf(),
            old(self).spec_reads() < usize::MAX,
            record.seq@.len() < MAX_TRACKED_LENGTH,
        ensures
            final(self).wf(),
            Self::processed(*old(self), *final(self), *record),
    {
        let seq_len = record.seq.len();
        let ghost o = self.spec_counts();
        while self.len_counts.len() < seq_len + 2
            invariant
                seq_len == record.seq@.len(),
                seq_len < MAX_TRACKED_LENGTH,
                o.len() <= self.spec_counts().len() <= if seq_len + 2 > o.len() { seq_len + 2 } else { o.len() as int },
                forall|l: int| 0 <= l < o.len() ==> #[trigger] self.spec_counts()[l] == o[l],
                forall|l: int| o.len() <= l < self.spec_counts().len() ==> #[trigger] self.spec_counts()[l] == 0,
                sum_range(self.spec_counts(), 0, self.spec_counts().len() as int) == seq_sum(o),
                self.reads == old(self).reads,
                o == old(self).spec_counts(),
            decreases seq_len + 2 - self.spec_counts().len(),
        {
            let ghost prev = self.spec_counts();
            self.len_counts.push(0);
            proof {
                assert(sum_range(self.spec_counts(), 0, prev.len() as int) == sum_range(prev, 0, prev.len() as int)) by {
                    crate::arith::lemma_sum_range_ext(self.spec_counts(), prev, 0, prev.len() as int);
                }
            }
        }
        let ghost mid = self.spec_counts();
        proof {
            lemma_sum_range_le(mid, 0, mid.len() as int, usize::MAX as int);
            crate::arith::lemma_elem_le_sum(mid, 0, seq_len as int, mid.len() as int);
            assert(seq_sum(old(self).spec_counts()) == old(self).spec_reads());
        }
        let v = self.len_counts[seq_len] + 1;
        self.len_counts.set(seq_len, v);
        self.reads = self.reads + 1;
        proof {
            lemma_sum_range_update(mid, 0, mid.len() as int, seq_len as int, v);
        }
    }

    /// Start and width of the length categories for lengths `min..=max`:
    /// the width is the first candidate (1, 2, 5, 10, 20, 50, ...) giving
    /// at most 50 widths, and the start is `min` rounded to a multiple of it.
    pub fn get_size_distribution(&mut self, min: usize, max: usize) -> (r: Vec<usize>)
        requires
            min < max <= MAX_TRACKED_LENGTH + 2,
        ensures
            *final(self) == *old(self),
            r@.len() == 2,
            is_size_interval(min as int, max as int, r@[1] as int),
            r@[0] == rounded_start(min as int, r@[1] as int),
            1 <= r@[1] <= max - min,
            r@[0] <= min + r@[1],
    {
        let d = max - min;
        let mut multiplier: usize = 1;
        let ghost mut k: nat = 0;
        loop
            invariant
                min < max <= MAX_TRACKED_LENGTH + 2,
                d == max - min,
                multiplier == pow10(k),
                1 <= multiplier <= d,
                forall|i: nat| i < 3 * k ==> (d as int) / size_candidate(i) > 50,
            decreases d - multiplier,
        {
            let mut b: usize = 0;
            while b < 3
                invariant
                    min < max <= MAX_TRACKED_LENGTH + 2,
                    d == max - min,
                    multiplier == pow10(k),
                    1 <= multiplier <= d,
                    b <= 3,
                    b >= 1 ==> multiplier * 51 <= d,
                    b >= 2 ==> 2 * multiplier * 51 <= d,
                    b >= 3 ==> 5 * multiplier * 51 <= d,
                    forall|i: nat| i < 3 * k + b ==> (d as int) / size_candidate(i) > 50,
                decreases 3 - b,
            {
                let base: usize = if b == 0 {
                    1
                } else if b == 1 {
                    2
                } else {
                    5
                };
                let tester = base * multiplier;
                assert(size_candidate(3 * k + b as nat) == tester) by {
                    assert((3 * k + b as nat) / 3 == k) by (nonlinear_arith)
                        requires
                            b < 3,
                    ;
                    assert((3 * k + b as nat) % 3 == b) by (nonlinear_arith)
                        requires
                            b < 3,
                    ;
                }
                if d / tester <= 50 {
                    assert(is_size_interval(min as int, max as int, tester as int)) by {
                        let j = 3 * k + b as nat;
                        assert(forall|i: nat| i < j ==> (d as int) / size_candidate(i) > 50);
                    }
                    assert(tester <= d);
                    proof {
                        let q = (2 * min + tester) / (2 * tester);
                        assert(q * tester <= min + tester) by (nonlinear_arith)
                            requires
                                tester >= 1,
                                min >= 0,
                                q == (2 * min + tester) / (2 * tester),
                        ;
                    }
                    let start = ((2 * min + tester) / (2 * tester)) * tester;
                    let mut r: Vec<usize> = Vec::new();
                    r.push(start);
                    r.push(tester);
                    return r;
                }
                proof {
                    assert(tester * 51 <= d) by (nonlinear_arith)
                        requires
                            (d as int) / (tester as int) > 50,
                            tester >= 1,
                    ;
                }
                b = b + 1;
            }
            multiplier = multiplier * 10;
            proof {
                k = k + 1;
            }
        }
    }

    /// Fills the distribution: the shortest and longest lengths seen,
    /// widened by one on each side (not below zero), cut into categories
    /// as `get_size_distribution` says, with the reads of each category,
    /// its label, and the largest category count.
    pub fn calculate_distribution(&mut self)
        requires
            old(self).wf(),
        ensures
            final(self).wf(),
            final(self).spec_counts() == old(self).spec_counts(),
            final(self).spec_reads() == old(self).spec_reads(),
            exists|min: int, max: int, start: int, interval: int|
                #[trigger] final(self).distribution_is(min, max, start, interval),
    {
        let n = self.len_counts.len();
        let ghost c = self.spec_counts();
        let mut first: usize = 0;
        while first < n && self.len_counts[first] == 0
            invariant
                n == c.len(),
                c == self.spec_counts(),
                first <= n,
                forall|j: int| 0 <= j < first ==> c[j] == 0,
            decreases n - first,
        {
            first = first + 1;
        }
        let mut last: usize = n;
        while last > first && self.len_counts[last - 1] == 0
            invariant
                n == c.len(),
                c == self.spec_counts(),
                first <= last <= n,
                forall|j: int| last <= j < n ==> c[j] == 0,
            decreases last,
        {
            last = last - 1;
        }
        let min: usize = if first == n || first == 0 {
            0
        } else {
            first - 1
        };
        let max: usize = if first == n {
            1
        } else {
            last
        };
        assert(length_bounds(c, min as int, max as int));
        let si = self.get_size_distribution(min, max);
        let start = si[0];
        let interval = si[1];
        let mut graph: Vec<usize> = Vec::new();
        let mut labels: Vec<String> = Vec::new();
        let mut biggest: usize = 0;
        let mut lo: usize = start;
        proof {
            lemma_sum_range_nonneg(c, 0, n as int);
            lemma_category_bound(start as int, interval as int, max as int, 0);
            assert(interval * 0 == 0);
        }
        while lo <= max
            invariant
                self.wf(),
                c == self.spec_counts(),
                n == c.len(),
                1 <= interval <= max,
                max <= MAX_TRACKED_LENGTH + 2,
                start <= max + interval,
                lo == start + interval * graph@.len(),
                lo <= max + interval,
                labels@.len() == graph@.len(),
                graph@.len() <= category_count(start as int, interval as int, max as int),
                lo <= max ==> graph@.len() < category_count(start as int, interval as int, max as int),
                lo > max ==> graph@.len() == category_count(start as int, interval as int, max as int),
                forall|i: int|
                    0 <= i < graph@.len() ==> #[trigger] graph@[i] == category_sum(
                        c,
                        start as int,
                        interval as int,
                        max as int,
                        i,
                    ),
                forall|i: int|
                    0 <= i < labels@.len() ==> (#[trigger] labels@[i])@ == category_label(
                        start as int,
                        interval as int,
                        max as int,
                        i,
                    ),
                forall|i: int| 0 <= i < graph@.len() ==> #[trigger] graph@[i] <= biggest,
                graph@.len() == 0 ==> biggest == 0,
                graph@.len() > 0 ==> exists|i: int| 0 <= i < graph@.len() && graph@[i] == biggest,
            decreases max + interval - lo,
        {
            let e = lo + interval - 1;
            let hi = if e > max {
                max
            } else {
                e
            };
            let top = if hi + 1 < n {
                hi + 1
            } else {
                n
            };
            proof {
                if lo < top {
                    lemma_sum_range_split(c, 0, lo as int, n as int);
                    lemma_sum_range_nonneg(c, 0, lo as int);
                    crate::arith::lemma_sum_range_mono(c, lo as int, top as int, n as int);
                    lemma_sum_range_split(c, lo as int, top as int, n as int);
                    lemma_sum_range_nonneg(c, top as int, n as int);
                }
            }
            let sum = sum_between(&self.len_counts, lo, top);
            let label = if interval == 1 {
                format_number(lo)
            } else {
                format_number_range(lo, hi)
            };
            assert(sum == category_sum(c, start as int, interval as int, max as int, graph@.len() as int));
            let ghost old_graph = graph@;
            let ghost old_biggest = biggest;
            if sum > biggest {
                biggest = sum;
            }
            graph.push(sum);
            labels.push(label);
            proof {
                assert((start + interval * graph@.len()) == lo + interval) by (nonlinear_arith)
                    requires
                        lo == start + interval * (graph@.len() - 1),
                ;
                if biggest == sum {
                    assert(graph@[graph@.len() - 1] == biggest);
                } else {
                    let w = choose|i: int| 0 <= i < old_graph.len() && old_graph[i] == old_biggest;
                    assert(graph@[w] == biggest);
                }
                lemma_category_bound(start as int, interval as int, max as int, graph@.len() as int);
                lemma_category_bound(start as int, interval as int, max as int, graph@.len() - 1);
            }
            lo = lo + interval;
        }
        self.graph_counts = graph;
        self.x_categories = labels;
        self.max = biggest;
        assert(self.graph_is(start as int, interval as int, max as int));
        assert(self.distribution_is(min as int, max as int, start as int, interval as int));
    }

    /// The lengths seen span `min..=max` (widened as `length_bounds` says),
    /// cut into categories of width `interval` from `start`, as
    /// `get_size_distribution` picks them, and the distribution holds them.
    pub open spec fn distribution_is(&self, min: int, max: int, start: int, interval: int) -> bool {
        &&& length_bounds(self.spec_counts(), min, max)
        &&& is_size_interval(min, max, interval)
        &&& start == rounded_start(min, interval)
        &&& self.graph_is(start, interval, max)
    }

    /// The distribution holds the categories of width `interval` from
    /// `start` up to `max`, their counts, labels, and the largest count.
    pub open spec fn graph_is(&self, start: int, interval: int, max: int) -> bool {
        &&& self.spec_graph().len() == category_count(start, interval, max)
        &&& self.spec_labels().len() == self.spec_graph().len()
        &&& forall|i: int|
            0 <= i < self.spec_graph().len() ==> #[trigger] self.spec_graph()[i] == category_sum(
                self.spec_counts(),
                start,
                interval,
                max,
                i,
            )
        &&& forall|i: int|
            0 <= i < self.spec_labels().len() ==> #[trigger] self.spec_labels()[i] == category_label(
                start,
                interval,
                max,
                i,
            )
        &&& forall|i: int| 0 <= i < self.spec_graph().len() ==> #[trigger] self.spec_graph()[i] <= self.spec_max()
        &&& (self.spec_graph().len() == 0 ==> self.spec_max() == 0)
        &&& (self.spec_graph().len() > 0 ==> exists|i: int|
            0 <= i < self.spec_graph().len() && self.spec_graph()[i] == self.spec_max())
    }

    pub closed spec fn spec_labels(&self) -> Seq<Seq<char>> {
        self.x_categories@.map_values(|s: String| s@)
    }

    /// Reads per category.
    pub fn graph_counts(&self) -> (r: &Vec<usize>)
        ensures
            r@ == self.spec_graph(),
    {
        &self.graph_counts
    }

    /// The category labels.
    pub fn x_categories(&self) -> (r: &Vec<String>)
        ensures
            r@.map_values(|s: String| s@) == self.spec_labels(),
    {
        &self.x_categories
    }

    /// The largest category count.
    pub fn max(&self) -> (r: usize)
        ensures
            r == self.spec_max(),
    {
        self.max
    }
}

/// Label of category `i`: its first length, or its first and last lengths
/// joined by a hyphen when the width is over one.
pub open spec fn category_label(start: int, interval: int, max: int, i: int) -> Seq<char> {
    let lo = start + interval * i;
    let e = lo + interval - 1;
    let hi = if e > max {
        max
    } else {
        e
    };
    if interval == 1 {
        decimal(lo as nat)
    } else {
        decimal(lo as nat) + seq!['-'] + decimal(hi as nat)
    }
}

/// `min..=max` is the range of lengths seen, widened by one on each side
/// (not below zero); `0..=1` when no read was counted.
pub open spec fn length_bounds(counts: Seq<usize>, min: int, max: int) -> bool {
    if forall|j: int| 0 <= j < counts.len() ==> counts[j] == 0 {
        min == 0 && max == 1
    } else {
        exists|f: int, l: int|
            {
                &&& 0 <= f <= l < counts.len()
                &&& counts[f] > 0
                &&& counts[l] > 0
                &&& (forall|j: int| 0 <= j < f ==> counts[j] == 0)
                &&& (forall|j: int| l < j < counts.len() ==> counts[j] == 0)
                &&& min == if f > 0 { f - 1 } else { 0 }
                &&& max == l + 1
            }
    }
}

} // verus!
