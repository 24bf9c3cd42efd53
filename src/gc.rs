use vstd::prelude::*;
use crate::arith::{count_byte, Ratio};
use crate::record::SeqRecord;

verus! {

/// Number of GC percentage buckets (0 to 100).
pub const GC_BUCKETS: usize = 101;

/// Longest read length a GC model is built for.
pub const MAX_MODEL_LENGTH: usize = 0x1000_0000;

/// `round(n / (2 * length) * 100)`, halves rounded up.
pub open spec fn half_percent(n: int, length: int) -> int {
    (n * 100 + length) / (2 * length)
}

/// Lowest bucket that a read of `length` bases with `pos` G or C bases
/// claims: the percentage of `pos - 0.5`, at least zero.
pub open spec fn gc_low(pos: int, length: int) -> int {
    half_percent(if 2 * pos - 1 < 0 { 0 } else { 2 * pos - 1 }, length)
}

/// Highest bucket that such a read claims: the percentage of `pos + 0.5`,
/// at most `length`.
pub open spec fn gc_high(pos: int, length: int) -> int {
    half_percent(if 2 * pos + 1 > 2 * length { 2 * length } else { 2 * pos + 1 }, length)
}

/// Number of the counts `0..n` whose bucket range holds `p`.
pub open spec fn claims(p: int, length: int, n: int) -> int
    decreases n,
{
    if n <= 0 {
        0
    } else {
        claims(p, length, n - 1) + if gc_low(n - 1, length) <= p <= gc_high(n - 1, length) {
            1int
        } else {
            0int
        }
    }
}

proof fn lemma_half_percent_bounds(n: int, length: int)
    requires
        length >= 1,
        0 <= n <= 2 * length,
    ensures
        0 <= half_percent(n, length) <= 100,
{
    assert(0 <= (n * 100 + length) / (2 * length) <= 100) by (nonlinear_arith)
        requires
            length >= 1,
            0 <= n <= 2 * length,
    ;
}

proof fn lemma_half_percent_mono(a: int, b: int, length: int)
    requires
        length >= 1,
        0 <= a <= b,
    ensures
        half_percent(a, length) <= half_percent(b, length),
{
    assert((a * 100 + length) / (2 * length) <= (b * 100 + length) / (2 * length)) by (nonlinear_arith)
        requires
            length >= 1,
            0 <= a <= b,
    ;
}

proof fn lemma_claims_bound(p: int, length: int, n: int)
    ensures
        0 <= claims(p, length, n) <= if n < 0 { 0 } else { n },
    decreases n,
{
    if n > 0 {
        lemma_claims_bound(p, length, n - 1);
    }
}

/// A bucket of a GC model and the weight that one read adds to it.
#[derive(Clone, Copy, Debug, PartialEq, Eq, Structural)]
pub struct GCModelValue {
    pub percentage: usize,
    pub increment: Ratio,
}

impl GCModelValue {
    /// The bucket `percentage` with weight `increment`.
    pub fn new(percentage: usize, increment: Ratio) -> (r: GCModelValue)
        ensures
            r.percentage == percentage,
            r.increment == increment,
    {
        GCModelValue { percentage, increment }
    }

    /// The bucket.
    pub fn percentage(&self) -> (r: usize)
        ensures
            r == self.percentage,
    {
        self.percentage
    }

    /// The weight, one over the number of GC counts that claim the bucket.
    pub fn increment(&self) -> (r: Ratio)
        ensures
            r == self.increment,
    {
        self.increment
    }
}

/// For reads of one length, the weighted buckets that each count of G and
/// C bases spreads over.
#[derive(Clone, Debug)]
pub struct GCModel {
    read_length: usize,
    models: Vec<Vec<GCModelValue>>,
}

impl GCModel {
    pub closed spec fn spec_read_length(&self) -> int {
        self.read_length as int
    }

    pub closed spec fn spec_models(&self) -> Seq<Seq<GCModelValue>> {
        self.models@.map_values(|v: Vec<GCModelValue>| v@)
    }

    /// The model for `length`: for each count `pos` of G and C bases from 0
    /// to `length`, the buckets from `gc_low` to `gc_high`, each weighted
    /// one over the number of counts that claim it.
    pub open spec fn is_model_for(&self, length: int) -> bool {
        &&& self.spec_read_length() == length
        &&& self.spec_models().len() == length + 1
        &&& forall|pos: int|
            0 <= pos <= length ==> {
                let vs = #[trigger] self.spec_models()[pos];
                &&& vs.len() == gc_high(pos, length) - gc_low(pos, length) + 1
                &&& forall|j: int|
                    0 <= j < vs.len() ==> {
                        &&& (#[trigger] vs[j]).percentage == gc_low(pos, length) + j
                        &&& vs[j].increment == Ratio {
                            num: 1,
                            den: claims(gc_low(pos, length) + j, length, length + 1) as u128,
                        }
                    }
            }
    }

    /// The read length the model is for.
    pub fn read_length(&self) -> (r: usize)
        ensures
            r == self.spec_read_length(),
    {
        self.read_length
    }

    /// Number of GC counts the model covers.
    pub fn len(&self) -> (r: usize)
        ensures
            r == self.spec_models().len(),
    {
        self.models.len()
    }

    /// A placeholder for a length not seen yet.
    pub fn new() -> (r: GCModel)
        ensures
            r.spec_read_length() == 0,
            r.spec_models().len() == 1,
            r.spec_models()[0].len() == 0,
    {
        let mut models: Vec<Vec<GCModelValue>> = Vec::new();
        models.push(Vec::new());
        GCModel { read_length: 0, models }
    }

    /// The model for reads of `length` bases.
    pub fn new_by_len(length: usize) -> (r: GCModel)
        requires
            1 <= length <= MAX_MODEL_LENGTH,
        ensures
            r.is_model_for(length as int),
    {
        let l = length as u64;
        let mut claim_counts: Vec<usize> = vec![0usize; GC_BUCKETS];
        let mut pos: usize = 0;
        while pos <= length
            invariant
                1 <= length <= MAX_MODEL_LENGTH,
                l == length,
                pos <= length + 1,
                claim_counts@.len() == GC_BUCKETS,
                forall|p: int| 0 <= p < GC_BUCKETS ==> #[trigger] claim_counts@[p] == claims(p, length as int, pos as int),
            decreases length + 1 - pos,
        {
            let (low, high) = gc_range(pos, length);
            let mut p: usize = low;
            while p <= high
                invariant
                    1 <= length <= MAX_MODEL_LENGTH,
                    pos <= length,
                    low == gc_low(pos as int, length as int),
                    high == gc_high(pos as int, length as int),
                    low <= p <= high + 1,
                    high <= 100,
                    claim_counts@.len() == GC_BUCKETS,
                    forall|q: int|
                        0 <= q < GC_BUCKETS ==> #[trigger] claim_counts@[q] == claims(q, length as int, pos as int)
                            + if low <= q < p {
                            1int
                        } else {
                            0int
                        },
                decreases high + 1 - p,
            {
                proof {
                    lemma_claims_bound(p as int, length as int, pos as int);
                }
                let c = claim_counts[p] + 1;
                claim_counts.set(p, c);
                p = p + 1;
            }
            pos = pos + 1;
        }
        let mut models: Vec<Vec<GCModelValue>> = Vec::new();
        let mut pos: usize = 0;
        while pos <= length
            invariant
                1 <= length <= MAX_MODEL_LENGTH,
                pos <= length + 1,
                models@.len() == pos,
                claim_counts@.len() == GC_BUCKETS,
                forall|p: int| 0 <= p < GC_BUCKETS ==> #[trigger] claim_counts@[p] == claims(p, length as int, length + 1),
                forall|k: int|
                    0 <= k < pos ==> {
                        let vs = (#[trigger] models@[k])@;
                        &&& vs.len() == gc_high(k, length as int) - gc_low(k, length as int) + 1
                        &&& forall|j: int|
                            0 <= j < vs.len() ==> {
                                &&& (#[trigger] vs[j]).percentage == gc_low(k, length as int) + j
                                &&& vs[j].increment == Ratio {
                                    num: 1,
                                    den: claims(gc_low(k, length as int) + j, length as int, length + 1) as u128,
                                }
                            }
                    },
            decreases length + 1 - pos,
        {
            let (low, high) = gc_range(pos, length);
            let mut values: Vec<GCModelValue> = Vec::new();
            let mut p: usize = low;
            while p <= high
                invariant
                    pos <= length,
                    low == gc_low(pos as int, length as int),
                    high == gc_high(pos as int, length as int),
                    low <= p <= high + 1,
                    high <= 100,
                    values@.len() == p - low,
                    claim_counts@.len() == GC_BUCKETS,
                    forall|q: int| 0 <= q < GC_BUCKETS ==> #[trigger] claim_counts@[q] == claims(q, length as int, length + 1),
                    forall|j: int|
                        0 <= j < values@.len() ==> {
                            &&& (#[trigger] values@[j]).percentage == low + j
                            &&& values@[j].increment == Ratio {
                                num: 1,
                                den: claims(low + j, length as int, length + 1) as u128,
                            }
                        },
                decreases high + 1 - p,
            {
                values.push(GCModelValue::new(p, Ratio::new(1, claim_counts[p] as u128)));
                p = p + 1;
            }
            models.push(values);
            pos = pos + 1;
        }
        let r = GCModel { read_length: length, models };
        assert(r.spec_models().len() == length + 1);
        r
    }

    /// The weighted buckets for reads with `gc_count` G or C bases.
    pub fn get_model_values(&self, gc_count: usize) -> (r: &Vec<GCModelValue>)
        requires
            gc_count < self.spec_models().len(),
        ensures
            r@ == self.spec_models()[gc_count as int],
    {
        &self.models[gc_count]
    }
}

/// The buckets from `gc_low` to `gc_high` for `pos` G or C bases in a read
/// of `length` bases.
fn gc_range(pos: usize, length: usize) -> (r: (usize, usize))
    requires
        1 <= length <= MAX_MODEL_LENGTH,
        pos <= length,
    ensures
        r.0 == gc_low(pos as int, length as int),
        r.1 == gc_high(pos as int, length as int),
        r.0 <= r.1 <= 100,
{
    let l = length as u64;
    let p = pos as u64;
    let low_n: u64 = if p == 0 { 0 } else { 2 * p - 1 };
    let high_n: u64 = if 2 * p + 1 > 2 * l { 2 * l } else { 2 * p + 1 };
    proof {
        lemma_half_percent_bounds(low_n as int, length as int);
        lemma_half_percent_bounds(high_n as int, length as int);
        lemma_half_percent_mono(low_n as int, high_n as int, length as int);
    }
    let low = (low_n * 100 + l) / (2 * l);
    let high = (high_n * 100 + l) / (2 * l);
    (low as usize, high as usize)
}

/// The GC buckets of a model tile the scale: the first count starts at
/// bucket 0, each next count starts where the one before ends, and the
/// last ends at bucket 100. Every bucket is therefore claimed, and it is
/// listed by exactly as many counts as its claims, each with weight one
/// over its claims: its weights add up to one, and all 101 buckets' to 101.
pub proof fn gc_model_buckets_tile(length: int)
    requires
        1 <= length,
    ensures
        gc_low(0, length) == 0,
        gc_high(length, length) == 100,
        forall|pos: int| 0 <= pos < length ==> #[trigger] gc_low(pos + 1, length) == gc_high(pos, length),
        forall|p: int| 0 <= p <= 100 ==> #[trigger] claims(p, length, length + 1) >= 1,
        forall|p: int|
            0 <= p <= 100 ==> #[trigger] claims(p, length, length + 1) == claiming_counts(p, length, length + 1),
{
    assert forall|p: int| 0 <= p <= 100 implies #[trigger] claims(p, length, length + 1) == claiming_counts(
        p,
        length,
        length + 1,
    ) by {
        lemma_claims_count(p, length, length + 1);
    }
    assert(half_percent(0, length) == 0) by (nonlinear_arith)
        requires
            length >= 1,
    ;
    assert(half_percent(2 * length, length) == 100) by (nonlinear_arith)
        requires
            length >= 1,
    ;
    assert forall|p: int| 0 <= p <= 100 implies #[trigger] claims(p, length, length + 1) >= 1 by {
        lemma_bucket_claimed(p, length, length);
    }
}

/// The `j`-th bucket of a range starting at `lo`.
pub open spec fn bucket_at(lo: int, j: int) -> int {
    lo + j
}

/// Number of the counts `0..n` whose model values, as `is_model_for`
/// lists them, include bucket `p`; each such value weighs one over the
/// bucket's claims, so a bucket's weights add up to exactly one.
pub open spec fn claiming_counts(p: int, length: int, n: int) -> int
    decreases n,
{
    if n <= 0 {
        0
    } else {
        claiming_counts(p, length, n - 1) + if exists|j: int|
            0 <= j <= gc_high(n - 1, length) - gc_low(n - 1, length) && #[trigger] bucket_at(gc_low(n - 1, length), j)
                == p {
            1int
        } else {
            0int
        }
    }
}

proof fn lemma_claims_count(p: int, length: int, n: int)
    ensures
        claims(p, length, n) == claiming_counts(p, length, n),
    decreases n,
{
    if n > 0 {
        lemma_claims_count(p, length, n - 1);
        let lo = gc_low(n - 1, length);
        let hi = gc_high(n - 1, length);
        if lo <= p <= hi {
            assert(0 <= p - lo <= hi - lo && bucket_at(lo, p - lo) == p);
        }
    }
}

/// Bucket `p`, at most the top of count `n`'s range, is claimed by one of
/// the counts up to `n`.
proof fn lemma_bucket_claimed(p: int, length: int, n: int)
    requires
        1 <= length,
        0 <= n <= length,
        0 <= p <= gc_high(n, length),
    ensures
        claims(p, length, n + 1) >= 1,
    decreases n,
{
    lemma_claims_bound(p, length, n);
    if n == 0 {
        assert(half_percent(0, length) == 0) by (nonlinear_arith)
            requires
                length >= 1,
        ;
    } else {
        assert(gc_high(n - 1, length) == gc_low(n, length));
    }
    if p < gc_low(n, length) {
        lemma_bucket_claimed(p, length, n - 1);
        lemma_claims_bound(p, length, n);
    }
}

/// Length of a read's bases that the GC tally looks at: over 1000 bases
/// cut to a multiple of 1000, over 100 to a multiple of 100.
pub open spec fn gc_length(len: int) -> int {
    if len > 1000 {
        (len / 1000) * 1000
    } else if len > 100 {
        (len / 100) * 100
    } else {
        len
    }
}

/// Number of G and C bases among the first `n` of `seq`.
pub open spec fn gc_count(seq: Seq<u8>, n: int) -> int {
    count_byte(seq, 71, n) + count_byte(seq, 67, n)
}

/// Reads counted with length `l` and `g` G or C bases.
pub open spec fn tally_at(t: Seq<Seq<usize>>, l: int, g: int) -> int {
    if 0 <= l < t.len() && 0 <= g < t[l].len() {
        t[l][g] as int
    } else {
        0
    }
}

/// Per read length (after cutting) and count of G and C bases, the number
/// of reads; with the GC model of each length seen.
#[derive(Clone, Debug)]
pub struct PerSeqGCContent {
    cached_models: Vec<GCModel>,
    gc_tallies: Vec<Vec<usize>>,
    reads: usize,
}

impl PerSeqGCContent {
    pub closed spec fn spec_models(&self) -> Seq<GCModel> {
        self.cached_models@
    }

    pub closed spec fn spec_tallies(&self) -> Seq<Seq<usize>> {
        self.gc_tallies@.map_values(|v: Vec<usize>| v@)
    }

    pub closed spec fn spec_reads(&self) -> int {
        self.reads as int
    }

    /// Each length with reads has its model and one tally per GC count;
    /// no tally exceeds the reads counted.
    pub open spec fn wf(&self) -> bool {
        &&& self.spec_models().len() == self.spec_tallies().len()
        &&& forall|l: int|
            0 <= l < self.spec_tallies().len() && (#[trigger] self.spec_tallies()[l]).len() > 0 ==> {
                &&& self.spec_models()[l].is_model_for(l)
                &&& self.spec_tallies()[l].len() == l + 1
            }
        &&& forall|l: int, g: int| #[trigger] tally_at(self.spec_tallies(), l, g) <= self.spec_reads()
    }

    /// Per read length, the reads counted by number of G and C bases.
    pub fn tallies(&self) -> (r: &Vec<Vec<usize>>)
        ensures
            r@.map_values(|v: Vec<usize>| v@) == self.spec_tallies(),
    {
        &self.gc_tallies
    }

    /// Per read length, its GC model (a placeholder for lengths not seen).
    pub fn models(&self) -> (r: &Vec<GCModel>)
        ensures
            r@ == self.spec_models(),
    {
        &self.cached_models
    }

    /// No reads counted.
    pub fn new() -> (r: PerSeqGCContent)
        ensures
            r.wf(),
            r.spec_reads() == 0,
            forall|l: int, g: int| #[trigger] tally_at(r.spec_tallies(), l, g) == 0,
    {
        let r = PerSeqGCContent { cached_models: Vec::new(), gc_tallies: Vec::new(), reads: 0 };
        assert(r.spec_tallies().len() == 0);
        r
    }

    /// What one call of `process_sequence` does, from `o` to `n`.
    pub open spec fn processed(o: Self, n: Self, record: SeqRecord) -> bool {
        &&& (n.spec_reads() == o.spec_reads() + 1)
        &&& (forall|l: int, g: int|
                #[trigger] tally_at(n.spec_tallies(), l, g) == tally_at(o.spec_tallies(), l, g)
                    + if l == gc_length(record.seq@.len() as int) && l > 0 && g == gc_count(record.seq@, l) {
                    1int
                } else {
                    0int
                })
    }

    /// Counts one read under its length, cut as `gc_length` says, and its
    /// number of G and C bases within that length, building the model for
    /// the length when it is new. A read of no bases is not counted.
    pub fn process_sequence(&mut self, record: &SeqRecord)
        requires
            old(self).wf(),
            old(self).spec_reads() < usize::MAX,
            record.seq@.len() <= MAX_MODEL_LENGTH,
        ensures
            final(self).wf(),
            Self::processed(*old(self), *final(self), *record),
    {
        let ghost old_t = self.spec_tallies();
        self.reads = self.reads + 1;
        let n = record.seq.len();
        let len: usize = if n > 1000 {
            (n / 1000) * 1000
        } else if n > 100 {
            (n / 100) * 100
        } else {
            n
        };
        if len == 0 {
            assert forall|l: int, g: int| #[trigger] tally_at(self.spec_tallies(), l, g) <= self.spec_reads() by {
                assert(tally_at(old_t, l, g) <= old(self).spec_reads());
            }
            return;
        }
        let mut gc: usize = 0;
        let mut i: usize = 0;
        while i < len
            invariant
                len <= record.seq@.len(),
                i <= len,
                gc == gc_count(record.seq@, i as int),
                gc <= i,
            decreases len - i,
        {
            if record.seq[i] == 71 || record.seq[i] == 67 {
                gc = gc + 1;
            }
            i = i + 1;
        }
        while self.cached_models.len() <= len
            invariant
                self.spec_models().len() == self.spec_tallies().len(),
                self.spec_tallies().len() >= old_t.len(),
                self.spec_tallies().len() <= if len + 1 > old_t.len() { len + 1 } else { old_t.len() as int },
                forall|l: int| 0 <= l < old_t.len() ==> #[trigger] self.spec_tallies()[l] == old_t[l],
                forall|l: int| old_t.len() <= l < self.spec_tallies().len() ==> (#[trigger] self.spec_tallies()[l]).len() == 0,
                forall|l: int|
                    0 <= l < old_t.len() && (#[trigger] old_t[l]).len() > 0 ==> self.spec_models()[l].is_model_for(l),
                old(self).wf(),
                self.spec_reads() == old(self).spec_reads() + 1,
                old_t == old(self).spec_tallies(),
                forall|l: int| 0 <= l < old_t.len() ==> #[trigger] self.spec_models()[l] == old(self).spec_models()[l],
            decreases len + 1 - self.spec_models().len(),
        {
            let ghost prev = self.spec_tallies();
            self.cached_models.push(GCModel::new());
            self.gc_tallies.push(Vec::new());
            assert(self.spec_tallies() =~= prev.push(Seq::<usize>::empty()));
        }
        let ghost mid = self.spec_tallies();
        if self.gc_tallies[len].len() == 0 {
            self.cached_models.set(len, GCModel::new_by_len(len));
            let zeros: Vec<usize> = vec![0usize; len + 1];
            assert(zeros@ =~= Seq::new((len + 1) as nat, |i: int| 0usize));
            self.gc_tallies.set(len, zeros);
            assert(self.spec_tallies() =~= mid.update(len as int, Seq::new((len + 1) as nat, |i: int| 0usize)));
        } else {
            assert(self.spec_tallies() == mid);
        }
        let ghost before = self.spec_tallies();
        assert(before[len as int].len() == len + 1);
        assert forall|l: int, g: int| #[trigger] tally_at(before, l, g) == tally_at(old_t, l, g) by {
            if 0 <= l < old_t.len() && l != len {
                assert(before[l] == old_t[l]);
            }
            if l == len && 0 <= l < old_t.len() && old_t[l].len() > 0 {
                assert(mid[l] == old_t[l]);
                assert(before[l] == old_t[l]);
            }
            if l == len && 0 <= g <= len && (l >= old_t.len() || old_t[l].len() == 0) {
                assert(before[l][g] == 0);
            }
            if old_t.len() <= l < before.len() && l != len {
                assert(mid[l].len() == 0);
                assert(before[l].len() == 0);
            }
        }
        proof {
            assert(tally_at(old_t, len as int, gc as int) <= old(self).spec_reads());
        }
        let v = self.gc_tallies[len][gc] + 1;
        self.gc_tallies[len].set(gc, v);
        proof {
            let after = self.spec_tallies();
            assert forall|l: int, g: int| #[trigger] tally_at(after, l, g) == tally_at(old_t, l, g)
                + if l == len && g == gc { 1int } else { 0int } by {
                assert(tally_at(before, l, g) == tally_at(old_t, l, g));
                if l != len {
                    if 0 <= l < after.len() {
                        assert(after[l] == before[l]);
                    }
                }
            }
            assert(self.spec_reads() == old(self).spec_reads() + 1);
            assert forall|l: int, g: int| #[trigger] tally_at(after, l, g) <= self.spec_reads() by {
                assert(tally_at(old_t, l, g) <= old(self).spec_reads());
                assert(tally_at(after, l, g) == tally_at(old_t, l, g)
                    + if l == len && g == gc { 1int } else { 0int });
            }
            assert forall|l: int|
                0 <= l < after.len() && (#[trigger] after[l]).len() > 0 implies {
                    &&& self.spec_models()[l].is_model_for(l)
                    &&& after[l].len() == l + 1
                } by {
                if l != len {
                    assert(after[l] == before[l]);
                    if l < old_t.len() {
                        assert(before[l] == old_t[l]);
                    }
                }
            }
        }
    }
}

} // verus!
