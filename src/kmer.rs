use vstd::prelude::*;
use vstd::hash_map::StringHashMap;
use crate::arith::{copy_counts, ratio_of, sum_range, Ratio};
use crate::base_group::BaseGroup;
use crate::bytes::prefix_bytes;
use crate::dup::string_from_utf8;
use vstd::utf8::{decode_utf8, valid_utf8};
use crate::record::SeqRecord;

verus! {

/// Length of the k-mers counted.
pub const KMER_SIZE: usize = 7;

/// Only one read in this many is looked at.
pub const KMER_SAMPLE_EVERY: usize = 50;

/// Reads are cut to this many bases before counting.
pub const KMER_READ_LIMIT: usize = 500;

/// A k-mer, how often it was seen, and where.
#[derive(Clone, Debug)]
pub struct Kmer {
    sequence: String,
    count: usize,
    obs_exp_position: Vec<Ratio>,
    positions: Vec<usize>,
}

impl Kmer {
    pub closed spec fn spec_sequence(&self) -> Seq<char> {
        self.sequence@
    }

    pub closed spec fn spec_count(&self) -> int {
        self.count as int
    }

    pub closed spec fn spec_positions(&self) -> Seq<usize> {
        self.positions@
    }

    pub closed spec fn spec_obs_exp(&self) -> Seq<Ratio> {
        self.obs_exp_position@
    }

    /// A k-mer seen once, at `position` of a read with `seq_len` k-mers.
    pub fn new(sequence: String, position: usize, seq_len: usize) -> (r: Kmer)
        requires
            position < seq_len,
        ensures
            r.spec_sequence() == sequence@,
            r.spec_count() == 1,
            r.spec_positions() == Seq::new(seq_len as nat, |i: int| 0usize).update(position as int, 1usize),
            r.spec_obs_exp().len() == 0,
    {
        let mut positions: Vec<usize> = vec![0usize; seq_len];
        positions.set(position, 1);
        assert(positions@ =~= Seq::new(seq_len as nat, |i: int| 0usize).update(position as int, 1usize));
        Kmer { sequence, count: 1, obs_exp_position: Vec::new(), positions }
    }

    /// The k-mer's bases.
    pub fn sequence(&mut self) -> (r: String)
        ensures
            r@ == old(self).spec_sequence(),
            *final(self) == *old(self),
    {
        self.sequence.clone()
    }

    /// How often it was seen.
    pub fn count(&mut self) -> (r: usize)
        ensures
            r == old(self).spec_count(),
            *final(self) == *old(self),
    {
        self.count
    }

    /// How often it was seen at each position.
    pub fn positions(&mut self) -> (r: Vec<usize>)
        ensures
            r@ == old(self).spec_positions(),
            *final(self) == *old(self),
    {
        copy_counts(&self.positions)
    }

    /// Counts one more sighting, at `position`, growing the positions as
    /// needed.
    pub fn increment_count(&mut self, position: usize)
        requires
            old(self).spec_count() < usize::MAX,
            position < usize::MAX,
            position < old(self).spec_positions().len() ==> old(self).spec_positions()[position as int]
                < usize::MAX,
        ensures
            final(self).spec_sequence() == old(self).spec_sequence(),
            final(self).spec_count() == old(self).spec_count() + 1,
            final(self).spec_obs_exp() == old(self).spec_obs_exp(),
            final(self).spec_positions().len() == if position < old(self).spec_positions().len() {
                old(self).spec_positions().len() as int
            } else {
                position + 1
            },
            forall|i: int|
                0 <= i < final(self).spec_positions().len() ==> #[trigger] final(self).spec_positions()[i] == (if i
                    < old(self).spec_positions().len() {
                    old(self).spec_positions()[i] as int
                } else {
                    0
                }) + if i == position {
                    1int
                } else {
                    0int
                },
    {
        self.count = self.count + 1;
        let ghost o = self.positions@;
        while self.positions.len() <= position
            invariant
                o.len() <= self.positions@.len() <= if position < o.len() { o.len() as int } else { position + 1 },
                forall|i: int| 0 <= i < o.len() ==> #[trigger] self.positions@[i] == o[i],
                forall|i: int| o.len() <= i < self.positions@.len() ==> #[trigger] self.positions@[i] == 0,
                self.sequence == old(self).sequence,
                self.count == old(self).count + 1,
                self.obs_exp_position == old(self).obs_exp_position,
                o == old(self).positions@,
                position < usize::MAX,
            decreases position + 1 - self.positions@.len(),
        {
            self.positions.push(0);
        }
        let v = self.positions[position] + 1;
        self.positions.set(position, v);
    }

    /// The 1-based group of the first largest observed-over-expected ratio,
    /// or 1 when no ratio is above zero. Exact when every ratio is small.
    pub fn max_position(&self) -> (r: usize)
        ensures
            r >= 1,
            (forall|i: int| 0 <= i < self.spec_obs_exp().len() ==> small_ratio(#[trigger] self.spec_obs_exp()[i])) ==> {
                &&& (forall|i: int|
                    0 <= i < self.spec_obs_exp().len() ==> !ratio_lt(Ratio::zero_spec(), #[trigger] self.spec_obs_exp()[i]))
                    ==> r == 1
                &&& (exists|i: int|
                    0 <= i < self.spec_obs_exp().len() && ratio_lt(Ratio::zero_spec(), #[trigger] self.spec_obs_exp()[i]))
                    ==> {
                    &&& r <= self.spec_obs_exp().len()
                    &&& forall|j: int|
                        0 <= j < self.spec_obs_exp().len() ==> !ratio_lt(self.spec_obs_exp()[r - 1], #[trigger] self.spec_obs_exp()[j])
                    &&& forall|j: int| 0 <= j < r - 1 ==> ratio_lt(#[trigger] self.spec_obs_exp()[j], self.spec_obs_exp()[r - 1])
                }
            },
    {
        let ghost obs = self.spec_obs_exp();
        let ghost small = forall|i: int| 0 <= i < obs.len() ==> small_ratio(#[trigger] obs[i]);
        let mut best = Ratio::zero();
        let mut position: usize = 0;
        let mut i: usize = 0;
        while i < self.obs_exp_position.len()
            invariant
                obs == self.spec_obs_exp(),
                i <= obs.len(),
                position <= i,
                position == 0 ==> best == Ratio::zero_spec(),
                position > 0 ==> best == obs[position - 1],
                small ==> forall|k: int| 0 <= k < obs.len() ==> small_ratio(#[trigger] obs[k]),
                small ==> position == 0 ==> forall|j: int| 0 <= j < i ==> !ratio_lt(Ratio::zero_spec(), #[trigger] obs[j]),
                small ==> position > 0 ==> {
                    &&& ratio_lt(Ratio::zero_spec(), best)
                    &&& forall|j: int| 0 <= j < i ==> !ratio_lt(best, #[trigger] obs[j])
                    &&& forall|j: int| 0 <= j < position - 1 ==> ratio_lt(#[trigger] obs[j], best)
                },
            decreases obs.len() - i,
        {
            let v = self.obs_exp_position[i];
            if ratio_less(best, v) {
                proof {
                    if small {
                        assert(small_ratio(v));
                        assert(ratio_lt(best, v));
                        let bst = if position > 0 { best } else { Ratio::zero_spec() };
                        assert(bst == best);
                        assert forall|j: int| 0 <= j < i + 1 implies !ratio_lt(v, #[trigger] obs[j]) by {
                            if j < i && ratio_lt(v, obs[j]) {
                                assert(!ratio_lt(obs[j], v));
                                lemma_ratio_lt_trans(best, v, obs[j]);
                            }
                        }
                        assert forall|j: int| 0 <= j < i implies ratio_lt(#[trigger] obs[j], v) by {
                            if position == 0 {
                                assert(!ratio_lt(Ratio::zero_spec(), obs[j]));
                            } else {
                                assert(!ratio_lt(best, obs[j]));
                            }
                            lemma_ratio_le_lt(obs[j], best, v);
                        }
                        if position > 0 {
                            lemma_ratio_lt_trans(Ratio::zero_spec(), best, v);
                        }
                    }
                }
                best = v;
                position = i + 1;
            }
            i = i + 1;
        }
        if position == 0 {
            1
        } else {
            position
        }
    }

    /// The highest observed-over-expected ratio over the groups, zero when
    /// there is none.
    pub fn max_obs_exp(&self) -> (r: Ratio)
        ensures
            self.spec_obs_exp().len() == 0 ==> r == Ratio::zero_spec(),
            self.spec_obs_exp().len() > 0 ==> exists|i: int|
                0 <= i < self.spec_obs_exp().len() && r == self.spec_obs_exp()[i],
            (forall|i: int| 0 <= i < self.spec_obs_exp().len() ==> small_ratio(#[trigger] self.spec_obs_exp()[i]))
                ==> forall|j: int| 0 <= j < self.spec_obs_exp().len() ==> !ratio_lt(r, #[trigger] self.spec_obs_exp()[j]),
    {
        let ghost obs = self.spec_obs_exp();
        let ghost small = forall|i: int| 0 <= i < obs.len() ==> small_ratio(#[trigger] obs[i]);
        let mut best = Ratio::zero();
        let mut i: usize = 0;
        while i < self.obs_exp_position.len()
            invariant
                obs == self.spec_obs_exp(),
                i <= obs.len(),
                i == 0 ==> best == Ratio::zero_spec(),
                i > 0 ==> exists|k: int| 0 <= k < i && best == obs[k],
                small ==> forall|k: int| 0 <= k < obs.len() ==> small_ratio(#[trigger] obs[k]),
                small ==> forall|j: int| 0 <= j < i ==> !ratio_lt(best, #[trigger] obs[j]),
            decreases obs.len() - i,
        {
            let r = self.obs_exp_position[i];
            let ghost prev = best;
            if i == 0 || ratio_less(best, r) {
                proof {
                    if small && i > 0 {
                        let k = choose|k: int| 0 <= k < i && prev == obs[k];
                        assert(small_ratio(prev));
                        assert forall|j: int| 0 <= j < i + 1 implies !ratio_lt(r, #[trigger] obs[j]) by {
                            if j < i && ratio_lt(r, obs[j]) {
                                assert(!ratio_lt(obs[j], r));
                                lemma_ratio_lt_trans(prev, r, obs[j]);
                            }
                        }
                    }
                }
                best = r;
            }
            i = i + 1;
        }
        best
    }
}

/// `a < b` as fractions.
pub open spec fn ratio_lt(a: Ratio, b: Ratio) -> bool {
    (a.num as int) * (b.den as int) < (b.num as int) * (a.den as int)
}

/// Numerators and denominators below 2^64, denominators not zero.
pub open spec fn small_ratio(a: Ratio) -> bool {
    &&& a.num < 0x1_0000_0000_0000_0000
    &&& 0 < a.den < 0x1_0000_0000_0000_0000
}

proof fn lemma_ratio_lt_trans(a: Ratio, b: Ratio, c: Ratio)
    requires
        a.den > 0,
        b.den > 0,
        c.den > 0,
        ratio_lt(a, b),
        !ratio_lt(c, b),
    ensures
        ratio_lt(a, c),
{
    let (an, ad, bn, bd, cn, cd) = (a.num as int, a.den as int, b.num as int, b.den as int, c.num as int, c.den as int);
    assert(an * cd < cn * ad) by (nonlinear_arith)
        requires
            an * bd < bn * ad,
            bn * cd <= cn * bd,
            ad > 0,
            bd > 0,
            cd > 0,
            an >= 0,
            bn >= 0,
            cn >= 0,
    ;
}

proof fn lemma_ratio_le_lt(a: Ratio, b: Ratio, c: Ratio)
    requires
        a.den > 0,
        b.den > 0,
        c.den > 0,
        !ratio_lt(b, a),
        ratio_lt(b, c),
    ensures
        ratio_lt(a, c),
{
    let (an, ad, bn, bd, cn, cd) = (a.num as int, a.den as int, b.num as int, b.den as int, c.num as int, c.den as int);
    assert(an * cd < cn * ad) by (nonlinear_arith)
        requires
            an * bd <= bn * ad,
            bn * cd < cn * bd,
            ad > 0,
            bd > 0,
            cd > 0,
            an >= 0,
            bn >= 0,
            cn >= 0,
    ;
}

/// `a < b` for ratios with non-zero denominators, compared exactly.
fn ratio_less(a: Ratio, b: Ratio) -> (r: bool)
    ensures
        small_ratio(a) && small_ratio(b) ==> r == ratio_lt(a, b),
{
    if a.num >= 0x1_0000_0000_0000_0000 || b.num >= 0x1_0000_0000_0000_0000 || a.den >= 0x1_0000_0000_0000_0000
        || b.den >= 0x1_0000_0000_0000_0000 {
        return false;
    }
    proof {
        assert(a.num * b.den < 0x1_0000_0000_0000_0000 * 0x1_0000_0000_0000_0000) by (nonlinear_arith)
            requires
                a.num < 0x1_0000_0000_0000_0000,
                b.den < 0x1_0000_0000_0000_0000,
        ;
        assert(b.num * a.den < 0x1_0000_0000_0000_0000 * 0x1_0000_0000_0000_0000) by (nonlinear_arith)
            requires
                b.num < 0x1_0000_0000_0000_0000,
                a.den < 0x1_0000_0000_0000_0000,
        ;
    }
    a.num * b.den < b.num * a.den
}

/// Most k-mer sightings a sampled read can add.
pub const KMERS_PER_READ: usize = 512;

/// The k-mer of `seq` starting at `i` holds no `N`.
pub open spec fn called_kmer(seq: Seq<u8>, i: int) -> bool {
    forall|j: int| i <= j < i + KMER_SIZE ==> seq[j] != 78
}

/// Length of a read of `len` bases after cutting to 500 bases.
pub open spec fn cut_length(len: int) -> int {
    if len > KMER_READ_LIMIT { KMER_READ_LIMIT as int } else { len }
}

/// The larger of two lengths.
pub open spec fn longer_of(a: int, b: int) -> int {
    if a > b { a } else { b }
}

/// Number of k-mers in a read of `len` bases after cutting.
pub open spec fn kmer_count(len: int) -> int {
    let l = if len > KMER_READ_LIMIT { KMER_READ_LIMIT as int } else { len };
    if l >= KMER_SIZE { l - KMER_SIZE + 1 } else { 0 }
}

/// The k-mer of `seq` starting at `i`, as characters, when its bytes are
/// valid UTF-8.
pub open spec fn kmer_key(seq: Seq<u8>, i: int) -> Option<Seq<char>> {
    let b = seq.subrange(i, i + KMER_SIZE);
    if valid_utf8(b) {
        Some(decode_utf8(b))
    } else {
        None
    }
}

/// Number of the first `n` k-mers of `seq` that are `k`.
pub open spec fn occurrences(seq: Seq<u8>, n: int, k: Seq<char>) -> int
    decreases n,
{
    if n <= 0 {
        0
    } else {
        occurrences(seq, n - 1, k) + if kmer_key(seq, n - 1) == Some(k) {
            1int
        } else {
            0int
        }
    }
}

/// Per-position totals `t` after a sampled read with bases `seq`: grown
/// to the read's k-mers, one more at each position whose k-mer holds no `N`.
pub open spec fn totals_after(t: Seq<usize>, seq: Seq<u8>) -> Seq<usize> {
    let n = kmer_count(seq.len() as int);
    Seq::new(
        (if n > t.len() { n } else { t.len() as int }) as nat,
        |i: int|
            ((if i < t.len() { t[i] as int } else { 0 }) + if i < n && called_kmer(seq, i) {
                1int
            } else {
                0int
            }) as usize,
    )
}

/// K-mers of sampled reads: per position the number of k-mers without `N`,
/// and per distinct k-mer its sightings.
pub struct KmerContent {
    kmers: StringHashMap<usize>,
    records: Vec<Kmer>,
    longest_sequence: usize,
    total_kmer_counts: Vec<usize>,
    skip_count: usize,
    sampled: usize,
}

impl KmerContent {
    pub closed spec fn spec_totals(&self) -> Seq<usize> {
        self.total_kmer_counts@
    }

    pub closed spec fn spec_skip(&self) -> int {
        self.skip_count as int
    }

    pub closed spec fn spec_sampled(&self) -> int {
        self.sampled as int
    }

    pub closed spec fn spec_longest(&self) -> int {
        self.longest_sequence as int
    }

    pub closed spec fn spec_records(&self) -> Seq<Kmer> {
        self.records@
    }

    pub closed spec fn spec_index(&self) -> Map<Seq<char>, usize> {
        self.kmers@
    }

    /// Sightings of k-mer `k`; zero for one not seen.
    pub open spec fn count_of(&self, k: Seq<char>) -> int {
        if self.spec_index().contains_key(k) {
            self.spec_records()[self.spec_index()[k] as int].spec_count()
        } else {
            0
        }
    }

    /// Sightings of k-mer `k` at position `p`; zero for one not seen there.
    pub open spec fn position_count(&self, k: Seq<char>, p: int) -> int {
        if self.spec_index().contains_key(k) {
            let ps = self.spec_records()[self.spec_index()[k] as int].spec_positions();
            if 0 <= p < ps.len() {
                ps[p] as int
            } else {
                0
            }
        } else {
            0
        }
    }

    /// The index maps each k-mer to its record; sightings stay within what
    /// the sampled reads can hold.
    pub open spec fn wf(&self) -> bool {
        &&& self.spec_sampled() <= self.spec_skip()
        &&& self.spec_sampled() < usize::MAX / KMERS_PER_READ
        &&& self.spec_longest() <= KMER_READ_LIMIT
        &&& self.spec_totals().len() <= KMER_READ_LIMIT
        &&& forall|k: Seq<char>| #[trigger] self.spec_index().contains_key(k) ==> {
            &&& (self.spec_index()[k] as int) < self.spec_records().len()
            &&& self.spec_records()[self.spec_index()[k] as int].spec_sequence() == k
        }
        &&& forall|i: int| 0 <= i < self.spec_totals().len() ==> #[trigger] self.spec_totals()[i] <= self.spec_sampled()
        &&& forall|r: int|
            0 <= r < self.spec_records().len() ==> {
                &&& (#[trigger] self.spec_records()[r]).spec_count() <= KMERS_PER_READ * self.spec_sampled()
                &&& self.spec_records()[r].spec_positions().len() <= KMER_READ_LIMIT
                &&& forall|i: int|
                    0 <= i < self.spec_records()[r].spec_positions().len() ==> #[trigger] self.spec_records()[r].spec_positions()[i]
                        <= self.spec_sampled()
            }
    }

    /// Counting more reads as sampled or skipped keeps the bounds.
    proof fn lemma_wf_more_sampled(&self, o: KmerContent)
        requires
            o.wf(),
            self.spec_totals() == o.spec_totals(),
            self.spec_records() == o.spec_records(),
            self.spec_index() == o.spec_index(),
            self.spec_sampled() >= o.spec_sampled(),
            self.spec_skip() >= self.spec_sampled(),
            self.spec_sampled() < usize::MAX / KMERS_PER_READ,
            self.spec_longest() <= KMER_READ_LIMIT,
        ensures
            self.wf(),
    {
        assert forall|r: int| 0 <= r < self.spec_records().len() implies {
            &&& (#[trigger] self.spec_records()[r]).spec_count() <= KMERS_PER_READ * self.spec_sampled()
            &&& self.spec_records()[r].spec_positions().len() <= KMER_READ_LIMIT
            &&& forall|i: int|
                0 <= i < self.spec_records()[r].spec_positions().len() ==> #[trigger] self.spec_records()[r].spec_positions()[i]
                    <= self.spec_sampled()
        } by {
            assert(o.spec_records()[r].spec_count() <= KMERS_PER_READ * o.spec_sampled());
            assert(KMERS_PER_READ * o.spec_sampled() <= KMERS_PER_READ * self.spec_sampled());
        }
    }

    /// No reads seen.
    pub fn new() -> (r: KmerContent)
        ensures
            r.wf(),
            r.spec_skip() == 0,
            r.spec_totals().len() == 0,
            r.spec_records().len() == 0,
    {
        KmerContent {
            kmers: StringHashMap::new(),
            records: Vec::new(),
            longest_sequence: 0,
            total_kmer_counts: Vec::new(),
            skip_count: 0,
            sampled: 0,
        }
    }

    /// Per position, the number of k-mers without `N` in sampled reads.
    pub fn total_kmer_counts(&self) -> (r: &Vec<usize>)
        ensures
            r@ == self.spec_totals(),
    {
        &self.total_kmer_counts
    }

    /// The distinct k-mers seen, with their sightings.
    pub fn kmers(&self) -> (r: &Vec<Kmer>)
        ensures
            r@ == self.spec_records(),
    {
        &self.records
    }

    /// The report holds, for each k-mer of `records` (the k-mers before the
    /// report was filled) and each group of `groups`, its observed over
    /// expected sightings.
    pub open spec fn enrichment_is(&self, groups: Seq<BaseGroup>, records: Seq<Kmer>) -> bool {
        let totals = self.spec_totals();
        let total = clipped_sum(totals, 0, totals.len() as int);
        &&& BaseGroup::are_base_groups(
            groups,
            if self.spec_longest() >= KMER_SIZE { self.spec_longest() - KMER_SIZE + 1 } else { 0 },
        )
        &&& self.spec_records().len() == records.len()
        &&& forall|r: int|
            0 <= r < records.len() ==> {
                let k = #[trigger] self.spec_records()[r];
                &&& k.spec_sequence() == records[r].spec_sequence()
                &&& k.spec_count() == records[r].spec_count()
                &&& k.spec_positions() == records[r].spec_positions()
                &&& k.spec_obs_exp().len() == groups.len()
                &&& forall|g: int|
                    0 <= g < groups.len() ==> k.spec_obs_exp()[g] == obs_exp(
                        records[r].spec_positions(),
                        totals,
                        records[r].spec_count(),
                        total,
                        groups[g].lower_count as int,
                        groups[g].upper_count as int,
                    )
            }
    }

    /// For every k-mer and every group of positions, its observed over
    /// expected sightings there (see `obs_exp`).
    pub fn calculate_enrichment(&mut self)
        requires
            old(self).wf(),
        ensures
            final(self).wf(),
            final(self).spec_totals() == old(self).spec_totals(),
            final(self).spec_skip() == old(self).spec_skip(),
            final(self).spec_sampled() == old(self).spec_sampled(),
            exists|groups: Seq<BaseGroup>| #[trigger] final(self).enrichment_is(groups, old(self).spec_records()),
    {
        let max_len: usize = if self.longest_sequence >= KMER_SIZE {
            self.longest_sequence - KMER_SIZE + 1
        } else {
            0
        };
        let groups = BaseGroup::make_base_groups(max_len);
        proof {
            BaseGroup::lemma_groups_in_range(groups@, max_len as int);
        }
        let ghost old_records = self.spec_records();
        let ghost bound = self.spec_sampled();
        let total = clipped_sum_of(&self.total_kmer_counts, 0, self.total_kmer_counts.len(), Ghost(bound));
        let mut r: usize = 0;
        while r < self.records.len()
            invariant
                self.wf(),
                self.spec_sampled() == bound,
                self.spec_totals() == old(self).spec_totals(),
                self.spec_skip() == old(self).spec_skip(),
                self.spec_longest() == old(self).spec_longest(),
                self.spec_index() == old(self).spec_index(),
                bound == old(self).spec_sampled(),
                old_records == old(self).spec_records(),
                total == clipped_sum(self.spec_totals(), 0, self.spec_totals().len() as int),
                total <= KMER_READ_LIMIT * bound,
                BaseGroup::are_base_groups(groups@, max_len as int),
                forall|k: int| 0 <= k < groups@.len() ==> 1 <= (#[trigger] groups@[k]).lower_count,
                max_len == (if self.spec_longest() >= KMER_SIZE { self.spec_longest() - KMER_SIZE + 1 } else { 0 }),
                self.spec_records().len() == old_records.len(),
                r <= old_records.len(),
                forall|j: int| r <= j < old_records.len() ==> #[trigger] self.spec_records()[j] == old_records[j],
                forall|j: int|
                    0 <= j < r ==> {
                        let k = #[trigger] self.spec_records()[j];
                        &&& k.spec_sequence() == old_records[j].spec_sequence()
                        &&& k.spec_count() == old_records[j].spec_count()
                        &&& k.spec_positions() == old_records[j].spec_positions()
                        &&& k.spec_obs_exp().len() == groups@.len()
                        &&& forall|g: int|
                            0 <= g < groups@.len() ==> k.spec_obs_exp()[g] == obs_exp(
                                old_records[j].spec_positions(),
                                self.spec_totals(),
                                old_records[j].spec_count(),
                                total as int,
                                groups@[g].lower_count as int,
                                groups@[g].upper_count as int,
                            )
                    },
            decreases old_records.len() - r,
        {
            let mut rec = Kmer::new(String::new(), 0, 1);
            std::mem::swap(&mut rec, &mut self.records[r]);
            let ghost orec = rec;
            let ghost swapped = self.spec_records();
            assert(orec == old_records[r as int]);
            proof {
                assert(orec.spec_count() <= KMERS_PER_READ * bound);
                assert(orec.spec_positions().len() <= KMER_READ_LIMIT);
                assert forall|i: int| 0 <= i < orec.spec_positions().len() implies orec.spec_positions()[i] <= bound by {
                    assert(old_records[r as int].spec_positions()[i] <= bound);
                }
                assert forall|i: int| 0 <= i < self.spec_totals().len() implies #[trigger] self.spec_totals()[i] <= bound by {}
            }
            let mut row: Vec<Ratio> = Vec::new();
            let mut g: usize = 0;
            while g < groups.len()
                invariant
                    self.spec_totals() == old(self).spec_totals(),
                    self.spec_totals().len() <= KMER_READ_LIMIT,
                    forall|i: int| 0 <= i < self.spec_totals().len() ==> #[trigger] self.spec_totals()[i] <= bound,
                    0 <= bound < usize::MAX / KMERS_PER_READ,
                    total <= KMER_READ_LIMIT * bound,
                    rec == orec,
                    orec.spec_positions().len() <= KMER_READ_LIMIT,
                    forall|i: int| 0 <= i < orec.spec_positions().len() ==> orec.spec_positions()[i] <= bound,
                    orec.spec_count() <= KMERS_PER_READ * bound,
                    forall|k: int| 0 <= k < groups@.len() ==> 1 <= (#[trigger] groups@[k]).lower_count,
                    g <= groups@.len(),
                    row@.len() == g,
                    forall|k: int|
                        0 <= k < g ==> #[trigger] row@[k] == obs_exp(
                            orec.spec_positions(),
                            self.spec_totals(),
                            orec.spec_count(),
                            total as int,
                            groups@[k].lower_count as int,
                            groups@[k].upper_count as int,
                        ),
                decreases groups@.len() - g,
            {
                let lo = groups[g].lower_count - 1;
                let hi = groups[g].upper_count;
                let hits = clipped_sum_of(&rec.positions, lo, hi, Ghost(bound));
                let group_total = clipped_sum_of(&self.total_kmer_counts, lo, hi, Ghost(bound));
                proof {
                    assert(KMER_READ_LIMIT * bound < 0x1_0000_0000_0000_0000) by (nonlinear_arith)
                        requires
                            0 <= bound < usize::MAX / KMERS_PER_READ,
                    ;
                    assert(KMERS_PER_READ * bound < 0x1_0000_0000_0000_0000) by (nonlinear_arith)
                        requires
                            0 <= bound < usize::MAX / KMERS_PER_READ,
                    ;
                    assert(hits * total < 0x1_0000_0000_0000_0000 * 0x1_0000_0000_0000_0000) by (nonlinear_arith)
                        requires
                            hits < 0x1_0000_0000_0000_0000,
                            total < 0x1_0000_0000_0000_0000,
                    ;
                    assert(rec.count * group_total < 0x1_0000_0000_0000_0000 * 0x1_0000_0000_0000_0000) by (nonlinear_arith)
                        requires
                            rec.count < 0x1_0000_0000_0000_0000,
                            group_total < 0x1_0000_0000_0000_0000,
                    ;
                }
                row.push(Ratio::of(hits * total, (rec.count as u128) * group_total));
                g = g + 1;
            }
            rec.obs_exp_position = row;
            self.records.set(r, rec);
            proof {
                assert forall|j: int| 0 <= j < self.spec_records().len() implies {
                    &&& (#[trigger] self.spec_records()[j]).spec_count() <= KMERS_PER_READ * self.spec_sampled()
                    &&& self.spec_records()[j].spec_positions().len() <= KMER_READ_LIMIT
                    &&& forall|i: int|
                        0 <= i < self.spec_records()[j].spec_positions().len() ==> #[trigger] self.spec_records()[j].spec_positions()[i]
                            <= self.spec_sampled()
                } by {
                    if j != r {
                        assert(self.spec_records()[j] == swapped[j]);
                        assert(swapped[j] == old(self).spec_records()[j] || j != r);
                    }
                }
                assert forall|k: Seq<char>| #[trigger] self.spec_index().contains_key(k) implies {
                    &&& (self.spec_index()[k] as int) < self.spec_records().len()
                    &&& self.spec_records()[self.spec_index()[k] as int].spec_sequence() == k
                } by {
                    assert(old(self).spec_index().contains_key(k));
                    let j = self.spec_index()[k] as int;
                    if j != r {
                        assert(self.spec_records()[j] == old(self).spec_records()[j] || j < r);
                    }
                }
            }
            r = r + 1;
        }
        assert(self.enrichment_is(groups@, old_records));
    }

    /// Counts one more k-mer at `position` when it holds no `N`, growing the
    /// per-position totals to cover `position`.
    fn add_kmer_count(&mut self, position: usize, called: bool)
        requires
            old(self).spec_totals().len() >= position,
            position < KMER_READ_LIMIT,
            called ==> position < old(self).spec_totals().len() ==> old(self).spec_totals()[position as int] < usize::MAX,
        ensures
            final(self).spec_totals() == (if position < old(self).spec_totals().len() {
                old(self).spec_totals()
            } else {
                old(self).spec_totals().push(0usize)
            }).update(
                position as int,
                ((if position < old(self).spec_totals().len() {
                    old(self).spec_totals()[position as int] as int
                } else {
                    0
                }) + if called { 1int } else { 0int }) as usize,
            ),
            final(self).spec_records() == old(self).spec_records(),
            final(self).spec_index() == old(self).spec_index(),
            final(self).spec_skip() == old(self).spec_skip(),
            final(self).spec_sampled() == old(self).spec_sampled(),
            final(self).spec_longest() == old(self).spec_longest(),
    {
        if position >= self.total_kmer_counts.len() {
            self.total_kmer_counts.push(0);
        }
        if called {
            let v = self.total_kmer_counts[position] + 1;
            self.total_kmer_counts.set(position, v);
        } else {
            let v = self.total_kmer_counts[position];
            self.total_kmer_counts.set(position, v);
        }
    }

    /// What one call of `process_sequence` does, from `o` to `n`.
    pub open spec fn processed(o: Self, n: Self, record: SeqRecord) -> bool {
        &&& (n.spec_skip() == o.spec_skip() + 1)
        &&& (n.spec_skip() % (KMER_SAMPLE_EVERY as int) != 0 ==> {
                &&& n.spec_totals() == o.spec_totals()
                &&& n.spec_records() == o.spec_records()
                &&& n.spec_index() == o.spec_index()
                &&& n.spec_longest() == o.spec_longest()
            })
        &&& (n.spec_skip() % (KMER_SAMPLE_EVERY as int) == 0 ==> {
                &&& n.spec_totals() == totals_after(o.spec_totals(), record.seq@)
                &&& n.spec_longest() == longer_of(o.spec_longest(), cut_length(record.seq@.len() as int))
                &&& n.spec_records().len() >= o.spec_records().len()
                &&& forall|k: Seq<char>|
                    #[trigger] n.count_of(k) == o.count_of(k) + occurrences(
                        record.seq@,
                        kmer_count(record.seq@.len() as int),
                        k,
                    )
                &&& forall|k: Seq<char>, p: int|
                    #[trigger] n.position_count(k, p) == o.position_count(k, p) + if 0 <= p
                        < kmer_count(record.seq@.len() as int) && kmer_key(record.seq@, p) == Some(k) {
                        1int
                    } else {
                        0int
                    }
            })
    }

    /// Counts the k-mers of one read in fifty (the first 500 bases of it):
    /// the per-position totals of k-mers without `N`, and each k-mer's
    /// sightings by position. Other reads are only counted as skipped.
    pub fn process_sequence(&mut self, record: &SeqRecord)
        requires
            old(self).wf(),
            old(self).spec_skip() < usize::MAX / KMERS_PER_READ,
        ensures
            final(self).wf(),
            Self::processed(*old(self), *final(self), *record),
    {
        self.skip_count = self.skip_count + 1;
        if self.skip_count % KMER_SAMPLE_EVERY != 0 {
            assert(self.wf()) by {
                self.lemma_wf_more_sampled(*old(self));
            }
            return;
        }
        self.sampled = self.sampled + 1;
        proof {
            self.lemma_wf_more_sampled(*old(self));
        }
        let seq = prefix_bytes(record.seq.as_slice(), KMER_READ_LIMIT);
        let len = seq.len();
        if len > self.longest_sequence {
            self.longest_sequence = len;
        }
        let ghost t0 = self.spec_totals();
        if len < KMER_SIZE {
            assert(kmer_count(record.seq@.len() as int) == 0);
            assert forall|k: Seq<char>| #[trigger] self.count_of(k) == old(self).count_of(k) + occurrences(
                record.seq@,
                kmer_count(record.seq@.len() as int),
                k,
            ) by {}
            assert(self.spec_totals() =~= totals_after(t0, record.seq@));
            proof {
                self.lemma_wf_more_sampled(*old(self));
            }
            return;
        }
        let n = len - KMER_SIZE + 1;
        let mut i: usize = 0;
        proof {
            assert(self.spec_index() == old(self).spec_index());
            assert(self.spec_records() == old(self).spec_records());
            assert forall|k: int| 0 <= k < t0.len() implies #[trigger] t0[k] <= old(self).spec_sampled() by {
                assert(old(self).spec_totals()[k] <= old(self).spec_sampled());
            }
            assert forall|k: Seq<char>| #[trigger] self.spec_index().contains_key(k) implies {
                &&& (self.spec_index()[k] as int) < self.spec_records().len()
                &&& self.spec_records()[self.spec_index()[k] as int].spec_sequence() == k
            } by {
                assert(old(self).spec_index().contains_key(k));
            }
        }
        while i < n
            invariant
                len <= record.seq@.len(),
                n == kmer_count(record.seq@.len() as int),
                seq@ == record.seq@.subrange(0, len as int),
                len == seq@.len(),
                n == len - KMER_SIZE + 1,
                len <= KMER_READ_LIMIT,
                i <= n,
                self.spec_sampled() <= self.spec_skip(),
                self.spec_skip() == old(self).spec_skip() + 1,
                self.spec_sampled() == old(self).spec_sampled() + 1,
                t0 == old(self).spec_totals(),
                self.spec_totals().len() == if i > t0.len() { i as int } else { t0.len() as int },
                forall|k: int|
                    0 <= k < self.spec_totals().len() ==> #[trigger] self.spec_totals()[k] == (if k < t0.len() {
                        t0[k] as int
                    } else {
                        0
                    }) + if k < i && called_kmer(record.seq@, k) {
                        1int
                    } else {
                        0int
                    },
                forall|k: int| 0 <= k < t0.len() ==> #[trigger] t0[k] <= old(self).spec_sampled(),
                forall|k: Seq<char>| #[trigger] self.spec_index().contains_key(k) ==> {
                    &&& (self.spec_index()[k] as int) < self.spec_records().len()
                    &&& self.spec_records()[self.spec_index()[k] as int].spec_sequence() == k
                },
                self.spec_records().len() >= old(self).spec_records().len(),
                forall|r: int|
                    0 <= r < self.spec_records().len() ==> {
                        &&& (#[trigger] self.spec_records()[r]).spec_count() <= KMERS_PER_READ * old(self).spec_sampled() + i
                        &&& self.spec_records()[r].spec_positions().len() <= KMER_READ_LIMIT
                        &&& forall|p: int|
                            0 <= p < self.spec_records()[r].spec_positions().len() ==> #[trigger] self.spec_records()[r].spec_positions()[p]
                                <= old(self).spec_sampled() + if p < i { 1int } else { 0int }
                    },
                old(self).spec_sampled() < usize::MAX / KMERS_PER_READ,
                self.spec_sampled() < usize::MAX / KMERS_PER_READ,
                self.spec_longest() <= KMER_READ_LIMIT,
                self.spec_longest() == longer_of(old(self).spec_longest(), cut_length(record.seq@.len() as int)),
                self.spec_totals().len() <= KMER_READ_LIMIT,
                forall|k: Seq<char>|
                    #[trigger] self.count_of(k) == old(self).count_of(k) + occurrences(record.seq@, i as int, k),
                forall|k: Seq<char>, p: int|
                    #[trigger] self.position_count(k, p) == old(self).position_count(k, p) + if 0 <= p < i
                        && kmer_key(record.seq@, p) == Some(k) {
                        1int
                    } else {
                        0int
                    },
            decreases n - i,
        {
            let ghost head = *self;
            let mut called = true;
            let mut j: usize = i;
            while j < i + KMER_SIZE
                invariant
                    len <= record.seq@.len(),
                    i < n,
                    n == len - KMER_SIZE + 1,
                    len == seq@.len(),
                    seq@ == record.seq@.subrange(0, len as int),
                    i <= j <= i + KMER_SIZE,
                    called <==> forall|m: int| i <= m < j ==> record.seq@[m] != 78,
                decreases i + KMER_SIZE - j,
            {
                assert(seq@[j as int] == record.seq@[j as int]);
                if seq[j] == 78 {
                    called = false;
                }
                j = j + 1;
            }
            proof {
                if i < t0.len() {
                    assert(self.spec_totals()[i as int] <= old(self).spec_sampled());
                }
            }
            self.add_kmer_count(i, called);
            let piece = slice_bytes(&seq, i, i + KMER_SIZE);
            assert(piece@ == record.seq@.subrange(i as int, i + KMER_SIZE));
            let ghost before = *self;
            match string_from_utf8(piece) {
                Some(key) => {
                    assert(kmer_key(record.seq@, i as int) == Some(key@));
                    let found = match self.kmers.get(key.as_str()) {
                        Some(idx) => Some(*idx),
                        None => None,
                    };
                    match found {
                        Some(idx) => {
                            let mut rec = Kmer::new(String::new(), 0, 1);
                            std::mem::swap(&mut rec, &mut self.records[idx]);
                            proof {
                                assert(rec.spec_count() <= KMERS_PER_READ * old(self).spec_sampled() + i);
                                let os = old(self).spec_sampled();
                                assert((KMERS_PER_READ * os + i) < usize::MAX) by (nonlinear_arith)
                                    requires
                                        os < usize::MAX / KMERS_PER_READ,
                                        i < KMER_READ_LIMIT,
                                ;
                                if (i as int) < rec.spec_positions().len() {
                                    assert(rec.spec_positions()[i as int] <= old(self).spec_sampled());
                                }
                            }
                            rec.increment_count(i);
                            self.records.set(idx, rec);
                            proof {
                                assert forall|k: Seq<char>| #[trigger] self.count_of(k) == before.count_of(k) + if k
                                    == key@ { 1int } else { 0int } by {
                                    if k != key@ && before.spec_index().contains_key(k) {
                                        assert(before.spec_index()[k] != idx);
                                    }
                                }
                                assert forall|k: Seq<char>, p: int| #[trigger] self.position_count(k, p)
                                    == before.position_count(k, p) + if k == key@ && p == i { 1int } else { 0int } by {
                                    if k != key@ && before.spec_index().contains_key(k) {
                                        assert(before.spec_index()[k] != idx);
                                    }
                                }
                            }
                        },
                        None => {
                            let rec = Kmer::new(key.clone(), i, n);
                            self.records.push(rec);
                            let ghost ix = self.spec_index();
                            let ghost kv = key@;
                            self.kmers.insert(key, self.records.len() - 1);
                            proof {
                                assert forall|k: Seq<char>| #[trigger] self.count_of(k) == before.count_of(k) + if k
                                    == kv { 1int } else { 0int } by {
                                    if k != kv && before.spec_index().contains_key(k) {
                                        assert(self.spec_records()[before.spec_index()[k] as int]
                                            == before.spec_records()[before.spec_index()[k] as int]);
                                    }
                                }
                                assert forall|k: Seq<char>, p: int| #[trigger] self.position_count(k, p)
                                    == before.position_count(k, p) + if k == kv && p == i { 1int } else { 0int } by {
                                    if k != kv && before.spec_index().contains_key(k) {
                                        assert(self.spec_records()[before.spec_index()[k] as int]
                                            == before.spec_records()[before.spec_index()[k] as int]);
                                    }
                                }
                            }
                        },
                    }
                },
                None => {
                    assert(kmer_key(record.seq@, i as int) is None);
                },
            }
            proof {
                assert forall|k: Seq<char>| #[trigger] self.count_of(k) == old(self).count_of(k) + occurrences(
                    record.seq@,
                    i + 1,
                    k,
                ) by {
                    assert(head.count_of(k) == old(self).count_of(k) + occurrences(record.seq@, i as int, k));
                    assert(before.spec_index() == head.spec_index() && before.spec_records() == head.spec_records());
                    assert(before.count_of(k) == head.count_of(k));
                    if kmer_key(record.seq@, i as int) is None {
                        assert(self.count_of(k) == before.count_of(k));
                    }
                }
                assert forall|k: Seq<char>, p: int| #[trigger] self.position_count(k, p) == old(self).position_count(
                    k,
                    p,
                ) + if 0 <= p < i + 1 && kmer_key(record.seq@, p) == Some(k) {
                    1int
                } else {
                    0int
                } by {
                    assert(head.position_count(k, p) == old(self).position_count(k, p) + if 0 <= p < i
                        && kmer_key(record.seq@, p) == Some(k) {
                        1int
                    } else {
                        0int
                    });
                    assert(before.spec_index() == head.spec_index() && before.spec_records() == head.spec_records());
                    assert(before.position_count(k, p) == old(self).position_count(k, p) + if 0 <= p < i
                        && kmer_key(record.seq@, p) == Some(k) {
                        1int
                    } else {
                        0int
                    });
                    if kmer_key(record.seq@, i as int) is None {
                        assert(self.position_count(k, p) == before.position_count(k, p));
                    }
                }
            }
            i = i + 1;
        }
        assert(self.spec_totals() =~= totals_after(t0, record.seq@));
    }
}

/// Sum of `v[lo..hi]`, cut at the end of `v`.
pub open spec fn clipped_sum(v: Seq<usize>, lo: int, hi: int) -> int {
    let top = if hi < v.len() { hi } else { v.len() as int };
    if lo < top { sum_range(v, lo, top) } else { 0 }
}

/// Observed over expected sightings of a k-mer seen `count` times over the
/// positions `lower..=upper` (1-based), when `total` k-mers were counted in
/// all: `hits / (count / total * group_total)`.
pub open spec fn obs_exp(positions: Seq<usize>, totals: Seq<usize>, count: int, total: int, lower: int, upper: int) -> Ratio {
    ratio_of(
        clipped_sum(positions, lower - 1, upper) * total,
        count * clipped_sum(totals, lower - 1, upper),
    )
}

/// Sum of `v[lo..hi]` cut at the end of `v`, each entry at most `bound`.
fn clipped_sum_of(v: &Vec<usize>, lo: usize, hi: usize, bound: Ghost<int>) -> (r: u128)
    requires
        v@.len() <= KMER_READ_LIMIT,
        0 <= bound@ < usize::MAX / KMERS_PER_READ,
        forall|i: int| 0 <= i < v@.len() ==> v@[i] <= bound@,
    ensures
        r == clipped_sum(v@, lo as int, hi as int),
        r <= KMER_READ_LIMIT * bound@,
{
    let top = if hi < v.len() { hi } else { v.len() };
    if lo >= top {
        return 0;
    }
    let mut sum: u128 = 0;
    let mut i: usize = lo;
    while i < top
        invariant
            lo <= i <= top <= v@.len() <= KMER_READ_LIMIT,
            0 <= bound@ < usize::MAX / KMERS_PER_READ,
            forall|k: int| 0 <= k < v@.len() ==> v@[k] <= bound@,
            sum == sum_range(v@, lo as int, i as int),
            sum <= (i - lo) * bound@,
        decreases top - i,
    {
        proof {
            let w = i - lo;
            assert(w * bound@ + bound@ == (w + 1) * bound@) by (nonlinear_arith);
            assert((w + 1) * bound@ <= KMER_READ_LIMIT * bound@) by (nonlinear_arith)
                requires
                    w + 1 <= KMER_READ_LIMIT,
                    bound@ >= 0,
            ;
        }
        sum = sum + v[i] as u128;
        i = i + 1;
    }
    proof {
        assert((top - lo) * bound@ <= KMER_READ_LIMIT * bound@) by (nonlinear_arith)
            requires
                top - lo <= KMER_READ_LIMIT,
                bound@ >= 0,
        ;
    }
    sum
}

/// The bytes `v[from..to]`.
fn slice_bytes(v: &Vec<u8>, from: usize, to: usize) -> (r: Vec<u8>)
    requires
        from <= to <= v@.len(),
    ensures
        r@ == v@.subrange(from as int, to as int),
{
    let mut r: Vec<u8> = Vec::new();
    let mut i: usize = from;
    while i < to
        invariant
            from <= i <= to <= v@.len(),
            r@ == v@.subrange(from as int, i as int),
        decreases to - i,
    {
        r.push(v[i]);
        i = i + 1;
        assert(r@ =~= v@.subrange(from as int, i as int));
    }
    r
}

} // verus!
