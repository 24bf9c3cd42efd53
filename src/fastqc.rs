use vstd::prelude::*;
use crate::adapter::AdapterContent;
use crate::basic_stats::{add_counts, called_bases, read_counts, BasicStats};
use crate::content::{lemma_tallied_below, tallied, PerBaseNContent, PerBaseSeqContent};
use crate::dup::{OverRepresentedSeqs, SeqDuplicationLevel};
use crate::per_base::{counts_at, total_at, zero_counts, PerBaseSeqQuality};
use crate::quality::QUALITY_BUCKETS;
use crate::per_seq::{byte_max, byte_min, lemma_byte_min_ge, PerSeqQualityScore};
use crate::quality::{PhredEncoding, QcError, QualityCount};
use crate::record::SeqRecord;
use crate::gc::PerSeqGCContent;
use crate::seq_len::SeqLenDistribution;
use crate::tile::PerTileQualityScore;
use crate::kmer::{KmerContent, KMERS_PER_READ};

verus! {

/// Highest quality character that any known encoding uses.
pub const MAX_QUALITY_CHAR: u8 = 126;

/// Longest read, in bases or qualities, that the accumulators accept.
pub const MAX_READ_LENGTH: usize = 0x1000_0000;

/// One of every accumulator, fed the same reads.
pub struct FastQC {
    pub basic_stats: BasicStats,
    pub per_base_seq_quality: PerBaseSeqQuality,
    pub per_seq_quality_score: PerSeqQualityScore,
    pub per_base_seq_content: PerBaseSeqContent,
    pub per_seq_gc_content: PerSeqGCContent,
    pub per_base_n_content: PerBaseNContent,
    pub seq_len_distribution: SeqLenDistribution,
    pub overrepresented_seqs: OverRepresentedSeqs,
    pub kmer_content: KmerContent,
    pub seq_duplication_level: SeqDuplicationLevel,
    pub adpater_content: AdapterContent,
    pub per_tile_quality_score: PerTileQualityScore,
}

/// Sum of the basic counts of the first `n` aggregators, added to `start`.
pub open spec fn merged_counts(start: Seq<int>, others: Seq<FastQC>, n: int) -> Seq<int>
    decreases n,
{
    if n <= 0 {
        start
    } else {
        add_counts(merged_counts(start, others, n - 1), others[n - 1].basic_stats.counts())
    }
}

/// Shortest read length over `start` and the first `n` aggregators.
pub open spec fn merged_min_length(start: int, others: Seq<FastQC>, n: int) -> int
    decreases n,
{
    if n <= 0 {
        start
    } else {
        let m = merged_min_length(start, others, n - 1);
        let v = others[n - 1].basic_stats.spec_min_length();
        if v < m { v } else { m }
    }
}

/// Longest read length over `start` and the first `n` aggregators.
pub open spec fn merged_max_length(start: int, others: Seq<FastQC>, n: int) -> int
    decreases n,
{
    if n <= 0 {
        start
    } else {
        let m = merged_max_length(start, others, n - 1);
        let v = others[n - 1].basic_stats.spec_max_length();
        if v > m { v } else { m }
    }
}

/// Lowest quality character over `start` and the first `n` aggregators.
pub open spec fn merged_lowest(start: int, others: Seq<FastQC>, n: int) -> int
    decreases n,
{
    if n <= 0 {
        start
    } else {
        let m = merged_lowest(start, others, n - 1);
        let v = others[n - 1].basic_stats.spec_lowest_char();
        if v < m { v } else { m }
    }
}

/// Highest quality character over `start` and the first `n` aggregators.
pub open spec fn merged_highest(start: int, others: Seq<FastQC>, n: int) -> int
    decreases n,
{
    if n <= 0 {
        start
    } else {
        let m = merged_highest(start, others, n - 1);
        let v = others[n - 1].basic_stats.spec_highest_char();
        if v > m { v } else { m }
    }
}

/// Number of quality histogram positions over `start` and the first `n`
/// aggregators.
pub open spec fn merged_positions(start: int, others: Seq<FastQC>, n: int) -> int
    decreases n,
{
    if n <= 0 {
        start
    } else {
        let m = merged_positions(start, others, n - 1);
        let v = others[n - 1].per_base_seq_quality.counts().len() as int;
        if v > m { v } else { m }
    }
}

/// Sum of bucket `b` at position `p` over the first `n` aggregators'
/// quality histograms, absent positions counting as empty.
pub open spec fn bucket_sum(others: Seq<FastQC>, n: int, p: int, b: int) -> int
    decreases n,
{
    if n <= 0 {
        0
    } else {
        bucket_sum(others, n - 1, p, b) + counts_at(others[n - 1].per_base_seq_quality.counts(), p)[b]
    }
}

proof fn lemma_positions_bound(start: int, others: Seq<FastQC>, n: int)
    requires
        0 <= n <= others.len(),
    ensures
        merged_positions(start, others, n) >= start,
        forall|k: int| 0 <= k < n ==> merged_positions(start, others, n) >= (#[trigger] others[k]).per_base_seq_quality.counts().len(),
    decreases n,
{
    if n > 0 {
        lemma_positions_bound(start, others, n - 1);
    }
}

proof fn lemma_bucket_sum_zero(others: Seq<FastQC>, n: int, p: int, b: int)
    requires
        0 <= n <= others.len(),
        0 <= b < QUALITY_BUCKETS,
        forall|k: int| 0 <= k < n ==> p >= (#[trigger] others[k]).per_base_seq_quality.counts().len(),
    ensures
        bucket_sum(others, n, p, b) == 0,
    decreases n,
{
    if n > 0 {
        lemma_bucket_sum_zero(others, n - 1, p, b);
        assert(counts_at(others[n - 1].per_base_seq_quality.counts(), p) == zero_counts());
    }
}

/// Reads of the first `n` aggregators.
pub open spec fn reads_of(others: Seq<FastQC>, n: int) -> int
    decreases n,
{
    if n <= 0 {
        0
    } else {
        reads_of(others, n - 1) + others[n - 1].basic_stats.spec_total_reads()
    }
}

/// Bases of the first `n` aggregators.
pub open spec fn bases_of(others: Seq<FastQC>, n: int) -> int
    decreases n,
{
    if n <= 0 {
        0
    } else {
        bases_of(others, n - 1) + others[n - 1].basic_stats.spec_total_bases()
    }
}

proof fn lemma_sums_nonneg(others: Seq<FastQC>, n: int)
    requires
        0 <= n <= others.len(),
    ensures
        0 <= reads_of(others, n),
        0 <= bases_of(others, n),
        forall|k: int| 0 <= k <= n ==> #[trigger] reads_of(others, k) <= reads_of(others, n),
        forall|k: int| 0 <= k <= n ==> #[trigger] bases_of(others, k) <= bases_of(others, n),
    decreases n,
{
    if n > 0 {
        lemma_sums_nonneg(others, n - 1);
        others[n - 1].basic_stats.lemma_nonneg();
    }
}

proof fn lemma_totals_bounded(qs: Seq<QualityCount>, r: int)
    requires
        r >= 0,
        forall|i: int| 0 <= i < qs.len() ==> (#[trigger] qs[i]).total() <= r,
    ensures
        forall|k: int| #[trigger] total_at(qs, k) <= r,
{
}

impl FastQC {
    /// Every accumulator is well formed, no counter exceeds the reads
    /// counted, and no per-position table outgrows the read length limit.
    pub open spec fn wf(&self) -> bool {
        let r = self.basic_stats.spec_total_reads();
        &&& self.basic_stats.wf()
        &&& self.per_base_seq_quality.wf()
        &&& self.per_seq_quality_score.wf()
        &&& self.per_base_seq_content.wf()
        &&& self.per_base_n_content.wf()
        &&& self.overrepresented_seqs.wf()
        &&& self.adpater_content.wf()
        &&& self.per_seq_gc_content.wf()
        &&& self.seq_len_distribution.wf()
        &&& self.per_tile_quality_score.wf()
        &&& self.per_seq_gc_content.spec_reads() <= r
        &&& self.seq_len_distribution.spec_reads() <= r
        &&& self.per_tile_quality_score.spec_total() <= r
        &&& self.kmer_content.wf()
        &&& self.kmer_content.spec_skip() <= r
        &&& forall|i: int|
            0 <= i < self.per_base_seq_quality.counts().len() ==> (
            #[trigger] self.per_base_seq_quality.counts()[i]).total() <= r
        &&& forall|i: int|
            0 <= i < self.per_seq_quality_score.spec_counts().len() ==> #[trigger] self.per_seq_quality_score.spec_counts()[i] <= r
        &&& self.per_base_seq_content.counts_below(r + 1)
        &&& self.per_base_n_content.counts_below(r + 1)
        &&& self.overrepresented_seqs.spec_count() <= r
        &&& self.adpater_content.spec_total_count() <= r
        &&& self.per_seq_quality_score.spec_lowest_char() >= self.basic_stats.spec_lowest_char()
        &&& self.per_base_seq_quality.counts().len() < MAX_READ_LENGTH
        &&& self.per_base_seq_content.spec_t().len() < MAX_READ_LENGTH
        &&& self.per_base_n_content.spec_n().len() < MAX_READ_LENGTH
        &&& self.adpater_content.spec_longest_sequence() < MAX_READ_LENGTH
    }

    /// Every report holds what its finaliser computes from the tallies of
    /// `o`, the aggregator before finishing: the encoding's offset and the
    /// GC fraction, the per-position quality statistics, the per-read
    /// quality distribution, base and N content, the length distribution,
    /// the duplication levels, adapter and k-mer enrichment, and the
    /// per-tile means and scale.
    pub open spec fn reports_filled(&self, o: FastQC) -> bool {
        let offset = self.basic_stats.spec_phred().offset;
        let lowest = o.per_seq_quality_score.spec_lowest_char();
        &&& offset == PhredEncoding::spec_encoding_of(o.basic_stats.spec_lowest_char())->Ok_0
        &&& self.basic_stats.spec_gc() == crate::arith::ratio_of(
            o.basic_stats.spec_g() + o.basic_stats.spec_c(),
            o.basic_stats.spec_total_bases(),
        )
        &&& exists|groups: Seq<crate::base_group::BaseGroup>|
            crate::base_group::BaseGroup::are_base_groups(groups, o.per_base_seq_quality.counts().len() as int)
                && #[trigger] self.per_base_seq_quality.report_is(groups, offset as int)
        &&& crate::per_seq::distribution_is(
            o.per_seq_quality_score.spec_counts(),
            if lowest < 64 { 32int } else { 64int },
            self.per_seq_quality_score.spec_y(),
            self.per_seq_quality_score.spec_x(),
            self.per_seq_quality_score.spec_max_counts(),
            self.per_seq_quality_score.spec_most_frequent_score(),
        )
        &&& exists|groups: Seq<crate::base_group::BaseGroup>|
            crate::base_group::BaseGroup::are_base_groups(groups, o.per_base_seq_content.spec_t().len() as int)
                && #[trigger] self.per_base_seq_content.report_is(groups)
        &&& exists|groups: Seq<crate::base_group::BaseGroup>|
            crate::base_group::BaseGroup::are_base_groups(groups, o.per_base_n_content.spec_n().len() as int)
                && #[trigger] self.per_base_n_content.report_is(groups)
        &&& exists|min: int, max: int, start: int, interval: int|
            #[trigger] self.seq_len_distribution.distribution_is(min, max, start, interval)
        &&& self.seq_duplication_level.levels_of(o.overrepresented_seqs)
        &&& exists|groups: Seq<crate::base_group::BaseGroup>|
            crate::base_group::BaseGroup::are_base_groups(
                groups,
                if o.adpater_content.spec_adapters().len() == 0 {
                    0
                } else {
                    crate::adapter::tracked_positions(
                        o.adpater_content.spec_longest_sequence(),
                        o.adpater_content.spec_longest_adapter(),
                    )
                },
            ) && #[trigger] self.adpater_content.enrichments_are(groups)
        &&& exists|groups: Seq<crate::base_group::BaseGroup>|
            #[trigger] self.kmer_content.enrichment_is(groups, o.kmer_content.spec_records())
        &&& exists|groups: Seq<crate::base_group::BaseGroup>|
            crate::base_group::BaseGroup::are_base_groups(
                groups,
                o.per_tile_quality_score.spec_current_length(),
            ) && #[trigger] self.per_tile_quality_score.means_are(groups, offset as int)
    }

    /// An aggregator that has seen no reads.
    pub fn new() -> (r: FastQC)
        ensures
            r.wf(),
            r.basic_stats.counts() == seq![0int, 0, 0, 0, 0, 0, 0],
    {
        FastQC {
            basic_stats: BasicStats::new(),
            per_base_seq_quality: PerBaseSeqQuality::new(),
            per_seq_quality_score: PerSeqQualityScore::new(),
            per_base_seq_content: PerBaseSeqContent::new(),
            per_seq_gc_content: PerSeqGCContent::new(),
            per_base_n_content: PerBaseNContent::new(),
            seq_len_distribution: SeqLenDistribution::new(),
            overrepresented_seqs: OverRepresentedSeqs::new(),
            kmer_content: KmerContent::new(),
            seq_duplication_level: SeqDuplicationLevel::new(),
            adpater_content: AdapterContent::new(),
            per_tile_quality_score: PerTileQualityScore::new(),
        }
    }

    /// The same aggregator, reporting under the file name `filename`.
    pub fn update_name(self, filename: &str) -> (r: FastQC)
        requires
            self.wf(),
        ensures
            r.wf(),
            r.basic_stats.spec_name() == filename@,
            r.basic_stats.counts() == self.basic_stats.counts(),
    {
        let mut s = self;
        let stats = s.basic_stats.update_name(filename);
        s.basic_stats = stats;
        s
    }

    /// Widens the whole run's range of quality characters to those of `qual`.
    pub fn set_highest_lowest_char(&mut self, qual: &Vec<u8>)
        requires
            old(self).wf(),
        ensures
            final(self).wf(),
            final(self).basic_stats.counts() == old(self).basic_stats.counts(),
            forall|i: int| 0 <= i < qual@.len() ==> final(self).basic_stats.spec_lowest_char() <= qual@[i],
            forall|i: int| 0 <= i < qual@.len() ==> final(self).basic_stats.spec_highest_char() >= qual@[i],
            final(self).basic_stats.spec_lowest_char() <= old(self).basic_stats.spec_lowest_char(),
            final(self).basic_stats.spec_highest_char() >= old(self).basic_stats.spec_highest_char(),
    {
        self.basic_stats.widen_quality_range(qual);
    }

    /// Feeds one read to every accumulator. A quality character above 126
    /// fits no encoding: the read is refused with the first such character
    /// and nothing is counted.
    pub fn process_sequence(&mut self, record: &SeqRecord) -> (r: Result<(), QcError>)
        requires
            old(self).wf(),
            old(self).basic_stats.spec_total_reads() < usize::MAX / KMERS_PER_READ,
            old(self).basic_stats.spec_total_bases() + record.seq@.len() <= usize::MAX,
            record.seq@.len() < MAX_READ_LENGTH,
            record.qual@.len() < MAX_READ_LENGTH,
        ensures
            final(self).wf(),
            (r is Err) <==> exists|i: int| 0 <= i < record.qual@.len() && record.qual@[i] > MAX_QUALITY_CHAR,
            r is Err ==> exists|i: int|
                {
                    &&& 0 <= i < record.qual@.len()
                    &&& record.qual@[i] > MAX_QUALITY_CHAR
                    &&& forall|j: int| 0 <= j < i ==> record.qual@[j] <= MAX_QUALITY_CHAR
                    &&& r == Err::<(), QcError>(QcError::QualityTooHigh(record.qual@[i] as usize))
                },
            r is Err ==> final(self).basic_stats.counts() == old(self).basic_stats.counts(),
            r is Ok ==> {
                &&& final(self).basic_stats.counts() == add_counts(old(self).basic_stats.counts(), read_counts(record.seq@))
                &&& final(self).basic_stats.spec_min_length() == if called_bases(record.seq@)
                    < old(self).basic_stats.spec_min_length() {
                    called_bases(record.seq@)
                } else {
                    old(self).basic_stats.spec_min_length()
                }
                &&& final(self).basic_stats.spec_max_length() == if called_bases(record.seq@)
                    > old(self).basic_stats.spec_max_length() {
                    called_bases(record.seq@)
                } else {
                    old(self).basic_stats.spec_max_length()
                }
                &&& final(self).basic_stats.spec_lowest_char() == byte_min(
                    record.qual@,
                    record.qual@.len() as int,
                    old(self).basic_stats.spec_lowest_char(),
                )
                &&& final(self).basic_stats.spec_highest_char() == byte_max(
                    record.qual@,
                    record.qual@.len() as int,
                    old(self).basic_stats.spec_highest_char(),
                )
                &&& forall|i: int|
                    0 <= i < record.qual@.len() ==> final(self).basic_stats.spec_lowest_char() <= record.qual@[i]
                &&& forall|i: int|
                    0 <= i < final(self).per_base_seq_quality.counts().len() ==> (#[trigger] final(self).per_base_seq_quality.counts()[i]).total() == total_at(
                        old(self).per_base_seq_quality.counts(),
                        i,
                    ) + if i < record.qual@.len() {
                        1int
                    } else {
                        0int
                    }
                &&& final(self).per_base_seq_content.spec_g() == tallied(
                    old(self).per_base_seq_content.spec_g(),
                    record.seq@,
                    71,
                    true,
                )
                &&& final(self).per_base_n_content.spec_n() == tallied(
                    old(self).per_base_n_content.spec_n(),
                    record.seq@,
                    78,
                    true,
                )
                &&& PerBaseSeqQuality::processed_qual(
                    old(self).per_base_seq_quality,
                    final(self).per_base_seq_quality,
                    record.qual,
                )
                &&& PerSeqQualityScore::processed(
                    old(self).per_seq_quality_score,
                    final(self).per_seq_quality_score,
                    *record,
                )
                &&& PerBaseSeqContent::processed(old(self).per_base_seq_content, final(self).per_base_seq_content, *record)
                &&& PerBaseNContent::processed(old(self).per_base_n_content, final(self).per_base_n_content, *record)
                &&& PerSeqGCContent::processed(old(self).per_seq_gc_content, final(self).per_seq_gc_content, *record)
                &&& SeqLenDistribution::processed(
                    old(self).seq_len_distribution,
                    final(self).seq_len_distribution,
                    *record,
                )
                &&& OverRepresentedSeqs::processed(
                    old(self).overrepresented_seqs,
                    final(self).overrepresented_seqs,
                    *record,
                )
                &&& AdapterContent::processed(old(self).adpater_content, final(self).adpater_content, *record)
                &&& KmerContent::processed(old(self).kmer_content, final(self).kmer_content, *record)
                &&& PerTileQualityScore::processed(
                    old(self).per_tile_quality_score,
                    final(self).per_tile_quality_score,
                    *record,
                )
                &&& final(self).overrepresented_seqs.spec_count() == old(self).overrepresented_seqs.spec_count() + 1
                &&& final(self).adpater_content.spec_total_count() == old(self).adpater_content.spec_total_count() + 1
            },
    {
        let mut k: usize = 0;
        while k < record.qual.len()
            invariant
                k <= record.qual@.len(),
                *self == *old(self),
                old(self).wf(),
                forall|j: int| 0 <= j < k ==> record.qual@[j] <= MAX_QUALITY_CHAR,
            decreases record.qual@.len() - k,
        {
            if record.qual[k] > MAX_QUALITY_CHAR {
                return Err(QcError::QualityTooHigh(record.qual[k] as usize));
            }
            k = k + 1;
        }
        let ghost r0 = self.basic_stats.spec_total_reads();
        self.basic_stats.process_read(&record.seq);
        self.basic_stats.widen_quality_range(&record.qual);
        self.per_base_seq_quality.process_qual(&record.qual);
        proof {
            let ps = old(self).per_seq_quality_score;
            ps.lemma_nonneg();
            if record.qual@.len() > 0 {
                crate::per_seq::lemma_mean_at_least_min(record.qual@, ps.spec_lowest_char());
                assert(ps.spec_counts()[crate::per_seq::mean_quality(record.qual@)] <= r0);
            }
        }
        self.per_seq_quality_score.process_sequence(record);
        proof {
            lemma_byte_min_ge(
                record.qual@,
                record.qual@.len() as int,
                old(self).per_seq_quality_score.spec_lowest_char(),
                self.basic_stats.spec_lowest_char(),
            );
        }
        self.per_base_seq_content.process_sequence(record);
        self.per_base_n_content.process_sequence(record);
        self.overrepresented_seqs.process_sequence(record);
        self.adpater_content.process_sequence(record);
        self.per_seq_gc_content.process_sequence(record);
        self.seq_len_distribution.process_sequence(record);
        self.per_tile_quality_score.process_sequence(record);
        self.kmer_content.process_sequence(record);
        proof {
            let r1 = r0 + 1;
            assert(self.basic_stats.spec_total_reads() == r1);
            old(self).basic_stats.lemma_nonneg();
            let oc = old(self).per_base_seq_content;
            let on = old(self).per_base_n_content;
            lemma_tallied_below(oc.spec_t(), record.seq@, 84, true, r0 + 1);
            lemma_tallied_below(oc.spec_c(), record.seq@, 67, true, r0 + 1);
            lemma_tallied_below(oc.spec_a(), record.seq@, 65, true, r0 + 1);
            lemma_tallied_below(oc.spec_g(), record.seq@, 71, true, r0 + 1);
            lemma_tallied_below(on.spec_n(), record.seq@, 78, true, r0 + 1);
            lemma_tallied_below(on.spec_not_n(), record.seq@, 78, false, r0 + 1);
            assert forall|i: int| 0 <= i < self.per_base_seq_quality.counts().len() implies (#[trigger] self.per_base_seq_quality.counts()[i]).total() <= r1 by {
                if i < old(self).per_base_seq_quality.counts().len() {
                    assert(old(self).per_base_seq_quality.counts()[i].total() <= r0);
                }
            }
            assert forall|i: int| 0 <= i < self.per_seq_quality_score.spec_counts().len() implies #[trigger] self.per_seq_quality_score.spec_counts()[i] <= r1 by {
                assert(old(self).per_seq_quality_score.spec_counts()[i] <= r0);
            }
        }
        Ok(())
    }

    /// Finishes the run: picks the encoding from the lowest quality
    /// character seen, then fills every report that depends on it; fails,
    /// leaving the reports as they were, when no encoding fits.
    pub fn finish(&mut self) -> (r: Result<(), QcError>)
        requires
            old(self).wf(),
        ensures
            final(self).wf(),
            final(self).basic_stats.counts() == old(self).basic_stats.counts(),
            final(self).basic_stats.spec_min_length() == old(self).basic_stats.spec_min_length(),
            final(self).basic_stats.spec_max_length() == old(self).basic_stats.spec_max_length(),
            final(self).basic_stats.spec_lowest_char() == old(self).basic_stats.spec_lowest_char(),
            final(self).basic_stats.spec_highest_char() == old(self).basic_stats.spec_highest_char(),
            final(self).per_base_seq_quality.counts() == old(self).per_base_seq_quality.counts(),
            r is Ok <==> PhredEncoding::spec_encoding_of(old(self).basic_stats.spec_lowest_char()) is Ok,
            r is Err ==> r == Err::<(), QcError>(
                PhredEncoding::spec_encoding_of(old(self).basic_stats.spec_lowest_char())->Err_0,
            ),
            r is Ok ==> final(self).reports_filled(*old(self)),
    {
        match self.basic_stats.finish() {
            Ok(()) => {},
            Err(e) => {
                return Err(e);
            },
        }
        let offset = self.basic_stats.phred().offset;
        self.per_base_seq_quality.get_percentages(offset);
        let per_seq = self.per_seq_quality_score.calculate_distribution();
        assert(per_seq is Ok);
        self.per_base_seq_content.get_percentages();
        self.per_base_n_content.get_percentages();
        self.adpater_content.calculate_enrichment();
        self.seq_duplication_level.calculate_levels(&self.overrepresented_seqs);
        self.seq_len_distribution.calculate_distribution();
        self.per_tile_quality_score.get_percentages(offset);
        self.kmer_content.calculate_enrichment();
        Ok(())
    }

    /// Adds the counts of aggregators fed other shards of the same input:
    /// the whole-run counters and ranges, and the per-position quality
    /// histograms; then finishes the run.
    pub fn merge(&mut self, fastqc_vec: &[FastQC]) -> (r: Result<(), QcError>)
        requires
            old(self).wf(),
            forall|i: int| 0 <= i < fastqc_vec@.len() ==> (#[trigger] fastqc_vec@[i]).wf(),
            old(self).basic_stats.spec_total_reads() + reads_of(fastqc_vec@, fastqc_vec@.len() as int)
                <= usize::MAX,
            old(self).basic_stats.spec_total_bases() + bases_of(fastqc_vec@, fastqc_vec@.len() as int)
                <= usize::MAX,
        ensures
            final(self).wf(),
            final(self).basic_stats.counts() == merged_counts(
                old(self).basic_stats.counts(),
                fastqc_vec@,
                fastqc_vec@.len() as int,
            ),
            final(self).basic_stats.spec_min_length() == merged_min_length(
                old(self).basic_stats.spec_min_length(),
                fastqc_vec@,
                fastqc_vec@.len() as int,
            ),
            final(self).basic_stats.spec_max_length() == merged_max_length(
                old(self).basic_stats.spec_max_length(),
                fastqc_vec@,
                fastqc_vec@.len() as int,
            ),
            final(self).basic_stats.spec_lowest_char() == merged_lowest(
                old(self).basic_stats.spec_lowest_char(),
                fastqc_vec@,
                fastqc_vec@.len() as int,
            ),
            final(self).basic_stats.spec_highest_char() == merged_highest(
                old(self).basic_stats.spec_highest_char(),
                fastqc_vec@,
                fastqc_vec@.len() as int,
            ),
            final(self).per_base_seq_quality.counts().len() == merged_positions(
                old(self).per_base_seq_quality.counts().len() as int,
                fastqc_vec@,
                fastqc_vec@.len() as int,
            ),
            forall|p: int, b: int|
                0 <= p < final(self).per_base_seq_quality.counts().len() && 0 <= b < QUALITY_BUCKETS
                    ==> #[trigger] final(self).per_base_seq_quality.counts()[p].counts()[b] == counts_at(
                    old(self).per_base_seq_quality.counts(),
                    p,
                )[b] + bucket_sum(fastqc_vec@, fastqc_vec@.len() as int, p, b),
            r is Ok <==> PhredEncoding::spec_encoding_of(final(self).basic_stats.spec_lowest_char()) is Ok,
    {
        let ghost others = fastqc_vec@;
        let ghost opb = self.per_base_seq_quality.counts();
        proof {
            lemma_sums_nonneg(others, others.len() as int);
        }
        let mut i: usize = 0;
        while i < fastqc_vec.len()
            invariant
                self.wf(),
                others == fastqc_vec@,
                i <= others.len(),
                forall|k: int| 0 <= k < others.len() ==> (#[trigger] others[k]).wf(),
                self.basic_stats.spec_total_reads() == old(self).basic_stats.spec_total_reads()
                    + reads_of(others, i as int),
                self.basic_stats.spec_total_bases() == old(self).basic_stats.spec_total_bases()
                    + bases_of(others, i as int),
                old(self).basic_stats.spec_total_reads() + reads_of(others, others.len() as int)
                    <= usize::MAX,
                old(self).basic_stats.spec_total_bases() + bases_of(others, others.len() as int)
                    <= usize::MAX,
                forall|k: int| 0 <= k <= others.len() ==> #[trigger] reads_of(others, k) <= reads_of(others, others.len() as int),
                forall|k: int| 0 <= k <= others.len() ==> #[trigger] bases_of(others, k) <= bases_of(others, others.len() as int),
                self.basic_stats.counts() == merged_counts(old(self).basic_stats.counts(), others, i as int),
                opb == old(self).per_base_seq_quality.counts(),
                self.basic_stats.spec_min_length() == merged_min_length(old(self).basic_stats.spec_min_length(), others, i as int),
                self.basic_stats.spec_max_length() == merged_max_length(old(self).basic_stats.spec_max_length(), others, i as int),
                self.basic_stats.spec_lowest_char() == merged_lowest(old(self).basic_stats.spec_lowest_char(), others, i as int),
                self.basic_stats.spec_highest_char() == merged_highest(old(self).basic_stats.spec_highest_char(), others, i as int),
                self.per_base_seq_quality.counts().len() == merged_positions(opb.len() as int, others, i as int),
                forall|p: int, b: int|
                    0 <= p < self.per_base_seq_quality.counts().len() && 0 <= b < QUALITY_BUCKETS
                        ==> #[trigger] self.per_base_seq_quality.counts()[p].counts()[b] == counts_at(opb, p)[b]
                        + bucket_sum(others, i as int, p, b),
            decreases others.len() - i,
        {
            let other = &fastqc_vec[i];
            let ghost r0 = self.basic_stats.spec_total_reads();
            let ghost ro = other.basic_stats.spec_total_reads();
            proof {
                other.basic_stats.lemma_nonneg();
                assert(*other == others[i as int]);
                assert(others[i as int].wf());
            }
            let ghost pb_before = self.per_base_seq_quality.counts();
            let ghost pb_other = other.per_base_seq_quality.counts();
            proof {
                self.basic_stats.lemma_nonneg();
                lemma_totals_bounded(pb_before, r0);
                lemma_totals_bounded(pb_other, ro);
            }
            assert(reads_of(others, i + 1) == reads_of(others, i as int) + ro);
            assert(bases_of(others, i + 1) == bases_of(others, i as int) + other.basic_stats.spec_total_bases());
            self.basic_stats.add_stats(&other.basic_stats);
            proof {
                assert forall|k: int| 0 <= k < pb_other.len() implies total_at(pb_before, k) + (
                #[trigger] pb_other[k]).total() <= usize::MAX by {
                    assert(total_at(pb_other, k) == pb_other[k].total());
                }
            }
            self.per_base_seq_quality.add_quality_counts(other.per_base_seq_quality.quality_counts());
            proof {
                let r1 = r0 + ro;
                assert forall|k: int| 0 <= k < self.per_base_seq_quality.counts().len() implies (#[trigger] self.per_base_seq_quality.counts()[k]).total() <= r1 by {
                    assert(total_at(pb_before, k) <= r0);
                    assert(total_at(pb_other, k) <= ro);
                }
                assert forall|k: int| 0 <= k < self.per_seq_quality_score.spec_counts().len() implies #[trigger] self.per_seq_quality_score.spec_counts()[k] <= r1 by {
                }
                let npb = self.per_base_seq_quality.counts();
                lemma_positions_bound(opb.len() as int, others, i as int);
                assert forall|p: int, b: int|
                    0 <= p < npb.len() && 0 <= b < QUALITY_BUCKETS implies #[trigger] npb[p].counts()[b]
                        == counts_at(opb, p)[b] + bucket_sum(others, i + 1, p, b) by {
                    assert(npb[p].counts()[b] == counts_at(pb_before, p)[b] + counts_at(pb_other, p)[b]);
                    if p >= pb_before.len() {
                        lemma_bucket_sum_zero(others, i as int, p, b);
                        assert(counts_at(opb, p) == zero_counts());
                    }
                }
            }
            i = i + 1;
        }
        self.finish()
    }
}

/// Merging shards is order-independent on the whole-run counts (reads,
/// bases, and each base): merging `b` then `c` into `a`, `c` then `b`, or
/// `c` into `b` first and the result into `a`, gives the same counts.
pub proof fn merge_order_independent(a: FastQC, b: FastQC, c: FastQC)
    ensures
        merged_counts(a.basic_stats.counts(), seq![b, c], 2) == merged_counts(
            a.basic_stats.counts(),
            seq![c, b],
            2,
        ),
        merged_counts(a.basic_stats.counts(), seq![b, c], 2) == add_counts(
            a.basic_stats.counts(),
            merged_counts(b.basic_stats.counts(), seq![c], 1),
        ),
        merged_counts(a.basic_stats.counts(), seq![b, c], 2) == merged_counts(
            merged_counts(a.basic_stats.counts(), seq![b], 1),
            seq![c],
            1,
        ),
{
    let x = a.basic_stats.counts();
    let y = b.basic_stats.counts();
    let z = c.basic_stats.counts();
    assert(seq![b, c][0] == b);
    assert(seq![b, c][1] == c);
    assert(seq![c, b][0] == c);
    assert(seq![c, b][1] == b);
    assert(seq![c][0] == c);
    assert(seq![b][0] == b);
    let bc = seq![b, c];
    let cb = seq![c, b];
    assert(merged_counts(x, bc, 0) == x);
    assert(merged_counts(x, cb, 0) == x);
    assert(merged_counts(y, seq![c], 0) == y);
    assert(merged_counts(x, seq![b], 0) == x);
    assert(merged_counts(add_counts(x, y), seq![c], 0) == add_counts(x, y));
    assert(merged_counts(x, bc, 1) == add_counts(x, y));
    assert(merged_counts(x, bc, 2) == add_counts(add_counts(x, y), z));
    assert(merged_counts(x, cb, 1) == add_counts(x, z));
    assert(merged_counts(x, cb, 2) == add_counts(add_counts(x, z), y));
    assert(merged_counts(y, seq![c], 1) == add_counts(y, z));
    assert(merged_counts(x, seq![b], 1) == add_counts(x, y));
    assert(merged_counts(add_counts(x, y), seq![c], 1) == add_counts(add_counts(x, y), z));
    assert(merged_counts(x, seq![b, c], 2) =~= merged_counts(x, seq![c, b], 2));
    assert(merged_counts(x, seq![b, c], 2) =~= add_counts(x, merged_counts(y, seq![c], 1)));
    assert(merged_counts(x, seq![b, c], 2) =~= merged_counts(merged_counts(x, seq![b], 1), seq![c], 1));
}

} // verus!
