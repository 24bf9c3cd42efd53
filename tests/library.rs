use preqc::adapter::{Adapter, AdapterContent};
use preqc::arith::Ratio;
use preqc::base_group::BaseGroup;
use preqc::contaminant::{Contaminant, ContaminentFinder, FORWARD_TYPE, REVERSE_TYPE};
use preqc::dup::{dup_slot, OverRepresentedSeqs, SeqDuplicationLevel};
use preqc::fastqc::FastQC;
use preqc::per_seq::PerSeqQualityScore;
use preqc::quality::{PhredEncoding, QcError, QualityCount};
use preqc::record::SeqRecord;

const READ: &[u8] = b"GTCGCACTGATCTGGGTTAGGCGCGGAGCCGAGGGTTGCACCATTTTTCATTATTGAATGCCAAGATA";

fn read_of(seq: &[u8], qual_char: u8) -> SeqRecord {
    SeqRecord::new(b"some_name".to_vec(), seq.to_vec(), vec![qual_char; seq.len()])
}

fn bounds(groups: &[BaseGroup]) -> Vec<(usize, usize)> {
    groups.iter().map(|g| (g.lower_count(), g.upper_count())).collect()
}

#[test]
fn base_groups_ungrouped_up_to_75() {
    for max in 1..=75usize {
        let groups = BaseGroup::make_base_groups(max);
        assert_eq!(groups.len(), max);
        for (i, g) in groups.iter().enumerate() {
            assert_eq!(g.lower_count(), i + 1);
            assert_eq!(g.upper_count(), i + 1);
            assert_eq!(g.name(), format!("{}", i + 1));
        }
    }
}

#[test]
fn base_groups_76_use_wider_interval() {
    let groups = BaseGroup::make_base_groups(76);
    assert_eq!(BaseGroup::get_linear_interval(76), 2);
    assert!(groups.len() < 75);
    assert_eq!(groups.len(), 43);
    assert_eq!(groups[8].name(), "9");
    assert_eq!(groups[9].name(), "10-11");
    assert_eq!(groups[41].name(), "74-75");
    let last = groups.last().unwrap();
    assert_eq!((last.lower_count(), last.upper_count()), (76, 76));
    assert_eq!(last.name(), "76");
}

#[test]
fn base_groups_1000_align_on_interval() {
    assert_eq!(BaseGroup::get_linear_interval(1000), 20);
    let groups = BaseGroup::make_base_groups(1000);
    let b = bounds(&groups);
    assert_eq!(b[9], (10, 19));
    assert_eq!(b[10], (20, 39));
    assert_eq!(*b.last().unwrap(), (1000, 1000));
    assert_eq!(groups[10].name(), "20-39");
}

#[test]
fn base_groups_contiguous_cover() {
    for max in [76usize, 150, 301, 999, 5000, 123456] {
        let groups = BaseGroup::make_base_groups(max);
        assert_eq!(groups[0].lower_count(), 1);
        for w in groups.windows(2) {
            assert_eq!(w[0].upper_count() + 1, w[1].lower_count());
        }
        assert_eq!(groups.last().unwrap().upper_count(), max);
    }
}

#[test]
fn exponential_base_groups() {
    let groups = BaseGroup::make_exponential_base_groups(100);
    let b = bounds(&groups);
    assert_eq!(b[8], (9, 9));
    assert_eq!(b[9], (10, 14));
    assert_eq!(b[b.len() - 2], (95, 99));
    assert_eq!(*b.last().unwrap(), (100, 100));
    let small = BaseGroup::make_exponential_base_groups(20);
    assert_eq!(small.len(), 20);
}

#[test]
fn ungrouped_groups() {
    let groups = BaseGroup::make_ungrouped_groups(3);
    assert_eq!(bounds(&groups), vec![(1, 1), (2, 2), (3, 3)]);
    assert!(BaseGroup::make_ungrouped_groups(0).is_empty());
}

#[test]
fn quality_count_total_is_sum() {
    let mut q = QualityCount::new();
    for c in [33usize, 40, 40, 73, 73, 73] {
        q.add_value(c);
    }
    assert_eq!(q.total_counts(), 6);
    let mut r = QualityCount::new();
    r.add_value(40);
    q.add_quality_count(&r);
    assert_eq!(q.total_counts(), 7);
    assert_eq!(q.get_min_char(), '!');
    assert_eq!(q.get_max_char(), 'I');
}

#[test]
fn quality_count_empty_chars() {
    let q = QualityCount::new();
    assert_eq!(q.get_min_char(), '\u{3e8}');
    assert_eq!(q.get_max_char(), '\u{3e8}');
    assert_eq!(q.get_mean(33), Ratio::zero());
    assert_eq!(q.get_percentile(33, 50), 0);
}

#[test]
fn quality_count_percentiles_and_mean() {
    let mut q = QualityCount::new();
    for c in 0..10usize {
        q.add_value(43 + c);
    }
    assert_eq!(q.get_percentile(33, 10), 10);
    assert_eq!(q.get_percentile(33, 50), 14);
    assert_eq!(q.get_percentile(33, 90), 18);
    assert_eq!(q.get_percentile(33, 100), 19);
    assert_eq!(q.get_mean(33), Ratio::new(145, 10));
    let mut last = 0;
    for p in 0..=100usize {
        let v = q.get_percentile(33, p);
        assert!(v >= last);
        last = v;
    }
}

#[test]
fn phred_encodings() {
    assert_eq!(PhredEncoding::get_fastq_encoding_offset(33).unwrap().name(), "Sanger / Illumina 1.9");
    assert_eq!(PhredEncoding::get_fastq_encoding_offset(63).unwrap().offset(), 32);
    assert_eq!(PhredEncoding::get_fastq_encoding_offset(65).unwrap().name(), "Illumina 1.3");
    assert_eq!(PhredEncoding::get_fastq_encoding_offset(64).unwrap().name(), "Illumina 1.5");
    assert_eq!(PhredEncoding::get_fastq_encoding_offset(126).unwrap().offset(), 64);
    assert!(matches!(PhredEncoding::get_fastq_encoding_offset(32), Err(QcError::QualityTooLow(32))));
    assert!(matches!(PhredEncoding::get_fastq_encoding_offset(127), Err(QcError::QualityTooHigh(127))));
}

#[test]
fn contaminant_exact_short_match() {
    let c = Contaminant::new("adapter".to_string(), "TTTTACGTACGTACTTTT".to_string()).unwrap();
    let hit = c.find_match(&"ACGTACGTAC".to_string()).unwrap();
    assert_eq!(hit.percent_id(), 100);
    assert_eq!(hit.length(), 10);
    assert_eq!(hit.direction(), FORWARD_TYPE);
    assert_eq!(hit.contaminant().name(), "adapter");
}

#[test]
fn contaminant_reverse_and_lowercase_query() {
    let c = Contaminant::new("p".to_string(), "AAAAACCCCCGG".to_string()).unwrap();
    // reverse complement is CCGGGGGTTTTT
    let hit = c.find_match(&"ccgggggttt".to_string()).unwrap();
    assert_eq!(hit.direction(), REVERSE_TYPE);
    assert_eq!(hit.length(), 10);
    assert!(c.find_match(&"GATTACAGAT".to_string()).is_none());
}

#[test]
fn contaminant_illegal_base() {
    let e = Contaminant::new("bad".to_string(), "ACGTN".to_string());
    assert!(matches!(e, Err(QcError::IllegalBase(b'N'))));
    let e = Contaminant::new("bad".to_string(), "acgt".to_string());
    assert!(matches!(e, Err(QcError::IllegalBase(b'a'))));
}

#[test]
fn contaminant_long_query_alignment() {
    let seq = "GATCGGAAGAGCACACGTCTGAACTCCAGTCAC".to_string();
    let c = Contaminant::new("TruSeq".to_string(), seq.clone()).unwrap();
    let query = format!("{}{}", seq, "AAAAA");
    let hit = c.find_match(&query).unwrap();
    assert_eq!(hit.length(), 33);
    assert_eq!(hit.percent_id(), 100);
    assert_eq!(hit.direction(), FORWARD_TYPE);
    // One mismatch in the middle is tolerated.
    let mut mutated: Vec<u8> = query.clone().into_bytes();
    mutated[15] = b'A';
    let hit = c.find_match(&String::from_utf8(mutated).unwrap()).unwrap();
    assert_eq!(hit.length(), 33);
    assert_eq!(hit.percent_id(), 96);
}

#[test]
fn contaminant_finder_picks_longest() {
    let a = Contaminant::new("short".to_string(), "ACGTACGTACG".to_string()).unwrap();
    let b = Contaminant::new("long".to_string(), "TTACGTACGTACGTT".to_string()).unwrap();
    let mut finder = ContaminentFinder::with_contaminants(vec![a, b]);
    let hit = finder.find_contaminants_hit("ACGTACGTAC".to_string()).unwrap();
    assert_eq!(hit.contaminant().name(), "short");
    let mut empty = ContaminentFinder::new();
    empty.make_contaminants_list();
    assert!(empty.find_contaminants_hit("ACGTACGTAC".to_string()).is_none());
}

#[test]
fn end_to_end_single_read_and_merge() {
    let read1 = read_of(READ, b'I');
    let mut qc = FastQC::new();
    qc.process_sequence(&read1).unwrap();
    assert_eq!(qc.basic_stats.total_bases(), 68);
    assert_eq!(qc.basic_stats.total_reads(), 1);
    assert_eq!(qc.basic_stats.g_count(), 20);
    assert_eq!(qc.basic_stats.a_count(), 15);
    assert_eq!(qc.basic_stats.c_count(), 14);
    assert_eq!(qc.basic_stats.t_count(), 19);
    assert_eq!(qc.basic_stats.n_count(), 0);
    let mut qc2 = FastQC::new();
    qc2.process_sequence(&read1).unwrap();
    qc.merge(&[qc2]).unwrap();
    assert_eq!(qc.basic_stats.total_bases(), 136);
    assert_eq!(qc.basic_stats.total_reads(), 2);
    assert_eq!(qc.basic_stats.phred().name(), "Illumina 1.5");
    assert_eq!(qc.basic_stats.gc_percentage(), Ratio::new(68, 136));
}

#[test]
fn merge_order_does_not_matter() {
    let mk = |s: &[u8]| {
        let mut q = FastQC::new();
        q.process_sequence(&read_of(s, b'5')).unwrap();
        q
    };
    let reads: [&[u8]; 3] = [b"ACGTN", b"GGGCCCAT", b"TTTT"];
    let mut x = mk(reads[0]);
    x.merge(&[mk(reads[1]), mk(reads[2])]).unwrap();
    let mut y = mk(reads[2]);
    let mut bc = mk(reads[1]);
    bc.merge(&[mk(reads[0])]).unwrap();
    y.merge(&[bc]).unwrap();
    for q in [&x, &y] {
        assert_eq!(q.basic_stats.total_reads(), 3);
        assert_eq!(q.basic_stats.total_bases(), 17);
        assert_eq!(q.basic_stats.g_count(), 4);
        assert_eq!(q.basic_stats.n_count(), 1);
    }
}

#[test]
fn finish_on_empty_input() {
    let mut qc = FastQC::new();
    qc.finish().unwrap();
    assert_eq!(qc.basic_stats.total_reads(), 0);
    assert_eq!(qc.basic_stats.gc_percentage(), Ratio::zero());
    assert!(qc.per_base_seq_quality.mean().is_empty());
    assert!(qc.per_seq_quality_score.y_category_count().is_empty());
}

#[test]
fn quality_above_encodings_is_refused() {
    let mut qc = FastQC::new();
    let mut r = read_of(b"ACGT", b'I');
    r.qual[2] = 200;
    assert!(matches!(qc.process_sequence(&r), Err(QcError::QualityTooHigh(200))));
    assert_eq!(qc.basic_stats.total_reads(), 0);
}

#[test]
fn quality_below_encodings_fails_finish() {
    let mut qc = FastQC::new();
    qc.process_sequence(&read_of(b"ACGT", b' ')).unwrap();
    assert!(matches!(qc.finish(), Err(QcError::QualityTooLow(32))));
}

#[test]
fn per_base_quality_report() {
    let mut qc = FastQC::new();
    for _ in 0..100 {
        qc.process_sequence(&read_of(b"ACG", b'I')).unwrap();
    }
    qc.finish().unwrap();
    let p = &qc.per_base_seq_quality;
    assert_eq!(p.median().len(), 3);
    assert_eq!(p.median()[0], Ratio::new(9, 1));
    assert_eq!(p.mean()[2], Ratio::new(9, 1));
    assert_eq!(p.xlabels()[1], "2");
}

#[test]
fn per_base_quality_needs_enough_observations() {
    let mut qc = FastQC::new();
    qc.process_sequence(&read_of(b"ACG", b'I')).unwrap();
    qc.finish().unwrap();
    assert_eq!(qc.per_base_seq_quality.median()[0], Ratio::zero());
    assert_eq!(qc.per_base_seq_quality.mean()[0], Ratio::new(9, 1));
}

#[test]
fn per_seq_quality_distribution() {
    let mut s = PerSeqQualityScore::new();
    s.process_sequence(&read_of(b"AC", b'I'));
    s.process_sequence(&read_of(b"AC", b'I'));
    s.process_sequence(&read_of(b"AC", b'5'));
    s.calculate_distribution().unwrap();
    assert_eq!(s.y_category_count().len(), (b'I' - b'5' + 1) as usize);
    assert_eq!(s.x_category_quality()[0], 21);
    assert_eq!(s.max_counts(), 2);
    assert_eq!(s.most_frequent_score(), 41);
    assert_eq!(s.lowest_char(), b'5' as usize);
}

#[test]
fn base_content_fractions() {
    let mut qc = FastQC::new();
    qc.process_sequence(&read_of(b"ACGTN", b'I')).unwrap();
    qc.process_sequence(&read_of(b"AAGT", b'I')).unwrap();
    qc.finish().unwrap();
    let c = qc.per_base_seq_content.percentages();
    // order T, C, A, G; position 1 is A twice
    assert_eq!(c[0][2], Ratio::new(2, 2));
    assert_eq!(c[1][1], Ratio::new(1, 2));
    assert_eq!(c[4][0], Ratio::zero());
    let n = qc.per_base_n_content.percentages();
    assert_eq!(n[4], Ratio::new(1, 1));
    assert_eq!(n[0], Ratio::new(0, 2));
}

#[test]
fn freezing_after_cutoff() {
    let mut o = OverRepresentedSeqs::new();
    let bases = [b'A', b'C', b'G', b'T'];
    for i in 0..100001usize {
        let mut s = vec![b'A'; 80];
        let mut k = i;
        for p in 0..10 {
            s[p] = bases[k % 4];
            k /= 4;
        }
        o.process_sequence(&read_of(&s, b'I'));
    }
    assert_eq!(o.unique_seq_count(), 100000);
    assert!(o.frozen());
    assert_eq!(o.count(), 100001);
    assert_eq!(o.count_at_unique_limit(), 100000);
    let last: Vec<u8> = {
        let mut s = vec![b'A'; 50];
        let mut k = 100000usize;
        for p in 0..10 {
            s[p] = bases[k % 4];
            k /= 4;
        }
        s
    };
    assert_eq!(o.seq_count(std::str::from_utf8(&last).unwrap()), 0);
    assert_eq!(o.seq_count(&"A".repeat(50)), 1);
}

#[test]
fn duplicate_levels() {
    let mut o = OverRepresentedSeqs::new();
    for s in [&b"AAAA"[..], b"AAAA", b"CCCC", b"GGGG", b"GGGG", b"TTTT"] {
        o.process_sequence(&read_of(s, b'I'));
    }
    assert_eq!(o.seq_count("AAAA"), 2);
    let mut d = SeqDuplicationLevel::new();
    d.calculate_levels(&o);
    assert_eq!(d.levels(), vec![2, 1]);
    assert_eq!(d.distinct_counts(), vec![2, 2]);
    assert_eq!(d.total_count(), 6);
    assert_eq!(dup_slot(1), 0);
    assert_eq!(dup_slot(10), 9);
    assert_eq!(dup_slot(49), 9);
    assert_eq!(dup_slot(50), 10);
    assert_eq!(dup_slot(10000), 15);
    assert_eq!(dup_slot(9999), 14);
    assert_eq!(dup_slot(100), 11);
    assert_eq!(dup_slot(20000), 15);
}

#[test]
fn adapter_counts_from_start_onwards() {
    let mut a = Adapter::new("poly".to_string(), "GGGG".to_string());
    assert_eq!(a.positions(), vec![0]);
    a.expand_length_to(3);
    a.increment_count(1);
    assert_eq!(a.positions(), vec![0, 1, 0]);
    assert_eq!(a.sequence(), "GGGG");
    assert_eq!(a.name(), "poly");
    let mut content = AdapterContent::with_adapters(vec![Adapter::new("poly".to_string(), "GGGG".to_string())]);
    content.process_sequence(&read_of(b"ACGGGGTT", b'I'));
    content.process_sequence(&read_of(b"ACGTACGT", b'I'));
    content.calculate_enrichment();
    let mut ad = content.adapters()[0].clone();
    assert_eq!(ad.positions(), vec![0, 0, 1, 1, 1]);
    assert_eq!(content.enrichments()[0][2], Ratio::new(1, 2));
    assert_eq!(content.total_count(), 2);
}

#[test]
fn contaminant_hit_direction_checked() {
    let c = Contaminant::new("a".to_string(), "ACGT".to_string()).unwrap();
    let h = preqc::contaminant::ContaminantHit::new(c.clone(), REVERSE_TYPE, 4, 100).unwrap();
    assert_eq!(h.direction(), REVERSE_TYPE);
    assert!(matches!(preqc::contaminant::ContaminantHit::new(c, 3, 4, 100), Err(QcError::InvalidDirection(3))));
}

#[test]
fn contaminant_exact_match_bounds() {
    let c = Contaminant::new("x".to_string(), "TTACGTACGTACGTACGTACGTTT".to_string()).unwrap();
    let h8 = c.find_match(&"ACGTACGT".to_string()).unwrap();
    assert_eq!((h8.length(), h8.percent_id()), (8, 100));
    let h20 = c.find_match(&"ACGTACGTACGTACGTACGT".to_string()).unwrap();
    assert_eq!((h20.length(), h20.percent_id()), (20, 100));
}
