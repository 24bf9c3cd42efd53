use preqc::fastqc::FastQC;
use preqc::gc::{GCModel, PerSeqGCContent};
use preqc::kmer::{Kmer, KmerContent};
use preqc::record::SeqRecord;
use preqc::seq_len::SeqLenDistribution;
use preqc::tile::{parse_number, split_header, PerTileQualityScore};
use preqc::arith::Ratio;

fn rec(head: &[u8], seq: &[u8], q: u8) -> SeqRecord {
    SeqRecord::new(head.to_vec(), seq.to_vec(), vec![q; seq.len()])
}

#[test]
fn gc_model_buckets_and_weights() {
    let m = GCModel::new_by_len(2);
    assert_eq!(m.read_length(), 2);
    assert_eq!(m.len(), 3);
    let v0 = m.get_model_values(0);
    assert_eq!(v0.len(), 26);
    assert_eq!(v0[0].percentage(), 0);
    assert_eq!(v0[0].increment(), Ratio::new(1, 1));
    assert_eq!(v0[25].increment(), Ratio::new(1, 2));
    let v1 = m.get_model_values(1);
    assert_eq!((v1[0].percentage(), v1[v1.len() - 1].percentage()), (25, 75));
    let v2 = m.get_model_values(2);
    assert_eq!(v2[v2.len() - 1].percentage(), 100);
}

fn total_weight(length: usize) -> f64 {
    let m = GCModel::new_by_len(length);
    let mut sum = 0.0;
    for pos in 0..=length {
        for v in m.get_model_values(pos) {
            let r = v.increment();
            sum += r.num as f64 / r.den as f64;
        }
    }
    sum
}

#[test]
fn gc_model_total_weight() {
    // every bucket 0..=100 carries weight one in all
    assert!((total_weight(10) - 101.0).abs() < 1e-9);
    assert!((total_weight(37) - 101.0).abs() < 1e-9);
    // for a length of 100 that is length + 1
    assert!((total_weight(100) - 101.0).abs() < 1e-9);
}

#[test]
fn gc_tally_by_length_and_count() {
    let mut g = PerSeqGCContent::new();
    g.process_sequence(&rec(b"r", b"GGCCAT", b'I'));
    g.process_sequence(&rec(b"r", b"", b'I'));
    assert_eq!(g.tallies()[6][4], 1);
    let long = vec![b'G'; 250];
    g.process_sequence(&rec(b"r", &long, b'I'));
    assert_eq!(g.tallies()[200][200], 1);
}

#[test]
fn seq_len_distribution_categories() {
    let mut d = SeqLenDistribution::new();
    for s in [&b"ACG"[..], b"ACG", b"ACGTA"] {
        d.process_sequence(&rec(b"r", s, b'I'));
    }
    d.calculate_distribution();
    assert_eq!(d.graph_counts(), &vec![0, 2, 0, 1, 0]);
    assert_eq!(d.x_categories()[0], "2");
    assert_eq!(d.max(), 2);
    let mut sd = SeqLenDistribution::new();
    assert_eq!(sd.get_size_distribution(0, 1000), vec![0, 20]);
    assert_eq!(sd.get_size_distribution(33, 120), vec![34, 2]);
}

#[test]
fn header_fields_and_numbers() {
    let f = split_header(&b"M:1:2101:3".to_vec());
    assert_eq!(f.len(), 4);
    assert_eq!(f[2], b"2101".to_vec());
    assert_eq!(parse_number(&b"123".to_vec()), Some(123));
    assert_eq!(parse_number(&b"+7".to_vec()), Some(7));
    assert_eq!(parse_number(&b"".to_vec()), None);
    assert_eq!(parse_number(&b"12a".to_vec()), None);
    assert_eq!(parse_number(&b"99999999999999999999999".to_vec()), None);
}

#[test]
fn per_tile_tracking() {
    let mut t = PerTileQualityScore::new();
    t.process_sequence(&rec(b"M:1:2101:3:4:5:6", b"ACGT", b'I'));
    t.process_sequence(&rec(b"M:1:1101:3:4:5:6", b"ACGT", b'5'));
    assert_eq!(t.tiles(), &vec![1101, 2101]);
    assert!(!t.ignore_in_report());
    t.get_percentages(33);
    assert_eq!(t.means()[0][0], Ratio::new(20, 1));
    assert_eq!(t.means()[1][0], Ratio::new(40, 1));
    assert_eq!(t.high(), 40);
    let mut u = PerTileQualityScore::new();
    u.process_sequence(&rec(b"short:header", b"ACGT", b'I'));
    assert!(u.ignore_in_report());
}

#[test]
fn kmer_sampling_and_totals() {
    let mut k = KmerContent::new();
    for _ in 0..49 {
        k.process_sequence(&rec(b"r", b"ACGTACGTAC", b'I'));
    }
    assert!(k.total_kmer_counts().is_empty());
    k.process_sequence(&rec(b"r", b"ACGTACGTAC", b'I'));
    assert_eq!(k.total_kmer_counts(), &vec![1, 1, 1, 1]);
    assert_eq!(k.kmers().len(), 4);
    let mut n = KmerContent::new();
    for _ in 0..50 {
        n.process_sequence(&rec(b"r", b"ACGTNCGTAC", b'I'));
    }
    assert_eq!(n.total_kmer_counts(), &vec![0, 0, 0, 0]);
    k.calculate_enrichment();
    let mut first = k.kmers()[0].clone();
    assert_eq!(first.count(), 1);
    assert_eq!(first.positions(), vec![1, 0, 0, 0]);
}

#[test]
fn kmer_record_counts() {
    let mut m = Kmer::new("ACGTACG".to_string(), 1, 3);
    assert_eq!(m.positions(), vec![0, 1, 0]);
    m.increment_count(4);
    assert_eq!(m.count(), 2);
    assert_eq!(m.positions(), vec![0, 1, 0, 0, 1]);
    assert_eq!(m.sequence(), "ACGTACG");
    assert_eq!(m.max_obs_exp(), Ratio::zero());
}

#[test]
fn full_run_fills_every_report() {
    let mut qc = FastQC::new();
    for i in 0..120usize {
        let head = format!("M:1:{}:3:4:5:6", 1100 + i % 3);
        qc.process_sequence(&rec(head.as_bytes(), b"GATCGGAAGAGCACACGTCTGAACTCCAGTCACNNACGT", b'I')).unwrap();
    }
    qc.finish().unwrap();
    assert_eq!(qc.basic_stats.total_reads(), 120);
    assert_eq!(qc.per_tile_quality_score.tiles().len(), 3);
    assert_eq!(qc.kmer_content.total_kmer_counts().len(), 33);
    assert_eq!(qc.seq_len_distribution.max(), 120);
    assert_eq!(qc.overrepresented_seqs.unique_seq_count(), 1);
}

#[test]
fn overrepresented_table_in_admission_order() {
    let mut o = preqc::dup::OverRepresentedSeqs::new();
    for s in [&b"CCCC"[..], b"AAAA", b"CCCC"] {
        o.process_sequence(&rec(b"r", s, b'I'));
    }
    assert_eq!(o.seq(), vec![("CCCC".to_string(), 2), ("AAAA".to_string(), 1)]);
}

#[test]
fn kmer_max_position() {
    let m = Kmer::new("ACGTACG".to_string(), 0, 2);
    assert_eq!(m.max_position(), 1);
    let mut k = KmerContent::new();
    for _ in 0..50 {
        k.process_sequence(&rec(b"r", b"ACGTACGTAC", b'I'));
    }
    k.calculate_enrichment();
    assert_eq!(k.kmers()[1].max_position(), 2);
    assert_eq!(k.kmers()[3].max_position(), 4);
    assert_eq!(k.kmers()[1].max_obs_exp(), Ratio::new(4, 1));
}

#[test]
fn lower_case_bases_and_ranges() {
    let mut qc = FastQC::new();
    qc.process_sequence(&SeqRecord::new(b"r".to_vec(), b"acgtnX".to_vec(), b"5I?#((".to_vec())).unwrap();
    let b = &qc.basic_stats;
    assert_eq!((b.a_count(), b.c_count(), b.g_count(), b.t_count(), b.n_count()), (1, 1, 1, 1, 1));
    assert_eq!(b.total_bases(), 5);
    assert_eq!((b.min_length(), b.max_length()), (5, 5));
    assert_eq!((b.lowest_char(), b.highest_char()), (b'#' as usize, b'I' as usize));
}

#[test]
fn tile_tracking_stops_at_limit() {
    let mut t = PerTileQualityScore::new();
    for tile in 0..1000usize {
        t.process_sequence(&rec(format!("M:1:{}:3:4:5:6", tile).as_bytes(), b"AC", b'I'));
    }
    assert_eq!(t.tiles().len(), 1000);
    assert!(!t.ignore_in_report());
    t.process_sequence(&rec(b"M:1:5000:3:4:5:6", b"AC", b'I'));
    assert!(t.ignore_in_report());
    assert!(t.tiles().is_empty());
}

#[test]
fn merge_sums_histograms_and_ranges() {
    let mut a = FastQC::new();
    a.process_sequence(&rec(b"r", b"ACG", b'I')).unwrap();
    let mut b = FastQC::new();
    b.process_sequence(&rec(b"r", b"ACGTA", b'5')).unwrap();
    a.merge(&[b]).unwrap();
    let q = a.per_base_seq_quality.quality_counts();
    assert_eq!(q.len(), 5);
    assert_eq!(q[0].total_counts(), 2);
    assert_eq!(q[4].total_counts(), 1);
    assert_eq!((a.basic_stats.min_length(), a.basic_stats.max_length()), (3, 5));
    assert_eq!((a.basic_stats.lowest_char(), a.basic_stats.highest_char()), (b'5' as usize, b'I' as usize));
}
