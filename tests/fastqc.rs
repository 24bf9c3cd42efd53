use preqc::per_seq::PerSeqQualityScore;
use preqc::quality::PhredEncoding;
use preqc::record::SeqRecord;

#[test]
fn fastqc_test_phred_encoding() {
    let phred = PhredEncoding::new("Illumina 1.3", 33);
    assert_eq!(phred.name, "Illumina 1.3".to_string());
    assert_eq!(phred.offset, 33);
}

#[test]
fn test_get_fastq_encoding_offset() {
    let phred = PhredEncoding::get_fastq_encoding_offset('A' as usize).unwrap();
    assert_eq!(phred.offset, 64);
}

#[test]
fn test_phred_encoding() {
    let read1 = SeqRecord::new(
        b"some_name".to_vec(),
        b"GTCGCACTGATCTGGGTTAGGCGCGGAGCCGAGGGTTGCACCATTTTTCATTATTGAATGCCAAGATA".to_vec(),
        b"IIIIIIIIIIIIIIIIIIIIIIIIIIIIIIIIIIIIIIIIIIIIIIIIIIIIIIIIIIIIIIIIIIII".to_vec(),
    );
    let mut tt = PerSeqQualityScore::new();
    tt.process_sequence(&read1);
    println!("{:?}", tt);
}
