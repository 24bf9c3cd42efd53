use vstd::prelude::*;
use crate::arith::{count_byte, ratio_of, Ratio};
use crate::quality::{PhredEncoding, QcError};
use crate::per_seq::{byte_max, byte_min};

verus! {

/// Whole-run counters: reads, bases, each base, read lengths, the range of
/// quality characters, and once finished the encoding and GC fraction.
#[derive(Clone, Debug)]
pub struct BasicStats {
    name: String,
    total_reads: usize,
    total_bases: usize,
    t_count: usize,
    c_count: usize,
    g_count: usize,
    a_count: usize,
    n_count: usize,
    gc_percentage: Ratio,
    lowest_char: usize,
    highest_char: usize,
    file_type: String,
    min_length: usize,
    max_length: usize,
    phred: PhredEncoding,
}

/// The counts that merging adds up: reads, bases, then A, C, G, T and N.
pub open spec fn add_counts(a: Seq<int>, b: Seq<int>) -> Seq<int> {
    Seq::new(7, |i: int| a[i] + b[i])
}

/// Number of the first `n` bases of `seq` that are `upper`, in upper or
/// lower case.
pub open spec fn base_count(seq: Seq<u8>, upper: u8, n: int) -> int {
    count_byte(seq, upper, n) + count_byte(seq, (upper + 32) as u8, n)
}

/// Number of bases in `seq` that are A, C, G, T or N, in either case.
pub open spec fn called_bases(seq: Seq<u8>) -> int {
    let n = seq.len() as int;
    base_count(seq, 65, n) + base_count(seq, 67, n) + base_count(seq, 71, n) + base_count(seq, 84, n)
        + base_count(seq, 78, n)
}

/// What one read adds to the counts: one read, its called bases, then its
/// A, C, G, T and N bases, in either case.
pub open spec fn read_counts(seq: Seq<u8>) -> Seq<int> {
    let n = seq.len() as int;
    seq![
        1int,
        called_bases(seq),
        base_count(seq, 65, n),
        base_count(seq, 67, n),
        base_count(seq, 71, n),
        base_count(seq, 84, n),
        base_count(seq, 78, n),
    ]
}

impl BasicStats {
    pub closed spec fn spec_total_reads(&self) -> int {
        self.total_reads as int
    }

    pub closed spec fn spec_total_bases(&self) -> int {
        self.total_bases as int
    }

    pub closed spec fn spec_a(&self) -> int {
        self.a_count as int
    }

    pub closed spec fn spec_c(&self) -> int {
        self.c_count as int
    }

    pub closed spec fn spec_g(&self) -> int {
        self.g_count as int
    }

    pub closed spec fn spec_t(&self) -> int {
        self.t_count as int
    }

    pub closed spec fn spec_n(&self) -> int {
        self.n_count as int
    }

    pub closed spec fn spec_lowest_char(&self) -> int {
        self.lowest_char as int
    }

    pub closed spec fn spec_highest_char(&self) -> int {
        self.highest_char as int
    }

    pub closed spec fn spec_min_length(&self) -> int {
        self.min_length as int
    }

    pub closed spec fn spec_max_length(&self) -> int {
        self.max_length as int
    }

    pub closed spec fn spec_name(&self) -> Seq<char> {
        self.name@
    }

    pub closed spec fn spec_phred(&self) -> PhredEncoding {
        self.phred
    }

    pub closed spec fn spec_gc(&self) -> Ratio {
        self.gc_percentage
    }

    /// The counters are natural numbers.
    pub proof fn lemma_nonneg(&self)
        ensures
            self.spec_total_reads() >= 0,
            self.spec_total_bases() >= 0,
            self.spec_lowest_char() >= 0,
    {
    }

    /// Reads, bases, then A, C, G, T and N.
    pub open spec fn counts(&self) -> Seq<int> {
        seq![
            self.spec_total_reads(),
            self.spec_total_bases(),
            self.spec_a(),
            self.spec_c(),
            self.spec_g(),
            self.spec_t(),
            self.spec_n(),
        ]
    }

    /// The base counts add up to the bases counted.
    pub open spec fn wf(&self) -> bool {
        self.spec_a() + self.spec_c() + self.spec_g() + self.spec_t() + self.spec_n()
            == self.spec_total_bases()
    }

    /// All counters at zero, no lengths or qualities seen. The shortest
    /// length starts at `usize::MAX`, so that the first read sets it.
    pub fn new() -> (r: BasicStats)
        ensures
            r.wf(),
            r.counts() == seq![0int, 0, 0, 0, 0, 0, 0],
            r.spec_lowest_char() == 126,
            r.spec_highest_char() == 0,
            r.spec_min_length() == usize::MAX,
            r.spec_max_length() == 0,
    {
        BasicStats {
            name: String::new(),
            total_reads: 0,
            total_bases: 0,
            t_count: 0,
            c_count: 0,
            g_count: 0,
            a_count: 0,
            n_count: 0,
            gc_percentage: Ratio::zero(),
            lowest_char: 126,
            highest_char: 0,
            file_type: String::new(),
            min_length: usize::MAX,
            max_length: 0,
            phred: PhredEncoding::new("", 0),
        }
    }

    /// The same counters under the file name `filename`.
    pub fn update_name(self, filename: &str) -> (r: BasicStats)
        ensures
            r.spec_name() == filename@,
            r.counts() == self.counts(),
            r.wf() == self.wf(),
            r.spec_lowest_char() == self.spec_lowest_char(),
            r.spec_highest_char() == self.spec_highest_char(),
            r.spec_min_length() == self.spec_min_length(),
            r.spec_max_length() == self.spec_max_length(),
    {
        let mut s = self;
        s.name = filename.to_owned();
        s
    }

    /// Number of A, C, G, T and N bases counted.
    pub fn total_bases(&self) -> (r: usize)
        ensures
            r == self.spec_total_bases(),
    {
        self.total_bases
    }

    /// Number of reads counted.
    pub fn total_reads(&self) -> (r: usize)
        ensures
            r == self.spec_total_reads(),
    {
        self.total_reads
    }

    /// Number of A bases.
    pub fn a_count(&self) -> (r: usize)
        ensures
            r == self.spec_a(),
    {
        self.a_count
    }

    /// Number of C bases.
    pub fn c_count(&self) -> (r: usize)
        ensures
            r == self.spec_c(),
    {
        self.c_count
    }

    /// Number of G bases.
    pub fn g_count(&self) -> (r: usize)
        ensures
            r == self.spec_g(),
    {
        self.g_count
    }

    /// Number of T bases.
    pub fn t_count(&self) -> (r: usize)
        ensures
            r == self.spec_t(),
    {
        self.t_count
    }

    /// Number of N bases.
    pub fn n_count(&self) -> (r: usize)
        ensures
            r == self.spec_n(),
    {
        self.n_count
    }

    /// Lowest quality character seen.
    pub fn lowest_char(&self) -> (r: usize)
        ensures
            r == self.spec_lowest_char(),
    {
        self.lowest_char
    }

    /// Highest quality character seen.
    pub fn highest_char(&self) -> (r: usize)
        ensures
            r == self.spec_highest_char(),
    {
        self.highest_char
    }

    /// Shortest read length counted; `usize::MAX` before any read.
    pub fn min_length(&self) -> (r: usize)
        ensures
            r == self.spec_min_length(),
    {
        self.min_length
    }

    /// Longest read length counted.
    pub fn max_length(&self) -> (r: usize)
        ensures
            r == self.spec_max_length(),
    {
        self.max_length
    }

    /// Fraction of G and C among the bases, once finished.
    pub fn gc_percentage(&self) -> (r: Ratio)
        ensures
            r == self.spec_gc(),
    {
        self.gc_percentage
    }

    /// The file name reported.
    pub fn name(&self) -> (r: String)
        ensures
            r@ == self.spec_name(),
    {
        self.name.clone()
    }

    /// Counts the bases of one read and its length (its A, C, G, T and N
    /// bases, in either case).
    pub fn process_read(&mut self, seq: &Vec<u8>)
        requires
            old(self).wf(),
            old(self).spec_total_reads() < usize::MAX,
            old(self).spec_total_bases() + seq@.len() <= usize::MAX,
        ensures
            final(self).wf(),
            final(self).counts() == add_counts(old(self).counts(), read_counts(seq@)),
            final(self).spec_min_length() == if called_bases(seq@) < old(self).spec_min_length() {
                called_bases(seq@)
            } else {
                old(self).spec_min_length()
            },
            final(self).spec_max_length() == if called_bases(seq@) > old(self).spec_max_length() {
                called_bases(seq@)
            } else {
                old(self).spec_max_length()
            },
            final(self).spec_lowest_char() == old(self).spec_lowest_char(),
            final(self).spec_highest_char() == old(self).spec_highest_char(),
    {
        let n = seq.len();
        let mut a: usize = 0;
        let mut c: usize = 0;
        let mut g: usize = 0;
        let mut t: usize = 0;
        let mut nn: usize = 0;
        let mut i: usize = 0;
        while i < n
            invariant
                n == seq@.len(),
                i <= n,
                a == base_count(seq@, 65, i as int),
                c == base_count(seq@, 67, i as int),
                g == base_count(seq@, 71, i as int),
                t == base_count(seq@, 84, i as int),
                nn == base_count(seq@, 78, i as int),
                a + c + g + t + nn <= i,
            decreases n - i,
        {
            let b = seq[i];
            if b == 65 || b == 97 {
                a = a + 1;
            } else if b == 67 || b == 99 {
                c = c + 1;
            } else if b == 71 || b == 103 {
                g = g + 1;
            } else if b == 84 || b == 116 {
                t = t + 1;
            } else if b == 78 || b == 110 {
                nn = nn + 1;
            }
            i = i + 1;
        }
        let seq_len = a + c + g + t + nn;
        self.a_count = self.a_count + a;
        self.c_count = self.c_count + c;
        self.g_count = self.g_count + g;
        self.t_count = self.t_count + t;
        self.n_count = self.n_count + nn;
        self.total_bases = self.total_bases + seq_len;
        self.total_reads = self.total_reads + 1;
        if seq_len < self.min_length {
            self.min_length = seq_len;
        }
        if seq_len > self.max_length {
            self.max_length = seq_len;
        }
    }

    /// Widens the range of quality characters seen to those of `qual`.
    pub fn widen_quality_range(&mut self, qual: &Vec<u8>)
        ensures
            final(self).counts() == old(self).counts(),
            final(self).wf() == old(self).wf(),
            final(self).spec_min_length() == old(self).spec_min_length(),
            final(self).spec_max_length() == old(self).spec_max_length(),
            final(self).spec_lowest_char() == byte_min(qual@, qual@.len() as int, old(self).spec_lowest_char()),
            final(self).spec_highest_char() == byte_max(qual@, qual@.len() as int, old(self).spec_highest_char()),
            forall|i: int| 0 <= i < qual@.len() ==> final(self).spec_lowest_char() <= qual@[i],
            forall|i: int| 0 <= i < qual@.len() ==> final(self).spec_highest_char() >= qual@[i],
            final(self).spec_lowest_char() <= old(self).spec_lowest_char(),
            final(self).spec_highest_char() >= old(self).spec_highest_char(),
            final(self).spec_lowest_char() == old(self).spec_lowest_char() || exists|i: int|
                0 <= i < qual@.len() && final(self).spec_lowest_char() == qual@[i],
            final(self).spec_highest_char() == old(self).spec_highest_char() || exists|i: int|
                0 <= i < qual@.len() && final(self).spec_highest_char() == qual@[i],
    {
        let mut k: usize = 0;
        while k < qual.len()
            invariant
                k <= qual@.len(),
                self.counts() == old(self).counts(),
                self.wf() == old(self).wf(),
                self.spec_min_length() == old(self).spec_min_length(),
                self.spec_max_length() == old(self).spec_max_length(),
                self.spec_lowest_char() <= old(self).spec_lowest_char(),
                self.spec_highest_char() >= old(self).spec_highest_char(),
                self.spec_lowest_char() == byte_min(qual@, k as int, old(self).spec_lowest_char()),
                self.spec_highest_char() == byte_max(qual@, k as int, old(self).spec_highest_char()),
                forall|j: int| 0 <= j < k ==> self.spec_lowest_char() <= qual@[j],
                forall|j: int| 0 <= j < k ==> self.spec_highest_char() >= qual@[j],
                self.spec_lowest_char() == old(self).spec_lowest_char() || exists|j: int|
                    0 <= j < qual@.len() && self.spec_lowest_char() == qual@[j],
                self.spec_highest_char() == old(self).spec_highest_char() || exists|j: int|
                    0 <= j < qual@.len() && self.spec_highest_char() == qual@[j],
            decreases qual@.len() - k,
        {
            let q = qual[k] as usize;
            if q < self.lowest_char {
                self.lowest_char = q;
            }
            if q > self.highest_char {
                self.highest_char = q;
            }
            k = k + 1;
        }
    }

    /// Adds the counters of `other` to these, and widens the length and
    /// quality ranges to cover both.
    pub fn add_stats(&mut self, other: &BasicStats)
        requires
            old(self).wf(),
            other.wf(),
            old(self).spec_total_reads() + other.spec_total_reads() <= usize::MAX,
            old(self).spec_total_bases() + other.spec_total_bases() <= usize::MAX,
        ensures
            final(self).wf(),
            final(self).counts() == add_counts(old(self).counts(), other.counts()),
            final(self).spec_min_length() == if other.spec_min_length() < old(self).spec_min_length() {
                other.spec_min_length()
            } else {
                old(self).spec_min_length()
            },
            final(self).spec_max_length() == if other.spec_max_length() > old(self).spec_max_length() {
                other.spec_max_length()
            } else {
                old(self).spec_max_length()
            },
            final(self).spec_lowest_char() == if other.spec_lowest_char() < old(self).spec_lowest_char() {
                other.spec_lowest_char()
            } else {
                old(self).spec_lowest_char()
            },
            final(self).spec_highest_char() == if other.spec_highest_char()
                > old(self).spec_highest_char() {
                other.spec_highest_char()
            } else {
                old(self).spec_highest_char()
            },
    {
        self.total_reads = self.total_reads + other.total_reads;
        self.total_bases = self.total_bases + other.total_bases;
        self.a_count = self.a_count + other.a_count;
        self.c_count = self.c_count + other.c_count;
        self.g_count = self.g_count + other.g_count;
        self.t_count = self.t_count + other.t_count;
        self.n_count = self.n_count + other.n_count;
        if other.min_length < self.min_length {
            self.min_length = other.min_length;
        }
        if other.max_length > self.max_length {
            self.max_length = other.max_length;
        }
        if other.lowest_char < self.lowest_char {
            self.lowest_char = other.lowest_char;
        }
        if other.highest_char > self.highest_char {
            self.highest_char = other.highest_char;
        }
        assert(self.counts() =~= add_counts(old(self).counts(), other.counts()));
    }

    /// Picks the encoding from the lowest quality character seen and works
    /// out the fraction of G and C among the bases counted (zero without
    /// bases); fails when no encoding fits the lowest character.
    pub fn finish(&mut self) -> (r: Result<(), QcError>)
        requires
            old(self).wf(),
        ensures
            final(self).wf(),
            final(self).counts() == old(self).counts(),
            final(self).spec_lowest_char() == old(self).spec_lowest_char(),
            final(self).spec_highest_char() == old(self).spec_highest_char(),
            final(self).spec_min_length() == old(self).spec_min_length(),
            final(self).spec_max_length() == old(self).spec_max_length(),
            r is Ok <==> PhredEncoding::spec_encoding_of(old(self).spec_lowest_char()) is Ok,
            r is Err ==> r == Err::<(), QcError>(
                PhredEncoding::spec_encoding_of(old(self).spec_lowest_char())->Err_0,
            ),
            r is Ok ==> {
                &&& final(self).spec_phred().offset == PhredEncoding::spec_encoding_of(
                    old(self).spec_lowest_char(),
                )->Ok_0
                &&& final(self).spec_gc() == ratio_of(
                    old(self).spec_g() + old(self).spec_c(),
                    old(self).spec_total_bases(),
                )
            },
    {
        match PhredEncoding::get_fastq_encoding_offset(self.lowest_char) {
            Ok(p) => {
                self.phred = p;
            },
            Err(e) => {
                return Err(e);
            },
        }
        self.gc_percentage = Ratio::of(
            (self.g_count as u128) + (self.c_count as u128),
            self.total_bases as u128,
        );
        Ok(())
    }

    /// The encoding picked when the run was finished.
    pub fn phred(&self) -> (r: PhredEncoding)
        ensures
            r.name@ == self.spec_phred().name@,
            r.offset == self.spec_phred().offset,
    {
        PhredEncoding { name: self.phred.name.clone(), offset: self.phred.offset }
    }
}

} // verus!
