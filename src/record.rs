use vstd::prelude::*;

verus! {

/// One sequencing read: header line, bases, and one quality character per base.
#[derive(Clone, Debug)]
pub struct SeqRecord {
    pub head: Vec<u8>,
    pub seq: Vec<u8>,
    pub qual: Vec<u8>,
}

impl SeqRecord {
    /// A read with the given header, bases and qualities.
    pub fn new(head: Vec<u8>, seq: Vec<u8>, qual: Vec<u8>) -> (r: SeqRecord)
        ensures
            r.head@ == head@,
            r.seq@ == seq@,
            r.qual@ == qual@,
    {
        SeqRecord { head, seq, qual }
    }
}

} // verus!
