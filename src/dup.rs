use vstd::prelude::*;
use vstd::hash_map::StringHashMap;
use vstd::utf8::{decode_utf8, valid_utf8};
use crate::arith::Ratio;
use crate::bytes::prefix_bytes;
use crate::contaminant::{ContaminantHit, ContaminentFinder};
use crate::record::SeqRecord;

verus! {

/// Most distinct sequences tracked before the table is frozen.
pub const OBSERVATION_CUTOFF: usize = 100000;

/// Reads longer than this are cut to `DUP_PREFIX_LENGTH` bases.
pub const DUP_FULL_LENGTH_LIMIT: usize = 75;

/// Length of the prefix kept of long reads.
pub const DUP_PREFIX_LENGTH: usize = 50;

/// Relies on `String::from_utf8`: `Ok` exactly when the bytes are valid
/// UTF-8, holding the characters that they encode.
#[verifier::external_body]
pub(crate) fn string_from_utf8(bytes: Vec<u8>) -> (r: Option<String>)
    ensures
        match r {
            Some(s) => valid_utf8(bytes@) && s@ == decode_utf8(bytes@),
            None => !valid_utf8(bytes@),
        },
{
    String::from_utf8(bytes).ok()
}

/// The part of a read's bases that identifies it: the first 50 bases of a
/// read over 75 bases long, the whole read otherwise.
pub open spec fn dup_key_bytes(seq: Seq<u8>) -> Seq<u8> {
    if seq.len() > DUP_FULL_LENGTH_LIMIT {
        seq.subrange(0, DUP_PREFIX_LENGTH as int)
    } else {
        seq
    }
}

/// A sequence reported as over-represented, with its count, its share of
/// all reads and the best contaminant hit for it.
#[derive(Clone, Debug)]
pub struct OverRepresentedSeq {
    seq: String,
    count: usize,
    percentage: Ratio,
    contaminant_hit: Option<ContaminantHit>,
}

impl OverRepresentedSeq {
    pub closed spec fn spec_seq(&self) -> Seq<char> {
        self.seq@
    }

    pub closed spec fn spec_count(&self) -> int {
        self.count as int
    }

    pub closed spec fn spec_percentage(&self) -> Ratio {
        self.percentage
    }

    pub closed spec fn spec_hit(&self) -> Option<ContaminantHit> {
        self.contaminant_hit
    }

    /// The entry for `seq`, looked up in an empty contaminant library, so
    /// with no hit.
    pub fn new(seq: String, count: usize, percentage: Ratio) -> (r: OverRepresentedSeq)
        ensures
            r.spec_seq() == seq@,
            r.spec_count() == count,
            r.spec_percentage() == percentage,
            r.spec_hit() is None,
    {
        let mut finder = ContaminentFinder::new();
        let hit = finder.find_contaminants_hit(seq.clone());
        OverRepresentedSeq { seq, count, percentage, contaminant_hit: hit }
    }

    /// The sequence.
    pub fn seq(&self) -> (r: String)
        ensures
            r@ == self.spec_seq(),
    {
        self.seq.clone()
    }

    /// How many reads held it.
    pub fn count(&self) -> (r: usize)
        ensures
            r == self.spec_count(),
    {
        self.count
    }

    /// Its share of all reads.
    pub fn percentage(&self) -> (r: Ratio)
        ensures
            r == self.spec_percentage(),
    {
        self.percentage
    }
}

/// Counts of distinct read sequences, up to a cutoff of distinct ones.
pub struct OverRepresentedSeqs {
    sequences: StringHashMap<usize>,
    order: Vec<String>,
    count: usize,
    overrepresented_seqs: Vec<OverRepresentedSeq>,
    frozen: bool,
    observation_cutoff: usize,
    unique_seq_count: usize,
    count_at_unique_limit: usize,
}

impl OverRepresentedSeqs {
    /// Count per distinct sequence.
    pub closed spec fn table(&self) -> Map<Seq<char>, usize> {
        self.sequences@
    }

    /// Distinct sequences in the order they were first seen.
    pub closed spec fn spec_order(&self) -> Seq<Seq<char>> {
        self.order@.map_values(|s: String| s@)
    }

    pub closed spec fn spec_count(&self) -> int {
        self.count as int
    }

    pub closed spec fn spec_frozen(&self) -> bool {
        self.frozen
    }

    pub closed spec fn spec_unique(&self) -> int {
        self.unique_seq_count as int
    }

    pub closed spec fn spec_count_at_limit(&self) -> int {
        self.count_at_unique_limit as int
    }

    pub closed spec fn spec_cutoff(&self) -> int {
        self.observation_cutoff as int
    }

    /// The table holds exactly the distinct sequences in `order`, one
    /// each; there are `unique` of them, no more than the cutoff, and the
    /// table is frozen once the cutoff is reached. No count exceeds the
    /// reads seen.
    pub open spec fn wf(&self) -> bool {
        &&& self.spec_cutoff() == OBSERVATION_CUTOFF
        &&& self.spec_order().len() == self.spec_unique()
        &&& self.spec_unique() <= self.spec_cutoff()
        &&& self.spec_frozen() <==> self.spec_unique() == self.spec_cutoff()
        &&& self.spec_order().no_duplicates()
        &&& forall|k: Seq<char>| self.table().contains_key(k) <==> self.spec_order().contains(k)
        &&& forall|k: Seq<char>| #[trigger] self.table().contains_key(k) ==> 1 <= self.table()[k] <= self.spec_count()
        &&& self.spec_count_at_limit() <= self.spec_count()
    }

    /// An empty table.
    pub fn new() -> (r: OverRepresentedSeqs)
        ensures
            r.wf(),
            r.table() == Map::<Seq<char>, usize>::empty(),
            r.spec_count() == 0,
            r.spec_unique() == 0,
            !r.spec_frozen(),
    {
        let r = OverRepresentedSeqs {
            sequences: StringHashMap::new(),
            order: Vec::new(),
            count: 0,
            overrepresented_seqs: Vec::new(),
            frozen: false,
            observation_cutoff: OBSERVATION_CUTOFF,
            unique_seq_count: 0,
            count_at_unique_limit: 0,
        };
        assert(r.spec_order() =~= Seq::<Seq<char>>::empty());
        r
    }

    /// Reads seen when the last new distinct sequence was admitted, or the
    /// last read before the table froze.
    pub fn count_at_unique_limit(&self) -> (r: usize)
        ensures
            r == self.spec_count_at_limit(),
    {
        self.count_at_unique_limit
    }

    /// Number of distinct sequences admitted.
    pub fn unique_seq_count(&self) -> (r: usize)
        ensures
            r == self.spec_unique(),
    {
        self.unique_seq_count
    }

    /// Number of reads seen.
    pub fn count(&self) -> (r: usize)
        ensures
            r == self.spec_count(),
    {
        self.count
    }

    /// Whether new distinct sequences are no longer admitted.
    pub fn frozen(&self) -> (r: bool)
        ensures
            r == self.spec_frozen(),
    {
        self.frozen
    }

    /// The distinct sequences in the order they were admitted, each with
    /// the number of reads that held it.
    pub fn seq(&self) -> (r: Vec<(String, usize)>)
        requires
            self.wf(),
        ensures
            r@.len() == self.spec_order().len(),
            forall|i: int|
                0 <= i < r@.len() ==> (#[trigger] r@[i]).0@ == self.spec_order()[i] && r@[i].1 == self.table()[self.spec_order()[i]],
    {
        let mut r: Vec<(String, usize)> = Vec::new();
        let mut i: usize = 0;
        while i < self.order.len()
            invariant
                self.wf(),
                i <= self.spec_order().len(),
                r@.len() == i,
                forall|k: int|
                    0 <= k < i ==> (#[trigger] r@[k]).0@ == self.spec_order()[k] && r@[k].1 == self.table()[self.spec_order()[k]],
            decreases self.spec_order().len() - i,
        {
            let key = self.order[i].clone();
            assert(self.spec_order()[i as int] == self.order@[i as int]@);
            assert(self.spec_order().contains(key@));
            let c = self.seq_count(key.as_str());
            r.push((key, c));
            i = i + 1;
        }
        r
    }

    /// Number of reads held by `seq`, zero when it is not in the table.
    pub fn seq_count(&self, seq: &str) -> (r: usize)
        ensures
            r == if self.table().contains_key(seq@) {
                self.table()[seq@] as int
            } else {
                0
            },
    {
        match self.sequences.get(seq) {
            Some(c) => *c,
            None => 0,
        }
    }

    /// What one call of `process_sequence` does, from `o` to `n`.
    pub open spec fn processed(o: Self, n: Self, record: SeqRecord) -> bool {
        &&& (n.spec_count() == o.spec_count() + 1)
        &&& (o.spec_frozen() ==> n.table().dom() == o.table().dom())
        &&& (o.spec_frozen() ==> n.spec_frozen())
        &&& (!valid_utf8(dup_key_bytes(record.seq@)) ==> n.table() == o.table())
        &&& (valid_utf8(dup_key_bytes(record.seq@)) ==> {
                let k = decode_utf8(dup_key_bytes(record.seq@));
                &&& o.table().contains_key(k) ==> n.table() == o.table().insert(
                    k,
                    (o.table()[k] + 1) as usize,
                )
                &&& !o.table().contains_key(k) && !o.spec_frozen() ==> {
                    &&& n.table() == o.table().insert(k, 1usize)
                    &&& n.spec_unique() == o.spec_unique() + 1
                }
                &&& !o.table().contains_key(k) && o.spec_frozen() ==> n.table()
                    == o.table()
            })
        &&& (n.spec_unique() == o.spec_unique() || n.spec_unique()
                == o.spec_unique() + 1)
        &&& (o.spec_frozen() || !valid_utf8(dup_key_bytes(record.seq@)) ==> n.spec_count_at_limit()
                == o.spec_count_at_limit())
        &&& (!o.spec_frozen() && valid_utf8(dup_key_bytes(record.seq@)) ==> n.spec_count_at_limit()
                == n.spec_count())
    }

    /// Counts one read under the part of its bases that identifies it. A
    /// sequence already in the table gains one; a new one is admitted with
    /// a count of one unless the table is frozen, which it becomes when the
    /// cutoff of distinct sequences is reached. Bases that are not valid
    /// UTF-8 are counted as a read only.
    pub fn process_sequence(&mut self, record: &SeqRecord)
        requires
            old(self).wf(),
            old(self).spec_count() < usize::MAX,
        ensures
            final(self).wf(),
            Self::processed(*old(self), *final(self), *record),
    {
        let ghost old_count = self.spec_count();
        self.count = self.count + 1;
        assert forall|k: Seq<char>| #[trigger] self.table().contains_key(k) implies 1 <= self.table()[k] <= self.spec_count() by {
            assert(old(self).table().contains_key(k));
            assert(old(self).table()[k] <= old_count);
        }
        let key_bytes = if record.seq.len() > DUP_FULL_LENGTH_LIMIT {
            prefix_bytes(record.seq.as_slice(), DUP_PREFIX_LENGTH)
        } else {
            prefix_bytes(record.seq.as_slice(), record.seq.len())
        };
        assert(key_bytes@ =~= dup_key_bytes(record.seq@));
        let key = match string_from_utf8(key_bytes) {
            Some(k) => k,
            None => {
                return;
            },
        };
        match self.sequences.get(key.as_str()) {
            Some(c) => {
                assert(self.table().contains_key(key@));
                assert(*c <= old_count);
                let c2 = *c + 1;
                let ghost kv = key@;
                self.sequences.insert(key, c2);
                assert forall|k: Seq<char>| self.table().contains_key(k) <==> self.spec_order().contains(k) by {
                    if k != kv {
                        assert(self.table().contains_key(k) == old(self).table().contains_key(k));
                    }
                }
                if !self.frozen {
                    self.count_at_unique_limit = self.count;
                }
                assert(self.table().dom() =~= old(self).table().dom());
            },
            None => {
                if !self.frozen {
                    let ghost o = self.spec_order();
                    self.order.push(key.clone());
                    self.sequences.insert(key, 1);
                    self.unique_seq_count = self.unique_seq_count + 1;
                    self.count_at_unique_limit = self.count;
                    if self.unique_seq_count == self.observation_cutoff {
                        self.frozen = true;
                    }
                    proof {
                        assert(self.spec_order() =~= o.push(key@));
                        assert(!o.contains(key@));
                        assert forall|i: int, j: int|
                            0 <= i < self.spec_order().len() && 0 <= j < self.spec_order().len() && i != j
                                implies self.spec_order()[i] != self.spec_order()[j] by {
                            if j == o.len() {
                                assert(self.spec_order()[i] == o[i]);
                            } else if i == o.len() {
                                assert(self.spec_order()[j] == o[j]);
                            } else {
                                assert(self.spec_order()[i] == o[i]);
                                assert(self.spec_order()[j] == o[j]);
                            }
                        }
                        assert forall|k: Seq<char>| self.table().contains_key(k) <==> self.spec_order().contains(k) by {
                            if k == key@ {
                                assert(self.spec_order()[o.len() as int] == k);
                            } else if o.contains(k) {
                                let j = choose|j: int| 0 <= j < o.len() && o[j] == k;
                                assert(self.spec_order()[j] == k);
                            } else if self.spec_order().contains(k) {
                                let j = choose|j: int| 0 <= j < self.spec_order().len() && self.spec_order()[j] == k;
                                assert(j < o.len());
                                assert(o[j] == k);
                            }
                        }
                    }
                }
            },
        }
    }
}

/// Number of distinct sequences at each duplication level, the levels in
/// the order their first sequence was admitted.
#[derive(Clone, Debug)]
pub struct SeqDuplicationLevel {
    levels: Vec<usize>,
    distinct: Vec<usize>,
    count_at_limit: usize,
    total_count: usize,
}

/// Index of the report slot of duplication level `level` (at least one):
/// levels 1 to 9 have their own slots, then 10-49, 50-99, 100-499,
/// 500-999, 1000-4999, 5000-9999 and 10000 or more.
pub open spec fn dup_slot_of(level: int) -> int {
    if level >= 10000 {
        15
    } else if level >= 5000 {
        14
    } else if level >= 1000 {
        13
    } else if level >= 500 {
        12
    } else if level >= 100 {
        11
    } else if level >= 50 {
        10
    } else if level >= 10 {
        9
    } else {
        level - 1
    }
}

/// The report slot of a duplication level.
pub fn dup_slot(level: usize) -> (r: usize)
    requires
        level >= 1,
    ensures
        r == dup_slot_of(level as int),
        r < 16,
{
    if level >= 10000 {
        15
    } else if level >= 5000 {
        14
    } else if level >= 1000 {
        13
    } else if level >= 500 {
        12
    } else if level >= 100 {
        11
    } else if level >= 50 {
        10
    } else if level >= 10 {
        9
    } else {
        level - 1
    }
}

/// Number of the first `n` sequences of `order` that the table counts
/// `level` times.
pub open spec fn keys_at_level(order: Seq<Seq<char>>, table: Map<Seq<char>, usize>, level: int, n: int) -> int
    decreases n,
{
    if n <= 0 {
        0
    } else {
        keys_at_level(order, table, level, n - 1) + if table[order[n - 1]] == level {
            1int
        } else {
            0int
        }
    }
}

proof fn lemma_keys_at_level_bound(order: Seq<Seq<char>>, table: Map<Seq<char>, usize>, level: int, n: int)
    ensures
        0 <= keys_at_level(order, table, level, n) <= if n < 0 {
            0
        } else {
            n
        },
    decreases n,
{
    if n > 0 {
        lemma_keys_at_level_bound(order, table, level, n - 1);
    }
}

proof fn lemma_keys_at_level_zero(order: Seq<Seq<char>>, table: Map<Seq<char>, usize>, level: int, n: int)
    requires
        forall|k: int| 0 <= k < n ==> table[order[k]] != level,
    ensures
        keys_at_level(order, table, level, n) == 0,
    decreases n,
{
    if n > 0 {
        lemma_keys_at_level_zero(order, table, level, n - 1);
    }
}

impl SeqDuplicationLevel {
    pub closed spec fn spec_levels(&self) -> Seq<usize> {
        self.levels@
    }

    pub closed spec fn spec_distinct(&self) -> Seq<usize> {
        self.distinct@
    }

    pub closed spec fn spec_count_at_limit(&self) -> int {
        self.count_at_limit as int
    }

    pub closed spec fn spec_total_count(&self) -> int {
        self.total_count as int
    }

    /// No levels yet.
    pub fn new() -> (r: SeqDuplicationLevel)
        ensures
            r.spec_levels().len() == 0,
            r.spec_distinct().len() == 0,
    {
        SeqDuplicationLevel { levels: Vec::new(), distinct: Vec::new(), count_at_limit: 0, total_count: 0 }
    }

    /// The levels hold the collation of `seqs`: each level present once,
    /// in the order its first sequence was admitted, with the number of
    /// sequences at it; every admitted sequence's level is present.
    pub open spec fn levels_of(&self, seqs: OverRepresentedSeqs) -> bool {
        &&& self.spec_count_at_limit() == seqs.spec_count_at_limit()
        &&& self.spec_total_count() == seqs.spec_count()
        &&& self.spec_levels().len() == self.spec_distinct().len()
        &&& self.spec_levels().no_duplicates()
        &&& forall|j: int|
            0 <= j < self.spec_levels().len() ==> #[trigger] self.spec_distinct()[j] == keys_at_level(
                seqs.spec_order(),
                seqs.table(),
                self.spec_levels()[j] as int,
                seqs.spec_order().len() as int,
            ) && self.spec_distinct()[j] > 0
        &&& forall|k: int|
            0 <= k < seqs.spec_order().len() ==> self.spec_levels().contains(
                #[trigger] seqs.table()[seqs.spec_order()[k]],
            )
    }

    /// Groups the distinct sequences of a table by how many reads held
    /// them: each level present once, in the order its first sequence was
    /// admitted, with the number of sequences at that level. Also keeps the
    /// table's read count and its count when the last sequence was
    /// admitted, which the correction for the frozen table needs.
    pub fn calculate_levels(&mut self, seqs: &OverRepresentedSeqs)
        requires
            seqs.wf(),
        ensures
            final(self).levels_of(*seqs),
            forall|j: int| 0 <= j < final(self).spec_levels().len() ==> #[trigger] final(self).spec_levels()[j] >= 1,
    {
        let ghost order = seqs.spec_order();
        let ghost table = seqs.table();
        let mut levels: Vec<usize> = Vec::new();
        let mut distinct: Vec<usize> = Vec::new();
        let mut i: usize = 0;
        while i < seqs.order.len()
            invariant
                seqs.wf(),
                order == seqs.spec_order(),
                table == seqs.table(),
                i <= order.len(),
                levels@.len() == distinct@.len(),
                levels@.no_duplicates(),
                forall|j: int| 0 <= j < levels@.len() ==> #[trigger] levels@[j] >= 1,
                forall|j: int|
                    0 <= j < levels@.len() ==> #[trigger] distinct@[j] == keys_at_level(
                        order,
                        table,
                        levels@[j] as int,
                        i as int,
                    ) && distinct@[j] > 0,
                forall|k: int| 0 <= k < i ==> levels@.contains(#[trigger] table[order[k]]),
            decreases order.len() - i,
        {
            let ghost key = order[i as int];
            assert(seqs.order@[i as int]@ == key);
            assert(order.contains(key));
            let level = seqs.seq_count(seqs.order[i].as_str());
            let mut j: usize = 0;
            while j < levels.len() && levels[j] != level
                invariant
                    j <= levels@.len(),
                    forall|m: int| 0 <= m < j ==> levels@[m] != level,
                decreases levels@.len() - j,
            {
                j = j + 1;
            }
            proof {
                lemma_keys_at_level_bound(order, table, level as int, i as int);
            }
            assert(level == table[order[i as int]]);
            assert(table.contains_key(order[i as int]));
            assert(level >= 1);
            let ghost old_levels = levels@;
            let ghost old_distinct = distinct@;
            if j < levels.len() {
                let d = distinct[j] + 1;
                distinct.set(j, d);
            } else {
                assert(!levels@.contains(level));
                proof {
                    assert forall|k: int| 0 <= k < i implies table[order[k]] != level by {
                        assert(levels@.contains(table[order[k]]));
                    }
                    lemma_keys_at_level_zero(order, table, level as int, i as int);
                }
                levels.push(level);
                distinct.push(1);
                proof {
                    assert forall|a: int, b: int|
                        0 <= a < levels@.len() && 0 <= b < levels@.len() && a != b implies levels@[a] != levels@[b] by {
                        if b == levels@.len() - 1 {
                            assert(levels@[a] != level);
                        } else if a == levels@.len() - 1 {
                            assert(levels@[b] != level);
                        }
                    }
                }
            }
            proof {
                assert forall|m: int| 0 <= m < levels@.len() implies #[trigger] distinct@[m] == keys_at_level(
                    order,
                    table,
                    levels@[m] as int,
                    i + 1,
                ) && distinct@[m] > 0 by {
                    if m < old_levels.len() {
                        assert(levels@[m] == old_levels[m]);
                        assert(old_distinct[m] == keys_at_level(order, table, old_levels[m] as int, i as int));
                    }
                }
                assert forall|k: int| 0 <= k < i + 1 implies levels@.contains(#[trigger] table[order[k]]) by {
                    if k == i {
                        assert(levels@[j as int] == level);
                    } else {
                        assert(old_levels.contains(table[order[k]]));
                        let w = choose|w: int| 0 <= w < old_levels.len() && old_levels[w] == table[order[k]];
                        assert(levels@[w] == old_levels[w]);
                    }
                }
                assert forall|m: int| 0 <= m < levels@.len() implies #[trigger] levels@[m] >= 1 by {
                    if m < old_levels.len() {
                        assert(levels@[m] == old_levels[m]);
                    }
                }
            }
            i = i + 1;
        }
        self.levels = levels;
        self.distinct = distinct;
        self.count_at_limit = seqs.count_at_unique_limit;
        self.total_count = seqs.count;
    }

    /// The duplication levels present.
    pub fn levels(&self) -> (r: Vec<usize>)
        ensures
            r@ == self.spec_levels(),
    {
        crate::arith::copy_counts(&self.levels)
    }

    /// Per level, the number of distinct sequences at it.
    pub fn distinct_counts(&self) -> (r: Vec<usize>)
        ensures
            r@ == self.spec_distinct(),
    {
        crate::arith::copy_counts(&self.distinct)
    }

    /// Reads seen when the table last admitted a sequence.
    pub fn count_at_limit(&self) -> (r: usize)
        ensures
            r == self.spec_count_at_limit(),
    {
        self.count_at_limit
    }

    /// Reads seen in all.
    pub fn total_count(&self) -> (r: usize)
        ensures
            r == self.spec_total_count(),
    {
        self.total_count
    }
}

} // verus!
