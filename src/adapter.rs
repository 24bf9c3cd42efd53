use vstd::prelude::*;
use vstd::utf8::encode_utf8;
use crate::arith::{copy_counts, lemma_sum_range_le, ratio_of, sum_range, Ratio};
use crate::base_group::BaseGroup;
use crate::bytes::{find_bytes, occurs_at};
use crate::record::SeqRecord;

verus! {

/// `p` grown to `n` entries by repeating its last entry.
pub open spec fn extend_last(p: Seq<usize>, n: int) -> Seq<usize> {
    if n > p.len() && p.len() > 0 {
        p + Seq::new((n - p.len()) as nat, |i: int| p.last())
    } else {
        p
    }
}

/// A named adapter and, per read position, the number of reads in which
/// the adapter had started at or before that position.
#[derive(Clone, Debug)]
pub struct Adapter {
    name: String,
    sequence: String,
    positions: Vec<usize>,
}

impl Adapter {
    pub closed spec fn spec_name(&self) -> Seq<char> {
        self.name@
    }

    pub closed spec fn spec_sequence(&self) -> Seq<char> {
        self.sequence@
    }

    pub closed spec fn spec_positions(&self) -> Seq<usize> {
        self.positions@
    }

    /// At least one position is held.
    pub open spec fn wf(&self) -> bool {
        self.spec_positions().len() >= 1
    }

    /// An adapter with one position and no hits.
    pub fn new(name: String, sequence: String) -> (r: Adapter)
        ensures
            r.wf(),
            r.spec_name() == name@,
            r.spec_sequence() == sequence@,
            r.spec_positions() == seq![0usize],
    {
        let mut positions: Vec<usize> = Vec::new();
        positions.push(0);
        assert(positions@ =~= seq![0usize]);
        Adapter { name, sequence, positions }
    }

    /// Counts one more read at `position`.
    pub fn increment_count(&mut self, position: usize)
        requires
            position < old(self).spec_positions().len(),
            old(self).spec_positions()[position as int] < usize::MAX,
        ensures
            final(self).spec_name() == old(self).spec_name(),
            final(self).spec_sequence() == old(self).spec_sequence(),
            final(self).spec_positions() == old(self).spec_positions().update(
                position as int,
                (old(self).spec_positions()[position as int] + 1) as usize,
            ),
    {
        let v = self.positions[position] + 1;
        self.positions.set(position, v);
    }

    /// Grows the positions to `new_length`, each new one holding the count
    /// of the last one held.
    pub fn expand_length_to(&mut self, new_length: usize)
        requires
            old(self).wf(),
        ensures
            final(self).wf(),
            final(self).spec_name() == old(self).spec_name(),
            final(self).spec_sequence() == old(self).spec_sequence(),
            final(self).spec_positions() == extend_last(old(self).spec_positions(), new_length as int),
    {
        let old_len = self.positions.len();
        let last = self.positions[old_len - 1];
        let ghost p = self.spec_positions();
        while self.positions.len() < new_length
            invariant
                old_len == p.len(),
                old_len >= 1,
                last == p.last(),
                self.spec_name() == old(self).spec_name(),
                self.spec_sequence() == old(self).spec_sequence(),
                p == old(self).spec_positions(),
                old_len <= self.positions@.len(),
                self.positions@.len() <= if new_length > old_len { new_length as int } else { old_len as int },
                self.positions@ == extend_last(p, self.positions@.len() as int),
            decreases new_length - self.positions@.len(),
        {
            self.positions.push(last);
            assert(self.positions@ =~= extend_last(p, self.positions@.len() as int));
        }
    }

    /// The per-position counts.
    pub fn positions(&mut self) -> (r: Vec<usize>)
        ensures
            r@ == old(self).spec_positions(),
            *final(self) == *old(self),
    {
        copy_counts(&self.positions)
    }

    /// The adapter's bases.
    pub fn sequence(&mut self) -> (r: String)
        ensures
            r@ == old(self).spec_sequence(),
            *final(self) == *old(self),
    {
        self.sequence.clone()
    }

    /// The adapter's name.
    pub fn name(&mut self) -> (r: String)
        ensures
            r@ == old(self).spec_name(),
            *final(self) == *old(self),
    {
        self.name.clone()
    }
}

/// Number of positions tracked for reads up to `longest_sequence` long
/// and adapters up to `longest_adapter` long.
pub open spec fn tracked_positions(longest_sequence: int, longest_adapter: int) -> int {
    if longest_sequence > longest_adapter {
        longest_sequence - longest_adapter + 1
    } else {
        1
    }
}

/// The counts of an adapter after a read with bases `s`: grown to `n`
/// positions, then one more at every position from the adapter's first
/// occurrence in `s`, when it occurs.
pub open spec fn after_read(p: Seq<usize>, adapter: Seq<u8>, s: Seq<u8>, n: int) -> Seq<usize> {
    let e = extend_last(p, n);
    Seq::new(
        e.len(),
        |i: int|
            if exists|k: int| 0 <= k <= i && occurs_at(s, adapter, k) {
                (e[i] + 1) as usize
            } else {
                e[i]
            },
    )
}

/// Fraction of reads contaminated by an adapter with counts `p`, averaged
/// over the positions `lower..=upper` (1-based) of a group.
pub open spec fn group_enrichment(p: Seq<usize>, lower: int, upper: int, total: int) -> Ratio {
    let hi = if upper < p.len() {
        upper
    } else {
        p.len() as int
    };
    ratio_of(sum_range(p, lower - 1, hi), total * (upper - lower + 1))
}

/// Per adapter, how many reads it has contaminated from each position on.
#[derive(Clone, Debug)]
pub struct AdapterContent {
    longest_sequence: usize,
    longest_adapter: usize,
    total_count: usize,
    adapters: Vec<Adapter>,
    enrichments: Vec<Vec<Ratio>>,
    groups: Vec<BaseGroup>,
}

impl AdapterContent {
    pub closed spec fn spec_adapters(&self) -> Seq<Adapter> {
        self.adapters@
    }

    pub closed spec fn spec_total_count(&self) -> int {
        self.total_count as int
    }

    pub closed spec fn spec_longest_sequence(&self) -> int {
        self.longest_sequence as int
    }

    pub closed spec fn spec_longest_adapter(&self) -> int {
        self.longest_adapter as int
    }

    pub closed spec fn spec_groups(&self) -> Seq<BaseGroup> {
        self.groups@
    }

    pub closed spec fn spec_enrichments(&self) -> Seq<Seq<Ratio>> {
        self.enrichments@.map_values(|v: Vec<Ratio>| v@)
    }

    /// Per adapter and group, the fraction of contaminated reads.
    pub fn enrichments(&self) -> (r: &Vec<Vec<Ratio>>)
        ensures
            r@.map_values(|v: Vec<Ratio>| v@) == self.spec_enrichments(),
    {
        &self.enrichments
    }

    /// The adapters tracked.
    pub fn adapters(&self) -> (r: &Vec<Adapter>)
        ensures
            r@ == self.spec_adapters(),
    {
        &self.adapters
    }

    /// The groups of the report.
    pub fn groups(&self) -> (r: &Vec<BaseGroup>)
        ensures
            r@ == self.spec_groups(),
    {
        &self.groups
    }

    /// Number of reads seen.
    pub fn total_count(&self) -> (r: usize)
        ensures
            r == self.spec_total_count(),
    {
        self.total_count
    }

    /// Every adapter tracks the same positions, no count exceeds the reads
    /// seen, and no adapter is longer than the longest one recorded.
    pub open spec fn wf(&self) -> bool {
        &&& self.spec_longest_sequence() < usize::MAX
        &&& forall|a: int|
            0 <= a < self.spec_adapters().len() ==> {
                &&& (#[trigger] self.spec_adapters()[a]).spec_positions().len() == tracked_positions(
                    self.spec_longest_sequence(),
                    self.spec_longest_adapter(),
                )
                &&& encode_utf8(self.spec_adapters()[a].spec_sequence()).len() <= self.spec_longest_adapter()
                &&& forall|i: int|
                    0 <= i < self.spec_adapters()[a].spec_positions().len()
                        ==> self.spec_adapters()[a].spec_positions()[i] <= self.spec_total_count()
            }
    }

    /// No adapters and no reads.
    pub fn new() -> (r: AdapterContent)
        ensures
            r.wf(),
            r.spec_adapters().len() == 0,
            r.spec_total_count() == 0,
            r.spec_longest_sequence() == 0,
    {
        AdapterContent {
            longest_sequence: 0,
            longest_adapter: 0,
            total_count: 0,
            adapters: Vec::new(),
            enrichments: Vec::new(),
            groups: Vec::new(),
        }
    }

    /// Tracks the given adapters, none of which has been seen yet.
    pub fn with_adapters(adapters: Vec<Adapter>) -> (r: AdapterContent)
        requires
            forall|a: int| 0 <= a < adapters@.len() ==> (#[trigger] adapters@[a]).spec_positions() == seq![0usize],
        ensures
            r.wf(),
            r.spec_adapters() == adapters@,
            r.spec_total_count() == 0,
            r.spec_longest_sequence() == 0,
    {
        let mut longest: usize = 0;
        let mut a: usize = 0;
        while a < adapters.len()
            invariant
                a <= adapters@.len(),
                forall|k: int| 0 <= k < a ==> encode_utf8((#[trigger] adapters@[k]).spec_sequence()).len() <= longest,
            decreases adapters@.len() - a,
        {
            let n = adapters[a].sequence.as_str().as_bytes().len();
            if n > longest {
                longest = n;
            }
            a = a + 1;
        }
        AdapterContent {
            longest_sequence: 0,
            longest_adapter: longest,
            total_count: 0,
            adapters,
            enrichments: Vec::new(),
            groups: Vec::new(),
        }
    }

    /// The report holds, per adapter and per group of `groups`, the averaged
    /// fraction of contaminated reads.
    pub open spec fn enrichments_are(&self, groups: Seq<BaseGroup>) -> bool {
        &&& self.spec_enrichments().len() == self.spec_adapters().len()
        &&& forall|a: int|
            0 <= a < self.spec_adapters().len() ==> (#[trigger] self.spec_enrichments()[a]).len()
                == groups.len() && forall|g: int|
                0 <= g < groups.len() ==> self.spec_enrichments()[a][g] == group_enrichment(
                    self.spec_adapters()[a].spec_positions(),
                    groups[g].lower_count as int,
                    groups[g].upper_count as int,
                    self.spec_total_count(),
                )
    }

    /// What one call of `process_sequence` does, from `o` to `n`.
    pub open spec fn processed(o: Self, n: Self, record: SeqRecord) -> bool {
        &&& (n.spec_total_count() == o.spec_total_count() + 1)
        &&& (n.spec_longest_adapter() == o.spec_longest_adapter())
        &&& (n.spec_longest_sequence() == if record.seq@.len() > o.spec_longest_sequence()
                && record.seq@.len() > o.spec_longest_adapter() {
                record.seq@.len() as int
            } else {
                o.spec_longest_sequence()
            })
        &&& (n.spec_adapters().len() == o.spec_adapters().len())
        &&& (forall|a: int|
                0 <= a < n.spec_adapters().len() ==> {
                    let oa = o.spec_adapters()[a];
                    let na = #[trigger] n.spec_adapters()[a];
                    &&& na.spec_name() == oa.spec_name()
                    &&& na.spec_sequence() == oa.spec_sequence()
                    &&& na.spec_positions() == after_read(
                        oa.spec_positions(),
                        encode_utf8(oa.spec_sequence()),
                        record.seq@,
                        tracked_positions(
                            n.spec_longest_sequence(),
                            n.spec_longest_adapter(),
                        ),
                    )
                })
    }

    /// Counts one read: grows the tracked positions when the read is longer
    /// than any before and than every adapter, then for each adapter found
    /// in the read counts one more at every position from where it starts.
    pub fn process_sequence(&mut self, record: &SeqRecord)
        requires
            old(self).wf(),
            old(self).spec_total_count() < usize::MAX,
            record.seq@.len() < usize::MAX,
        ensures
            final(self).wf(),
            Self::processed(*old(self), *final(self), *record),
    {
        self.total_count = self.total_count + 1;
        let seq_len = record.seq.len();
        let ghost old_adapters = self.spec_adapters();
        if seq_len > self.longest_sequence && seq_len > self.longest_adapter {
            self.longest_sequence = seq_len;
        }
        let width: usize = if self.longest_sequence > self.longest_adapter {
            self.longest_sequence - self.longest_adapter + 1
        } else {
            1
        };
        let mut a: usize = 0;
        while a < self.adapters.len()
            invariant
                width == tracked_positions(self.spec_longest_sequence(), self.spec_longest_adapter()),
                width >= tracked_positions(old(self).spec_longest_sequence(), old(self).spec_longest_adapter()),
                self.spec_total_count() == old(self).spec_total_count() + 1,
                self.spec_longest_adapter() == old(self).spec_longest_adapter(),
                self.spec_longest_sequence() == if record.seq@.len() > old(self).spec_longest_sequence()
                    && record.seq@.len() > old(self).spec_longest_adapter() {
                    record.seq@.len() as int
                } else {
                    old(self).spec_longest_sequence()
                },
                self.spec_longest_sequence() < usize::MAX,
                old_adapters == old(self).spec_adapters(),
                self.spec_adapters().len() == old_adapters.len(),
                a <= old_adapters.len(),
                old(self).wf(),
                self.spec_total_count() >= 1,
                forall|k: int|
                    a <= k < old_adapters.len() ==> #[trigger] self.spec_adapters()[k] == old_adapters[k],
                forall|k: int|
                    0 <= k < a ==> {
                        let o = old_adapters[k];
                        let n = #[trigger] self.spec_adapters()[k];
                        &&& n.spec_name() == o.spec_name()
                        &&& n.spec_sequence() == o.spec_sequence()
                        &&& n.spec_positions() == after_read(
                            o.spec_positions(),
                            encode_utf8(o.spec_sequence()),
                            record.seq@,
                            width as int,
                        )
                        &&& n.spec_positions().len() == width
                        &&& forall|i: int|
                            0 <= i < n.spec_positions().len() ==> n.spec_positions()[i] <= self.spec_total_count()
                    },
            decreases old_adapters.len() - a,
        {
            let mut ad = Adapter::new(String::new(), String::new());
            std::mem::swap(&mut ad, &mut self.adapters[a]);
            let ghost o = old_adapters[a as int];
            let ghost e = extend_last(o.spec_positions(), width as int);
            ad.expand_length_to(width);
            let found = find_bytes(record.seq.as_slice(), ad.sequence.as_str().as_bytes());
            let ghost ab = encode_utf8(o.spec_sequence());
            match found {
                Some(index) => {
                    let mut i: usize = index;
                    while i < width
                        invariant
                            index <= i,
                            ad.spec_name() == o.spec_name(),
                            ad.spec_sequence() == o.spec_sequence(),
                            ad.spec_positions().len() == width,
                            e.len() == width,
                            forall|k: int| 0 <= k < e.len() ==> e[k] < self.spec_total_count(),
                            forall|k: int|
                                0 <= k < width ==> #[trigger] ad.spec_positions()[k] == if index <= k < i {
                                    (e[k] + 1) as usize
                                } else {
                                    e[k]
                                },
                        decreases width - i,
                    {
                        ad.increment_count(i);
                        i = i + 1;
                    }
                    assert(ad.spec_positions() =~= after_read(o.spec_positions(), ab, record.seq@, width as int)) by {
                        assert forall|k: int| 0 <= k < width implies ad.spec_positions()[k] == after_read(o.spec_positions(), ab, record.seq@, width as int)[k] by {
                            if k >= index {
                                assert(occurs_at(record.seq@, ab, index as int));
                            }
                        }
                    }
                },
                None => {
                    assert(ad.spec_positions() =~= after_read(o.spec_positions(), ab, record.seq@, width as int));
                },
            }
            self.adapters.set(a, ad);
            a = a + 1;
        }
    }

    /// Fills the report: per adapter and per group of positions, the
    /// fraction of reads contaminated, averaged over the group's positions.
    pub fn calculate_enrichment(&mut self)
        requires
            old(self).wf(),
            old(self).spec_longest_sequence() < usize::MAX / 8,
        ensures
            final(self).wf(),
            final(self).spec_adapters() == old(self).spec_adapters(),
            final(self).spec_total_count() == old(self).spec_total_count(),
            final(self).spec_longest_sequence() == old(self).spec_longest_sequence(),
            final(self).spec_longest_adapter() == old(self).spec_longest_adapter(),
            exists|groups: Seq<BaseGroup>|
                BaseGroup::are_base_groups(
                    groups,
                    if old(self).spec_adapters().len() == 0 {
                        0
                    } else {
                        tracked_positions(
                            old(self).spec_longest_sequence(),
                            old(self).spec_longest_adapter(),
                        )
                    },
                ) && #[trigger] final(self).enrichments_are(groups),
    {
        let mut max_len: usize = 0;
        if self.adapters.len() > 0 {
            max_len = self.adapters[0].positions.len();
        }
        let groups = BaseGroup::make_base_groups(max_len);
        proof {
            BaseGroup::lemma_groups_in_range(groups@, max_len as int);
        }
        let mut enrichments: Vec<Vec<Ratio>> = Vec::new();
        let mut a: usize = 0;
        while a < self.adapters.len()
            invariant
                self.wf(),
                max_len == (if self.spec_adapters().len() == 0 {
                    0
                } else {
                    tracked_positions(self.spec_longest_sequence(), self.spec_longest_adapter())
                }),
                BaseGroup::are_base_groups(groups@, max_len as int),
                forall|k: int|
                    0 <= k < groups@.len() ==> 1 <= (#[trigger] groups@[k]).lower_count
                        <= groups@[k].upper_count <= max_len,
                a <= self.spec_adapters().len(),
                enrichments@.len() == a,
                forall|k: int|
                    0 <= k < a ==> (#[trigger] enrichments@[k])@.len() == groups@.len() && forall|g: int|
                        0 <= g < groups@.len() ==> enrichments@[k]@[g] == group_enrichment(
                            self.spec_adapters()[k].spec_positions(),
                            groups@[g].lower_count as int,
                            groups@[g].upper_count as int,
                            self.spec_total_count(),
                        ),
            decreases self.spec_adapters().len() - a,
        {
            let mut row: Vec<Ratio> = Vec::new();
            let mut g: usize = 0;
            while g < groups.len()
                invariant
                    self.wf(),
                    a < self.spec_adapters().len(),
                    self.spec_adapters()[a as int].spec_positions().len() == max_len,
                    forall|k: int|
                        0 <= k < groups@.len() ==> 1 <= (#[trigger] groups@[k]).lower_count
                            <= groups@[k].upper_count <= max_len,
                    g <= groups@.len(),
                    row@.len() == g,
                    forall|j: int|
                        0 <= j < g ==> #[trigger] row@[j] == group_enrichment(
                            self.spec_adapters()[a as int].spec_positions(),
                            groups@[j].lower_count as int,
                            groups@[j].upper_count as int,
                            self.spec_total_count(),
                        ),
                decreases groups@.len() - g,
            {
                let lower = groups[g].lower_count;
                let upper = groups[g].upper_count;
                let ghost pos = self.spec_adapters()[a as int].spec_positions();
                let mut sum: u128 = 0;
                let mut p: usize = lower - 1;
                while p < upper && p < self.adapters[a].positions.len()
                    invariant
                        self.wf(),
                        a < self.spec_adapters().len(),
                        pos == self.spec_adapters()[a as int].spec_positions(),
                        pos.len() == max_len,
                        1 <= lower <= upper <= max_len,
                        lower - 1 <= p <= upper,
                        sum == sum_range(pos, lower - 1, p as int),
                        forall|k: int| 0 <= k < pos.len() ==> pos[k] <= self.spec_total_count(),
                    decreases upper - p,
                {
                    proof {
                        lemma_sum_range_le(pos, lower - 1, p as int, self.spec_total_count());
                        let w = p - (lower - 1);
                        let t = self.spec_total_count();
                        assert(w * t <= 18446744073709551615 * 18446744073709551615) by (nonlinear_arith)
                            requires
                                0 <= w <= 18446744073709551615,
                                0 <= t <= 18446744073709551615,
                        ;
                        assert(w * t + t <= (w + 1) * t) by (nonlinear_arith);
                        assert((w + 1) * t <= 18446744073709551615 * 18446744073709551615) by (nonlinear_arith)
                            requires
                                0 <= w + 1 <= 18446744073709551615,
                                0 <= t <= 18446744073709551615,
                        ;
                    }
                    sum = sum + self.adapters[a].positions[p] as u128;
                    p = p + 1;
                }
                let width: u128 = (upper - lower + 1) as u128;
                let total: u128 = self.total_count as u128;
                proof {
                    assert(width * total <= 18446744073709551615 * 18446744073709551615) by (nonlinear_arith)
                        requires
                            0 <= width <= 18446744073709551615,
                            0 <= total <= 18446744073709551615,
                    ;
                }
                row.push(Ratio::of(sum, total * width));
                g = g + 1;
            }
            enrichments.push(row);
            a = a + 1;
        }
        self.enrichments = enrichments;
        self.groups = groups;
        assert(self.enrichments_are(groups@));
    }
}

} // verus!
