use vstd::prelude::*;
use crate::arith::{ratio_of, sum_range, Ratio};
use crate::base_group::BaseGroup;
use crate::record::SeqRecord;

verus! {

/// Count at position `i`, zero beyond the positions held.
pub open spec fn count_at(v: Seq<usize>, i: int) -> int {
    if 0 <= i < v.len() {
        v[i] as int
    } else {
        0
    }
}

/// The larger of two lengths.
pub open spec fn longer(a: int, b: int) -> int {
    if a > b {
        a
    } else {
        b
    }
}

/// `v` grown to the length of `seq`, with one more at each position `i`
/// where `(seq[i] == base) == want`.
pub open spec fn tallied(v: Seq<usize>, seq: Seq<u8>, base: u8, want: bool) -> Seq<usize> {
    Seq::new(
        longer(v.len() as int, seq.len() as int) as nat,
        |i: int|
            (count_at(v, i) + if i < seq.len() && ((seq[i] == base) == want) {
                1int
            } else {
                0int
            }) as usize,
    )
}

/// Tallying one read raises no count by more than one.
pub proof fn lemma_tallied_below(v: Seq<usize>, seq: Seq<u8>, base: u8, want: bool, bound: int)
    requires
        1 <= bound <= usize::MAX,
        forall|i: int| 0 <= i < v.len() ==> v[i] < bound,
    ensures
        forall|i: int|
            0 <= i < tallied(v, seq, base, want).len() ==> #[trigger] tallied(v, seq, base, want)[i]
                < bound + 1,
{
    assert forall|i: int| 0 <= i < tallied(v, seq, base, want).len() implies #[trigger] tallied(
        v,
        seq,
        base,
        want,
    )[i] < bound + 1 by {
        assert(count_at(v, i) < bound);
    }
}

/// Grows `v` to the length of `seq` and counts one more at each position
/// where `(seq[i] == base) == want`.
pub fn tally_positions(v: &mut Vec<usize>, seq: &Vec<u8>, base: u8, want: bool)
    requires
        forall|i: int| 0 <= i < old(v)@.len() ==> old(v)@[i] < usize::MAX,
    ensures
        final(v)@ == tallied(old(v)@, seq@, base, want),
{
    let ghost o = v@;
    let n = seq.len();
    while v.len() < n
        invariant
            o.len() <= v@.len() <= longer(o.len() as int, n as int),
            n == seq@.len(),
            forall|i: int| 0 <= i < v@.len() ==> v@[i] == count_at(o, i),
        decreases n - v@.len(),
    {
        v.push(0);
    }
    let mut i: usize = 0;
    while i < n
        invariant
            n == seq@.len(),
            i <= n <= v@.len(),
            v@.len() == longer(o.len() as int, n as int),
            forall|k: int| 0 <= k < o.len() ==> o[k] < usize::MAX,
            forall|k: int|
                0 <= k < v@.len() ==> #[trigger] v@[k] == count_at(o, k) + if k < i && ((seq@[k]
                    == base) == want) {
                    1int
                } else {
                    0int
                },
        decreases n - i,
    {
        if (seq[i] == base) == want {
            let c = v[i] + 1;
            v.set(i, c);
        }
        i = i + 1;
    }
    assert(v@ =~= tallied(o, seq@, base, want));
}

/// Sum over the positions `lower..=upper` (1-based) of `v`.
pub open spec fn group_sum(v: Seq<usize>, lower: int, upper: int) -> int {
    sum_range(v, lower - 1, upper)
}

/// Sum over a group of positions, computed.
fn sum_group(v: &Vec<usize>, lower: usize, upper: usize) -> (r: u128)
    requires
        1 <= lower <= upper <= v@.len(),
        v@.len() <= usize::MAX / 8,
    ensures
        r == group_sum(v@, lower as int, upper as int),
        r <= (usize::MAX / 8) * usize::MAX,
{
    let mut s: u128 = 0;
    let mut p: usize = lower - 1;
    while p < upper
        invariant
            1 <= lower <= upper <= v@.len() <= usize::MAX / 8,
            lower - 1 <= p <= upper,
            s == sum_range(v@, lower - 1, p as int),
            s <= (p - (lower - 1)) * usize::MAX,
        decreases upper - p,
    {
        proof {
            let w = p - (lower - 1);
            assert((w + 1) * usize::MAX <= (usize::MAX / 8) * usize::MAX) by (nonlinear_arith)
                requires
                    w + 1 <= usize::MAX / 8,
            ;
            assert(w * usize::MAX + usize::MAX == (w + 1) * usize::MAX) by (nonlinear_arith);
        }
        s = s + v[p] as u128;
        p = p + 1;
    }
    proof {
        let w = upper - (lower - 1);
        assert(w * usize::MAX <= (usize::MAX / 8) * usize::MAX) by (nonlinear_arith)
            requires
                w <= usize::MAX / 8,
        ;
    }
    s
}

/// Per-position counts of the bases T, C, A and G, and per group of
/// positions the fraction of each among them.
#[derive(Clone, Debug)]
pub struct PerBaseSeqContent {
    g_counts: Vec<usize>,
    c_counts: Vec<usize>,
    a_counts: Vec<usize>,
    t_counts: Vec<usize>,
    percentages: Vec<Vec<Ratio>>,
    x_category: Vec<String>,
}

/// Fractions of T, C, A and G, in that order, over a group of positions.
pub open spec fn content_fractions(
    t: Seq<usize>,
    c: Seq<usize>,
    a: Seq<usize>,
    g: Seq<usize>,
    lower: int,
    upper: int,
) -> Seq<Ratio> {
    let st = group_sum(t, lower, upper);
    let sc = group_sum(c, lower, upper);
    let sa = group_sum(a, lower, upper);
    let sg = group_sum(g, lower, upper);
    let total = st + sc + sa + sg;
    seq![ratio_of(st, total), ratio_of(sc, total), ratio_of(sa, total), ratio_of(sg, total)]
}

impl PerBaseSeqContent {
    pub closed spec fn spec_t(&self) -> Seq<usize> {
        self.t_counts@
    }

    pub closed spec fn spec_c(&self) -> Seq<usize> {
        self.c_counts@
    }

    pub closed spec fn spec_a(&self) -> Seq<usize> {
        self.a_counts@
    }

    pub closed spec fn spec_g(&self) -> Seq<usize> {
        self.g_counts@
    }

    pub closed spec fn spec_percentages(&self) -> Seq<Seq<Ratio>> {
        self.percentages@.map_values(|v: Vec<Ratio>| v@)
    }

    pub closed spec fn spec_labels(&self) -> Seq<Seq<char>> {
        self.x_category@.map_values(|s: String| s@)
    }

    /// Per group, the fractions of T, C, A and G.
    pub fn percentages(&self) -> (r: &Vec<Vec<Ratio>>)
        ensures
            r@.map_values(|v: Vec<Ratio>| v@) == self.spec_percentages(),
    {
        &self.percentages
    }

    /// The group labels.
    pub fn x_category(&self) -> (r: &Vec<String>)
        ensures
            r@.map_values(|s: String| s@) == self.spec_labels(),
    {
        &self.x_category
    }

    /// The four count vectors are equally long.
    pub open spec fn wf(&self) -> bool {
        &&& self.spec_c().len() == self.spec_t().len()
        &&& self.spec_a().len() == self.spec_t().len()
        &&& self.spec_g().len() == self.spec_t().len()
    }

    /// Every count is below `bound`.
    pub open spec fn counts_below(&self, bound: int) -> bool {
        &&& forall|i: int| 0 <= i < self.spec_t().len() ==> #[trigger] self.spec_t()[i] < bound
        &&& forall|i: int| 0 <= i < self.spec_c().len() ==> #[trigger] self.spec_c()[i] < bound
        &&& forall|i: int| 0 <= i < self.spec_a().len() ==> #[trigger] self.spec_a()[i] < bound
        &&& forall|i: int| 0 <= i < self.spec_g().len() ==> #[trigger] self.spec_g()[i] < bound
    }

    /// No reads seen.
    pub fn new() -> (r: PerBaseSeqContent)
        ensures
            r.wf(),
            r.spec_t().len() == 0,
    {
        PerBaseSeqContent {
            g_counts: Vec::new(),
            c_counts: Vec::new(),
            a_counts: Vec::new(),
            t_counts: Vec::new(),
            percentages: Vec::new(),
            x_category: Vec::new(),
        }
    }

    /// What one call of `process_sequence` does, from `o` to `n`.
    pub open spec fn processed(o: Self, n: Self, record: SeqRecord) -> bool {
        &&& (n.spec_t() == tallied(o.spec_t(), record.seq@, 84, true))
        &&& (n.spec_c() == tallied(o.spec_c(), record.seq@, 67, true))
        &&& (n.spec_a() == tallied(o.spec_a(), record.seq@, 65, true))
        &&& (n.spec_g() == tallied(o.spec_g(), record.seq@, 71, true))
    }

    /// Counts the upper-case bases T, C, G and A of one read by position;
    /// other characters are not counted.
    pub fn process_sequence(&mut self, record: &SeqRecord)
        requires
            old(self).wf(),
            old(self).counts_below(usize::MAX as int),
        ensures
            final(self).wf(),
            Self::processed(*old(self), *final(self), *record),
    {
        tally_positions(&mut self.t_counts, &record.seq, 84, true);
        tally_positions(&mut self.c_counts, &record.seq, 67, true);
        tally_positions(&mut self.a_counts, &record.seq, 65, true);
        tally_positions(&mut self.g_counts, &record.seq, 71, true);
    }

    /// Fills the report: per group of positions, the fractions of T, C, A
    /// and G among those four bases (zero where there are none).
    pub fn get_percentages(&mut self)
        requires
            old(self).wf(),
            old(self).spec_t().len() <= usize::MAX / 8,
        ensures
            final(self).wf(),
            final(self).spec_t() == old(self).spec_t(),
            final(self).spec_c() == old(self).spec_c(),
            final(self).spec_a() == old(self).spec_a(),
            final(self).spec_g() == old(self).spec_g(),
            exists|groups: Seq<BaseGroup>|
                BaseGroup::are_base_groups(groups, old(self).spec_t().len() as int)
                    && #[trigger] final(self).report_is(groups),
    {
        let groups = BaseGroup::make_base_groups(self.t_counts.len());
        proof {
            BaseGroup::lemma_groups_in_range(groups@, self.spec_t().len() as int);
        }
        let mut percentages: Vec<Vec<Ratio>> = Vec::new();
        let mut labels: Vec<String> = Vec::new();
        let mut i: usize = 0;
        while i < groups.len()
            invariant
                self.wf(),
                self.spec_t().len() <= usize::MAX / 8,
                forall|k: int|
                    0 <= k < groups@.len() ==> 1 <= (#[trigger] groups@[k]).lower_count
                        <= groups@[k].upper_count <= self.spec_t().len(),
                i <= groups@.len(),
                percentages@.len() == i,
                labels@.len() == i,
                forall|k: int| 0 <= k < i ==> (#[trigger] labels@[k])@ == groups@[k].name@,
                forall|k: int|
                    0 <= k < i ==> (#[trigger] percentages@[k])@ == content_fractions(
                        self.spec_t(),
                        self.spec_c(),
                        self.spec_a(),
                        self.spec_g(),
                        groups@[k].lower_count as int,
                        groups@[k].upper_count as int,
                    ),
            decreases groups@.len() - i,
        {
            let lower = groups[i].lower_count;
            let upper = groups[i].upper_count;
            let t = sum_group(&self.t_counts, lower, upper);
            let c = sum_group(&self.c_counts, lower, upper);
            let a = sum_group(&self.a_counts, lower, upper);
            let g = sum_group(&self.g_counts, lower, upper);
            let total = t + c + a + g;
            let mut row: Vec<Ratio> = Vec::new();
            row.push(Ratio::of(t, total));
            row.push(Ratio::of(c, total));
            row.push(Ratio::of(a, total));
            row.push(Ratio::of(g, total));
            assert(row@ =~= content_fractions(
                self.spec_t(),
                self.spec_c(),
                self.spec_a(),
                self.spec_g(),
                lower as int,
                upper as int,
            ));
            percentages.push(row);
            labels.push(groups[i].name.clone());
            i = i + 1;
        }
        self.percentages = percentages;
        self.x_category = labels;
        assert(self.spec_labels() =~= groups@.map_values(|g: BaseGroup| g.name@));
        assert(self.report_is(groups@));
    }

    /// The report holds, per group of `groups`, the fractions of T, C, A, G.
    pub open spec fn report_is(&self, groups: Seq<BaseGroup>) -> bool {
        &&& self.spec_labels() == groups.map_values(|g: BaseGroup| g.name@)
        &&& self.spec_percentages().len() == groups.len()
        &&& forall|k: int|
            0 <= k < groups.len() ==> #[trigger] self.spec_percentages()[k] == content_fractions(
                self.spec_t(),
                self.spec_c(),
                self.spec_a(),
                self.spec_g(),
                groups[k].lower_count as int,
                groups[k].upper_count as int,
            )
    }
}

/// Per-position counts of `N` and of other characters, and per group of
/// positions the fraction of `N`.
#[derive(Clone, Debug)]
pub struct PerBaseNContent {
    n_counts: Vec<usize>,
    not_n_counts: Vec<usize>,
    percentages: Vec<Ratio>,
    x_categories: Vec<String>,
}

impl PerBaseNContent {
    pub closed spec fn spec_n(&self) -> Seq<usize> {
        self.n_counts@
    }

    pub closed spec fn spec_not_n(&self) -> Seq<usize> {
        self.not_n_counts@
    }

    pub closed spec fn spec_percentages(&self) -> Seq<Ratio> {
        self.percentages@
    }

    pub closed spec fn spec_labels(&self) -> Seq<Seq<char>> {
        self.x_categories@.map_values(|s: String| s@)
    }

    /// Per group, the fraction of `N`.
    pub fn percentages(&self) -> (r: &Vec<Ratio>)
        ensures
            r@ == self.spec_percentages(),
    {
        &self.percentages
    }

    /// The group labels.
    pub fn x_categories(&self) -> (r: &Vec<String>)
        ensures
            r@.map_values(|s: String| s@) == self.spec_labels(),
    {
        &self.x_categories
    }

    /// Both count vectors are equally long.
    pub open spec fn wf(&self) -> bool {
        self.spec_not_n().len() == self.spec_n().len()
    }

    /// Every count is below `bound`.
    pub open spec fn counts_below(&self, bound: int) -> bool {
        &&& forall|i: int| 0 <= i < self.spec_n().len() ==> #[trigger] self.spec_n()[i] < bound
        &&& forall|i: int|
            0 <= i < self.spec_not_n().len() ==> #[trigger] self.spec_not_n()[i] < bound
    }

    /// No reads seen.
    pub fn new() -> (r: PerBaseNContent)
        ensures
            r.wf(),
            r.spec_n().len() == 0,
    {
        PerBaseNContent {
            n_counts: Vec::new(),
            not_n_counts: Vec::new(),
            percentages: Vec::new(),
            x_categories: Vec::new(),
        }
    }

    /// What one call of `process_sequence` does, from `o` to `n`.
    pub open spec fn processed(o: Self, n: Self, record: SeqRecord) -> bool {
        &&& (n.spec_n() == tallied(o.spec_n(), record.seq@, 78, true))
        &&& (n.spec_not_n() == tallied(o.spec_not_n(), record.seq@, 78, false))
    }

    /// Counts, by position, whether each base of one read is `N`.
    pub fn process_sequence(&mut self, record: &SeqRecord)
        requires
            old(self).wf(),
            old(self).counts_below(usize::MAX as int),
        ensures
            final(self).wf(),
            Self::processed(*old(self), *final(self), *record),
    {
        tally_positions(&mut self.n_counts, &record.seq, 78, true);
        tally_positions(&mut self.not_n_counts, &record.seq, 78, false);
    }

    /// Fills the report: per group of positions, the fraction of `N` among
    /// all characters seen there (zero where there are none).
    pub fn get_percentages(&mut self)
        requires
            old(self).wf(),
            old(self).spec_n().len() <= usize::MAX / 8,
        ensures
            final(self).wf(),
            final(self).spec_n() == old(self).spec_n(),
            final(self).spec_not_n() == old(self).spec_not_n(),
            exists|groups: Seq<BaseGroup>|
                BaseGroup::are_base_groups(groups, old(self).spec_n().len() as int)
                    && #[trigger] final(self).report_is(groups),
    {
        let groups = BaseGroup::make_base_groups(self.n_counts.len());
        proof {
            BaseGroup::lemma_groups_in_range(groups@, self.spec_n().len() as int);
        }
        let mut percentages: Vec<Ratio> = Vec::new();
        let mut labels: Vec<String> = Vec::new();
        let mut i: usize = 0;
        while i < groups.len()
            invariant
                self.wf(),
                self.spec_n().len() <= usize::MAX / 8,
                forall|k: int|
                    0 <= k < groups@.len() ==> 1 <= (#[trigger] groups@[k]).lower_count
                        <= groups@[k].upper_count <= self.spec_n().len(),
                i <= groups@.len(),
                percentages@.len() == i,
                labels@.len() == i,
                forall|k: int| 0 <= k < i ==> (#[trigger] labels@[k])@ == groups@[k].name@,
                forall|k: int|
                    0 <= k < i ==> #[trigger] percentages@[k] == n_fraction(
                        self.spec_n(),
                        self.spec_not_n(),
                        groups@[k].lower_count as int,
                        groups@[k].upper_count as int,
                    ),
            decreases groups@.len() - i,
        {
            let lower = groups[i].lower_count;
            let upper = groups[i].upper_count;
            let n = sum_group(&self.n_counts, lower, upper);
            let other = sum_group(&self.not_n_counts, lower, upper);
            percentages.push(Ratio::of(n, n + other));
            labels.push(groups[i].name.clone());
            i = i + 1;
        }
        self.percentages = percentages;
        self.x_categories = labels;
        assert(self.spec_labels() =~= groups@.map_values(|g: BaseGroup| g.name@));
        assert(self.report_is(groups@));
    }

    /// The report holds, per group of `groups`, the fraction of `N`.
    pub open spec fn report_is(&self, groups: Seq<BaseGroup>) -> bool {
        &&& self.spec_labels() == groups.map_values(|g: BaseGroup| g.name@)
        &&& self.spec_percentages().len() == groups.len()
        &&& forall|k: int|
            0 <= k < groups.len() ==> #[trigger] self.spec_percentages()[k] == n_fraction(
                self.spec_n(),
                self.spec_not_n(),
                groups[k].lower_count as int,
                groups[k].upper_count as int,
            )
    }
}

/// Fraction of `N` over a group of positions.
pub open spec fn n_fraction(n: Seq<usize>, not_n: Seq<usize>, lower: int, upper: int) -> Ratio {
    let sn = group_sum(n, lower, upper);
    ratio_of(sn, sn + group_sum(not_n, lower, upper))
}

} // verus!
