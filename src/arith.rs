use vstd::prelude::*;

verus! {

/// Sum of `s[lo..hi]`.
pub open spec fn sum_range(s: Seq<usize>, lo: int, hi: int) -> int
    decreases hi - lo,
{
    if hi <= lo {
        0
    } else {
        sum_range(s, lo, hi - 1) + s[hi - 1]
    }
}

/// Sum of every element of `s`.
pub open spec fn seq_sum(s: Seq<usize>) -> int {
    sum_range(s, 0, s.len() as int)
}

pub proof fn lemma_sum_range_nonneg(s: Seq<usize>, lo: int, hi: int)
    ensures
        sum_range(s, lo, hi) >= 0,
    decreases hi - lo,
{
    if hi > lo {
        lemma_sum_range_nonneg(s, lo, hi - 1);
    }
}

/// Extending the upper end of a range never lowers its sum.
pub proof fn lemma_sum_range_mono(s: Seq<usize>, lo: int, mid: int, hi: int)
    requires
        lo <= mid <= hi,
    ensures
        sum_range(s, lo, mid) <= sum_range(s, lo, hi),
    decreases hi - mid,
{
    if hi > mid {
        lemma_sum_range_mono(s, lo, mid, hi - 1);
    }
}

/// Splitting a range splits its sum.
pub proof fn lemma_sum_range_split(s: Seq<usize>, lo: int, mid: int, hi: int)
    requires
        lo <= mid <= hi,
    ensures
        sum_range(s, lo, hi) == sum_range(s, lo, mid) + sum_range(s, mid, hi),
    decreases hi - mid,
{
    if hi > mid {
        lemma_sum_range_split(s, lo, mid, hi - 1);
    }
}

/// One element never exceeds the sum of a range holding it.
pub proof fn lemma_elem_le_sum(s: Seq<usize>, lo: int, k: int, hi: int)
    requires
        lo <= k < hi,
    ensures
        s[k] <= sum_range(s, lo, hi),
    decreases hi - lo,
{
    if k < hi - 1 {
        lemma_elem_le_sum(s, lo, k, hi - 1);
    } else {
        lemma_sum_range_nonneg(s, lo, hi - 1);
    }
}

/// Changing one element changes the sum by the same amount.
pub proof fn lemma_sum_range_update(s: Seq<usize>, lo: int, hi: int, k: int, v: usize)
    requires
        0 <= k < s.len(),
        0 <= lo,
        hi <= s.len(),
    ensures
        sum_range(s.update(k, v), lo, hi) == sum_range(s, lo, hi) + (if lo <= k < hi {
            v - s[k]
        } else {
            0
        }),
    decreases hi - lo,
{
    if hi > lo {
        lemma_sum_range_update(s, lo, hi - 1, k, v);
        assert(s.update(k, v)[hi - 1] == if hi - 1 == k {
            v
        } else {
            s[hi - 1]
        });
    }
}

/// A range whose elements are at most `bound` sums to at most its length
/// times `bound`.
pub proof fn lemma_sum_range_le(s: Seq<usize>, lo: int, hi: int, bound: int)
    requires
        0 <= lo <= hi <= s.len(),
        forall|i: int| lo <= i < hi ==> s[i] <= bound,
    ensures
        0 <= sum_range(s, lo, hi) <= (hi - lo) * bound,
    decreases hi - lo,
{
    if hi > lo {
        lemma_sum_range_le(s, lo, hi - 1, bound);
        assert(s[hi - 1] <= bound);
        assert(sum_range(s, lo, hi) == sum_range(s, lo, hi - 1) + s[hi - 1]);
        assert((hi - 1 - lo) * bound + bound == (hi - lo) * bound) by (nonlinear_arith);
        assert(0 <= (hi - lo) * bound) by (nonlinear_arith)
            requires
                hi > lo,
                bound >= 0,
        ;
    } else {
        assert((hi - lo) * bound == 0) by (nonlinear_arith)
            requires
                hi == lo,
        ;
    }
}

/// The sum of a pointwise sum is the sum of the sums.
pub proof fn lemma_sum_range_add(a: Seq<usize>, b: Seq<usize>, c: Seq<usize>, lo: int, hi: int)
    requires
        0 <= lo,
        hi <= a.len(),
        a.len() == b.len(),
        a.len() == c.len(),
        forall|i: int| lo <= i < hi ==> c[i] == a[i] + b[i],
    ensures
        sum_range(c, lo, hi) == sum_range(a, lo, hi) + sum_range(b, lo, hi),
    decreases hi - lo,
{
    if hi > lo {
        lemma_sum_range_add(a, b, c, lo, hi - 1);
    }
}

/// Sums agree on ranges where the sequences agree.
pub proof fn lemma_sum_range_ext(a: Seq<usize>, b: Seq<usize>, lo: int, hi: int)
    requires
        forall|i: int| lo <= i < hi ==> a[i] == b[i],
    ensures
        sum_range(a, lo, hi) == sum_range(b, lo, hi),
    decreases hi - lo,
{
    if hi > lo {
        lemma_sum_range_ext(a, b, lo, hi - 1);
    }
}

/// `num / den` as a ratio, or `0 / 1` when `den` is zero.
pub open spec fn ratio_of(num: int, den: int) -> Ratio {
    if den == 0 {
        Ratio { num: 0, den: 1 }
    } else {
        Ratio { num: num as u128, den: den as u128 }
    }
}

/// Number of positions below `n` at which `s` holds `b`.
pub open spec fn count_byte(s: Seq<u8>, b: u8, n: int) -> int
    decreases n,
{
    if n <= 0 {
        0
    } else {
        count_byte(s, b, n - 1) + if s[n - 1] == b {
            1int
        } else {
            0int
        }
    }
}

/// An exact fraction `num / den`, used where a report holds a ratio.
#[derive(Clone, Copy, Debug, PartialEq, Eq, Structural)]
pub struct Ratio {
    pub num: u128,
    pub den: u128,
}

impl Ratio {
    /// The ratio `num / den`.
    pub fn new(num: u128, den: u128) -> (r: Ratio)
        ensures
            r.num == num,
            r.den == den,
    {
        Ratio { num, den }
    }

    /// `num / den`, or `0 / 1` when `den` is zero.
    pub fn of(num: u128, den: u128) -> (r: Ratio)
        ensures
            r == ratio_of(num as int, den as int),
    {
        if den == 0 {
            Ratio { num: 0, den: 1 }
        } else {
            Ratio { num, den }
        }
    }

    /// The zero ratio `0 / 1`, in specifications.
    pub open spec fn zero_spec() -> Ratio {
        Ratio { num: 0, den: 1 }
    }

    /// The zero ratio `0 / 1`.
    pub fn zero() -> (r: Ratio)
        ensures
            r.num == 0,
            r.den == 1,
    {
        Ratio { num: 0, den: 1 }
    }
}

/// A copy of `v`.
pub fn copy_counts(v: &Vec<usize>) -> (r: Vec<usize>)
    ensures
        r@ == v@,
{
    let mut r: Vec<usize> = Vec::new();
    let mut i: usize = 0;
    while i < v.len()
        invariant
            i <= v@.len(),
            r@ == v@.subrange(0, i as int),
        decreases v@.len() - i,
    {
        r.push(v[i]);
        i = i + 1;
        assert(r@ =~= v@.subrange(0, i as int));
    }
    assert(r@ =~= v@);
    r
}

} // verus!
