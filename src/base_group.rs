use vstd::prelude::*;
use crate::text::{decimal, format_number, format_number_range};

verus! {

/// Label of the range `lower..=upper`: one number, or two joined by a hyphen.
pub open spec fn group_label(lower: nat, upper: nat) -> Seq<char> {
    if lower == upper {
        decimal(lower)
    } else {
        decimal(lower) + seq!['-'] + decimal(upper)
    }
}

/// `10^k`.
pub open spec fn pow10(k: nat) -> int
    decreases k,
{
    if k == 0 {
        1
    } else {
        10 * pow10((k - 1) as nat)
    }
}

/// The `j`-th candidate interval: 2, 5, 10, 20, 50, 100, ...
pub open spec fn candidate_interval(j: nat) -> int {
    let base = if j % 3 == 0 {
        2int
    } else if j % 3 == 1 {
        5int
    } else {
        10int
    };
    base * pow10(j / 3)
}

/// Number of groups when positions 1 to 9 stand alone and the rest are cut
/// into runs of `interval`.
pub open spec fn linear_group_count(length: int, interval: int) -> int {
    9 + (length - 9) / interval + if (length - 9) % interval != 0 {
        1int
    } else {
        0int
    }
}

/// Lower bound of the `k`-th group of the linear scheme with `interval`.
pub open spec fn linear_lower(k: int, interval: int) -> int {
    if k < 9 {
        k + 1
    } else if interval > 10 {
        if k == 9 {
            10
        } else {
            (k - 9) * interval
        }
    } else {
        10 + (k - 9) * interval
    }
}

/// Upper bound of the `k`-th group of the linear scheme, cut at `max_length`.
pub open spec fn linear_upper(k: int, interval: int, max_length: int) -> int {
    let u = linear_lower(k + 1, interval) - 1;
    if u > max_length {
        max_length
    } else {
        u
    }
}

/// Interval of the exponential scheme once the groups reach `start`.
pub open spec fn exp_next_interval(start: int, interval: int, max_length: int) -> int {
    if start == 10 && max_length > 75 {
        5
    } else if start == 50 && max_length > 200 {
        10
    } else if start == 100 && max_length > 300 {
        50
    } else if start == 500 && max_length > 1000 {
        100
    } else if start == 1000 && max_length > 2000 {
        500
    } else {
        interval
    }
}

/// Bounds of the exponential scheme's groups from `start` on, with the
/// current `interval`.
pub open spec fn exp_groups(start: int, interval: int, max_length: int) -> Seq<(int, int)>
    decreases (if start > max_length {
        0
    } else {
        max_length + 1 - start
    }),
{
    if start < 1 || interval < 1 || start > max_length {
        Seq::empty()
    } else {
        let e = start + interval - 1;
        let end = if e > max_length {
            max_length
        } else {
            e
        };
        let next = start + interval;
        seq![(start, end)] + exp_groups(next, exp_next_interval(next, interval, max_length), max_length)
    }
}

/// `interval` is the first candidate interval that gives fewer than 75
/// groups for reads of `length`.
pub open spec fn is_linear_interval(length: int, interval: int) -> bool {
    exists|j: nat|
        {
            &&& interval == candidate_interval(j)
            &&& linear_group_count(length, interval) < 75
            &&& forall|i: nat| i < j ==> linear_group_count(length, candidate_interval(i)) >= 75
        }
}

/// `groups` are exactly the groups of the linear scheme with `interval`
/// that start at or before `max_length`.
pub open spec fn linear_groups_are(groups: Seq<BaseGroup>, interval: int, max_length: int) -> bool {
    &&& groups.len() > 0
    &&& linear_lower(groups.len() - 1, interval) <= max_length
    &&& linear_lower(groups.len() as int, interval) > max_length
    &&& forall|k: int|
        0 <= k < groups.len() ==> group_is(
            #[trigger] groups[k],
            linear_lower(k, interval),
            linear_upper(k, interval, max_length),
        )
}

proof fn lemma_linear_lower_step(n: int, iv: int)
    requires
        n >= 0,
        iv >= 2,
    ensures
        linear_lower(n + 1, iv) == if n < 8 {
            n + 2
        } else if n == 8 {
            10
        } else if iv > 10 && n == 9 {
            iv
        } else {
            linear_lower(n, iv) + iv
        },
        n < 9 ==> linear_lower(n, iv) < 10,
        n == 9 ==> linear_lower(n, iv) == 10,
        n >= 10 ==> linear_lower(n, iv) > 10,
        n >= 10 && iv > 10 ==> linear_lower(n, iv) >= iv,
        n < 9 ==> linear_lower(n, iv) == n + 1,
{
    if n >= 10 && iv > 10 {
        assert((n + 1 - 9) * iv == (n - 9) * iv + iv) by (nonlinear_arith);
        assert((n - 9) * iv >= iv) by (nonlinear_arith)
            requires
                n >= 10,
                iv > 10,
        ;
    }
    if n >= 9 && iv <= 10 {
        assert((n + 1 - 9) * iv == (n - 9) * iv + iv) by (nonlinear_arith);
        assert((n - 9) * iv >= 0) by (nonlinear_arith)
            requires
                n >= 9,
                iv > 0,
        ;
        if n >= 10 {
            assert((n - 9) * iv >= iv) by (nonlinear_arith)
                requires
                    n >= 10,
                    iv > 0,
            ;
        }
    }
}

proof fn lemma_count_fails(length: int, interval: int)
    requires
        length >= 9,
        interval > 0,
        linear_group_count(length, interval) >= 75,
    ensures
        interval < length - 9,
{
    if interval >= length - 9 {
        assert((length - 9) / interval <= 1) by (nonlinear_arith)
            requires
                interval >= length - 9,
                interval > 0,
                length >= 9,
        ;
    }
}

proof fn lemma_linear_lower_mono(a: int, b: int, iv: int)
    requires
        0 <= a <= b,
        iv >= 2,
    ensures
        linear_lower(a, iv) <= linear_lower(b, iv),
        a < b ==> linear_lower(a, iv) < linear_lower(b, iv),
    decreases b - a,
{
    if a < b {
        lemma_linear_lower_mono(a, b - 1, iv);
        lemma_linear_lower_step(b - 1, iv);
    }
}

/// A labelled, 1-based, inclusive range of read positions.
#[derive(Clone, Debug)]
pub struct BaseGroup {
    pub name: String,
    pub lower_count: usize,
    pub upper_count: usize,
}

/// The group has the given bounds and the label that they call for.
pub open spec fn group_is(g: BaseGroup, lower: int, upper: int) -> bool {
    &&& g.lower_count == lower
    &&& g.upper_count == upper
    &&& g.name@ == group_label(lower as nat, upper as nat)
}

impl BaseGroup {
    /// `groups` are what `make_base_groups(max_length)` gives.
    pub open spec fn are_base_groups(groups: Seq<BaseGroup>, max_length: int) -> bool {
        &&& max_length <= 75 ==> groups.len() == max_length && forall|k: int|
            0 <= k < max_length ==> group_is(#[trigger] groups[k], k + 1, k + 1)
        &&& max_length > 75 ==> exists|interval: int|
            {
                &&& interval >= 2
                &&& linear_group_count(max_length, interval) < 75
                &&& is_linear_interval(max_length, interval)
                &&& linear_groups_are(groups, interval, max_length)
            }
    }

    /// Every group lies within `1..=max_length` and is not empty.
    pub proof fn lemma_groups_in_range(groups: Seq<BaseGroup>, max_length: int)
        requires
            BaseGroup::are_base_groups(groups, max_length),
            max_length >= 0,
        ensures
            forall|k: int|
                0 <= k < groups.len() ==> 1 <= (#[trigger] groups[k]).lower_count
                    <= groups[k].upper_count <= max_length,
    {
        if max_length > 75 {
            let interval = choose|interval: int|
                {
                    &&& interval >= 2
                    &&& linear_group_count(max_length, interval) < 75
                    &&& is_linear_interval(max_length, interval)
                    &&& linear_groups_are(groups, interval, max_length)
                };
            assert forall|k: int| 0 <= k < groups.len() implies 1 <= (
            #[trigger] groups[k]).lower_count <= groups[k].upper_count <= max_length by {
                lemma_linear_lower_mono(0, k, interval);
                lemma_linear_lower_mono(k, groups.len() - 1, interval);
                lemma_linear_lower_mono(k, k + 1, interval);
            }
        }
    }

    /// The group `lower_count..=upper_count`, labelled `"n"` when both bounds
    /// are equal and `"lower-upper"` otherwise.
    pub fn new(lower_count: usize, upper_count: usize) -> (r: BaseGroup)
        ensures
            group_is(r, lower_count as int, upper_count as int),
    {
        let name = if lower_count == upper_count {
            format_number(lower_count)
        } else {
            format_number_range(lower_count, upper_count)
        };
        BaseGroup { name, lower_count, upper_count }
    }

    /// The group's label.
    pub fn name(&self) -> (r: String)
        ensures
            r@ == self.name@,
    {
        self.name.clone()
    }

    /// The first position of the group.
    pub fn lower_count(&self) -> (r: usize)
        ensures
            r == self.lower_count,
    {
        self.lower_count
    }

    /// The last position of the group.
    pub fn upper_count(&self) -> (r: usize)
        ensures
            r == self.upper_count,
    {
        self.upper_count
    }

    /// One group per position from 1 to `max_length`.
    pub fn make_ungrouped_groups(max_length: usize) -> (r: Vec<BaseGroup>)
        ensures
            r@.len() == max_length,
            forall|k: int| 0 <= k < max_length ==> group_is(#[trigger] r@[k], k + 1, k + 1),
    {
        let mut groups: Vec<BaseGroup> = Vec::new();
        let mut k: usize = 0;
        while k < max_length
            invariant
                k <= max_length,
                groups@.len() == k,
                forall|j: int| 0 <= j < groups@.len() ==> group_is(#[trigger] groups@[j], j + 1, j + 1),
            decreases max_length - k,
        {
            groups.push(BaseGroup::new(k + 1, k + 1));
            k = k + 1;
        }
        groups
    }

    /// Groups for reports on reads up to `max_length` long: one per position
    /// up to 75 positions, the linear scheme above that.
    pub fn make_base_groups(max_length: usize) -> (r: Vec<BaseGroup>)
        requires
            max_length <= usize::MAX / 8,
        ensures
            BaseGroup::are_base_groups(r@, max_length as int),
            max_length <= 75 ==> r@.len() == max_length && forall|k: int|
                0 <= k < max_length ==> group_is(#[trigger] r@[k], k + 1, k + 1),
            max_length > 75 ==> exists|interval: int|
                {
                    &&& interval >= 2
                    &&& linear_group_count(max_length as int, interval) < 75
                    &&& linear_groups_are(r@, interval, max_length as int)
                },
    {
        BaseGroup::make_linear_base_groups(max_length)
    }

    /// Groups of the exponential scheme: positions 1 to 9 alone, then wider
    /// runs (5, 10, 50, 100, 500) as the reads grow longer.
    pub fn make_exponential_base_groups(max_length: usize) -> (r: Vec<BaseGroup>)
        requires
            max_length <= usize::MAX / 2,
        ensures
            r@.len() == exp_groups(1, 1, max_length as int).len(),
            forall|k: int|
                0 <= k < r@.len() ==> group_is(
                    #[trigger] r@[k],
                    exp_groups(1, 1, max_length as int)[k].0,
                    exp_groups(1, 1, max_length as int)[k].1,
                ),
    {
        let mut starting_base: usize = 1;
        let mut interval: usize = 1;
        let mut groups: Vec<BaseGroup> = Vec::new();
        let ghost all = exp_groups(1, 1, max_length as int);
        while starting_base <= max_length
            invariant
                1 <= starting_base,
                1 <= interval <= 500,
                starting_base <= max_length + 500,
                max_length <= usize::MAX / 2,
                all == exp_groups(1, 1, max_length as int),
                all == groups@.map_values(|g: BaseGroup| (g.lower_count as int, g.upper_count as int))
                    + exp_groups(starting_base as int, interval as int, max_length as int),
                forall|k: int|
                    0 <= k < groups@.len() ==> (#[trigger] groups@[k]).name@ == group_label(
                        groups@[k].lower_count as nat,
                        groups@[k].upper_count as nat,
                    ),
            decreases max_length + 500 - starting_base,
        {
            let mut end_base = starting_base + (interval - 1);
            if end_base > max_length {
                end_base = max_length;
            }
            let ghost before = groups@;
            groups.push(BaseGroup::new(starting_base, end_base));
            let ghost rest = exp_groups(starting_base as int, interval as int, max_length as int);
            starting_base = starting_base + interval;
            if starting_base == 10 && max_length > 75 {
                interval = 5;
            }
            if starting_base == 50 && max_length > 200 {
                interval = 10;
            }
            if starting_base == 100 && max_length > 300 {
                interval = 50;
            }
            if starting_base == 500 && max_length > 1000 {
                interval = 100;
            }
            if starting_base == 1000 && max_length > 2000 {
                interval = 500;
            }
            proof {
                assert(groups@.map_values(|g: BaseGroup| (g.lower_count as int, g.upper_count as int))
                    =~= before.map_values(|g: BaseGroup| (g.lower_count as int, g.upper_count as int))
                    + seq![(rest[0])]);
                assert(rest =~= seq![(rest[0])] + exp_groups(
                    starting_base as int,
                    interval as int,
                    max_length as int,
                ));
            }
        }
        assert(groups@.map_values(|g: BaseGroup| (g.lower_count as int, g.upper_count as int))
            =~= all);
        proof {
            assert forall|k: int| 0 <= k < groups@.len() implies group_is(
                #[trigger] groups@[k],
                all[k].0,
                all[k].1,
            ) by {
                assert(all[k] == groups@.map_values(
                    |g: BaseGroup| (g.lower_count as int, g.upper_count as int),
                )[k]);
            }
        }
        groups
    }

    /// The smallest candidate interval (2, 5, 10, 20, 50, ...) that cuts
    /// positions 10 to `length` into few enough runs that, with positions 1
    /// to 9 alone, there are fewer than 75 groups.
    pub fn get_linear_interval(length: usize) -> (r: usize)
        requires
            9 <= length <= usize::MAX / 8,
        ensures
            is_linear_interval(length as int, r as int),
            2 <= r <= 3 * length,
    {
        let mut multiplier: usize = 1;
        let ghost mut k: nat = 0;
        loop
            invariant
                9 <= length <= usize::MAX / 8,
                multiplier == pow10(k),
                1 <= multiplier <= length,
                forall|i: nat|
                    i < 3 * k ==> linear_group_count(length as int, candidate_interval(i)) >= 75,
            decreases length - multiplier,
        {
            let mut b: usize = 0;
            while b < 3
                invariant
                    9 <= length <= usize::MAX / 8,
                    multiplier == pow10(k),
                    1 <= multiplier <= length,
                    b <= 3,
                    b >= 1 ==> 2 * multiplier < length,
                    b >= 2 ==> 5 * multiplier < length,
                    b >= 3 ==> 10 * multiplier < length,
                    forall|i: nat|
                        i < 3 * k + b ==> linear_group_count(length as int, candidate_interval(i))
                            >= 75,
                decreases 3 - b,
            {
                let base: usize = if b == 0 {
                    2
                } else if b == 1 {
                    5
                } else {
                    10
                };
                let interval = base * multiplier;
                let mut group_count = 9 + (length - 9) / interval;
                if (length - 9) % interval != 0 {
                    group_count = group_count + 1;
                }
                assert(candidate_interval(3 * k + b as nat) == interval) by {
                    assert((3 * k + b as nat) / 3 == k) by (nonlinear_arith)
                        requires
                            b < 3,
                    ;
                    assert((3 * k + b as nat) % 3 == b) by (nonlinear_arith)
                        requires
                            b < 3,
                    ;
                }
                if group_count < 75 {
                    assert(is_linear_interval(length as int, interval as int)) by {
                        let j = 3 * k + b as nat;
                        assert(forall|i: nat| i < j ==> linear_group_count(length as int, candidate_interval(i)) >= 75);
                    }
                    return interval;
                }
                proof {
                    lemma_count_fails(length as int, interval as int);
                }
                b = b + 1;
            }
            multiplier = multiplier * 10;
            proof {
                k = k + 1;
            }
        }
    }

    /// Groups for reads up to `max_length` long: one per position up to 75
    /// positions; above that positions 1 to 9 alone and the rest in runs of
    /// the interval that `get_linear_interval` picks, aligned at multiples
    /// of the interval once it exceeds 10.
    pub fn make_linear_base_groups(max_length: usize) -> (r: Vec<BaseGroup>)
        requires
            max_length <= usize::MAX / 8,
        ensures
            max_length <= 75 ==> r@.len() == max_length && forall|k: int|
                0 <= k < max_length ==> group_is(#[trigger] r@[k], k + 1, k + 1),
            max_length > 75 ==> exists|interval: int|
                {
                    &&& interval >= 2
                    &&& linear_group_count(max_length as int, interval) < 75
                    &&& is_linear_interval(max_length as int, interval)
                    &&& linear_groups_are(r@, interval, max_length as int)
                },
    {
        if max_length <= 75 {
            return BaseGroup::make_ungrouped_groups(max_length);
        }
        let interval = BaseGroup::get_linear_interval(max_length);
        let mut starting_base: usize = 1;
        let mut groups: Vec<BaseGroup> = Vec::new();
        while starting_base <= max_length
            invariant
                75 < max_length <= usize::MAX / 8,
                2 <= interval <= 3 * max_length,
                is_linear_interval(max_length as int, interval as int),
                starting_base == linear_lower(groups@.len() as int, interval as int),
                groups@.len() > 0 ==> linear_lower(groups@.len() - 1, interval as int) <= max_length,
                1 <= starting_base <= max_length + interval,
                forall|k: int|
                    0 <= k < groups@.len() ==> group_is(
                        #[trigger] groups@[k],
                        linear_lower(k, interval as int),
                        linear_upper(k, interval as int, max_length as int),
                    ),
            decreases max_length + interval - starting_base,
        {
            let ghost n = groups@.len() as int;
            let mut end_base = starting_base + (interval - 1);
            if starting_base < 10 {
                end_base = starting_base;
            }
            if starting_base == 10 && interval > 10 {
                end_base = interval - 1;
            }
            if end_base > max_length {
                end_base = max_length;
            }
            proof {
                lemma_linear_lower_step(n, interval as int);
            }
            groups.push(BaseGroup::new(starting_base, end_base));
            if starting_base < 10 {
                starting_base = starting_base + 1;
            } else if starting_base == 10 && interval > 10 {
                starting_base = interval;
            } else {
                starting_base = starting_base + interval;
            }
        }
        groups
    }
}

} // verus!
