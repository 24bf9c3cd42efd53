use vstd::prelude::*;
use crate::arith::Ratio;
use crate::base_group::BaseGroup;
use crate::per_base::{add_qualities, mean_sum, qualities_added, total_at};
use crate::arith::ratio_of;
use crate::quality::{lemma_mean_of_bound};
use crate::quality::{QualityCount, QUALITY_BUCKETS};
use crate::record::SeqRecord;

verus! {

/// Most distinct tiles tracked before per-tile tracking is given up.
pub const MAX_TILES: usize = 1000;

/// Reads counted before sampling one in ten.
pub const TILE_SAMPLE_AFTER: usize = 10000;

/// Lowest top of the quality scale in the report.
pub const MIN_HIGH_QUALITY: usize = 35;

/// The fields of `h` between the `:` separators.
pub open spec fn split_colon(h: Seq<u8>) -> Seq<Seq<u8>>
    decreases h.len(),
{
    if h.len() == 0 {
        seq![Seq::<u8>::empty()]
    } else {
        let rest = split_colon(h.drop_last());
        if h.last() == 58 {
            rest.push(Seq::<u8>::empty())
        } else {
            rest.update(rest.len() - 1, rest.last().push(h.last()))
        }
    }
}

proof fn lemma_split_nonempty(h: Seq<u8>)
    ensures
        split_colon(h).len() >= 1,
    decreases h.len(),
{
    if h.len() > 0 {
        lemma_split_nonempty(h.drop_last());
    }
}

/// Value of the base-ten digits `s`.
pub open spec fn digits_value(s: Seq<u8>) -> int
    decreases s.len(),
{
    if s.len() == 0 {
        0
    } else {
        digits_value(s.drop_last()) * 10 + (s.last() - 48)
    }
}

/// The bytes of `s` after a leading `+`, if there is one.
pub open spec fn number_digits(s: Seq<u8>) -> Seq<u8> {
    if s.len() > 0 && s[0] == 43 {
        s.subrange(1, s.len() as int)
    } else {
        s
    }
}

/// Every byte of `d` is a base-ten digit.
pub open spec fn all_digits(d: Seq<u8>) -> bool {
    forall|i: int| 0 <= i < d.len() ==> 48 <= #[trigger] d[i] <= 57
}

/// `s` is one or more base-ten digits, optionally after a `+`.
pub open spec fn is_number(s: Seq<u8>) -> bool {
    number_digits(s).len() > 0 && all_digits(number_digits(s))
}

/// The number that `s` spells, when it is one that fits in `usize`.
pub open spec fn number_of(s: Seq<u8>) -> Option<int> {
    if is_number(s) && digits_value(number_digits(s)) <= usize::MAX {
        Some(digits_value(number_digits(s)))
    } else {
        None
    }
}

/// The fields of a header line.
pub fn split_header(h: &Vec<u8>) -> (r: Vec<Vec<u8>>)
    ensures
        r@.map_values(|v: Vec<u8>| v@) == split_colon(h@),
{
    let mut fields: Vec<Vec<u8>> = Vec::new();
    fields.push(Vec::new());
    let mut i: usize = 0;
    assert(h@.subrange(0, 0) =~= Seq::<u8>::empty());
    assert(fields@.map_values(|v: Vec<u8>| v@) =~= split_colon(h@.subrange(0, 0)));
    while i < h.len()
        invariant
            i <= h@.len(),
            fields@.len() >= 1,
            fields@.map_values(|v: Vec<u8>| v@) == split_colon(h@.subrange(0, i as int)),
        decreases h@.len() - i,
    {
        let b = h[i];
        let ghost prev = fields@.map_values(|v: Vec<u8>| v@);
        assert(h@.subrange(0, i + 1).drop_last() =~= h@.subrange(0, i as int));
        if b == 58 {
            fields.push(Vec::new());
            assert(fields@.map_values(|v: Vec<u8>| v@) =~= prev.push(Seq::<u8>::empty()));
        } else {
            let last = fields.len() - 1;
            let mut f = Vec::new();
            std::mem::swap(&mut f, &mut fields[last]);
            f.push(b);
            fields.set(last, f);
            assert(fields@.map_values(|v: Vec<u8>| v@) =~= prev.update(prev.len() - 1, prev.last().push(b)));
        }
        i = i + 1;
    }
    assert(h@.subrange(0, h@.len() as int) =~= h@);
    fields
}

/// The number a field spells, when it is one.
pub fn parse_number(s: &Vec<u8>) -> (r: Option<usize>)
    ensures
        match r {
            Some(v) => number_of(s@) == Some(v as int),
            None => number_of(s@) is None,
        },
{
    let start: usize = if s.len() > 0 && s[0] == 43 { 1 } else { 0 };
    let ghost d = number_digits(s@);
    if start >= s.len() {
        assert(d.len() == 0);
        return None;
    }
    let mut value: usize = 0;
    let mut i: usize = start;
    while i < s.len()
        invariant
            start <= i <= s@.len(),
            start < s@.len(),
            d == s@.subrange(start as int, s@.len() as int),
            d == number_digits(s@),
            forall|k: int| start <= k < i ==> 48 <= #[trigger] s@[k] <= 57,
            value == digits_value(s@.subrange(start as int, i as int)),
        decreases s@.len() - i,
    {
        let b = s[i];
        if b < 48 || b > 57 {
            assert(d[i - start] == b);
            assert(!all_digits(d));
            return None;
        }
        assert(s@.subrange(start as int, i + 1).drop_last() =~= s@.subrange(start as int, i as int));
        let digit = (b - 48) as usize;
        if value > (usize::MAX - digit) / 10 {
            proof {
                let pre = s@.subrange(start as int, i + 1);
                assert(digits_value(pre) == value * 10 + digit);
                assert(value * 10 + digit > usize::MAX) by (nonlinear_arith)
                    requires
                        value > (usize::MAX - digit) / 10,
                        digit <= 9,
                ;
                if all_digits(d) {
                    lemma_digits_grow(d, i - start + 1);
                    assert(d.subrange(0, i - start + 1) =~= pre);
                }
            }
            return None;
        }
        value = value * 10 + digit;
        i = i + 1;
    }
    assert(s@.subrange(start as int, s@.len() as int) =~= d);
    Some(value)
}

/// A prefix of digits spells no more than the whole.
proof fn lemma_digits_grow(d: Seq<u8>, n: int)
    requires
        0 <= n <= d.len(),
        forall|i: int| 0 <= i < d.len() ==> 48 <= #[trigger] d[i] <= 57,
    ensures
        digits_value(d.subrange(0, n)) <= digits_value(d),
        digits_value(d.subrange(0, n)) >= 0,
    decreases d.len(),
{
    if n < d.len() {
        assert(d.drop_last().subrange(0, n) =~= d.subrange(0, n));
        lemma_digits_grow(d.drop_last(), n);
        lemma_digits_nonneg(d.drop_last());
    } else {
        assert(d.subrange(0, n) =~= d);
        lemma_digits_nonneg(d);
    }
}

proof fn lemma_digits_nonneg(d: Seq<u8>)
    requires
        forall|i: int| 0 <= i < d.len() ==> 48 <= #[trigger] d[i] <= 57,
    ensures
        digits_value(d) >= 0,
    decreases d.len(),
{
    if d.len() > 0 {
        lemma_digits_nonneg(d.drop_last());
    }
}

/// Field index of the tile in a header of `n` fields: the one found
/// before, when there is one and the header has it; otherwise field 2 of
/// a header of at least seven fields, or field 4 of one of at least five.
pub open spec fn tile_position(n: int, sp: Option<usize>) -> Option<int> {
    match sp {
        Some(p) => if (p as int) < n {
            Some(p as int)
        } else {
            None
        },
        None => if n >= 7 {
            Some(2)
        } else if n >= 5 {
            Some(4)
        } else {
            None
        },
    }
}

/// The tile that a header names, when it names one.
pub open spec fn read_tile(head: Seq<u8>, sp: Option<usize>) -> Option<int> {
    match tile_position(split_colon(head).len() as int, sp) {
        Some(p) => number_of(split_colon(head)[p]),
        None => None,
    }
}

/// Whether the `n`-th read with qualities is looked at: all of the first
/// 10000, then one in ten.
pub open spec fn sampled(n: int) -> bool {
    n <= TILE_SAMPLE_AFTER || n % 10 == 0
}

/// The histograms of tile `v`; none for a tile not tracked.
pub open spec fn counts_for(tiles: Seq<usize>, counts: Seq<Seq<QualityCount>>, v: int) -> Seq<QualityCount> {
    if exists|j: int| 0 <= j < tiles.len() && tiles[j] == v {
        counts[choose|j: int| 0 <= j < tiles.len() && tiles[j] == v]
    } else {
        Seq::empty()
    }
}

/// Tiles in increasing order.
pub open spec fn increasing(tiles: Seq<usize>) -> bool {
    forall|i: int, j: int| 0 <= i < j < tiles.len() ==> tiles[i] < tiles[j]
}

proof fn lemma_counts_for_at(tiles: Seq<usize>, counts: Seq<Seq<QualityCount>>, j: int)
    requires
        increasing(tiles),
        0 <= j < tiles.len(),
    ensures
        counts_for(tiles, counts, tiles[j] as int) == counts[j],
{
    let k = choose|k: int| 0 <= k < tiles.len() && tiles[k] == tiles[j];
    if k < j {
        assert(tiles[k] < tiles[j]);
    } else if k > j {
        assert(tiles[j] < tiles[k]);
    }
}

/// Inserting tile `tile` at `k` (unless `found` there) keeps the tiles in
/// increasing order.
proof fn lemma_insert_keeps_order(ot: Seq<usize>, k: int, tile: usize, found: bool)
    requires
        increasing(ot),
        0 <= k <= ot.len(),
        forall|j: int| 0 <= j < k ==> ot[j] < tile,
        found ==> k < ot.len() && ot[k] == tile,
        !found ==> k == ot.len() || ot[k] > tile,
    ensures
        increasing(if found {
            ot
        } else {
            ot.insert(k, tile)
        }),
{
    if !found {
        let mt = ot.insert(k, tile);
        assert forall|i: int, j: int| 0 <= i < j < mt.len() implies mt[i] < mt[j] by {
            if i < k && j > k {
                assert(mt[j] == ot[j - 1]);
                if j - 1 > k {
                    assert(ot[k] < ot[j - 1]);
                }
            } else if i == k && j > k {
                assert(mt[j] == ot[j - 1]);
                if j - 1 > k {
                    assert(ot[k] < ot[j - 1]);
                }
            } else if i > k {
                assert(mt[i] == ot[i - 1]);
                assert(mt[j] == ot[j - 1]);
            }
        }
    }
}

/// After tile `tile`'s histograms gained one read at index `k` of the
/// tiles (inserted there unless `found`), the tiles are the old ones and
/// `tile`, the other tiles' histograms are unchanged, and every count stays
/// within the reads seen.
proof fn lemma_tile_step(
    ot: Seq<usize>,
    oc: Seq<Seq<QualityCount>>,
    ft: Seq<usize>,
    fc: Seq<Seq<QualityCount>>,
    k: int,
    tile: usize,
    found: bool,
    after: Seq<QualityCount>,
    qual: Seq<u8>,
    old_total: int,
    current_length: int,
)
    requires
        increasing(ot),
        ot.len() == oc.len(),
        0 <= k <= ot.len(),
        forall|j: int| 0 <= j < k ==> ot[j] < tile,
        found ==> k < ot.len() && ot[k] == tile && ft == ot && fc == oc.update(k, after),
        !found ==> (k == ot.len() || ot[k] > tile) && ft == ot.insert(k, tile) && fc == oc.insert(
            k,
            Seq::<QualityCount>::empty(),
        ).update(k, after),
        increasing(ft),
        qualities_added(if found { oc[k] } else { Seq::<QualityCount>::empty() }, after, qual),
        qual.len() <= current_length,
        old_total >= 0,
        forall|t: int| 0 <= t < oc.len() ==> (#[trigger] oc[t]).len() <= current_length,
        forall|t: int, i: int|
            0 <= t < oc.len() && 0 <= i < oc[t].len() ==> {
                &&& (#[trigger] oc[t][i]).wf()
                &&& oc[t][i].total() <= old_total
            },
    ensures
        ft.to_set() == ot.to_set().insert(tile),
        qualities_added(counts_for(ot, oc, tile as int), counts_for(ft, fc, tile as int), qual),
        forall|u: int| u != tile ==> #[trigger] counts_for(ft, fc, u) == counts_for(ot, oc, u),
        forall|t: int| 0 <= t < fc.len() ==> (#[trigger] fc[t]).len() <= current_length,
        forall|t: int, i: int|
            0 <= t < fc.len() && 0 <= i < fc[t].len() ==> {
                &&& (#[trigger] fc[t][i]).wf()
                &&& fc[t][i].total() <= old_total + 1
            },
{
    assert(ft[k] == tile);
    lemma_counts_for_at(ft, fc, k);
    if found {
        lemma_counts_for_at(ot, oc, k);
    } else {
        assert(!(exists|j: int| 0 <= j < ot.len() && ot[j] == tile)) by {
            if exists|j: int| 0 <= j < ot.len() && ot[j] == tile {
                let j = choose|j: int| 0 <= j < ot.len() && ot[j] == tile;
                if j > k {
                    assert(ot[k] < ot[j]);
                }
            }
        }
    }
    assert forall|u: int| u != tile implies #[trigger] counts_for(ft, fc, u) == counts_for(ot, oc, u) by {
        if exists|j: int| 0 <= j < ft.len() && ft[j] == u {
            let j = choose|j: int| 0 <= j < ft.len() && ft[j] == u;
            lemma_counts_for_at(ft, fc, j);
            let j2 = if !found && j > k { j - 1 } else { j };
            assert(ot[j2] == u);
            lemma_counts_for_at(ot, oc, j2);
        } else {
            if exists|j: int| 0 <= j < ot.len() && ot[j] == u {
                let j = choose|j: int| 0 <= j < ot.len() && ot[j] == u;
                let j2 = if !found && j >= k { j + 1 } else { j };
                assert(ft[j2] == u);
            }
        }
    }
    assert(ft.to_set() =~= ot.to_set().insert(tile)) by {
        assert forall|x: usize| ft.to_set().contains(x) <==> ot.to_set().insert(tile).contains(x) by {
            if ft.contains(x) && x != tile {
                let j = choose|j: int| 0 <= j < ft.len() && ft[j] == x;
                let j2 = if !found && j > k { j - 1 } else { j };
                assert(ot[j2] == x);
            }
            if ot.contains(x) {
                let j = choose|j: int| 0 <= j < ot.len() && ot[j] == x;
                let j2 = if !found && j >= k { j + 1 } else { j };
                assert(ft[j2] == x);
            }
            if x == tile {
                assert(ft[k] == x);
            }
        }
    }
    let before = if found { oc[k] } else { Seq::<QualityCount>::empty() };
    assert forall|t: int, i: int|
        0 <= t < fc.len() && 0 <= i < fc[t].len() implies {
            &&& (#[trigger] fc[t][i]).wf()
            &&& fc[t][i].total() <= old_total + 1
        } by {
        if t != k {
            let t2 = if !found && t > k { t - 1 } else { t };
            assert(fc[t] == oc[t2]);
        } else {
            assert(fc[t] == after);
            assert(after[i].total() == total_at(before, i) + if i < qual.len() { 1int } else { 0int });
            if i < before.len() {
                assert(before[i].total() <= old_total);
            }
        }
    }
    assert forall|t: int| 0 <= t < fc.len() implies (#[trigger] fc[t]).len() <= current_length by {
        if t != k {
            let t2 = if !found && t > k { t - 1 } else { t };
            assert(fc[t] == oc[t2]);
        }
    }
}

/// Per tile, per-position quality histograms, and per tile and group of
/// positions the mean quality.
#[derive(Clone, Debug)]
pub struct PerTileQualityScore {
    tiles: Vec<usize>,
    per_tile_quality_counts: Vec<Vec<QualityCount>>,
    current_length: usize,
    means: Vec<Vec<Ratio>>,
    x_labels: Vec<String>,
    high: usize,
    total_count: usize,
    split_position: Option<usize>,
    ignore_in_report: bool,
}

impl PerTileQualityScore {
    pub closed spec fn spec_tiles(&self) -> Seq<usize> {
        self.tiles@
    }

    pub closed spec fn spec_counts(&self) -> Seq<Seq<QualityCount>> {
        self.per_tile_quality_counts@.map_values(|v: Vec<QualityCount>| v@)
    }

    pub closed spec fn spec_total(&self) -> int {
        self.total_count as int
    }

    pub closed spec fn spec_ignored(&self) -> bool {
        self.ignore_in_report
    }

    pub closed spec fn spec_split(&self) -> Option<usize> {
        self.split_position
    }

    pub closed spec fn spec_current_length(&self) -> int {
        self.current_length as int
    }

    pub closed spec fn spec_means(&self) -> Seq<Seq<Ratio>> {
        self.means@.map_values(|v: Vec<Ratio>| v@)
    }

    pub closed spec fn spec_high(&self) -> int {
        self.high as int
    }

    /// Tiles in increasing order, one histogram vector each, no longer than
    /// the longest read; histograms well formed, none counting more than
    /// the reads seen; at most 1000 tiles.
    pub open spec fn wf(&self) -> bool {
        &&& self.spec_tiles().len() == self.spec_counts().len()
        &&& increasing(self.spec_tiles())
        &&& self.spec_tiles().len() <= MAX_TILES
        &&& self.spec_current_length() <= 0x1000_0000
        &&& forall|t: int|
            0 <= t < self.spec_counts().len() ==> (#[trigger] self.spec_counts()[t]).len()
                <= self.spec_current_length()
        &&& forall|t: int, i: int|
            0 <= t < self.spec_counts().len() && 0 <= i < self.spec_counts()[t].len() ==> {
                &&& (#[trigger] self.spec_counts()[t][i]).wf()
                &&& self.spec_counts()[t][i].total() <= self.spec_total()
            }
    }

    /// No tiles and no reads.
    pub fn new() -> (r: PerTileQualityScore)
        ensures
            r.wf(),
            r.spec_total() == 0,
            r.spec_tiles().len() == 0,
            !r.spec_ignored(),
            r.spec_split() is None,
    {
        let r = PerTileQualityScore {
            tiles: Vec::new(),
            per_tile_quality_counts: Vec::new(),
            current_length: 0,
            means: Vec::new(),
            x_labels: Vec::new(),
            high: 0,
            total_count: 0,
            split_position: None,
            ignore_in_report: false,
        };
        assert(r.spec_counts().len() == 0);
        r
    }

    /// Whether tracking was given up.
    pub fn ignore_in_report(&self) -> (r: bool)
        ensures
            r == self.spec_ignored(),
    {
        self.ignore_in_report
    }

    /// The tiles tracked, in increasing order.
    pub fn tiles(&self) -> (r: &Vec<usize>)
        ensures
            r@ == self.spec_tiles(),
    {
        &self.tiles
    }

    /// What one call of `process_sequence` does, from `o` to `n`.
    pub open spec fn processed(o: Self, n: Self, record: SeqRecord) -> bool {
        &&& (o.spec_ignored() || record.qual@.len() == 0 ==> n == o)
        &&& (!(o.spec_ignored() || record.qual@.len() == 0) ==> n.spec_total()
                == o.spec_total() + 1)
        &&& (!(o.spec_ignored() || record.qual@.len() == 0) && !sampled(o.spec_total() + 1) ==> {
                &&& n.spec_tiles() == o.spec_tiles()
                &&& n.spec_counts() == o.spec_counts()
                &&& n.spec_ignored() == o.spec_ignored()
            })
        &&& (!(o.spec_ignored() || record.qual@.len() == 0) && sampled(o.spec_total() + 1) ==> {
                let t = read_tile(record.head@, o.spec_split());
                &&& t is None ==> n.spec_ignored() && n.spec_tiles() == o.spec_tiles()
                    && n.spec_counts() == o.spec_counts()
                &&& t is Some && !o.spec_tiles().contains(t->0 as usize) && o.spec_tiles().len()
                    >= MAX_TILES ==> n.spec_ignored() && n.spec_tiles().len() == 0
                &&& t is Some && (o.spec_tiles().contains(t->0 as usize) || o.spec_tiles().len()
                    < MAX_TILES) ==> {
                    &&& n.spec_split() == Some(tile_position(
                        split_colon(record.head@).len() as int,
                        o.spec_split(),
                    )->0 as usize)
                    &&& !n.spec_ignored()
                    &&& n.spec_tiles().to_set() == o.spec_tiles().to_set().insert(t->0 as usize)
                    &&& qualities_added(
                        counts_for(o.spec_tiles(), o.spec_counts(), t->0),
                        counts_for(n.spec_tiles(), n.spec_counts(), t->0),
                        record.qual@,
                    )
                    &&& forall|u: int|
                        u != t->0 ==> #[trigger] counts_for(n.spec_tiles(), n.spec_counts(), u)
                            == counts_for(o.spec_tiles(), o.spec_counts(), u)
                }
            })
    }

    /// Counts one read under its tile. Reads without qualities are skipped,
    /// as is everything once tracking was given up. After 10000 reads only
    /// one in ten is looked at. The tile is the numeric field of the
    /// header that `read_tile` names; a header naming none, or a new tile
    /// when 1000 are tracked already, gives tracking up (the latter
    /// also dropping every tile).
    #[verifier::rlimit(100)]
    pub fn process_sequence(&mut self, record: &SeqRecord)
        requires
            old(self).wf(),
            old(self).spec_total() < usize::MAX,
            record.qual@.len() <= 0x1000_0000,
            forall|i: int| 0 <= i < record.qual@.len() ==> record.qual@[i] < QUALITY_BUCKETS,
        ensures
            final(self).wf(),
            Self::processed(*old(self), *final(self), *record),
    {
        if self.ignore_in_report || record.qual.len() == 0 {
            return;
        }
        self.total_count = self.total_count + 1;
        proof {
            assert forall|t: int, i: int|
                0 <= t < self.spec_counts().len() && 0 <= i < self.spec_counts()[t].len() implies {
                    &&& (#[trigger] self.spec_counts()[t][i]).wf()
                    &&& self.spec_counts()[t][i].total() <= self.spec_total()
                } by {
                assert(old(self).spec_counts()[t][i].total() <= old(self).spec_total());
            }
        }
        if self.total_count > TILE_SAMPLE_AFTER && self.total_count % 10 != 0 {
            return;
        }
        let fields = split_header(&record.head);
        let ghost fs = split_colon(record.head@);
        proof {
            lemma_split_nonempty(record.head@);
        }
        assert(fields@.len() == fs.len());
        let position: Option<usize> = match self.split_position {
            Some(p) => if p < fields.len() {
                Some(p)
            } else {
                None
            },
            None => if fields.len() >= 7 {
                Some(2)
            } else if fields.len() >= 5 {
                Some(4)
            } else {
                None
            },
        };
        let p = match position {
            Some(p) => p,
            None => {
                self.ignore_in_report = true;
                return;
            },
        };
        assert(fields@[p as int]@ == fs[p as int]);
        let tile = match parse_number(&fields[p]) {
            Some(t) => t,
            None => {
                self.ignore_in_report = true;
                return;
            },
        };
        self.split_position = Some(p);
        let mut k: usize = 0;
        while k < self.tiles.len() && self.tiles[k] < tile
            invariant
                k <= self.spec_tiles().len(),
                forall|j: int| 0 <= j < k ==> self.spec_tiles()[j] < tile,
            decreases self.spec_tiles().len() - k,
        {
            k = k + 1;
        }
        let ghost ot = self.spec_tiles();
        let ghost oc = self.spec_counts();
        assert(ot == old(self).spec_tiles());
        assert(oc == old(self).spec_counts());
        let found = k < self.tiles.len() && self.tiles[k] == tile;
        if !found {
            assert(!ot.contains(tile)) by {
                if ot.contains(tile) {
                    let j = choose|j: int| 0 <= j < ot.len() && ot[j] == tile;
                    if j >= k {
                        assert(ot[k as int] > tile);
                        if j > k {
                            assert(ot[k as int] < ot[j]);
                        }
                    }
                }
            }
            if self.tiles.len() >= MAX_TILES {
                self.ignore_in_report = true;
                self.tiles = Vec::new();
                self.per_tile_quality_counts = Vec::new();
                assert(self.spec_counts().len() == 0);
                return;
            }
            self.tiles.insert(k, tile);
            self.per_tile_quality_counts.insert(k, Vec::new());
            assert(self.spec_counts() =~= oc.insert(k as int, Seq::<QualityCount>::empty()));
        }
        let ghost mt = self.spec_tiles();
        let ghost mc = self.spec_counts();
        proof {
            lemma_insert_keeps_order(ot, k as int, tile, found);
            if found {
                assert(mt == ot);
            } else {
                assert(mt =~= ot.insert(k as int, tile));
            }
        }
        if record.qual.len() > self.current_length {
            self.current_length = record.qual.len();
        }
        let mut q: Vec<QualityCount> = Vec::new();
        std::mem::swap(&mut q, &mut self.per_tile_quality_counts[k]);
        let ghost before_q = q@;
        assert(before_q == mc[k as int]);
        proof {
            assert forall|i: int| 0 <= i < before_q.len() implies (#[trigger] before_q[i]).total() < usize::MAX by {
                if found {
                    assert(oc[k as int][i].total() <= old(self).spec_total());
                }
            }
        }
        add_qualities(&mut q, &record.qual);
        self.per_tile_quality_counts.set(k, q);
        proof {
            let ft = self.spec_tiles();
            let fc = self.spec_counts();
            assert(ft == mt);
            assert(fc =~= mc.update(k as int, q@));
            if !found {
                assert(mc =~= oc.insert(k as int, Seq::<QualityCount>::empty()));
            } else {
                assert(mc == oc);
            }
            assert(qualities_added(before_q, q@, record.qual@));
            lemma_tile_step(
                ot,
                oc,
                ft,
                fc,
                k as int,
                tile,
                found,
                q@,
                record.qual@,
                old(self).spec_total(),
                self.spec_current_length(),
            );
        }
    }

    /// Fills the report for characters read with `offset`: the top of the
    /// quality scale (the highest character observed above the offset,
    /// at least 35), and per tile and per group of positions the tile's
    /// mean quality.
    pub fn get_percentages(&mut self, offset: usize)
        requires
            old(self).wf(),
        ensures
            final(self).wf(),
            final(self).spec_tiles() == old(self).spec_tiles(),
            final(self).spec_counts() == old(self).spec_counts(),
            final(self).spec_total() == old(self).spec_total(),
            !observed_any(old(self).spec_counts()) ==> final(self).spec_high() == scale_top(0, offset as int),
            observed_any(old(self).spec_counts()) ==> exists|m: int|
                {
                    &&& observed(old(self).spec_counts(), m)
                    &&& (forall|c: int| #[trigger] observed(old(self).spec_counts(), c) ==> c <= m)
                    &&& final(self).spec_high() == scale_top(m, offset as int)
                },
            exists|groups: Seq<BaseGroup>|
                BaseGroup::are_base_groups(groups, old(self).spec_current_length())
                    && #[trigger] final(self).means_are(groups, offset as int),
    {
        let range = self.calculate_offset();
        let top_char = range[1] as usize;
        let h = if top_char > offset {
            top_char - offset
        } else {
            0
        };
        self.high = if h < MIN_HIGH_QUALITY {
            MIN_HIGH_QUALITY
        } else {
            h
        };
        let groups = BaseGroup::make_base_groups(self.current_length);
        proof {
            BaseGroup::lemma_groups_in_range(groups@, self.spec_current_length());
        }
        let ghost high = self.spec_high();
        let ghost top = range@[1] as int;
        assert(high == scale_top(top, offset as int));
        let mut means: Vec<Vec<Ratio>> = Vec::new();
        let mut labels: Vec<String> = Vec::new();
        let mut g: usize = 0;
        while g < groups.len()
            invariant
                g <= groups@.len(),
                labels@.len() == g,
                forall|k: int| 0 <= k < g ==> (#[trigger] labels@[k])@ == groups@[k].name@,
            decreases groups@.len() - g,
        {
            labels.push(groups[g].name.clone());
            g = g + 1;
        }
        let mut t: usize = 0;
        while t < self.per_tile_quality_counts.len()
            invariant
                self.wf(),
                forall|k: int|
                    0 <= k < groups@.len() ==> 1 <= (#[trigger] groups@[k]).lower_count,
                t <= self.spec_counts().len(),
                means@.len() == t,
                forall|k: int|
                    0 <= k < t ==> (#[trigger] means@[k])@.len() == groups@.len() && forall|j: int|
                        0 <= j < groups@.len() ==> means@[k]@[j] == tile_group_mean(
                            self.spec_counts()[k],
                            groups@[j].lower_count as int,
                            groups@[j].upper_count as int,
                            offset as int,
                        ),
            decreases self.spec_counts().len() - t,
        {
            let mut row: Vec<Ratio> = Vec::new();
            let mut j: usize = 0;
            assert(self.per_tile_quality_counts@[t as int]@ == self.spec_counts()[t as int]);
            while j < groups.len()
                invariant
                    self.wf(),
                    t < self.spec_counts().len(),
                    forall|k: int|
                        0 <= k < groups@.len() ==> 1 <= (#[trigger] groups@[k]).lower_count,
                    self.per_tile_quality_counts@[t as int]@ == self.spec_counts()[t as int],
                    j <= groups@.len(),
                    row@.len() == j,
                    forall|k: int|
                        0 <= k < j ==> #[trigger] row@[k] == tile_group_mean(
                            self.spec_counts()[t as int],
                            groups@[k].lower_count as int,
                            groups@[k].upper_count as int,
                            offset as int,
                        ),
                decreases groups@.len() - j,
            {
                proof {
                    assert forall|i: int| 0 <= i < self.spec_counts()[t as int].len() implies (#[trigger] self.spec_counts()[t as int][i]).wf() by {}
                }
                let m = tile_mean(&self.per_tile_quality_counts[t], groups[j].lower_count, groups[j].upper_count, offset);
                row.push(m);
                j = j + 1;
            }
            means.push(row);
            t = t + 1;
        }
        self.means = means;
        self.x_labels = labels;
        assert(self.spec_labels() =~= groups@.map_values(|g: BaseGroup| g.name@));
        assert(self.means_are(groups@, offset as int));
        assert(self.spec_high() == high);
    }

    pub closed spec fn spec_labels(&self) -> Seq<Seq<char>> {
        self.x_labels@.map_values(|s: String| s@)
    }

    /// The report holds, per tile and group of `groups`, the tile's mean.
    pub open spec fn means_are(&self, groups: Seq<BaseGroup>, offset: int) -> bool {
        &&& self.spec_labels() == groups.map_values(|g: BaseGroup| g.name@)
        &&& self.spec_means().len() == self.spec_tiles().len()
        &&& forall|k: int|
            0 <= k < self.spec_means().len() ==> (#[trigger] self.spec_means()[k]).len() == groups.len()
                && forall|j: int|
                0 <= j < groups.len() ==> self.spec_means()[k][j] == tile_group_mean(
                    self.spec_counts()[k],
                    groups[j].lower_count as int,
                    groups[j].upper_count as int,
                    offset,
                )
    }

    /// Per tile and group, the tile's mean quality.
    pub fn means(&self) -> (r: &Vec<Vec<Ratio>>)
        ensures
            r@.map_values(|v: Vec<Ratio>| v@) == self.spec_means(),
    {
        &self.means
    }

    /// The group labels.
    pub fn x_labels(&self) -> (r: &Vec<String>)
        ensures
            r@.map_values(|s: String| s@) == self.spec_labels(),
    {
        &self.x_labels
    }

    /// The top of the quality scale.
    pub fn high(&self) -> (r: usize)
        ensures
            r == self.spec_high(),
    {
        self.high
    }

    /// The lowest and highest quality characters observed in any tile at
    /// any position; `[0, 0]` when there are none.
    pub fn calculate_offset(&self) -> (r: Vec<u8>)
        requires
            self.wf(),
        ensures
            r@.len() == 2,
            !observed_any(self.spec_counts()) ==> r@[0] == 0 && r@[1] == 0,
            observed_any(self.spec_counts()) ==> {
                &&& observed(self.spec_counts(), r@[0] as int)
                &&& observed(self.spec_counts(), r@[1] as int)
                &&& forall|c: int| #[trigger] observed(self.spec_counts(), c) ==> r@[0] <= c <= r@[1]
            },
    {
        let ghost cs = self.spec_counts();
        let mut any = false;
        let mut min_char: u8 = 0;
        let mut max_char: u8 = 0;
        let mut t: usize = 0;
        while t < self.per_tile_quality_counts.len()
            invariant
                self.wf(),
                cs == self.spec_counts(),
                t <= cs.len(),
                !any ==> forall|c: int| !#[trigger] observed_below(cs, t as int, c),
                any ==> observed_below(cs, t as int, min_char as int) && observed_below(cs, t as int, max_char as int),
                any ==> forall|c: int| #[trigger] observed_below(cs, t as int, c) ==> min_char <= c <= max_char,
                !any ==> min_char == 0 && max_char == 0,
            decreases cs.len() - t,
        {
            let mut i: usize = 0;
            while i < self.per_tile_quality_counts[t].len()
                invariant
                    self.wf(),
                    cs == self.spec_counts(),
                    t < cs.len(),
                    i <= cs[t as int].len(),
                    !any ==> forall|c: int| !#[trigger] observed_upto(cs, t as int, i as int, c),
                    any ==> observed_upto(cs, t as int, i as int, min_char as int) && observed_upto(cs, t as int, i as int, max_char as int),
                    any ==> forall|c: int| #[trigger] observed_upto(cs, t as int, i as int, c) ==> min_char <= c <= max_char,
                    !any ==> min_char == 0 && max_char == 0,
                decreases cs[t as int].len() - i,
            {
                let q = &self.per_tile_quality_counts[t][i];
                assert(*q == cs[t as int][i as int]);
                if q.total_counts() > 0 {
                    let lo = q.get_min_char();
                    let hi = q.get_max_char();
                    proof {
                        lemma_some_bucket(*q);
                    }
                    let lo8 = lo as u32 as u8;
                    let hi8 = hi as u32 as u8;
                    assert(lo8 as int == lo as int);
                    assert(hi8 as int == hi as int);
                    if !any || lo8 < min_char {
                        min_char = lo8;
                    }
                    if !any || hi8 > max_char {
                        max_char = hi8;
                    }
                    any = true;
                    proof {
                        assert(observed_upto(cs, t as int, i + 1, lo as int));
                        assert(observed_upto(cs, t as int, i + 1, hi as int));
                    }
                }
                proof {
                    assert forall|c: int| #[trigger] observed_upto(cs, t as int, i + 1, c) implies observed_upto(
                        cs,
                        t as int,
                        i as int,
                        c,
                    ) || (0 <= c < QUALITY_BUCKETS && cs[t as int][i as int].counts()[c] > 0) by {
                        if !observed_below(cs, t as int, c) {
                            let k = choose|k: int|
                                0 <= k < i + 1 && k < cs[t as int].len() && 0 <= c < QUALITY_BUCKETS && (
                                #[trigger] cs[t as int][k]).counts()[c] > 0;
                            if k < i {
                                assert(observed_upto(cs, t as int, i as int, c));
                            }
                        }
                    }
                    assert forall|c: int| observed_upto(cs, t as int, i as int, c) implies #[trigger] observed_upto(
                        cs,
                        t as int,
                        i + 1,
                        c,
                    ) by {
                        if !observed_below(cs, t as int, c) {
                            let k = choose|k: int|
                                0 <= k < i && k < cs[t as int].len() && 0 <= c < QUALITY_BUCKETS && (
                                #[trigger] cs[t as int][k]).counts()[c] > 0;
                            assert(0 <= k < i + 1);
                        }
                    }
                    if q.total() == 0 {
                        assert forall|c: int| 0 <= c < QUALITY_BUCKETS implies cs[t as int][i as int].counts()[c] == 0 by {
                            crate::arith::lemma_elem_le_sum(q.counts(), 0, c, QUALITY_BUCKETS as int);
                        }
                    }
                }
                i = i + 1;
            }
            proof {
                assert forall|c: int| #[trigger] observed_below(cs, t + 1, c) <==> observed_upto(
                    cs,
                    t as int,
                    cs[t as int].len() as int,
                    c,
                ) by {
                    if observed_below(cs, t + 1, c) && !observed_below(cs, t as int, c) {
                        let (tt, k) = choose|tt: int, k: int|
                            0 <= tt < t + 1 && tt < cs.len() && 0 <= k < cs[tt].len() && 0 <= c < QUALITY_BUCKETS && (
                            #[trigger] cs[tt][k]).counts()[c] > 0;
                        assert(tt == t);
                    }
                    if observed_below(cs, t as int, c) {
                        let (tt, k) = choose|tt: int, k: int|
                            0 <= tt < t && tt < cs.len() && 0 <= k < cs[tt].len() && 0 <= c < QUALITY_BUCKETS && (
                            #[trigger] cs[tt][k]).counts()[c] > 0;
                        assert(0 <= tt < t + 1);
                    }
                    if !observed_below(cs, t as int, c) && observed_upto(cs, t as int, cs[t as int].len() as int, c) {
                        let k = choose|k: int|
                            0 <= k < cs[t as int].len() && k < cs[t as int].len() && 0 <= c < QUALITY_BUCKETS && (
                            #[trigger] cs[t as int][k]).counts()[c] > 0;
                        assert(observed_below(cs, t + 1, c));
                    }
                }
            }
            t = t + 1;
        }
        proof {
            assert forall|c: int| #[trigger] observed(cs, c) <==> observed_below(cs, cs.len() as int, c) by {
                if observed(cs, c) {
                    let (tt, k) = choose|tt: int, k: int|
                        0 <= tt < cs.len() && 0 <= k < cs[tt].len() && 0 <= c < QUALITY_BUCKETS && (
                        #[trigger] cs[tt][k]).counts()[c] > 0;
                    assert(observed_below(cs, cs.len() as int, c));
                }
                if observed_below(cs, cs.len() as int, c) {
                    let (tt, k) = choose|tt: int, k: int|
                        0 <= tt < cs.len() && tt < cs.len() && 0 <= k < cs[tt].len() && 0 <= c < QUALITY_BUCKETS && (
                        #[trigger] cs[tt][k]).counts()[c] > 0;
                    assert(observed(cs, c));
                }
            }
        }
        if any {
            assert(observed(cs, min_char as int));
            assert(observed_any(cs));
        }
        let mut r: Vec<u8> = Vec::new();
        r.push(min_char);
        r.push(max_char);
        r
    }
}

/// Mean quality of a tile over the positions `lower..=upper` (1-based)
/// that it holds and that have observations.
pub open spec fn tile_group_mean(qs: Seq<QualityCount>, lower: int, upper: int, offset: int) -> Ratio {
    let top = if upper < qs.len() {
        upper
    } else {
        qs.len() as int
    };
    let m = mean_sum(qs, lower - 1, top, offset);
    ratio_of(m.0, m.1)
}

/// The mean quality of one tile over a group of positions, computed.
fn tile_mean(qs: &Vec<QualityCount>, minbp: usize, maxbp: usize, offset: usize) -> (r: Ratio)
    requires
        forall|i: int| 0 <= i < qs@.len() ==> (#[trigger] qs@[i]).wf(),
        1 <= minbp,
    ensures
        r == tile_group_mean(qs@, minbp as int, maxbp as int, offset as int),
{
    let top = if maxbp < qs.len() {
        maxbp
    } else {
        qs.len()
    };
    let mut count: u128 = 0;
    let mut total: u128 = 0;
    let mut i: usize = minbp - 1;
    if i >= top {
        return Ratio::of(0, 0);
    }
    while i < top
        invariant
            forall|k: int| 0 <= k < qs@.len() ==> (#[trigger] qs@[k]).wf(),
            1 <= minbp <= i + 1,
            i <= top <= qs@.len(),
            (total as int, count as int) == mean_sum(qs@, minbp - 1, i as int, offset as int),
            count <= i,
            total <= 150 * i,
        decreases top - i,
    {
        if qs[i].total_counts() > 0 {
            let m = qs[i].truncated_mean(offset);
            proof {
                lemma_mean_of_bound(qs@[i as int].counts(), offset as int);
            }
            count = count + 1;
            total = total + m as u128;
        }
        i = i + 1;
    }
    Ratio::of(total, count)
}

/// Top of the quality scale for highest character `m` read with
/// `offset`: its Phred value, at least 35.
pub open spec fn scale_top(m: int, offset: int) -> int {
    let h = if m > offset { m - offset } else { 0 };
    if h < MIN_HIGH_QUALITY { MIN_HIGH_QUALITY as int } else { h }
}

/// Character `c` was observed at some position of some tile.
pub open spec fn observed(cs: Seq<Seq<QualityCount>>, c: int) -> bool {
    exists|t: int, i: int|
        0 <= t < cs.len() && 0 <= i < cs[t].len() && 0 <= c < QUALITY_BUCKETS && (#[trigger] cs[t][i]).counts()[c] > 0
}

/// Some character was observed.
pub open spec fn observed_any(cs: Seq<Seq<QualityCount>>) -> bool {
    exists|c: int| observed(cs, c)
}

/// Character `c` was observed in one of the first `n` tiles.
pub open spec fn observed_below(cs: Seq<Seq<QualityCount>>, n: int, c: int) -> bool {
    exists|t: int, i: int|
        0 <= t < n && t < cs.len() && 0 <= i < cs[t].len() && 0 <= c < QUALITY_BUCKETS && (#[trigger] cs[t][i]).counts()[c] > 0
}

/// Character `c` was observed in the tiles before `t`, or in tile `t`
/// before position `n`.
pub open spec fn observed_upto(cs: Seq<Seq<QualityCount>>, t: int, n: int, c: int) -> bool {
    observed_below(cs, t, c) || exists|i: int|
        0 <= i < n && i < cs[t].len() && 0 <= c < QUALITY_BUCKETS && (#[trigger] cs[t][i]).counts()[c] > 0
}

proof fn lemma_some_bucket(q: QualityCount)
    requires
        q.wf(),
        q.total() > 0,
    ensures
        exists|i: int| 0 <= i < QUALITY_BUCKETS && q.counts()[i] > 0,
{
    if forall|i: int| 0 <= i < QUALITY_BUCKETS ==> q.counts()[i] == 0 {
        lemma_all_zero_sum(q.counts(), QUALITY_BUCKETS as int);
    }
}

proof fn lemma_all_zero_sum(s: Seq<usize>, n: int)
    requires
        0 <= n <= s.len(),
        forall|i: int| 0 <= i < s.len() ==> s[i] == 0,
    ensures
        crate::arith::sum_range(s, 0, n) == 0,
    decreases n,
{
    if n > 0 {
        lemma_all_zero_sum(s, n - 1);
    }
}

} // verus!
