use vstd::prelude::*;
use vstd::utf8::encode_utf8;
use crate::bytes::{contains_bytes, copy_bytes, find_bytes, to_upper_bytes, upper_bytes};
use crate::quality::QcError;

verus! {

/// Direction of a hit on the contaminant as given.
pub const FORWARD_TYPE: usize = 1;

/// Direction of a hit on the reverse complement of the contaminant.
pub const REVERSE_TYPE: usize = 2;

/// Shortest run of aligned bases that counts as a hit.
pub const MIN_HIT_LENGTH: usize = 20;

/// `b` is one of `A`, `C`, `G`, `T`.
pub open spec fn is_base(b: u8) -> bool {
    b == 65 || b == 67 || b == 71 || b == 84
}

/// The complementary base: A and T, C and G swap.
pub open spec fn complement(b: u8) -> u8 {
    if b == 71 {
        67
    } else if b == 65 {
        84
    } else if b == 84 {
        65
    } else {
        71
    }
}

/// The reverse complement of `s`.
pub open spec fn reverse_complement(s: Seq<u8>) -> Seq<u8> {
    Seq::new(s.len(), |i: int| complement(s[s.len() - 1 - i]))
}

/// A named adapter or primer sequence that reads may be contaminated with.
#[derive(Clone, Debug)]
pub struct Contaminant {
    name: String,
    forward: Vec<u8>,
    reverse: Vec<u8>,
}

/// Best (length, identity) so far; a new run replaces it when it is longer,
/// or as long with a higher identity.
pub open spec fn improves(best: Option<(int, int)>, len: int, id: int) -> bool {
    match best {
        None => true,
        Some(b) => b.0 < len || (b.0 == len && b.1 < id),
    }
}

pub open spec fn record(best: Option<(int, int)>, len: int, id: int) -> Option<(int, int)> {
    if improves(best, len, id) {
        Some((len, id))
    } else {
        best
    }
}

/// Records the run `start..=end` with `mismatches` mismatches when it is
/// longer than the minimum hit length.
pub open spec fn close_run(best: Option<(int, int)>, start: int, end: int, mismatches: int) -> Option<
    (int, int),
> {
    let len = 1 + end - start;
    if len > MIN_HIT_LENGTH {
        record(best, len, ((len - mismatches) * 100) / len)
    } else {
        best
    }
}

/// State of the alignment scan of `ca` against `cb` shifted by `offset`
/// after `n` positions: best run, mismatches in the current run, and the
/// run's first and last positions. A second mismatch closes the run.
pub open spec fn scan(ca: Seq<u8>, cb: Seq<u8>, offset: int, n: int) -> (Option<(int, int)>, int, int, int)
    decreases n,
{
    if n <= 0 {
        (None, 0, 0, 0)
    } else {
        let prev = scan(ca, cb, offset, n - 1);
        let i = n - 1;
        if ca[i] == cb[i + offset] {
            (prev.0, prev.1, prev.2, i)
        } else if prev.1 + 1 > 1 {
            (close_run(prev.0, prev.2, prev.3, prev.1), 0, i + 1, i + 1)
        } else {
            (prev.0, prev.1 + 1, prev.2, prev.3)
        }
    }
}

/// Number of positions of `ca` that face a position of `cb` at `offset`.
pub open spec fn scan_length(ca: Seq<u8>, cb: Seq<u8>, offset: int) -> int {
    if offset >= cb.len() {
        0
    } else if ca.len() < cb.len() - offset {
        ca.len() as int
    } else {
        cb.len() - offset
    }
}

/// Best run of `ca` aligned to `cb` at `offset`: (length, percent identity).
pub open spec fn aligned_match(ca: Seq<u8>, cb: Seq<u8>, offset: int) -> Option<(int, int)> {
    let s = scan(ca, cb, offset, scan_length(ca, cb, offset));
    close_run(s.0, s.2, s.3, s.1)
}

/// Best hit (direction, length, identity) over the offsets below `n`,
/// starting from `acc`.
pub open spec fn sweep(ca: Seq<u8>, q: Seq<u8>, dir: int, n: int, acc: Option<(int, int, int)>) -> Option<
    (int, int, int),
>
    decreases n,
{
    if n <= 0 {
        acc
    } else {
        let prev = sweep(ca, q, dir, n - 1, acc);
        match aligned_match(ca, q, n - 1) {
            None => prev,
            Some(h) => if improves3(prev, h.0, h.1) {
                Some((dir, h.0, h.1))
            } else {
                prev
            },
        }
    }
}

pub open spec fn improves3(best: Option<(int, int, int)>, len: int, id: int) -> bool {
    match best {
        None => true,
        Some(b) => b.1 < len || (b.1 == len && b.2 < id),
    }
}

/// Number of alignment offsets tried for a query of `len` bases.
pub open spec fn offset_count(len: int) -> int {
    if len > MIN_HIT_LENGTH {
        len - MIN_HIT_LENGTH
    } else {
        0
    }
}

/// The hit (direction, length, identity) of the upper-cased query `q` on
/// a contaminant with strands `fwd` and `rev`: a short query (8 to 20
/// bases) found whole on a strand is a full-identity hit; otherwise the
/// best aligned run over both strands.
pub open spec fn contaminant_match(fwd: Seq<u8>, rev: Seq<u8>, q: Seq<u8>) -> Option<(int, int, int)> {
    if 8 <= q.len() <= 20 && contains_bytes(fwd, q) {
        Some((FORWARD_TYPE as int, q.len() as int, 100))
    } else if 8 <= q.len() <= 20 && contains_bytes(rev, q) {
        Some((REVERSE_TYPE as int, q.len() as int, 100))
    } else {
        let n = offset_count(q.len() as int);
        sweep(rev, q, REVERSE_TYPE as int, n, sweep(fwd, q, FORWARD_TYPE as int, n, None))
    }
}

/// The bytes of a string, upper-cased.
pub open spec fn query_bytes(s: Seq<char>) -> Seq<u8> {
    upper_bytes(encode_utf8(s))
}

impl Contaminant {
    pub closed spec fn spec_name(&self) -> Seq<char> {
        self.name@
    }

    pub closed spec fn forward(&self) -> Seq<u8> {
        self.forward@
    }

    pub closed spec fn reverse(&self) -> Seq<u8> {
        self.reverse@
    }

    /// Only bases in the forward strand, and the reverse strand is its
    /// reverse complement.
    pub open spec fn wf(&self) -> bool {
        &&& forall|i: int| 0 <= i < self.forward().len() ==> is_base(#[trigger] self.forward()[i])
        &&& self.reverse() == reverse_complement(self.forward())
    }

    /// Both contaminants hold the same name and strands.
    pub open spec fn same_as(&self, o: Contaminant) -> bool {
        &&& self.spec_name() == o.spec_name()
        &&& self.forward() == o.forward()
        &&& self.reverse() == o.reverse()
    }

    /// A contaminant named `name` with the bases of `sequence`; fails on the
    /// first byte that is not `A`, `C`, `G` or `T`.
    pub fn new(name: String, sequence: String) -> (r: Result<Contaminant, QcError>)
        ensures
            (r is Ok) <==> forall|i: int|
                0 <= i < encode_utf8(sequence@).len() ==> is_base(#[trigger] encode_utf8(sequence@)[i]),
            r is Ok ==> {
                &&& r->Ok_0.wf()
                &&& r->Ok_0.spec_name() == name@
                &&& r->Ok_0.forward() == encode_utf8(sequence@)
            },
            r is Err ==> exists|i: int|
                {
                    &&& 0 <= i < encode_utf8(sequence@).len()
                    &&& !is_base(encode_utf8(sequence@)[i])
                    &&& forall|j: int| 0 <= j < i ==> is_base(#[trigger] encode_utf8(sequence@)[j])
                    &&& r == Err::<Contaminant, QcError>(
                        QcError::IllegalBase(encode_utf8(sequence@)[i]),
                    )
                },
    {
        let bytes = sequence.as_str().as_bytes();
        let ghost s = encode_utf8(sequence@);
        let forward = copy_bytes(bytes);
        let n = forward.len();
        let mut i: usize = 0;
        while i < n
            invariant
                forward@ == s,
                s == encode_utf8(sequence@),
                n == s.len(),
                i <= n,
                forall|j: int| 0 <= j < i ==> is_base(#[trigger] s[j]),
            decreases n - i,
        {
            let b = forward[i];
            if !(b == 65 || b == 67 || b == 71 || b == 84) {
                assert(!is_base(s[i as int]));
                return Err(QcError::IllegalBase(b));
            }
            i = i + 1;
        }
        let mut reverse: Vec<u8> = Vec::new();
        let mut k: usize = 0;
        while k < n
            invariant
                forward@ == s,
                s == encode_utf8(sequence@),
                n == s.len(),
                k <= n,
                reverse@.len() == k,
                forall|j: int| 0 <= j < k ==> reverse@[j] == complement(s[n - 1 - j]),
            decreases n - k,
        {
            let b = forward[n - 1 - k];
            let c: u8 = if b == 71 {
                67
            } else if b == 65 {
                84
            } else if b == 84 {
                65
            } else {
                71
            };
            reverse.push(c);
            k = k + 1;
        }
        assert(reverse@ =~= reverse_complement(s));
        Ok(Contaminant { name, forward, reverse })
    }

    /// The contaminant's name.
    pub fn name(&self) -> (r: String)
        ensures
            r@ == self.spec_name(),
    {
        self.name.clone()
    }

    fn duplicate(&self) -> (r: Contaminant)
        ensures
            r.same_as(*self),
    {
        Contaminant {
            name: self.name.clone(),
            forward: copy_bytes(self.forward.as_slice()),
            reverse: copy_bytes(self.reverse.as_slice()),
        }
    }

    /// The best hit of `query` on this contaminant, read with its letters in
    /// upper case: a query of 8 to 20 bases found whole on either strand is
    /// a hit of its full length at 100% identity; otherwise each offset at
    /// which the contaminant starts within the query is aligned on both
    /// strands, a run ends at its second mismatch, and the longest run over
    /// 20 bases wins, then the one of highest identity, the first among
    /// equals.
    pub fn find_match(&self, query: &String) -> (r: Option<ContaminantHit>)
        requires
            self.forward().len() < usize::MAX,
            self.reverse().len() < usize::MAX,
        ensures
            hit_on(r, *self),
            hit_view(r, *self) == contaminant_match(
                self.forward(),
                self.reverse(),
                query_bytes(query@),
            ),
    {
        let q = to_upper_bytes(query.as_str().as_bytes());
        let length = q.len();
        if length <= 20 && length >= 8 {
            if find_bytes(self.forward.as_slice(), q.as_slice()).is_some() {
                return Some(ContaminantHit::hit(self.duplicate(), FORWARD_TYPE, length, 100));
            }
            if find_bytes(self.reverse.as_slice(), q.as_slice()).is_some() {
                return Some(ContaminantHit::hit(self.duplicate(), REVERSE_TYPE, length, 100));
            }
        }
        let n: usize = if length > MIN_HIT_LENGTH {
            length - MIN_HIT_LENGTH
        } else {
            0
        };
        let mut best: Option<ContaminantHit> = None;
        let mut dir: usize = FORWARD_TYPE;
        let ghost fwd_best = sweep(self.forward(), q@, FORWARD_TYPE as int, n as int, None);
        while dir <= REVERSE_TYPE
            invariant
                FORWARD_TYPE <= dir <= REVERSE_TYPE + 1,
                hit_on(best, *self),
                self.forward().len() < usize::MAX,
                self.reverse().len() < usize::MAX,
                n == offset_count(q@.len() as int),
                fwd_best == sweep(self.forward(), q@, FORWARD_TYPE as int, n as int, None),
                dir == FORWARD_TYPE ==> best is None,
                dir == REVERSE_TYPE ==> hit_view(best, *self) == fwd_best,
                dir == REVERSE_TYPE + 1 ==> hit_view(best, *self) == sweep(
                    self.reverse(),
                    q@,
                    REVERSE_TYPE as int,
                    n as int,
                    fwd_best,
                ),
            decreases REVERSE_TYPE + 1 - dir,
        {
            let ghost start_best = hit_view(best, *self);
            let mut offset: usize = 0;
            while offset < n
                invariant
                    FORWARD_TYPE <= dir <= REVERSE_TYPE,
                    self.forward().len() < usize::MAX,
                    self.reverse().len() < usize::MAX,
                    offset <= n,
                    n == offset_count(q@.len() as int),
                    hit_on(best, *self),
                    hit_view(best, *self) == sweep(
                        if dir == FORWARD_TYPE {
                            self.forward()
                        } else {
                            self.reverse()
                        },
                        q@,
                        dir as int,
                        offset as int,
                        start_best,
                    ),
                decreases n - offset,
            {
                let this_hit = if dir == FORWARD_TYPE {
                    self.sub_find_match(&self.forward, &q, offset, dir)
                } else {
                    self.sub_find_match(&self.reverse, &q, offset, dir)
                };
                match this_hit {
                    None => {},
                    Some(h) => {
                        let better = match &best {
                            None => true,
                            Some(b) => b.length < h.length || (b.length == h.length
                                && b.percent_id < h.percent_id),
                        };
                        if better {
                            best = Some(h);
                        }
                    },
                }
                offset = offset + 1;
            }
            dir = dir + 1;
        }
        proof {
            assert(!(8 < q@.len() < 20 && contains_bytes(self.forward(), q@)));
        }
        best
    }

    /// The best run of `ca` aligned against `cb` shifted by `offset`, as a
    /// hit in `direction`: a run ends at its second mismatch, counts only
    /// when longer than 20 positions, and a later run replaces an earlier
    /// one when longer, or as long with a higher identity.
    pub fn sub_find_match(&self, ca: &Vec<u8>, cb: &Vec<u8>, offset: usize, direction: usize) -> (r:
        Option<ContaminantHit>)
        requires
            direction == FORWARD_TYPE || direction == REVERSE_TYPE,
            ca@.len() < usize::MAX,
        ensures
            match (r, aligned_match(ca@, cb@, offset as int)) {
                (None, None) => true,
                (Some(h), Some(m)) => h.is_hit(*self, direction as int, m.0, m.1),
                _ => false,
            },
    {
        let stop: usize = if offset >= cb.len() {
            0
        } else if ca.len() < cb.len() - offset {
            ca.len()
        } else {
            cb.len() - offset
        };
        let mut best: Option<ContaminantHit> = None;
        let mut mismatch_count: usize = 0;
        let mut start: usize = 0;
        let mut end: usize = 0;
        let mut i: usize = 0;
        let cb_len = cb.len();
        while i < stop
            invariant
                cb_len == cb@.len(),
                direction == FORWARD_TYPE || direction == REVERSE_TYPE,
                ca@.len() < usize::MAX,
                stop == scan_length(ca@, cb@, offset as int),
                i <= stop,
                start <= end <= i,
                mismatch_count <= 1,
                ({
                    let s = scan(ca@, cb@, offset as int, i as int);
                    &&& s.1 == mismatch_count
                    &&& s.2 == start
                    &&& s.3 == end
                    &&& best_view(best) == s.0
                }),
                hit_in(best, *self, direction as int),
            decreases stop - i,
        {
            assert(i + offset < cb@.len());
            if ca[i] == cb[i + offset] {
                end = i;
            } else if mismatch_count + 1 > 1 {
                best = self.close_run(best, start, end, mismatch_count, direction);
                start = i + 1;
                end = i + 1;
                mismatch_count = 0;
            } else {
                mismatch_count = mismatch_count + 1;
            }
            i = i + 1;
        }
        self.close_run(best, start, end, mismatch_count, direction)
    }

    fn close_run(
        &self,
        best: Option<ContaminantHit>,
        start: usize,
        end: usize,
        mismatches: usize,
        direction: usize,
    ) -> (r: Option<ContaminantHit>)
        requires
            direction == FORWARD_TYPE || direction == REVERSE_TYPE,
            start <= end < usize::MAX,
            mismatches <= 1,
            hit_in(best, *self, direction as int),
        ensures
            hit_in(r, *self, direction as int),
            best_view(r) == close_run(
                best_view(best),
                start as int,
                end as int,
                mismatches as int,
            ),
    {
        let len = 1 + (end - start);
        if len > MIN_HIT_LENGTH {
            let id = ((((len - mismatches) as u128) * 100) / (len as u128)) as usize;
            proof {
                assert((len - mismatches) * 100 / (len as int) <= 100) by (nonlinear_arith)
                    requires
                        len > 0,
                        mismatches >= 0,
                        len >= mismatches,
                ;
            }
            let better = match &best {
                None => true,
                Some(b) => b.length < len || (b.length == len && b.percent_id < id),
            };
            if better {
                Some(ContaminantHit::hit(self.duplicate(), direction, len, id))
            } else {
                best
            }
        } else {
            best
        }
    }
}

/// Where a contaminant was found in a query, in which direction, over how
/// many bases and at what percent identity.
#[derive(Clone, Debug)]
pub struct ContaminantHit {
    contaminant: Contaminant,
    direction: usize,
    length: usize,
    percent_id: usize,
}

/// (length, identity) of a hit, when there is one.
pub open spec fn best_view(h: Option<ContaminantHit>) -> Option<(int, int)> {
    match h {
        None => None,
        Some(x) => Some((x.spec_length(), x.spec_percent_id())),
    }
}

/// A hit, when there is one, is on `c` in `dir`.
pub open spec fn hit_in(h: Option<ContaminantHit>, c: Contaminant, dir: int) -> bool {
    h is Some ==> {
        &&& h->0.spec_contaminant().same_as(c)
        &&& h->0.spec_direction() == dir
    }
}

/// A hit, when there is one, is on `c`.
pub open spec fn hit_on(h: Option<ContaminantHit>, c: Contaminant) -> bool {
    h is Some ==> h->0.spec_contaminant().same_as(c)
}

/// (direction, length, identity) of a hit on `c`, when there is one.
pub open spec fn hit_view(h: Option<ContaminantHit>, c: Contaminant) -> Option<(int, int, int)> {
    match h {
        None => None,
        Some(x) => if x.spec_contaminant().same_as(c) {
            Some((x.spec_direction(), x.spec_length(), x.spec_percent_id()))
        } else {
            Some((-1, -1, -1))
        },
    }
}

impl ContaminantHit {
    pub closed spec fn spec_contaminant(&self) -> Contaminant {
        self.contaminant
    }

    pub closed spec fn spec_direction(&self) -> int {
        self.direction as int
    }

    pub closed spec fn spec_length(&self) -> int {
        self.length as int
    }

    pub closed spec fn spec_percent_id(&self) -> int {
        self.percent_id as int
    }

    /// The hit is on `c`, in `dir`, over `len` bases at `id` percent.
    pub open spec fn is_hit(&self, c: Contaminant, dir: int, len: int, id: int) -> bool {
        &&& self.spec_contaminant().same_as(c)
        &&& self.spec_direction() == dir
        &&& self.spec_length() == len
        &&& self.spec_percent_id() == id
    }

    /// A hit of `contaminant` in `direction` over `length` bases at
    /// `percent_id` percent identity; fails on a direction other than
    /// `FORWARD_TYPE` and `REVERSE_TYPE`.
    pub fn new(contaminant: Contaminant, direction: usize, length: usize, percent_id: usize) -> (r: Result<
        ContaminantHit,
        QcError,
    >)
        ensures
            (direction == FORWARD_TYPE || direction == REVERSE_TYPE) <==> r is Ok,
            r is Err ==> r == Err::<ContaminantHit, QcError>(QcError::InvalidDirection(direction)),
            r is Ok ==> {
                &&& r->Ok_0.spec_contaminant() == contaminant
                &&& r->Ok_0.spec_direction() == direction
                &&& r->Ok_0.spec_length() == length
                &&& r->Ok_0.spec_percent_id() == percent_id
            },
    {
        if direction == FORWARD_TYPE || direction == REVERSE_TYPE {
            Ok(ContaminantHit::hit(contaminant, direction, length, percent_id))
        } else {
            Err(QcError::InvalidDirection(direction))
        }
    }

    fn hit(contaminant: Contaminant, direction: usize, length: usize, percent_id: usize) -> (r:
        ContaminantHit)
        requires
            direction == FORWARD_TYPE || direction == REVERSE_TYPE,
        ensures
            r.spec_contaminant() == contaminant,
            r.spec_direction() == direction,
            r.spec_length() == length,
            r.spec_percent_id() == percent_id,
    {
        ContaminantHit { contaminant, direction, length, percent_id }
    }

    /// The contaminant that was hit.
    pub fn contaminant(&self) -> (r: Contaminant)
        ensures
            r.same_as(self.spec_contaminant()),
    {
        self.contaminant.duplicate()
    }

    /// `FORWARD_TYPE` or `REVERSE_TYPE`.
    pub fn direction(&self) -> (r: usize)
        ensures
            r == self.spec_direction(),
    {
        self.direction
    }

    /// Number of aligned bases.
    pub fn length(&self) -> (r: usize)
        ensures
            r == self.spec_length(),
    {
        self.length
    }

    /// Percent identity over the aligned bases.
    pub fn percent_id(&self) -> (r: usize)
        ensures
            r == self.spec_percent_id(),
    {
        self.percent_id
    }
}

/// Best hit over the first `n` contaminants of `cs`: (index, direction,
/// length, identity). A later hit replaces an earlier one when longer, or
/// as long with a higher identity.
pub open spec fn library_match(cs: Seq<Contaminant>, q: Seq<u8>, n: int) -> Option<(int, int, int, int)>
    decreases n,
{
    if n <= 0 {
        None
    } else {
        let prev = library_match(cs, q, n - 1);
        match contaminant_match(cs[n - 1].forward(), cs[n - 1].reverse(), q) {
            None => prev,
            Some(h) => if match prev {
                None => true,
                Some(p) => h.1 > p.2 || (h.1 == p.2 && h.2 > p.3),
            } {
                Some((n - 1, h.0, h.1, h.2))
            } else {
                prev
            },
        }
    }
}

/// `h` is the hit that `m` describes on the contaminants `cs`.
pub open spec fn library_hit_is(
    h: Option<ContaminantHit>,
    cs: Seq<Contaminant>,
    m: Option<(int, int, int, int)>,
) -> bool {
    match (h, m) {
        (None, None) => true,
        (Some(x), Some(b)) => 0 <= b.0 < cs.len() && x.is_hit(cs[b.0], b.1, b.2, b.3),
        _ => false,
    }
}

/// A library of contaminants that over-represented sequences are checked
/// against.
#[derive(Clone, Debug)]
pub struct ContaminentFinder {
    contaminants: Vec<Contaminant>,
}

impl ContaminentFinder {
    pub closed spec fn library(&self) -> Seq<Contaminant> {
        self.contaminants@
    }

    /// Every strand is shorter than the largest index.
    pub open spec fn wf(&self) -> bool {
        forall|i: int|
            0 <= i < self.library().len() ==> {
                &&& (#[trigger] self.library()[i]).forward().len() < usize::MAX
                &&& self.library()[i].reverse().len() < usize::MAX
            }
    }

    /// A finder with an empty library.
    pub fn new() -> (r: ContaminentFinder)
        ensures
            r.library().len() == 0,
            r.wf(),
    {
        ContaminentFinder { contaminants: Vec::new() }
    }

    /// A finder over the given library.
    pub fn with_contaminants(contaminants: Vec<Contaminant>) -> (r: ContaminentFinder)
        ensures
            r.library() == contaminants@,
    {
        ContaminentFinder { contaminants }
    }

    /// The best hit of `sequences` over the whole library: the longest,
    /// then the one of highest identity, the first among equals.
    pub fn find_contaminants_hit(&mut self, sequences: String) -> (r: Option<ContaminantHit>)
        requires
            old(self).wf(),
        ensures
            final(self).library() == old(self).library(),
            library_hit_is(
                r,
                old(self).library(),
                library_match(
                    old(self).library(),
                    query_bytes(sequences@),
                    old(self).library().len() as int,
                ),
            ),
    {
        if self.contaminants.len() == 0 {
            self.make_contaminants_list();
        }
        let ghost cs = self.library();
        let ghost q = query_bytes(sequences@);
        let mut best: Option<ContaminantHit> = None;
        let mut c: usize = 0;
        while c < self.contaminants.len()
            invariant
                self.wf(),
                cs == self.library(),
                q == query_bytes(sequences@),
                c <= cs.len(),
                library_hit_is(best, cs, library_match(cs, q, c as int)),
            decreases cs.len() - c,
        {
            let this_hit = self.contaminants[c].find_match(&sequences);
            match this_hit {
                None => {},
                Some(h) => {
                    let better = match &best {
                        None => true,
                        Some(b) => h.length > b.length || (h.length == b.length && h.percent_id
                            > b.percent_id),
                    };
                    if better {
                        best = Some(h);
                    }
                },
            }
            c = c + 1;
        }
        best
    }

    /// Fills an empty library; the library ships no entries of its own, so
    /// it stays as it is.
    pub fn make_contaminants_list(&mut self)
        ensures
            final(self).library() == old(self).library(),
    {
    }
}

} // verus!
