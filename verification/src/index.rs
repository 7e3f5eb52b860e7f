//! The two spatial-index implementations: exhaustive scan and uniform grid.

use vstd::arithmetic::power2::lemma2_to64;
use vstd::arithmetic::power2::lemma_pow2_adds;
use vstd::arithmetic::power2::lemma_pow2_pos;
use vstd::arithmetic::power2::lemma_pow2_strictly_increases;
use vstd::arithmetic::power2::lemma_pow2_unfold;
use vstd::arithmetic::power2::pow2;
use vstd::pervasive::VecAdditionalExecFns;
use vstd::prelude::*;

use crate::traits::Index;

verus! {

/// The trivial index: every indexed point is a candidate for every query.
/// It carries only the point count and is otherwise stateless.
#[derive(Clone, Debug)]
pub struct FullSearch {
    len: usize,
}

impl FullSearch {
    /// The number of points the scan covers.
    pub closed spec fn count(&self) -> nat {
        self.len as nat
    }

    /// The number of points the scan covers, as a machine word.
    pub fn len(&self) -> (r: usize)
        ensures
            r == self.count(),
    {
        self.len
    }

    /// Build an exhaustive index over `data`; only the length is retained.
    pub fn new<T>(data: &[T]) -> (r: Self)
        ensures
            r.count() == data@.len(),
    {
        let len = data.len();
        Self { len }
    }
}

impl<T> Index<T> for FullSearch {
    open spec fn spec_len(&self) -> nat {
        self.count()
    }

    open spec fn inv(&self) -> bool {
        true
    }

    open spec fn valid_config() -> bool {
        true
    }

    open spec fn models(&self, samples: Seq<T>) -> bool {
        samples.len() == self.count()
    }

    open spec fn candidates(&self, q: T) -> Set<int> {
        Set::new(|p: int| 0 <= p < self.count())
    }

    open spec fn same_region(a: T, b: T) -> bool {
        true
    }

    fn construct(samples: &[T]) -> (r: Self) {
        FullSearch::new(samples)
    }

    fn refresh(&mut self, samples: &[T]) {
    }

    fn neighbors(&self, center: &T) -> (r: Vec<usize>) {
        let mut r: Vec<usize> = Vec::new();
        let mut i: usize = 0;
        while i < self.len
            invariant
                i <= self.len,
                r@.len() == i as int,
                forall|j: int| 0 <= j < i ==> #[trigger] r@[j] == j,
            decreases self.len - i,
        {
            r.push(i);
            i = i + 1;
        }
        proof {
            assert forall|u: usize| #[trigger] r@.contains(u) implies self.candidates(*center).contains(
                u as int,
            ) by {
                let j = choose|j: int| 0 <= j < r@.len() && r@[j] == u;
                assert(r@[j] == j);
            }
            assert forall|u: usize| self.candidates(*center).contains(u as int) implies r@.contains(
                u,
            ) by {
                assert(r@[u as int] == u);
            }
        }
        r
    }

    proof fn lemma_no_false_negatives(&self, samples: Seq<T>, p: int, q: T) {
    }
}

/// Per-axis bin indices of a point on a uniform grid, as the floating-point
/// shell computes them: `floor((coordinate - origin) / cell_size)` on each
/// axis, saturated into `i64`. Bins may be negative or lie past the grid edge
/// (a boundary point nudged over by rounding, or a query outside the original
/// bounding box); the grid clamps them into range rather than rejecting them.
#[derive(Clone, Copy, PartialEq, Eq, Structural, Debug)]
pub struct Bins {
    pub x: i64,
    pub y: i64,
    pub z: i64,
}

/// `v` forced into the valid bin range `0 .. side`.
pub open spec fn clamped(v: int, side: int) -> int {
    if v < 0 {
        0
    } else if v >= side {
        side - 1
    } else {
        v
    }
}

/// The packed cell id of bins `b` on a grid with `side` cells per axis:
/// each axis bin is clamped into `0 .. side` and the three are combined as
/// digits of a base-`side` number (the bit-packed form, for `side` a power
/// of two).
pub open spec fn cell_id(b: Bins, side: int) -> int {
    clamped(b.x as int, side) + side * clamped(b.y as int, side) + side * side * clamped(
        b.z as int,
        side,
    )
}

/// A packed cell id always addresses one of the `side^3` cells.
pub proof fn lemma_cell_id_bounds(b: Bins, side: int)
    requires
        side >= 1,
    ensures
        0 <= cell_id(b, side) < side * side * side,
{
    let cx = clamped(b.x as int, side);
    let cy = clamped(b.y as int, side);
    let cz = clamped(b.z as int, side);
    assert(0 <= cx + side * cy + side * side * cz < side * side * side) by (nonlinear_arith)
        requires
            0 <= cx < side,
            0 <= cy < side,
            0 <= cz < side,
    ;
}

/// Clamp one axis bin into `0 .. side`.
fn bin_clamp(v: i64, side: usize) -> (r: usize)
    requires
        1 <= side <= 0x10_0000,
    ensures
        r as int == clamped(v as int, side as int),
{
    if v < 0 {
        0
    } else if v >= side as i64 {
        side - 1
    } else {
        v as usize
    }
}

/// Clamp and pack all three axis bins into a cell id.
fn pack_cell(b: Bins, side: usize) -> (r: usize)
    requires
        1 <= side <= 0x10_0000,
        side * side * side <= usize::MAX,
    ensures
        r as int == cell_id(b, side as int),
{
    let cx = bin_clamp(b.x, side);
    let cy = bin_clamp(b.y, side);
    let cz = bin_clamp(b.z, side);
    proof {
        assert(side * cy <= side * side * side && side * side <= side * side * side && side * side
            * cz <= side * side * side && cx + side * cy + side * side * cz < side * side
            * side) by (nonlinear_arith)
            requires
                0 <= cx < side,
                0 <= cy < side,
                0 <= cz < side,
        ;
    }
    cx + side * cy + side * side * cz
}

/// A point's current location inside the grid: the cell whose bucket holds it
/// and the 0-based slot it occupies in that bucket.
#[derive(Clone, Copy, Debug)]
struct Loc {
    cell: usize,
    slot: usize,
}

/// Point `p` is recorded where its back-pointer says: its location names a
/// real bucket slot, and that slot holds `p`.
spec fn loc_ok(buckets: Seq<Vec<usize>>, locs: Seq<Loc>, p: int) -> bool {
    let l = locs[p];
    &&& (l.cell as int) < buckets.len()
    &&& (l.slot as int) < buckets[l.cell as int]@.len()
    &&& buckets[l.cell as int]@[l.slot as int] as int == p
}

/// Bucket slot `(c, s)` holds an attached point whose back-pointer names
/// exactly this slot. "Attached" means the point index lies in `0 .. hi`
/// and differs from `skip`.
spec fn entry_ok(buckets: Seq<Vec<usize>>, locs: Seq<Loc>, hi: int, skip: int, c: int, s: int) -> bool {
    let p = buckets[c]@[s] as int;
    &&& 0 <= p < hi
    &&& p != skip
    &&& p < locs.len()
    &&& locs[p].cell as int == c
    &&& locs[p].slot as int == s
}

/// The buckets and back-pointers agree on every attached point: each attached
/// point sits in exactly the slot its back-pointer names, and every occupied
/// slot belongs to an attached point. Intermediate states of construction
/// (points `hi..` not yet inserted) and of refresh (point `skip` momentarily
/// pulled out) are partial in exactly this sense.
spec fn grid_partial(buckets: Seq<Vec<usize>>, locs: Seq<Loc>, hi: int, skip: int) -> bool {
    &&& hi <= locs.len()
    &&& forall|p: int| 0 <= p < hi && p != skip ==> #[trigger] loc_ok(buckets, locs, p)
    &&& forall|c: int, s: int|
        0 <= c < buckets.len() && 0 <= s < buckets[c]@.len() ==> #[trigger] entry_ok(
            buckets,
            locs,
            hi,
            skip,
            c,
            s,
        )
}

/// The fully consistent state: every point is attached.
spec fn grid_consistent(buckets: Seq<Vec<usize>>, locs: Seq<Loc>) -> bool {
    grid_partial(buckets, locs, locs.len() as int, locs.len() as int)
}

/// A uniform grid over 3-dimensional space with `NBIT` bits of resolution per
/// axis: `2^(3·NBIT)` cube cells, each bucketing the indices of the points
/// that fall in it, plus a per-point back-pointer enabling O(1) relocation
/// when the points move ([`Index::refresh`]).
#[derive(Clone, Debug)]
pub struct GridIndex<const NBIT: usize> {
    buckets: Vec<Vec<usize>>,
    locs: Vec<Loc>,
}

impl<const NBIT: usize> GridIndex<NBIT> {
    /// Cells per axis.
    pub open spec fn side() -> int {
        pow2(NBIT as nat) as int
    }

    /// Total number of cells.
    pub open spec fn spec_num_cells() -> int {
        Self::side() * Self::side() * Self::side()
    }

    /// The resolution is small enough that every cell id fits in a machine
    /// word (and the bucket table can be allocated at all).
    pub open spec fn fits() -> bool {
        NBIT <= 20 && pow2((3 * NBIT) as nat) <= usize::MAX as nat
    }

    /// How many points the grid currently covers.
    pub closed spec fn count(&self) -> nat {
        self.locs@.len()
    }

    /// Structural well-formedness: the bucket table has one bucket per cell,
    /// and buckets and back-pointers agree on every point.
    pub closed spec fn wf(&self) -> bool {
        &&& Self::fits()
        &&& self.buckets@.len() == Self::spec_num_cells()
        &&& grid_consistent(self.buckets@, self.locs@)
    }

    /// The cell the grid currently records for point `p`.
    pub closed spec fn cell_of_point(&self, p: int) -> int {
        self.locs@[p].cell as int
    }

    /// The grid records each point of `bins` under its cell id.
    pub closed spec fn describes(&self, bins: Seq<Bins>) -> bool {
        &&& bins.len() == self.count()
        &&& forall|p: int|
            0 <= p < bins.len() ==> #[trigger] self.cell_of_point(p) == cell_id(
                bins[p],
                Self::side(),
            )
    }

    /// The points recorded in the same cell as a query at `q`.
    pub closed spec fn bucket_of(&self, q: Bins) -> Set<int> {
        Set::new(
            |p: int| 0 <= p < self.count() && self.cell_of_point(p) == cell_id(q, Self::side()),
        )
    }

    /// `side^3 == 2^(3·NBIT)`, and a side is at least one cell.
    proof fn lemma_num_cells()
        ensures
            Self::side() >= 1,
            Self::spec_num_cells() == pow2((3 * NBIT) as nat),
    {
        lemma_pow2_pos(NBIT as nat);
        lemma_pow2_adds(NBIT as nat, NBIT as nat);
        lemma_pow2_adds((2 * NBIT) as nat, NBIT as nat);
    }

    /// Compute `2^NBIT`.
    fn side_len() -> (r: usize)
        requires
            NBIT <= 20,
        ensures
            r as int == Self::side(),
            1 <= r <= 0x10_0000,
    {
        let mut side: usize = 1;
        let mut i: usize = 0;
        proof {
            lemma2_to64();
        }
        while i < NBIT
            invariant
                i <= NBIT,
                NBIT <= 20,
                side as int == pow2(i as nat),
                side <= 0x10_0000,
            decreases NBIT - i,
        {
            proof {
                lemma_pow2_unfold((i + 1) as nat);
                lemma_pow2_strictly_increases((i + 1) as nat, 21);
                lemma2_to64();
            }
            side = side * 2;
            i = i + 1;
        }
        proof {
            lemma_pow2_pos(NBIT as nat);
        }
        side
    }

    /// Put point `k` into the bucket of cell `c` and point its back-pointer at
    /// the new slot. `hi` is the ghost high-water mark of attached points.
    fn attach(&mut self, k: usize, c: usize, Ghost(hi): Ghost<int>)
        requires
            k < old(self).locs@.len(),
            c < old(self).buckets@.len(),
            k as int <= hi <= old(self).locs@.len(),
            grid_partial(old(self).buckets@, old(self).locs@, hi, k as int),
        ensures
            final(self).buckets@.len() == old(self).buckets@.len(),
            final(self).locs@.len() == old(self).locs@.len(),
            (k as int) < hi ==> grid_partial(final(self).buckets@, final(self).locs@, hi, hi),
            (k as int) >= hi ==> grid_partial(
                final(self).buckets@,
                final(self).locs@,
                k as int + 1,
                k as int + 1,
            ),
            final(self).locs@[k as int].cell == c,
            forall|p: int|
                0 <= p < old(self).locs@.len() && p != k ==> final(self).locs@[p] == old(
                    self,
                ).locs@[p],
    {
        let ghost b0 = self.buckets@;
        let ghost l0 = self.locs@;
        let ghost hi2: int = if (k as int) < hi {
            hi
        } else {
            k as int + 1
        };
        let slot = self.buckets[c].len();
        self.buckets[c].push(k);
        self.locs.set(k, Loc { cell: c, slot });
        proof {
            let b1 = self.buckets@;
            let l1 = self.locs@;
            assert forall|p: int| 0 <= p < hi2 && p != hi2 implies #[trigger] loc_ok(
                b1,
                l1,
                p,
            ) by {
                if p == k as int {
                    assert(b1[c as int]@[slot as int] == k);
                } else {
                    assert(loc_ok(b0, l0, p));
                    assert(loc_ok(b1, l1, p));
                }
            }
            assert forall|c2: int, s: int|
                0 <= c2 < b1.len() && 0 <= s < b1[c2]@.len() implies #[trigger] entry_ok(
                b1,
                l1,
                hi2,
                hi2,
                c2,
                s,
            ) by {
                if c2 == c as int && s == slot as int {
                    assert(b1[c2]@[s] == k);
                } else {
                    assert(entry_ok(b0, l0, hi, k as int, c2, s));
                }
            }
        }
    }

    /// Pull point `k` out of its bucket by swap-remove: the bucket's last
    /// element moves into the freed slot and its back-pointer is updated, so
    /// buckets stay compact without shifting.
    fn detach(&mut self, k: usize)
        requires
            k < old(self).locs@.len(),
            grid_consistent(old(self).buckets@, old(self).locs@),
        ensures
            final(self).buckets@.len() == old(self).buckets@.len(),
            final(self).locs@.len() == old(self).locs@.len(),
            grid_partial(
                final(self).buckets@,
                final(self).locs@,
                final(self).locs@.len() as int,
                k as int,
            ),
            forall|p: int|
                0 <= p < old(self).locs@.len() && p != k ==> final(self).locs@[p].cell == old(
                    self,
                ).locs@[p].cell,
    {
        let ghost b0 = self.buckets@;
        let ghost l0 = self.locs@;
        let ghost n = l0.len() as int;
        proof {
            assert(loc_ok(b0, l0, k as int));
        }
        let l = self.locs[k];
        let _moved = self.buckets[l.cell].swap_remove(l.slot);
        let blen = self.buckets[l.cell].len();
        let ghost lastslot = b0[l.cell as int]@.len() - 1;
        proof {
            assert(entry_ok(b0, l0, n, n, l.cell as int, lastslot));
        }
        if l.slot < blen {
            let m = self.buckets[l.cell][l.slot];
            proof {
                assert(m == b0[l.cell as int]@[lastslot]);
            }
            self.locs.set(m, Loc { cell: l.cell, slot: l.slot });
        }
        proof {
            let b1 = self.buckets@;
            let l1 = self.locs@;
            let ghost m: int = b0[l.cell as int]@[lastslot] as int;
            assert forall|p: int| 0 <= p < n && p != k implies #[trigger] loc_ok(b1, l1, p) by {
                assert(loc_ok(b0, l0, p));
                if p == m && (l.slot as int) < lastslot {
                    assert(b1[l.cell as int]@[l.slot as int] as int == m);
                } else {
                    // p kept its old slot; show that slot survived the swap-remove
                    assert(entry_ok(b0, l0, n, n, l0[p].cell as int, l0[p].slot as int));
                    if l0[p].cell == l.cell {
                        assert(l0[p].slot != l.slot) by {
                            assert(entry_ok(b0, l0, n, n, l.cell as int, l.slot as int));
                        }
                        assert((l0[p].slot as int) != lastslot);
                    }
                }
            }
            assert forall|c2: int, s: int|
                0 <= c2 < b1.len() && 0 <= s < b1[c2]@.len() implies #[trigger] entry_ok(
                b1,
                l1,
                n,
                k as int,
                c2,
                s,
            ) by {
                if c2 == l.cell as int && s == l.slot as int && (l.slot as int) < lastslot {
                    assert(b1[c2]@[s] as int == m);
                    assert(entry_ok(b0, l0, n, n, c2, lastslot));
                } else {
                    assert(entry_ok(b0, l0, n, n, c2, s));
                    let p = b0[c2]@[s] as int;
                    assert(p != k as int) by {
                        assert(loc_ok(b0, l0, k as int));
                    }
                    assert(p != m || (c2 == l.cell as int && s == lastslot) || lastslot == l.slot)
                        by {
                        assert(entry_ok(b0, l0, n, n, l.cell as int, lastslot));
                    }
                }
            }
        }
    }

    /// The number of points the grid currently covers, as a machine word.
    pub fn len(&self) -> (r: usize)
        ensures
            r == self.count(),
    {
        self.locs.len()
    }

    /// Build a grid over a snapshot of `data`: allocate one empty bucket per
    /// cell, then attach each point to the bucket of its clamped cell.
    pub fn new(data: &[Bins]) -> (r: Self)
        requires
            Self::fits(),
        ensures
            r.wf(),
            r.count() == data@.len(),
            r.describes(data@),
    {
        let side = Self::side_len();
        proof {
            Self::lemma_num_cells();
            assert(side * side <= side * side * side && side * (side * side) == side * side
                * side) by (nonlinear_arith)
                requires
                    side >= 1,
            ;
        }
        let area = side * side;
        let n_cells = side * area;
        let mut buckets: Vec<Vec<usize>> = Vec::new();
        let mut i: usize = 0;
        while i < n_cells
            invariant
                i <= n_cells,
                buckets@.len() == i as int,
                forall|c: int| 0 <= c < i ==> (#[trigger] buckets@[c])@.len() == 0,
            decreases n_cells - i,
        {
            buckets.push(Vec::new());
            i = i + 1;
        }
        let mut locs: Vec<Loc> = Vec::new();
        let mut j: usize = 0;
        while j < data.len()
            invariant
                j <= data@.len(),
                locs@.len() == j as int,
            decreases data@.len() - j,
        {
            locs.push(Loc { cell: 0, slot: 0 });
            j = j + 1;
        }
        let mut g = GridIndex { buckets, locs };
        let mut k: usize = 0;
        proof {
            assert forall|c: int, s: int|
                0 <= c < g.buckets@.len() && 0 <= s < g.buckets@[c]@.len() implies #[trigger] entry_ok(
                g.buckets@,
                g.locs@,
                0,
                0,
                c,
                s,
            ) by {
                assert(g.buckets@[c]@.len() == 0);
            }
        }
        while k < data.len()
            invariant
                Self::fits(),
                side as int == Self::side(),
                1 <= side <= 0x10_0000,
                g.buckets@.len() == Self::spec_num_cells(),
                g.locs@.len() == data@.len(),
                k <= data@.len(),
                grid_partial(g.buckets@, g.locs@, k as int, k as int),
                forall|p: int|
                    0 <= p < k ==> #[trigger] g.locs@[p].cell as int == cell_id(
                        data@[p],
                        Self::side(),
                    ),
            decreases data@.len() - k,
        {
            let b = data[k];
            proof {
                Self::lemma_num_cells();
            }
            let c = pack_cell(b, side);
            proof {
                lemma_cell_id_bounds(b, side as int);
            }
            g.attach(k, c, Ghost(k as int));
            k = k + 1;
        }
        g
    }
}

impl<const NBIT: usize> Index<Bins> for GridIndex<NBIT> {
    open spec fn spec_len(&self) -> nat {
        self.count()
    }

    open spec fn inv(&self) -> bool {
        self.wf()
    }

    open spec fn valid_config() -> bool {
        Self::fits()
    }

    open spec fn models(&self, samples: Seq<Bins>) -> bool {
        self.describes(samples)
    }

    open spec fn candidates(&self, q: Bins) -> Set<int> {
        self.bucket_of(q)
    }

    open spec fn same_region(a: Bins, b: Bins) -> bool {
        cell_id(a, Self::side()) == cell_id(b, Self::side())
    }

    fn construct(samples: &[Bins]) -> (r: Self) {
        GridIndex::new(samples)
    }

    fn refresh(&mut self, data: &[Bins]) {
        let side = Self::side_len();
        proof {
            Self::lemma_num_cells();
        }
        let mut k: usize = 0;
        while k < data.len()
            invariant
                Self::fits(),
                side as int == Self::side(),
                1 <= side <= 0x10_0000,
                self.buckets@.len() == Self::spec_num_cells(),
                self.locs@.len() == data@.len(),
                k <= data@.len(),
                grid_consistent(self.buckets@, self.locs@),
                forall|p: int|
                    0 <= p < k ==> #[trigger] self.locs@[p].cell as int == cell_id(
                        data@[p],
                        Self::side(),
                    ),
            decreases data@.len() - k,
        {
            self.detach(k);
            let b = data[k];
            proof {
                Self::lemma_num_cells();
            }
            let c = pack_cell(b, side);
            proof {
                lemma_cell_id_bounds(b, side as int);
            }
            self.attach(k, c, Ghost(data@.len() as int));
            k = k + 1;
        }
    }

    fn neighbors(&self, center: &Bins) -> (r: Vec<usize>) {
        let side = Self::side_len();
        proof {
            Self::lemma_num_cells();
        }
        let c = pack_cell(*center, side);
        proof {
            lemma_cell_id_bounds(*center, side as int);
        }
        let bucket = &self.buckets[c];
        let mut r: Vec<usize> = Vec::new();
        let mut i: usize = 0;
        while i < bucket.len()
            invariant
                i <= bucket@.len(),
                r@.len() == i as int,
                forall|j: int| 0 <= j < i ==> #[trigger] r@[j] == bucket@[j],
            decreases bucket@.len() - i,
        {
            r.push(bucket[i]);
            i = i + 1;
        }
        proof {
            let bs = self.buckets@;
            let ls = self.locs@;
            let ci = c as int;
            let n = ls.len() as int;
            assert(r@ =~= bs[ci]@);
            assert forall|i2: int, j2: int|
                0 <= i2 < r@.len() && 0 <= j2 < r@.len() && i2 != j2 implies r@[i2] != r@[j2] by {
                assert(entry_ok(bs, ls, n, n, ci, i2));
                assert(entry_ok(bs, ls, n, n, ci, j2));
            }
            assert forall|i2: int| 0 <= i2 < r@.len() implies (#[trigger] r@[i2]) < self.count() by {
                assert(entry_ok(bs, ls, n, n, ci, i2));
            }
            assert forall|u: usize| #[trigger] r@.contains(u) implies self.bucket_of(
                *center,
            ).contains(u as int) by {
                let j2 = choose|j2: int| 0 <= j2 < r@.len() && r@[j2] == u;
                assert(entry_ok(bs, ls, n, n, ci, j2));
            }
            assert forall|u: usize| self.bucket_of(*center).contains(u as int) implies r@.contains(
                u,
            ) by {
                assert(loc_ok(bs, ls, u as int));
                assert(r@[ls[u as int].slot as int] == u);
            }
        }
        r
    }

    proof fn lemma_no_false_negatives(&self, samples: Seq<Bins>, p: int, q: Bins) {
    }
}

/// Refresh/rebuild equivalence: two well-formed grids that describe the same
/// moved point set — say, one updated in place by [`Index::refresh`] and one
/// rebuilt from scratch by [`Index::construct`] — keep exactly the same points
/// in every cell, so any query sees the same candidate set from either.
pub proof fn lemma_refresh_matches_rebuild<const NBIT: usize>(
    a: GridIndex<NBIT>,
    b: GridIndex<NBIT>,
    bins: Seq<Bins>,
    q: Bins,
)
    requires
        a.wf(),
        b.wf(),
        a.describes(bins),
        b.describes(bins),
    ensures
        a.bucket_of(q) == b.bucket_of(q),
{
    assert(a.bucket_of(q) =~= b.bucket_of(q));
}

/// Degenerate extent: a grid built over coincident points is still valid, and
/// any query landing in the points' common cell sees the entire point set —
/// the grid degenerates to a coarse exhaustive search.
pub proof fn lemma_degenerate_single_cell<const NBIT: usize>(
    g: GridIndex<NBIT>,
    bins: Seq<Bins>,
    q: Bins,
)
    requires
        g.wf(),
        g.describes(bins),
        bins.len() > 0,
        forall|p: int| 0 <= p < bins.len() ==> #[trigger] bins[p] == bins[0],
        cell_id(q, GridIndex::<NBIT>::side()) == cell_id(bins[0], GridIndex::<NBIT>::side()),
    ensures
        g.bucket_of(q) == Set::new(|p: int| 0 <= p < bins.len()),
{
    assert(g.bucket_of(q) =~= Set::new(|p: int| 0 <= p < bins.len()));
}


/// What a well-formed grid answers: a query's candidate set holds exactly the
/// indexed points whose bins fall in the same clamped cell as the query's.
pub proof fn lemma_bucket_membership<const NBIT: usize>(
    g: GridIndex<NBIT>,
    bins: Seq<Bins>,
    q: Bins,
    p: int,
)
    requires
        g.wf(),
        g.describes(bins),
        0 <= p < bins.len(),
    ensures
        g.bucket_of(q).contains(p) <==> cell_id(bins[p], GridIndex::<NBIT>::side()) == cell_id(
            q,
            GridIndex::<NBIT>::side(),
        ),
{
}


/// The operational face of the equivalence: candidate lists are
/// duplicate-free, so two of them with identical membership — such as the
/// [`Index::neighbors`] answers of a refreshed and a rebuilt grid for the
/// same query — are permutations of each other.
pub proof fn lemma_same_members_same_multiset(a: Seq<usize>, b: Seq<usize>)
    requires
        a.no_duplicates(),
        b.no_duplicates(),
        forall|u: usize| a.contains(u) <==> b.contains(u),
    ensures
        a.to_multiset() == b.to_multiset(),
{
    broadcast use vstd::seq_lib::group_to_multiset_ensures;

    a.lemma_multiset_has_no_duplicates();
    b.lemma_multiset_has_no_duplicates();
    assert forall|u: usize| a.to_multiset().count(u) == b.to_multiset().count(u) by {
        if !a.contains(u) {
            assert(a.to_multiset().count(u) == 0);
            assert(b.to_multiset().count(u) == 0);
        }
    }
    assert(a.to_multiset() =~= b.to_multiset());
}

} // verus!
