//! The local pieces of a cellular automaton: cell states, neighborhood
//! geometries, count comparisons, and the conditional transition rule built
//! from them.

use crate::rng::gen_range_u32;
use rand::rngs::SmallRng;
use vstd::prelude::*;

verus! {

/// A cell's discrete condition: an opaque tag, kept below the owning
/// model's `state_count`.
#[derive(Copy, Clone, PartialEq, Eq, Structural, Debug)]
pub struct State(pub u32);

/// Which cells count as adjacent to a given cell.
///
/// `ManhattanDistance(r)` spans the half-open square window `-r..r` in both
/// axes (the cell itself included), matching its `max_count` of `(2r)^2 - 1`.
#[derive(Copy, Clone, PartialEq, Eq, Structural, Debug)]
pub enum Neighborhood {
    VonNeumann,
    Conway,
    ManhattanDistance(u32),
}

/// Predicate applied to a neighbor tally and a target threshold.
#[derive(Copy, Clone, PartialEq, Eq, Structural, Debug)]
pub enum Comparison {
    Equal,
    GreaterThan,
    GreaterThanOrEqual,
    LessThan,
    LessThanOrEqual,
    AbsDiff(u32),
}

impl Comparison {
    /// What `cmp` returns, as a mathematical predicate.
    pub open spec fn cmp_spec(self, observed: int, target: int) -> bool {
        match self {
            Comparison::Equal => observed == target,
            Comparison::GreaterThan => observed > target,
            Comparison::GreaterThanOrEqual => observed >= target,
            Comparison::LessThan => observed < target,
            Comparison::LessThanOrEqual => observed <= target,
            Comparison::AbsDiff(d) => (if observed >= target {
                observed - target
            } else {
                target - observed
            }) == d,
        }
    }

    /// Does the observed neighbor count stand in this relation to the target?
    pub fn cmp(&self, observed: u32, target: u32) -> (r: bool)
        ensures
            r == self.cmp_spec(observed as int, target as int),
    {
        match self {
            Comparison::Equal => observed == target,
            Comparison::GreaterThan => observed > target,
            Comparison::GreaterThanOrEqual => observed >= target,
            Comparison::LessThan => observed < target,
            Comparison::LessThanOrEqual => observed <= target,
            Comparison::AbsDiff(d) => {
                let diff: u32 = if observed >= target {
                    observed - target
                } else {
                    target - observed
                };
                diff == *d
            },
        }
    }
}

/// Is `(x, y)` a coordinate inside a `w` by `h` grid?
pub open spec fn in_grid(x: int, y: int, w: int, h: int) -> bool {
    0 <= x < w && 0 <= y < h
}

impl Neighborhood {
    /// Radii stay in a range where `(2r)^2 - 1` and all window coordinates
    /// fit comfortably in the integer types used.
    pub open spec fn wf(self) -> bool {
        match self {
            Neighborhood::ManhattanDistance(r) => 1 <= r <= 0x7fff,
            _ => true,
        }
    }

    /// What `max_count` returns: the largest possible neighbor tally for
    /// this geometry.
    pub open spec fn max_count_spec(self) -> int {
        match self {
            Neighborhood::VonNeumann => 4,
            Neighborhood::Conway => 8,
            Neighborhood::ManhattanDistance(r) => (2 * r) * (2 * r) - 1,
        }
    }

    /// Upper bound on how many neighbors this geometry can yield; used to
    /// range-bound rule targets and `AbsDiff` distances.
    pub fn max_count(&self) -> (r: u32)
        requires
            self.wf(),
        ensures
            r == self.max_count_spec(),
    {
        match self {
            Neighborhood::VonNeumann => 4,
            Neighborhood::Conway => 8,
            Neighborhood::ManhattanDistance(r) => {
                let d: u32 = 2 * r;
                assert(4 <= d as int * d as int <= 65534 * 65534) by (nonlinear_arith)
                    requires
                        2 <= d <= 65534,
                ;
                d * d - 1
            },
        }
    }

    /// How many offsets this geometry scans (before dropping the ones that
    /// fall off the grid).
    pub open spec fn offset_count(self) -> int {
        match self {
            Neighborhood::VonNeumann => 4,
            Neighborhood::Conway => 8,
            Neighborhood::ManhattanDistance(r) => (2 * r) * (2 * r),
        }
    }

    /// The `k`-th scanned offset, in the fixed scan order.
    ///
    /// The Manhattan window walks `dx` in `-r..r` (outer) and `dy` in `-r..r`
    /// (inner); it is half open on the high side and includes `(0, 0)`.
    pub open spec fn offset_at(self, k: int) -> (int, int) {
        match self {
            Neighborhood::VonNeumann => seq![(1int, 0int), (0int, 1int), (-1int, 0int), (0int, -1int)][k],
            Neighborhood::Conway => seq![
                (1int, 0int),
                (1int, 1int),
                (1int, -1int),
                (0int, 1int),
                (-1int, 0int),
                (-1int, 1int),
                (-1int, -1int),
                (0int, -1int),
            ][k],
            Neighborhood::ManhattanDistance(r) => (k / (2 * r) - r, k % (2 * r) - r),
        }
    }

    /// The in-grid neighbor indices produced by the first `k` offsets of the
    /// scan around cell `i`, in scan order.
    pub open spec fn nb_prefix(self, i: int, w: int, h: int, k: int) -> Seq<int>
        decreases k,
    {
        if k <= 0 {
            Seq::empty()
        } else {
            let o = self.offset_at(k - 1);
            let x = i % w + o.0;
            let y = i / w + o.1;
            self.nb_prefix(i, w, h, k - 1) + if in_grid(x, y, w, h) {
                seq![x + y * w]
            } else {
                Seq::empty()
            }
        }
    }

    /// All in-grid neighbor indices of cell `i`, in scan order.
    pub open spec fn neighbors_spec(self, i: int, w: int, h: int) -> Seq<int> {
        self.nb_prefix(i, w, h, self.offset_count())
    }

    /// Every index among the first `k` scanned neighbors is a valid cell of
    /// the grid, and there are at most `k` of them.
    pub proof fn lemma_nb_prefix_bounds(self, i: int, w: int, h: int, k: int)
        requires
            1 <= w,
            1 <= h,
            0 <= i < w * h,
            0 <= k,
        ensures
            self.nb_prefix(i, w, h, k).len() <= k,
            forall|m: int|
                0 <= m < self.nb_prefix(i, w, h, k).len() ==> 0 <= #[trigger] self.nb_prefix(
                    i,
                    w,
                    h,
                    k,
                )[m] < w * h,
        decreases k,
    {
        if k > 0 {
            self.lemma_nb_prefix_bounds(i, w, h, k - 1);
            let o = self.offset_at(k - 1);
            let x = i % w + o.0;
            let y = i / w + o.1;
            if in_grid(x, y, w, h) {
                assert(0 <= x + y * w < w * h) by (nonlinear_arith)
                    requires
                        0 <= x < w,
                        0 <= y < h,
                ;
            }
        }
    }

    /// Exec mirror of `offset_at`.
    fn offset_of(&self, k: u32) -> (o: (i64, i64))
        requires
            self.wf(),
            k < self.offset_count(),
        ensures
            o.0 == self.offset_at(k as int).0,
            o.1 == self.offset_at(k as int).1,
    {
        match self {
            Neighborhood::VonNeumann => {
                if k == 0 {
                    (1, 0)
                } else if k == 1 {
                    (0, 1)
                } else if k == 2 {
                    (-1, 0)
                } else {
                    (0, -1)
                }
            },
            Neighborhood::Conway => {
                if k == 0 {
                    (1, 0)
                } else if k == 1 {
                    (1, 1)
                } else if k == 2 {
                    (1, -1)
                } else if k == 3 {
                    (0, 1)
                } else if k == 4 {
                    (-1, 0)
                } else if k == 5 {
                    (-1, 1)
                } else if k == 6 {
                    (-1, -1)
                } else {
                    (0, -1)
                }
            },
            Neighborhood::ManhattanDistance(r) => {
                let d: u32 = 2 * r;
                ((k / d) as i64 - *r as i64, (k % d) as i64 - *r as i64)
            },
        }
    }

    /// The indices of the cells adjacent to cell `i` in a `size.0` by
    /// `size.1` grid, in scan order. Offsets that fall outside the rectangle
    /// are dropped, never wrapped.
    pub fn neighbors(&self, i: u32, size: (u32, u32)) -> (r: Vec<u32>)
        requires
            self.wf(),
            1 <= size.0,
            1 <= size.1,
            size.0 * size.1 <= u32::MAX,
            i < size.0 * size.1,
        ensures
            r@.len() == self.neighbors_spec(i as int, size.0 as int, size.1 as int).len(),
            forall|m: int|
                0 <= m < r@.len() ==> r@[m] == self.neighbors_spec(
                    i as int,
                    size.0 as int,
                    size.1 as int,
                )[m],
            forall|m: int| 0 <= m < r@.len() ==> #[trigger] r@[m] < size.0 * size.1,
            r@.len() <= self.offset_count(),
    {
        let w = size.0;
        let h = size.1;
        let ghost wi = w as int;
        let ghost hi = h as int;
        let count: u32 = match self {
            Neighborhood::VonNeumann => 4,
            Neighborhood::Conway => 8,
            Neighborhood::ManhattanDistance(r) => {
                let d: u32 = 2 * r;
                assert(4 <= d as int * d as int <= 65534 * 65534) by (nonlinear_arith)
                    requires
                        2 <= d <= 65534,
                ;
                d * d
            },
        };
        let x0 = i % w;
        let y0 = i / w;
        proof {
            assert(y0 < h) by (nonlinear_arith)
                requires
                    i < w * h,
                    1 <= w,
                    y0 == i as int / w as int,
            ;
        }
        let mut result: Vec<u32> = Vec::new();
        let mut k: u32 = 0;
        while k < count
            invariant
                self.wf(),
                wi == w as int,
                hi == h as int,
                1 <= w,
                1 <= h,
                i < w * h,
                w * h <= u32::MAX,
                x0 == i % w,
                y0 == i / w,
                y0 < h,
                count == self.offset_count(),
                k <= count,
                result@.len() == self.nb_prefix(i as int, wi, hi, k as int).len(),
                forall|m: int|
                    0 <= m < result@.len() ==> result@[m] == self.nb_prefix(
                        i as int,
                        wi,
                        hi,
                        k as int,
                    )[m],
            decreases count - k,
        {
            let o = self.offset_of(k);
            let x: i64 = x0 as i64 + o.0;
            let y: i64 = y0 as i64 + o.1;
            if 0 <= x && x < w as i64 && 0 <= y && y < h as i64 {
                proof {
                    assert(0 <= x + y * wi < wi * hi) by (nonlinear_arith)
                        requires
                            0 <= x < wi,
                            0 <= y < hi,
                    ;
                }
                result.push((x + y * (w as i64)) as u32);
            }
            k = k + 1;
        }
        proof {
            self.lemma_nb_prefix_bounds(i as int, wi, hi, count as int);
        }
        result
    }

    /// The scan never visits more offsets than the largest radius allows.
    pub proof fn lemma_offset_count_bound(self)
        requires
            self.wf(),
        ensures
            self.offset_count() <= 65534 * 65534,
    {
        match self {
            Neighborhood::ManhattanDistance(r) => {
                assert((2 * r as int) * (2 * r as int) <= 65534 * 65534) by (nonlinear_arith)
                    requires
                        1 <= r <= 0x7fff,
                ;
            },
            _ => {},
        }
    }
}

impl Neighborhood {
    /// Every well-formed geometry can tally at least three neighbors, so
    /// random targets and distances always have a non-empty range to draw
    /// from.
    pub proof fn lemma_max_count_at_least_3(self)
        requires
            self.wf(),
        ensures
            self.max_count_spec() >= 3,
    {
        match self {
            Neighborhood::ManhattanDistance(r) => {
                assert((2 * r as int) * (2 * r as int) >= 4) by (nonlinear_arith)
                    requires
                        r >= 1,
                ;
            },
            _ => {},
        }
    }

    /// Draw a fresh geometry: a Manhattan window with radius in `[1, 4)`.
    pub fn new_random(rng: &mut SmallRng) -> (r: Self)
        ensures
            r matches Neighborhood::ManhattanDistance(d) && 1 <= d < 4,
            r.wf(),
    {
        let distance = gen_range_u32(rng, 1, 4);
        Neighborhood::ManhattanDistance(distance)
    }

    /// Replace this geometry with a freshly drawn one.
    pub fn mutate(&mut self, rng: &mut SmallRng)
        ensures
            *final(self) matches Neighborhood::ManhattanDistance(d) && 1 <= d < 4,
            final(self).wf(),
    {
        *self = Neighborhood::new_random(rng);
    }
}

impl Comparison {
    /// An `AbsDiff` distance stays inside `[1, max_count)`; the other
    /// variants carry nothing to bound.
    pub open spec fn wf(self, max_count: int) -> bool {
        match self {
            Comparison::AbsDiff(d) => 1 <= d < max_count,
            _ => true,
        }
    }

    /// Draw a comparison uniformly among the six variants, with a fresh
    /// `AbsDiff` distance in `[1, max_count)`.
    pub fn new_random(max_count: u32, rng: &mut SmallRng) -> (r: Self)
        requires
            max_count >= 2,
        ensures
            r.wf(max_count as int),
    {
        let d = gen_range_u32(rng, 1, max_count);
        let v = gen_range_u32(rng, 0, 6);
        if v == 0 {
            Comparison::Equal
        } else if v == 1 {
            Comparison::GreaterThan
        } else if v == 2 {
            Comparison::GreaterThanOrEqual
        } else if v == 3 {
            Comparison::LessThan
        } else if v == 4 {
            Comparison::LessThanOrEqual
        } else {
            Comparison::AbsDiff(d)
        }
    }

    /// Replace this comparison with a freshly drawn one.
    pub fn mutate(&mut self, max_count: u32, rng: &mut SmallRng)
        requires
            max_count >= 2,
        ensures
            final(self).wf(max_count as int),
    {
        *self = Comparison::new_random(max_count, rng);
    }
}

/// How many of the cells listed in `nbs` hold state `s` in `world`.
pub open spec fn count_matching(world: Seq<State>, nbs: Seq<int>, s: State) -> int
    decreases nbs.len(),
{
    if nbs.len() == 0 {
        0
    } else {
        count_matching(world, nbs.drop_last(), s) + if world[nbs.last()] == s {
            1int
        } else {
            0int
        }
    }
}

/// One conditional local transition: if a cell holds `current` and the tally
/// of its neighbors holding `state_of_interest` stands in `comparison` to
/// `target`, the cell moves to `result`.
///
/// Rules are scanned in list order and the first that fires wins.
#[derive(Copy, Clone, PartialEq, Eq, Structural, Debug)]
pub struct Rule {
    pub neighborhood: Neighborhood,
    pub current: State,
    pub state_of_interest: State,
    pub target: u32,
    pub comparison: Comparison,
    pub result: State,
}

impl Rule {
    /// Every state the rule mentions lies below `state_count`, and its
    /// geometry is well formed.
    pub open spec fn wf(self, state_count: int) -> bool {
        &&& self.current.0 < state_count
        &&& self.state_of_interest.0 < state_count
        &&& self.result.0 < state_count
        &&& self.neighborhood.wf()
    }

    /// What `apply` returns: `None` when the cell's state is not `current`
    /// or the neighbor tally fails the comparison, else the new state.
    pub open spec fn apply_spec(self, i: int, w: int, h: int, world: Seq<State>) -> Option<State> {
        if world[i] != self.current {
            None
        } else if self.comparison.cmp_spec(
            count_matching(world, self.neighborhood.neighbors_spec(i, w, h), self.state_of_interest),
            self.target as int,
        ) {
            Some(self.result)
        } else {
            None
        }
    }

    /// Try this rule on cell `i` of the snapshot `world`. Reads only; a step
    /// applies all rules against the same pre-step snapshot.
    pub fn apply(&self, i: u32, size: (u32, u32), world: &Vec<State>) -> (r: Option<State>)
        requires
            self.neighborhood.wf(),
            1 <= size.0,
            1 <= size.1,
            size.0 * size.1 <= u32::MAX,
            i < size.0 * size.1,
            world@.len() == size.0 * size.1,
        ensures
            r == self.apply_spec(i as int, size.0 as int, size.1 as int, world@),
    {
        if world[i as usize] != self.current {
            return None;
        }
        let nbs = self.neighborhood.neighbors(i, size);
        let ghost snbs = self.neighborhood.neighbors_spec(i as int, size.0 as int, size.1 as int);
        proof {
            self.neighborhood.lemma_offset_count_bound();
        }
        let mut count: u32 = 0;
        let mut j: usize = 0;
        while j < nbs.len()
            invariant
                snbs == self.neighborhood.neighbors_spec(i as int, size.0 as int, size.1 as int),
                nbs@.len() == snbs.len(),
                forall|m: int| 0 <= m < nbs@.len() ==> nbs@[m] == snbs[m],
                forall|m: int| 0 <= m < nbs@.len() ==> #[trigger] nbs@[m] < size.0 * size.1,
                nbs@.len() <= 65534 * 65534,
                world@.len() == size.0 * size.1,
                j <= nbs@.len(),
                count <= j,
                count == count_matching(world@, snbs.take(j as int), self.state_of_interest),
            decreases nbs@.len() - j,
        {
            let idx = nbs[j];
            proof {
                assert(snbs.take(j as int + 1).drop_last() =~= snbs.take(j as int));
                assert(snbs.take(j as int + 1).last() == snbs[j as int]);
            }
            if world[idx as usize] == self.state_of_interest {
                count = count + 1;
            }
            j = j + 1;
        }
        proof {
            assert(snbs.take(snbs.len() as int) =~= snbs);
        }
        if self.comparison.cmp(count, self.target) {
            Some(self.result)
        } else {
            None
        }
    }

    /// Draw a whole rule afresh: random geometry, random states below
    /// `state_count`, a target below the geometry's largest tally, and a
    /// random comparison.
    pub fn new_random(state_count: u32, rng: &mut SmallRng) -> (r: Self)
        requires
            state_count >= 1,
        ensures
            r.wf(state_count as int),
            r.target < r.neighborhood.max_count_spec(),
            r.comparison.wf(r.neighborhood.max_count_spec()),
    {
        let neighborhood = Neighborhood::new_random(rng);
        proof {
            neighborhood.lemma_max_count_at_least_3();
        }
        let max_count = neighborhood.max_count();
        Rule {
            neighborhood,
            current: State(gen_range_u32(rng, 0, state_count)),
            state_of_interest: State(gen_range_u32(rng, 0, state_count)),
            target: gen_range_u32(rng, 0, max_count),
            comparison: Comparison::new_random(max_count, rng),
            result: State(gen_range_u32(rng, 0, state_count)),
        }
    }

    /// Replace this rule wholesale with a freshly drawn one. This is the
    /// default mutation; `perturb` is the alternative that changes a single
    /// field.
    pub fn mutate(&mut self, state_count: u32, rng: &mut SmallRng)
        requires
            state_count >= 1,
        ensures
            final(self).wf(state_count as int),
            final(self).target < final(self).neighborhood.max_count_spec(),
            final(self).comparison.wf(final(self).neighborhood.max_count_spec()),
    {
        *self = Rule::new_random(state_count, rng);
    }

    /// How a single perturbation may relate the old rule `a` to the new one
    /// `b`: exactly one field redrawn (the target only nudged by one and
    /// clamped to `[0, max_count]`), or nothing changed at all.
    pub open spec fn perturb_rel(a: Rule, b: Rule, state_count: int) -> bool {
        let mc = a.neighborhood.max_count_spec();
        ||| (b == Rule { neighborhood: b.neighborhood, ..a } && (b.neighborhood matches Neighborhood::ManhattanDistance(d) && 1 <= d < 4))
        ||| (b == Rule { current: b.current, ..a } && b.current.0 < state_count)
        ||| (b == Rule { state_of_interest: b.state_of_interest, ..a } && b.state_of_interest.0 < state_count)
        ||| (b == Rule { comparison: b.comparison, ..a } && b.comparison.wf(mc))
        ||| (b == Rule { target: b.target, ..a } && (b.target == clamp_int(a.target - 1, 0, mc)
            || b.target == clamp_int(a.target as int, 0, mc)))
        ||| (b == Rule { result: b.result, ..a } && b.result.0 < state_count)
        ||| b == a
    }

    /// Perturb one weighted-random field of the rule: the geometry with
    /// weight 1%, the matched state 9%, the counted state 10%, the
    /// comparison 10%, the target (nudged by at most one and clamped) 20%,
    /// the resulting state 20%; the remaining draws leave the rule as it is.
    pub fn perturb(&mut self, state_count: u32, rng: &mut SmallRng)
        requires
            state_count >= 1,
            old(self).wf(state_count as int),
        ensures
            final(self).wf(state_count as int),
            Rule::perturb_rel(*old(self), *final(self), state_count as int),
    {
        let v = gen_range_u32(rng, 0, 100);
        if v < 1 {
            self.neighborhood = Neighborhood::new_random(rng);
        } else if v < 10 {
            self.current = State(gen_range_u32(rng, 0, state_count));
        } else if v < 20 {
            self.state_of_interest = State(gen_range_u32(rng, 0, state_count));
        } else if v < 30 {
            proof {
                self.neighborhood.lemma_max_count_at_least_3();
            }
            let max_count = self.neighborhood.max_count();
            self.comparison = Comparison::new_random(max_count, rng);
        } else if v < 50 {
            proof {
                self.neighborhood.lemma_max_count_at_least_3();
            }
            let max_count = self.neighborhood.max_count();
            let nudge = gen_range_u32(rng, 0, 2);
            let t: i64 = self.target as i64 + (nudge as i64 - 1);
            let clamped: u32 = if t < 0 {
                0
            } else if t > max_count as i64 {
                max_count
            } else {
                t as u32
            };
            self.target = clamped;
        } else if v < 70 {
            self.result = State(gen_range_u32(rng, 0, state_count));
        }
    }
}

/// `x` forced into `[lo, hi]`.
pub open spec fn clamp_int(x: int, lo: int, hi: int) -> int {
    if x < lo {
        lo
    } else if x > hi {
        hi
    } else {
        x
    }
}

} // verus!
