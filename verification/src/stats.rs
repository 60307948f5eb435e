//! The fitness signals a run is scored by: an average waiting time sampled
//! from the transition history, and a motion-coherence score that tracks
//! same-state cells across recorded frames. Everything here is exact
//! integer arithmetic on sampled positions; turning the two totals into
//! ratios is left to the caller.

use crate::model::ModelView;
use crate::rule::{in_grid, Neighborhood, State};
use vstd::arithmetic::div_mod::lemma_fundamental_div_mod_converse;
use vstd::prelude::*;

verus! {

/// The two fitness totals of a run, with the sample counts they came from.
///
/// The average waiting time is `time_in_state_total / time_in_state_samples`;
/// the motion score is `path_score_total / (16 * path_score_samples)`, the
/// 16 being the fixed walk length.
#[derive(Copy, Clone, PartialEq, Eq, Structural, Debug)]
pub struct Stats {
    /// Sum of the sampled waiting times.
    pub time_in_state_total: u64,
    /// How many waiting times were sampled.
    pub time_in_state_samples: u64,
    /// Sum, over all sampled walks, of the squared accumulated displacement.
    pub path_score_total: u64,
    /// How many (frame, cell) walks were taken.
    pub path_score_samples: u64,
}

/// The pool the waiting-time average samples from: every logged transition
/// time followed by every live timer.
pub open spec fn time_pool(v: ModelView) -> Seq<u32> {
    v.transition_times + v.time_in_state
}

/// The sum of the pool values at the sampled positions.
pub open spec fn sum_at(pool: Seq<u32>, idx: Seq<usize>) -> int
    decreases idx.len(),
{
    if idx.len() == 0 {
        0
    } else {
        sum_at(pool, idx.drop_last()) + pool[idx.last() as int]
    }
}

/// `idx` is a valid sample of positions below `n`: as many as asked for
/// (all of `n` when fewer), each in range, none twice.
pub open spec fn sample_ok(idx: Seq<usize>, n: int, amount: int) -> bool {
    &&& idx.len() == if n < amount {
        n
    } else {
        amount
    }
    &&& forall|m: int| 0 <= m < idx.len() ==> #[trigger] idx[m] < n
    &&& idx.no_duplicates()
}

/// The first cell in the Moore (Conway) neighborhood of `loc`, scanning
/// from position `k` of the fixed scan order, that holds state `s` in the
/// grid `fr`.
pub open spec fn first_conway_match_from(fr: Seq<State>, w: int, h: int, s: State, loc: int, k: int) -> Option<int>
    decreases Neighborhood::Conway.neighbors_spec(loc, w, h).len() - k,
{
    let nbs = Neighborhood::Conway.neighbors_spec(loc, w, h);
    if k < 0 || k >= nbs.len() {
        None
    } else if fr[nbs[k]] == s {
        Some(nbs[k])
    } else {
        first_conway_match_from(fr, w, h, s, loc, k + 1)
    }
}

/// One tracked walk, from step `d` on: the walk stops when the starting
/// cell itself holds `s` again at the next recorded frame, or when no
/// neighbor of the tracked location holds `s`; otherwise it moves to the
/// first matching neighbor, accumulates the signed displacement, and goes
/// on, for at most 16 frames in all. Returns the accumulated `(dx, dy)`.
pub open spec fn walk_from(
    frames: Seq<Seq<State>>,
    w: int,
    h: int,
    s: State,
    frame: int,
    cell: int,
    loc: int,
    d: int,
    dx: int,
    dy: int,
) -> (int, int)
    decreases 16 - d,
{
    if d < 1 || d >= 16 {
        (dx, dy)
    } else if frames[frame + d][cell] == s {
        (dx, dy)
    } else {
        match first_conway_match_from(frames[frame + d], w, h, s, loc, 0) {
            Some(j) => walk_from(
                frames,
                w,
                h,
                s,
                frame,
                cell,
                j,
                d + 1,
                dx + (loc % w - j % w),
                dy + (loc / w - j / w),
            ),
            None => (dx, dy),
        }
    }
}

/// What one (frame, cell) sample adds to the motion total: the squared
/// length of the displacement its walk accumulates.
pub open spec fn path_contribution(frames: Seq<Seq<State>>, w: int, h: int, frame: int, cell: int) -> int {
    let s = frames[frame][cell];
    let end = walk_from(frames, w, h, s, frame, cell, cell, 1, 0, 0);
    end.0 * end.0 + end.1 * end.1
}

/// The motion total over one sampled frame and all sampled cells.
pub open spec fn row_total(frames: Seq<Seq<State>>, w: int, h: int, frame: int, cs: Seq<usize>) -> int
    decreases cs.len(),
{
    if cs.len() == 0 {
        0
    } else {
        row_total(frames, w, h, frame, cs.drop_last()) + path_contribution(
            frames,
            w,
            h,
            frame,
            cs.last() as int,
        )
    }
}

/// The motion total over all sampled frames and sampled cells.
pub open spec fn walks_total(frames: Seq<Seq<State>>, w: int, h: int, fs: Seq<usize>, cs: Seq<usize>) -> int
    decreases fs.len(),
{
    if fs.len() == 0 {
        0
    } else {
        walks_total(frames, w, h, fs.drop_last(), cs) + row_total(
            frames,
            w,
            h,
            fs.last() as int,
            cs,
        )
    }
}

/// Every cell the Moore scan around `loc` yields lies in the grid, at most
/// one column and one row away from `loc`.
pub proof fn lemma_conway_prefix_close(loc: int, w: int, h: int, k: int)
    requires
        1 <= w,
        1 <= h,
        0 <= loc < w * h,
        0 <= k <= 8,
    ensures
        forall|m: int|
            0 <= m < Neighborhood::Conway.nb_prefix(loc, w, h, k).len() ==> {
                let j = #[trigger] Neighborhood::Conway.nb_prefix(loc, w, h, k)[m];
                &&& 0 <= j < w * h
                &&& -1 <= loc % w - j % w <= 1
                &&& -1 <= loc / w - j / w <= 1
            },
    decreases k,
{
    if k > 0 {
        lemma_conway_prefix_close(loc, w, h, k - 1);
        let o = Neighborhood::Conway.offset_at(k - 1);
        assert(-1 <= o.0 <= 1 && -1 <= o.1 <= 1);
        let x = loc % w + o.0;
        let y = loc / w + o.1;
        let pk1 = Neighborhood::Conway.nb_prefix(loc, w, h, k - 1);
        let pk = Neighborhood::Conway.nb_prefix(loc, w, h, k);
        if in_grid(x, y, w, h) {
            assert(0 <= x + y * w < w * h) by (nonlinear_arith)
                requires
                    0 <= x < w,
                    0 <= y < h,
            ;
            lemma_fundamental_div_mod_converse(x + y * w, w, y, x);
            assert(pk =~= pk1 + seq![x + y * w]);
            assert forall|m: int| 0 <= m < pk.len() implies {
                let j = #[trigger] pk[m];
                &&& 0 <= j < w * h
                &&& -1 <= loc % w - j % w <= 1
                &&& -1 <= loc / w - j / w <= 1
            } by {
                if m < pk1.len() {
                    assert(pk[m] == pk1[m]);
                } else {
                    assert(pk[m] == x + y * w);
                }
            }
        } else {
            assert(pk =~= pk1);
        }
    }
}

/// Whatever cell the Moore scan settles on is in the grid and adjacent to
/// `loc`.
pub proof fn lemma_conway_match_close(fr: Seq<State>, w: int, h: int, s: State, loc: int, k: int)
    requires
        1 <= w,
        1 <= h,
        0 <= loc < w * h,
        0 <= k,
    ensures
        match first_conway_match_from(fr, w, h, s, loc, k) {
            Some(j) => {
                &&& 0 <= j < w * h
                &&& -1 <= loc % w - j % w <= 1
                &&& -1 <= loc / w - j / w <= 1
            },
            None => true,
        },
    decreases Neighborhood::Conway.neighbors_spec(loc, w, h).len() - k,
{
    let nbs = Neighborhood::Conway.neighbors_spec(loc, w, h);
    lemma_conway_prefix_close(loc, w, h, 8);
    if k < nbs.len() && !(fr[nbs[k]] == s) {
        lemma_conway_match_close(fr, w, h, s, loc, k + 1);
    }
}

/// A walk moves at most one cell per frame, so over at most 15 moves the
/// accumulated displacement stays within 15 on each axis.
pub proof fn lemma_walk_bounds(
    frames: Seq<Seq<State>>,
    w: int,
    h: int,
    s: State,
    frame: int,
    cell: int,
    loc: int,
    d: int,
    dx: int,
    dy: int,
)
    requires
        1 <= w,
        1 <= h,
        0 <= loc < w * h,
        1 <= d <= 16,
        -(d - 1) <= dx <= d - 1,
        -(d - 1) <= dy <= d - 1,
    ensures
        ({
            let e = walk_from(frames, w, h, s, frame, cell, loc, d, dx, dy);
            -15 <= e.0 <= 15 && -15 <= e.1 <= 15
        }),
    decreases 16 - d,
{
    if d < 16 && !(frames[frame + d][cell] == s) {
        match first_conway_match_from(frames[frame + d], w, h, s, loc, 0) {
            Some(j) => {
                lemma_conway_match_close(frames[frame + d], w, h, s, loc, 0);
                lemma_walk_bounds(
                    frames,
                    w,
                    h,
                    s,
                    frame,
                    cell,
                    j,
                    d + 1,
                    dx + (loc % w - j % w),
                    dy + (loc / w - j / w),
                );
            },
            None => {},
        }
    }
}

/// One walk contributes at least 0 and at most `15^2 + 15^2` to the motion
/// total.
pub proof fn lemma_path_contribution_bounds(frames: Seq<Seq<State>>, w: int, h: int, frame: int, cell: int)
    requires
        1 <= w,
        1 <= h,
        0 <= cell < w * h,
    ensures
        0 <= path_contribution(frames, w, h, frame, cell) <= 450,
{
    let s = frames[frame][cell];
    lemma_walk_bounds(frames, w, h, s, frame, cell, cell, 1, 0, 0);
    let e = walk_from(frames, w, h, s, frame, cell, cell, 1, 0, 0);
    assert(0 <= e.0 * e.0 + e.1 * e.1 <= 450) by (nonlinear_arith)
        requires
            -15 <= e.0 <= 15,
            -15 <= e.1 <= 15,
    ;
}

/// When the next recorded frame is the same grid, the walk stops at once:
/// a run in which nothing moves contributes nothing.
pub proof fn lemma_no_motion_zero(frames: Seq<Seq<State>>, w: int, h: int, frame: int, cell: int)
    requires
        frames[frame + 1] == frames[frame],
    ensures
        path_contribution(frames, w, h, frame, cell) == 0,
{
    let s = frames[frame][cell];
    assert(frames[frame + 1][cell] == s);
    assert(walk_from(frames, w, h, s, frame, cell, cell, 1, 0, 0) == (0int, 0int));
}

/// A row of motionless walks sums to zero.
pub proof fn lemma_row_zero(frames: Seq<Seq<State>>, w: int, h: int, frame: int, cs: Seq<usize>)
    requires
        frames[frame + 1] == frames[frame],
    ensures
        row_total(frames, w, h, frame, cs) == 0,
    decreases cs.len(),
{
    if cs.len() > 0 {
        lemma_row_zero(frames, w, h, frame, cs.drop_last());
        lemma_no_motion_zero(frames, w, h, frame, cs.last() as int);
    }
}

/// When every sampled frame is followed by an identical frame, the whole
/// motion total is zero.
pub proof fn lemma_walks_zero(frames: Seq<Seq<State>>, w: int, h: int, fs: Seq<usize>, cs: Seq<usize>)
    requires
        forall|a: int|
            0 <= a < fs.len() ==> frames[#[trigger] fs[a] + 1] == frames[fs[a] as int],
    ensures
        walks_total(frames, w, h, fs, cs) == 0,
    decreases fs.len(),
{
    if fs.len() > 0 {
        lemma_walks_zero(frames, w, h, fs.drop_last(), cs);
        lemma_row_zero(frames, w, h, fs.last() as int, cs);
    }
}

/// A row's total is bounded by the largest single contribution times the
/// number of cells sampled.
pub proof fn lemma_row_bounds(frames: Seq<Seq<State>>, w: int, h: int, frame: int, cs: Seq<usize>)
    requires
        1 <= w,
        1 <= h,
        forall|m: int| 0 <= m < cs.len() ==> #[trigger] cs[m] < w * h,
    ensures
        0 <= row_total(frames, w, h, frame, cs) <= 450 * cs.len(),
    decreases cs.len(),
{
    if cs.len() > 0 {
        lemma_row_bounds(frames, w, h, frame, cs.drop_last());
        lemma_path_contribution_bounds(frames, w, h, frame, cs.last() as int);
        assert(450 * (cs.len() - 1) + 450 == 450 * cs.len()) by (nonlinear_arith);
    }
}

/// The motion total is bounded by the largest single contribution times the
/// number of walks.
pub proof fn lemma_walks_bounds(frames: Seq<Seq<State>>, w: int, h: int, fs: Seq<usize>, cs: Seq<usize>)
    requires
        1 <= w,
        1 <= h,
        forall|m: int| 0 <= m < cs.len() ==> #[trigger] cs[m] < w * h,
    ensures
        0 <= walks_total(frames, w, h, fs, cs) <= 450 * fs.len() * cs.len(),
    decreases fs.len(),
{
    if fs.len() > 0 {
        lemma_walks_bounds(frames, w, h, fs.drop_last(), cs);
        lemma_row_bounds(frames, w, h, fs.last() as int, cs);
        assert(450 * (fs.len() - 1) * cs.len() + 450 * cs.len() == 450 * fs.len() * cs.len())
            by (nonlinear_arith);
    } else {
        assert(450 * fs.len() * cs.len() == 0) by (nonlinear_arith)
            requires
                fs.len() == 0,
        ;
    }
}

/// The recorded frames of a run as plain sequences.
pub open spec fn grids_view(frames: Seq<Vec<State>>) -> Seq<Seq<State>> {
    Seq::new(frames.len(), |k: int| frames[k]@)
}

/// Scan the Moore neighborhood of `loc` in the fixed order and return the
/// first cell of `fr` that holds `s`, if any.
pub fn first_conway_match(fr: &Vec<State>, size: (u32, u32), s: State, loc: u32) -> (r: Option<
    u32,
>)
    requires
        1 <= size.0,
        1 <= size.1,
        size.0 * size.1 <= u32::MAX,
        loc < size.0 * size.1,
        fr@.len() == size.0 * size.1,
    ensures
        (r is None) == (first_conway_match_from(fr@, size.0 as int, size.1 as int, s, loc as int, 0)
            is None),
        r matches Some(j) ==> first_conway_match_from(
            fr@,
            size.0 as int,
            size.1 as int,
            s,
            loc as int,
            0,
        ) == Some(j as int),
{
    let ghost wi = size.0 as int;
    let ghost hi = size.1 as int;
    let nbs = Neighborhood::Conway.neighbors(loc, size);
    let ghost snbs = Neighborhood::Conway.neighbors_spec(loc as int, wi, hi);
    let mut k: usize = 0;
    while k < nbs.len()
        invariant
            wi == size.0 as int,
            hi == size.1 as int,
            fr@.len() == size.0 * size.1,
            snbs == Neighborhood::Conway.neighbors_spec(loc as int, wi, hi),
            nbs@.len() == snbs.len(),
            forall|m: int| 0 <= m < nbs@.len() ==> nbs@[m] == snbs[m],
            forall|m: int| 0 <= m < nbs@.len() ==> #[trigger] nbs@[m] < size.0 * size.1,
            k <= nbs@.len(),
            first_conway_match_from(fr@, wi, hi, s, loc as int, 0) == first_conway_match_from(
                fr@,
                wi,
                hi,
                s,
                loc as int,
                k as int,
            ),
        decreases nbs@.len() - k,
    {
        let j = nbs[k];
        if fr[j as usize] == s {
            return Some(j);
        }
        k = k + 1;
    }
    None
}

/// Walk one (frame, cell) sample across the recorded frames and return the
/// squared length of the displacement it accumulates.
pub fn path_walk(frames: &Vec<Vec<State>>, size: (u32, u32), frame: usize, cell: usize) -> (r:
    u64)
    requires
        1 <= size.0,
        1 <= size.1,
        size.0 * size.1 <= u32::MAX,
        cell < size.0 * size.1,
        frame + 16 <= frames@.len(),
        forall|k: int| 0 <= k < frames@.len() ==> (#[trigger] frames@[k])@.len() == size.0 * size.1,
    ensures
        r == path_contribution(
            grids_view(frames@),
            size.0 as int,
            size.1 as int,
            frame as int,
            cell as int,
        ),
        r <= 450,
{
    let w = size.0;
    let h = size.1;
    let ghost gf = grids_view(frames@);
    let ghost goal = walk_from(
        gf,
        w as int,
        h as int,
        frames@[frame as int]@[cell as int],
        frame as int,
        cell as int,
        cell as int,
        1,
        0,
        0,
    );
    let flen: usize = frames.len();
    let s: State = frames[frame][cell];
    let mut loc: u32 = cell as u32;
    let mut dx: i64 = 0;
    let mut dy: i64 = 0;
    let mut d: usize = 1;
    let mut finished = false;
    while d < 16 && !finished
        invariant
            1 <= w,
            1 <= h,
            w == size.0,
            h == size.1,
            w * h <= u32::MAX,
            gf == grids_view(frames@),
            flen == frames@.len(),
            frame + 16 <= frames@.len(),
            forall|k: int|
                0 <= k < frames@.len() ==> (#[trigger] frames@[k])@.len() == size.0 * size.1,
            s == gf[frame as int][cell as int],
            cell < w * h,
            loc < w * h,
            1 <= d <= 16,
            -(d - 1) <= dx <= d - 1,
            -(d - 1) <= dy <= d - 1,
            !finished ==> goal == walk_from(
                gf,
                w as int,
                h as int,
                s,
                frame as int,
                cell as int,
                loc as int,
                d as int,
                dx as int,
                dy as int,
            ),
            finished ==> goal == (dx as int, dy as int),
        decreases 16 - d + if finished {
            0int
        } else {
            1int
        },
    {
        let fr = &frames[frame + d];
        if fr[cell] == s {
            finished = true;
        } else {
            match first_conway_match(fr, size, s, loc) {
                Some(j) => {
                    proof {
                        lemma_conway_match_close(fr@, w as int, h as int, s, loc as int, 0);
                    }
                    let lx = (loc % w) as i64;
                    let jx = (j % w) as i64;
                    let ly = (loc / w) as i64;
                    let jy = (j / w) as i64;
                    dx = dx + (lx - jx);
                    dy = dy + (ly - jy);
                    loc = j;
                    d = d + 1;
                },
                None => {
                    finished = true;
                },
            }
        }
    }
    proof {
        assert(goal == (dx as int, dy as int));
        assert(0 <= dx * dx <= 225) by (nonlinear_arith)
            requires
                -15 <= dx <= 15,
        ;
        assert(0 <= dy * dy <= 225) by (nonlinear_arith)
            requires
                -15 <= dy <= 15,
        ;
    }
    (dx * dx + dy * dy) as u64
}

/// Sum the pool values at the sampled positions.
pub fn sum_samples(pool: &Vec<u32>, idx: &Vec<usize>) -> (total: u64)
    requires
        forall|m: int| 0 <= m < idx@.len() ==> #[trigger] idx@[m] < pool@.len(),
        idx@.len() <= u32::MAX,
    ensures
        total == sum_at(pool@, idx@),
{
    let mut total: u64 = 0;
    let mut j: usize = 0;
    while j < idx.len()
        invariant
            forall|m: int| 0 <= m < idx@.len() ==> #[trigger] idx@[m] < pool@.len(),
            idx@.len() <= u32::MAX,
            j <= idx@.len(),
            total == sum_at(pool@, idx@.take(j as int)),
            total <= j * 0xffff_ffff,
        decreases idx@.len() - j,
    {
        proof {
            assert(idx@.take(j as int + 1).drop_last() =~= idx@.take(j as int));
            assert(idx@.take(j as int + 1).last() == idx@[j as int]);
            assert((j + 1) * 0xffff_ffff == j * 0xffff_ffff + 0xffff_ffff) by (nonlinear_arith);
            assert((j + 1) * 0xffff_ffff <= 0xffff_ffff * 0xffff_ffff) by (nonlinear_arith)
                requires
                    j + 1 <= 0xffff_ffff,
            ;
        }
        total = total + (pool[idx[j]] as u64);
        j = j + 1;
    }
    proof {
        assert(idx@.take(idx@.len() as int) =~= idx@);
    }
    total
}

} // verus!
