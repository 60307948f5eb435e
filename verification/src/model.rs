//! The automaton itself: an ordered rule list, a live grid with its initial
//! snapshot, per-cell timers, and the history buffers a run accumulates.

use crate::rng::{fresh_rng, gen_range_u32, gen_range_usize, rng_from_seed, sample_indices};
use crate::rule::{Rule, State};
use crate::stats::{
    grids_view, lemma_walks_bounds, lemma_walks_zero, path_walk, sample_ok, sum_at, sum_samples,
    time_pool, walks_total, Stats,
};
use rand::rngs::SmallRng;
use vstd::prelude::*;

verus! {

/// Why a model could not be built.
#[derive(Copy, Clone, PartialEq, Eq, Structural, Debug)]
pub enum ConfigError {
    /// The grid has zero area.
    EmptyGrid,
    /// There are no states for cells to hold.
    NoStates,
}

/// The mathematical content of a [`Model`]: every field as a plain value or
/// sequence.
#[verifier::ext_equal]
pub ghost struct ModelView {
    pub rules: Seq<Rule>,
    pub state: Seq<State>,
    pub initial: Seq<State>,
    pub time_in_state: Seq<u32>,
    pub width: int,
    pub height: int,
    pub state_count: int,
    pub transition_times: Seq<u32>,
    pub changed_counts: Seq<u32>,
    pub frames: Seq<Seq<State>>,
}

impl ModelView {
    /// Number of cells in the grid.
    pub open spec fn area(self) -> int {
        self.width * self.height
    }

    /// `g` is a grid of this model: full size, every state below
    /// `state_count`.
    pub open spec fn grid_ok(self, g: Seq<State>) -> bool {
        &&& g.len() == self.area()
        &&& forall|i: int| 0 <= i < g.len() ==> (#[trigger] g[i]).0 < self.state_count
    }

    /// The invariant every reachable model satisfies. Besides sizing and
    /// state bounds it records that no cell's timer, nor any logged waiting
    /// time, exceeds the number of steps recorded in `frames`.
    pub open spec fn wf(self) -> bool {
        &&& 1 <= self.width
        &&& 1 <= self.height
        &&& self.area() <= u32::MAX
        &&& 1 <= self.state_count <= u32::MAX
        &&& self.rules.len() <= u32::MAX
        &&& self.grid_ok(self.state)
        &&& self.grid_ok(self.initial)
        &&& self.time_in_state.len() == self.area()
        &&& forall|j: int|
            0 <= j < self.rules.len() ==> (#[trigger] self.rules[j]).wf(self.state_count)
        &&& forall|k: int| 0 <= k < self.frames.len() ==> self.grid_ok(#[trigger] self.frames[k])
        &&& forall|i: int|
            0 <= i < self.time_in_state.len() ==> #[trigger] self.time_in_state[i]
                <= self.frames.len()
        &&& forall|t: int|
            0 <= t < self.transition_times.len() ==> #[trigger] self.transition_times[t]
                <= self.frames.len()
    }
}

impl ModelView {
    /// The state cell `i` holds after one synchronous step, when only the
    /// rules from index `k` on are still in play: the first that fires wins,
    /// and a cell no rule fires on keeps its state.
    pub open spec fn next_cell_from(self, k: int, i: int) -> State
        decreases self.rules.len() - k,
    {
        if k < 0 || k >= self.rules.len() {
            self.state[i]
        } else {
            match self.rules[k].apply_spec(i, self.width, self.height, self.state) {
                Some(s) => s,
                None => self.next_cell_from(k + 1, i),
            }
        }
    }

    /// The state cell `i` holds after one synchronous step.
    pub open spec fn next_cell(self, i: int) -> State {
        self.next_cell_from(0, i)
    }

    /// Will cell `i` hold a different state after the step?
    pub open spec fn cell_changed(self, i: int) -> bool {
        self.next_cell(i) != self.state[i]
    }

    /// The whole grid after one synchronous step: every cell is computed
    /// against the same pre-step snapshot.
    pub open spec fn step_state(self) -> Seq<State> {
        Seq::new(self.area() as nat, |i: int| self.next_cell(i))
    }

    /// The waiting times a step appends to the transition log, scanning
    /// cells `[0, k)`: the pre-step timer of every cell that changes, in
    /// cell order.
    pub open spec fn logged_times(self, k: int) -> Seq<u32>
        decreases k,
    {
        if k <= 0 {
            Seq::empty()
        } else {
            self.logged_times(k - 1) + if self.cell_changed(k - 1) {
                seq![self.time_in_state[k - 1]]
            } else {
                Seq::empty()
            }
        }
    }

    /// How many of the cells `[0, k)` change in this step.
    pub open spec fn changed_count(self, k: int) -> int
        decreases k,
    {
        if k <= 0 {
            0
        } else {
            self.changed_count(k - 1) + if self.cell_changed(k - 1) {
                1int
            } else {
                0int
            }
        }
    }

    /// The timers after one step: a changed cell starts over at zero, an
    /// unchanged cell has sat one step longer.
    pub open spec fn stepped_times(self) -> Seq<u32> {
        Seq::new(
            self.area() as nat,
            |i: int|
                if self.cell_changed(i) {
                    0u32
                } else {
                    (self.time_in_state[i] + 1) as u32
                },
        )
    }

    /// The whole model after one synchronous step: the new grid goes live
    /// and is also recorded as a frame, timers advance, and the transition
    /// log and change counts grow.
    pub open spec fn step_view(self) -> ModelView {
        ModelView {
            state: self.step_state(),
            time_in_state: self.stepped_times(),
            transition_times: self.transition_times + self.logged_times(self.area()),
            changed_counts: self.changed_counts.push(self.changed_count(self.area()) as u32),
            frames: self.frames.push(self.step_state()),
            ..self
        }
    }

    /// The model after `n` synchronous steps.
    pub open spec fn step_view_n(self, n: nat) -> ModelView
        decreases n,
    {
        if n == 0 {
            self
        } else {
            self.step_view_n((n - 1) as nat).step_view()
        }
    }

    /// Whatever rules say, a step keeps every cell's state below
    /// `state_count`.
    pub proof fn lemma_next_cell_in_range(self, k: int, i: int)
        requires
            self.wf(),
            0 <= i < self.area(),
            0 <= k,
        ensures
            self.next_cell_from(k, i).0 < self.state_count,
        decreases self.rules.len() - k,
    {
        if k < self.rules.len() {
            match self.rules[k].apply_spec(i, self.width, self.height, self.state) {
                Some(s) => {
                    assert(s == self.rules[k].result);
                },
                None => {
                    self.lemma_next_cell_in_range(k + 1, i);
                },
            }
        }
    }

    /// A step logs no more entries than it scans cells, and any bound the
    /// pre-step timers respect carries over to the logged entries.
    pub proof fn lemma_logged_times_bounded(self, k: int, bound: int)
        requires
            0 <= k <= self.time_in_state.len(),
            forall|i: int|
                0 <= i < self.time_in_state.len() ==> #[trigger] self.time_in_state[i] <= bound,
        ensures
            self.logged_times(k).len() <= k,
            forall|m: int|
                0 <= m < self.logged_times(k).len() ==> #[trigger] self.logged_times(k)[m]
                    <= bound,
        decreases k,
    {
        if k > 0 {
            self.lemma_logged_times_bounded(k - 1, bound);
        }
    }

    /// One step takes a well-formed model to a well-formed model, as long as
    /// the frame counter has room.
    pub proof fn lemma_step_wf(self)
        requires
            self.wf(),
            self.frames.len() < u32::MAX,
        ensures
            self.step_view().wf(),
    {
        let s = self.step_view();
        assert forall|i: int| 0 <= i < self.step_state().len() implies (#[trigger] self.step_state()[i]).0
            < self.state_count by {
            self.lemma_next_cell_in_range(0, i);
        }
        self.lemma_logged_times_bounded(self.area(), self.frames.len() as int);
        assert(s.grid_ok(s.state));
        assert forall|k: int| 0 <= k < s.frames.len() implies s.grid_ok(#[trigger] s.frames[k]) by {
            if k < self.frames.len() {
                assert(self.grid_ok(self.frames[k]));
            }
        }
        assert forall|t: int| 0 <= t < s.transition_times.len() implies #[trigger] s.transition_times[t]
            <= s.frames.len() by {
            if t >= self.transition_times.len() {
                assert(s.transition_times[t] == self.logged_times(self.area())[t
                    - self.transition_times.len()]);
            }
        }
    }
}

/// A cellular automaton: a fixed-length, ordered rule list, the live grid,
/// the immutable initial snapshot, per-cell time-in-state counters, and
/// three history buffers that grow as the model is stepped.
#[derive(Clone, Debug)]
pub struct Model {
    rules: Vec<Rule>,
    state: Vec<State>,
    initial_state: Vec<State>,
    time_in_state: Vec<u32>,
    width: u32,
    height: u32,
    state_count: u32,
    transition_times: Vec<u32>,
    changed_counts: Vec<u32>,
    frames: Vec<Vec<State>>,
}

impl View for Model {
    type V = ModelView;

    closed spec fn view(&self) -> ModelView {
        ModelView {
            rules: self.rules@,
            state: self.state@,
            initial: self.initial_state@,
            time_in_state: self.time_in_state@,
            width: self.width as int,
            height: self.height as int,
            state_count: self.state_count as int,
            transition_times: self.transition_times@,
            changed_counts: self.changed_counts@,
            frames: Seq::new(self.frames@.len(), |k: int| self.frames@[k]@),
        }
    }
}

/// A sequence of `n` zeroed timers.
pub open spec fn zero_times(n: int) -> Seq<u32> {
    Seq::new(n as nat, |i: int| 0u32)
}

/// A fresh copy of a grid, element for element.
fn clone_grid(v: &Vec<State>) -> (r: Vec<State>)
    ensures
        r@ == v@,
{
    let r = v.clone();
    proof {
        assert(r@ =~= v@);
    }
    r
}

impl Model {
    /// The invariant of a reachable model.
    pub open spec fn wf(&self) -> bool {
        self@.wf()
    }

    /// Build a model from explicit parts: the grid `initial` becomes both
    /// the live state and the stored initial snapshot; timers start at zero
    /// and all histories start empty.
    ///
    /// A zero-area grid or a zero state count is a configuration error (the
    /// grid is checked first).
    pub fn new(width: u32, height: u32, state_count: u32, rules: Vec<Rule>, initial: Vec<State>) -> (r:
        Result<Model, ConfigError>)
        requires
            width as int * height as int <= u32::MAX,
            initial@.len() == width as int * height as int,
            forall|i: int|
                0 <= i < initial@.len() ==> (#[trigger] initial@[i]).0 < state_count,
            forall|j: int|
                0 <= j < rules@.len() ==> (#[trigger] rules@[j]).wf(state_count as int),
            rules@.len() <= u32::MAX,
        ensures
            r is Ok <==> (width >= 1 && height >= 1 && state_count >= 1),
            width == 0 || height == 0 ==> r == Result::<Model, ConfigError>::Err(
                ConfigError::EmptyGrid,
            ),
            width >= 1 && height >= 1 && state_count == 0 ==> r == Result::<
                Model,
                ConfigError,
            >::Err(ConfigError::NoStates),
            r matches Ok(m) ==> {
                &&& m.wf()
                &&& m@.rules == rules@
                &&& m@.state == initial@
                &&& m@.initial == initial@
                &&& m@.width == width as int
                &&& m@.height == height as int
                &&& m@.state_count == state_count as int
                &&& m@.time_in_state == zero_times(width as int * height as int)
                &&& m@.transition_times.len() == 0
                &&& m@.changed_counts.len() == 0
                &&& m@.frames.len() == 0
            },
    {
        if width == 0 || height == 0 {
            return Err(ConfigError::EmptyGrid);
        }
        if state_count == 0 {
            return Err(ConfigError::NoStates);
        }
        let n: u32 = width * height;
        let state = clone_grid(&initial);
        let m = Model {
            rules,
            state,
            initial_state: initial,
            time_in_state: vec![0u32; n as usize],
            width,
            height,
            state_count,
            transition_times: Vec::new(),
            changed_counts: Vec::new(),
            frames: Vec::new(),
        };
        proof {
            assert(m@.time_in_state =~= zero_times(width as int * height as int));
            assert(m@.frames =~= Seq::<Seq<State>>::empty());
        }
        Ok(m)
    }

    /// How many rules the model carries.
    pub fn rule_count(&self) -> (r: u32)
        requires
            self.wf(),
        ensures
            r == self@.rules.len(),
    {
        self.rules.len() as u32
    }

    /// How many distinct states a cell may hold.
    pub fn state_count(&self) -> (r: u32)
        requires
            self.wf(),
        ensures
            r == self@.state_count,
    {
        self.state_count
    }

    /// The live grid, row-major, as raw state tags. Every entry is below
    /// `state_count`, always.
    pub fn states(&self) -> (r: Vec<u32>)
        requires
            self.wf(),
        ensures
            r@.len() == self@.state.len(),
            forall|i: int| 0 <= i < r@.len() ==> r@[i] == (#[trigger] self@.state[i]).0,
            forall|i: int| 0 <= i < r@.len() ==> #[trigger] r@[i] < self@.state_count,
    {
        let mut r: Vec<u32> = Vec::new();
        let mut i: usize = 0;
        while i < self.state.len()
            invariant
                self.wf(),
                i <= self@.state.len(),
                r@.len() == i,
                forall|m: int| 0 <= m < i ==> r@[m] == (#[trigger] self@.state[m]).0,
            decreases self@.state.len() - i,
        {
            r.push(self.state[i].0);
            i = i + 1;
        }
        proof {
            assert forall|m: int| 0 <= m < r@.len() implies r@[m] < self@.state_count by {
                assert(r@[m] == self@.state[m].0);
            }
        }
        r
    }

    /// Rewind the live grid to the stored initial snapshot, clear the
    /// transition log and zero every timer.
    ///
    /// The recorded frames and per-step change counts survive a reset; only
    /// the grid, the timers and the transition log rewind.
    pub fn reset(&mut self)
        requires
            old(self).wf(),
        ensures
            final(self).wf(),
            final(self)@ == (ModelView {
                state: old(self)@.initial,
                transition_times: Seq::<u32>::empty(),
                time_in_state: zero_times(old(self)@.area()),
                ..old(self)@
            }),
    {
        self.state = clone_grid(&self.initial_state);
        self.transition_times = Vec::new();
        let n: u32 = self.width * self.height;
        self.time_in_state = vec![0u32; n as usize];
        proof {
            assert(self@ =~~= (ModelView {
                state: old(self)@.initial,
                transition_times: Seq::<u32>::empty(),
                time_in_state: zero_times(old(self)@.area()),
                ..old(self)@
            }));
        }
    }

    /// Throw away both the live grid and the stored snapshot and draw a
    /// fresh random grid into both; clear the transition log and zero every
    /// timer. Recorded frames and change counts stay, as under `reset`.
    pub fn reset_random(&mut self, seed: u64)
        requires
            old(self).wf(),
        ensures
            final(self).wf(),
            final(self)@.state == final(self)@.initial,
            final(self)@ == (ModelView {
                state: final(self)@.state,
                initial: final(self)@.state,
                transition_times: Seq::<u32>::empty(),
                time_in_state: zero_times(old(self)@.area()),
                ..old(self)@
            }),
    {
        let mut rng = rng_from_seed(seed);
        let n: u32 = self.width * self.height;
        let grid = random_grid(n, self.state_count, &mut rng);
        self.state = clone_grid(&grid);
        self.initial_state = grid;
        self.transition_times = Vec::new();
        self.time_in_state = vec![0u32; n as usize];
        proof {
            assert(self@ =~~= (ModelView {
                state: self@.state,
                initial: self@.state,
                transition_times: Seq::<u32>::empty(),
                time_in_state: zero_times(old(self)@.area()),
                ..old(self)@
            }));
        }
    }

    /// Build a model with `rule_count` freshly drawn random rules and a
    /// random initial grid, all derived from `seed`. The random grid becomes
    /// both the live state and the stored snapshot.
    ///
    /// A zero-area grid or a zero state count is a configuration error (the
    /// grid is checked first).
    pub fn new_random(width: u32, height: u32, rule_count: u32, state_count: u32, seed: u64) -> (r:
        Result<Model, ConfigError>)
        requires
            width as int * height as int <= u32::MAX,
        ensures
            r is Ok <==> (width >= 1 && height >= 1 && state_count >= 1),
            width == 0 || height == 0 ==> r == Result::<Model, ConfigError>::Err(
                ConfigError::EmptyGrid,
            ),
            width >= 1 && height >= 1 && state_count == 0 ==> r == Result::<
                Model,
                ConfigError,
            >::Err(ConfigError::NoStates),
            r matches Ok(m) ==> {
                &&& m.wf()
                &&& m@.rules.len() == rule_count
                &&& m@.state == m@.initial
                &&& m@.width == width as int
                &&& m@.height == height as int
                &&& m@.state_count == state_count as int
                &&& m@.time_in_state == zero_times(width as int * height as int)
                &&& m@.transition_times.len() == 0
                &&& m@.changed_counts.len() == 0
                &&& m@.frames.len() == 0
            },
    {
        if width == 0 || height == 0 {
            return Err(ConfigError::EmptyGrid);
        }
        if state_count == 0 {
            return Err(ConfigError::NoStates);
        }
        let mut rng = rng_from_seed(seed);
        let mut rules: Vec<Rule> = Vec::new();
        let mut j: u32 = 0;
        while j < rule_count
            invariant
                state_count >= 1,
                j <= rule_count,
                rules@.len() == j,
                forall|m: int|
                    0 <= m < rules@.len() ==> (#[trigger] rules@[m]).wf(state_count as int),
            decreases rule_count - j,
        {
            let rule = Rule::new_random(state_count, &mut rng);
            rules.push(rule);
            j = j + 1;
        }
        let n: u32 = width * height;
        let initial = random_grid(n, state_count, &mut rng);
        Model::new(width, height, state_count, rules, initial)
    }

    /// Pick one rule at random and replace it wholesale with a freshly drawn
    /// one; everything else is untouched. A model without rules cannot be
    /// mutated.
    pub fn mutate(&mut self, seed: u64)
        requires
            old(self).wf(),
            old(self)@.rules.len() >= 1,
        ensures
            final(self).wf(),
            exists|k: int| Model::one_rule_replaced(old(self)@, final(self)@, k),
    {
        let mut rng = rng_from_seed(seed);
        let idx = gen_range_usize(&mut rng, 0, self.rules.len());
        let mut rule = self.rules[idx];
        rule.mutate(self.state_count, &mut rng);
        self.rules.set(idx, rule);
        proof {
            assert(self@ =~= (ModelView { rules: self@.rules, ..old(self)@ }));
            assert(Model::one_rule_replaced(old(self)@, self@, idx as int));
        }
    }

    /// Pick one rule at random and perturb a single weighted-random field of
    /// it, as `Rule::perturb` does; everything else is untouched.
    pub fn perturb(&mut self, seed: u64)
        requires
            old(self).wf(),
            old(self)@.rules.len() >= 1,
        ensures
            final(self).wf(),
            exists|k: int| Model::one_rule_perturbed(old(self)@, final(self)@, k),
    {
        let mut rng = rng_from_seed(seed);
        let idx = gen_range_usize(&mut rng, 0, self.rules.len());
        let mut rule = self.rules[idx];
        rule.perturb(self.state_count, &mut rng);
        self.rules.set(idx, rule);
        proof {
            assert(self@ =~= (ModelView { rules: self@.rules, ..old(self)@ }));
            assert(Model::one_rule_perturbed(old(self)@, self@, idx as int));
        }
    }

    /// Models `a` and `b` agree everywhere except that rule `k` of `b` is a
    /// fresh well-formed rule.
    pub open spec fn one_rule_replaced(a: ModelView, b: ModelView, k: int) -> bool {
        &&& 0 <= k < a.rules.len()
        &&& b.rules.len() == a.rules.len()
        &&& forall|j: int| 0 <= j < a.rules.len() && j != k ==> a.rules[j] == #[trigger] b.rules[j]
        &&& b.rules[k].wf(a.state_count)
        &&& b == (ModelView { rules: b.rules, ..a })
    }

    /// Models `a` and `b` agree everywhere except that rule `k` of `b` came
    /// from rule `k` of `a` by a single perturbation.
    pub open spec fn one_rule_perturbed(a: ModelView, b: ModelView, k: int) -> bool {
        &&& 0 <= k < a.rules.len()
        &&& b.rules.len() == a.rules.len()
        &&& forall|j: int| 0 <= j < a.rules.len() && j != k ==> a.rules[j] == #[trigger] b.rules[j]
        &&& Rule::perturb_rel(a.rules[k], b.rules[k], a.state_count)
        &&& b.rules[k].wf(a.state_count)
        &&& b == (ModelView { rules: b.rules, ..a })
    }
}

impl Model {
    /// Scan the rules in order on cell `i` against the current grid and
    /// return the first firing rule's result, or the cell's own state when
    /// none fires.
    fn next_cell_exec(&self, i: usize) -> (r: State)
        requires
            self.wf(),
            i < self@.area(),
        ensures
            r == self@.next_cell(i as int),
    {
        let ghost v = self@;
        let mut k: usize = 0;
        while k < self.rules.len()
            invariant
                self.wf(),
                v == self@,
                i < v.area(),
                k <= v.rules.len(),
                v.next_cell(i as int) == v.next_cell_from(k as int, i as int),
            decreases v.rules.len() - k,
        {
            let rule = &self.rules[k];
            match rule.apply(i as u32, (self.width, self.height), &self.state) {
                Some(s) => {
                    return s;
                },
                None => {},
            }
            k = k + 1;
        }
        self.state[i]
    }

    /// Advance the whole grid one synchronous step. Every cell is decided
    /// against the same pre-step snapshot: the first rule that fires on a
    /// cell wins, and a cell no rule fires on keeps its state. A changed
    /// cell logs how long it sat and restarts its timer; an unchanged cell's
    /// timer grows. The step records the count of changed cells and a full
    /// copy of the new grid.
    ///
    /// The frame counter must have room, since timers are 32-bit.
    pub fn step(&mut self)
        requires
            old(self).wf(),
            old(self)@.frames.len() < u32::MAX,
        ensures
            final(self).wf(),
            final(self)@ == old(self)@.step_view(),
    {
        let ghost v = self@;
        let n: usize = self.state.len();
        let mut swap: Vec<State> = Vec::new();
        let mut new_times: Vec<u32> = Vec::new();
        let mut pushed: Vec<u32> = Vec::new();
        let mut number_changed: u32 = 0;
        let mut i: usize = 0;
        while i < n
            invariant
                self.wf(),
                v == self@,
                v.frames.len() < u32::MAX,
                n == v.area(),
                i <= n,
                swap@.len() == i,
                forall|m: int| 0 <= m < i ==> swap@[m] == v.next_cell(m),
                new_times@.len() == i,
                forall|m: int| 0 <= m < i ==> new_times@[m] == v.stepped_times()[m],
                pushed@ == v.logged_times(i as int),
                number_changed == v.changed_count(i as int),
                number_changed <= i,
            decreases n - i,
        {
            let cell = self.next_cell_exec(i);
            let changed = cell != self.state[i];
            swap.push(cell);
            if changed {
                number_changed = number_changed + 1;
                pushed.push(self.time_in_state[i]);
                new_times.push(0);
            } else {
                new_times.push(self.time_in_state[i] + 1);
            }
            proof {
                assert(pushed@ =~= v.logged_times(i + 1));
            }
            i = i + 1;
        }
        self.state = swap;
        let frame = clone_grid(&self.state);
        self.frames.push(frame);
        self.time_in_state = new_times;
        self.transition_times.append(&mut pushed);
        self.changed_counts.push(number_changed);
        proof {
            assert(self@.state =~= v.step_state());
            assert(self@.time_in_state =~= v.stepped_times());
            assert(self@ =~~= v.step_view());
            v.lemma_step_wf();
        }
    }
}

impl Model {
    /// Advance the grid `steps` synchronous steps, one after the other;
    /// step `k + 1` starts from step `k`'s output.
    pub fn step_for(&mut self, steps: usize)
        requires
            old(self).wf(),
            old(self)@.frames.len() + steps <= u32::MAX,
        ensures
            final(self).wf(),
            final(self)@ == old(self)@.step_view_n(steps as nat),
    {
        let ghost v = self@;
        let mut j: usize = 0;
        while j < steps
            invariant
                self.wf(),
                v.frames.len() + steps <= u32::MAX,
                j <= steps,
                self@ == v.step_view_n(j as nat),
                self@.frames.len() == v.frames.len() + j,
            decreases steps - j,
        {
            self.step();
            j = j + 1;
        }
    }
}

impl Model {
    /// Score the run so far: a sampled total of waiting times and a sampled
    /// motion-coherence total (see [`Stats`]). Sampling positions are drawn
    /// fresh from the operating system, so two calls may differ; the
    /// contract states what holds of every outcome.
    ///
    /// The walks need frames to look ahead into, so a run shorter than 17
    /// recorded frames cannot be scored and yields `None`.
    pub fn stats(&self) -> (r: Option<Stats>)
        requires
            self.wf(),
        ensures
            (r is Some) == (self@.frames.len() > 16),
            r matches Some(st) ==> {
                &&& st.time_in_state_samples == (if time_pool(self@).len() < 1000 {
                    time_pool(self@).len() as int
                } else {
                    1000int
                })
                &&& exists|idx: Seq<usize>|
                    sample_ok(idx, time_pool(self@).len() as int, 1000)
                        && st.time_in_state_total == sum_at(time_pool(self@), idx)
                &&& st.path_score_samples == (if self@.frames.len() - 16 < 100 {
                    self@.frames.len() - 16
                } else {
                    100int
                }) * (if self@.area() < 100 {
                    self@.area()
                } else {
                    100int
                })
                &&& exists|fs: Seq<usize>, cs: Seq<usize>|
                    {
                        &&& sample_ok(fs, self@.frames.len() - 16, 100)
                        &&& sample_ok(cs, self@.area(), 100)
                        &&& st.path_score_total == walks_total(
                            self@.frames,
                            self@.width,
                            self@.height,
                            fs,
                            cs,
                        )
                    }
                &&& st.path_score_total <= 450 * st.path_score_samples
                &&& (forall|k1: int, k2: int|
                    0 <= k1 < self@.frames.len() && 0 <= k2 < self@.frames.len()
                        ==> #[trigger] self@.frames[k1] == #[trigger] self@.frames[k2])
                    ==> st.path_score_total == 0
            },
    {
        let flen = self.frames.len();
        if flen <= 16 {
            return None;
        }
        let mut rng = fresh_rng();
        let mut pool: Vec<u32> = Vec::new();
        let mut i: usize = 0;
        while i < self.transition_times.len()
            invariant
                i <= self@.transition_times.len(),
                pool@ == self@.transition_times.take(i as int),
            decreases self@.transition_times.len() - i,
        {
            proof {
                assert(self@.transition_times.take(i + 1) =~= self@.transition_times.take(
                    i as int,
                ).push(self@.transition_times[i as int]));
            }
            pool.push(self.transition_times[i]);
            i = i + 1;
        }
        proof {
            assert(self@.transition_times.take(self@.transition_times.len() as int)
                =~= self@.transition_times);
        }
        let mut i: usize = 0;
        while i < self.time_in_state.len()
            invariant
                i <= self@.time_in_state.len(),
                pool@ == self@.transition_times + self@.time_in_state.take(i as int),
            decreases self@.time_in_state.len() - i,
        {
            proof {
                assert(self@.transition_times + self@.time_in_state.take(i + 1)
                    =~= (self@.transition_times + self@.time_in_state.take(i as int)).push(
                    self@.time_in_state[i as int],
                ));
            }
            pool.push(self.time_in_state[i]);
            i = i + 1;
        }
        proof {
            assert(pool@ =~= time_pool(self@));
        }
        let idx = sample_indices(&mut rng, pool.len(), 1000);
        let time_total = sum_samples(&pool, &idx);
        let time_samples = idx.len() as u64;

        let fs = sample_indices(&mut rng, flen - 16, 100);
        let cs = sample_indices(&mut rng, self.state.len(), 100);
        let ghost gf = self@.frames;
        proof {
            assert(gf =~~= grids_view(self.frames@));
            assert forall|k: int| 0 <= k < self.frames@.len() implies (#[trigger] self.frames@[k])@.len()
                == self.width * self.height by {
                assert(self@.grid_ok(self@.frames[k]));
            }
        }
        let mut total: u64 = 0;
        let mut a: usize = 0;
        while a < fs.len()
            invariant
                self.wf(),
                gf == self@.frames,
                gf =~~= grids_view(self.frames@),
                forall|k: int|
                    0 <= k < self.frames@.len() ==> (#[trigger] self.frames@[k])@.len()
                        == self.width * self.height,
                flen == self@.frames.len(),
                flen > 16,
                fs@.len() <= 100,
                cs@.len() <= 100,
                forall|m: int| 0 <= m < fs@.len() ==> #[trigger] fs@[m] < flen - 16,
                forall|m: int| 0 <= m < cs@.len() ==> #[trigger] cs@[m] < self@.area(),
                a <= fs@.len(),
                total == walks_total(gf, self@.width, self@.height, fs@.take(a as int), cs@),
                total <= 450 * a * cs@.len(),
            decreases fs@.len() - a,
        {
            let frame = fs[a];
            let mut row: u64 = 0;
            let mut b: usize = 0;
            while b < cs.len()
                invariant
                    self.wf(),
                    gf == self@.frames,
                    gf =~~= grids_view(self.frames@),
                    forall|k: int|
                        0 <= k < self.frames@.len() ==> (#[trigger] self.frames@[k])@.len()
                            == self.width * self.height,
                    flen == self@.frames.len(),
                    flen > 16,
                    cs@.len() <= 100,
                    forall|m: int| 0 <= m < cs@.len() ==> #[trigger] cs@[m] < self@.area(),
                    frame < flen - 16,
                    b <= cs@.len(),
                    row == crate::stats::row_total(
                        gf,
                        self@.width,
                        self@.height,
                        frame as int,
                        cs@.take(b as int),
                    ),
                    row <= 450 * b,
                decreases cs@.len() - b,
            {
                proof {
                    assert(cs@.take(b + 1).drop_last() =~= cs@.take(b as int));
                    assert(cs@.take(b + 1).last() == cs@[b as int]);
                    assert(450 * (b + 1) == 450 * b + 450) by (nonlinear_arith);
                }
                let c = path_walk(&self.frames, (self.width, self.height), frame, cs[b]);
                row = row + c;
                b = b + 1;
            }
            proof {
                assert(cs@.take(cs@.len() as int) =~= cs@);
                assert(fs@.take(a + 1).drop_last() =~= fs@.take(a as int));
                assert(fs@.take(a + 1).last() == fs@[a as int]);
                assert(450 * (a + 1) * cs@.len() == 450 * a * cs@.len() + 450 * cs@.len())
                    by (nonlinear_arith);
                assert(450 * a * cs@.len() <= 450 * 100 * 100) by (nonlinear_arith)
                    requires
                        0 <= a <= 100,
                        0 <= cs@.len() <= 100,
                ;
            }
            total = total + row;
            a = a + 1;
        }
        proof {
            assert(fs@.take(fs@.len() as int) =~= fs@);
        }
        proof {
            assert(fs@.len() * cs@.len() <= 10000) by (nonlinear_arith)
                requires
                    fs@.len() <= 100,
                    cs@.len() <= 100,
            ;
        }
        let path_samples = fs.len() * cs.len();
        let st = Stats {
            time_in_state_total: time_total,
            time_in_state_samples: time_samples,
            path_score_total: total,
            path_score_samples: path_samples as u64,
        };
        proof {
            assert(sample_ok(idx@, time_pool(self@).len() as int, 1000));
            assert(exists|idx2: Seq<usize>|
                sample_ok(idx2, time_pool(self@).len() as int, 1000)
                    && st.time_in_state_total == sum_at(time_pool(self@), idx2));
            assert(sample_ok(fs@, self@.frames.len() - 16, 100));
            assert(sample_ok(cs@, self@.area(), 100));
            assert(exists|fs2: Seq<usize>, cs2: Seq<usize>|
                {
                    &&& sample_ok(fs2, self@.frames.len() - 16, 100)
                    &&& sample_ok(cs2, self@.area(), 100)
                    &&& st.path_score_total == walks_total(
                        self@.frames,
                        self@.width,
                        self@.height,
                        fs2,
                        cs2,
                    )
                });
            lemma_walks_bounds(gf, self@.width, self@.height, fs@, cs@);
            assert(450 * fs@.len() * cs@.len() == 450 * (fs@.len() * cs@.len()))
                by (nonlinear_arith);
            if forall|k1: int, k2: int|
                0 <= k1 < self@.frames.len() && 0 <= k2 < self@.frames.len()
                    ==> #[trigger] self@.frames[k1] == #[trigger] self@.frames[k2] {
                assert forall|m: int| 0 <= m < fs@.len() implies gf[#[trigger] fs@[m] + 1]
                    == gf[fs@[m] as int] by {
                    assert(0 <= fs@[m] < self@.frames.len());
                    assert(0 <= fs@[m] + 1 < self@.frames.len());
                }
                lemma_walks_zero(gf, self@.width, self@.height, fs@, cs@);
            }
        }
        Some(st)
    }
}

/// Stepping depends on nothing but the rules, the grid dimensions and the
/// grid itself: two models that agree on those — whatever their histories —
/// hold identical grids after any number of steps. With a deterministic
/// seed-to-model construction this makes whole runs reproducible.
pub proof fn lemma_steps_determined(a: ModelView, b: ModelView, n: nat)
    requires
        a.rules == b.rules,
        a.width == b.width,
        a.height == b.height,
        a.state == b.state,
    ensures
        a.step_view_n(n).state == b.step_view_n(n).state,
        a.step_view_n(n).rules == b.step_view_n(n).rules,
        a.step_view_n(n).width == b.step_view_n(n).width,
        a.step_view_n(n).height == b.step_view_n(n).height,
    decreases n,
{
    if n > 0 {
        lemma_steps_determined(a, b, (n - 1) as nat);
        let a1 = a.step_view_n((n - 1) as nat);
        let b1 = b.step_view_n((n - 1) as nat);
        assert forall|i: int| true implies a1.next_cell(i) == b1.next_cell(i) by {
            lemma_next_cell_determined(a1, b1, 0, i);
        }
        assert(a1.step_state() =~= b1.step_state());
    }
}

/// The next state of a cell reads only the rules, the dimensions and the
/// grid.
pub proof fn lemma_next_cell_determined(a: ModelView, b: ModelView, k: int, i: int)
    requires
        a.rules == b.rules,
        a.width == b.width,
        a.height == b.height,
        a.state == b.state,
    ensures
        a.next_cell_from(k, i) == b.next_cell_from(k, i),
    decreases a.rules.len() - k,
{
    if 0 <= k < a.rules.len() {
        lemma_next_cell_determined(a, b, k + 1, i);
    }
}

/// Rule order matters: when the first two rules of a model both fire on a
/// cell, the first one wins, so swapping them changes that cell's next
/// state whenever their results differ.
pub proof fn lemma_rule_order_matters(a: ModelView, b: ModelView, i: int)
    requires
        a.rules.len() >= 2,
        b.rules.len() >= 2,
        b.rules[0] == a.rules[1],
        b.rules[1] == a.rules[0],
        a.width == b.width,
        a.height == b.height,
        a.state == b.state,
        a.rules[0].apply_spec(i, a.width, a.height, a.state) is Some,
        a.rules[1].apply_spec(i, a.width, a.height, a.state) is Some,
        a.rules[0].result != a.rules[1].result,
    ensures
        a.next_cell(i) == a.rules[0].result,
        b.next_cell(i) == a.rules[1].result,
        a.next_cell(i) != b.next_cell(i),
{
}

/// Stepping `n` times in one call is stepping one step and then `n - 1`
/// more: the two ways a caller can drive the model agree exactly.
pub proof fn lemma_step_for_matches_step_loop(v: ModelView, n: nat)
    requires
        n >= 1,
    ensures
        v.step_view_n(n) == v.step_view().step_view_n((n - 1) as nat),
    decreases n,
{
    if n == 1 {
        assert(v.step_view_n(1) == v.step_view_n(0).step_view());
        assert(v.step_view().step_view_n(0) == v.step_view());
    } else {
        lemma_step_for_matches_step_loop(v, (n - 1) as nat);
        let w = v.step_view();
        assert((n - 1) as nat - 1 == (n - 2) as nat);
        assert(v.step_view_n((n - 1) as nat) == w.step_view_n((n - 2) as nat));
        assert(w.step_view_n((n - 1) as nat) == w.step_view_n((n - 2) as nat).step_view());
        assert(v.step_view_n(n) == v.step_view_n((n - 1) as nat).step_view());
    }
}

/// A grid of `n` cells, each drawn uniformly below `state_count`.
fn random_grid(n: u32, state_count: u32, rng: &mut SmallRng) -> (r: Vec<State>)
    requires
        state_count >= 1,
    ensures
        r@.len() == n,
        forall|i: int| 0 <= i < r@.len() ==> (#[trigger] r@[i]).0 < state_count,
{
    let mut r: Vec<State> = Vec::new();
    let mut i: u32 = 0;
    while i < n
        invariant
            state_count >= 1,
            i <= n,
            r@.len() == i,
            forall|m: int| 0 <= m < r@.len() ==> (#[trigger] r@[m]).0 < state_count,
        decreases n - i,
    {
        r.push(State(gen_range_u32(rng, 0, state_count)));
        i = i + 1;
    }
    r
}

} // verus!
