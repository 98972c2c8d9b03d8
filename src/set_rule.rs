use crate::cube_grid::Coord;
use crate::state::{lemma_filter_all, lemma_filter_filter, overlaps, SetState};
use rand::Rng;
use vstd::prelude::*;

verus! {

/// Relies on rand's `thread_rng().gen_range(0..bound)`: a value below `bound`
/// (the range is never empty here).
#[verifier::external_body]
fn random_below(bound: u128) -> (r: u128)
    requires
        bound > 0,
    ensures
        r < bound,
{
    rand::thread_rng().gen_range(0..bound)
}

/// Why an observer could not commit a cell.
#[derive(Clone, Copy, Debug, PartialEq, Eq)]
pub enum ObserveError {
    /// The cell has no candidate left.
    NoCandidates,
    /// A candidate has no entry in the weight table.
    MissingWeight(u64),
    /// Every candidate weighs zero.
    ZeroTotalWeight,
}

/// A policy that commits a cell to one of its candidates.
pub trait SetCollapseObserver {
    /// Whether a cell holding `candidates` can be committed.
    spec fn succeeds(&self, candidates: Seq<u64>) -> bool;

    /// Whether `chosen` is an admissible pick among `candidates`.
    spec fn admits(&self, candidates: Seq<u64>, chosen: u64) -> bool;

    /// The error reported for `candidates` when they cannot be committed.
    spec fn failure(&self, candidates: Seq<u64>) -> ObserveError;

    /// Narrows `cell` to one admissible candidate, or leaves it as it is and
    /// reports why it could not.
    fn observe(&self, cell: &mut SetState, neighbors: &[Option<SetState>]) -> (r: Result<
        (),
        ObserveError,
    >)
        requires
            old(cell).wf(),
        ensures
            final(cell).wf(),
            r is Ok <==> self.succeeds(old(cell)@),
            r is Ok ==> final(cell)@.len() == 1 && self.admits(old(cell)@, final(cell)@[0])
                && old(cell)@.contains(final(cell)@[0]),
            r is Err ==> final(cell)@ == old(cell)@ && r->Err_0 == self.failure(old(cell)@),
    ;
}

/// Picks among the candidates with equal chance.
#[derive(Clone, Copy, Debug)]
pub struct UniformSetCollapseObserver;

impl SetCollapseObserver for UniformSetCollapseObserver {
    open spec fn succeeds(&self, candidates: Seq<u64>) -> bool {
        candidates.len() > 0
    }

    open spec fn admits(&self, candidates: Seq<u64>, chosen: u64) -> bool {
        candidates.contains(chosen)
    }

    open spec fn failure(&self, candidates: Seq<u64>) -> ObserveError {
        ObserveError::NoCandidates
    }

    fn observe(&self, cell: &mut SetState, neighbors: &[Option<SetState>]) -> (r: Result<
        (),
        ObserveError,
    >) {
        if cell.len() == 0 {
            return Err(ObserveError::NoCandidates);
        }
        let draw = random_below(cell.len() as u128) as usize;
        let ghost c = cell@;
        *cell = pick_uniform(cell, draw);
        assert(c.contains(c[draw as int]));
        Ok(())
    }
}

/// The final state of the candidate at position `draw`: what the uniform
/// observer commits to when the draw is `draw`.
pub fn pick_uniform(cell: &SetState, draw: usize) -> (r: SetState)
    requires
        draw < cell@.len(),
    ensures
        r@ == seq![cell@[draw as int]],
        r.wf(),
{
    let mut final_states: Vec<SetState> = Vec::new();
    cell.collect_final_states(&mut final_states);
    assert(final_states@[0 + draw as int]@ == seq![cell@[draw as int]]);
    final_states[draw].clone()
}

/// Sum of the first `k` weights.
pub open spec fn weight_sum(w: Seq<u32>, k: int) -> int
    decreases k,
{
    if k <= 0 || w.len() == 0 {
        0
    } else {
        weight_sum(w, k - 1) + w[k - 1]
    }
}

/// The draw `d` falls in the bucket of index `i`: at or past the weights before
/// it, below those up to and including it.
pub open spec fn draw_hits(w: Seq<u32>, d: int, i: int) -> bool {
    weight_sum(w, i) <= d < weight_sum(w, i + 1)
}

/// The draws that land on index `i` are the `w[i]` integers from the sum of the
/// weights before it: a uniform draw below the total picks `i` with chance
/// `w[i] / total`, and never picks an index of weight zero.
pub proof fn lemma_draw_share(w: Seq<u32>, d: int, i: int)
    requires
        0 <= i < w.len(),
    ensures
        draw_hits(w, d, i) <==> weight_sum(w, i) <= d < weight_sum(w, i) + w[i],
        w[i] == 0 ==> !draw_hits(w, d, i),
{
}

/// The first bucket whose running weight exceeds `draw`, and whose own weight is
/// not zero; `None` when the draw is not below the total.
pub fn pick_weighted(weights: &Vec<u32>, draw: u128) -> (r: Option<usize>)
    ensures
        match r {
            Some(i) => i < weights@.len() && draw_hits(weights@, draw as int, i as int),
            None => draw >= weight_sum(weights@, weights@.len() as int),
        },
{
    let mut acc: u128 = 0;
    let mut i: usize = 0;
    while i < weights.len()
        invariant
            0 <= i <= weights@.len(),
            acc == weight_sum(weights@, i as int),
            acc <= i * 0xFFFF_FFFF,
            draw >= acc,
        decreases weights@.len() - i,
    {
        let prev = acc;
        acc = acc + weights[i] as u128;
        if acc > draw && acc - prev != 0 {
            return Some(i);
        }
        i += 1;
    }
    None
}

/// Picks among the candidates in proportion to their weights; a candidate of
/// weight zero is never picked.
#[verifier::external_body]
pub struct WeightedSetCollapseObserver {
    pub weights: bevy_utils::HashMap<u64, u32>,
}

/// The weight table of an observer.
pub uninterp spec fn weight_table(o: WeightedSetCollapseObserver) -> Map<u64, u32>;

impl WeightedSetCollapseObserver {
    /// Relies on hashbrown's `HashMap::get` (bevy_utils' `HashMap`): the value
    /// stored under `value`, if any.
    #[verifier::external_body]
    fn weight(&self, value: u64) -> (r: Option<u32>)
        ensures
            r is Some <==> weight_table(*self).dom().contains(value),
            r is Some ==> r->0 == weight_table(*self)[value],
    {
        self.weights.get(&value).copied()
    }

    /// Every candidate has a weight.
    pub open spec fn all_weighed(&self, candidates: Seq<u64>) -> bool {
        forall|j: int| 0 <= j < candidates.len() ==> weight_table(*self).dom().contains(#[trigger] candidates[j])
    }

    /// The weights of the candidates, in order.
    pub open spec fn weights_of(&self, candidates: Seq<u64>) -> Seq<u32> {
        candidates.map_values(|v: u64| weight_table(*self)[v])
    }
}

impl SetCollapseObserver for WeightedSetCollapseObserver {
    open spec fn succeeds(&self, candidates: Seq<u64>) -> bool {
        &&& candidates.len() > 0
        &&& self.all_weighed(candidates)
        &&& weight_sum(self.weights_of(candidates), candidates.len() as int) > 0
    }

    open spec fn admits(&self, candidates: Seq<u64>, chosen: u64) -> bool {
        &&& candidates.contains(chosen)
        &&& weight_table(*self)[chosen] > 0
    }

    open spec fn failure(&self, candidates: Seq<u64>) -> ObserveError {
        if candidates.len() == 0 {
            ObserveError::NoCandidates
        } else if !self.all_weighed(candidates) {
            ObserveError::MissingWeight(
                candidates[choose|j: int|
                    0 <= j < candidates.len() && !weight_table(*self).dom().contains(
                        #[trigger] candidates[j],
                    ) && forall|k: int|
                        0 <= k < j ==> weight_table(*self).dom().contains(#[trigger] candidates[k])],
            )
        } else {
            ObserveError::ZeroTotalWeight
        }
    }

    fn observe(&self, cell: &mut SetState, neighbors: &[Option<SetState>]) -> (r: Result<
        (),
        ObserveError,
    >) {
        let values = cell.values();
        if values.len() == 0 {
            return Err(ObserveError::NoCandidates);
        }
        let ghost c = values@;
        let mut weights: Vec<u32> = Vec::new();
        let mut i: usize = 0;
        while i < values.len()
            invariant
                0 <= i <= c.len(),
                values@ == c,
                cell@ == c,
                *cell == *old(cell),
                c.no_duplicates(),
                weights@.len() == i,
                forall|k: int| 0 <= k < i ==> weight_table(*self).dom().contains(#[trigger] c[k]),
                weights@ == self.weights_of(c).take(i as int),
            decreases c.len() - i,
        {
            match self.weight(values[i]) {
                Some(w) => {
                    weights.push(w);
                    assert(weights@ =~= self.weights_of(c).take(i + 1));
                },
                None => {
                    let ghost j = i as int;
                    assert(!self.all_weighed(c));
                    assert(0 <= j < c.len() && !weight_table(*self).dom().contains(c[j])
                        && forall|k: int| 0 <= k < j ==> weight_table(*self).dom().contains(#[trigger] c[k]));
                    proof {
                        let jj = choose|j: int|
                            0 <= j < c.len() && !weight_table(*self).dom().contains(
                                #[trigger] c[j],
                            ) && forall|k: int|
                                0 <= k < j ==> weight_table(*self).dom().contains(#[trigger] c[k]);
                        if jj < j {
                        } else if jj > j {
                            assert(weight_table(*self).dom().contains(c[j]));
                        }
                    }
                    return Err(ObserveError::MissingWeight(values[i]));
                },
            }
            i += 1;
        }
        assert(weights@ =~= self.weights_of(c));
        let total = Self::total_of(&weights);
        if total == 0 {
            return Err(ObserveError::ZeroTotalWeight);
        }
        let draw = random_below(total);
        let picked = pick_weighted(&weights, draw);
        match picked {
            Some(k) => {
                let v = values[k];
                proof {
                    assert(c.contains(c[k as int]));
                    assert(weights@[k as int] > 0);
                }
                *cell = SetState::new_final(v);
                Ok(())
            },
            None => {
                Err(ObserveError::ZeroTotalWeight)
            },
        }
    }
}

impl WeightedSetCollapseObserver {
    /// Sum of all weights.
    fn total_of(weights: &Vec<u32>) -> (r: u128)
        ensures
            r == weight_sum(weights@, weights@.len() as int),
    {
        let mut acc: u128 = 0;
        let mut i: usize = 0;
        while i < weights.len()
            invariant
                0 <= i <= weights@.len(),
                acc == weight_sum(weights@, i as int),
                acc <= i * 0xFFFF_FFFF,
            decreases weights@.len() - i,
        {
            acc = acc + weights[i] as u128;
            i += 1;
        }
        acc
    }
}

/// A compiled rule table: for each rule, a tile value and, per neighbor offset,
/// the tiles allowed there (`None`: no neighbor allowed in that direction).
pub struct SetCollapseRule<O: SetCollapseObserver> {
    neighbor_offsets: Vec<Coord>,
    state_rules: Vec<(u64, Vec<Option<SetState>>)>,
    observer: O,
}

/// The allowed sets of a rule fit the offsets and are well formed.
pub open spec fn allowed_fits(allowed: Seq<Option<SetState>>, n: int) -> bool {
    &&& allowed.len() == n
    &&& forall|i: int| 0 <= i < n && (#[trigger] allowed[i]) is Some ==> allowed[i]->0.wf()
}

impl<O: SetCollapseObserver> SetCollapseRule<O> {
    pub closed spec fn offsets(&self) -> Seq<Coord> {
        self.neighbor_offsets@
    }

    pub closed spec fn rule_count(&self) -> int {
        self.state_rules@.len() as int
    }

    /// The tile value of rule `k`.
    pub closed spec fn rule_state(&self, k: int) -> u64 {
        self.state_rules@[k].0
    }

    /// The allowed neighbor sets of rule `k`, one per offset.
    pub closed spec fn allowed(&self, k: int) -> Seq<Option<SetState>> {
        self.state_rules@[k].1@
    }

    pub closed spec fn observer_spec(&self) -> O {
        self.observer
    }

    /// Every rule has one allowed slot per offset.
    pub open spec fn wf(&self) -> bool {
        forall|k: int|
            0 <= k < self.rule_count() ==> allowed_fits(
                #[trigger] self.allowed(k),
                self.offsets().len() as int,
            )
    }

    /// Rule `k` is broken by the neighbors: some neighbor that exists shares no
    /// tile with what the rule allows in its direction.
    pub open spec fn rule_fails(&self, k: int, nbrs: Seq<Option<SetState>>) -> bool {
        exists|i: int|
            0 <= i < nbrs.len() && (#[trigger] nbrs[i]) is Some && !overlaps(
                nbrs[i]->0@,
                slot_view(self.allowed(k)[i]),
            )
    }

    /// One of the first `n` rules for `v` is broken.
    pub open spec fn rejects_upto(&self, n: int, v: u64, nbrs: Seq<Option<SetState>>) -> bool {
        exists|k: int| 0 <= k < n && #[trigger] self.rule_state(k) == v && self.rule_fails(k, nbrs)
    }

    /// Some rule for `v` is broken by the neighbors.
    pub open spec fn rejects(&self, v: u64, nbrs: Seq<Option<SetState>>) -> bool {
        self.rejects_upto(self.rule_count(), v, nbrs)
    }

    /// What remains of `cell` after one propagation step.
    pub open spec fn narrowed(&self, cell: Seq<u64>, nbrs: Seq<Option<SetState>>) -> Seq<u64> {
        cell.filter(|v: u64| !self.rejects(v, nbrs))
    }

    /// Some rule belongs to `v`.
    pub open spec fn has_rule(&self, v: u64) -> bool {
        exists|k: int| 0 <= k < self.rule_count() && #[trigger] self.rule_state(k) == v
    }

    /// This table is the compiled form of the statements of `b`.
    pub open spec fn compiled_from(&self, b: &SetCollapseRuleBuilder<O>) -> bool {
        &&& self.wf()
        &&& self.offsets() == b.offsets()
        &&& self.offsets().no_duplicates()
        &&& forall|k1: int, k2: int|
            0 <= k1 < k2 < self.rule_count() ==> #[trigger] self.rule_state(k1) != #[trigger] self.rule_state(k2)
        &&& self.observer_spec() == b.observer_spec()
        &&& forall|v: u64| #[trigger] self.has_rule(v) <==> (b.declared(v) || b.all_states().contains(v))
        &&& forall|k: int, i: int, n: u64|
            0 <= k < self.rule_count() && 0 <= i < self.offsets().len() ==> (#[trigger] slot_view(
                self.allowed(k)[i],
            ).contains(n) <==> b.permits(self.rule_state(k), self.offsets()[i], n))
    }

    /// Some rule for `v` is broken by the neighborhood `around`, which gives the
    /// cell (if any) at each offset.
    pub open spec fn rejects_around(
        &self,
        v: u64,
        around: spec_fn(Coord) -> Option<SetState>,
    ) -> bool {
        exists|k: int, i: int|
            0 <= k < self.rule_count() && #[trigger] self.rule_state(k) == v && 0 <= i
                < self.offsets().len() && (#[trigger] around(self.offsets()[i])) is Some
                && !overlaps(around(self.offsets()[i])->0@, slot_view(self.allowed(k)[i]))
    }

    /// Neighborhoods that hold the same tiles in the same slots give the same
    /// propagation step.
    pub proof fn lemma_narrowed_views(
        &self,
        cell: Seq<u64>,
        a: Seq<Option<SetState>>,
        b: Seq<Option<SetState>>,
    )
        requires
            a.len() == b.len(),
            forall|i: int| 0 <= i < a.len() ==> same_slot(#[trigger] a[i], b[i]),
        ensures
            self.narrowed(cell, a) == self.narrowed(cell, b),
    {
        assert forall|k: int| #[trigger] self.rule_fails(k, a) == self.rule_fails(k, b) by {
            if self.rule_fails(k, a) {
                let i = choose|i: int|
                    0 <= i < a.len() && (#[trigger] a[i]) is Some && !overlaps(
                        a[i]->0@,
                        slot_view(self.allowed(k)[i]),
                    );
                assert(same_slot(a[i], b[i]));
                assert(b[i] is Some);
            }
            if self.rule_fails(k, b) {
                let i = choose|i: int|
                    0 <= i < b.len() && (#[trigger] b[i]) is Some && !overlaps(
                        b[i]->0@,
                        slot_view(self.allowed(k)[i]),
                    );
                assert(same_slot(a[i], b[i]));
                assert(a[i] is Some);
            }
        }
        assert((|v: u64| !self.rejects(v, a)) =~= (|v: u64| !self.rejects(v, b)));
    }

    /// A propagation step never adds a tile: the cell keeps a subset of its
    /// candidates, so its size never grows.
    pub proof fn lemma_collapse_shrinks(&self, cell: Seq<u64>, nbrs: Seq<Option<SetState>>)
        ensures
            self.narrowed(cell, nbrs).len() <= cell.len(),
            forall|v: u64| #[trigger] self.narrowed(cell, nbrs).contains(v) ==> cell.contains(v),
    {
        broadcast use Seq::lemma_filter_contains_rev;
        cell.lemma_filter_len(|v: u64| !self.rejects(v, nbrs));
    }

    /// A second propagation step with the same neighbors changes nothing.
    pub proof fn lemma_collapse_idempotent(&self, cell: Seq<u64>, nbrs: Seq<Option<SetState>>)
        ensures
            self.narrowed(self.narrowed(cell, nbrs), nbrs) == self.narrowed(cell, nbrs),
    {
        let p = |v: u64| !self.rejects(v, nbrs);
        lemma_filter_filter(cell, p, p);
        assert((|v: u64| p(v) && p(v)) =~= p);
    }

    /// The neighbor offsets, in the order of the allowed slots.
    pub fn neighbor_offsets(&self) -> (r: &Vec<Coord>)
        ensures
            r@ == self.offsets(),
    {
        &self.neighbor_offsets
    }

    /// Removes from `cell` every tile with a rule that its neighbors break.
    /// `neighbors[i]` is the cell at offset `i`, `None` outside the space.
    pub fn collapse(&self, cell: &mut SetState, neighbors: &[Option<SetState>])
        requires
            self.wf(),
            old(cell).wf(),
            neighbors@.len() <= self.offsets().len(),
        ensures
            final(cell).wf(),
            final(cell)@ == self.narrowed(old(cell)@, neighbors@),
    {
        let ghost start = cell@;
        let ghost nbrs = neighbors@;
        let mut k: usize = 0;
        proof {
            assert(start.filter(|v: u64| !self.rejects_upto(0, v, nbrs)) == start) by {
                lemma_filter_all(start, |v: u64| !self.rejects_upto(0, v, nbrs));
            }
        }
        while k < self.state_rules.len()
            invariant
                0 <= k <= self.rule_count(),
                self.wf(),
                nbrs == neighbors@,
                nbrs.len() <= self.offsets().len(),
                cell.wf(),
                start == old(cell)@,
                cell@ == start.filter(|v: u64| !self.rejects_upto(k as int, v, nbrs)),
            decreases self.rule_count() - k,
        {
            let state = self.state_rules[k].0;
            let allowed = &self.state_rules[k].1;
            proof {
                assert(allowed_fits(self.allowed(k as int), self.offsets().len() as int));
            }
            let mut allow_all = true;
            let mut i: usize = 0;
            while i < neighbors.len()
                invariant
                    0 <= i <= nbrs.len(),
                    nbrs == neighbors@,
                    nbrs.len() <= allowed@.len(),
                    allowed@ == self.allowed(k as int),
                    allow_all == !(exists|j: int|
                        0 <= j < i && (#[trigger] nbrs[j]) is Some && !overlaps(
                            nbrs[j]->0@,
                            slot_view(self.allowed(k as int)[j]),
                        )),
                decreases nbrs.len() - i,
            {
                if let Some(neighbor_state) = &neighbors[i] {
                    let allow = match &allowed[i] {
                        Some(allowed_state) => neighbor_state.has_any_of(allowed_state),
                        None => {
                            assert(!overlaps(neighbor_state@, Seq::<u64>::empty()));
                            false
                        },
                    };
                    if !allow {
                        allow_all = false;
                    }
                }
                i += 1;
            }
            let ghost before = cell@;
            let ghost p = |v: u64| !self.rejects_upto(k as int, v, nbrs);
            let ghost p1 = |v: u64| !self.rejects_upto(k + 1, v, nbrs);
            if !allow_all {
                cell.remove(state);
                proof {
                    let q = |v: u64| v != state;
                    assert(q =~= (|v: u64| v != state));
                    assert(cell@ == before.filter(q));
                    lemma_filter_filter(start, p, q);
                    assert forall|v: u64| #[trigger] p1(v) == (p(v) && v != state) by {
                        if v == state {
                            assert(self.rule_state(k as int) == v);
                        }
                        if self.rejects_upto(k + 1, v, nbrs) && v != state {
                            let kk = choose|kk: int| 0 <= kk < k + 1 && #[trigger] self.rule_state(kk) == v && self.rule_fails(kk, nbrs);
                            assert(kk < k);
                        }
                    }
                    assert((|v: u64| p(v) && q(v)) =~= p1);
                }
            } else {
                proof {
                    assert forall|v: u64| #[trigger] p1(v) == p(v) by {
                        if self.rejects_upto(k + 1, v, nbrs) {
                            let kk = choose|kk: int| 0 <= kk < k + 1 && #[trigger] self.rule_state(kk) == v && self.rule_fails(kk, nbrs);
                            assert(kk < k);
                        }
                    }
                    assert(p =~= p1);
                    assert(cell@ == start.filter(p1));
                }
            }
            assert(cell@ == start.filter(p1));
            k += 1;
        }
        assert((|v: u64| !self.rejects_upto(k as int, v, nbrs)) =~= (|v: u64| !self.rejects(v, nbrs)));
    }

    /// Commits `cell` to one tile through the configured observer.
    pub fn observe(&self, cell: &mut SetState, neighbors: &[Option<SetState>]) -> (r: Result<
        (),
        ObserveError,
    >)
        requires
            old(cell).wf(),
        ensures
            final(cell).wf(),
            r is Ok <==> self.observer_spec().succeeds(old(cell)@),
            r is Ok ==> final(cell)@.len() == 1 && self.observer_spec().admits(
                old(cell)@,
                final(cell)@[0],
            ) && old(cell)@.contains(final(cell)@[0]),
            r is Err ==> final(cell)@ == old(cell)@ && r->Err_0 == self.observer_spec().failure(
                old(cell)@,
            ),
    {
        self.observer.observe(cell, neighbors)
    }
}

/// Tiles allowed next to one tile value, per offset index of the builder.
struct StateRule {
    state: u64,
    allowed_neighbors: Vec<Option<SetState>>,
}

/// The tiles that an allowed slot holds; none for an empty slot.
pub open spec fn slot_view(o: Option<SetState>) -> Seq<u64> {
    match o {
        Some(s) => s@,
        None => Seq::empty(),
    }
}

/// Every filled slot is well formed.
pub open spec fn slots_wf(slots: Seq<Option<SetState>>) -> bool {
    forall|i: int| 0 <= i < slots.len() && (#[trigger] slots[i]) is Some ==> slots[i]->0.wf()
}

/// Two slots are both empty, or both filled with the same tiles.
pub open spec fn same_slot(a: Option<SetState>, b: Option<SetState>) -> bool {
    (a is Some <==> b is Some) && slot_view(a) == slot_view(b)
}

/// Copies a slot, keeping what it holds.
fn clone_slot(o: &Option<SetState>) -> (r: Option<SetState>)
    ensures
        same_slot(*o, r),
{
    match o {
        Some(s) => Some(s.clone()),
        None => None,
    }
}

impl StateRule {
    /// Adds the tiles of `allowed` to the slot `neighbor_index`, first padding the
    /// slots with empty ones up to it.
    fn add_allowed(&mut self, neighbor_index: usize, allowed: &SetState)
        requires
            slots_wf(old(self).allowed_neighbors@),
            allowed.wf(),
            neighbor_index < usize::MAX,
        ensures
            final(self).state == old(self).state,
            slots_wf(final(self).allowed_neighbors@),
            final(self).allowed_neighbors@.len() == if neighbor_index
                < old(self).allowed_neighbors@.len() {
                old(self).allowed_neighbors@.len() as int
            } else {
                neighbor_index + 1
            },
            forall|i: int|
                0 <= i < final(self).allowed_neighbors@.len() && i != neighbor_index ==> (
                #[trigger] final(self).allowed_neighbors@[i]) == if i
                    < old(self).allowed_neighbors@.len() {
                    old(self).allowed_neighbors@[i]
                } else {
                    None
                },
            final(self).allowed_neighbors@[neighbor_index as int] is Some,
            slot_view(final(self).allowed_neighbors@[neighbor_index as int]) == crate::state::union_with(
                if neighbor_index < old(self).allowed_neighbors@.len() {
                    slot_view(old(self).allowed_neighbors@[neighbor_index as int])
                } else {
                    Seq::empty()
                },
                allowed@,
            ),
    {
        while self.allowed_neighbors.len() <= neighbor_index
            invariant
                neighbor_index < usize::MAX,
                self.state == old(self).state,
                slots_wf(self.allowed_neighbors@),
                old(self).allowed_neighbors@.len() <= self.allowed_neighbors@.len(),
                self.allowed_neighbors@.len() <= neighbor_index + 1 || self.allowed_neighbors@.len()
                    == old(self).allowed_neighbors@.len(),
                forall|i: int|
                    0 <= i < self.allowed_neighbors@.len() ==> (#[trigger] self.allowed_neighbors@[i])
                        == if i < old(self).allowed_neighbors@.len() {
                        old(self).allowed_neighbors@[i]
                    } else {
                        None
                    },
            decreases neighbor_index + 1 - self.allowed_neighbors@.len(),
        {
            self.allowed_neighbors.push(None);
        }
        let mut merged = match &self.allowed_neighbors[neighbor_index] {
            Some(a) => a.clone(),
            None => SetState::new(),
        };
        merged.set_states(allowed);
        self.allowed_neighbors.set(neighbor_index, Some(merged));
    }
}

/// The statement `allow(state, nbrs)` allows tile `n` at offset `d` of tile `s`.
pub open spec fn stated(
    state: Seq<u64>,
    nbrs: Seq<(Coord, SetState)>,
    s: u64,
    d: Coord,
    n: u64,
) -> bool {
    state.contains(s) && exists|j: int|
        0 <= j < nbrs.len() && (#[trigger] nbrs[j]).0 == d && nbrs[j].1@.contains(n)
}

/// `acc` followed by the offsets of `nbrs` that carry at least one tile and are
/// not yet listed, each once, in the order first met.
pub open spec fn offsets_after(acc: Seq<Coord>, nbrs: Seq<(Coord, SetState)>) -> Seq<Coord>
    decreases nbrs.len(),
{
    if nbrs.len() == 0 {
        acc
    } else {
        let prev = offsets_after(acc, nbrs.drop_last());
        let d = nbrs.last().0;
        if nbrs.last().1@.len() > 0 && !prev.contains(d) {
            prev.push(d)
        } else {
            prev
        }
    }
}

/// Offsets that are all listed already add nothing.
pub proof fn lemma_offsets_after_fixed(acc: Seq<Coord>, nbrs: Seq<(Coord, SetState)>)
    requires
        forall|j: int|
            0 <= j < nbrs.len() && (#[trigger] nbrs[j]).1@.len() > 0 ==> acc.contains(nbrs[j].0),
    ensures
        offsets_after(acc, nbrs) == acc,
    decreases nbrs.len(),
{
    if nbrs.len() > 0 {
        let d = nbrs.drop_last();
        assert forall|j: int|
            0 <= j < d.len() && (#[trigger] d[j]).1@.len() > 0 implies acc.contains(d[j].0) by {
            assert(d[j] == nbrs[j]);
        }
        lemma_offsets_after_fixed(acc, d);
        assert(nbrs.last() == nbrs[nbrs.len() - 1]);
    }
}

/// Some entry of `nbrs` names offset `d` with at least one tile.
pub open spec fn names_offset(nbrs: Seq<(Coord, SetState)>, d: Coord) -> bool {
    exists|j: int| 0 <= j < nbrs.len() && (#[trigger] nbrs[j]).0 == d && nbrs[j].1@.len() > 0
}

/// Collects `allow` statements and compiles them into a [`SetCollapseRule`].
pub struct SetCollapseRuleBuilder<O: SetCollapseObserver> {
    neighbor_offsets: Vec<Coord>,
    state_rules: Vec<StateRule>,
    observer: O,
    all_state: SetState,
}

impl<O: SetCollapseObserver> SetCollapseRuleBuilder<O> {
    pub closed spec fn offsets(&self) -> Seq<Coord> {
        self.neighbor_offsets@
    }

    pub closed spec fn all_states(&self) -> Seq<u64> {
        self.all_state@
    }

    pub closed spec fn observer_spec(&self) -> O {
        self.observer
    }

    /// Tile values that have a rule of their own.
    pub closed spec fn declared(&self, s: u64) -> bool {
        exists|k: int| 0 <= k < self.state_rules@.len() && #[trigger] self.state_rules@[k].state == s
    }

    /// The statements so far allow tile `n` at offset `d` of tile `s`.
    pub closed spec fn permits(&self, s: u64, d: Coord, n: u64) -> bool {
        exists|k: int, j: int|
            0 <= k < self.state_rules@.len() && #[trigger] self.state_rules@[k].state == s && 0 <= j
                < self.state_rules@[k].allowed_neighbors@.len() && #[trigger] self.neighbor_offsets@[j] == d
                && slot_view(self.state_rules@[k].allowed_neighbors@[j]).contains(n)
    }

    pub closed spec fn wf(&self) -> bool {
        &&& self.neighbor_offsets@.no_duplicates()
        &&& self.all_state.wf()
        &&& forall|k: int|
            0 <= k < self.state_rules@.len() ==> {
                &&& (#[trigger] self.state_rules@[k]).allowed_neighbors@.len()
                    <= self.neighbor_offsets@.len()
                &&& slots_wf(self.state_rules@[k].allowed_neighbors@)
            }
        &&& forall|a: int, b: int|
            0 <= a < b < self.state_rules@.len() ==> #[trigger] self.state_rules@[a].state
                != #[trigger] self.state_rules@[b].state
    }

    /// A builder with no statements, for the tile universe `all_state`.
    pub fn new(observer: O, all_state: SetState) -> (r: Self)
        requires
            all_state.wf(),
        ensures
            r.wf(),
            r.offsets() == Seq::<Coord>::empty(),
            r.offsets().no_duplicates(),
            r.all_states() == all_state@,
            r.observer_spec() == observer,
            forall|s: u64, d: Coord, n: u64| !r.permits(s, d, n),
            forall|s: u64| !r.declared(s),
    {
        SetCollapseRuleBuilder {
            neighbor_offsets: Vec::new(),
            state_rules: Vec::new(),
            observer,
            all_state,
        }
    }

    /// Index of `offset`, appended if it is new.
    fn get_offset_index(&mut self, offset: Coord) -> (r: usize)
        requires
            old(self).wf(),
        ensures
            final(self).wf(),
            final(self).state_rules == old(self).state_rules,
            final(self).observer == old(self).observer,
            final(self).all_state == old(self).all_state,
            final(self).offsets() == if old(self).offsets().contains(offset) {
                old(self).offsets()
            } else {
                old(self).offsets().push(offset)
            },
            r < final(self).offsets().len(),
            final(self).offsets()[r as int] == offset,
    {
        let mut i: usize = 0;
        while i < self.neighbor_offsets.len()
            invariant
                0 <= i <= self.neighbor_offsets@.len(),
                *self == *old(self),
                self.wf(),
                forall|j: int| 0 <= j < i ==> self.neighbor_offsets@[j] != offset,
            decreases self.neighbor_offsets@.len() - i,
        {
            let o = self.neighbor_offsets[i];
            if o.0 == offset.0 && o.1 == offset.1 && o.2 == offset.2 {
                proof {
                    assert(self.offsets().contains(self.neighbor_offsets@[i as int]));
                }
                return i;
            }
            i += 1;
        }
        let n = self.neighbor_offsets.len();
        self.neighbor_offsets.push(offset);
        proof {
            crate::state::lemma_push_contains_coord(old(self).offsets(), offset);
        }
        n
    }

    /// Index of the rule of `state`, appended with no allowed tiles if it is new.
    fn get_rule(&mut self, state: u64) -> (r: usize)
        requires
            old(self).wf(),
        ensures
            final(self).wf(),
            final(self).neighbor_offsets == old(self).neighbor_offsets,
            final(self).observer == old(self).observer,
            final(self).all_state == old(self).all_state,
            r < final(self).state_rules@.len(),
            final(self).state_rules@[r as int].state == state,
            old(self).state_rules@.len() <= final(self).state_rules@.len(),
            forall|k: int|
                0 <= k < old(self).state_rules@.len() ==> #[trigger] final(self).state_rules@[k]
                    == old(self).state_rules@[k],
            r >= old(self).state_rules@.len() ==> final(self).state_rules@[r as int].allowed_neighbors@.len() == 0,
            final(self).state_rules@.len() <= old(self).state_rules@.len() + 1,
            r < old(self).state_rules@.len() || r == old(self).state_rules@.len(),
            r < old(self).state_rules@.len() ==> final(self).state_rules@.len() == old(self).state_rules@.len(),
            r == old(self).state_rules@.len() ==> final(self).state_rules@.len() == old(self).state_rules@.len() + 1,
    {
        let mut i: usize = 0;
        while i < self.state_rules.len()
            invariant
                0 <= i <= self.state_rules@.len(),
                *self == *old(self),
                self.wf(),
                forall|j: int| 0 <= j < i ==> self.state_rules@[j].state != state,
            decreases self.state_rules@.len() - i,
        {
            if self.state_rules[i].state == state {
                return i;
            }
            i += 1;
        }
        let n = self.state_rules.len();
        self.state_rules.push(StateRule { state, allowed_neighbors: Vec::new() });
        n
    }

    /// Records that tile `nb`'s values may stand at `offset` of tile `state`.
    fn add_one(&mut self, state: u64, offset: Coord, nb: &SetState)
        requires
            old(self).wf(),
            nb.wf(),
        ensures
            final(self).wf(),
            final(self).observer == old(self).observer,
            final(self).all_state == old(self).all_state,
            final(self).offsets() == if old(self).offsets().contains(offset) {
                old(self).offsets()
            } else {
                old(self).offsets().push(offset)
            },
            forall|s: u64, d: Coord, n: u64|
                #[trigger] final(self).permits(s, d, n) <==> (old(self).permits(s, d, n) || (s
                    == state && d == offset && nb@.contains(n))),
            forall|s: u64| #[trigger] final(self).declared(s) <==> (old(self).declared(s) || s == state),
    {
        let j = self.get_offset_index(offset);
        // The offset count is a `usize`, so the new index is below `usize::MAX`.
        let _offset_count = self.neighbor_offsets.len();
        let k = self.get_rule(state);
        let ghost mid = self.state_rules@;
        proof {
            assert(j < usize::MAX);
        }
        self.state_rules[k].add_allowed(j, nb);
        proof {
            crate::state::lemma_union_contains(
                if j < mid[k as int].allowed_neighbors@.len() {
                    slot_view(mid[k as int].allowed_neighbors@[j as int])
                } else {
                    Seq::empty()
                },
                nb@,
            );
            let o = old(self);
            assert(self.state_rules@[k as int].state == state);
            assert(self.state_rules@.len() == mid.len());
            assert forall|kk: int| 0 <= kk < self.state_rules@.len() && kk != k implies #[trigger] self.state_rules@[kk] == mid[kk] by {}
            assert forall|s: u64, d: Coord, n: u64|
                #[trigger] self.permits(s, d, n) <==> (o.permits(s, d, n) || (s == state && d == offset && nb@.contains(n))) by {
                if self.permits(s, d, n) {
                    let (k2, j2) = choose|k2: int, j2: int|
                        0 <= k2 < self.state_rules@.len() && #[trigger] self.state_rules@[k2].state == s && 0 <= j2
                            < self.state_rules@[k2].allowed_neighbors@.len() && #[trigger] self.neighbor_offsets@[j2] == d
                            && slot_view(self.state_rules@[k2].allowed_neighbors@[j2]).contains(n);
                    if k2 == k && j2 == j {
                        if !(s == state && d == offset && nb@.contains(n)) {
                            assert(slot_view(mid[k as int].allowed_neighbors@[j as int]).contains(n));
                            assert(j < mid[k as int].allowed_neighbors@.len());
                            assert(k < o.state_rules@.len());
                            assert(o.state_rules@[k2].state == s);
                            assert(o.neighbor_offsets@[j2] == d);
                        }
                    } else if k2 == k {
                        assert(j2 < mid[k as int].allowed_neighbors@.len());
                        assert(k < o.state_rules@.len());
                        assert(o.state_rules@[k2].state == s);
                        assert(o.neighbor_offsets@[j2] == d);
                    } else {
                        assert(o.state_rules@[k2].state == s);
                        assert(o.neighbor_offsets@[j2] == d);
                    }
                }
                if o.permits(s, d, n) {
                    let (k2, j2) = choose|k2: int, j2: int|
                        0 <= k2 < o.state_rules@.len() && #[trigger] o.state_rules@[k2].state == s && 0 <= j2
                            < o.state_rules@[k2].allowed_neighbors@.len() && #[trigger] o.neighbor_offsets@[j2] == d
                            && slot_view(o.state_rules@[k2].allowed_neighbors@[j2]).contains(n);
                    assert(self.state_rules@[k2].state == s);
                    assert(self.neighbor_offsets@[j2] == d);
                }
                if s == state && d == offset && nb@.contains(n) {
                    assert(self.state_rules@[k as int].state == s);
                    assert(self.neighbor_offsets@[j as int] == d);
                }
            }
            assert forall|s: u64| #[trigger] self.declared(s) <==> (o.declared(s) || s == state) by {
                if self.declared(s) {
                    let k2 = choose|k2: int| 0 <= k2 < self.state_rules@.len() && #[trigger] self.state_rules@[k2].state == s;
                    if k2 < o.state_rules@.len() {
                        assert(o.state_rules@[k2].state == s);
                    }
                }
                if o.declared(s) {
                    let k2 = choose|k2: int| 0 <= k2 < o.state_rules@.len() && #[trigger] o.state_rules@[k2].state == s;
                    assert(self.state_rules@[k2].state == s);
                }
                if s == state {
                    assert(self.state_rules@[k as int].state == s);
                }
            }
        }
    }

    /// Every value of `state` allows, at offset `nbrs[j].0`, every value of
    /// `nbrs[j].1`. Statements add up: nothing allowed before is taken back.
    pub fn allow(self, state: &SetState, neighbors: &[(Coord, SetState)]) -> (r: Self)
        requires
            self.wf(),
            forall|j: int| 0 <= j < neighbors@.len() ==> (#[trigger] neighbors@[j]).1.wf(),
        ensures
            r.extends(&self, state@, neighbors@),
            r.wf(),
            r.observer_spec() == self.observer_spec(),
            r.all_states() == self.all_states(),
            forall|s: u64, d: Coord, n: u64|
                #[trigger] r.permits(s, d, n) <==> (self.permits(s, d, n) || stated(
                    state@,
                    neighbors@,
                    s,
                    d,
                    n,
                )),
            forall|s: u64|
                #[trigger] r.declared(s) <==> (self.declared(s) || (state@.contains(s) && exists|j: int|
                    0 <= j < neighbors@.len() && (#[trigger] neighbors@[j]).1@.len() > 0)),
            r.offsets().subrange(0, self.offsets().len() as int) == self.offsets(),
            forall|d: Coord|
                #[trigger] r.offsets().contains(d) <==> (self.offsets().contains(d) || (state@.len()
                    > 0 && names_offset(neighbors@, d))),
            r.offsets() == if state@.len() > 0 {
                offsets_after(self.offsets(), neighbors@)
            } else {
                self.offsets()
            },
            r.offsets().no_duplicates(),
    {
        let mut b = self;
        let ghost o = b;
        let vals = state.values();
        let mut a: usize = 0;
        while a < vals.len()
            invariant
                0 <= a <= vals@.len(),
                vals@ == state@,
                forall|j: int| 0 <= j < neighbors@.len() ==> (#[trigger] neighbors@[j]).1.wf(),
                b.wf(),
                o.wf(),
                b.observer == o.observer,
                b.all_state == o.all_state,
                forall|s: u64, d: Coord, n: u64|
                    #[trigger] b.permits(s, d, n) <==> (o.permits(s, d, n) || stated(
                        state@.take(a as int),
                        neighbors@,
                        s,
                        d,
                        n,
                    )),
                forall|s: u64|
                    #[trigger] b.declared(s) <==> (o.declared(s) || (state@.take(a as int).contains(s)
                        && exists|j: int|
                        0 <= j < neighbors@.len() && (#[trigger] neighbors@[j]).1@.len() > 0)),
                b.offsets().subrange(0, o.offsets().len() as int) == o.offsets(),
                b.offsets() == if a > 0 {
                    offsets_after(o.offsets(), neighbors@)
                } else {
                    o.offsets()
                },
                o.offsets().len() <= b.offsets().len(),
                forall|d: Coord|
                    #[trigger] b.offsets().contains(d) <==> (o.offsets().contains(d) || (a > 0
                        && names_offset(neighbors@, d))),
            decreases vals@.len() - a,
        {
            let s = vals[a];
            proof {
                assert(state@.take(a + 1) =~= state@.take(a as int).push(s));
                crate::state::lemma_push_contains(state@.take(a as int), s);
            }
            let mut i: usize = 0;
            let ghost before = b;
            while i < neighbors.len()
                invariant
                    0 <= i <= neighbors@.len(),
                    forall|j: int| 0 <= j < neighbors@.len() ==> (#[trigger] neighbors@[j]).1.wf(),
                    b.wf(),
                    b.observer == o.observer,
                    b.all_state == o.all_state,
                    forall|s2: u64, d: Coord, n: u64|
                        #[trigger] b.permits(s2, d, n) <==> (before.permits(s2, d, n) || (s2 == s
                            && exists|j: int|
                            0 <= j < i && (#[trigger] neighbors@[j]).0 == d && neighbors@[j].1@.contains(n))),
                    forall|s2: u64|
                        #[trigger] b.declared(s2) <==> (before.declared(s2) || (s2 == s && exists|j: int|
                            0 <= j < i && (#[trigger] neighbors@[j]).1@.len() > 0)),
                    b.offsets().subrange(0, before.offsets().len() as int) == before.offsets(),
                    b.offsets() == offsets_after(before.offsets(), neighbors@.take(i as int)),
                    before.offsets().len() <= b.offsets().len(),
                    forall|d: Coord|
                        #[trigger] b.offsets().contains(d) <==> (before.offsets().contains(d) || exists|j: int|
                            0 <= j < i && (#[trigger] neighbors@[j]).0 == d && neighbors@[j].1@.len() > 0),
                decreases neighbors@.len() - i,
            {
                let ghost prev = b;
                let d = neighbors[i].0;
                let nb = &neighbors[i].1;
                proof {
                    let t = neighbors@.take(i + 1);
                    assert(t.drop_last() =~= neighbors@.take(i as int));
                    assert(t.last() == neighbors@[i as int]);
                }
                if nb.len() > 0 {
                    b.add_one(s, d, nb);
                    proof {
                        crate::state::lemma_push_contains_coord(prev.offsets(), d);
                        assert(b.offsets().subrange(0, before.offsets().len() as int) =~= before.offsets());
                    }
                }
                proof {
                    assert forall|s2: u64, d2: Coord, n: u64|
                        #[trigger] b.permits(s2, d2, n) <==> (before.permits(s2, d2, n) || (s2 == s
                            && exists|j: int|
                            0 <= j < i + 1 && (#[trigger] neighbors@[j]).0 == d2 && neighbors@[j].1@.contains(n))) by {
                        if s2 == s && neighbors@[i as int].0 == d2 && neighbors@[i as int].1@.contains(n) {
                            assert(nb@.contains(n));
                        }
                    }
                    assert forall|d2: Coord|
                        #[trigger] b.offsets().contains(d2) <==> (before.offsets().contains(d2) || exists|j: int|
                            0 <= j < i + 1 && (#[trigger] neighbors@[j]).0 == d2 && neighbors@[j].1@.len() > 0) by {
                        assert(prev.offsets().contains(d2) <==> (before.offsets().contains(d2) || exists|j: int|
                            0 <= j < i && (#[trigger] neighbors@[j]).0 == d2 && neighbors@[j].1@.len() > 0));
                        if nb@.len() > 0 {
                            crate::state::lemma_push_contains_coord(prev.offsets(), d);
                        }
                    }
                }
                i += 1;
            }
            proof {
                assert(neighbors@.take(neighbors@.len() as int) =~= neighbors@);
                if a > 0 {
                    assert forall|j: int|
                        0 <= j < neighbors@.len() && (#[trigger] neighbors@[j]).1@.len() > 0 implies before.offsets().contains(neighbors@[j].0) by {
                        assert(names_offset(neighbors@, neighbors@[j].0));
                    }
                    lemma_offsets_after_fixed(before.offsets(), neighbors@);
                }
                assert forall|s2: u64, d: Coord, n: u64|
                    #[trigger] b.permits(s2, d, n) <==> (o.permits(s2, d, n) || stated(
                        state@.take(a + 1),
                        neighbors@,
                        s2,
                        d,
                        n,
                    )) by {
                    assert(before.permits(s2, d, n) <==> (o.permits(s2, d, n) || stated(
                        state@.take(a as int),
                        neighbors@,
                        s2,
                        d,
                        n,
                    )));
                }
                assert forall|s2: u64|
                    #[trigger] b.declared(s2) <==> (o.declared(s2) || (state@.take(a + 1).contains(s2)
                        && exists|j: int|
                        0 <= j < neighbors@.len() && (#[trigger] neighbors@[j]).1@.len() > 0)) by {
                    assert(before.declared(s2) <==> (o.declared(s2) || (state@.take(a as int).contains(s2)
                        && exists|j: int|
                        0 <= j < neighbors@.len() && (#[trigger] neighbors@[j]).1@.len() > 0)));
                }
                assert forall|d: Coord|
                    #[trigger] b.offsets().contains(d) <==> (o.offsets().contains(d) || (a + 1 > 0
                        && names_offset(neighbors@, d))) by {
                    assert(before.offsets().contains(d) <==> (o.offsets().contains(d) || (a > 0
                        && names_offset(neighbors@, d))));
                }
                assert(b.offsets().subrange(0, o.offsets().len() as int) =~= o.offsets()) by {
                    assert(b.offsets().subrange(0, before.offsets().len() as int) == before.offsets());
                }
            }
            a += 1;
        }
        proof {
            assert(state@.take(vals@.len() as int) =~= state@);
        }
        b
    }

    /// One of the first `n` rules belongs to `s`.
    closed spec fn declared_upto(&self, n: int, s: u64) -> bool {
        exists|k: int| 0 <= k < n && #[trigger] self.state_rules@[k].state == s
    }

    /// Compiles the statements: each declared tile keeps its rule, with empty
    /// slots for offsets it never named, and every other tile of the universe
    /// gets a rule that allows nothing in any direction.
    pub fn build(self) -> (r: SetCollapseRule<O>)
        requires
            self.wf(),
        ensures
            r.compiled_from(&self),
    {
        let n = self.neighbor_offsets.len();
        let mut state_rules: Vec<(u64, Vec<Option<SetState>>)> = Vec::new();
        let mut remaining_state = self.all_state.clone();
        let mut k: usize = 0;
        proof {
            crate::state::lemma_filter_all(self.all_state@, |v: u64| !self.declared_upto(0, v));
        }
        while k < self.state_rules.len()
            invariant
                0 <= k <= self.state_rules@.len(),
                self.wf(),
                n == self.neighbor_offsets@.len(),
                state_rules@.len() == k,
                forall|m1: int, m2: int|
                    0 <= m1 < m2 < k ==> #[trigger] state_rules@[m1].0 != #[trigger] state_rules@[m2].0,
                remaining_state.wf(),
                remaining_state@ == self.all_state@.filter(|v: u64| !self.declared_upto(k as int, v)),
                forall|m: int|
                    0 <= m < k ==> (#[trigger] state_rules@[m]).0 == self.state_rules@[m].state
                        && allowed_fits(state_rules@[m].1@, n as int) && forall|i: int|
                        0 <= i < n ==> same_slot(
                            #[trigger] state_rules@[m].1@[i],
                            if i < self.state_rules@[m].allowed_neighbors@.len() {
                                self.state_rules@[m].allowed_neighbors@[i]
                            } else {
                                None
                            },
                        ),
            decreases self.state_rules@.len() - k,
        {
            let rule = &self.state_rules[k];
            let mut allowed: Vec<Option<SetState>> = Vec::new();
            let mut i: usize = 0;
            proof {
                assert(rule.allowed_neighbors@.len() <= n);
                assert(slots_wf(rule.allowed_neighbors@));
            }
            while i < n
                invariant
                    0 <= i <= n,
                    rule.allowed_neighbors@.len() <= n,
                    slots_wf(rule.allowed_neighbors@),
                    allowed@.len() == i,
                    forall|j: int|
                        0 <= j < i ==> same_slot(
                            #[trigger] allowed@[j],
                            if j < rule.allowed_neighbors@.len() {
                                rule.allowed_neighbors@[j]
                            } else {
                                None
                            },
                        ),
                decreases n - i,
            {
                if i < rule.allowed_neighbors.len() {
                    allowed.push(clone_slot(&rule.allowed_neighbors[i]));
                } else {
                    allowed.push(None);
                }
                i += 1;
            }
            let ghost p = |v: u64| !self.declared_upto(k as int, v);
            let ghost p1 = |v: u64| !self.declared_upto(k + 1, v);
            let ghost before = remaining_state@;
            remaining_state.remove(rule.state);
            proof {
                let q = |v: u64| v != rule.state;
                assert(q =~= (|v: u64| v != rule.state));
                lemma_filter_filter(self.all_state@, p, q);
                assert forall|v: u64| #[trigger] p1(v) == (p(v) && q(v)) by {
                    if v == rule.state {
                        assert(self.state_rules@[k as int].state == v);
                    }
                    if self.declared_upto(k + 1, v) && v != rule.state {
                        let kk = choose|kk: int| 0 <= kk < k + 1 && #[trigger] self.state_rules@[kk].state == v;
                        assert(kk < k);
                    }
                }
                assert((|v: u64| p(v) && q(v)) =~= p1);
            }
            state_rules.push((rule.state, allowed));
            k += 1;
        }
        let ghost declared_count = k as int;
        proof {
            assert((|v: u64| !self.declared_upto(k as int, v)) =~= (|v: u64| !self.declared(v)));
            crate::state::lemma_filter_no_duplicates(self.all_state@, |v: u64| !self.declared(v));
        }
        let rest = remaining_state.values();
        let mut j: usize = 0;
        while j < rest.len()
            invariant
                0 <= j <= rest@.len(),
                rest@ == self.all_state@.filter(|v: u64| !self.declared(v)),
                declared_count == self.state_rules@.len(),
                state_rules@.len() == declared_count + j,
                rest@.no_duplicates(),
                forall|v: u64| #[trigger] rest@.contains(v) ==> !self.declared(v),
                self.wf(),
                forall|m1: int, m2: int|
                    0 <= m1 < m2 < declared_count + j ==> #[trigger] state_rules@[m1].0
                        != #[trigger] state_rules@[m2].0,
                forall|m: int|
                    0 <= m < declared_count ==> (#[trigger] state_rules@[m]).0 == self.state_rules@[m].state
                        && allowed_fits(state_rules@[m].1@, n as int) && forall|i: int|
                        0 <= i < n ==> same_slot(
                            #[trigger] state_rules@[m].1@[i],
                            if i < self.state_rules@[m].allowed_neighbors@.len() {
                                self.state_rules@[m].allowed_neighbors@[i]
                            } else {
                                None
                            },
                        ),
                forall|m: int|
                    declared_count <= m < declared_count + j ==> (#[trigger] state_rules@[m]).0
                        == rest@[m - declared_count] && allowed_fits(state_rules@[m].1@, n as int)
                        && forall|i: int| 0 <= i < n ==> #[trigger] state_rules@[m].1@[i] is None,
            decreases rest@.len() - j,
        {
            let mut none_slots: Vec<Option<SetState>> = Vec::new();
            let mut i: usize = 0;
            while i < n
                invariant
                    0 <= i <= n,
                    none_slots@.len() == i,
                    forall|t: int| 0 <= t < i ==> #[trigger] none_slots@[t] is None,
                decreases n - i,
            {
                none_slots.push(None);
                i += 1;
            }
            let ghost before = state_rules@;
            state_rules.push((rest[j], none_slots));
            proof {
                assert(rest@.contains(rest@[j as int]));
                assert forall|m: int| 0 <= m < declared_count + j implies #[trigger] state_rules@[m].0
                    != rest@[j as int] by {
                    if m < declared_count {
                        assert(self.state_rules@[m].state == state_rules@[m].0);
                    } else {
                        assert(state_rules@[m].0 == rest@[m - declared_count]);
                    }
                }
            }
            j += 1;
        }
        let r = SetCollapseRule {
            neighbor_offsets: self.neighbor_offsets,
            state_rules,
            observer: self.observer,
        };
        proof {
            let b = self;
            crate::state::lemma_filter_no_duplicates(b.all_state@, |v: u64| !b.declared(v));
            assert forall|v: u64| #[trigger] r.has_rule(v) <==> (b.declared(v) || b.all_states().contains(v)) by {
                if r.has_rule(v) {
                    let m = choose|m: int| 0 <= m < r.rule_count() && #[trigger] r.rule_state(m) == v;
                    if m < declared_count {
                        assert(b.state_rules@[m].state == v);
                    } else {
                        assert(rest@.contains(rest@[m - declared_count]));
                    }
                }
                if b.declared(v) {
                    let m = choose|m: int| 0 <= m < b.state_rules@.len() && #[trigger] b.state_rules@[m].state == v;
                    assert(r.rule_state(m) == v);
                } else if b.all_states().contains(v) {
                    assert(rest@.contains(v));
                    let t = choose|t: int| 0 <= t < rest@.len() && #[trigger] rest@[t] == v;
                    assert(r.rule_state(declared_count + t) == v);
                }
            }
            assert forall|m: int, i: int, x: u64|
                0 <= m < r.rule_count() && 0 <= i < r.offsets().len() implies (#[trigger] slot_view(
                r.allowed(m)[i]).contains(x) <==> b.permits(r.rule_state(m), r.offsets()[i], x)) by {
                if m < declared_count {
                    if b.permits(r.rule_state(m), r.offsets()[i], x) {
                        let (k2, j2) = choose|k2: int, j2: int|
                            0 <= k2 < b.state_rules@.len() && #[trigger] b.state_rules@[k2].state == r.rule_state(m) && 0 <= j2
                                < b.state_rules@[k2].allowed_neighbors@.len() && #[trigger] b.neighbor_offsets@[j2] == r.offsets()[i]
                                && slot_view(b.state_rules@[k2].allowed_neighbors@[j2]).contains(x);
                        assert(k2 == m);
                        assert(j2 == i);
                    }
                    if slot_view(r.allowed(m)[i]).contains(x) {
                        assert(i < b.state_rules@[m].allowed_neighbors@.len());
                        assert(b.state_rules@[m].state == r.rule_state(m));
                        assert(b.neighbor_offsets@[i] == r.offsets()[i]);
                    }
                } else {
                    assert(rest@.contains(rest@[m - declared_count]));
                    if b.permits(r.rule_state(m), r.offsets()[i], x) {
                        let (k2, j2) = choose|k2: int, j2: int|
                            0 <= k2 < b.state_rules@.len() && #[trigger] b.state_rules@[k2].state == r.rule_state(m) && 0 <= j2
                                < b.state_rules@[k2].allowed_neighbors@.len() && #[trigger] b.neighbor_offsets@[j2] == r.offsets()[i]
                                && slot_view(b.state_rules@[k2].allowed_neighbors@[j2]).contains(x);
                        assert(b.declared(r.rule_state(m)));
                    }
                }
            }
        }
        r
    }

    /// The two builders mean the same: the same allowances, the same declared
    /// tiles, the same offsets (in any order) and the same tile universe.
    pub open spec fn agrees(&self, other: &Self) -> bool {
        &&& forall|s: u64, d: Coord, n: u64| #[trigger] self.permits(s, d, n) == other.permits(s, d, n)
        &&& forall|s: u64| #[trigger] self.declared(s) == other.declared(s)
        &&& forall|d: Coord| #[trigger] self.offsets().contains(d) == other.offsets().contains(d)
        &&& forall|v: u64| #[trigger] self.all_states().contains(v) == other.all_states().contains(v)
    }

    /// Two fresh builders over the same tile universe mean the same.
    pub proof fn lemma_new_agrees(b1: Self, b2: Self)
        requires
            b1.offsets() == Seq::<Coord>::empty(),
            b2.offsets() == Seq::<Coord>::empty(),
            forall|s: u64, d: Coord, n: u64| !b1.permits(s, d, n) && !b2.permits(s, d, n),
            forall|s: u64| !b1.declared(s) && !b2.declared(s),
            b1.all_states() == b2.all_states(),
        ensures
            b1.agrees(&b2),
    {
    }

    /// Repeating the same `allow` statement on builders that mean the same
    /// gives builders that mean the same.
    pub proof fn lemma_allow_agrees(
        b1: Self,
        b2: Self,
        c1: Self,
        c2: Self,
        state: Seq<u64>,
        nbrs: Seq<(Coord, SetState)>,
    )
        requires
            b1.agrees(&b2),
            c1.extends(&b1, state, nbrs),
            c2.extends(&b2, state, nbrs),
        ensures
            c1.agrees(&c2),
    {
    }

    /// What `allow(state, nbrs)` makes of `old`.
    pub open spec fn extends(&self, old: &Self, state: Seq<u64>, nbrs: Seq<(Coord, SetState)>) -> bool {
        &&& self.wf()
        &&& self.observer_spec() == old.observer_spec()
        &&& self.all_states() == old.all_states()
        &&& forall|s: u64, d: Coord, n: u64|
            #[trigger] self.permits(s, d, n) <==> (old.permits(s, d, n) || stated(state, nbrs, s, d, n))
        &&& forall|s: u64|
            #[trigger] self.declared(s) <==> (old.declared(s) || (state.contains(s) && exists|j: int|
                0 <= j < nbrs.len() && (#[trigger] nbrs[j]).1@.len() > 0))
        &&& self.offsets().subrange(0, old.offsets().len() as int) == old.offsets()
        &&& self.offsets() == if state.len() > 0 {
            offsets_after(old.offsets(), nbrs)
        } else {
            old.offsets()
        }
        &&& self.offsets().no_duplicates()
        &&& forall|d: Coord|
            #[trigger] self.offsets().contains(d) <==> (old.offsets().contains(d) || (state.len() > 0
                && names_offset(nbrs, d)))
    }
}

/// Two chains of builders that start out meaning the same and take the same
/// `allow` statements in the same order mean the same at every step; when they
/// start from the same offset list, they list the same offsets in the same order.
pub proof fn lemma_allow_chain_agrees<O: SetCollapseObserver>(
    c1: Seq<SetCollapseRuleBuilder<O>>,
    c2: Seq<SetCollapseRuleBuilder<O>>,
    states: Seq<Seq<u64>>,
    nbrs: Seq<Seq<(Coord, SetState)>>,
)
    requires
        c1.len() == states.len() + 1,
        c2.len() == states.len() + 1,
        nbrs.len() == states.len(),
        c1[0].agrees(&c2[0]),
        forall|i: int|
            0 <= i < states.len() ==> (#[trigger] c1[i + 1]).extends(&c1[i], states[i], nbrs[i])
                && c2[i + 1].extends(&c2[i], states[i], nbrs[i]),
    ensures
        c1.last().agrees(&c2.last()),
        c1[0].offsets() == c2[0].offsets() ==> c1.last().offsets() == c2.last().offsets(),
    decreases states.len(),
{
    if states.len() > 0 {
        let n = states.len() - 1;
        let d1 = c1.drop_last();
        let d2 = c2.drop_last();
        assert forall|i: int|
            0 <= i < n implies (#[trigger] d1[i + 1]).extends(&d1[i], states.drop_last()[i], nbrs.drop_last()[i])
                && d2[i + 1].extends(&d2[i], states.drop_last()[i], nbrs.drop_last()[i]) by {
            assert(c1[i + 1].extends(&c1[i], states[i], nbrs[i]));
        }
        lemma_allow_chain_agrees(d1, d2, states.drop_last(), nbrs.drop_last());
        assert(c1[n + 1].extends(&c1[n], states[n], nbrs[n]));
        SetCollapseRuleBuilder::<O>::lemma_allow_agrees(c1[n], c2[n], c1[n + 1], c2[n + 1], states[n], nbrs[n]);
    }
}

/// Rule tables compiled from builders that mean the same reject the same tiles in
/// every neighborhood, whatever order their offsets were found in.
pub proof fn lemma_build_agrees<O: SetCollapseObserver>(
    b1: SetCollapseRuleBuilder<O>,
    b2: SetCollapseRuleBuilder<O>,
    r1: SetCollapseRule<O>,
    r2: SetCollapseRule<O>,
    v: u64,
    around: spec_fn(Coord) -> Option<SetState>,
)
    requires
        b1.agrees(&b2),
        r1.compiled_from(&b1),
        r2.compiled_from(&b2),
    ensures
        r1.rejects_around(v, around) == r2.rejects_around(v, around),
        r1.has_rule(v) == r2.has_rule(v),
{
    lemma_rejects_around_moves(b1, b2, r1, r2, v, around);
    lemma_rejects_around_moves(b2, b1, r2, r1, v, around);
}

proof fn lemma_rejects_around_moves<O: SetCollapseObserver>(
    b1: SetCollapseRuleBuilder<O>,
    b2: SetCollapseRuleBuilder<O>,
    r1: SetCollapseRule<O>,
    r2: SetCollapseRule<O>,
    v: u64,
    around: spec_fn(Coord) -> Option<SetState>,
)
    requires
        b1.agrees(&b2),
        r1.compiled_from(&b1),
        r2.compiled_from(&b2),
    ensures
        r1.rejects_around(v, around) ==> r2.rejects_around(v, around),
        r1.has_rule(v) ==> r2.has_rule(v),
{
    if r1.has_rule(v) {
        assert(r2.has_rule(v));
    }
    if r1.rejects_around(v, around) {
        let (k1, i1) = choose|k: int, i: int|
            0 <= k < r1.rule_count() && #[trigger] r1.rule_state(k) == v && 0 <= i
                < r1.offsets().len() && (#[trigger] around(r1.offsets()[i])) is Some
                && !overlaps(around(r1.offsets()[i])->0@, slot_view(r1.allowed(k)[i]));
        let d = r1.offsets()[i1];
        assert(r1.has_rule(v));
        assert(r2.has_rule(v));
        let k2 = choose|k: int| 0 <= k < r2.rule_count() && #[trigger] r2.rule_state(k) == v;
        assert(b1.offsets().contains(d));
        assert(r2.offsets().contains(d));
        let i2 = choose|i: int| 0 <= i < r2.offsets().len() && #[trigger] r2.offsets()[i] == d;
        assert forall|x: u64| #[trigger] slot_view(r2.allowed(k2)[i2]).contains(x) == slot_view(
            r1.allowed(k1)[i1],
        ).contains(x) by {
            assert(b1.permits(v, d, x) == b2.permits(v, d, x));
        }
        assert(!overlaps(around(r2.offsets()[i2])->0@, slot_view(r2.allowed(k2)[i2])));
    }
}

} // verus!
