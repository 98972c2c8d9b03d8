use crate::cube_grid::{Coord, CubeGrid};
use crate::set_rule::{same_slot, ObserveError, SetCollapseObserver, SetCollapseRule};
use crate::state::SetState;
use vstd::prelude::*;

verus! {

/// Why solving stopped before every cell was final.
#[derive(Clone, Copy, Debug, PartialEq, Eq)]
pub enum CollapseError {
    /// Propagation left the cell at this coordinate with no candidate.
    Contradiction(Coord),
    /// The observer could not commit the cell at this coordinate.
    Observe(Coord, ObserveError),
}

/// Sum of the candidate counts of all cells.
pub open spec fn total(cells: Seq<SetState>) -> nat
    decreases cells.len(),
{
    if cells.len() == 0 {
        0
    } else {
        total(cells.drop_last()) + cells.last()@.len()
    }
}

proof fn lemma_total_update(cells: Seq<SetState>, i: int, x: SetState)
    requires
        0 <= i < cells.len(),
    ensures
        total(cells.update(i, x)) + cells[i]@.len() == total(cells) + x@.len(),
    decreases cells.len(),
{
    let u = cells.update(i, x);
    if i == cells.len() - 1 {
        assert(u.drop_last() =~= cells.drop_last());
    } else {
        assert(u.drop_last() =~= cells.drop_last().update(i, x));
        lemma_total_update(cells.drop_last(), i, x);
    }
}

/// Every cell is well formed.
pub open spec fn cells_wf(space: &CubeGrid<SetState>) -> bool {
    &&& space.wf()
    &&& forall|i: int| 0 <= i < space.cells().len() ==> (#[trigger] space.cells()[i]).wf()
}

/// Each cell of `after` keeps only candidates it had in `before`.
pub open spec fn narrowed_from(after: Seq<SetState>, before: Seq<SetState>) -> bool {
    &&& after.len() == before.len()
    &&& forall|i: int, v: u64|
        0 <= i < after.len() && #[trigger] after[i]@.contains(v) ==> before[i]@.contains(v)
}

/// The same box.
pub open spec fn same_shape(a: &CubeGrid<SetState>, b: &CubeGrid<SetState>) -> bool {
    &&& a.width_spec() == b.width_spec()
    &&& a.length_spec() == b.length_spec()
    &&& a.height_spec() == b.height_spec()
}

/// The cells at each offset of the rule around `c`; `None` outside the box.
pub open spec fn neighborhood<O: SetCollapseObserver>(
    space: &CubeGrid<SetState>,
    rule: &SetCollapseRule<O>,
    c: Coord,
) -> Seq<Option<SetState>> {
    Seq::new(
        rule.offsets().len(),
        |i: int|
            match space.neighbor(c, rule.offsets()[i]) {
                Some(n) => Some(space.at(n)),
                None => None,
            },
    )
}

/// The cell stored at `i` is left as it is by a propagation step.
pub open spec fn settled_at<O: SetCollapseObserver>(
    space: &CubeGrid<SetState>,
    rule: &SetCollapseRule<O>,
    i: int,
) -> bool {
    rule.narrowed(space.cells()[i]@, neighborhood(space, rule, space.coord_at(i)))
        == space.cells()[i]@
}

/// No cell loses a candidate to a propagation step: a fixed point.
pub open spec fn settled<O: SetCollapseObserver>(
    space: &CubeGrid<SetState>,
    rule: &SetCollapseRule<O>,
) -> bool {
    forall|i: int| 0 <= i < space.cells().len() ==> #[trigger] settled_at(space, rule, i)
}

/// Being settled depends on the shape and the cells alone.
proof fn lemma_settled_same<O: SetCollapseObserver>(
    a: &CubeGrid<SetState>,
    b: &CubeGrid<SetState>,
    rule: &SetCollapseRule<O>,
)
    requires
        settled(a, rule),
        same_shape(a, b),
        a.cells() == b.cells(),
    ensures
        settled(b, rule),
{
    assert forall|i: int| 0 <= i < b.cells().len() implies #[trigger] settled_at(b, rule, i) by {
        assert(settled_at(a, rule, i));
        assert(a.coord_at(i) == b.coord_at(i));
        assert(neighborhood(a, rule, a.coord_at(i)) =~= neighborhood(b, rule, b.coord_at(i)));
    }
}

/// The cells at each offset of the rule around `c`, copied.
fn gather_neighbors<O: SetCollapseObserver>(
    space: &CubeGrid<SetState>,
    rule: &SetCollapseRule<O>,
    c: Coord,
) -> (r: Vec<Option<SetState>>)
    requires
        cells_wf(space),
    ensures
        r@.len() == rule.offsets().len(),
        forall|t: int|
            0 <= t < r@.len() ==> same_slot(#[trigger] r@[t], neighborhood(space, rule, c)[t]),
{
    let offsets = rule.neighbor_offsets();
    let mut coords: Vec<Option<Coord>> = Vec::new();
    let mut i: usize = 0;
    while i < offsets.len()
        invariant
            0 <= i <= offsets@.len(),
            coords@.len() == i,
        decreases offsets@.len() - i,
    {
        coords.push(None);
        i += 1;
    }
    space.neighbors(c, offsets, &mut coords);
    let mut out: Vec<Option<SetState>> = Vec::new();
    let mut j: usize = 0;
    while j < coords.len()
        invariant
            0 <= j <= coords@.len(),
            coords@.len() == offsets@.len(),
            offsets@ == rule.offsets(),
            cells_wf(space),
            out@.len() == j,
            forall|t: int| 0 <= t < offsets@.len() ==> #[trigger] coords@[t] == space.neighbor(c, offsets@[t]),
            forall|t: int|
                0 <= t < j ==> same_slot(#[trigger] out@[t], neighborhood(space, rule, c)[t]),
        decreases coords@.len() - j,
    {
        proof {
            assert(coords@[j as int] == space.neighbor(c, offsets@[j as int]));
        }
        match coords[j] {
            Some(n) => {
                out.push(Some(space.index(n).clone()));
            },
            None => {
                out.push(None);
            },
        }
        j += 1;
    }
    out
}

/// One propagation pass over every cell in storage order. Returns whether some
/// cell lost a candidate, or the first coordinate whose cell became empty.
fn propagate_pass<O: SetCollapseObserver>(space: &mut CubeGrid<SetState>, rule: &SetCollapseRule<O>) -> (r:
    Result<bool, Coord>)
    requires
        cells_wf(old(space)),
        rule.wf(),
    ensures
        cells_wf(final(space)),
        same_shape(final(space), old(space)),
        narrowed_from(final(space).cells(), old(space).cells()),
        total(final(space).cells()) <= total(old(space).cells()),
        r == Ok::<bool, Coord>(true) ==> total(final(space).cells()) < total(old(space).cells()),
        r == Ok::<bool, Coord>(false) ==> final(space).cells() == old(space).cells() && settled(
            final(space),
            rule,
        ),
        r is Err ==> final(space).in_bounds(r->Err_0) && final(space).at(r->Err_0)@.len() == 0,
        settled(old(space), rule) ==> r == Ok::<bool, Coord>(false),
{
    let coords = space.coordinate_list();
    let mut changed = false;
    let mut i: usize = 0;
    while i < coords.len()
        invariant
            0 <= i <= coords@.len(),
            coords@.len() == space.size(),
            forall|j: int| 0 <= j < coords@.len() ==> #[trigger] coords@[j] == space.coord_at(j),
            cells_wf(space),
            rule.wf(),
            same_shape(space, old(space)),
            narrowed_from(space.cells(), old(space).cells()),
            total(space.cells()) <= total(old(space).cells()),
            changed ==> total(space.cells()) < total(old(space).cells()),
            !changed ==> space.cells() == old(space).cells(),
            !changed ==> forall|j: int| 0 <= j < i ==> #[trigger] settled_at(space, rule, j),
            settled(old(space), rule) ==> !changed,
        decreases coords@.len() - i,
    {
        let c = coords[i];
        proof {
            space.lemma_coord_at(i as int);
        }
        let nbrs = gather_neighbors(space, rule, c);
        let mut cell = space.index(c).clone();
        let before = cell.len();
        proof {
            assert(space.cells()[space.linear_index(c)].wf());
        }
        rule.collapse(&mut cell, nbrs.as_slice());
        proof {
            rule.lemma_collapse_shrinks(space.at(c)@, nbrs@);
            rule.lemma_narrowed_views(space.at(c)@, nbrs@, neighborhood(space, rule, c));
            if settled(old(space), rule) {
                lemma_settled_same(old(space), space, rule);
                assert(settled_at(space, rule, i as int));
            }
            if cell@.len() == before {
                crate::state::lemma_filter_same_len(space.at(c)@, |v: u64| !rule.rejects(v, nbrs@));
                assert(settled_at(space, rule, i as int));
            }
        }
        if cell.len() != before {
            let ghost prev = space.cells();
            let ghost idx = space.linear_index(c);
            space.set(c, cell);
            proof {
                lemma_total_update(prev, idx, space.cells()[idx]);
                assert forall|j: int, v: u64|
                    0 <= j < space.cells().len() && #[trigger] space.cells()[j]@.contains(v) implies old(space).cells()[j]@.contains(v) by {
                    if j == idx {
                        assert(prev[j]@.contains(v));
                    } else {
                        assert(prev[j] == space.cells()[j]);
                    }
                }
            }
            changed = true;
            if space.index(c).len() == 0 {
                return Err(c);
            }
        }
        i += 1;
    }
    Ok(changed)
}

/// Repeats propagation passes until one changes nothing, or a cell is empty.
fn propagate<O: SetCollapseObserver>(space: &mut CubeGrid<SetState>, rule: &SetCollapseRule<O>) -> (r:
    Result<(), Coord>)
    requires
        cells_wf(old(space)),
        rule.wf(),
    ensures
        cells_wf(final(space)),
        same_shape(final(space), old(space)),
        narrowed_from(final(space).cells(), old(space).cells()),
        total(final(space).cells()) <= total(old(space).cells()),
        r is Ok ==> settled(final(space), rule),
        r is Err ==> final(space).in_bounds(r->Err_0) && final(space).at(r->Err_0)@.len() == 0,
        settled(old(space), rule) ==> r is Ok && final(space).cells() == old(space).cells(),
{
    loop
        invariant
            cells_wf(space),
            rule.wf(),
            same_shape(space, old(space)),
            narrowed_from(space.cells(), old(space).cells()),
            total(space.cells()) <= total(old(space).cells()),
            settled(old(space), rule) ==> space.cells() == old(space).cells(),
        decreases total(space.cells()),
    {
        let ghost prev = space.cells();
        proof {
            if settled(old(space), rule) {
                lemma_settled_same(old(space), space, rule);
            }
        }
        match propagate_pass(space, rule) {
            Err(c) => {
                proof {
                    lemma_narrowed_trans(space.cells(), prev, old(space).cells());
                }
                return Err(c);
            },
            Ok(false) => {
                return Ok(());
            },
            Ok(true) => {
                proof {
                    lemma_narrowed_trans(space.cells(), prev, old(space).cells());
                }
            },
        }
    }
}

proof fn lemma_narrowed_trans(a: Seq<SetState>, b: Seq<SetState>, c: Seq<SetState>)
    requires
        narrowed_from(a, b),
        narrowed_from(b, c),
    ensures
        narrowed_from(a, c),
{
    assert forall|i: int, v: u64| 0 <= i < a.len() && #[trigger] a[i]@.contains(v) implies c[i]@.contains(v) by {
        assert(b[i]@.contains(v));
    }
}

/// The next cell to observe: the lowest candidate count above one, first in
/// storage order among equals. `Ok(None)` when every cell is final; the first
/// empty cell met is reported as an error.
fn select_cell(space: &CubeGrid<SetState>) -> (r: Result<Option<Coord>, Coord>)
    requires
        cells_wf(space),
    ensures
        match r {
            Ok(Some(c)) => space.in_bounds(c) && space.at(c)@.len() > 1 && forall|i: int|
                0 <= i < space.cells().len() && (#[trigger] space.cells()[i])@.len() > 1
                    ==> space.at(c)@.len() <= space.cells()[i]@.len(),
            Ok(None) => forall|i: int|
                0 <= i < space.cells().len() ==> (#[trigger] space.cells()[i])@.len() == 1,
            Err(c) => space.in_bounds(c) && space.at(c)@.len() == 0,
        },
{
    let coords = space.coordinate_list();
    let mut best: Option<Coord> = None;
    let mut best_len: usize = 0;
    let mut i: usize = 0;
    while i < coords.len()
        invariant
            0 <= i <= coords@.len(),
            coords@.len() == space.size(),
            forall|j: int| 0 <= j < coords@.len() ==> #[trigger] coords@[j] == space.coord_at(j),
            cells_wf(space),
            forall|j: int| 0 <= j < i ==> (#[trigger] space.cells()[j])@.len() >= 1,
            match best {
                Some(c) => space.in_bounds(c) && space.at(c)@.len() > 1 && best_len == space.at(c)@.len()
                    && forall|j: int|
                    0 <= j < i && (#[trigger] space.cells()[j])@.len() > 1 ==> best_len
                        <= space.cells()[j]@.len(),
                None => forall|j: int| 0 <= j < i ==> (#[trigger] space.cells()[j])@.len() <= 1,
            },
        decreases coords@.len() - i,
    {
        let c = coords[i];
        proof {
            space.lemma_coord_at(i as int);
        }
        let n = space.index(c).len();
        if n == 0 {
            return Err(c);
        }
        if n > 1 {
            match best {
                Some(_) => {
                    if n < best_len {
                        best = Some(c);
                        best_len = n;
                    }
                },
                None => {
                    best = Some(c);
                    best_len = n;
                },
            }
        }
        i += 1;
    }
    Ok(best)
}

/// Solves `space` under `rule`: propagates to a fixed point, observes the cell
/// with the fewest candidates above one, and repeats until every cell is final.
/// Cells only ever lose candidates. A cell left empty, or one the observer
/// cannot commit, stops the solve with its coordinate; nothing is undone.
pub fn collapse<O: SetCollapseObserver>(space: &mut CubeGrid<SetState>, rule: &SetCollapseRule<O>) -> (r:
    Result<(), CollapseError>)
    requires
        cells_wf(old(space)),
        rule.wf(),
    ensures
        cells_wf(final(space)),
        same_shape(final(space), old(space)),
        narrowed_from(final(space).cells(), old(space).cells()),
        r is Ok ==> settled(final(space), rule) && forall|i: int|
            0 <= i < final(space).cells().len() ==> (#[trigger] final(space).cells()[i])@.len() == 1,
        match r {
            Err(CollapseError::Contradiction(c)) => final(space).in_bounds(c) && final(space).at(c)@.len() == 0,
            Err(CollapseError::Observe(c, e)) => final(space).in_bounds(c) && final(space).at(c)@.len() > 1
                && !rule.observer_spec().succeeds(final(space).at(c)@)
                && e == rule.observer_spec().failure(final(space).at(c)@),
            Ok(()) => true,
        },
        settled(old(space), rule) && (forall|i: int|
            0 <= i < old(space).cells().len() ==> (#[trigger] old(space).cells()[i])@.len() == 1)
            ==> r is Ok,
{
    loop
        invariant
            cells_wf(space),
            rule.wf(),
            same_shape(space, old(space)),
            narrowed_from(space.cells(), old(space).cells()),
            settled(old(space), rule) && (forall|i: int|
                0 <= i < old(space).cells().len() ==> (#[trigger] old(space).cells()[i])@.len() == 1)
                ==> space.cells() == old(space).cells(),
        decreases total(space.cells()),
    {
        let ghost start = space.cells();
        proof {
            if settled(old(space), rule) && (forall|i: int|
                0 <= i < old(space).cells().len() ==> (#[trigger] old(space).cells()[i])@.len() == 1) {
                lemma_settled_same(old(space), space, rule);
            }
        }
        match propagate(space, rule) {
            Err(c) => {
                proof {
                    lemma_narrowed_trans(space.cells(), start, old(space).cells());
                }
                return Err(CollapseError::Contradiction(c));
            },
            Ok(()) => {},
        }
        proof {
            lemma_narrowed_trans(space.cells(), start, old(space).cells());
        }
        match select_cell(space) {
            Err(c) => {
                proof {
                    space.lemma_linear_index(c);
                }
                return Err(CollapseError::Contradiction(c));
            },
            Ok(None) => {
                return Ok(());
            },
            Ok(Some(c)) => {
                let nbrs = gather_neighbors(space, rule, c);
                let mut cell = space.index(c).clone();
                proof {
                    space.lemma_linear_index(c);
                    assert(space.cells()[space.linear_index(c)].wf());
                }
                match rule.observe(&mut cell, nbrs.as_slice()) {
                    Err(e) => {
                        proof {
                            space.lemma_linear_index(c);
                        }
                        return Err(CollapseError::Observe(c, e));
                    },
                    Ok(()) => {},
                }
                let ghost prev = space.cells();
                let ghost idx = space.linear_index(c);
                space.set(c, cell);
                proof {
                    lemma_total_update(prev, idx, space.cells()[idx]);
                    assert forall|j: int, v: u64|
                        0 <= j < space.cells().len() && #[trigger] space.cells()[j]@.contains(v) implies old(space).cells()[j]@.contains(v) by {
                        if j == idx {
                            assert(prev[j]@.contains(space.cells()[j]@[0]));
                            assert(prev[j]@.contains(v));
                        } else {
                            assert(prev[j] == space.cells()[j]);
                        }
                    }
                }
            },
        }
    }
}

} // verus!
