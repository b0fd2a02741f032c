//! The partition of the domain into cells: the table that holds them, the active and
//! done sets, the render queue and the telemetry, with the generation driver split
//! over the submodules.
use std::collections::VecDeque;
use vstd::prelude::*;

use crate::cell::{inside_spec, DoublePendulum};
use crate::rolling::{mean_of, RollingAverage};

mod divergence;
mod generation;
mod links;

verus! {

/// The integer settings of a sweep.
#[derive(Clone, Copy, Debug)]
pub struct Config {
    /// Step count multiplier of the hue.
    pub color_step: usize,
    /// Period of the hue, in multiplied steps.
    pub color_mod: usize,
    /// Two neighbours whose step counts have a ratio under `dive_num / dive_den` are split.
    pub dive_num: u64,
    pub dive_den: u64,
    /// Steps after which a cell stops as expired.
    pub max_step: usize,
    /// Footprint under which a cell is not split.
    pub min_pixel: u64,
    /// Cells that may be made in all; no cell is split once this many exist.
    pub max_cells: usize,
}

/// Where a cell of the table stands.
#[derive(Clone, Copy, Debug, PartialEq, Eq, Structural)]
pub enum Place {
    /// Still integrating.
    Active,
    /// Stopped and kept for the divergence checks of its neighbours.
    Done,
    /// Stopped, with all its children stopped: no longer consulted.
    Removed,
}

/// What one cell's integrator did in a generation.
#[derive(Clone, Copy, Debug, PartialEq, Eq, Structural)]
pub struct StepOutcome {
    pub id: usize,
    /// Steps made, at most the cell's budget.
    pub taken: usize,
    /// The last step flipped the second arm over.
    pub flipped: bool,
}

/// Counts of one generation.
#[derive(Clone, Copy, Debug, PartialEq, Eq, Structural)]
pub struct GenerationReport {
    /// Children made by subdivision.
    pub spawned: usize,
    /// Cells that stopped.
    pub stopped: usize,
    /// Parents dropped from the done set.
    pub removed: usize,
    /// Mean step count of recently stopped cells.
    pub average_steps: u32,
    /// Steps per cell of the next generation.
    pub update_steps: usize,
}

/// Why a generation was refused.
#[derive(Clone, Copy, Debug, PartialEq, Eq, Structural)]
pub enum GenerationError {
    /// The outcomes do not list each active cell once, by rising id, within its budget.
    OutcomeMismatch,
}

/// Number of entries of `s` equal to `p`.
pub open spec fn count_place(s: Seq<Place>, p: Place) -> nat
    decreases s.len(),
{
    if s.len() == 0 {
        0
    } else {
        count_place(s.drop_last(), p) + if s.last() == p {
            1nat
        } else {
            0nat
        }
    }
}

/// The smaller of two step counts over the larger is under `num / den`.
pub open spec fn ratio_below(a: int, b: int, num: int, den: int) -> bool {
    let lo = if a <= b {
        a
    } else {
        b
    };
    let hi = if a <= b {
        b
    } else {
        a
    };
    lo * den < num * hi
}

/// The whole table of cells, indexed by id minus one, with the active and done sets
/// held as the place of each cell.
pub struct PendulumFamily {
    config: Config,
    width: u64,
    cells: Vec<DoublePendulum>,
    place: Vec<Place>,
    dive: Vec<bool>,
    to_draw: VecDeque<usize>,
    avg: RollingAverage,
    iter: usize,
    update_steps: usize,
}

impl PendulumFamily {
    /// The table of cells; the cell with id `i` sits at index `i - 1`.
    pub closed spec fn cells(&self) -> Seq<DoublePendulum> {
        self.cells@
    }

    /// Where each cell of the table stands.
    pub closed spec fn places(&self) -> Seq<Place> {
        self.place@
    }

    /// Ids marked for subdivision, as a flag per cell.
    pub closed spec fn marks(&self) -> Seq<bool> {
        self.dive@
    }

    /// The settings of the sweep.
    pub closed spec fn config(&self) -> Config {
        self.config
    }

    /// Width of the square domain.
    pub closed spec fn domain(&self) -> u64 {
        self.width
    }

    /// Ids of stopped cells waiting to be drawn, oldest first.
    pub closed spec fn pending(&self) -> Seq<usize> {
        self.to_draw@
    }

    /// The window of recent step counts.
    pub closed spec fn telemetry(&self) -> RollingAverage {
        self.avg
    }

    /// Generations run so far.
    pub closed spec fn generation(&self) -> usize {
        self.iter
    }

    /// Steps per cell of the next generation.
    pub closed spec fn rate(&self) -> usize {
        self.update_steps
    }

    /// Number of cells ever registered.
    pub open spec fn len_spec(&self) -> nat {
        self.cells().len()
    }

    /// `id` names a cell of the table.
    pub open spec fn valid_id(&self, id: int) -> bool {
        1 <= id <= self.len_spec()
    }

    /// The cell with id `id`.
    pub open spec fn cell(&self, id: int) -> DoublePendulum {
        self.cells()[id - 1]
    }

    /// Where the cell with id `id` stands.
    pub open spec fn place_of(&self, id: int) -> Place {
        self.places()[id - 1]
    }

    /// The cell is in the done set.
    pub open spec fn in_done(&self, id: int) -> bool {
        self.valid_id(id) && self.place_of(id) == Place::Done
    }

    /// The cell is active or in the done set.
    pub open spec fn present(&self, id: int) -> bool {
        self.valid_id(id) && self.place_of(id) != Place::Removed
    }

    /// Every recorded child of `id` is in the done set and stopped.
    pub open spec fn removable(&self, id: int) -> bool {
        &&& self.in_done(id)
        &&& forall|k: int|
            0 <= k < self.cell(id).childs@.len() ==> {
                let c = #[trigger] self.cell(id).childs@[k] as int;
                self.in_done(c) && self.cell(c).stopped
            }
    }

    /// Links of one cell point at cells of the table.
    pub open spec fn links_ok(&self, c: DoublePendulum, bound: nat) -> bool {
        &&& c.parent_id <= bound
        &&& forall|k: int| 0 <= k < c.neighbors@.len() ==> 1 <= #[trigger] c.neighbors@[k] <= bound
        &&& forall|k: int| 0 <= k < c.childs@.len() ==> 1 <= #[trigger] c.childs@[k] <= bound
    }

    /// The table is consistent, with every link below `bound`.
    pub closed spec fn wf_upto(&self, bound: nat) -> bool {
        &&& self.cells@.len() == self.place@.len()
        &&& self.cells@.len() == self.dive@.len()
        &&& self.config.color_mod > 0
        &&& self.avg.wf()
        &&& forall|i: int| 0 <= i < self.cells@.len() ==> (#[trigger] self.cells@[i]).id == i + 1
        &&& forall|i: int|
            0 <= i < self.cells@.len() ==> (self.place@[i] == Place::Active <==> !(
            #[trigger] self.cells@[i]).stopped)
        &&& forall|i: int|
            0 <= i < self.cells@.len() ==> self.links_ok(#[trigger] self.cells@[i], bound)
        &&& forall|k: int| 0 <= k < self.to_draw@.len() ==> 1 <= #[trigger] self.to_draw@[k] <= bound
    }

    /// The table is consistent: every id names its own slot, a cell is active exactly
    /// when it has not stopped, and every link points into the table.
    pub open spec fn wf(&self) -> bool {
        &&& self.wf_upto(self.len_spec())
        &&& self.places().len() == self.len_spec()
        &&& self.marks().len() == self.len_spec()
        &&& forall|i: int| self.valid_id(i) ==> (#[trigger] self.cell(i)).id == i
        &&& forall|i: int|
            self.valid_id(i) ==> (self.place_of(i) == Place::Active <==> !(#[trigger] self.cell(i)).stopped)
    }

    /// An empty sweep over a square domain `width` wide.
    pub fn new(config: Config, width: u64) -> (r: Self)
        requires
            config.color_mod > 0,
        ensures
            r.wf(),
            r.len_spec() == 0,
            r.config() == config,
            r.domain() == width,
            r.generation() == 0,
            r.rate() == 100,
            r.pending().len() == 0,
            r.neighbors_symmetric(),
            r.neighbors_distinct(),
    {
        PendulumFamily {
            config,
            width,
            cells: Vec::new(),
            place: Vec::new(),
            dive: Vec::new(),
            to_draw: VecDeque::new(),
            avg: RollingAverage::new(1000),
            iter: 0,
            update_steps: 100,
        }
    }

    /// Registers a cell under the next id, in the active set.
    pub fn add(&mut self, p: DoublePendulum) -> (id: usize)
        requires
            old(self).wf(),
            !p.stopped,
            old(self).len_spec() < usize::MAX,
            old(self).links_ok(p, old(self).len_spec()),
        ensures
            final(self).wf(),
            id == old(self).len_spec() + 1,
            final(self).cells() == old(self).cells().push(
                DoublePendulum { id, ..p },
            ),
            final(self).places() == old(self).places().push(Place::Active),
            final(self).marks() == old(self).marks().push(false),
            final(self).config() == old(self).config(),
            final(self).domain() == old(self).domain(),
            final(self).pending() == old(self).pending(),
            old(self).neighbors_symmetric() && p.neighbors@.len() == 0 ==> final(self).neighbors_symmetric(),
            old(self).neighbors_distinct() && p.neighbors@.len() == 0 ==> final(self).neighbors_distinct(),
    {
        let id = self.cells.len() + 1;
        let mut p = p;
        p.id = id;
        self.cells.push(p);
        self.place.push(Place::Active);
        self.dive.push(false);
        proof {
            assert forall|i: int| 0 <= i < self.cells@.len() implies self.links_ok(
                #[trigger] self.cells@[i],
                self.cells@.len(),
            ) by {
                if i < old(self).cells@.len() {
                    assert(old(self).links_ok(old(self).cells@[i], old(self).cells@.len()));
                }
            }
            if old(self).neighbors_distinct() && p.neighbors@.len() == 0 {
                assert forall|i: int| self.valid_id(i) implies (#[trigger] self.cell(i)).neighbors@.no_duplicates()
                    && !self.cell(i).neighbors@.contains(i as usize) by {
                    if i < id {
                        assert(self.cells@[i - 1] == old(self).cells@[i - 1]);
                        assert(old(self).cell(i).neighbors@.no_duplicates());
                    }
                }
            }
            if old(self).neighbors_symmetric() && p.neighbors@.len() == 0 {
                let pre = *old(self);
                assert forall|i: int, k: int|
                    self.present(i) && 0 <= k < self.cell(i).neighbors@.len() && self.present(
                        #[trigger] self.cell(i).neighbors@[k] as int,
                    ) implies self.cell(self.cell(i).neighbors@[k] as int).neighbors@.contains(i as usize) by {
                    assert(i < id);
                    assert(self.cells@[i - 1] == pre.cells@[i - 1]);
                    assert(pre.links_ok(pre.cells@[i - 1], pre.cells@.len()));
                    let nb = self.cell(i).neighbors@[k] as int;
                    assert(pre.cell(i).neighbors@[k] == nb);
                    assert(self.cells@[nb - 1] == pre.cells@[nb - 1]);
                    assert(pre.present(i) && pre.present(nb));
                }
            }
        }
        id
    }

    /// The cell is in the done set and every child it recorded is in the done set and stopped.
    pub fn can_remove(&self, id: usize) -> (r: bool)
        requires
            self.wf(),
        ensures
            r == self.removable(id as int),
    {
        if id == 0 || id > self.cells.len() {
            return false;
        }
        if self.place[id - 1] != Place::Done {
            return false;
        }
        let childs = &self.cells[id - 1].childs;
        let mut k: usize = 0;
        while k < childs.len()
            invariant
                self.wf(),
                self.in_done(id as int),
                *childs == self.cell(id as int).childs,
                k <= childs@.len(),
                forall|j: int|
                    0 <= j < k ==> {
                        let c = #[trigger] self.cell(id as int).childs@[j] as int;
                        self.in_done(c) && self.cell(c).stopped
                    },
            decreases childs@.len() - k,
        {
            let c = childs[k];
            if c == 0 || c > self.cells.len() {
                return false;
            }
            if self.place[c - 1] != Place::Done || !self.cells[c - 1].stopped {
                return false;
            }
            k = k + 1;
        }
        true
    }

    fn count(&self, p: Place) -> (r: usize)
        requires
            self.wf(),
        ensures
            r == count_place(self.places(), p),
    {
        let mut n: usize = 0;
        let mut i: usize = 0;
        while i < self.place.len()
            invariant
                i <= self.place@.len(),
                n == count_place(self.place@.subrange(0, i as int), p),
                n <= i,
            decreases self.place@.len() - i,
        {
            proof {
                assert(self.place@.subrange(0, i + 1).drop_last() =~= self.place@.subrange(
                    0,
                    i as int,
                ));
            }
            if self.place[i] == p {
                n = n + 1;
            }
            i = i + 1;
        }
        proof {
            assert(self.place@.subrange(0, i as int) =~= self.place@);
        }
        n
    }

    /// Number of active cells.
    pub fn len(&self) -> (r: usize)
        requires
            self.wf(),
        ensures
            r == count_place(self.places(), Place::Active),
    {
        self.count(Place::Active)
    }

    /// Number of active cells.
    pub fn active_count(&self) -> (r: usize)
        requires
            self.wf(),
        ensures
            r == count_place(self.places(), Place::Active),
    {
        self.count(Place::Active)
    }

    /// Number of cells in the done set.
    pub fn done_count(&self) -> (r: usize)
        requires
            self.wf(),
        ensures
            r == count_place(self.places(), Place::Done),
    {
        self.count(Place::Done)
    }

    /// `a` is picked before `b`: a smaller footprint, or an equal one that has stopped
    /// where `b` still runs.
    pub open spec fn better(a: DoublePendulum, b: DoublePendulum) -> bool {
        a.width < b.width || (a.width == b.width && a.stopped && !b.stopped)
    }

    pub fn find_all(&self, x: u64, y: u64) -> (r: Option<usize>)
        requires
            self.wf(),
        ensures
            r is None <==> !exists|i: int|
                1 <= i <= self.len_spec() && self.present(i) && inside_spec(
                    &#[trigger] self.cell(i),
                    x as int,
                    y as int,
                ),
            r matches Some(id) ==> {
                &&& self.present(id as int)
                &&& inside_spec(&self.cell(id as int), x as int, y as int)
                &&& forall|i: int|
                    1 <= i <= self.len_spec() && self.present(i) && inside_spec(
                        &#[trigger] self.cell(i),
                        x as int,
                        y as int,
                    ) ==> !Self::better(self.cell(i), self.cell(id as int))
                &&& forall|i: int|
                    1 <= i < id && self.present(i) && inside_spec(
                        &#[trigger] self.cell(i),
                        x as int,
                        y as int,
                    ) ==> Self::better(self.cell(id as int), self.cell(i))
            },
    {
        let mut best: Option<usize> = None;
        let mut i: usize = 0;
        while i < self.cells.len()
            invariant
                self.wf(),
                i <= self.len_spec(),
                best is None <==> !exists|j: int|
                    1 <= j <= i && self.present(j) && inside_spec(
                        &#[trigger] self.cell(j),
                        x as int,
                        y as int,
                    ),
                best matches Some(id) ==> {
                    &&& 1 <= id <= i
                    &&& self.present(id as int)
                    &&& inside_spec(&self.cell(id as int), x as int, y as int)
                    &&& forall|j: int|
                        1 <= j <= i && self.present(j) && inside_spec(
                            &#[trigger] self.cell(j),
                            x as int,
                            y as int,
                        ) ==> !Self::better(self.cell(j), self.cell(id as int))
                    &&& forall|j: int|
                        1 <= j < id && self.present(j) && inside_spec(
                            &#[trigger] self.cell(j),
                            x as int,
                            y as int,
                        ) ==> Self::better(self.cell(id as int), self.cell(j))
                },
            decreases self.len_spec() - i,
        {
            let c = &self.cells[i];
            if self.place[i] != Place::Removed && c.point_inside(x, y) {
                match best {
                    None => {
                        best = Some(i + 1);
                    },
                    Some(b) => {
                        let cb = &self.cells[b - 1];
                        if c.width < cb.width || (c.width == cb.width && c.stopped && !cb.stopped) {
                            best = Some(i + 1);
                        }
                    },
                }
            }
            proof {
                assert(self.cell(i + 1) == self.cells@[i as int]);
                if self.present(i + 1) && inside_spec(&self.cell(i + 1), x as int, y as int) {
                    assert(best is Some);
                }
                if best is None {
                    assert forall|j: int| 1 <= j <= i + 1 implies !(self.present(j) && inside_spec(
                        &#[trigger] self.cell(j),
                        x as int,
                        y as int,
                    )) by {}
                } else {
                    let id = best->0;
                    assert(self.present(id as int) && inside_spec(&self.cell(id as int), x as int, y as int));
                }
            }
            i = i + 1;
        }
        best
    }

    /// Ids of the cells that stopped since the last call, in the order they stopped.
    pub fn drain_pending(&mut self) -> (r: Vec<usize>)
        requires
            old(self).wf(),
        ensures
            final(self).wf(),
            r@ == old(self).pending(),
            final(self).pending().len() == 0,
            final(self).cells() == old(self).cells(),
            final(self).places() == old(self).places(),
            final(self).marks() == old(self).marks(),
            final(self).config() == old(self).config(),
            final(self).domain() == old(self).domain(),
            final(self).telemetry() == old(self).telemetry(),
            final(self).generation() == old(self).generation(),
            final(self).rate() == old(self).rate(),
    {
        let ghost pre = *self;
        let mut r: Vec<usize> = Vec::new();
        while self.to_draw.len() > 0
            invariant
                pre.wf(),
                r@ + self.to_draw@ == pre.to_draw@,
                self.cells == pre.cells,
                self.place == pre.place,
                self.dive == pre.dive,
                self.config == pre.config,
                self.width == pre.width,
                self.avg == pre.avg,
                self.iter == pre.iter,
                self.update_steps == pre.update_steps,
            decreases self.to_draw@.len(),
        {
            let ghost before = self.to_draw@;
            match self.to_draw.pop_front() {
                Some(id) => {
                    r.push(id);
                    proof {
                        assert(r@ + self.to_draw@ =~= pre.to_draw@);
                    }
                },
                None => {},
            }
        }
        proof {
            assert(r@ + self.to_draw@ =~= r@);
        }
        r
    }

    /// Number of cells ever registered; ids run from one to this.
    pub fn total(&self) -> (r: usize)
        requires
            self.wf(),
        ensures
            r == self.len_spec(),
    {
        self.cells.len()
    }

    /// The cell with id `id`.
    pub fn cell_at(&self, id: usize) -> (r: &DoublePendulum)
        requires
            self.wf(),
            self.valid_id(id as int),
        ensures
            *r == self.cell(id as int),
    {
        &self.cells[id - 1]
    }

    /// Where the cell with id `id` stands.
    pub fn place_at(&self, id: usize) -> (r: Place)
        requires
            self.wf(),
            self.valid_id(id as int),
        ensures
            r == self.place_of(id as int),
    {
        self.place[id - 1]
    }

    /// The cell was split, or picked for a split.
    pub fn is_marked(&self, id: usize) -> (r: bool)
        requires
            self.wf(),
            self.valid_id(id as int),
        ensures
            r == self.marks()[id - 1],
    {
        self.dive[id - 1]
    }

    /// Generations run so far.
    pub fn iter(&self) -> (r: usize)
        ensures
            r == self.generation(),
    {
        self.iter
    }

    /// Steps per cell of the next generation.
    pub fn update_steps(&self) -> (r: usize)
        ensures
            r == self.rate(),
    {
        self.update_steps
    }

    /// Sets the steps per cell of the next generation.
    pub fn set_update_steps(&mut self, n: usize)
        requires
            old(self).wf(),
        ensures
            final(self).wf(),
            final(self).rate() == n,
            final(self).cells() == old(self).cells(),
            final(self).places() == old(self).places(),
            final(self).marks() == old(self).marks(),
            final(self).config() == old(self).config(),
            final(self).domain() == old(self).domain(),
            final(self).pending() == old(self).pending(),
            final(self).telemetry() == old(self).telemetry(),
            final(self).generation() == old(self).generation(),
    {
        self.update_steps = n;
    }

    /// Mean step count of the recently stopped cells.
    pub fn average(&self) -> (r: u32)
        requires
            self.wf(),
        ensures
            r == mean_of(self.telemetry()@),
    {
        self.avg.get()
    }

    /// The settings of the sweep.
    pub fn settings(&self) -> (r: Config)
        ensures
            r == self.config(),
    {
        self.config
    }

    /// Width of the square domain.
    pub fn width(&self) -> (r: u64)
        ensures
            r == self.domain(),
    {
        self.width
    }
}

} // verus!
