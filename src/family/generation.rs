//! One generation: recording the integrators' outcomes, the rule of the first
//! generations, the removal of resolved parents and the divergence pass.
use vstd::prelude::*;

use super::{count_place, Config, GenerationError, GenerationReport, PendulumFamily, Place, StepOutcome};
use crate::rolling::mean_of;
use crate::cell::{budget_of, child_anchors, expires, stop_color, DoublePendulum};

verus! {

impl PendulumFamily {
    /// Cell `a` keeps the integration results of `b`: id, lineage, geometry, step
    /// count and expiry, the stop, and the colour unless `a` has just stopped.
    pub open spec fn kept(a: DoublePendulum, b: DoublePendulum) -> bool {
        &&& a.id == b.id
        &&& a.parent_id == b.parent_id
        &&& a.x == b.x
        &&& a.y == b.y
        &&& a.width == b.width
        &&& a.steps == b.steps
        &&& a.expired == b.expired
        &&& (b.stopped ==> a.stopped)
        &&& (b.stopped ==> a.color == b.color)
        &&& (!a.stopped ==> a.color == b.color)
    }

    /// Integration results survive: ids, geometry, step counts and expiry are kept,
    /// and no stopped cell runs again.
    pub open spec fn keeps_integration(&self, prev: &Self) -> bool {
        &&& self.len_spec() >= prev.len_spec()
        &&& self.config() == prev.config()
        &&& self.domain() == prev.domain()
        &&& forall|i: int|
            0 <= i < prev.len_spec() ==> Self::kept(#[trigger] self.cells()[i], prev.cells()[i])
    }

    pub(super) proof fn lemma_keeps_trans(a: &Self, b: &Self, c: &Self)
        requires
            b.keeps_integration(a),
            c.keeps_integration(b),
        ensures
            c.keeps_integration(a),
    {
        assert forall|i: int| 0 <= i < a.len_spec() implies Self::kept(#[trigger] c.cells()[i], a.cells()[i]) by {
            assert(b.cells()[i] == b.cells()[i]);
        }
    }

    pub(super) proof fn lemma_grown_keeps(a: &Self, b: &Self)
        requires
            b.grown_from(a),
        ensures
            b.keeps_integration(a),
    {
        assert forall|i: int| 0 <= i < a.len_spec() implies Self::kept(#[trigger] b.cells()[i], a.cells()[i]) by {
            assert(b.cells()[i] == b.cells()[i]);
        }
    }

    /// Whether a cell is the one cell active or kept depends on the places alone.
    pub(super) proof fn lemma_lone_same(a: &Self, b: &Self, id: int)
        requires
            a.len_spec() == b.len_spec(),
            forall|i: int| #[trigger] b.present(i) == a.present(i),
        ensures
            a.lone(id) == b.lone(id),
    {
        if a.lone(id) {
            assert forall|j: int| b.valid_id(j) && j != id implies !#[trigger] b.present(j) by {
                assert(!a.present(j));
            }
        }
        if b.lone(id) {
            assert forall|j: int| a.valid_id(j) && j != id implies !#[trigger] a.present(j) by {
                assert(!b.present(j));
            }
        }
    }

    /// `id` is the one cell that is active or kept.
    pub open spec fn lone(&self, id: int) -> bool {
        &&& self.present(id)
        &&& forall|j: int| self.valid_id(j) && j != id ==> !#[trigger] self.present(j)
    }

    pub(super) fn lone_present(&self) -> (r: Option<usize>)
        requires
            self.wf(),
        ensures
            r matches Some(id) ==> self.lone(id as int),
            r is None ==> forall|id: int| !#[trigger] self.lone(id),
    {
        let mut found: Option<usize> = None;
        let mut i: usize = 0;
        while i < self.place.len()
            invariant
                self.wf(),
                i <= self.len_spec(),
                found matches Some(id) ==> 1 <= id <= i && self.present(id as int) && forall|j: int|
                    1 <= j <= i && j != id ==> !#[trigger] self.present(j),
                found is None ==> forall|j: int| 1 <= j <= i ==> !#[trigger] self.present(j),
            decreases self.len_spec() - i,
        {
            if self.place[i] != Place::Removed {
                match found {
                    None => {
                        found = Some(i + 1);
                    },
                    Some(_) => {
                        proof {
                            assert(self.present(i + 1));
                            assert forall|id: int| !#[trigger] self.lone(id) by {
                                if self.lone(id) {
                                    if id == i + 1 {
                                        assert(self.present(found->0 as int));
                                    } else {
                                        assert(self.present(i + 1));
                                    }
                                }
                            }
                        }
                        return None;
                    },
                }
            }
            i = i + 1;
        }
        proof {
            if found is None {
                assert forall|id: int| !#[trigger] self.lone(id) by {
                    if self.lone(id) {
                        assert(self.present(id));
                    }
                }
            }
        }
        found
    }

    /// The first generations' rule: when only one cell is active or kept, it is
    /// stopped if it still runs, and split at once if it was not split before.
    #[verifier::rlimit(30)]
    pub(super) fn bootstrap(&mut self) -> (spawned: usize)
        requires
            old(self).wf(),
        ensures
            final(self).wf(),
            final(self).keeps_integration(old(self)),
            old(self).neighbors_symmetric() ==> final(self).neighbors_symmetric(),
            old(self).neighbors_distinct() ==> final(self).neighbors_distinct(),
            final(self).queue_extends(old(self)),
            forall|i: int|
                0 <= i < old(self).len_spec() ==> (#[trigger] final(self).cells()[i]).stopped == (old(
                    self,
                ).cells()[i].stopped || old(self).lone(i + 1)),
            forall|i: int|
                0 <= i < old(self).len_spec() && (#[trigger] final(self).cells()[i]).stopped && !old(
                    self,
                ).cells()[i].stopped ==> final(self).pending().contains((i + 1) as usize),
            forall|i: int| 0 <= i < old(self).len_spec() && old(self).marks()[i] ==> #[trigger] final(self).marks()[i],
            forall|i: int|
                old(self).len_spec() <= i < final(self).len_spec() ==> {
                    let par = (#[trigger] final(self).cells()[i]).parent_id as int;
                    &&& old(self).valid_id(par)
                    &&& !old(self).marks()[par - 1]
                    &&& final(self).marks()[par - 1]
                },
            spawned == final(self).len_spec() - old(self).len_spec(),
            final(self).generation() == old(self).generation(),
            final(self).rate() == old(self).rate(),
            forall|i: int|
                0 <= i < old(self).len_spec() && (#[trigger] final(self).cells()[i]).stopped && !old(
                    self,
                ).cells()[i].stopped ==> final(self).cells()[i].color == stop_color(
                    &final(self).cells()[i],
                    old(self).config().color_step,
                    old(self).config().color_mod,
                ),
            forall|id: int|
                old(self).lone(id) && !old(self).marks()[id - 1] && old(self).len_spec() + child_anchors(
                    &old(self).cell(id),
                    old(self).domain(),
                    old(self).config().min_pixel,
                ).len() <= old(self).config().max_cells ==> {
                    &&& final(self).len_spec() == old(self).len_spec() + child_anchors(
                        &old(self).cell(id),
                        old(self).domain(),
                        old(self).config().min_pixel,
                    ).len()
                    &&& final(self).cell(id).stopped
                    &&& final(self).place_of(id) == Place::Done
                    &&& final(self).marks()[id - 1]
                },
            forall|i: int|
                0 <= i < old(self).len_spec() ==> (#[trigger] final(self).cells()[i]).childs@.len() >= old(self).cells()[i].childs@.len()
                    && final(self).cells()[i].childs@.subrange(0, old(self).cells()[i].childs@.len() as int) == old(self).cells()[i].childs@,
            forall|i: int|
                old(self).len_spec() <= i < final(self).len_spec() ==> old(self).lone(
                    (#[trigger] final(self).cells()[i]).parent_id as int,
                ) && final(self).places()[i] == Place::Active,
            forall|i: int|
                0 <= i < old(self).len_spec() ==> #[trigger] final(self).places()[i] == old(self).places()[i] || (old(
                    self,
                ).lone(i + 1) && final(self).places()[i] == Place::Done),
    {
        let ghost pre = *self;
        let lone = self.lone_present();
        match lone {
            None => {
                proof {
                    Self::lemma_queue_refl(self);
                }
                0
            },
            Some(id) => {
                let i = id - 1;
                let cs = self.config.color_step;
                let cm = self.config.color_mod;
                if !self.cells[i].stopped {
                    self.cells[i].stopped = true;
                    self.cells[i].update_color(cs, cm);
                    self.place.set(i, Place::Done);
                    self.to_draw.push_back(id);
                    let st = self.cells[i].steps as u32;
                    self.avg.add(st);
                }
                proof {
                    assert forall|j: int| 0 <= j < self.cells@.len() implies self.links_ok(
                        #[trigger] self.cells@[j],
                        self.cells@.len(),
                    ) by {
                        assert(pre.links_ok(pre.cells@[j], pre.cells@.len()));
                    }
                    assert forall|j: int|
                        0 <= j < self.cells@.len() implies (self.place@[j] == Place::Active <==> !(
                        #[trigger] self.cells@[j]).stopped) by {
                        assert(pre.place@[j] == Place::Active <==> !pre.cells@[j].stopped);
                    }
                    assert forall|j: int| 0 <= j < self.cells@.len() implies (#[trigger] self.cells@[j]).id == j + 1 by {
                        assert(pre.cells@[j].id == j + 1);
                    }
                    assert(self.keeps_integration(&pre)) by {
                        assert forall|j: int| 0 <= j < pre.len_spec() implies Self::kept(#[trigger] self.cells()[j], pre.cells()[j]) by {
                            assert(pre.cells()[j] == pre.cells@[j]);
                        }
                    }
                }
                proof {
                    if pre.neighbors_symmetric() {
                        assert forall|j: int|
                            self.present(j) implies pre.present(j) && (#[trigger] self.cell(j)).neighbors
                                == pre.cell(j).neighbors by {
                            assert(self.place@[j - 1] == Place::Active <==> !self.cells@[j - 1].stopped);
                        }
                        Self::lemma_symmetric_shrink(&pre, self);
                    }
                    if pre.neighbors_distinct() {
                        Self::lemma_distinct_keep(&pre, self);
                    }
                }
                let ghost forced = *self;
                proof {
                    assert(forced.queue_extends(&pre)) by {
                        assert(self.pending().subrange(0, pre.pending().len() as int) =~= pre.pending());
                    }
                    assert forall|j: int|
                        0 <= j < pre.len_spec() && (#[trigger] forced.cells()[j]).stopped && !pre.cells()[j].stopped
                            implies forced.pending().contains((j + 1) as usize) by {
                        if j != i {
                            assert(forced.cells()[j] == pre.cells()[j]);
                        } else {
                            assert(forced.pending()[forced.pending().len() - 1] == id);
                        }
                    }
                }
                if self.dive[i] {
                    proof {
                        Self::lemma_boot_queue(&pre, &forced, self);
                    }
                    return 0;
                }
                let kids = self.cells[i].split(self.width, self.config.min_pixel);
                self.dive.set(i, true);
                let ghost mid = *self;
                proof {
                    if pre.neighbors_symmetric() {
                        Self::lemma_symmetric_shrink(&pre, &mid);
                    }
                    if pre.neighbors_distinct() {
                        Self::lemma_distinct_keep(&pre, &mid);
                    }
                }
                if kids.len() <= self.config.max_cells && self.cells.len() <= self.config.max_cells
                    - kids.len() {
                    let ids = self.update_neighbors(id, &kids);
                    proof {
                        assert(self.keeps_integration(&mid)) by {
                            assert forall|j: int| 0 <= j < mid.len_spec() implies Self::kept(#[trigger] self.cells()[j], mid.cells()[j]) by {
                                assert(self.cells()[j].x == mid.cells()[j].x);
                            }
                        }
                        assert(self.cells()[i as int].x == mid.cells()[i as int].x);
                        Self::lemma_keeps_trans(&pre, &mid, self);
                        assert forall|j: int|
                            0 <= j < forced.len_spec() implies (#[trigger] self.cells()[j]).stopped
                                == forced.cells()[j].stopped by {
                            assert(self.cells()[j].x == mid.cells()[j].x);
                        }
                        Self::lemma_boot_queue(&pre, &forced, self);
                        assert forall|j: int| 0 <= j < pre.len_spec() && pre.marks()[j] implies #[trigger] self.marks()[j] by {
                            assert(self.cells()[j].x == mid.cells()[j].x);
                            assert(self.marks()[j] == mid.marks()[j]);
                        }
                        assert forall|j: int| 0 <= j < pre.len_spec() implies #[trigger] self.places()[j] == pre.places()[j] || (
                            pre.lone(j + 1) && self.places()[j] == Place::Done) by {
                            assert(self.cells()[j].x == mid.cells()[j].x);
                            assert(self.places()[j] == mid.places()[j]);
                            if j != i {
                                assert(mid.places()[j] == pre.places()[j]);
                            }
                        }
                    }
                    ids.len()
                } else {
                    proof {
                        assert(self.keeps_integration(&mid));
                        Self::lemma_keeps_trans(&pre, &mid, self);
                        Self::lemma_boot_queue(&pre, &forced, self);
                    }
                    0
                }
            },
        }
    }

    /// Drops from the done set each parent of the given cells whose children have all
    /// stopped. Returns how many were dropped.
    pub(super) fn remove_resolved(&mut self, ps: &Vec<usize>) -> (removed: usize)
        requires
            old(self).wf(),
            forall|k: int| 0 <= k < ps@.len() ==> old(self).valid_id(#[trigger] ps@[k] as int),
        ensures
            final(self).wf(),
            final(self).keeps_integration(old(self)),
            old(self).neighbors_symmetric() ==> final(self).neighbors_symmetric(),
            old(self).neighbors_distinct() ==> final(self).neighbors_distinct(),
            final(self).len_spec() == old(self).len_spec(),
            forall|i: int|
                0 <= i < old(self).len_spec() ==> (#[trigger] final(self).cells()[i]).stopped == old(
                    self,
                ).cells()[i].stopped && final(self).cells()[i].color == old(self).cells()[i].color,
            removed <= ps@.len(),
            final(self).marks() == old(self).marks(),
            forall|i: int|
                0 <= i < old(self).len_spec() && #[trigger] final(self).places()[i] == Place::Removed && old(self).places()[i]
                    != Place::Removed ==> old(self).removable(i + 1),
            forall|i: int|
                0 <= i < old(self).len_spec() && #[trigger] final(self).places()[i] != old(self).places()[i]
                    ==> old(self).places()[i] == Place::Done && final(self).places()[i] == Place::Removed,
            final(self).pending() == old(self).pending(),
            final(self).telemetry() == old(self).telemetry(),
            final(self).generation() == old(self).generation(),
            final(self).rate() == old(self).rate(),
    {
        let ghost pre = *self;
        let mut removed: usize = 0;
        let mut k: usize = 0;
        while k < ps.len()
            invariant
                self.wf(),
                self.keeps_integration(&pre),
                self.len_spec() == pre.len_spec(),
                forall|i: int|
                    0 <= i < pre.len_spec() ==> (#[trigger] self.cells()[i]).stopped == pre.cells()[i].stopped
                        && self.cells()[i].color == pre.cells()[i].color,
                self.dive == pre.dive,
                forall|i: int|
                    0 <= i < pre.len_spec() && #[trigger] self.places()[i] == Place::Removed && pre.places()[i]
                        != Place::Removed ==> pre.removable(i + 1),
                forall|i: int|
                    0 <= i < pre.len_spec() && #[trigger] self.places()[i] == pre.places()[i] ==> self.cells()[i].childs
                        == pre.cells()[i].childs,
                forall|i: int|
                    0 <= i < pre.len_spec() && #[trigger] self.places()[i] != pre.places()[i]
                        ==> pre.places()[i] == Place::Done && self.places()[i] == Place::Removed,
                self.to_draw == pre.to_draw,
                self.avg == pre.avg,
                self.iter == pre.iter,
                self.update_steps == pre.update_steps,
                k <= ps@.len(),
                removed <= k,
                forall|q: int| 0 <= q < ps@.len() ==> pre.valid_id(#[trigger] ps@[q] as int),
                forall|i: int|
                    self.present(i) ==> pre.present(i) && (#[trigger] self.cell(i)).neighbors == pre.cell(
                        i,
                    ).neighbors,
                forall|i: int|
                    0 <= i < self.len_spec() ==> (#[trigger] self.cells()[i]).neighbors@ == pre.cells()[i].neighbors@
                        || self.cells()[i].neighbors@.len() == 0,
            decreases ps@.len() - k,
        {
            let sid = ps[k];
            let par = self.cells[sid - 1].parent_id;
            if par != 0 && self.can_remove(par) {
                let ghost before = *self;
                self.place.set(par - 1, Place::Removed);
                self.cells[par - 1].neighbors = Vec::new();
                self.cells[par - 1].childs = Vec::new();
                removed = removed + 1;
                proof {
                    assert forall|j: int| 0 <= j < self.cells@.len() implies self.links_ok(
                        #[trigger] self.cells@[j],
                        self.cells@.len(),
                    ) by {
                        assert(before.links_ok(before.cells@[j], before.cells@.len()));
                    }
                    assert forall|j: int|
                        0 <= j < self.cells@.len() implies (self.place@[j] == Place::Active <==> !(
                        #[trigger] self.cells@[j]).stopped) by {
                        assert(before.place@[j] == Place::Active <==> !before.cells@[j].stopped);
                    }
                    assert forall|j: int| 0 <= j < self.cells@.len() implies (#[trigger] self.cells@[j]).id == j + 1 by {
                        assert(before.cells@[j].id == j + 1);
                    }
                    assert(self.keeps_integration(&before)) by {
                        assert forall|j: int| 0 <= j < before.len_spec() implies Self::kept(#[trigger] self.cells()[j], before.cells()[j]) by {
                            assert(before.cells()[j] == before.cells@[j]);
                        }
                    }
                    Self::lemma_keeps_trans(&pre, &before, self);
                    assert(pre.removable(par as int)) by {
                        assert(before.places()[par - 1] == pre.places()[par - 1]);
                        assert forall|k2: int| 0 <= k2 < pre.cell(par as int).childs@.len() implies {
                            let c = #[trigger] pre.cell(par as int).childs@[k2] as int;
                            pre.in_done(c) && pre.cell(c).stopped
                        } by {
                            let c = pre.cell(par as int).childs@[k2] as int;
                            assert(before.cell(par as int).childs@[k2] as int == c);
                            assert(before.in_done(c));
                            if before.places()[c - 1] != pre.places()[c - 1] {
                                assert(before.places()[c - 1] == Place::Removed);
                            }
                            assert(before.cells()[c - 1].stopped == pre.cells()[c - 1].stopped);
                        }
                    }
                    assert forall|i: int|
                        0 <= i < pre.len_spec() && #[trigger] self.places()[i] == Place::Removed && pre.places()[i]
                            != Place::Removed implies pre.removable(i + 1) by {
                        if i != par - 1 {
                            assert(self.places()[i] == before.places()[i]);
                        }
                    }
                    assert forall|i: int|
                        0 <= i < pre.len_spec() && #[trigger] self.places()[i] == pre.places()[i] implies self.cells()[i].childs
                            == pre.cells()[i].childs by {
                        if i != par - 1 {
                            assert(self.cells()[i] == before.cells()[i]);
                            assert(self.places()[i] == before.places()[i]);
                        }
                    }
                    assert forall|i: int|
                        0 <= i < pre.len_spec() && #[trigger] self.places()[i] != pre.places()[i]
                            implies pre.places()[i] == Place::Done && self.places()[i] == Place::Removed by {
                        if i != par - 1 {
                            assert(self.places()[i] == before.places()[i]);
                        } else {
                            assert(before.places()[i] == Place::Done);
                        }
                    }
                    assert forall|i: int| self.present(i) implies pre.present(i) && (#[trigger] self.cell(i)).neighbors
                        == pre.cell(i).neighbors by {
                        assert(self.place@[par - 1] == Place::Removed);
                        assert(self.place@[i - 1] != Place::Removed);
                        assert(i != par);
                        assert(self.place@[i - 1] == before.place@[i - 1]);
                        assert(self.cells@[i - 1] == before.cells@[i - 1]);
                        assert(before.present(i));
                        assert(before.cell(i).neighbors == pre.cell(i).neighbors);
                    }
                    assert forall|i: int|
                        0 <= i < self.len_spec() implies (#[trigger] self.cells()[i]).neighbors@ == pre.cells()[i].neighbors@
                            || self.cells()[i].neighbors@.len() == 0 by {
                        if i != par - 1 {
                            assert(self.cells()[i] == before.cells()[i]);
                        }
                    }
                    assert forall|i: int|
                        0 <= i < pre.len_spec() implies (#[trigger] self.cells()[i]).stopped == pre.cells()[i].stopped
                            && self.cells()[i].color == pre.cells()[i].color by {
                        assert(before.cells()[i].stopped == pre.cells()[i].stopped);
                    }
                }
            }
            k = k + 1;
        }
        proof {
            if pre.neighbors_symmetric() {
                Self::lemma_symmetric_shrink(&pre, self);
            }
            if pre.neighbors_distinct() {
                Self::lemma_distinct_keep(&pre, self);
            }
        }
        removed
    }

    /// The outcomes list each active cell once, by rising id, within its budget.
    pub open spec fn outcomes_valid(&self, outs: Seq<StepOutcome>) -> bool {
        &&& outs.len() == count_place(self.places(), Place::Active)
        &&& forall|k: int|
            0 <= k < outs.len() ==> {
                let o = #[trigger] outs[k];
                &&& self.valid_id(o.id as int)
                &&& self.place_of(o.id as int) == Place::Active
                &&& o.taken <= budget_of(&self.cell(o.id as int), self.rate(), self.config().max_step)
                &&& (o.flipped ==> o.taken > 0)
                &&& (!o.flipped ==> o.taken == budget_of(&self.cell(o.id as int), self.rate(), self.config().max_step))
            }
        &&& forall|k: int| 0 < k < outs.len() ==> outs[k - 1].id < (#[trigger] outs[k]).id
    }

    pub(super) fn check_outcomes(&self, outs: &Vec<StepOutcome>) -> (r: bool)
        requires
            self.wf(),
        ensures
            r == self.outcomes_valid(outs@),
    {
        if outs.len() != self.count(Place::Active) {
            return false;
        }
        let mut k: usize = 0;
        while k < outs.len()
            invariant
                self.wf(),
                k <= outs@.len(),
                outs@.len() == count_place(self.places(), Place::Active),
                forall|q: int|
                    0 <= q < k ==> {
                        let o = #[trigger] outs@[q];
                        &&& self.valid_id(o.id as int)
                        &&& self.place_of(o.id as int) == Place::Active
                        &&& o.taken <= budget_of(&self.cell(o.id as int), self.rate(), self.config().max_step)
                        &&& (o.flipped ==> o.taken > 0)
                        &&& (!o.flipped ==> o.taken == budget_of(&self.cell(o.id as int), self.rate(), self.config().max_step))
                    },
                forall|q: int| 0 < q < k ==> outs@[q - 1].id < (#[trigger] outs@[q]).id,
            decreases outs@.len() - k,
        {
            let o = outs[k];
            if o.id == 0 || o.id > self.cells.len() {
                return false;
            }
            if self.place[o.id - 1] != Place::Active {
                return false;
            }
            if o.taken > self.cells[o.id - 1].step_budget(self.update_steps, self.config.max_step) {
                return false;
            }
            if o.flipped && o.taken == 0 {
                return false;
            }
            if !o.flipped && o.taken != self.cells[o.id - 1].step_budget(self.update_steps, self.config.max_step) {
                return false;
            }
            if k > 0 && outs[k - 1].id >= o.id {
                return false;
            }
            k = k + 1;
        }
        true
    }

    /// Ids, lineage and geometry are kept, and no stopped cell runs again.
    pub open spec fn keeps_frame(&self, prev: &Self) -> bool {
        &&& self.len_spec() >= prev.len_spec()
        &&& self.config() == prev.config()
        &&& self.domain() == prev.domain()
        &&& forall|i: int|
            0 <= i < prev.len_spec() ==> {
                let a = #[trigger] self.cells()[i];
                let b = prev.cells()[i];
                &&& a.id == b.id
                &&& a.parent_id == b.parent_id
                &&& a.x == b.x
                &&& a.y == b.y
                &&& a.width == b.width
                &&& (b.stopped ==> a.stopped)
            }
    }

    pub(super) proof fn lemma_frame_trans(a: &Self, b: &Self, c: &Self)
        requires
            b.keeps_frame(a),
            c.keeps_integration(b),
        ensures
            c.keeps_frame(a),
    {
        assert forall|i: int| 0 <= i < a.len_spec() implies {
            let x = #[trigger] c.cells()[i];
            let y = a.cells()[i];
            &&& x.id == y.id
            &&& x.parent_id == y.parent_id
            &&& x.x == y.x
            &&& x.y == y.y
            &&& x.width == y.width
            &&& (y.stopped ==> x.stopped)
        } by {
            assert(b.cells()[i] == b.cells()[i]);
        }
    }

    /// Facts on the table kept while the outcomes are recorded.
    pub(super) closed spec fn applying_a(
        &self,
        pre: &Self,
        outs: Seq<StepOutcome>,
        k: int,
        stopped: Seq<usize>,
        rate: usize,
        max_step: usize,
        cs: usize,
        cm: usize,
    ) -> bool {
        &&& pre.wf()
        &&& pre.outcomes_valid(outs)
        &&& self.wf()
        &&& self.keeps_frame(pre)
        &&& self.len_spec() == pre.len_spec()
        &&& rate == pre.update_steps
        &&& max_step == pre.config.max_step
        &&& cs == pre.config.color_step
        &&& cm == pre.config.color_mod
        &&& self.dive == pre.dive
        &&& self.iter == pre.iter
        &&& self.update_steps == pre.update_steps
        &&& 0 <= k <= outs.len()
        &&& forall|q: int|
                0 <= q < stopped.len() ==> self.valid_id(#[trigger] stopped[q] as int) && self.cell(
                    stopped[q] as int,
                ).stopped
        &&& forall|i: int|
                self.present(i) ==> pre.present(i) && (#[trigger] self.cell(i)).neighbors == pre.cell(
                    i,
                ).neighbors
        &&& self.queue_extends(pre)
        &&& forall|i: int| #[trigger] self.present(i) == pre.present(i)
        &&& forall|i: int| 0 <= i < self.len_spec() ==> (#[trigger] self.cells()[i]).neighbors == pre.cells()[i].neighbors
        &&& forall|i: int| 0 <= i < self.len_spec() ==> (#[trigger] self.cells()[i]).childs == pre.cells()[i].childs
    }

    /// Every id of `ids` is the id of one of the outcomes.
    pub open spec fn from_outcomes(ids: Seq<usize>, outs: Seq<StepOutcome>) -> bool {
        forall|q: int|
            0 <= q < ids.len() ==> exists|j: int| 0 <= j < outs.len() && (#[trigger] outs[j]).id == #[trigger] ids[q]
    }

    /// Order of the outcomes and the render queue, while the outcomes are recorded.
    pub(super) closed spec fn applying_b1(
        &self,
        pre: &Self,
        outs: Seq<StepOutcome>,
        k: int,
        stopped: Seq<usize>,
        rate: usize,
        max_step: usize,
        cs: usize,
        cm: usize,
    ) -> bool {
        &&& (k < outs.len() ==> forall|j: int| 0 <= j < k ==> (#[trigger] outs[j]).id < outs[k].id)
        &&& forall|j: int|
                0 <= j < k && self.cell((#[trigger] outs[j]).id as int).stopped ==> self.pending().contains(
                    outs[j].id,
                )
    }

    /// Cells untouched so far and cells recorded so far.
    pub(super) closed spec fn applying_b2(
        &self,
        pre: &Self,
        outs: Seq<StepOutcome>,
        k: int,
        stopped: Seq<usize>,
        rate: usize,
        max_step: usize,
        cs: usize,
        cm: usize,
    ) -> bool {
        &&& forall|i: int|
                0 <= i < self.len_spec() && (forall|j: int| 0 <= j < k ==> (#[trigger] outs[j]).id != i + 1)
                    ==> self.cells@[i] == pre.cells@[i] && self.place@[i] == pre.place@[i]
        &&& forall|j: int|
                0 <= j < k ==> Self::applied(
                    self.cell((#[trigger] outs[j]).id as int),
                    pre.cell(outs[j].id as int),
                    outs[j],
                    rate,
                    pre.config,
                )
    }

    /// Facts on the recorded outcomes, `k` of them so far.
    pub(super) closed spec fn applying_b(
        &self,
        pre: &Self,
        outs: Seq<StepOutcome>,
        k: int,
        stopped: Seq<usize>,
        rate: usize,
        max_step: usize,
        cs: usize,
        cm: usize,
    ) -> bool {
        &&& self.applying_b1(pre, outs, k, stopped, rate, max_step, cs, cm)
        &&& self.applying_b2(pre, outs, k, stopped, rate, max_step, cs, cm)
    }

    /// Facts kept while the outcomes are recorded, `k` of them so far.
    #[verifier::opaque]
    pub(super) closed spec fn applying(
        &self,
        pre: &Self,
        outs: Seq<StepOutcome>,
        k: int,
        stopped: Seq<usize>,
        rate: usize,
        max_step: usize,
        cs: usize,
        cm: usize,
    ) -> bool {
        &&& self.applying_a(pre, outs, k, stopped, rate, max_step, cs, cm)
        &&& self.applying_b(pre, outs, k, stopped, rate, max_step, cs, cm)
        &&& Self::from_outcomes(stopped, outs)
    }

    /// What the `k`-th outcome may rely on while the outcomes are recorded.
    pub(super) proof fn lemma_apply_pre(
        &self,
        pre: &Self,
        outs: Seq<StepOutcome>,
        k: int,
        stopped: Seq<usize>,
        rate: usize,
        max_step: usize,
        cs: usize,
        cm: usize,
    )
        requires
            self.applying(pre, outs, k, stopped, rate, max_step, cs, cm),
            k < outs.len(),
        ensures
            self.wf(),
            self.valid_id(outs[k].id as int),
            outs[k].taken <= budget_of(&self.cells@[outs[k].id - 1], rate, max_step),
            outs[k].flipped ==> outs[k].taken > 0,
            !outs[k].flipped ==> outs[k].taken == budget_of(&self.cells@[outs[k].id - 1], rate, max_step),
            cm > 0,
            self.cells@[outs[k].id - 1] == pre.cells@[outs[k].id - 1],
    {
        reveal(PendulumFamily::applying);
        let o = outs[k];
        assert(outs[k] == o);
        assert(forall|j: int| 0 <= j < k ==> (#[trigger] outs[j]).id != o.id);
        assert(self.cells@[o.id - 1] == pre.cells@[o.id - 1]);
    }

    /// Recording the `k`-th outcome keeps the facts on the table.
    #[verifier::rlimit(100)]
    #[verifier::spinoff_prover]
    pub(super) proof fn lemma_apply_step_a(
        &self,
        before: &Self,
        pre: &Self,
        outs: Seq<StepOutcome>,
        k: int,
        stopped: Seq<usize>,
        stopped_before: Seq<usize>,
        rate: usize,
        max_step: usize,
        cs: usize,
        cm: usize,
    )
        requires
            before.applying_a(pre, outs, k, stopped_before, rate, max_step, cs, cm),
            before.applying_b(pre, outs, k, stopped_before, rate, max_step, cs, cm),
            0 <= k < outs.len(),
            ({
                let o = outs[k];
                let i = o.id - 1;
                let c = self.cells@[i];
                let b = before.cells@[i];
                &&& 0 <= i < before.cells@.len()
                &&& self.cells@.len() == before.cells@.len()
                &&& forall|j: int| 0 <= j < self.cells@.len() && j != i ==> self.cells@[j] == before.cells@[j]
                &&& c.id == b.id
                &&& c.parent_id == b.parent_id
                &&& c.childs == b.childs
                &&& c.neighbors == b.neighbors
                &&& c.x == b.x
                &&& c.y == b.y
                &&& c.width == b.width
                &&& c.steps == b.steps + o.taken
                &&& c.stopped == (b.stopped || o.flipped || expires(&b, rate, max_step, o.taken, o.flipped))
                &&& c.expired == (b.expired || expires(&b, rate, max_step, o.taken, o.flipped))
                &&& (c.stopped ==> c.color == stop_color(&c, cs, cm))
                &&& (!c.stopped ==> c.color == b.color)
                &&& (c.stopped ==> self.place@ == before.place@.update(i, Place::Done) && self.to_draw@
                    == before.to_draw@.push(o.id) && stopped == stopped_before.push(o.id))
                &&& (!c.stopped ==> self.place@ == before.place@ && self.to_draw@ == before.to_draw@
                    && stopped == stopped_before)
            }),
            self.avg.wf(),
            self.dive == before.dive,
            self.config == before.config,
            self.width == before.width,
            self.iter == before.iter,
            self.update_steps == before.update_steps,
        ensures
            self.applying_a(pre, outs, k + 1, stopped, rate, max_step, cs, cm),
    {
        let o = outs[k];
        let i = o.id - 1;
        assert(outs[k] == o);
        assert(forall|j: int| 0 <= j < k ==> (#[trigger] outs[j]).id != i + 1);
        assert(before.cells@[i] == pre.cells@[i]);
        assert forall|j: int| #[trigger] self.present(j) == pre.present(j) by {
            assert(before.present(j) == pre.present(j));
            if self.valid_id(j) {
                if j != o.id {
                    assert(self.place@[j - 1] == before.place@[j - 1]);
                } else {
                    assert(pre.place@[j - 1] == Place::Active);
                    assert(before.place@[j - 1] == Place::Active);
                }
            }
        }
                assert forall|j: int| 0 <= j < self.cells@.len() implies self.links_ok(
                    #[trigger] self.cells@[j],
                    self.cells@.len(),
                ) by {
                    assert(before.links_ok(before.cells@[j], before.cells@.len()));
                }
                assert forall|j: int|
                    0 <= j < self.cells@.len() implies (self.place@[j] == Place::Active <==> !(
                    #[trigger] self.cells@[j]).stopped) by {
                    assert(before.place@[j] == Place::Active <==> !before.cells@[j].stopped);
                }
                assert forall|j: int| 0 <= j < self.cells@.len() implies (#[trigger] self.cells@[j]).id == j + 1 by {
                    assert(before.cells@[j].id == j + 1);
                }
                assert(self.keeps_frame(&pre)) by {
                    assert forall|j: int| 0 <= j < pre.len_spec() implies {
                        let a = #[trigger] self.cells()[j];
                        let b = pre.cells()[j];
                        &&& a.id == b.id
                        &&& a.parent_id == b.parent_id
                        &&& a.x == b.x
                        &&& a.y == b.y
                        &&& a.width == b.width
                        &&& (b.stopped ==> a.stopped)
                    } by {
                        assert(before.cells()[j] == before.cells@[j]);
                    }
                }
                assert forall|q: int|
                    0 <= q < stopped.len() implies self.valid_id(#[trigger] stopped[q] as int) && self.cell(
                        stopped[q] as int,
                    ).stopped by {
                    if stopped[q] != o.id {
                        assert(before.cells@[stopped[q] - 1] == before.cells@[stopped[q] - 1]);
                    }
                }
                assert forall|i2: int| self.present(i2) implies pre.present(i2) && (#[trigger] self.cell(i2)).neighbors
                    == pre.cell(i2).neighbors by {
                    if i2 != o.id {
                        assert(self.cells@[i2 - 1] == before.cells@[i2 - 1]);
                        assert(before.present(i2));
                    } else {
                        assert(pre.place@[i2 - 1] == Place::Active);
                    }
                }
                assert(self.queue_extends(&pre)) by {
                    assert(self.pending().subrange(0, pre.pending().len() as int) =~= before.pending().subrange(
                        0,
                        pre.pending().len() as int,
                    ));
                }
    }

    /// Valid outcomes come by rising id.
    pub(super) proof fn lemma_outs_rising(&self, outs: Seq<StepOutcome>, k: int)
        requires
            self.outcomes_valid(outs),
            0 <= k < outs.len() - 1,
        ensures
            outs[k].id < outs[k + 1].id,
    {
        assert(outs[k + 1 - 1].id < outs[k + 1].id);
    }

    /// Recording the `k`-th outcome keeps the order and render-queue facts.
    #[verifier::rlimit(100)]
    #[verifier::spinoff_prover]
    pub(super) proof fn lemma_apply_step_b1(
        &self,
        before: &Self,
        pre: &Self,
        outs: Seq<StepOutcome>,
        k: int,
        stopped: Seq<usize>,
        stopped_before: Seq<usize>,
        rate: usize,
        max_step: usize,
        cs: usize,
        cm: usize,
    )
        requires
            before.applying_a(pre, outs, k, stopped_before, rate, max_step, cs, cm),
            before.applying_b(pre, outs, k, stopped_before, rate, max_step, cs, cm),
            0 <= k < outs.len(),
            ({
                let o = outs[k];
                let i = o.id - 1;
                let c = self.cells@[i];
                let b = before.cells@[i];
                &&& 0 <= i < before.cells@.len()
                &&& self.cells@.len() == before.cells@.len()
                &&& forall|j: int| 0 <= j < self.cells@.len() && j != i ==> self.cells@[j] == before.cells@[j]
                &&& c.id == b.id
                &&& c.parent_id == b.parent_id
                &&& c.childs == b.childs
                &&& c.neighbors == b.neighbors
                &&& c.x == b.x
                &&& c.y == b.y
                &&& c.width == b.width
                &&& c.steps == b.steps + o.taken
                &&& c.stopped == (b.stopped || o.flipped || expires(&b, rate, max_step, o.taken, o.flipped))
                &&& c.expired == (b.expired || expires(&b, rate, max_step, o.taken, o.flipped))
                &&& (c.stopped ==> c.color == stop_color(&c, cs, cm))
                &&& (!c.stopped ==> c.color == b.color)
                &&& (c.stopped ==> self.place@ == before.place@.update(i, Place::Done) && self.to_draw@
                    == before.to_draw@.push(o.id) && stopped == stopped_before.push(o.id))
                &&& (!c.stopped ==> self.place@ == before.place@ && self.to_draw@ == before.to_draw@
                    && stopped == stopped_before)
            }),
            self.avg.wf(),
            self.dive == before.dive,
            self.config == before.config,
            self.width == before.width,
            self.iter == before.iter,
            self.update_steps == before.update_steps,
        ensures
            self.applying_b1(pre, outs, k + 1, stopped, rate, max_step, cs, cm),
    {
        let o = outs[k];
        let i = o.id - 1;
        assert(outs[k] == o);
        assert(forall|j: int| 0 <= j < k ==> (#[trigger] outs[j]).id != i + 1);
        assert(before.cells@[i] == pre.cells@[i]);
                assert forall|j: int|
                    0 <= j < k + 1 && self.cell((#[trigger] outs[j]).id as int).stopped implies self.pending().contains(
                        outs[j].id,
                    ) by {
                    if j < k {
                        assert(outs[j].id < outs[k].id);
                        assert(self.cells@[outs[j].id - 1] == before.cells@[outs[j].id - 1]);
                        if before.pending().contains(outs[j].id) {
                            let w = choose|w: int| 0 <= w < before.pending().len() && before.pending()[w] == outs[j].id;
                            assert(self.pending()[w] == outs[j].id);
                        }
                    } else {
                        assert(outs[j] == o);
                        assert(self.pending()[self.pending().len() - 1] == o.id);
                    }
                }
                if k + 1 < outs.len() {
                    pre.lemma_outs_rising(outs, k);
                    assert forall|j: int| 0 <= j < k + 1 implies (#[trigger] outs[j]).id < outs[k + 1].id by {
                        if j < k {
                            assert(outs[j].id < outs[k].id);
                        }
                    }
                }
    }

    /// Recording the `k`-th outcome keeps the facts on the recorded cells.
    #[verifier::rlimit(100)]
    #[verifier::spinoff_prover]
    pub(super) proof fn lemma_apply_step_b2(
        &self,
        before: &Self,
        pre: &Self,
        outs: Seq<StepOutcome>,
        k: int,
        stopped: Seq<usize>,
        stopped_before: Seq<usize>,
        rate: usize,
        max_step: usize,
        cs: usize,
        cm: usize,
    )
        requires
            before.applying_a(pre, outs, k, stopped_before, rate, max_step, cs, cm),
            before.applying_b(pre, outs, k, stopped_before, rate, max_step, cs, cm),
            0 <= k < outs.len(),
            ({
                let o = outs[k];
                let i = o.id - 1;
                let c = self.cells@[i];
                let b = before.cells@[i];
                &&& 0 <= i < before.cells@.len()
                &&& self.cells@.len() == before.cells@.len()
                &&& forall|j: int| 0 <= j < self.cells@.len() && j != i ==> self.cells@[j] == before.cells@[j]
                &&& c.id == b.id
                &&& c.parent_id == b.parent_id
                &&& c.childs == b.childs
                &&& c.neighbors == b.neighbors
                &&& c.x == b.x
                &&& c.y == b.y
                &&& c.width == b.width
                &&& c.steps == b.steps + o.taken
                &&& c.stopped == (b.stopped || o.flipped || expires(&b, rate, max_step, o.taken, o.flipped))
                &&& c.expired == (b.expired || expires(&b, rate, max_step, o.taken, o.flipped))
                &&& (c.stopped ==> c.color == stop_color(&c, cs, cm))
                &&& (!c.stopped ==> c.color == b.color)
                &&& (c.stopped ==> self.place@ == before.place@.update(i, Place::Done) && self.to_draw@
                    == before.to_draw@.push(o.id) && stopped == stopped_before.push(o.id))
                &&& (!c.stopped ==> self.place@ == before.place@ && self.to_draw@ == before.to_draw@
                    && stopped == stopped_before)
            }),
            self.avg.wf(),
            self.dive == before.dive,
            self.config == before.config,
            self.width == before.width,
            self.iter == before.iter,
            self.update_steps == before.update_steps,
        ensures
            self.applying_b2(pre, outs, k + 1, stopped, rate, max_step, cs, cm),
    {
        let o = outs[k];
        let i = o.id - 1;
        assert(outs[k] == o);
        assert(forall|j: int| 0 <= j < k ==> (#[trigger] outs[j]).id != i + 1);
        assert(before.cells@[i] == pre.cells@[i]);
                assert forall|i2: int|
                    0 <= i2 < self.len_spec() && (forall|j: int| 0 <= j < k + 1 ==> (#[trigger] outs[j]).id != i2 + 1)
                    implies self.cells@[i2] == pre.cells@[i2] && self.place@[i2] == pre.place@[i2] by {
                    assert(outs[k].id != i2 + 1);
                    assert(forall|j: int| 0 <= j < k ==> (#[trigger] outs[j]).id != i2 + 1);
                }
                assert forall|j: int|
                    0 <= j < k + 1 implies Self::applied(
                        self.cell((#[trigger] outs[j]).id as int),
                        pre.cell(outs[j].id as int),
                        outs[j],
                        rate,
                        pre.config,
                    ) by {
                    if j < k {
                        assert(outs[j].id < outs[k].id);
                        assert(self.cells@[outs[j].id - 1].steps == before.cells@[outs[j].id - 1].steps);
                    }
                }
            

    }

    /// Recording the `k`-th outcome keeps the recording facts, one further.
    pub(super) proof fn lemma_apply_step(
        &self,
        before: &Self,
        pre: &Self,
        outs: Seq<StepOutcome>,
        k: int,
        stopped: Seq<usize>,
        stopped_before: Seq<usize>,
        rate: usize,
        max_step: usize,
        cs: usize,
        cm: usize,
    )
        requires
            before.applying(pre, outs, k, stopped_before, rate, max_step, cs, cm),
            0 <= k < outs.len(),
            ({
                let o = outs[k];
                let i = o.id - 1;
                let c = self.cells@[i];
                let b = before.cells@[i];
                &&& 0 <= i < before.cells@.len()
                &&& self.cells@.len() == before.cells@.len()
                &&& forall|j: int| 0 <= j < self.cells@.len() && j != i ==> self.cells@[j] == before.cells@[j]
                &&& c.id == b.id
                &&& c.parent_id == b.parent_id
                &&& c.childs == b.childs
                &&& c.neighbors == b.neighbors
                &&& c.x == b.x
                &&& c.y == b.y
                &&& c.width == b.width
                &&& c.steps == b.steps + o.taken
                &&& c.stopped == (b.stopped || o.flipped || expires(&b, rate, max_step, o.taken, o.flipped))
                &&& c.expired == (b.expired || expires(&b, rate, max_step, o.taken, o.flipped))
                &&& (c.stopped ==> c.color == stop_color(&c, cs, cm))
                &&& (!c.stopped ==> c.color == b.color)
                &&& (c.stopped ==> self.place@ == before.place@.update(i, Place::Done) && self.to_draw@
                    == before.to_draw@.push(o.id) && stopped == stopped_before.push(o.id))
                &&& (!c.stopped ==> self.place@ == before.place@ && self.to_draw@ == before.to_draw@
                    && stopped == stopped_before)
            }),
            self.avg.wf(),
            self.dive == before.dive,
            self.config == before.config,
            self.width == before.width,
            self.iter == before.iter,
            self.update_steps == before.update_steps,
        ensures
            self.applying(pre, outs, k + 1, stopped, rate, max_step, cs, cm),
    {
        reveal(PendulumFamily::applying);
        self.lemma_apply_step_a(before, pre, outs, k, stopped, stopped_before, rate, max_step, cs, cm);
        self.lemma_apply_step_b1(before, pre, outs, k, stopped, stopped_before, rate, max_step, cs, cm);
        self.lemma_apply_step_b2(before, pre, outs, k, stopped, stopped_before, rate, max_step, cs, cm);
        assert forall|q: int| 0 <= q < stopped.len() implies exists|j: int|
            0 <= j < outs.len() && (#[trigger] outs[j]).id == #[trigger] stopped[q] by {
            if q < stopped_before.len() {
                assert(stopped[q] == stopped_before[q]);
            } else {
                assert(outs[k].id == stopped[q]);
            }
        }
    }

    /// Records each outcome in its cell, and moves the cells that stopped to the done
    /// set with their colour, the render queue and the telemetry. Returns their ids.
    pub(super) fn apply_outcomes(&mut self, outs: &Vec<StepOutcome>) -> (stopped: Vec<usize>)
        requires
            old(self).wf(),
            old(self).outcomes_valid(outs@),
        ensures
            final(self).wf(),
            final(self).keeps_frame(old(self)),
            final(self).len_spec() == old(self).len_spec(),
            final(self).dive == old(self).dive,
            final(self).iter == old(self).iter,
            final(self).update_steps == old(self).update_steps,
            forall|j: int|
                0 <= j < outs@.len() ==> Self::applied(
                    final(self).cell((#[trigger] outs@[j]).id as int),
                    old(self).cell(outs@[j].id as int),
                    outs@[j],
                    old(self).update_steps,
                    old(self).config,
                ),
            forall|q: int|
                0 <= q < stopped@.len() ==> final(self).valid_id(#[trigger] stopped@[q] as int)
                    && final(self).cell(stopped@[q] as int).stopped,
            forall|i: int|
                0 <= i < old(self).len_spec() && (forall|j: int| 0 <= j < outs@.len() ==> (#[trigger] outs@[j]).id != i + 1)
                    ==> final(self).cells@[i] == old(self).cells@[i],
            old(self).neighbors_symmetric() ==> final(self).neighbors_symmetric(),
            old(self).neighbors_distinct() ==> final(self).neighbors_distinct(),
            final(self).queue_extends(old(self)),
            forall|i: int| #[trigger] final(self).present(i) == old(self).present(i),
            Self::from_outcomes(stopped@, outs@),
            forall|i: int| 0 <= i < old(self).len_spec() ==> (#[trigger] final(self).cells()[i]).childs == old(self).cells()[i].childs,
            forall|j: int|
                0 <= j < outs@.len() && final(self).cell((#[trigger] outs@[j]).id as int).stopped
                    ==> final(self).pending().contains(outs@[j].id),
    {
        let ghost pre = *self;
        let rate = self.update_steps;
        let max_step = self.config.max_step;
        let cs = self.config.color_step;
        let cm = self.config.color_mod;
        let mut stopped: Vec<usize> = Vec::new();
        proof {
            reveal(PendulumFamily::applying);
            Self::lemma_queue_refl(self);
            assert forall|i: int| self.present(i) implies pre.present(i) && (#[trigger] self.cell(i)).neighbors
                == pre.cell(i).neighbors by {}
            assert(self.keeps_frame(&pre)) by {
                assert forall|j: int| 0 <= j < pre.len_spec() implies {
                    let a = #[trigger] self.cells()[j];
                    let b = pre.cells()[j];
                    &&& a.id == b.id
                    &&& a.parent_id == b.parent_id
                    &&& a.x == b.x
                    &&& a.y == b.y
                    &&& a.width == b.width
                    &&& (b.stopped ==> a.stopped)
                } by {}
            }
        }
        let mut k: usize = 0;
        while k < outs.len()
            invariant
                self.applying(&pre, outs@, k as int, stopped@, rate, max_step, cs, cm),
            decreases outs@.len() - k,
        {
            proof {
                self.lemma_apply_pre(&pre, outs@, k as int, stopped@, rate, max_step, cs, cm);
            }
            let o = outs[k];
            let i = o.id - 1;
            let ghost before = *self;
            let ghost stopped_before = stopped@;
            self.cells[i].update(rate, max_step, o.taken, o.flipped);
            if self.cells[i].stopped {
                self.place.set(i, Place::Done);
                self.cells[i].update_color(cs, cm);
                self.to_draw.push_back(o.id);
                let st = self.cells[i].steps as u32;
                self.avg.add(st);
                stopped.push(o.id);
            }
            proof {
                self.lemma_apply_step(&before, &pre, outs@, k as int, stopped@, stopped_before, rate, max_step, cs, cm);
            }
            k = k + 1;
        }
        proof {
            reveal(PendulumFamily::applying);
            if pre.neighbors_symmetric() {
                Self::lemma_symmetric_shrink(&pre, self);
            }
            if pre.neighbors_distinct() {
                Self::lemma_distinct_keep(&pre, self);
            }
        }
        stopped
    }

    /// The render queue of `self` extends that of `prev`.
    pub open spec fn queue_extends(&self, prev: &Self) -> bool {
        &&& self.pending().len() >= prev.pending().len()
        &&& self.pending().subrange(0, prev.pending().len() as int) == prev.pending()
    }

    pub(super) proof fn lemma_queue_trans(a: &Self, b: &Self, c: &Self, x: usize)
        requires
            b.queue_extends(a),
            c.queue_extends(b),
        ensures
            c.queue_extends(a),
            b.pending().contains(x) ==> c.pending().contains(x),
    {
        assert(c.pending().subrange(0, a.pending().len() as int) =~= c.pending().subrange(
            0,
            b.pending().len() as int,
        ).subrange(0, a.pending().len() as int));
        if b.pending().contains(x) {
            Self::lemma_prefix_contains(c.pending(), b.pending(), x);
        }
    }

    pub(super) proof fn lemma_queue_refl(a: &Self)
        ensures
            a.queue_extends(a),
    {
        assert(a.pending().subrange(0, a.pending().len() as int) =~= a.pending());
    }

    /// The render-queue facts of the first generations' rule carry over to `fin`,
    /// which only adds cells and registrations to `forced`.
    pub(super) proof fn lemma_boot_queue(pre: &Self, forced: &Self, fin: &Self)
        requires
            forced.queue_extends(pre),
            forall|i: int|
                0 <= i < pre.len_spec() && (#[trigger] forced.cells()[i]).stopped && !pre.cells()[i].stopped
                    ==> forced.pending().contains((i + 1) as usize),
            fin.pending() == forced.pending(),
            forced.len_spec() == pre.len_spec(),
            fin.len_spec() >= forced.len_spec(),
            forall|i: int|
                0 <= i < forced.len_spec() ==> (#[trigger] fin.cells()[i]).stopped == forced.cells()[i].stopped,
        ensures
            fin.queue_extends(pre),
            forall|i: int|
                0 <= i < pre.len_spec() && (#[trigger] fin.cells()[i]).stopped && !pre.cells()[i].stopped
                    ==> fin.pending().contains((i + 1) as usize),
    {
        assert forall|i: int|
            0 <= i < pre.len_spec() && (#[trigger] fin.cells()[i]).stopped && !pre.cells()[i].stopped
                implies fin.pending().contains((i + 1) as usize) by {
            assert(forced.cells()[i].stopped);
        }
    }

    /// What an outcome makes of the cell it is about.
    pub open spec fn applied(
        c: DoublePendulum,
        prev: DoublePendulum,
        o: StepOutcome,
        rate: usize,
        cfg: Config,
    ) -> bool {
        let max_step = cfg.max_step;
        &&& c.id == prev.id
        &&& (c.stopped ==> c.color == stop_color(&c, cfg.color_step, cfg.color_mod))
        &&& c.steps == prev.steps + o.taken
        &&& c.expired == (prev.expired || expires(&prev, rate, max_step, o.taken, o.flipped))
        &&& c.stopped == (prev.stopped || o.flipped || expires(&prev, rate, max_step, o.taken, o.flipped))
        &&& (!c.stopped ==> c.color == prev.color)
    }

    /// What a generation makes of the cell an outcome is about: the outcome is recorded,
    /// and the cell also stops when it was the one cell active or kept (`lone`).
    pub open spec fn recorded(
        c: DoublePendulum,
        prev: DoublePendulum,
        o: StepOutcome,
        rate: usize,
        cfg: Config,
        lone: bool,
    ) -> bool {
        let max_step = cfg.max_step;
        &&& c.id == prev.id
        &&& c.steps == prev.steps + o.taken
        &&& c.expired == (prev.expired || expires(&prev, rate, max_step, o.taken, o.flipped))
        &&& c.stopped == (prev.stopped || o.flipped || expires(&prev, rate, max_step, o.taken, o.flipped)
            || lone)
        &&& (c.stopped ==> c.color == stop_color(&c, cfg.color_step, cfg.color_mod))
        &&& (!c.stopped ==> c.color == prev.color)
    }

    /// Recording is deterministic: from the same cell and outcome, any two results that
    /// meet the contract of a generation agree on the step count, the stop and expiry
    /// flags and the colour.
    pub proof fn lemma_recording_is_deterministic(
        c1: DoublePendulum,
        c2: DoublePendulum,
        prev: DoublePendulum,
        o: StepOutcome,
        rate: usize,
        cfg: Config,
        lone: bool,
    )
        requires
            Self::recorded(c1, prev, o, rate, cfg, lone),
            Self::recorded(c2, prev, o, rate, cfg, lone),
        ensures
            c1.steps == c2.steps,
            c1.stopped == c2.stopped,
            c1.expired == c2.expired,
            c1.color == c2.color,
    {
    }

    /// Every child that `id` had recorded in `prev` has stopped in `next`, and is no
    /// longer active.
    pub open spec fn children_resolved(prev: &Self, next: &Self, id: int) -> bool {
        forall|k: int|
            0 <= k < prev.cell(id).childs@.len() ==> {
                let c = #[trigger] prev.cell(id).childs@[k] as int;
                &&& next.valid_id(c)
                &&& next.cell(c).stopped
                &&& next.place_of(c) != Place::Active
            }
    }

    /// After the rule of the first generations on the lone cell `id`: it has stopped, and
    /// the new cells are exactly its quadrant children, all active.
    pub open spec fn root_split(prev: &Self, next: &Self, id: int) -> bool {
        &&& next.len_spec() == prev.len_spec() + child_anchors(
            &prev.cell(id),
            prev.domain(),
            prev.config().min_pixel,
        ).len()
        &&& next.cell(id).stopped
        &&& forall|i: int|
            prev.len_spec() <= i < next.len_spec() ==> (#[trigger] next.cells()[i]).parent_id == id
                && next.places()[i] == Place::Active
    }

    /// A parent dropped in a generation had every child it recorded before the
    /// generation stopped by its end.
    pub(super) proof fn lemma_removals_resolved(
        pre: &Self,
        applied: &Self,
        booted: &Self,
        cleaned: &Self,
        stepped: &Self,
        fin: &Self,
    )
        requires
            pre.wf(),
            applied.wf(),
            booted.wf(),
            cleaned.wf(),
            fin.wf(),
            applied.len_spec() == pre.len_spec(),
            forall|i: int| #[trigger] applied.present(i) == pre.present(i),
            forall|i: int| 0 <= i < pre.len_spec() ==> (#[trigger] applied.cells()[i]).childs == pre.cells()[i].childs,
            booted.len_spec() >= applied.len_spec(),
            forall|i: int|
                0 <= i < applied.len_spec() ==> #[trigger] booted.places()[i] == applied.places()[i] || (
                applied.lone(i + 1) && booted.places()[i] == Place::Done),
            forall|i: int|
                0 <= i < applied.len_spec() ==> (#[trigger] booted.cells()[i]).childs@.len() >= applied.cells()[i].childs@.len()
                    && booted.cells()[i].childs@.subrange(0, applied.cells()[i].childs@.len() as int) == applied.cells()[i].childs@,
            cleaned.len_spec() == booted.len_spec(),
            forall|i: int|
                0 <= i < booted.len_spec() && #[trigger] cleaned.places()[i] == Place::Removed && booted.places()[i]
                    != Place::Removed ==> booted.removable(i + 1),
            stepped.cells() == cleaned.cells(),
            stepped.places() == cleaned.places(),
            fin.grown_from(stepped),
            fin.keeps_integration(booted),
        ensures
            forall|id: int|
                pre.valid_id(id) && #[trigger] fin.place_of(id) == Place::Removed && pre.place_of(id)
                    != Place::Removed ==> Self::children_resolved(pre, fin, id),
    {
        assert forall|id: int|
            pre.valid_id(id) && #[trigger] fin.place_of(id) == Place::Removed && pre.place_of(id)
                != Place::Removed implies Self::children_resolved(pre, fin, id) by {
            let q = id - 1;
            assert(stepped.len_spec() == cleaned.len_spec());
            assert(q < stepped.len_spec());
            assert(fin.cells()[q] == fin.cells()[q]);
            assert(fin.cells()[q].x == stepped.cells()[q].x);
            assert(fin.places()[q] == stepped.places()[q]);
            assert(stepped.places()[q] == cleaned.places()[q]);
            assert(pre.present(id) == applied.present(id));
            assert(booted.places()[q] == applied.places()[q] || booted.places()[q] == Place::Done);
            assert(booted.places()[q] != Place::Removed);
            assert(booted.removable(id));
            assert(applied.cells()[q].childs == pre.cells()[q].childs);
            assert(booted.cells()[q].childs@.subrange(0, pre.cells()[q].childs@.len() as int) == pre.cells()[q].childs@);
            assert forall|k: int| 0 <= k < pre.cell(id).childs@.len() implies {
                let c = #[trigger] pre.cell(id).childs@[k] as int;
                &&& fin.valid_id(c)
                &&& fin.cell(c).stopped
                &&& fin.place_of(c) != Place::Active
            } by {
                let c = pre.cell(id).childs@[k] as int;
                assert(booted.cells()[q].childs@.subrange(0, pre.cells()[q].childs@.len() as int)[k] == booted.cell(id).childs@[k]);
                assert(booted.cell(id).childs@[k] as int == c);
                assert(booted.in_done(c) && booted.cell(c).stopped);
                assert(fin.cells()[c - 1] == fin.cells()[c - 1]);
                assert(fin.cells()[c - 1].stopped);
            }
        }
    }

    /// The rule of the first generations, seen across a whole generation: the lone cell
    /// stops and its quadrant children are all the new cells.
    pub(super) proof fn lemma_root_rule(
        pre: &Self,
        applied: &Self,
        booted: &Self,
        cleaned: &Self,
        stepped: &Self,
        fin: &Self,
        outs: Seq<StepOutcome>,
        stopped: Seq<usize>,
    )
        requires
            pre.wf(),
            applied.wf(),
            booted.wf(),
            cleaned.wf(),
            fin.wf(),
            pre.outcomes_valid(outs),
            applied.len_spec() == pre.len_spec(),
            applied.keeps_frame(pre),
            forall|i: int| #[trigger] applied.present(i) == pre.present(i),
            applied.marks() == pre.marks(),
            Self::from_outcomes(stopped, outs),
            forall|id: int|
                applied.lone(id) && !applied.marks()[id - 1] && applied.len_spec() + child_anchors(
                    &applied.cell(id),
                    applied.domain(),
                    applied.config().min_pixel,
                ).len() <= applied.config().max_cells ==> {
                    &&& booted.len_spec() == applied.len_spec() + child_anchors(
                        &applied.cell(id),
                        applied.domain(),
                        applied.config().min_pixel,
                    ).len()
                    &&& booted.cell(id).stopped
                    &&& booted.place_of(id) == Place::Done
                    &&& booted.marks()[id - 1]
                },
            forall|i: int|
                applied.len_spec() <= i < booted.len_spec() ==> applied.lone(
                    (#[trigger] booted.cells()[i]).parent_id as int,
                ) && booted.places()[i] == Place::Active,
            forall|i: int|
                0 <= i < applied.len_spec() ==> #[trigger] booted.places()[i] == applied.places()[i] || (
                applied.lone(i + 1) && booted.places()[i] == Place::Done),
            booted.keeps_integration(applied),
            cleaned.len_spec() == booted.len_spec(),
            cleaned.marks() == booted.marks(),
            cleaned.keeps_integration(booted),
            forall|i: int|
                0 <= i < booted.len_spec() && #[trigger] cleaned.places()[i] != booted.places()[i]
                    ==> booted.places()[i] == Place::Done && cleaned.places()[i] == Place::Removed,
            stepped.cells() == cleaned.cells(),
            stepped.places() == cleaned.places(),
            stepped.marks() == cleaned.marks(),
            fin.grown_from(stepped),
            fin.keeps_integration(booted),
            fin.marks_after_checks(stepped, stopped),
            forall|i: int|
                stepped.len_spec() <= i < fin.len_spec() ==> {
                    let par = (#[trigger] fin.cells()[i]).parent_id as int;
                    &&& stepped.valid_id(par)
                    &&& !stepped.marks()[par - 1]
                    &&& fin.marks()[par - 1]
                },
        ensures
            forall|id: int|
                pre.lone(id) && !pre.marks()[id - 1] && pre.len_spec() + child_anchors(
                    &pre.cell(id),
                    pre.domain(),
                    pre.config().min_pixel,
                ).len() <= pre.config().max_cells ==> #[trigger] Self::root_split(pre, fin, id),
    {
        assert forall|id: int|
            pre.lone(id) && !pre.marks()[id - 1] && pre.len_spec() + child_anchors(
                &pre.cell(id),
                pre.domain(),
                pre.config().min_pixel,
            ).len() <= pre.config().max_cells implies #[trigger] Self::root_split(pre, fin, id) by {
            Self::lemma_lone_same(&pre, &applied, id);
            assert(applied.marks() == pre.marks());
            assert(applied.cells()[id - 1].x == pre.cells()[id - 1].x);
            assert(applied.cells()[id - 1].y == pre.cells()[id - 1].y);
            assert(applied.cells()[id - 1].width == pre.cells()[id - 1].width);
            assert(child_anchors(&applied.cell(id), pre.domain(), pre.config().min_pixel) =~= child_anchors(
                &pre.cell(id),
                pre.domain(),
                pre.config().min_pixel,
            ));
            assert(booted.len_spec() == pre.len_spec() + child_anchors(&pre.cell(id), pre.domain(), pre.config().min_pixel).len());
            assert(booted.marks()[id - 1]);
            assert(stepped.marks()[id - 1]);
            if fin.len_spec() > stepped.len_spec() {
                let i = stepped.len_spec() as int;
                let par = fin.cells()[i].parent_id as int;
                assert(stepped.valid_id(par) && !stepped.marks()[par - 1] && fin.marks()[par - 1]);
                assert(stepped.reached_by(stopped, par));
                let q = choose|q: int|
                    0 <= q < stopped.len() && (stopped[q] == par || stepped.qualifying_neighbor(
                        #[trigger] stopped[q] as int,
                        par,
                    ));
                assert(Self::from_outcomes(stopped, outs));
                let j = choose|j: int| 0 <= j < outs.len() && (#[trigger] outs[j]).id == stopped[q];
                let o = outs[j];
                assert(outs[j] == o);
                assert(pre.valid_id(o.id as int) && pre.place_of(o.id as int) == Place::Active);
                assert(pre.present(o.id as int));
                assert(stopped[q] == id);
                if stopped[q] != par {
                    assert(stepped.in_done(par));
                    if par <= pre.len_spec() {
                        assert(!pre.present(par));
                        assert(!applied.present(par));
                        assert(booted.places()[par - 1] == applied.places()[par - 1]);
                        assert(cleaned.places()[par - 1] == booted.places()[par - 1]);
                    } else {
                        assert(booted.places()[par - 1] == Place::Active);
                        assert(cleaned.places()[par - 1] == booted.places()[par - 1]);
                    }
                }
            }
            assert forall|i: int|
                pre.len_spec() <= i < fin.len_spec() implies (#[trigger] fin.cells()[i]).parent_id == id
                    && fin.places()[i] == Place::Active by {
                assert(booted.cells()[i].parent_id == fin.cells()[i].parent_id);
                assert(applied.lone(booted.cells()[i].parent_id as int));
                assert(booted.places()[i] == Place::Active);
                assert(cleaned.places()[i] == booted.places()[i]);
                assert(fin.places()[i] == stepped.places()[i]);
            }
        }
    }

    /// Runs one generation on the integrators' outcomes, which must list every active
    /// cell once by rising id: records each outcome, moves the cells that stopped to the
    /// done set with their colour and telemetry, applies the rule of the first
    /// generations, drops resolved parents, sets the next step rate and splits where
    /// stopped neighbours disagree. Outcomes that do not fit leave everything as it was.
    #[verifier::rlimit(100)]
    pub fn update(&mut self, outs: &Vec<StepOutcome>, next_rate: usize) -> (r: Result<GenerationReport, GenerationError>)
        requires
            old(self).wf(),
            old(self).generation() < usize::MAX,
        ensures
            r is Err <==> !old(self).outcomes_valid(outs@),
            r is Err ==> *final(self) == *old(self),
            r is Ok ==> {
                &&& final(self).wf()
                &&& final(self).keeps_frame(old(self))
                &&& final(self).generation() == old(self).generation() + 1
                &&& final(self).rate() == next_rate
                &&& r->Ok_0.update_steps == next_rate
                &&& r->Ok_0.average_steps == mean_of(final(self).telemetry()@)
                &&& r->Ok_0.spawned == final(self).len_spec() - old(self).len_spec()
                &&& (old(self).neighbors_symmetric() ==> final(self).neighbors_symmetric())
                &&& (old(self).neighbors_distinct() ==> final(self).neighbors_distinct())
                &&& final(self).queue_extends(old(self))
                &&& forall|id: int|
                    old(self).lone(id) && !old(self).marks()[id - 1] && old(self).len_spec() + child_anchors(
                        &old(self).cell(id),
                        old(self).domain(),
                        old(self).config().min_pixel,
                    ).len() <= old(self).config().max_cells ==> #[trigger] Self::root_split(old(self), final(self), id)
                &&& forall|id: int|
                    old(self).valid_id(id) && #[trigger] final(self).place_of(id) == Place::Removed
                        && old(self).place_of(id) != Place::Removed ==> Self::children_resolved(old(self), final(self), id)
                &&& forall|i: int| 0 <= i < old(self).len_spec() && old(self).marks()[i] ==> #[trigger] final(self).marks()[i]
                &&& forall|i: int|
                    old(self).len_spec() <= i < final(self).len_spec() ==> {
                        let par = (#[trigger] final(self).cells()[i]).parent_id as int;
                        &&& final(self).valid_id(par)
                        &&& final(self).marks()[par - 1]
                        &&& (par <= old(self).len_spec() ==> !old(self).marks()[par - 1])
                    }
                &&& forall|k: int|
                    0 <= k < outs@.len() && final(self).cell((#[trigger] outs@[k]).id as int).stopped
                        ==> final(self).pending().contains(outs@[k].id)
                &&& forall|k: int|
                    0 <= k < outs@.len() ==> Self::recorded(
                        final(self).cell((#[trigger] outs@[k]).id as int),
                        old(self).cell(outs@[k].id as int),
                        outs@[k],
                        old(self).rate(),
                        old(self).config(),
                        old(self).lone(outs@[k].id as int),
                    )
            },
    {
        if !self.check_outcomes(outs) {
            return Err(GenerationError::OutcomeMismatch);
        }
        let ghost pre = *self;
        let cs = self.config.color_step;
        let cm = self.config.color_mod;
        let stopped = self.apply_outcomes(outs);
        let ghost applied_state = *self;
        let boot = self.bootstrap();
        let ghost booted = *self;
        proof {
            assert forall|q: int| 0 <= q < stopped@.len() implies self.valid_id(#[trigger] stopped@[q] as int) && self.cell(stopped@[q] as int).stopped by {
                assert(applied_state.valid_id(stopped@[q] as int));
            }
        }
        let removed = self.remove_resolved(&stopped);
        let ghost cleaned = *self;
        self.update_steps = next_rate;
        self.iter = self.iter + 1;
        let ghost stepped = *self;
        proof {
            assert(stepped.keeps_integration(&cleaned)) by {
                assert forall|j: int| 0 <= j < cleaned.len_spec() implies Self::kept(#[trigger] stepped.cells()[j], cleaned.cells()[j]) by {}
            }
            assert forall|q: int| 0 <= q < stopped@.len() implies self.valid_id(#[trigger] stopped@[q] as int) && self.cell(stopped@[q] as int).stopped by {
                assert(booted.valid_id(stopped@[q] as int) && booted.cell(stopped@[q] as int).stopped);
                assert(cleaned.cells()[stopped@[q] - 1] == cleaned.cells()[stopped@[q] - 1]);
            }
        }
        let spawned_ids = self.dive_all(&stopped);
        proof {
            Self::lemma_grown_keeps(&stepped, self);
            Self::lemma_keeps_trans(&applied_state, &booted, &cleaned);
            Self::lemma_keeps_trans(&applied_state, &cleaned, &stepped);
            Self::lemma_keeps_trans(&applied_state, &stepped, self);
            Self::lemma_frame_trans(&pre, &applied_state, self);
            Self::lemma_keeps_trans(&booted, &cleaned, &stepped);
            Self::lemma_keeps_trans(&booted, &stepped, self);
            if pre.neighbors_symmetric() {
                Self::lemma_symmetric_shrink(&cleaned, &stepped);
            }
            if pre.neighbors_distinct() {
                Self::lemma_distinct_keep(&cleaned, &stepped);
            }
            Self::lemma_queue_trans(&pre, &applied_state, &booted, 0);
            assert(self.queue_extends(&booted)) by {
                assert(self.pending() == booted.pending());
                Self::lemma_queue_refl(&booted);
            }
            Self::lemma_queue_trans(&pre, &booted, self, 0);
            assert forall|k2: int|
                0 <= k2 < outs@.len() && self.cell((#[trigger] outs@[k2]).id as int).stopped
                    implies self.pending().contains(outs@[k2].id) by {
                let q = outs@[k2].id - 1;
                assert(self.cells()[q] == self.cells()[q]);
                assert(stepped.cells()[q].stopped == cleaned.cells()[q].stopped);
                assert(cleaned.cells()[q].stopped == booted.cells()[q].stopped);
                assert(booted.cells()[q].stopped);
                if applied_state.cell(outs@[k2].id as int).stopped {
                    Self::lemma_queue_trans(&applied_state, &booted, self, outs@[k2].id);
                } else {
                    assert(booted.pending().contains(outs@[k2].id));
                }
            }
            Self::lemma_removals_resolved(&pre, &applied_state, &booted, &cleaned, &stepped, self);
            Self::lemma_root_rule(&pre, &applied_state, &booted, &cleaned, &stepped, self, outs@, stopped@);
            assert forall|k2: int|
                0 <= k2 < outs@.len() implies Self::recorded(
                    self.cell((#[trigger] outs@[k2]).id as int),
                    pre.cell(outs@[k2].id as int),
                    outs@[k2],
                    pre.rate(),
                    pre.config(),
                    pre.lone(outs@[k2].id as int),
                ) by {
                let id = outs@[k2].id as int;
                let q = id - 1;
                assert(applied_state.cells()[q] == applied_state.cells()[q]);
                assert(self.cells()[q] == self.cells()[q]);
                assert(booted.cells()[q] == booted.cells()[q]);
                Self::lemma_lone_same(&pre, &applied_state, id);
                assert(stepped.cells()[q].stopped == cleaned.cells()[q].stopped);
                assert(cleaned.cells()[q].stopped == booted.cells()[q].stopped);
                assert(self.cells()[q].stopped == stepped.cells()[q].stopped);
                assert(booted.cells()[q].stopped == (applied_state.cells()[q].stopped || applied_state.lone(id)));
            }
        }
        let spawned = boot + spawned_ids.len();
        Ok(GenerationReport {
            spawned,
            stopped: stopped.len(),
            removed,
            average_steps: self.avg.get(),
            update_steps: self.update_steps,
        })
    }

}

} // verus!
