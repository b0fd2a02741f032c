//! The divergence check: which neighbours of a stopped cell are split, and the
//! registration of the children of a batch of checks.
use vstd::prelude::*;

use super::{ratio_below, PendulumFamily, Place};
use crate::cell::{adjacent_spec, child_anchors, is_child_at, DoublePendulum, SMALL_FOOTPRINT};

verus! {

impl PendulumFamily {
    /// Cell `n`, a neighbour of the stopped cell `p`, disagrees with it enough to be split.
    pub open spec fn qualifies(&self, p: int, n: int) -> bool {
        let a = self.cell(p);
        let b = self.cell(n);
        &&& self.in_done(n)
        &&& (ratio_below(
            a.steps as int,
            b.steps as int,
            self.config().dive_num as int,
            self.config().dive_den as int,
        ) || a.expired || b.expired)
        &&& adjacent_spec(&a, &b)
        &&& !(a.expired && b.expired && b.width < SMALL_FOOTPRINT)
    }

    /// Some neighbour of `p` other than itself qualifies for a split.
    pub open spec fn neighbor_qualifies(&self, p: int) -> bool {
        exists|k: int|
            0 <= k < self.cell(p).neighbors@.len() && self.cell(p).neighbors@[k] != p
                && self.qualifies(p, #[trigger] self.cell(p).neighbors@[k] as int)
    }

    /// The stopped cell `p` is split by its own divergence check.
    pub open spec fn splits_itself(&self, p: int) -> bool {
        &&& !self.marks()[p - 1]
        &&& !(self.cell(p).expired && self.cell(p).width < SMALL_FOOTPRINT)
        &&& self.neighbor_qualifies(p)
    }

    /// `kids` are the quadrant children of cell `pid`.
    pub open spec fn children_of(&self, pid: int, kids: Seq<DoublePendulum>) -> bool {
        let a = child_anchors(&self.cell(pid), self.domain(), self.config().min_pixel);
        &&& kids.len() == a.len()
        &&& forall|j: int| 0 <= j < kids.len() ==> is_child_at(&#[trigger] kids[j], &self.cell(pid), a[j])
    }

    /// The state outside the subdivision marks is unchanged.
    pub open spec fn same_but_marks(&self, other: &Self) -> bool {
        &&& self.cells() == other.cells()
        &&& self.places() == other.places()
        &&& self.config() == other.config()
        &&& self.domain() == other.domain()
        &&& self.pending() == other.pending()
        &&& self.telemetry() == other.telemetry()
        &&& self.generation() == other.generation()
        &&& self.rate() == other.rate()
        &&& self.marks().len() == other.marks().len()
    }

    pub(super) fn below_ratio(&self, a: usize, b: usize) -> (r: bool)
        ensures
            r == ratio_below(
                a as int,
                b as int,
                self.config.dive_num as int,
                self.config.dive_den as int,
            ),
    {
        let (lo, hi) = if a <= b {
            (a, b)
        } else {
            (b, a)
        };
        proof {
            assert(lo * self.config.dive_den <= u128::MAX) by (nonlinear_arith)
                requires
                    lo <= usize::MAX,
                    self.config.dive_den <= u64::MAX,
            ;
            assert(self.config.dive_num * hi <= u128::MAX) by (nonlinear_arith)
                requires
                    hi <= usize::MAX,
                    self.config.dive_num <= u64::MAX,
            ;
        }
        (lo as u128) * (self.config.dive_den as u128) < (self.config.dive_num as u128) * (hi as u128)
    }

    /// The divergence check of a stopped cell: marks and splits each neighbour that
    /// disagrees with it and is not marked yet, then the cell itself when any
    /// neighbour disagreed. Returns each split cell with its children.
    #[verifier::rlimit(30)]
    pub fn dive(&mut self, id: usize) -> (r: Vec<(usize, Vec<DoublePendulum>)>)
        requires
            old(self).wf(),
            old(self).valid_id(id as int),
            old(self).cell(id as int).stopped,
        ensures
            final(self).wf(),
            final(self).same_but_marks(old(self)),
            old(self).neighbors_symmetric() ==> final(self).neighbors_symmetric(),
            old(self).neighbors_distinct() ==> final(self).neighbors_distinct(),
            forall|i: int| 0 <= i < old(self).marks().len() && old(self).marks()[i] ==> final(self).marks()[i],
            forall|k: int|
                0 <= k < r@.len() ==> {
                    let pid = (#[trigger] r@[k]).0 as int;
                    &&& old(self).valid_id(pid)
                    &&& !old(self).marks()[pid - 1]
                    &&& final(self).marks()[pid - 1]
                    &&& old(self).cell(pid).stopped
                    &&& old(self).children_of(pid, r@[k].1@)
                    &&& (pid == id || (old(self).qualifies(id as int, pid) && old(self).cell(
                        id as int,
                    ).neighbors@.contains(pid as usize)))
                },
            forall|k1: int, k2: int|
                0 <= k1 < r@.len() && 0 <= k2 < r@.len() && k1 != k2 ==> (#[trigger] r@[k1]).0
                    != (#[trigger] r@[k2]).0,
            forall|i: int|
                0 <= i < old(self).marks().len() && final(self).marks()[i] && !old(self).marks()[i]
                    ==> exists|k: int| 0 <= k < r@.len() && (#[trigger] r@[k]).0 == i + 1,
            forall|k: int|
                0 <= k < old(self).cell(id as int).neighbors@.len() && old(self).cell(
                    id as int,
                ).neighbors@[k] != id && old(self).qualifies(
                    id as int,
                    #[trigger] old(self).cell(id as int).neighbors@[k] as int,
                ) ==> final(self).marks()[old(self).cell(id as int).neighbors@[k] - 1],
            final(self).marks()[id - 1] == (old(self).marks()[id - 1] || old(self).splits_itself(
                id as int,
            )),
    {
        let ghost pre = *self;
        let mut res: Vec<(usize, Vec<DoublePendulum>)> = Vec::new();
        let mut add_current = false;
        let p = &self.cells[id - 1];
        let mut k: usize = 0;
        while k < p.neighbors.len()
            invariant
                self.wf(),
                self.same_but_marks(&pre),
                pre.wf(),
                *p == pre.cell(id as int),
                pre.valid_id(id as int),
                p.stopped,
                k <= p.neighbors@.len(),
                self.marks()[id - 1] == pre.marks()[id - 1],
                forall|i: int| 0 <= i < pre.marks().len() && pre.marks()[i] ==> self.marks()[i],
                forall|j: int|
                    0 <= j < res@.len() ==> {
                        let pid = (#[trigger] res@[j]).0 as int;
                        &&& pre.valid_id(pid)
                        &&& pid != id
                        &&& !pre.marks()[pid - 1]
                        &&& self.marks()[pid - 1]
                        &&& pre.cell(pid).stopped
                        &&& pre.children_of(pid, res@[j].1@)
                        &&& pre.qualifies(id as int, pid)
                        &&& p.neighbors@.contains(pid as usize)
                    },
                forall|j1: int, j2: int|
                    0 <= j1 < res@.len() && 0 <= j2 < res@.len() && j1 != j2 ==> (#[trigger] res@[j1]).0
                        != (#[trigger] res@[j2]).0,
                forall|i: int|
                    0 <= i < pre.marks().len() && self.marks()[i] && !pre.marks()[i]
                        ==> exists|j: int| 0 <= j < res@.len() && (#[trigger] res@[j]).0 == i + 1,
                forall|j: int|
                    0 <= j < k && p.neighbors@[j] != id && pre.qualifies(
                        id as int,
                        #[trigger] p.neighbors@[j] as int,
                    ) ==> self.marks()[p.neighbors@[j] - 1],
                (res@.len() > 0 || add_current) <==> exists|j: int|
                    0 <= j < k && p.neighbors@[j] != id && pre.qualifies(
                        id as int,
                        #[trigger] p.neighbors@[j] as int,
                    ),
            decreases p.neighbors@.len() - k,
        {
            let n = p.neighbors[k];
            proof {
                assert(pre.links_ok(pre.cells@[id - 1], pre.cells@.len()));
            }
            if n != id && self.place[n - 1] == Place::Done {
                let q = &self.cells[n - 1];
                if (self.below_ratio(p.steps, q.steps) || p.expired || q.expired) && p.adjacent(q)
                    && !(p.expired && q.expired && q.width < SMALL_FOOTPRINT) {
                    if self.dive[n - 1] {
                        add_current = true;
                    } else {
                        let kids = q.split(self.width, self.config.min_pixel);
                        let ghost before = res@;
                        proof {
                            assert(p.neighbors@[k as int] == n);
                        }
                        res.push((n, kids));
                        self.dive.set(n - 1, true);
                        proof {
                            assert forall|i: int|
                                0 <= i < pre.marks().len() && self.marks()[i] && !pre.marks()[i]
                                implies exists|j: int| 0 <= j < res@.len() && (#[trigger] res@[j]).0 == i + 1 by {
                                if i != n - 1 {
                                    let j = choose|j: int| 0 <= j < before.len() && (#[trigger] before[j]).0 == i + 1;
                                    assert(res@[j] == before[j]);
                                } else {
                                    assert(res@[before.len() as int].0 == i + 1);
                                }
                            }
                        }
                    }
                }
            }
            proof {
                if p.neighbors@[k as int] != id && pre.qualifies(id as int, p.neighbors@[k as int] as int) {
                    assert(exists|j: int|
                        0 <= j < k + 1 && p.neighbors@[j] != id && pre.qualifies(
                            id as int,
                            #[trigger] p.neighbors@[j] as int,
                        ));
                }
            }
            k = k + 1;
        }
        if !self.dive[id - 1] && !(p.expired && p.width < SMALL_FOOTPRINT) && (res.len() > 0
            || add_current) {
            let kids = p.split(self.width, self.config.min_pixel);
            let ghost before = res@;
            res.push((id, kids));
            self.dive.set(id - 1, true);
            proof {
                assert forall|i: int|
                    0 <= i < pre.marks().len() && self.marks()[i] && !pre.marks()[i]
                    implies exists|j: int| 0 <= j < res@.len() && (#[trigger] res@[j]).0 == i + 1 by {
                    if i != id - 1 {
                        let j = choose|j: int| 0 <= j < before.len() && (#[trigger] before[j]).0 == i + 1;
                        assert(res@[j] == before[j]);
                    } else {
                        assert(res@[before.len() as int].0 == i + 1);
                    }
                }
            }
        }
        proof {
            if pre.neighbors_symmetric() {
                Self::lemma_symmetric_shrink(&pre, self);
            }
            if pre.neighbors_distinct() {
                Self::lemma_distinct_keep(&pre, self);
            }
        }
        res
    }

    /// Old cells keep everything but their links, and their places; new cells at the
    /// end are active and have not been integrated.
    pub open spec fn grown_from(&self, prev: &Self) -> bool {
        &&& self.len_spec() >= prev.len_spec()
        &&& self.config() == prev.config()
        &&& self.domain() == prev.domain()
        &&& self.marks().len() == self.len_spec()
        &&& self.places().len() == self.len_spec()
        &&& prev.marks().len() == prev.len_spec()
        &&& prev.places().len() == prev.len_spec()
        &&& forall|i: int|
            0 <= i < prev.len_spec() ==> {
                let a = #[trigger] self.cells()[i];
                let b = prev.cells()[i];
                &&& a.id == b.id
                &&& a.parent_id == b.parent_id
                &&& a.x == b.x
                &&& a.y == b.y
                &&& a.width == b.width
                &&& a.stopped == b.stopped
                &&& a.expired == b.expired
                &&& a.steps == b.steps
                &&& a.color == b.color
                &&& self.places()[i] == prev.places()[i]
            }
        &&& forall|i: int| 0 <= i < prev.len_spec() && prev.marks()[i] ==> #[trigger] self.marks()[i]
        &&& forall|i: int|
            prev.len_spec() <= i < self.len_spec() ==> {
                let c = #[trigger] self.cells()[i];
                &&& !c.stopped
                &&& !c.expired
                &&& c.steps == 0
                &&& self.places()[i] == Place::Active
                &&& 1 <= c.parent_id <= self.len_spec()
                &&& self.marks()[c.parent_id - 1]
            }
    }

    pub(super) proof fn lemma_grown_trans(a: &Self, b: &Self, c: &Self)
        requires
            b.grown_from(a),
            c.grown_from(b),
        ensures
            c.grown_from(a),
    {
        assert forall|i: int| a.len_spec() <= i < c.len_spec() implies {
            let x = #[trigger] c.cells()[i];
            &&& !x.stopped
            &&& !x.expired
            &&& x.steps == 0
            &&& c.places()[i] == Place::Active
            &&& 1 <= x.parent_id <= c.len_spec()
            &&& c.marks()[x.parent_id - 1]
        } by {
            if i < b.len_spec() {
                let x = b.cells()[i];
                assert(c.cells()[i].parent_id == x.parent_id);
                assert(!x.stopped && b.places()[i] == Place::Active);
                assert(1 <= x.parent_id <= b.len_spec());
                assert(b.marks()[x.parent_id - 1]);
                let q = x.parent_id - 1;
                assert(c.cells()[q] == c.cells()[q]);
                assert(c.marks()[q]);
            } else {
                assert(c.cells()[i] == c.cells()[i]);
            }
        }
        assert forall|i: int| 0 <= i < a.len_spec() implies {
            let x = #[trigger] c.cells()[i];
            let y = a.cells()[i];
            &&& x.id == y.id
            &&& x.parent_id == y.parent_id
            &&& x.x == y.x
            &&& x.y == y.y
            &&& x.width == y.width
            &&& x.stopped == y.stopped
            &&& x.expired == y.expired
            &&& x.steps == y.steps
            &&& x.color == y.color
            &&& c.places()[i] == a.places()[i]
        } by {
            assert(b.cells()[i] == b.cells()[i]);
        }
        assert forall|i: int| 0 <= i < a.len_spec() && a.marks()[i] implies #[trigger] c.marks()[i] by {
            assert(b.marks()[i]);
        }
    }

    /// `n` is a neighbour of `p`, other than `p`, that disagrees with it enough to be split.
    pub open spec fn qualifying_neighbor(&self, p: int, n: int) -> bool {
        &&& n != p
        &&& self.cell(p).neighbors@.contains(n as usize)
        &&& self.qualifies(p, n)
    }

    /// Cell `i` is one of the checked cells `ps`, or a neighbour that qualifies for one.
    pub open spec fn reached_by(&self, ps: Seq<usize>, i: int) -> bool {
        exists|q: int| 0 <= q < ps.len() && (ps[q] == i || self.qualifying_neighbor(#[trigger] ps[q] as int, i))
    }

    /// What the checks of the cells `ps` mark: every neighbour of a checked cell that
    /// qualifies, and every checked cell with such a neighbour unless it expired with a
    /// small footprint; nothing but checked cells and their qualifying neighbours.
    pub open spec fn marks_after_checks(&self, prev: &Self, ps: Seq<usize>) -> bool {
        &&& forall|q: int, n: int|
            0 <= q < ps.len() && prev.qualifying_neighbor(#[trigger] ps[q] as int, n) ==> #[trigger] self.marks()[n - 1]
        &&& forall|q: int|
            0 <= q < ps.len() && !(prev.cell(ps[q] as int).expired && prev.cell(ps[q] as int).width
                < SMALL_FOOTPRINT) && prev.neighbor_qualifies(#[trigger] ps[q] as int) ==> self.marks()[ps[q] - 1]
        &&& forall|i: int|
            0 <= i < prev.len_spec() && #[trigger] self.marks()[i] && !prev.marks()[i] ==> prev.reached_by(ps, i + 1)
    }

    /// Registering the children of `pid` keeps every new cell listed by its parent.
    pub(super) proof fn lemma_child_links(pre: &Self, before: &Self, after: &Self, pid: int, ids: Seq<usize>)
        requires
            before.len_spec() >= pre.len_spec(),
            forall|i: int|
                pre.len_spec() <= i < before.len_spec() ==> before.cell(
                    (#[trigger] before.cells()[i]).parent_id as int,
                ).childs@.contains((i + 1) as usize),
            forall|i: int|
                pre.len_spec() <= i < before.len_spec() ==> 1 <= (#[trigger] before.cells()[i]).parent_id <= pre.len_spec(),
            before.valid_id(pid),
            after.len_spec() == before.len_spec() + ids.len(),
            forall|j: int| 0 <= j < ids.len() ==> #[trigger] ids[j] == before.len_spec() + j + 1,
            forall|i: int|
                before.len_spec() <= i < after.len_spec() ==> (#[trigger] after.cells()[i]).parent_id == pid,
            after.cell(pid).childs@ == before.cell(pid).childs@ + ids,
            forall|i: int|
                0 <= i < before.len_spec() ==> (#[trigger] after.cells()[i]).parent_id == before.cells()[i].parent_id
                    && (i != pid - 1 ==> after.cells()[i].childs == before.cells()[i].childs),
        ensures
            forall|i: int|
                pre.len_spec() <= i < after.len_spec() ==> after.cell(
                    (#[trigger] after.cells()[i]).parent_id as int,
                ).childs@.contains((i + 1) as usize),
    {
        assert forall|i: int|
            pre.len_spec() <= i < after.len_spec() implies after.cell(
                (#[trigger] after.cells()[i]).parent_id as int,
            ).childs@.contains((i + 1) as usize) by {
            if i < before.len_spec() {
                let par = before.cells()[i].parent_id as int;
                assert(before.cell(par).childs@.contains((i + 1) as usize));
                assert(after.cells()[par - 1].parent_id == before.cells()[par - 1].parent_id);
                if par == pid {
                    let w = choose|w: int|
                        0 <= w < before.cell(par).childs@.len() && before.cell(par).childs@[w] == (i + 1) as usize;
                    assert(after.cell(par).childs@[w] == (i + 1) as usize);
                }
            } else {
                let j = i - before.len_spec();
                assert(ids[j] == i + 1);
                assert(after.cell(pid).childs@[before.cell(pid).childs@.len() + j] == ids[j]);
            }
        }
    }

    /// One more divergence check keeps the marking facts of the checks so far.
    pub(super) proof fn lemma_checks_extend(&self, before: &Self, pre: &Self, ps: Seq<usize>, k: int)
        requires
            0 <= k < ps.len(),
            before.marks_after_checks(pre, ps.subrange(0, k)),
            before.same_but_marks(pre),
            self.same_but_marks(pre),
            pre.wf(),
            forall|q: int| 0 <= q < ps.len() ==> pre.valid_id(#[trigger] ps[q] as int),
            forall|i: int| 0 <= i < before.marks().len() && before.marks()[i] ==> self.marks()[i],
            forall|i: int|
                0 <= i < before.marks().len() && #[trigger] self.marks()[i] && !before.marks()[i] ==> (i + 1
                    == ps[k] || before.qualifying_neighbor(ps[k] as int, i + 1)),
            forall|n: int|
                before.qualifying_neighbor(ps[k] as int, n) ==> #[trigger] self.marks()[n - 1],
            !(before.cell(ps[k] as int).expired && before.cell(ps[k] as int).width < SMALL_FOOTPRINT)
                && before.neighbor_qualifies(ps[k] as int) ==> self.marks()[ps[k] - 1],
        ensures
            self.marks_after_checks(pre, ps.subrange(0, k + 1)),
    {
        let s0 = ps.subrange(0, k);
        let s1 = ps.subrange(0, k + 1);
        assert forall|q: int| 0 <= q < s1.len() implies pre.valid_id(#[trigger] s1[q] as int) by {
            assert(s1[q] == ps[q]);
        }
        assert forall|q: int, n: int|
            0 <= q < s1.len() && pre.qualifying_neighbor(#[trigger] s1[q] as int, n) implies #[trigger] self.marks()[n - 1] by {
            if q < k {
                assert(s1[q] == s0[q]);
                assert(before.marks()[n - 1]);
            }
        }
        assert forall|q: int|
            0 <= q < s1.len() && !(pre.cell(s1[q] as int).expired && pre.cell(s1[q] as int).width
                < SMALL_FOOTPRINT) && pre.neighbor_qualifies(#[trigger] s1[q] as int) implies self.marks()[s1[q] - 1] by {
            if q < k {
                assert(s1[q] == s0[q]);
                assert(before.marks()[s0[q] - 1]);
            }
        }
        assert forall|i: int|
            0 <= i < pre.len_spec() && #[trigger] self.marks()[i] && !pre.marks()[i] implies pre.reached_by(s1, i + 1) by {
            if before.marks()[i] {
                assert(pre.reached_by(s0, i + 1));
                let q = choose|q: int| 0 <= q < s0.len() && (s0[q] == i + 1 || pre.qualifying_neighbor(#[trigger] s0[q] as int, i + 1));
                assert(s1[q] == s0[q]);
            } else {
                assert(s1[k] == ps[k]);
                assert(ps[k] == i + 1 || pre.qualifying_neighbor(s1[k] as int, i + 1));
            }
        }
    }

    /// The divergence checks of a batch of stopped cells, then the registration of the
    /// children of every cell they split, while the table stays within `max_cells`.
    /// Returns the ids of the new cells.
    #[verifier::rlimit(30)]
    pub fn dive_all(&mut self, ps: &Vec<usize>) -> (r: Vec<usize>)
        requires
            old(self).wf(),
            forall|k: int|
                0 <= k < ps@.len() ==> old(self).valid_id(#[trigger] ps@[k] as int) && old(
                    self,
                ).cell(ps@[k] as int).stopped,
        ensures
            final(self).wf(),
            final(self).grown_from(old(self)),
            old(self).neighbors_symmetric() ==> final(self).neighbors_symmetric(),
            old(self).neighbors_distinct() ==> final(self).neighbors_distinct(),
            final(self).len_spec() <= old(self).len_spec() || final(self).len_spec() <= old(
                self,
            ).config().max_cells,
            r@.len() == final(self).len_spec() - old(self).len_spec(),
            forall|k: int| 0 <= k < r@.len() ==> #[trigger] r@[k] == old(self).len_spec() + k + 1,
            final(self).pending() == old(self).pending(),
            final(self).telemetry() == old(self).telemetry(),
            final(self).generation() == old(self).generation(),
            final(self).rate() == old(self).rate(),
            final(self).marks_after_checks(old(self), ps@),
            forall|i: int|
                old(self).len_spec() <= i < final(self).len_spec() ==> {
                    let par = (#[trigger] final(self).cells()[i]).parent_id as int;
                    &&& old(self).valid_id(par)
                    &&& !old(self).marks()[par - 1]
                    &&& final(self).marks()[par - 1]
                },            forall|i: int|
                old(self).len_spec() <= i < final(self).len_spec() ==> final(self).cell(
                    (#[trigger] final(self).cells()[i]).parent_id as int,
                ).childs@.contains((i + 1) as usize),
    {
        let ghost pre = *self;
        let mut to_update: Vec<(usize, Vec<DoublePendulum>)> = Vec::new();
        let mut k: usize = 0;
        while k < ps.len()
            invariant
                self.wf(),
                self.same_but_marks(&pre),
                pre.wf(),
                forall|i: int| 0 <= i < pre.marks().len() && pre.marks()[i] ==> self.marks()[i],
                k <= ps@.len(),
                forall|q: int|
                    0 <= q < ps@.len() ==> pre.valid_id(#[trigger] ps@[q] as int) && pre.cell(
                        ps@[q] as int,
                    ).stopped,
                forall|q: int|
                    0 <= q < to_update@.len() ==> {
                        let pid = (#[trigger] to_update@[q]).0 as int;
                        &&& pre.valid_id(pid)
                        &&& self.marks()[pid - 1]
                        &&& !pre.marks()[pid - 1]
                    },
                self.marks_after_checks(&pre, ps@.subrange(0, k as int)),
            decreases ps@.len() - k,
        {
            let ghost before = *self;
            let r = self.dive(ps[k]);
            proof {
                let p = ps@[k as int] as int;
                assert forall|n: int| before.qualifying_neighbor(p, n) implies #[trigger] self.marks()[n - 1] by {
                    let t = choose|t: int|
                        0 <= t < before.cell(p).neighbors@.len() && before.cell(p).neighbors@[t] == n as usize;
                    assert(before.cell(p).neighbors@[t] != p);
                }
                assert forall|i: int|
                    0 <= i < before.marks().len() && #[trigger] self.marks()[i] && !before.marks()[i] implies (i
                        + 1 == ps@[k as int] || before.qualifying_neighbor(p, i + 1)) by {
                    let kk = choose|kk: int| 0 <= kk < r@.len() && (#[trigger] r@[kk]).0 == i + 1;
                    assert(r@[kk].0 == i + 1);
                }
                self.lemma_checks_extend(&before, &pre, ps@, k as int);
            }
            let mut q: usize = 0;
            while q < r.len()
                invariant
                    q <= r@.len(),
                    self.wf(),
                    self.same_but_marks(&pre),
                    pre.wf(),
                    forall|t: int|
                        0 <= t < r@.len() ==> {
                            let pid = (#[trigger] r@[t]).0 as int;
                            &&& pre.valid_id(pid)
                            &&& self.marks()[pid - 1]
                            &&& !pre.marks()[pid - 1]
                        },
                    forall|t: int|
                        0 <= t < to_update@.len() ==> {
                            let pid = (#[trigger] to_update@[t]).0 as int;
                            &&& pre.valid_id(pid)
                            &&& self.marks()[pid - 1]
                            &&& !pre.marks()[pid - 1]
                        },
                    self.marks_after_checks(&pre, ps@.subrange(0, k + 1)),
                    k < ps@.len(),
                decreases r@.len() - q,
            {
                let pid = r[q].0;
                let mut kids: Vec<DoublePendulum> = Vec::new();
                let mut t: usize = 0;
                while t < r[q].1.len()
                    invariant
                        q < r@.len(),
                        t <= r@[q as int].1@.len(),
                    decreases r@[q as int].1@.len() - t,
                {
                    let kk = &r[q].1[t];
                    let mut c = DoublePendulum::new(kk.x, kk.y, kk.width);
                    c.color = kk.color;
                    kids.push(c);
                    t = t + 1;
                }
                to_update.push((pid, kids));
                q = q + 1;
            }
            k = k + 1;
        }
        let mut next: Vec<usize> = Vec::new();
        let ghost mid = *self;
        proof {
            if pre.neighbors_symmetric() {
                Self::lemma_symmetric_shrink(&pre, self);
            }
            if pre.neighbors_distinct() {
                Self::lemma_distinct_keep(&pre, self);
            }
            assert forall|i: int| 0 <= i < pre.len_spec() && pre.marks()[i] implies #[trigger] self.marks()[i] by {
            }
        }
        let mut q: usize = 0;
        while q < to_update.len()
            invariant
                q <= to_update@.len(),
                pre.wf(),
                self.wf(),
                mid.wf(),
                mid.same_but_marks(&pre),
                pre.neighbors_symmetric() ==> self.neighbors_symmetric(),
                pre.neighbors_distinct() ==> self.neighbors_distinct(),
                forall|i: int| 0 <= i < pre.len_spec() ==> (pre.marks()[i] ==> #[trigger] mid.marks()[i]),
                self.grown_from(&mid),
                self.pending() == pre.pending(),
                self.telemetry() == pre.telemetry(),
                self.generation() == pre.generation(),
                self.rate() == pre.rate(),
                self.len_spec() <= pre.len_spec() || self.len_spec() <= pre.config().max_cells,
                next@.len() == self.len_spec() - pre.len_spec(),
                forall|t: int| 0 <= t < next@.len() ==> #[trigger] next@[t] == pre.len_spec() + t + 1,
                forall|t: int|
                    0 <= t < to_update@.len() ==> {
                        let pid = (#[trigger] to_update@[t]).0 as int;
                        &&& pre.valid_id(pid)
                        &&& mid.marks()[pid - 1]
                        &&& !pre.marks()[pid - 1]
                    },
                forall|i: int| 0 <= i < pre.len_spec() ==> #[trigger] self.marks()[i] == mid.marks()[i],
                forall|i: int|
                    pre.len_spec() <= i < self.len_spec() ==> {
                        let par = (#[trigger] self.cells()[i]).parent_id as int;
                        &&& pre.valid_id(par)
                        &&& !pre.marks()[par - 1]
                        &&& mid.marks()[par - 1]
                    },
                forall|i: int|
                    pre.len_spec() <= i < self.len_spec() ==> self.cell(
                        (#[trigger] self.cells()[i]).parent_id as int,
                    ).childs@.contains((i + 1) as usize),
            decreases to_update@.len() - q,
        {
            let pid = to_update[q].0;
            let kids = &to_update[q].1;
            if kids.len() <= self.config.max_cells && self.cells.len() <= self.config.max_cells
                - kids.len() {
                let ghost before = *self;
                let ids = self.update_neighbors(pid, kids);
                proof {
                    assert(self.grown_from(&before)) by {
                        assert forall|i: int| 0 <= i < before.len_spec() && before.marks()[i] implies #[trigger] self.marks()[i] by {
                            assert(self.cells()[i] == self.cells()[i]);
                            assert(self.cells()[i].x == before.cells()[i].x);
                            assert(self.places()[i] == before.places()[i]);
                            assert(self.marks()[i] == before.marks()[i]);
                        }
                        assert forall|i: int| before.len_spec() <= i < self.len_spec() implies {
                            let c = #[trigger] self.cells()[i];
                            &&& !c.stopped
                            &&& !c.expired
                            &&& c.steps == 0
                            &&& self.places()[i] == Place::Active
                            &&& 1 <= c.parent_id <= self.len_spec()
                            &&& self.marks()[c.parent_id - 1]
                        } by {
                            assert(self.cells()[i].parent_id == pid);
                            assert(before.marks()[pid - 1] == self.marks()[pid - 1]);
                            assert(before.cells()[pid - 1] == before.cells()[pid - 1]);
                        }
                    }
                    Self::lemma_grown_trans(&mid, &before, self);
                    Self::lemma_child_links(&pre, &before, self, pid as int, ids@);
                    assert forall|i: int| 0 <= i < pre.len_spec() implies #[trigger] self.marks()[i] == mid.marks()[i] by {
                        assert(self.cells()[i].x == before.cells()[i].x);
                        assert(self.marks()[i] == before.marks()[i]);
                    }
                    assert forall|i: int|
                        pre.len_spec() <= i < self.len_spec() implies {
                            let par = (#[trigger] self.cells()[i]).parent_id as int;
                            &&& pre.valid_id(par)
                            &&& !pre.marks()[par - 1]
                            &&& mid.marks()[par - 1]
                        } by {
                        if i < before.len_spec() {
                            assert(self.cells()[i].parent_id == before.cells()[i].parent_id);
                        } else {
                            assert(self.cells()[i].parent_id == pid);
                        }
                    }
                }
                let mut t: usize = 0;
                while t < ids.len()
                    invariant
                        t <= ids@.len(),
                        next@.len() == before.len_spec() - pre.len_spec() + t,
                        forall|u: int| 0 <= u < ids@.len() ==> #[trigger] ids@[u] == before.len_spec() + u + 1,
                        forall|u: int| 0 <= u < next@.len() ==> #[trigger] next@[u] == pre.len_spec() + u + 1,
                    decreases ids@.len() - t,
                {
                    next.push(ids[t]);
                    t = t + 1;
                }
            }
            q = q + 1;
        }
        proof {
            Self::lemma_grown_trans(&pre, &mid, self);
            assert(ps@.subrange(0, ps@.len() as int) =~= ps@);
            assert(self.marks_after_checks(&pre, ps@)) by {
                assert forall|q: int, n: int|
                    0 <= q < ps@.len() && pre.qualifying_neighbor(#[trigger] ps@[q] as int, n)
                        implies #[trigger] self.marks()[n - 1] by {
                    assert(mid.marks()[n - 1]);
                }
                assert forall|q: int|
                    0 <= q < ps@.len() && !(pre.cell(ps@[q] as int).expired && pre.cell(ps@[q] as int).width
                        < SMALL_FOOTPRINT) && pre.neighbor_qualifies(#[trigger] ps@[q] as int)
                        implies self.marks()[ps@[q] - 1] by {
                    assert(mid.marks()[ps@[q] - 1]);
                }
                assert forall|i: int|
                    0 <= i < pre.len_spec() && #[trigger] self.marks()[i] && !pre.marks()[i]
                        implies pre.reached_by(ps@, i + 1) by {
                    assert(mid.marks()[i]);
                }
            }
        }
        next
    }

}

} // verus!
