//! Registration of the children of a split cell and the upkeep of the neighbour
//! graph: sibling links, links to the parent's neighbours, and their symmetry.
use vstd::prelude::*;

use super::{PendulumFamily, Place};
use crate::cell::{adjacent_spec, DoublePendulum};

verus! {

impl PendulumFamily {
    /// Facts kept while the children of `pid` are registered, `j` of them so far.
    pub closed spec fn registering(
        &self,
        pre: &Self,
        pid: usize,
        childs: Seq<DoublePendulum>,
        ids: Seq<usize>,
        pnb: Seq<usize>,
        j: int,
    ) -> bool {
        let base = pre.len_spec();
        &&& pre.wf()
        &&& pre.valid_id(pid as int)
        &&& ids.len() == childs.len()
        &&& 0 <= j <= childs.len()
        &&& forall|i: int| 0 <= i < ids.len() ==> #[trigger] ids[i] == base + i + 1
        &&& base + childs.len() <= usize::MAX
        &&& pnb == pre.cell(pid as int).neighbors@
        &&& self.wf_upto(base + childs.len())
        &&& self.len_spec() == base + j
        &&& self.config == pre.config
        &&& self.width == pre.width
        &&& self.to_draw == pre.to_draw
        &&& self.avg == pre.avg
        &&& self.iter == pre.iter
        &&& self.update_steps == pre.update_steps
        &&& forall|i: int|
            base <= i < base + j ==> {
                let c = #[trigger] self.cells@[i];
                let k = childs[i - base];
                &&& c.parent_id == pid
                &&& c.x == k.x
                &&& c.y == k.y
                &&& c.width == k.width
                &&& c.color == k.color
                &&& !c.stopped
                &&& !c.expired
                &&& c.steps == 0
                &&& c.childs@.len() == 0
                &&& self.place@[i] == Place::Active
                &&& !self.dive@[i]
            }
        &&& forall|i1: int, i2: int|
            0 <= i1 < j && 0 <= i2 < childs.len() && i1 != i2 ==> self.cells@[ids[i1] - 1].neighbors@.contains(
                ids[i2],
            )
        &&& forall|i: int, m: int|
            0 <= i < j && 0 <= m < self.cells@[ids[i] - 1].neighbors@.len() ==> {
                let nb = #[trigger] self.cells@[#[trigger] ids[i] - 1].neighbors@[m];
                ids.contains(nb) || {
                    &&& nb <= base
                    &&& nb != pid
                    &&& pre.present(nb as int)
                    &&& pnb.contains(nb)
                    &&& adjacent_spec(&self.cells@[ids[i] - 1], &pre.cell(nb as int))
                    &&& self.cells@[nb - 1].neighbors@.contains(ids[i])
                }
            }
        &&& forall|i: int|
            0 <= i < base ==> {
                let a = #[trigger] self.cells@[i];
                let b = pre.cells@[i];
                &&& a.id == b.id
                &&& a.parent_id == b.parent_id
                &&& a.x == b.x
                &&& a.y == b.y
                &&& a.width == b.width
                &&& a.stopped == b.stopped
                &&& a.expired == b.expired
                &&& a.steps == b.steps
                &&& a.color == b.color
                &&& (i != pid - 1 ==> a.childs == b.childs)
                &&& (i == pid - 1 ==> a.neighbors == b.neighbors)
                &&& a.neighbors@.len() >= b.neighbors@.len()
                &&& a.neighbors@.subrange(0, b.neighbors@.len() as int) == b.neighbors@
                &&& self.place@[i] == pre.place@[i]
                &&& self.dive@[i] == pre.dive@[i]
            }
        &&& forall|i: int, m: int|
            0 <= i < base && pre.cells@[i].neighbors@.len() <= m < self.cells@[i].neighbors@.len() ==> {
                let nb = #[trigger] self.cells@[i].neighbors@[m];
                &&& base < nb <= base + childs.len()
                &&& nb <= base + j + 1
                &&& (nb <= base + j ==> self.cells@[nb - 1].neighbors@.contains((i + 1) as usize))
            }
        &&& forall|i: int, t: int|
            base <= i < base + j && 0 <= t < self.cells@[i].neighbors@.len() ==> #[trigger] self.cells@[i].neighbors@[t]
                != i + 1
        &&& forall|i: int, m: int|
            base <= i < base + j && 0 <= m < pnb.len() && pnb[m] != pid && pre.present(pnb[m] as int)
                && adjacent_spec(&self.cells@[i], &pre.cell(pnb[m] as int)) ==> #[trigger] self.cells@[i].neighbors@.contains(
                #[trigger] pnb[m],
            )
        &&& (pre.neighbors_distinct() ==> forall|i: int|
            0 <= i < self.cells@.len() ==> (#[trigger] self.cells@[i]).neighbors@.no_duplicates()
                && !self.cells@[i].neighbors@.contains((i + 1) as usize))
    }

    /// Every id added to an old cell's neighbours belongs to one of the first `j` children.
    pub closed spec fn ext_settled(&self, pre: &Self, j: int) -> bool {
        forall|i: int, m: int|
            0 <= i < pre.len_spec() && pre.cells@[i].neighbors@.len() <= m < self.cells@[i].neighbors@.len()
                ==> #[trigger] self.cells@[i].neighbors@[m] <= pre.len_spec() + j
    }

    /// The child being built as the `j`-th of `pid` is well formed so far.
    pub closed spec fn new_child_ok(
        &self,
        pre: &Self,
        pid: usize,
        childs: Seq<DoublePendulum>,
        ids: Seq<usize>,
        pnb: Seq<usize>,
        j: int,
        c: DoublePendulum,
    ) -> bool {
        let base = pre.len_spec();
        let k = childs[j];
        &&& c.id == base + j + 1
        &&& c.parent_id == pid
        &&& c.x == k.x
        &&& c.y == k.y
        &&& c.width == k.width
        &&& c.color == k.color
        &&& !c.stopped
        &&& !c.expired
        &&& c.steps == 0
        &&& c.childs@.len() == 0
        &&& forall|t: int|
            0 <= t < c.neighbors@.len() ==> {
                let nb = #[trigger] c.neighbors@[t];
                ids.contains(nb) || {
                    &&& nb <= base
                    &&& nb != pid
                    &&& pre.present(nb as int)
                    &&& pnb.contains(nb)
                    &&& adjacent_spec(&c, &pre.cell(nb as int))
                    &&& self.cells@[nb - 1].neighbors@.contains(c.id)
                }
            }
        &&& forall|t: int| 0 <= t < c.neighbors@.len() ==> #[trigger] c.neighbors@[t] != c.id
        &&& forall|i: int, m: int|
            0 <= i < base && pre.cells@[i].neighbors@.len() <= m < self.cells@[i].neighbors@.len()
                && #[trigger] self.cells@[i].neighbors@[m] == c.id ==> c.neighbors@.contains((i + 1) as usize)
        &&& (pre.neighbors_distinct() ==> c.neighbors@.no_duplicates())
    }

    pub(super) proof fn lemma_contains_push(s: Seq<usize>, v: usize, x: usize)
        requires
            s.contains(x),
        ensures
            s.push(v).contains(x),
    {
        let q = choose|q: int| 0 <= q < s.len() && s[q] == x;
        assert(s.push(v)[q] == x);
    }

    /// Appending `cid` to the neighbours of the old cell at `q` keeps the registration facts.
    pub(super) proof fn lemma_push_link(
        &self,
        before: &Self,
        pre: &Self,
        pid: usize,
        childs: Seq<DoublePendulum>,
        ids: Seq<usize>,
        pnb: Seq<usize>,
        j: int,
        q: int,
        cid: usize,
    )
        requires
            before.registering(pre, pid, childs, ids, pnb, j),
            0 <= q < pre.len_spec(),
            q != pid - 1,
            cid == pre.len_spec() + j + 1,
            j < childs.len(),
            pre.neighbors_distinct() ==> !before.cells@[q].neighbors@.contains(cid),
            self.cells@.len() == before.cells@.len(),
            forall|i: int| 0 <= i < self.cells@.len() && i != q ==> self.cells@[i] == before.cells@[i],
            ({
                let a = self.cells@[q];
                let b = before.cells@[q];
                &&& a.id == b.id
                &&& a.parent_id == b.parent_id
                &&& a.childs == b.childs
                &&& a.x == b.x
                &&& a.y == b.y
                &&& a.width == b.width
                &&& a.stopped == b.stopped
                &&& a.expired == b.expired
                &&& a.steps == b.steps
                &&& a.color == b.color
                &&& a.neighbors@ == b.neighbors@.push(cid)
            }),
            self.place == before.place,
            self.dive == before.dive,
            self.config == before.config,
            self.width == before.width,
            self.to_draw == before.to_draw,
            self.avg == before.avg,
            self.iter == before.iter,
            self.update_steps == before.update_steps,
        ensures
            self.registering(pre, pid, childs, ids, pnb, j),
    {
        let base = pre.len_spec();
        let bound = base + childs.len();
        if pre.neighbors_distinct() {
            assert forall|i: int| 0 <= i < self.cells@.len() implies (#[trigger] self.cells@[i]).neighbors@.no_duplicates() by {
                assert(before.cells@[i].neighbors@.no_duplicates());
                if i == q {
                    Self::lemma_push_distinct(before.cells@[q].neighbors@, cid);
                }
            }
        }
        assert forall|i: int, m: int|
            0 <= i < base && pre.cells@[i].neighbors@.len() <= m < self.cells@[i].neighbors@.len() implies {
                let nb = #[trigger] self.cells@[i].neighbors@[m];
                &&& base < nb <= base + childs.len()
                &&& nb <= base + j + 1
                &&& (nb <= base + j ==> self.cells@[nb - 1].neighbors@.contains((i + 1) as usize))
            } by {
            if i == q && m == before.cells@[q].neighbors@.len() {
                assert(self.cells@[i].neighbors@[m] == cid);
            } else {
                assert(self.cells@[i].neighbors@[m] == before.cells@[i].neighbors@[m]);
                let nb = before.cells@[i].neighbors@[m];
                if nb <= base + j {
                    assert(self.cells@[nb - 1] == before.cells@[nb - 1]);
                }
            }
        }
        assert forall|i: int, t: int|
            base <= i < base + j && 0 <= t < self.cells@[i].neighbors@.len() implies #[trigger] self.cells@[i].neighbors@[t]
                != i + 1 by {
            assert(self.cells@[i] == before.cells@[i]);
        }
        assert forall|i: int| 0 <= i < self.cells@.len() implies self.links_ok(
            #[trigger] self.cells@[i],
            bound as nat,
        ) by {
            assert(before.links_ok(before.cells@[i], bound as nat));
            if i == q {
                let a = self.cells@[q];
                let b = before.cells@[q];
                assert forall|k: int| 0 <= k < a.neighbors@.len() implies 1 <= #[trigger] a.neighbors@[k]
                    <= bound by {
                    if k < b.neighbors@.len() {
                        assert(a.neighbors@[k] == b.neighbors@[k]);
                    }
                }
            }
        }
        assert forall|i: int, m: int|
            0 <= i < j && 0 <= m < self.cells@[ids[i] - 1].neighbors@.len() implies {
                let nb = #[trigger] self.cells@[#[trigger] ids[i] - 1].neighbors@[m];
                ids.contains(nb) || {
                    &&& nb <= base
                    &&& nb != pid
                    &&& pre.present(nb as int)
                    &&& pnb.contains(nb)
                    &&& adjacent_spec(&self.cells@[ids[i] - 1], &pre.cell(nb as int))
                    &&& self.cells@[nb - 1].neighbors@.contains(ids[i])
                }
            } by {
            let nb = before.cells@[ids[i] - 1].neighbors@[m];
            assert(self.cells@[ids[i] - 1] == before.cells@[ids[i] - 1]);
            if !ids.contains(nb) {
                if nb - 1 == q {
                    Self::lemma_contains_push(before.cells@[q].neighbors@, cid, ids[i]);
                } else {
                    assert(self.cells@[nb - 1] == before.cells@[nb - 1]);
                }
            }
        }
        assert forall|i1: int, i2: int|
            0 <= i1 < j && 0 <= i2 < childs.len() && i1 != i2 implies self.cells@[ids[i1] - 1].neighbors@.contains(
                ids[i2],
            ) by {
            assert(self.cells@[ids[i1] - 1] == before.cells@[ids[i1] - 1]);
        }
        assert forall|i: int|
            0 <= i < base implies {
                let a = #[trigger] self.cells@[i];
                let b = pre.cells@[i];
                &&& a.id == b.id
                &&& a.parent_id == b.parent_id
                &&& a.x == b.x
                &&& a.y == b.y
                &&& a.width == b.width
                &&& a.stopped == b.stopped
                &&& a.expired == b.expired
                &&& a.steps == b.steps
                &&& a.color == b.color
                &&& (i != pid - 1 ==> a.childs == b.childs)
                &&& (i == pid - 1 ==> a.neighbors == b.neighbors)
                &&& a.neighbors@.len() >= b.neighbors@.len()
                &&& a.neighbors@.subrange(0, b.neighbors@.len() as int) == b.neighbors@
                &&& self.place@[i] == pre.place@[i]
                &&& self.dive@[i] == pre.dive@[i]
            } by {
            let mid = before.cells@[i];
            if i == q {
                assert(self.cells@[i].neighbors@.subrange(0, pre.cells@[i].neighbors@.len() as int)
                    =~= mid.neighbors@.subrange(0, pre.cells@[i].neighbors@.len() as int));
            }
        }
        assert forall|i: int|
            base <= i < base + j implies {
                let c = #[trigger] self.cells@[i];
                let k = childs[i - base];
                &&& c.parent_id == pid
                &&& c.x == k.x
                &&& c.y == k.y
                &&& c.width == k.width
                &&& c.color == k.color
                &&& !c.stopped
                &&& !c.expired
                &&& c.steps == 0
                &&& c.childs@.len() == 0
                &&& self.place@[i] == Place::Active
                &&& !self.dive@[i]
            } by {
            assert(self.cells@[i] == before.cells@[i]);
        }
        assert forall|i: int| 0 <= i < self.cells@.len() implies (#[trigger] self.cells@[i]).id == i + 1 by {
            assert(before.cells@[i].id == i + 1);
        }
        assert forall|i: int|
            0 <= i < self.cells@.len() implies (self.place@[i] == Place::Active <==> !(
            #[trigger] self.cells@[i]).stopped) by {
            assert(before.place@[i] == Place::Active <==> !before.cells@[i].stopped);
        }
    }

    /// Linking the child under construction to the `m`-th neighbour of the parent keeps
    /// it well formed.
    pub(super) proof fn lemma_link_keeps_child(
        &self,
        before: &Self,
        pre: &Self,
        pid: usize,
        childs: Seq<DoublePendulum>,
        ids: Seq<usize>,
        pnb: Seq<usize>,
        j: int,
        c_old: DoublePendulum,
        c: DoublePendulum,
        m: int,
    )
        requires
            before.registering(pre, pid, childs, ids, pnb, j),
            j < childs.len(),
            before.new_child_ok(pre, pid, childs, ids, pnb, j, c_old),
            0 <= m < pnb.len(),
            pre.neighbors_distinct() ==> !c_old.neighbors@.contains(pnb[m]),
            ({
                let nid = pnb[m];
                &&& nid != pid
                &&& before.place@[nid - 1] != Place::Removed
                &&& adjacent_spec(&c_old, &before.cells@[nid - 1])
                &&& self.cells@.len() == before.cells@.len()
                &&& forall|i: int| 0 <= i < self.cells@.len() && i != nid - 1 ==> self.cells@[i] == before.cells@[i]
                &&& self.cells@[nid - 1].neighbors@ == before.cells@[nid - 1].neighbors@.push(c.id)
                &&& c.neighbors@ == c_old.neighbors@.push(nid)
            }),
            c.id == c_old.id,
            c.parent_id == c_old.parent_id,
            c.x == c_old.x,
            c.y == c_old.y,
            c.width == c_old.width,
            c.color == c_old.color,
            c.stopped == c_old.stopped,
            c.expired == c_old.expired,
            c.steps == c_old.steps,
            c.childs == c_old.childs,
        ensures
            self.new_child_ok(pre, pid, childs, ids, pnb, j, c),
    {
        let base = pre.len_spec();
        let nid = pnb[m];
        if pre.neighbors_distinct() {
            Self::lemma_push_distinct(c_old.neighbors@, nid);
        }
        assert(pnb.contains(nid));
        assert forall|t: int| 0 <= t < c.neighbors@.len() implies #[trigger] c.neighbors@[t] != c.id by {
            if t < c_old.neighbors@.len() {
                assert(c.neighbors@[t] == c_old.neighbors@[t]);
            }
        }
        assert forall|i: int, m2: int|
            0 <= i < base && pre.cells@[i].neighbors@.len() <= m2 < self.cells@[i].neighbors@.len()
                && #[trigger] self.cells@[i].neighbors@[m2] == c.id implies c.neighbors@.contains((i + 1) as usize) by {
            if i == nid - 1 && m2 == before.cells@[i].neighbors@.len() {
                assert(c.neighbors@[c.neighbors@.len() - 1] == nid);
            } else {
                assert(self.cells@[i].neighbors@[m2] == before.cells@[i].neighbors@[m2]);
                Self::lemma_contains_push(c_old.neighbors@, nid, (i + 1) as usize);
            }
        }
        assert(pre.links_ok(pre.cells@[pid - 1], pre.cells@.len()));
        assert(1 <= nid <= base);
        assert(before.cells@[nid - 1].x == pre.cells@[nid - 1].x);
        assert(before.place@[nid - 1] == pre.place@[nid - 1]);
        assert forall|t: int|
            0 <= t < c.neighbors@.len() implies {
                let nb = #[trigger] c.neighbors@[t];
                ids.contains(nb) || {
                    &&& nb <= base
                    &&& nb != pid
                    &&& pre.present(nb as int)
                    &&& pnb.contains(nb)
                    &&& adjacent_spec(&c, &pre.cell(nb as int))
                    &&& self.cells@[nb - 1].neighbors@.contains(c.id)
                }
            } by {
            if t < c_old.neighbors@.len() {
                let nb = c_old.neighbors@[t];
                assert(c.neighbors@[t] == nb);
                if !ids.contains(nb) {
                    if nb == nid {
                        Self::lemma_contains_push(before.cells@[nid - 1].neighbors@, c.id, c.id);
                    } else {
                        assert(self.cells@[nb - 1] == before.cells@[nb - 1]);
                    }
                }
            } else {
                let last = self.cells@[nid - 1].neighbors@.len() - 1;
                assert(self.cells@[nid - 1].neighbors@[last] == c.id);
            }
        }
    }

    /// Recording a child id in the parent keeps the registration facts.
    pub(super) proof fn lemma_push_childs(
        &self,
        before: &Self,
        pre: &Self,
        pid: usize,
        childs: Seq<DoublePendulum>,
        ids: Seq<usize>,
        pnb: Seq<usize>,
        id: usize,
    )
        requires
            before.registering(pre, pid, childs, ids, pnb, childs.len() as int),
            ids.contains(id),
            self.cells@.len() == before.cells@.len(),
            forall|i: int| 0 <= i < self.cells@.len() && i != pid - 1 ==> self.cells@[i] == before.cells@[i],
            ({
                let a = self.cells@[pid - 1];
                let b = before.cells@[pid - 1];
                &&& a.id == b.id
                &&& a.parent_id == b.parent_id
                &&& a.neighbors == b.neighbors
                &&& a.x == b.x
                &&& a.y == b.y
                &&& a.width == b.width
                &&& a.stopped == b.stopped
                &&& a.expired == b.expired
                &&& a.steps == b.steps
                &&& a.color == b.color
                &&& a.childs@ == b.childs@.push(id)
            }),
            self.place == before.place,
            self.dive == before.dive,
            self.config == before.config,
            self.width == before.width,
            self.to_draw == before.to_draw,
            self.avg == before.avg,
            self.iter == before.iter,
            self.update_steps == before.update_steps,
        ensures
            self.registering(pre, pid, childs, ids, pnb, childs.len() as int),
    {
        let base = pre.len_spec();
        let bound = base + childs.len();
        let q = choose|q: int| 0 <= q < ids.len() && ids[q] == id;
        assert forall|i: int| 0 <= i < self.cells@.len() implies self.links_ok(
            #[trigger] self.cells@[i],
            bound as nat,
        ) by {
            assert(before.links_ok(before.cells@[i], bound as nat));
            if i == pid - 1 {
                let a = self.cells@[i];
                let b = before.cells@[i];
                assert forall|k: int| 0 <= k < a.childs@.len() implies 1 <= #[trigger] a.childs@[k]
                    <= bound by {
                    if k < b.childs@.len() {
                        assert(a.childs@[k] == b.childs@[k]);
                    }
                }
            }
        }
        assert forall|i: int| 0 <= i < self.cells@.len() implies (#[trigger] self.cells@[i]).id == i + 1 by {
            assert(before.cells@[i].id == i + 1);
        }
        assert forall|i: int|
            0 <= i < self.cells@.len() implies (self.place@[i] == Place::Active <==> !(
            #[trigger] self.cells@[i]).stopped) by {
            assert(before.place@[i] == Place::Active <==> !before.cells@[i].stopped);
        }
        assert forall|i: int|
            base <= i < base + childs.len() implies (#[trigger] self.cells@[i]) == before.cells@[i] by {
            assert(pid - 1 < base);
        }
        assert forall|i: int, m: int|
            0 <= i < childs.len() && 0 <= m < self.cells@[ids[i] - 1].neighbors@.len() implies {
                let nb = #[trigger] self.cells@[#[trigger] ids[i] - 1].neighbors@[m];
                ids.contains(nb) || {
                    &&& nb <= base
                    &&& nb != pid
                    &&& pre.present(nb as int)
                    &&& pnb.contains(nb)
                    &&& adjacent_spec(&self.cells@[ids[i] - 1], &pre.cell(nb as int))
                    &&& self.cells@[nb - 1].neighbors@.contains(ids[i])
                }
            } by {
            assert(self.cells@[ids[i] - 1] == before.cells@[ids[i] - 1]);
            let nb = before.cells@[ids[i] - 1].neighbors@[m];
            if !ids.contains(nb) {
                assert(self.cells@[nb - 1].neighbors == before.cells@[nb - 1].neighbors);
            }
        }
        assert forall|i1: int, i2: int|
            0 <= i1 < childs.len() && 0 <= i2 < childs.len() && i1 != i2 implies self.cells@[ids[i1] - 1].neighbors@.contains(
                ids[i2],
            ) by {
            assert(self.cells@[ids[i1] - 1] == before.cells@[ids[i1] - 1]);
        }
    }

    /// Appending the finished `j`-th child keeps the registration facts, one further.
    pub(super) proof fn lemma_push_child(
        &self,
        before: &Self,
        pre: &Self,
        pid: usize,
        childs: Seq<DoublePendulum>,
        ids: Seq<usize>,
        pnb: Seq<usize>,
        j: int,
        c: DoublePendulum,
    )
        requires
            before.registering(pre, pid, childs, ids, pnb, j),
            j < childs.len(),
            before.new_child_ok(pre, pid, childs, ids, pnb, j, c),
            forall|t: int| 0 <= t < childs.len() && t != j ==> c.neighbors@.contains(#[trigger] ids[t]),
            forall|mm: int|
                0 <= mm < pnb.len() && pnb[mm] != pid && pre.present(pnb[mm] as int) && adjacent_spec(
                    &c,
                    &pre.cell(pnb[mm] as int),
                ) ==> c.neighbors@.contains(#[trigger] pnb[mm]),
            self.cells@ == before.cells@.push(c),
            self.place@ == before.place@.push(Place::Active),
            self.dive@ == before.dive@.push(false),
            self.config == before.config,
            self.width == before.width,
            self.to_draw == before.to_draw,
            self.avg == before.avg,
            self.iter == before.iter,
            self.update_steps == before.update_steps,
        ensures
            self.registering(pre, pid, childs, ids, pnb, j + 1),
            self.ext_settled(pre, j + 1),
    {
        let base = pre.len_spec();
        let bound = base + childs.len();
        assert(ids[j] == base + j + 1);
        assert forall|i: int| 0 <= i < self.cells@.len() implies self.links_ok(
            #[trigger] self.cells@[i],
            bound as nat,
        ) by {
            if i < before.cells@.len() {
                assert(before.links_ok(before.cells@[i], bound as nat));
            } else {
                assert forall|k: int| 0 <= k < c.neighbors@.len() implies 1 <= #[trigger] c.neighbors@[k]
                    <= bound by {
                    let nb = c.neighbors@[k];
                    if ids.contains(nb) {
                        let q = choose|q: int| 0 <= q < ids.len() && ids[q] == nb;
                    } else {
                        assert(pre.present(nb as int));
                    }
                }
            }
        }
        assert forall|i1: int, i2: int|
            0 <= i1 < j + 1 && 0 <= i2 < childs.len() && i1 != i2 implies self.cells@[ids[i1] - 1].neighbors@.contains(
                ids[i2],
            ) by {
            if i1 < j {
                assert(self.cells@[ids[i1] - 1] == before.cells@[ids[i1] - 1]);
            } else {
                assert(self.cells@[ids[i1] - 1] == c);
            }
        }
        assert forall|i: int, m: int|
            0 <= i < j + 1 && 0 <= m < self.cells@[ids[i] - 1].neighbors@.len() implies {
                let nb = #[trigger] self.cells@[#[trigger] ids[i] - 1].neighbors@[m];
                ids.contains(nb) || {
                    &&& nb <= base
                    &&& nb != pid
                    &&& pre.present(nb as int)
                    &&& pnb.contains(nb)
                    &&& adjacent_spec(&self.cells@[ids[i] - 1], &pre.cell(nb as int))
                    &&& self.cells@[nb - 1].neighbors@.contains(ids[i])
                }
            } by {
            if i < j {
                assert(self.cells@[ids[i] - 1] == before.cells@[ids[i] - 1]);
                let nb = before.cells@[ids[i] - 1].neighbors@[m];
                if !ids.contains(nb) {
                    assert(self.cells@[nb - 1] == before.cells@[nb - 1]);
                }
            } else {
                assert(self.cells@[ids[i] - 1] == c);
                let nb = c.neighbors@[m];
                if !ids.contains(nb) {
                    assert(self.cells@[nb - 1] == before.cells@[nb - 1]);
                }
            }
        }
        assert forall|i: int|
            0 <= i < base implies {
                let a = #[trigger] self.cells@[i];
                let b = pre.cells@[i];
                &&& a.id == b.id
                &&& a.parent_id == b.parent_id
                &&& a.x == b.x
                &&& a.y == b.y
                &&& a.width == b.width
                &&& a.stopped == b.stopped
                &&& a.expired == b.expired
                &&& a.steps == b.steps
                &&& a.color == b.color
                &&& (i != pid - 1 ==> a.childs == b.childs)
                &&& (i == pid - 1 ==> a.neighbors == b.neighbors)
                &&& a.neighbors@.len() >= b.neighbors@.len()
                &&& a.neighbors@.subrange(0, b.neighbors@.len() as int) == b.neighbors@
                &&& self.place@[i] == pre.place@[i]
                &&& self.dive@[i] == pre.dive@[i]
            } by {
            assert(self.cells@[i] == before.cells@[i]);
        }
        assert forall|i: int|
            base <= i < base + j + 1 implies {
                let c2 = #[trigger] self.cells@[i];
                let k = childs[i - base];
                &&& c2.parent_id == pid
                &&& c2.x == k.x
                &&& c2.y == k.y
                &&& c2.width == k.width
                &&& c2.color == k.color
                &&& !c2.stopped
                &&& !c2.expired
                &&& c2.steps == 0
                &&& c2.childs@.len() == 0
                &&& self.place@[i] == Place::Active
                &&& !self.dive@[i]
            } by {
            if i < base + j {
                assert(self.cells@[i] == before.cells@[i]);
            }
        }
        assert forall|i: int| 0 <= i < self.cells@.len() implies (#[trigger] self.cells@[i]).id == i + 1 by {
            if i < before.cells@.len() {
                assert(before.cells@[i].id == i + 1);
            }
        }
        assert forall|i: int|
            0 <= i < self.cells@.len() implies (self.place@[i] == Place::Active <==> !(
            #[trigger] self.cells@[i]).stopped) by {
            if i < before.cells@.len() {
                assert(before.place@[i] == Place::Active <==> !before.cells@[i].stopped);
            }
        }
    }

    /// No neighbour list holds an id twice, nor the id of its own cell.
    pub open spec fn neighbors_distinct(&self) -> bool {
        forall|i: int|
            self.valid_id(i) ==> (#[trigger] self.cell(i)).neighbors@.no_duplicates() && !self.cell(
                i,
            ).neighbors@.contains(i as usize)
    }

    /// Distinct lists stay distinct when each list is kept or emptied.
    pub(super) proof fn lemma_distinct_keep(a: &Self, b: &Self)
        requires
            a.neighbors_distinct(),
            b.len_spec() == a.len_spec(),
            forall|i: int|
                0 <= i < b.len_spec() ==> (#[trigger] b.cells()[i]).neighbors@ == a.cells()[i].neighbors@
                    || b.cells()[i].neighbors@.len() == 0,
        ensures
            b.neighbors_distinct(),
    {
        assert forall|i: int| b.valid_id(i) implies (#[trigger] b.cell(i)).neighbors@.no_duplicates()
            && !b.cell(i).neighbors@.contains(i as usize) by {
            assert(b.cells()[i - 1] == b.cell(i));
            assert(a.cell(i).neighbors@.no_duplicates());
            assert(!a.cell(i).neighbors@.contains(i as usize));
        }
    }

    pub(super) proof fn lemma_push_distinct(s: Seq<usize>, v: usize)
        requires
            s.no_duplicates(),
            !s.contains(v),
        ensures
            s.push(v).no_duplicates(),
    {
        let t = s.push(v);
        assert forall|a: int, b: int| 0 <= a < t.len() && 0 <= b < t.len() && a != b implies t[a] != t[b] by {
            if a == s.len() {
                assert(s[b] == t[b]);
            } else if b == s.len() {
                assert(s[a] == t[a]);
            } else {
                assert(s[a] == t[a] && s[b] == t[b]);
            }
        }
    }

    pub(super) proof fn lemma_prefix_grow(s: Seq<usize>, m: int, x: usize)
        requires
            0 <= m < s.len(),
        ensures
            s.subrange(0, m).contains(x) ==> s.subrange(0, m + 1).contains(x),
            s.subrange(0, m + 1).contains(s[m]),
    {
        assert(s.subrange(0, m + 1)[m] == s[m]);
        if s.subrange(0, m).contains(x) {
            let w = choose|w: int| 0 <= w < m && s.subrange(0, m)[w] == x;
            assert(s.subrange(0, m + 1)[w] == x);
        }
    }

    /// Each cell that is active or kept is listed back by every neighbour that is
    /// active or kept.
    pub open spec fn neighbors_symmetric(&self) -> bool {
        forall|i: int, k: int|
            self.present(i) && 0 <= k < self.cell(i).neighbors@.len() && self.present(
                #[trigger] self.cell(i).neighbors@[k] as int,
            ) ==> self.cell(self.cell(i).neighbors@[k] as int).neighbors@.contains(i as usize)
    }

    /// Symmetry survives when cells only leave the kept set and the lists of the rest
    /// stay as they were.
    pub(super) proof fn lemma_symmetric_shrink(a: &Self, b: &Self)
        requires
            a.neighbors_symmetric(),
            b.len_spec() == a.len_spec(),
            forall|i: int|
                b.present(i) ==> a.present(i) && (#[trigger] b.cell(i)).neighbors == a.cell(i).neighbors,
        ensures
            b.neighbors_symmetric(),
    {
        assert forall|i: int, k: int|
            b.present(i) && 0 <= k < b.cell(i).neighbors@.len() && b.present(
                #[trigger] b.cell(i).neighbors@[k] as int,
            ) implies b.cell(b.cell(i).neighbors@[k] as int).neighbors@.contains(i as usize) by {
            let nb = b.cell(i).neighbors@[k] as int;
            assert(a.present(i) && a.cell(i).neighbors == b.cell(i).neighbors);
            assert(a.present(nb) && a.cell(nb).neighbors == b.cell(nb).neighbors);
            assert(a.cell(i).neighbors@[k] == nb);
        }
    }

    pub(super) proof fn lemma_prefix_contains(a: Seq<usize>, b: Seq<usize>, x: usize)
        requires
            b.len() <= a.len(),
            a.subrange(0, b.len() as int) == b,
            b.contains(x),
        ensures
            a.contains(x),
    {
        let q = choose|q: int| 0 <= q < b.len() && b[q] == x;
        assert(a.subrange(0, b.len() as int)[q] == a[q]);
    }

    /// Registration keeps the neighbour lists symmetric.
    pub(super) proof fn lemma_registered_symmetric(
        &self,
        pre: &Self,
        pid: usize,
        childs: Seq<DoublePendulum>,
        ids: Seq<usize>,
        pnb: Seq<usize>,
    )
        requires
            self.registering(pre, pid, childs, ids, pnb, childs.len() as int),
            pre.neighbors_symmetric(),
        ensures
            self.neighbors_symmetric(),
    {
        let base = pre.len_spec();
        let n = childs.len();
        assert forall|i: int, k: int|
            self.present(i) && 0 <= k < self.cell(i).neighbors@.len() && self.present(
                #[trigger] self.cell(i).neighbors@[k] as int,
            ) implies self.cell(self.cell(i).neighbors@[k] as int).neighbors@.contains(i as usize) by {
            let nb = self.cell(i).neighbors@[k];
            if i <= base {
                let a = self.cells@[i - 1];
                let b = pre.cells@[i - 1];
                if k < b.neighbors@.len() {
                    assert(a.neighbors@.subrange(0, b.neighbors@.len() as int)[k] == a.neighbors@[k]);
                    assert(b.neighbors@[k] == nb);
                    assert(pre.links_ok(pre.cells@[i - 1], pre.cells@.len()));
                    assert(self.place@[nb - 1] == pre.place@[nb - 1]);
                    assert(self.place@[i - 1] == pre.place@[i - 1]);
                    assert(pre.present(i) && pre.present(nb as int));
                    assert(pre.cell(pre.cell(i).neighbors@[k] as int).neighbors@.contains(i as usize));
                    let c = self.cells@[nb - 1];
                    let d = pre.cells@[nb - 1];
                    Self::lemma_prefix_contains(c.neighbors@, d.neighbors@, i as usize);
                } else {
                    assert(self.cells@[i - 1].neighbors@[k] == nb);
                }
            } else {
                let jj = i - 1 - base;
                assert(ids[jj] == i);
                assert(self.cells@[ids[jj] - 1].neighbors@[k] == nb);
                if ids.contains(nb) {
                    let q = choose|q: int| 0 <= q < ids.len() && ids[q] == nb;
                    assert(self.cells@[i - 1].neighbors@[k] != i);
                    assert(q != jj);
                    assert(self.cells@[ids[q] - 1].neighbors@.contains(ids[jj]));
                }
            }
        }
    }

    /// Registers the children of cell `pid` under the next ids, in the active set.
    /// Each child is linked to its siblings, and mutually to each neighbour of the
    /// parent that is still kept and whose footprint touches its own.
    #[verifier::rlimit(30)]
    pub fn update_neighbors(&mut self, pid: usize, childs: &Vec<DoublePendulum>) -> (ids: Vec<usize>)
        requires
            old(self).wf(),
            old(self).valid_id(pid as int),
            old(self).len_spec() + childs@.len() <= usize::MAX,
        ensures
            final(self).wf(),
            final(self).len_spec() == old(self).len_spec() + childs@.len(),
            ids@.len() == childs@.len(),
            forall|j: int| 0 <= j < ids@.len() ==> #[trigger] ids@[j] == old(self).len_spec() + j + 1,
            forall|i: int|
                old(self).len_spec() <= i < final(self).len_spec() ==> {
                    let c = #[trigger] final(self).cells()[i];
                    let k = childs@[i - old(self).len_spec()];
                    &&& c.parent_id == pid
                    &&& c.x == k.x
                    &&& c.y == k.y
                    &&& c.width == k.width
                    &&& c.color == k.color
                    &&& !c.stopped
                    &&& !c.expired
                    &&& c.steps == 0
                    &&& c.childs@.len() == 0
                    &&& final(self).places()[i] == Place::Active
                    &&& !final(self).marks()[i]
                },
            forall|j1: int, j2: int|
                0 <= j1 < ids@.len() && 0 <= j2 < ids@.len() && j1 != j2 ==> final(self).cell(
                    #[trigger] ids@[j1] as int,
                ).neighbors@.contains(#[trigger] ids@[j2]),
            forall|j: int, m: int|
                0 <= j < ids@.len() && 0 <= m < final(self).cell(ids@[j] as int).neighbors@.len()
                    ==> {
                    let n = #[trigger] final(self).cell(#[trigger] ids@[j] as int).neighbors@[m];
                    ids@.contains(n) || {
                        &&& n <= old(self).len_spec()
                        &&& n != pid
                        &&& old(self).present(n as int)
                        &&& old(self).cell(pid as int).neighbors@.contains(n)
                        &&& adjacent_spec(&final(self).cell(ids@[j] as int), &old(self).cell(n as int))
                        &&& final(self).cell(n as int).neighbors@.contains(ids@[j])
                    }
                },
            final(self).cell(pid as int).childs@ == old(self).cell(pid as int).childs@ + ids@,
            old(self).neighbors_symmetric() ==> final(self).neighbors_symmetric(),
            old(self).neighbors_distinct() ==> final(self).neighbors_distinct(),
            forall|j: int, m: int|
                0 <= j < ids@.len() && 0 <= m < old(self).cell(pid as int).neighbors@.len() && {
                    let nb = old(self).cell(pid as int).neighbors@[m];
                    &&& nb != pid
                    &&& old(self).present(nb as int)
                    &&& adjacent_spec(&final(self).cell(ids@[j] as int), &old(self).cell(nb as int))
                } ==> #[trigger] final(self).cell(#[trigger] ids@[j] as int).neighbors@.contains(
                    old(self).cell(pid as int).neighbors@[m],
                ),
            forall|i: int|
                0 <= i < old(self).len_spec() ==> {
                    let a = #[trigger] final(self).cells()[i];
                    let b = old(self).cells()[i];
                    &&& a.id == b.id
                    &&& a.parent_id == b.parent_id
                    &&& a.x == b.x
                    &&& a.y == b.y
                    &&& a.width == b.width
                    &&& a.stopped == b.stopped
                    &&& a.expired == b.expired
                    &&& a.steps == b.steps
                    &&& a.color == b.color
                    &&& i != pid - 1 ==> a.childs == b.childs
                    &&& a.neighbors@.subrange(0, b.neighbors@.len() as int) == b.neighbors@
                    &&& final(self).places()[i] == old(self).places()[i]
                    &&& final(self).marks()[i] == old(self).marks()[i]
                },
            final(self).config() == old(self).config(),
            final(self).domain() == old(self).domain(),
            final(self).pending() == old(self).pending(),
            final(self).telemetry() == old(self).telemetry(),
            final(self).generation() == old(self).generation(),
            final(self).rate() == old(self).rate(),
    {
        let ghost pre = *self;
        let base = self.cells.len();
        let n = childs.len();
        let bound: Ghost<nat> = Ghost((base + n) as nat);
        let mut ids: Vec<usize> = Vec::new();
        let mut j: usize = 0;
        while j < n
            invariant
                j <= n,
                n == childs@.len(),
                base + n <= usize::MAX,
                ids@.len() == j,
                forall|i: int| 0 <= i < j ==> #[trigger] ids@[i] == base + i + 1,
            decreases n - j,
        {
            ids.push(base + j + 1);
            j = j + 1;
        }
        let pnb = self.cells[pid - 1].neighbors.clone();
        proof {
            assert(pnb@ =~= pre.cell(pid as int).neighbors@);
            assert(pre.links_ok(pre.cells@[pid - 1], pre.cells@.len()));
            assert forall|i: int| 0 <= i < self.cells@.len() implies self.links_ok(
                #[trigger] self.cells@[i],
                bound@,
            ) by {
                assert(pre.links_ok(pre.cells@[i], pre.cells@.len()));
            }
            if pre.neighbors_distinct() {
                assert forall|i: int| 0 <= i < self.cells@.len() implies (#[trigger] self.cells@[i]).neighbors@.no_duplicates()
                    && !self.cells@[i].neighbors@.contains((i + 1) as usize) by {
                    assert(pre.cell(i + 1) == pre.cells@[i]);
                    assert(pre.valid_id(i + 1));
                    assert(!pre.cell(i + 1).neighbors@.contains((i + 1) as usize));
                }
            }
            assert forall|i: int| 0 <= i < base implies (#[trigger] self.cells@[i]).neighbors@.subrange(
                0,
                pre.cells@[i].neighbors@.len() as int,
            ) == pre.cells@[i].neighbors@ by {
                assert(self.cells@[i].neighbors@.subrange(0, pre.cells@[i].neighbors@.len() as int)
                    =~= pre.cells@[i].neighbors@);
            }
        }
        let mut j: usize = 0;
        while j < n
            invariant
                self.registering(&pre, pid, childs@, ids@, pnb@, j as int),
                self.ext_settled(&pre, j as int),
                self.cells@[pid - 1].childs == pre.cells@[pid - 1].childs,
                j <= n,
                n == childs@.len(),
                base == pre.len_spec(),
                bound@ == base + n,
            decreases n - j,
        {
            let k = &childs[j];
            let cid = base + j + 1;
            let mut c = DoublePendulum::new(k.x, k.y, k.width);
            c.color = k.color;
            c.id = cid;
            c.parent_id = pid;
            proof {
                assert forall|i: int, m2: int|
                    0 <= i < base && pre.cells@[i].neighbors@.len() <= m2 < self.cells@[i].neighbors@.len()
                        && #[trigger] self.cells@[i].neighbors@[m2] == c.id implies c.neighbors@.contains((i + 1) as usize) by {
                    assert(self.cells@[i].neighbors@[m2] <= base + j);
                }
            }
            let mut m: usize = 0;
            while m < pnb.len()
                invariant
                    self.registering(&pre, pid, childs@, ids@, pnb@, j as int),
                    self.cells@[pid - 1].childs == pre.cells@[pid - 1].childs,
                    j < n,
                    n == childs@.len(),
                    base == pre.len_spec(),
                    cid == base + j + 1,
                    m <= pnb@.len(),
                    self.new_child_ok(&pre, pid, childs@, ids@, pnb@, j as int, c),
                    forall|t: int|
                        0 <= t < c.neighbors@.len() ==> #[trigger] c.neighbors@[t] <= base && pnb@.subrange(
                            0,
                            m as int,
                        ).contains(c.neighbors@[t]),
                    forall|i: int, mm: int|
                        0 <= i < base && pre.cells@[i].neighbors@.len() <= mm < self.cells@[i].neighbors@.len()
                            && #[trigger] self.cells@[i].neighbors@[mm] == cid ==> pnb@.subrange(0, m as int).contains(
                            (i + 1) as usize,
                        ),
                    forall|mm: int|
                        0 <= mm < m && pnb@[mm] != pid && pre.present(pnb@[mm] as int) && adjacent_spec(
                            &c,
                            &pre.cell(pnb@[mm] as int),
                        ) ==> c.neighbors@.contains(#[trigger] pnb@[mm]),
                decreases pnb@.len() - m,
            {
                let nid = pnb[m];
                proof {
                    assert(pnb@.contains(nid));
                    assert(pre.links_ok(pre.cells@[pid - 1], pre.cells@.len()));
                }
                proof {
                    Self::lemma_prefix_grow(pnb@, m as int, nid);
                    if pre.neighbors_distinct() {
                        assert(pre.cell(pid as int).neighbors@.no_duplicates());
                        if c.neighbors@.contains(nid) {
                            let w = choose|w: int| 0 <= w < c.neighbors@.len() && c.neighbors@[w] == nid;
                            assert(pnb@.subrange(0, m as int).contains(c.neighbors@[w]));
                            let v = choose|v: int| 0 <= v < m && pnb@.subrange(0, m as int)[v] == nid;
                            assert(pnb@[v] == pnb@[m as int]);
                        }
                        if self.cells@[nid - 1].neighbors@.contains(cid) {
                            let w = choose|w: int|
                                0 <= w < self.cells@[nid - 1].neighbors@.len() && #[trigger] self.cells@[nid
                                    - 1].neighbors@[w] == cid;
                            let q = nid - 1;
                            if w < pre.cells@[q].neighbors@.len() {
                                assert(pre.links_ok(pre.cells@[q], pre.cells@.len()));
                                assert(self.cells@[q].neighbors@.subrange(0, pre.cells@[q].neighbors@.len() as int)[w]
                                    == self.cells@[q].neighbors@[w]);
                                assert(pre.cells@[q].neighbors@[w] <= base);
                            } else {
                                assert(pnb@.subrange(0, m as int).contains(nid));
                                let v = choose|v: int| 0 <= v < m && pnb@.subrange(0, m as int)[v] == nid;
                                assert(pnb@[v] == pnb@[m as int]);
                            }
                        }
                    }
                }
                if nid != pid && self.place[nid - 1] != Place::Removed && c.adjacent(&self.cells[nid - 1]) {
                    let ghost c_old = c;
                    c.neighbors.push(nid);
                    let ghost before = *self;
                    self.cells[nid - 1].neighbors.push(cid);
                    proof {
                        self.lemma_push_link(&before, &pre, pid, childs@, ids@, pnb@, j as int, (nid - 1) as int, cid);
                        self.lemma_link_keeps_child(&before, &pre, pid, childs@, ids@, pnb@, j as int, c_old, c, m as int);
                        assert forall|t: int|
                            0 <= t < c.neighbors@.len() implies #[trigger] c.neighbors@[t] <= base && pnb@.subrange(
                                0,
                                m + 1,
                            ).contains(c.neighbors@[t]) by {
                            if t < c_old.neighbors@.len() {
                                assert(c.neighbors@[t] == c_old.neighbors@[t]);
                                Self::lemma_prefix_grow(pnb@, m as int, c_old.neighbors@[t]);
                            }
                        }
                        assert forall|i: int, mm: int|
                            0 <= i < base && pre.cells@[i].neighbors@.len() <= mm < self.cells@[i].neighbors@.len()
                                && #[trigger] self.cells@[i].neighbors@[mm] == cid implies pnb@.subrange(0, m + 1).contains(
                                (i + 1) as usize,
                            ) by {
                            if i == nid - 1 {
                            } else {
                                assert(self.cells@[i] == before.cells@[i]);
                                Self::lemma_prefix_grow(pnb@, m as int, (i + 1) as usize);
                            }
                        }
                        assert forall|mm: int|
                            0 <= mm < m + 1 && pnb@[mm] != pid && pre.present(pnb@[mm] as int) && adjacent_spec(
                                &c,
                                &pre.cell(pnb@[mm] as int),
                            ) implies c.neighbors@.contains(#[trigger] pnb@[mm]) by {
                            if mm < m {
                                Self::lemma_contains_push(c_old.neighbors@, nid, pnb@[mm]);
                            } else {
                                assert(c.neighbors@[c.neighbors@.len() - 1] == nid);
                            }
                        }
                    }
                } else {
                    proof {
                        assert forall|t: int|
                            0 <= t < c.neighbors@.len() implies #[trigger] c.neighbors@[t] <= base && pnb@.subrange(
                                0,
                                m + 1,
                            ).contains(c.neighbors@[t]) by {
                            Self::lemma_prefix_grow(pnb@, m as int, c.neighbors@[t]);
                        }
                        assert forall|i: int, mm: int|
                            0 <= i < base && pre.cells@[i].neighbors@.len() <= mm < self.cells@[i].neighbors@.len()
                                && #[trigger] self.cells@[i].neighbors@[mm] == cid implies pnb@.subrange(0, m + 1).contains(
                                (i + 1) as usize,
                            ) by {
                            Self::lemma_prefix_grow(pnb@, m as int, (i + 1) as usize);
                        }
                        assert(self.place@[nid - 1] == pre.place@[nid - 1]);
                        assert(self.cells@[nid - 1].x == pre.cells@[nid - 1].x);
                        assert(self.cells@[nid - 1].y == pre.cells@[nid - 1].y);
                        assert(self.cells@[nid - 1].width == pre.cells@[nid - 1].width);
                    }
                }
                m = m + 1;
            }
            let mut s: usize = 0;
            while s < n
                invariant
                    self.registering(&pre, pid, childs@, ids@, pnb@, j as int),
                    self.cells@[pid - 1].childs == pre.cells@[pid - 1].childs,
                    j < n,
                    n == childs@.len(),
                    base == pre.len_spec(),
                    cid == base + j + 1,
                    s <= n,
                    self.new_child_ok(&pre, pid, childs@, ids@, pnb@, j as int, c),
                    forall|t: int| 0 <= t < s && t != j ==> c.neighbors@.contains(#[trigger] ids@[t]),
                    forall|t: int|
                        0 <= t < c.neighbors@.len() && #[trigger] c.neighbors@[t] > base ==> ids@.subrange(
                            0,
                            s as int,
                        ).contains(c.neighbors@[t]),
                    forall|mm: int|
                        0 <= mm < pnb@.len() && pnb@[mm] != pid && pre.present(pnb@[mm] as int) && adjacent_spec(
                            &c,
                            &pre.cell(pnb@[mm] as int),
                        ) ==> c.neighbors@.contains(#[trigger] pnb@[mm]),
                decreases n - s,
            {
                if s != j {
                    let ghost cn = c.neighbors@;
                    proof {
                        if pre.neighbors_distinct() && cn.contains(ids@[s as int]) {
                            let w = choose|w: int| 0 <= w < cn.len() && cn[w] == ids@[s as int];
                            assert(cn[w] > base);
                            assert(ids@.subrange(0, s as int).contains(cn[w]));
                            let v = choose|v: int| 0 <= v < s && ids@.subrange(0, s as int)[v] == cn[w];
                            assert(ids@[v] == ids@[s as int]);
                        }
                        if pre.neighbors_distinct() {
                            Self::lemma_push_distinct(cn, ids@[s as int]);
                        }
                    }
                    c.neighbors.push(base + s + 1);
                    proof {
                        assert(c.neighbors@[cn.len() as int] == ids@[s as int]);
                        assert forall|t: int| 0 <= t < s + 1 && t != j implies c.neighbors@.contains(#[trigger] ids@[t]) by {
                            if t < s {
                                let q = choose|q: int| 0 <= q < cn.len() && cn[q] == ids@[t];
                                assert(c.neighbors@[q] == ids@[t]);
                            }
                        }
                        assert(ids@.contains(ids@[s as int]));
                        assert forall|t: int| 0 <= t < c.neighbors@.len() implies #[trigger] c.neighbors@[t] != c.id by {
                            if t < cn.len() {
                                assert(c.neighbors@[t] == cn[t]);
                            }
                        }
                        assert forall|i: int, m2: int|
                            0 <= i < base && pre.cells@[i].neighbors@.len() <= m2 < self.cells@[i].neighbors@.len()
                                && #[trigger] self.cells@[i].neighbors@[m2] == c.id implies c.neighbors@.contains((i + 1) as usize) by {
                            Self::lemma_contains_push(cn, (base + s + 1) as usize, (i + 1) as usize);
                        }
                        assert forall|mm: int|
                            0 <= mm < pnb@.len() && pnb@[mm] != pid && pre.present(pnb@[mm] as int) && adjacent_spec(
                                &c,
                                &pre.cell(pnb@[mm] as int),
                            ) implies c.neighbors@.contains(#[trigger] pnb@[mm]) by {
                            Self::lemma_contains_push(cn, (base + s + 1) as usize, pnb@[mm]);
                        }
                        assert forall|t: int|
                            0 <= t < c.neighbors@.len() && #[trigger] c.neighbors@[t] > base implies ids@.subrange(
                                0,
                                s + 1,
                            ).contains(c.neighbors@[t]) by {
                            Self::lemma_prefix_grow(ids@, s as int, c.neighbors@[t]);
                            if t < cn.len() {
                                assert(c.neighbors@[t] == cn[t]);
                            }
                        }
                    }
                } else {
                    proof {
                        assert forall|t: int|
                            0 <= t < c.neighbors@.len() && #[trigger] c.neighbors@[t] > base implies ids@.subrange(
                                0,
                                s + 1,
                            ).contains(c.neighbors@[t]) by {
                            Self::lemma_prefix_grow(ids@, s as int, c.neighbors@[t]);
                        }
                    }
                }
                s = s + 1;
            }
            let ghost before = *self;
            self.cells.push(c);
            self.place.push(Place::Active);
            self.dive.push(false);
            proof {
                self.lemma_push_child(&before, &pre, pid, childs@, ids@, pnb@, j as int, c);
            }
            j = j + 1;
        }
        let mut j: usize = 0;
        while j < n
            invariant
                self.registering(&pre, pid, childs@, ids@, pnb@, n as int),
                j <= n,
                n == childs@.len(),
                base == pre.len_spec(),
                self.cells@[pid - 1].childs@ == pre.cells@[pid - 1].childs@ + ids@.subrange(0, j as int),
            decreases n - j,
        {
            let ghost before = *self;
            self.cells[pid - 1].childs.push(ids[j]);
            proof {
                self.lemma_push_childs(&before, &pre, pid, childs@, ids@, pnb@, ids@[j as int]);
                assert(self.cells@[pid - 1].childs@ =~= pre.cells@[pid - 1].childs@ + ids@.subrange(0, j + 1));
            }
            j = j + 1;
        }
        proof {
            assert(ids@.subrange(0, n as int) =~= ids@);
            assert forall|jj: int, mm: int|
                0 <= jj < ids@.len() && 0 <= mm < pre.cell(pid as int).neighbors@.len() && {
                    let nb = pre.cell(pid as int).neighbors@[mm];
                    &&& nb != pid
                    &&& pre.present(nb as int)
                    &&& adjacent_spec(&self.cell(ids@[jj] as int), &pre.cell(nb as int))
                } implies #[trigger] self.cell(#[trigger] ids@[jj] as int).neighbors@.contains(
                    pre.cell(pid as int).neighbors@[mm],
                ) by {
                assert(ids@[jj] - 1 == base + jj);
                assert(pnb@[mm] == pre.cell(pid as int).neighbors@[mm]);
                assert(self.cells@[base + jj].neighbors@.contains(pnb@[mm]));
            }
            if pre.neighbors_symmetric() {
                self.lemma_registered_symmetric(&pre, pid, childs@, ids@, pnb@);
            }
            if pre.neighbors_distinct() {
                assert forall|i: int| self.valid_id(i) implies (#[trigger] self.cell(i)).neighbors@.no_duplicates() by {
                    assert(self.cell(i) == self.cells@[i - 1]);
                }
            }
        }
        ids
    }

}

} // verus!
