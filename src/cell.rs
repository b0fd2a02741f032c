//! One sample cell of the phase space: its footprint on the integer grid, its split
//! into quadrant children, adjacency, and the bookkeeping of its integration.
use vstd::prelude::*;

verus! {

/// Footprint under which two expired neighbours are no longer refined.
pub const SMALL_FOOTPRINT: u64 = 16;

/// The display colour of a cell.
#[derive(Clone, Copy, Debug, PartialEq, Eq, Structural)]
pub enum Color {
    /// Not coloured yet.
    White,
    /// A hue of `turn / period` of the full circle, at full saturation and value.
    Hue { turn: usize, period: usize },
    /// The neutral grey of a cell that ran out of steps.
    Gray,
}

/// One sample of the phase space: its place in the partition, its footprint on the
/// integer grid and where its integration stands. The angles and velocities of the
/// pendulum itself are kept by the integrator, under the same id.
#[derive(Debug)]
pub struct DoublePendulum {
    pub id: usize,
    pub parent_id: usize,
    pub childs: Vec<usize>,
    /// Anchor of the footprint.
    pub x: u64,
    pub y: u64,
    /// Half the side of the square footprint centred on the anchor.
    pub width: u64,
    pub neighbors: Vec<usize>,
    pub stopped: bool,
    pub expired: bool,
    pub steps: usize,
    pub color: Color,
}

/// Footprint of a cell `depth` halvings below the root of a domain `domain` wide.
pub open spec fn footprint_of(domain: nat, depth: nat) -> nat
    decreases depth,
{
    if depth == 0 {
        domain / 2
    } else {
        footprint_of(domain, (depth - 1) as nat) / 2
    }
}

/// Distance between two integers.
pub open spec fn abs_diff(a: int, b: int) -> int {
    if a >= b {
        a - b
    } else {
        b - a
    }
}

/// The footprints of `a` and `b` touch edge to edge: they overlap along one axis and
/// the gap along the other is the sum of their widths.
pub open spec fn adjacent_spec(a: &DoublePendulum, b: &DoublePendulum) -> bool {
    let w2 = a.width + b.width;
    let dx = abs_diff(a.x as int, b.x as int);
    let dy = abs_diff(a.y as int, b.y as int);
    (dx <= w2 && dy == w2) || (dy <= w2 && dx == w2)
}

/// The point lies strictly inside the footprint of `c`.
pub open spec fn inside_spec(c: &DoublePendulum, x: int, y: int) -> bool {
    &&& c.x - c.width < x < c.x + c.width
    &&& c.y - c.width < y < c.y + c.width
}

/// A cell at or below the minimum footprint, which is never split.
pub open spec fn is_leaf(c: &DoublePendulum, min_pixel: u64) -> bool {
    c.width <= min_pixel || c.width < 2
}

/// Anchors of the quadrant children of `c` that lie strictly inside the domain, in
/// the order upper-left, lower-left, upper-right, lower-right.
pub open spec fn child_anchors(c: &DoublePendulum, domain: u64, min_pixel: u64) -> Seq<(u64, u64)> {
    if is_leaf(c, min_pixel) {
        Seq::empty()
    } else {
        let d = c.width / 2;
        let lo_x = c.x > d;
        let lo_y = c.y > d;
        let hi_x = c.x + d < domain;
        let hi_y = c.y + d < domain;
        let q1: Seq<(u64, u64)> = if lo_x && lo_y {
            seq![((c.x - d) as u64, (c.y - d) as u64)]
        } else {
            Seq::empty()
        };
        let q2: Seq<(u64, u64)> = if lo_x && hi_y {
            seq![((c.x - d) as u64, (c.y + d) as u64)]
        } else {
            Seq::empty()
        };
        let q3: Seq<(u64, u64)> = if hi_x && lo_y {
            seq![((c.x + d) as u64, (c.y - d) as u64)]
        } else {
            Seq::empty()
        };
        let q4: Seq<(u64, u64)> = if hi_x && hi_y {
            seq![((c.x + d) as u64, (c.y + d) as u64)]
        } else {
            Seq::empty()
        };
        q1 + q2 + q3 + q4
    }
}

/// A freshly made child of `parent` anchored at `at`: unregistered, not integrated,
/// half the parent's width and the parent's colour.
pub open spec fn is_child_at(k: &DoublePendulum, parent: &DoublePendulum, at: (u64, u64)) -> bool {
    &&& k.x == at.0
    &&& k.y == at.1
    &&& k.width == parent.width / 2
    &&& k.color == parent.color
    &&& is_fresh(k)
}

/// A cell that has not been registered nor integrated.
pub open spec fn is_fresh(k: &DoublePendulum) -> bool {
    &&& k.id == 0
    &&& k.parent_id == 0
    &&& k.childs@.len() == 0
    &&& k.neighbors@.len() == 0
    &&& !k.stopped
    &&& !k.expired
    &&& k.steps == 0
}

/// How many integration steps a cell may take in a generation of `update_steps`
/// steps under a ceiling of `max_step`.
pub open spec fn budget_of(c: &DoublePendulum, update_steps: usize, max_step: usize) -> int {
    if c.stopped || c.steps >= max_step {
        0
    } else if update_steps <= max_step - c.steps {
        update_steps as int
    } else {
        max_step - c.steps
    }
}

/// A running cell reaches the step ceiling without flipping.
pub open spec fn expires(
    c: &DoublePendulum,
    update_steps: usize,
    max_step: usize,
    taken: usize,
    flipped: bool,
) -> bool {
    !c.stopped && !flipped && c.steps + taken >= max_step
}

/// The colour a cell takes when it stops.
pub open spec fn stop_color(c: &DoublePendulum, color_step: usize, color_mod: usize) -> Color {
    if c.expired {
        Color::Gray
    } else {
        Color::Hue { turn: ((c.steps * color_step) % (color_mod as int)) as usize, period: color_mod }
    }
}

impl DoublePendulum {
    /// A fresh cell anchored at `(x, y)` with footprint `width`.
    pub fn new(x: u64, y: u64, width: u64) -> (r: Self)
        ensures
            is_fresh(&r),
            r.x == x,
            r.y == y,
            r.width == width,
            r.color == Color::White,
    {
        DoublePendulum {
            id: 0,
            parent_id: 0,
            childs: Vec::new(),
            x,
            y,
            width,
            neighbors: Vec::new(),
            stopped: false,
            expired: false,
            steps: 0,
            color: Color::White,
        }
    }

    /// A fresh cell anchored at `(x, y)`, `depth` halvings below the root of a domain
    /// `domain_width` wide.
    pub fn new2(x: u64, y: u64, domain_width: u64, depth: u32) -> (r: Self)
        ensures
            is_fresh(&r),
            r.x == x,
            r.y == y,
            r.width == footprint_of(domain_width as nat, depth as nat),
            r.color == Color::White,
    {
        let mut w: u64 = domain_width / 2;
        let mut i: u32 = 0;
        while i < depth
            invariant
                i <= depth,
                w == footprint_of(domain_width as nat, i as nat),
            decreases depth - i,
        {
            w = w / 2;
            i = i + 1;
        }
        DoublePendulum::new(x, y, w)
    }

    /// Half the side of the footprint.
    pub fn width(&self) -> (r: u64)
        ensures
            r == self.width,
    {
        self.width
    }

    /// The footprints touch edge to edge.
    pub fn adjacent(&self, other: &DoublePendulum) -> (r: bool)
        ensures
            r == adjacent_spec(self, other),
    {
        let w2: u128 = self.width as u128 + other.width as u128;
        let dx: u128 = if self.x >= other.x {
            (self.x - other.x) as u128
        } else {
            (other.x - self.x) as u128
        };
        let dy: u128 = if self.y >= other.y {
            (self.y - other.y) as u128
        } else {
            (other.y - self.y) as u128
        };
        (dx <= w2 && dy == w2) || (dy <= w2 && dx == w2)
    }

    /// The point lies strictly inside the footprint.
    pub fn point_inside(&self, x: u64, y: u64) -> (r: bool)
        ensures
            r == inside_spec(self, x as int, y as int),
    {
        let w = self.width as u128;
        (x as u128) + w > self.x as u128 && (x as u128) < (self.x as u128) + w
            && (y as u128) + w > self.y as u128 && (y as u128) < (self.y as u128) + w
    }

    /// The quadrant children of a stopped cell: each half its width, anchored a
    /// quarter of its side away from its anchor, and only those strictly inside the
    /// domain. A cell narrower than `min_pixel` has none.
    pub fn split(&self, domain_width: u64, min_pixel: u64) -> (r: Vec<DoublePendulum>)
        requires
            self.stopped,
        ensures
            r@.len() == child_anchors(self, domain_width, min_pixel).len(),
            forall|i: int|
                0 <= i < r@.len() ==> is_child_at(
                    &#[trigger] r@[i],
                    self,
                    child_anchors(self, domain_width, min_pixel)[i],
                ),
            r@.len() <= 4,
            self.x <= domain_width && self.y <= domain_width ==> forall|i: int|
                0 <= i < r@.len() ==> 0 < (#[trigger] r@[i]).x < domain_width && 0 < r@[i].y
                    < domain_width,
    {
        let mut res: Vec<DoublePendulum> = Vec::new();
        if self.width <= min_pixel || self.width < 2 {
            return res;
        }
        let d = self.width / 2;
        let lo_x = self.x > d;
        let lo_y = self.y > d;
        let hi_x = (self.x as u128) + (d as u128) < domain_width as u128;
        let hi_y = (self.y as u128) + (d as u128) < domain_width as u128;
        if lo_x && lo_y {
            res.push(self.child_at(self.x - d, self.y - d));
        }
        if lo_x && hi_y {
            res.push(self.child_at(self.x - d, self.y + d));
        }
        if hi_x && lo_y {
            res.push(self.child_at(self.x + d, self.y - d));
        }
        if hi_x && hi_y {
            res.push(self.child_at(self.x + d, self.y + d));
        }
        proof {
            assert(res@ =~= res@);
        }
        res
    }

    fn child_at(&self, x: u64, y: u64) -> (r: DoublePendulum)
        ensures
            is_child_at(&r, self, (x, y)),
    {
        let mut c = DoublePendulum::new(x, y, self.width / 2);
        c.color = self.color;
        c
    }

    /// How many steps the integrator may take for this cell in a generation.
    pub fn step_budget(&self, update_steps: usize, max_step: usize) -> (r: usize)
        ensures
            r == budget_of(self, update_steps, max_step),
    {
        if self.stopped || self.steps >= max_step {
            0
        } else if update_steps <= max_step - self.steps {
            update_steps
        } else {
            max_step - self.steps
        }
    }

    /// Records a generation of integration: `taken` steps were made and `flipped`
    /// tells whether the last of them flipped the second arm over. A cell that
    /// reaches the step ceiling with steps of the generation left stops as expired.
    pub fn update(&mut self, update_steps: usize, max_step: usize, taken: usize, flipped: bool)
        requires
            taken <= budget_of(old(self), update_steps, max_step),
            flipped ==> taken > 0,
            !flipped ==> taken == budget_of(old(self), update_steps, max_step),
        ensures
            final(self).steps == old(self).steps + taken,
            final(self).stopped == (old(self).stopped || flipped || expires(
                old(self),
                update_steps,
                max_step,
                taken,
                flipped,
            )),
            final(self).expired == (old(self).expired || expires(
                old(self),
                update_steps,
                max_step,
                taken,
                flipped,
            )),
            old(self).stopped ==> final(self).stopped,
            (old(self).expired ==> old(self).stopped) ==> (final(self).expired ==> final(self).stopped),
            final(self).steps <= old(self).steps + update_steps,
            !final(self).stopped ==> final(self).steps == old(self).steps + update_steps,
            final(self).id == old(self).id,
            final(self).parent_id == old(self).parent_id,
            final(self).childs == old(self).childs,
            final(self).neighbors == old(self).neighbors,
            final(self).x == old(self).x,
            final(self).y == old(self).y,
            final(self).width == old(self).width,
            final(self).color == old(self).color,
    {
        let ends = !self.stopped && !flipped && self.steps + taken
            >= max_step;
        self.steps = self.steps + taken;
        if flipped || ends {
            self.stopped = true;
        }
        if ends {
            self.expired = true;
        }
    }

    /// Colours a stopped cell: grey when it expired, else a hue from its step count.
    pub fn update_color(&mut self, color_step: usize, color_mod: usize)
        requires
            color_mod > 0,
        ensures
            final(self).color == stop_color(old(self), color_step, color_mod),
            final(self).id == old(self).id,
            final(self).parent_id == old(self).parent_id,
            final(self).childs == old(self).childs,
            final(self).neighbors == old(self).neighbors,
            final(self).x == old(self).x,
            final(self).y == old(self).y,
            final(self).width == old(self).width,
            final(self).stopped == old(self).stopped,
            final(self).expired == old(self).expired,
            final(self).steps == old(self).steps,
    {
        if self.expired {
            self.color = Color::Gray;
        } else {
            proof {
                assert(self.steps * color_step <= u128::MAX) by (nonlinear_arith)
                    requires
                        self.steps <= usize::MAX,
                        color_step <= usize::MAX,
                ;
            }
            let p: u128 = (self.steps as u128) * (color_step as u128);
            let turn = (p % (color_mod as u128)) as usize;
            self.color = Color::Hue { turn, period: color_mod };
        }
    }
}

/// The root of a domain, anchored at its centre with half its width as footprint, has
/// all four quadrant children as long as it is above the minimum footprint.
pub proof fn lemma_root_has_four_children(c: &DoublePendulum, domain: u64, min_pixel: u64)
    requires
        domain >= 4,
        c.x == domain / 2,
        c.y == domain / 2,
        c.width == domain / 2,
        c.width > min_pixel,
    ensures
        child_anchors(c, domain, min_pixel).len() == 4,
{
}

/// Adjacency does not depend on the order of the two cells.
pub proof fn lemma_adjacent_symmetric(a: &DoublePendulum, b: &DoublePendulum)
    ensures
        adjacent_spec(a, b) == adjacent_spec(b, a),
{
}

} // verus!
