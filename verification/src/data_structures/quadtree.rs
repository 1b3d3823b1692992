//! A point-region quadtree over an axis-aligned rectangle of grid cells.
//!
//! Regions use half-open semantics: a region holds a cell `(x, y)` iff
//! `top_left.x <= x < top_left.x + width` and likewise for `y`. Splitting a
//! region floor-halves each dimension for the near half and gives the rest to
//! the far half, so the four quadrants tile the region exactly.

use crate::components::math::Size2i;
use crate::components::visuals::Point;
use vstd::multiset::Multiset;
use vstd::prelude::*;

verus! {

broadcast use vstd::seq_lib::group_to_multiset_ensures;

/// An axis-aligned rectangle of grid cells.
#[derive(Clone, Copy, Debug, PartialEq, Eq, Structural)]
pub struct Region {
    pub top_left: Point,
    pub size: Size2i,
}

/// The four quadrants produced by splitting a region.
#[derive(Clone, Copy, Debug, PartialEq, Eq, Structural)]
pub struct RegionSubset {
    pub ne: Region,
    pub nw: Region,
    pub se: Region,
    pub sw: Region,
}

impl RegionSubset {
    /// The quadrants in traversal order: NW, NE, SW, SE.
    pub fn to_array(&self) -> (quads: [Region; 4])
        ensures
            quads@ == seq![self.nw, self.ne, self.sw, self.se],
    {
        [self.nw, self.ne, self.sw, self.se]
    }
}

impl Region {
    /// A size that does not run past the edge of the coordinate space.
    pub open spec fn wf(self) -> bool {
        &&& 0 <= self.size.width
        &&& 0 <= self.size.height
        &&& self.top_left.x + self.size.width <= u32::MAX + 1
        &&& self.top_left.y + self.size.height <= u32::MAX + 1
    }

    /// Half-open containment of the cell `(x, y)`.
    pub open spec fn has_cell(self, x: int, y: int) -> bool {
        &&& self.top_left.x <= x < self.top_left.x + self.size.width
        &&& self.top_left.y <= y < self.top_left.y + self.size.height
    }

    /// Whether `self` and `other` share at least one cell.
    pub open spec fn spec_intersects(self, other: Region) -> bool {
        &&& 0 < self.size.width && 0 < self.size.height
        &&& 0 < other.size.width && 0 < other.size.height
        &&& self.top_left.x < other.top_left.x + other.size.width
        &&& other.top_left.x < self.top_left.x + self.size.width
        &&& self.top_left.y < other.top_left.y + other.size.height
        &&& other.top_left.y < self.top_left.y + self.size.height
    }

    /// The four quadrants: the near half of each dimension is floor-halved,
    /// the far half takes the remainder, so the quadrants tile the region.
    pub open spec fn spec_split(self) -> RegionSubset {
        let half_w = self.size.width as int / 2;
        let half_h = self.size.height as int / 2;
        let rest_w = self.size.width - half_w;
        let rest_h = self.size.height - half_h;
        let mid_x = self.top_left.x + half_w;
        let mid_y = self.top_left.y + half_h;
        RegionSubset {
            nw: Region {
                top_left: self.top_left,
                size: Size2i { width: half_w as i16, height: half_h as i16 },
            },
            ne: Region {
                top_left: Point { x: mid_x as u32, y: self.top_left.y },
                size: Size2i { width: rest_w as i16, height: half_h as i16 },
            },
            sw: Region {
                top_left: Point { x: self.top_left.x, y: mid_y as u32 },
                size: Size2i { width: half_w as i16, height: rest_h as i16 },
            },
            se: Region {
                top_left: Point { x: mid_x as u32, y: mid_y as u32 },
                size: Size2i { width: rest_w as i16, height: rest_h as i16 },
            },
        }
    }

    /// Whether `point` lies in this region (half-open on both axes).
    pub fn contains(&self, point: &Point) -> (r: bool)
        ensures
            r == self.has_cell(point.x as int, point.y as int),
    {
        self.size.width > 0 && self.size.height > 0 && point.x >= self.top_left.x && point.y
            >= self.top_left.y && (point.x as u64) < self.top_left.x as u64
            + self.size.width as u64 && (point.y as u64) < self.top_left.y as u64
            + self.size.height as u64
    }

    /// Whether every cell of `other` lies in `self`.
    pub fn is_subset(&self, other: &Region) -> (r: bool)
        requires
            self.wf(),
            other.wf(),
            1 <= other.size.width,
            1 <= other.size.height,
        ensures
            r == forall|x: int, y: int| other.has_cell(x, y) ==> self.has_cell(x, y),
    {
        if self == other {
            return true;
        }
        let contains_top_left = self.contains(&other.top_left);
        let bottom_right = Point {
            x: other.top_left.x + (other.size.width - 1) as u32,
            y: other.top_left.y + (other.size.height - 1) as u32,
        };
        let contains_bottom_right = self.contains(&bottom_right);
        proof {
            let ox = other.top_left.x as int;
            let oy = other.top_left.y as int;
            let bx = ox + other.size.width - 1;
            let by = oy + other.size.height - 1;
            if self.has_cell(ox, oy) && self.has_cell(bx, by) {
                assert forall|x: int, y: int| other.has_cell(x, y) implies self.has_cell(
                    x,
                    y,
                ) by {};
            } else {
                assert(other.has_cell(ox, oy) && other.has_cell(bx, by));
            }
        }
        contains_top_left && contains_bottom_right
    }

    /// Whether the two regions overlap on both axes.
    pub fn intersects(&self, other: &Region) -> (r: bool)
        ensures
            r == self.spec_intersects(*other),
    {
        if self.size.width <= 0 || self.size.height <= 0 || other.size.width <= 0
            || other.size.height <= 0 {
            return false;
        }
        let self_bottom_right_x: u64 = self.top_left.x as u64 + self.size.width as u64 - 1;
        let self_bottom_right_y: u64 = self.top_left.y as u64 + self.size.height as u64 - 1;
        let other_bottom_right_x: u64 = other.top_left.x as u64 + other.size.width as u64 - 1;
        let other_bottom_right_y: u64 = other.top_left.y as u64 + other.size.height as u64 - 1;
        (self.top_left.x as u64) <= other_bottom_right_x && self_bottom_right_x
            >= (other.top_left.x as u64) && (self.top_left.y as u64) <= other_bottom_right_y
            && self_bottom_right_y >= (other.top_left.y as u64)
    }

    /// Split this region into its four quadrants.
    pub fn split(&self) -> (quads: RegionSubset)
        requires
            self.wf(),
        ensures
            quads == self.spec_split(),
    {
        let half_w: i16 = self.size.width / 2;
        let half_h: i16 = self.size.height / 2;
        let rest_w: i16 = self.size.width - half_w;
        let rest_h: i16 = self.size.height - half_h;
        let mid_x: u32 = self.top_left.x + half_w as u32;
        let mid_y: u32 = self.top_left.y + half_h as u32;
        RegionSubset {
            nw: Region {
                top_left: self.top_left,
                size: Size2i { width: half_w, height: half_h },
            },
            ne: Region {
                top_left: Point { x: mid_x, y: self.top_left.y },
                size: Size2i { width: rest_w, height: half_h },
            },
            sw: Region {
                top_left: Point { x: self.top_left.x, y: mid_y },
                size: Size2i { width: half_w, height: rest_h },
            },
            se: Region {
                top_left: Point { x: mid_x, y: mid_y },
                size: Size2i { width: rest_w, height: rest_h },
            },
        }
    }
}

/// How many of the four quadrants hold the cell `(x, y)`.
pub open spec fn quadrant_cover_count(quads: RegionSubset, x: int, y: int) -> int {
    (if quads.nw.has_cell(x, y) {
        1int
    } else {
        0int
    }) + (if quads.ne.has_cell(x, y) {
        1int
    } else {
        0int
    }) + (if quads.sw.has_cell(x, y) {
        1int
    } else {
        0int
    }) + (if quads.se.has_cell(x, y) {
        1int
    } else {
        0int
    })
}

/// Tiling invariant: splitting a region covers each of its cells by exactly
/// one quadrant, and covers no cell outside the region. This holds for every
/// well-formed region, including odd dimensions and 1x1 regions.
pub proof fn lemma_split_tiles(region: Region, x: int, y: int)
    requires
        region.wf(),
    ensures
        region.has_cell(x, y) ==> quadrant_cover_count(region.spec_split(), x, y) == 1,
        !region.has_cell(x, y) ==> quadrant_cover_count(region.spec_split(), x, y) == 0,
{
}

/// Each quadrant of a split is itself a well-formed region.
pub proof fn lemma_split_quadrants_wf(region: Region)
    requires
        region.wf(),
    ensures
        region.spec_split().nw.wf(),
        region.spec_split().ne.wf(),
        region.spec_split().sw.wf(),
        region.spec_split().se.wf(),
{
}

/// When a region is splittable, each quadrant is strictly smaller by the sum
/// of its dimensions, which bounds the depth of the tree.
pub proof fn lemma_split_children_smaller(region: Region)
    requires
        region.wf(),
        splittable(region),
    ensures
        region.spec_split().nw.size.width + region.spec_split().nw.size.height < region.size.width
            + region.size.height,
        region.spec_split().ne.size.width + region.spec_split().ne.size.height < region.size.width
            + region.size.height,
        region.spec_split().sw.size.width + region.spec_split().sw.size.height < region.size.width
            + region.size.height,
        region.spec_split().se.size.width + region.spec_split().se.size.height < region.size.width
            + region.size.height,
{
}

/// Whether `p` lies in `r` (half-open on both axes).
pub open spec fn point_in_region(r: Region, p: Point) -> bool {
    r.has_cell(p.x as int, p.y as int)
}

/// Whether splitting `r` makes progress: at least one dimension still halves.
pub open spec fn splittable(r: Region) -> bool {
    2 <= r.size.width || 2 <= r.size.height
}

/// The points of `ps` that lie in `r`, in order.
pub open spec fn points_in(ps: Seq<Point>, r: Region) -> Seq<Point> {
    ps.filter(|p: Point| point_in_region(r, p))
}

/// Maximum number of points a splittable leaf holds before it subdivides.
pub const CAPACITY: usize = 4;

/// A recursive spatial container: a node stores its own points while it is a
/// leaf, and delegates to four quadrant children once it has split.
pub struct Quadtree {
    pub points: Vec<Point>,
    pub region: Region,
    pub subregions: Vec<Quadtree>,
}

impl Quadtree {
    /// Every point stored in this subtree: own points first, then the NW, NE,
    /// SW and SE children's points.
    pub open spec fn all_points(self) -> Seq<Point>
        decreases self,
    {
        if self.subregions@.len() == 4 {
            self.points@ + self.subregions@[0].all_points() + self.subregions@[1].all_points()
                + self.subregions@[2].all_points() + self.subregions@[3].all_points()
        } else {
            self.points@
        }
    }

    /// A node with no children.
    pub open spec fn is_leaf(self) -> bool {
        self.subregions@.len() == 0
    }

    /// No skew: every interior node is justified by its population, holding
    /// more points under it than a leaf could. Fresh trees have it, insertion
    /// keeps it, and `redistribute_points` restores it after removals.
    pub open spec fn balanced(self) -> bool
        decreases self,
    {
        if self.subregions@.len() == 4 {
            &&& CAPACITY < self.all_points().len()
            &&& self.subregions@[0].balanced()
            &&& self.subregions@[1].balanced()
            &&& self.subregions@[2].balanced()
            &&& self.subregions@[3].balanced()
        } else {
            true
        }
    }

    /// Structural invariant: points lie in the node's region, a splittable
    /// leaf is within capacity, and an interior node has exactly the four
    /// quadrant children of its region and no points of its own.
    pub open spec fn wf(self) -> bool
        decreases self,
    {
        &&& self.region.wf()
        &&& (forall|i: int|
            0 <= i < self.points@.len() ==> #[trigger] point_in_region(
                self.region,
                self.points@[i],
            ))
        &&& (self.subregions@.len() == 0 || self.subregions@.len() == 4)
        &&& (self.is_leaf() && splittable(self.region) ==> self.points@.len() <= CAPACITY)
        &&& (self.subregions@.len() == 4 ==> {
            let quads = self.region.spec_split();
            &&& self.points@.len() == 0
            &&& splittable(self.region)
            &&& self.subregions@[0].region == quads.nw
            &&& self.subregions@[1].region == quads.ne
            &&& self.subregions@[2].region == quads.sw
            &&& self.subregions@[3].region == quads.se
            &&& self.subregions@[0].wf()
            &&& self.subregions@[1].wf()
            &&& self.subregions@[2].wf()
            &&& self.subregions@[3].wf()
        })
    }
}

/// Filtering a sequence that grew by one point keeps the earlier selection
/// and appends the new point exactly when it lies in the region.
proof fn lemma_points_in_push(ps: Seq<Point>, p: Point, r: Region)
    ensures
        point_in_region(r, p) ==> points_in(ps.push(p), r) == points_in(ps, r).push(p),
        !point_in_region(r, p) ==> points_in(ps.push(p), r) == points_in(ps, r),
{
    reveal(Seq::filter);
    assert(ps.push(p).drop_last() =~= ps);
}

/// A sequence with no point inside `r` filters down to the empty sequence.
proof fn lemma_points_in_none(ps: Seq<Point>, r: Region)
    requires
        forall|i: int| 0 <= i < ps.len() ==> !point_in_region(r, #[trigger] ps[i]),
    ensures
        points_in(ps, r) == Seq::<Point>::empty(),
    decreases ps.len(),
{
    reveal(Seq::filter);
    if ps.len() > 0 {
        lemma_points_in_none(ps.drop_last(), r);
    }
}

/// Every point stored under a well-formed node lies in that node's region.
pub proof fn lemma_all_points_in_region(t: Quadtree)
    requires
        t.wf(),
    ensures
        forall|i: int|
            0 <= i < t.all_points().len() ==> point_in_region(t.region, #[trigger] t.all_points()[i]),
    decreases t,
{
    if t.subregions@.len() == 4 {
        lemma_all_points_in_region(t.subregions@[0]);
        lemma_all_points_in_region(t.subregions@[1]);
        lemma_all_points_in_region(t.subregions@[2]);
        lemma_all_points_in_region(t.subregions@[3]);
        let own = t.points@;
        let a0 = t.subregions@[0].all_points();
        let a1 = t.subregions@[1].all_points();
        let a2 = t.subregions@[2].all_points();
        let a3 = t.subregions@[3].all_points();
        assert forall|i: int| 0 <= i < t.all_points().len() implies point_in_region(
            t.region,
            #[trigger] t.all_points()[i],
        ) by {
            let p = t.all_points()[i];
            if i < own.len() {
                assert(p == own[i]);
            } else if i < own.len() + a0.len() {
                assert(p == a0[i - own.len()]);
                assert(point_in_region(t.subregions@[0].region, p));
                lemma_split_tiles(t.region, p.x as int, p.y as int);
            } else if i < own.len() + a0.len() + a1.len() {
                assert(p == a1[i - own.len() - a0.len()]);
                assert(point_in_region(t.subregions@[1].region, p));
                lemma_split_tiles(t.region, p.x as int, p.y as int);
            } else if i < own.len() + a0.len() + a1.len() + a2.len() {
                assert(p == a2[i - own.len() - a0.len() - a1.len()]);
                assert(point_in_region(t.subregions@[2].region, p));
                lemma_split_tiles(t.region, p.x as int, p.y as int);
            } else {
                assert(p == a3[i - own.len() - a0.len() - a1.len() - a2.len()]);
                assert(point_in_region(t.subregions@[3].region, p));
                lemma_split_tiles(t.region, p.x as int, p.y as int);
            }
        }
    }
}

/// A query region that does not intersect a node's region selects none of the
/// points stored under that node.
proof fn lemma_points_in_outside(t: Quadtree, r: Region)
    requires
        t.wf(),
        !t.region.spec_intersects(r),
    ensures
        points_in(t.all_points(), r) == Seq::<Point>::empty(),
{
    lemma_all_points_in_region(t);
    assert forall|i: int| 0 <= i < t.all_points().len() implies !point_in_region(
        r,
        #[trigger] t.all_points()[i],
    ) by {
        assert(point_in_region(t.region, t.all_points()[i]));
    }
    lemma_points_in_none(t.all_points(), r);
}

impl Quadtree {
    /// An empty leaf over the region with the given corner and size.
    pub fn new(top_left: Point, size: Size2i) -> (t: Quadtree)
        requires
            (Region { top_left, size }).wf(),
        ensures
            t.wf(),
            t.region == (Region { top_left, size }),
            t.is_leaf(),
            t.balanced(),
            t.all_points() == Seq::<Point>::empty(),
    {
        let t = Quadtree { points: Vec::new(), region: Region { top_left, size }, subregions: Vec::new() };
        proof {
            assert(t.all_points() =~= Seq::<Point>::empty());
        }
        t
    }

    /// Drop all points and children, returning to the empty-leaf state.
    pub fn clear(&mut self)
        ensures
            final(self).region == old(self).region,
            final(self).is_leaf(),
            final(self).balanced(),
            final(self).wf() <==> old(self).region.wf(),
            final(self).all_points() == Seq::<Point>::empty(),
    {
        self.points.clear();
        self.subregions.clear();
        proof {
            assert(self.all_points() =~= Seq::<Point>::empty());
        }
    }

    /// All stored points that lie in `region`, pruned by intersection: a
    /// subtree is visited only when its region overlaps the query.
    #[verifier::loop_isolation(false)]
    pub fn query_region(&self, region: &Region) -> (found: Vec<Point>)
        requires
            self.wf(),
        ensures
            found@ == points_in(self.all_points(), *region),
        decreases self.region.size.width + self.region.size.height,
    {
        let mut found: Vec<Point> = Vec::new();

        if !self.region.intersects(region) {
            proof {
                lemma_points_in_outside(*self, *region);
            }
            return found;
        }
        let mut i: usize = 0;
        while i < self.points.len()
            invariant
                i <= self.points.len(),
                found@ == points_in(self.points@.take(i as int), *region),
            decreases self.points.len() - i,
        {
            proof {
                assert(self.points@.take(i + 1) =~= self.points@.take(i as int).push(
                    self.points@[i as int],
                ));
                lemma_points_in_push(self.points@.take(i as int), self.points@[i as int], *region);
            }
            if region.contains(&self.points[i]) {
                found.push(self.points[i]);
            }
            i += 1;
        }
        proof {
            assert(self.points@.take(self.points@.len() as int) =~= self.points@);
        }
        if self.subregions.len() == 0 {
            return found;
        }
        proof {
            lemma_split_children_smaller(self.region);
        }
        let mut found_nw = self.subregions[0].query_region(region);
        found.append(&mut found_nw);
        let mut found_ne = self.subregions[1].query_region(region);
        found.append(&mut found_ne);
        let mut found_sw = self.subregions[2].query_region(region);
        found.append(&mut found_sw);
        let mut found_se = self.subregions[3].query_region(region);
        found.append(&mut found_se);
        proof {
            assert(found@ == points_in(self.all_points(), *region));
        }
        found
    }

    /// Replace the (empty) child list with four fresh leaves over the
    /// quadrants of this node's region. Splitting a node that is not just
    /// past capacity is a contract violation.
    fn split_into_subregions(&mut self)
        requires
            old(self).region.wf(),
            old(self).subregions@.len() == 0,
            old(self).points@.len() == CAPACITY + 1,
        ensures
            final(self).points == old(self).points,
            final(self).region == old(self).region,
            final(self).subregions@.len() == 4,
            final(self).subregions@[0].region == old(self).region.spec_split().nw,
            final(self).subregions@[1].region == old(self).region.spec_split().ne,
            final(self).subregions@[2].region == old(self).region.spec_split().sw,
            final(self).subregions@[3].region == old(self).region.spec_split().se,
            final(self).subregions@[0].wf() && final(self).subregions@[0].is_leaf()
                && final(self).subregions@[0].all_points() == Seq::<Point>::empty(),
            final(self).subregions@[1].wf() && final(self).subregions@[1].is_leaf()
                && final(self).subregions@[1].all_points() == Seq::<Point>::empty(),
            final(self).subregions@[2].wf() && final(self).subregions@[2].is_leaf()
                && final(self).subregions@[2].all_points() == Seq::<Point>::empty(),
            final(self).subregions@[3].wf() && final(self).subregions@[3].is_leaf()
                && final(self).subregions@[3].all_points() == Seq::<Point>::empty(),
    {
        proof {
            lemma_split_quadrants_wf(self.region);
        }
        let quads = self.region.split();
        let mut subs: Vec<Quadtree> = Vec::new();
        subs.push(Quadtree::new(quads.nw.top_left, quads.nw.size));
        subs.push(Quadtree::new(quads.ne.top_left, quads.ne.size));
        subs.push(Quadtree::new(quads.sw.top_left, quads.sw.size));
        subs.push(Quadtree::new(quads.se.top_left, quads.se.size));
        self.subregions = subs;
    }

    /// Push every point held by this node down into the child whose quadrant
    /// contains it; the tiling invariant guarantees exactly one does.
    #[verifier::loop_isolation(false)]
    fn move_points_to_subregions(&mut self)
        requires
            old(self).region.wf(),
            splittable(old(self).region),
            old(self).subregions@.len() == 4,
            old(self).subregions@[0].region == old(self).region.spec_split().nw,
            old(self).subregions@[1].region == old(self).region.spec_split().ne,
            old(self).subregions@[2].region == old(self).region.spec_split().sw,
            old(self).subregions@[3].region == old(self).region.spec_split().se,
            old(self).subregions@[0].wf(),
            old(self).subregions@[1].wf(),
            old(self).subregions@[2].wf(),
            old(self).subregions@[3].wf(),
            old(self).subregions@[0].balanced(),
            old(self).subregions@[1].balanced(),
            old(self).subregions@[2].balanced(),
            old(self).subregions@[3].balanced(),
            forall|i: int|
                0 <= i < old(self).points@.len() ==> #[trigger] point_in_region(
                    old(self).region,
                    old(self).points@[i],
                ),
        ensures
            final(self).wf(),
            final(self).region == old(self).region,
            final(self).subregions@.len() == 4,
            final(self).points@.len() == 0,
            final(self).all_points().to_multiset() == old(self).all_points().to_multiset(),
            CAPACITY < old(self).all_points().len() ==> final(self).balanced(),
        decreases old(self).region.size.width + old(self).region.size.height, 0int,
    {
        while self.points.len() > 0
            invariant
                self.region.wf(),
                splittable(self.region),
                self.region == old(self).region,
                self.subregions@.len() == 4,
                self.subregions@[0].region == self.region.spec_split().nw,
                self.subregions@[1].region == self.region.spec_split().ne,
                self.subregions@[2].region == self.region.spec_split().sw,
                self.subregions@[3].region == self.region.spec_split().se,
                self.subregions@[0].wf(),
                self.subregions@[1].wf(),
                self.subregions@[2].wf(),
                self.subregions@[3].wf(),
                self.subregions@[0].balanced(),
                self.subregions@[1].balanced(),
                self.subregions@[2].balanced(),
                self.subregions@[3].balanced(),
                forall|i: int|
                    0 <= i < self.points@.len() ==> #[trigger] point_in_region(
                        self.region,
                        self.points@[i],
                    ),
                self.all_points().to_multiset() == old(self).all_points().to_multiset(),
            decreases self.points.len(),
        {
            let ghost pre = *self;
            let p = self.points.pop().unwrap();
            let ghost mid = *self;
            proof {
                assert(pre.points@ =~= mid.points@.push(p));
                assert(pre.all_points().to_multiset() == mid.all_points().to_multiset().insert(p))
                    by {
                    assert(pre.all_points() =~= mid.all_points().push(p)
                        || pre.all_points() =~= pre.points@ + mid.subregions@[0].all_points()
                        + mid.subregions@[1].all_points() + mid.subregions@[2].all_points()
                        + mid.subregions@[3].all_points());
                    lemma_pop_front_multiset(
                        mid.points@,
                        p,
                        mid.subregions@[0].all_points(),
                        mid.subregions@[1].all_points(),
                        mid.subregions@[2].all_points(),
                        mid.subregions@[3].all_points(),
                    );
                }
                lemma_split_tiles(self.region, p.x as int, p.y as int);
                lemma_split_children_smaller(self.region);
            }
            if self.subregions[0].region.contains(&p) {
                let child = &mut self.subregions[0];
                child.insert_point(p);
                proof {
                    lemma_child_insert_multiset(mid, *self, 0, p);
                }
            } else if self.subregions[1].region.contains(&p) {
                let child = &mut self.subregions[1];
                child.insert_point(p);
                proof {
                    lemma_child_insert_multiset(mid, *self, 1, p);
                }
            } else if self.subregions[2].region.contains(&p) {
                let child = &mut self.subregions[2];
                child.insert_point(p);
                proof {
                    lemma_child_insert_multiset(mid, *self, 2, p);
                }
            } else {
                proof {
                    assert(pre.points@[pre.points@.len() - 1] == p);
                    assert(point_in_region(pre.region, p));
                    assert(point_in_region(self.subregions@[3].region, p));
                }
                let child = &mut self.subregions[3];
                child.insert_point(p);
                proof {
                    lemma_child_insert_multiset(mid, *self, 3, p);
                }
            }
        }
        proof {
            if CAPACITY < old(self).all_points().len() {
                assert(self.all_points().len() == old(self).all_points().len()) by {
                    assert(self.all_points().to_multiset().len() == old(
                        self,
                    ).all_points().to_multiset().len());
                }
                assert(self.balanced());
            }
        }
    }

    /// Store `point` if it lies in this node's region: a leaf within capacity
    /// appends it; a splittable leaf at capacity subdivides and pushes all of
    /// its points down; an interior node delegates to the quadrant child that
    /// contains the point. Points outside the region are silently ignored.
    pub fn insert_point(&mut self, point: Point)
        requires
            old(self).wf(),
        ensures
            final(self).wf(),
            final(self).region == old(self).region,
            point_in_region(old(self).region, point) ==> final(self).all_points().to_multiset()
                == old(self).all_points().to_multiset().insert(point),
            !point_in_region(old(self).region, point) ==> *final(self) == *old(self),
            (point_in_region(old(self).region, point) && old(self).is_leaf()
                && old(self).points@.len() < CAPACITY) ==> (final(self).is_leaf()
                && final(self).points@ == old(self).points@.push(point)),
            (point_in_region(old(self).region, point) && old(self).is_leaf()
                && old(self).points@.len() >= CAPACITY && splittable(old(self).region))
                ==> (final(self).subregions@.len() == 4 && final(self).points@.len() == 0),
            !old(self).is_leaf() ==> !final(self).is_leaf(),
            (old(self).is_leaf() && !splittable(old(self).region)) ==> final(self).is_leaf(),
            old(self).balanced() ==> final(self).balanced(),
        decreases old(self).region.size.width + old(self).region.size.height, 1int,
    {
        if !self.region.contains(&point) {
            return ;
        }
        if self.subregions.len() == 0 {
            self.points.push(point);
            if self.points.len() > CAPACITY && (self.region.size.width >= 2
                || self.region.size.height >= 2) {
                let ghost pushed = *self;
                self.split_into_subregions();
                proof {
                    assert(self.all_points() =~= self.points@);
                    assert(self.all_points().to_multiset() == pushed.all_points().to_multiset());
                    assert(self.subregions@[0].balanced());
                    assert(self.subregions@[1].balanced());
                    assert(self.subregions@[2].balanced());
                    assert(self.subregions@[3].balanced());
                    assert(CAPACITY < self.all_points().len());
                }
                self.move_points_to_subregions();
            } else {
                proof {
                    assert(self.balanced());
                }
            }
        } else {
            proof {
                lemma_split_tiles(self.region, point.x as int, point.y as int);
                lemma_split_children_smaller(self.region);
            }
            let ghost pre = *self;
            if self.subregions[0].region.contains(&point) {
                let child = &mut self.subregions[0];
                child.insert_point(point);
                proof {
                    lemma_child_insert_multiset(pre, *self, 0, point);
                    if pre.balanced() {
                        vstd::multiset::lemma_insert_len(
                            pre.all_points().to_multiset(),
                            point,
                        );
                        assert(self.balanced());
                    }
                }
            } else if self.subregions[1].region.contains(&point) {
                let child = &mut self.subregions[1];
                child.insert_point(point);
                proof {
                    lemma_child_insert_multiset(pre, *self, 1, point);
                    if pre.balanced() {
                        vstd::multiset::lemma_insert_len(
                            pre.all_points().to_multiset(),
                            point,
                        );
                        assert(self.balanced());
                    }
                }
            } else if self.subregions[2].region.contains(&point) {
                let child = &mut self.subregions[2];
                child.insert_point(point);
                proof {
                    lemma_child_insert_multiset(pre, *self, 2, point);
                    if pre.balanced() {
                        vstd::multiset::lemma_insert_len(
                            pre.all_points().to_multiset(),
                            point,
                        );
                        assert(self.balanced());
                    }
                }
            } else {
                let child = &mut self.subregions[3];
                child.insert_point(point);
                proof {
                    lemma_child_insert_multiset(pre, *self, 3, point);
                    if pre.balanced() {
                        vstd::multiset::lemma_insert_len(
                            pre.all_points().to_multiset(),
                            point,
                        );
                        assert(self.balanced());
                    }
                }
            }
        }
    }

    /// Remove every stored copy of `point` from each node along the path of
    /// regions that contain it. Children are never merged back: the tree's
    /// shape, node for node, survives the removal.
    #[verifier::loop_isolation(false)]
    pub fn remove_point(&mut self, point: Point)
        requires
            old(self).wf(),
        ensures
            final(self).wf(),
            final(self).region == old(self).region,
            final(self).is_leaf() == old(self).is_leaf(),
            final(self).all_points() == points_without(old(self).all_points(), point),
            !point_in_region(old(self).region, point) ==> *final(self) == *old(self),
            removal_shape(*old(self), *final(self), point),
        decreases old(self).region.size.width + old(self).region.size.height,
    {
        if !self.region.contains(&point) {
            proof {
                lemma_all_points_in_region(*self);
                assert forall|i: int| 0 <= i < self.all_points().len() implies self.all_points()[i]
                    != point by {
                    assert(point_in_region(self.region, self.all_points()[i]));
                }
                lemma_points_without_absent(self.all_points(), point);
            }
            return ;
        }
        let ghost entry = *self;
        let mut kept: Vec<Point> = Vec::new();
        let mut i: usize = 0;
        while i < self.points.len()
            invariant
                i <= self.points.len(),
                kept@ == points_without(self.points@.take(i as int), point),
            decreases self.points.len() - i,
        {
            proof {
                assert(self.points@.take(i + 1) =~= self.points@.take(i as int).push(
                    self.points@[i as int],
                ));
                lemma_points_without_push(self.points@.take(i as int), self.points@[i as int], point);
            }
            if self.points[i] != point {
                kept.push(self.points[i]);
            }
            i += 1;
        }
        proof {
            assert(self.points@.take(self.points@.len() as int) =~= self.points@);
            lemma_points_without_in_region(self.points@, point, self.region);
        }
        self.points = kept;
        if self.subregions.len() == 0 {
            return ;
        }
        proof {
            lemma_split_children_smaller(self.region);
        }
        let child = &mut self.subregions[0];
        child.remove_point(point);
        let child = &mut self.subregions[1];
        child.remove_point(point);
        let child = &mut self.subregions[2];
        child.remove_point(point);
        let child = &mut self.subregions[3];
        child.remove_point(point);
        proof {
            assert(self.all_points() == points_without(entry.all_points(), point));
            assert(removal_shape(entry, *self, point));
        }
    }

    /// The total number of stored points, saturating at the largest count the
    /// machine can represent.
    pub fn size(&self) -> (n: usize)
        requires
            self.wf(),
        ensures
            n == self.all_points().len() || (n == usize::MAX && self.all_points().len()
                >= usize::MAX),
        decreases self.region.size.width + self.region.size.height,
    {
        let mut n: usize = self.points.len();
        if self.subregions.len() == 0 {
            return n;
        }
        proof {
            lemma_split_children_smaller(self.region);
        }
        n = n.saturating_add(self.subregions[0].size());
        n = n.saturating_add(self.subregions[1].size());
        n = n.saturating_add(self.subregions[2].size());
        n = n.saturating_add(self.subregions[3].size());
        n
    }

    /// Flatten the subtree's points into one list: the children's points in
    /// NW, NE, SW, SE order, then this node's own points.
    #[verifier::loop_isolation(false)]
    pub fn collect(&self) -> (c: Vec<Point>)
        requires
            self.wf(),
        ensures
            c@.to_multiset() == self.all_points().to_multiset(),
        decreases self.region.size.width + self.region.size.height,
    {
        broadcast use vstd::seq_lib::lemma_multiset_commutative;

        let mut c: Vec<Point> = Vec::new();
        if self.subregions.len() == 4 {
            proof {
                lemma_split_children_smaller(self.region);
            }
            let mut part = self.subregions[0].collect();
            c.append(&mut part);
            let mut part = self.subregions[1].collect();
            c.append(&mut part);
            let mut part = self.subregions[2].collect();
            c.append(&mut part);
            let mut part = self.subregions[3].collect();
            c.append(&mut part);
        }
        let ghost base = c@;
        let mut i: usize = 0;
        while i < self.points.len()
            invariant
                i <= self.points.len(),
                c@ == base + self.points@.take(i as int),
            decreases self.points.len() - i,
        {
            proof {
                assert(self.points@.take(i + 1) =~= self.points@.take(i as int).push(
                    self.points@[i as int],
                ));
            }
            c.push(self.points[i]);
            i += 1;
        }
        proof {
            assert(self.points@.take(self.points@.len() as int) =~= self.points@);
            assert(c@.to_multiset() =~= self.all_points().to_multiset());
        }
        c
    }

    /// Placeholder maintenance pass: deciding when a subtree is skewed enough
    /// to redistribute is left open, so this never changes the tree.
    pub fn balance(&mut self)
        ensures
            *final(self) == *old(self),
    {
        if self.subregions.len() == 0 {
            return ;
        }
    }

    /// Rebuild the subtree from scratch: gather every stored point, reset to
    /// an empty leaf, and reinsert them through the normal insertion path.
    /// This corrects skew left by removals: the rebuilt root is subdivided
    /// exactly when the reinserted points overflow a splittable leaf, so in
    /// particular a sparse interior tree collapses back to a single leaf.
    #[verifier::loop_isolation(false)]
    pub fn redistribute_points(&mut self)
        requires
            old(self).wf(),
        ensures
            final(self).wf(),
            final(self).region == old(self).region,
            final(self).all_points().to_multiset() == old(self).all_points().to_multiset(),
            final(self).is_leaf() <==> (old(self).all_points().len() <= CAPACITY || !splittable(
                old(self).region,
            )),
            final(self).balanced(),
    {
        let points = self.collect();
        proof {
            lemma_all_points_in_region(*self);
            assert forall|i: int| 0 <= i < points@.len() implies point_in_region(
                self.region,
                #[trigger] points@[i],
            ) by {
                assert(points@.to_multiset().count(points@[i]) > 0);
                assert(self.all_points().contains(points@[i]));
                let j = choose|j: int|
                    0 <= j < self.all_points().len() && self.all_points()[j] == points@[i];
                assert(point_in_region(self.region, self.all_points()[j]));
            }
            assert(points@.len() == points@.to_multiset().len());
            assert(old(self).all_points().len() == old(self).all_points().to_multiset().len());
        }
        self.points.clear();
        self.subregions.clear();
        proof {
            assert(self.all_points() =~= Seq::<Point>::empty());
            assert(self.all_points().to_multiset() =~= points@.take(0).to_multiset());
            assert(self.balanced());
        }
        let mut i: usize = 0;
        while i < points.len()
            invariant
                i <= points.len(),
                self.wf(),
                self.balanced(),
                self.region == old(self).region,
                self.all_points().to_multiset() == points@.take(i as int).to_multiset(),
                !splittable(self.region) ==> self.is_leaf(),
                (splittable(self.region) && i <= CAPACITY) ==> (self.is_leaf()
                    && self.points@.len() == i),
                (splittable(self.region) && i > CAPACITY) ==> !self.is_leaf(),
            decreases points.len() - i,
        {
            proof {
                assert(points@.take(i + 1) =~= points@.take(i as int).push(points@[i as int]));
                assert(point_in_region(self.region, points@[i as int]));
            }
            self.insert_point(points[i]);
            i += 1;
        }
        proof {
            assert(points@.take(points@.len() as int) =~= points@);
        }
    }
}

/// The points of `ps` other than `x`, in order.
pub open spec fn points_without(ps: Seq<Point>, x: Point) -> Seq<Point> {
    ps.filter(|q: Point| q != x)
}

/// How removing `p` may change a subtree. A node whose region does not hold
/// `p` is untouched; every other node keeps its region and all of its
/// children — none merged away, none added — and only drops the copies of
/// `p` from its own point list, with each child changed the same way.
pub open spec fn removal_shape(before: Quadtree, after: Quadtree, p: Point) -> bool
    decreases before,
{
    if !point_in_region(before.region, p) {
        after == before
    } else {
        &&& after.region == before.region
        &&& after.points@ == points_without(before.points@, p)
        &&& after.subregions@.len() == before.subregions@.len()
        &&& (before.subregions@.len() == 4 ==> {
            &&& removal_shape(before.subregions@[0], after.subregions@[0], p)
            &&& removal_shape(before.subregions@[1], after.subregions@[1], p)
            &&& removal_shape(before.subregions@[2], after.subregions@[2], p)
            &&& removal_shape(before.subregions@[3], after.subregions@[3], p)
        })
        &&& (before.subregions@.len() != 4 ==> after.subregions@ == before.subregions@)
    }
}

/// Removing a point that occurs nowhere in a sequence leaves it unchanged.
proof fn lemma_points_without_absent(ps: Seq<Point>, x: Point)
    requires
        forall|i: int| 0 <= i < ps.len() ==> ps[i] != x,
    ensures
        points_without(ps, x) == ps,
    decreases ps.len(),
{
    reveal(Seq::filter);
    if ps.len() > 0 {
        lemma_points_without_absent(ps.drop_last(), x);
        assert(points_without(ps, x) =~= ps);
    }
}

/// Filtering a sequence that grew by one point keeps the earlier removals and
/// appends the new point exactly when it differs from the removed one.
proof fn lemma_points_without_push(ps: Seq<Point>, p: Point, x: Point)
    ensures
        p != x ==> points_without(ps.push(p), x) == points_without(ps, x).push(p),
        p == x ==> points_without(ps.push(p), x) == points_without(ps, x),
{
    reveal(Seq::filter);
    assert(ps.push(p).drop_last() =~= ps);
}

/// Every survivor of a removal was already in the sequence, so it stays
/// inside any region that held all of them.
proof fn lemma_points_without_in_region(ps: Seq<Point>, x: Point, r: Region)
    requires
        forall|i: int| 0 <= i < ps.len() ==> point_in_region(r, #[trigger] ps[i]),
    ensures
        forall|i: int|
            0 <= i < points_without(ps, x).len() ==> point_in_region(
                r,
                #[trigger] points_without(ps, x)[i],
            ),
    decreases ps.len(),
{
    reveal(Seq::filter);
    if ps.len() > 0 {
        lemma_points_without_in_region(ps.drop_last(), x, r);
        assert forall|i: int| 0 <= i < points_without(ps, x).len() implies point_in_region(
            r,
            #[trigger] points_without(ps, x)[i],
        ) by {
            let kept = points_without(ps.drop_last(), x);
            if i < kept.len() {
                assert(points_without(ps, x)[i] == kept[i]);
            } else {
                assert(points_without(ps, x)[i] == ps.last());
            }
        }
    }
}

/// A region selects some point of a sequence iff one of its members lies in
/// the region.
pub proof fn lemma_points_in_nonempty(ps: Seq<Point>, r: Region)
    ensures
        points_in(ps, r).len() > 0 <==> exists|i: int|
            0 <= i < ps.len() && point_in_region(r, #[trigger] ps[i]),
    decreases ps.len(),
{
    reveal(Seq::filter);
    if ps.len() > 0 {
        lemma_points_in_nonempty(ps.drop_last(), r);
        if point_in_region(r, ps.last()) {
            assert(point_in_region(r, ps[ps.len() - 1]));
        } else if points_in(ps, r).len() > 0 {
            let i = choose|i: int|
                0 <= i < ps.drop_last().len() && point_in_region(r, #[trigger] ps.drop_last()[i]);
            if points_in(ps.drop_last(), r).len() > 0 {
                assert(point_in_region(r, ps[i]));
            }
        } else {
            if exists|i: int| 0 <= i < ps.len() && point_in_region(r, #[trigger] ps[i]) {
                let i = choose|i: int| 0 <= i < ps.len() && point_in_region(r, #[trigger] ps[i]);
                assert(i < ps.len() - 1);
                assert(point_in_region(r, ps.drop_last()[i]));
            }
        }
    }
}

/// The copies of points in `ms` that lie in `r`.
pub open spec fn multiset_in(ms: Multiset<Point>, r: Region) -> Multiset<Point> {
    ms.filter(|p: Point| point_in_region(r, p))
}

/// Filtering a point sequence by a region and then counting copies is the
/// same as filtering the counted copies.
proof fn lemma_points_in_to_multiset(stored: Seq<Point>, q: Region)
    ensures
        points_in(stored, q).to_multiset() == multiset_in(stored.to_multiset(), q),
    decreases stored.len(),
{
    reveal(Seq::filter);
    if stored.len() == 0 {
        assert(points_in(stored, q).to_multiset() =~= multiset_in(stored.to_multiset(), q));
    } else {
        lemma_points_in_to_multiset(stored.drop_last(), q);
        assert(stored =~= stored.drop_last().push(stored.last()));
        assert(points_in(stored, q).to_multiset() =~= multiset_in(stored.to_multiset(), q));
    }
}

/// Insert/query agreement. `insert_point` ensures that each insert of an
/// in-region point adds exactly one copy of it to the stored multiset, and
/// `query_region` ensures that a query returns the stored sequence filtered
/// by the query region. This law closes the loop: the returned multiset is
/// exactly the stored multiset restricted to the query region, so no matter
/// how many splits occurred, a query returns exactly the inserted points that
/// lie in the query region — none lost, none duplicated.
pub proof fn lemma_insert_query_agreement(t: Quadtree, q: Region)
    requires
        t.wf(),
    ensures
        points_in(t.all_points(), q).to_multiset() == multiset_in(t.all_points().to_multiset(), q),
{
    lemma_points_in_to_multiset(t.all_points(), q);
}

/// Popping the last own point of an interior list removes exactly one copy of
/// it from the node's combined point multiset.
proof fn lemma_pop_front_multiset(
    own: Seq<Point>,
    p: Point,
    a0: Seq<Point>,
    a1: Seq<Point>,
    a2: Seq<Point>,
    a3: Seq<Point>,
)
    ensures
        (own.push(p) + a0 + a1 + a2 + a3).to_multiset() == (own + a0 + a1 + a2
            + a3).to_multiset().insert(p),
{
    broadcast use vstd::seq_lib::lemma_multiset_commutative;

    assert((own.push(p) + a0 + a1 + a2 + a3).to_multiset() =~= (own + a0 + a1 + a2
        + a3).to_multiset().insert(p));
}

/// Updating one child so that its point multiset gains `p`, while the other
/// children and the own list stay put, makes the node's multiset gain `p`.
proof fn lemma_child_insert_multiset(t1: Quadtree, t2: Quadtree, k: int, p: Point)
    requires
        t1.subregions@.len() == 4,
        t2.subregions@.len() == 4,
        0 <= k < 4,
        t2.points@ == t1.points@,
        forall|j: int| 0 <= j < 4 && j != k ==> t2.subregions@[j] == t1.subregions@[j],
        t2.subregions@[k].all_points().to_multiset() == t1.subregions@[
            k
        ].all_points().to_multiset().insert(p),
    ensures
        t2.all_points().to_multiset() == t1.all_points().to_multiset().insert(p),
{
    broadcast use vstd::seq_lib::lemma_multiset_commutative;

    assert(t2.all_points().to_multiset() =~= t1.all_points().to_multiset().insert(p));
}

} // verus!
