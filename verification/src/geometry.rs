//! Vectors, axis-aligned boxes and the block ranges that boxes touch.
use crate::coord::Coord;
use vstd::prelude::*;

verus! {

/// A horizontal position: chunk column `x` and `z` (held in `y`).
#[derive(Clone, Copy, Debug, PartialEq, Eq, Structural, Hash, PartialOrd, Ord)]
pub struct Vector2 {
    pub x: i32,
    pub y: i32,
}

impl Vector2 {
    pub fn new(x: i32, y: i32) -> (v: Vector2)
        ensures
            v == (Vector2 { x, y }),
    {
        Vector2 { x, y }
    }
}

/// A position or an extent in the world.
#[derive(Clone, Copy, Debug)]
pub struct Vector3 {
    pub x: Coord,
    pub y: Coord,
    pub z: Coord,
}

impl PartialEq for Vector3 {
    fn eq(&self, other: &Vector3) -> (r: bool) {
        self.x == other.x && self.y == other.y && self.z == other.z
    }
}

impl vstd::std_specs::cmp::PartialEqSpecImpl for Vector3 {
    open spec fn obeys_eq_spec() -> bool {
        true
    }

    open spec fn eq_spec(&self, other: &Vector3) -> bool {
        self.equals(*other)
    }
}

impl Vector3 {
    /// The coordinates are equal as numbers.
    pub open spec fn equals(self, other: Vector3) -> bool {
        self.x.equals(other.x) && self.y.equals(other.y) && self.z.equals(other.z)
    }

    pub fn new(x: Coord, y: Coord, z: Coord) -> (v: Vector3)
        ensures
            v == (Vector3 { x, y, z }),
    {
        Vector3 { x, y, z }
    }
}

/// `r` is the square of the distance between two coordinates.
#[verifier::opaque]
pub open spec fn gap_squares_to(a: Coord, b: Coord, r: Coord) -> bool {
    exists|gap: Coord| #[trigger] a.adds_to(b.negation(), gap) && gap.multiplies_to(gap, r)
}

impl Vector3 {
    /// `r` is the square of the distance to `other`: the squares of the gaps on x
    /// and y added, then that of the gap on z.
    #[verifier::opaque]
    pub open spec fn distance_squares_to(self, other: Vector3, r: Coord) -> bool {
        exists|xx: Coord, yy: Coord, zz: Coord, flat: Coord|
            {
                &&& gap_squares_to(self.x, other.x, xx)
                &&& gap_squares_to(self.y, other.y, yy)
                &&& gap_squares_to(self.z, other.z, zz)
                &&& #[trigger] xx.adds_to(yy, flat)
                &&& #[trigger] flat.adds_to(zz, r)
            }
    }

    /// The position lies in the sphere, surface included.
    pub open spec fn in_sphere(self, center: Vector3, radius: Coord) -> bool {
        exists|square: Coord, limit: Coord|
            {
                &&& #[trigger] self.distance_squares_to(center, square)
                &&& #[trigger] radius.multiplies_to(radius, limit)
                &&& square.at_most(limit)
            }
    }

    /// The square of the distance to another position.
    fn squared_distance(self, other: Vector3) -> (r: Coord)
        ensures
            self.distance_squares_to(other, r),
    {
        reveal(gap_squares_to);
        reveal(Vector3::distance_squares_to);
        let dx = self.x.minus(other.x);
        let dy = self.y.minus(other.y);
        let dz = self.z.minus(other.z);
        let xx = dx.times(dx);
        let yy = dy.times(dy);
        let zz = dz.times(dz);
        let flat = xx.plus(yy);
        let r = flat.plus(zz);
        assert(gap_squares_to(self.x, other.x, xx));
        assert(gap_squares_to(self.y, other.y, yy));
        assert(gap_squares_to(self.z, other.z, zz));
        r
    }

    /// Whether the position lies in the sphere, surface included.
    pub fn is_in_sphere(self, center: Vector3, radius: Coord) -> (r: bool)
        ensures
            r == self.in_sphere(center, radius),
    {
        let square = self.squared_distance(center);
        let limit = radius.times(radius);
        let r = square.le(limit);
        proof {
            if self.in_sphere(center, radius) {
                let (square2, limit2) = choose|square2: Coord, limit2: Coord|
                    {
                        &&& #[trigger] self.distance_squares_to(center, square2)
                        &&& #[trigger] radius.multiplies_to(radius, limit2)
                        &&& square2.at_most(limit2)
                    };
                law_squared_distance_is_unique(self, center, square, square2);
                crate::coord::law_product_is_unique(radius, radius, limit, limit2);
            }
        }
        r
    }
}

proof fn lemma_squared_gap_is_unique(a: Coord, b: Coord, r1: Coord, r2: Coord)
    requires
        gap_squares_to(a, b, r1),
        gap_squares_to(a, b, r2),
    ensures
        r1.same_number(r2),
{
    reveal(gap_squares_to);
    let d1 = choose|gap: Coord| #[trigger] a.adds_to(b.negation(), gap) && gap.multiplies_to(gap, r1);
    let d2 = choose|gap: Coord| #[trigger] a.adds_to(b.negation(), gap) && gap.multiplies_to(gap, r2);
    crate::coord::law_sum_is_unique(a, b.negation(), d1, d2);
    if d1 == d2 {
        crate::coord::law_product_is_unique(d1, d1, r1, r2);
    }
}

/// Sums of the same numbers are the same number.
proof fn lemma_same_sums(a1: Coord, b1: Coord, a2: Coord, b2: Coord, r1: Coord, r2: Coord)
    requires
        a1.same_number(a2),
        b1.same_number(b2),
        a1.adds_to(b1, r1),
        a2.adds_to(b2, r2),
    ensures
        r1.same_number(r2),
{
    if a1 == a2 && b1 == b2 {
        crate::coord::law_sum_is_unique(a1, b1, r1, r2);
    }
}

/// The square of a distance has one result, up to which NaN it is.
pub proof fn law_squared_distance_is_unique(a: Vector3, b: Vector3, r1: Coord, r2: Coord)
    requires
        a.distance_squares_to(b, r1),
        a.distance_squares_to(b, r2),
    ensures
        r1.same_number(r2),
{
    reveal(Vector3::distance_squares_to);
    let (xx1, yy1, zz1, flat1) = choose|xx: Coord, yy: Coord, zz: Coord, flat: Coord|
        {
            &&& gap_squares_to(a.x, b.x, xx)
            &&& gap_squares_to(a.y, b.y, yy)
            &&& gap_squares_to(a.z, b.z, zz)
            &&& #[trigger] xx.adds_to(yy, flat)
            &&& #[trigger] flat.adds_to(zz, r1)
        };
    let (xx2, yy2, zz2, flat2) = choose|xx: Coord, yy: Coord, zz: Coord, flat: Coord|
        {
            &&& gap_squares_to(a.x, b.x, xx)
            &&& gap_squares_to(a.y, b.y, yy)
            &&& gap_squares_to(a.z, b.z, zz)
            &&& #[trigger] xx.adds_to(yy, flat)
            &&& #[trigger] flat.adds_to(zz, r2)
        };
    lemma_squared_gap_is_unique(a.x, b.x, xx1, xx2);
    lemma_squared_gap_is_unique(a.y, b.y, yy1, yy2);
    lemma_squared_gap_is_unique(a.z, b.z, zz1, zz2);
    lemma_same_sums(xx1, yy1, xx2, yy2, flat1, flat2);
    lemma_same_sums(flat1, zz1, flat2, zz2, r1, r2);
}

/// An axis-aligned box.
#[derive(Clone, Copy, Debug)]
pub struct BoundingBox {
    pub min: Vector3,
    pub max: Vector3,
}

/// The inclusive range of block coordinates that a box touches.
#[derive(Clone, Copy, Debug, PartialEq, Eq, Structural)]
pub struct BlockRange {
    pub min_x: i32,
    pub min_y: i32,
    pub min_z: i32,
    pub max_x: i32,
    pub max_y: i32,
    pub max_z: i32,
}

impl BlockRange {
    /// Two ranges share a block on every axis.
    pub open spec fn meets(self, other: BlockRange) -> bool {
        &&& self.min_x <= other.max_x && other.min_x <= self.max_x
        &&& self.min_y <= other.max_y && other.min_y <= self.max_y
        &&& self.min_z <= other.max_z && other.min_z <= self.max_z
    }

    /// The range starts nowhere after its end.
    pub open spec fn is_upright(self) -> bool {
        self.min_x <= self.max_x && self.min_y <= self.max_y && self.min_z <= self.max_z
    }

    /// Every box that meets `b` touches a block of this range: the range starts
    /// no later than `b` rounded inwards, and ends no earlier.
    pub open spec fn reaches(self, b: BoundingBox) -> bool {
        &&& self.min_x <= b.min.x.ceil_block() && b.max.x.floor_block() <= self.max_x
        &&& self.min_y <= b.min.y.ceil_block() && b.max.y.floor_block() <= self.max_y
        &&& self.min_z <= b.min.z.ceil_block() && b.max.z.floor_block() <= self.max_z
    }
}

impl PartialEq for BoundingBox {
    fn eq(&self, other: &BoundingBox) -> (r: bool) {
        self.min == other.min && self.max == other.max
    }
}

impl vstd::std_specs::cmp::PartialEqSpecImpl for BoundingBox {
    open spec fn obeys_eq_spec() -> bool {
        true
    }

    open spec fn eq_spec(&self, other: &BoundingBox) -> bool {
        self.equals(*other)
    }
}

impl BoundingBox {
    /// The faces are equal as numbers.
    pub open spec fn equals(self, other: BoundingBox) -> bool {
        self.min.equals(other.min) && self.max.equals(other.max)
    }

    pub fn new(min: Vector3, max: Vector3) -> (b: BoundingBox)
        ensures
            b == (BoundingBox { min, max }),
    {
        BoundingBox { min, max }
    }

    /// The two boxes overlap in their interior.
    pub open spec fn overlaps(self, other: BoundingBox) -> bool {
        &&& self.min.x.below(other.max.x) && other.min.x.below(self.max.x)
        &&& self.min.y.below(other.max.y) && other.min.y.below(self.max.y)
        &&& self.min.z.below(other.max.z) && other.min.z.below(self.max.z)
    }

    /// The box lies inside `outer`, faces included.
    pub open spec fn inside(self, outer: BoundingBox) -> bool {
        &&& outer.min.x.at_most(self.min.x) && self.max.x.at_most(outer.max.x)
        &&& outer.min.y.at_most(self.min.y) && self.max.y.at_most(outer.max.y)
        &&& outer.min.z.at_most(self.min.z) && self.max.z.at_most(outer.max.z)
    }

    /// Every face is a number.
    pub open spec fn has_no_nan(self) -> bool {
        &&& !self.min.x.is_nan() && !self.min.y.is_nan() && !self.min.z.is_nan()
        &&& !self.max.x.is_nan() && !self.max.y.is_nan() && !self.max.z.is_nan()
    }

    /// The lower corner is nowhere above the upper corner.
    pub open spec fn is_upright(self) -> bool {
        &&& self.min.x.at_most(self.max.x)
        &&& self.min.y.at_most(self.max.y)
        &&& self.min.z.at_most(self.max.z)
    }

    /// The blocks from the floor of the lower corner to the ceiling of the upper.
    pub open spec fn blocks(self) -> BlockRange {
        BlockRange {
            min_x: self.min.x.floor_block() as i32,
            min_y: self.min.y.floor_block() as i32,
            min_z: self.min.z.floor_block() as i32,
            max_x: self.max.x.ceil_block() as i32,
            max_y: self.max.y.ceil_block() as i32,
            max_z: self.max.z.ceil_block() as i32,
        }
    }

    /// `r` is the box with every face moved outwards by the amount of its axis.
    pub open spec fn expands_to(self, x: Coord, y: Coord, z: Coord, r: BoundingBox) -> bool {
        &&& self.min.x.adds_to(x.negation(), r.min.x) && self.max.x.adds_to(x, r.max.x)
        &&& self.min.y.adds_to(y.negation(), r.min.y) && self.max.y.adds_to(y, r.max.y)
        &&& self.min.z.adds_to(z.negation(), r.min.z) && self.max.z.adds_to(z, r.max.z)
    }

    /// Whether the boxes overlap in their interior.
    pub fn intersects(&self, other: &BoundingBox) -> (r: bool)
        ensures
            r == self.overlaps(*other),
            self.has_no_nan() && other.has_no_nan() ==> (r <==> {
                &&& self.min.x.value() < other.max.x.value()
                &&& other.min.x.value() < self.max.x.value()
                &&& self.min.y.value() < other.max.y.value()
                &&& other.min.y.value() < self.max.y.value()
                &&& self.min.z.value() < other.max.z.value()
                &&& other.min.z.value() < self.max.z.value()
            }),
    {
        self.min.x.lt(other.max.x) && other.min.x.lt(self.max.x) && self.min.y.lt(other.max.y)
            && other.min.y.lt(self.max.y) && self.min.z.lt(other.max.z) && other.min.z.lt(
            self.max.z,
        )
    }

    /// Whether the box lies inside `outer`.
    pub fn is_inside(&self, outer: &BoundingBox) -> (r: bool)
        ensures
            r == self.inside(*outer),
            self.has_no_nan() && outer.has_no_nan() ==> (r <==> {
                &&& outer.min.x.value() <= self.min.x.value()
                &&& outer.min.y.value() <= self.min.y.value()
                &&& outer.min.z.value() <= self.min.z.value()
                &&& self.max.x.value() <= outer.max.x.value()
                &&& self.max.y.value() <= outer.max.y.value()
                &&& self.max.z.value() <= outer.max.z.value()
            }),
    {
        outer.min.x.le(self.min.x) && outer.min.y.le(self.min.y) && outer.min.z.le(self.min.z)
            && self.max.x.le(outer.max.x) && self.max.y.le(outer.max.y) && self.max.z.le(
            outer.max.z,
        )
    }

    /// The box with every face moved outwards by the amount of its axis.
    pub fn expand(&self, x: Coord, y: Coord, z: Coord) -> (r: BoundingBox)
        ensures
            self.expands_to(x, y, z, r),
            self.min.x.adds_to(x.negation(), r.min.x),
            self.min.y.adds_to(y.negation(), r.min.y),
            self.min.z.adds_to(z.negation(), r.min.z),
            self.max.x.adds_to(x, r.max.x),
            self.max.y.adds_to(y, r.max.y),
            self.max.z.adds_to(z, r.max.z),
    {
        BoundingBox {
            min: Vector3 { x: self.min.x.minus(x), y: self.min.y.minus(y), z: self.min.z.minus(z) },
            max: Vector3 { x: self.max.x.plus(x), y: self.max.y.plus(y), z: self.max.z.plus(z) },
        }
    }

    /// The blocks that the box touches.
    pub fn block_range(&self) -> (r: BlockRange)
        ensures
            r == self.blocks(),
            r.min_x == self.min.x.floor_block(),
            r.min_y == self.min.y.floor_block(),
            r.min_z == self.min.z.floor_block(),
            r.max_x == self.max.x.ceil_block(),
            r.max_y == self.max.y.ceil_block(),
            r.max_z == self.max.z.ceil_block(),
    {
        BlockRange {
            min_x: self.min.x.floor_to_block(),
            min_y: self.min.y.floor_to_block(),
            min_z: self.min.z.floor_to_block(),
            max_x: self.max.x.ceil_to_block(),
            max_y: self.max.y.ceil_to_block(),
            max_z: self.max.z.ceil_to_block(),
        }
    }
}

/// A range that reaches a box shares a block with every box overlapping it.
pub proof fn lemma_reach_meets(range: BlockRange, b: BoundingBox, query: BoundingBox)
    requires
        range.reaches(b),
        b.overlaps(query),
    ensures
        range.meets(query.blocks()),
{
    crate::coord::lemma_rounding_monotone(b.min.x, query.max.x);
    crate::coord::lemma_rounding_monotone(b.min.y, query.max.y);
    crate::coord::lemma_rounding_monotone(b.min.z, query.max.z);
    crate::coord::lemma_rounding_monotone(query.min.x, b.max.x);
    crate::coord::lemma_rounding_monotone(query.min.y, b.max.y);
    crate::coord::lemma_rounding_monotone(query.min.z, b.max.z);
}

/// A range that reaches a box reaches every box inside it.
pub proof fn lemma_reach_inside(range: BlockRange, outer: BoundingBox, b: BoundingBox)
    requires
        range.reaches(outer),
        b.inside(outer),
    ensures
        range.reaches(b),
{
    crate::coord::lemma_rounding_monotone(outer.min.x, b.min.x);
    crate::coord::lemma_rounding_monotone(outer.min.y, b.min.y);
    crate::coord::lemma_rounding_monotone(outer.min.z, b.min.z);
    crate::coord::lemma_rounding_monotone(b.max.x, outer.max.x);
    crate::coord::lemma_rounding_monotone(b.max.y, outer.max.y);
    crate::coord::lemma_rounding_monotone(b.max.z, outer.max.z);
}

/// The blocks of a box reach the box itself.
pub proof fn lemma_blocks_reach(b: BoundingBox)
    ensures
        b.blocks().reaches(b),
{
    crate::coord::lemma_floor_at_most_ceil(b.min.x);
    crate::coord::lemma_floor_at_most_ceil(b.min.y);
    crate::coord::lemma_floor_at_most_ceil(b.min.z);
    crate::coord::lemma_floor_at_most_ceil(b.max.x);
    crate::coord::lemma_floor_at_most_ceil(b.max.y);
    crate::coord::lemma_floor_at_most_ceil(b.max.z);
}

/// The blocks of an upright box start nowhere after their end.
pub proof fn lemma_upright_blocks(b: BoundingBox)
    requires
        b.is_upright(),
    ensures
        b.blocks().is_upright(),
{
    lemma_blocks_reach(b);
    crate::coord::lemma_rounding_monotone(b.min.x, b.max.x);
    crate::coord::lemma_rounding_monotone(b.min.y, b.max.y);
    crate::coord::lemma_rounding_monotone(b.min.z, b.max.z);
    crate::coord::lemma_floor_at_most_ceil(b.min.x);
    crate::coord::lemma_floor_at_most_ceil(b.min.y);
    crate::coord::lemma_floor_at_most_ceil(b.min.z);
    crate::coord::lemma_floor_at_most_ceil(b.max.x);
    crate::coord::lemma_floor_at_most_ceil(b.max.y);
    crate::coord::lemma_floor_at_most_ceil(b.max.z);
}

impl BoundingBox {
    /// Every face has the same number as the face of another box.
    pub open spec fn same_faces(self, other: BoundingBox) -> bool {
        &&& self.min.x.same_number(other.min.x) && self.max.x.same_number(other.max.x)
        &&& self.min.y.same_number(other.min.y) && self.max.y.same_number(other.max.y)
        &&& self.min.z.same_number(other.min.z) && self.max.z.same_number(other.max.z)
    }
}

/// Expanding a box by given amounts has one result, up to which NaN a face is.
pub proof fn law_expansion_is_unique(
    b: BoundingBox,
    x: Coord,
    y: Coord,
    z: Coord,
    r1: BoundingBox,
    r2: BoundingBox,
)
    requires
        b.expands_to(x, y, z, r1),
        b.expands_to(x, y, z, r2),
    ensures
        r1.same_faces(r2),
{
    crate::coord::law_sum_is_unique(b.min.x, x.negation(), r1.min.x, r2.min.x);
    crate::coord::law_sum_is_unique(b.min.y, y.negation(), r1.min.y, r2.min.y);
    crate::coord::law_sum_is_unique(b.min.z, z.negation(), r1.min.z, r2.min.z);
    crate::coord::law_sum_is_unique(b.max.x, x, r1.max.x, r2.max.x);
    crate::coord::law_sum_is_unique(b.max.y, y, r1.max.y, r2.max.y);
    crate::coord::law_sum_is_unique(b.max.z, z, r1.max.z, r2.max.z);
}

/// Boxes overlap exactly where their extents cross on every axis: boxes that only touch
/// do not, and order does not matter.
pub proof fn law_boxes_overlap_where_extents_cross(a: BoundingBox, b: BoundingBox)
    requires
        a.has_no_nan(),
        b.has_no_nan(),
    ensures
        a.overlaps(b) <==> {
            &&& a.min.x.value() < b.max.x.value() && b.min.x.value() < a.max.x.value()
            &&& a.min.y.value() < b.max.y.value() && b.min.y.value() < a.max.y.value()
            &&& a.min.z.value() < b.max.z.value() && b.min.z.value() < a.max.z.value()
        },
        a.overlaps(b) == b.overlaps(a),
        a.max.x.value() == b.min.x.value() ==> !a.overlaps(b),
{
}

/// A box with a face that is not a number overlaps nothing.
pub proof fn law_nan_overlaps_nothing(a: BoundingBox, b: BoundingBox)
    requires
        !a.has_no_nan(),
    ensures
        !a.overlaps(b),
        !b.overlaps(a),
{
}

/// A position lies in a sphere exactly where the sum of the squares of its gaps to the
/// center, as binary64 arithmetic gives it, is at most the square of the radius.
pub proof fn law_sphere_is_told_by_squares(
    p: Vector3,
    center: Vector3,
    radius: Coord,
    gaps: (Coord, Coord, Coord),
    squares: (Coord, Coord, Coord),
    flat: Coord,
    square: Coord,
    limit: Coord,
)
    requires
        p.x.adds_to(center.x.negation(), gaps.0),
        p.y.adds_to(center.y.negation(), gaps.1),
        p.z.adds_to(center.z.negation(), gaps.2),
        gaps.0.multiplies_to(gaps.0, squares.0),
        gaps.1.multiplies_to(gaps.1, squares.1),
        gaps.2.multiplies_to(gaps.2, squares.2),
        squares.0.adds_to(squares.1, flat),
        flat.adds_to(squares.2, square),
        radius.multiplies_to(radius, limit),
    ensures
        p.in_sphere(center, radius) <==> !square.is_nan() && !limit.is_nan() && square.value()
            <= limit.value(),
{
    assert(p.distance_squares_to(center, square)) by {
        reveal(gap_squares_to);
        reveal(Vector3::distance_squares_to);
        assert(gap_squares_to(p.x, center.x, squares.0));
        assert(gap_squares_to(p.y, center.y, squares.1));
        assert(gap_squares_to(p.z, center.z, squares.2));
    }
    if p.in_sphere(center, radius) {
        let (square2, limit2) = choose|square2: Coord, limit2: Coord|
            {
                &&& #[trigger] p.distance_squares_to(center, square2)
                &&& #[trigger] radius.multiplies_to(radius, limit2)
                &&& square2.at_most(limit2)
            };
        law_squared_distance_is_unique(p, center, square, square2);
        crate::coord::law_product_is_unique(radius, radius, limit, limit2);
    }
}

/// Boxes are equal exactly where all their faces are, as numbers.
pub proof fn law_boxes_are_equal_by_faces(a: BoundingBox, b: BoundingBox)
    ensures
        a.equals(b) <==> {
            &&& a.has_no_nan() && b.has_no_nan()
            &&& a.min.x.value() == b.min.x.value() && a.max.x.value() == b.max.x.value()
            &&& a.min.y.value() == b.min.y.value() && a.max.y.value() == b.max.y.value()
            &&& a.min.z.value() == b.min.z.value() && a.max.z.value() == b.max.z.value()
        },
{
}

/// A box inside another has every face between the faces of the other; touching faces
/// are inside.
pub proof fn law_inside_in_numbers(a: BoundingBox, b: BoundingBox)
    ensures
        a.inside(b) <==> {
            &&& a.has_no_nan() && b.has_no_nan()
            &&& b.min.x.value() <= a.min.x.value() && a.max.x.value() <= b.max.x.value()
            &&& b.min.y.value() <= a.min.y.value() && a.max.y.value() <= b.max.y.value()
            &&& b.min.z.value() <= a.min.z.value() && a.max.z.value() <= b.max.z.value()
        },
        a.is_upright() <==> {
            &&& a.has_no_nan()
            &&& a.min.x.value() <= a.max.x.value()
            &&& a.min.y.value() <= a.max.y.value()
            &&& a.min.z.value() <= a.max.z.value()
        },
        a.has_no_nan() ==> a.inside(a),
{
}

/// Two upright boxes that overlap touch a block in common.
pub proof fn law_overlapping_boxes_share_a_block(a: BoundingBox, b: BoundingBox)
    requires
        a.is_upright(),
        b.is_upright(),
        a.overlaps(b),
    ensures
        a.blocks().min_x <= b.blocks().max_x && b.blocks().min_x <= a.blocks().max_x,
        a.blocks().min_y <= b.blocks().max_y && b.blocks().min_y <= a.blocks().max_y,
        a.blocks().min_z <= b.blocks().max_z && b.blocks().min_z <= a.blocks().max_z,
{
    lemma_blocks_reach(a);
    lemma_reach_meets(a.blocks(), a, b);
}

/// Expanding a finite box moves the lower faces down and the upper faces up, each by
/// the amount of its own axis, to the nearest number.
pub proof fn law_expansion_in_numbers(
    b: BoundingBox,
    x: Coord,
    y: Coord,
    z: Coord,
    r: BoundingBox,
)
    requires
        b.min.x.is_finite() && b.min.y.is_finite() && b.min.z.is_finite(),
        b.max.x.is_finite() && b.max.y.is_finite() && b.max.z.is_finite(),
        x.is_finite() && y.is_finite() && z.is_finite(),
        b.expands_to(x, y, z, r),
    ensures
        crate::coord::rounds_to(b.min.x.value() - x.value(), r.min.x),
        crate::coord::rounds_to(b.min.y.value() - y.value(), r.min.y),
        crate::coord::rounds_to(b.min.z.value() - z.value(), r.min.z),
        crate::coord::rounds_to(b.max.x.value() + x.value(), r.max.x),
        crate::coord::rounds_to(b.max.y.value() + y.value(), r.max.y),
        crate::coord::rounds_to(b.max.z.value() + z.value(), r.max.z),
{
    x.lemma_negation();
    y.lemma_negation();
    z.lemma_negation();
}

} // verus!
