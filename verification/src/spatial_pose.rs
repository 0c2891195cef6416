//! Spatial state of an indexed entity: categories, pose, and its publication.
use crate::coord::Coord;
use crate::geometry::{BoundingBox, Vector3};
use crate::spatial_registry::EntityKey;
use vstd::arithmetic::div_mod::*;
use vstd::arithmetic::power2::*;
use vstd::prelude::*;

verus! {

/// Spatial capability flags for entity filtering without dynamic dispatch.
#[derive(Debug, Clone, Copy, PartialEq, Eq, Structural, Hash)]
pub struct SpatialCategory {
    pub bits: u32,
}

impl SpatialCategory {
    pub const PLAYER: u32 = 0x1;

    pub const LIVING: u32 = 0x2;

    pub const ITEM: u32 = 0x4;

    pub const PROJECTILE: u32 = 0x8;

    pub const COLLIDABLE: u32 = 0x10;

    pub const PUSHABLE: u32 = 0x20;

    pub const DAMAGEABLE: u32 = 0x40;

    pub const TRACKABLE: u32 = 0x80;

    pub const VEHICLE: u32 = 0x100;

    pub const PICKABLE: u32 = 0x200;

    /// Every flag that is in use.
    pub const KNOWN: u32 = 0x3ff;

    /// The categories with these flags, unknown flags dropped.
    pub open spec fn truncated(bits: u32) -> SpatialCategory {
        SpatialCategory { bits: bits & SpatialCategory::KNOWN }
    }

    /// An entity with these categories passes the mask: an empty mask passes all.
    pub open spec fn passes(self, mask: u32) -> bool {
        mask == 0 || self.bits & mask != 0
    }

    /// The flags as bits.
    pub fn bits(self) -> (bits: u32)
        ensures
            bits == self.bits,
    {
        self.bits
    }

    /// The categories with these flags, unknown flags dropped.
    pub fn from_bits_truncate(bits: u32) -> (c: SpatialCategory)
        ensures
            c == SpatialCategory::truncated(bits),
            c.bits == bits & 0x3ff,
    {
        SpatialCategory { bits: bits & SpatialCategory::KNOWN }
    }

    /// Whether an entity with these categories passes the mask.
    pub fn matches_mask(self, mask: u32) -> (r: bool)
        ensures
            r == self.passes(mask),
            r <==> mask == 0 || self.bits & mask != 0,
    {
        mask == 0 || self.bits & mask != 0
    }
}

/// Coherent spatial state snapshot for an indexed entity.
#[derive(Debug, Clone, Copy)]
pub struct SpatialPose {
    pub world_id: u64,
    pub exact_bounds: BoundingBox,
    pub coverage_bounds: BoundingBox,
    pub membership_revision: u32,
    pub categories: SpatialCategory,
    pub alive: bool,
}

impl PartialEq for SpatialPose {
    fn eq(&self, other: &SpatialPose) -> (r: bool) {
        self.world_id == other.world_id && self.exact_bounds == other.exact_bounds
            && self.coverage_bounds == other.coverage_bounds && self.membership_revision
            == other.membership_revision && self.categories == other.categories && self.alive
            == other.alive
    }
}

impl vstd::std_specs::cmp::PartialEqSpecImpl for SpatialPose {
    open spec fn obeys_eq_spec() -> bool {
        true
    }

    open spec fn eq_spec(&self, other: &SpatialPose) -> bool {
        self.equals(*other)
    }
}

impl SpatialPose {
    /// The poses are equal, their boxes as numbers.
    pub open spec fn equals(self, other: SpatialPose) -> bool {
        &&& self.world_id == other.world_id
        &&& self.exact_bounds.equals(other.exact_bounds)
        &&& self.coverage_bounds.equals(other.coverage_bounds)
        &&& self.membership_revision == other.membership_revision
        &&& self.categories == other.categories
        &&& self.alive == other.alive
    }
}

/// Bits of 0.25, the padding of an entity at rest and the least padding.
pub const MIN_PADDING_BITS: u64 = 0x3fd0_0000_0000_0000;

/// Bits of 2.0, the greatest padding.
pub const MAX_PADDING_BITS: u64 = 0x4000_0000_0000_0000;

/// Bits of 0.5, the horizontal speed assumed of a moving entity.
pub const MOVING_SPEED_BITS: u64 = 0x3fe0_0000_0000_0000;

/// The padding at rest.
pub open spec fn min_padding() -> Coord {
    Coord { bits: MIN_PADDING_BITS }
}

/// The greatest padding.
pub open spec fn max_padding() -> Coord {
    Coord { bits: MAX_PADDING_BITS }
}

/// `padding` is 0.25 plus two ticks of travel at `speed`, held between 0.25 and 2.
pub open spec fn is_padding(speed: Coord, padding: Coord) -> bool {
    exists|travel: Coord, raw: Coord|
        {
            &&& #[trigger] speed.adds_to(speed, travel)
            &&& #[trigger] min_padding().adds_to(travel, raw)
            &&& padding == (if raw.below(min_padding()) {
                min_padding()
            } else if max_padding().below(raw) {
                max_padding()
            } else {
                raw
            })
        }
}

/// Half of a number that is at least 0.25 and at most 2: one less in the exponent.
pub open spec fn half_padding(padding: Coord) -> Coord {
    if padding.is_nan() {
        padding
    } else {
        Coord { bits: (padding.bits - crate::coord::FRACTION_SPAN) as u64 }
    }
}

/// `r` is the loose coverage box of `exact` for an entity moving at `speed`: wider
/// by the padding on both horizontal axes and by half of it vertically.
#[verifier::opaque]
pub open spec fn is_coverage(exact: BoundingBox, speed: Coord, r: BoundingBox) -> bool {
    exists|padding: Coord|
        {
            &&& #[trigger] is_padding(speed, padding)
            &&& exact.expands_to(padding, half_padding(padding), padding, r)
        }
}

proof fn lemma_padding_values()
    ensures
        min_padding().value() == pow2(1072),
        max_padding().value() == pow2(1075),
        min_padding().is_finite(),
        max_padding().is_finite(),
        crate::coord::block_unit() == 4 * pow2(1072),
        crate::coord::block_unit() > 0,
{
    lemma2_to64();
    lemma2_to64_rest();
    lemma_pow2_adds(52, 1020);
    lemma_pow2_adds(52, 1023);
    lemma_pow2_adds(2, 1072);
    lemma_pow2_pos(1072);
    assert(0x3fd0_0000_0000_0000u64 / crate::coord::FRACTION_SPAN == 1021);
    assert(0x4000_0000_0000_0000u64 / crate::coord::FRACTION_SPAN == 1024);
}

/// A padding that is not NaN lies between 0.25 and 2, and its half is half of it.
proof fn lemma_padding_range(speed: Coord, padding: Coord)
    requires
        is_padding(speed, padding),
        !padding.is_nan(),
    ensures
        padding.is_finite(),
        min_padding().value() <= padding.value() <= max_padding().value(),
        half_padding(padding).is_finite(),
        2 * half_padding(padding).value() == padding.value(),
        !padding.is_negative(),
        padding.bits >= crate::coord::FRACTION_SPAN,
{
    lemma_padding_values();
    lemma_pow2_strictly_increases(1072, 1075);
    lemma_pow2_pos(1072);
    padding.lemma_at_most_bits(max_padding());
    min_padding().lemma_at_most_bits(padding);
    let e = crate::coord::exponent_of(padding.bits);
    let half = half_padding(padding);
    assert(crate::coord::exponent_of(half.bits) == e - 1);
    assert(crate::coord::fraction_of(half.bits) == crate::coord::fraction_of(padding.bits));
    lemma_pow2_unfold((e - 1) as nat);
    let s = crate::coord::FRACTION_SPAN + crate::coord::fraction_of(padding.bits);
    assert(s * pow2((e - 1) as nat) == 2 * (s * pow2((e - 2) as nat))) by (nonlinear_arith)
        requires
            pow2((e - 1) as nat) == 2 * pow2((e - 2) as nat),
    ;
}

/// The coverage of an entity at rest stays within the blocks that its exact box
/// touches: whatever moves inside the coverage is still reached by those blocks.
pub proof fn lemma_resting_coverage_reached(
    exact: BoundingBox,
    coverage: BoundingBox,
    speed: Coord,
)
    requires
        speed.bits == 0,
        is_coverage(exact, speed, coverage),
    ensures
        exact.blocks().reaches(coverage),
{
    reveal(is_coverage);
    let padding = choose|padding: Coord|
        {
            &&& #[trigger] is_padding(speed, padding)
            &&& exact.expands_to(padding, half_padding(padding), padding, coverage)
        };
    let (travel, raw) = choose|travel: Coord, raw: Coord|
        {
            &&& #[trigger] speed.adds_to(speed, travel)
            &&& #[trigger] min_padding().adds_to(travel, raw)
            &&& padding == (if raw.below(min_padding()) {
                min_padding()
            } else if max_padding().below(raw) {
                max_padding()
            } else {
                raw
            })
        };
    lemma_padding_values();
    lemma_pow2_strictly_increases(1072, 1075);
    assert(speed.value() == 0);
    assert(travel.bits == 0);
    assert(travel.value() == 0);
    assert(raw.value() == min_padding().value()) by {
        assert(crate::coord::distance(min_padding().value(), min_padding().value()) == 0);
    }
    lemma_padding_range(speed, padding);
    let h = half_padding(padding);
    lemma_face_reached(exact.min.x, exact.max.x, padding, coverage.min.x, coverage.max.x);
    lemma_face_reached(exact.min.y, exact.max.y, h, coverage.min.y, coverage.max.y);
    lemma_face_reached(exact.min.z, exact.max.z, padding, coverage.min.z, coverage.max.z);
    crate::coord::lemma_floor_at_most_ceil(exact.min.x);
    crate::coord::lemma_floor_at_most_ceil(exact.min.y);
    crate::coord::lemma_floor_at_most_ceil(exact.min.z);
    crate::coord::lemma_floor_at_most_ceil(exact.max.x);
    crate::coord::lemma_floor_at_most_ceil(exact.max.y);
    crate::coord::lemma_floor_at_most_ceil(exact.max.z);
}

/// On one axis, moving both faces outwards by at most a quarter block leaves the
/// lower face rounded up at or above the old floor, and the upper one rounded
/// down at or below the old ceiling.
proof fn lemma_face_reached(lo: Coord, hi: Coord, pad: Coord, new_lo: Coord, new_hi: Coord)
    requires
        pad.is_finite(),
        0 <= pad.value() <= min_padding().value(),
        lo.adds_to(pad.negation(), new_lo),
        hi.adds_to(pad, new_hi),
    ensures
        lo.floor_block() <= new_lo.ceil_block(),
        new_hi.floor_block() <= hi.ceil_block(),
{
    lemma_padding_values();
    pad.lemma_negation();
    let u = crate::coord::block_unit() as int;
    if !lo.is_nan() {
        lo.lemma_difference_bounds(pad, new_lo);
        let (v, w) = (lo.value(), new_lo.value());
        lemma_fundamental_div_mod(v, u);
        lemma_fundamental_div_mod(-w, u);
        let f = v / u;
        let c = -((-w) / u);
        assert(f <= c) by (nonlinear_arith)
            requires
                v == u * f + v % u,
                0 <= v % u,
                -w == u * (-c) + (-w) % u,
                0 <= (-w) % u,
                2 * (v - w) <= u,
                0 < u,
        ;
    }
    if !hi.is_nan() {
        hi.lemma_sum_bounds(pad, new_hi);
        let (v, w) = (hi.value(), new_hi.value());
        lemma_fundamental_div_mod(-v, u);
        lemma_fundamental_div_mod(w, u);
        let c = -((-v) / u);
        let f = w / u;
        assert(f <= c) by (nonlinear_arith)
            requires
                w == u * f + w % u,
                0 <= w % u,
                -v == u * (-c) + (-v) % u,
                0 <= (-v) % u,
                2 * (w - v) <= u,
                0 < u,
        ;
    }
}

/// The blocks of a coverage box reach the exact box it was computed from.
pub proof fn lemma_coverage_reaches_exact(
    exact: BoundingBox,
    coverage: BoundingBox,
    speed: Coord,
)
    requires
        speed.is_finite(),
        is_coverage(exact, speed, coverage),
    ensures
        coverage.blocks().reaches(exact),
{
    reveal(is_coverage);
    let padding = choose|padding: Coord|
        {
            &&& #[trigger] is_padding(speed, padding)
            &&& exact.expands_to(padding, half_padding(padding), padding, coverage)
        };
    lemma_padding_values();
    lemma_pow2_pos(1072);
    lemma_padding_range(speed, padding);
    let h = half_padding(padding);
    padding.lemma_negation();
    h.lemma_negation();
    lemma_face_covered(exact.min.x, exact.max.x, padding, coverage.min.x, coverage.max.x);
    lemma_face_covered(exact.min.y, exact.max.y, h, coverage.min.y, coverage.max.y);
    lemma_face_covered(exact.min.z, exact.max.z, padding, coverage.min.z, coverage.max.z);
}

/// A coverage box touches every block height that the exact box touches.
pub proof fn lemma_coverage_is_taller(
    exact: BoundingBox,
    coverage: BoundingBox,
    speed: Coord,
)
    requires
        speed.is_finite(),
        is_coverage(exact, speed, coverage),
    ensures
        coverage.blocks().min_y <= exact.blocks().min_y,
        exact.blocks().max_y <= coverage.blocks().max_y,
{
    reveal(is_coverage);
    let padding = choose|padding: Coord|
        {
            &&& #[trigger] is_padding(speed, padding)
            &&& exact.expands_to(padding, half_padding(padding), padding, coverage)
        };
    lemma_padding_values();
    lemma_pow2_pos(1072);
    lemma_padding_range(speed, padding);
    let h = half_padding(padding);
    crate::coord::lemma_floor_at_most_ceil(exact.min.y);
    crate::coord::lemma_floor_at_most_ceil(exact.max.y);
    crate::coord::lemma_floor_at_most_ceil(coverage.min.y);
    crate::coord::lemma_floor_at_most_ceil(coverage.max.y);
    if !exact.min.y.is_nan() {
        exact.min.y.lemma_difference_bounds(h, coverage.min.y);
        crate::coord::lemma_rounding_monotone(coverage.min.y, exact.min.y);
    }
    if !exact.max.y.is_nan() {
        exact.max.y.lemma_sum_bounds(h, coverage.max.y);
        crate::coord::lemma_rounding_monotone(exact.max.y, coverage.max.y);
    }
}

/// The coverage of an upright box is upright.
pub proof fn lemma_coverage_is_upright(
    exact: BoundingBox,
    coverage: BoundingBox,
    speed: Coord,
)
    requires
        speed.is_finite(),
        exact.is_upright(),
        is_coverage(exact, speed, coverage),
    ensures
        coverage.is_upright(),
{
    reveal(is_coverage);
    let padding = choose|padding: Coord|
        {
            &&& #[trigger] is_padding(speed, padding)
            &&& exact.expands_to(padding, half_padding(padding), padding, coverage)
        };
    lemma_padding_values();
    lemma_pow2_pos(1072);
    lemma_padding_range(speed, padding);
    let h = half_padding(padding);
    exact.min.x.lemma_difference_bounds(padding, coverage.min.x);
    exact.min.y.lemma_difference_bounds(h, coverage.min.y);
    exact.min.z.lemma_difference_bounds(padding, coverage.min.z);
    exact.max.x.lemma_sum_bounds(padding, coverage.max.x);
    exact.max.y.lemma_sum_bounds(h, coverage.max.y);
    exact.max.z.lemma_sum_bounds(padding, coverage.max.z);
}

/// On one axis, moving both faces outwards keeps the old faces between the new ones.
proof fn lemma_face_covered(lo: Coord, hi: Coord, pad: Coord, new_lo: Coord, new_hi: Coord)
    requires
        pad.is_finite(),
        0 <= pad.value(),
        lo.adds_to(pad.negation(), new_lo),
        hi.adds_to(pad, new_hi),
    ensures
        new_lo.floor_block() as i32 <= lo.ceil_block(),
        hi.floor_block() <= new_hi.ceil_block() as i32,
{
    pad.lemma_negation();
    crate::coord::lemma_floor_at_most_ceil(new_lo);
    crate::coord::lemma_floor_at_most_ceil(new_hi);
    if !lo.is_nan() {
        lo.lemma_difference_bounds(pad, new_lo);
        crate::coord::lemma_rounding_monotone(new_lo, lo);
    }
    if !hi.is_nan() {
        hi.lemma_sum_bounds(pad, new_hi);
        crate::coord::lemma_rounding_monotone(hi, new_hi);
    }
}

impl SpatialPose {
    /// Compute the loose coverage box that keeps small movements from re-indexing
    /// microcells.
    pub fn compute_coverage_bounds(exact: BoundingBox, horizontal_speed: Coord) -> (r: BoundingBox)
        ensures
            is_coverage(exact, horizontal_speed, r),
    {
        reveal(is_coverage);
        let base = Coord::from_bits(MIN_PADDING_BITS);
        let most = Coord::from_bits(MAX_PADDING_BITS);
        let travel = horizontal_speed.plus(horizontal_speed);
        let raw = base.plus(travel);
        let padding = if raw.lt(base) {
            base
        } else if most.lt(raw) {
            most
        } else {
            raw
        };
        proof {
            assert(base == min_padding());
            assert(most == max_padding());
            assert(horizontal_speed.adds_to(horizontal_speed, travel));
            assert(min_padding().adds_to(travel, raw));
            assert(is_padding(horizontal_speed, padding));
        }
        let r = if raw.is_not_number() {
            exact.expand(padding, padding, padding)
        } else {
            proof {
                lemma_padding_range(horizontal_speed, padding);
            }
            let half = Coord::from_bits(padding.to_bits() - crate::coord::FRACTION_SPAN);
            exact.expand(padding, half, padding)
        };
        r
    }

    /// Check if `exact_bounds` fits entirely inside a coverage box.
    pub fn is_contained_in(&self, coverage: &BoundingBox) -> (r: bool)
        ensures
            r == self.exact_bounds.inside(*coverage),
            self.exact_bounds.has_no_nan() && coverage.has_no_nan() ==> (r <==> {
                &&& coverage.min.x.value() <= self.exact_bounds.min.x.value()
                &&& coverage.min.y.value() <= self.exact_bounds.min.y.value()
                &&& coverage.min.z.value() <= self.exact_bounds.min.z.value()
                &&& self.exact_bounds.max.x.value() <= coverage.max.x.value()
                &&& self.exact_bounds.max.y.value() <= coverage.max.y.value()
                &&& self.exact_bounds.max.z.value() <= coverage.max.z.value()
            }),
    {
        self.exact_bounds.is_inside(coverage)
    }
}

/// A sequence read before and after the words of a pose vouches for them: it is
/// even, so no publication was under way, and it has not moved.
pub open spec fn sequence_accepts(first: u64, second: u64) -> bool {
    first % 2 == 0 && first == second
}

/// How many words hold a pose.
pub open spec fn word_count() -> int {
    16
}

/// The words that hold a pose, in the order in which they are stored.
pub open spec fn words_of(pose: SpatialPose) -> Seq<u64> {
    let (exact, coverage) = (pose.exact_bounds, pose.coverage_bounds);
    seq![
        exact.min.x.bits,
        exact.min.y.bits,
        exact.min.z.bits,
        exact.max.x.bits,
        exact.max.y.bits,
        exact.max.z.bits,
        coverage.min.x.bits,
        coverage.min.y.bits,
        coverage.min.z.bits,
        coverage.max.x.bits,
        coverage.max.y.bits,
        coverage.max.z.bits,
        pose.world_id,
        pose.membership_revision as u64,
        pose.categories.bits as u64,
        if pose.alive { 1 } else { 0 },
    ]
}

/// The box that six words hold, from the given one on.
pub open spec fn box_of(words: Seq<u64>, from: int) -> BoundingBox {
    BoundingBox {
        min: Vector3 {
            x: Coord { bits: words[from] },
            y: Coord { bits: words[from + 1] },
            z: Coord { bits: words[from + 2] },
        },
        max: Vector3 {
            x: Coord { bits: words[from + 3] },
            y: Coord { bits: words[from + 4] },
            z: Coord { bits: words[from + 5] },
        },
    }
}

/// The pose that words hold.
pub open spec fn pose_of(words: Seq<u64>) -> SpatialPose {
    SpatialPose {
        world_id: words[12],
        exact_bounds: box_of(words, 0),
        coverage_bounds: box_of(words, 6),
        membership_revision: words[13] as u32,
        categories: SpatialCategory { bits: words[14] as u32 },
        alive: words[15] != 0,
    }
}

/// The words of a pose hold that pose.
pub proof fn lemma_words_hold_pose(pose: SpatialPose)
    ensures
        words_of(pose).len() == word_count(),
        pose_of(words_of(pose)) == pose,
{
}

/// The memory that a sequence lock guards: its counter, the guarded words, and how many
/// of them the publication under way has stored.
pub struct SeqlockMemory {
    pub sequence: nat,
    pub words: Seq<u64>,
    pub stored: int,
}

impl SeqlockMemory {
    /// How many publications after the first pose are finished.
    pub open spec fn finished(self) -> int {
        self.sequence as int / 2
    }

    /// One step of the writer who publishes the poses one after the other: it makes
    /// the counter odd, stores the words in their order, and makes the counter even
    /// again. It may also do nothing.
    pub open spec fn writer_step(self, next: SeqlockMemory, poses: Seq<SpatialPose>) -> bool {
        ||| next == self
        ||| {
            &&& self.sequence % 2 == 0
            &&& self.finished() + 1 < poses.len()
            &&& next == (SeqlockMemory { sequence: self.sequence + 1, stored: 0, ..self })
        }
        ||| {
            &&& self.sequence % 2 == 1
            &&& self.stored < word_count()
            &&& next == (SeqlockMemory {
                words: self.words.update(
                    self.stored,
                    words_of(poses[self.finished() + 1])[self.stored],
                ),
                stored: self.stored + 1,
                ..self
            })
        }
        ||| {
            &&& self.sequence % 2 == 1
            &&& self.stored == word_count()
            &&& next == (SeqlockMemory { sequence: self.sequence + 1, ..self })
        }
    }

    /// The words are those of the last finished publication, but for the ones that the
    /// publication under way has stored.
    spec fn holds(self, poses: Seq<SpatialPose>) -> bool {
        let k = self.finished();
        &&& self.words.len() == word_count()
        &&& 0 <= k < poses.len()
        &&& self.sequence % 2 == 0 ==> self.words == words_of(poses[k])
        &&& self.sequence % 2 == 1 ==> {
            &&& k + 1 < poses.len()
            &&& 0 <= self.stored <= word_count()
            &&& forall|i: int|
                0 <= i < word_count() ==> #[trigger] self.words[i] == (if i < self.stored {
                    words_of(poses[k + 1])[i]
                } else {
                    words_of(poses[k])[i]
                })
        }
    }

    proof fn lemma_step_holds(self, next: SeqlockMemory, poses: Seq<SpatialPose>)
        requires
            self.holds(poses),
            self.writer_step(next, poses),
        ensures
            next.holds(poses),
            self.sequence <= next.sequence,
            self.sequence % 2 == 0 && self.sequence == next.sequence ==> next.words == self.words,
    {
        if next.sequence % 2 == 0 && self.sequence % 2 == 1 {
            assert(next.finished() == self.finished() + 1);
            assert(next.words =~= words_of(poses[self.finished() + 1]));
        }
    }
}

/// A history of the memory while the poses are published: it starts with the first
/// pose, and every moment follows from the one before by a step of the writer.
pub open spec fn is_seqlock_history(
    history: Seq<SeqlockMemory>,
    poses: Seq<SpatialPose>,
) -> bool {
    &&& history.len() > 0
    &&& poses.len() > 0
    &&& history[0].sequence == 0
    &&& history[0].words == words_of(poses[0])
    &&& forall|t: int|
        0 <= t < history.len() - 1 ==> (#[trigger] history[t]).writer_step(history[t + 1], poses)
}

proof fn lemma_history_holds(history: Seq<SeqlockMemory>, poses: Seq<SpatialPose>, t: int)
    requires
        is_seqlock_history(history, poses),
        0 <= t < history.len(),
    ensures
        history[t].holds(poses),
    decreases t,
{
    if t > 0 {
        lemma_history_holds(history, poses, t - 1);
        assert(history[t - 1].writer_step(history[t - 1 + 1], poses));
        history[t - 1].lemma_step_holds(history[t], poses);
    }
}

proof fn lemma_sequence_grows(
    history: Seq<SeqlockMemory>,
    poses: Seq<SpatialPose>,
    from: int,
    to: int,
)
    requires
        is_seqlock_history(history, poses),
        0 <= from <= to < history.len(),
    ensures
        history[from].sequence <= history[to].sequence,
    decreases to - from,
{
    if from < to {
        lemma_sequence_grows(history, poses, from, to - 1);
        assert(history[to - 1].writer_step(history[to - 1 + 1], poses));
    }
}

/// A coherent snapshot. A read that begins at `begin` takes the counter at `first`, each
/// word at a moment of its own, and the counter again at `last`. When the counter is
/// even and the same both times, the words are those of one publication, whatever the
/// writer did meanwhile: a whole pose that was published, and the last one that was
/// finished when the read began, or a later one. The counter is taken not to wrap.
pub proof fn law_seqlock_read_is_coherent(
    history: Seq<SeqlockMemory>,
    poses: Seq<SpatialPose>,
    begin: int,
    first: int,
    moments: Seq<int>,
    last: int,
)
    requires
        is_seqlock_history(history, poses),
        0 <= begin <= first <= last < history.len(),
        moments.len() == word_count(),
        forall|i: int| 0 <= i < word_count() ==> first <= #[trigger] moments[i] <= last,
        history[first].sequence % 2 == 0,
        history[first].sequence == history[last].sequence,
    ensures
        ({
            let read = Seq::new(
                word_count() as nat,
                |i: int| history[moments[i]].words[i],
            );
            let k = history[first].finished();
            &&& 0 <= k < poses.len()
            &&& read == words_of(poses[k])
            &&& pose_of(read) == poses[k]
            &&& history[begin].finished() <= k <= history[last].finished()
        }),
{
    let k = history[first].finished();
    let read = Seq::new(word_count() as nat, |i: int| history[moments[i]].words[i]);
    lemma_history_holds(history, poses, first);
    lemma_sequence_grows(history, poses, begin, first);
    assert forall|i: int| 0 <= i < word_count() implies read[i] == words_of(poses[k])[i] by {
        let t = moments[i];
        lemma_history_holds(history, poses, t);
        lemma_sequence_grows(history, poses, first, t);
        lemma_sequence_grows(history, poses, t, last);
    }
    lemma_words_hold_pose(poses[k]);
    assert(read =~= words_of(poses[k]));
}

/// The published pose of an entity, guarded by a sequence counter that is odd
/// while a publication is under way.
pub struct AtomicSpatialPose {
    sequence: u64,
    min_x: u64,
    min_y: u64,
    min_z: u64,
    max_x: u64,
    max_y: u64,
    max_z: u64,
    cov_min_x: u64,
    cov_min_y: u64,
    cov_min_z: u64,
    cov_max_x: u64,
    cov_max_y: u64,
    cov_max_z: u64,
    world_id: u64,
    membership_revision: u32,
    categories: u32,
    alive: bool,
}

impl SpatialPose {
    /// The pose as readers see it: categories without unknown flags.
    pub open spec fn as_published(self) -> SpatialPose {
        SpatialPose { categories: SpatialCategory::truncated(self.categories.bits), ..self }
    }
}

impl AtomicSpatialPose {
    /// No publication is under way.
    pub closed spec fn is_stable(&self) -> bool {
        self.sequence % 2 == 0
    }

    /// How far the sequence counter has come.
    pub closed spec fn sequence(&self) -> u64 {
        self.sequence
    }

    /// The words, in the order in which they are stored.
    pub closed spec fn words(&self) -> Seq<u64> {
        seq![
            self.min_x,
            self.min_y,
            self.min_z,
            self.max_x,
            self.max_y,
            self.max_z,
            self.cov_min_x,
            self.cov_min_y,
            self.cov_min_z,
            self.cov_max_x,
            self.cov_max_y,
            self.cov_max_z,
            self.world_id,
            self.membership_revision as u64,
            self.categories as u64,
            if self.alive { 1 } else { 0 },
        ]
    }

    /// The pose that the words hold.
    pub closed spec fn pose(&self) -> SpatialPose {
        SpatialPose {
            world_id: self.world_id,
            exact_bounds: BoundingBox {
                min: Vector3 {
                    x: Coord { bits: self.min_x },
                    y: Coord { bits: self.min_y },
                    z: Coord { bits: self.min_z },
                },
                max: Vector3 {
                    x: Coord { bits: self.max_x },
                    y: Coord { bits: self.max_y },
                    z: Coord { bits: self.max_z },
                },
            },
            coverage_bounds: BoundingBox {
                min: Vector3 {
                    x: Coord { bits: self.cov_min_x },
                    y: Coord { bits: self.cov_min_y },
                    z: Coord { bits: self.cov_min_z },
                },
                max: Vector3 {
                    x: Coord { bits: self.cov_max_x },
                    y: Coord { bits: self.cov_max_y },
                    z: Coord { bits: self.cov_max_z },
                },
            },
            membership_revision: self.membership_revision,
            categories: SpatialCategory { bits: self.categories },
            alive: self.alive,
        }
    }

    /// A first publication.
    pub fn new(pose: SpatialPose) -> (r: AtomicSpatialPose)
        ensures
            r.is_stable(),
            r.sequence() == 0,
            r.pose() == pose,
            r.words() == words_of(pose),
    {
        AtomicSpatialPose {
            sequence: 0,
            min_x: pose.exact_bounds.min.x.to_bits(),
            min_y: pose.exact_bounds.min.y.to_bits(),
            min_z: pose.exact_bounds.min.z.to_bits(),
            max_x: pose.exact_bounds.max.x.to_bits(),
            max_y: pose.exact_bounds.max.y.to_bits(),
            max_z: pose.exact_bounds.max.z.to_bits(),
            cov_min_x: pose.coverage_bounds.min.x.to_bits(),
            cov_min_y: pose.coverage_bounds.min.y.to_bits(),
            cov_min_z: pose.coverage_bounds.min.z.to_bits(),
            cov_max_x: pose.coverage_bounds.max.x.to_bits(),
            cov_max_y: pose.coverage_bounds.max.y.to_bits(),
            cov_max_z: pose.coverage_bounds.max.z.to_bits(),
            world_id: pose.world_id,
            membership_revision: pose.membership_revision,
            categories: pose.categories.bits(),
            alive: pose.alive,
        }
    }

    /// The pose in the words, if the sequence read before and after vouches for it.
    pub fn try_read(&self, first: u64, second: u64) -> (r: Option<SpatialPose>)
        ensures
            r == (if sequence_accepts(first, second) {
                Some(pose_of(self.words()).as_published())
            } else {
                None
            }),
            self.pose() == pose_of(self.words()),
            r is Some <==> first % 2 == 0 && first == second,
            r matches Some(pose) ==> {
                &&& pose.world_id == self.pose().world_id
                &&& pose.exact_bounds == self.pose().exact_bounds
                &&& pose.coverage_bounds == self.pose().coverage_bounds
                &&& pose.membership_revision == self.pose().membership_revision
                &&& pose.categories.bits == self.pose().categories.bits & 0x3ff
                &&& pose.alive == self.pose().alive
            },
    {
        if first % 2 != 0 || first != second {
            return None;
        }
        Some(
            SpatialPose {
                world_id: self.world_id,
                exact_bounds: BoundingBox::new(
                    Vector3::new(
                        Coord::from_bits(self.min_x),
                        Coord::from_bits(self.min_y),
                        Coord::from_bits(self.min_z),
                    ),
                    Vector3::new(
                        Coord::from_bits(self.max_x),
                        Coord::from_bits(self.max_y),
                        Coord::from_bits(self.max_z),
                    ),
                ),
                coverage_bounds: BoundingBox::new(
                    Vector3::new(
                        Coord::from_bits(self.cov_min_x),
                        Coord::from_bits(self.cov_min_y),
                        Coord::from_bits(self.cov_min_z),
                    ),
                    Vector3::new(
                        Coord::from_bits(self.cov_max_x),
                        Coord::from_bits(self.cov_max_y),
                        Coord::from_bits(self.cov_max_z),
                    ),
                ),
                membership_revision: self.membership_revision,
                categories: SpatialCategory::from_bits_truncate(self.categories),
                alive: self.alive,
            },
        )
    }

    /// Read a consistent pose snapshot.
    pub fn read(&self) -> (r: SpatialPose)
        requires
            self.is_stable(),
        ensures
            r == self.pose().as_published(),
            r.world_id == self.pose().world_id,
            r.exact_bounds == self.pose().exact_bounds,
            r.coverage_bounds == self.pose().coverage_bounds,
            r.membership_revision == self.pose().membership_revision,
            r.categories.bits == self.pose().categories.bits & 0x3ff,
            r.alive == self.pose().alive,
    {
        loop
            invariant
                self.is_stable(),
            decreases 0nat,
        {
            let first: u64 = self.sequence;
            match self.try_read(first, self.sequence) {
                Some(pose) => {
                    return pose;
                },
                None => {},
            }
        }
    }

    /// Publish a new pose snapshot.
    pub fn publish(&mut self, pose: SpatialPose)
        ensures
            final(self).pose() == pose,
            final(self).words() == words_of(pose),
            final(self).sequence() == (old(self).sequence() + 2) % 0x1_0000_0000_0000_0000,
            final(self).is_stable() == old(self).is_stable(),
    {
        let sequence: u64 = self.sequence;
        self.sequence = sequence.wrapping_add(1);

        self.min_x = pose.exact_bounds.min.x.to_bits();
        self.min_y = pose.exact_bounds.min.y.to_bits();
        self.min_z = pose.exact_bounds.min.z.to_bits();
        self.max_x = pose.exact_bounds.max.x.to_bits();
        self.max_y = pose.exact_bounds.max.y.to_bits();
        self.max_z = pose.exact_bounds.max.z.to_bits();

        self.cov_min_x = pose.coverage_bounds.min.x.to_bits();
        self.cov_min_y = pose.coverage_bounds.min.y.to_bits();
        self.cov_min_z = pose.coverage_bounds.min.z.to_bits();
        self.cov_max_x = pose.coverage_bounds.max.x.to_bits();
        self.cov_max_y = pose.coverage_bounds.max.y.to_bits();
        self.cov_max_z = pose.coverage_bounds.max.z.to_bits();

        self.world_id = pose.world_id;
        self.membership_revision = pose.membership_revision;
        self.categories = pose.categories.bits();
        self.alive = pose.alive;

        self.sequence = sequence.wrapping_add(2);
    }
}

/// Light proxy per indexed entity: its handle, its published pose, and the chunk
/// columns (x and z) that its latest memberships touch.
pub struct SpatialProxy {
    pub key: EntityKey,
    pub pose: AtomicSpatialPose,
    pub touched_chunks: Vec<(i32, i32)>,
}

impl SpatialProxy {
    pub fn new(key: EntityKey, initial_pose: SpatialPose) -> (r: SpatialProxy)
        ensures
            r.key == key,
            r.pose.is_stable(),
            r.pose.pose() == initial_pose,
            r.touched_chunks@ == Seq::<(i32, i32)>::empty(),
    {
        SpatialProxy { key, pose: AtomicSpatialPose::new(initial_pose), touched_chunks: Vec::new() }
    }
}

/// Readers see a pose as it was published where all its category flags are known;
/// unknown flags are what no reader sees.
pub proof fn law_read_returns_published(pose: SpatialPose)
    requires
        pose.categories.bits & SpatialCategory::KNOWN == pose.categories.bits,
    ensures
        pose.as_published() == pose,
{
}

/// The coverage of a box at a finite speed has one result, up to which NaN a face
/// is.
pub proof fn law_coverage_is_unique(
    exact: BoundingBox,
    speed: Coord,
    r1: BoundingBox,
    r2: BoundingBox,
)
    requires
        speed.is_finite(),
        is_coverage(exact, speed, r1),
        is_coverage(exact, speed, r2),
    ensures
        r1.same_faces(r2),
{
    reveal(is_coverage);
    let p1 = choose|padding: Coord|
        {
            &&& #[trigger] is_padding(speed, padding)
            &&& exact.expands_to(padding, half_padding(padding), padding, r1)
        };
    let p2 = choose|padding: Coord|
        {
            &&& #[trigger] is_padding(speed, padding)
            &&& exact.expands_to(padding, half_padding(padding), padding, r2)
        };
    lemma_padding_is_unique(speed, p1, p2);
    crate::geometry::law_expansion_is_unique(exact, p1, half_padding(p1), p1, r1, r2);
}

/// The speed from which on the padding is greatest, 0.875.
pub const FULL_PADDING_SPEED_BITS: u64 = 0x3fec_0000_0000_0000;

/// The speed from which on the padding is greatest.
pub open spec fn full_padding_speed() -> Coord {
    Coord { bits: FULL_PADDING_SPEED_BITS }
}

/// 1.75, two ticks of travel at the speed from which on the padding is greatest.
spec fn full_travel() -> Coord {
    Coord { bits: 0x3ffc_0000_0000_0000 }
}

proof fn lemma_full_padding_values()
    ensures
        full_padding_speed().is_finite(),
        full_travel().is_finite(),
        2 * full_padding_speed().value() == full_travel().value(),
        min_padding().value() + full_travel().value() == max_padding().value(),
        0 < full_padding_speed().value(),
{
    lemma_padding_values();
    lemma2_to64();
    lemma2_to64_rest();
    lemma_pow2_pos(1021);
    lemma_pow2_unfold(1022);
    lemma_pow2_unfold(1023);
    assert(0x3fec_0000_0000_0000u64 / crate::coord::FRACTION_SPAN == 1022);
    assert(0x3fec_0000_0000_0000u64 % crate::coord::FRACTION_SPAN == 0xc_0000_0000_0000);
    assert(0x3ffc_0000_0000_0000u64 / crate::coord::FRACTION_SPAN == 1023);
    assert(0x3ffc_0000_0000_0000u64 % crate::coord::FRACTION_SPAN == 0xc_0000_0000_0000);
    let p = pow2(1021) as int;
    assert(full_padding_speed().value() == 0x1c_0000_0000_0000 * p);
    assert(full_travel().value() == 0x1c_0000_0000_0000 * (2 * p));
    lemma_pow2_adds(52, 1020);
    lemma_pow2_adds(52, 1023);
    lemma_pow2_unfold(1021);
    assert(min_padding().value() == 0x10_0000_0000_0000 * pow2(1020));
    assert(max_padding().value() == 0x10_0000_0000_0000 * pow2(1023));
}

/// The padding as it comes out of two sums.
spec fn padding_from(speed: Coord, travel: Coord, raw: Coord, padding: Coord) -> bool {
    &&& speed.adds_to(speed, travel)
    &&& min_padding().adds_to(travel, raw)
    &&& padding == (if raw.below(min_padding()) {
        min_padding()
    } else if max_padding().below(raw) {
        max_padding()
    } else {
        raw
    })
}

/// The padding at a speed that is a number is a number.
proof fn lemma_padding_is_number(speed: Coord, travel: Coord, raw: Coord, padding: Coord)
    requires
        !speed.is_nan(),
        padding_from(speed, travel, raw, padding),
    ensures
        !travel.is_nan(),
        !raw.is_nan(),
        !padding.is_nan(),
{
    lemma_padding_values();
}

proof fn lemma_infinity_is_far(c: Coord)
    requires
        c.is_infinite(),
    ensures
        c.is_negative() ==> c.value() < 0,
        !c.is_negative() ==> c.value() > max_padding().value(),
{
    lemma_padding_values();
    lemma2_to64();
    lemma2_to64_rest();
    lemma_pow2_adds(52, 2046);
    lemma_pow2_strictly_increases(1075, 2098);
}

/// The padding is 0.25 at rest and at any speed below zero, and 2 from a speed of 0.875
/// on, infinities included.
pub proof fn law_padding_has_two_ends(speed: Coord, padding: Coord)
    requires
        !speed.is_nan(),
        is_padding(speed, padding),
    ensures
        speed.value() <= 0 ==> padding == min_padding(),
        full_padding_speed().value() <= speed.value() ==> padding == max_padding(),
{
    let (travel, raw) = choose|travel: Coord, raw: Coord|
        {
            &&& #[trigger] speed.adds_to(speed, travel)
            &&& #[trigger] min_padding().adds_to(travel, raw)
            &&& padding == (if raw.below(min_padding()) {
                min_padding()
            } else if max_padding().below(raw) {
                max_padding()
            } else {
                raw
            })
        };
    assert(padding_from(speed, travel, raw, padding));
    lemma_padding_is_number(speed, travel, raw, padding);
    lemma_padding_values();
    lemma_full_padding_values();
    lemma_pow2_pos(1072);
    lemma_pow2_strictly_increases(1072, 1075);
    let (low, high) = (min_padding(), max_padding());
    let zero = Coord { bits: 0 };
    assert(zero.value() == 0);
    assert(crate::coord::rounds_to(0, zero));
    crate::coord::law_number_rounds_to_itself(low, low);
    crate::coord::law_number_rounds_to_itself(high, high);
    crate::coord::law_number_rounds_to_itself(full_travel(), full_travel());
    if speed.is_infinite() {
        lemma_infinity_is_far(speed);
        assert(travel == speed && raw == speed);
    } else {
        if speed.value() <= 0 {
            crate::coord::law_rounding_keeps_order(2 * speed.value(), 0, travel, zero);
            if travel.is_infinite() {
                lemma_infinity_is_far(travel);
                assert(raw == travel);
            } else {
                crate::coord::law_rounding_keeps_order(
                    low.value() + travel.value(),
                    low.value(),
                    raw,
                    low,
                );
                if raw.value() == low.value() {
                    crate::coord::lemma_value_tells(raw, low);
                }
            }
        }
        if full_padding_speed().value() <= speed.value() {
            crate::coord::law_rounding_keeps_order(
                full_travel().value(),
                2 * speed.value(),
                full_travel(),
                travel,
            );
            if travel.is_infinite() {
                lemma_infinity_is_far(travel);
                assert(raw == travel);
            } else {
                crate::coord::law_rounding_keeps_order(
                    high.value(),
                    low.value() + travel.value(),
                    high,
                    raw,
                );
                if raw.value() == high.value() {
                    crate::coord::lemma_value_tells(raw, high);
                }
            }
        }
    }
}

/// A greater speed never gets a smaller padding.
pub proof fn law_padding_grows_with_speed(slow: Coord, fast: Coord, p: Coord, q: Coord)
    requires
        slow.at_most(fast),
        is_padding(slow, p),
        is_padding(fast, q),
    ensures
        p.at_most(q),
{
    let (travel1, raw1) = choose|travel: Coord, raw: Coord|
        {
            &&& #[trigger] slow.adds_to(slow, travel)
            &&& #[trigger] min_padding().adds_to(travel, raw)
            &&& p == (if raw.below(min_padding()) {
                min_padding()
            } else if max_padding().below(raw) {
                max_padding()
            } else {
                raw
            })
        };
    let (travel2, raw2) = choose|travel: Coord, raw: Coord|
        {
            &&& #[trigger] fast.adds_to(fast, travel)
            &&& #[trigger] min_padding().adds_to(travel, raw)
            &&& q == (if raw.below(min_padding()) {
                min_padding()
            } else if max_padding().below(raw) {
                max_padding()
            } else {
                raw
            })
        };
    assert(padding_from(slow, travel1, raw1, p));
    assert(padding_from(fast, travel2, raw2, q));
    lemma_padding_is_number(slow, travel1, raw1, p);
    lemma_padding_is_number(fast, travel2, raw2, q);
    lemma_padding_range(slow, p);
    lemma_padding_range(fast, q);
    law_padding_has_two_ends(slow, p);
    law_padding_has_two_ends(fast, q);
    lemma_full_padding_values();
    if 0 < slow.value() && fast.value() < full_padding_speed().value() {
        lemma_middle_travel(slow, travel1);
        lemma_middle_travel(fast, travel2);
        crate::coord::law_rounding_keeps_order(
            2 * slow.value(),
            2 * fast.value(),
            travel1,
            travel2,
        );
        crate::coord::law_rounding_keeps_order(
            min_padding().value() + travel1.value(),
            min_padding().value() + travel2.value(),
            raw1,
            raw2,
        );
    }
}

/// Between its two ends the padding comes from finite sums.
proof fn lemma_middle_travel(speed: Coord, travel: Coord)
    requires
        !speed.is_nan(),
        0 < speed.value() < full_padding_speed().value(),
        speed.adds_to(speed, travel),
    ensures
        speed.is_finite(),
        travel.is_finite(),
        min_padding().is_finite(),
        crate::coord::rounds_to(2 * speed.value(), travel),
{
    lemma_padding_values();
    lemma_full_padding_values();
    lemma_pow2_pos(1072);
    if speed.is_infinite() {
        lemma_infinity_is_far(speed);
    }
    let zero = Coord { bits: 0 };
    assert(zero.value() == 0);
    assert(crate::coord::rounds_to(0, zero));
    crate::coord::law_number_rounds_to_itself(full_travel(), full_travel());
    crate::coord::law_rounding_keeps_order(
        2 * speed.value(),
        full_travel().value(),
        travel,
        full_travel(),
    );
    crate::coord::law_rounding_keeps_order(0, 2 * speed.value(), zero, travel);
    if travel.is_infinite() {
        lemma_infinity_is_far(travel);
    }
}

/// The exact box lies inside its coverage.
pub proof fn law_exact_box_lies_inside_coverage(
    exact: BoundingBox,
    speed: Coord,
    coverage: BoundingBox,
)
    requires
        !speed.is_nan(),
        exact.has_no_nan(),
        is_coverage(exact, speed, coverage),
    ensures
        exact.inside(coverage),
{
    reveal(is_coverage);
    let padding = choose|padding: Coord|
        {
            &&& #[trigger] is_padding(speed, padding)
            &&& exact.expands_to(padding, half_padding(padding), padding, coverage)
        };
    lemma_padding_number(speed, padding);
    lemma_padding_values();
    lemma_pow2_pos(1072);
    lemma_padding_range(speed, padding);
    let h = half_padding(padding);
    exact.min.x.lemma_difference_bounds(padding, coverage.min.x);
    exact.min.y.lemma_difference_bounds(h, coverage.min.y);
    exact.min.z.lemma_difference_bounds(padding, coverage.min.z);
    exact.max.x.lemma_sum_bounds(padding, coverage.max.x);
    exact.max.y.lemma_sum_bounds(h, coverage.max.y);
    exact.max.z.lemma_sum_bounds(padding, coverage.max.z);
}

proof fn lemma_padding_number(speed: Coord, padding: Coord)
    requires
        !speed.is_nan(),
        is_padding(speed, padding),
    ensures
        !padding.is_nan(),
{
    let (travel, raw) = choose|travel: Coord, raw: Coord|
        {
            &&& #[trigger] speed.adds_to(speed, travel)
            &&& #[trigger] min_padding().adds_to(travel, raw)
            &&& padding == (if raw.below(min_padding()) {
                min_padding()
            } else if max_padding().below(raw) {
                max_padding()
            } else {
                raw
            })
        };
    lemma_padding_is_number(speed, travel, raw, padding);
}

/// On one axis, a greater amount moves both faces at least as far outwards.
proof fn lemma_faces_ordered(
    lo: Coord,
    hi: Coord,
    less: Coord,
    more: Coord,
    inner: (Coord, Coord),
    outer: (Coord, Coord),
)
    requires
        !lo.is_nan(),
        !hi.is_nan(),
        less.is_finite(),
        more.is_finite(),
        0 <= less.value() <= more.value(),
        lo.adds_to(less.negation(), inner.0),
        hi.adds_to(less, inner.1),
        lo.adds_to(more.negation(), outer.0),
        hi.adds_to(more, outer.1),
    ensures
        outer.0.at_most(inner.0),
        inner.1.at_most(outer.1),
{
    less.lemma_negation();
    more.lemma_negation();
    if lo.is_finite() {
        crate::coord::law_rounding_keeps_order(
            lo.value() - more.value(),
            lo.value() - less.value(),
            outer.0,
            inner.0,
        );
    }
    if hi.is_finite() {
        crate::coord::law_rounding_keeps_order(
            hi.value() + less.value(),
            hi.value() + more.value(),
            inner.1,
            outer.1,
        );
    }
}

/// The coverage never shrinks as the speed grows.
pub proof fn law_coverage_grows_with_speed(
    exact: BoundingBox,
    slow: Coord,
    fast: Coord,
    inner: BoundingBox,
    outer: BoundingBox,
)
    requires
        exact.has_no_nan(),
        slow.at_most(fast),
        is_coverage(exact, slow, inner),
        is_coverage(exact, fast, outer),
    ensures
        inner.inside(outer),
{
    reveal(is_coverage);
    let p = choose|padding: Coord|
        {
            &&& #[trigger] is_padding(slow, padding)
            &&& exact.expands_to(padding, half_padding(padding), padding, inner)
        };
    let q = choose|padding: Coord|
        {
            &&& #[trigger] is_padding(fast, padding)
            &&& exact.expands_to(padding, half_padding(padding), padding, outer)
        };
    law_padding_grows_with_speed(slow, fast, p, q);
    lemma_padding_values();
    lemma_pow2_pos(1072);
    lemma_padding_range(slow, p);
    lemma_padding_range(fast, q);
    let (h, i) = (half_padding(p), half_padding(q));
    lemma_faces_ordered(
        exact.min.x,
        exact.max.x,
        p,
        q,
        (inner.min.x, inner.max.x),
        (outer.min.x, outer.max.x),
    );
    lemma_faces_ordered(
        exact.min.y,
        exact.max.y,
        h,
        i,
        (inner.min.y, inner.max.y),
        (outer.min.y, outer.max.y),
    );
    lemma_faces_ordered(
        exact.min.z,
        exact.max.z,
        p,
        q,
        (inner.min.z, inner.max.z),
        (outer.min.z, outer.max.z),
    );
}

/// The padding at a finite speed has one result.
proof fn lemma_padding_is_unique(speed: Coord, p1: Coord, p2: Coord)
    requires
        speed.is_finite(),
        is_padding(speed, p1),
        is_padding(speed, p2),
    ensures
        p1 == p2,
{
    lemma_padding_values();
    let (travel1, raw1) = choose|travel: Coord, raw: Coord|
        {
            &&& #[trigger] speed.adds_to(speed, travel)
            &&& #[trigger] min_padding().adds_to(travel, raw)
            &&& p1 == (if raw.below(min_padding()) {
                min_padding()
            } else if max_padding().below(raw) {
                max_padding()
            } else {
                raw
            })
        };
    let (travel2, raw2) = choose|travel: Coord, raw: Coord|
        {
            &&& #[trigger] speed.adds_to(speed, travel)
            &&& #[trigger] min_padding().adds_to(travel, raw)
            &&& p2 == (if raw.below(min_padding()) {
                min_padding()
            } else if max_padding().below(raw) {
                max_padding()
            } else {
                raw
            })
        };
    crate::coord::law_sum_is_unique(speed, speed, travel1, travel2);
    crate::coord::law_sum_is_unique(min_padding(), travel1, raw1, raw2);
}

/// An entity passes a mask exactly where they have a flag in common; an empty mask
/// passes all. One flag in common is enough, whatever other flags there are on either
/// side.
pub proof fn law_one_common_flag_passes(categories: SpatialCategory, mask: u32, flag: u32)
    ensures
        flag != 0 && categories.bits & flag == flag && mask & flag == flag ==> categories.passes(
            mask,
        ),
        mask == 0 ==> categories.passes(mask),
        mask != 0 && categories.bits & mask == 0 ==> !categories.passes(mask),
        mask != 0 && categories.passes(mask) ==> exists|single: u32|
            is_common_flag(categories.bits, mask, single),
{
    let bits = categories.bits;
    assert(flag != 0 && bits & flag == flag && mask & flag == flag ==> bits & mask != 0)
        by (bit_vector);
    if mask != 0 && categories.passes(mask) {
        let c = bits & mask;
        let d = (c - 1) as u32;
        let single = c & !d;
        let e = (single - 1) as u32;
        assert(single != 0 && single & e == 0 && bits & single == single && mask & single == single)
            by (bit_vector)
            requires
                c == bits & mask,
                c != 0,
                d == (c - 1) as u32,
                single == c & !d,
                e == (single - 1) as u32,
        ;
        assert(is_common_flag(bits, mask, single));
    }
}

/// `flag` is one flag that is set in both words.
pub open spec fn is_common_flag(a: u32, b: u32, flag: u32) -> bool {
    &&& flag != 0
    &&& flag & ((flag - 1) as u32) == 0
    &&& a & flag == flag
    &&& b & flag == flag
}

/// Publishing drops unknown flags and nothing else.
pub proof fn law_publishing_drops_unknown_flags_only(pose: SpatialPose)
    ensures
        pose.as_published().world_id == pose.world_id,
        pose.as_published().exact_bounds == pose.exact_bounds,
        pose.as_published().coverage_bounds == pose.coverage_bounds,
        pose.as_published().membership_revision == pose.membership_revision,
        pose.as_published().categories.bits == pose.categories.bits & 0x3ff,
        pose.as_published().alive == pose.alive,
{
}

/// The padding in numbers: 0.25 up to a speed of zero, 2 from 0.875 on, and between them
/// what 0.25 plus twice the speed rounds to.
pub proof fn law_padding_in_numbers(speed: Coord, padding: Coord)
    requires
        !speed.is_nan(),
        is_padding(speed, padding),
    ensures
        padding.is_finite(),
        speed.value() <= 0 ==> padding.value() == pow2(1072),
        full_padding_speed().value() <= speed.value() ==> padding.value() == pow2(1075),
        0 < speed.value() < full_padding_speed().value() ==> exists|travel: Coord|
            {
                &&& #[trigger] crate::coord::rounds_to(2 * speed.value(), travel)
                &&& crate::coord::rounds_to(pow2(1072) + travel.value(), padding)
            },
{
    let (travel, raw) = choose|travel: Coord, raw: Coord|
        {
            &&& #[trigger] speed.adds_to(speed, travel)
            &&& #[trigger] min_padding().adds_to(travel, raw)
            &&& padding == (if raw.below(min_padding()) {
                min_padding()
            } else if max_padding().below(raw) {
                max_padding()
            } else {
                raw
            })
        };
    lemma_padding_number(speed, padding);
    lemma_padding_values();
    lemma_padding_range(speed, padding);
    law_padding_has_two_ends(speed, padding);
    if 0 < speed.value() < full_padding_speed().value() {
        lemma_middle_travel(speed, travel);
        lemma_middle_raw(speed, travel, raw);
    }
}

/// Between its two ends the padding needs no clamping.
proof fn lemma_middle_raw(speed: Coord, travel: Coord, raw: Coord)
    requires
        0 < speed.value() < full_padding_speed().value(),
        travel.is_finite(),
        crate::coord::rounds_to(2 * speed.value(), travel),
        min_padding().adds_to(travel, raw),
    ensures
        !raw.below(min_padding()),
        !max_padding().below(raw),
        crate::coord::rounds_to(pow2(1072) + travel.value(), raw),
{
    lemma_padding_values();
    lemma_full_padding_values();
    crate::coord::law_number_rounds_to_itself(min_padding(), min_padding());
    crate::coord::law_number_rounds_to_itself(max_padding(), max_padding());
    crate::coord::law_number_rounds_to_itself(full_travel(), full_travel());
    let zero = Coord { bits: 0 };
    assert(zero.value() == 0);
    assert(crate::coord::rounds_to(0, zero));
    crate::coord::law_rounding_keeps_order(0, 2 * speed.value(), zero, travel);
    crate::coord::law_rounding_keeps_order(
        2 * speed.value(),
        full_travel().value(),
        travel,
        full_travel(),
    );
    crate::coord::law_rounding_keeps_order(
        min_padding().value(),
        min_padding().value() + travel.value(),
        min_padding(),
        raw,
    );
    crate::coord::law_rounding_keeps_order(
        min_padding().value() + travel.value(),
        max_padding().value(),
        raw,
        max_padding(),
    );
}

/// The coverage in numbers: each horizontal face moves outwards by the padding and each
/// vertical one by half of it, rounded.
#[verifier::spinoff_prover]
#[verifier::rlimit(60)]
pub proof fn law_coverage_in_numbers(exact: BoundingBox, speed: Coord, coverage: BoundingBox)
    requires
        !speed.is_nan(),
        exact.min.x.is_finite() && exact.min.y.is_finite() && exact.min.z.is_finite(),
        exact.max.x.is_finite() && exact.max.y.is_finite() && exact.max.z.is_finite(),
        is_coverage(exact, speed, coverage),
    ensures
        exists|padding: Coord|
            {
                let p = padding.value();
                &&& #[trigger] is_padding(speed, padding)
                &&& crate::coord::rounds_to(exact.min.x.value() - p, coverage.min.x)
                &&& crate::coord::rounds_to(exact.min.y.value() - p / 2, coverage.min.y)
                &&& crate::coord::rounds_to(exact.min.z.value() - p, coverage.min.z)
                &&& crate::coord::rounds_to(exact.max.x.value() + p, coverage.max.x)
                &&& crate::coord::rounds_to(exact.max.y.value() + p / 2, coverage.max.y)
                &&& crate::coord::rounds_to(exact.max.z.value() + p, coverage.max.z)
            },
{
    reveal(is_coverage);
    let padding = choose|padding: Coord|
        {
            &&& #[trigger] is_padding(speed, padding)
            &&& exact.expands_to(padding, half_padding(padding), padding, coverage)
        };
    lemma_padding_number(speed, padding);
    lemma_padding_range(speed, padding);
    let h = half_padding(padding);
    assert(h.value() == padding.value() / 2);
    lemma_faces_round(exact.min.x, exact.max.x, padding, coverage.min.x, coverage.max.x);
    lemma_faces_round(exact.min.y, exact.max.y, h, coverage.min.y, coverage.max.y);
    lemma_faces_round(exact.min.z, exact.max.z, padding, coverage.min.z, coverage.max.z);
}

/// On one axis, moved faces are rounded sums.
proof fn lemma_faces_round(lo: Coord, hi: Coord, pad: Coord, new_lo: Coord, new_hi: Coord)
    requires
        lo.is_finite(),
        hi.is_finite(),
        pad.is_finite(),
        lo.adds_to(pad.negation(), new_lo),
        hi.adds_to(pad, new_hi),
    ensures
        crate::coord::rounds_to(lo.value() - pad.value(), new_lo),
        crate::coord::rounds_to(hi.value() + pad.value(), new_hi),
{
    pad.lemma_negation();
}

/// Poses are equal exactly where their fields are, the boxes as numbers.
pub proof fn law_poses_are_equal_by_fields(a: SpatialPose, b: SpatialPose)
    ensures
        a.equals(b) <==> {
            &&& a.world_id == b.world_id
            &&& a.exact_bounds.equals(b.exact_bounds)
            &&& a.coverage_bounds.equals(b.coverage_bounds)
            &&& a.membership_revision == b.membership_revision
            &&& a.categories.bits == b.categories.bits
            &&& a.alive == b.alive
        },
{
}

/// The speed that is assumed of a moving entity is half a block.
pub proof fn law_moving_speed_in_numbers(speed: Coord)
    requires
        speed.bits == MOVING_SPEED_BITS,
    ensures
        speed.value() == pow2(1073),
        2 * speed.value() == crate::coord::block_unit(),
{
    lemma2_to64();
    lemma2_to64_rest();
    lemma_pow2_adds(52, 1021);
    lemma_pow2_adds(1, 1073);
    assert(0x3fe0_0000_0000_0000u64 / crate::coord::FRACTION_SPAN == 1022);
}

/// A speed that is not a number gives a padding that is none either.
pub proof fn law_unknown_speed_gives_unknown_padding(speed: Coord, padding: Coord)
    requires
        speed.is_nan(),
        is_padding(speed, padding),
    ensures
        padding.is_nan(),
{
}

} // verus!
