//! Microcells: the sparse grid that narrows a spatial query down to candidates.
use crate::geometry::{BlockRange, Vector2};
use crate::spatial_pose::SpatialCategory;
use crate::spatial_registry::EntityKey;
use std::cmp::Ordering;
use std::collections::HashMap;
use vstd::prelude::*;

verus! {

broadcast use vstd::std_specs::hash::group_hash_axioms;

/// 8x8x8 microcell address inside a chunk column and 16-block vertical section.
#[derive(Debug, Clone, Copy, PartialEq, Eq, Structural, Hash, Ord)]
pub struct CellAddress {
    pub chunk_pos: Vector2,
    pub section_y: i8,
    pub cell_index: u8,
}

/// An integer cut down to its eight low bits, as a signed number.
pub open spec fn wrap_i8(v: int) -> int {
    (v + 128) % 256 - 128
}

/// The outcome of comparing two different numbers.
pub open spec fn address_rank(less: bool) -> Ordering {
    if less {
        Ordering::Less
    } else {
        Ordering::Greater
    }
}

impl CellAddress {
    /// The address of a block: columns and sections are 16 blocks wide, and the
    /// cell index has one bit per axis for the half of the section.
    pub open spec fn of_block(x: int, y: int, z: int) -> CellAddress {
        CellAddress {
            chunk_pos: Vector2 { x: (x / 16) as i32, y: (z / 16) as i32 },
            section_y: wrap_i8(y / 16) as i8,
            cell_index: (4 * ((y / 8) % 2) + 2 * ((z / 8) % 2) + (x / 8) % 2) as u8,
        }
    }

    /// Addresses are ordered by column x, column z, section and cell index.
    pub open spec fn address_order(self, other: CellAddress) -> Ordering {
        if self.chunk_pos.x != other.chunk_pos.x {
            address_rank(self.chunk_pos.x < other.chunk_pos.x)
        } else if self.chunk_pos.y != other.chunk_pos.y {
            address_rank(self.chunk_pos.y < other.chunk_pos.y)
        } else if self.section_y != other.section_y {
            address_rank(self.section_y < other.section_y)
        } else if self.cell_index != other.cell_index {
            address_rank(self.cell_index < other.cell_index)
        } else {
            Ordering::Equal
        }
    }

    /// Convert world block coordinates to a `CellAddress`.
    pub fn from_block_coords(block_x: i32, block_y: i32, block_z: i32) -> (r: CellAddress)
        ensures
            r == CellAddress::of_block(block_x as int, block_y as int, block_z as int),
            16 * r.chunk_pos.x <= block_x < 16 * r.chunk_pos.x + 16,
            16 * r.chunk_pos.y <= block_z < 16 * r.chunk_pos.y + 16,
            -2048 <= block_y < 2048 ==> 16 * r.section_y <= block_y < 16 * r.section_y + 16,
            (r.section_y - block_y as int / 16) % 256 == 0,
            r.cell_index < 8,
            r.cell_index % 2 == (block_x as int / 8) % 2,
            (r.cell_index / 2) % 2 == (block_z as int / 8) % 2,
            r.cell_index / 4 == (block_y as int / 8) % 2,
    {
        proof {
            lemma_shifts(block_x);
            lemma_shifts(block_y);
            lemma_shifts(block_z);
        }
        let chunk_x: i32 = block_x >> 4;
        let chunk_z: i32 = block_z >> 4;
        let section: i32 = block_y >> 4;
        let section_y: i8 = #[verifier::truncate] (section as i8);

        let micro_x: u8 = ((block_x >> 3) & 1) as u8;
        let micro_y: u8 = ((block_y >> 3) & 1) as u8;
        let micro_z: u8 = ((block_z >> 3) & 1) as u8;
        proof {
            lemma_truncate_i8(section);
            assert((micro_y << 2) | (micro_z << 1) | micro_x == 4 * micro_y + 2 * micro_z + micro_x)
                by (bit_vector)
                requires
                    micro_x <= 1,
                    micro_y <= 1,
                    micro_z <= 1,
            ;
        }
        let cell_index: u8 = (micro_y << 2) | (micro_z << 1) | micro_x;

        CellAddress { chunk_pos: Vector2::new(chunk_x, chunk_z), section_y, cell_index }
    }
}

proof fn lemma_shifts(v: i32)
    ensures
        v >> 4i32 == v as int / 16,
        (v >> 3i32) & 1 == (v as int / 8) % 2,
        -0x800_0000 <= v >> 4i32 < 0x800_0000,
{
    assert(v >> 4i32 == v / 16i32) by (bit_vector);
    assert(v >> 3i32 == v / 8i32) by (bit_vector);
    let w = v >> 3i32;
    assert(w & 1 == w % 2i32) by (bit_vector);
}

proof fn lemma_truncate_i8(v: i32)
    requires
        -0x800_0000 <= v < 0x800_0000,
    ensures
        (#[verifier::truncate] (v as i8)) as int == wrap_i8(v as int),
{
    let w = (v + 128) as i32;
    assert((#[verifier::truncate] (v as i8)) as i32 == w % 256i32 - 128i32) by (bit_vector)
        requires
            -0x800_0000 <= v < 0x800_0000,
            w == v + 128i32,
    ;
}

impl PartialOrd for CellAddress {
    fn partial_cmp(&self, other: &CellAddress) -> (r: Option<Ordering>) {
        if self.chunk_pos.x < other.chunk_pos.x {
            Some(Ordering::Less)
        } else if self.chunk_pos.x > other.chunk_pos.x {
            Some(Ordering::Greater)
        } else if self.chunk_pos.y < other.chunk_pos.y {
            Some(Ordering::Less)
        } else if self.chunk_pos.y > other.chunk_pos.y {
            Some(Ordering::Greater)
        } else if self.section_y < other.section_y {
            Some(Ordering::Less)
        } else if self.section_y > other.section_y {
            Some(Ordering::Greater)
        } else if self.cell_index < other.cell_index {
            Some(Ordering::Less)
        } else if self.cell_index > other.cell_index {
            Some(Ordering::Greater)
        } else {
            Some(Ordering::Equal)
        }
    }
}

impl vstd::std_specs::cmp::PartialOrdSpecImpl for CellAddress {
    open spec fn obeys_partial_cmp_spec() -> bool {
        true
    }

    open spec fn partial_cmp_spec(&self, other: &CellAddress) -> Option<Ordering> {
        Some(self.address_order(*other))
    }
}

/// Compact spatial entry stored inside microcells.
#[derive(Debug, Clone, Copy, PartialEq, Eq, Structural)]
pub struct SpatialEntry {
    pub key: EntityKey,
    pub membership_revision: u32,
    pub categories: SpatialCategory,
}

/// The flags that occur in any of the entries.
pub open spec fn union_of(entries: Seq<SpatialEntry>) -> u32
    decreases entries.len(),
{
    if entries.len() == 0 {
        0
    } else {
        union_of(entries.drop_last()) | entries.last().categories.bits
    }
}

/// A mask that one entry passes, the union of the entries passes too: a cell
/// whose union fails the mask holds nothing that passes it.
pub proof fn law_union_is_conservative(entries: Seq<SpatialEntry>, i: int, mask: u32)
    requires
        0 <= i < entries.len(),
        entries[i].categories.bits & mask != 0,
    ensures
        union_of(entries) & mask != 0,
    decreases entries.len(),
{
    let rest = union_of(entries.drop_last());
    let last = entries.last().categories.bits;
    assert((rest & mask != 0 || last & mask != 0) ==> (rest | last) & mask != 0) by (bit_vector);
    if i < entries.len() - 1 {
        law_union_is_conservative(entries.drop_last(), i, mask);
    }
}

/// The entries whose flag is set, in order.
pub open spec fn flagged(entries: Seq<SpatialEntry>, flags: Seq<bool>) -> Seq<SpatialEntry>
    decreases entries.len(),
{
    if entries.len() == 0 {
        entries
    } else {
        let rest = flagged(entries.drop_last(), flags.drop_last());
        if flags.last() {
            rest.push(entries.last())
        } else {
            rest
        }
    }
}

/// Where one predicate decides every flag, the flagged entries are those that
/// satisfy it.
pub proof fn law_flagged_is_filter(
    entries: Seq<SpatialEntry>,
    flags: Seq<bool>,
    valid: spec_fn(SpatialEntry) -> bool,
)
    requires
        flags.len() == entries.len(),
        forall|i: int| 0 <= i < entries.len() ==> #[trigger] flags[i] == valid(entries[i]),
    ensures
        flagged(entries, flags) == entries.filter(valid),
    decreases entries.len(),
{
    reveal(Seq::filter);
    if entries.len() > 0 {
        law_flagged_is_filter(entries.drop_last(), flags.drop_last(), valid);
        assert(flags[entries.len() - 1] == valid(entries[entries.len() - 1]));
    }
}

/// What a microcell holds.
pub struct CellModel {
    pub entries: Seq<SpatialEntry>,
    pub revision: u64,
    pub stale_hint: u32,
}

impl CellModel {
    /// A cell that was never written.
    pub open spec fn fresh() -> CellModel {
        CellModel { entries: Seq::empty(), revision: 0, stale_hint: 0 }
    }

    /// The cell with one more entry.
    pub open spec fn with_entry(self, entry: SpatialEntry) -> CellModel {
        CellModel {
            entries: self.entries.push(entry),
            revision: next_revision(self.revision),
            stale_hint: self.stale_hint,
        }
    }
}

/// The revision after one more change.
pub open spec fn next_revision(revision: u64) -> u64 {
    if revision == u64::MAX {
        0
    } else {
        (revision + 1) as u64
    }
}

/// Compact microcell storing entries and the OR of their categories.
pub struct SpatialCell {
    pub entries: Vec<SpatialEntry>,
    pub category_union: u32,
    pub revision: u64,
    pub stale_hint: u32,
}

impl View for SpatialCell {
    type V = CellModel;

    open spec fn view(&self) -> CellModel {
        CellModel {
            entries: self.entries@,
            revision: self.revision,
            stale_hint: self.stale_hint,
        }
    }
}

impl Default for SpatialCell {
    fn default() -> (cell: SpatialCell)
        ensures
            cell@ == CellModel::fresh(),
            cell.wf(),
            cell.entries@.len() == 0,
            cell.category_union == 0,
            cell.revision == 0,
            cell.stale_hint == 0,
    {
        let cell = SpatialCell {
            entries: Vec::new(),
            category_union: 0,
            revision: 0,
            stale_hint: 0,
        };
        assert(cell@.entries =~= Seq::empty());
        cell
    }
}

impl SpatialCell {
    /// The union tells which categories occur.
    pub open spec fn wf(&self) -> bool {
        self.category_union == union_of(self.entries@)
    }

    /// An empty cell.
    pub fn new() -> (cell: SpatialCell)
        ensures
            cell@ == CellModel::fresh(),
            cell.wf(),
            cell.entries@.len() == 0,
            cell.category_union == 0,
            cell.revision == 0,
            cell.stale_hint == 0,
    {
        SpatialCell::default()
    }

    /// Insert an entry into the cell, updating `category_union` and `revision`.
    pub fn insert(&mut self, entry: SpatialEntry)
        ensures
            final(self)@ == old(self)@.with_entry(entry),
            final(self).entries@ == old(self).entries@.push(entry),
            final(self).stale_hint == old(self).stale_hint,
            old(self).revision < u64::MAX ==> final(self).revision == old(self).revision + 1,
            final(self).category_union == old(self).category_union | entry.categories.bits,
            old(self).wf() ==> final(self).wf(),
    {
        self.entries.push(entry);
        self.category_union = self.category_union | entry.categories.bits();
        self.revision = self.revision.wrapping_add(1);
        assert(self.entries@.drop_last() =~= old(self).entries@);
    }

    /// Clear cell entries and reset the category union.
    pub fn clear(&mut self)
        ensures
            final(self)@ == (CellModel {
                entries: Seq::empty(),
                revision: next_revision(old(self).revision),
                stale_hint: 0,
            }),
            final(self).wf(),
            final(self).entries@.len() == 0,
            final(self).category_union == 0,
            final(self).stale_hint == 0,
            old(self).revision < u64::MAX ==> final(self).revision == old(self).revision + 1,
    {
        self.entries.clear();
        self.category_union = 0;
        self.stale_hint = 0;
        self.revision = self.revision.wrapping_add(1);
        assert(self@.entries =~= Seq::empty());
    }

    /// Compaction removing stale entries and recomputing the category union. Each
    /// entry is judged once, by its key and membership revision.
    pub fn compact<F>(&mut self, is_valid: F) where F: Fn(EntityKey, u32) -> bool
        requires
            forall|i: int|
                0 <= i < old(self).entries@.len() ==> call_requires(
                    is_valid,
                    (
                        (#[trigger] old(self).entries@[i]).key,
                        old(self).entries@[i].membership_revision,
                    ),
                ),
        ensures
            exists|flags: Seq<bool>|
                {
                    &&& flags.len() == old(self).entries@.len()
                    &&& forall|i: int|
                        0 <= i < flags.len() ==> call_ensures(
                            is_valid,
                            (old(self).entries@[i].key, old(self).entries@[i].membership_revision),
                            #[trigger] flags[i],
                        )
                    &&& final(self).entries@ == #[trigger] flagged(old(self).entries@, flags)
                },
            final(self).stale_hint == 0,
            old(self).revision < u64::MAX ==> final(self).revision == old(self).revision + 1,
            final(self).revision == next_revision(old(self).revision),
            final(self).wf(),
    {
        let ghost before = self.entries@;
        let ghost mut flags: Seq<bool> = Seq::empty();
        let mut kept: Vec<SpatialEntry> = Vec::new();
        let mut new_union: u32 = 0;
        for i in 0..self.entries.len()
            invariant
                self.entries@ == before,
                forall|j: int|
                    0 <= j < before.len() ==> call_requires(
                        is_valid,
                        ((#[trigger] before[j]).key, before[j].membership_revision),
                    ),
                flags.len() == i,
                forall|j: int|
                    0 <= j < i ==> call_ensures(
                        is_valid,
                        (before[j].key, before[j].membership_revision),
                        #[trigger] flags[j],
                    ),
                kept@ == flagged(before.take(i as int), flags),
                new_union == union_of(kept@),
        {
            let entry = self.entries[i];
            assert(entry == before[i as int]);
            let valid = is_valid(entry.key, entry.membership_revision);
            if valid {
                let ghost kept_before = kept@;
                new_union = new_union | entry.categories.bits();
                kept.push(entry);
                assert(kept@.drop_last() =~= kept_before);
            }
            proof {
                let next = flags.push(valid);
                assert(before.take(i + 1).drop_last() =~= before.take(i as int));
                assert(next.drop_last() =~= flags);
                flags = next;
            }
        }
        assert(before.take(before.len() as int) =~= before);
        self.entries = kept;
        self.category_union = new_union;
        self.stale_hint = 0;
        self.revision = self.revision.wrapping_add(1);
    }
}

/// What a section holds.
pub struct SectionModel {
    pub occupancy: u8,
    pub cells: Seq<CellModel>,
    pub large_entities: CellModel,
}

impl SectionModel {
    /// A section that was never written.
    pub open spec fn fresh() -> SectionModel {
        SectionModel {
            occupancy: 0,
            cells: Seq::new(8, |i: int| CellModel::fresh()),
            large_entities: CellModel::fresh(),
        }
    }

    /// The section with the entry in each of its microcells, all marked occupied.
    pub open spec fn with_entry(self, entry: SpatialEntry) -> SectionModel {
        SectionModel {
            occupancy: 0xff,
            cells: Seq::new(8, |i: int| self.cells[i].with_entry(entry)),
            large_entities: self.large_entities,
        }
    }
}

/// The bit of a microcell in the occupancy of its section.
pub open spec fn occupancy_bit(occupancy: u8, cell: int) -> bool {
    occupancy & (1u8 << (cell as u8)) != 0
}

/// 16-block section spatial index containing eight 8x8x8 microcells and an
/// overflow cell.
pub struct SectionSpatialIndex {
    pub occupancy: u8,
    pub cells: [SpatialCell; 8],
    pub large_entities: SpatialCell,
}

impl View for SectionSpatialIndex {
    type V = SectionModel;

    open spec fn view(&self) -> SectionModel {
        SectionModel {
            occupancy: self.occupancy,
            cells: Seq::new(8, |i: int| self.cells@[i]@),
            large_entities: self.large_entities@,
        }
    }
}

impl Default for SectionSpatialIndex {
    fn default() -> (section: SectionSpatialIndex)
        ensures
            section@ == SectionModel::fresh(),
            section.wf(),
            section.occupancy == 0,
            forall|i: int| 0 <= i < 8 ==> (#[trigger] section@.cells[i]).entries.len() == 0,
            section.large_entities.entries@.len() == 0,
    {
        let section = SectionSpatialIndex {
            occupancy: 0,
            cells: [
                SpatialCell::new(),
                SpatialCell::new(),
                SpatialCell::new(),
                SpatialCell::new(),
                SpatialCell::new(),
                SpatialCell::new(),
                SpatialCell::new(),
                SpatialCell::new(),
            ],
            large_entities: SpatialCell::new(),
        };
        assert(section@.cells =~= SectionModel::fresh().cells);
        section
    }
}

impl SectionSpatialIndex {
    /// Every microcell knows the categories that occur in it.
    pub open spec fn wf(&self) -> bool {
        &&& forall|i: int| 0 <= i < 8 ==> (#[trigger] self.cells@[i]).wf()
        &&& self.large_entities.wf()
    }

    /// An empty section.
    pub fn new() -> (section: SectionSpatialIndex)
        ensures
            section@ == SectionModel::fresh(),
            section.wf(),
            section.occupancy == 0,
            forall|i: int| 0 <= i < 8 ==> (#[trigger] section@.cells[i]).entries.len() == 0,
            section.large_entities.entries@.len() == 0,
    {
        SectionSpatialIndex::default()
    }

    /// Update the occupancy bit of a microcell; only the three low bits of its
    /// index count.
    pub fn set_occupied(&mut self, cell_index: u8, occupied: bool)
        ensures
            final(self).cells == old(self).cells,
            final(self).large_entities == old(self).large_entities,
            forall|i: int|
                0 <= i < 8 ==> #[trigger] occupancy_bit(final(self).occupancy, i) == (if i
                    == cell_index % 8 {
                    occupied
                } else {
                    occupancy_bit(old(self).occupancy, i)
                }),
    {
        let ghost before = self.occupancy;
        assert(cell_index & 7 < 8) by (bit_vector);
        let bit: u8 = 1u8 << (cell_index & 7);
        if occupied {
            self.occupancy = self.occupancy | bit;
        } else {
            self.occupancy = self.occupancy & !bit;
        }
        proof {
            let after = self.occupancy;
            assert forall|i: int| 0 <= i < 8 implies #[trigger] occupancy_bit(after, i) == (if i
                == cell_index % 8 {
                occupied
            } else {
                occupancy_bit(before, i)
            }) by {
                let j = i as u8;
                assert((after & (1u8 << j) != 0) == (if j == cell_index % 8 {
                    occupied
                } else {
                    before & (1u8 << j) != 0
                })) by (bit_vector)
                    requires
                        j < 8,
                        after == (if occupied {
                            before | (1u8 << (cell_index & 7))
                        } else {
                            before & !(1u8 << (cell_index & 7))
                        }),
                ;
            }
        }
    }

    /// Put an entry into each of the eight microcells and mark them occupied.
    pub fn insert_everywhere(&mut self, entry: SpatialEntry)
        requires
            old(self).wf(),
        ensures
            final(self)@ == old(self)@.with_entry(entry),
            forall|i: int|
                0 <= i < 8 ==> (#[trigger] final(self)@.cells[i]).entries
                    == old(self)@.cells[i].entries.push(entry),
            final(self).occupancy == 0xff,
            final(self)@.large_entities == old(self)@.large_entities,
            final(self).wf(),
    {
        let ghost before = self@;
        for cell in 0..8u8
            invariant
                self.wf(),
                forall|i: int|
                    0 <= i < 8 ==> (#[trigger] self.cells@[i])@ == (if i < cell {
                        before.cells[i].with_entry(entry)
                    } else {
                        before.cells[i]
                    }),
                forall|i: int| 0 <= i < cell ==> #[trigger] occupancy_bit(self.occupancy, i),
                self.large_entities@ == before.large_entities,
        {
            self.cells[cell as usize].insert(entry);
            self.set_occupied(cell, true);
        }
        proof {
            let o = self.occupancy;
            assert(occupancy_bit(o, 0) && occupancy_bit(o, 1) && occupancy_bit(o, 2)
                && occupancy_bit(o, 3) && occupancy_bit(o, 4) && occupancy_bit(o, 5)
                && occupancy_bit(o, 6) && occupancy_bit(o, 7));
            assert(o == 0xff) by (bit_vector)
                requires
                    o & (1u8 << 0u8) != 0,
                    o & (1u8 << 1u8) != 0,
                    o & (1u8 << 2u8) != 0,
                    o & (1u8 << 3u8) != 0,
                    o & (1u8 << 4u8) != 0,
                    o & (1u8 << 5u8) != 0,
                    o & (1u8 << 6u8) != 0,
                    o & (1u8 << 7u8) != 0,
            ;
            assert(self@.cells =~= before.with_entry(entry).cells);
        }
    }
}

/// Tells every other handle from `key`.
pub open spec fn other_than(key: EntityKey) -> spec_fn(EntityKey) -> bool {
    |k: EntityKey| k != key
}

/// What a chunk column holds: the handles of the entities that touch it, in order
/// of arrival, and its sections.
pub struct ColumnModel {
    pub keys: Seq<EntityKey>,
    pub sections: Map<i8, SectionModel>,
    pub revision: u64,
}

impl ColumnModel {
    /// A column that was never written.
    pub open spec fn fresh() -> ColumnModel {
        ColumnModel { keys: Seq::empty(), sections: Map::empty(), revision: 0 }
    }

    /// The column with one more handle, unless it is there already.
    pub open spec fn with_key(self, key: EntityKey) -> ColumnModel {
        if self.keys.contains(key) {
            self
        } else {
            ColumnModel { keys: self.keys.push(key), ..self }
        }
    }

    /// The column without a handle.
    pub open spec fn without_key(self, key: EntityKey) -> ColumnModel {
        ColumnModel { keys: self.keys.filter(other_than(key)), ..self }
    }

    /// The section as it stands, or a fresh one.
    pub open spec fn section(self, section_y: i8) -> SectionModel {
        if self.sections.contains_key(section_y) {
            self.sections[section_y]
        } else {
            SectionModel::fresh()
        }
    }

    /// The column with one section put in its place.
    pub open spec fn with_section(self, section_y: i8, section: SectionModel) -> ColumnModel {
        ColumnModel { sections: self.sections.insert(section_y, section), ..self }
    }

    /// The column with the entry in every microcell of the sections `low` to `high`.
    pub open spec fn with_entry(self, entry: SpatialEntry, low: int, high: int) -> ColumnModel {
        ColumnModel {
            sections: Map::new(
                |y: i8| self.sections.contains_key(y) || low <= y <= high,
                |y: i8|
                    if low <= y <= high {
                        self.section(y).with_entry(entry)
                    } else {
                        self.sections[y]
                    },
            ),
            ..self
        }
    }

    /// The section exists and a microcell of it is occupied.
    pub open spec fn occupied(self, section_y: i8) -> bool {
        self.sections.contains_key(section_y) && self.sections[section_y].occupancy != 0
    }

    /// A microcell of an occupied section between `low` and `high` holds an entry
    /// for the handle that passes the mask.
    pub open spec fn lists(self, key: EntityKey, low: int, high: int, mask: u32) -> bool {
        exists|y: i8, cell: int, i: int| #[trigger]
            self.lists_at(key, y, cell, i, mask) && low <= y <= high
    }

    /// Entry `i` of a microcell in an occupied section is for the handle and passes
    /// the mask.
    pub open spec fn lists_at(self, key: EntityKey, y: i8, cell: int, i: int, mask: u32) -> bool {
        &&& self.occupied(y)
        &&& 0 <= cell < 8
        &&& 0 <= i < self.sections[y].cells[cell].entries.len()
        &&& self.sections[y].cells[cell].entries[i].key == key
        &&& self.sections[y].cells[cell].entries[i].categories.passes(mask)
    }
}

/// What the sections of a column hold.
pub open spec fn section_models(sections: Map<i8, SectionSpatialIndex>) -> Map<i8, SectionModel> {
    Map::new(|y: i8| sections.contains_key(y), |y: i8| sections[y]@)
}

/// Sparse chunk column spatial index.
pub struct ChunkSpatialIndex {
    pub sections: HashMap<i8, SectionSpatialIndex>,
    pub revision: u64,
    pub active_keys: Vec<EntityKey>,
    pub entity_count: u32,
}

impl View for ChunkSpatialIndex {
    type V = ColumnModel;

    open spec fn view(&self) -> ColumnModel {
        ColumnModel {
            keys: self.active_keys@,
            sections: section_models(self.sections@),
            revision: self.revision,
        }
    }
}

impl Default for ChunkSpatialIndex {
    fn default() -> (column: ChunkSpatialIndex)
        ensures
            column@ == ColumnModel::fresh(),
            column.wf(),
            column.active_keys@.len() == 0,
            column@.sections == Map::<i8, SectionModel>::empty(),
            column.revision == 0,
            column.entity_count == 0,
    {
        let column = ChunkSpatialIndex {
            sections: HashMap::new(),
            revision: 0,
            active_keys: Vec::new(),
            entity_count: 0,
        };
        assert(column@.keys =~= Seq::empty());
        assert(column@.sections =~= Map::empty());
        column
    }
}

impl ChunkSpatialIndex {
    /// No handle is listed twice, the count is that of the handles, and every
    /// section is well formed.
    pub open spec fn wf(&self) -> bool {
        &&& self.active_keys@.no_duplicates()
        &&& self.entity_count == self.active_keys@.len() % 0x1_0000_0000
        &&& forall|y: i8| #[trigger] self.sections@.contains_key(y) ==> self.sections@[y].wf()
    }

    /// An empty column.
    pub fn new() -> (column: ChunkSpatialIndex)
        ensures
            column@ == ColumnModel::fresh(),
            column.wf(),
            column.active_keys@.len() == 0,
            column@.sections == Map::<i8, SectionModel>::empty(),
            column.revision == 0,
            column.entity_count == 0,
    {
        ChunkSpatialIndex::default()
    }

    /// Retrieve or create a section spatial index.
    pub fn get_or_create_section(&mut self, section_y: i8) -> (section: &mut SectionSpatialIndex)
        requires
            old(self).wf(),
        ensures
            section@ == old(self)@.section(section_y),
            section.wf(),
            old(self)@.sections.contains_key(section_y) ==> section@
                == old(self)@.sections[section_y],
            !old(self)@.sections.contains_key(section_y) ==> section@.occupancy == 0,
            final(self)@.sections == old(self)@.sections.insert(section_y, final(section)@),
            final(self)@.keys == old(self)@.keys,
            final(self)@ == old(self)@.with_section(section_y, final(section)@),
            final(section).wf() ==> final(self).wf(),
    {
        let ghost sections = self.sections@;
        proof {
            assert forall|section: SectionSpatialIndex| #[trigger]
                section_models(sections.insert(section_y, section)) == section_models(
                    sections,
                ).insert(section_y, section@) by {
                assert(section_models(sections.insert(section_y, section)) =~= section_models(
                    sections,
                ).insert(section_y, section@));
            }
        }
        let section = self.sections.entry(section_y).or_insert(SectionSpatialIndex::default());
        section
    }

    /// List a handle among those that touch the column.
    pub fn add_key(&mut self, key: EntityKey)
        requires
            old(self).wf(),
        ensures
            final(self)@ == old(self)@.with_key(key),
            final(self).active_keys@ == (if old(self).active_keys@.contains(key) {
                old(self).active_keys@
            } else {
                old(self).active_keys@.push(key)
            }),
            final(self)@.sections == old(self)@.sections,
            final(self).wf(),
    {
        for i in 0..self.active_keys.len()
            invariant
                *self == *old(self),
                self.wf(),
                forall|j: int| 0 <= j < i ==> self.active_keys@[j] != key,
        {
            if self.active_keys[i] == key {
                return;
            }
        }
        self.active_keys.push(key);
        self.entity_count = self.entity_count.wrapping_add(1);
    }

    /// Take a handle off the list of those that touch the column.
    pub fn remove_key(&mut self, key: EntityKey)
        requires
            old(self).wf(),
        ensures
            final(self)@ == old(self)@.without_key(key),
            forall|k: EntityKey| #[trigger]
                final(self).active_keys@.contains(k) <==> old(self).active_keys@.contains(k) && k
                    != key,
            final(self)@.sections == old(self)@.sections,
            final(self).wf(),
    {
        let ghost before = self.active_keys@;
        let ghost keep = other_than(key);
        let mut kept: Vec<EntityKey> = Vec::new();
        let mut count: u32 = 0;
        for i in 0..self.active_keys.len()
            invariant
                *self == *old(self),
                before == self.active_keys@,
                before.no_duplicates(),
                keep == other_than(key),
                kept@ == before.take(i as int).filter(keep),
                kept@.no_duplicates(),
                forall|j: int| 0 <= j < kept@.len() ==> before.take(i as int).contains(#[trigger] kept@[j]),
                count == kept@.len() % 0x1_0000_0000,
        {
            proof {
                assert(before.take(i + 1).drop_last() =~= before.take(i as int));
                reveal(Seq::filter);
                assert forall|j: int| 0 <= j < kept@.len() implies (#[trigger] kept@[j]) != before[i as int] by {
                    let m = choose|m: int| 0 <= m < i && before.take(i as int)[m] == kept@[j];
                    assert(before[m] == kept@[j]);
                }
                assert forall|k: EntityKey| before.take(i as int).contains(k) implies before.take(i + 1).contains(k) by {
                    let m = choose|m: int| 0 <= m < i && before.take(i as int)[m] == k;
                    assert(before.take(i + 1)[m] == k);
                }
                assert(before.take(i + 1)[i as int] == before[i as int]);
            }
            if self.active_keys[i] != key {
                kept.push(self.active_keys[i]);
                count = count.wrapping_add(1);
            }
        }
        assert(before.take(before.len() as int) =~= before);
        proof {
            assert forall|k: EntityKey| #[trigger] kept@.contains(k) <==> before.contains(k) && k
                != key by {
                if kept@.contains(k) {
                    before.lemma_filter_pred(keep, kept@.index_of(k));
                    before.lemma_filter_contains_rev(keep, k);
                }
                if before.contains(k) && k != key {
                    before.lemma_filter_contains(keep, before.index_of(k));
                }
            }
        }
        self.active_keys = kept;
        self.entity_count = count;
    }

    /// Put an entry into every microcell of the sections `low` to `high`.
    pub fn insert_entry(&mut self, entry: SpatialEntry, low: i8, high: i8)
        requires
            old(self).wf(),
        ensures
            final(self)@ == old(self)@.with_entry(entry, low as int, high as int),
            final(self)@.keys == old(self)@.keys,
            forall|y: i8| #[trigger]
                final(self)@.sections.contains_key(y) <==> old(self)@.sections.contains_key(y)
                    || low <= y <= high,
            forall|y: i8|
                low <= y <= high ==> (#[trigger] final(self)@.sections[y]).occupancy == 0xff,
            forall|y: i8, i: int|
                low <= y <= high && 0 <= i < 8 ==> (
                #[trigger] final(self)@.sections[y].cells[i]).entries
                    == if old(self)@.sections.contains_key(y) {
                    old(self)@.sections[y].cells[i].entries.push(entry)
                } else {
                    seq![entry]
                },
            forall|y: i8|
                old(self)@.sections.contains_key(y) && !(low <= y <= high)
                    ==> #[trigger] final(self)@.sections[y] == old(self)@.sections[y],
            final(self).wf(),
    {
        let ghost before = self@;
        let mut y: i16 = low as i16;
        assert(self@.sections =~= before.with_entry(entry, low as int, low - 1).sections);
        while y <= high as i16
            invariant
                low <= y,
                y <= high + 1 || y == low,
                self.wf(),
                self@ == before.with_entry(entry, low as int, y - 1),
            decreases high - y + 1,
        {
            let section = self.get_or_create_section(y as i8);
            section.insert_everywhere(entry);
            y = y + 1;
            assert(self@.sections =~= before.with_entry(entry, low as int, y - 1).sections);
        }
        assert(self@.sections =~= before.with_entry(entry, low as int, high as int).sections);
        proof {
            assert(Seq::<SpatialEntry>::empty().push(entry) =~= seq![entry]);
        }
    }
}

/// The columns `(x, low)` to `(x, end - 1)`.
pub open spec fn column_row(x: int, low: int, end: int) -> Seq<(i32, i32)>
    decreases end - low,
{
    if end <= low {
        Seq::empty()
    } else {
        column_row(x, low, end - 1).push((x as i32, (end - 1) as i32))
    }
}

/// The rows of columns from `low_x` to `end_x - 1`, one after the other.
pub open spec fn column_walk(low_x: int, end_x: int, low_z: int, end_z: int) -> Seq<(i32, i32)>
    decreases end_x - low_x,
{
    if end_x <= low_x {
        Seq::empty()
    } else {
        column_walk(low_x, end_x - 1, low_z, end_z) + column_row(end_x - 1, low_z, end_z)
    }
}

proof fn lemma_row(x: int, low: int, end: int)
    requires
        i32::MIN <= x <= i32::MAX,
        i32::MIN <= low,
        end <= i32::MAX,
    ensures
        column_row(x, low, end).no_duplicates(),
        forall|at: (i32, i32)| #[trigger]
            column_row(x, low, end).contains(at) <==> at.0 == x && low <= at.1 < end,
    decreases end - low,
{
    let row = column_row(x, low, end);
    if low < end {
        lemma_row(x, low, end - 1);
        let rest = column_row(x, low, end - 1);
        assert(row.drop_last() =~= rest);
        assert forall|at: (i32, i32)| #[trigger] row.contains(at) <==> at.0 == x && low <= at.1
            < end by {
            if rest.contains(at) {
                let i = rest.index_of(at);
                assert(row[i] == at);
            }
            if at.0 == x && at.1 == end - 1 {
                assert(row[row.len() - 1] == at);
            }
        }
        assert forall|i: int, j: int| 0 <= i < j < row.len() implies row[i] != row[j] by {
            assert(row[i] == rest[i]);
            assert(rest.contains(rest[i]));
        }
    }
}

proof fn lemma_walk(low_x: int, end_x: int, low_z: int, end_z: int)
    requires
        i32::MIN <= low_x,
        end_x <= i32::MAX,
        i32::MIN <= low_z,
        end_z <= i32::MAX,
    ensures
        column_walk(low_x, end_x, low_z, end_z).no_duplicates(),
        forall|at: (i32, i32)| #[trigger]
            column_walk(low_x, end_x, low_z, end_z).contains(at) <==> low_x <= at.0 < end_x
                && low_z <= at.1 < end_z,
    decreases end_x - low_x,
{
    let walk = column_walk(low_x, end_x, low_z, end_z);
    if low_x < end_x {
        lemma_walk(low_x, end_x - 1, low_z, end_z);
        lemma_row(end_x - 1, low_z, end_z);
        let rest = column_walk(low_x, end_x - 1, low_z, end_z);
        let row = column_row(end_x - 1, low_z, end_z);
        assert forall|at: (i32, i32)| #[trigger] walk.contains(at) <==> low_x <= at.0 < end_x
            && low_z <= at.1 < end_z by {
            if walk.contains(at) {
                let i = walk.index_of(at);
                if i < rest.len() {
                    assert(rest[i] == at);
                    assert(rest.contains(at));
                } else {
                    assert(row[i - rest.len()] == at);
                    assert(row.contains(at));
                }
            }
            if rest.contains(at) {
                assert(walk[rest.index_of(at)] == at);
            }
            if row.contains(at) {
                assert(walk[rest.len() + row.index_of(at)] == at);
            }
        }
        assert(walk.no_duplicates()) by {
            assert forall|i: int, j: int| 0 <= i < rest.len() && 0 <= j < row.len() implies rest[i]
                != row[j] by {
                assert(rest.contains(rest[i]));
                assert(row.contains(row[j]));
            }
            vstd::seq_lib::lemma_no_dup_in_concat(rest, row);
        }
    }
}

impl BlockRange {
    /// The columns that the range touches, row by row.
    pub open spec fn columns(self) -> Seq<(i32, i32)> {
        column_walk(
            self.min_x as int / 16,
            self.max_x as int / 16 + 1,
            self.min_z as int / 16,
            self.max_z as int / 16 + 1,
        )
    }

    /// The range touches the column.
    pub open spec fn holds_column(self, at: (i32, i32)) -> bool {
        &&& self.min_x as int / 16 <= at.0 <= self.max_x as int / 16
        &&& self.min_z as int / 16 <= at.1 <= self.max_z as int / 16
    }

    /// The lowest section of the range.
    pub open spec fn low_section(self) -> int {
        wrap_i8(self.min_y as int / 16)
    }

    /// The highest section of the range.
    pub open spec fn high_section(self) -> int {
        wrap_i8(self.max_y as int / 16)
    }

    /// The heights of the range have sections of their own: section numbers have
    /// eight bits and repeat beyond.
    pub open spec fn within_height(self) -> bool {
        -2048 <= self.min_y && self.max_y <= 2047
    }

    /// The two ranges have a section number in common.
    pub open spec fn shares_section(self, other: BlockRange) -> bool {
        &&& self.low_section() <= self.high_section()
        &&& other.low_section() <= other.high_section()
        &&& self.low_section() <= other.high_section()
        &&& other.low_section() <= self.high_section()
    }

    /// The columns of a range are those that it touches, each once.
    pub proof fn lemma_columns(self)
        ensures
            self.columns().no_duplicates(),
            forall|at: (i32, i32)| #[trigger]
                self.columns().contains(at) <==> self.holds_column(at),
    {
        lemma_walk(
            self.min_x as int / 16,
            self.max_x as int / 16 + 1,
            self.min_z as int / 16,
            self.max_z as int / 16 + 1,
        );
    }

    /// Two ranges that share a block share a column and, where their heights have
    /// sections of their own or they have a section number in common, a section.
    pub proof fn lemma_shared_column(self, other: BlockRange) -> (shared: ((i32, i32), i8))
        requires
            self.meets(other),
            self.is_upright(),
            other.is_upright(),
        ensures
            self.holds_column(shared.0),
            other.holds_column(shared.0),
            self.within_height() && other.within_height() ==> self.shares_section(other),
            self.shares_section(other) ==> {
                &&& self.low_section() <= shared.1 <= self.high_section()
                &&& other.low_section() <= shared.1 <= other.high_section()
            },
    {
        let x = if self.min_x >= other.min_x {
            self.min_x
        } else {
            other.min_x
        };
        let y = if self.min_y >= other.min_y {
            self.min_y
        } else {
            other.min_y
        };
        let z = if self.min_z >= other.min_z {
            self.min_z
        } else {
            other.min_z
        };
        let section = if self.low_section() >= other.low_section() {
            self.low_section()
        } else {
            other.low_section()
        };
        assert(self.within_height() && other.within_height() ==> self.low_section() <= y as int / 16
            <= other.high_section());
        (((x as int / 16) as i32, (z as int / 16) as i32), section as i8)
    }
}

/// The union of entries has exactly the flags that occur in one of them.
pub proof fn law_union_has_the_flags_that_occur(entries: Seq<SpatialEntry>, mask: u32)
    ensures
        union_of(entries) & mask != 0 <==> exists|i: int|
            0 <= i < entries.len() && (#[trigger] entries[i]).categories.bits & mask != 0,
    decreases entries.len(),
{
    assert(0u32 & mask == 0) by (bit_vector);
    if entries.len() > 0 {
        let init = entries.drop_last();
        let rest = union_of(init);
        let last = entries.last().categories.bits;
        law_union_has_the_flags_that_occur(init, mask);
        assert((rest & mask != 0 || last & mask != 0) <==> (rest | last) & mask != 0)
            by (bit_vector);
        if last & mask != 0 {
            assert(entries[entries.len() - 1].categories.bits & mask != 0);
        }
        if rest & mask != 0 {
            let i = choose|i: int|
                0 <= i < init.len() && (#[trigger] init[i]).categories.bits & mask != 0;
            assert(entries[i].categories.bits & mask != 0);
        }
        if exists|i: int|
            0 <= i < entries.len() && (#[trigger] entries[i]).categories.bits & mask != 0 {
            let i = choose|i: int|
                0 <= i < entries.len() && (#[trigger] entries[i]).categories.bits & mask != 0;
            if i < init.len() {
                assert(init[i].categories.bits & mask != 0);
            }
        }
    }
}

/// An address comes before another exactly where it does by column x, then column z, then
/// section, then cell.
pub proof fn law_addresses_are_ordered_by_column_section_and_cell(a: CellAddress, b: CellAddress)
    ensures
        a.address_order(b) is Less <==> {
            ||| a.chunk_pos.x < b.chunk_pos.x
            ||| a.chunk_pos.x == b.chunk_pos.x && a.chunk_pos.y < b.chunk_pos.y
            ||| a.chunk_pos == b.chunk_pos && a.section_y < b.section_y
            ||| a.chunk_pos == b.chunk_pos && a.section_y == b.section_y && a.cell_index
                < b.cell_index
        },
        a.address_order(b) is Equal <==> a == b,
        a.address_order(b) is Greater <==> b.address_order(a) is Less,
{
}

/// The columns of a range are walked row by row: by x, and along z within a row.
pub proof fn law_columns_are_walked_row_by_row(range: BlockRange, i: int, j: int)
    requires
        0 <= i < j < range.columns().len(),
    ensures
        range.columns()[i].0 < range.columns()[j].0 || (range.columns()[i].0
            == range.columns()[j].0 && range.columns()[i].1 < range.columns()[j].1),
{
    lemma_walk_in_order(
        range.min_x as int / 16,
        range.max_x as int / 16 + 1,
        range.min_z as int / 16,
        range.max_z as int / 16 + 1,
    );
}

proof fn lemma_row_in_order(x: int, low: int, end: int)
    requires
        i32::MIN <= x <= i32::MAX,
        i32::MIN <= low,
        end <= i32::MAX,
    ensures
        forall|i: int, j: int|
            0 <= i < j < column_row(x, low, end).len() ==> (#[trigger] column_row(
                x,
                low,
                end,
            )[i]).1 < (#[trigger] column_row(x, low, end)[j]).1,
    decreases end - low,
{
    if low < end {
        let (row, rest) = (column_row(x, low, end), column_row(x, low, end - 1));
        lemma_row_in_order(x, low, end - 1);
        lemma_row(x, low, end - 1);
        assert(row.drop_last() =~= rest);
        assert forall|i: int, j: int| 0 <= i < j < row.len() implies (#[trigger] row[i]).1 < (
        #[trigger] row[j]).1 by {
            assert(row[i] == rest[i]);
            assert(rest.contains(rest[i]));
            if j < rest.len() {
                assert(row[j] == rest[j]);
            }
        }
    }
}

proof fn lemma_walk_in_order(low_x: int, end_x: int, low_z: int, end_z: int)
    requires
        i32::MIN <= low_x,
        end_x <= i32::MAX,
        i32::MIN <= low_z,
        end_z <= i32::MAX,
    ensures
        forall|i: int, j: int|
            #![trigger column_walk(low_x, end_x, low_z, end_z)[i], column_walk(
                low_x,
                end_x,
                low_z,
                end_z,
            )[j]]
            0 <= i < j < column_walk(low_x, end_x, low_z, end_z).len() ==> {
                let (a, b) = (
                    column_walk(low_x, end_x, low_z, end_z)[i],
                    column_walk(low_x, end_x, low_z, end_z)[j],
                );
                a.0 < b.0 || (a.0 == b.0 && a.1 < b.1)
            },
    decreases end_x - low_x,
{
    if low_x < end_x {
        let walk = column_walk(low_x, end_x, low_z, end_z);
        let rest = column_walk(low_x, end_x - 1, low_z, end_z);
        let row = column_row(end_x - 1, low_z, end_z);
        lemma_walk_in_order(low_x, end_x - 1, low_z, end_z);
        lemma_walk(low_x, end_x - 1, low_z, end_z);
        lemma_row(end_x - 1, low_z, end_z);
        lemma_row_in_order(end_x - 1, low_z, end_z);
        assert forall|i: int, j: int|
            #![trigger walk[i], walk[j]]
            0 <= i < j < walk.len() implies walk[i].0 < walk[j].0 || (walk[i].0 == walk[j].0
            && walk[i].1 < walk[j].1) by {
            if j < rest.len() {
                assert(walk[i] == rest[i] && walk[j] == rest[j]);
            } else {
                assert(walk[j] == row[j - rest.len()]);
                assert(row.contains(row[j - rest.len()]));
                if i < rest.len() {
                    assert(walk[i] == rest[i]);
                    assert(rest.contains(rest[i]));
                } else {
                    assert(walk[i] == row[i - rest.len()]);
                    assert(row.contains(row[i - rest.len()]));
                }
            }
        }
    }
}

} // verus!
