use pumpkin::geometry::Vector2;
use pumpkin::spatial_grid::{
    CellAddress, ChunkSpatialIndex, SectionSpatialIndex, SpatialCell, SpatialEntry,
};
use pumpkin::spatial_pose::SpatialCategory;
use pumpkin::spatial_registry::EntityKey;

fn entry(slot: u32, revision: u32, bits: u32) -> SpatialEntry {
    SpatialEntry {
        key: EntityKey { slot, generation: 1 },
        membership_revision: revision,
        categories: SpatialCategory { bits },
    }
}

#[test]
fn test_cell_address_coordinate_conversion() {
    // Positive origin block (0, 0, 0)
    let addr1 = CellAddress::from_block_coords(0, 0, 0);
    assert_eq!(addr1.chunk_pos, Vector2::new(0, 0));
    assert_eq!(addr1.section_y, 0);
    assert_eq!(addr1.cell_index, 0);

    // Positive boundary block (15, 63, 15)
    let addr2 = CellAddress::from_block_coords(15, 63, 15);
    assert_eq!(addr2.chunk_pos, Vector2::new(0, 0));
    assert_eq!(addr2.section_y, 3);
    assert_eq!(addr2.cell_index, 7);

    // Negative coordinates (-1, -64, -1)
    let addr3 = CellAddress::from_block_coords(-1, -64, -1);
    assert_eq!(addr3.chunk_pos, Vector2::new(-1, -1));
    assert_eq!(addr3.section_y, -4);
    assert_eq!(addr3.cell_index, 3);
}

#[test]
fn section_numbers_have_eight_bits() {
    assert_eq!(CellAddress::from_block_coords(0, 2047, 0).section_y, 127);
    assert_eq!(CellAddress::from_block_coords(0, 2048, 0).section_y, -128);
    assert_eq!(CellAddress::from_block_coords(0, -2049, 0).section_y, 127);
    let far = CellAddress::from_block_coords(i32::MIN, i32::MAX, i32::MAX);
    assert_eq!(far.chunk_pos, Vector2::new(-0x800_0000, 0x7ff_ffff));
    assert_eq!(far.section_y, -1);
    assert_eq!(far.cell_index, 6);
}

#[test]
fn addresses_are_ordered_by_column_section_and_cell() {
    let base = CellAddress::from_block_coords(0, 0, 0);
    assert!(base < CellAddress::from_block_coords(8, 0, 0));
    assert!(CellAddress::from_block_coords(15, 15, 15) < CellAddress::from_block_coords(0, 16, 0));
    assert!(CellAddress::from_block_coords(0, 500, 0) < CellAddress::from_block_coords(0, 0, 16));
    assert!(CellAddress::from_block_coords(0, 0, 500) < CellAddress::from_block_coords(16, 0, 0));
    assert!(CellAddress::from_block_coords(-1, 0, 0) < base);
    assert!(!(base < base));
}

#[test]
fn test_spatial_cell_category_union_and_compaction() {
    let mut cell = SpatialCell::new();
    assert_eq!(cell.category_union, 0);

    let entry = SpatialEntry {
        key: EntityKey { slot: 5, generation: 1 },
        membership_revision: 1,
        categories: SpatialCategory { bits: SpatialCategory::ITEM | SpatialCategory::PICKABLE },
    };

    cell.insert(entry);
    let bits = cell.category_union;
    assert_ne!(bits & SpatialCategory::ITEM, 0);
    assert_ne!(bits & SpatialCategory::PICKABLE, 0);
    assert_eq!(bits & SpatialCategory::PLAYER, 0);

    cell.clear();
    assert_eq!(cell.category_union, 0);
    assert!(cell.entries.is_empty());
}

#[test]
fn compaction_keeps_valid_entries_in_order() {
    let mut cell = SpatialCell::default();
    cell.insert(entry(1, 1, SpatialCategory::ITEM));
    cell.insert(entry(2, 1, SpatialCategory::PLAYER));
    cell.insert(entry(1, 2, SpatialCategory::LIVING));
    cell.stale_hint = 9;
    let revision = cell.revision;
    cell.compact(|key, membership| key.slot == 1 && membership >= 1);
    assert_eq!(cell.entries, vec![
        entry(1, 1, SpatialCategory::ITEM),
        entry(1, 2, SpatialCategory::LIVING),
    ]);
    assert_eq!(cell.category_union, SpatialCategory::ITEM | SpatialCategory::LIVING);
    assert_eq!(cell.stale_hint, 0);
    assert_eq!(cell.revision, revision + 1);
    cell.compact(|_, _| false);
    assert!(cell.entries.is_empty());
    assert_eq!(cell.category_union, 0);
}

#[test]
fn a_union_that_fails_a_mask_hides_no_entry() {
    let mut cell = SpatialCell::new();
    cell.insert(entry(1, 1, SpatialCategory::ITEM));
    cell.insert(entry(2, 1, SpatialCategory::VEHICLE));
    for mask in 1..SpatialCategory::KNOWN {
        let passes = cell.entries.iter().any(|e| e.categories.matches_mask(mask));
        assert_eq!(passes, cell.category_union & mask != 0);
    }
}

#[test]
fn occupancy_bits_are_independent() {
    let mut section = SectionSpatialIndex::new();
    section.set_occupied(0, true);
    section.set_occupied(5, true);
    assert_eq!(section.occupancy, 0b10_0001);
    section.set_occupied(8 + 5, false);
    assert_eq!(section.occupancy, 1);
    section.insert_everywhere(entry(3, 1, SpatialCategory::ITEM));
    assert_eq!(section.occupancy, 0xff);
    assert!(section.cells.iter().all(|cell| cell.entries.len() == 1));
    assert!(section.large_entities.entries.is_empty());
}

#[test]
fn sections_are_made_once() {
    let mut column = ChunkSpatialIndex::new();
    column.get_or_create_section(-4).set_occupied(2, true);
    assert_eq!(column.get_or_create_section(-4).occupancy, 4);
    assert_eq!(column.get_or_create_section(3).occupancy, 0);
    assert_eq!(column.sections.len(), 2);
    column.insert_entry(entry(7, 1, SpatialCategory::ITEM), 3, 5);
    assert_eq!(column.sections.len(), 4);
    assert_eq!(column.get_or_create_section(5).cells[7].entries.len(), 1);
}

#[test]
fn handles_are_listed_once() {
    let mut column = ChunkSpatialIndex::default();
    let (a, b) = (EntityKey { slot: 1, generation: 1 }, EntityKey { slot: 1, generation: 2 });
    column.add_key(a);
    column.add_key(b);
    column.add_key(a);
    assert_eq!(column.active_keys, vec![a, b]);
    assert_eq!(column.entity_count, 2);
    column.remove_key(a);
    column.remove_key(a);
    assert_eq!(column.active_keys, vec![b]);
    assert_eq!(column.entity_count, 1);
}
