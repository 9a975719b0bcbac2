use gridpack::Pack;
use gridpack::PackError;
use gridpack::items::Item;
use gridpack::items::Loc;
use gridpack::packs::DensePack;
use gridpack::packs::MapPack;

#[test]
fn second_item_on_same_cell_is_an_overlap_error() {
    let mut pack = Pack::new(1, 1);
    assert!(pack.add_item(gridpack::Item::new(1, 1, 'a'), (0, 0)).is_ok());
    let result = pack.add_item(gridpack::Item::new(1, 1, 'b'), (0, 0));
    assert_eq!(result, Err(PackError::Overlap));
}

#[test]
fn oversized_item_in_tiny_grid_is_a_bounds_error() {
    let mut pack = Pack::new(1, 1);
    let result = pack.add_item(gridpack::Item::new(3, 2, 'x'), (0, 0));
    assert_eq!(result, Err(PackError::Bounds));
}

#[test]
fn blocked_transposition_is_rejected_and_grid_is_unchanged() {
    let mut pack = DensePack::new(3, 3);
    assert!(pack.add_item(Item::new("bar", 1, 2, '*'), Loc::new(0, 0)).is_ok());
    assert!(pack.add_item(Item::new("dot", 1, 1, '@'), Loc::new(1, 0)).is_ok());

    let result = pack.transpose_item("bar");
    assert_eq!(result, Err(PackError::InvalidTranspose));

    let bar = pack.remove_item("bar").unwrap();
    assert_eq!(bar.rows(), 1);
    assert_eq!(bar.cols(), 2);
    assert_eq!(bar.loc(), Loc::new(0, 0));
}

#[test]
fn full_row_item_transposes_into_full_column() {
    let mut pack = DensePack::new(3, 3);
    assert!(pack.add_item(Item::new("bar", 1, 3, '*'), Loc::new(0, 0)).is_ok());

    let result = pack.transpose_item("bar");
    assert_eq!(result, Ok(Loc::new(0, 0)));

    let bar = pack.remove_item("bar").unwrap();
    assert_eq!(bar.rows(), 3);
    assert_eq!(bar.cols(), 1);
    assert_eq!(bar.loc(), Loc::new(0, 0));
}

#[test]
fn rejected_move_leaves_the_item_in_place() {
    let mut pack = Pack::new(1, 1);
    assert!(pack.add_item(gridpack::Item::new(1, 1, '*'), (0, 0)).is_ok());

    let result = pack.move_item((0, 0), (5, 5));
    assert_eq!(result, Err(PackError::InvalidMove));

    let still_there = pack.remove_item((0, 0));
    assert!(still_there.is_some());
    let pi = still_there.unwrap();
    assert_eq!(pi.r, 0);
    assert_eq!(pi.c, 0);
}

#[test]
fn render_of_empty_grid_is_all_blank() {
    let pack = Pack::new(2, 2);
    assert_eq!(pack.render(), "| | |\n| | |\n");
}

#[test]
fn render_shows_the_covering_symbol() {
    let mut pack = Pack::new(2, 2);
    assert!(pack.add_item(gridpack::Item::new(1, 1, '*'), (0, 0)).is_ok());
    assert_eq!(pack.render(), "|*| |\n| | |\n");
}

#[test]
fn render_covers_every_cell_of_a_wide_item() {
    let mut pack = DensePack::new(2, 3);
    assert!(pack.add_item(Item::new("bar", 1, 2, '#'), Loc::new(1, 1)).is_ok());
    assert_eq!(pack.render(), "| | | |\n| |#|#|\n");
}

#[test]
fn map_render_scans_interior_cells() {
    let mut pack = MapPack::new(3, 2);
    assert!(pack.add_item(gridpack::Item::new(2, 1, 'o'), Loc::new(0, 1)).is_ok());
    assert_eq!(pack.render(), "| |o|\n| |o|\n| | |\n");
}

#[test]
fn add_then_remove_at_same_location_round_trips() {
    let mut pack = DensePack::new(4, 4);
    let stone = Item::new("stone", 2, 2, '@');
    assert!(pack.add_item(stone, Loc::new(1, 1)).is_ok());

    let removed = pack.remove_item_at(Loc::new(1, 1)).unwrap();
    assert_eq!(removed.name(), "stone");
    assert_eq!(removed.rows(), 2);
    assert_eq!(removed.cols(), 2);
    assert_eq!(removed.symbol(), '@');
    assert_eq!(removed.loc(), Loc::new(1, 1));

    assert!(pack.remove_item_at(Loc::new(1, 1)).is_none());
}

#[test]
fn removal_by_interior_point_finds_the_item() {
    let mut pack = DensePack::new(4, 4);
    assert!(pack.add_item(Item::new("slab", 2, 2, '@'), Loc::new(1, 1)).is_ok());

    let removed = pack.remove_item_at(Loc::new(2, 2)).unwrap();
    assert_eq!(removed.name(), "slab");
}

#[test]
fn transposing_twice_restores_the_original_span() {
    let mut pack = DensePack::new(3, 3);
    assert!(pack.add_item(Item::new("bar", 1, 3, '*'), Loc::new(0, 0)).is_ok());

    assert!(pack.transpose_item("bar").is_ok());
    assert!(pack.transpose_item("bar").is_ok());

    let bar = pack.remove_item("bar").unwrap();
    assert_eq!(bar.rows(), 1);
    assert_eq!(bar.cols(), 3);
}

#[test]
fn transpose_of_missing_selector_is_not_found() {
    let mut pack = Pack::new(2, 2);
    assert_eq!(pack.transpose_item((1, 1)), Err(PackError::NotFound));

    let mut dense = DensePack::new(2, 2);
    assert_eq!(dense.transpose_item("ghost"), Err(PackError::NotFound));
    assert_eq!(dense.transpose_item_at(Loc::new(0, 0)), Err(PackError::NotFound));

    let mut map = MapPack::new(2, 2);
    assert_eq!(map.transpose_item(Loc::new(0, 0)), Err(PackError::NotFound));
}

#[test]
fn move_of_missing_selector_is_not_found() {
    let mut pack = Pack::new(2, 2);
    assert_eq!(pack.move_item((0, 0), (1, 1)), Err(PackError::NotFound));

    let mut dense = DensePack::new(2, 2);
    assert_eq!(dense.move_item("ghost", Loc::new(1, 1)), Err(PackError::NotFound));

    let mut map = MapPack::new(2, 2);
    assert_eq!(map.move_item(Loc::new(0, 0), Loc::new(1, 1)), Err(PackError::NotFound));
}

#[test]
fn successful_move_returns_the_previous_anchor() {
    let mut dense = DensePack::new(2, 3);
    assert!(dense.add_item(Item::new("bar", 1, 2, '#'), Loc::new(0, 0)).is_ok());
    assert_eq!(dense.move_item("bar", Loc::new(1, 1)), Ok(Loc::new(0, 0)));
    let bar = dense.remove_item("bar").unwrap();
    assert_eq!(bar.loc(), Loc::new(1, 1));

    let mut map = MapPack::new(1, 2);
    assert!(map.add_item(gridpack::Item::new(1, 1, '^'), Loc::new(0, 0)).is_ok());
    assert_eq!(map.move_item(Loc::new(0, 0), Loc::new(0, 1)), Ok(Loc::new(0, 0)));
    assert!(map.remove_item(Loc::new(0, 0)).is_none());
    assert!(map.remove_item(Loc::new(0, 1)).is_some());
}

#[test]
fn blocked_move_is_an_invalid_move_error() {
    let mut dense = DensePack::new(2, 2);
    assert!(dense.add_item(Item::new("a", 1, 1, 'a'), Loc::new(0, 0)).is_ok());
    assert!(dense.add_item(Item::new("b", 1, 1, 'b'), Loc::new(1, 1)).is_ok());
    assert_eq!(dense.move_item("a", Loc::new(1, 1)), Err(PackError::InvalidMove));
}

#[test]
fn map_remove_matches_only_the_exact_anchor() {
    let mut map = MapPack::new(3, 3);
    assert!(map.add_item(gridpack::Item::new(2, 2, '@'), Loc::new(0, 0)).is_ok());

    assert!(map.remove_item(Loc::new(1, 1)).is_none());
    assert!(map.remove_item(Loc::new(0, 0)).is_some());
}

#[test]
fn dense_remove_by_name_takes_the_named_item() {
    let mut pack = DensePack::new(3, 3);
    assert!(pack.add_item(Item::new("left", 1, 1, 'l'), Loc::new(0, 0)).is_ok());
    assert!(pack.add_item(Item::new("right", 1, 1, 'r'), Loc::new(0, 2)).is_ok());

    let removed = pack.remove_item("right").unwrap();
    assert_eq!(removed.name(), "right");
    assert_eq!(removed.col(), 2);
    assert!(pack.remove_item("right").is_none());
    assert!(pack.remove_item("left").is_some());
}

#[test]
fn zero_spans_and_extents_are_coerced_to_one() {
    let item = Item::new("dot", 0, 0, '.');
    assert_eq!(item.rows(), 1);
    assert_eq!(item.cols(), 1);
    assert_eq!(item.name(), "dot");
    assert_eq!(item.symbol(), '.');

    let pack = Pack::new(0, 0);
    assert_eq!(pack.render(), "| |\n");
}

#[test]
fn touching_items_do_not_overlap() {
    let mut pack = Pack::new(2, 2);
    assert!(pack.add_item(gridpack::Item::new(2, 1, 'a'), (0, 0)).is_ok());
    assert!(pack.add_item(gridpack::Item::new(2, 1, 'b'), (0, 1)).is_ok());
    assert_eq!(pack.render(), "|a|b|\n|a|b|\n");
}

#[test]
fn packed_item_accessors_reflect_the_anchor_and_item() {
    let item = Item::new("slab", 2, 3, '#');
    let pi = gridpack::items::PackedItem::new(Loc::new(4, 5), item);
    assert_eq!(pi.row(), 4);
    assert_eq!(pi.col(), 5);
    assert_eq!(pi.loc(), Loc::new(4, 5));
    assert_eq!(pi.name(), "slab");
    assert_eq!(pi.rows(), 2);
    assert_eq!(pi.cols(), 3);
    assert_eq!(pi.symbol(), '#');

    let back = pi.unpack();
    assert_eq!(back.name(), "slab");
}

#[test]
fn intersects_and_contains_use_half_open_rectangles() {
    let a = gridpack::items::PackedItem::new(Loc::new(0, 0), Item::new("a", 2, 2, 'a'));
    let b = gridpack::items::PackedItem::new(Loc::new(0, 2), Item::new("b", 2, 2, 'b'));
    let c = gridpack::items::PackedItem::new(Loc::new(1, 1), Item::new("c", 2, 2, 'c'));

    assert!(!a.intersects(&b));
    assert!(!b.intersects(&a));
    assert!(a.intersects(&c));
    assert!(c.intersects(&b));

    assert!(a.contains(&Loc::new(1, 1)));
    assert!(!a.contains(&Loc::new(2, 1)));
    assert!(!a.contains(&Loc::new(0, 2)));
}

#[test]
fn transpose_swaps_spans_in_place() {
    let mut pi = gridpack::items::PackedItem::new(Loc::new(1, 0), Item::new("slab", 2, 3, '#'));
    pi.transpose();
    assert_eq!(pi.rows(), 3);
    assert_eq!(pi.cols(), 2);
    assert_eq!(pi.loc(), Loc::new(1, 0));

    pi.move_to(Loc::new(0, 4));
    assert_eq!(pi.loc(), Loc::new(0, 4));
    assert_eq!(pi.name(), "slab");
}

#[test]
fn error_messages_name_the_failed_check() {
    assert_eq!(PackError::Bounds.message(), "Item placement is invalid");
    assert_eq!(
        PackError::Overlap.message(),
        "Item intersects existing Pack contents."
    );
    assert_eq!(PackError::InvalidTranspose.message(), "Invalid transposition.");
    assert_eq!(PackError::InvalidMove.message(), "Invalid move");
    assert_eq!(PackError::NotFound.message(), "No item at the given location");
}

#[test]
fn transpose_of_anonymous_item_keeps_its_anchor() {
    let mut pi = gridpack::PackedItem::new(2, 1, gridpack::Item::new(1, 3, '*'));
    assert_eq!(pi.symbol(), '*');
    pi.transpose();
    assert_eq!(pi.r, 2);
    assert_eq!(pi.c, 1);
    assert!(pi.contains((4, 1)));
    assert!(!pi.contains((2, 2)));
}
