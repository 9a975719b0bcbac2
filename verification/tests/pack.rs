use gridpack::Item;
use gridpack::Pack;
use gridpack::PackedItem;

#[test]
fn lib_add_1x1_item_to_1x1_pack() {
    let mut pack = Pack::new(1, 1);
    let pebble = Item::new(1, 1, '.');

    let result = pack.add_item(pebble, (0, 0));
    assert!(result.is_ok());
}

#[test]
fn lib_add_item_with_out_of_bounds_coordinates_is_an_error() {
    let mut pack = Pack::new(1, 1);
    let pebble = Item::new(1, 1, '.');

    let result = pack.add_item(pebble, (1, 0));
    assert!(result.is_err());
}

#[test]
fn lib_add_item_intersecting_existing_item_is_an_error() {
    let mut pack = Pack::new(3, 3);
    let stick = Item::new(1, 2, '*');
    let stone = Item::new(2, 2, '@');

    let result = pack.add_item(stick, (0, 0));
    assert!(result.is_ok());

    let result = pack.add_item(stone, (0, 0));
    assert!(result.is_err());
}

#[test]
fn lib_add_item_that_exceeds_pack_size_is_an_error() {
    let mut pack = Pack::new(1, 1);
    let cat = Item::new(3, 2, 'c');

    let result = pack.add_item(cat, (0, 0));
    assert!(result.is_err());
}

#[test]
fn lib_tranpose_item_valid_transposition_succeeds() {
    let mut pack = Pack::new(3, 3);
    let stick = Item::new(1, 3, '*');

    let result = pack.add_item(stick, (0, 0));
    assert!(result.is_ok());

    let result = pack.transpose_item((0, 0));
    assert!(result.is_ok());
}

#[test]
fn lib_transpose_item_causing_intersection_is_an_error() {
    let mut pack = Pack::new(3, 3);
    let stick = Item::new(1, 3, '*');
    let stone = Item::new(1, 1, '@');

    let result = pack.add_item(stick, (0, 0));
    assert!(result.is_ok());

    let result = pack.add_item(stone, (1, 0));
    assert!(result.is_ok());

    let result = pack.transpose_item((0, 0));
    assert!(result.is_err());
}

#[test]
fn lib_remove_item_from_unoccupied_space_returns_none() {
    let mut pack = Pack::new(3, 3);
    let stone = Item::new(1, 1, '*');

    let result = pack.add_item(stone, (0, 0));
    assert!(result.is_ok());

    let removed = pack.remove_item((1, 1));
    assert!(removed.is_none());
}

#[test]
fn lib_remove_item_at_occupied_location_returns_some_packed_item() {
    let mut pack = Pack::new(3, 3);
    let stone = Item::new(1, 1, '*');

    let result = pack.add_item(stone.clone(), (0, 0));
    assert!(result.is_ok());

    let _expected = Some(PackedItem::new(0, 0, Item::new(1, 1, '*')));
    let removed = pack.remove_item((0, 0));

    assert!(matches!(removed, _expected));
}

#[test]
fn lib_move_item_to_out_of_bounds_location_is_an_error() {
    let mut pack = Pack::new(1, 1);
    let stone = Item::new(1, 1, '*');

    let result = pack.add_item(stone.clone(), (0, 0));
    assert!(result.is_ok());

    let result = pack.move_item((0, 0), (5, 5));
    assert!(result.is_err());
}
