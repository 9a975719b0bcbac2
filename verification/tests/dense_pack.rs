use gridpack::items::Item;
use gridpack::items::Loc;
use gridpack::packs::DensePack;

#[test]
fn dense_pack_add_1x1_item_to_1x1_pack() {
    let mut pack = DensePack::new(1, 1);
    let pebble = Item::new("pebble", 1, 1, '.');

    let result = pack.add_item(pebble, Loc::new(0, 0));
    assert!(result.is_ok());
}

#[test]
fn dense_pack_add_item_with_out_of_bounds_coordinates_is_an_error() {
    let mut pack = DensePack::new(1, 1);
    let pebble = Item::new("pebble", 1, 1, '.');

    let result = pack.add_item(pebble, Loc::new(1, 0));
    assert!(result.is_err());
}

#[test]
fn dense_pack_add_item_intersecting_existing_item_is_an_error() {
    let mut pack = DensePack::new(3, 3);
    let stick = Item::new("stick", 1, 2, '*');
    let stone = Item::new("stone", 2, 2, '@');

    let result = pack.add_item(stick, Loc::new(0, 0));
    assert!(result.is_ok());

    let result = pack.add_item(stone, Loc::new(0, 0));
    assert!(result.is_err());
}

#[test]
fn dense_pack_add_item_that_exceeds_pack_size_is_an_error() {
    let mut pack = DensePack::new(1, 1);
    let cat = Item::new("cat", 3, 2, 'c');

    let result = pack.add_item(cat, Loc::new(0, 0));
    assert!(result.is_err());
}

#[test]
fn dense_pack_tranpose_item_valid_transposition_succeeds() {
    let mut pack = DensePack::new(3, 3);
    let stick = Item::new("stick", 1, 3, '*');

    let result = pack.add_item(stick, Loc::new(0, 0));
    assert!(result.is_ok());

    let result = pack.transpose_item_at(result.unwrap());
    assert!(result.is_ok());
}

#[test]
fn dense_pack_transpose_item_causing_intersection_is_an_error() {
    let mut pack = DensePack::new(3, 3);
    let stick = Item::new("stick", 1, 3, '*');
    let stone = Item::new("stone", 1, 1, '@');

    let add_stick = pack.add_item(stick, Loc::new(0, 0));
    assert!(add_stick.is_ok());

    let add_stone = pack.add_item(stone, Loc::new(1, 0));
    assert!(add_stone.is_ok());

    let result = pack.transpose_item_at(add_stick.unwrap());
    assert!(result.is_err());
}

#[test]
fn dense_pack_remove_item_from_unoccupied_space_returns_none() {
    let mut pack = DensePack::new(3, 3);
    let removed = pack.remove_item_at(Loc::new(0, 0));
    assert!(removed.is_none());
}

#[test]
fn dense_pack_remove_item_at_occupied_location_returns_some_packed_item() {
    let mut pack = DensePack::new(3, 3);
    let stone = Item::new("stone", 1, 1, '*');

    let result = pack.add_item(stone.clone(), Loc::new(0, 0));
    assert!(result.is_ok());

    let removed = pack.remove_item_at(result.unwrap());
    assert!(matches!(removed, stone));
}

#[test]
fn dense_pack_move_item_to_out_of_bounds_location_is_an_error() {
    let mut pack = DensePack::new(1, 1);
    let stone = Item::new("stone", 1, 1, '*');

    let result = pack.add_item(stone, Loc::new(0, 0));
    assert!(result.is_ok());

    let result = pack.move_item_at(result.unwrap(), Loc::new(5, 5));
    assert!(result.is_err());
}
