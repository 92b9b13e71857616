use charsheet::character::CharacterInventory;
use charsheet::character::CharacterItem;
use charsheet::character::CharacterValue;
use charsheet::character::ItemInventory;
use charsheet::model::{Id, Inventory, InventoryId, Item, ItemId, Model, Physical, Value};
use charsheet::Character;
use std::collections::HashSet;

fn item(index: usize) -> ItemId {
    Id::new(index)
}

fn kind(index: usize) -> InventoryId {
    Id::new(index)
}

#[test]
fn a_new_inventory_is_empty() {
    let inventory = CharacterInventory::new(kind(2));
    assert_eq!(inventory.id(), kind(2));
    assert_eq!(inventory.fill(), 0);
    assert_eq!(inventory.content().len(), 0);
}

#[test]
fn the_amount_is_limited_by_what_is_left_of_the_capacity() {
    let inventory = CharacterInventory::new(kind(0));
    let sword = Physical { size: 10, stack_size: 1 };
    assert_eq!(inventory.limit_fill(&sword, 2, Some(15)), 1);
    assert_eq!(inventory.limit_fill(&sword, 2, Some(20)), 2);
    assert_eq!(inventory.limit_fill(&sword, 2, Some(9)), 0);
    assert_eq!(inventory.limit_fill(&sword, 2, Some(0)), 0);
    assert_eq!(inventory.limit_fill(&sword, 2, None), 2);
    let heavy = Physical { size: 2, stack_size: 1 };
    assert_eq!(inventory.limit_fill(&heavy, 40000, Some(100000)), 40000);
    assert_eq!(inventory.limit_fill(&heavy, 60000, Some(100000)), 50000);
}

#[test]
fn units_without_size_are_not_limited_by_capacity() {
    let mut inventory = CharacterInventory::new(kind(0));
    let feather = Physical { size: 0, stack_size: 100 };
    assert_eq!(inventory.limit_fill(&feather, 500, Some(0)), 500);
    assert_eq!(inventory.put(item(0), &feather, 250, Some(0), None), 0);
    assert_eq!(inventory.fill(), 0);
    assert_eq!(
        inventory.content(),
        vec![(item(0), 100), (item(0), 100), (item(0), 50)]
    );
}

#[test]
fn a_full_inventory_takes_nothing() {
    let mut inventory = CharacterInventory::new(kind(0));
    let sword = Physical { size: 10, stack_size: 1 };
    assert_eq!(inventory.put(item(0), &sword, 2, None, None), 0);
    assert_eq!(inventory.fill(), 20);
    // The capacity has fallen below what is stored.
    assert_eq!(inventory.limit_fill(&sword, 1, Some(15)), 0);
    assert_eq!(inventory.put(item(0), &sword, 1, Some(15), None), 1);
    assert_eq!(inventory.fill(), 20);
}

#[test]
fn the_oldest_stacks_are_topped_up_first() {
    let mut inventory = CharacterInventory::new(kind(0));
    let arrows = Physical { size: 1, stack_size: 5 };
    let sword = Physical { size: 10, stack_size: 1 };
    assert_eq!(inventory.put(item(0), &arrows, 3, None, None), 0);
    assert_eq!(inventory.put(item(1), &sword, 1, None, None), 0);
    assert_eq!(inventory.content(), vec![(item(0), 3), (item(1), 1)]);
    assert_eq!(inventory.put(item(0), &arrows, 7, None, None), 0);
    assert_eq!(
        inventory.content(),
        vec![(item(0), 5), (item(1), 1), (item(0), 5)]
    );
    assert_eq!(inventory.put(item(0), &arrows, 3, None, Some(4)), 0);
    assert_eq!(
        inventory.content(),
        vec![(item(0), 5), (item(1), 1), (item(0), 5), (item(0), 3)]
    );
    assert_eq!(inventory.put(item(0), &arrows, 4, None, Some(4)), 2);
    assert_eq!(
        inventory.content(),
        vec![(item(0), 5), (item(1), 1), (item(0), 5), (item(0), 5)]
    );
    assert_eq!(inventory.fill(), 25);
}

#[test]
fn topping_up_and_new_stacks_can_be_done_apart() {
    let mut inventory = CharacterInventory::new(kind(0));
    assert_eq!(inventory.create_stacks(item(0), 7, 5, None), 0);
    assert_eq!(inventory.content(), vec![(item(0), 5), (item(0), 2)]);
    assert_eq!(inventory.fill_stacks(item(0), 10, 5), 7);
    assert_eq!(inventory.content(), vec![(item(0), 5), (item(0), 5)]);
    assert_eq!(inventory.fill_stacks(item(1), 4, 5), 4);
    assert_eq!(inventory.create_stacks(item(1), 4, 5, Some(2)), 4);
    assert_eq!(inventory.create_stacks(item(1), 12, 5, Some(4)), 2);
    assert_eq!(
        inventory.content(),
        vec![(item(0), 5), (item(0), 5), (item(1), 5), (item(1), 5)]
    );
}

#[test]
fn no_stack_is_made_where_no_slot_is_left() {
    let mut inventory = CharacterInventory::new(kind(0));
    let arrows = Physical { size: 1, stack_size: 5 };
    assert_eq!(inventory.put(item(0), &arrows, 3, None, Some(0)), 3);
    assert_eq!(inventory.content().len(), 0);
    assert_eq!(inventory.put(item(0), &arrows, 12, None, Some(2)), 2);
    assert_eq!(inventory.content(), vec![(item(0), 5), (item(0), 5)]);
    // Fewer slots than stacks: nothing new fits.
    assert_eq!(inventory.put(item(1), &arrows, 1, None, Some(1)), 1);
    assert_eq!(inventory.fill(), 10);
}

#[test]
fn capacity_follows_the_values_of_the_character() {
    let mut model = Model::new();
    let strength = model.add_value("strength", Value::new(2));
    let bag = model.add_inventory("bag", Inventory::new().capacity(strength * 5));
    model.set_main_inventory(bag);
    let stone = model.add_item("stone", Item::new().set_physical(3, 5));

    let mut character = Character::new(&model);
    assert_eq!(character.inventory_count(), 1);
    // 10 / 3 = 3 stones fit.
    assert_eq!(character.store(None, stone, 5), 2);
    assert_eq!(character.inventory(0).fill(), 9);
    assert_eq!(character.inventory(0).content(), vec![(stone, 3)]);

    character.set_base(strength, 4);
    // 20 - 9 = 11 are left: 3 more stones.
    assert_eq!(character.store(Some(Id::new(0)), stone, 5), 2);
    assert_eq!(character.inventory(0).fill(), 18);
    assert_eq!(character.inventory(0).content(), vec![(stone, 5), (stone, 1)]);

    character.set_base(strength, -1);
    assert_eq!(character.store(None, stone, 5), 5);
    assert_eq!(character.inventory(0).fill(), 18);
}

#[test]
fn slots_follow_the_values_of_the_character() {
    let mut model = Model::new();
    let pockets = model.add_value("pockets", Value::new(1));
    let bag = model.add_inventory("bag", Inventory::new().slots(pockets));
    model.set_main_inventory(bag);
    let gem = model.add_item("gem", Item::new().set_physical(1, 2));

    let mut character = Character::new(&model);
    assert_eq!(character.store(None, gem, 5), 3);
    character.set_base(pockets, 3);
    assert_eq!(character.store(None, gem, 5), 1);
    assert_eq!(
        character.inventory(0).content(),
        vec![(gem, 2), (gem, 2), (gem, 2)]
    );
    character.set_base(pockets, -2);
    assert_eq!(character.store(None, gem, 1), 1);
}

#[test]
fn character_items_count() {
    let mut plain = CharacterItem::new(None);
    assert_eq!(plain.count(), 0);
    *plain.count_mut() += 2;
    assert_eq!(plain.count(), 2);
    let holder = CharacterItem::new(Some(kind(0)));
    assert_eq!(holder.count(), 0);
    let stack = CharacterItem::with_count(7);
    assert_eq!(stack.count(), 7);
}

#[test]
fn character_values_start_with_their_base() {
    let value = CharacterValue::new(4);
    assert_eq!(value.base, 4);
    assert_eq!(value.actual, 4);
}

#[test]
fn inventories_of_items_are_ordered_by_their_position() {
    assert!(ItemInventory(1) < ItemInventory(2));
    assert_eq!(ItemInventory(3).max(ItemInventory(2)), ItemInventory(3));
    let mut seen = HashSet::new();
    seen.insert(ItemInventory(1));
    assert!(seen.contains(&ItemInventory(1)));
    assert!(!seen.contains(&ItemInventory(2)));
}

#[test]
fn put_fits_tells_whether_the_fill_stays_in_its_range() {
    let mut inventory = CharacterInventory::new(kind(0));
    let boulder = Physical { size: 65535, stack_size: 65535 };
    assert!(inventory.put_fits(item(0), &boulder, 65535, None, None));
    assert_eq!(inventory.put(item(0), &boulder, 65535, None, None), 0);
    assert_eq!(inventory.fill(), 65535 * 65535);
    // One more unit is in range, two are not.
    assert!(inventory.put_fits(item(0), &boulder, 1, None, None));
    assert!(inventory.put_fits(item(0), &boulder, 2, None, None));
    assert!(!inventory.put_fits(item(0), &boulder, 3, None, None));
    // A capacity or a lack of slots limits what is placed.
    assert!(inventory.put_fits(item(0), &boulder, 65535, Some(u32::MAX), None));
    assert!(inventory.put_fits(item(1), &boulder, 65535, None, Some(1)));
    assert!(!inventory.put_fits(item(1), &boulder, 65535, None, Some(2)));
    // Asking changes nothing.
    assert_eq!(inventory.fill(), 65535 * 65535);
    assert_eq!(inventory.content(), vec![(item(0), 65535)]);
}

#[test]
fn can_store_tells_whether_store_may_be_called() {
    let mut model = Model::new();
    let bag = model.add_inventory("bag", Inventory::new());
    model.set_main_inventory(bag);
    let boulder = model.add_item("boulder", Item::new().set_physical(65535, 65535));

    let mut character = Character::new(&model);
    assert!(character.can_store(None, boulder, 65535));
    assert_eq!(character.store(None, boulder, 65535), 0);
    assert!(character.can_store(None, boulder, 2));
    assert!(!character.can_store(None, boulder, 3));
    assert_eq!(character.store(None, boulder, 2), 0);
    assert_eq!(character.inventory(0).fill(), 65535 * 65537);
}
