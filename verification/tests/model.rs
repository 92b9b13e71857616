use charsheet::model::{
    Calculation, Choice, FrontEnd, Inventory, Item, Model, Modification, Selection, Value,
};
use charsheet::{Character, ErrorKind};

#[test]
fn ids_are_handed_out_in_order_and_found_by_name() {
    let mut model = Model::new();
    let strength = model.add_value("strength", Value::new(1));
    let dexterity = model.add_value("dexterity", Value::new(2));
    let sword = model.add_item("sword", Item::new());
    let bag = model.add_inventory("bag", Inventory::new());
    let race = model.add_choice("race", Choice::new());

    assert_eq!(strength.index(), 0);
    assert_eq!(dexterity.index(), 1);
    assert_eq!(model.value_id("strength"), strength);
    assert_eq!(model.value_id("dexterity"), dexterity);
    assert_eq!(model.item_id("sword"), sword);
    assert_eq!(model.inventory_id("bag"), bag);
    assert_eq!(model.choice_id("race"), race);
    assert_eq!(model.values().len(), 2);
    assert_eq!(model.items().len(), 1);
    assert_eq!(model.inventories().len(), 1);
    assert_eq!(model.choices().len(), 1);
}

#[test]
fn one_id_string_can_name_a_value_and_an_item() {
    let mut model = Model::new();
    let value = model.add_value("shield", Value::new(1));
    let item = model.add_item("shield", Item::new());
    assert_eq!(model.value_id("shield"), value);
    assert_eq!(model.item_id("shield"), item);
}

#[test]
fn main_inventory_is_unset_until_it_is_set() {
    let mut model = Model::new();
    assert!(model.main_inventory().is_none());
    let bag = model.add_inventory("bag", Inventory::new());
    let chest = model.add_inventory("chest", Inventory::new());
    model.set_main_inventory(chest);
    assert_eq!(model.main_inventory(), Some(chest));
    model.set_main_inventory(bag);
    assert_eq!(model.main_inventory(), Some(bag));
}

#[test]
fn front_end_data_is_kept() {
    let value = Value::new(1).frontend(FrontEnd::new("Strength"));
    assert_eq!(value.front_end.unwrap().name, "Strength");
    let item = Item::new().frontend(FrontEnd::new("Sword"));
    assert_eq!(item.front_end.unwrap().name, "Sword");
}

#[test]
fn a_value_cannot_depend_on_itself() {
    let mut model = Model::new();
    let strength = model.add_value("strength", Value::new(1));
    assert_eq!(
        model.add_dependency(strength, strength + 1),
        Err(ErrorKind::CyclicDependency)
    );

    // The model is as it was.
    let mut character = Character::new(&model);
    assert_eq!(character.get(strength), 1);
    character.set_base(strength, 5);
    assert_eq!(character.get(strength), 5);
}

#[test]
fn two_values_cannot_depend_on_each_other() {
    let mut model = Model::new();
    let a = model.add_value("a", Value::new(1));
    let b = model.add_value("b", Value::new(2));
    let c = model.add_value("c", Value::new(3));
    assert_eq!(model.add_dependency(b, a * 2), Ok(()));
    assert_eq!(model.add_dependency(c, b + 1), Ok(()));
    assert_eq!(model.add_dependency(a, c + 0), Err(ErrorKind::CyclicDependency));
    assert_eq!(model.add_dependency(a, b + 0), Err(ErrorKind::CyclicDependency));
    // A second dependency along the direction that exists is fine.
    assert_eq!(model.add_dependency(c, a + 0), Ok(()));

    let mut character = Character::new(&model);
    assert_eq!(character.get(b), 4);
    assert_eq!(character.get(c), 9);
    character.set_base(a, 10);
    assert_eq!(character.get(b), 22);
    assert_eq!(character.get(c), 36);
}

#[test]
fn an_item_cannot_modify_what_its_condition_reads() {
    let mut model = Model::new();
    let armor = model.add_value("armor", Value::new(0));
    let heavy = model.add_item(
        "heavy",
        Item::new().set_condition(Calculation::value(armor).gt(10)),
    );
    assert_eq!(
        model.add_modification(heavy, armor, Modification::new(0, Calculation::placeholder() + 1)),
        Err(ErrorKind::CyclicDependency)
    );
}

#[test]
fn a_circle_through_a_condition_is_refused() {
    let mut model = Model::new();
    let burden = model.add_value("burden", Value::new(0));
    let speed = model.add_value("speed", Value::new(10));
    let slowed = model.add_item(
        "slowed",
        Item::new().set_condition(Calculation::value(burden).gt(5)),
    );
    assert_eq!(
        model.add_modification(slowed, speed, Modification::new(0, Calculation::placeholder() - 3)),
        Ok(())
    );
    // burden would depend on speed, which the item changes when burden changes.
    assert_eq!(
        model.add_dependency(burden, speed * 1),
        Err(ErrorKind::CyclicDependency)
    );

    let mut character = Character::new(&model);
    character.set_base(burden, 6);
    assert_eq!(character.get(speed), 7);
}

#[test]
fn a_later_modification_of_the_same_value_replaces_the_earlier_one() {
    let mut model = Model::new();
    let armor = model.add_value("armor", Value::new(0));
    let shield = model.add_item("shield", Item::new());
    model
        .add_modification(shield, armor, Modification::new(0, Calculation::placeholder() + 1))
        .unwrap();
    model
        .add_modification(shield, armor, Modification::new(0, Calculation::placeholder() + 5))
        .unwrap();

    let mut character = Character::new(&model);
    character.equip(shield);
    assert_eq!(character.get(armor), 5);
}

#[test]
fn of_two_modifications_of_one_value_in_a_selection_the_last_stays() {
    let mut model = Model::new();
    let armor = model.add_value("armor", Value::new(0));
    let speed = model.add_value("speed", Value::new(0));
    let stance = model.add_choice("stance", Choice::new());
    model.add_selection(
        stance,
        Selection::new(vec![
            (armor, Modification::new(0, Calculation::placeholder() + 1)),
            (speed, Modification::new(0, Calculation::placeholder() + 2)),
            (armor, Modification::new(0, Calculation::placeholder() + 7)),
        ]),
    );

    let mut character = Character::new(&model);
    character.select(stance, 1);
    assert_eq!(character.get(armor), 7);
    assert_eq!(character.get(speed), 2);
}

#[test]
fn a_modification_is_kept_as_it_is_built() {
    let modification = Modification::new(3, Calculation::placeholder() + 2);
    assert_eq!(modification.priority(), 3);
    assert!(!modification.calculation().is_bound());
    let fixed = Modification::new(0, Calculation::constant(4));
    assert_eq!(fixed.calculation().get(&[]), Ok(4));
}

#[test]
fn a_model_tells_whether_its_modifications_read_only_their_targets() {
    let mut model = Model::new();
    let armor = model.add_value("armor", Value::new(0));
    let speed = model.add_value("speed", Value::new(10));
    assert!(model.is_self_contained());

    let plate = model.add_item("plate", Item::new());
    model
        .add_modification(plate, armor, Modification::new(0, Calculation::placeholder() + 5))
        .unwrap();
    model
        .add_modification(plate, speed, Modification::new(0, Calculation::constant(3)))
        .unwrap();
    let stance = model.add_choice("stance", Choice::new());
    model.add_selection(
        stance,
        Selection::new(vec![(speed, Modification::new(0, Calculation::placeholder() * 2))]),
    );
    assert!(model.is_self_contained());

    let mut other = Model::new();
    let a = other.add_value("a", Value::new(0));
    let b = other.add_value("b", Value::new(0));
    let item = other.add_item("item", Item::new());
    other
        .add_modification(item, a, Modification::new(0, Calculation::placeholder() + b))
        .unwrap();
    assert!(!other.is_self_contained());

    let mut third = Model::new();
    let c = third.add_value("c", Value::new(0));
    let d = third.add_value("d", Value::new(0));
    let choice = third.add_choice("choice", Choice::new());
    third.add_selection(
        choice,
        Selection::new(vec![(c, Modification::new(0, Calculation::value(d)))]),
    );
    assert!(!third.is_self_contained());
}

#[test]
fn front_end_data_is_stored_with_what_it_describes() {
    let mut model = Model::new();
    let strength = model.add_value("strength", Value::new(1).frontend(FrontEnd::new("Strength")));
    let plain = model.add_value("plain", Value::new(2));
    let sword = model.add_item("sword", Item::new().frontend(FrontEnd::new("Sword")));
    model.add_dependency(plain, strength * 2).unwrap();
    model
        .add_modification(sword, strength, Modification::new(0, Calculation::placeholder() + 1))
        .unwrap();
    assert_eq!(
        model.values().get(strength).front_end.as_ref().unwrap().name,
        "Strength"
    );
    assert!(model.values().get(plain).front_end.is_none());
    assert_eq!(model.items().get(sword).front_end.as_ref().unwrap().name, "Sword");
}
