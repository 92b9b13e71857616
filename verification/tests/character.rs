use charsheet::model::{Calculation, Choice, Item, Model, Modification, Rounding, Selection, Value};
use charsheet::Character;

#[test]
fn setting_a_base_twice_is_setting_it_once() {
    let mut model = Model::new();
    let strength = model.add_value("strength", Value::new(2));
    let burden = model.add_value("burden", Value::new(20));
    model.add_dependency(burden, 10 * strength).unwrap();

    let mut character = Character::new(&model);
    character.set_base(strength, 7);
    assert_eq!(character.base(strength), 7);
    assert_eq!(character.get(strength), 7);
    assert_eq!(character.get(burden), 90);
    character.set_base(strength, 7);
    assert_eq!(character.base(strength), 7);
    assert_eq!(character.get(strength), 7);
    assert_eq!(character.get(burden), 90);
}

#[test]
fn setting_the_base_that_is_set_changes_nothing() {
    let mut model = Model::new();
    let strength = model.add_value("strength", Value::new(2));
    let mut character = Character::new(&model);
    character.set_base(strength, 2);
    assert_eq!(character.get(strength), 2);
    assert_eq!(character.base(strength), 2);
}

#[test]
fn a_change_travels_along_a_chain() {
    let mut model = Model::new();
    let a = model.add_value("a", Value::new(1));
    let b = model.add_value("b", Value::new(100));
    let c = model.add_value("c", Value::new(0));
    model.add_dependency(b, a * 2).unwrap();
    model.add_dependency(c, b + 1).unwrap();

    let mut character = Character::new(&model);
    assert_eq!(character.get(b), 102);
    assert_eq!(character.get(c), 103);
    character.set_base(a, 5);
    assert_eq!(character.get(b), 110);
    assert_eq!(character.get(c), 111);
    character.set_base(b, 0);
    assert_eq!(character.get(b), 10);
    assert_eq!(character.get(c), 11);
}

#[test]
fn a_change_travels_along_both_sides_of_a_diamond() {
    let mut model = Model::new();
    // The value at the bottom is declared first.
    let d = model.add_value("d", Value::new(0));
    let b = model.add_value("b", Value::new(0));
    let c = model.add_value("c", Value::new(0));
    let a = model.add_value("a", Value::new(1));
    model.add_dependency(d, b + c).unwrap();
    model.add_dependency(b, a * 2).unwrap();
    model.add_dependency(c, a + 10).unwrap();

    let mut character = Character::new(&model);
    assert_eq!(character.get(b), 2);
    assert_eq!(character.get(c), 11);
    assert_eq!(character.get(d), 13);
    character.set_base(a, 5);
    assert_eq!(character.get(b), 10);
    assert_eq!(character.get(c), 15);
    assert_eq!(character.get(d), 25);
}

#[test]
fn several_dependencies_of_one_value_add_up() {
    let mut model = Model::new();
    let a = model.add_value("a", Value::new(3));
    let b = model.add_value("b", Value::new(4));
    let sum = model.add_value("sum", Value::new(1000));
    model.add_dependency(sum, a * 1).unwrap();
    model.add_dependency(sum, b * 10).unwrap();
    model.add_dependency(sum, 5).unwrap();

    let mut character = Character::new(&model);
    assert_eq!(character.get(sum), 1048);
    character.set_base(b, 0);
    assert_eq!(character.get(sum), 1008);
}

#[test]
fn a_modifier_of_lower_priority_feeds_the_one_of_higher_priority() {
    let mut model = Model::new();
    let power = model.add_value("power", Value::new(10));
    let doubling = model.add_item("doubling", Item::new());
    let bonus = model.add_item("bonus", Item::new());
    model
        .add_modification(doubling, power, Modification::new(1, Calculation::placeholder() * 2))
        .unwrap();
    model
        .add_modification(bonus, power, Modification::new(0, Calculation::placeholder() + 3))
        .unwrap();

    let mut character = Character::new(&model);
    character.equip(doubling);
    assert_eq!(character.get(power), 20);
    character.equip(bonus);
    // (10 + 3) * 2, not 10 * 2 + 3
    assert_eq!(character.get(power), 26);
}

#[test]
fn modifiers_of_one_priority_apply_in_the_order_of_registration() {
    let mut model = Model::new();
    let power = model.add_value("power", Value::new(10));
    let doubling = model.add_item("doubling", Item::new());
    let bonus = model.add_item("bonus", Item::new());
    model
        .add_modification(doubling, power, Modification::new(4, Calculation::placeholder() * 2))
        .unwrap();
    model
        .add_modification(bonus, power, Modification::new(4, Calculation::placeholder() + 3))
        .unwrap();

    let mut character = Character::new(&model);
    character.equip(bonus);
    character.equip(doubling);
    // 10 * 2 + 3
    assert_eq!(character.get(power), 23);
}

#[test]
fn modifiers_work_on_the_base_with_its_dependencies() {
    let mut model = Model::new();
    let strength = model.add_value("strength", Value::new(3));
    let damage = model.add_value("damage", Value::new(1));
    model.add_dependency(damage, strength * 2).unwrap();
    let sword = model.add_item("sword", Item::new());
    model
        .add_modification(sword, damage, Modification::new(0, Calculation::placeholder() * 10))
        .unwrap();

    let mut character = Character::new(&model);
    assert_eq!(character.get(damage), 7);
    character.equip(sword);
    assert_eq!(character.get(damage), 70);
    character.set_base(strength, 4);
    assert_eq!(character.get(damage), 90);
}

#[test]
fn equipping_again_applies_the_modifier_again() {
    let mut model = Model::new();
    let armor = model.add_value("armor", Value::new(0));
    let plate = model.add_item("plate", Item::new());
    model
        .add_modification(plate, armor, Modification::new(0, Calculation::placeholder() + 2))
        .unwrap();

    let mut character = Character::new(&model);
    character.equip(plate);
    assert_eq!(character.get(armor), 2);
    assert_eq!(character.count(plate), 1);
    character.equip(plate);
    assert_eq!(character.get(armor), 4);
    character.equip(plate);
    assert_eq!(character.get(armor), 6);
    assert_eq!(character.count(plate), 3);
}

#[test]
fn a_stacked_modifier_works_on_its_own_result() {
    let mut model = Model::new();
    let power = model.add_value("power", Value::new(1));
    let growth = model.add_item("growth", Item::new());
    model
        .add_modification(
            growth,
            power,
            Modification::new(0, Calculation::placeholder() * 2 + 1),
        )
        .unwrap();

    let mut character = Character::new(&model);
    character.equip(growth);
    assert_eq!(character.get(power), 3);
    character.equip(growth);
    assert_eq!(character.get(power), 7);
    character.equip(growth);
    assert_eq!(character.get(power), 15);
}

#[test]
fn an_item_modifies_each_of_its_targets() {
    let mut model = Model::new();
    let armor = model.add_value("armor", Value::new(1));
    let speed = model.add_value("speed", Value::new(10));
    let plate = model.add_item("plate", Item::new());
    model
        .add_modification(plate, armor, Modification::new(0, Calculation::placeholder() + 5))
        .unwrap();
    model
        .add_modification(plate, speed, Modification::new(0, Calculation::placeholder() - 2))
        .unwrap();

    let mut character = Character::new(&model);
    character.equip(plate);
    assert_eq!(character.get(armor), 6);
    assert_eq!(character.get(speed), 8);
}

#[test]
fn a_condition_switches_its_item_on_and_off() {
    let mut model = Model::new();
    let initiative = model.add_value("initiative", Value::new(0));
    let burden = model.add_value("burden", Value::new(0));
    let max_burden = model.add_value("max_burden", Value::new(20));
    let overburdened = model.add_item(
        "overburdened",
        Item::new().set_condition(Calculation::gt(burden.into(), max_burden)),
    );
    model
        .add_modification(
            overburdened,
            initiative,
            Modification::new(0, Calculation::placeholder() - 2),
        )
        .unwrap();

    let mut character = Character::new(&model);
    assert_eq!(character.count(overburdened), 0);
    character.set_base(burden, 21);
    assert_eq!(character.count(overburdened), 1);
    assert_eq!(character.get(initiative), -2);
    character.set_base(max_burden, 30);
    assert_eq!(character.count(overburdened), 0);
    assert_eq!(character.get(initiative), 0);
    character.set_base(burden, 31);
    assert_eq!(character.count(overburdened), 1);
    assert_eq!(character.get(initiative), -2);
    character.set_base(burden, 5);
    assert_eq!(character.count(overburdened), 0);
    assert_eq!(character.get(initiative), 0);
}

#[test]
fn the_result_of_a_condition_is_the_count_of_its_item() {
    let mut model = Model::new();
    let rank = model.add_value("rank", Value::new(3));
    let bonus = model.add_value("bonus", Value::new(0));
    let veteran = model.add_item("veteran", Item::new().set_condition(rank));
    model
        .add_modification(veteran, bonus, Modification::new(0, Calculation::placeholder() + 10))
        .unwrap();

    let mut character = Character::new(&model);
    // Conditions are looked at when a value that they read changes.
    assert_eq!(character.count(veteran), 0);
    assert_eq!(character.get(bonus), 0);
    character.set_base(rank, 2);
    assert_eq!(character.count(veteran), 2);
    assert_eq!(character.get(bonus), 20);
    character.set_base(rank, 0);
    assert_eq!(character.count(veteran), 0);
    assert_eq!(character.get(bonus), 0);
}

#[test]
fn an_item_is_active_exactly_if_its_condition_is_not_zero() {
    let mut model = Model::new();
    let rank = model.add_value("rank", Value::new(0));
    let bonus = model.add_value("bonus", Value::new(0));
    let veteran = model.add_item("veteran", Item::new().set_condition(rank));
    model
        .add_modification(veteran, bonus, Modification::new(0, Calculation::placeholder() + 1))
        .unwrap();

    let mut character = Character::new(&model);
    character.set_base(rank, -1);
    assert_eq!(character.count(veteran), 1);
    assert_eq!(character.get(bonus), 1);
    character.set_base(rank, i32::MIN);
    assert_eq!(character.count(veteran), 1);
    assert_eq!(character.get(bonus), 1);
    character.set_base(rank, 65535);
    assert_eq!(character.count(veteran), 65535);
    assert_eq!(character.get(bonus), 65535);
    character.set_base(rank, 65536);
    assert_eq!(character.count(veteran), 65535);
    assert_eq!(character.get(bonus), 65535);
    character.set_base(rank, i32::MAX);
    assert_eq!(character.count(veteran), 65535);
    character.set_base(rank, 0);
    assert_eq!(character.count(veteran), 0);
    assert_eq!(character.get(bonus), 0);
    character.set_base(rank, 2);
    assert_eq!(character.count(veteran), 2);
    assert_eq!(character.get(bonus), 2);
}

#[test]
fn a_condition_that_gives_a_multiple_of_the_largest_count_is_true() {
    let mut model = Model::new();
    let a = model.add_value("a", Value::new(0));
    let bonus = model.add_value("bonus", Value::new(0));
    let item = model.add_item("item", Item::new().set_condition(a * 65536));
    model
        .add_modification(item, bonus, Modification::new(0, Calculation::placeholder().max(7)))
        .unwrap();

    let mut character = Character::new(&model);
    character.set_base(a, 1);
    assert_eq!(character.count(item), 65535);
    assert_eq!(character.get(bonus), 7);
    character.set_base(a, 0);
    assert_eq!(character.count(item), 0);
    assert_eq!(character.get(bonus), 0);
}

#[test]
fn a_condition_follows_a_value_that_depends_on_another() {
    let mut model = Model::new();
    let strength = model.add_value("strength", Value::new(1));
    let capacity = model.add_value("capacity", Value::new(0));
    let speed = model.add_value("speed", Value::new(10));
    model.add_dependency(capacity, strength * 10).unwrap();
    let strong = model.add_item(
        "strong",
        Item::new().set_condition(Calculation::value(capacity).ge(50)),
    );
    model
        .add_modification(strong, speed, Modification::new(0, Calculation::placeholder() + 1))
        .unwrap();

    let mut character = Character::new(&model);
    assert_eq!(character.get(speed), 10);
    character.set_base(strength, 5);
    assert_eq!(character.get(capacity), 50);
    assert_eq!(character.get(speed), 11);
    character.set_base(strength, 4);
    assert_eq!(character.get(speed), 10);
}

#[test]
fn a_selection_applies_its_modifications_while_it_is_active() {
    let mut model = Model::new();
    let constitution = model.add_value("constitution", Value::new(10));
    let dexterity = model.add_value("dexterity", Value::new(8));
    let modifier = model.add_value("constitution_mod", Value::new(0));
    model
        .add_dependency(modifier, Calculation::value(constitution).div(Rounding::Floor, 2) - 5)
        .unwrap();
    let race = model.add_choice("race", Choice::new());
    model.add_selection(
        race,
        Selection::new(vec![(
            constitution,
            Modification::new(0, Calculation::placeholder() + 2),
        )]),
    );
    model.add_selection(
        race,
        Selection::new(vec![
            (constitution, Modification::new(0, Calculation::placeholder() + 5)),
            (dexterity, Modification::new(0, Calculation::placeholder() + 1)),
        ]),
    );

    let mut character = Character::new(&model);
    assert_eq!(character.selection(race), 0);
    assert_eq!(character.get(constitution), 10);
    assert_eq!(character.get(modifier), 0);

    character.select(race, 1);
    assert_eq!(character.selection(race), 1);
    assert_eq!(character.get(constitution), 12);
    assert_eq!(character.get(dexterity), 8);
    assert_eq!(character.get(modifier), 1);

    character.select(race, 2);
    assert_eq!(character.get(constitution), 15);
    assert_eq!(character.get(dexterity), 9);
    assert_eq!(character.get(modifier), 2);

    character.select(race, 2);
    assert_eq!(character.get(constitution), 15);
    assert_eq!(character.get(dexterity), 9);

    character.select(race, 0);
    assert_eq!(character.get(constitution), 10);
    assert_eq!(character.get(dexterity), 8);
    assert_eq!(character.get(modifier), 0);
}

#[test]
fn modifiers_of_items_come_before_those_of_choices_at_one_priority() {
    let mut model = Model::new();
    let power = model.add_value("power", Value::new(10));
    let stance = model.add_choice("stance", Choice::new());
    model.add_selection(
        stance,
        Selection::new(vec![(power, Modification::new(0, Calculation::placeholder() * 2))]),
    );
    let bonus = model.add_item("bonus", Item::new());
    model
        .add_modification(bonus, power, Modification::new(0, Calculation::placeholder() + 3))
        .unwrap();

    let mut character = Character::new(&model);
    character.select(stance, 1);
    assert_eq!(character.get(power), 20);
    character.equip(bonus);
    // (10 + 3) * 2
    assert_eq!(character.get(power), 26);
}

#[test]
fn a_selection_of_lower_priority_applies_before_an_item() {
    let mut model = Model::new();
    let power = model.add_value("power", Value::new(10));
    let stance = model.add_choice("stance", Choice::new());
    model.add_selection(
        stance,
        Selection::new(vec![(power, Modification::new(0, Calculation::placeholder() * 2))]),
    );
    let bonus = model.add_item("bonus", Item::new());
    model
        .add_modification(bonus, power, Modification::new(1, Calculation::placeholder() + 3))
        .unwrap();

    let mut character = Character::new(&model);
    character.equip(bonus);
    character.select(stance, 1);
    // 10 * 2 + 3
    assert_eq!(character.get(power), 23);
}

#[test]
fn a_new_character_has_no_inventory_without_a_main_inventory() {
    let model = Model::new();
    let character = Character::new(&model);
    assert_eq!(character.inventory_count(), 0);
}

fn travel_model() -> Model {
    let mut model = Model::new();
    let strength = model.add_value("strength", Value::new(1));
    let dexterity = model.add_value("dexterity", Value::new(10));
    let burden = model.add_value("burden", Value::new(0));
    let capacity = model.add_value("capacity", Value::new(0));
    let speed = model.add_value("speed", Value::new(1));
    model.add_dependency(capacity, strength * 10).unwrap();
    model
        .add_dependency(speed, Calculation::value(dexterity) - burden / 10)
        .unwrap();
    let encumbered = model.add_item(
        "encumbered",
        Item::new().set_condition(Calculation::value(burden).gt(capacity)),
    );
    model
        .add_modification(
            encumbered,
            speed,
            Modification::new(0, Calculation::placeholder().div(Rounding::Floor, 2)),
        )
        .unwrap();
    let boots = model.add_item("boots", Item::new());
    model
        .add_modification(boots, speed, Modification::new(1, Calculation::placeholder() + 3))
        .unwrap();
    model
}

#[test]
fn the_order_of_changes_does_not_matter_for_the_result() {
    let model = travel_model();
    let strength = model.value_id("strength");
    let dexterity = model.value_id("dexterity");
    let burden = model.value_id("burden");
    let capacity = model.value_id("capacity");
    let speed = model.value_id("speed");
    let encumbered = model.item_id("encumbered");
    let boots = model.item_id("boots");

    let mut first = Character::new(&model);
    first.equip(boots);
    first.set_base(strength, 2);
    first.set_base(burden, 25);
    first.set_base(dexterity, 14);

    let mut second = Character::new(&model);
    second.set_base(dexterity, 3);
    second.set_base(burden, 5);
    second.set_base(dexterity, 14);
    second.set_base(burden, 25);
    second.equip(boots);
    second.set_base(strength, 7);
    second.set_base(strength, 2);

    for character in [&first, &second] {
        assert_eq!(character.get(capacity), 20);
        assert_eq!(character.count(encumbered), 1);
        // 1 + (14 - 25 / 10) = 13, halved to 6, plus 3
        assert_eq!(character.get(speed), 9);
        assert_eq!(character.get(strength), 2);
        assert_eq!(character.get(dexterity), 14);
        assert_eq!(character.get(burden), 25);
    }

    first.set_base(strength, 3);
    assert_eq!(first.count(encumbered), 0);
    // 13 plus 3
    assert_eq!(first.get(speed), 16);
}

#[test]
fn every_value_is_what_its_formula_gives_after_each_change() {
    let model = travel_model();
    let strength = model.value_id("strength");
    let dexterity = model.value_id("dexterity");
    let burden = model.value_id("burden");
    let capacity = model.value_id("capacity");
    let speed = model.value_id("speed");

    let mut character = Character::new(&model);
    let steps = [
        (strength, 4),
        (burden, 39),
        (dexterity, -6),
        (burden, 41),
        (strength, 5),
        (burden, 0),
        (dexterity, 100),
        (strength, -3),
    ];
    for (id, base) in steps.iter() {
        character.set_base(*id, *base);
        let expected_capacity = character.get(strength) * 10;
        let unmodified = 1 + (character.get(dexterity) - character.get(burden).div_euclid(10));
        let expected_speed = if character.get(burden) > expected_capacity {
            unmodified.div_euclid(2)
        } else {
            unmodified
        };
        assert_eq!(character.get(capacity), expected_capacity);
        assert_eq!(character.get(speed), expected_speed);
    }
}

#[test]
fn the_order_of_equipping_does_not_matter() {
    let mut model = Model::new();
    let power = model.add_value("power", Value::new(10));
    let reach = model.add_value("reach", Value::new(0));
    model.add_dependency(reach, power * 3).unwrap();
    let strong = model.add_item(
        "strong",
        Item::new().set_condition(Calculation::value(power).ge(25)),
    );
    model
        .add_modification(strong, reach, Modification::new(0, Calculation::placeholder() + 1))
        .unwrap();
    let doubling = model.add_item("doubling", Item::new());
    let bonus = model.add_item("bonus", Item::new());
    model
        .add_modification(doubling, power, Modification::new(1, Calculation::placeholder() * 2))
        .unwrap();
    model
        .add_modification(bonus, power, Modification::new(0, Calculation::placeholder() + 3))
        .unwrap();
    assert!(model.is_self_contained());

    let mut first = Character::new(&model);
    first.equip(doubling);
    first.equip(bonus);
    let mut second = Character::new(&model);
    second.equip(bonus);
    second.equip(doubling);
    for character in [&first, &second] {
        // (10 + 3) * 2
        assert_eq!(character.get(power), 26);
        assert_eq!(character.count(strong), 1);
        // 26 * 3 + 1
        assert_eq!(character.get(reach), 79);
        assert_eq!(character.count(doubling), 1);
        assert_eq!(character.count(bonus), 1);
    }
}
