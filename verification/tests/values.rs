use charsheet::model::{Calculation, FrontEnd, Model, Value};
use charsheet::Character;

#[test]
fn values_simple_value() {
    let mut model = Model::new();
    let strength = model.add_value("strength", Value::new(0).frontend(FrontEnd::new("Strength")));

    let mut char = Character::new(&model);

    assert_eq!(char.get(strength), 0);

    char.set_base(strength, 2);
    assert_eq!(char.get(strength), 2);
}

#[test]
fn values_base_value() {
    let mut model = Model::new();
    let strength = model.add_value("strength", Value::new(2).frontend(FrontEnd::new("Strength")));

    let char = Character::new(&model);

    assert_eq!(char.get(strength), 2);
}

#[test]
fn values_dependent_value() {
    let mut model = Model::new();
    let strength = model.add_value("strength", Value::new(2).frontend(FrontEnd::new("Strength")));
    let max_burden = model.add_value(
        "max_burden",
        Value::new(20).frontend(FrontEnd::new("Carrying capacity")),
    );
    model
        .add_dependency(max_burden, {
            let c = Calculation::constant(10);
            let val = Calculation::value(strength);
            c * val
        })
        .unwrap();

    let mut char = Character::new(&model);

    assert_eq!(char.get(max_burden), 40);
    char.set_base(strength, 0);
    assert_eq!(char.get(max_burden), 20);
}

#[test]
fn values_multiple_dependencies() {
    let mut model = Model::new();
    let dexterity = model.add_value("dexterity", Value::new(2).frontend(FrontEnd::new("Dexterity")));
    let perception = model.add_value(
        "perception",
        Value::new(1).frontend(FrontEnd::new("Perception")),
    );

    let initiative = model.add_value(
        "initiative",
        Value::new(0).frontend(FrontEnd::new("Initiative")),
    );
    model
        .add_dependency(initiative, {
            let a = Calculation::value(perception);
            let b = Calculation::value(dexterity);
            a + b
        })
        .unwrap();

    let mut char = Character::new(&model);

    assert_eq!(char.get(initiative), 3);
    char.set_base(dexterity, 0);
    assert_eq!(char.get(initiative), 1);
    char.set_base(perception, 2);
    assert_eq!(char.get(initiative), 2);
}
