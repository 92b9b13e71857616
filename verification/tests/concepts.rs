use charsheet::model::{Calculation, FrontEnd, Model, Value};
use charsheet::Character;

#[test]
fn concepts_character_points() {
    let mut model = Model::new();

    let character_points = model.add_value(
        "character_points",
        Value::new(40).frontend(FrontEnd::new("Character Points")),
    );
    let strength = model.add_value("strength", Value::new(5).frontend(FrontEnd::new("Strength")));
    let min_strength = model.add_value(
        "min_strength",
        Value::new(3).frontend(FrontEnd::new("Minimum Strength")),
    );
    let max_strength = model.add_value(
        "max_strength",
        Value::new(12).frontend(FrontEnd::new("Maximum Strength")),
    );

    model
        .add_dependency(character_points, {
            let min = Calculation::value(min_strength);
            let actual = Calculation::value(strength);
            let max = Calculation::value(max_strength);
            let out = min - actual;

            let extra = {
                let threshold = Calculation::constant(2);
                let threshold = max - threshold;
                let threshold = Calculation::value(strength) - threshold;

                let zero = Calculation::constant(0);
                zero.max(threshold)
            };
            out - extra
        })
        .unwrap();

    let mut char = Character::new(&model);

    assert_eq!(char.get(character_points), 38);
    char.set_base(strength, 10);
    assert_eq!(char.get(character_points), 33);
    char.set_base(strength, 11);
    assert_eq!(char.get(character_points), 31);
    char.set_base(strength, 12);
    assert_eq!(char.get(character_points), 29);
}
