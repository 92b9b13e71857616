use charsheet::model::{Container, FrontEnd, Id, Model, Value, ValueId};
use std::collections::HashMap;

#[test]
fn container_starts_empty() {
    let container: Container<i32> = Container::new();
    assert_eq!(container.len(), 0);
    assert!(container.find("anything").is_none());
    let other: Container<i32> = Container::default();
    assert_eq!(other.len(), 0);
}

#[test]
fn container_hands_out_ids_in_order() {
    let mut container: Container<i32> = Container::new();
    let first = container.insert("first", 10);
    let second = container.insert("second", 20);
    assert_eq!(first.index(), 0);
    assert_eq!(second.index(), 1);
    assert_eq!(container.len(), 2);
    assert_eq!(*container.get(first), 10);
    assert_eq!(*container.get(second), 20);
}

#[test]
fn container_finds_ids_by_their_string() {
    let mut container: Container<i32> = Container::new();
    let first = container.insert("first", 10);
    let second = container.insert("second", 20);
    assert_eq!(container.id("first"), first);
    assert_eq!(container.id("second"), second);
    assert_eq!(container.find("second"), Some(second));
    assert_eq!(container.find("third"), None);
}

#[test]
fn container_gives_access_to_change_a_value() {
    let mut container: Container<i32> = Container::new();
    let first = container.insert("first", 10);
    let second = container.insert("second", 20);
    *container.get_mut(first) += 5;
    assert_eq!(*container.get(first), 15);
    assert_eq!(*container.get(second), 20);
    assert_eq!(container.id("first"), first);
}

#[test]
fn ids_compare_by_their_index() {
    let a: Id<i32> = Id::new(3);
    let b: Id<i32> = Id::new(3);
    let c: Id<i32> = Id::new(4);
    assert!(a == b);
    assert!(a != c);
    let copy = a;
    assert_eq!(copy.index(), a.index());
}

#[test]
fn front_end_starts_with_a_name_only() {
    let front_end = FrontEnd::new("Strength");
    assert_eq!(front_end.name, "Strength");
    assert!(front_end.name_short.is_none());
    assert!(front_end.description.is_none());
}

#[test]
fn ids_of_a_model_can_be_keys() {
    let mut model = Model::new();
    let strength = model.add_value("strength", Value::new(1));
    let dexterity = model.add_value("dexterity", Value::new(2));
    let mut notes: HashMap<ValueId, &str> = HashMap::new();
    notes.insert(strength, "strong");
    notes.insert(dexterity, "quick");
    assert_eq!(notes[&strength], "strong");
    assert_eq!(notes[&dexterity], "quick");
    assert_eq!(notes.len(), 2);
}
