use mursten::parts::{check_new_skeleton_name, Change, Definition, FloatValue, NewNameProblem, Part};

fn rotation_by(name: &str) -> Part {
    Part::Rotation(FloatValue::Variable(String::from(name)))
}

fn attached(d: &Definition, id: usize) -> Option<usize> {
    d.entries[&id].attached_to
}

#[test]
fn parts_are_numbered_as_they_are_added() {
    let mut d = Definition::default();
    assert!(d.apply(Change::AddToRoot(Part::Translation(0, 0, 1f32.to_bits()))).is_ok());
    assert!(d.apply(Change::AddToPart(0, rotation_by("elbow"))).is_ok());
    assert!(d.apply(Change::AddToPart(1, Part::EndEffector(String::from("hand")))).is_ok());
    assert_eq!(d.next_part_id, 3);
    assert_eq!(d.entries.len(), 3);
    assert_eq!(attached(&d, 0), None);
    assert_eq!(attached(&d, 1), Some(0));
    assert_eq!(attached(&d, 2), Some(1));
}

#[test]
fn deleting_a_part_detaches_what_hung_from_it() {
    let mut d = Definition::default();
    d.apply(Change::AddToRoot(rotation_by("a"))).unwrap();
    d.apply(Change::AddToPart(0, rotation_by("b"))).unwrap();
    d.apply(Change::AddToPart(0, rotation_by("c"))).unwrap();
    d.apply(Change::AddToPart(1, rotation_by("d"))).unwrap();
    assert!(d.apply(Change::Delete(0)).is_ok());
    assert_eq!(d.entries.len(), 3);
    assert!(!d.entries.contains_key(&0));
    assert_eq!(attached(&d, 1), None);
    assert_eq!(attached(&d, 2), None);
    assert_eq!(attached(&d, 3), Some(1));
    assert_eq!(d.next_part_id, 4);
    assert!(d.apply(Change::Delete(7)).is_ok());
    assert_eq!(d.entries.len(), 3);
}

#[test]
fn replacing_a_part_keeps_where_it_hangs() {
    let mut d = Definition::default();
    d.apply(Change::AddToRoot(rotation_by("a"))).unwrap();
    d.apply(Change::AddToPart(0, rotation_by("b"))).unwrap();
    assert!(d.apply(Change::Replace(1, Part::EndEffector(String::from("tip")))).is_ok());
    assert_eq!(attached(&d, 1), Some(0));
    assert!(matches!(&d.entries[&1].part, Part::EndEffector(n) if n == "tip"));
    assert_eq!(d.next_part_id, 2);
}

#[test]
fn variables_are_named_once() {
    let mut d = Definition::default();
    d.apply(Change::AddToRoot(rotation_by("shoulder"))).unwrap();
    d.apply(Change::AddToPart(0, rotation_by("elbow"))).unwrap();
    d.apply(Change::AddToPart(1, rotation_by("shoulder"))).unwrap();
    d.apply(Change::AddToPart(2, Part::Rotation(FloatValue::Constant(90f32.to_bits())))).unwrap();
    d.apply(Change::AddToPart(3, Part::EndEffector(String::from("hand")))).unwrap();
    let mut vs = d.variables();
    vs.sort();
    assert_eq!(vs, vec![String::from("elbow"), String::from("shoulder")]);
    assert!(Definition::default().variables().is_empty());
}

#[test]
fn new_skeleton_names_must_be_given_and_free() {
    let existing = vec![String::from("arm"), String::from("leg")];
    assert_eq!(check_new_skeleton_name(&String::new(), &existing), Err(NewNameProblem::Empty));
    assert_eq!(check_new_skeleton_name(&String::from("arm"), &existing), Err(NewNameProblem::Taken));
    assert_eq!(check_new_skeleton_name(&String::from("torso"), &existing), Ok(()));
    assert_eq!(NewNameProblem::Empty.message(), "Name cant be empty");
    assert_eq!(NewNameProblem::Taken.message(), "Already exists a skeleton with the given name");
}
