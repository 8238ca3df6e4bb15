use mursten::example::{
    and_one_more_is_five_model, empty_test_model, peano_eval, peano_model, two_and_two_is_four_model,
};
use mursten::model::{
    ar, sk, sn, Artifact, Assoc, Block, Connection, InMemoryModel, Model, SlotKind, SlotName, Structure,
};

fn slots(entries: &[(&str, &str)]) -> Assoc<SlotName, SlotKind> {
    let mut m = Assoc::new();
    for (n, k) in entries {
        m.insert(sn(n), sk(k));
    }
    m
}

fn block(kind: &str, entries: &[(&str, &str)]) -> Artifact {
    Artifact::Block(Block { main_slot_kind: sk(kind), slots: slots(entries) })
}

fn structure(a_ref: &str, c: Vec<(&str, Connection)>) -> Structure {
    let mut m = Assoc::new();
    for (n, conn) in c {
        m.insert(sn(n), conn);
    }
    Structure { a_ref: ar(a_ref), c: m }
}

fn number_2() -> Artifact {
    Artifact::Structure(structure(
        "successor",
        vec![(
            "x",
            Connection::Structure(structure(
                "successor",
                vec![("x", Connection::Structure(structure("zero", vec![])))],
            )),
        )],
    ))
}

// ---------------------------------------------------------------------------
// Scenarios of the model
// ---------------------------------------------------------------------------

#[test]
fn mursten_peano_numbers() {
    let mut model = peano_model();
    model.set_artifact(ar("number_2"), number_2());
    model.validate_model().unwrap();
    assert!(model.slots_of(&ar("number_2")).unwrap().is_empty());
    assert_eq!(peano_eval(&ar("number_2"), &model), 2);
}

#[test]
fn mursten_empty_model_is_valid() {
    let model = empty_test_model();
    model.validate_model().unwrap();
    assert!(model.list_artifacts().is_empty());
}

#[test]
fn mursten_a_simple_block() {
    let mut model = empty_test_model();
    let a = ar("a");
    model.set_artifact(a.clone(), block("A", &[]));
    model.validate_model().unwrap();
    assert_eq!(model.main_slot_kind_of(&a).unwrap(), sk("A"));
    assert!(model.slots_of(&a).unwrap().is_empty());

    let artifact = model.get_artifact(&a).unwrap();
    assert_eq!(artifact.composite(), false);

    assert!(model.list_artifacts().contains(&a));
}

#[test]
fn mursten_a_block_with_a_slot() {
    let mut model = empty_test_model();
    model.set_artifact(ar("a"), block("A", &[("1", "A")]));
    model.validate_model().unwrap();
    assert!(model.is_all_valid());
    assert_eq!(model.main_slot_kind_of(&ar("a")).unwrap(), sk("A"));
    assert_eq!(*model.slots_of(&ar("a")).unwrap().get(&sn("1")).unwrap(), sk("A"));

    let artifact = model.get_artifact(&ar("a")).unwrap();
    assert_eq!(artifact.composite(), false);

    assert!(model.list_artifacts().contains(&ar("a")));
}

#[test]
fn mursten_a_structure_depending_on_an_unexistent_artifact() {
    let mut model = empty_test_model();
    model.set_artifact(ar("a"), Artifact::Structure(structure("b", vec![])));
    model.validate_model().expect_err("Should fail");
    assert!(!model.is_all_valid());
    assert!(model.list_artifacts().contains(&ar("a")));
    assert!(model.get_artifact(&ar("a")).unwrap().composite());
}

#[test]
fn mursten_a_structure_using_a_simple_block() {
    let mut model = empty_test_model();
    model.set_artifact(ar("b"), block("B", &[]));
    model.set_artifact(ar("a"), Artifact::Structure(structure("b", vec![])));
    model.validate_model().unwrap();

    assert_eq!(model.main_slot_kind_of(&ar("a")).unwrap(), sk("B"));
    assert_eq!(model.slots_of(&ar("a")).unwrap().is_empty(), true);
}

#[test]
fn mursten_a_structure_using_a_simple_block_remapping_slots() {
    let mut model = empty_test_model();
    model.set_artifact(ar("b"), block("B", &[("80", "PROTO")]));
    model.set_artifact(
        ar("a"),
        Artifact::Structure(structure("b", vec![("80", Connection::Slot(sn("9980")))])),
    );
    model.validate_model().unwrap();

    assert_eq!(model.main_slot_kind_of(&ar("a")).unwrap(), sk("B"));
    let slots = model.slots_of(&ar("a")).unwrap();
    assert_eq!(slots.len(), 1);
    assert_eq!(*slots.get(&sn("9980")).unwrap(), sk("PROTO"));
}

#[test]
fn mursten_a_structure_depending_on_itself() {
    let mut model = empty_test_model();
    model.set_artifact(ar("a"), Artifact::Structure(structure("a", vec![])));
    model.validate_model().expect_err("Should fail");
}

#[test]
fn mursten_mutually_recursive_structures() {
    let mut model = empty_test_model();
    model.set_artifact(ar("a"), Artifact::Structure(structure("b", vec![])));
    model.set_artifact(ar("b"), Artifact::Structure(structure("a", vec![])));
    model.validate_model().expect_err("Should fail");
}

#[test]
fn mursten_two_and_two_is_four() {
    let model = two_and_two_is_four_model();
    model.validate_model().unwrap();
    assert_eq!(model.slots_of(&ar("plus_2")).unwrap().len(), 1);
    assert_eq!(*model.slots_of(&ar("plus_2")).unwrap().get(&sn("x")).unwrap(), sk("Natural"));
    assert!(model.slots_of(&ar("number_4")).unwrap().is_empty());

    assert_eq!(peano_eval(&ar("number_4"), &model), 4);
}

#[test]
fn cannot_safely_remove_an_artifact_from_an_invalid_model() {
    let mut model = two_and_two_is_four_model();
    model.remove_artifact(&ar("zero"));

    let res = model.safely_remove_artifact(&ar("number_4"));
    assert_eq!(res, Err("Cannot safely remove an artifact from an invalid model".into()));
    assert!(model.list_artifacts().contains(&ar("number_4")));
}

#[test]
fn can_safely_remove_something_that_is_not_referenced_anywhere() {
    let mut model = two_and_two_is_four_model();
    let res = model.safely_remove_artifact(&ar("number_4"));
    assert_eq!(res, Ok(()));
    model.validate_model().unwrap();
    assert!(!model.list_artifacts().contains(&ar("number_4")));
}

#[test]
fn cannot_remove_an_artifact_that_is_referenced_by_a_structure() {
    let mut model = two_and_two_is_four_model();
    let res = model.safely_remove_artifact(&ar("zero"));
    assert_eq!(res, Err("Cannot safely remove zero because is referenced by number_4".into()));
    model.validate_model().unwrap();
    assert!(model.list_artifacts().contains(&ar("zero")));
    assert!(model.list_artifacts().contains(&ar("number_4")));
}

#[test]
fn cannot_remove_another_artifact_that_is_referenced_by_multiple_structures() {
    let mut model = and_one_more_is_five_model();
    let res = model.safely_remove_artifact(&ar("successor"));
    assert_eq!(
        res,
        Err("Cannot safely remove successor because is referenced by number_5 and plus_2".into())
    );
    model.validate_model().unwrap();
    assert!(model.list_artifacts().contains(&ar("zero")));
    assert!(model.list_artifacts().contains(&ar("number_4")));
}

#[test]
fn can_rename_slot_of_unused_block() {
    let mut model = peano_model();
    model.rename_slot(&ar("successor"), &sn("x"), sn("y")).expect("Should be able to rename it");
    assert!(!model.slots_of(&ar("successor")).unwrap().contains_key(&sn("x")));
    assert!(model.slots_of(&ar("successor")).unwrap().contains_key(&sn("y")));
}

#[test]
fn cannot_rename_slot_into_an_already_existent_name() {
    let mut model = peano_model();
    let res = model.rename_slot(&ar("successor"), &sn("x"), sn("x"));

    assert_eq!(res, Err("Artifact successor already has a slot named 'x".into()));
    model.validate_model().unwrap();
    assert!(model.slots_of(&ar("successor")).unwrap().contains_key(&sn("x")));
}

#[test]
fn cannot_rename_an_unexistent_slot() {
    let mut model = peano_model();
    let res = model.rename_slot(&ar("zero"), &sn("z"), sn("y"));

    assert_eq!(res, Err("Slot 'z does not exists in zero".into()));
    model.validate_model().unwrap();
    assert!(model.slots_of(&ar("zero")).unwrap().is_empty());
}

#[test]
fn renaming_slot_name_changes_dependant_structures() {
    let mut model = two_and_two_is_four_model();
    model.rename_slot(&ar("successor"), &sn("x"), sn("y")).expect("Should be able to rename it");
    model.validate_model().unwrap();
    assert!(!model.slots_of(&ar("successor")).unwrap().contains_key(&sn("x")));
    assert!(model.slots_of(&ar("successor")).unwrap().contains_key(&sn("y")));
    assert_eq!(model.slots_of(&ar("plus_2")).unwrap().len(), 1);
    assert!(model.slots_of(&ar("plus_2")).unwrap().contains_key(&sn("x")));
}

#[test]
fn can_safely_remove_a_slot_if_its_artifact_is_not_used_by_any_structure() {
    let mut model = peano_model();
    model.safely_remove_block_slot(&ar("successor"), &sn("x")).expect("Should be able to remove it");
    model.validate_model().unwrap();
    assert!(model.slots_of(&ar("successor")).unwrap().is_empty());
}

#[test]
fn cannot_delete_an_unexisting_slot() {
    let mut model = peano_model();
    let res = model.safely_remove_block_slot(&ar("zero"), &sn("q"));
    assert_eq!(res, Err("Block zero does not have a 'q slot".into()));
    model.validate_model().unwrap();
    assert!(model.slots_of(&ar("successor")).unwrap().contains_key(&sn("x")));
}

#[test]
fn cannot_delete_slot_from_an_unexistent_artifact() {
    let mut model = peano_model();
    let res = model.safely_remove_block_slot(&ar("wibblidy"), &sn("woob"));
    assert_eq!(res, Err("Artifact wibblidy does not exist".into()));
    model.validate_model().unwrap();
}

#[test]
fn cannot_delete_slot_from_a_structure() {
    let mut model = and_one_more_is_five_model();
    let res = model.safely_remove_block_slot(&ar("plus_2"), &sn("x"));
    assert_eq!(res, Err("Cannot remove slot of a structure".into()));
    model.validate_model().unwrap();
}

#[test]
fn cannot_delete_slot_if_some_structure_uses_it() {
    let mut model = and_one_more_is_five_model();
    let res = model.safely_remove_block_slot(&ar("successor"), &sn("x"));
    assert_eq!(
        res,
        Err("Cannot remove slot 'x from successor because is used by number_5 and plus_2".into())
    );
    model.validate_model().unwrap();
    assert!(model.slots_of(&ar("successor")).unwrap().contains_key(&sn("x")));
}

#[test]
fn cannot_delete_slot_if_model_is_not_valid() {
    let mut model = two_and_two_is_four_model();
    model.remove_artifact(&ar("plus_2"));
    let res = model.safely_remove_block_slot(&ar("successor"), &sn("x"));
    assert_eq!(res, Err("Cannot safely remove slot in an invalid model".into()));
    assert!(model.slots_of(&ar("successor")).unwrap().contains_key(&sn("x")));
}

#[test]
fn can_safely_remove_a_slot_if_is_not_used_in_any_strucure() {
    let mut model = two_and_two_is_four_model();
    model.set_artifact(ar("successor"), block("Natural", &[("x", "Natural"), ("step", "Natural")]));
    model.safely_remove_block_slot(&ar("successor"), &sn("step")).expect("Should be able to remove it");
    model.validate_model().unwrap();
    assert!(model.slots_of(&ar("successor")).unwrap().contains_key(&sn("x")));
    assert_eq!(model.slots_of(&ar("successor")).unwrap().len(), 1);
}

// ---------------------------------------------------------------------------
// The same scenarios, as first written against the draft of the model
// ---------------------------------------------------------------------------

#[test]
fn xxx_empty_model_is_valid() {
    let model = InMemoryModel::new();
    model.validate_model().unwrap();
    assert!(model.list_artifacts().is_empty());
}

#[test]
fn xxx_a_simple_block() {
    let mut model = InMemoryModel::new();
    let a = ar("a");
    model.set_artifact(a.clone(), block("A", &[]));
    model.validate_model().unwrap();
    assert_eq!(model.main_slot_kind_of(&a).unwrap(), sk("A"));
    assert!(model.slots_of(&a).unwrap().is_empty());

    let artifact = model.get_artifact(&a).unwrap();
    assert_eq!(artifact.composite(), false);

    assert!(model.list_artifacts().contains(&a));
}

#[test]
fn xxx_a_block_with_a_slot() {
    let mut model = InMemoryModel::new();
    model.set_artifact(ar("a"), block("A", &[("1", "A")]));
    model.validate_model().unwrap();
    assert_eq!(model.main_slot_kind_of(&ar("a")).unwrap(), sk("A"));
    assert_eq!(*model.slots_of(&ar("a")).unwrap().get(&sn("1")).unwrap(), sk("A"));

    let artifact = model.get_artifact(&ar("a")).unwrap();
    assert_eq!(artifact.composite(), false);

    assert!(model.list_artifacts().contains(&ar("a")));
}

#[test]
fn xxx_a_structure_depending_on_an_unexistent_artifact() {
    let mut model = InMemoryModel::new();
    model.set_artifact(ar("a"), Artifact::Structure(structure("b", vec![])));
    model.validate_model().expect_err("Should fail");

    assert!(model.list_artifacts().contains(&ar("a")));
    assert!(model.get_artifact(&ar("a")).unwrap().composite());
}

#[test]
fn xxx_a_structure_using_a_simple_block() {
    let mut model = InMemoryModel::new();
    model.set_artifact(ar("b"), block("B", &[]));
    model.set_artifact(ar("a"), Artifact::Structure(structure("b", vec![])));
    model.validate_model().unwrap();

    assert_eq!(model.main_slot_kind_of(&ar("a")).unwrap(), sk("B"));
    assert_eq!(model.slots_of(&ar("a")).unwrap().is_empty(), true);
}

#[test]
fn xxx_a_structure_using_a_simple_block_remapping_slots() {
    let mut model = InMemoryModel::new();
    model.set_artifact(ar("b"), block("B", &[("80", "PROTO")]));
    model.set_artifact(
        ar("a"),
        Artifact::Structure(structure("b", vec![("80", Connection::Slot(sn("9980")))])),
    );
    model.validate_model().unwrap();

    assert_eq!(model.main_slot_kind_of(&ar("a")).unwrap(), sk("B"));
    let slots = model.slots_of(&ar("a")).unwrap();
    assert_eq!(slots.len(), 1);
    assert_eq!(*slots.get(&sn("9980")).unwrap(), sk("PROTO"));
}

#[test]
fn xxx_a_structure_depending_on_itself() {
    let mut model = InMemoryModel::new();
    model.set_artifact(ar("a"), Artifact::Structure(structure("a", vec![])));
    model.validate_model().expect_err("Should fail");
}

#[test]
fn xxx_mutually_recursive_structures() {
    let mut model = InMemoryModel::new();
    model.set_artifact(ar("a"), Artifact::Structure(structure("b", vec![])));
    model.set_artifact(ar("b"), Artifact::Structure(structure("a", vec![])));
    model.validate_model().expect_err("Should fail");
}

#[test]
fn xxx_peano_numbers() {
    let mut model = peano_model();
    model.set_artifact(ar("number_2"), number_2());
    model.validate_model().unwrap();
    assert!(model.slots_of(&ar("number_2")).unwrap().is_empty());
    assert_eq!(peano_eval(&ar("number_2"), &model), 2);
}

#[test]
fn xxx_two_and_two_is_four() {
    let mut model = peano_model();
    model.set_artifact(
        ar("plus_2"),
        Artifact::Structure(structure(
            "successor",
            vec![(
                "x",
                Connection::Structure(structure("successor", vec![("x", Connection::Slot(sn("x")))])),
            )],
        )),
    );
    model.set_artifact(
        ar("number_4"),
        Artifact::Structure(structure(
            "plus_2",
            vec![(
                "x",
                Connection::Structure(structure(
                    "plus_2",
                    vec![("x", Connection::Structure(structure("zero", vec![])))],
                )),
            )],
        )),
    );
    model.validate_model().unwrap();
    assert_eq!(model.slots_of(&ar("plus_2")).unwrap().len(), 1);
    assert_eq!(*model.slots_of(&ar("plus_2")).unwrap().get(&sn("x")).unwrap(), sk("Natural"));
    assert!(model.slots_of(&ar("number_4")).unwrap().is_empty());

    assert_eq!(peano_eval(&ar("number_4"), &model), 4);
}

// ---------------------------------------------------------------------------
// Further cases
// ---------------------------------------------------------------------------

#[test]
fn kind_of_a_missing_artifact_is_an_error() {
    let model = peano_model();
    assert!(model.main_slot_kind_of(&ar("nowhere")).is_err());
    assert!(model.slots_of(&ar("nowhere")).is_err());
}

#[test]
fn self_reference_is_reported_by_slots() {
    let mut model = empty_test_model();
    model.set_artifact(ar("a"), Artifact::Structure(structure("a", vec![])));
    let err = model.slots_of(&ar("a")).unwrap_err();
    assert_eq!(err.0, "Structure a references to itself");
}

#[test]
fn dependencies_and_dependents_of_the_peano_model() {
    let model = and_one_more_is_five_model();
    let direct = model.direct_dependencies(&ar("number_4"));
    assert_eq!(direct, vec![ar("plus_2"), ar("plus_2"), ar("zero")]);
    let all = model.dependencies(&ar("number_5"));
    assert!(all.contains(&ar("successor")));
    assert!(all.contains(&ar("zero")));
    assert!(all.contains(&ar("plus_2")));
    assert!(all.contains(&ar("number_4")));
    let mut dependents = model.direct_dependents(&ar("successor"));
    dependents.sort_by(|a, b| a.as_str().cmp(b.as_str()));
    assert_eq!(dependents, vec![ar("number_5"), ar("plus_2")]);
    let all_dependents = model.dependents(&ar("zero"));
    assert!(all_dependents.contains(&ar("number_4")));
    assert!(all_dependents.contains(&ar("number_5")));
    assert!(!all_dependents.contains(&ar("plus_2")));
}

#[test]
fn structure_references_slot_of_a_block() {
    let model = two_and_two_is_four_model();
    let plus_2 = structure(
        "successor",
        vec![("x", Connection::Structure(structure("successor", vec![("x", Connection::Slot(sn("x")))])))],
    );
    assert!(model.structure_references_artifact_slot(&plus_2, &ar("successor"), &sn("x")));
    assert!(!model.structure_references_artifact_slot(&plus_2, &ar("zero"), &sn("x")));
}

#[test]
fn renaming_a_slot_inside_a_structure() {
    let mut model = peano_model();
    let mut s = structure(
        "successor",
        vec![("x", Connection::Structure(structure("successor", vec![("x", Connection::Slot(sn("z")))])))],
    );
    model.rename_slot_in_structure(&mut s, &ar("successor"), &sn("x"), sn("y"));
    assert!(s.c.contains_key(&sn("y")));
    assert!(!s.c.contains_key(&sn("x")));
    match s.c.get(&sn("y")).unwrap() {
        Connection::Structure(inner) => {
            assert!(inner.c.contains_key(&sn("y")));
            assert!(!inner.c.contains_key(&sn("x")));
        }
        Connection::Slot(_) => panic!("Expected a structure"),
    }
}

#[test]
fn rename_slot_of_a_missing_artifact() {
    let mut model = peano_model();
    let res = model.rename_slot(&ar("nowhere"), &sn("x"), sn("y"));
    assert_eq!(res, Err("Artifact nowhere does not exists ".into()));
}

#[test]
fn slot_names_and_kinds_are_shown_marked() {
    assert_eq!(sn("x").display(), "'x");
    assert_eq!(sk("Natural").display(), "[Natural]");
}

fn slot_names(model: &InMemoryModel, a: &str) -> Vec<String> {
    let s = model.slots_of(&ar(a)).unwrap();
    let mut v: Vec<String> = (0..s.len()).map(|i| s.key_at(i).as_str().to_string()).collect();
    v.sort();
    v
}

#[test]
fn renaming_a_slot_keeps_the_rest_of_the_model() {
    let before = and_one_more_is_five_model();
    let mut after = and_one_more_is_five_model();
    after.rename_slot(&ar("successor"), &sn("x"), sn("y")).unwrap();
    let mut names_before: Vec<String> = before.list_artifacts().iter().map(|a| a.as_str().to_string()).collect();
    let mut names_after: Vec<String> = after.list_artifacts().iter().map(|a| a.as_str().to_string()).collect();
    names_before.sort();
    names_after.sort();
    assert_eq!(names_before, names_after);
    for a in names_before.iter() {
        assert_eq!(
            before.main_slot_kind_of(&ar(a)).unwrap().as_str(),
            after.main_slot_kind_of(&ar(a)).unwrap().as_str()
        );
        if a != "successor" {
            assert_eq!(slot_names(&before, a), slot_names(&after, a));
        }
    }
    assert_eq!(slot_names(&after, "successor"), vec![String::from("y")]);
    assert!(after.is_all_valid());
}

#[test]
fn renaming_a_slot_keeps_an_invalid_model_invalid() {
    let mut model = peano_model();
    model.set_artifact(ar("broken"), Artifact::Structure(structure("nowhere", vec![])));
    assert!(!model.is_all_valid());
    model.rename_slot(&ar("successor"), &sn("x"), sn("y")).unwrap();
    assert!(!model.is_all_valid());
}

#[test]
fn model_operations_work_for_any_model() {
    let mut model = two_and_two_is_four_model();
    assert!(mursten::model::model_is_valid(&model));
    assert!(mursten::model::validate_all(&model).is_ok());
    assert_eq!(mursten::model::kind_of_artifact(&model, &ar("number_4")).unwrap().as_str(), "Natural");
    let deps: Vec<String> =
        mursten::model::dependencies_of(&model, &ar("plus_2")).iter().map(|a| a.as_str().to_string()).collect();
    assert!(deps.contains(&String::from("successor")));
    assert!(mursten::model::rename_slot_in_model(&mut model, &ar("successor"), &sn("x"), sn("y")).is_ok());
    assert!(mursten::model::model_is_valid(&model));
}
