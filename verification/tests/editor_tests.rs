use mursten::editor::{EditorAction, EditorLog, EditorState, ModelEditor};
use mursten::example::{peano_model, two_and_two_is_four_model};
use mursten::model::{ar, sk, sn, Artifact, Model};

fn last_log(editor: &ModelEditor) -> (bool, String) {
    match editor.context.log.last().unwrap() {
        EditorLog::Info(t) => (true, t.clone()),
        EditorLog::Error(t) => (false, t.clone()),
    }
}

#[test]
fn prompts_change_what_the_editor_shows() {
    let mut editor = ModelEditor::default();
    let mut model = peano_model();
    assert_eq!(editor.title(), "Showing existing models");
    editor.fullfill_action(&mut model, EditorAction::OpenAddBlockPrompt);
    assert_eq!(editor.title(), "Adding a new block");
    match &editor.state {
        EditorState::AddingABlock(a, k) => {
            assert_eq!(a, "my_new_block");
            assert_eq!(k, "NewBlockKind");
        }
        _ => panic!("Unexpected state"),
    }
    editor.fullfill_action(&mut model, EditorAction::OpenChangeBlockKindPrompt(ar("zero")));
    assert_eq!(editor.title(), "Changing block kind");
    editor.fullfill_action(&mut model, EditorAction::OpenAddSlotToBlockPrompt(ar("zero")));
    assert_eq!(editor.title(), "Adding slot to a block");
    editor.fullfill_action(&mut model, EditorAction::OpenRenameBlockSlotPrompt(ar("successor"), sn("x")));
    assert_eq!(editor.title(), "Renaming block slot");
    editor.fullfill_action(&mut model, EditorAction::GoToListing);
    assert_eq!(editor.title(), "Showing existing models");
    assert!(editor.context.log.is_empty());
}

#[test]
fn adding_a_block() {
    let mut editor = ModelEditor::default();
    let mut model = peano_model();
    editor.fullfill_action(&mut model, EditorAction::ConfirmAddBlock("one".into(), "Natural".into()));
    assert_eq!(last_log(&editor), (true, "Added block one with kind Natural".to_string()));
    assert!(model.exists_artifact(&ar("one")));
    editor.fullfill_action(&mut model, EditorAction::ConfirmAddBlock("one".into(), "Natural".into()));
    assert_eq!(last_log(&editor), (false, "Block one already exists".to_string()));
}

#[test]
fn deleting_artifacts() {
    let mut editor = ModelEditor::default();
    let mut model = two_and_two_is_four_model();
    editor.fullfill_action(&mut model, EditorAction::SafelyDeleteArtifact(ar("nowhere")));
    assert_eq!(last_log(&editor), (false, "Block nowhere does not exists".to_string()));
    editor.fullfill_action(&mut model, EditorAction::SafelyDeleteArtifact(ar("plus_2")));
    assert_eq!(last_log(&editor), (false, "Cannot delete plus_2, because number_4 depends on it".to_string()));
    assert!(model.exists_artifact(&ar("plus_2")));
    editor.fullfill_action(&mut model, EditorAction::SafelyDeleteArtifact(ar("number_4")));
    assert_eq!(last_log(&editor), (true, "Removed number_4".to_string()));
    assert!(!model.exists_artifact(&ar("number_4")));
}

#[test]
fn changing_the_kind_of_a_block() {
    let mut editor = ModelEditor::default();
    let mut model = peano_model();
    editor.fullfill_action(&mut model, EditorAction::ConfirmChangeBlockKind(ar("nowhere"), sk("Integer")));
    assert_eq!(last_log(&editor), (false, "Artifact nowhere does not exists".to_string()));
    editor.fullfill_action(&mut model, EditorAction::ConfirmChangeBlockKind(ar("zero"), sk("Integer")));
    assert_eq!(last_log(&editor), (true, "Changed zero kind to [Integer]".to_string()));
    assert_eq!(model.main_slot_kind_of(&ar("zero")).unwrap(), sk("Integer"));
    let mut model = two_and_two_is_four_model();
    editor.fullfill_action(&mut model, EditorAction::ConfirmChangeBlockKind(ar("plus_2"), sk("Integer")));
    assert_eq!(last_log(&editor), (false, "Artifact plus_2 is not a block".to_string()));
}

#[test]
fn adding_a_slot_to_a_block() {
    let mut editor = ModelEditor::default();
    let mut model = peano_model();
    editor.fullfill_action(
        &mut model,
        EditorAction::ConfirmAddSlotToBlock(ar("zero"), sn("y"), sk("Natural")),
    );
    assert_eq!(last_log(&editor), (true, "Added slot 'y of kind [Natural] to zero".to_string()));
    assert!(model.slots_of(&ar("zero")).unwrap().contains_key(&sn("y")));
    editor.fullfill_action(
        &mut model,
        EditorAction::ConfirmAddSlotToBlock(ar("zero"), sn("y"), sk("Natural")),
    );
    assert_eq!(last_log(&editor), (false, "Slot 'y already exists in zero".to_string()));
    match model.get_artifact(&ar("zero")).unwrap() {
        Artifact::Block(b) => assert_eq!(b.slots.len(), 1),
        _ => panic!("Expected a block"),
    }
}

#[test]
fn pending_actions_are_fulfilled_in_order() {
    let mut editor = ModelEditor::default();
    let mut model = peano_model();
    editor.context.should(EditorAction::ConfirmAddBlock("one".into(), "Natural".into()));
    editor.context.should(EditorAction::SafelyDeleteArtifact(ar("one")));
    editor.context.should(EditorAction::OpenAddBlockPrompt);
    editor.fullfill_actions(&mut model);
    assert!(editor.context.pending_actions.is_empty());
    assert_eq!(editor.context.log.len(), 2);
    assert_eq!(last_log(&editor), (true, "Removed one".to_string()));
    assert!(!model.exists_artifact(&ar("one")));
    assert_eq!(editor.title(), "Adding a new block");
}

#[test]
fn the_context_logs() {
    let mut editor = ModelEditor::default();
    editor.context.info("hello".to_string());
    assert_eq!(last_log(&editor), (true, "hello".to_string()));
    editor.context.error("bad".to_string());
    assert_eq!(last_log(&editor), (false, "bad".to_string()));
}
