use mursten::fw::FrameAction::{DrawPlugin, ExecuteCommands, FinishFrame, InitPlugin, LoadStartScene, RunSchedule, UpdatePlugin};
use mursten::fw::{events_to_print, LoopState, MustQuit, PrintProfileEvents, ProfileEvent, SceneCommand, SceneRef};
use std::time::Duration;

#[test]
fn commands_load_scenes_in_order_and_exit_stops() {
    let mut state = LoopState { current_scene: String::new(), must_quit: MustQuit::default() };
    let loads = state.execute_commands_from_bus(vec![
        SceneCommand::GoTo(SceneRef("intro")),
        SceneCommand::GoTo(SceneRef("menu")),
    ]);
    assert_eq!(loads.iter().map(|s| s.0).collect::<Vec<_>>(), vec!["intro", "menu"]);
    assert_eq!(state.current_scene, "SceneRef(\"menu\")");
    assert!(!state.must_stop());
    let loads = state.execute_commands_from_bus(vec![SceneCommand::Exit]);
    assert!(loads.is_empty());
    assert_eq!(state.current_scene, "SceneRef(\"menu\")");
    assert!(state.must_stop());
}

#[test]
fn profile_events_are_printed_only_when_asked() {
    let events = || {
        vec![ProfileEvent::FrameFinished { execution_time: Duration::from_millis(16) }]
    };
    assert_eq!(events_to_print(PrintProfileEvents(true), events()).len(), 1);
    assert!(events_to_print(PrintProfileEvents(false), events()).is_empty());
    assert!(!PrintProfileEvents::default().0);
}

#[test]
fn scene_text_is_the_debug_form() {
    for name in ["intro", "main_menu", "with \"quotes\"", "tab\there", ""] {
        let s = mursten::fw::SceneRef(name);
        assert_eq!(mursten::fw::scene_text(s), format!("{:?}", s));
    }
    assert_eq!(mursten::fw::scene_text(mursten::fw::SceneRef("intro")), "SceneRef(\"intro\")");
}

#[test]
fn the_game_starts_by_initialising_every_plugin_then_loading_the_scene() {
    assert_eq!(mursten::fw::start_plan(2), vec![InitPlugin(0), InitPlugin(1), LoadStartScene]);
    assert_eq!(mursten::fw::start_plan(0), vec![LoadStartScene]);
}

#[test]
fn a_frame_updates_runs_schedules_executes_commands_then_draws() {
    assert_eq!(
        mursten::fw::frame_plan(2, &vec![true, false]),
        vec![UpdatePlugin(0), UpdatePlugin(1), RunSchedule(0), ExecuteCommands, DrawPlugin(0), DrawPlugin(1), FinishFrame]
    );
    assert_eq!(
        mursten::fw::frame_plan(3, &vec![false, true]),
        vec![
            UpdatePlugin(0), UpdatePlugin(1), UpdatePlugin(2), RunSchedule(1), ExecuteCommands, DrawPlugin(0),
            DrawPlugin(1), DrawPlugin(2), FinishFrame
        ]
    );
    assert_eq!(
        mursten::fw::frame_plan(1, &vec![true, true]),
        vec![UpdatePlugin(0), RunSchedule(0), ExecuteCommands, DrawPlugin(0), FinishFrame]
    );
}
