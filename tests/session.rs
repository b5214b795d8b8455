use imgsort::action::{Action, TabId};
use imgsort::state::App;

fn app_with(images: &[&str], seeded: Vec<Action>) -> App {
    let images: Vec<String> = images.iter().map(|s| s.to_string()).collect();
    App::new(images, Vec::new(), seeded, "out.sh".to_string())
}

fn steps(actions: &[Action]) -> usize {
    actions.iter().map(|a| a.queue_step()).sum()
}

#[test]
fn queue_steps_and_poppability() {
    assert_eq!(Action::Skip("a".into()).queue_step(), 1);
    assert_eq!(Action::Move("a".into(), "d".into()).queue_step(), 1);
    assert_eq!(Action::Delete("a".into()).queue_step(), 1);
    assert_eq!(Action::Rename("b".into()).queue_step(), 0);
    assert_eq!(Action::MkDir("d".into()).queue_step(), 0);
    assert!(Action::Skip("a".into()).is_poppable());
    assert!(Action::Rename("b".into()).is_poppable());
    assert!(!Action::MkDir("d".into()).is_poppable());
}

#[test]
fn cursor_tracks_steps_through_pushes_and_pops() {
    let mut app = app_with(&["a.png", "b.png", "c.png"], vec![Action::MkDir("d".into())]);
    assert_eq!(app.current, 0);
    app.push_action(Action::Rename("x.png".into()));
    assert_eq!(app.current, steps(&app.actions));
    app.push_action(Action::Move("a.png".into(), "d".into()));
    assert_eq!(app.current, 1);
    assert_eq!(app.current, steps(&app.actions));
    app.push_action(Action::Skip("b.png".into()));
    assert_eq!(app.current, 2);
    app.pop_action();
    assert_eq!(app.current, 1);
    assert_eq!(app.current, steps(&app.actions));
    app.pop_action();
    assert_eq!(app.current, 0);
    app.pop_action();
    assert_eq!(app.current, 0);
    assert_eq!(app.actions, vec![Action::MkDir("d".into())]);
}

#[test]
fn pop_on_empty_log_changes_nothing() {
    let mut app = app_with(&["a.png"], vec![]);
    app.pop_action();
    assert_eq!(app.current, 0);
    assert!(app.actions.is_empty());
}

#[test]
fn push_after_last_image_changes_nothing() {
    let mut app = app_with(&["a.png"], vec![]);
    app.push_action(Action::Delete("a.png".into()));
    assert_eq!(app.current, 1);
    assert_eq!(app.current_image(), None);
    app.push_action(Action::Skip("a.png".into()));
    assert_eq!(app.current, 1);
    assert_eq!(app.actions, vec![Action::Delete("a.png".into())]);
}

#[test]
fn push_on_no_images_changes_nothing() {
    let mut app = app_with(&[], vec![]);
    app.push_action(Action::Skip("a.png".into()));
    assert!(app.actions.is_empty());
    assert_eq!(app.current, 0);
}

#[test]
fn mkdir_survives_any_number_of_pops() {
    let mut app = app_with(
        &["a.png", "b.png"],
        vec![Action::MkDir("d1".into()), Action::MkDir("d2".into())],
    );
    app.push_action(Action::Move("a.png".into(), "d1".into()));
    for _ in 0..10 {
        app.pop_action();
    }
    assert_eq!(
        app.actions,
        vec![Action::MkDir("d1".into()), Action::MkDir("d2".into())]
    );
    assert_eq!(app.current, 0);
}

#[test]
fn current_image_follows_cursor() {
    let mut app = app_with(&["a.png", "b.png"], vec![]);
    assert_eq!(app.current_image(), Some("a.png".to_string()));
    app.push_action(Action::Skip("a.png".into()));
    assert_eq!(app.current_image(), Some("b.png".to_string()));
}

#[test]
fn tabs_alternate_and_reset_scroll() {
    let mut app = app_with(&["a.png"], vec![]);
    assert_eq!(app.current_tab(), TabId::Main);
    app.script_offset = (2, 5);
    app.switch_tab();
    assert_eq!(app.current_tab(), TabId::Script);
    assert_eq!(app.script_offset, (0, 0));
    app.switch_tab();
    assert_eq!(app.current_tab(), TabId::Main);
}

#[test]
fn scrolling_is_clamped() {
    let mut app = app_with(&["a.png", "b.png"], vec![]);
    app.scroll_up();
    app.scroll_left();
    assert_eq!(app.script_offset, (0, 0));
    app.push_action(Action::Skip("a.png".into()));
    for _ in 0..10 {
        app.scroll_down();
    }
    assert_eq!(app.script_offset.0, 4);
    app.scroll_up();
    assert_eq!(app.script_offset.0, 3);
    app.scroll_right();
    app.scroll_right();
    assert_eq!(app.script_offset, (3, 2));
    app.scroll_left();
    assert_eq!(app.script_offset, (3, 1));
}

#[test]
fn scroll_right_saturates() {
    let mut app = app_with(&["a.png"], vec![]);
    app.script_offset = (0, u16::MAX);
    app.scroll_right();
    assert_eq!(app.script_offset, (0, u16::MAX));
}

#[test]
fn rename_seeds_input_with_base_name() {
    let mut app = app_with(&["/photos/trip/img 01.jpg"], vec![]);
    app.rename_current_image();
    assert!(app.enable_input);
    let name: Vec<char> = "img 01.jpg".chars().collect();
    assert_eq!(app.input, name);
    assert_eq!(app.input_idx, 10);
}

#[test]
fn rename_without_image_does_nothing() {
    let mut app = app_with(&["a.png"], vec![]);
    app.push_action(Action::Skip("a.png".into()));
    app.rename_current_image();
    assert!(!app.enable_input);
    assert!(app.input.is_empty());
}

#[test]
fn script_of_session() {
    let mut app = app_with(&["a", "b", "c"], vec![Action::MkDir("d1".into())]);
    app.push_action(Action::Move("a".into(), "d1".into()));
    app.push_action(Action::Skip("b".into()));
    app.push_action(Action::Delete("c".into()));
    assert_eq!(
        app.script(),
        "#!/bin/sh\nmkdir -p \"d1\"\nmv \"a\" \"d1\"\nrm \"c\""
    );
    app.mark_saved(7);
    assert_eq!(app.last_save, Some(7));
}

#[test]
fn undo_pulls_scroll_offset_back_within_log() {
    let mut app = app_with(&["a.png", "b.png"], vec![]);
    app.push_action(Action::Skip("a.png".into()));
    for _ in 0..10 {
        app.scroll_down();
    }
    assert_eq!(app.script_offset.0, 4);
    app.pop_action();
    assert_eq!(app.script_offset.0, 3);
    assert!(app.actions.is_empty());
}

#[test]
fn default_session_is_empty() {
    let app = App::default();
    assert!(app.images.is_empty());
    assert!(app.actions.is_empty());
    assert_eq!(app.current, 0);
    assert_eq!(app.current_image(), None);
    assert_eq!(app.script_offset, (0, 0));
    assert_eq!(app.last_save, None);
}
