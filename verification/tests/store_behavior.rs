//! Behavior of the in-memory store: id assignment, the four mutators, and
//! the shell state machine.

use todo_store::shell::EditState;
use todo_store::shell::ToDoApp;
use todo_store::store::TaskRepository;

#[test]
fn scenario_add_mark_delete_edit() {
    let mut r = TaskRepository::new();
    r.add_task(String::from("buy milk"));
    assert_eq!(r.tasks.len(), 1);
    assert_eq!(r.tasks[0].id, 0);
    assert_eq!(r.tasks[0].description, "buy milk");
    assert!(!r.tasks[0].completed);
    r.add_task(String::from("walk dog"));
    assert_eq!(r.tasks[1].id, 1);
    r.mark_completed(0);
    assert!(r.tasks[0].completed);
    assert!(!r.tasks[1].completed);
    assert_eq!(r.tasks[1].description, "walk dog");
    r.delete_task(0);
    assert_eq!(r.tasks.len(), 1);
    assert_eq!(r.tasks[0].id, 1);
    r.edit_task(1, String::from("walk cat"));
    assert_eq!(r.tasks[0].id, 1);
    assert_eq!(r.tasks[0].description, "walk cat");
    assert_eq!(r.next_id, 2);
}

#[test]
fn ids_strictly_increase_across_deletes() {
    let mut r = TaskRepository::new();
    r.add_task(String::from("a"));
    r.add_task(String::from("b"));
    assert_eq!(r.tasks[0].id, 0);
    assert_eq!(r.tasks[1].id, 1);
    r.delete_task(0);
    r.delete_task(1);
    assert!(r.tasks.is_empty());
    // deleted ids are never reused
    r.add_task(String::from("c"));
    assert_eq!(r.tasks[0].id, 2);
    assert_eq!(r.next_id, 3);
}

#[test]
fn mutators_on_missing_id_are_noops() {
    let mut r = TaskRepository::new();
    r.add_task(String::from("a"));
    r.edit_task(7, String::from("x"));
    r.mark_completed(7);
    r.delete_task(7);
    assert_eq!(r.tasks.len(), 1);
    assert_eq!(r.tasks[0].id, 0);
    assert_eq!(r.tasks[0].description, "a");
    assert!(!r.tasks[0].completed);
    assert_eq!(r.next_id, 1);
}

#[test]
fn delete_then_edit_or_mark_is_noop() {
    let mut r = TaskRepository::new();
    r.add_task(String::from("a"));
    r.add_task(String::from("b"));
    r.delete_task(0);
    r.edit_task(0, String::from("ghost"));
    r.mark_completed(0);
    assert_eq!(r.tasks.len(), 1);
    assert_eq!(r.tasks[0].id, 1);
    assert_eq!(r.tasks[0].description, "b");
    assert!(!r.tasks[0].completed);
}

#[test]
fn mark_completed_is_idempotent() {
    let mut r = TaskRepository::new();
    r.add_task(String::from("a"));
    r.add_task(String::from("b"));
    r.mark_completed(1);
    let once: Vec<(usize, String, bool)> =
        r.tasks.iter().map(|t| (t.id, t.description.clone(), t.completed)).collect();
    let next_once = r.next_id;
    r.mark_completed(1);
    let twice: Vec<(usize, String, bool)> =
        r.tasks.iter().map(|t| (t.id, t.description.clone(), t.completed)).collect();
    assert_eq!(once, twice);
    assert_eq!(next_once, r.next_id);
}

#[test]
fn edit_changes_first_match_only_description() {
    let mut r = TaskRepository::new();
    r.add_task(String::from("a"));
    r.mark_completed(0);
    r.edit_task(0, String::from("z"));
    assert_eq!(r.tasks[0].description, "z");
    assert!(r.tasks[0].completed);
    assert_eq!(r.tasks[0].id, 0);
}

#[test]
fn shell_starts_idle_with_empty_buffer() {
    let app = ToDoApp::new(TaskRepository::new());
    assert!(app.new_description.is_empty());
    assert!(matches!(app.edit, EditState::Idle));
    assert!(app.manager.tasks.is_empty());
}

#[test]
fn shell_submit_filters_empty_input() {
    let mut app = ToDoApp::new(TaskRepository::new());
    assert!(!app.submit_new_task());
    assert!(app.manager.tasks.is_empty());
    app.new_description = String::from("note");
    assert!(app.submit_new_task());
    assert!(app.new_description.is_empty());
    assert_eq!(app.manager.tasks.len(), 1);
    assert_eq!(app.manager.tasks[0].description, "note");
}

#[test]
fn shell_edit_popup_save_applies_draft() {
    let mut app = ToDoApp::new(TaskRepository::new());
    app.new_description = String::from("old text");
    app.submit_new_task();
    app.begin_edit(0, app.manager.tasks[0].description.clone());
    match &mut app.edit {
        EditState::Editing { id, draft } => {
            assert_eq!(*id, 0);
            assert_eq!(draft, "old text");
            *draft = String::from("new text");
        },
        EditState::Idle => panic!("popup should be open"),
    }
    assert!(app.save_edit());
    assert!(matches!(app.edit, EditState::Idle));
    assert_eq!(app.manager.tasks[0].description, "new text");
    assert!(!app.save_edit());
}

#[test]
fn shell_edit_popup_cancel_changes_nothing() {
    let mut app = ToDoApp::new(TaskRepository::new());
    app.new_description = String::from("keep me");
    app.submit_new_task();
    app.begin_edit(0, String::from("draft"));
    app.cancel_edit();
    assert!(matches!(app.edit, EditState::Idle));
    assert_eq!(app.manager.tasks[0].description, "keep me");
}
