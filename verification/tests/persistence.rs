//! Persistence: the text image format, the save/load round trip, and
//! recovery from missing or corrupted contents.

use todo_store::store::TaskRepository;

fn snapshot(r: &TaskRepository) -> (Vec<(usize, String, bool)>, usize) {
    (r.tasks.iter().map(|t| (t.id, t.description.clone(), t.completed)).collect(), r.next_id)
}

#[test]
fn save_format_exact() {
    let mut r = TaskRepository::new();
    assert_eq!(r.save_to_string(), "0 0\n");
    r.add_task(String::from("abc"));
    assert_eq!(r.save_to_string(), "1 1\n0 0 3 abc\n");
    r.add_task(String::new());
    r.mark_completed(1);
    assert_eq!(r.save_to_string(), "2 2\n0 0 3 abc\n1 1 0 \n");
}

#[test]
fn round_trip_identity() {
    let mut r = TaskRepository::new();
    r.add_task(String::from("buy milk"));
    r.add_task(String::from("walk dog"));
    r.add_task(String::from("water plants"));
    r.mark_completed(1);
    r.delete_task(0);
    let image = r.save_to_string();
    let back = TaskRepository::load_from_str(&image);
    assert_eq!(snapshot(&r), snapshot(&back));
}

#[test]
fn round_trip_empty_store() {
    let r = TaskRepository::new();
    let back = TaskRepository::load_from_str(&r.save_to_string());
    assert_eq!(snapshot(&r), snapshot(&back));
}

#[test]
fn round_trip_empty_description() {
    let mut r = TaskRepository::new();
    r.add_task(String::new());
    let back = TaskRepository::load_from_str(&r.save_to_string());
    assert_eq!(snapshot(&r), snapshot(&back));
}

#[test]
fn round_trip_awkward_descriptions() {
    let mut r = TaskRepository::new();
    r.add_task(String::from("7 1 0\n0 0 1 x"));
    r.add_task(String::from("  spaces  and\nnewlines\n"));
    r.add_task(String::from("unicode: grüße 你好 ✓"));
    r.mark_completed(2);
    let back = TaskRepository::load_from_str(&r.save_to_string());
    assert_eq!(snapshot(&r), snapshot(&back));
}

#[test]
fn round_trip_after_many_mutations() {
    let mut r = TaskRepository::new();
    for i in 0..20usize {
        r.add_task(format!("task {}", i));
    }
    for id in [0usize, 3, 7, 19] {
        r.delete_task(id);
    }
    for id in [1usize, 2, 18] {
        r.mark_completed(id);
    }
    r.edit_task(5, String::from("rewritten"));
    let back = TaskRepository::load_from_str(&r.save_to_string());
    assert_eq!(snapshot(&r), snapshot(&back));
    assert_eq!(back.next_id, 20);
}

#[test]
fn load_missing_contents_yields_empty() {
    let r = TaskRepository::load_from_contents(None);
    assert!(r.tasks.is_empty());
    assert_eq!(r.next_id, 0);
}

#[test]
fn load_present_contents_parses() {
    let image = String::from("3 1\n2 1 5 hello\n");
    let r = TaskRepository::load_from_contents(Some(&image));
    assert_eq!(r.next_id, 3);
    assert_eq!(r.tasks.len(), 1);
    assert_eq!(r.tasks[0].id, 2);
    assert!(r.tasks[0].completed);
    assert_eq!(r.tasks[0].description, "hello");
}

#[test]
fn load_corrupted_yields_empty() {
    let corrupt = [
        "",
        "xyz",
        "1",
        "1 2",
        "1 2\n",
        "01 0\n",
        "1 0",
        "99999999999999999999999999999999 0\n",
        "1 1\n0 0 5 ab\n",
        "1 1\n0 2 1 a\n",
        "0 0\nextra",
        "1 1\n0 0 1 a",
        "2 2\n0 0 1 a\n",
    ];
    for image in corrupt {
        let r = TaskRepository::load_from_str(image);
        assert!(r.tasks.is_empty(), "image {:?} should load as empty", image);
        assert_eq!(r.next_id, 0, "image {:?} should reset the counter", image);
    }
}

#[test]
fn load_ill_formed_store_yields_empty() {
    // id at or above the counter
    let r = TaskRepository::load_from_str("0 1\n5 0 1 a\n");
    assert!(r.tasks.is_empty());
    assert_eq!(r.next_id, 0);
    // ids out of order
    let r = TaskRepository::load_from_str("5 2\n3 0 1 a\n1 0 1 b\n");
    assert!(r.tasks.is_empty());
    assert_eq!(r.next_id, 0);
    // duplicate ids
    let r = TaskRepository::load_from_str("5 2\n3 0 1 a\n3 0 1 b\n");
    assert!(r.tasks.is_empty());
    assert_eq!(r.next_id, 0);
}

#[test]
fn save_after_load_is_identical_text() {
    let image = String::from("4 2\n1 0 4 milk\n3 1 3 dog\n");
    let r = TaskRepository::load_from_str(&image);
    assert_eq!(r.save_to_string(), image);
}
