use citrine::task::{Status, Task};
use citrine::update::{apply_update, apply_update_at, TaskUpdate};
use citrine::validate::{Instant, TaskError, ValidationError};

const NOW: Instant = Instant { secs: 1_700_000_000, nanos: 0 };

fn no_change() -> TaskUpdate {
    TaskUpdate {
        due_date: None,
        priority: None,
        status: None,
        title: None,
        append_tags: None,
        remove_tags: None,
    }
}

fn tagged(tags: &[&str]) -> Task {
    Task {
        id: 1,
        title: "t".to_string(),
        status: Status::Open,
        due_date: None,
        priority: None,
        tags: tags.iter().map(|s| s.to_string()).collect(),
    }
}

fn strings(v: &[&str]) -> Vec<String> {
    v.iter().map(|s| s.to_string()).collect()
}

#[test]
fn appending_tags_skips_those_present() {
    let mut u = no_change();
    u.append_tags = Some("b,c".to_string());
    let t = tagged(&["a", "b"]).with_update(&u).unwrap();
    assert_eq!(t.tags, strings(&["a", "b", "c"]));
}

#[test]
fn removing_a_tag() {
    let mut u = no_change();
    u.remove_tags = Some("a".to_string());
    let t = tagged(&["a", "b", "c"]).with_update(&u).unwrap();
    assert_eq!(t.tags, strings(&["b", "c"]));
}

#[test]
fn append_then_remove_with_spaces() {
    let mut u = no_change();
    u.append_tags = Some(" x , y, x".to_string());
    u.remove_tags = Some("a , y".to_string());
    let t = tagged(&["a", "b"]).with_update(&u).unwrap();
    assert_eq!(t.tags, strings(&["b", "x"]));
}

#[test]
fn fields_are_replaced() {
    let u = TaskUpdate {
        due_date: Some("2030-01-01".to_string()),
        priority: Some(5),
        status: Some("in-progress".to_string()),
        title: Some("new".to_string()),
        append_tags: None,
        remove_tags: None,
    };
    let t = tagged(&["a"]).with_update(&u).unwrap();
    assert_eq!(t.id, 1);
    assert_eq!(t.title, "new");
    assert_eq!(t.status, Status::InProgress);
    assert_eq!(t.due_date, Some("2030-01-01".to_string()));
    assert_eq!(t.priority, Some(5));
    assert_eq!(t.tags, strings(&["a"]));
    let same = tagged(&["a"]).with_update(&no_change()).unwrap();
    assert_eq!(same.title, "t");
    assert_eq!(same.status, Status::Open);
}

#[test]
fn unknown_status_word_is_refused() {
    let mut u = no_change();
    u.status = Some("finished".to_string());
    assert!(matches!(tagged(&[]).with_update(&u), Err(ValidationError::InvalidStatus)));
}

#[test]
fn update_in_the_file() {
    let file = "1. [ ] \"a\"; tags: a, b; \nnoise\n2. [ ] \"b\"; \n";
    let mut u = no_change();
    u.append_tags = Some("b,c".to_string());
    u.status = Some("done".to_string());
    assert_eq!(
        apply_update_at(file, 1, &u, NOW).unwrap(),
        "1. [x] \"a\"; tags: a, b, c; \nnoise\n2. [ ] \"b\"; \n"
    );
    assert_eq!(
        apply_update(file, 1, &u).unwrap(),
        "1. [x] \"a\"; tags: a, b, c; \nnoise\n2. [ ] \"b\"; \n"
    );
    assert_eq!(apply_update_at(file, 7, &u, NOW), Err(TaskError::NotFound(7)));
    let mut bad = no_change();
    bad.priority = Some(10);
    assert_eq!(
        apply_update_at(file, 2, &bad, NOW),
        Err(TaskError::Invalid(ValidationError::InvalidPriority))
    );
    bad.priority = None;
    bad.status = Some("later".to_string());
    assert_eq!(
        apply_update_at(file, 2, &bad, NOW),
        Err(TaskError::Invalid(ValidationError::InvalidStatus))
    );
}

#[test]
fn update_fails_once_the_due_timestamp_has_passed() {
    let file = "1. [ ] \"a\"; due: 2023-11-14T22:13:20+00:00; \n";
    let mut u = no_change();
    u.priority = Some(2);
    assert!(apply_update_at(file, 1, &u, Instant { secs: 1_600_000_000, nanos: 0 }).is_ok());
    u.due_date = Some("2023-11-14T22:13:20+00:00".to_string());
    assert_eq!(
        apply_update_at(file, 1, &u, Instant { secs: 1_700_000_000, nanos: 1 }),
        Err(TaskError::NotFound(1))
    );
}
