use citrine::storage::{
    append_task, append_task_at, create_task, create_task_at, delete_task, get_last_id,
    get_last_id_at, read_task, read_task_at, read_tasks, read_tasks_at, update_task,
    update_task_at, write_tasks,
};
use citrine::task::{Status, Task};
use citrine::validate::{Instant, TaskError, ValidationError};

const NOW: Instant = Instant { secs: 1_700_000_000, nanos: 0 };

fn task(id: u8, title: &str) -> Task {
    Task {
        id,
        title: title.to_string(),
        status: Status::Open,
        due_date: None,
        priority: None,
        tags: Vec::new(),
    }
}

/// Creates a task as the command line would, appending its line.
fn add(contents: &mut String, title: &str) -> u8 {
    let (t, line) = create_task_at(contents, title.to_string(), None, None, Vec::new(), NOW).unwrap();
    contents.push_str(&line);
    t.id
}

#[test]
fn first_task_gets_id_one() {
    let mut file = String::new();
    assert_eq!(add(&mut file, "first"), 1);
    assert_eq!(file, "1. [ ] \"first\"; \n");
}

#[test]
fn ids_are_not_reused_after_delete() {
    let mut file = String::new();
    assert_eq!(add(&mut file, "a"), 1);
    assert_eq!(add(&mut file, "b"), 2);
    assert_eq!(add(&mut file, "c"), 3);
    file = delete_task(&file, 2);
    assert_eq!(file, "1. [ ] \"a\"; \n3. [ ] \"c\"; \n");
    assert_eq!(add(&mut file, "d"), 4);
    let ids: Vec<u8> = read_tasks_at(&file, NOW).iter().map(|t| t.id).collect();
    assert_eq!(ids, vec![1, 3, 4]);
}

#[test]
fn deleting_the_largest_id_frees_it() {
    let mut file = String::new();
    add(&mut file, "a");
    add(&mut file, "b");
    add(&mut file, "c");
    file = delete_task(&file, 3);
    assert_eq!(add(&mut file, "d"), 3);
}

#[test]
fn next_id_follows_largest() {
    let file = "5. [ ] \"e\"; \n2. [ ] \"b\"; \n";
    assert_eq!(get_last_id_at(file, NOW), 5);
    assert_eq!(get_last_id(file), 5);
    assert_eq!(get_last_id_at("", NOW), 0);
    let (t, line) = create_task_at(file, "f".to_string(), None, Some(4), vec!["x".to_string()], NOW).unwrap();
    assert_eq!(t.id, 6);
    assert_eq!(line, "6. [ ] \"f\"; priority: 4; tags: x; \n");
}

#[test]
fn ids_run_out_after_255() {
    let file = "255. [ ] \"last\"; \n";
    assert_eq!(
        create_task_at(file, "one more".to_string(), None, None, Vec::new(), NOW).map(|(t, _)| t.id),
        Err(ValidationError::InvalidId)
    );
}

#[test]
fn delete_of_missing_id_changes_nothing() {
    let file = "1. [ ] \"a\"; \nnot a task\n3. [x] \"c\"; due: 2001-01-01T00:00:00+00:00; ";
    assert_eq!(delete_task(file, 2), file);
    assert_eq!(delete_task("", 2), "");
    assert_eq!(delete_task("no newline at end", 7), "no newline at end");
}

#[test]
fn delete_removes_invalid_rows_too() {
    let file = "1. [ ] \"a\"; \n3. [x] \"c\"; due: 2001-01-01T00:00:00+00:00; \n";
    assert_eq!(delete_task(file, 3), "1. [ ] \"a\"; \n");
    assert_eq!(delete_task(file, 1), "3. [x] \"c\"; due: 2001-01-01T00:00:00+00:00; \n");
}

#[test]
fn priority_out_of_range_is_refused() {
    for p in [0u8, 10] {
        assert_eq!(
            create_task_at("", "t".to_string(), None, Some(p), Vec::new(), NOW).map(|(t, _)| t.id),
            Err(ValidationError::InvalidPriority)
        );
        let mut t = task(1, "t");
        t.priority = Some(p);
        assert_eq!(append_task_at(&t, NOW), Err(ValidationError::InvalidPriority));
        let file = "1. [ ] \"t\"; \n";
        assert_eq!(
            update_task_at(file, 1, &t, NOW),
            Err(TaskError::Invalid(ValidationError::InvalidPriority))
        );
    }
}

#[test]
fn garbage_lines_are_skipped_and_kept() {
    let file = "1. [ ] \"a\"; priority: 2; \n#### garbage ####\n";
    let tasks = read_tasks_at(file, NOW);
    assert_eq!(tasks.len(), 1);
    assert_eq!(tasks[0].title, "a");
    assert_eq!(read_tasks(file).len(), 1);
    let mut t = task(1, "a changed");
    t.status = Status::Done;
    assert_eq!(
        update_task_at(file, 1, &t, NOW).unwrap(),
        "1. [x] \"a changed\"; \n#### garbage ####\n"
    );
    assert_eq!(delete_task(file, 1), "#### garbage ####\n");
}

#[test]
fn update_replaces_in_place() {
    let file = "1. [ ] \"a\"; \n2. [ ] \"b\"; \n3. [ ] \"c\"; \n";
    let t = task(2, "B");
    assert_eq!(update_task_at(file, 2, &t, NOW).unwrap(), "1. [ ] \"a\"; \n2. [ ] \"B\"; \n3. [ ] \"c\"; \n");
    assert_eq!(update_task(file, 2, &t).unwrap(), "1. [ ] \"a\"; \n2. [ ] \"B\"; \n3. [ ] \"c\"; \n");
    assert_eq!(update_task_at(file, 9, &t, NOW), Err(TaskError::NotFound(9)));
}

#[test]
fn read_one_task() {
    let file = "1. [ ] \"a\"; \n2. [>] \"b\"; tags: x; \n";
    let t = read_task_at(file, 2, NOW).unwrap();
    assert_eq!(t.title, "b");
    assert_eq!(t.status, Status::InProgress);
    assert_eq!(t.tags, vec!["x".to_string()]);
    assert!(matches!(read_task_at(file, 3, NOW), Err(TaskError::NotFound(3))));
    assert!(matches!(read_task("", 1), Err(TaskError::NotFound(1))));
}

#[test]
fn expired_task_is_not_listed() {
    let file = "1. [ ] \"a\"; due: 2020-01-01T00:00:00+00:00; \n";
    assert_eq!(read_tasks_at(file, Instant { secs: 0, nanos: 0 }).len(), 1);
    assert_eq!(read_tasks_at(file, NOW).len(), 0);
    assert!(matches!(read_task_at(file, 1, NOW), Err(TaskError::NotFound(1))));
}

#[test]
fn append_and_create_with_clock() {
    let t = task(3, "c");
    assert_eq!(append_task(&t).unwrap(), "3. [ ] \"c\"; \n");
    let (made, line) = create_task(
        "",
        "d".to_string(),
        Some("2999-01-01T00:00:00+00:00".to_string()),
        None,
        Vec::new(),
    )
    .unwrap();
    assert_eq!(made.id, 1);
    assert_eq!(line, "1. [ ] \"d\"; due: 2999-01-01T00:00:00+00:00; \n");
}

#[test]
fn write_whole_file() {
    let mut b = task(2, "b");
    b.tags = vec!["p".to_string(), "q".to_string()];
    assert_eq!(write_tasks(&vec![task(1, "a"), b]), "1. [ ] \"a\"; \n2. [ ] \"b\"; tags: p, q; \n");
    assert_eq!(write_tasks(&Vec::new()), "");
}
