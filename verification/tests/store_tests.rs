use todo_store::store::{add_task, max_id_exec, remove_task, try_add_task, view_tasks};
use todo_store::task::Task;

#[test]
fn add_assigns_consecutive_ids() {
    let mut tasks: Vec<Task> = Vec::new();
    add_task(&mut tasks, String::from("first"));
    add_task(&mut tasks, String::from("second"));
    add_task(&mut tasks, String::from("third"));
    assert_eq!(tasks.len(), 3);
    assert_eq!(tasks[0].id, 1);
    assert_eq!(tasks[1].id, 2);
    assert_eq!(tasks[2].id, 3);
    assert_eq!(tasks[0].description, "first");
    assert_eq!(tasks[1].description, "second");
    assert_eq!(tasks[2].description, "third");
    assert!(!tasks[0].completed);
    assert!(!tasks[1].completed);
    assert!(!tasks[2].completed);
}

#[test]
fn add_uses_max_id_plus_one() {
    let mut tasks = vec![
        Task { id: 7, description: String::from("kept"), completed: true },
        Task { id: 3, description: String::from("older"), completed: false },
    ];
    assert_eq!(max_id_exec(&tasks), 7);
    add_task(&mut tasks, String::from("new"));
    assert_eq!(tasks[2].id, 8);
}

#[test]
fn try_add_reports_full_store() {
    let mut tasks = vec![Task { id: usize::MAX, description: String::new(), completed: false }];
    assert!(!try_add_task(&mut tasks, String::from("no room")));
    assert_eq!(tasks.len(), 1);
    let mut ok_tasks: Vec<Task> = Vec::new();
    assert!(try_add_task(&mut ok_tasks, String::from("fits")));
    assert_eq!(ok_tasks.len(), 1);
    assert_eq!(ok_tasks[0].id, 1);
}

#[test]
fn remove_deletes_first_match_only() {
    let mut tasks = vec![
        Task { id: 1, description: String::from("a"), completed: false },
        Task { id: 2, description: String::from("b"), completed: false },
        Task { id: 1, description: String::from("c"), completed: false },
    ];
    assert_eq!(remove_task(&mut tasks, 1), Ok(()));
    assert_eq!(tasks.len(), 2);
    assert_eq!(tasks[0].description, "b");
    assert_eq!(tasks[1].description, "c");
}

#[test]
fn remove_missing_reports_and_keeps_store() {
    let mut tasks = vec![Task { id: 1, description: String::from("only"), completed: false }];
    let before = tasks.clone();
    let r = remove_task(&mut tasks, 5);
    assert_eq!(r, Err(String::from("No task found with ID 5")));
    assert_eq!(tasks, before);
}

#[test]
fn remove_then_view_hides_the_id() {
    let mut tasks: Vec<Task> = Vec::new();
    add_task(&mut tasks, String::from("Buy milk"));
    add_task(&mut tasks, String::from("Walk dog"));
    assert_eq!(remove_task(&mut tasks, 1), Ok(()));
    let listing = view_tasks(&tasks);
    assert_eq!(listing, "2 [ ]: Walk dog\n");
    assert!(!listing.contains("1 ["));
}

#[test]
fn view_of_empty_store() {
    let tasks: Vec<Task> = Vec::new();
    assert_eq!(view_tasks(&tasks), "No tasks available.\n");
}

#[test]
fn view_marks_completed_tasks() {
    let tasks = vec![
        Task { id: 1, description: String::from("done"), completed: true },
        Task { id: 2, description: String::from("open"), completed: false },
    ];
    assert_eq!(view_tasks(&tasks), "1 [x]: done\n2 [ ]: open\n");
    assert_eq!(tasks[0].render_line(), "1 [x]: done");
}

#[test]
fn scenario_two_adds_one_remove() {
    let mut tasks: Vec<Task> = Vec::new();
    add_task(&mut tasks, String::from("Buy milk"));
    assert_eq!(tasks.len(), 1);
    assert_eq!(tasks[0].id, 1);
    assert_eq!(tasks[0].description, "Buy milk");
    assert!(!tasks[0].completed);
    add_task(&mut tasks, String::from("Walk dog"));
    assert_eq!(tasks.iter().map(|t| t.id).collect::<Vec<_>>(), vec![1, 2]);
    assert_eq!(remove_task(&mut tasks, 1), Ok(()));
    assert_eq!(tasks.len(), 1);
    assert_eq!(tasks[0].id, 2);
    assert_eq!(view_tasks(&tasks), "2 [ ]: Walk dog\n");
}
