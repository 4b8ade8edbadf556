use task_tree::{
    add_task, add_task_with_id, assign_order, get_task, load_root_tasks, load_subtasks,
    move_task, remove_task, reorder_children, sort_by_order, toggle_complete, update_task,
    find_by_id, Task, TaskError,
};

fn leaf(id: &str, title: &str) -> Task {
    Task {
        id: id.to_string(),
        title: title.to_string(),
        completed: false,
        children: Vec::new(),
        order: 0,
    }
}

fn node(id: &str, children: Vec<Task>) -> Task {
    let mut t = leaf(id, id);
    t.children = children;
    t
}

fn ids(ts: &Vec<Task>) -> Vec<String> {
    ts.iter().map(|t| t.id.clone()).collect()
}

fn sample() -> Vec<Task> {
    vec![
        node("a", vec![node("a1", vec![leaf("a1x", "deep")]), leaf("a2", "a2")]),
        leaf("b", "b"),
        node("c", vec![leaf("c1", "c1")]),
    ]
}

#[test]
fn empty_store_loads_empty() {
    let loaded = load_root_tasks(Vec::new());
    assert!(loaded.is_empty());
}

#[test]
fn add_root_task_on_empty_store() {
    let mut all: Vec<Task> = Vec::new();
    let t = add_task(&mut all, "Buy milk".to_string(), None).unwrap();
    assert_eq!(t.title, "Buy milk");
    assert!(!t.completed);
    assert!(t.children.is_empty());
    assert_eq!(t.id.len(), 36);
    let roots = load_root_tasks(all);
    assert_eq!(roots.len(), 1);
    assert_eq!(roots[0].id, t.id);
    assert_eq!(roots[0].title, "Buy milk");
}

#[test]
fn add_subtask_then_load_subtasks() {
    let mut all: Vec<Task> = Vec::new();
    let milk = add_task(&mut all, "Buy milk".to_string(), None).unwrap();
    let sub = add_task(&mut all, "Sub".to_string(), Some(milk.id.clone())).unwrap();
    let kids = load_subtasks(&all, milk.id.clone()).unwrap();
    assert_eq!(kids.len(), 1);
    assert_eq!(kids[0].title, "Sub");
    assert_eq!(kids[0].id, sub.id);
}

#[test]
fn fresh_ids_differ() {
    let mut all: Vec<Task> = Vec::new();
    let x = add_task(&mut all, "x".to_string(), None).unwrap();
    let y = add_task(&mut all, "y".to_string(), None).unwrap();
    assert_ne!(x.id, y.id);
    assert_eq!(x.id.chars().filter(|c| *c == '-').count(), 4);
}

#[test]
fn toggle_twice_returns_true_then_false() {
    let mut all: Vec<Task> = Vec::new();
    let t = add_task(&mut all, "Buy milk".to_string(), None).unwrap();
    let first = toggle_complete(&mut all, t.id.clone()).unwrap();
    assert!(first.completed);
    let second = toggle_complete(&mut all, t.id.clone()).unwrap();
    assert!(!second.completed);
    let stored = get_task(&all, t.id.clone()).unwrap();
    assert_eq!(stored.completed, second.completed);
    assert_eq!(stored.title, second.title);
}

#[test]
fn get_missing_task_is_not_found() {
    let all = sample();
    let r = get_task(&all, "nope".to_string());
    assert_eq!(r.unwrap_err(), TaskError::NotFound("nope".to_string()));
    let r2 = load_subtasks(&all, "nope".to_string());
    assert_eq!(r2.unwrap_err(), TaskError::NotFound("nope".to_string()));
}

#[test]
fn get_task_finds_deep_copy() {
    let all = sample();
    let t = get_task(&all, "a1".to_string()).unwrap();
    assert_eq!(ids(&t.children), vec!["a1x"]);
    assert_eq!(t.children[0].title, "deep");
    assert!(find_by_id(&all, &"c1".to_string()).is_some());
    assert!(find_by_id(&all, &"zz".to_string()).is_none());
}

#[test]
fn update_task_renames_and_reports_missing() {
    let mut all = sample();
    let t = update_task(&mut all, "a1x".to_string(), "renamed".to_string()).unwrap();
    assert_eq!(t.title, "renamed");
    assert_eq!(get_task(&all, "a1x".to_string()).unwrap().title, "renamed");
    let e = update_task(&mut all, "zz".to_string(), "x".to_string()).unwrap_err();
    assert_eq!(e, TaskError::NotFound("zz".to_string()));
    let e2 = toggle_complete(&mut all, "zz".to_string()).unwrap_err();
    assert_eq!(e2, TaskError::NotFound("zz".to_string()));
}

#[test]
fn add_with_taken_id_is_refused() {
    let mut all = sample();
    let e = add_task_with_id(&mut all, "b".to_string(), "again".to_string(), None).unwrap_err();
    assert_eq!(e, TaskError::DuplicateId("b".to_string()));
    assert_eq!(ids(&all), vec!["a", "b", "c"]);
}

#[test]
fn add_under_missing_parent_changes_nothing() {
    let mut all = sample();
    let t = add_task_with_id(&mut all, "n".to_string(), "new".to_string(), Some("zz".to_string())).unwrap();
    assert_eq!(t.id, "n");
    assert!(get_task(&all, "n".to_string()).is_err());
    assert_eq!(ids(&all), vec!["a", "b", "c"]);
}

#[test]
fn add_under_nested_parent_appends() {
    let mut all = sample();
    add_task_with_id(&mut all, "n".to_string(), "new".to_string(), Some("a".to_string())).unwrap();
    assert_eq!(ids(&all[0].children), vec!["a1", "a2", "n"]);
}

#[test]
fn remove_task_removes_subtree() {
    let mut all = sample();
    remove_task(&mut all, "a".to_string());
    assert_eq!(ids(&all), vec!["b", "c"]);
    for id in ["a", "a1", "a1x", "a2"] {
        assert!(get_task(&all, id.to_string()).is_err());
    }
    assert!(get_task(&all, "c1".to_string()).is_ok());
}

#[test]
fn remove_missing_task_is_noop() {
    let mut all = sample();
    remove_task(&mut all, "zz".to_string());
    assert_eq!(ids(&all), vec!["a", "b", "c"]);
    assert_eq!(ids(&all[0].children), vec!["a1", "a2"]);
}

#[test]
fn move_task_keeps_its_children() {
    let mut all = sample();
    move_task(&mut all, "a1".to_string(), Some("c".to_string()));
    assert_eq!(ids(&all[0].children), vec!["a2"]);
    assert_eq!(ids(&all[2].children), vec!["c1", "a1"]);
    assert_eq!(ids(&all[2].children[1].children), vec!["a1x"]);
}

#[test]
fn move_task_to_root_appends() {
    let mut all = sample();
    move_task(&mut all, "c1".to_string(), None);
    assert_eq!(ids(&all), vec!["a", "b", "c", "c1"]);
    assert!(all[2].children.is_empty());
}

#[test]
fn move_missing_task_is_noop_and_missing_parent_drops() {
    let mut all = sample();
    move_task(&mut all, "zz".to_string(), None);
    assert_eq!(ids(&all), vec!["a", "b", "c"]);
    move_task(&mut all, "b".to_string(), Some("zz".to_string()));
    assert_eq!(ids(&all), vec!["a", "c"]);
}

#[test]
fn reorder_partial_appends_unnamed() {
    let mut all = vec![leaf("A", "A"), leaf("B", "B"), leaf("C", "C")];
    reorder_children(&mut all, None, vec!["C".to_string(), "A".to_string()]);
    assert_eq!(ids(&all), vec!["C", "A", "B"]);
}

#[test]
fn reorder_ignores_unknown_id() {
    let mut with_x = vec![leaf("A", "A"), leaf("B", "B"), leaf("C", "C")];
    reorder_children(&mut with_x, None, vec!["C".to_string(), "X".to_string(), "A".to_string()]);
    assert_eq!(ids(&with_x), vec!["C", "A", "B"]);
}

#[test]
fn reorder_children_of_nested_parent() {
    let mut all = sample();
    reorder_children(&mut all, Some("a".to_string()), vec!["a2".to_string()]);
    assert_eq!(ids(&all[0].children), vec!["a2", "a1"]);
    assert_eq!(ids(&all), vec!["a", "b", "c"]);
}

#[test]
fn assign_order_numbers_every_level() {
    let mut all = sample();
    all[1].order = 7;
    assign_order(&mut all);
    let orders: Vec<usize> = all.iter().map(|t| t.order).collect();
    assert_eq!(orders, vec![0, 1, 2]);
    let kid_orders: Vec<usize> = all[0].children.iter().map(|t| t.order).collect();
    assert_eq!(kid_orders, vec![0, 1]);
    assert_eq!(all[0].children[0].children[0].order, 0);
}

#[test]
fn sort_by_order_restores_saved_sequence() {
    let mut a = leaf("a", "a");
    a.order = 2;
    let mut b = leaf("b", "b");
    b.order = 0;
    let mut c = leaf("c", "c");
    c.order = 1;
    let mut k1 = leaf("k1", "k1");
    k1.order = 1;
    let k0 = leaf("k0", "k0");
    c.children = vec![k1, k0];
    let mut all = vec![a, b, c];
    sort_by_order(&mut all);
    assert_eq!(ids(&all), vec!["b", "c", "a"]);
    assert_eq!(ids(&all[1].children), vec!["k0", "k1"]);
}

#[test]
fn sort_by_order_keeps_ties_in_sequence() {
    let mut all = vec![leaf("x", "x"), leaf("y", "y"), leaf("z", "z")];
    all[2].order = 0;
    sort_by_order(&mut all);
    assert_eq!(ids(&all), vec!["x", "y", "z"]);
}

#[test]
fn write_then_read_round_trip() {
    let mut all = sample();
    all.swap(0, 2);
    assign_order(&mut all);
    let read = load_root_tasks(all.clone());
    assert_eq!(ids(&read), vec!["c", "b", "a"]);
    assert_eq!(ids(&read[2].children), vec!["a1", "a2"]);
    assert_eq!(read[2].children[0].children[0].title, "deep");
}

fn collect_ids(ts: &Vec<Task>, out: &mut Vec<String>) {
    for t in ts {
        out.push(t.id.clone());
        collect_ids(&t.children, out);
    }
}

#[test]
fn ids_stay_unique_after_adds() {
    let mut all: Vec<Task> = Vec::new();
    let root = add_task(&mut all, "root".to_string(), None).unwrap();
    for i in 0..5 {
        add_task(&mut all, format!("t{}", i), None).unwrap();
        add_task(&mut all, format!("s{}", i), Some(root.id.clone())).unwrap();
    }
    let mut seen = Vec::new();
    collect_ids(&all, &mut seen);
    assert_eq!(seen.len(), 11);
    let mut sorted = seen.clone();
    sorted.sort();
    sorted.dedup();
    assert_eq!(sorted.len(), 11);
}
