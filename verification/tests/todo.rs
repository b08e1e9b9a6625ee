use fruit_tui::todo::{
    checked_done_updates, checked_ensure_depth, depth_checked, depth_of, ensure_depth,
    nested_list, push_nested, resolve_project, resolve_target_project, set_done_with_tree_rules,
    PopupKind, Project, Todo, TodoError, MAX_DEPTH,
};
use fruit_tui::undo::UndoHistory;

fn todo(id: i64, text: &str, parent_id: Option<i64>, project_id: i64) -> Todo {
    Todo {
        id,
        text: text.into(),
        created_at: 0,
        done: false,
        parent_id,
        collapsed: false,
        position: id,
        project_id,
    }
}

fn project(id: i64, name: &str) -> Project {
    Project { id, name: name.into(), position: id }
}

fn apply(todos: &mut [Todo], updates: &[(i64, bool)]) {
    for &(id, done) in updates {
        for t in todos.iter_mut() {
            if t.id == id {
                t.done = done;
            }
        }
    }
}

fn texts(all: &Vec<Todo>) -> Vec<String> {
    let mut out = Vec::new();
    push_nested(all, None, &mut out);
    out.into_iter().map(|t| t.text).collect()
}

#[test]
fn target_project_follows_the_parent() {
    let projects = vec![project(1, "기본")];
    let todos = vec![todo(1, "상위", None, 1)];

    assert_eq!(resolve_target_project(&projects, &todos, None, Some(1)).unwrap(), 1);
}

#[test]
fn target_project_rejects_a_project_that_differs_from_the_parent() {
    let projects = vec![project(1, "기본"), project(2, "업무")];
    let todos = vec![todo(1, "상위", None, 1)];

    assert!(resolve_target_project(&projects, &todos, Some("업무"), Some(1)).is_err());
}

#[test]
fn completion_changes_follow_the_whole_tree() {
    let mut todos = vec![
        todo(1, "상위", None, 1),
        todo(2, "하위", Some(1), 1),
        todo(3, "손자", Some(2), 1),
    ];

    let updates = set_done_with_tree_rules(&todos, 1, true).unwrap();
    apply(&mut todos, &updates);
    assert!(todos.iter().all(|todo| todo.done));

    let updates = set_done_with_tree_rules(&todos, 3, false).unwrap();
    apply(&mut todos, &updates);
    assert!(todos.iter().all(|todo| !todo.done));
}

#[test]
fn list_nests_children_after_parent() {
    let all = vec![
        todo(1, "a", None, 1),
        todo(2, "b", None, 1),
        todo(3, "a2", Some(1), 1),
        todo(4, "a1", Some(1), 1),
    ];
    assert_eq!(texts(&all), ["a", "a2", "a1", "b"]);
}

#[test]
fn list_nests_three_levels() {
    let all = vec![
        todo(1, "a", None, 1),
        todo(2, "b", None, 1),
        todo(3, "a1", Some(1), 1),
        todo(4, "a1-1", Some(3), 1),
    ];
    assert_eq!(texts(&all), ["a", "a1", "a1-1", "b"]);
}

#[test]
fn projects_resolve_by_name_or_fail() {
    let projects = vec![project(1, "기본"), project(2, "업무")];
    assert_eq!(resolve_project(&projects, "업무").unwrap(), 2);
    let error = resolve_project(&projects, "없음").unwrap_err();
    assert_eq!(error, TodoError::ProjectNotFound("없음".into()));
    assert_eq!(error.message(), "프로젝트 '없음'을(를) 찾을 수 없습니다");
    assert_eq!(resolve_target_project(&projects, &vec![], None, None).unwrap(), 1);
    assert_eq!(resolve_target_project(&vec![], &vec![], None, None).unwrap_err(), TodoError::NoProjects);
    assert_eq!(
        resolve_target_project(&projects, &vec![], None, Some(9)).unwrap_err(),
        TodoError::NotFound(9)
    );
}

#[test]
fn subtasks_stop_at_the_deepest_level() {
    let todos = vec![todo(1, "a", None, 1), todo(2, "b", Some(1), 1), todo(3, "c", Some(2), 1)];
    assert_eq!(MAX_DEPTH, 3);
    assert_eq!(depth_of(&todos, &todos[2]), 2);
    assert!(ensure_depth(&todos, 1).is_ok());
    assert!(ensure_depth(&todos, 2).is_ok());
    assert_eq!(ensure_depth(&todos, 3).unwrap_err(), TodoError::TooDeep);
    assert_eq!(ensure_depth(&todos, 7).unwrap_err(), TodoError::NotFound(7));
    assert_eq!(TodoError::TooDeep.message(), "하위 목표는 3단계까지만 넣을 수 있습니다");
}

#[test]
fn reopening_reports_a_missing_parent() {
    let todos = vec![todo(2, "orphan", Some(5), 1)];
    assert_eq!(
        set_done_with_tree_rules(&todos, 2, false).unwrap_err(),
        TodoError::ParentNotFound(5)
    );
    assert_eq!(set_done_with_tree_rules(&todos, 2, true).unwrap(), vec![(2, true)]);
    assert_eq!(set_done_with_tree_rules(&todos, 9, true).unwrap_err(), TodoError::NotFound(9));
}

#[test]
fn parent_cycles_are_detected_instead_of_looping() {
    let cycle = vec![todo(1, "a", Some(2), 1), todo(2, "b", Some(1), 1)];
    assert!(nested_list(&cycle, Some(1)).is_none());
    assert!(depth_checked(&cycle, Some(1)).is_none());
    assert!(checked_done_updates(&cycle, 1, true).is_none());
    assert!(checked_ensure_depth(&cycle, 1).is_none());
    let tree = vec![todo(1, "a", None, 1), todo(2, "b", Some(1), 1)];
    assert_eq!(nested_list(&tree, None).unwrap().len(), 2);
    assert_eq!(depth_checked(&tree, Some(1)), Some(1));
    assert_eq!(
        checked_done_updates(&tree, 2, false).unwrap().unwrap(),
        vec![(2, false), (1, false)]
    );
    assert!(checked_ensure_depth(&tree, 2).unwrap().is_ok());
}

#[test]
fn undo_history_forgets_the_oldest_past_its_capacity() {
    let mut history = UndoHistory::new(2);
    history.remember(1);
    history.remember(2);
    history.remember(3);
    assert_eq!(history.len(), 2);
    assert_eq!(history.latest(), Some(&3));
    history.discard_latest();
    assert_eq!(history.latest(), Some(&2));
    history.clear();
    assert_eq!(history.len(), 0);
    assert_eq!(history.latest(), None);
}

#[test]
fn popups_are_labelled() {
    assert_eq!(PopupKind::Edit { id: 1 }.label(), "내용 편집 (Enter 저장 · Esc 취소)");
    assert_eq!(PopupKind::NewProject.label(), "새 프로젝트 이름 (Enter 생성 · Esc 취소)");
}

#[test]
fn creation_times_chrono_cannot_represent_show_a_question_mark() {
    let mut t = todo(1, "a", None, 1);
    t.created_at = i64::MAX;
    assert_eq!(t.created_at_string(), "?");
    t.created_at = 0;
    assert_eq!(t.created_at_string().len(), "1970-01-01 00:00".len());
}

#[test]
fn undo_history_keeps_the_latest_entries_in_order() {
    let mut history = UndoHistory::new(3);
    for entry in 1..=5 {
        history.remember(entry);
    }
    assert_eq!(history.len(), 3);
    assert_eq!(history.latest(), Some(&5));
    history.discard_latest();
    history.discard_latest();
    assert_eq!(history.latest(), Some(&3));
    history.discard_latest();
    assert_eq!(history.latest(), None);
    let mut single = UndoHistory::new(0);
    single.remember(7);
    single.remember(8);
    assert_eq!(single.len(), 1);
    assert_eq!(single.latest(), Some(&8));
}

#[test]
fn discarding_from_a_full_history_leaves_the_one_before_latest() {
    let mut history = UndoHistory::new(5);
    for n in 1..=10 {
        history.remember(n);
    }
    assert_eq!(history.len(), 5);
    history.discard_latest();
    assert_eq!(history.latest(), Some(&9));
    let mut single = UndoHistory::new(1);
    single.remember(1);
    single.remember(2);
    single.discard_latest();
    assert_eq!(single.latest(), None);
}
