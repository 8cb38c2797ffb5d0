use pii::keys::{Key, KeyCode};
use pii::tree::{build_visible, folder_id, folder_project, is_folder_id, norm, Node, Tree};
use pii::tree_picker::{initial_expanded, tree_key, tree_settle, TreeState, TreeStep};

fn node(id: &str, file: &str, parent: &str, project: &str, date: &str, time: &str) -> Node {
    Node {
        id: id.into(),
        file_path: file.into(),
        name: format!("session {}", id),
        cost_str: "--".into(),
        time_str: "today".into(),
        date: date.into(),
        time: time.into(),
        parent: parent.into(),
        project: project.into(),
    }
}

fn sample() -> Vec<Node> {
    vec![
        node("a", "/p/a.jsonl", "", "P1", "2024-01-02", "10:00"),
        node("b", "/p/b.jsonl", "/p/a.jsonl", "P1", "2024-01-03", "11:00"),
        node("c", "/q/c.jsonl", "", "P2", "2024-01-05", "09:00"),
        node("d", "/p/d.jsonl", "/missing.jsonl", "P1", "2024-01-01", "08:00"),
    ]
}

fn key(code: KeyCode) -> Key {
    Key { code, ctrl: false, alt: false }
}

fn ids(rows: &[pii::tree::FlatRow]) -> Vec<String> {
    rows.iter().map(|r| r.id.clone()).collect()
}

#[test]
fn folders_hold_their_projects_most_recent_first() {
    let nodes = sample();
    let t = Tree::build(&nodes);
    assert_eq!(t.roots, vec!["__folder__P2".to_string(), "__folder__P1".to_string()]);
    assert_eq!(t.child_ids(&"__folder__P1".to_string()), &["a".to_string(), "d".to_string()]);
    assert_eq!(t.child_ids(&"a".to_string()), &["b".to_string()]);
    assert!(t.has_children(&"a".to_string()));
    assert!(!t.has_children(&"b".to_string()));
    assert!(t.has_children(&"__folder__P2".to_string()));
}

#[test]
fn visible_rows_follow_the_open_nodes() {
    let nodes = sample();
    let t = Tree::build(&nodes);
    let rows = build_visible(&t, &vec![]).unwrap();
    assert_eq!(ids(&rows), vec!["__folder__P2", "__folder__P1"]);
    assert!(rows[0].is_folder && !rows[0].is_last && rows[1].is_last);
    let open = vec!["__folder__P1".to_string(), "a".to_string()];
    let rows = build_visible(&t, &open).unwrap();
    assert_eq!(ids(&rows), vec!["__folder__P2", "__folder__P1", "a", "b", "d"]);
    assert_eq!(rows[3].depth, 2);
    assert_eq!(rows[3].ancestor_last, vec![true, false]);
    assert!(rows[3].is_last);
    assert!(!rows[2].is_last);
    assert!(!rows[2].is_folder);
}

#[test]
fn a_parent_loop_is_reported() {
    let nodes = vec![
        node("x", "/x", "/y", "P", "2024-01-01", "00:00"),
        node("y", "/y", "/x", "P", "2024-01-01", "00:00"),
        node("z", "/z", "", "P", "2024-01-01", "00:00"),
    ];
    let t = Tree::build(&nodes);
    let rows = build_visible(&t, &vec!["__folder__P".to_string()]).unwrap();
    assert_eq!(ids(&rows), vec!["__folder__P", "z"]);
    let open = vec!["x".to_string(), "y".to_string()];
    assert!(build_visible(&t, &open).is_some());
}

fn stay_settle(t: &Tree, st: TreeState) -> (TreeState, Vec<pii::tree::FlatRow>) {
    let from = st.selected;
    tree_settle(t, st, from).unwrap()
}

#[test]
fn picker_opens_the_latest_folder() {
    let nodes = sample();
    let t = Tree::build(&nodes);
    let mut open = initial_expanded(&t);
    open.sort();
    assert_eq!(open, vec!["__folder__P2".to_string(), "c".to_string()]);
}

#[test]
fn keys_fold_unfold_and_pick() {
    let nodes = sample();
    let t = Tree::build(&nodes);
    let st = TreeState { expanded: vec!["__folder__P1".to_string()], selected: 2 };
    let (st, rows) = stay_settle(&t, st);
    assert_eq!(ids(&rows), vec!["__folder__P2", "__folder__P1", "a", "d"]);
    let st = match tree_key(&t, &nodes, st, &rows, key(KeyCode::Right)) {
        TreeStep::Stay(s) => s,
        _ => panic!("right stays"),
    };
    assert!(st.expanded.contains(&"a".to_string()));
    let (st, rows) = stay_settle(&t, st);
    assert_eq!(ids(&rows), vec!["__folder__P2", "__folder__P1", "a", "b", "d"]);
    let st = match tree_key(&t, &nodes, st, &rows, key(KeyCode::Right)) {
        TreeStep::Stay(s) => s,
        _ => panic!("right stays"),
    };
    assert_eq!(st.selected, 3);
    let st = match tree_key(&t, &nodes, st, &rows, key(KeyCode::Left)) {
        TreeStep::Stay(s) => s,
        _ => panic!("left stays"),
    };
    assert_eq!(st.selected, 2);
    let st = match tree_key(&t, &nodes, st, &rows, key(KeyCode::Left)) {
        TreeStep::Stay(s) => s,
        _ => panic!("left stays"),
    };
    assert!(!st.expanded.contains(&"a".to_string()));
    assert_eq!(st.selected, 2);
    match tree_key(&t, &nodes, st, &rows, key(KeyCode::Enter)) {
        TreeStep::Pick(sel) => {
            assert_eq!(sel.id, "a");
            assert_eq!(sel.file_path, "/p/a.jsonl");
        }
        _ => panic!("enter picks"),
    }
    let st = TreeState { expanded: vec![], selected: 0 };
    assert!(matches!(tree_key(&t, &nodes, st, &rows, key(KeyCode::Esc)), TreeStep::Quit));
}

#[test]
fn unfolding_then_folding_restores_the_rows() {
    let nodes = sample();
    let t = Tree::build(&nodes);
    let st0 = TreeState { expanded: vec!["__folder__P1".to_string()], selected: 2 };
    let (st0, rows0) = stay_settle(&t, st0);
    let before: Vec<String> = st0.expanded.clone();
    let sel = st0.selected;
    let st1 = match tree_key(&t, &nodes, st0, &rows0, key(KeyCode::Right)) {
        TreeStep::Stay(s) => s,
        _ => panic!("right stays"),
    };
    let (st1, rows1) = stay_settle(&t, st1);
    let st2 = match tree_key(&t, &nodes, st1, &rows1, key(KeyCode::Left)) {
        TreeStep::Stay(s) => s,
        _ => panic!("left stays"),
    };
    let mut a = st2.expanded.clone();
    a.sort();
    let mut b = before;
    b.sort();
    assert_eq!(a, b);
    assert_eq!(st2.selected, sel);
}

#[test]
fn a_collapsed_folder_under_the_cursor_opens_alone() {
    let nodes = sample();
    let t = Tree::build(&nodes);
    let st = TreeState { expanded: vec!["__folder__P2".to_string(), "c".to_string()], selected: 2 };
    let (st, rows) = tree_settle(&t, st, 1).unwrap();
    assert_eq!(ids(&rows), vec!["__folder__P2", "__folder__P1", "a", "d"]);
    assert!(st.expanded.contains(&"__folder__P1".to_string()));
    assert!(!st.expanded.contains(&"__folder__P2".to_string()));
}

#[test]
fn left_folds_the_open_folder_for_good() {
    let nodes = sample();
    let t = Tree::build(&nodes);
    let st = TreeState { expanded: vec!["__folder__P1".to_string()], selected: 1 };
    let (st, rows) = stay_settle(&t, st);
    assert_eq!(ids(&rows), vec!["__folder__P2", "__folder__P1", "a", "d"]);
    let st = match tree_key(&t, &nodes, st, &rows, key(KeyCode::Left)) {
        TreeStep::Stay(s) => s,
        _ => panic!("left stays"),
    };
    let (st, rows) = tree_settle(&t, st, 1).unwrap();
    assert_eq!(ids(&rows), vec!["__folder__P2", "__folder__P1"]);
    assert_eq!(st.selected, 1);
    let st = match tree_key(&t, &nodes, st, &rows, key(KeyCode::Up)) {
        TreeStep::Stay(s) => s,
        _ => panic!("up stays"),
    };
    let (st, rows) = tree_settle(&t, st, 1).unwrap();
    assert_eq!(st.selected, 0);
    assert!(st.expanded.contains(&"__folder__P2".to_string()));
    assert!(!st.expanded.contains(&"__folder__P1".to_string()));
    assert_eq!(rows[0].id, "__folder__P2");
}

#[test]
fn enter_on_a_folder_selects_nothing() {
    let nodes = sample();
    let t = Tree::build(&nodes);
    let st = TreeState { expanded: vec![], selected: 0 };
    let (st, rows) = stay_settle(&t, st);
    let st = match tree_key(&t, &nodes, st, &rows, key(KeyCode::Enter)) {
        TreeStep::Stay(s) => s,
        _ => panic!("enter on a folder stays"),
    };
    assert_eq!(st.selected, 0);
    assert!(matches!(tree_key(&t, &nodes, st, &rows, key(KeyCode::Esc)), TreeStep::Quit));
}

#[test]
fn any_key_run_keeps_one_folder_open() {
    let nodes = sample();
    let t = Tree::build(&nodes);
    let open_folders = |st: &TreeState| st.expanded.iter().filter(|e| t.roots.contains(e)).count();
    let mut st = TreeState { expanded: initial_expanded(&t), selected: 0 };
    let mut from = 0;
    let keys = [
        KeyCode::Down, KeyCode::Right, KeyCode::Down, KeyCode::Right, KeyCode::Up, KeyCode::Left,
        KeyCode::Up, KeyCode::Right, KeyCode::Down, KeyCode::Down, KeyCode::Left, KeyCode::Up,
    ];
    for code in keys {
        let (settled, rows) = tree_settle(&t, st, from).unwrap();
        assert!(open_folders(&settled) <= 1);
        from = settled.selected;
        st = match tree_key(&t, &nodes, settled, &rows, key(code)) {
            TreeStep::Stay(s) => s,
            _ => panic!("arrows stay"),
        };
    }
    let (settled, _) = tree_settle(&t, st, from).unwrap();
    assert!(open_folders(&settled) <= 1);
}

#[test]
fn opening_more_rows_only_adds_rows() {
    let nodes = sample();
    let t = Tree::build(&nodes);
    let small = vec!["__folder__P1".to_string()];
    let big = vec!["__folder__P1".to_string(), "a".to_string(), "__folder__P2".to_string()];
    let a = ids(&build_visible(&t, &small).unwrap());
    let b = ids(&build_visible(&t, &big).unwrap());
    let mut k = 0;
    for x in &a {
        while k < b.len() && &b[k] != x {
            k += 1;
        }
        assert!(k < b.len(), "{} is missing", x);
        k += 1;
    }
    let none = build_visible(&t, &Vec::new()).unwrap();
    assert_eq!(ids(&none), t.roots.clone());
    assert!(none.iter().all(|r| r.depth == 0));
}

#[test]
fn built_trees_always_list_their_rows() {
    let mut nodes = sample();
    nodes.push(node("e", "/p/e.jsonl", "/p/f.jsonl", "P1", "2024-01-04", "07:00"));
    nodes.push(node("f", "/p/f.jsonl", "/p/e.jsonl", "P1", "2024-01-04", "07:30"));
    let t = Tree::build(&nodes);
    let everything: Vec<String> = nodes
        .iter()
        .map(|n| n.id.clone())
        .chain(t.roots.iter().cloned())
        .collect();
    assert!(build_visible(&t, &everything).is_some());
    assert!(build_visible(&t, &Vec::new()).is_some());
}

#[test]
fn folder_ids_round_trip() {
    assert_eq!(folder_id("proj"), "__folder__proj");
    assert!(is_folder_id("__folder__x"));
    assert!(!is_folder_id("abc"));
    assert_eq!(folder_project("__folder__proj"), "proj");
    assert_eq!(folder_project("plain"), "");
    assert_eq!(norm("a\\b\\c"), "a/b/c");
}
