//! Navigation of the session tree: what each key press does to the
//! expanded rows and the cursor.
use vstd::prelude::*;
use crate::keys::{Key, KeyCode};
use crate::tree::{
    Node, Tree, FlatRow, RowView, rows_view, set_of, views, build_visible, visible_rows,
    expansion_finite, contains_id, node_of, is_node_id, has_parent, normed, norm, last_index_of,
    is_folder, last_of_id, lemma_last_of_id, walk, walk_kids, tree_of, kids, kids_upto, members,
    members_upto, session_roots, lemma_roots_are_ids, folder_of, folder_prefix, has_key, value_at,
    lemma_value_at, parent_key, projects, walk_ok, kids_ok,
};
use crate::picker::Selection;

verus! {

broadcast use vstd::string::group_string_axioms;

/// The expanded rows and the cursor of the tree picker.
pub struct TreeState {
    pub expanded: Vec<String>,
    pub selected: usize,
}

/// What the picker does after a key press.
pub enum TreeStep {
    Stay(TreeState),
    Quit,
    Pick(Selection),
}

/// `v` with `id` added (kept once).
pub fn insert_id(v: &mut Vec<String>, id: &String)
    ensures
        set_of(final(v)@) == set_of(old(v)@).insert(id@),
{
    if !contains_id(v, id) {
        let ghost before = v@;
        v.push(id.clone());
        assert(set_of(v@) =~= set_of(before).insert(id@)) by {
            assert forall|s: Seq<char>| set_of(v@).contains(s) implies set_of(before).insert(id@).contains(s) by {
                let i = choose|i: int| 0 <= i < v@.len() && #[trigger] v@[i]@ == s;
                if i < before.len() {
                    assert(before[i]@ == s);
                }
            }
            assert forall|s: Seq<char>| set_of(before).insert(id@).contains(s) implies set_of(v@).contains(s) by {
                if s == id@ {
                    assert(v@[before.len() as int]@ == s);
                } else {
                    let i = choose|i: int| 0 <= i < before.len() && #[trigger] before[i]@ == s;
                    assert(v@[i]@ == s);
                }
            }
        }
    } else {
        assert(set_of(v@) =~= set_of(v@).insert(id@));
    }
}

/// `v` without the ids for which `drop` holds.
pub fn remove_ids(v: &Vec<String>, drop_ids: &Vec<String>) -> (r: Vec<String>)
    ensures
        set_of(r@) == set_of(v@).difference(set_of(drop_ids@)),
{
    let mut r: Vec<String> = Vec::new();
    let mut i: usize = 0;
    while i < v.len()
        invariant
            i <= v.len(),
            set_of(r@) == set_of(v@.take(i as int)).difference(set_of(drop_ids@)),
        decreases v.len() - i,
    {
        let ghost before = r@;
        let gone = contains_id(drop_ids, &v[i]);
        if !gone {
            r.push(v[i].clone());
        }
        assert(set_of(r@) =~= set_of(v@.take(i + 1)).difference(set_of(drop_ids@))) by {
            assert(v@.take(i + 1) =~= v@.take(i as int).push(v@[i as int]));
            assert forall|s: Seq<char>| set_of(r@).contains(s) implies set_of(v@.take(i + 1)).difference(set_of(drop_ids@)).contains(s) by {
                let k = choose|k: int| 0 <= k < r@.len() && #[trigger] r@[k]@ == s;
                if k < before.len() {
                    assert(before[k]@ == s);
                    assert(set_of(before).contains(s));
                    let w = choose|w: int| 0 <= w < i && #[trigger] v@.take(i as int)[w]@ == s;
                    assert(v@.take(i + 1)[w]@ == s);
                } else {
                    assert(v@.take(i + 1)[i as int]@ == s);
                }
            }
            assert forall|s: Seq<char>| set_of(v@.take(i + 1)).difference(set_of(drop_ids@)).contains(s) implies set_of(r@).contains(s) by {
                let w = choose|w: int| 0 <= w < i + 1 && #[trigger] v@.take(i + 1)[w]@ == s;
                if w < i {
                    assert(v@.take(i as int)[w]@ == s);
                    assert(set_of(before).contains(s));
                    let k = choose|k: int| 0 <= k < before.len() && #[trigger] before[k]@ == s;
                    assert(r@[k]@ == s);
                } else {
                    assert(r@[before.len() as int]@ == s);
                }
            }
        }
        i = i + 1;
    }
    assert(v@.take(v@.len() as int) =~= v@);
    r
}

} // verus!

verus! {

/// Index of the first row showing `id`, or -1.
pub open spec fn first_row_with(rows: Seq<RowView>, id: Seq<char>) -> int
    decreases rows.len(),
{
    if rows.len() == 0 {
        -1
    } else if rows.last().0 == id && first_row_with(rows.drop_last(), id) < 0 {
        rows.len() - 1
    } else {
        first_row_with(rows.drop_last(), id)
    }
}

/// The first session id in `table` whose path is `p`.
pub open spec fn path_owner(table: Seq<(String, String)>, p: Seq<char>) -> Option<Seq<char>>
    decreases table.len(),
{
    if table.len() == 0 {
        None
    } else if table[0].1@ == p {
        Some(table[0].0@)
    } else {
        path_owner(table.drop_first(), p)
    }
}

pub fn find_row(rows: &Vec<FlatRow>, id: &String) -> (r: Option<usize>)
    ensures
        r matches Some(i) ==> i as int == first_row_with(rows_view(rows@), id@),
        r is None ==> first_row_with(rows_view(rows@), id@) < 0,
{
    let mut i: usize = 0;
    while i < rows.len()
        invariant
            i <= rows.len(),
            first_row_with(rows_view(rows@.take(i as int)), id@) < 0,
        decreases rows.len() - i,
    {
        assert(rows_view(rows@.take(i + 1)).drop_last() =~= rows_view(rows@.take(i as int)));
        if rows[i].id == *id {
            assert(rows_view(rows@.take(i + 1)).last().0 == id@);
            assert(first_row_with(rows_view(rows@.take(i + 1)), id@) == i);
            assert(rows_view(rows@).take(i + 1) =~= rows_view(rows@.take(i + 1)));
            proof {
                lemma_first_row_prefix(rows_view(rows@), i + 1, id@);
            }
            return Some(i);
        }
        i = i + 1;
    }
    assert(rows@.take(rows@.len() as int) =~= rows@);
    None
}

pub proof fn lemma_first_row_prefix(rows: Seq<RowView>, n: int, id: Seq<char>)
    requires
        0 <= n <= rows.len(),
        first_row_with(rows.take(n), id) >= 0,
    ensures
        first_row_with(rows, id) == first_row_with(rows.take(n), id),
    decreases rows.len() - n,
{
    if n < rows.len() {
        assert(rows.take(n + 1).drop_last() =~= rows.take(n));
        lemma_first_row_prefix(rows, n + 1, id);
    } else {
        assert(rows.take(n) =~= rows);
    }
}

pub fn find_path_owner<'a>(table: &'a Vec<(String, String)>, p: &String) -> (r: Option<&'a String>)
    ensures
        r matches Some(id) ==> path_owner(table@, p@) == Some(id@),
        r is None ==> path_owner(table@, p@) is None,
{
    let mut i: usize = 0;
    assert(table@.skip(0) =~= table@);
    while i < table.len()
        invariant
            i <= table.len(),
            path_owner(table@, p@) == path_owner(table@.skip(i as int), p@),
        decreases table.len() - i,
    {
        assert(table@.skip(i as int).drop_first() =~= table@.skip(i + 1));
        if table[i].1 == *p {
            return Some(&table[i].0);
        }
        i = i + 1;
    }
    None
}

} // verus!

verus! {

/// The rows to remove when folder `id` opens: every other folder.
pub fn other_roots(tree: &Tree, id: &String) -> (r: Vec<String>)
    ensures
        set_of(r@) == set_of(tree.roots@).remove(id@),
{
    let mut r: Vec<String> = Vec::new();
    let mut i: usize = 0;
    while i < tree.roots.len()
        invariant
            i <= tree.roots.len(),
            set_of(r@) == set_of(tree.roots@.take(i as int)).remove(id@),
        decreases tree.roots.len() - i,
    {
        let ghost before = r@;
        if tree.roots[i] != *id {
            r.push(tree.roots[i].clone());
        }
        assert(set_of(r@) =~= set_of(tree.roots@.take(i + 1)).remove(id@)) by {
            assert(tree.roots@.take(i + 1) =~= tree.roots@.take(i as int).push(tree.roots@[i as int]));
            assert forall|s: Seq<char>| set_of(r@).contains(s) implies set_of(tree.roots@.take(i + 1)).remove(id@).contains(s) by {
                let k = choose|k: int| 0 <= k < r@.len() && #[trigger] r@[k]@ == s;
                if k < before.len() {
                    assert(before[k]@ == s);
                    assert(set_of(before).contains(s));
                    let w = choose|w: int| 0 <= w < i && #[trigger] tree.roots@.take(i as int)[w]@ == s;
                    assert(tree.roots@.take(i + 1)[w]@ == s);
                } else {
                    assert(tree.roots@.take(i + 1)[i as int]@ == s);
                }
            }
            assert forall|s: Seq<char>| set_of(tree.roots@.take(i + 1)).remove(id@).contains(s) implies set_of(r@).contains(s) by {
                let w = choose|w: int| 0 <= w < i + 1 && #[trigger] tree.roots@.take(i + 1)[w]@ == s;
                if w < i {
                    assert(tree.roots@.take(i as int)[w]@ == s);
                    assert(set_of(before).contains(s));
                    let k = choose|k: int| 0 <= k < before.len() && #[trigger] before[k]@ == s;
                    assert(r@[k]@ == s);
                } else {
                    assert(r@[before.len() as int]@ == s);
                }
            }
        }
        i = i + 1;
    }
    assert(tree.roots@.take(tree.roots@.len() as int) =~= tree.roots@);
    r
}

/// Where the left key moves the cursor from a session row: to the first row
/// showing the session its parent link names, when there is one.
pub open spec fn parent_row(tree: Tree, nodes: Seq<Node>, rows: Seq<RowView>, sel: int) -> int {
    let id = rows[sel].0;
    if is_node_id(nodes, id) && has_parent(node_of(nodes, id)) {
        match path_owner(tree.id_to_path@, normed(node_of(nodes, id).parent@)) {
            Some(pid) => if first_row_with(rows, pid) >= 0 {
                first_row_with(rows, pid)
            } else {
                sel
            },
            None => sel,
        }
    } else {
        sel
    }
}

/// The state is left as it was.
pub open spec fn same_state(s: TreeState, t: TreeState) -> bool {
    s.expanded@ == t.expanded@ && s.selected == t.selected
}

/// What a key press does in the tree picker, given the rows on screen.
pub open spec fn tree_key_spec(
    tree: Tree,
    nodes: Seq<Node>,
    state: TreeState,
    rows: Seq<RowView>,
    key: Key,
    step: TreeStep,
) -> bool {
    let sel = state.selected as int;
    let exp = set_of(state.expanded@);
    match key.code {
        KeyCode::Esc => step is Quit,
        KeyCode::Char(c) => if c == 'q' {
            step is Quit
        } else {
            step matches TreeStep::Stay(s) && same_state(s, state)
        },
        KeyCode::Enter => if sel < rows.len() && is_node_id(nodes, rows[sel].0) {
            step matches TreeStep::Pick(p) && p.id@ == node_of(nodes, rows[sel].0).id@ && p.file_path@
                == node_of(nodes, rows[sel].0).file_path@
        } else {
            step matches TreeStep::Stay(s) && same_state(s, state)
        },
        KeyCode::Up => step matches TreeStep::Stay(s) && s.expanded@ == state.expanded@ && s.selected == (
        if sel > 0 {
            sel - 1
        } else {
            0
        }),
        KeyCode::Down => step matches TreeStep::Stay(s) && s.expanded@ == state.expanded@ && s.selected == (
        if sel + 1 < rows.len() {
            sel + 1
        } else {
            sel
        }),
        KeyCode::Left => step matches TreeStep::Stay(s) && if sel >= rows.len() {
            same_state(s, state)
        } else if exp.contains(rows[sel].0) {
            set_of(s.expanded@) == exp.remove(rows[sel].0) && s.selected == sel
        } else if rows[sel].4 {
            same_state(s, state)
        } else {
            s.expanded@ == state.expanded@ && s.selected == parent_row(tree, nodes, rows, sel)
        },
        KeyCode::Right => step matches TreeStep::Stay(s) && if sel >= rows.len() {
            same_state(s, state)
        } else if tree.child_list(rows[sel].0).len() > 0 && !exp.contains(rows[sel].0) {
            s.selected == sel && set_of(s.expanded@) == if rows[sel].4 {
                exp.difference(set_of(tree.roots@).remove(rows[sel].0)).insert(rows[sel].0)
            } else {
                exp.insert(rows[sel].0)
            }
        } else if exp.contains(rows[sel].0) && !rows[sel].4 {
            s.expanded@ == state.expanded@ && s.selected == (if sel + 1 < rows.len() {
                sel + 1
            } else {
                sel
            })
        } else {
            same_state(s, state)
        },
        _ => step matches TreeStep::Stay(s) && same_state(s, state),
    }
}

/// Applies one key press to the tree picker.
pub fn tree_key(tree: &Tree, nodes: &Vec<Node>, state: TreeState, rows: &Vec<FlatRow>, key: Key) -> (step: TreeStep)
    requires
        tree.wf(),
    ensures
        tree_key_spec(*tree, nodes@, state, rows_view(rows@), key, step),
{
    let sel = state.selected;
    let ghost rv = rows_view(rows@);
    proof {
        if sel < rows.len() {
            assert(rv[sel as int] == (rows@[sel as int].id@, rows@[sel as int].depth as int, rows@[sel as int].is_last, rows@[sel as int].ancestor_last@, rows@[sel as int].is_folder));
        }
    }
    match key.code {
        KeyCode::Esc => TreeStep::Quit,
        KeyCode::Char(c) => {
            if c == 'q' {
                TreeStep::Quit
            } else {
                TreeStep::Stay(state)
            }
        },
        KeyCode::Enter => {
            if sel < rows.len() && has_node(nodes, &rows[sel].id) {
                let li = last_index_of(nodes, &rows[sel].id);
                TreeStep::Pick(Selection { id: nodes[li].id.clone(), file_path: nodes[li].file_path.clone() })
            } else {
                TreeStep::Stay(state)
            }
        },
        KeyCode::Up => {
            let s = if sel > 0 { sel - 1 } else { 0 };
            TreeStep::Stay(TreeState { expanded: state.expanded, selected: s })
        },
        KeyCode::Down => {
            let s = if rows.len() > 0 && sel < rows.len() - 1 { sel + 1 } else { sel };
            TreeStep::Stay(TreeState { expanded: state.expanded, selected: s })
        },
        KeyCode::Left => {
            if sel >= rows.len() {
                return TreeStep::Stay(state);
            }
            let id = &rows[sel].id;
            if contains_id(&state.expanded, id) {
                let mut drop: Vec<String> = Vec::new();
                drop.push(id.clone());
                assert(set_of(drop@) =~= Set::empty().insert(id@)) by {
                    assert forall|x: Seq<char>| set_of(drop@).contains(x) implies x == id@ by {
                        let k = choose|k: int| 0 <= k < drop@.len() && #[trigger] drop@[k]@ == x;
                    }
                    assert(drop@[0]@ == id@);
                }
                let e = remove_ids(&state.expanded, &drop);
                assert(set_of(e@) =~= set_of(state.expanded@).remove(id@));
                TreeStep::Stay(TreeState { expanded: e, selected: sel })
            } else if rows[sel].is_folder {
                TreeStep::Stay(state)
            } else {
                if !has_node(nodes, id) {
                    return TreeStep::Stay(state);
                }
                let li = last_index_of(nodes, id);
                let n = &nodes[li];
                if char_len_positive(&n.parent) {
                    let pnorm = norm(&n.parent);
                    match find_path_owner(&tree.id_to_path, &pnorm) {
                        Some(pid) => match find_row(rows, pid) {
                            Some(pos) => TreeStep::Stay(TreeState { expanded: state.expanded, selected: pos }),
                            None => TreeStep::Stay(state),
                        },
                        None => TreeStep::Stay(state),
                    }
                } else {
                    TreeStep::Stay(state)
                }
            }
        },
        KeyCode::Right => {
            if sel >= rows.len() {
                return TreeStep::Stay(state);
            }
            let id = &rows[sel].id;
            let open = contains_id(&state.expanded, id);
            if tree.has_children(id) && !open {
                let mut e = if rows[sel].is_folder {
                    let others = other_roots(tree, id);
                    remove_ids(&state.expanded, &others)
                } else {
                    state.expanded
                };
                insert_id(&mut e, id);
                TreeStep::Stay(TreeState { expanded: e, selected: sel })
            } else if open && !rows[sel].is_folder {
                let s = if sel + 1 < rows.len() { sel + 1 } else { sel };
                TreeStep::Stay(TreeState { expanded: state.expanded, selected: s })
            } else {
                TreeStep::Stay(state)
            }
        },
        _ => TreeStep::Stay(state),
    }
}

/// Whether some session has the id `id`.
pub fn has_node(nodes: &Vec<Node>, id: &String) -> (r: bool)
    ensures
        r == is_node_id(nodes@, id@),
{
    let mut m: usize = 0;
    while m < nodes.len()
        invariant
            m <= nodes.len(),
            forall|j: int| 0 <= j < m ==> nodes@[j].id@ != id@,
        decreases nodes.len() - m,
    {
        if nodes[m].id == *id {
            assert(nodes@[m as int].id@ == id@);
            return true;
        }
        m = m + 1;
    }
    false
}

/// Whether the text has at least one character.
pub fn char_len_positive(s: &String) -> (r: bool)
    ensures
        r == (s@.len() > 0),
{
    crate::text::char_count(s.as_str()) > 0
}

} // verus!

verus! {

/// The expanded set once the cursor, having just moved (`moved`), lands on a
/// collapsed folder: that folder opens and every other folder closes. A
/// folder the cursor stayed on (one the left key just folded) stays folded.
pub open spec fn settled_expansion(tree: Tree, exp: Set<Seq<char>>, sel: int, moved: bool) -> Set<Seq<char>> {
    let v = visible_rows(tree, exp);
    if moved && 0 <= sel < v.len() && v[sel].4 && !exp.contains(v[sel].0) {
        exp.difference(set_of(tree.roots@).remove(v[sel].0)).insert(v[sel].0)
    } else {
        exp
    }
}

/// Prepares a frame: when the cursor has moved from row `from` onto a
/// collapsed folder, opens it (closing the others); lists the visible rows,
/// and keeps the cursor on the list. `None` when the expanded rows lead into
/// a cycle of parent links.
pub fn tree_settle(tree: &Tree, state: TreeState, from: usize) -> (r: Option<(TreeState, Vec<FlatRow>)>)
    requires
        tree.wf(),
    ensures
        !expansion_finite(*tree, set_of(state.expanded@)) ==> r is None,
        expansion_finite(*tree, set_of(state.expanded@)) ==> (r is Some <==> expansion_finite(
            *tree,
            settled_expansion(*tree, set_of(state.expanded@), state.selected as int, from != state.selected),
        )),
        r matches Some(p) ==> set_of(p.0.expanded@) == settled_expansion(
            *tree,
            set_of(state.expanded@),
            state.selected as int,
            from != state.selected,
        ) && rows_view(p.1@) == visible_rows(*tree, set_of(p.0.expanded@)) && p.0.selected == (
        if state.selected < p.1.len() {
            state.selected as int
        } else if p.1.len() > 0 {
            p.1.len() - 1
        } else {
            0
        }),
{
    let ghost exp = set_of(state.expanded@);
    let mut expanded = state.expanded;
    let sel = state.selected;
    let mut visible = match build_visible(tree, &expanded) {
        Some(v) => v,
        None => return None,
    };
    if sel < visible.len() {
        let is_f = visible[sel].is_folder;
        let id = visible[sel].id.clone();
        proof {
            assert(rows_view(visible@)[sel as int] == (visible@[sel as int].id@, visible@[sel as int].depth as int, visible@[sel as int].is_last, visible@[sel as int].ancestor_last@, visible@[sel as int].is_folder));
        }
        if from != sel && is_f && !contains_id(&expanded, &id) {
            let others = other_roots(tree, &id);
            let mut e = remove_ids(&expanded, &others);
            insert_id(&mut e, &id);
            expanded = e;
            visible = match build_visible(tree, &expanded) {
                Some(v) => v,
                None => return None,
            };
        }
    }
    let s = if sel >= visible.len() {
        if visible.len() > 0 { visible.len() - 1 } else { 0 }
    } else {
        sel
    };
    Some((TreeState { expanded, selected: s }, visible))
}

/// The rows open when the picker starts: the most recent folder, its first
/// session, and that session's children.
pub open spec fn initial_expansion(tree: Tree) -> Set<Seq<char>> {
    if tree.roots.len() == 0 {
        Set::empty()
    } else {
        let top = tree.roots@[0]@;
        let kids = tree.child_list(top);
        if kids.len() == 0 {
            Set::empty().insert(top)
        } else {
            Set::empty().insert(top).insert(kids[0]).union(
                Set::new(|s: Seq<char>| exists|i: int| 0 <= i < tree.child_list(kids[0]).len() && tree.child_list(kids[0])[i] == s),
            )
        }
    }
}

pub fn initial_expanded(tree: &Tree) -> (r: Vec<String>)
    requires
        tree.wf(),
    ensures
        set_of(r@) == initial_expansion(*tree),
{
    let mut r: Vec<String> = Vec::new();
    if tree.roots.len() == 0 {
        assert(set_of(r@) =~= Set::<Seq<char>>::empty());
        return r;
    }
    let top = &tree.roots[0];
    assert(set_of(r@) =~= Set::<Seq<char>>::empty());
    insert_id(&mut r, top);
    let kids = tree.child_ids(top);
    if kids.len() == 0 {
        return r;
    }
    let first = &kids[0];
    insert_id(&mut r, first);
    let grand = tree.child_ids(first);
    let ghost g = views(grand@);
    let ghost base = set_of(r@);
    let mut i: usize = 0;
    while i < grand.len()
        invariant
            i <= grand.len(),
            g == views(grand@),
            set_of(r@) == base.union(Set::new(|s: Seq<char>| exists|k: int| 0 <= k < i && g[k] == s)),
        decreases grand.len() - i,
    {
        insert_id(&mut r, &grand[i]);
        assert(set_of(r@) =~= base.union(Set::new(|s: Seq<char>| exists|k: int| 0 <= k < i + 1 && g[k] == s))) by {
            assert(g[i as int] == grand@[i as int]@);
        }
        i = i + 1;
    }
    assert(set_of(r@) =~= initial_expansion(*tree));
    r
}

/// Unfolding a collapsed session with the right key and folding it back with
/// the left key, the cursor staying on it, leaves the open rows and the
/// cursor as they were.
pub proof fn law_unfold_then_fold(
    tree: Tree,
    nodes: Seq<Node>,
    state: TreeState,
    rows: Seq<RowView>,
    s1: TreeState,
    rows2: Seq<RowView>,
    s2: TreeState,
    ctrl: bool,
    alt: bool,
)
    requires
        state.selected < rows.len(),
        tree.child_list(rows[state.selected as int].0).len() > 0,
        !set_of(state.expanded@).contains(rows[state.selected as int].0),
        !rows[state.selected as int].4,
        tree_key_spec(tree, nodes, state, rows, Key { code: KeyCode::Right, ctrl, alt }, TreeStep::Stay(s1)),
        s1.selected < rows2.len(),
        rows2[s1.selected as int].0 == rows[state.selected as int].0,
        tree_key_spec(tree, nodes, s1, rows2, Key { code: KeyCode::Left, ctrl, alt }, TreeStep::Stay(s2)),
    ensures
        set_of(s2.expanded@) == set_of(state.expanded@),
        s2.selected == state.selected,
{
    let x = rows[state.selected as int].0;
    assert(set_of(s1.expanded@) == set_of(state.expanded@).insert(x));
    assert(set_of(s1.expanded@).contains(x));
    assert(set_of(s2.expanded@) =~= set_of(state.expanded@));
}

/// When the cursor lands on a folded project folder, that folder opens and
/// every other project folder closes; open sessions stay open.
pub proof fn law_one_folder_open(tree: Tree, exp: Set<Seq<char>>, sel: int)
    requires
        0 <= sel < visible_rows(tree, exp).len(),
        visible_rows(tree, exp)[sel].4,
        !exp.contains(visible_rows(tree, exp)[sel].0),
    ensures
        settled_expansion(tree, exp, sel, true).contains(visible_rows(tree, exp)[sel].0),
        forall|r: Seq<char>|
            set_of(tree.roots@).contains(r) && r != visible_rows(tree, exp)[sel].0 ==> !#[trigger] settled_expansion(
                tree,
                exp,
                sel,
                true,
            ).contains(r),
        forall|x: Seq<char>|
            exp.contains(x) && !set_of(tree.roots@).contains(x) ==> #[trigger] settled_expansion(tree, exp, sel, true).contains(x),
{
}

} // verus!


verus! {

/// The left key on an open project folder folds it, the cursor stays on it,
/// and the next frame keeps it folded.
pub proof fn law_left_folds_folder(
    tree: Tree,
    nodes: Seq<Node>,
    state: TreeState,
    rows: Seq<RowView>,
    s: TreeState,
    ctrl: bool,
    alt: bool,
)
    requires
        state.selected < rows.len(),
        rows[state.selected as int].4,
        set_of(state.expanded@).contains(rows[state.selected as int].0),
        tree_key_spec(tree, nodes, state, rows, Key { code: KeyCode::Left, ctrl, alt }, TreeStep::Stay(s)),
    ensures
        s.selected == state.selected,
        !settled_expansion(tree, set_of(s.expanded@), s.selected as int, state.selected != s.selected).contains(
            rows[state.selected as int].0,
        ),
{
}

} // verus!

verus! {

/// At most one project folder is open.
pub open spec fn one_folder_open(tree: Tree, exp: Set<Seq<char>>) -> bool {
    forall|a: Seq<char>, b: Seq<char>|
        #![trigger exp.contains(a), exp.contains(b)]
        exp.contains(a) && exp.contains(b) && set_of(tree.roots@).contains(a) && set_of(tree.roots@).contains(b)
            ==> a == b
}

/// `x` is listed under some row.
pub open spec fn is_child_id(tree: Tree, x: Seq<char>) -> bool {
    exists|p: Seq<char>, i: int| 0 <= i < tree.child_list(p).len() && #[trigger] tree.child_list(p)[i] == x
}

/// A tree whose project folders are the ids of folder form, and whose
/// sessions never carry a folder's id.
pub open spec fn folders_apart(tree: Tree) -> bool {
    &&& forall|i: int| 0 <= i < tree.roots@.len() ==> is_folder(#[trigger] tree.roots@[i]@)
    &&& forall|x: Seq<char>| is_child_id(tree, x) ==> !set_of(tree.roots@).contains(x)
}

proof fn lemma_walk_rows(
    t: Tree,
    exp: Set<Seq<char>>,
    id: Seq<char>,
    depth: int,
    is_last: bool,
    anc: Seq<bool>,
    fuel: nat,
)
    ensures
        forall|i: int|
            0 <= i < walk(t, exp, id, depth, is_last, anc, fuel).len() ==> {
                let r = #[trigger] walk(t, exp, id, depth, is_last, anc, fuel)[i];
                &&& r.4 == (r.1 == 0 && is_folder(r.0))
                &&& (r.0 == id && r.1 == depth) || is_child_id(t, r.0)
            },
    decreases fuel, 0int,
{
    if exp.contains(id) && fuel > 0 {
        let kids = t.child_list(id);
        let w = walk_kids(t, exp, kids, 0, depth + 1, anc.push(is_last), (fuel - 1) as nat);
        lemma_walk_kids_rows(t, exp, kids, 0, depth + 1, anc.push(is_last), (fuel - 1) as nat);
        let all = walk(t, exp, id, depth, is_last, anc, fuel);
        assert forall|i: int| 0 < i < all.len() implies {
            let r = #[trigger] all[i];
            &&& r.4 == (r.1 == 0 && is_folder(r.0))
            &&& (r.0 == id && r.1 == depth) || is_child_id(t, r.0)
        } by {
            assert(all[i] == w[i - 1]);
            let r = w[i - 1];
            if !is_child_id(t, r.0) {
                let j = choose|j: int| 0 <= j < kids.len() && kids[j] == r.0 && r.1 == depth + 1;
                assert(t.child_list(id)[j] == r.0);
            }
        }
    }
}

proof fn lemma_walk_kids_rows(
    t: Tree,
    exp: Set<Seq<char>>,
    kids: Seq<Seq<char>>,
    from: int,
    depth: int,
    anc: Seq<bool>,
    fuel: nat,
)
    ensures
        forall|i: int|
            0 <= i < walk_kids(t, exp, kids, from, depth, anc, fuel).len() ==> {
                let r = #[trigger] walk_kids(t, exp, kids, from, depth, anc, fuel)[i];
                &&& r.4 == (r.1 == 0 && is_folder(r.0))
                &&& (exists|j: int| 0 <= j < kids.len() && kids[j] == r.0 && r.1 == depth) || is_child_id(t, r.0)
            },
    decreases fuel, kids.len() - from + 1,
{
    if 0 <= from < kids.len() {
        let w = walk(t, exp, kids[from], depth, from + 1 == kids.len(), anc, fuel);
        let rest = walk_kids(t, exp, kids, from + 1, depth, anc, fuel);
        lemma_walk_rows(t, exp, kids[from], depth, from + 1 == kids.len(), anc, fuel);
        lemma_walk_kids_rows(t, exp, kids, from + 1, depth, anc, fuel);
        let all = walk_kids(t, exp, kids, from, depth, anc, fuel);
        assert(all == w + rest);
        assert forall|i: int| 0 <= i < all.len() implies {
            let r = #[trigger] all[i];
            &&& r.4 == (r.1 == 0 && is_folder(r.0))
            &&& (exists|j: int| 0 <= j < kids.len() && kids[j] == r.0 && r.1 == depth) || is_child_id(t, r.0)
        } by {
            if i < w.len() {
                assert(all[i] == w[i]);
                let r = w[i];
                if !is_child_id(t, r.0) {
                    assert(kids[from] == r.0 && r.1 == depth);
                }
            } else {
                assert(all[i] == rest[i - w.len()]);
            }
        }
    }
}

/// In a tree whose folders stand apart, a row that is not a folder row
/// never shows a project folder.
proof fn lemma_plain_rows_not_roots(tree: Tree, exp: Set<Seq<char>>, sel: int)
    requires
        folders_apart(tree),
        0 <= sel < visible_rows(tree, exp).len(),
        !visible_rows(tree, exp)[sel].4,
    ensures
        !set_of(tree.roots@).contains(visible_rows(tree, exp)[sel].0),
{
    let kids = views(tree.roots@);
    lemma_walk_kids_rows(tree, exp, kids, 0, 0, seq![], crate::tree::fuel_bound(tree));
    let r = visible_rows(tree, exp)[sel];
    if !is_child_id(tree, r.0) {
        let j = choose|j: int| 0 <= j < kids.len() && kids[j] == r.0 && r.1 == 0;
        assert(kids[j] == tree.roots@[j]@);
        assert(is_folder(tree.roots@[j]@));
    }
}

} // verus!

verus! {

/// The picker starts with at most one project folder open, in a tree whose
/// folders stand apart from its sessions.
pub proof fn law_starts_with_one_folder(tree: Tree)
    requires
        folders_apart(tree),
    ensures
        one_folder_open(tree, initial_expansion(tree)),
{
    if tree.roots.len() > 0 {
        let top = tree.roots@[0]@;
        let kids = tree.child_list(top);
        let exp = initial_expansion(tree);
        assert forall|a: Seq<char>| exp.contains(a) && set_of(tree.roots@).contains(a) implies a == top by {
            if a != top {
                if kids.len() > 0 && a == kids[0] {
                    assert(tree.child_list(top)[0] == a);
                    assert(is_child_id(tree, a));
                } else if kids.len() > 0 {
                    let i = choose|i: int| 0 <= i < tree.child_list(kids[0]).len() && tree.child_list(kids[0])[i] == a;
                    assert(is_child_id(tree, a));
                }
            }
        }
    }
}

/// Preparing a frame never leaves two project folders open when there was
/// at most one.
pub proof fn law_settle_keeps_one_folder(tree: Tree, exp: Set<Seq<char>>, sel: int, moved: bool)
    requires
        one_folder_open(tree, exp),
    ensures
        one_folder_open(tree, settled_expansion(tree, exp, sel, moved)),
{
    let v = visible_rows(tree, exp);
    if moved && 0 <= sel < v.len() && v[sel].4 && !exp.contains(v[sel].0) {
        let e = settled_expansion(tree, exp, sel, moved);
        assert forall|a: Seq<char>| e.contains(a) && set_of(tree.roots@).contains(a) implies a == v[sel].0 by {}
    }
}

/// Every key press keeps at most one project folder open, in a tree whose
/// folders stand apart from its sessions; with the two laws above, at most
/// one project folder is open after any sequence of key presses.
pub proof fn law_keys_keep_one_folder(tree: Tree, nodes: Seq<Node>, state: TreeState, key: Key, s: TreeState)
    requires
        folders_apart(tree),
        one_folder_open(tree, set_of(state.expanded@)),
        tree_key_spec(tree, nodes, state, visible_rows(tree, set_of(state.expanded@)), key, TreeStep::Stay(s)),
    ensures
        one_folder_open(tree, set_of(s.expanded@)),
{
    let exp = set_of(state.expanded@);
    let rows = visible_rows(tree, exp);
    let sel = state.selected as int;
    let e = set_of(s.expanded@);
    if key.code == KeyCode::Right && sel < rows.len() && tree.child_list(rows[sel].0).len() > 0 && !exp.contains(
        rows[sel].0,
    ) {
        if rows[sel].4 {
            assert forall|a: Seq<char>| e.contains(a) && set_of(tree.roots@).contains(a) implies a == rows[sel].0 by {}
        } else {
            lemma_plain_rows_not_roots(tree, exp, sel);
            assert forall|a: Seq<char>, b: Seq<char>|
                #![trigger e.contains(a), e.contains(b)]
                e.contains(a) && e.contains(b) && set_of(tree.roots@).contains(a) && set_of(tree.roots@).contains(
                    b,
                ) implies a == b by {
                assert(exp.contains(a) && exp.contains(b));
            }
        }
    } else {
        assert forall|a: Seq<char>, b: Seq<char>|
            #![trigger e.contains(a), e.contains(b)]
            e.contains(a) && e.contains(b) && set_of(tree.roots@).contains(a) && set_of(tree.roots@).contains(b)
                implies a == b by {
            assert(exp.contains(a) && exp.contains(b));
        }
    }
}

} // verus!

verus! {

/// One redraw of the picker to the next: key `key` pressed on the frame
/// `before` gives `after` once the next frame is prepared.
pub open spec fn next_frame(tree: Tree, nodes: Seq<Node>, before: TreeState, key: Key, after: TreeState) -> bool {
    exists|s: TreeState|
        #[trigger] tree_key_spec(
            tree,
            nodes,
            before,
            visible_rows(tree, set_of(before.expanded@)),
            key,
            TreeStep::Stay(s),
        ) && set_of(after.expanded@) == settled_expansion(
            tree,
            set_of(s.expanded@),
            s.selected as int,
            s.selected != before.selected,
        )
}

/// The frames shown while `keys` are pressed, from the first one on.
pub open spec fn picker_frames(tree: Tree, nodes: Seq<Node>, keys: Seq<Key>, frames: Seq<TreeState>) -> bool {
    &&& frames.len() == keys.len() + 1
    &&& set_of(frames[0].expanded@) == initial_expansion(tree)
    &&& forall|i: int| 0 <= i < keys.len() ==> next_frame(tree, nodes, frames[i], #[trigger] keys[i], frames[i + 1])
}

/// However the keys are pressed, every frame of the picker has at most one
/// project folder open, in a tree whose folders stand apart from its
/// sessions.
pub proof fn law_one_folder_in_every_frame(tree: Tree, nodes: Seq<Node>, keys: Seq<Key>, frames: Seq<TreeState>, i: int)
    requires
        folders_apart(tree),
        picker_frames(tree, nodes, keys, frames),
        0 <= i < frames.len(),
    ensures
        one_folder_open(tree, set_of(frames[i].expanded@)),
    decreases i,
{
    if i == 0 {
        law_starts_with_one_folder(tree);
    } else {
        law_one_folder_in_every_frame(tree, nodes, keys, frames, i - 1);
        let before = frames[i - 1];
        assert(next_frame(tree, nodes, before, keys[i - 1], frames[i]));
        let s = choose|s: TreeState|
            #[trigger] tree_key_spec(
                tree,
                nodes,
                before,
                visible_rows(tree, set_of(before.expanded@)),
                keys[i - 1],
                TreeStep::Stay(s),
            ) && set_of(frames[i].expanded@) == settled_expansion(
                tree,
                set_of(s.expanded@),
                s.selected as int,
                s.selected != before.selected,
            );
        law_keys_keep_one_folder(tree, nodes, before, keys[i - 1], s);
        law_settle_keeps_one_folder(tree, set_of(s.expanded@), s.selected as int, s.selected != before.selected);
    }
}

} // verus!

verus! {

/// The ids of some rows, in order.
pub open spec fn row_ids(rows: Seq<RowView>) -> Seq<Seq<char>> {
    rows.map_values(|r: RowView| r.0)
}

/// `f` picks, in increasing positions of `b`, the items of `a`.
pub open spec fn picks(a: Seq<Seq<char>>, b: Seq<Seq<char>>, f: Seq<int>) -> bool {
    &&& f.len() == a.len()
    &&& forall|i: int| 0 <= i < f.len() ==> 0 <= #[trigger] f[i] < b.len() && a[i] == b[f[i]]
    &&& forall|i: int, j: int| 0 <= i < j < f.len() ==> #[trigger] f[i] < #[trigger] f[j]
}

/// `a` is `b` with some items left out, the rest in the same order.
pub open spec fn subseq_of(a: Seq<Seq<char>>, b: Seq<Seq<char>>) -> bool {
    exists|f: Seq<int>| #[trigger] picks(a, b, f)
}

proof fn lemma_subseq_concat(a1: Seq<Seq<char>>, b1: Seq<Seq<char>>, a2: Seq<Seq<char>>, b2: Seq<Seq<char>>)
    requires
        subseq_of(a1, b1),
        subseq_of(a2, b2),
    ensures
        subseq_of(a1 + a2, b1 + b2),
{
    let f1 = choose|f: Seq<int>| picks(a1, b1, f);
    let f2 = choose|f: Seq<int>| picks(a2, b2, f);
    let n = b1.len() as int;
    let f = f1 + f2.map_values(|x: int| x + n);
    let a = a1 + a2;
    let b = b1 + b2;
    assert forall|i: int| 0 <= i < f.len() implies 0 <= #[trigger] f[i] < b.len() && a[i] == b[f[i]] by {
        if i >= f1.len() {
            assert(f[i] == f2[i - f1.len()] + n);
        }
    }
    assert forall|i: int, j: int| 0 <= i < j < f.len() implies #[trigger] f[i] < #[trigger] f[j] by {
        if j < f1.len() {
        } else if i < f1.len() {
            assert(f[j] == f2[j - f1.len()] + n);
        } else {
            assert(f[i] == f2[i - f1.len()] + n);
            assert(f[j] == f2[j - f1.len()] + n);
        }
    }
    assert(picks(a, b, f));
}

proof fn lemma_subseq_self(a: Seq<Seq<char>>)
    ensures
        subseq_of(a, a),
{
    let f = Seq::new(a.len(), |i: int| i);
    assert(forall|i: int| 0 <= i < f.len() ==> #[trigger] f[i] == i);
    assert(picks(a, a, f));
}

proof fn lemma_subseq_empty(b: Seq<Seq<char>>)
    ensures
        subseq_of(Seq::empty(), b),
{
    let f = Seq::<int>::empty();
    assert(picks(Seq::empty(), b, f));
}

proof fn lemma_walk_grow(
    t: Tree,
    e1: Set<Seq<char>>,
    e2: Set<Seq<char>>,
    id: Seq<char>,
    depth: int,
    is_last: bool,
    anc: Seq<bool>,
    fuel: nat,
)
    requires
        e1.subset_of(e2),
    ensures
        subseq_of(
            row_ids(walk(t, e1, id, depth, is_last, anc, fuel)),
            row_ids(walk(t, e2, id, depth, is_last, anc, fuel)),
        ),
    decreases fuel, 0int,
{
    let row = (id, depth, is_last, anc, depth == 0 && is_folder(id));
    let kids = t.child_list(id);
    let head = row_ids(seq![row]);
    lemma_subseq_self(head);
    if e1.contains(id) && fuel > 0 {
        let k1 = walk_kids(t, e1, kids, 0, depth + 1, anc.push(is_last), (fuel - 1) as nat);
        let k2 = walk_kids(t, e2, kids, 0, depth + 1, anc.push(is_last), (fuel - 1) as nat);
        lemma_walk_kids_grow(t, e1, e2, kids, 0, depth + 1, anc.push(is_last), (fuel - 1) as nat);
        lemma_subseq_concat(head, head, row_ids(k1), row_ids(k2));
        assert(row_ids(seq![row] + k1) =~= head + row_ids(k1));
        assert(row_ids(seq![row] + k2) =~= head + row_ids(k2));
    } else if e2.contains(id) && fuel > 0 {
        let k2 = walk_kids(t, e2, kids, 0, depth + 1, anc.push(is_last), (fuel - 1) as nat);
        lemma_subseq_empty(row_ids(k2));
        lemma_subseq_concat(head, head, Seq::empty(), row_ids(k2));
        assert(head + Seq::<Seq<char>>::empty() =~= head);
        assert(row_ids(seq![row] + k2) =~= head + row_ids(k2));
    }
}

proof fn lemma_walk_kids_grow(
    t: Tree,
    e1: Set<Seq<char>>,
    e2: Set<Seq<char>>,
    kids: Seq<Seq<char>>,
    from: int,
    depth: int,
    anc: Seq<bool>,
    fuel: nat,
)
    requires
        e1.subset_of(e2),
    ensures
        subseq_of(
            row_ids(walk_kids(t, e1, kids, from, depth, anc, fuel)),
            row_ids(walk_kids(t, e2, kids, from, depth, anc, fuel)),
        ),
    decreases fuel, kids.len() - from + 1,
{
    if 0 <= from < kids.len() {
        let last = from + 1 == kids.len();
        let w1 = walk(t, e1, kids[from], depth, last, anc, fuel);
        let w2 = walk(t, e2, kids[from], depth, last, anc, fuel);
        let r1 = walk_kids(t, e1, kids, from + 1, depth, anc, fuel);
        let r2 = walk_kids(t, e2, kids, from + 1, depth, anc, fuel);
        lemma_walk_grow(t, e1, e2, kids[from], depth, last, anc, fuel);
        lemma_walk_kids_grow(t, e1, e2, kids, from + 1, depth, anc, fuel);
        lemma_subseq_concat(row_ids(w1), row_ids(w2), row_ids(r1), row_ids(r2));
        assert(row_ids(w1 + r1) =~= row_ids(w1) + row_ids(r1));
        assert(row_ids(w2 + r2) =~= row_ids(w2) + row_ids(r2));
    } else {
        lemma_subseq_empty(Seq::empty());
        assert(row_ids(Seq::<RowView>::empty()) =~= Seq::<Seq<char>>::empty());
    }
}

/// Opening more rows only adds rows: the rows shown for fewer open ids are
/// the rows shown for more, some left out, in the same order.
pub proof fn law_visible_rows_grow(tree: Tree, e1: Set<Seq<char>>, e2: Set<Seq<char>>)
    requires
        e1.subset_of(e2),
    ensures
        subseq_of(row_ids(visible_rows(tree, e1)), row_ids(visible_rows(tree, e2))),
{
    lemma_walk_kids_grow(tree, e1, e2, views(tree.roots@), 0, 0, seq![], crate::tree::fuel_bound(tree));
}

proof fn lemma_closed_kids(t: Tree, kids: Seq<Seq<char>>, from: int, fuel: nat)
    requires
        0 <= from <= kids.len(),
    ensures
        row_ids(walk_kids(t, Set::empty(), kids, from, 0, seq![], fuel)) =~= kids.skip(from),
        forall|i: int|
            0 <= i < walk_kids(t, Set::empty(), kids, from, 0, seq![], fuel).len() ==> (#[trigger] walk_kids(
                t,
                Set::empty(),
                kids,
                from,
                0,
                seq![],
                fuel,
            )[i]).1 == 0,
    decreases kids.len() - from,
{
    if from < kids.len() {
        lemma_closed_kids(t, kids, from + 1, fuel);
        let w = walk(t, Set::empty(), kids[from], 0, from + 1 == kids.len(), seq![], fuel);
        let r = walk_kids(t, Set::empty(), kids, from + 1, 0, seq![], fuel);
        assert(row_ids(w + r) =~= row_ids(w) + row_ids(r));
        assert(kids.skip(from) =~= seq![kids[from]] + kids.skip(from + 1));
        assert(w + r == walk_kids(t, Set::empty(), kids, from, 0, seq![], fuel));
    } else {
        assert(row_ids(Seq::<RowView>::empty()) =~= Seq::<Seq<char>>::empty());
    }
}

/// With nothing open, the picker shows exactly its project folders, in
/// order, all at the top level.
pub proof fn law_nothing_open_shows_folders(tree: Tree)
    ensures
        row_ids(visible_rows(tree, Set::empty())) == views(tree.roots@),
        forall|i: int|
            0 <= i < visible_rows(tree, Set::empty()).len() ==> (#[trigger] visible_rows(tree, Set::empty())[i]).1
                == 0,
{
    lemma_closed_kids(tree, views(tree.roots@), 0, crate::tree::fuel_bound(tree));
    assert(views(tree.roots@).skip(0) =~= views(tree.roots@));
}

} // verus!

verus! {

proof fn lemma_kids_are_ids(nodes: Seq<Node>, k: Seq<char>, i: int)
    requires
        0 <= i <= nodes.len(),
    ensures
        forall|j: int| 0 <= j < kids_upto(nodes, k, i).len() ==> is_node_id(nodes, #[trigger] kids_upto(nodes, k, i)[j]),
    decreases i,
{
    if i > 0 {
        lemma_kids_are_ids(nodes, k, i - 1);
        let r = kids_upto(nodes, k, i);
        let rest = kids_upto(nodes, k, i - 1);
        assert forall|j: int| 0 <= j < r.len() implies is_node_id(nodes, #[trigger] r[j]) by {
            if j < rest.len() {
                assert(r[j] == rest[j]);
            } else {
                assert(nodes[i - 1].id@ == r[j]);
            }
        }
    }
}

proof fn lemma_members_are_ids(nodes: Seq<Node>, p: Seq<char>, i: int)
    requires
        0 <= i <= session_roots(nodes).len(),
    ensures
        forall|j: int|
            0 <= j < members_upto(nodes, session_roots(nodes), p, i).len() ==> is_node_id(
                nodes,
                #[trigger] members_upto(nodes, session_roots(nodes), p, i)[j],
            ),
    decreases i,
{
    if i > 0 {
        lemma_members_are_ids(nodes, p, i - 1);
        lemma_roots_are_ids(nodes, nodes.len() as int);
        let r = members_upto(nodes, session_roots(nodes), p, i);
        let rest = members_upto(nodes, session_roots(nodes), p, i - 1);
        assert forall|j: int| 0 <= j < r.len() implies is_node_id(nodes, #[trigger] r[j]) by {
            if j < rest.len() {
                assert(r[j] == rest[j]);
            } else {
                assert(session_roots(nodes)[i - 1] == r[j]);
            }
        }
    }
}

proof fn lemma_folder_form(p: Seq<char>)
    ensures
        is_folder(folder_of(p)),
{
    assert(folder_of(p).take(folder_prefix().len() as int) =~= folder_prefix());
}

/// Every id listed under a row of a built tree is the id of a session.
proof fn lemma_children_are_ids(nodes: Seq<Node>, t: Tree, x: Seq<char>)
    requires
        tree_of(nodes, t),
        is_child_id(t, x),
    ensures
        is_node_id(nodes, x),
{
    let (p, i) = choose|p: Seq<char>, i: int| 0 <= i < t.child_list(p).len() && #[trigger] t.child_list(p)[i] == x;
    let key = if has_key(t.id_to_path@, p) {
        value_at(t.id_to_path@, p)@
    } else {
        p
    };
    assert(has_key(t.children@, key));
    let j = choose|j: int| 0 <= j < t.children@.len() && #[trigger] t.children@[j].0@ == key;
    lemma_value_at(t.children@, j);
    let v = views(value_at(t.children@, key)@);
    assert(v[i] == x);
    if parent_key(nodes, key) {
        assert(v == kids(nodes, key));
        lemma_kids_are_ids(nodes, key, nodes.len() as int);
    } else {
        let q = choose|q: int| 0 <= q < projects(nodes).len() && t.children@[j].0@ == #[trigger] folder_of(
            projects(nodes)[q],
        );
        let pr = projects(nodes)[q];
        assert(crate::tree::sorted_members(nodes, pr, v));
        let o = choose|o: Seq<usize>|
            crate::order::is_stable_desc_order(crate::tree::member_keys(nodes, pr), o) && v == o.map_values(
                |u: usize| members(nodes, pr)[u as int],
            );
        assert(v[i] == members(nodes, pr)[o[i] as int]);
        lemma_members_are_ids(nodes, pr, session_roots(nodes).len() as int);
        assert(members(nodes, pr)[o[i] as int] == x);
    }
}

/// A tree built from sessions none of whose ids has the folder form keeps
/// its folders apart from its sessions.
pub proof fn law_built_trees_keep_folders_apart(nodes: Seq<Node>, t: Tree)
    requires
        tree_of(nodes, t),
        forall|m: int| 0 <= m < nodes.len() ==> !is_folder(#[trigger] nodes[m].id@),
    ensures
        folders_apart(t),
{
    let order = choose|order: Seq<usize>|
        crate::order::is_stable_desc_order(crate::tree::project_keys(nodes), order) && views(t.roots@)
            == order.map_values(|i: usize| folder_of(projects(nodes)[i as int]));
    assert forall|i: int| 0 <= i < t.roots@.len() implies is_folder(#[trigger] t.roots@[i]@) by {
        let f = order.map_values(|u: usize| folder_of(projects(nodes)[u as int]));
        assert(views(t.roots@).len() == t.roots@.len());
        assert(views(t.roots@)[i] == t.roots@[i]@);
        assert(f.len() == order.len());
        assert(f[i] == folder_of(projects(nodes)[order[i] as int]));
        lemma_folder_form(projects(nodes)[order[i] as int]);
    }
    assert forall|x: Seq<char>| is_child_id(t, x) implies !set_of(t.roots@).contains(x) by {
        lemma_children_are_ids(nodes, t, x);
        let m = choose|m: int| 0 <= m < nodes.len() && #[trigger] nodes[m].id@ == x;
        assert(!is_folder(nodes[m].id@));
        if set_of(t.roots@).contains(x) {
            let i = choose|i: int| 0 <= i < t.roots@.len() && #[trigger] t.roots@[i]@ == x;
            assert(is_folder(t.roots@[i]@));
        }
    }
}

} // verus!

verus! {

/// Sessions a tree can be built from without loops: distinct ids, distinct
/// normalized paths, and neither an id nor a path of folder form.
pub open spec fn sessions_well_named(nodes: Seq<Node>) -> bool {
    &&& forall|a: int, b: int| 0 <= a < b < nodes.len() ==> nodes[a].id@ != nodes[b].id@
    &&& forall|a: int, b: int|
        0 <= a < b < nodes.len() ==> crate::tree::npath(nodes[a]) != crate::tree::npath(nodes[b])
    &&& forall|m: int| 0 <= m < nodes.len() ==> !is_folder(#[trigger] nodes[m].id@)
    &&& forall|m: int| 0 <= m < nodes.len() ==> !is_folder(crate::tree::npath(#[trigger] nodes[m]))
}

proof fn lemma_index_of_id(nodes: Seq<Node>, m: int)
    requires
        sessions_well_named(nodes),
        0 <= m < nodes.len(),
    ensures
        last_of_id(nodes, nodes[m].id@) == m,
{
    lemma_last_of_id(nodes, nodes[m].id@);
    let li = last_of_id(nodes, nodes[m].id@);
    if li < m {
        assert(nodes[m].id@ == nodes[m].id@);
    }
    if li > m {
        assert(nodes[li].id@ == nodes[m].id@);
    }
}

proof fn lemma_pigeonhole(js: Seq<int>, n: int)
    requires
        js.no_duplicates(),
        n >= 0,
        forall|i: int| 0 <= i < js.len() ==> 0 <= #[trigger] js[i] < n,
    ensures
        js.len() <= n,
{
    js.unique_seq_to_set();
    vstd::set_lib::lemma_int_range(0, n);
    assert(js.to_set().subset_of(vstd::set_lib::set_int_range(0, n))) by {
        assert forall|x: int| js.to_set().contains(x) implies vstd::set_lib::set_int_range(0, n).contains(x) by {
            let i = choose|i: int| 0 <= i < js.len() && js[i] == x;
            assert(0 <= js[i] < n);
        }
    }
    vstd::set_lib::lemma_len_subset(js.to_set(), vstd::set_lib::set_int_range(0, n));
}

/// `x` is the id of a session that roots a tree of sessions.
pub open spec fn root_session_id(nodes: Seq<Node>, x: Seq<char>) -> bool {
    exists|m: int| 0 <= m < nodes.len() && crate::tree::is_session_root(nodes, m) && #[trigger] nodes[m].id@ == x
}

proof fn lemma_roots_are_session_roots(nodes: Seq<Node>, i: int)
    requires
        0 <= i <= nodes.len(),
    ensures
        forall|k: int|
            0 <= k < crate::tree::roots_upto(nodes, i).len() ==> root_session_id(
                nodes,
                #[trigger] crate::tree::roots_upto(nodes, i)[k],
            ),
    decreases i,
{
    if i > 0 {
        lemma_roots_are_session_roots(nodes, i - 1);
        let r = crate::tree::roots_upto(nodes, i);
        let rest = crate::tree::roots_upto(nodes, i - 1);
        assert forall|k: int| 0 <= k < r.len() implies root_session_id(nodes, #[trigger] r[k]) by {
            if k < rest.len() {
                assert(r[k] == rest[k]);
            } else {
                assert(crate::tree::is_session_root(nodes, i - 1));
                assert(nodes[i - 1].id@ == r[k]);
            }
        }
    }
}

proof fn lemma_members_are_session_roots(nodes: Seq<Node>, p: Seq<char>, i: int)
    requires
        0 <= i <= session_roots(nodes).len(),
    ensures
        forall|j: int|
            0 <= j < members_upto(nodes, session_roots(nodes), p, i).len() ==> exists|k: int|
                0 <= k < session_roots(nodes).len() && session_roots(nodes)[k]
                    == #[trigger] members_upto(nodes, session_roots(nodes), p, i)[j],
    decreases i,
{
    if i > 0 {
        lemma_members_are_session_roots(nodes, p, i - 1);
        let r = members_upto(nodes, session_roots(nodes), p, i);
        let rest = members_upto(nodes, session_roots(nodes), p, i - 1);
        assert forall|j: int| 0 <= j < r.len() implies exists|k: int|
            0 <= k < session_roots(nodes).len() && session_roots(nodes)[k] == #[trigger] r[j] by {
            if j < rest.len() {
                assert(r[j] == rest[j]);
            } else {
                assert(session_roots(nodes)[i - 1] == r[j]);
            }
        }
    }
}

proof fn lemma_kids_have_parent(nodes: Seq<Node>, k: Seq<char>, i: int)
    requires
        0 <= i <= nodes.len(),
    ensures
        forall|j: int|
            0 <= j < kids_upto(nodes, k, i).len() ==> exists|m: int|
                0 <= m < nodes.len() && nodes[m].id@ == #[trigger] kids_upto(nodes, k, i)[j] && has_parent(nodes[m])
                    && crate::tree::npar(nodes[m]) == k && !crate::tree::removed(nodes, k, nodes[m].id@),
    decreases i,
{
    if i > 0 {
        lemma_kids_have_parent(nodes, k, i - 1);
        let r = kids_upto(nodes, k, i);
        let rest = kids_upto(nodes, k, i - 1);
        assert forall|j: int| 0 <= j < r.len() implies exists|m: int|
            0 <= m < nodes.len() && nodes[m].id@ == #[trigger] r[j] && has_parent(nodes[m]) && crate::tree::npar(
                nodes[m],
            ) == k && !crate::tree::removed(nodes, k, nodes[m].id@) by {
            if j < rest.len() {
                assert(r[j] == rest[j]);
            } else {
                assert(nodes[i - 1].id@ == r[j]);
            }
        }
    }
}

} // verus!

verus! {

/// `x` is the id of a session whose parent is the session at `m`, and which
/// does not name itself as its parent.
pub open spec fn child_session(nodes: Seq<Node>, x: Seq<char>, m: int) -> bool {
    exists|c: int|
        0 <= c < nodes.len() && #[trigger] nodes[c].id@ == x && has_parent(nodes[c]) && crate::tree::npar(nodes[c])
            == crate::tree::npath(nodes[m]) && !crate::tree::self_looped(nodes[c])
}

proof fn lemma_session_kids(nodes: Seq<Node>, t: Tree, m: int, i: int)
    requires
        tree_of(nodes, t),
        sessions_well_named(nodes),
        0 <= m < nodes.len(),
        0 <= i < t.child_list(nodes[m].id@).len(),
    ensures
        child_session(nodes, t.child_list(nodes[m].id@)[i], m),
        has_key(t.children@, crate::tree::npath(nodes[m])),
{
    let id = nodes[m].id@;
    let x = t.child_list(id)[i];
    assert(has_key(t.id_to_path@, id));
    let j0 = choose|j: int| 0 <= j < t.id_to_path@.len() && #[trigger] t.id_to_path@[j].0@ == id;
    lemma_value_at(t.id_to_path@, j0);
    lemma_index_of_id(nodes, m);
    let key = crate::tree::npath(nodes[m]);
    assert(value_at(t.id_to_path@, id)@ == key);
    assert(has_key(t.children@, key));
    let j = choose|j: int| 0 <= j < t.children@.len() && #[trigger] t.children@[j].0@ == key;
    lemma_value_at(t.children@, j);
    if !parent_key(nodes, key) {
        let q = choose|q: int| 0 <= q < projects(nodes).len() && t.children@[j].0@ == #[trigger] folder_of(
            projects(nodes)[q],
        );
        lemma_folder_form(projects(nodes)[q]);
        assert(false);
    }
    assert(views(value_at(t.children@, key)@) == kids(nodes, key));
    lemma_kids_have_parent(nodes, key, nodes.len() as int);
    assert(kids(nodes, key)[i] == x);
    let c = choose|c: int|
        0 <= c < nodes.len() && nodes[c].id@ == kids_upto(nodes, key, nodes.len() as int)[i] && has_parent(nodes[c])
            && crate::tree::npar(nodes[c]) == key && !crate::tree::removed(nodes, key, nodes[c].id@);
    if crate::tree::self_looped(nodes[c]) {
        assert(crate::tree::removed(nodes, key, nodes[c].id@));
    }
}

proof fn lemma_folder_kids(nodes: Seq<Node>, t: Tree, f: Seq<char>, i: int)
    requires
        tree_of(nodes, t),
        sessions_well_named(nodes),
        is_folder(f),
        0 <= i < t.child_list(f).len(),
    ensures
        root_session_id(nodes, t.child_list(f)[i]),
{
    let x = t.child_list(f)[i];
    if has_key(t.id_to_path@, f) {
        let j0 = choose|j: int| 0 <= j < t.id_to_path@.len() && #[trigger] t.id_to_path@[j].0@ == f;
        lemma_last_of_id(nodes, f);
        let li = last_of_id(nodes, f);
        assert(nodes[li].id@ == f);
        assert(false);
    }
    assert(has_key(t.children@, f));
    let j = choose|j: int| 0 <= j < t.children@.len() && #[trigger] t.children@[j].0@ == f;
    lemma_value_at(t.children@, j);
    let v = views(value_at(t.children@, f)@);
    assert(v[i] == x);
    if parent_key(nodes, f) {
        assert(v == kids(nodes, f));
        lemma_kids_have_parent(nodes, f, nodes.len() as int);
        assert(kids(nodes, f)[i] == x);
        let c = choose|c: int|
            0 <= c < nodes.len() && nodes[c].id@ == kids_upto(nodes, f, nodes.len() as int)[i] && has_parent(nodes[c])
                && crate::tree::npar(nodes[c]) == f && !crate::tree::removed(nodes, f, nodes[c].id@);
        if crate::tree::known_path(nodes, f) {
            let id = choose|id: Seq<char>| #[trigger] crate::tree::path_of(nodes, id) == Some(f);
            lemma_last_of_id(nodes, id);
            let li = last_of_id(nodes, id);
            assert(crate::tree::npath(nodes[li]) == f);
            assert(false);
        }
        assert(crate::tree::is_session_root(nodes, c));
    } else {
        let q = choose|q: int| 0 <= q < projects(nodes).len() && t.children@[j].0@ == #[trigger] folder_of(
            projects(nodes)[q],
        );
        let pr = projects(nodes)[q];
        assert(crate::tree::sorted_members(nodes, pr, v));
        let o = choose|o: Seq<usize>|
            crate::order::is_stable_desc_order(crate::tree::member_keys(nodes, pr), o) && v == o.map_values(
                |u: usize| members(nodes, pr)[u as int],
            );
        assert(v[i] == members(nodes, pr)[o[i] as int]);
        lemma_members_are_session_roots(nodes, pr, session_roots(nodes).len() as int);
        let y = members(nodes, pr)[o[i] as int];
        let k = choose|k: int| 0 <= k < session_roots(nodes).len() && session_roots(nodes)[k] == y;
        lemma_roots_are_session_roots(nodes, nodes.len() as int);
        assert(root_session_id(nodes, crate::tree::roots_upto(nodes, nodes.len() as int)[k]));
    }
}

} // verus!

verus! {

/// Indices of sessions, each the parent of the next, from a session that
/// roots a tree of sessions.
pub open spec fn chain_ok(nodes: Seq<Node>, ch: Seq<int>) -> bool {
    &&& ch.len() > 0
    &&& forall|k: int| 0 <= k < ch.len() ==> 0 <= #[trigger] ch[k] < nodes.len()
    &&& crate::tree::is_session_root(nodes, ch[0])
    &&& forall|k: int|
        1 <= k < ch.len() ==> has_parent(nodes[#[trigger] ch[k]]) && crate::tree::npar(nodes[ch[k]])
            == crate::tree::npath(nodes[ch[k - 1]]) && !crate::tree::self_looped(nodes[ch[k]])
}

proof fn lemma_chain_shift(nodes: Seq<Node>, ch: Seq<int>, a: int, b: int)
    requires
        sessions_well_named(nodes),
        chain_ok(nodes, ch),
        0 <= a < b < ch.len(),
        ch[a] == ch[b],
    ensures
        ch[0] == ch[b - a],
    decreases a,
{
    if a > 0 {
        assert(crate::tree::npath(nodes[ch[a - 1]]) == crate::tree::npath(nodes[ch[b - 1]]));
        if ch[a - 1] < ch[b - 1] {
            assert(crate::tree::npath(nodes[ch[a - 1]]) != crate::tree::npath(nodes[ch[b - 1]]));
        } else if ch[a - 1] > ch[b - 1] {
            assert(crate::tree::npath(nodes[ch[b - 1]]) != crate::tree::npath(nodes[ch[a - 1]]));
        }
        lemma_chain_shift(nodes, ch, a - 1, b - 1);
    }
}

proof fn lemma_chain_distinct(nodes: Seq<Node>, ch: Seq<int>)
    requires
        sessions_well_named(nodes),
        chain_ok(nodes, ch),
    ensures
        forall|a: int, b: int| 0 <= a < b < ch.len() ==> ch[a] != ch[b],
{
    assert forall|a: int, b: int| 0 <= a < b < ch.len() implies ch[a] != ch[b] by {
        if ch[a] == ch[b] {
            lemma_chain_shift(nodes, ch, a, b);
            let d = b - a;
            let pm = ch[d - 1];
            let pid = nodes[pm].id@;
            lemma_index_of_id(nodes, pm);
            assert(crate::tree::path_of(nodes, pid) == Some(crate::tree::npar(nodes[ch[d]])));
            assert(crate::tree::known_path(nodes, crate::tree::npar(nodes[ch[d]])));
            assert(has_parent(nodes[ch[d]]));
        }
    }
}

proof fn lemma_chain_fits(nodes: Seq<Node>, t: Tree, ch: Seq<int>)
    requires
        tree_of(nodes, t),
        sessions_well_named(nodes),
        chain_ok(nodes, ch),
        has_key(t.children@, crate::tree::npath(nodes[ch.last()])),
    ensures
        ch.len() <= t.children.len(),
{
    lemma_chain_distinct(nodes, ch);
    assert forall|k: int| 0 <= k < ch.len() implies has_key(t.children@, crate::tree::npath(nodes[#[trigger] ch[k]])) by {
        if k < ch.len() - 1 {
            let m = ch[k + 1];
            assert(has_parent(nodes[m]) && crate::tree::npar(nodes[m]) == crate::tree::npath(nodes[ch[k]]));
            assert(parent_key(nodes, crate::tree::npath(nodes[ch[k]])));
        }
    }
    let js = Seq::new(
        ch.len(),
        |k: int| choose|j: int| 0 <= j < t.children@.len() && #[trigger] t.children@[j].0@ == crate::tree::npath(nodes[ch[k]]),
    );
    assert forall|k: int| 0 <= k < js.len() implies 0 <= #[trigger] js[k] < t.children@.len()
        && t.children@[js[k]].0@ == crate::tree::npath(nodes[ch[k]]) by {
        assert(has_key(t.children@, crate::tree::npath(nodes[ch[k]])));
    }
    assert forall|a: int, b: int| 0 <= a < js.len() && 0 <= b < js.len() && a != b implies js[a] != js[b] by {
        assert(0 <= js[a] < t.children@.len() && t.children@[js[a]].0@ == crate::tree::npath(nodes[ch[a]]));
        assert(0 <= js[b] < t.children@.len() && t.children@[js[b]].0@ == crate::tree::npath(nodes[ch[b]]));
        if a < b {
            assert(ch[a] != ch[b]);
        } else {
            assert(ch[b] != ch[a]);
        }
        if ch[a] < ch[b] {
            assert(crate::tree::npath(nodes[ch[a]]) != crate::tree::npath(nodes[ch[b]]));
        } else {
            assert(crate::tree::npath(nodes[ch[b]]) != crate::tree::npath(nodes[ch[a]]));
        }
    }
    assert(js.no_duplicates());
    lemma_pigeonhole(js, t.children@.len() as int);
}

proof fn lemma_walk_session_ok(nodes: Seq<Node>, t: Tree, exp: Set<Seq<char>>, ch: Seq<int>, fuel: nat)
    requires
        tree_of(nodes, t),
        sessions_well_named(nodes),
        chain_ok(nodes, ch),
        fuel + ch.len() == t.children.len() + 1,
    ensures
        walk_ok(t, exp, nodes[ch.last()].id@, fuel),
    decreases fuel, 0int,
{
    let x = ch.last();
    let id = nodes[x].id@;
    if exp.contains(id) && t.child_list(id).len() > 0 {
        lemma_session_kids(nodes, t, x, 0);
        lemma_chain_fits(nodes, t, ch);
        lemma_kids_session_ok(nodes, t, exp, ch, 0, (fuel - 1) as nat);
    }
}

proof fn lemma_kids_session_ok(nodes: Seq<Node>, t: Tree, exp: Set<Seq<char>>, ch: Seq<int>, from: int, fuel: nat)
    requires
        tree_of(nodes, t),
        sessions_well_named(nodes),
        chain_ok(nodes, ch),
        fuel + ch.len() + 1 == t.children.len() + 1,
        0 <= from,
    ensures
        kids_ok(t, exp, t.child_list(nodes[ch.last()].id@), from, fuel),
    decreases fuel, t.child_list(nodes[ch.last()].id@).len() - from + 1,
{
    let x = ch.last();
    let kids = t.child_list(nodes[x].id@);
    if from < kids.len() {
        lemma_session_kids(nodes, t, x, from);
        let c = choose|c: int|
            0 <= c < nodes.len() && #[trigger] nodes[c].id@ == kids[from] && has_parent(nodes[c])
                && crate::tree::npar(nodes[c]) == crate::tree::npath(nodes[x]) && !crate::tree::self_looped(nodes[c]);
        let ch2 = ch.push(c);
        assert(ch2[ch2.len() - 1] == c);
        assert(ch2[ch2.len() - 2] == x);
        assert forall|k: int| 0 <= k < ch2.len() implies 0 <= #[trigger] ch2[k] < nodes.len() by {
            if k < ch.len() {
                assert(ch2[k] == ch[k]);
            }
        }
        assert forall|k: int| 1 <= k < ch2.len() implies has_parent(nodes[#[trigger] ch2[k]]) && crate::tree::npar(
            nodes[ch2[k]],
        ) == crate::tree::npath(nodes[ch2[k - 1]]) && !crate::tree::self_looped(nodes[ch2[k]]) by {
            if k < ch.len() {
                assert(ch2[k] == ch[k]);
                assert(ch2[k - 1] == ch[k - 1]);
            }
        }
        assert(ch2[0] == ch[0]);
        assert(chain_ok(nodes, ch2));
        lemma_walk_session_ok(nodes, t, exp, ch2, fuel);
        assert(nodes[ch2.last()].id@ == kids[from]);
        lemma_kids_session_ok(nodes, t, exp, ch, from + 1, fuel);
    }
}

} // verus!

verus! {

proof fn lemma_folder_kids_ok(nodes: Seq<Node>, t: Tree, exp: Set<Seq<char>>, f: Seq<char>, from: int, fuel: nat)
    requires
        tree_of(nodes, t),
        sessions_well_named(nodes),
        is_folder(f),
        fuel == t.children.len(),
        0 <= from,
    ensures
        kids_ok(t, exp, t.child_list(f), from, fuel),
    decreases t.child_list(f).len() - from,
{
    let kids = t.child_list(f);
    if from < kids.len() {
        lemma_folder_kids(nodes, t, f, from);
        let m = choose|m: int|
            0 <= m < nodes.len() && crate::tree::is_session_root(nodes, m) && #[trigger] nodes[m].id@ == kids[from];
        let ch = seq![m];
        assert(chain_ok(nodes, ch));
        lemma_walk_session_ok(nodes, t, exp, ch, fuel);
        lemma_folder_kids_ok(nodes, t, exp, f, from + 1, fuel);
    }
}

proof fn lemma_roots_ok(nodes: Seq<Node>, t: Tree, exp: Set<Seq<char>>, from: int)
    requires
        tree_of(nodes, t),
        sessions_well_named(nodes),
        forall|i: int| 0 <= i < t.roots@.len() ==> is_folder(#[trigger] t.roots@[i]@),
        0 <= from,
    ensures
        kids_ok(t, exp, views(t.roots@), from, (t.children.len() + 1) as nat),
    decreases t.roots@.len() - from,
{
    let kv = views(t.roots@);
    if from < kv.len() {
        let f = kv[from];
        assert(f == t.roots@[from]@);
        let fuel = (t.children.len() + 1) as nat;
        if exp.contains(f) && t.child_list(f).len() > 0 {
            lemma_folder_kids_ok(nodes, t, exp, f, 0, t.children.len() as nat);
            assert((fuel - 1) as nat == t.children.len() as nat);
        }
        assert(walk_ok(t, exp, f, fuel));
        lemma_roots_ok(nodes, t, exp, from + 1);
        assert(kids_ok(t, exp, kv, from + 1, fuel));
    }
}

/// A tree built from well-named sessions never loops: whatever rows are
/// open, its visible rows are finite, so `build_visible` gives them (within
/// the machine's limit on the number of child lists).
pub proof fn law_built_trees_never_loop(nodes: Seq<Node>, t: Tree, exp: Set<Seq<char>>)
    requires
        tree_of(nodes, t),
        sessions_well_named(nodes),
        t.children.len() < usize::MAX - 1,
    ensures
        expansion_finite(t, exp),
{
    law_built_trees_keep_folders_apart(nodes, t);
    lemma_roots_ok(nodes, t, exp, 0);
}

/// In a picker over a tree built from well-named sessions, every frame has
/// at most one project folder open, however the keys are pressed.
pub proof fn law_built_picker_one_folder(
    nodes: Seq<Node>,
    tree: Tree,
    keys: Seq<Key>,
    frames: Seq<TreeState>,
    i: int,
)
    requires
        tree_of(nodes, tree),
        forall|m: int| 0 <= m < nodes.len() ==> !is_folder(#[trigger] nodes[m].id@),
        picker_frames(tree, nodes, keys, frames),
        0 <= i < frames.len(),
    ensures
        one_folder_open(tree, set_of(frames[i].expanded@)),
{
    law_built_trees_keep_folders_apart(nodes, tree);
    law_one_folder_in_every_frame(tree, nodes, keys, frames, i);
}

/// Over a tree built from well-named sessions, the rows shown grow with the
/// open set, and with nothing open they are the project folders; both
/// lists are always produced.
pub proof fn law_built_rows_grow(nodes: Seq<Node>, t: Tree, e1: Set<Seq<char>>, e2: Set<Seq<char>>)
    requires
        tree_of(nodes, t),
        sessions_well_named(nodes),
        t.children.len() < usize::MAX - 1,
        e1.subset_of(e2),
    ensures
        expansion_finite(t, e1),
        expansion_finite(t, e2),
        subseq_of(row_ids(visible_rows(t, e1)), row_ids(visible_rows(t, e2))),
        expansion_finite(t, Set::empty()),
        row_ids(visible_rows(t, Set::empty())) == views(t.roots@),
{
    law_built_trees_never_loop(nodes, t, e1);
    law_built_trees_never_loop(nodes, t, e2);
    law_built_trees_never_loop(nodes, t, Set::empty());
    law_visible_rows_grow(t, e1, e2);
    law_nothing_open_shows_folders(t);
}

} // verus!

verus! {

/// Session `a` is more recent than session `b`: a later date, or the same
/// date and a later time.
pub open spec fn more_recent(a: Node, b: Node) -> bool {
    crate::order::lex_lt(b.date@, a.date@) || (a.date@ == b.date@ && crate::order::lex_lt(b.time@, a.time@))
}

proof fn lemma_lex_asymmetric(a: Seq<char>, b: Seq<char>)
    requires
        crate::order::lex_lt(a, b),
    ensures
        !crate::order::lex_lt(b, a),
        a != b,
{
    crate::order::lemma_lex_irreflexive(a);
    if crate::order::lex_lt(b, a) {
        crate::order::lemma_lex_transitive(a, b, a);
    }
}

/// Under each project folder of a built tree, the sessions are listed most
/// recent first: no session is more recent than one listed before it.
/// (Where some session names the folder's own id as its parent path, or has
/// a folder's id, the folder lists other rows, and this says nothing.)
pub proof fn law_folder_sessions_newest_first(nodes: Seq<Node>, t: Tree, q: int, i: int, j: int)
    requires
        tree_of(nodes, t),
        forall|m: int| 0 <= m < nodes.len() ==> !is_folder(#[trigger] nodes[m].id@),
        0 <= q < projects(nodes).len(),
        !parent_key(nodes, folder_of(projects(nodes)[q])),
        0 <= i < j < t.child_list(folder_of(projects(nodes)[q])).len(),
    ensures
        !more_recent(
            node_of(nodes, t.child_list(folder_of(projects(nodes)[q]))[j]),
            node_of(nodes, t.child_list(folder_of(projects(nodes)[q]))[i]),
        ),
{
    let pr = projects(nodes)[q];
    let f = folder_of(pr);
    if has_key(t.id_to_path@, f) {
        let j0 = choose|j: int| 0 <= j < t.id_to_path@.len() && #[trigger] t.id_to_path@[j].0@ == f;
        lemma_last_of_id(nodes, f);
        let li = last_of_id(nodes, f);
        assert(nodes[li].id@ == f);
        lemma_folder_form(pr);
        assert(false);
    }
    assert(has_key(t.children@, f));
    let v = views(value_at(t.children@, f)@);
    assert(v == t.child_list(f));
    assert(crate::tree::sorted_members(nodes, pr, v));
    let o = choose|o: Seq<usize>|
        crate::order::is_stable_desc_order(crate::tree::member_keys(nodes, pr), o) && v == o.map_values(
            |u: usize| members(nodes, pr)[u as int],
        );
    let keys = crate::tree::member_keys(nodes, pr);
    assert(crate::order::goes_before(keys, o[i] as int, o[j] as int));
    let ni = node_of(nodes, members(nodes, pr)[o[i] as int]);
    let nj = node_of(nodes, members(nodes, pr)[o[j] as int]);
    assert(v[i] == members(nodes, pr)[o[i] as int]);
    assert(v[j] == members(nodes, pr)[o[j] as int]);
    assert(keys[o[i] as int] == (ni.date@, ni.time@));
    assert(keys[o[j] as int] == (nj.date@, nj.time@));
    crate::order::lemma_lex_irreflexive(ni.date@);
    crate::order::lemma_lex_irreflexive(ni.time@);
    if crate::order::lex_lt(nj.date@, ni.date@) {
        lemma_lex_asymmetric(nj.date@, ni.date@);
    }
    if crate::order::lex_lt(nj.time@, ni.time@) {
        lemma_lex_asymmetric(nj.time@, ni.time@);
    }
}

} // verus!

verus! {

/// In the tree picker the down key moves the cursor exactly one row down,
/// and on the last row leaves it there; it never opens or closes a row.
pub proof fn law_down_moves_one_row(
    tree: Tree,
    nodes: Seq<Node>,
    state: TreeState,
    rows: Seq<RowView>,
    ctrl: bool,
    alt: bool,
    step: TreeStep,
)
    requires
        tree_key_spec(tree, nodes, state, rows, Key { code: KeyCode::Down, ctrl, alt }, step),
    ensures
        step is Stay,
        step->Stay_0.expanded@ == state.expanded@,
        state.selected + 1 < rows.len() ==> step->Stay_0.selected == state.selected + 1,
        state.selected + 1 >= rows.len() ==> step->Stay_0.selected == state.selected,
{
}

/// In the tree picker the up key moves the cursor exactly one row up, and
/// on the first row leaves it there; it never opens or closes a row.
pub proof fn law_up_moves_one_row(
    tree: Tree,
    nodes: Seq<Node>,
    state: TreeState,
    rows: Seq<RowView>,
    ctrl: bool,
    alt: bool,
    step: TreeStep,
)
    requires
        tree_key_spec(tree, nodes, state, rows, Key { code: KeyCode::Up, ctrl, alt }, step),
    ensures
        step is Stay,
        step->Stay_0.expanded@ == state.expanded@,
        state.selected > 0 ==> step->Stay_0.selected + 1 == state.selected,
        state.selected == 0 ==> step->Stay_0.selected == 0,
{
}

/// Down then up, away from the last row, puts the cursor back where it was.
pub proof fn law_down_then_up(
    tree: Tree,
    nodes: Seq<Node>,
    state: TreeState,
    rows: Seq<RowView>,
    s1: TreeState,
    s2: TreeState,
    ctrl: bool,
    alt: bool,
)
    requires
        state.selected + 1 < rows.len(),
        tree_key_spec(tree, nodes, state, rows, Key { code: KeyCode::Down, ctrl, alt }, TreeStep::Stay(s1)),
        tree_key_spec(tree, nodes, s1, rows, Key { code: KeyCode::Up, ctrl, alt }, TreeStep::Stay(s2)),
    ensures
        s2.selected == state.selected,
        s2.expanded@ == state.expanded@,
{
}

} // verus!

verus! {

/// The project folders of a built tree come most recently active first: a
/// folder listed later never has a later latest stamp than one before it.
pub proof fn law_folders_by_latest_activity(nodes: Seq<Node>, t: Tree, i: int, j: int)
    requires
        tree_of(nodes, t),
        0 <= i < j < t.roots@.len(),
    ensures
        exists|pi: Seq<char>, pj: Seq<char>|
            #![trigger folder_of(pi), folder_of(pj)]
            t.roots@[i]@ == folder_of(pi) && t.roots@[j]@ == folder_of(pj) && !crate::order::lex_lt(
                crate::tree::latest(nodes, pi),
                crate::tree::latest(nodes, pj),
            ),
{
    let order = choose|order: Seq<usize>|
        crate::order::is_stable_desc_order(crate::tree::project_keys(nodes), order) && views(t.roots@)
            == order.map_values(|u: usize| folder_of(projects(nodes)[u as int]));
    let keys = crate::tree::project_keys(nodes);
    assert(views(t.roots@)[i] == t.roots@[i]@);
    assert(views(t.roots@)[j] == t.roots@[j]@);
    let pi = projects(nodes)[order[i] as int];
    let pj = projects(nodes)[order[j] as int];
    let f = order.map_values(|u: usize| folder_of(projects(nodes)[u as int]));
    assert(views(t.roots@).len() == t.roots@.len());
    assert(f.len() == order.len());
    assert(f[i] == folder_of(pi));
    assert(f[j] == folder_of(pj));
    assert(t.roots@[i]@ == folder_of(pi));
    assert(t.roots@[j]@ == folder_of(pj));
    assert(crate::order::goes_before(keys, order[i] as int, order[j] as int));
    assert(keys[order[i] as int].0 == crate::tree::latest(nodes, pi));
    assert(keys[order[j] as int].0 == crate::tree::latest(nodes, pj));
    crate::order::lemma_lex_irreflexive(crate::tree::latest(nodes, pi));
    if crate::order::lex_lt(crate::tree::latest(nodes, pj), crate::tree::latest(nodes, pi)) {
        lemma_lex_asymmetric(crate::tree::latest(nodes, pj), crate::tree::latest(nodes, pi));
    }
}

} // verus!
