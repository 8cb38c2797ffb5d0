//! The session tree of the tree picker: project folders at the top, sessions
//! nested under the session they were forked from.
use vstd::prelude::*;
use crate::text::{chars_of, char_count, matches_at};
use crate::order::{lex_lt, lex_less, stable_desc_order, is_stable_desc_order, key_views};


verus! {

broadcast use vstd::string::group_string_axioms;

/// A session as the tree picker shows it.
pub struct Node {
    pub id: String,
    pub file_path: String,
    pub name: String,
    pub cost_str: String,
    pub time_str: String,
    pub date: String,
    pub time: String,
    pub parent: String,
    pub project: String,
}

pub open spec fn views(v: Seq<String>) -> Seq<Seq<char>> {
    v.map_values(|s: String| s@)
}

/// A path with every backslash turned into a forward slash.
pub open spec fn normed(p: Seq<char>) -> Seq<char> {
    p.map_values(|c: char| if c == '\\' { '/' } else { c })
}

pub fn norm(p: &str) -> (r: String)
    ensures
        r@ == normed(p@),
{
    let mut r = String::new();
    for c in it: p.chars()
        invariant
            it.seq() == p@,
            r@ == normed(p@.take(it.index() as int)),
    {
        assert(p@.take(it.index() + 1) =~= p@.take(it.index() as int).push(c));
        r.push(if c == '\\' { '/' } else { c });
        assert(normed(p@.take(it.index() + 1)) =~= normed(p@.take(it.index() as int)).push(
            if c == '\\' { '/' } else { c },
        ));
    }
    assert(p@.take(p@.len() as int) =~= p@);
    r
}

pub open spec fn folder_prefix() -> Seq<char> {
    seq!['_', '_', 'f', 'o', 'l', 'd', 'e', 'r', '_', '_']
}

pub fn folder_prefix_string() -> (r: String)
    ensures
        r@ == folder_prefix(),
{
    let mut r = String::new();
    r.push('_');
    r.push('_');
    r.push('f');
    r.push('o');
    r.push('l');
    r.push('d');
    r.push('e');
    r.push('r');
    r.push('_');
    r.push('_');
    r
}

/// The id of the synthetic folder row of a project.
pub open spec fn folder_of(project: Seq<char>) -> Seq<char> {
    folder_prefix() + project
}

pub fn folder_id(project: &str) -> (r: String)
    ensures
        r@ == folder_of(project@),
{
    let mut r = folder_prefix_string();
    r.push_str(project);
    r
}

pub open spec fn is_folder(s: Seq<char>) -> bool {
    s.len() >= folder_prefix().len() && s.take(folder_prefix().len() as int) == folder_prefix()
}

pub fn is_folder_id(s: &str) -> (r: bool)
    ensures
        r == is_folder(s@),
{
    let v = chars_of(s);
    let p = chars_of(&folder_prefix_string());
    let r = matches_at(&v, 0, &p);
    assert(r ==> v@.take(folder_prefix().len() as int) =~= v@.subrange(0, folder_prefix().len() as int));
    assert(is_folder(s@) ==> v@.take(folder_prefix().len() as int) =~= v@.subrange(0, folder_prefix().len() as int));
    r
}

/// The project named by a folder id; empty for anything else.
pub open spec fn project_of_folder(id: Seq<char>) -> Seq<char> {
    if is_folder(id) {
        id.skip(folder_prefix().len() as int)
    } else {
        Seq::empty()
    }
}

pub fn folder_project(id: &str) -> (r: &str)
    ensures
        r@ == project_of_folder(id@),
{
    if is_folder_id(id) {
        let n = char_count(id);
        let r = id.substring_char(10, n);
        assert(r@ =~= id@.skip(10));
        r
    } else {
        proof {
            reveal_strlit("");
        }
        let r = "";
        assert(r@ =~= Seq::<char>::empty());
        r
    }
}

} // verus!

verus! {

pub open spec fn has_parent(n: Node) -> bool {
    n.parent@.len() > 0
}

pub open spec fn npath(n: Node) -> Seq<char> {
    normed(n.file_path@)
}

pub open spec fn npar(n: Node) -> Seq<char> {
    normed(n.parent@)
}

/// A session that names itself as its parent.
pub open spec fn self_looped(n: Node) -> bool {
    has_parent(n) && npar(n) == npath(n)
}

/// Index of the last node with this id, or -1 when there is none.
pub open spec fn last_of_id(nodes: Seq<Node>, id: Seq<char>) -> int
    decreases nodes.len(),
{
    if nodes.len() == 0 {
        -1
    } else if nodes.last().id@ == id {
        nodes.len() - 1
    } else {
        last_of_id(nodes.drop_last(), id)
    }
}

pub proof fn lemma_last_of_id(nodes: Seq<Node>, id: Seq<char>)
    ensures
        -1 <= last_of_id(nodes, id) < nodes.len(),
        last_of_id(nodes, id) >= 0 ==> nodes[last_of_id(nodes, id)].id@ == id,
        forall|j: int| last_of_id(nodes, id) < j < nodes.len() ==> nodes[j].id@ != id,
    decreases nodes.len(),
{
    if nodes.len() > 0 && nodes.last().id@ != id {
        let d = nodes.drop_last();
        lemma_last_of_id(d, id);
        assert forall|j: int| last_of_id(nodes, id) < j < nodes.len() implies nodes[j].id@ != id by {
            if j < nodes.len() - 1 {
                assert(d[j] == nodes[j]);
            }
        }
    }
}

pub proof fn lemma_last_of_id_step(nodes: Seq<Node>, i: int, id: Seq<char>)
    requires
        0 <= i < nodes.len(),
    ensures
        last_of_id(nodes.take(i + 1), id) == if nodes[i].id@ == id {
            i
        } else {
            last_of_id(nodes.take(i), id)
        },
{
    assert(nodes.take(i + 1).drop_last() =~= nodes.take(i));
}

/// The node a session id stands for: the last node with that id.
pub open spec fn node_of(nodes: Seq<Node>, id: Seq<char>) -> Node {
    nodes[last_of_id(nodes, id)]
}

/// The normalized path of the session with this id, if there is one.
pub open spec fn path_of(nodes: Seq<Node>, id: Seq<char>) -> Option<Seq<char>> {
    if last_of_id(nodes, id) >= 0 {
        Some(npath(node_of(nodes, id)))
    } else {
        None
    }
}

/// Whether some session lives at this normalized path.
pub open spec fn known_path(nodes: Seq<Node>, p: Seq<char>) -> bool {
    exists|id: Seq<char>| #[trigger] path_of(nodes, id) == Some(p)
}

pub open spec fn keys_unique<T>(kv: Seq<(String, T)>) -> bool {
    forall|a: int, b: int| 0 <= a < b < kv.len() ==> kv[a].0@ != kv[b].0@
}

pub open spec fn has_key<T>(kv: Seq<(String, T)>, k: Seq<char>) -> bool {
    exists|j: int| 0 <= j < kv.len() && #[trigger] kv[j].0@ == k
}

/// The value stored under `k` (meaningful when `has_key`).
pub open spec fn value_at<T>(kv: Seq<(String, T)>, k: Seq<char>) -> T {
    kv[choose|j: int| 0 <= j < kv.len() && #[trigger] kv[j].0@ == k].1
}

pub proof fn lemma_value_at<T>(kv: Seq<(String, T)>, j: int)
    requires
        keys_unique(kv),
        0 <= j < kv.len(),
    ensures
        has_key(kv, kv[j].0@),
        value_at(kv, kv[j].0@) == kv[j].1,
{
    let k = kv[j].0@;
    assert(kv[j].0@ == k);
    let c = choose|i: int| 0 <= i < kv.len() && #[trigger] kv[i].0@ == k;
    if c != j {
        if c < j {
            assert(kv[c].0@ != kv[j].0@);
        } else {
            assert(kv[j].0@ != kv[c].0@);
        }
    }
}

/// Position of the entry with key `k`.
pub fn find_key<T>(kv: &Vec<(String, T)>, k: &String) -> (r: Option<usize>)
    ensures
        r matches Some(j) ==> j < kv.len() && kv@[j as int].0@ == k@,
        r is None ==> !has_key(kv@, k@),
{
    let mut j: usize = 0;
    while j < kv.len()
        invariant
            j <= kv.len(),
            forall|a: int| 0 <= a < j ==> kv@[a].0@ != k@,
        decreases kv.len() - j,
    {
        if kv[j].0 == *k {
            return Some(j);
        }
        j = j + 1;
    }
    None
}

/// `kv` maps each session id to the normalized path of its last node.
pub open spec fn id_path_table(nodes: Seq<Node>, kv: Seq<(String, String)>) -> bool {
    &&& keys_unique(kv)
    &&& forall|j: int|
        0 <= j < kv.len() ==> last_of_id(nodes, #[trigger] kv[j].0@) >= 0 && kv[j].1@ == npath(
            node_of(nodes, kv[j].0@),
        )
    &&& forall|m: int| 0 <= m < nodes.len() ==> has_key(kv, #[trigger] nodes[m].id@)
}

pub fn build_id_table(nodes: &Vec<Node>) -> (kv: Vec<(String, String)>)
    ensures
        id_path_table(nodes@, kv@),
{
    let mut kv: Vec<(String, String)> = Vec::new();
    let mut i: usize = 0;
    while i < nodes.len()
        invariant
            i <= nodes.len(),
            keys_unique(kv@),
            forall|j: int|
                0 <= j < kv.len() ==> last_of_id(nodes@.take(i as int), #[trigger] kv@[j].0@) >= 0
                    && kv@[j].1@ == npath(nodes@[last_of_id(nodes@.take(i as int), kv@[j].0@)]),
            forall|m: int| 0 <= m < i ==> has_key(kv@, #[trigger] nodes@[m].id@),
        decreases nodes.len() - i,
    {
        let id = nodes[i].id.clone();
        let path = norm(&nodes[i].file_path);
        let ghost before = kv@;
        proof {
            assert forall|j: int| 0 <= j < before.len() implies last_of_id(
                nodes@.take(i + 1),
                #[trigger] before[j].0@,
            ) == if before[j].0@ == id@ {
                i as int
            } else {
                last_of_id(nodes@.take(i as int), before[j].0@)
            } by {
                lemma_last_of_id_step(nodes@, i as int, before[j].0@);
            }
            lemma_last_of_id_step(nodes@, i as int, id@);
            assert(nodes@.take(i as int + 1)[i as int] == nodes@[i as int]);
        }
        match find_key(&kv, &id) {
            Some(j) => {
                kv.set(j, (id, path));
                proof {
                    assert forall|m: int| 0 <= m <= i implies has_key(kv@, #[trigger] nodes@[m].id@) by {
                        if m < i {
                            let w = choose|w: int| 0 <= w < before.len() && #[trigger] before[w].0@ == nodes@[m].id@;
                            assert(kv@[w].0@ == nodes@[m].id@);
                        } else {
                            assert(kv@[j as int].0@ == nodes@[m].id@);
                        }
                    }
                }
            },
            None => {
                kv.push((id, path));
                proof {
                    assert forall|m: int| 0 <= m <= i implies has_key(kv@, #[trigger] nodes@[m].id@) by {
                        if m < i {
                            let w = choose|w: int| 0 <= w < before.len() && #[trigger] before[w].0@ == nodes@[m].id@;
                            assert(kv@[w].0@ == nodes@[m].id@);
                        } else {
                            assert(kv@[before.len() as int].0@ == nodes@[m].id@);
                        }
                    }
                }
            },
        }
        i = i + 1;
    }
    assert(nodes@.take(nodes.len() as int) =~= nodes@);
    kv
}

} // verus!

verus! {

/// Some session that names itself as its parent lives at `k` and has this id;
/// such an id is dropped from the children listed under `k`.
pub open spec fn removed(nodes: Seq<Node>, k: Seq<char>, id: Seq<char>) -> bool {
    exists|n: int|
        0 <= n < nodes.len() && self_looped(nodes[n]) && npath(nodes[n]) == k && #[trigger] nodes[n].id@
            == id
}

/// Ids of the first `i` nodes that name `k` as their parent, in order.
pub open spec fn kids_upto(nodes: Seq<Node>, k: Seq<char>, i: int) -> Seq<Seq<char>>
    decreases i,
{
    if i <= 0 {
        seq![]
    } else {
        let m = nodes[i - 1];
        let rest = kids_upto(nodes, k, i - 1);
        if has_parent(m) && npar(m) == k && !removed(nodes, k, m.id@) {
            rest.push(m.id@)
        } else {
            rest
        }
    }
}

pub open spec fn kids(nodes: Seq<Node>, k: Seq<char>) -> Seq<Seq<char>> {
    kids_upto(nodes, k, nodes.len() as int)
}

pub open spec fn parent_key_upto(nodes: Seq<Node>, k: Seq<char>, i: int) -> bool {
    exists|m: int| 0 <= m < i && has_parent(nodes[m]) && #[trigger] npar(nodes[m]) == k
}

/// Some session names `k` as its parent.
pub open spec fn parent_key(nodes: Seq<Node>, k: Seq<char>) -> bool {
    parent_key_upto(nodes, k, nodes.len() as int)
}

/// Normalized path, normalized parent and whether there is a parent, per node.
pub struct NodePaths {
    pub paths: Vec<String>,
    pub parents: Vec<String>,
    pub has_parent: Vec<bool>,
}

pub open spec fn paths_of(nodes: Seq<Node>, p: NodePaths) -> bool {
    &&& p.paths.len() == nodes.len()
    &&& p.parents.len() == nodes.len()
    &&& p.has_parent.len() == nodes.len()
    &&& forall|m: int| 0 <= m < nodes.len() ==> #[trigger] p.paths@[m]@ == npath(nodes[m])
    &&& forall|m: int| 0 <= m < nodes.len() ==> #[trigger] p.parents@[m]@ == npar(nodes[m])
    &&& forall|m: int| 0 <= m < nodes.len() ==> #[trigger] p.has_parent@[m] == has_parent(nodes[m])
}

pub fn node_paths(nodes: &Vec<Node>) -> (p: NodePaths)
    ensures
        paths_of(nodes@, p),
{
    let mut p = NodePaths { paths: Vec::new(), parents: Vec::new(), has_parent: Vec::new() };
    let mut m: usize = 0;
    while m < nodes.len()
        invariant
            m <= nodes.len(),
            p.paths.len() == m,
            p.parents.len() == m,
            p.has_parent.len() == m,
            forall|a: int| 0 <= a < m ==> #[trigger] p.paths@[a]@ == npath(nodes@[a]),
            forall|a: int| 0 <= a < m ==> #[trigger] p.parents@[a]@ == npar(nodes@[a]),
            forall|a: int| 0 <= a < m ==> #[trigger] p.has_parent@[a] == has_parent(nodes@[a]),
        decreases nodes.len() - m,
    {
        p.paths.push(norm(&nodes[m].file_path));
        p.parents.push(norm(&nodes[m].parent));
        p.has_parent.push(char_count(&nodes[m].parent) > 0);
        m = m + 1;
    }
    p
}

/// For each node with a parent, whether it is dropped from its parent's list.
pub fn removed_flags(nodes: &Vec<Node>, p: &NodePaths) -> (r: Vec<bool>)
    requires
        paths_of(nodes@, *p),
    ensures
        r.len() == nodes.len(),
        forall|m: int| 0 <= m < nodes.len() ==> #[trigger] r@[m] == removed(nodes@, npar(nodes@[m]), nodes@[m].id@),
{
    let mut r: Vec<bool> = Vec::new();
    let mut m: usize = 0;
    while m < nodes.len()
        invariant
            paths_of(nodes@, *p),
            m <= nodes.len(),
            r.len() == m,
            forall|a: int| 0 <= a < m ==> #[trigger] r@[a] == removed(nodes@, npar(nodes@[a]), nodes@[a].id@),
        decreases nodes.len() - m,
    {
        let mut found = false;
        let mut n: usize = 0;
        while n < nodes.len()
            invariant
                paths_of(nodes@, *p),
                m < nodes.len(),
                n <= nodes.len(),
                found == exists|q: int|
                    0 <= q < n && self_looped(nodes@[q]) && npath(nodes@[q]) == npar(nodes@[m as int])
                        && #[trigger] nodes@[q].id@ == nodes@[m as int].id@,
            decreases nodes.len() - n,
        {
            let hit = p.has_parent[n] && p.parents[n] == p.paths[n] && p.paths[n] == p.parents[m]
                && nodes[n].id == nodes[m].id;
            proof {
                assert(p.paths@[n as int]@ == npath(nodes@[n as int]));
                assert(p.paths@[m as int]@ == npath(nodes@[m as int]));
            }
            if hit {
                found = true;
            }
            n = n + 1;
        }
        r.push(found);
        m = m + 1;
    }
    r
}

pub proof fn lemma_kids_upto_step(nodes: Seq<Node>, k: Seq<char>, i: int)
    requires
        0 <= i,
    ensures
        kids_upto(nodes, k, i + 1) == if has_parent(nodes[i]) && npar(nodes[i]) == k && !removed(
            nodes,
            k,
            nodes[i].id@,
        ) {
            kids_upto(nodes, k, i).push(nodes[i].id@)
        } else {
            kids_upto(nodes, k, i)
        },
{
}

/// The ids listed under one parent path.
pub fn kids_of(nodes: &Vec<Node>, p: &NodePaths, gone: &Vec<bool>, k: &String) -> (r: Vec<String>)
    requires
        paths_of(nodes@, *p),
        gone.len() == nodes.len(),
        forall|m: int| 0 <= m < nodes.len() ==> #[trigger] gone@[m] == removed(nodes@, npar(nodes@[m]), nodes@[m].id@),
    ensures
        views(r@) == kids(nodes@, k@),
{
    let mut r: Vec<String> = Vec::new();
    let mut m: usize = 0;
    while m < nodes.len()
        invariant
            paths_of(nodes@, *p),
            gone.len() == nodes.len(),
            forall|a: int| 0 <= a < nodes.len() ==> #[trigger] gone@[a] == removed(nodes@, npar(nodes@[a]), nodes@[a].id@),
            m <= nodes.len(),
            views(r@) == kids_upto(nodes@, k@, m as int),
        decreases nodes.len() - m,
    {
        proof {
            lemma_kids_upto_step(nodes@, k@, m as int);
            assert(p.parents@[m as int]@ == npar(nodes@[m as int]));
        }
        if p.has_parent[m] && p.parents[m] == *k && !gone[m] {
            r.push(nodes[m].id.clone());
            assert(views(r@) =~= kids_upto(nodes@, k@, m as int + 1));
        }
        m = m + 1;
    }
    r
}

/// The distinct parent paths, in order of first mention.
pub fn parent_keys(nodes: &Vec<Node>, p: &NodePaths) -> (keys: Vec<String>)
    requires
        paths_of(nodes@, *p),
    ensures
        forall|a: int, b: int| 0 <= a < b < keys.len() ==> keys@[a]@ != keys@[b]@,
        forall|a: int| 0 <= a < keys.len() ==> parent_key(nodes@, #[trigger] keys@[a]@),
        forall|m: int|
            0 <= m < nodes.len() && has_parent(nodes@[m]) ==> exists|a: int|
                0 <= a < keys.len() && #[trigger] keys@[a]@ == npar(nodes@[m]),
{
    let mut keys: Vec<String> = Vec::new();
    let mut m: usize = 0;
    while m < nodes.len()
        invariant
            paths_of(nodes@, *p),
            m <= nodes.len(),
            forall|a: int, b: int| 0 <= a < b < keys.len() ==> keys@[a]@ != keys@[b]@,
            forall|a: int| 0 <= a < keys.len() ==> parent_key(nodes@, #[trigger] keys@[a]@),
            forall|q: int|
                0 <= q < m && has_parent(nodes@[q]) ==> exists|a: int|
                    0 <= a < keys.len() && #[trigger] keys@[a]@ == npar(nodes@[q]),
        decreases nodes.len() - m,
    {
        proof {
            assert(p.parents@[m as int]@ == npar(nodes@[m as int]));
        }
        if p.has_parent[m] {
            let mut seen = false;
            let mut a: usize = 0;
            while a < keys.len()
                invariant
                    paths_of(nodes@, *p),
                    m < nodes.len(),
                    a <= keys.len(),
                    seen == exists|b: int| 0 <= b < a && #[trigger] keys@[b]@ == p.parents@[m as int]@,
                decreases keys.len() - a,
            {
                if keys[a] == p.parents[m] {
                    seen = true;
                }
                a = a + 1;
            }
            if !seen {
                let ghost before = keys@;
                keys.push(p.parents[m].clone());
                proof {
                    assert(has_parent(nodes@[m as int]) && npar(nodes@[m as int]) == keys@[before.len() as int]@);
                    assert(parent_key(nodes@, keys@[before.len() as int]@));
                    assert forall|q: int|
                        0 <= q <= m && has_parent(nodes@[q]) implies exists|a: int|
                            0 <= a < keys.len() && #[trigger] keys@[a]@ == npar(nodes@[q]) by {
                        if q < m {
                            let w = choose|a: int| 0 <= a < before.len() && #[trigger] before[a]@ == npar(nodes@[q]);
                            assert(keys@[w]@ == npar(nodes@[q]));
                        } else {
                            assert(keys@[before.len() as int]@ == npar(nodes@[q]));
                        }
                    }
                }
            }
        }
        m = m + 1;
    }
    keys
}

} // verus!

verus! {

/// A session shown directly under its project folder: it has no parent, or
/// names itself, or names a path where no loaded session lives.
pub open spec fn is_session_root(nodes: Seq<Node>, m: int) -> bool {
    !has_parent(nodes[m]) || self_looped(nodes[m]) || !known_path(nodes, npar(nodes[m]))
}

pub open spec fn roots_upto(nodes: Seq<Node>, i: int) -> Seq<Seq<char>>
    decreases i,
{
    if i <= 0 {
        seq![]
    } else {
        let rest = roots_upto(nodes, i - 1);
        if is_session_root(nodes, i - 1) {
            rest.push(nodes[i - 1].id@)
        } else {
            rest
        }
    }
}

/// Ids of the session roots, in node order.
pub open spec fn session_roots(nodes: Seq<Node>) -> Seq<Seq<char>> {
    roots_upto(nodes, nodes.len() as int)
}

/// Some node has this id.
pub open spec fn is_node_id(nodes: Seq<Node>, id: Seq<char>) -> bool {
    exists|m: int| 0 <= m < nodes.len() && #[trigger] nodes[m].id@ == id
}

pub proof fn lemma_roots_are_ids(nodes: Seq<Node>, i: int)
    requires
        0 <= i <= nodes.len(),
    ensures
        forall|k: int| 0 <= k < roots_upto(nodes, i).len() ==> is_node_id(nodes, #[trigger] roots_upto(nodes, i)[k]),
    decreases i,
{
    if i > 0 {
        lemma_roots_are_ids(nodes, i - 1);
        let r = roots_upto(nodes, i);
        let rest = roots_upto(nodes, i - 1);
        assert forall|k: int| 0 <= k < r.len() implies is_node_id(nodes, #[trigger] r[k]) by {
            if k < rest.len() {
                assert(r[k] == rest[k]);
            } else {
                assert(nodes[i - 1].id@ == r[k]);
            }
        }
    }
}

/// Index of the last node with this id.
pub fn last_index_of(nodes: &Vec<Node>, id: &String) -> (r: usize)
    requires
        is_node_id(nodes@, id@),
    ensures
        r as int == last_of_id(nodes@, id@),
        r < nodes.len(),
{
    proof {
        lemma_last_of_id(nodes@, id@);
    }
    let mut i: usize = nodes.len();
    while i > 0
        invariant
            i <= nodes.len(),
            forall|j: int| i <= j < nodes.len() ==> nodes@[j].id@ != id@,
            is_node_id(nodes@, id@),
            -1 <= last_of_id(nodes@, id@) < nodes.len(),
            last_of_id(nodes@, id@) >= 0 ==> nodes@[last_of_id(nodes@, id@)].id@ == id@,
            forall|j: int| last_of_id(nodes@, id@) < j < nodes.len() ==> nodes@[j].id@ != id@,
        decreases i,
    {
        if nodes[i - 1].id == *id {
            return i - 1;
        }
        i = i - 1;
    }
    proof {
        let m = choose|m: int| 0 <= m < nodes.len() && #[trigger] nodes@[m].id@ == id@;
        assert(nodes@[m].id@ == id@);
    }
    0
}

/// Whether some session lives at normalized path `q`.
pub fn path_is_known(nodes: &Vec<Node>, table: &Vec<(String, String)>, q: &String) -> (r: bool)
    requires
        id_path_table(nodes@, table@),
    ensures
        r == known_path(nodes@, q@),
{
    let mut j: usize = 0;
    while j < table.len()
        invariant
            id_path_table(nodes@, table@),
            j <= table.len(),
            forall|a: int| 0 <= a < j ==> table@[a].1@ != q@,
        decreases table.len() - j,
    {
        if table[j].1 == *q {
            proof {
                let id = table@[j as int].0@;
                assert(last_of_id(nodes@, id) >= 0);
                assert(path_of(nodes@, id) == Some(q@));
            }
            return true;
        }
        j = j + 1;
    }
    proof {
        if known_path(nodes@, q@) {
            let id = choose|id: Seq<char>| #[trigger] path_of(nodes@, id) == Some(q@);
            lemma_last_of_id(nodes@, id);
            let m = last_of_id(nodes@, id);
            assert(has_key(table@, nodes@[m].id@));
            let w = choose|w: int| 0 <= w < table.len() && #[trigger] table@[w].0@ == nodes@[m].id@;
            assert(table@[w].1@ == q@);
        }
    }
    false
}

pub fn session_root_ids(nodes: &Vec<Node>, p: &NodePaths, table: &Vec<(String, String)>) -> (r: Vec<String>)
    requires
        paths_of(nodes@, *p),
        id_path_table(nodes@, table@),
    ensures
        views(r@) == session_roots(nodes@),
{
    let mut r: Vec<String> = Vec::new();
    let mut m: usize = 0;
    while m < nodes.len()
        invariant
            paths_of(nodes@, *p),
            id_path_table(nodes@, table@),
            m <= nodes.len(),
            views(r@) == roots_upto(nodes@, m as int),
        decreases nodes.len() - m,
    {
        proof {
            assert(p.parents@[m as int]@ == npar(nodes@[m as int]));
            assert(p.paths@[m as int]@ == npath(nodes@[m as int]));
            assert(p.has_parent@[m as int] == has_parent(nodes@[m as int]));
        }
        let root = !p.has_parent[m] || p.parents[m] == p.paths[m] || !path_is_known(nodes, table, &p.parents[m]);
        if root {
            r.push(nodes[m].id.clone());
            assert(views(r@) =~= roots_upto(nodes@, m as int + 1));
        }
        m = m + 1;
    }
    r
}

} // verus!

verus! {

/// The "date time" stamp a project's recency is measured by.
pub open spec fn stamp(n: Node) -> Seq<char> {
    n.date@ + seq![' '] + n.time@
}

pub open spec fn root_project(nodes: Seq<Node>, sr: Seq<char>) -> Seq<char> {
    node_of(nodes, sr).project@
}

/// Distinct projects of the first `k` roots of `r`, in order of first appearance.
pub open spec fn projects_upto(nodes: Seq<Node>, r: Seq<Seq<char>>, k: int) -> Seq<Seq<char>>
    decreases k,
{
    if k <= 0 {
        seq![]
    } else {
        let ps = projects_upto(nodes, r, k - 1);
        let p = root_project(nodes, r[k - 1]);
        if ps.contains(p) {
            ps
        } else {
            ps.push(p)
        }
    }
}

/// The first `k` roots of `r` that belong to project `p`, in order.
pub open spec fn members_upto(nodes: Seq<Node>, r: Seq<Seq<char>>, p: Seq<char>, k: int) -> Seq<Seq<char>>
    decreases k,
{
    if k <= 0 {
        seq![]
    } else {
        let rest = members_upto(nodes, r, p, k - 1);
        if root_project(nodes, r[k - 1]) == p {
            rest.push(r[k - 1])
        } else {
            rest
        }
    }
}

/// The greatest stamp among the first `k` roots of `r` in project `p`
/// (empty when there is none).
pub open spec fn latest_upto(nodes: Seq<Node>, r: Seq<Seq<char>>, p: Seq<char>, k: int) -> Seq<char>
    decreases k,
{
    if k <= 0 {
        seq![]
    } else {
        let prev = latest_upto(nodes, r, p, k - 1);
        let ts = stamp(node_of(nodes, r[k - 1]));
        if root_project(nodes, r[k - 1]) == p && lex_lt(prev, ts) {
            ts
        } else {
            prev
        }
    }
}

pub open spec fn projects(nodes: Seq<Node>) -> Seq<Seq<char>> {
    projects_upto(nodes, session_roots(nodes), session_roots(nodes).len() as int)
}

pub open spec fn members(nodes: Seq<Node>, p: Seq<char>) -> Seq<Seq<char>> {
    members_upto(nodes, session_roots(nodes), p, session_roots(nodes).len() as int)
}

pub open spec fn latest(nodes: Seq<Node>, p: Seq<char>) -> Seq<char> {
    latest_upto(nodes, session_roots(nodes), p, session_roots(nodes).len() as int)
}

/// Projects are ordered by their latest stamp, most recent first.
pub open spec fn project_keys(nodes: Seq<Node>) -> Seq<(Seq<char>, Seq<char>)> {
    projects(nodes).map_values(|p: Seq<char>| (latest(nodes, p), Seq::<char>::empty()))
}

/// The roots of a project are ordered by date, then time, most recent first.
pub open spec fn member_keys(nodes: Seq<Node>, p: Seq<char>) -> Seq<(Seq<char>, Seq<char>)> {
    members(nodes, p).map_values(|sr: Seq<char>| (node_of(nodes, sr).date@, node_of(nodes, sr).time@))
}

pub proof fn lemma_projects_unique(nodes: Seq<Node>, r: Seq<Seq<char>>, k: int)
    ensures
        forall|a: int, b: int|
            0 <= a < b < projects_upto(nodes, r, k).len() ==> projects_upto(nodes, r, k)[a]
                != projects_upto(nodes, r, k)[b],
    decreases k,
{
    if k > 0 {
        lemma_projects_unique(nodes, r, k - 1);
        let ps = projects_upto(nodes, r, k - 1);
        let q = projects_upto(nodes, r, k);
        let p = root_project(nodes, r[k - 1]);
        if !ps.contains(p) {
            assert forall|a: int, b: int| 0 <= a < b < q.len() implies q[a] != q[b] by {
                if b == q.len() - 1 {
                    assert(q[a] == ps[a]);
                    assert(q[b] == p);
                } else {
                    assert(q[a] == ps[a] && q[b] == ps[b]);
                }
            }
        }
    }
}

pub proof fn lemma_unseen_project(nodes: Seq<Node>, r: Seq<Seq<char>>, p: Seq<char>, k: int)
    requires
        !projects_upto(nodes, r, k).contains(p),
    ensures
        members_upto(nodes, r, p, k) == Seq::<Seq<char>>::empty(),
        latest_upto(nodes, r, p, k) == Seq::<char>::empty(),
    decreases k,
{
    if k > 0 {
        let ps = projects_upto(nodes, r, k - 1);
        let q = projects_upto(nodes, r, k);
        let x = root_project(nodes, r[k - 1]);
        if ps.contains(p) {
            let w = choose|w: int| 0 <= w < ps.len() && ps[w] == p;
            if ps.contains(x) {
                assert(q[w] == p);
            } else {
                assert(q[w] == p);
            }
        }
        if x == p {
            if ps.contains(x) {
            } else {
                assert(q[q.len() - 1] == p);
            }
        }
        lemma_unseen_project(nodes, r, p, k - 1);
    }
}

/// The roots of the tree, with the index of each one's node.
pub struct RootList {
    pub ids: Vec<String>,
    pub nodes_at: Vec<usize>,
}

pub open spec fn root_list_of(nodes: Seq<Node>, rl: RootList) -> bool {
    &&& views(rl.ids@) == session_roots(nodes)
    &&& rl.nodes_at.len() == rl.ids.len()
    &&& forall|k: int| 0 <= k < rl.ids.len() ==> #[trigger] rl.nodes_at@[k] as int == last_of_id(nodes, rl.ids@[k]@)
    &&& forall|k: int| 0 <= k < rl.ids.len() ==> (#[trigger] rl.nodes_at@[k]) < nodes.len()
}

pub fn root_list(nodes: &Vec<Node>, p: &NodePaths, table: &Vec<(String, String)>) -> (rl: RootList)
    requires
        paths_of(nodes@, *p),
        id_path_table(nodes@, table@),
    ensures
        root_list_of(nodes@, rl),
{
    let ids = session_root_ids(nodes, p, table);
    proof {
        lemma_roots_are_ids(nodes@, nodes@.len() as int);
    }
    let mut at: Vec<usize> = Vec::new();
    let mut k: usize = 0;
    while k < ids.len()
        invariant
            views(ids@) == session_roots(nodes@),
            forall|q: int| 0 <= q < session_roots(nodes@).len() ==> is_node_id(nodes@, #[trigger] session_roots(nodes@)[q]),
            k <= ids.len(),
            at.len() == k,
            forall|q: int| 0 <= q < k ==> #[trigger] at@[q] as int == last_of_id(nodes@, ids@[q]@),
            forall|q: int| 0 <= q < k ==> (#[trigger] at@[q]) < nodes.len(),
        decreases ids.len() - k,
    {
        assert(session_roots(nodes@)[k as int] == ids@[k as int]@);
        let li = last_index_of(nodes, &ids[k]);
        at.push(li);
        k = k + 1;
    }
    RootList { ids, nodes_at: at }
}

/// The distinct projects of the roots, in order of first appearance.
pub fn project_list(nodes: &Vec<Node>, rl: &RootList) -> (ps: Vec<String>)
    requires
        root_list_of(nodes@, *rl),
    ensures
        views(ps@) == projects(nodes@),
{
    let ghost r = session_roots(nodes@);
    let mut ps: Vec<String> = Vec::new();
    let mut k: usize = 0;
    while k < rl.ids.len()
        invariant
            root_list_of(nodes@, *rl),
            r == session_roots(nodes@),
            k <= rl.ids.len(),
            views(ps@) == projects_upto(nodes@, r, k as int),
        decreases rl.ids.len() - k,
    {
        let proj = &nodes[rl.nodes_at[k]].project;
        assert(r[k as int] == rl.ids@[k as int]@);
        assert(proj@ == root_project(nodes@, r[k as int]));
        let mut seen = false;
        let mut a: usize = 0;
        while a < ps.len()
            invariant
                a <= ps.len(),
                seen == exists|b: int| 0 <= b < a && #[trigger] ps@[b]@ == proj@,
            decreases ps.len() - a,
        {
            if ps[a] == *proj {
                seen = true;
            }
            a = a + 1;
        }
        proof {
            let q = projects_upto(nodes@, r, k as int);
            if seen {
                let b = choose|b: int| 0 <= b < ps.len() && #[trigger] ps@[b]@ == proj@;
                assert(q[b] == proj@);
            } else {
                assert forall|b: int| 0 <= b < q.len() implies q[b] != proj@ by {
                    assert(ps@[b]@ == q[b]);
                }
            }
        }
        if !seen {
            ps.push(proj.clone());
            assert(views(ps@) =~= projects_upto(nodes@, r, k + 1));
        } else {
            assert(views(ps@) =~= projects_upto(nodes@, r, k + 1));
        }
        k = k + 1;
    }
    ps
}

/// The roots of one project, each with its node index, and its latest stamp.
pub fn project_members(nodes: &Vec<Node>, rl: &RootList, proj: &String) -> (res: (Vec<String>, Vec<usize>, Vec<char>))
    requires
        root_list_of(nodes@, *rl),
    ensures
        views(res.0@) == members(nodes@, proj@),
        res.1.len() == res.0.len(),
        forall|u: int| 0 <= u < res.1.len() ==> #[trigger] res.1@[u] as int == last_of_id(nodes@, res.0@[u]@),
        forall|u: int| 0 <= u < res.1.len() ==> (#[trigger] res.1@[u]) < nodes.len(),
        res.2@ == latest(nodes@, proj@),
{
    let ghost r = session_roots(nodes@);
    let mut ids: Vec<String> = Vec::new();
    let mut at: Vec<usize> = Vec::new();
    let mut best: Vec<char> = Vec::new();
    let mut k: usize = 0;
    while k < rl.ids.len()
        invariant
            root_list_of(nodes@, *rl),
            r == session_roots(nodes@),
            k <= rl.ids.len(),
            views(ids@) == members_upto(nodes@, r, proj@, k as int),
            at.len() == ids.len(),
            forall|u: int| 0 <= u < at.len() ==> #[trigger] at@[u] as int == last_of_id(nodes@, ids@[u]@),
            forall|u: int| 0 <= u < at.len() ==> (#[trigger] at@[u]) < nodes.len(),
            best@ == latest_upto(nodes@, r, proj@, k as int),
        decreases rl.ids.len() - k,
    {
        let li = rl.nodes_at[k];
        assert(r[k as int] == rl.ids@[k as int]@);
        if nodes[li].project == *proj {
            ids.push(rl.ids[k].clone());
            at.push(li);
            let mut ts = chars_of(&nodes[li].date);
            ts.push(' ');
            let tv = chars_of(&nodes[li].time);
            let mut q: usize = 0;
            let ghost base = ts@;
            while q < tv.len()
                invariant
                    q <= tv.len(),
                    ts@ == base + tv@.take(q as int),
                decreases tv.len() - q,
            {
                ts.push(tv[q]);
                q = q + 1;
            }
            assert(tv@.take(tv@.len() as int) =~= tv@);
            assert(ts@ =~= stamp(nodes@[li as int]));
            if lex_less(&best, &ts) {
                best = ts;
            }
        }
        assert(views(ids@) =~= members_upto(nodes@, r, proj@, k + 1));
        k = k + 1;
    }
    (ids, at, best)
}

} // verus!

verus! {

pub proof fn lemma_folder_injective(p1: Seq<char>, p2: Seq<char>)
    requires
        folder_of(p1) == folder_of(p2),
    ensures
        p1 == p2,
{
    assert(p1 =~= folder_of(p1).skip(10));
    assert(p2 =~= folder_of(p2).skip(10));
}

/// `s` lists the roots of project `p`, most recent first, ties in node order.
pub open spec fn sorted_members(nodes: Seq<Node>, p: Seq<char>, s: Seq<Seq<char>>) -> bool {
    exists|o: Seq<usize>|
        is_stable_desc_order(member_keys(nodes, p), o) && s == o.map_values(
            |u: usize| members(nodes, p)[u as int],
        )
}

/// The roots of project `proj` in display order.
pub fn sort_members(nodes: &Vec<Node>, proj: &String, ids: &Vec<String>, at: &Vec<usize>) -> (r: Vec<String>)
    requires
        views(ids@) == members(nodes@, proj@),
        at.len() == ids.len(),
        forall|u: int| 0 <= u < at.len() ==> #[trigger] at@[u] as int == last_of_id(nodes@, ids@[u]@),
        forall|u: int| 0 <= u < at.len() ==> (#[trigger] at@[u]) < nodes.len(),
    ensures
        sorted_members(nodes@, proj@, views(r@)),
{
    let ghost mkeys = member_keys(nodes@, proj@);
    let mut keys: Vec<(Vec<char>, Vec<char>)> = Vec::new();
    let mut u: usize = 0;
    while u < ids.len()
        invariant
            mkeys == member_keys(nodes@, proj@),
            views(ids@) == members(nodes@, proj@),
            at.len() == ids.len(),
            forall|u: int| 0 <= u < at.len() ==> #[trigger] at@[u] as int == last_of_id(nodes@, ids@[u]@),
            forall|u: int| 0 <= u < at.len() ==> (#[trigger] at@[u]) < nodes.len(),
            u <= ids.len(),
            key_views(keys@) == mkeys.take(u as int),
        decreases ids.len() - u,
    {
        let n = &nodes[at[u]];
        let ghost prev = keys@;
        let d = chars_of(&n.date);
        let tm = chars_of(&n.time);
        keys.push((d, tm));
        assert(keys@ == prev.push((d, tm)));
        assert(key_views(keys@) =~= key_views(prev).push((d@, tm@)));
        assert(mkeys.len() == ids.len());
        assert(members(nodes@, proj@)[u as int] == ids@[u as int]@);
        assert(mkeys[u as int] == (nodes@[at@[u as int] as int].date@, nodes@[at@[u as int] as int].time@));
        assert(key_views(keys@) =~= mkeys.take(u + 1));
        u = u + 1;
    }
    assert(mkeys.take(ids.len() as int) =~= mkeys);
    let o = stable_desc_order(&keys);
    let mut r: Vec<String> = Vec::new();
    let mut t: usize = 0;
    while t < o.len()
        invariant
            mkeys == member_keys(nodes@, proj@),
            key_views(keys@) == mkeys,
            views(ids@) == members(nodes@, proj@),
            is_stable_desc_order(mkeys, o@),
            t <= o.len(),
            views(r@) == o@.take(t as int).map_values(|u: usize| members(nodes@, proj@)[u as int]),
        decreases o.len() - t,
    {
        let idx = o[t];
        assert(idx < keys.len());
        assert(members(nodes@, proj@)[idx as int] == ids@[idx as int]@);
        let ghost prev = r@;
        r.push(ids[idx].clone());
        assert(views(r@) =~= views(prev).push(ids@[idx as int]@));
        assert(views(r@) =~= o@.take(t + 1).map_values(|u: usize| members(nodes@, proj@)[u as int]));
        t = t + 1;
    }
    assert(o@.take(o@.len() as int) =~= o@);
    r
}

/// Project folders and the sessions nested below them.
pub struct Tree {
    pub roots: Vec<String>,
    /// Parent path (or folder id) to the ids listed under it.
    pub children: Vec<(String, Vec<String>)>,
    /// Session id to its normalized file path.
    pub id_to_path: Vec<(String, String)>,
}

/// `t` is the tree of `nodes`.
pub open spec fn tree_of(nodes: Seq<Node>, t: Tree) -> bool {
    &&& id_path_table(nodes, t.id_to_path@)
    &&& keys_unique(t.children@)
    &&& forall|j: int|
        0 <= j < t.children.len() ==> parent_key(nodes, #[trigger] t.children@[j].0@) || exists|q: int|
            0 <= q < projects(nodes).len() && t.children@[j].0@ == folder_of(#[trigger] projects(nodes)[q])
    &&& forall|k: Seq<char>|
        #[trigger] parent_key(nodes, k) ==> has_key(t.children@, k) && views(value_at(t.children@, k)@)
            == kids(nodes, k)
    &&& forall|q: int|
        0 <= q < projects(nodes).len() && !parent_key(nodes, folder_of(#[trigger] projects(nodes)[q]))
            ==> has_key(t.children@, folder_of(projects(nodes)[q])) && sorted_members(
            nodes,
            projects(nodes)[q],
            views(value_at(t.children@, folder_of(projects(nodes)[q]))@),
        )
    &&& exists|order: Seq<usize>|
        is_stable_desc_order(project_keys(nodes), order) && views(t.roots@) == order.map_values(
            |i: usize| folder_of(projects(nodes)[i as int]),
        )
}

} // verus!

verus! {

impl Tree {
    /// Builds the tree: each project becomes a folder holding its root
    /// sessions, and every session is listed under the session whose file
    /// it names as its parent.
    #[verifier::rlimit(60)]
    pub fn build(nodes: &Vec<Node>) -> (t: Tree)
        ensures
            tree_of(nodes@, t),
    {
        let table = build_id_table(nodes);
        let p = node_paths(nodes);
        let gone = removed_flags(nodes, &p);
        let keys = parent_keys(nodes, &p);
        let mut children: Vec<(String, Vec<String>)> = Vec::new();
        let mut a: usize = 0;
        while a < keys.len()
            invariant
                paths_of(nodes@, p),
                gone.len() == nodes.len(),
                forall|m: int| 0 <= m < nodes.len() ==> #[trigger] gone@[m] == removed(nodes@, npar(nodes@[m]), nodes@[m].id@),
                forall|x: int, y: int| 0 <= x < y < keys.len() ==> keys@[x]@ != keys@[y]@,
                a <= keys.len(),
                children.len() == a,
                forall|j: int| 0 <= j < a ==> (#[trigger] children@[j]).0@ == keys@[j]@,
                forall|j: int| 0 <= j < a ==> views((#[trigger] children@[j]).1@) == kids(nodes@, keys@[j]@),
            decreases keys.len() - a,
        {
            let list = kids_of(nodes, &p, &gone, &keys[a]);
            children.push((keys[a].clone(), list));
            a = a + 1;
        }
        let ghost parents_part = children@;
        proof {
            assert forall|m: int|
                0 <= m < nodes.len() && has_parent(nodes@[m]) implies exists|x: int|
                    0 <= x < parents_part.len() && #[trigger] parents_part[x].0@ == npar(nodes@[m]) by {
                let w = choose|w: int| 0 <= w < keys.len() && #[trigger] keys@[w]@ == npar(nodes@[m]);
                assert(parents_part[w].0@ == keys@[w]@);
            }
            assert forall|j: int| 0 <= j < parents_part.len() implies parent_key(nodes@, (#[trigger] parents_part[j]).0@) by {
                assert(parents_part[j].0@ == keys@[j]@);
            }
        }
        let rl = root_list(nodes, &p, &table);
        let ps = project_list(nodes, &rl);
        proof {
            lemma_projects_unique(nodes@, session_roots(nodes@), session_roots(nodes@).len() as int);
        }
        let mut mem_ids: Vec<Vec<String>> = Vec::new();
        let mut mem_at: Vec<Vec<usize>> = Vec::new();
        let mut pkeys: Vec<(Vec<char>, Vec<char>)> = Vec::new();
        let mut q: usize = 0;
        while q < ps.len()
            invariant
                root_list_of(nodes@, rl),
                views(ps@) == projects(nodes@),
                q <= ps.len(),
                mem_ids.len() == q,
                mem_at.len() == q,
                key_views(pkeys@) == project_keys(nodes@).take(q as int),
                forall|w: int| 0 <= w < q ==> views((#[trigger] mem_ids@[w])@) == members(nodes@, ps@[w]@),
                forall|w: int| 0 <= w < q ==> (#[trigger] mem_at@[w]).len() == mem_ids@[w].len(),
                forall|w: int, u: int|
                    0 <= w < q && 0 <= u < mem_at@[w].len() ==> (#[trigger] mem_at@[w]@[u]) as int
                        == last_of_id(nodes@, mem_ids@[w]@[u]@),
                forall|w: int, u: int|
                    0 <= w < q && 0 <= u < mem_at@[w].len() ==> (#[trigger] mem_at@[w]@[u]) < nodes.len(),
            decreases ps.len() - q,
        {
            let (ids, at, best) = project_members(nodes, &rl, &ps[q]);
            let ghost prev = pkeys@;
            pkeys.push((best, Vec::new()));
            proof {
                assert(projects(nodes@)[q as int] == ps@[q as int]@);
                assert(key_views(pkeys@) =~= key_views(prev).push((latest(nodes@, ps@[q as int]@), Seq::<char>::empty())));
                assert(key_views(pkeys@) =~= project_keys(nodes@).take(q + 1));
            }
            mem_ids.push(ids);
            mem_at.push(at);
            q = q + 1;
        }
        assert(project_keys(nodes@).take(ps.len() as int) =~= project_keys(nodes@));
        let order = stable_desc_order(&pkeys);
        proof {
            assert forall|x: int, y: int| 0 <= x < y < ps.len() implies ps@[x]@ != ps@[y]@ by {
                assert(ps@[x]@ == projects(nodes@)[x]);
                assert(ps@[y]@ == projects(nodes@)[y]);
            }
        }
        let mut t: usize = 0;
        while t < ps.len()
            invariant
                views(ps@) == projects(nodes@),
                forall|x: int, y: int| 0 <= x < y < ps.len() ==> ps@[x]@ != ps@[y]@,
                mem_ids.len() == ps.len(),
                mem_at.len() == ps.len(),
                forall|w: int| 0 <= w < ps.len() ==> views((#[trigger] mem_ids@[w])@) == members(nodes@, ps@[w]@),
                forall|w: int| 0 <= w < ps.len() ==> (#[trigger] mem_at@[w]).len() == mem_ids@[w].len(),
                forall|w: int, u: int|
                    0 <= w < ps.len() && 0 <= u < mem_at@[w].len() ==> (#[trigger] mem_at@[w]@[u]) as int
                        == last_of_id(nodes@, mem_ids@[w]@[u]@),
                forall|w: int, u: int|
                    0 <= w < ps.len() && 0 <= u < mem_at@[w].len() ==> (#[trigger] mem_at@[w]@[u]) < nodes.len(),
                t <= ps.len(),
                children.len() >= parents_part.len(),
                forall|j: int| 0 <= j < parents_part.len() ==> #[trigger] children@[j] == parents_part[j],
                forall|j: int| 0 <= j < parents_part.len() ==> parent_key(nodes@, (#[trigger] parents_part[j]).0@),
                keys_unique(children@),
                forall|j: int|
                    parents_part.len() <= j < children.len() ==> exists|s: int|
                        0 <= s < t && (#[trigger] children@[j]).0@ == folder_of(projects(nodes@)[s]),
                forall|s: int|
                    0 <= s < t && !parent_key(nodes@, folder_of(#[trigger] projects(nodes@)[s])) ==> exists|j: int|
                        parents_part.len() <= j < children.len() && (#[trigger] children@[j]).0@ == folder_of(projects(nodes@)[s])
                            && sorted_members(nodes@, projects(nodes@)[s], views(children@[j].1@)),
            decreases ps.len() - t,
        {
            assert(projects(nodes@)[t as int] == ps@[t as int]@);
            let fid = folder_id(&ps[t]);
            let srs = sort_members(nodes, &ps[t], &mem_ids[t], &mem_at[t]);
            let ghost before = children@;
            let ghost fs = folder_of(projects(nodes@)[t as int]);
            match find_key(&children, &fid) {
                Some(j) => {
                    proof {
                        if j >= parents_part.len() {
                            let s = choose|s: int| 0 <= s < t && (#[trigger] children@[j as int]).0@ == folder_of(projects(nodes@)[s]);
                            lemma_folder_injective(projects(nodes@)[s], projects(nodes@)[t as int]);
                            assert(ps@[s]@ != ps@[t as int]@);
                            assert(false);
                        } else {
                            assert(parent_key(nodes@, parents_part[j as int].0@));
                        }
                    }
                },
                None => {
                    children.push((fid, srs));
                    proof {
                        assert forall|x: int, y: int| 0 <= x < y < children.len() implies children@[x].0@ != children@[y].0@ by {
                            if y == children.len() - 1 {
                                assert(children@[x] == before[x]);
                            }
                        }
                    }
                },
            }
            proof {
                assert forall|j: int|
                    parents_part.len() <= j < children.len() implies exists|s: int|
                        0 <= s < t + 1 && (#[trigger] children@[j]).0@ == folder_of(projects(nodes@)[s]) by {
                    if j < before.len() {
                        assert(children@[j] == before[j]);
                        let s = choose|s: int| 0 <= s < t && (#[trigger] before[j]).0@ == folder_of(projects(nodes@)[s]);
                        assert(children@[j].0@ == folder_of(projects(nodes@)[s]));
                    } else {
                        assert(children@[j].0@ == folder_of(projects(nodes@)[t as int]));
                    }
                }
                assert forall|s: int|
                    0 <= s < t + 1 && !parent_key(nodes@, folder_of(#[trigger] projects(nodes@)[s])) implies exists|j: int|
                        parents_part.len() <= j < children.len() && (#[trigger] children@[j]).0@ == folder_of(projects(nodes@)[s])
                            && sorted_members(nodes@, projects(nodes@)[s], views(children@[j].1@)) by {
                    if s < t {
                        let j = choose|j: int|
                            parents_part.len() <= j < before.len() && (#[trigger] before[j]).0@ == folder_of(projects(nodes@)[s])
                                && sorted_members(nodes@, projects(nodes@)[s], views(before[j].1@));
                        assert(children@[j] == before[j]);
                    } else {
                        if children.len() == before.len() {
                            let j = choose|j: int| 0 <= j < before.len() && #[trigger] before[j].0@ == fs;
                            if j >= parents_part.len() {
                                let s2 = choose|s2: int| 0 <= s2 < t && (#[trigger] before[j]).0@ == folder_of(projects(nodes@)[s2]);
                                lemma_folder_injective(projects(nodes@)[s2], projects(nodes@)[t as int]);
                                assert(ps@[s2]@ != ps@[t as int]@);
                            } else {
                                assert(parent_key(nodes@, parents_part[j].0@));
                            }
                            assert(false);
                        }
                        let j = children.len() - 1;
                        assert(children@[j].0@ == fs);
                    }
                }
            }
            t = t + 1;
        }
        let mut roots: Vec<String> = Vec::new();
        let mut r: usize = 0;
        while r < order.len()
            invariant
                views(ps@) == projects(nodes@),
                is_stable_desc_order(project_keys(nodes@), order@),
                r <= order.len(),
                views(roots@) == order@.take(r as int).map_values(|i: usize| folder_of(projects(nodes@)[i as int])),
            decreases order.len() - r,
        {
            let idx = order[r];
            assert(projects(nodes@)[idx as int] == ps@[idx as int]@);
            let fid = folder_id(&ps[idx]);
            let ghost prev_roots = roots@;
            roots.push(fid);
            assert(views(roots@) =~= views(prev_roots).push(folder_of(projects(nodes@)[idx as int])));
            assert(views(roots@) =~= order@.take(r + 1).map_values(|i: usize| folder_of(projects(nodes@)[i as int])));
            r = r + 1;
        }
        assert(order@.take(order.len() as int) =~= order@);
        let tree = Tree { roots, children, id_to_path: table };
        proof {
            let ch = tree.children@;
            assert forall|k: Seq<char>| #[trigger] parent_key(nodes@, k) implies has_key(ch, k) && views(value_at(ch, k)@) == kids(nodes@, k) by {
                let m = choose|m: int| 0 <= m < nodes.len() && has_parent(nodes@[m]) && #[trigger] npar(nodes@[m]) == k;
                let x = choose|x: int| 0 <= x < parents_part.len() && #[trigger] parents_part[x].0@ == npar(nodes@[m]);
                assert(ch[x] == parents_part[x]);
                lemma_value_at(ch, x);
            }
            assert forall|q: int|
                0 <= q < projects(nodes@).len() && !parent_key(nodes@, folder_of(#[trigger] projects(nodes@)[q]))
                implies has_key(ch, folder_of(projects(nodes@)[q])) && sorted_members(
                    nodes@,
                    projects(nodes@)[q],
                    views(value_at(ch, folder_of(projects(nodes@)[q]))@),
                ) by {
                let j = choose|j: int|
                    parents_part.len() <= j < ch.len() && (#[trigger] ch[j]).0@ == folder_of(projects(nodes@)[q])
                        && sorted_members(nodes@, projects(nodes@)[q], views(ch[j].1@));
                lemma_value_at(ch, j);
            }
            assert forall|j: int|
                0 <= j < ch.len() implies parent_key(nodes@, #[trigger] ch[j].0@) || exists|q: int|
                    0 <= q < projects(nodes@).len() && ch[j].0@ == folder_of(#[trigger] projects(nodes@)[q]) by {
                if j < parents_part.len() {
                    assert(ch[j] == parents_part[j]);
                } else {
                    let s = choose|s: int| 0 <= s < ps.len() && (#[trigger] ch[j]).0@ == folder_of(projects(nodes@)[s]);
                }
            }
        }
        tree
    }
}

} // verus!

verus! {

impl Tree {
    /// The lookup tables have one entry per key.
    pub open spec fn wf(&self) -> bool {
        keys_unique(self.children@) && keys_unique(self.id_to_path@)
    }

    /// The ids listed under `id`: under the session's file path for a
    /// session, under the id itself for a folder.
    pub open spec fn child_list(&self, id: Seq<char>) -> Seq<Seq<char>> {
        let key = if has_key(self.id_to_path@, id) {
            value_at(self.id_to_path@, id)@
        } else {
            id
        };
        if has_key(self.children@, key) {
            views(value_at(self.children@, key)@)
        } else {
            seq![]
        }
    }

    fn list_of(&self, id: &String) -> (r: Option<usize>)
        requires
            self.wf(),
        ensures
            r matches Some(j) ==> j < self.children.len() && views(self.children@[j as int].1@) == self.child_list(id@),
            r is None ==> self.child_list(id@) == Seq::<Seq<char>>::empty(),
    {
        let key = match find_key(&self.id_to_path, id) {
            Some(j) => {
                proof {
                    lemma_value_at(self.id_to_path@, j as int);
                }
                &self.id_to_path[j].1
            },
            None => id,
        };
        match find_key(&self.children, key) {
            Some(j) => {
                proof {
                    lemma_value_at(self.children@, j as int);
                }
                Some(j)
            },
            None => None,
        }
    }

    pub fn has_children(&self, id: &String) -> (r: bool)
        requires
            self.wf(),
        ensures
            r == (self.child_list(id@).len() > 0),
    {
        match self.list_of(id) {
            Some(j) => self.children[j].1.len() > 0,
            None => false,
        }
    }

    pub fn child_ids(&self, id: &String) -> (r: &[String])
        requires
            self.wf(),
        ensures
            views(r@) == self.child_list(id@),
    {
        match self.list_of(id) {
            Some(j) => self.children[j].1.as_slice(),
            None => {
                let e: &[String] = &[];
                assert(views(e@) =~= Seq::<Seq<char>>::empty());
                e
            },
        }
    }
}

pub proof fn lemma_tree_of_wf(nodes: Seq<Node>, t: Tree)
    requires
        tree_of(nodes, t),
    ensures
        t.wf(),
{
}

} // verus!

verus! {

/// One line of the flattened tree.
pub struct FlatRow {
    pub id: String,
    pub depth: usize,
    pub is_last: bool,
    pub ancestor_last: Vec<bool>,
    pub is_folder: bool,
}

/// A row as (id, depth, is last among its siblings, ancestors' last flags, is a folder).
pub type RowView = (Seq<char>, int, bool, Seq<bool>, bool);

pub open spec fn row_view(r: FlatRow) -> RowView {
    (r.id@, r.depth as int, r.is_last, r.ancestor_last@, r.is_folder)
}

pub open spec fn rows_view(rs: Seq<FlatRow>) -> Seq<RowView> {
    rs.map_values(|r: FlatRow| row_view(r))
}

pub open spec fn set_of(v: Seq<String>) -> Set<Seq<char>> {
    Set::new(|s: Seq<char>| exists|i: int| 0 <= i < v.len() && #[trigger] v[i]@ == s)
}

/// The rows of `id` and, where it is expanded, of everything below it,
/// expanding at most `fuel` levels.
pub open spec fn walk(
    t: Tree,
    exp: Set<Seq<char>>,
    id: Seq<char>,
    depth: int,
    is_last: bool,
    anc: Seq<bool>,
    fuel: nat,
) -> Seq<RowView>
    decreases fuel, 0int,
{
    let row = (id, depth, is_last, anc, depth == 0 && is_folder(id));
    if exp.contains(id) && fuel > 0 {
        seq![row] + walk_kids(t, exp, t.child_list(id), 0, depth + 1, anc.push(is_last), (fuel - 1) as nat)
    } else {
        seq![row]
    }
}

pub open spec fn walk_kids(
    t: Tree,
    exp: Set<Seq<char>>,
    kids: Seq<Seq<char>>,
    from: int,
    depth: int,
    anc: Seq<bool>,
    fuel: nat,
) -> Seq<RowView>
    decreases fuel, kids.len() - from + 1,
{
    if from < 0 || from >= kids.len() {
        seq![]
    } else {
        walk(t, exp, kids[from], depth, from + 1 == kids.len(), anc, fuel) + walk_kids(
            t,
            exp,
            kids,
            from + 1,
            depth,
            anc,
            fuel,
        )
    }
}

/// The walk never reaches an expanded node with children after its fuel is spent.
pub open spec fn walk_ok(t: Tree, exp: Set<Seq<char>>, id: Seq<char>, fuel: nat) -> bool
    decreases fuel, 0int,
{
    if !exp.contains(id) || t.child_list(id).len() == 0 {
        true
    } else if fuel == 0 {
        false
    } else {
        kids_ok(t, exp, t.child_list(id), 0, (fuel - 1) as nat)
    }
}

pub open spec fn kids_ok(t: Tree, exp: Set<Seq<char>>, kids: Seq<Seq<char>>, from: int, fuel: nat) -> bool
    decreases fuel, kids.len() - from + 1,
{
    if from < 0 || from >= kids.len() {
        true
    } else {
        walk_ok(t, exp, kids[from], fuel) && kids_ok(t, exp, kids, from + 1, fuel)
    }
}

/// Whether `expanded` holds `id`.
pub fn contains_id(expanded: &Vec<String>, id: &String) -> (r: bool)
    ensures
        r == set_of(expanded@).contains(id@),
{
    let mut i: usize = 0;
    while i < expanded.len()
        invariant
            i <= expanded.len(),
            forall|a: int| 0 <= a < i ==> expanded@[a]@ != id@,
        decreases expanded.len() - i,
    {
        if expanded[i] == *id {
            assert(expanded@[i as int]@ == id@);
            return true;
        }
        i = i + 1;
    }
    false
}

pub fn clone_bools(v: &[bool]) -> (r: Vec<bool>)
    ensures
        r@ == v@,
{
    let mut r: Vec<bool> = Vec::new();
    let mut i: usize = 0;
    while i < v.len()
        invariant
            i <= v.len(),
            r@ == v@.take(i as int),
        decreases v.len() - i,
    {
        r.push(v[i]);
        i = i + 1;
    }
    assert(v@.take(v@.len() as int) =~= v@);
    r
}

/// Appends the rows of `id` and its expanded descendants; false when the
/// expansion goes deeper than `fuel` levels.
pub fn walk_flat(
    id: &String,
    depth: usize,
    is_last: bool,
    ancestor_last: &[bool],
    tree: &Tree,
    expanded: &Vec<String>,
    out: &mut Vec<FlatRow>,
    fuel: usize,
) -> (ok: bool)
    requires
        tree.wf(),
        depth + fuel < usize::MAX,
    ensures
        ok == walk_ok(*tree, set_of(expanded@), id@, fuel as nat),
        ok ==> rows_view(final(out)@) == rows_view(old(out)@) + walk(
            *tree,
            set_of(expanded@),
            id@,
            depth as int,
            is_last,
            ancestor_last@,
            fuel as nat,
        ),
    decreases fuel, 1int,
{
    let folder = depth == 0 && is_folder_id(id);
    let ghost before = out@;
    out.push(FlatRow { id: id.clone(), depth, is_last, ancestor_last: clone_bools(ancestor_last), is_folder: folder });
    let ghost with_row = out@;
    assert(rows_view(with_row) =~= rows_view(before).push(
        (id@, depth as int, is_last, ancestor_last@, depth == 0 && is_folder(id@)),
    ));
    if !contains_id(expanded, id) {
        return true;
    }
    let kids = tree.child_ids(id);
    if kids.len() == 0 {
        proof {
            if fuel > 0 {
                assert(walk_kids(*tree, set_of(expanded@), tree.child_list(id@), 0, depth + 1, ancestor_last@.push(is_last), (fuel - 1) as nat) =~= Seq::<RowView>::empty());
            }
        }
        assert(rows_view(out@) =~= rows_view(before) + walk(*tree, set_of(expanded@), id@, depth as int, is_last, ancestor_last@, fuel as nat));
        return true;
    }
    if fuel == 0 {
        return false;
    }
    let mut child_ancestor = clone_bools(ancestor_last);
    child_ancestor.push(is_last);
    let ghost kv = views(kids@);
    let mut ki: usize = 0;
    while ki < kids.len()
        invariant
            tree.wf(),
            depth + fuel < usize::MAX,
            fuel > 0,
            kv == views(kids@),
            kv == tree.child_list(id@),
            set_of(expanded@).contains(id@),
            kids.len() > 0,
            ki <= kids.len(),
            kids_ok(*tree, set_of(expanded@), kv, 0, (fuel - 1) as nat) == (kids_ok(
                *tree,
                set_of(expanded@),
                kv,
                ki as int,
                (fuel - 1) as nat,
            ) && forall|a: int| 0 <= a < ki ==> walk_ok(*tree, set_of(expanded@), kv[a], (fuel - 1) as nat)),
            forall|a: int| 0 <= a < ki ==> walk_ok(*tree, set_of(expanded@), kv[a], (fuel - 1) as nat),
            rows_view(out@)
                + walk_kids(*tree, set_of(expanded@), kv, ki as int, depth + 1, child_ancestor@, (fuel - 1) as nat)
                == rows_view(with_row) + walk_kids(*tree, set_of(expanded@), kv, 0, depth + 1, child_ancestor@, (fuel - 1) as nat),
        decreases kids.len() - ki,
    {
        let kid_last = ki + 1 == kids.len();
        let ghost mid = out@;
        let ok = walk_flat(&kids[ki], depth + 1, kid_last, &child_ancestor, tree, expanded, out, fuel - 1);
        assert(kv[ki as int] == kids@[ki as int]@);
        assert(kids_ok(*tree, set_of(expanded@), kv, ki as int, (fuel - 1) as nat) == (walk_ok(*tree, set_of(expanded@), kv[ki as int], (fuel - 1) as nat) && kids_ok(*tree, set_of(expanded@), kv, ki + 1, (fuel - 1) as nat)));
        if !ok {
            assert(!kids_ok(*tree, set_of(expanded@), kv, 0, (fuel - 1) as nat));
            assert(set_of(expanded@).contains(id@));
            assert(tree.child_list(id@).len() > 0);
            assert(!walk_ok(*tree, set_of(expanded@), id@, fuel as nat));
            return false;
        }
        proof {
            assert(walk_kids(*tree, set_of(expanded@), kv, ki as int, depth + 1, child_ancestor@, (fuel - 1) as nat)
                == walk(*tree, set_of(expanded@), kv[ki as int], depth + 1, ki + 1 == kv.len(), child_ancestor@, (fuel - 1) as nat)
                    + walk_kids(*tree, set_of(expanded@), kv, ki + 1, depth + 1, child_ancestor@, (fuel - 1) as nat));
            assert(rows_view(out@) + walk_kids(*tree, set_of(expanded@), kv, ki + 1, depth + 1, child_ancestor@, (fuel - 1) as nat)
                =~= rows_view(mid) + walk_kids(*tree, set_of(expanded@), kv, ki as int, depth + 1, child_ancestor@, (fuel - 1) as nat));
        }
        ki = ki + 1;
    }
    assert(kids_ok(*tree, set_of(expanded@), kv, kids.len() as int, (fuel - 1) as nat));
    assert(walk_kids(*tree, set_of(expanded@), kv, kids.len() as int, depth + 1, child_ancestor@, (fuel - 1) as nat) =~= Seq::<RowView>::empty());
    assert(rows_view(out@) =~= rows_view(with_row) + walk_kids(*tree, set_of(expanded@), kv, 0, depth + 1, child_ancestor@, (fuel - 1) as nat));
    assert(rows_view(out@) =~= rows_view(before) + walk(*tree, set_of(expanded@), id@, depth as int, is_last, ancestor_last@, fuel as nat));
    true
}

} // verus!

verus! {

/// How many levels a walk may expand: one more than the number of child
/// lists, which only a cycle of parent links can use up.
pub open spec fn fuel_bound(t: Tree) -> nat {
    if t.children.len() < usize::MAX - 1 {
        (t.children.len() + 1) as nat
    } else {
        (usize::MAX - 2) as nat
    }
}

/// The rows the picker shows: every root, and below each expanded row its children.
pub open spec fn visible_rows(t: Tree, exp: Set<Seq<char>>) -> Seq<RowView> {
    walk_kids(t, exp, views(t.roots@), 0, 0, seq![], fuel_bound(t))
}

/// The expanded rows do not lead into a cycle of parent links.
pub open spec fn expansion_finite(t: Tree, exp: Set<Seq<char>>) -> bool {
    kids_ok(t, exp, views(t.roots@), 0, fuel_bound(t))
}

/// The visible rows for the given expanded ids; `None` when the expanded rows
/// lead into a cycle of parent links, which would never end.
pub fn build_visible(tree: &Tree, expanded: &Vec<String>) -> (r: Option<Vec<FlatRow>>)
    requires
        tree.wf(),
    ensures
        r is Some <==> expansion_finite(*tree, set_of(expanded@)),
        r matches Some(rows) ==> rows_view(rows@) == visible_rows(*tree, set_of(expanded@)),
{
    let fuel: usize = if tree.children.len() < usize::MAX - 1 {
        tree.children.len() + 1
    } else {
        usize::MAX - 2
    };
    let ghost kv = views(tree.roots@);
    let ghost exp = set_of(expanded@);
    let mut out: Vec<FlatRow> = Vec::new();
    let root_count = tree.roots.len();
    let mut ri: usize = 0;
    let empty: Vec<bool> = Vec::new();
    while ri < root_count
        invariant
            tree.wf(),
            fuel as nat == fuel_bound(*tree),
            fuel < usize::MAX,
            root_count == tree.roots.len(),
            kv == views(tree.roots@),
            exp == set_of(expanded@),
            empty@ == Seq::<bool>::empty(),
            ri <= root_count,
            kids_ok(*tree, exp, kv, 0, fuel as nat) == (kids_ok(*tree, exp, kv, ri as int, fuel as nat)
                && forall|a: int| 0 <= a < ri ==> walk_ok(*tree, exp, kv[a], fuel as nat)),
            forall|a: int| 0 <= a < ri ==> walk_ok(*tree, exp, kv[a], fuel as nat),
            rows_view(out@) + walk_kids(*tree, exp, kv, ri as int, 0, empty@, fuel as nat) == walk_kids(
                *tree,
                exp,
                kv,
                0,
                0,
                empty@,
                fuel as nat,
            ),
        decreases root_count - ri,
    {
        let is_last = ri + 1 == root_count;
        let ghost mid = out@;
        let ok = walk_flat(&tree.roots[ri], 0, is_last, &empty, tree, expanded, &mut out, fuel);
        assert(kv[ri as int] == tree.roots@[ri as int]@);
        assert(kids_ok(*tree, exp, kv, ri as int, fuel as nat) == (walk_ok(*tree, exp, kv[ri as int], fuel as nat)
            && kids_ok(*tree, exp, kv, ri + 1, fuel as nat)));
        if !ok {
            return None;
        }
        assert(walk_kids(*tree, exp, kv, ri as int, 0, empty@, fuel as nat) == walk(*tree, exp, kv[ri as int], 0, ri + 1
            == kv.len(), empty@, fuel as nat) + walk_kids(*tree, exp, kv, ri + 1, 0, empty@, fuel as nat));
        assert(rows_view(out@) + walk_kids(*tree, exp, kv, ri + 1, 0, empty@, fuel as nat) =~= rows_view(mid)
            + walk_kids(*tree, exp, kv, ri as int, 0, empty@, fuel as nat));
        ri = ri + 1;
    }
    assert(walk_kids(*tree, exp, kv, root_count as int, 0, empty@, fuel as nat) =~= Seq::<RowView>::empty());
    assert(rows_view(out@) =~= walk_kids(*tree, exp, kv, 0, 0, empty@, fuel as nat));
    assert(empty@ =~= seq![]);
    Some(out)
}

} // verus!
