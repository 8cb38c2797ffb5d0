//! The text of the tree picker: how many rows it shows, which of them are
//! in view, the connectors and chevrons in front of a name, name widths, and
//! the names of sessions.
use vstd::prelude::*;
use crate::text::{owned, chars_of, string_of, string_of_range, truncate, truncated, pad_right, padded_right, byte_prefix, byte_prefix_len, utf8_len};
use crate::numfmt::{decimal, decimal_string};

verus! {

broadcast use vstd::string::group_string_axioms;

/// The number of item rows for a terminal `term_h` lines high: two fifths of
/// it, at least five and at most forty.
pub open spec fn rows_for(term_h: nat) -> nat {
    let r = term_h * 2 / 5;
    if r < 5 {
        5
    } else if r > 40 {
        40
    } else {
        r
    }
}

pub fn picker_rows(term_h: u16) -> (r: usize)
    ensures
        r == rows_for(term_h as nat),
        5 <= r <= 40,
{
    let r = (term_h as usize) * 2 / 5;
    if r < 5 {
        5
    } else if r > 40 {
        40
    } else {
        r
    }
}

/// The rows in view: `max_rows` rows ending at the cursor once it has moved
/// past the first screen, else from the top.
pub open spec fn view_window(selected: nat, len: nat, max_rows: nat) -> (nat, nat) {
    let start = if selected >= max_rows {
        (selected + 1 - max_rows) as nat
    } else {
        0
    };
    let end = if len < start + max_rows {
        len
    } else {
        start + max_rows
    };
    (start, end)
}

pub fn viewport(selected: usize, len: usize, max_rows: usize) -> (r: (usize, usize))
    requires
        selected < len || selected == 0,
        len + max_rows <= usize::MAX,
    ensures
        (r.0 as nat, r.1 as nat) == view_window(selected as nat, len as nat, max_rows as nat),
        r.1 <= len,
{
    let start = if selected >= max_rows { selected + 1 - max_rows } else { 0 };
    let end = if len < start + max_rows { len } else { start + max_rows };
    (start, end)
}

/// The connectors before a session at `depth`: a gap or a bar for each
/// ancestor level below the top, then a corner for the last child or a tee.
pub open spec fn connectors(depth: nat, ancestor_last: Seq<bool>, is_last: bool) -> Seq<char>
    decreases depth,
{
    if depth == 0 {
        Seq::<char>::empty()
    } else {
        bars(1, depth as int, ancestor_last) + if is_last {
            " └─"@
        } else {
            " ├─"@
        }
    }
}

/// The gap-or-bar pieces for levels `from` up to (not including) `to`.
pub open spec fn bars(from: int, to: int, ancestor_last: Seq<bool>) -> Seq<char>
    decreases to - from,
{
    if from >= to {
        Seq::<char>::empty()
    } else {
        bars(from, to - 1, ancestor_last) + if to - 1 < ancestor_last.len() && ancestor_last[to - 1] {
            "   "@
        } else {
            " │ "@
        }
    }
}

pub fn connector_prefix(depth: usize, ancestor_last: &Vec<bool>, is_last: bool) -> (r: String)
    ensures
        r@ == connectors(depth as nat, ancestor_last@, is_last),
{
    if depth == 0 {
        return String::new();
    }
    let mut s = String::new();
    let mut d: usize = 1;
    while d < depth
        invariant
            1 <= d <= depth,
            s@ == bars(1, d as int, ancestor_last@),
        decreases depth - d,
    {
        if d < ancestor_last.len() && ancestor_last[d] {
            s.push_str("   ");
        } else {
            s.push_str(" │ ");
        }
        d = d + 1;
    }
    if is_last {
        s.push_str(" └─");
    } else {
        s.push_str(" ├─");
    }
    s
}

/// The chevron of a folder row: blank without children, open or closed.
pub open spec fn folder_chevron_text(has_kids: bool, expanded: bool) -> Seq<char> {
    if !has_kids {
        " "@
    } else if expanded {
        "▾"@
    } else {
        "▸"@
    }
}

pub fn folder_chevron(has_kids: bool, expanded: bool) -> (r: &'static str)
    ensures
        r@ == folder_chevron_text(has_kids, expanded),
{
    if !has_kids {
        " "
    } else if expanded {
        "▾"
    } else {
        "▸"
    }
}

/// The two columns in front of a session's name: its chevron and a space,
/// or two spaces for a leaf.
pub open spec fn session_chevron_text(has_kids: bool, expanded: bool) -> Seq<char> {
    if !has_kids {
        "  "@
    } else if expanded {
        "▾ "@
    } else {
        "▸ "@
    }
}

pub fn session_chevron(has_kids: bool, expanded: bool) -> (r: &'static str)
    ensures
        r@ == session_chevron_text(has_kids, expanded),
{
    if !has_kids {
        "  "
    } else if expanded {
        "▾ "
    } else {
        "▸ "
    }
}

/// The width left for a folder's name: the terminal less eight columns, at
/// least ten.
pub open spec fn folder_width(term_w: nat) -> nat {
    let w = if term_w >= 8 {
        (term_w - 8) as nat
    } else {
        0
    };
    if w < 10 {
        10
    } else {
        w
    }
}

pub fn folder_name_width(term_w: u16) -> (r: usize)
    ensures
        r == folder_width(term_w as nat),
{
    let w = (term_w as usize).saturating_sub(8);
    if w < 10 {
        10
    } else {
        w
    }
}

/// The width left for a session's name at `depth`: the terminal less the
/// marker, the connectors, the chevron, and the cost and age columns, at
/// least ten.
pub open spec fn session_width(term_w: nat, depth: nat) -> nat {
    let indent = if depth > 0 {
        depth * 3 + 1
    } else {
        0
    };
    let fixed = 4 + indent + 2 + 2 + 6 + 2 + 5;
    let w = if term_w >= fixed {
        (term_w - fixed) as nat
    } else {
        0
    };
    if w < 10 {
        10
    } else {
        w
    }
}

pub fn session_name_width(term_w: u16, depth: usize) -> (r: usize)
    requires
        depth * 3 + 22 <= usize::MAX,
    ensures
        r == session_width(term_w as nat, depth as nat),
{
    let indent = if depth > 0 { depth * 3 + 1 } else { 0 };
    let fixed = 4 + indent + 2 + 2 + 6 + 2 + 5;
    let w = (term_w as usize).saturating_sub(fixed);
    if w < 10 {
        10
    } else {
        w
    }
}

/// A name cut to `w` characters and padded to them.
pub fn name_cell(name: &str, w: usize) -> (r: String)
    requires
        w > 0,
    ensures
        r@ == pad_right(truncated(name@, w as nat), w as nat),
{
    let t = truncate(name, w);
    padded_right(t.as_str(), w)
}

/// The name a session is shown by: its assigned name, else its first
/// prompt, with line breaks turned into spaces.
pub open spec fn shown_name(ai_name: Seq<char>, prompt: Seq<char>) -> Seq<char> {
    let n = if ai_name.len() > 0 {
        ai_name
    } else {
        prompt
    };
    n.map_values(|c: char| if c == '\n' || c == '\r' {
        ' '
    } else {
        c
    })
}

pub fn display_name(ai_name: &str, prompt: &str) -> (r: String)
    ensures
        r@ == shown_name(ai_name@, prompt@),
{
    let src = if ai_name.is_empty() { prompt } else { ai_name };
    let v = chars_of(src);
    let mut out: Vec<char> = Vec::new();
    let mut i: usize = 0;
    while i < v.len()
        invariant
            i <= v.len(),
            out@ == v@.take(i as int).map_values(|c: char| if c == '\n' || c == '\r' {
                ' '
            } else {
                c
            }),
        decreases v.len() - i,
    {
        let c = v[i];
        out.push(if c == '\n' || c == '\r' { ' ' } else { c });
        proof {
            assert(v@.take(i + 1) =~= v@.take(i as int).push(c));
        }
        i = i + 1;
    }
    proof {
        assert(v@.take(i as int) =~= v@);
    }
    string_of(&out)
}

/// The header of the tree picker: rows shown of all sessions, and the keys.
pub open spec fn tree_header_text(visible: nat, total: nat) -> Seq<char> {
    decimal(visible) + seq!['/'] + decimal(total) + " · ↑↓ nav · ←→ fold · enter select · esc quit"@
}

pub fn tree_header(visible: usize, total: usize) -> (r: String)
    ensures
        r@ == tree_header_text(visible as nat, total as nat),
{
    let mut s = decimal_string(visible as u128);
    s.push('/');
    let t = decimal_string(total as u128);
    s.push_str(t.as_str());
    s.push_str(" · ↑↓ nav · ←→ fold · enter select · esc quit");
    s
}

/// The number of item rows of the flat picker: two fifths of the terminal
/// (at least three) less two, and no more than there are items.
pub open spec fn pick_rows_for(n_items: nat, height: nat) -> nat {
    let a = height * 2 / 5;
    let b = if a < 3 {
        3
    } else {
        a
    };
    let c = (b - 2) as nat;
    if n_items < c {
        n_items
    } else {
        c
    }
}

pub fn pick_rows(n_items: usize, height: u16) -> (r: usize)
    ensures
        r == pick_rows_for(n_items as nat, height as nat),
{
    let a = (height as usize) * 2 / 5;
    let b = if a < 3 { 3 } else { a };
    let c = b - 2;
    if n_items < c {
        n_items
    } else {
        c
    }
}

/// The items in view in the flat picker: `max_rows` of them ending at the
/// cursor, or from the top.
pub open spec fn pick_window_of(selected: nat, len: nat, max_rows: nat) -> (nat, nat) {
    let start = if selected + 1 > max_rows {
        (selected + 1 - max_rows) as nat
    } else {
        0
    };
    let end = if len < start + max_rows {
        len
    } else {
        start + max_rows
    };
    (start, end)
}

pub fn pick_window(selected: usize, len: usize, max_rows: usize) -> (r: (usize, usize))
    requires
        selected < len || selected == 0,
        len + max_rows <= usize::MAX,
    ensures
        (r.0 as nat, r.1 as nat) == pick_window_of(selected as nat, len as nat, max_rows as nat),
{
    let start = selected.saturating_add(1).saturating_sub(max_rows);
    let end = if len < start + max_rows { len } else { start + max_rows };
    (start, end)
}

/// The counter line of the flat picker: matches of items.
pub open spec fn counter_text(matches: nat, items: nat) -> Seq<char> {
    seq![' ', ' '] + decimal(matches) + seq!['/'] + decimal(items)
}

pub fn counter_line(matches: usize, items: usize) -> (r: String)
    ensures
        r@ == counter_text(matches as nat, items as nat),
{
    let mut s = String::new();
    s.push(' ');
    s.push(' ');
    let m = decimal_string(matches as u128);
    s.push_str(m.as_str());
    s.push('/');
    let n = decimal_string(items as u128);
    s.push_str(n.as_str());
    s
}

/// The tree picker's cursor is always in view, and no more rows than fit are
/// shown.
pub proof fn law_cursor_in_view(selected: nat, len: nat, max_rows: nat)
    requires
        selected < len,
        max_rows > 0,
    ensures
        view_window(selected, len, max_rows).0 <= selected < view_window(selected, len, max_rows).1,
        view_window(selected, len, max_rows).1 - view_window(selected, len, max_rows).0 <= max_rows,
        view_window(selected, len, max_rows).1 <= len,
{
}

/// The flat picker's cursor is always in view, and no more items than fit
/// are shown.
pub proof fn law_pick_cursor_in_view(selected: nat, len: nat, max_rows: nat)
    requires
        selected < len,
        max_rows > 0,
    ensures
        pick_window_of(selected, len, max_rows).0 <= selected < pick_window_of(selected, len, max_rows).1,
        pick_window_of(selected, len, max_rows).1 - pick_window_of(selected, len, max_rows).0 <= max_rows,
        pick_window_of(selected, len, max_rows).1 <= len,
{
}

/// The first eight bytes of an id, or all of it when it is shorter.
pub open spec fn id_head(id: Seq<char>) -> Seq<char> {
    match byte_prefix(id, 8) {
        Some(p) => p,
        None => id,
    }
}

/// A line of the printed session tree: two spaces per level, a filled
/// triangle for a node with children or a dot, then the folder's project or
/// the head of the session id and its name cut to sixty characters.
pub open spec fn dump_text(depth: nat, folder: bool, has_kids: bool, id_or_project: Seq<char>, name: Seq<char>) -> Seq<char> {
    Seq::new(depth * 2, |i: int| ' ') + (if has_kids {
        "▼"@
    } else {
        "·"@
    }) + if folder {
        " folder ["@ + id_or_project + "]"@
    } else {
        " ["@ + id_head(id_or_project) + "] "@ + truncated(name, 60)
    }
}

pub fn dump_line(depth: usize, folder: bool, has_kids: bool, id_or_project: &str, name: &str) -> (r: String)
    requires
        depth * 2 <= usize::MAX,
        !folder ==> byte_prefix(id_or_project@, 8) is Some || utf8_len(id_or_project@) < 8,
    ensures
        r@ == dump_text(depth as nat, folder, has_kids, id_or_project@, name@),
{
    let mut s = String::new();
    let mut i: usize = 0;
    while i < depth * 2
        invariant
            depth * 2 <= usize::MAX,
            i <= depth * 2,
            s@ == Seq::new(i as nat, |k: int| ' '),
        decreases depth * 2 - i,
    {
        s.push(' ');
        i = i + 1;
        assert(s@ =~= Seq::new(i as nat, |k: int| ' '));
    }
    s.push_str(if has_kids { "▼" } else { "·" });
    if folder {
        s.push_str(" folder [");
        s.push_str(id_or_project);
        s.push_str("]");
    } else {
        s.push_str(" [");
        let v = chars_of(id_or_project);
        match byte_prefix_len(&v, 8) {
            Some(k) => {
                let h = string_of_range(&v, 0, k);
                proof {
                    assert(v@.subrange(0, k as int) =~= v@.take(k as int));
                }
                s.push_str(h.as_str());
            },
            None => {
                s.push_str(id_or_project);
            },
        }
        s.push_str("] ");
        let t = truncate(name, 60);
        s.push_str(t.as_str());
    }
    s
}

/// A session's name starts in the same column whether or not it has a
/// chevron: both take two columns.
pub proof fn law_chevron_column(has_kids: bool, expanded: bool)
    ensures
        session_chevron_text(has_kids, expanded).len() == 2,
{
    reveal_strlit("  ");
    reveal_strlit("▾ ");
    reveal_strlit("▸ ");
}

} // verus!

