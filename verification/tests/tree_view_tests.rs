use pii::tree_view::{
    connector_prefix, counter_line, display_name, dump_line, folder_chevron, folder_name_width, name_cell, pick_rows,
    pick_window, picker_rows, session_chevron, session_name_width, tree_header, viewport,
};

#[test]
fn rows_and_windows() {
    assert_eq!(picker_rows(30), 12);
    assert_eq!(picker_rows(5), 5);
    assert_eq!(picker_rows(200), 40);
    assert_eq!(viewport(0, 3, 12), (0, 3));
    assert_eq!(viewport(15, 50, 12), (4, 16));
    assert_eq!(viewport(0, 0, 12), (0, 0));
    for sel in 0..30usize {
        let (a, b) = viewport(sel, 30, 7);
        assert!(a <= sel && sel < b && b - a <= 7);
        let (a, b) = pick_window(sel, 30, 7);
        assert!(a <= sel && sel < b && b - a <= 7);
    }
    assert_eq!(pick_rows(100, 24), 7);
    assert_eq!(pick_rows(3, 24), 3);
    assert_eq!(pick_rows(100, 2), 1);
    assert_eq!(counter_line(3, 40), "  3/40");
}

#[test]
fn connectors_and_chevrons() {
    assert_eq!(connector_prefix(0, &vec![], true), "");
    assert_eq!(connector_prefix(1, &vec![true], false), " ├─");
    assert_eq!(connector_prefix(2, &vec![true, false], true), " │  └─");
    assert_eq!(connector_prefix(3, &vec![true, true, false], true), "    │  └─");
    assert_eq!(folder_chevron(false, true), " ");
    assert_eq!(folder_chevron(true, true), "▾");
    assert_eq!(folder_chevron(true, false), "▸");
    assert_eq!(session_chevron(false, false), "  ");
    assert_eq!(session_chevron(true, true), "▾ ");
}

#[test]
fn name_widths_and_text() {
    assert_eq!(folder_name_width(120), 112);
    assert_eq!(folder_name_width(10), 10);
    assert_eq!(session_name_width(120, 0), 99);
    assert_eq!(session_name_width(120, 2), 92);
    assert_eq!(session_name_width(20, 3), 10);
    assert_eq!(name_cell("abcdef", 4), "abc…");
    assert_eq!(name_cell("ab", 4), "ab  ");
    assert_eq!(display_name("", "line one\nline\rtwo"), "line one line two");
    assert_eq!(display_name("Named", "prompt"), "Named");
    assert_eq!(tree_header(3, 10), "3/10 · ↑↓ nav · ←→ fold · enter select · esc quit");
}

#[test]
fn printed_tree_lines() {
    assert_eq!(dump_line(0, true, true, "pii", ""), "▼ folder [pii]");
    assert_eq!(dump_line(1, false, false, "0123456789abcdef", "a name"), "  · [01234567] a name");
    assert_eq!(dump_line(2, false, true, "abc", "n"), "    ▼ [abc] n");
    let long = "x".repeat(70);
    assert_eq!(dump_line(0, false, false, "id", &long), format!("· [id] {}…", "x".repeat(59)));
}

#[test]
fn chevrons_keep_the_name_column() {
    for h in [false, true] {
        for e in [false, true] {
            assert_eq!(session_chevron(h, e).chars().count(), 2);
        }
    }
}
