use pii::keys::{Key, KeyCode};
use pii::settings::{
    changed_settings, cycle, free_text_cell, option_window, setting_defs, settings_hint, settings_key,
    SettingDef, SettingsState, SettingsStep,
};

fn key(code: KeyCode) -> Key {
    Key { code, ctrl: false, alt: false }
}

fn strings(v: &[&str]) -> Vec<String> {
    v.iter().map(|s| s.to_string()).collect()
}

#[test]
fn the_known_settings() {
    let defs = setting_defs();
    let keys: Vec<&str> = defs.iter().map(|d| d.key.as_str()).collect();
    assert_eq!(keys, vec!["picker.view", "picker.default_sort", "heatmap.palette", "ui.theme"]);
    assert_eq!(defs[1].options, strings(&["time", "cost", "tokens", "calls"]));
    assert_eq!(defs[0].label, "Picker view (-i, -c)");
}

#[test]
fn cycling_wraps_both_ways() {
    let def = SettingDef { key: "k".into(), label: "K".into(), options: strings(&["a", "b", "c"]) };
    let mut values = strings(&["c", "x"]);
    cycle(&def, &mut values, 0, 1);
    assert_eq!(values[0], "a");
    cycle(&def, &mut values, 0, -1);
    assert_eq!(values[0], "c");
    let mut values = strings(&[""]);
    cycle(&def, &mut values, 0, 1);
    assert_eq!(values[0], "b");
    let mut values = strings(&["zzz"]);
    cycle(&def, &mut values, 0, -1);
    assert_eq!(values[0], "c");
    let free = SettingDef { key: "k".into(), label: "K".into(), options: vec![] };
    let mut values = strings(&["text"]);
    cycle(&free, &mut values, 0, 1);
    assert_eq!(values[0], "text");
}

#[test]
fn cycling_forward_then_back_restores_the_value() {
    let def = SettingDef { key: "k".into(), label: "K".into(), options: strings(&["teal", "green", "blue", "amber"]) };
    for v in ["teal", "green", "blue", "amber"] {
        let mut values = strings(&[v]);
        cycle(&def, &mut values, 0, 1);
        cycle(&def, &mut values, 0, -1);
        assert_eq!(values[0], v);
    }
    let with_blank = SettingDef { key: "k".into(), label: "K".into(), options: strings(&["", "x", "y"]) };
    for v in ["", "x", "y"] {
        let mut values = strings(&[v]);
        cycle(&with_blank, &mut values, 0, 1);
        cycle(&with_blank, &mut values, 0, -1);
        assert_eq!(values[0], v);
    }
    let blank_last = SettingDef { key: "k".into(), label: "K".into(), options: strings(&["a", "b", ""]) };
    let mut values = strings(&["a"]);
    cycle(&blank_last, &mut values, 0, 1);
    cycle(&blank_last, &mut values, 0, -1);
    assert_eq!(values[0], "a");
}

#[test]
fn settings_keys() {
    let defs = setting_defs();
    let st = SettingsState { selected: 0, editing: None, values: strings(&["tree", "time", "teal", "dark"]) };
    let st = match settings_key(&defs, st, key(KeyCode::Right)) {
        SettingsStep::Stay(s) => s,
        _ => panic!("right stays"),
    };
    assert_eq!(st.values[0], "list");
    let st = match settings_key(&defs, st, key(KeyCode::Down)) {
        SettingsStep::Stay(s) => s,
        _ => panic!("down stays"),
    };
    assert_eq!(st.selected, 1);
    let st = match settings_key(&defs, st, key(KeyCode::Char('h'))) {
        SettingsStep::Stay(s) => s,
        _ => panic!("h stays"),
    };
    assert_eq!(st.values[1], "calls");
    match settings_key(&defs, st, key(KeyCode::Enter)) {
        SettingsStep::Commit(v) => assert_eq!(v, strings(&["list", "calls", "teal", "dark"])),
        _ => panic!("enter commits"),
    }
    let st = SettingsState { selected: 0, editing: None, values: strings(&["tree", "time", "teal", "dark"]) };
    assert!(matches!(settings_key(&defs, st, key(KeyCode::Char('q'))), SettingsStep::Cancel));
}

#[test]
fn free_text_settings_are_edited() {
    let defs = vec![SettingDef { key: "api.key".into(), label: "Key".into(), options: vec![] }];
    let st = SettingsState { selected: 0, editing: None, values: strings(&["ab"]) };
    let st = match settings_key(&defs, st, key(KeyCode::Char('e'))) {
        SettingsStep::Stay(s) => s,
        _ => panic!("e stays"),
    };
    assert_eq!(st.editing, Some("ab".to_string()));
    let st = match settings_key(&defs, st, key(KeyCode::Char('c'))) {
        SettingsStep::Stay(s) => s,
        _ => panic!("typing stays"),
    };
    let st = match settings_key(&defs, st, key(KeyCode::Backspace)) {
        SettingsStep::Stay(s) => s,
        _ => panic!("backspace stays"),
    };
    let st = match settings_key(&defs, st, key(KeyCode::Char('d'))) {
        SettingsStep::Stay(s) => s,
        _ => panic!("typing stays"),
    };
    let st = match settings_key(&defs, st, key(KeyCode::Enter)) {
        SettingsStep::Stay(s) => s,
        _ => panic!("enter in edit stays"),
    };
    assert_eq!(st.values, strings(&["abd"]));
    assert_eq!(st.editing, None);
}

#[test]
fn settings_cells_and_changes() {
    let opts = strings(&["a", "b", "c"]);
    assert_eq!(option_window(&opts, &"a".to_string()), ("c".to_string(), "a".to_string(), "b".to_string()));
    assert_eq!(option_window(&opts, &"".to_string()), ("c".to_string(), "a".to_string(), "b".to_string()));
    assert_eq!(free_text_cell(&"".to_string(), None), "[ empty ]");
    assert_eq!(free_text_cell(&"v".to_string(), None), "[ v ]");
    assert_eq!(free_text_cell(&"v".to_string(), Some(&"typ".to_string())), "[ typ▏");
    let def = SettingDef { key: "k".into(), label: "K".into(), options: vec![] };
    assert_eq!(settings_hint(&def, false), "  press 'e' to edit text, ←→ to skip");
    assert_eq!(settings_hint(&def, true), "  typing — enter to commit, esc to cancel input");
    assert_eq!(changed_settings(&strings(&["a", "b", "c"]), &strings(&["a", "x", "c"])), vec![1]);
}
