//! The settings picker: the known settings, cycling through their values,
//! and what each key press does.
use vstd::prelude::*;
use crate::keys::{Key, KeyCode};
use crate::text::owned;

verus! {

broadcast use vstd::string::group_string_axioms;

/// A setting the picker offers.
pub struct SettingDef {
    pub key: String,
    pub label: String,
    /// When non-empty, the value cycles through these; when empty, the
    /// row takes free-form text.
    pub options: Vec<String>,
}

pub open spec fn opt_views(v: Seq<String>) -> Seq<Seq<char>> {
    v.map_values(|s: String| s@)
}

/// All known settings, in display order.
pub open spec fn defs_spec() -> Seq<(Seq<char>, Seq<char>, Seq<Seq<char>>)> {
    seq![
        ("picker.view"@, "Picker view (-i, -c)"@, seq!["tree"@, "list"@]),
        ("picker.default_sort"@, "Default sort (picker)"@, seq!["time"@, "cost"@, "tokens"@, "calls"@]),
        ("heatmap.palette"@, "Heatmap palette"@, seq!["teal"@, "green"@, "blue"@, "amber"@]),
        ("ui.theme"@, "UI theme"@, seq!["dark"@, "light"@]),
    ]
}

pub open spec fn def_view(d: SettingDef) -> (Seq<char>, Seq<char>, Seq<Seq<char>>) {
    (d.key@, d.label@, opt_views(d.options@))
}

fn def(key: &str, label: &str, options: Vec<String>) -> (d: SettingDef)
    ensures
        d.key@ == key@,
        d.label@ == label@,
        d.options@ == options@,
{
    SettingDef { key: owned(key), label: owned(label), options }
}

fn strings2(a: &str, b: &str) -> (v: Vec<String>)
    ensures
        opt_views(v@) == seq![a@, b@],
{
    let mut v = Vec::new();
    v.push(owned(a));
    v.push(owned(b));
    assert(opt_views(v@) =~= seq![a@, b@]);
    v
}

fn strings4(a: &str, b: &str, c: &str, d: &str) -> (v: Vec<String>)
    ensures
        opt_views(v@) == seq![a@, b@, c@, d@],
{
    let mut v = Vec::new();
    v.push(owned(a));
    v.push(owned(b));
    v.push(owned(c));
    v.push(owned(d));
    assert(opt_views(v@) =~= seq![a@, b@, c@, d@]);
    v
}

/// The settings the picker shows.
pub fn setting_defs() -> (r: Vec<SettingDef>)
    ensures
        r@.map_values(|d: SettingDef| def_view(d)) == defs_spec(),
{
    let mut r = Vec::new();
    r.push(def("picker.view", "Picker view (-i, -c)", strings2("tree", "list")));
    r.push(def("picker.default_sort", "Default sort (picker)", strings4("time", "cost", "tokens", "calls")));
    r.push(def("heatmap.palette", "Heatmap palette", strings4("teal", "green", "blue", "amber")));
    r.push(def("ui.theme", "UI theme", strings2("dark", "light")));
    assert(r@.map_values(|d: SettingDef| def_view(d)) =~= defs_spec());
    r
}

/// The option a value stands for: an empty value means the first option.
pub open spec fn current_option(opts: Seq<Seq<char>>, value: Seq<char>) -> Seq<char> {
    if value.len() == 0 {
        opts[0]
    } else {
        value
    }
}

/// Position of the first option equal to `cur`, or 0 when there is none.
pub open spec fn first_index_of(opts: Seq<Seq<char>>, cur: Seq<char>) -> int {
    if exists|i: int| 0 <= i < opts.len() && opts[i] == cur {
        choose|i: int| 0 <= i < opts.len() && opts[i] == cur && forall|j: int| 0 <= j < i ==> opts[j] != cur
    } else {
        0
    }
}

/// Position of the first option equal to `cur`, or 0.
pub fn position_of(opts: &Vec<String>, cur: &String) -> (r: usize)
    ensures
        opts.len() > 0 ==> r < opts.len(),
        (exists|i: int| 0 <= i < opts.len() && opts@[i]@ == cur@) ==> opts@[r as int]@ == cur@ && forall|j: int|
            0 <= j < r ==> opts@[j]@ != cur@,
        !(exists|i: int| 0 <= i < opts.len() && opts@[i]@ == cur@) ==> r == 0,
        r == first_index_of(opt_views(opts@), cur@),
{
    let mut i: usize = 0;
    while i < opts.len()
        invariant
            i <= opts.len(),
            forall|j: int| 0 <= j < i ==> opts@[j]@ != cur@,
        decreases opts.len() - i,
    {
        if opts[i] == *cur {
            proof {
                let ov = opt_views(opts@);
                assert(ov[i as int] == cur@);
                let c = choose|k: int| 0 <= k < ov.len() && ov[k] == cur@ && forall|j: int| 0 <= j < k ==> ov[j] != cur@;
                if c < i {
                    assert(opts@[c]@ != cur@);
                }
                if c > i {
                    assert(ov[i as int] != cur@);
                }
            }
            return i;
        }
        i = i + 1;
    }
    proof {
        let ov = opt_views(opts@);
        assert forall|k: int| 0 <= k < ov.len() implies ov[k] != cur@ by {
            assert(opts@[k]@ != cur@);
        }
    }
    0
}

/// The value a setting takes when cycled one step in direction `dir`.
pub open spec fn cycled(opts: Seq<Seq<char>>, value: Seq<char>, dir: int) -> Seq<char> {
    let pos = first_index_of(opts, current_option(opts, value));
    opts[(pos + dir) % (opts.len() as int)]
}

/// Cycles `values[idx]` through the options of `def` in direction `dir`;
/// free-form settings are left alone.
pub fn cycle(def: &SettingDef, values: &mut Vec<String>, idx: usize, dir: i32)
    requires
        idx < old(values).len(),
        def.options.len() <= i32::MAX,
        def.options.len() > 0 ==> first_index_of(
            opt_views(def.options@),
            current_option(opt_views(def.options@), old(values)@[idx as int]@),
        ) + dir <= i32::MAX,
    ensures
        final(values)@.len() == old(values)@.len(),
        forall|j: int| 0 <= j < old(values)@.len() && j != idx ==> #[trigger] final(values)@[j] == old(values)@[j],
        def.options.len() == 0 ==> final(values)@[idx as int] == old(values)@[idx as int],
        def.options.len() > 0 ==> final(values)@[idx as int]@ == cycled(
            opt_views(def.options@),
            old(values)@[idx as int]@,
            dir as int,
        ),
{
    if def.options.len() == 0 {
        return;
    }
    let opts = &def.options;
    let ghost ov = opt_views(opts@);
    let pos = if crate::text::char_count(values[idx].as_str()) == 0 {
        assert(ov[0] == opts@[0]@);
        position_of(opts, &opts[0])
    } else {
        position_of(opts, &values[idx])
    };
    let n = opts.len() as u64;
    let x: i64 = pos as i64 + dir as i64;
    let next: usize = if x >= 0 {
        let r = (x as u64) % n;
        r as usize
    } else {
        let y = (-(x + 1)) as u64;
        let m = y % n;
        proof {
            let q = (y / n) as int;
            assert(y as int == q * (n as int) + m as int) by (nonlinear_arith)
                requires
                    n > 0,
                    q == y as int / n as int,
                    m as int == y as int % n as int,
            ;
            assert(x as int == (-q - 1) * (n as int) + (n - 1 - m)) by (nonlinear_arith)
                requires
                    y as int == q * (n as int) + m as int,
                    x as int == -(y as int) - 1,
            ;
            vstd::arithmetic::div_mod::lemma_fundamental_div_mod_converse(
                x as int,
                n as int,
                -q - 1,
                n - 1 - m,
            );
        }
        (n - 1 - m) as usize
    };
    let v = opts[next].clone();
    values.set(idx, v);
}

} // verus!

verus! {

/// The cursor, the text being typed (when a free-form row is being edited)
/// and the value of every setting.
pub struct SettingsState {
    pub selected: usize,
    pub editing: Option<String>,
    pub values: Vec<String>,
}

/// What the settings picker does after a key press.
pub enum SettingsStep {
    Stay(SettingsState),
    /// Escape: nothing is saved.
    Cancel,
    /// Enter: these values are saved.
    Commit(Vec<String>),
}

pub open spec fn str_views(v: Seq<String>) -> Seq<Seq<char>> {
    v.map_values(|s: String| s@)
}

pub open spec fn editing_view(e: Option<String>) -> Option<Seq<char>> {
    match e {
        Some(s) => Some(s@),
        None => None,
    }
}

/// The settings picker moved to these values, cursor and editing text.
pub open spec fn stays_as(
    step: SettingsStep,
    values: Seq<Seq<char>>,
    selected: int,
    editing: Option<Seq<char>>,
) -> bool {
    step matches SettingsStep::Stay(s) && str_views(s.values@) == values && s.selected == selected
        && editing_view(s.editing) == editing
}

pub open spec fn key_is(k: Key, code: KeyCode, c: char) -> bool {
    k.code == code || k.code == KeyCode::Char(c)
}

/// The settings can be cycled without overflowing the position arithmetic.
pub open spec fn defs_ok(defs: Seq<SettingDef>) -> bool {
    forall|i: int| 0 <= i < defs.len() ==> (#[trigger] defs[i]).options.len() < i32::MAX
}

/// What a key press does in the settings picker.
pub open spec fn settings_key_spec(defs: Seq<SettingDef>, st: SettingsState, key: Key, step: SettingsStep) -> bool {
    let sel = st.selected as int;
    let vals = str_views(st.values@);
    let opts = opt_views(defs[sel].options@);
    match st.editing {
        Some(buf) => if key.code == KeyCode::Esc {
            stays_as(step, vals, sel, None)
        } else if key.code == KeyCode::Enter {
            stays_as(step, vals.update(sel, buf@), sel, None)
        } else if key.code == KeyCode::Backspace {
            stays_as(step, vals, sel, Some(if buf@.len() > 0 { buf@.drop_last() } else { buf@ }))
        } else if key.code is Char && !key.ctrl && !key.alt {
            stays_as(step, vals, sel, Some(buf@.push(key.code->Char_0)))
        } else {
            stays_as(step, vals, sel, Some(buf@))
        },
        None => if key.code == KeyCode::Esc || key.code == KeyCode::Char('q') {
            step is Cancel
        } else if key.code == KeyCode::Enter {
            step matches SettingsStep::Commit(v) && str_views(v@) == vals
        } else if key_is(key, KeyCode::Up, 'k') && !key.ctrl {
            stays_as(step, vals, if sel > 0 { sel - 1 } else { 0 }, None)
        } else if key_is(key, KeyCode::Down, 'j') && !key.ctrl {
            stays_as(step, vals, if sel + 1 < defs.len() { sel + 1 } else { sel }, None)
        } else if key_is(key, KeyCode::Left, 'h') && !key.ctrl {
            stays_as(step, if opts.len() > 0 { vals.update(sel, cycled(opts, vals[sel], -1)) } else { vals }, sel, None)
        } else if key_is(key, KeyCode::Right, 'l') && !key.ctrl {
            stays_as(step, if opts.len() > 0 { vals.update(sel, cycled(opts, vals[sel], 1)) } else { vals }, sel, None)
        } else if key.code == KeyCode::Char('e') && opts.len() == 0 {
            stays_as(step, vals, sel, Some(vals[sel]))
        } else {
            stays_as(step, vals, sel, None)
        },
    }
}

fn code_is(code: KeyCode, want: KeyCode) -> (r: bool)
    ensures
        r == (code == want),
{
    match (code, want) {
        (KeyCode::Esc, KeyCode::Esc) => true,
        (KeyCode::Enter, KeyCode::Enter) => true,
        (KeyCode::Up, KeyCode::Up) => true,
        (KeyCode::Down, KeyCode::Down) => true,
        (KeyCode::Left, KeyCode::Left) => true,
        (KeyCode::Right, KeyCode::Right) => true,
        (KeyCode::Backspace, KeyCode::Backspace) => true,
        (KeyCode::Char(a), KeyCode::Char(b)) => a == b,
        (KeyCode::Other, KeyCode::Other) => true,
        _ => false,
    }
}

/// Applies one key press to the settings picker.
pub fn settings_key(defs: &Vec<SettingDef>, st: SettingsState, key: Key) -> (step: SettingsStep)
    requires
        st.selected < defs.len(),
        st.values.len() == defs.len(),
        defs_ok(defs@),
    ensures
        settings_key_spec(defs@, st, key, step),
{
    let sel = st.selected;
    let code = key.code;
    let ghost vals = str_views(st.values@);
    assert(defs@[sel as int].options.len() < i32::MAX);
    match st.editing {
        Some(buf) => {
            if code_is(code, KeyCode::Esc) {
                SettingsStep::Stay(SettingsState { selected: sel, editing: None, values: st.values })
            } else if code_is(code, KeyCode::Enter) {
                let mut values = st.values;
                values.set(sel, buf);
                assert(str_views(values@) =~= vals.update(sel as int, st.editing.unwrap()@));
                SettingsStep::Stay(SettingsState { selected: sel, editing: None, values })
            } else if code_is(code, KeyCode::Backspace) {
                let mut b = buf;
                b.pop();
                SettingsStep::Stay(SettingsState { selected: sel, editing: Some(b), values: st.values })
            } else {
                match code {
                    KeyCode::Char(c) => {
                        if !key.ctrl && !key.alt {
                            let mut b = buf;
                            b.push(c);
                            SettingsStep::Stay(SettingsState { selected: sel, editing: Some(b), values: st.values })
                        } else {
                            SettingsStep::Stay(SettingsState { selected: sel, editing: Some(buf), values: st.values })
                        }
                    },
                    _ => SettingsStep::Stay(SettingsState { selected: sel, editing: Some(buf), values: st.values }),
                }
            }
        },
        None => {
            if code_is(code, KeyCode::Esc) || code_is(code, KeyCode::Char('q')) {
                SettingsStep::Cancel
            } else if code_is(code, KeyCode::Enter) {
                SettingsStep::Commit(st.values)
            } else if (code_is(code, KeyCode::Up) || code_is(code, KeyCode::Char('k'))) && !key.ctrl {
                let s = if sel > 0 { sel - 1 } else { 0 };
                SettingsStep::Stay(SettingsState { selected: s, editing: None, values: st.values })
            } else if (code_is(code, KeyCode::Down) || code_is(code, KeyCode::Char('j'))) && !key.ctrl {
                let s = if sel + 1 < defs.len() { sel + 1 } else { sel };
                SettingsStep::Stay(SettingsState { selected: s, editing: None, values: st.values })
            } else if (code_is(code, KeyCode::Left) || code_is(code, KeyCode::Char('h'))) && !key.ctrl {
                let mut values = st.values;
                proof {
                    if defs@[sel as int].options.len() > 0 {
                        crate::settings::lemma_first_index_bound(opt_views(defs@[sel as int].options@), current_option(opt_views(defs@[sel as int].options@), values@[sel as int]@));
                    }
                }
                cycle(&defs[sel], &mut values, sel, -1);
                assert(defs@[sel as int].options.len() > 0 ==> str_views(values@) =~= vals.update(sel as int, cycled(opt_views(defs@[sel as int].options@), vals[sel as int], -1)));
                assert(defs@[sel as int].options.len() == 0 ==> str_views(values@) =~= vals);
                SettingsStep::Stay(SettingsState { selected: sel, editing: None, values })
            } else if (code_is(code, KeyCode::Right) || code_is(code, KeyCode::Char('l'))) && !key.ctrl {
                let mut values = st.values;
                proof {
                    if defs@[sel as int].options.len() > 0 {
                        crate::settings::lemma_first_index_bound(opt_views(defs@[sel as int].options@), current_option(opt_views(defs@[sel as int].options@), values@[sel as int]@));
                    }
                }
                cycle(&defs[sel], &mut values, sel, 1);
                assert(defs@[sel as int].options.len() > 0 ==> str_views(values@) =~= vals.update(sel as int, cycled(opt_views(defs@[sel as int].options@), vals[sel as int], 1)));
                assert(defs@[sel as int].options.len() == 0 ==> str_views(values@) =~= vals);
                SettingsStep::Stay(SettingsState { selected: sel, editing: None, values })
            } else if code_is(code, KeyCode::Char('e')) && defs[sel].options.len() == 0 {
                let v = st.values[sel].clone();
                SettingsStep::Stay(SettingsState { selected: sel, editing: Some(v), values: st.values })
            } else {
                SettingsStep::Stay(SettingsState { selected: sel, editing: None, values: st.values })
            }
        },
    }
}

pub proof fn lemma_first_exists(opts: Seq<Seq<char>>, cur: Seq<char>, i: int)
    requires
        0 <= i < opts.len(),
        opts[i] == cur,
    ensures
        exists|k: int| 0 <= k < opts.len() && opts[k] == cur && forall|j: int| 0 <= j < k ==> opts[j] != cur,
    decreases i,
{
    if exists|j: int| 0 <= j < i && opts[j] == cur {
        let j = choose|j: int| 0 <= j < i && opts[j] == cur;
        lemma_first_exists(opts, cur, j);
    } else {
        assert(forall|j: int| 0 <= j < i ==> opts[j] != cur);
    }
}

pub proof fn lemma_first_index_bound(opts: Seq<Seq<char>>, cur: Seq<char>)
    requires
        opts.len() > 0,
    ensures
        0 <= first_index_of(opts, cur) < opts.len(),
{
    if exists|i: int| 0 <= i < opts.len() && opts[i] == cur {
        let i = choose|i: int| 0 <= i < opts.len() && opts[i] == cur;
        lemma_first_exists(opts, cur, i);
    }
}

} // verus!

verus! {

/// The option before, at and after the current one, wrapping around.
pub fn option_window(opts: &Vec<String>, value: &String) -> (r: (String, String, String))
    requires
        opts.len() > 0,
    ensures
        ({
            let ov = opt_views(opts@);
            let n = ov.len() as int;
            let idx = first_index_of(ov, current_option(ov, value@));
            r.0@ == ov[(idx + n - 1) % n] && r.1@ == ov[idx] && r.2@ == ov[(idx + 1) % n]
        }),
{
    let ghost ov = opt_views(opts@);
    let idx = if crate::text::char_count(value.as_str()) == 0 {
        assert(ov[0] == opts@[0]@);
        position_of(opts, &opts[0])
    } else {
        position_of(opts, value)
    };
    let n = opts.len();
    let prev = if idx == 0 { n - 1 } else { idx - 1 };
    let next = if idx + 1 == n { 0 } else { idx + 1 };
    proof {
        if idx == 0 {
            vstd::arithmetic::div_mod::lemma_fundamental_div_mod_converse(idx + n - 1, n as int, 0, n - 1);
        } else {
            vstd::arithmetic::div_mod::lemma_fundamental_div_mod_converse(idx + n - 1, n as int, 1, idx - 1);
        }
        if idx + 1 == n {
            vstd::arithmetic::div_mod::lemma_fundamental_div_mod_converse(idx + 1, n as int, 1, 0);
        } else {
            vstd::arithmetic::div_mod::lemma_fundamental_div_mod_converse(idx + 1, n as int, 0, idx + 1);
        }
    }
    (opts[prev].clone(), opts[idx].clone(), opts[next].clone())
}

/// The text of a free-form setting's value cell.
pub fn free_text_cell(value: &String, editing: Option<&String>) -> (r: String)
    ensures
        editing is Some ==> r@ == "[ "@ + editing.unwrap()@ + "▏"@,
        editing is None && value@.len() == 0 ==> r@ == "[ empty ]"@,
        editing is None && value@.len() > 0 ==> r@ == "[ "@ + value@ + " ]"@,
{
    match editing {
        Some(buf) => {
            let mut r = owned("[ ");
            r.push_str(buf.as_str());
            r.push_str("▏");
            r
        },
        None => {
            if crate::text::char_count(value.as_str()) == 0 {
                owned("[ empty ]")
            } else {
                let mut r = owned("[ ");
                r.push_str(value.as_str());
                r.push_str(" ]");
                r
            }
        },
    }
}

/// The help line under the settings.
pub fn settings_hint(def: &SettingDef, editing: bool) -> (r: &'static str)
    ensures
        editing ==> r@ == "  typing — enter to commit, esc to cancel input"@,
        !editing && def.options.len() == 0 ==> r@ == "  press 'e' to edit text, ←→ to skip"@,
        !editing && def.options.len() > 0 ==> r@ == "  ← → to change, enter to save, esc to cancel"@,
{
    if editing {
        "  typing — enter to commit, esc to cancel input"
    } else if def.options.len() == 0 {
        "  press 'e' to edit text, ←→ to skip"
    } else {
        "  ← → to change, enter to save, esc to cancel"
    }
}

/// Positions of the settings to save: set to a value, and different from
/// what is stored.
pub open spec fn changed_upto(values: Seq<Seq<char>>, stored: Seq<Seq<char>>, k: int) -> Seq<usize>
    decreases k,
{
    if k <= 0 {
        seq![]
    } else {
        let rest = changed_upto(values, stored, k - 1);
        if values[k - 1].len() > 0 && values[k - 1] != stored[k - 1] {
            rest.push((k - 1) as usize)
        } else {
            rest
        }
    }
}

/// The settings a confirmed picker saves, by position.
pub fn changed_settings(values: &Vec<String>, stored: &Vec<String>) -> (r: Vec<usize>)
    requires
        stored.len() == values.len(),
    ensures
        r@ == changed_upto(str_views(values@), str_views(stored@), values.len() as int),
{
    let mut r: Vec<usize> = Vec::new();
    let mut i: usize = 0;
    while i < values.len()
        invariant
            stored.len() == values.len(),
            i <= values.len(),
            r@ == changed_upto(str_views(values@), str_views(stored@), i as int),
        decreases values.len() - i,
    {
        if crate::text::char_count(values[i].as_str()) > 0 && values[i] != stored[i] {
            r.push(i);
        }
        i = i + 1;
    }
    r
}

/// Cycling a setting one step forward and then one step back gives back the
/// option it had, when its options are distinct, it holds one of them, and
/// neither that option nor the next one is an empty option after the first
/// (an empty value reads as the first option).
pub proof fn law_cycle_back(opts: Seq<Seq<char>>, value: Seq<char>)
    requires
        opts.len() > 0,
        forall|i: int, j: int| 0 <= i < j < opts.len() ==> opts[i] != opts[j],
        opts.contains(value),
        forall|k: int|
            0 <= k < opts.len() && #[trigger] opts[k] == value ==> (k == 0 || value.len() > 0) && ((k + 1)
                % (opts.len() as int) == 0 || opts[(k + 1) % (opts.len() as int)].len() > 0),
    ensures
        cycled(opts, cycled(opts, value, 1), -1) == value,
{
    let n = opts.len() as int;
    let k = choose|k: int| 0 <= k < n && opts[k] == value;
    lemma_option_position(opts, k);
    let k2 = (k + 1) % n;
    lemma_option_position(opts, k2);
    if k + 1 < n {
        vstd::arithmetic::div_mod::lemma_small_mod((k + 1) as nat, n as nat);
        vstd::arithmetic::div_mod::lemma_small_mod(k as nat, n as nat);
    } else {
        vstd::arithmetic::div_mod::lemma_fundamental_div_mod_converse(k + 1, n, 1, 0);
        vstd::arithmetic::div_mod::lemma_fundamental_div_mod_converse(-1, n, -1, n - 1);
    }
}

proof fn lemma_option_position(opts: Seq<Seq<char>>, k: int)
    requires
        0 <= k < opts.len(),
        forall|i: int, j: int| 0 <= i < j < opts.len() ==> opts[i] != opts[j],
        k == 0 || opts[k].len() > 0,
    ensures
        first_index_of(opts, current_option(opts, opts[k])) == k,
{
    lemma_index_of_distinct(opts, k);
}

proof fn lemma_index_of_distinct(opts: Seq<Seq<char>>, k: int)
    requires
        0 <= k < opts.len(),
        forall|i: int, j: int| 0 <= i < j < opts.len() ==> opts[i] != opts[j],
    ensures
        first_index_of(opts, opts[k]) == k,
{
    let w = opts[k];
    assert(0 <= k < opts.len() && opts[k] == w);
    assert(exists|i: int| 0 <= i < opts.len() && opts[i] == w);
    let c = first_index_of(opts, w);
    if c != k {
        if c < k {
            assert(opts[c] != opts[k]);
        } else {
            assert(opts[k] != opts[c]);
        }
    }
}

} // verus!


verus! {

/// While a free-text setting is being edited, every key but Enter leaves
/// all values as they were; Esc also ends the editing, and only Enter
/// writes the typed text, into the edited setting alone.
pub proof fn law_only_enter_saves_input(defs: Seq<SettingDef>, st: SettingsState, key: Key, step: SettingsStep)
    requires
        st.editing is Some,
        settings_key_spec(defs, st, key, step),
    ensures
        step is Stay,
        step->Stay_0.selected == st.selected,
        key.code != KeyCode::Enter ==> str_views(step->Stay_0.values@) == str_views(st.values@),
        key.code == KeyCode::Esc ==> step->Stay_0.editing is None,
        key.code == KeyCode::Enter ==> step->Stay_0.editing is None && str_views(step->Stay_0.values@) == str_views(
            st.values@,
        ).update(st.selected as int, st.editing.unwrap()@),
{
}

} // verus!
