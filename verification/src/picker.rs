//! The flat fuzzy session picker: the full-text pre-filter, the fuzzy
//! ranking, the key handling and the highlighting of matched characters.
use vstd::prelude::*;
use crate::keys::{Key, KeyCode};
use vstd::string::StringSliceAdditionalSpecFns;
use crate::text::{chars_of, replace_all, string_of, joined, truncated, truncate, char_count, owned};
use crate::fuzzy::{fuzzy_indices, nucleo_match};

verus! {

broadcast use vstd::string::group_string_axioms;

/// The session a picker returns.
pub struct Selection {
    pub id: String,
    pub file_path: String,
}

/// Whether `char::is_alphanumeric` holds of `c`.
pub uninterp spec fn alphanumeric(c: char) -> bool;

/// Calls `char::is_alphanumeric`. Trusted: its result is named
/// `alphanumeric(c)`, a function of the character alone.
#[verifier::external_body]
fn is_alnum(c: char) -> (r: bool)
    ensures
        r == alphanumeric(c),
{
    c.is_alphanumeric()
}

/// A query character as the full-text search sees it: letters, digits, `-`
/// and `_` stay, anything else becomes a space.
pub open spec fn fts_char(c: char) -> char {
    if alphanumeric(c) || c == '-' || c == '_' {
        c
    } else {
        ' '
    }
}

/// The words of `s` (maximal runs without a space), `cur` being the word
/// read so far.
pub open spec fn words_from(s: Seq<char>, cur: Seq<char>) -> Seq<Seq<char>>
    decreases s.len(),
{
    if s.len() == 0 {
        if cur.len() > 0 {
            seq![cur]
        } else {
            seq![]
        }
    } else if s[0] == ' ' {
        (if cur.len() > 0 {
            seq![cur]
        } else {
            seq![]
        }) + words_from(s.drop_first(), seq![])
    } else {
        words_from(s.drop_first(), cur.push(s[0]))
    }
}

/// A word as an FTS5 prefix query: quoted (inner quotes doubled), then `*`.
pub open spec fn fts_term(w: Seq<char>) -> Seq<char> {
    seq!['"'] + crate::text::replaced(w, seq!['"'], seq!['"', '"']) + seq!['"', '*']
}

/// The FTS5 query for cleaned query text: one prefix term per word.
pub open spec fn fts_terms_of(s: Seq<char>) -> Seq<char> {
    joined(words_from(s, seq![]).map_values(|w: Seq<char>| fts_term(w)), seq![' '])
}

/// The FTS5 query for a typed query: one prefix term per word of its
/// cleaned text.
pub open spec fn fts_query_of(q: Seq<char>) -> Seq<char> {
    fts_terms_of(q.map_values(|c: char| fts_char(c)))
}

/// The FTS5 MATCH expression for a typed query; `None` when no word is left.
pub fn fts_query(query: &str) -> (r: Option<String>)
    ensures
        r is None <==> fts_query_of(query@).len() == 0,
        r is Some ==> r.unwrap()@ == fts_query_of(query@),
{
    let q = chars_of(query);
    let mut cleaned: Vec<char> = Vec::new();
    let mut i: usize = 0;
    while i < q.len()
        invariant
            i <= q.len(),
            q@ == query@,
            cleaned@ == q@.take(i as int).map_values(|c: char| fts_char(c)),
        decreases q.len() - i,
    {
        let c = q[i];
        let keep = is_alnum(c) || c == '-' || c == '_';
        cleaned.push(if keep { c } else { ' ' });
        assert(cleaned@ =~= q@.take(i + 1).map_values(|c: char| fts_char(c)));
        i = i + 1;
    }
    assert(q@.take(q@.len() as int) =~= q@);
    fts_terms(&cleaned)
}

/// The FTS5 MATCH expression for cleaned query text (spaces between words);
/// `None` when it has no word.
pub fn fts_terms(cleaned: &Vec<char>) -> (r: Option<String>)
    ensures
        r is None <==> fts_terms_of(cleaned@).len() == 0,
        r is Some ==> r.unwrap()@ == fts_terms_of(cleaned@),
{
    // Split into words.
    let ghost all = cleaned@;
    let mut words: Vec<Vec<char>> = Vec::new();
    let mut cur: Vec<char> = Vec::new();
    let mut k: usize = 0;
    assert(all.skip(0) =~= all);
    assert(cur@ =~= Seq::<char>::empty());
    assert(words@.map_values(|w: Vec<char>| w@) =~= Seq::<Seq<char>>::empty());
    while k < cleaned.len()
        invariant
            k <= cleaned.len(),
            all == cleaned@,
            words@.map_values(|w: Vec<char>| w@) + words_from(all.skip(k as int), cur@) == words_from(all, seq![]),
        decreases cleaned.len() - k,
    {
        let ghost rest = all.skip(k as int);
        assert(rest.drop_first() =~= all.skip(k + 1));
        let ghost before = words@;
        if cleaned[k] == ' ' {
            if cur.len() > 0 {
                words.push(cur);
                assert(words@.map_values(|w: Vec<char>| w@) =~= before.map_values(|w: Vec<char>| w@) + seq![cur@]);
            }
            cur = Vec::new();
        } else {
            cur.push(cleaned[k]);
        }
        k = k + 1;
    }
    assert(all.skip(k as int) =~= Seq::<char>::empty());
    if cur.len() > 0 {
        let ghost before = words@;
        words.push(cur);
        assert(words@.map_values(|w: Vec<char>| w@) =~= before.map_values(|w: Vec<char>| w@) + seq![cur@]);
    } else {
        assert(words@.map_values(|w: Vec<char>| w@) =~= words@.map_values(|w: Vec<char>| w@) + Seq::<Seq<char>>::empty());
    }
    let ghost wv = words@.map_values(|w: Vec<char>| w@);
    assert(wv == words_from(cleaned@, seq![]));
    // Quote each word and join with spaces.
    let mut quote: Vec<char> = Vec::new();
    quote.push('"');
    let mut two: Vec<char> = Vec::new();
    two.push('"');
    two.push('"');
    let mut out: Vec<char> = Vec::new();
    let mut w: usize = 0;
    while w < words.len()
        invariant
            w <= words.len(),
            wv == words@.map_values(|w: Vec<char>| w@),
            quote@ == seq!['"'],
            two@ == seq!['"', '"'],
            out@ == joined(wv.take(w as int).map_values(|x: Seq<char>| fts_term(x)), seq![' ']),
        decreases words.len() - w,
    {
        let ghost parts = wv.take(w + 1).map_values(|x: Seq<char>| fts_term(x));
        assert(parts.drop_last() =~= wv.take(w as int).map_values(|x: Seq<char>| fts_term(x)));
        if w > 0 {
            out.push(' ');
        }
        out.push('"');
        let inner = replace_all(&words[w], &quote, &two);
        let mut j: usize = 0;
        let ghost base = out@;
        while j < inner.len()
            invariant
                j <= inner.len(),
                out@ == base + inner@.take(j as int),
            decreases inner.len() - j,
        {
            out.push(inner[j]);
            j = j + 1;
        }
        assert(inner@.take(inner@.len() as int) =~= inner@);
        out.push('"');
        out.push('*');
        proof {
            assert(parts.last() == fts_term(words@[w as int]@));
            if w == 0 {
                assert(parts.len() == 1);
                assert(out@ =~= fts_term(words@[0]@));
            } else {
                assert(out@ =~= joined(parts.drop_last(), seq![' ']) + seq![' '] + parts.last());
            }
        }
        w = w + 1;
    }
    assert(wv.take(words.len() as int) =~= wv);
    if out.len() == 0 {
        None
    } else {
        Some(string_of(&out))
    }
}

} // verus!

verus! {

pub open spec fn item_ids(items: Seq<(Selection, String)>) -> Seq<Seq<char>> {
    items.map_values(|it: (Selection, String)| it.0.id@)
}

/// Position of the last item with this id, or -1.
pub open spec fn last_pos(ids: Seq<Seq<char>>, id: Seq<char>) -> int
    decreases ids.len(),
{
    if ids.len() == 0 {
        -1
    } else if ids.last() == id {
        ids.len() - 1
    } else {
        last_pos(ids.drop_last(), id)
    }
}

pub proof fn lemma_last_pos_bound(ids: Seq<Seq<char>>, id: Seq<char>)
    ensures
        -1 <= last_pos(ids, id) < ids.len(),
    decreases ids.len(),
{
    if ids.len() > 0 && ids.last() != id {
        lemma_last_pos_bound(ids.drop_last(), id);
    }
}

/// The items the full-text hits name, in hit order, hits naming no item dropped.
pub open spec fn hit_positions(ids: Seq<Seq<char>>, hits: Seq<Seq<char>>) -> Seq<usize>
    decreases hits.len(),
{
    if hits.len() == 0 {
        seq![]
    } else {
        let rest = hit_positions(ids, hits.drop_last());
        let p = last_pos(ids, hits.last());
        if p >= 0 {
            rest.push(p as usize)
        } else {
            rest
        }
    }
}

/// Maps full-text hits (session ids, best first) to positions in `items`.
pub fn fts_candidate_indices(items: &Vec<(Selection, String)>, hits: &Vec<String>) -> (r: Vec<usize>)
    ensures
        r@ == hit_positions(item_ids(items@), hits@.map_values(|h: String| h@)),
        forall|i: int| 0 <= i < r.len() ==> r@[i] < items.len(),
{
    let ghost ids = item_ids(items@);
    let ghost hv = hits@.map_values(|h: String| h@);
    let mut r: Vec<usize> = Vec::new();
    let mut k: usize = 0;
    while k < hits.len()
        invariant
            ids == item_ids(items@),
            hv == hits@.map_values(|h: String| h@),
            k <= hits.len(),
            r@ == hit_positions(ids, hv.take(k as int)),
            forall|i: int| 0 <= i < r.len() ==> r@[i] < items.len(),
        decreases hits.len() - k,
    {
        assert(hv.take(k + 1).drop_last() =~= hv.take(k as int));
        let mut j: usize = items.len();
        let mut found = false;
        assert(ids.take(items.len() as int) =~= ids);
        while j > 0 && !found
            invariant
                j <= items.len(),
                k < hits.len(),
                hv == hits@.map_values(|h: String| h@),
                ids == item_ids(items@),
                !found ==> last_pos(ids, hv[k as int]) == last_pos(ids.take(j as int), hv[k as int]),
                found ==> j < items.len() && last_pos(ids, hv[k as int]) == j,
            decreases j + (if found { 0int } else { 1int }),
        {
            assert(ids.take(j as int).drop_last() =~= ids.take(j - 1));
            assert(ids.take(j as int).last() == items@[j - 1].0.id@);
            if items[j - 1].0.id == hits[k] {
                found = true;
                j = j - 1;
            } else {
                j = j - 1;
            }
        }
        proof {
            lemma_last_pos_bound(ids, hv[k as int]);
            if !found {
                assert(ids.take(0) =~= Seq::<Seq<char>>::empty());
            }
        }
        if found {
            r.push(j);
        }
        k = k + 1;
    }
    assert(hv.take(hits.len() as int) =~= hv);
    r
}

/// The items the fuzzy matcher scores: the full-text hits when there are
/// any, otherwise every item in the order given.
pub open spec fn candidates(n: nat, fts: Option<Seq<usize>>) -> Seq<usize> {
    match fts {
        Some(v) => if v.len() > 0 {
            v
        } else {
            Seq::new(n, |i: int| i as usize)
        },
        None => Seq::new(n, |i: int| i as usize),
    }
}

/// The candidates the query matches, in candidate order.
pub open spec fn fuzzy_hits(items: Seq<(Selection, String)>, q: Seq<char>, cands: Seq<usize>) -> Seq<usize>
    decreases cands.len(),
{
    if cands.len() == 0 {
        seq![]
    } else {
        let rest = fuzzy_hits(items, q, cands.drop_last());
        if nucleo_match(q, items[cands.last() as int].1@) is Some {
            rest.push(cands.last())
        } else {
            rest
        }
    }
}

pub open spec fn hit_score(items: Seq<(Selection, String)>, q: Seq<char>, i: usize) -> u32 {
    nucleo_match(q, items[i as int].1@).unwrap().0
}

pub open spec fn hit_scores(items: Seq<(Selection, String)>, q: Seq<char>, hits: Seq<usize>) -> Seq<u32> {
    hits.map_values(|i: usize| hit_score(items, q, i))
}

/// Matching items and, per item, the matched character positions.
pub struct Ranking {
    pub matches: Vec<usize>,
    pub positions: Vec<Vec<u32>>,
}

/// The ranking of `items` for a typed query: with an empty query, every
/// candidate in order; otherwise the candidates the fuzzy matcher accepts,
/// best score first (ties keep candidate order), with the matched positions
/// of each.
pub open spec fn ranking_of(items: Seq<(Selection, String)>, q: Seq<char>, fts: Option<Seq<usize>>, r: Ranking) -> bool {
    let cands = candidates(items.len(), fts);
    &&& r.positions.len() == items.len()
    &&& if q.len() == 0 {
        &&& r.matches@ == cands
        &&& forall|i: int| 0 <= i < items.len() ==> (#[trigger] r.positions@[i])@.len() == 0
    } else {
        let hits = fuzzy_hits(items, q, cands);
        &&& exists|o: Seq<usize>|
            #[trigger] crate::order::is_stable_score_order(hit_scores(items, q, hits), o)
                && r.matches@ == o.map_values(|u: usize| hits[u as int])
        &&& forall|i: int|
            0 <= i < items.len() ==> (#[trigger] r.positions@[i])@ == if hits.contains(i as usize) {
                nucleo_match(q, items[i].1@).unwrap().1
            } else {
                Seq::<u32>::empty()
            }
    }
}

pub open spec fn opt_view(v: Option<Vec<usize>>) -> Option<Seq<usize>> {
    match v {
        Some(x) => Some(x@),
        None => None,
    }
}

pub fn rank_items(items: &Vec<(Selection, String)>, query: &str, fts: Option<Vec<usize>>) -> (r: Ranking)
    requires
        fts is Some ==> forall|i: int| 0 <= i < fts.unwrap().len() ==> fts.unwrap()@[i] < items.len(),
    ensures
        ranking_of(items@, query@, opt_view(fts), r),
{
    let ghost fv = opt_view(fts);
    let n = items.len();
    let cands: Vec<usize> = match fts {
        Some(v) if v.len() > 0 => v,
        _ => {
            let mut all: Vec<usize> = Vec::new();
            let mut i: usize = 0;
            while i < n
                invariant
                    i <= n,
                    all@ == Seq::new(i as nat, |k: int| k as usize),
                decreases n - i,
            {
                all.push(i);
                assert(all@ =~= Seq::new((i + 1) as nat, |k: int| k as usize));
                i = i + 1;
            }
            all
        },
    };
    assert(cands@ == candidates(items.len() as nat, fv));
    let mut positions: Vec<Vec<u32>> = Vec::new();
    let mut i: usize = 0;
    while i < n
        invariant
            i <= n,
            positions.len() == i,
            forall|k: int| 0 <= k < i ==> (#[trigger] positions@[k])@.len() == 0,
        decreases n - i,
    {
        positions.push(Vec::new());
        i = i + 1;
    }
    if char_count(query) == 0 {
        return Ranking { matches: cands, positions };
    }
    // Score each candidate.
    let mut hit_idx: Vec<usize> = Vec::new();
    let mut scores: Vec<u32> = Vec::new();
    let mut c: usize = 0;
    while c < cands.len()
        invariant
            n == items.len(),
            cands@ == candidates(items.len() as nat, fv),
            forall|k: int| 0 <= k < cands.len() ==> cands@[k] < n,
            c <= cands.len(),
            hit_idx@ == fuzzy_hits(items@, query@, cands@.take(c as int)),
            scores@ == hit_scores(items@, query@, hit_idx@),
            positions.len() == n,
            forall|k: int|
                0 <= k < n ==> (#[trigger] positions@[k])@ == if hit_idx@.contains(k as usize) {
                    nucleo_match(query@, items@[k].1@).unwrap().1
                } else {
                    Seq::<u32>::empty()
                },
        decreases cands.len() - c,
    {
        assert(cands@.take(c + 1).drop_last() =~= cands@.take(c as int));
        let idx = cands[c];
        let m = fuzzy_indices(query, items[idx].1.as_str());
        let ghost before = hit_idx@;
        match m {
            Some(found) => {
                hit_idx.push(idx);
                scores.push(found.0);
                positions.set(idx, found.1);
                proof {
                    assert(scores@ =~= hit_scores(items@, query@, hit_idx@));
                    assert forall|k: int|
                        0 <= k < n implies (#[trigger] positions@[k])@ == if hit_idx@.contains(k as usize) {
                            nucleo_match(query@, items@[k].1@).unwrap().1
                        } else {
                            Seq::<u32>::empty()
                        } by {
                        if k == idx {
                            assert(hit_idx@[before.len() as int] == idx);
                        } else {
                            if hit_idx@.contains(k as usize) {
                                let w = choose|w: int| 0 <= w < hit_idx@.len() && hit_idx@[w] == k as usize;
                                assert(w < before.len());
                                assert(before[w] == k as usize);
                            }
                            if before.contains(k as usize) {
                                let w = choose|w: int| 0 <= w < before.len() && before[w] == k as usize;
                                assert(hit_idx@[w] == k as usize);
                            }
                        }
                    }
                }
            },
            None => {},
        }
        c = c + 1;
    }
    assert(cands@.take(cands.len() as int) =~= cands@);
    let order = crate::order::stable_score_order(&scores);
    let mut matches: Vec<usize> = Vec::new();
    let mut t: usize = 0;
    while t < order.len()
        invariant
            crate::order::is_stable_score_order(scores@, order@),
            scores.len() == hit_idx.len(),
            t <= order.len(),
            matches@ == order@.take(t as int).map_values(|u: usize| hit_idx@[u as int]),
        decreases order.len() - t,
    {
        matches.push(hit_idx[order[t]]);
        assert(matches@ =~= order@.take(t + 1).map_values(|u: usize| hit_idx@[u as int]));
        t = t + 1;
    }
    assert(order@.take(order.len() as int) =~= order@);
    Ranking { matches, positions }
}

} // verus!

verus! {

/// The typed query and the cursor of the flat picker.
pub struct PickState {
    pub query: String,
    pub selected: usize,
}

/// What the flat picker does after a key press.
pub enum PickStep {
    Stay(PickState),
    Cancel,
    /// The item at this position was chosen.
    Pick(usize),
}

/// The full-text pre-filter runs for queries of two or more bytes without a `:`.
pub fn use_fts(query: &str) -> (r: bool)
    ensures
        r == (query.len() >= 2 && !query@.contains(':')),
{
    if query.len() < 2 {
        return false;
    }
    let q = chars_of(query);
    let mut i: usize = 0;
    while i < q.len()
        invariant
            i <= q.len(),
            q@ == query@,
            forall|k: int| 0 <= k < i ==> q@[k] != ':',
        decreases q.len() - i,
    {
        if q[i] == ':' {
            return false;
        }
        i = i + 1;
    }
    true
}

/// Keeps the cursor on the list of matches.
pub fn pick_settle(selected: usize, n_matches: usize) -> (r: usize)
    ensures
        r == if n_matches == 0 {
            0
        } else if selected < n_matches {
            selected as int
        } else {
            n_matches - 1
        },
{
    if n_matches == 0 {
        0
    } else if selected < n_matches {
        selected
    } else {
        n_matches - 1
    }
}

pub open spec fn is_char(k: Key, a: char, b: char) -> bool {
    k.code == KeyCode::Char(a) || k.code == KeyCode::Char(b)
}

/// What a key press does in the flat picker.
pub open spec fn pick_key_spec(state: PickState, matches: Seq<usize>, key: Key, step: PickStep) -> bool {
    let sel = state.selected as int;
    let n = matches.len() as int;
    if key.code == KeyCode::Enter && n > 0 {
        step == PickStep::Pick(matches[sel])
    } else if key.code == KeyCode::Esc || (is_char(key, 'c', 'g') && key.ctrl) {
        step is Cancel
    } else if key.code == KeyCode::Up || (is_char(key, 'p', 'k') && key.ctrl) {
        step matches PickStep::Stay(s) && s.query@ == state.query@ && s.selected == (if sel > 0 {
            sel - 1
        } else {
            0
        })
    } else if key.code == KeyCode::Down || (is_char(key, 'n', 'j') && key.ctrl) {
        step matches PickStep::Stay(s) && s.query@ == state.query@ && s.selected == (if sel + 1 < n {
            sel + 1
        } else if n > 0 {
            n - 1
        } else {
            0
        })
    } else if key.code == KeyCode::Backspace {
        step matches PickStep::Stay(s) && s.selected == 0 && s.query@ == (if state.query@.len() > 0 {
            state.query@.drop_last()
        } else {
            state.query@
        })
    } else if key.code is Char && !key.ctrl && !key.alt {
        step matches PickStep::Stay(s) && s.selected == 0 && s.query@ == state.query@.push(
            key.code->Char_0,
        )
    } else {
        step matches PickStep::Stay(s) && s.query@ == state.query@ && s.selected == state.selected
    }
}

/// Typing a character and erasing it gives back the query as it was, with
/// the cursor on the first match.
pub proof fn law_type_then_erase(
    state: PickState,
    m1: Seq<usize>,
    m2: Seq<usize>,
    c: char,
    s1: PickState,
    s2: PickState,
)
    requires
        pick_key_spec(state, m1, Key { code: KeyCode::Char(c), ctrl: false, alt: false }, PickStep::Stay(s1)),
        pick_key_spec(s1, m2, Key { code: KeyCode::Backspace, ctrl: false, alt: false }, PickStep::Stay(s2)),
    ensures
        s2.query@ == state.query@,
        s2.selected == 0,
{
    assert(s1.query@ == state.query@.push(c));
    assert(s1.query@.drop_last() =~= state.query@);
}

/// Applies one key press to the flat picker.
pub fn pick_key(state: PickState, matches: &Vec<usize>, key: Key) -> (step: PickStep)
    requires
        state.selected == 0 || state.selected < matches.len(),
    ensures
        pick_key_spec(state, matches@, key, step),
{
    let sel = state.selected;
    let n = matches.len();
    let code = key.code;
    let ch_is = |a: char, b: char| -> (r: bool)
        ensures
            r == (code == KeyCode::Char(a) || code == KeyCode::Char(b)),
        {
            match code {
                KeyCode::Char(c) => c == a || c == b,
                _ => false,
            }
        };
    let is_enter = match code { KeyCode::Enter => true, _ => false };
    let is_esc = match code { KeyCode::Esc => true, _ => false };
    let is_up = match code { KeyCode::Up => true, _ => false };
    let is_down = match code { KeyCode::Down => true, _ => false };
    let is_back = match code { KeyCode::Backspace => true, _ => false };
    if is_enter && n > 0 {
        PickStep::Pick(matches[sel])
    } else if is_esc || (ch_is('c', 'g') && key.ctrl) {
        PickStep::Cancel
    } else if is_up || (ch_is('p', 'k') && key.ctrl) {
        let s = if sel > 0 { sel - 1 } else { 0 };
        PickStep::Stay(PickState { query: state.query, selected: s })
    } else if is_down || (ch_is('n', 'j') && key.ctrl) {
        let s = if n > 0 && sel < n - 1 { sel + 1 } else if n > 0 { n - 1 } else { 0 };
        PickStep::Stay(PickState { query: state.query, selected: s })
    } else if is_back {
        let mut q = state.query;
        q.pop();
        PickStep::Stay(PickState { query: q, selected: 0 })
    } else {
        match code {
            KeyCode::Char(c) => {
                if !key.ctrl && !key.alt {
                    let mut q = state.query;
                    q.push(c);
                    PickStep::Stay(PickState { query: q, selected: 0 })
                } else {
                    PickStep::Stay(state)
                }
            },
            _ => PickStep::Stay(state),
        }
    }
}

} // verus!

verus! {

/// The colour switch written before a character: matched characters are
/// bold teal, others bold white on the selected row and grey elsewhere.
pub open spec fn style_of(matched: bool, selected: bool) -> Seq<char> {
    if matched {
        "\x1b[38;5;43;1m"@
    } else if selected {
        "\x1b[37;1m"@
    } else {
        "\x1b[38;5;250;0m"@
    }
}

/// The characters of `d` from `i` on, a colour switch written wherever the
/// matched state (or, first, the selected state) changes, then a reset.
pub open spec fn highlight_from(d: Seq<char>, pos: Seq<u32>, i: int, lm: bool, ls: bool, sel: bool) -> Seq<char>
    decreases d.len() - i,
{
    if i < 0 || i >= d.len() {
        "\x1b[0m"@
    } else {
        let m = pos.contains(i as u32);
        if m != lm || sel != ls {
            style_of(m, sel) + seq![d[i]] + highlight_from(d, pos, i + 1, m, sel, sel)
        } else {
            seq![d[i]] + highlight_from(d, pos, i + 1, lm, ls, sel)
        }
    }
}

/// A picker row: the text cut to `max_width`, matched positions highlighted.
pub open spec fn highlighted(text: Seq<char>, pos: Seq<u32>, max_width: nat, selected: bool) -> Seq<char> {
    highlight_from(truncated(text, max_width), pos, 0, false, false, selected)
}

pub fn contains_u32(v: &[u32], x: u32) -> (r: bool)
    ensures
        r == v@.contains(x),
{
    let mut i: usize = 0;
    while i < v.len()
        invariant
            i <= v.len(),
            forall|k: int| 0 <= k < i ==> v@[k] != x,
        decreases v.len() - i,
    {
        if v[i] == x {
            return true;
        }
        i = i + 1;
    }
    false
}

pub fn style_str(matched: bool, selected: bool) -> (r: &'static str)
    ensures
        r@ == style_of(matched, selected),
{
    if matched {
        "\x1b[38;5;43;1m"
    } else if selected {
        "\x1b[37;1m"
    } else {
        "\x1b[38;5;250;0m"
    }
}

/// Builds the text of one picker row.
pub fn highlight_line(text: &str, positions: &[u32], max_width: usize, selected: bool) -> (r: String)
    requires
        max_width > 0 || text@.len() == 0,
    ensures
        r@ == highlighted(text@, positions@, max_width as nat, selected),
{
    let display = truncate(text, max_width);
    let d = chars_of(display.as_str());
    let ghost dv = d@;
    let mut buf = String::new();
    let mut last_matched = false;
    let mut last_selected = false;
    let mut i: usize = 0;
    while i < d.len()
        invariant
            i <= d.len(),
            dv == d@,
            buf@ + highlight_from(dv, positions@, i as int, last_matched, last_selected, selected)
                == highlight_from(dv, positions@, 0, false, false, selected),
        decreases d.len() - i,
    {
        let matched = contains_u32(positions, i as u32);
        let ghost before = buf@;
        let ghost (lm, ls) = (last_matched, last_selected);
        let ghost piece: Seq<char> = if matched != lm || selected != ls {
            style_of(matched, selected) + seq![dv[i as int]]
        } else {
            seq![dv[i as int]]
        };
        if matched != last_matched || selected != last_selected {
            buf.push_str(style_str(matched, selected));
            last_matched = matched;
            last_selected = selected;
        }
        buf.push(d[i]);
        assert(buf@ =~= before + piece);
        assert(highlight_from(dv, positions@, i as int, lm, ls, selected) == piece + highlight_from(dv, positions@, i + 1, last_matched, last_selected, selected));
        assert(buf@ + highlight_from(dv, positions@, i + 1, last_matched, last_selected, selected) =~= before + (piece + highlight_from(dv, positions@, i + 1, last_matched, last_selected, selected)));
        i = i + 1;
    }
    assert(highlight_from(dv, positions@, i as int, last_matched, last_selected, selected) == "\x1b[0m"@);
    buf.push_str("\x1b[0m");
    buf
}

} // verus!

verus! {

/// Whether a key moves the flat picker's cursor up: the up arrow, or
/// Ctrl-P / Ctrl-K.
pub open spec fn up_key(key: Key) -> bool {
    key.code == KeyCode::Up || (key.ctrl && (key.code == KeyCode::Char('p') || key.code == KeyCode::Char('k')))
}

/// In the flat picker an up key moves the cursor one match up, and on the
/// first match leaves it there; the query is untouched.
pub proof fn law_up_moves_one_match(state: PickState, matches: Seq<usize>, key: Key, step: PickStep)
    requires
        up_key(key),
        pick_key_spec(state, matches, key, step),
    ensures
        step is Stay,
        step->Stay_0.query@ == state.query@,
        state.selected > 0 ==> step->Stay_0.selected + 1 == state.selected,
        state.selected == 0 ==> step->Stay_0.selected == 0,
{
}

/// A down key then an up key, away from the last match, puts the cursor
/// back where it was, the query untouched.
pub proof fn law_down_then_up_match(
    state: PickState,
    matches: Seq<usize>,
    s1: PickState,
    s2: PickState,
    ctrl: bool,
    alt: bool,
)
    requires
        state.selected + 1 < matches.len(),
        pick_key_spec(state, matches, Key { code: KeyCode::Down, ctrl, alt }, PickStep::Stay(s1)),
        pick_key_spec(s1, matches, Key { code: KeyCode::Up, ctrl, alt }, PickStep::Stay(s2)),
    ensures
        s2.selected == state.selected,
        s2.query@ == state.query@,
{
}

} // verus!
