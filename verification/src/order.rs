//! Lexicographic order on texts, and the stable descending sort built on it.
use vstd::prelude::*;

verus! {

/// `a` comes strictly before `b` in character-code order (the order of
/// `String`'s comparison).
pub open spec fn lex_lt(a: Seq<char>, b: Seq<char>) -> bool
    decreases a.len(),
{
    if a.len() == 0 {
        b.len() > 0
    } else if b.len() == 0 {
        false
    } else if a[0] != b[0] {
        (a[0] as int) < (b[0] as int)
    } else {
        lex_lt(a.drop_first(), b.drop_first())
    }
}

pub proof fn lemma_lex_irreflexive(a: Seq<char>)
    ensures
        !lex_lt(a, a),
    decreases a.len(),
{
    if a.len() > 0 {
        lemma_lex_irreflexive(a.drop_first());
    }
}

pub proof fn lemma_lex_transitive(a: Seq<char>, b: Seq<char>, c: Seq<char>)
    requires
        lex_lt(a, b),
        lex_lt(b, c),
    ensures
        lex_lt(a, c),
    decreases a.len(),
{
    if a.len() > 0 && b.len() > 0 && c.len() > 0 {
        if a[0] == b[0] && b[0] == c[0] {
            lemma_lex_transitive(a.drop_first(), b.drop_first(), c.drop_first());
        }
    }
}

pub proof fn lemma_lex_total(a: Seq<char>, b: Seq<char>)
    ensures
        a == b || lex_lt(a, b) || lex_lt(b, a),
    decreases a.len(),
{
    if a.len() > 0 && b.len() > 0 {
        if a[0] == b[0] {
            lemma_lex_total(a.drop_first(), b.drop_first());
            if a.drop_first() == b.drop_first() {
                assert(a =~= seq![a[0]] + a.drop_first());
                assert(b =~= seq![b[0]] + b.drop_first());
            }
        } else {
        }
    } else if a.len() == 0 && b.len() == 0 {
        assert(a =~= b);
    }
}

/// Whether `a` comes strictly before `b` in character-code order.
pub fn lex_less(a: &Vec<char>, b: &Vec<char>) -> (r: bool)
    ensures
        r == lex_lt(a@, b@),
{
    let mut i: usize = 0;
    assert(a@.skip(0) =~= a@ && b@.skip(0) =~= b@);
    while i < a.len() && i < b.len()
        invariant
            i <= a.len(),
            i <= b.len(),
            lex_lt(a@, b@) == lex_lt(a@.skip(i as int), b@.skip(i as int)),
        decreases a.len() - i,
    {
        let ghost (x, y) = (a@.skip(i as int), b@.skip(i as int));
        assert(x.drop_first() =~= a@.skip(i + 1));
        assert(y.drop_first() =~= b@.skip(i + 1));
        if a[i] != b[i] {
            return a[i] < b[i];
        }
        i = i + 1;
    }
    i == a.len() && i < b.len()
}

/// Order of two-part keys, greatest first: by the first part, then the second.
pub open spec fn key_gt(x: (Seq<char>, Seq<char>), y: (Seq<char>, Seq<char>)) -> bool {
    lex_lt(y.0, x.0) || (x.0 == y.0 && lex_lt(y.1, x.1))
}

pub proof fn lemma_key_transitive(
    x: (Seq<char>, Seq<char>),
    y: (Seq<char>, Seq<char>),
    z: (Seq<char>, Seq<char>),
)
    requires
        key_gt(x, y),
        key_gt(y, z),
    ensures
        key_gt(x, z),
{
    lemma_lex_irreflexive(x.0);
    lemma_lex_irreflexive(y.0);
    if lex_lt(y.0, x.0) && lex_lt(z.0, y.0) {
        lemma_lex_transitive(z.0, y.0, x.0);
    } else if x.0 == y.0 && y.0 == z.0 {
        lemma_lex_transitive(z.1, y.1, x.1);
    }
}

/// Non-strict form: `x` is at least `y`.
pub proof fn lemma_key_not_gt_total(x: (Seq<char>, Seq<char>), y: (Seq<char>, Seq<char>))
    ensures
        !key_gt(x, y) ==> (key_gt(y, x) || x == y),
        key_gt(x, y) ==> !key_gt(y, x),
{
    lemma_lex_total(x.0, y.0);
    lemma_lex_total(x.1, y.1);
    if key_gt(x, y) && key_gt(y, x) {
        lemma_key_transitive(x, y, x);
        lemma_lex_irreflexive(x.0);
        lemma_lex_irreflexive(x.1);
    }
}

/// The keys of `keys` as pairs of character sequences.
pub open spec fn key_views(keys: Seq<(Vec<char>, Vec<char>)>) -> Seq<(Seq<char>, Seq<char>)> {
    keys.map_values(|k: (Vec<char>, Vec<char>)| (k.0@, k.1@))
}

pub open spec fn key_of(keys: Seq<(Seq<char>, Seq<char>)>, i: int) -> (Seq<char>, Seq<char>) {
    keys[i]
}

/// Position `x` goes before position `y` in a stable sort, greatest key first.
pub open spec fn goes_before(keys: Seq<(Seq<char>, Seq<char>)>, x: int, y: int) -> bool {
    key_gt(key_of(keys, x), key_of(keys, y)) || (key_of(keys, x) == key_of(keys, y) && x < y)
}

/// `order` lists every position of `keys` exactly once, greatest key first,
/// equal keys in the order they came in.
pub open spec fn is_stable_desc_order(keys: Seq<(Seq<char>, Seq<char>)>, order: Seq<usize>) -> bool {
    &&& order.len() == keys.len()
    &&& forall|a: int| 0 <= a < order.len() ==> order[a] < keys.len()
    &&& forall|a: int, b: int|
        0 <= a < b < order.len() ==> goes_before(keys, order[a] as int, order[b] as int)
}

/// Sorts the positions of `keys` by key, greatest first, keeping equal keys
/// in the order they came in.
pub fn stable_desc_order(keys: &Vec<(Vec<char>, Vec<char>)>) -> (order: Vec<usize>)
    ensures
        is_stable_desc_order(key_views(keys@), order@),
{
    let ghost kv = key_views(keys@);
    let mut order: Vec<usize> = Vec::new();
    let mut i: usize = 0;
    while i < keys.len()
        invariant
            kv == key_views(keys@),
            i <= keys.len(),
            order.len() == i,
            forall|a: int| 0 <= a < order.len() ==> order[a] < i,
            forall|a: int, b: int|
                0 <= a < b < order.len() ==> goes_before(kv, order[a] as int, order[b] as int),
        decreases keys.len() - i,
    {
        // Find the first position whose key is strictly smaller than key i.
        let mut p: usize = 0;
        let mut found = false;
        while p < order.len() && !found
            invariant
                kv == key_views(keys@),
                p <= order.len(),
                order.len() == i,
                i < keys.len(),
                forall|a: int| 0 <= a < order.len() ==> order[a] < i,
                forall|a: int| 0 <= a < p ==> !key_gt(key_of(kv, i as int), key_of(kv, order[a] as int)),
                found ==> p < order.len() && key_gt(key_of(kv, i as int), key_of(kv, order[p as int] as int)),
            decreases order.len() - p + (if found { 0int } else { 1int }),
        {
            let e = order[p];
            let ki = &keys[i];
            let ke = &keys[e];
            let gt = lex_less(&ke.0, &ki.0) || (!lex_less(&ki.0, &ke.0) && !lex_less(&ke.0, &ki.0)
                && lex_less(&ke.1, &ki.1));
            proof {
                lemma_lex_total(ki.0@, ke.0@);
            }
            if gt {
                found = true;
            } else {
                p = p + 1;
            }
        }
        let ghost old_order = order@;
        proof {
            assert forall|a: int| 0 <= a < p implies goes_before(kv, old_order[a] as int, i as int) by {
                lemma_key_not_gt_total(key_of(kv, i as int), key_of(kv, old_order[a] as int));
            }
            assert forall|b: int| p <= b < old_order.len() implies goes_before(
                kv,
                i as int,
                old_order[b] as int,
            ) by {
                if b > p {
                    let kp = key_of(kv, old_order[p as int] as int);
                    let kb = key_of(kv, old_order[b] as int);
                    assert(goes_before(kv, old_order[p as int] as int, old_order[b] as int));
                    if key_gt(kp, kb) {
                        lemma_key_transitive(key_of(kv, i as int), kp, kb);
                    }
                }
            }
        }
        order.insert(p, i);
        proof {
            let no = order@;
            assert(no =~= old_order.insert(p as int, i));
            assert forall|a: int, b: int| 0 <= a < b < no.len() implies goes_before(
                kv,
                no[a] as int,
                no[b] as int,
            ) by {
                if b < p {
                } else if b == p {
                } else if a < p {
                    assert(no[b] == old_order[b - 1]);
                } else if a == p {
                    assert(no[b] == old_order[b - 1]);
                } else {
                    assert(no[a] == old_order[a - 1]);
                    assert(no[b] == old_order[b - 1]);
                }
            }
        }
        i = i + 1;
    }
    order
}

} // verus!

verus! {

/// Position `x` goes before `y`: higher score first, ties in the order they came in.
pub open spec fn score_before(scores: Seq<u32>, x: int, y: int) -> bool {
    scores[x] > scores[y] || (scores[x] == scores[y] && x < y)
}

/// `order` lists every position of `scores` once, highest score first,
/// equal scores in the order they came in (a stable sort by descending score).
pub open spec fn is_stable_score_order(scores: Seq<u32>, order: Seq<usize>) -> bool {
    &&& order.len() == scores.len()
    &&& forall|a: int| 0 <= a < order.len() ==> order[a] < scores.len()
    &&& forall|a: int, b: int|
        0 <= a < b < order.len() ==> score_before(scores, order[a] as int, order[b] as int)
}

pub fn stable_score_order(scores: &Vec<u32>) -> (order: Vec<usize>)
    ensures
        is_stable_score_order(scores@, order@),
{
    let mut order: Vec<usize> = Vec::new();
    let mut i: usize = 0;
    while i < scores.len()
        invariant
            i <= scores.len(),
            order.len() == i,
            forall|a: int| 0 <= a < order.len() ==> order[a] < i,
            forall|a: int, b: int|
                0 <= a < b < order.len() ==> score_before(scores@, order[a] as int, order[b] as int),
        decreases scores.len() - i,
    {
        let mut p: usize = 0;
        let mut found = false;
        while p < order.len() && !found
            invariant
                p <= order.len(),
                order.len() == i,
                i < scores.len(),
                forall|a: int| 0 <= a < order.len() ==> order[a] < i,
                forall|a: int| 0 <= a < p ==> scores@[order[a] as int] >= scores@[i as int],
                found ==> p < order.len() && scores@[order[p as int] as int] < scores@[i as int],
            decreases order.len() - p + (if found { 0int } else { 1int }),
        {
            if scores[order[p]] < scores[i] {
                found = true;
            } else {
                p = p + 1;
            }
        }
        let ghost old_order = order@;
        order.insert(p, i);
        proof {
            let no = order@;
            assert(no =~= old_order.insert(p as int, i));
            assert forall|a: int, b: int| 0 <= a < b < no.len() implies score_before(
                scores@,
                no[a] as int,
                no[b] as int,
            ) by {
                if b < p {
                } else if b == p {
                } else if a < p {
                    assert(no[b] == old_order[b - 1]);
                } else if a == p {
                    assert(no[b] == old_order[b - 1]);
                    if b - 1 > p {
                        assert(score_before(scores@, old_order[p as int] as int, old_order[b - 1] as int));
                    }
                } else {
                    assert(no[a] == old_order[a - 1]);
                    assert(no[b] == old_order[b - 1]);
                }
            }
        }
        i = i + 1;
    }
    order
}

} // verus!
