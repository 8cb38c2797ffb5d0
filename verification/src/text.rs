//! Character-level text utilities shared by the rest of the crate.
use vstd::prelude::*;
use vstd::string::*;

verus! {

broadcast use vstd::string::group_string_axioms;

/// `String::push`: trusted to append the character, as std documents.
pub assume_specification[ String::push ](s: &mut String, ch: char)
    ensures
        final(s)@ == old(s)@.push(ch),
;

/// `String::pop`: trusted to remove and return the last character, or to
/// return `None` and leave an empty string as it is, as std documents.
pub assume_specification[ String::pop ](s: &mut String) -> (r: Option<char>)
    ensures
        old(s)@.len() > 0 ==> r == Some(old(s)@.last()) && final(s)@ == old(s)@.drop_last(),
        old(s)@.len() == 0 ==> r is None && final(s)@ == old(s)@,
;

/// `String::push_str`: trusted to append the text, as std documents.
pub assume_specification[ String::push_str ](s: &mut String, string: &str)
    ensures
        final(s)@ == old(s)@ + string@,
;

/// The text of `s` cut to at most `max` characters, marked with an ellipsis.
pub open spec fn truncated(s: Seq<char>, max: nat) -> Seq<char> {
    if s.len() > max {
        s.take(max - 1).push('…')
    } else {
        s
    }
}

/// Number of characters of `s`.
pub fn char_count(s: &str) -> (n: usize)
    ensures
        n == s@.len(),
{
    s.unicode_len()
}

/// The characters of `s`, one per element.
pub fn chars_of(s: &str) -> (v: Vec<char>)
    ensures
        v@ == s@,
{
    let mut v: Vec<char> = Vec::new();
    for c in it: s.chars()
        invariant
            it.seq() == s@,
            v@ == s@.take(it.index() as int),
    {
        v.push(c);
    }
    v
}

/// The string made of the characters `v[from..to]`.
pub fn string_of_range(v: &Vec<char>, from: usize, to: usize) -> (s: String)
    requires
        from <= to <= v.len(),
    ensures
        s@ == v@.subrange(from as int, to as int),
{
    let mut s = String::new();
    let mut i = from;
    while i < to
        invariant
            from <= i <= to <= v.len(),
            s@ == v@.subrange(from as int, i as int),
        decreases to - i,
    {
        s.push(v[i]);
        i = i + 1;
    }
    s
}

/// The string made of the characters of `v`.
pub fn string_of(v: &Vec<char>) -> (s: String)
    ensures
        s@ == v@,
{
    string_of_range(v, 0, v.len())
}

/// A fresh owned copy of `s`.
pub fn owned(s: &str) -> (r: String)
    ensures
        r@ == s@,
{
    s.to_string()
}

/// Whether two texts are equal, character by character.
pub fn str_eq(a: &str, b: &str) -> (r: bool)
    ensures
        r == (a@ == b@),
{
    let x = a.to_string();
    let y = b.to_string();
    x == y
}

/// Whether `v[at..]` begins with `p`.
pub open spec fn has_at(v: Seq<char>, at: int, p: Seq<char>) -> bool {
    0 <= at && at + p.len() <= v.len() && v.subrange(at, at + p.len()) == p
}

pub fn matches_at(v: &Vec<char>, at: usize, p: &Vec<char>) -> (r: bool)
    ensures
        r == has_at(v@, at as int, p@),
{
    if at > v.len() || p.len() > v.len() - at {
        return false;
    }
    let mut j: usize = 0;
    while j < p.len()
        invariant
            at + p.len() <= v.len(),
            j <= p.len(),
            forall|k: int| 0 <= k < j ==> v@[at + k] == p@[k],
        decreases p.len() - j,
    {
        if v[at + j] != p[j] {
            assert(v@.subrange(at as int, at + p.len())[j as int] != p@[j as int]);
            return false;
        }
        j = j + 1;
    }
    assert(v@.subrange(at as int, at + p.len()) =~= p@);
    true
}

/// `s` with every non-overlapping occurrence of `from`, scanned left to right,
/// replaced by `to`.
pub open spec fn replaced(s: Seq<char>, from: Seq<char>, to: Seq<char>) -> Seq<char>
    decreases s.len(),
{
    if from.len() == 0 || s.len() < from.len() {
        s
    } else if s.take(from.len() as int) == from {
        to + replaced(s.skip(from.len() as int), from, to)
    } else {
        seq![s[0]] + replaced(s.skip(1), from, to)
    }
}

pub fn replace_all(s: &Vec<char>, from: &Vec<char>, to: &Vec<char>) -> (r: Vec<char>)
    requires
        from.len() > 0,
    ensures
        r@ == replaced(s@, from@, to@),
{
    let mut out: Vec<char> = Vec::new();
    let mut i: usize = 0;
    assert(s@.skip(0) =~= s@);
    assert(out@ + replaced(s@, from@, to@) =~= replaced(s@, from@, to@));
    while i < s.len()
        invariant
            i <= s.len(),
            from@.len() > 0,
            out@ + replaced(s@.skip(i as int), from@, to@) == replaced(s@, from@, to@),
        decreases s.len() - i,
    {
        let ghost rest = s@.skip(i as int);
        if matches_at(s, i, from) {
            assert(rest.take(from@.len() as int) =~= s@.subrange(i as int, i + from@.len()));
            assert(rest.skip(from@.len() as int) =~= s@.skip(i + from@.len()));
            let ghost prev = out@;
            let mut k: usize = 0;
            while k < to.len()
                invariant
                    k <= to.len(),
                    out@ == prev + to@.take(k as int),
                decreases to.len() - k,
            {
                out.push(to[k]);
                k = k + 1;
            }
            assert(to@.take(to@.len() as int) =~= to@);
            i = i + from.len();
        } else {
            assert(rest.len() >= from@.len() ==> rest.take(from@.len() as int) =~= s@.subrange(
                i as int,
                i + from@.len(),
            ));
            assert(rest.skip(1) =~= s@.skip(i + 1));
            out.push(s[i]);
            i = i + 1;
        }
    }
    assert(s@.skip(i as int) =~= Seq::<char>::empty());
    assert(out@ + replaced(s@.skip(i as int), from@, to@) =~= out@);
    out
}

} // verus!

verus! {

/// `parts` joined with `sep` between neighbours.
pub open spec fn joined(parts: Seq<Seq<char>>, sep: Seq<char>) -> Seq<char>
    decreases parts.len(),
{
    if parts.len() == 0 {
        seq![]
    } else if parts.len() == 1 {
        parts[0]
    } else {
        joined(parts.drop_last(), sep) + sep + parts.last()
    }
}

pub fn join_strings(parts: &Vec<String>, sep: &str) -> (r: String)
    ensures
        r@ == joined(parts@.map_values(|p: String| p@), sep@),
{
    let ghost pv = parts@.map_values(|p: String| p@);
    let mut r = String::new();
    let mut i: usize = 0;
    while i < parts.len()
        invariant
            pv == parts@.map_values(|p: String| p@),
            i <= parts.len(),
            r@ == joined(pv.take(i as int), sep@),
        decreases parts.len() - i,
    {
        assert(pv.take(i + 1).drop_last() =~= pv.take(i as int));
        if i > 0 {
            r.push_str(sep);
        }
        r.push_str(parts[i].as_str());
        proof {
            if i == 0 {
                assert(pv.take(1) =~= seq![parts@[0]@]);
                assert(r@ =~= parts@[0]@);
            }
        }
        i = i + 1;
    }
    assert(pv.take(parts.len() as int) =~= pv);
    r
}

/// Pads `s` with spaces on the right to `w` characters (`{:<w}`).
pub open spec fn pad_right(s: Seq<char>, w: nat) -> Seq<char> {
    if s.len() >= w {
        s
    } else {
        s + Seq::new((w - s.len()) as nat, |i: int| ' ')
    }
}

/// Pads `s` with spaces on the left to `w` characters (`{:>w}`).
pub open spec fn pad_left(s: Seq<char>, w: nat) -> Seq<char> {
    if s.len() >= w {
        s
    } else {
        Seq::new((w - s.len()) as nat, |i: int| ' ') + s
    }
}

pub fn spaces(n: usize) -> (r: String)
    ensures
        r@ == Seq::new(n as nat, |i: int| ' '),
{
    let mut r = String::new();
    let mut i: usize = 0;
    while i < n
        invariant
            i <= n,
            r@ == Seq::new(i as nat, |k: int| ' '),
        decreases n - i,
    {
        r.push(' ');
        assert(r@ =~= Seq::new((i + 1) as nat, |k: int| ' '));
        i = i + 1;
    }
    r
}

pub fn padded_right(s: &str, w: usize) -> (r: String)
    ensures
        r@ == pad_right(s@, w as nat),
{
    let n = char_count(s);
    let mut r = owned(s);
    if n < w {
        let sp = spaces(w - n);
        r.push_str(sp.as_str());
    }
    r
}

pub fn padded_left(s: &str, w: usize) -> (r: String)
    ensures
        r@ == pad_left(s@, w as nat),
{
    let n = char_count(s);
    if n < w {
        let mut r = spaces(w - n);
        r.push_str(s);
        r
    } else {
        owned(s)
    }
}

} // verus!

verus! {

/// Cuts `s` to `max` characters, the last of them an ellipsis, when it is longer.
pub fn truncate(s: &str, max: usize) -> (r: String)
    requires
        max > 0 || s@.len() == 0,
    ensures
        r@ == truncated(s@, max as nat),
{
    let n = char_count(s);
    if n > max {
        let mut out = String::new();
        let mut width: usize = 0;
        for c in it: s.chars()
            invariant
                it.seq() == s@,
                n == s@.len(),
                n > max > 0,
                width as int == if it.index() < max - 1 { it.index() } else { max - 1 },
                out@ == s@.take(width as int),
        {
            if width < max - 1 {
                out.push(c);
                width = width + 1;
            }
        }
        out.push('…');
        out
    } else {
        owned(s)
    }
}

} // verus!

verus! {

/// How many bytes `c` takes in UTF-8.
pub open spec fn utf8_width(c: char) -> nat {
    if (c as u32) < 0x80 {
        1
    } else if (c as u32) < 0x800 {
        2
    } else if (c as u32) < 0x10000 {
        3
    } else {
        4
    }
}

/// How many bytes `s` takes in UTF-8.
pub open spec fn utf8_len(s: Seq<char>) -> nat
    decreases s.len(),
{
    if s.len() == 0 {
        0
    } else {
        utf8_width(s[0]) + utf8_len(s.skip(1))
    }
}

/// The characters of `s` that fill exactly its first `b` bytes, when byte
/// `b` is a character boundary within `s`.
pub open spec fn byte_prefix(s: Seq<char>, b: nat) -> Option<Seq<char>>
    decreases s.len(),
{
    if b == 0 {
        Some(Seq::<char>::empty())
    } else if s.len() == 0 || utf8_width(s[0]) > b {
        None
    } else {
        match byte_prefix(s.skip(1), (b - utf8_width(s[0])) as nat) {
            Some(p) => Some(seq![s[0]] + p),
            None => None,
        }
    }
}

/// UTF-8 width of a character, as `char::len_utf8` gives it.
pub fn char_width(c: char) -> (w: usize)
    ensures
        w == utf8_width(c),
{
    let v = c as u32;
    if v < 0x80 {
        1
    } else if v < 0x800 {
        2
    } else if v < 0x10000 {
        3
    } else {
        4
    }
}

/// The number of characters that make up the first `b` bytes of `s`, or
/// `None` when byte `b` is past the end or inside a character (`str::get`).
pub fn byte_prefix_len(s: &Vec<char>, b: usize) -> (r: Option<usize>)
    ensures
        r is Some <==> byte_prefix(s@, b as nat) is Some,
        r is Some ==> r.unwrap() <= s.len() && byte_prefix(s@, b as nat) == Some(
            s@.take(r.unwrap() as int),
        ),
{
    let mut k: usize = 0;
    let mut left: usize = b;
    proof {
        assert(s@.skip(0) =~= s@);
    }
    while left > 0 && k < s.len() && char_width(s[k]) <= left
        invariant
            k <= s.len(),
            left <= b,
            byte_prefix(s@, b as nat) == (match byte_prefix(s@.skip(k as int), left as nat) {
                Some(p) => Some(s@.take(k as int) + p),
                None => None,
            }),
        decreases s.len() - k,
    {
        let ghost rest = s@.skip(k as int);
        proof {
            assert(rest[0] == s@[k as int]);
            assert(rest.skip(1) =~= s@.skip(k + 1));
            assert(s@.take(k as int) + seq![s@[k as int]] =~= s@.take(k + 1));
            match byte_prefix(s@.skip(k + 1), (left - utf8_width(s@[k as int])) as nat) {
                Some(p) => {
                    assert(s@.take(k as int) + (seq![s@[k as int]] + p) =~= s@.take(k + 1) + p);
                },
                None => {},
            }
        }
        left = left - char_width(s[k]);
        k = k + 1;
    }
    if left == 0 {
        proof {
            assert(s@.take(k as int) + Seq::<char>::empty() =~= s@.take(k as int));
        }
        Some(k)
    } else {
        None
    }
}

/// The text before the first `c` in `s` (all of `s` when there is none).
pub open spec fn before_char(s: Seq<char>, c: char) -> Seq<char>
    decreases s.len(),
{
    if s.len() == 0 {
        s
    } else if s[0] == c {
        Seq::<char>::empty()
    } else {
        seq![s[0]] + before_char(s.skip(1), c)
    }
}

/// The text after the first `c` in `s`, if `s` holds one.
pub open spec fn after_char(s: Seq<char>, c: char) -> Option<Seq<char>>
    decreases s.len(),
{
    if s.len() == 0 {
        None
    } else if s[0] == c {
        Some(s.skip(1))
    } else {
        after_char(s.skip(1), c)
    }
}

/// The position of the first `c` in `v`, if any.
pub fn find_char(v: &Vec<char>, c: char) -> (r: Option<usize>)
    ensures
        r is None ==> before_char(v@, c) == v@ && after_char(v@, c) is None,
        r is Some ==> r.unwrap() < v.len() && before_char(v@, c) == v@.take(r.unwrap() as int)
            && after_char(v@, c) == Some(v@.skip(r.unwrap() + 1)),
{
    let mut i: usize = 0;
    proof {
        assert(v@.skip(0) =~= v@);
        assert(v@.take(0) + before_char(v@, c) =~= before_char(v@, c));
    }
    while i < v.len() && v[i] != c
        invariant
            i <= v.len(),
            before_char(v@, c) == v@.take(i as int) + before_char(v@.skip(i as int), c),
            after_char(v@, c) == after_char(v@.skip(i as int), c),
        decreases v.len() - i,
    {
        proof {
            let rest = v@.skip(i as int);
            assert(rest.skip(1) =~= v@.skip(i + 1));
            assert(v@.take(i as int) + (seq![v@[i as int]] + before_char(rest.skip(1), c))
                =~= v@.take(i + 1) + before_char(v@.skip(i + 1), c));
        }
        i = i + 1;
    }
    if i < v.len() {
        proof {
            let rest = v@.skip(i as int);
            assert(rest.skip(1) =~= v@.skip(i + 1));
            assert(v@.take(i as int) + Seq::<char>::empty() =~= v@.take(i as int));
        }
        Some(i)
    } else {
        proof {
            assert(v@.skip(i as int) =~= Seq::<char>::empty());
            assert(v@.take(i as int) + Seq::<char>::empty() =~= v@);
        }
        None
    }
}

/// A cut text fits its width, keeps the beginning of the text, and marks the
/// cut; a text that fits is left as it is.
pub proof fn law_truncated_fits(s: Seq<char>, max: nat)
    requires
        max > 0,
    ensures
        truncated(s, max).len() <= max,
        s.len() <= max ==> truncated(s, max) == s,
        s.len() > max ==> truncated(s, max).len() == max && truncated(s, max).take(max - 1) == s.take(
            max - 1,
        ) && truncated(s, max).last() == '…',
{
    if s.len() > max {
        assert(truncated(s, max).take(max - 1) =~= s.take(max - 1));
    }
}

} // verus!
