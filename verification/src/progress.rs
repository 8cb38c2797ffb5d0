//! The state of the one-line progress indicator, and the pieces of its line
//! that are not time or terminal: the bar, the spinner glyph.
use vstd::prelude::*;

verus! {

broadcast use vstd::string::group_string_axioms;

/// A count clamped to a total.
pub open spec fn clamped(current: nat, total: nat) -> nat {
    if current <= total {
        current
    } else {
        total
    }
}

/// A determinate or spin-only progress indicator.
pub struct Progress {
    pub label: String,
    pub total: u64,
    pub current: u64,
    pub finished: bool,
}

impl Progress {
    /// A determinate indicator at zero of `total`.
    pub fn new(label: String, total: u64) -> (p: Progress)
        ensures
            p.label@ == label@,
            p.total == total,
            p.current == 0,
            !p.finished,
    {
        Progress { label, total, current: 0, finished: false }
    }

    /// A spin-only indicator: no total, nothing counted.
    pub fn spinner(label: String) -> (p: Progress)
        ensures
            p.label@ == label@,
            p.total == 0,
            p.current == 0,
            !p.finished,
    {
        Progress { label, total: 0, current: 0, finished: false }
    }

    /// Advances to `current`, clamped to the total.
    pub fn tick(&mut self, current: u64)
        ensures
            final(self).current == clamped(current as nat, old(self).total as nat),
            final(self).total == old(self).total,
            final(self).label@ == old(self).label@,
            final(self).finished == old(self).finished,
    {
        self.current = if current < self.total { current } else { self.total };
    }

    /// Advances by one, clamped to the total.
    pub fn inc(&mut self)
        requires
            old(self).current < u64::MAX,
        ensures
            final(self).current == clamped((old(self).current + 1) as nat, old(self).total as nat),
            final(self).total == old(self).total,
            final(self).label@ == old(self).label@,
            final(self).finished == old(self).finished,
    {
        let next = self.current + 1;
        self.tick(next);
    }

    /// Marks the indicator finished; says whether it was still running, that
    /// is whether its line is still to be cleared or replaced.
    pub fn close(&mut self) -> (was_running: bool)
        ensures
            was_running == !old(self).finished,
            final(self).finished,
            final(self).current == old(self).current,
            final(self).total == old(self).total,
            final(self).label@ == old(self).label@,
    {
        if self.finished {
            false
        } else {
            self.finished = true;
            true
        }
    }
}

/// The glyphs of the spinner, in turn.
pub open spec fn spinner_glyph(i: int) -> char {
    if i == 0 {
        '⠋'
    } else if i == 1 {
        '⠙'
    } else if i == 2 {
        '⠸'
    } else if i == 3 {
        '⠴'
    } else if i == 4 {
        '⠦'
    } else if i == 5 {
        '⠇'
    } else if i == 6 {
        '⠼'
    } else if i == 7 {
        '⠾'
    } else {
        '⠿'
    }
}

/// The spinner glyph shown after `elapsed_ms` milliseconds: one step every
/// 80 ms, round the nine glyphs.
pub fn spinner_frame(elapsed_ms: u128) -> (c: char)
    ensures
        c == spinner_glyph((((elapsed_ms / 80) as usize) % 9) as int),
{
    let i = ((elapsed_ms / 80) as usize) % 9;
    if i == 0 {
        '⠋'
    } else if i == 1 {
        '⠙'
    } else if i == 2 {
        '⠸'
    } else if i == 3 {
        '⠴'
    } else if i == 4 {
        '⠦'
    } else if i == 5 {
        '⠇'
    } else if i == 6 {
        '⠼'
    } else if i == 7 {
        '⠾'
    } else {
        '⠿'
    }
}

/// The number of filled cells of the 20-cell bar.
pub open spec fn filled_cells(current: nat, total: nat) -> nat {
    current * 20 / total
}

/// The bar: twenty dashes with no total, else filled then empty cells.
pub open spec fn bar_text(current: nat, total: nat) -> Seq<char> {
    if total == 0 {
        Seq::new(20, |i: int| '─')
    } else {
        Seq::new(filled_cells(current, total), |i: int| '█')
            + Seq::new((20 - filled_cells(current, total)) as nat, |i: int| '░')
    }
}

/// The 20-cell bar of a count against its total.
pub fn progress_bar(current: u64, total: u64) -> (s: String)
    requires
        current <= total,
        total <= usize::MAX,
        current * 20 <= usize::MAX,
    ensures
        s@ == bar_text(current as nat, total as nat),
{
    let mut s = String::new();
    if total == 0 {
        let mut i: usize = 0;
        while i < 20
            invariant
                i <= 20,
                s@ == Seq::new(i as nat, |k: int| '─'),
            decreases 20 - i,
        {
            s.push('─');
            i = i + 1;
            assert(s@ =~= Seq::new(i as nat, |k: int| '─'));
        }
        return s;
    }
    let cells = (current as usize) * 20;
    let t = total as usize;
    let filled: usize = cells / (if t < 1 { 1 } else { t });
    proof {
        assert(current * 20 <= total * 20) by (nonlinear_arith)
            requires current <= total;
        vstd::arithmetic::div_mod::lemma_multiply_divide_le(current * 20, total as int, 20);
        assert((total as int) * 20 == total * 20);
    }
    let mut i: usize = 0;
    while i < filled
        invariant
            i <= filled <= 20,
            s@ == Seq::new(i as nat, |k: int| '█'),
        decreases filled - i,
    {
        s.push('█');
        i = i + 1;
        assert(s@ =~= Seq::new(i as nat, |k: int| '█'));
    }
    let mut j: usize = 0;
    while j < 20 - filled
        invariant
            filled <= 20,
            j <= 20 - filled,
            s@ == Seq::new(filled as nat, |k: int| '█') + Seq::new(j as nat, |k: int| '░'),
        decreases 20 - filled - j,
    {
        s.push('░');
        j = j + 1;
        assert(s@ =~= Seq::new(filled as nat, |k: int| '█') + Seq::new(j as nat, |k: int| '░'));
    }
    s
}

/// Ticking never takes the count past the total, and a count within the
/// total is taken as it is.
pub proof fn law_tick_within_total(current: nat, total: nat)
    ensures
        clamped(current, total) <= total,
        current <= total ==> clamped(current, total) == current,
        current > total ==> clamped(current, total) == total,
{
}

/// The bar is always twenty cells wide, and fills up as the count grows.
pub proof fn law_bar_width(c1: nat, c2: nat, total: nat)
    requires
        c1 <= c2 <= total,
    ensures
        bar_text(c1, total).len() == 20,
        total > 0 ==> filled_cells(c1, total) <= filled_cells(c2, total) <= 20,
{
    if total > 0 {
        assert(c1 * 20 <= c2 * 20 <= total * 20) by (nonlinear_arith)
            requires c1 <= c2 <= total;
        vstd::arithmetic::div_mod::lemma_div_is_ordered((c1 * 20) as int, (c2 * 20) as int, total as int);
        vstd::arithmetic::div_mod::lemma_multiply_divide_le((c2 * 20) as int, total as int, 20);
        assert(total as int * 20 == total * 20);
    }
}

} // verus!

