//! Wildcard matching of item names: `*` stands for any run of characters and
//! `?` for exactly one. Motion rules pick the shapes they apply to this way.

use vstd::prelude::*;
use crate::text::chars_of;

verus! {

/// A pattern character accepts a text character on its own: `?` accepts any,
/// everything else only itself.
pub open spec fn accepts(pc: char, tc: char) -> bool {
    pc == '?' || pc == tc
}

/// Whether the pattern from position `i` on matches the text from position
/// `j` on, reading `*` as any run of characters and `?` as one.
pub open spec fn wildcard_from(p: Seq<char>, s: Seq<char>, i: int, j: int) -> bool
    decreases p.len() + s.len() - i - j,
{
    if i < 0 || j < 0 || i > p.len() || j > s.len() {
        false
    } else if i == p.len() {
        j == s.len()
    } else if p[i] == '*' {
        wildcard_from(p, s, i + 1, j) || (j < s.len() && wildcard_from(p, s, i, j + 1))
    } else {
        j < s.len() && accepts(p[i], s[j]) && wildcard_from(p, s, i + 1, j + 1)
    }
}

/// Whether the whole pattern matches the whole text.
pub open spec fn wildcard_match(p: Seq<char>, s: Seq<char>) -> bool {
    wildcard_from(p, s, 0, 0)
}

/// A character that one pattern character accepts can be consumed by it:
/// matching what follows is enough to match from here.
proof fn lemma_step_sound(p: Seq<char>, s: Seq<char>, i: int, j: int)
    requires
        0 <= i < p.len(),
        0 <= j < s.len(),
        accepts(p[i], s[j]),
        wildcard_from(p, s, i + 1, j + 1),
    ensures
        wildcard_from(p, s, i, j),
{
    if p[i] == '*' {
        assert(wildcard_from(p, s, i, j + 1));
    }
}

/// A star may always absorb more text: matching from a later text position
/// is enough to match from an earlier one.
proof fn lemma_star_back(p: Seq<char>, s: Seq<char>, i: int, j: int, j2: int)
    requires
        0 <= i < p.len(),
        p[i] == '*',
        0 <= j <= j2 <= s.len(),
        wildcard_from(p, s, i, j2),
    ensures
        wildcard_from(p, s, i, j),
    decreases j2 - j,
{
    if j < j2 {
        lemma_star_back(p, s, i, j + 1, j2);
    }
}

/// A star that matches from `j` hands over to the rest of the pattern at some
/// text position at or after `j`.
proof fn lemma_star_handover(p: Seq<char>, s: Seq<char>, i: int, j: int) -> (k: int)
    requires
        0 <= i < p.len(),
        p[i] == '*',
        0 <= j <= s.len(),
        wildcard_from(p, s, i, j),
    ensures
        j <= k <= s.len(),
        wildcard_from(p, s, i + 1, k),
    decreases s.len() - j,
{
    if wildcard_from(p, s, i + 1, j) {
        j
    } else {
        lemma_star_handover(p, s, i, j + 1)
    }
}

/// A run of pattern characters without stars consumes exactly as many text
/// characters.
proof fn lemma_block(p: Seq<char>, s: Seq<char>, a: int, b: int, k: int)
    requires
        0 <= a <= b <= p.len(),
        0 <= k <= s.len(),
        forall|q: int| a <= q < b ==> p[q] != '*',
        wildcard_from(p, s, a, k),
    ensures
        k + (b - a) <= s.len(),
        wildcard_from(p, s, b, k + (b - a)),
    decreases b - a,
{
    if a < b {
        lemma_block(p, s, a + 1, b, k + 1);
    }
}

/// Whatever matches from a star at `star`/`mark` reaches the end of a
/// star-free block `star + 1 .. pi` at a text position no earlier than `ti`.
proof fn lemma_reach(p: Seq<char>, s: Seq<char>, star: int, mark: int, pi: int, ti: int) -> (j: int)
    requires
        0 <= star < pi <= p.len(),
        p[star] == '*',
        0 <= mark <= ti <= s.len(),
        pi - star - 1 == ti - mark,
        forall|q: int| star + 1 <= q < pi ==> p[q] != '*',
        wildcard_from(p, s, star, mark),
    ensures
        ti <= j <= s.len(),
        wildcard_from(p, s, pi, j),
{
    let k = lemma_star_handover(p, s, star, mark);
    lemma_block(p, s, star + 1, pi, k);
    k + (pi - star - 1)
}

/// Reading the pattern at a star position with the text at its end: only
/// stars remain to be skipped.
proof fn lemma_trailing(p: Seq<char>, s: Seq<char>, i: int)
    requires
        0 <= i < p.len(),
        p[i] == '*',
    ensures
        wildcard_from(p, s, i, s.len() as int) == wildcard_from(p, s, i + 1, s.len() as int),
{
}

/// Every pattern character from `pi` on is a star.
pub open spec fn only_stars_from(p: Seq<char>, pi: int) -> bool {
    forall|q: int| pi <= q < p.len() ==> p[q] == '*'
}

/// The matcher's run from state `(pi, ti, star, mark)`: the pattern is read
/// at `pi` and the text at `ti`; `star` is the most recent pattern star
/// (`-1` for none) and `mark` the text position it last handed over at.
/// A pattern star is remembered and first matches nothing; any other pattern
/// character consumes a text character it accepts; on a mismatch the
/// remembered star takes one more character; with no star to fall back on
/// the run fails.
/// At the end of the text only stars may remain in the pattern.
pub open spec fn glob_run(p: Seq<char>, s: Seq<char>, pi: int, ti: int, star: int, mark: int) -> bool
    decreases s.len() - mark, s.len() - ti, p.len() - pi,
{
    if !(0 <= pi <= p.len() && 0 <= mark <= ti <= s.len() && -1 <= star < pi) {
        false
    } else if ti == s.len() {
        only_stars_from(p, pi)
    } else if pi < p.len() && p[pi] == '*' {
        glob_run(p, s, pi + 1, ti, pi, ti)
    } else if pi < p.len() && accepts(p[pi], s[ti]) {
        glob_run(p, s, pi + 1, ti + 1, star, mark)
    } else if star >= 0 {
        glob_run(p, s, star + 1, mark + 1, star, mark + 1)
    } else {
        false
    }
}

/// Whether the matcher accepts the text `s` for pattern `p`.
pub open spec fn glob_accepts(p: Seq<char>, s: Seq<char>) -> bool {
    glob_run(p, s, 0, 0, -1, 0)
}

/// At the end of the text, the pattern matches exactly when only stars are
/// left.
proof fn lemma_end(p: Seq<char>, s: Seq<char>, pi: int)
    requires
        0 <= pi <= p.len(),
    ensures
        wildcard_from(p, s, pi, s.len() as int) == only_stars_from(p, pi),
    decreases p.len() - pi,
{
    if pi < p.len() {
        lemma_end(p, s, pi + 1);
    }
}

/// What the matcher keeps true of its state, relating it to the wildcard
/// reading of the whole pattern.
pub open spec fn run_state_ok(p: Seq<char>, s: Seq<char>, pi: int, ti: int, star: int, mark: int) -> bool {
    &&& 0 <= pi <= p.len()
    &&& 0 <= mark <= ti <= s.len()
    &&& -1 <= star < pi
    &&& star == -1 ==> {
        &&& (wildcard_from(p, s, pi, ti) ==> wildcard_from(p, s, 0, 0))
        &&& (wildcard_from(p, s, 0, 0) ==> wildcard_from(p, s, pi, ti))
    }
    &&& star >= 0 ==> {
        &&& p[star] == '*'
        &&& pi - star - 1 == ti - mark
        &&& (wildcard_from(p, s, pi, ti) ==> wildcard_from(p, s, star + 1, mark))
        &&& (wildcard_from(p, s, star + 1, mark) ==> wildcard_from(p, s, pi, ti))
        &&& (wildcard_from(p, s, star, mark) ==> wildcard_from(p, s, 0, 0))
        &&& (wildcard_from(p, s, 0, 0) ==> wildcard_from(p, s, star, mark))
        &&& (forall|q: int| star + 1 <= q < pi ==> p[q] != '*')
    }
}

/// From any state the matcher keeps, its answer is exactly the wildcard
/// reading.
proof fn lemma_run(p: Seq<char>, s: Seq<char>, pi: int, ti: int, star: int, mark: int)
    requires
        run_state_ok(p, s, pi, ti, star, mark),
    ensures
        glob_run(p, s, pi, ti, star, mark) == wildcard_from(p, s, 0, 0),
    decreases s.len() - mark, s.len() - ti, p.len() - pi,
{
    if ti == s.len() {
        lemma_end(p, s, pi);
        if star >= 0 {
            if wildcard_from(p, s, pi, ti) {
                assert(wildcard_from(p, s, star, mark));
            }
            if wildcard_from(p, s, 0, 0) {
                let _j = lemma_reach(p, s, star, mark, pi, ti);
            }
        }
    } else if pi < p.len() && p[pi] == '*' {
        if star >= 0 {
            if wildcard_from(p, s, pi, ti) {
                lemma_trailing(p, s, star);
                assert(wildcard_from(p, s, star, mark));
            }
            if wildcard_from(p, s, 0, 0) {
                let j = lemma_reach(p, s, star, mark, pi, ti);
                lemma_star_back(p, s, pi, ti, j);
            }
        }
        assert(run_state_ok(p, s, pi + 1, ti, pi, ti));
        lemma_run(p, s, pi + 1, ti, pi, ti);
    } else if pi < p.len() && accepts(p[pi], s[ti]) {
        if wildcard_from(p, s, pi + 1, ti + 1) {
            lemma_step_sound(p, s, pi, ti);
        }
        assert(run_state_ok(p, s, pi + 1, ti + 1, star, mark));
        lemma_run(p, s, pi + 1, ti + 1, star, mark);
    } else if star >= 0 {
        assert(!wildcard_from(p, s, pi, ti));
        assert(wildcard_from(p, s, star, mark + 1) ==> wildcard_from(p, s, star, mark));
        assert(run_state_ok(p, s, star + 1, mark + 1, star, mark + 1));
        lemma_run(p, s, star + 1, mark + 1, star, mark + 1);
    } else {
        assert(!wildcard_from(p, s, pi, ti));
    }
}

/// Whenever the matcher accepts, the text really matches the pattern with
/// `*` read as any run of characters and `?` as one.
pub proof fn law_glob_sound(p: Seq<char>, s: Seq<char>)
    ensures
        glob_accepts(p, s) ==> wildcard_match(p, s),
{
    lemma_run(p, s, 0, 0, -1, 0);
}

/// The matcher is exactly wildcard matching: it accepts precisely the texts
/// the pattern describes, whatever characters they hold.
pub proof fn law_glob_exact(p: Seq<char>, s: Seq<char>)
    ensures
        glob_accepts(p, s) == wildcard_match(p, s),
{
    lemma_run(p, s, 0, 0, -1, 0);
}

/// Whether the pattern is free of wildcards.
pub open spec fn literal(p: Seq<char>) -> bool {
    forall|q: int| 0 <= q < p.len() ==> p[q] != '*' && p[q] != '?'
}

proof fn lemma_literal_run(p: Seq<char>, s: Seq<char>, i: int)
    requires
        literal(p),
        0 <= i <= p.len(),
        i <= s.len(),
    ensures
        glob_run(p, s, i, i, -1, 0) == (p.skip(i) == s.skip(i)),
    decreases s.len() - i,
{
    if i == s.len() {
        if i < p.len() {
            assert(p.skip(i).len() > 0);
            assert(p[i] != '*');
        } else {
            assert(p.skip(i) =~= s.skip(i));
        }
    } else if i < p.len() && accepts(p[i], s[i]) {
        lemma_literal_run(p, s, i + 1);
        assert(p.skip(i) =~= seq![p[i]] + p.skip(i + 1));
        assert(s.skip(i) =~= seq![s[i]] + s.skip(i + 1));
        if p.skip(i + 1) == s.skip(i + 1) {
            assert(p.skip(i) =~= s.skip(i));
        } else if p.skip(i) == s.skip(i) {
            assert(p.skip(i + 1) =~= p.skip(i).drop_first());
            assert(s.skip(i + 1) =~= s.skip(i).drop_first());
        }
    } else {
        assert(p.skip(i) != s.skip(i)) by {
            if i < p.len() {
                assert(p.skip(i)[0] == p[i]);
                assert(s.skip(i)[0] == s[i]);
            } else {
                assert(p.skip(i).len() == 0);
            }
        }
    }
}

/// A pattern with neither `*` nor `?` matches exactly the name it spells.
pub proof fn law_literal_pattern(p: Seq<char>, s: Seq<char>)
    requires
        literal(p),
    ensures
        glob_accepts(p, s) == (p == s),
{
    lemma_literal_run(p, s, 0);
    assert(p.skip(0) =~= p);
    assert(s.skip(0) =~= s);
}

/// Whether `s` matches `pattern`, where `*` stands for any run of characters
/// (the empty one included) and `?` for exactly one.
///
/// Greedy with a single remembered star: on a mismatch the most recent star
/// swallows one more character. A pattern star is always read as a wildcard,
/// also where the text holds a `*`.
pub fn glob_match(pattern: &str, s: &str) -> (r: bool)
    ensures
        r == glob_accepts(pattern@, s@),
        r == wildcard_match(pattern@, s@),
{
    proof {
        law_glob_exact(pattern@, s@);
    }
    let p = chars_of(pattern);
    let t = chars_of(s);
    let ghost ps = p@;
    let ghost ts = t@;
    let mut pi: usize = 0;
    let mut ti: usize = 0;
    let mut star: usize = usize::MAX;
    let mut mark: usize = 0;

    while ti < t.len()
        invariant
            p@ == ps,
            t@ == ts,
            ps == pattern@,
            ts == s@,
            glob_accepts(ps, ts) == wildcard_match(ps, ts),
            pi <= p.len(),
            ti <= t.len(),
            mark <= ti,
            star == usize::MAX || star < pi,
            glob_run(ps, ts, pi as int, ti as int, if star == usize::MAX { -1 } else { star as int }, mark as int)
                == glob_accepts(ps, ts),
        decreases t.len() - mark, t.len() - ti, p.len() - pi,
    {
        let ghost sg: int = if star == usize::MAX { -1 } else { star as int };
        if pi < p.len() && p[pi] == '*' {
            star = pi;
            pi += 1;
            mark = ti;
        } else if pi < p.len() && (p[pi] == '?' || p[pi] == t[ti]) {
            pi += 1;
            ti += 1;
        } else if star != usize::MAX {
            pi = star + 1;
            mark += 1;
            ti = mark;
        } else {
            return false;
        }
    }

    let ghost pi0 = pi;
    while pi < p.len() && p[pi] == '*'
        invariant
            p@ == ps,
            pi0 <= pi <= p.len(),
            forall|q: int| pi0 <= q < pi ==> ps[q] == '*',
        decreases p.len() - pi,
    {
        pi += 1;
    }
    pi == p.len()
}

} // verus!
