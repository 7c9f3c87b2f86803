//! Splitting a line of text into runs that one font draws each, so that
//! every run can be shaped with its own font.

use vstd::prelude::*;
use crate::fonts::{FontEntry, FontId, FontRegistry, chosen_font, is_white_space, is_whitespace};
use crate::text::{chars_of, owned};

verus! {

broadcast use vstd::string::group_string_axioms;

/// The font a character goes to: its own font, except that whitespace stays
/// with the run it is in (or, leading the text, goes to the font of `A`).
pub open spec fn run_font(fonts: Seq<FontEntry>, current: Option<FontId>, ch: char) -> FontId {
    if is_white_space(ch as u32) {
        match current {
            Some(f) => f,
            None => chosen_font(fonts, 'A'),
        }
    } else {
        chosen_font(fonts, ch)
    }
}

/// Reading `s` left to right: the runs closed so far, the font of the open
/// run, and the open run's text. A run closes when the next character goes
/// to another font.
pub open spec fn runs_upto(fonts: Seq<FontEntry>, s: Seq<char>) -> (Seq<(FontId, Seq<char>)>, Option<FontId>, Seq<char>)
    decreases s.len(),
{
    if s.len() == 0 {
        (Seq::empty(), None, Seq::empty())
    } else {
        let prev = runs_upto(fonts, s.drop_last());
        let ch = s.last();
        let f = run_font(fonts, prev.1, ch);
        if prev.1 is Some && prev.1 != Some(f) && prev.2.len() > 0 {
            (prev.0.push((prev.1->0, prev.2)), Some(f), seq![ch])
        } else {
            (prev.0, Some(f), prev.2.push(ch))
        }
    }
}

/// The runs of `s`: those closed while reading it, then the one still open.
pub open spec fn text_runs(fonts: Seq<FontEntry>, s: Seq<char>) -> Seq<(FontId, Seq<char>)> {
    let (runs, current, rest) = runs_upto(fonts, s);
    if rest.len() > 0 {
        runs.push(
            (
                match current {
                    Some(f) => f,
                    None => chosen_font(fonts, 'A'),
                },
                rest,
            ),
        )
    } else {
        runs
    }
}

/// A run list with each run's text as characters.
pub open spec fn run_views(runs: Seq<(FontId, String)>) -> Seq<(FontId, Seq<char>)> {
    runs.map_values(|r: (FontId, String)| (r.0, r.1@))
}

/// Split `text` into runs of consecutive characters that go to the same
/// font, in order.
pub fn font_runs(registry: &FontRegistry, text: &str) -> (r: Vec<(FontId, String)>)
    ensures
        run_views(r@) == text_runs(registry.fonts(), text@),
{
    let ghost fonts = registry.fonts();
    let chars = chars_of(text);
    let mut runs: Vec<(FontId, String)> = Vec::new();
    let mut current: Option<FontId> = None;
    let mut start: usize = 0;
    let mut i: usize = 0;
    proof {
        assert(text@.take(0) =~= Seq::<char>::empty());
        assert(text@.subrange(0, 0) =~= Seq::<char>::empty());
        assert(run_views(runs@) =~= Seq::<(FontId, Seq<char>)>::empty());
    }
    while i < chars.len()
        invariant
            fonts == registry.fonts(),
            chars@ == text@,
            start <= i <= chars.len(),
            runs_upto(fonts, text@.take(i as int)) == (run_views(runs@), current, text@.subrange(start as int, i as int)),
        decreases chars.len() - i,
    {
        let ch = chars[i];
        proof {
            assert(text@.take(i + 1).drop_last() =~= text@.take(i as int));
            assert(text@.take(i + 1).last() == ch);
        }
        let font = if is_whitespace(ch) {
            match current {
                Some(f) => f,
                None => registry.char_font('A'),
            }
        } else {
            registry.char_font(ch)
        };
        let changed = match current {
            Some(a) => a != font,
            None => false,
        };
        if changed && start < i {
            let piece = owned(text.substring_char(start, i));
            let ghost before = runs@;
            match current {
                Some(a) => runs.push((a, piece)),
                None => {},
            }
            proof {
                assert(run_views(runs@) =~= run_views(before).push((current->0, text@.subrange(start as int, i as int))));
                assert(text@.subrange(i as int, i + 1) =~= seq![ch]);
            }
            start = i;
        } else {
            proof {
                assert(text@.subrange(start as int, i + 1) =~= text@.subrange(start as int, i as int).push(ch));
            }
        }
        current = Some(font);
        i += 1;
    }
    proof {
        assert(text@.take(chars.len() as int) =~= text@);
    }
    if start < i {
        let f = match current {
            Some(f) => f,
            None => registry.char_font('A'),
        };
        let piece = owned(text.substring_char(start, i));
        let ghost before = runs@;
        runs.push((f, piece));
        proof {
            assert(run_views(runs@) =~= run_views(before).push((f, text@.subrange(start as int, i as int))));
        }
    }
    runs
}

/// The texts of the runs, one after another.
pub open spec fn run_texts(runs: Seq<(FontId, Seq<char>)>) -> Seq<char>
    decreases runs.len(),
{
    if runs.len() == 0 {
        Seq::empty()
    } else {
        run_texts(runs.drop_last()) + runs.last().1
    }
}

/// Every character of a run that is not whitespace is one its font draws by
/// choice: the font the registry picks for it.
pub open spec fn run_fits(fonts: Seq<FontEntry>, font: FontId, text: Seq<char>) -> bool {
    forall|j: int| 0 <= j < text.len() && !is_white_space(#[trigger] text[j] as u32)
        ==> chosen_font(fonts, text[j]) == font
}

/// Runs that are non-empty, fit their fonts, and change font from one to the
/// next.
pub open spec fn well_split(fonts: Seq<FontEntry>, runs: Seq<(FontId, Seq<char>)>) -> bool {
    &&& forall|k: int| 0 <= k < runs.len() ==> (#[trigger] runs[k]).1.len() > 0
    &&& forall|k: int| 0 <= k < runs.len() ==> run_fits(fonts, (#[trigger] runs[k]).0, runs[k].1)
    &&& forall|k: int| 0 <= k < runs.len() - 1 ==> (#[trigger] runs[k]).0 != runs[k + 1].0
}

/// What reading the text keeps true: the closed runs and the open one cover
/// what was read, the closed runs are well split, and the open run fits its
/// font, which differs from the last closed run's.
proof fn lemma_runs_upto(fonts: Seq<FontEntry>, s: Seq<char>)
    ensures
        ({
            let (runs, current, rest) = runs_upto(fonts, s);
            &&& run_texts(runs) + rest == s
            &&& well_split(fonts, runs)
            &&& s.len() > 0 ==> current is Some && rest.len() > 0
            &&& current is Some ==> run_fits(fonts, current->0, rest)
            &&& runs.len() > 0 && rest.len() > 0 ==> current != Some(runs.last().0)
        }),
    decreases s.len(),
{
    if s.len() > 0 {
        let u = s.drop_last();
        lemma_runs_upto(fonts, u);
        let prev = runs_upto(fonts, u);
        let ch = s.last();
        let f = run_font(fonts, prev.1, ch);
        let (runs, current, rest) = runs_upto(fonts, s);
        assert(u.push(ch) =~= s);
        if prev.1 is Some && prev.1 != Some(f) && prev.2.len() > 0 {
            assert(runs.drop_last() =~= prev.0);
            assert(run_texts(runs) =~= run_texts(prev.0) + prev.2);
            assert(run_texts(runs) + rest =~= s);
            assert forall|k: int| 0 <= k < runs.len() - 1 implies (#[trigger] runs[k]).0 != runs[k + 1].0 by {
                if k < runs.len() - 2 {
                    assert(runs[k] == prev.0[k]);
                    assert(runs[k + 1] == prev.0[k + 1]);
                } else {
                    assert(runs[k] == prev.0.last());
                }
            }
            assert forall|k: int| 0 <= k < runs.len() implies run_fits(fonts, (#[trigger] runs[k]).0, runs[k].1) by {
                if k < runs.len() - 1 {
                    assert(runs[k] == prev.0[k]);
                }
            }
            assert forall|k: int| 0 <= k < runs.len() implies (#[trigger] runs[k]).1.len() > 0 by {
                if k < runs.len() - 1 {
                    assert(runs[k] == prev.0[k]);
                }
            }
            assert forall|j: int| 0 <= j < rest.len() && !is_white_space(#[trigger] rest[j] as u32)
                implies chosen_font(fonts, rest[j]) == current->0 by {
                assert(rest[j] == ch);
            }
        } else {
            assert(run_texts(runs) + rest =~= s);
            assert forall|j: int| 0 <= j < rest.len() && !is_white_space(#[trigger] rest[j] as u32)
                implies chosen_font(fonts, rest[j]) == current->0 by {
                if j < prev.2.len() {
                    assert(rest[j] == prev.2[j]);
                } else {
                    assert(rest[j] == ch);
                }
            }
        }
    }
}

/// The runs cover the text exactly: their texts, one after another, are the
/// text itself.
pub proof fn law_runs_cover_text(fonts: Seq<FontEntry>, s: Seq<char>)
    ensures
        run_texts(text_runs(fonts, s)) == s,
{
    lemma_runs_upto(fonts, s);
    let (runs, current, rest) = runs_upto(fonts, s);
    if rest.len() > 0 {
        let t = text_runs(fonts, s);
        assert(t.drop_last() =~= runs);
    } else {
        assert(run_texts(runs) + rest =~= run_texts(runs));
    }
}

/// The runs are split where the font changes and nowhere else: none is
/// empty, neighbours have different fonts, and every character that is not
/// whitespace sits in a run of the font the registry picks for it.
pub proof fn law_runs_split_by_font(fonts: Seq<FontEntry>, s: Seq<char>)
    ensures
        well_split(fonts, text_runs(fonts, s)),
{
    lemma_runs_upto(fonts, s);
    let (runs, current, rest) = runs_upto(fonts, s);
    let t = text_runs(fonts, s);
    if rest.len() > 0 {
        assert forall|k: int| 0 <= k < t.len() - 1 implies (#[trigger] t[k]).0 != t[k + 1].0 by {
            if k < t.len() - 2 {
                assert(t[k] == runs[k]);
                assert(t[k + 1] == runs[k + 1]);
            } else {
                assert(t[k] == runs.last());
            }
        }
        assert forall|k: int| 0 <= k < t.len() implies run_fits(fonts, (#[trigger] t[k]).0, t[k].1) by {
            if k < t.len() - 1 {
                assert(t[k] == runs[k]);
            }
        }
        assert forall|k: int| 0 <= k < t.len() implies (#[trigger] t[k]).1.len() > 0 by {
            if k < t.len() - 1 {
                assert(t[k] == runs[k]);
            }
        }
    }
}

} // verus!
