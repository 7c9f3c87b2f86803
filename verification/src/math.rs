//! Formula typesetting decisions: LaTeX becomes Typst markup through the
//! `mitex` crate, and colours written in SVG files are read.

use vstd::prelude::*;
use vstd::utf8::encode_utf8;
use crate::colour::{hex_byte, hex_byte_of, hex_digit, hex_digit_of, is_hex_digit_for, law_hex_digits_in_either_case};
use crate::fonts::{is_white_space, is_whitespace};
use crate::text::{append, chars_of, debug_quoted, debug_text, owned};

verus! {

broadcast use vstd::string::group_string_axioms;

/// `std::io::Error`, carried by a formula error when `typst` cannot be run.
#[verifier::external_type_specification]
#[verifier::external_body]
pub struct ExIoError(std::io::Error);

/// Why a formula could not be produced.
#[derive(Debug)]
pub enum FormulaError {
    /// `mitex` could not convert the LaTeX into Typst markup.
    Mitex(String),
    /// The `typst` binary could not be spawned.
    TypstSpawn(std::io::Error),
    /// `typst` ran but reported a compile error.
    TypstCompile(String),
    /// The emitted SVG could not be parsed into paths.
    Svg(String),
    /// An imported SVG file could not be read.
    SvgRead(String),
    /// An imported SVG draws text in a way that cannot be rendered.
    SvgText(String),
}

/// What `mitex::convert_math` makes of a LaTeX math string with its default
/// command set: Typst markup, or its error message.
pub uninterp spec fn latex_as_typst(latex: Seq<char>) -> Result<Seq<char>, Seq<char>>;

/// A character that may stand inside an argument whose text mitex slices:
/// none of `{ } [ ] \ $ %`, which could open or close a group of their own.
pub open spec fn plain_arg_char(c: char) -> bool {
    c != '{' && c != '}' && c != '[' && c != ']' && c != '\\' && c != '$' && c != '%'
}

/// The first index at or after `i` that holds no plain argument character,
/// or the length when there is none.
pub open spec fn plain_run_end(s: Seq<char>, i: int) -> int
    decreases s.len() - i,
{
    if 0 <= i < s.len() {
        if plain_arg_char(s[i]) {
            plain_run_end(s, i + 1)
        } else {
            i
        }
    } else {
        s.len() as int
    }
}

/// At `i`, a group: `open`, plain characters, then `close`. Gives the index
/// just past `close`.
pub open spec fn group_end(s: Seq<char>, i: int, open: char, close: char) -> Option<int> {
    if 0 <= i < s.len() && s[i] == open {
        let e = plain_run_end(s, i + 1);
        if e < s.len() && s[e] == close {
            Some(e + 1)
        } else {
            None
        }
    } else {
        None
    }
}

/// An ASCII letter, which would continue a command's name.
pub open spec fn ascii_letter(c: char) -> bool {
    (65 <= c as u32 <= 90) || (97 <= c as u32 <= 122)
}

/// `word` stands in `s` from index `i` on.
pub open spec fn word_at(s: Seq<char>, i: int, word: Seq<char>) -> bool {
    0 <= i && i + word.len() <= s.len() && s.subrange(i, i + word.len()) == word
}

/// The command `\name` starts at `i`: a backslash, the name, and no letter
/// right after it. Every backslash is read as one that starts a command.
pub open spec fn command_at(s: Seq<char>, i: int, name: Seq<char>) -> bool {
    &&& 0 <= i < s.len()
    &&& s[i] == '\\'
    &&& word_at(s, i + 1, name)
    &&& (i + 1 + name.len() == s.len() || !ascii_letter(s[i + 1 + name.len()]))
}

pub open spec fn label_word() -> Seq<char> {
    seq!['l', 'a', 'b', 'e', 'l']
}

pub open spec fn caption_word() -> Seq<char> {
    seq!['c', 'a', 'p', 't', 'i', 'o', 'n']
}

pub open spec fn graphics_word() -> Seq<char> {
    seq!['i', 'n', 'c', 'l', 'u', 'd', 'e', 'g', 'r', 'a', 'p', 'h', 'i', 'c', 's']
}

pub open spec fn begin_word() -> Seq<char> {
    seq!['b', 'e', 'g', 'i', 'n']
}

pub open spec fn tabular_word() -> Seq<char> {
    seq!['t', 'a', 'b', 'u', 'l', 'a', 'r']
}

/// The commands through which mitex lets LaTeX define macros of its own; the
/// expansion of such a macro is not bounded.
pub open spec fn defines_macro(s: Seq<char>, i: int) -> bool {
    ||| command_at(s, i, seq!['n', 'e', 'w', 'c', 'o', 'm', 'm', 'a', 'n', 'd'])
    ||| command_at(s, i, seq!['r', 'e', 'n', 'e', 'w', 'c', 'o', 'm', 'm', 'a', 'n', 'd'])
    ||| command_at(s, i, seq!['p', 'r', 'o', 'v', 'i', 'd', 'e', 'c', 'o', 'm', 'm', 'a', 'n', 'd'])
    ||| command_at(
        s,
        i,
        seq!['D', 'e', 'c', 'l', 'a', 'r', 'e', 'R', 'o', 'b', 'u', 's', 't', 'C', 'o', 'm', 'm', 'a', 'n', 'd'],
    )
    ||| command_at(s, i, seq!['n', 'e', 'w', 'e', 'n', 'v', 'i', 'r', 'o', 'n', 'm', 'e', 'n', 't'])
    ||| command_at(s, i, seq!['r', 'e', 'n', 'e', 'w', 'e', 'n', 'v', 'i', 'r', 'o', 'n', 'm', 'e', 'n', 't'])
}

/// What follows `\includegraphics`: `{path}`, or `[options]{path}`.
pub open spec fn graphics_args_at(s: Seq<char>, p: int) -> bool {
    ||| group_end(s, p, '{', '}') is Some
    ||| (group_end(s, p, '[', ']') matches Some(q) && group_end(s, q, '{', '}') is Some)
}

/// A character of an environment's name as this library hands it on: an
/// ASCII letter or `*`.
pub open spec fn env_name_char(c: char) -> bool {
    ascii_letter(c) || c == '*'
}

/// What follows `\begin`: a braced, nonempty environment name of letters and
/// `*`; a `tabular` takes its column letters in braces right after.
pub open spec fn env_args_at(s: Seq<char>, p: int) -> bool {
    match group_end(s, p, '{', '}') {
        Some(q) => {
            &&& q > p + 2
            &&& forall|k: int| p + 1 <= k < q - 1 ==> env_name_char(#[trigger] s[k])
            &&& word_at(s, p + 1, tabular_word()) && q == p + 9 ==> group_end(s, q, '{', '}') is Some
        },
        None => false,
    }
}

/// At `i`, no command stands whose argument mitex would slice or `expect`
/// without finding it: `\label`, `\caption`, `\includegraphics` and `\begin`
/// each come with their arguments in place; and no macro is defined there.
pub open spec fn guarded_at(s: Seq<char>, i: int) -> bool {
    &&& command_at(s, i, label_word()) ==> group_end(s, i + 6, '{', '}') is Some
    &&& command_at(s, i, caption_word()) ==> group_end(s, i + 8, '{', '}') is Some
    &&& command_at(s, i, graphics_word()) ==> graphics_args_at(s, i + 16)
    &&& command_at(s, i, begin_word()) ==> env_args_at(s, i + 6)
    &&& !defines_macro(s, i)
}

/// LaTeX on which mitex's converter finds every argument it slices or
/// `expect`s: each `\label`, `\caption`, `\includegraphics` and `\begin` is
/// followed at once by its braced arguments, holding plain characters only,
/// and the text defines no macro of its own; and it holds at most
/// `max_deepening` characters at which mitex may recurse. Every backslash is
/// read as starting a command. This leaves out more than the inputs on which
/// mitex gives way: a `\label` whose braces hold a `$`, for one, converts
/// there but is not covered here.
pub open spec fn mitex_ready(s: Seq<char>) -> bool {
    &&& forall|i: int| 0 <= i < s.len() ==> #[trigger] guarded_at(s, i)
    &&& deepening_count(s) <= max_deepening()
}

/// A character at which mitex's parser and converter may go one call
/// deeper: a brace, bracket or parenthesis, a `$`, a backslash that starts a
/// command, or a sub-, superscript or prime mark.
pub open spec fn deepening_char(c: char) -> bool {
    c == '{' || c == '[' || c == '(' || c == '$' || c == '\\' || c == '^' || c == '_' || c == '\''
}

/// How many deepening characters `s` holds: a bound on how deep mitex's
/// recursive descent goes on it.
pub open spec fn deepening_count(s: Seq<char>) -> nat
    decreases s.len(),
{
    if s.len() == 0 {
        0
    } else {
        deepening_count(s.drop_last()) + if deepening_char(s.last()) { 1nat } else { 0nat }
    }
}

/// The most deepening characters handed to mitex, so that its recursion,
/// which has no depth limit of its own, stays within the 2 MiB stack that
/// Rust gives a spawned thread: text twice as deep in nested scripts, roots
/// or braces still converts in such a thread.
pub open spec fn max_deepening() -> nat {
    128
}

proof fn lemma_run_end_shift(p: Seq<char>, t: Seq<char>, j: int)
    requires
        0 <= j <= t.len(),
    ensures
        plain_run_end(p + t, p.len() + j) == p.len() + plain_run_end(t, j),
        j <= plain_run_end(t, j) <= t.len(),
    decreases t.len() - j,
{
    let s = p + t;
    if j < t.len() {
        assert(s[p.len() + j] == t[j]);
        if plain_arg_char(t[j]) {
            lemma_run_end_shift(p, t, j + 1);
        }
    }
}

proof fn lemma_name_char(c: char)
    requires
        (97 <= c as u32 <= 122) || (65 <= c as u32 <= 90) || c as u32 == 42,
    ensures
        plain_arg_char(c),
        env_name_char(c),
        c != '\\',
{
}

proof fn lemma_group_end_shift(p: Seq<char>, t: Seq<char>, j: int, open: char, close: char)
    requires
        0 <= j,
    ensures
        group_end(p + t, p.len() + j, open, close) == match group_end(t, j, open, close) {
            Some(q) => Some(p.len() + q),
            None => None::<int>,
        },
        group_end(t, j, open, close) matches Some(q) ==> j < q <= t.len(),
{
    let s = p + t;
    if j < t.len() {
        assert(s[p.len() + j] == t[j]);
        if t[j] == open {
            lemma_run_end_shift(p, t, j + 1);
            let e = plain_run_end(t, j + 1);
            if e < t.len() {
                assert(s[p.len() + e] == t[e]);
            }
        }
    }
}

proof fn lemma_word_at_shift(p: Seq<char>, t: Seq<char>, j: int, w: Seq<char>)
    requires
        0 <= j,
    ensures
        word_at(p + t, p.len() + j, w) == word_at(t, j, w),
{
    let s = p + t;
    if j + w.len() <= t.len() {
        assert(s.subrange(p.len() + j, p.len() + j + w.len()) =~= t.subrange(j, j + w.len()));
    }
}

proof fn lemma_command_at_shift(p: Seq<char>, t: Seq<char>, j: int, w: Seq<char>)
    requires
        0 <= j,
    ensures
        command_at(p + t, p.len() + j, w) == command_at(t, j, w),
{
    let s = p + t;
    lemma_word_at_shift(p, t, j + 1, w);
    if j < t.len() {
        assert(s[p.len() + j] == t[j]);
    }
    if j + 1 + w.len() < t.len() {
        assert(s[p.len() + j + 1 + w.len()] == t[j + 1 + w.len()]);
    }
}

/// Whether a position of `t` is guarded does not depend on what stands
/// before `t`.
proof fn lemma_guarded_shift(p: Seq<char>, t: Seq<char>, j: int)
    requires
        0 <= j < t.len(),
    ensures
        guarded_at(p + t, p.len() + j) == guarded_at(t, j),
{
    let s = p + t;
    let o = p.len() as int;
    lemma_command_at_shift(p, t, j, label_word());
    lemma_command_at_shift(p, t, j, caption_word());
    lemma_command_at_shift(p, t, j, graphics_word());
    lemma_command_at_shift(p, t, j, begin_word());
    lemma_command_at_shift(p, t, j, seq!['n', 'e', 'w', 'c', 'o', 'm', 'm', 'a', 'n', 'd']);
    lemma_command_at_shift(p, t, j, seq!['r', 'e', 'n', 'e', 'w', 'c', 'o', 'm', 'm', 'a', 'n', 'd']);
    lemma_command_at_shift(p, t, j, seq!['p', 'r', 'o', 'v', 'i', 'd', 'e', 'c', 'o', 'm', 'm', 'a', 'n', 'd']);
    lemma_command_at_shift(
        p,
        t,
        j,
        seq!['D', 'e', 'c', 'l', 'a', 'r', 'e', 'R', 'o', 'b', 'u', 's', 't', 'C', 'o', 'm', 'm', 'a', 'n', 'd'],
    );
    lemma_command_at_shift(p, t, j, seq!['n', 'e', 'w', 'e', 'n', 'v', 'i', 'r', 'o', 'n', 'm', 'e', 'n', 't']);
    lemma_command_at_shift(p, t, j, seq!['r', 'e', 'n', 'e', 'w', 'e', 'n', 'v', 'i', 'r', 'o', 'n', 'm', 'e', 'n', 't']);
    lemma_group_end_shift(p, t, j + 6, '{', '}');
    lemma_group_end_shift(p, t, j + 8, '{', '}');
    lemma_group_end_shift(p, t, j + 16, '{', '}');
    lemma_group_end_shift(p, t, j + 16, '[', ']');
    if let Some(q) = group_end(t, j + 16, '[', ']') {
        lemma_group_end_shift(p, t, q, '{', '}');
    }
    if let Some(q) = group_end(t, j + 6, '{', '}') {
        lemma_group_end_shift(p, t, q, '{', '}');
        lemma_word_at_shift(p, t, j + 7, tabular_word());
        assert forall|k: int| j + 7 <= k < q - 1 implies s[o + k] == t[k] by {}
        assert((forall|k: int| o + j + 7 <= k < o + q - 1 ==> env_name_char(#[trigger] s[k])) == (forall|k: int|
            j + 7 <= k < q - 1 ==> env_name_char(#[trigger] t[k]))) by {
            if forall|k: int| j + 7 <= k < q - 1 ==> env_name_char(#[trigger] t[k]) {
                assert forall|k: int| o + j + 7 <= k < o + q - 1 implies env_name_char(#[trigger] s[k]) by {
                    assert(s[k] == t[k - o]);
                }
            }
            if forall|k: int| o + j + 7 <= k < o + q - 1 ==> env_name_char(#[trigger] s[k]) {
                assert forall|k: int| j + 7 <= k < q - 1 implies env_name_char(#[trigger] t[k]) by {
                    assert(s[o + k] == t[k]);
                }
            }
        }
    }
}

/// How many deepening characters two texts hold together.
proof fn lemma_deepening_append(a: Seq<char>, b: Seq<char>)
    ensures
        deepening_count(a + b) == deepening_count(a) + deepening_count(b),
    decreases b.len(),
{
    if b.len() > 0 {
        assert((a + b).drop_last() =~= a + b.drop_last());
        lemma_deepening_append(a, b.drop_last());
    } else {
        assert(a + b =~= a);
    }
}

/// `\begin{name}` as written before an environment's body.
pub open spec fn begin_text(name: Seq<char>) -> Seq<char> {
    seq!['\\', 'b', 'e', 'g', 'i', 'n', '{'] + name + seq!['}']
}

/// Environments named with letters and `*`, such as `align*` or
/// `equation*`, are handed to mitex as they stand: `\begin{name}` in front of
/// ready text keeps it ready, as long as the name is not `tabular` (which
/// needs its columns right after) and the deepening bound still holds.
pub proof fn law_starred_environments_are_ready(name: Seq<char>, rest: Seq<char>)
    requires
        name.len() > 0,
        forall|k: int| 0 <= k < name.len() ==> {
            let c = #[trigger] name[k] as u32;
            (97 <= c <= 122) || (65 <= c <= 90) || c == 42
        },
        name != tabular_word(),
        mitex_ready(rest),
        deepening_count(rest) + 2 <= max_deepening(),
    ensures
        mitex_ready(begin_text(name) + rest),
{
    let p = begin_text(name);
    let s = p + rest;
    let n = name.len() as int;
    assert(p.len() == n + 8);
    assert forall|k: int| 7 <= k < n + 7 implies plain_arg_char(#[trigger] s[k]) && env_name_char(s[k]) && s[k]
        != '\\' by {
        assert(s[k] == p[k]);
        assert(p[k] == name[k - 7]);
        lemma_name_char(name[k - 7]);
    }
    assert(s[0] == '\\' && s[1] == 'b' && s[2] == 'e' && s[3] == 'g' && s[4] == 'i' && s[5] == 'n' && s[6] == '{');
    assert(s[n + 7] == '}');
    assert forall|j: int| 0 <= j < s.len() implies #[trigger] guarded_at(s, j) by {
        if j >= p.len() {
            lemma_guarded_shift(p, rest, j - p.len());
            assert(p.len() + (j - p.len()) == j);
        } else if j > 0 {
            if j >= 7 && j < n + 7 {
            } else {
                assert(s[j] != '\\');
            }
        } else {
            if n == 7 && word_at(s, 7, tabular_word()) {
                assert forall|k: int| 0 <= k < 7 implies s.subrange(7, 14)[k] == name[k] by {
                    assert(s[7 + k] == p[7 + k]);
                }
                assert(s.subrange(7, 14) =~= name);
            }
            lemma_begin_guarded(s, n);
        }
    }
    lemma_deepening_append(p, rest);
    lemma_deepening_append(seq!['\\', 'b', 'e', 'g', 'i', 'n', '{'] + name, seq!['}']);
    lemma_deepening_append(seq!['\\', 'b', 'e', 'g', 'i', 'n', '{'], name);
    lemma_no_deepening(name);
    assert(deepening_count(seq!['\\', 'b', 'e', 'g', 'i', 'n', '{']) == 2) by {
        reveal_with_fuel(deepening_count, 8);
    }
    assert(deepening_count(seq!['}']) == 0) by {
        reveal_with_fuel(deepening_count, 2);
    }
}

/// `\begin{name}` at the start, with a name of plain environment-name
/// characters that is not `tabular`, is guarded there.
#[verifier::rlimit(50)]
proof fn lemma_begin_guarded(s: Seq<char>, n: int)
    requires
        n > 0,
        n + 8 <= s.len(),
        s[0] == '\\' && s[1] == 'b' && s[2] == 'e' && s[3] == 'g' && s[4] == 'i' && s[5] == 'n' && s[6] == '{',
        s[n + 7] == '}',
        forall|k: int| 7 <= k < n + 7 ==> plain_arg_char(#[trigger] s[k]) && env_name_char(s[k]) && s[k] != '\\',
        !(n == 7 && word_at(s, 7, tabular_word())),
    ensures
        guarded_at(s, 0),
{
    lemma_word_first(s, 1, label_word());
    lemma_word_first(s, 1, caption_word());
    lemma_word_first(s, 1, graphics_word());
    lemma_word_first(s, 1, seq!['n', 'e', 'w', 'c', 'o', 'm', 'm', 'a', 'n', 'd']);
    lemma_word_first(s, 1, seq!['r', 'e', 'n', 'e', 'w', 'c', 'o', 'm', 'm', 'a', 'n', 'd']);
    lemma_word_first(s, 1, seq!['p', 'r', 'o', 'v', 'i', 'd', 'e', 'c', 'o', 'm', 'm', 'a', 'n', 'd']);
    lemma_word_first(
        s,
        1,
        seq!['D', 'e', 'c', 'l', 'a', 'r', 'e', 'R', 'o', 'b', 'u', 's', 't', 'C', 'o', 'm', 'm', 'a', 'n', 'd'],
    );
    lemma_word_first(s, 1, seq!['n', 'e', 'w', 'e', 'n', 'v', 'i', 'r', 'o', 'n', 'm', 'e', 'n', 't']);
    lemma_word_first(s, 1, seq!['r', 'e', 'n', 'e', 'w', 'e', 'n', 'v', 'i', 'r', 'o', 'n', 'm', 'e', 'n', 't']);
    assert(s.subrange(1, 6) =~= begin_word());
    assert(command_at(s, 0, begin_word()));
    lemma_name_run(s, n, 7);
    assert(group_end(s, 6, '{', '}') == Some(n + 8));
}

/// A word standing at `i` starts with the character at `i`.
proof fn lemma_word_first(s: Seq<char>, i: int, w: Seq<char>)
    requires
        w.len() > 0,
        0 <= i < s.len(),
    ensures
        word_at(s, i, w) ==> s[i] == w[0],
{
    if word_at(s, i, w) {
        assert(s.subrange(i, i + w.len())[0] == s[i]);
    }
}

/// A run of letters and stars holds no deepening character.
proof fn lemma_no_deepening(name: Seq<char>)
    requires
        forall|k: int| 0 <= k < name.len() ==> {
            let c = #[trigger] name[k] as u32;
            (97 <= c <= 122) || (65 <= c <= 90) || c == 42
        },
    ensures
        deepening_count(name) == 0,
    decreases name.len(),
{
    if name.len() > 0 {
        let c = name.last() as u32;
        assert(name[name.len() - 1] as u32 == c);
        lemma_no_deepening(name.drop_last());
    }
}

/// In `\begin{name}…`, the plain run from inside the name ends at the brace
/// that closes it.
proof fn lemma_name_run(s: Seq<char>, n: int, k: int)
    requires
        7 <= k <= n + 7 < s.len(),
        forall|q: int| 7 <= q < n + 7 ==> plain_arg_char(#[trigger] s[q]),
        s[n + 7] == '}',
    ensures
        plain_run_end(s, k) == n + 7,
    decreases n + 7 - k,
{
    if k < n + 7 {
        lemma_name_run(s, n, k + 1);
    }
}

/// `mitex::convert_math(latex, None)`: convert LaTeX math into Typst markup
/// with mitex's default command set. Claimed: on LaTeX that is
/// `mitex_ready`, the call returns, and its result is a function of the input
/// alone, `latex_as_typst`. Nothing is claimed about the markup, nor about
/// which inputs mitex accepts.
///
/// Why the call returns there, as traced in mitex's source:
/// - The converter's `expect` calls and argument slicing (`\label`,
///   `\includegraphics`, `\caption`, the environment name, a `tabular`'s
///   columns) find what they look for, since `mitex_ready` asks for those
///   arguments in braces, holding plain characters.
/// - The parser's `unwrap` calls on the lexer (in `eat`, `eat_as`,
///   `hold_trivia`, and on `peek_text` in `command`, `environment` and the
///   splitting of a word into arguments) each follow a `peek` that found a
///   token; its `unreachable!` in `item_group` follows an `assert!` on the
///   only scopes it is called with. The lexer's own `unwrap` is safe, since
///   every character falls under some token.
/// - A macro the text defines could expand without end, and its expansion is
///   not bounded by the text; `mitex_ready` allows no such definition.
/// - Parser and converter recurse with no depth limit. Every step deeper in
///   the parser, and so in the tree the converter walks, starts at a brace,
///   bracket or parenthesis group, a `$`, a backslash command, or a `^`, `_`
///   or `'`, which it consumes; so the depth is at most the number of such
///   characters, which `mitex_ready` bounds by `max_deepening`. Twice that
///   depth, in nested braces, roots, fractions, scripts, primes, `\left`,
///   `\text`, `$` and bracketed arguments, was seen to convert in a spawned
///   thread's 2 MiB stack; the claim takes the calling thread to have at
///   least that much.
#[verifier::external_body]
fn mitex_convert_math(latex: &str) -> (r: Result<String, String>)
    requires
        mitex_ready(latex@),
    ensures
        match r {
            Ok(t) => latex_as_typst(latex@) == Ok::<Seq<char>, Seq<char>>(t@),
            Err(e) => latex_as_typst(latex@) == Err::<Seq<char>, Seq<char>>(e@),
        },
{
    mitex::convert_math(latex, None)
}

/// Stage one of typesetting: LaTeX math to Typst markup. A conversion
/// failure is a `Mitex` error carrying mitex's message. The LaTeX must be
/// `mitex_ready`; `latex_convertible` tells.
pub fn latex_to_typst(latex: &str) -> (r: Result<String, FormulaError>)
    requires
        mitex_ready(latex@),
    ensures
        match latex_as_typst(latex@) {
            Ok(t) => r matches Ok(s) && s@ == t,
            Err(m) => r matches Err(FormulaError::Mitex(s)) && s@ == m,
        },
{
    match mitex_convert_math(latex) {
        Ok(typst) => Ok(typst),
        Err(e) => Err(FormulaError::Mitex(e)),
    }
}

/// What an author is told when a formula cannot be typeset: each failure
/// in a sentence of its own, quoting the LaTeX. An imported drawing's errors
/// already speak for themselves and pass through.
pub open spec fn formula_message(latex: Seq<char>, e: FormulaError) -> Seq<char> {
    match e {
        FormulaError::TypstSpawn(_) => "could not run `typst`, which Codimate uses to typeset "@ + debug_text(latex)
            + ". Install it (macOS: `brew install typst`) — like ffmpeg it is an external tool, not a Python dependency."@,
        FormulaError::Mitex(m) => "could not read the LaTeX "@ + debug_text(latex) + ": "@ + m@,
        FormulaError::TypstCompile(m) => "could not typeset "@ + debug_text(latex) + ":\n"@ + m@,
        FormulaError::Svg(m) => "could not read the typeset "@ + debug_text(latex) + ": "@ + m@,
        FormulaError::SvgRead(m) => m@,
        FormulaError::SvgText(m) => m@,
    }
}

/// The message an author sees when typesetting `latex` failed with `e`.
pub fn formula_error_message(latex: &str, e: FormulaError) -> (r: String)
    ensures
        r@ == formula_message(latex@, e),
{
    let quoted = debug_quoted(latex);
    match e {
        FormulaError::TypstSpawn(_) => {
            let m = append(owned("could not run `typst`, which Codimate uses to typeset "), quoted.as_str());
            append(
                m,
                ". Install it (macOS: `brew install typst`) — like ffmpeg it is an external tool, not a Python dependency.",
            )
        },
        FormulaError::Mitex(m) => {
            let head = append(append(owned("could not read the LaTeX "), quoted.as_str()), ": ");
            append(head, m.as_str())
        },
        FormulaError::TypstCompile(m) => {
            let head = append(append(owned("could not typeset "), quoted.as_str()), ":\n");
            append(head, m.as_str())
        },
        FormulaError::Svg(m) => {
            let head = append(append(owned("could not read the typeset "), quoted.as_str()), ": ");
            append(head, m.as_str())
        },
        FormulaError::SvgRead(m) => m,
        FormulaError::SvgText(m) => m,
    }
}

fn is_plain_arg_char(c: char) -> (r: bool)
    ensures
        r == plain_arg_char(c),
{
    c != '{' && c != '}' && c != '[' && c != ']' && c != '\\' && c != '$' && c != '%'
}

fn plain_run_end_of(s: &Vec<char>, i: usize) -> (e: usize)
    requires
        i <= s.len(),
    ensures
        e as int == plain_run_end(s@, i as int),
        i <= e <= s.len(),
{
    let mut j = i;
    while j < s.len() && is_plain_arg_char(s[j])
        invariant
            i <= j <= s.len(),
            plain_run_end(s@, i as int) == plain_run_end(s@, j as int),
        decreases s.len() - j,
    {
        j = j + 1;
    }
    j
}

fn group_end_of(s: &Vec<char>, i: usize, open: char, close: char) -> (r: Option<usize>)
    requires
        i <= s.len(),
    ensures
        match group_end(s@, i as int, open, close) {
            Some(q) => r == Some(q as usize) && i < q <= s.len(),
            None => r is None,
        },
{
    if i < s.len() && s[i] == open {
        let e = plain_run_end_of(s, i + 1);
        if e < s.len() && s[e] == close {
            Some(e + 1)
        } else {
            None
        }
    } else {
        None
    }
}

fn word_at_of(s: &Vec<char>, i: usize, word: &Vec<char>) -> (r: bool)
    requires
        i <= s.len(),
    ensures
        r == word_at(s@, i as int, word@),
{
    if word.len() > s.len() - i {
        return false;
    }
    let mut k: usize = 0;
    while k < word.len()
        invariant
            k <= word.len(),
            i + word.len() <= s.len(),
            forall|m: int| 0 <= m < k ==> s@[i + m] == word@[m],
        decreases word.len() - k,
    {
        if s[i + k] != word[k] {
            proof {
                assert(s@.subrange(i as int, i + word.len())[k as int] != word@[k as int]);
            }
            return false;
        }
        k = k + 1;
    }
    assert(s@.subrange(i as int, i + word.len()) =~= word@);
    true
}

fn is_ascii_letter(c: char) -> (r: bool)
    ensures
        r == ascii_letter(c),
{
    let n = c as u32;
    (65 <= n && n <= 90) || (97 <= n && n <= 122)
}

fn command_at_of(s: &Vec<char>, i: usize, name: &Vec<char>) -> (r: bool)
    requires
        i < s.len(),
    ensures
        r == command_at(s@, i as int, name@),
{
    if s[i] != '\\' || !word_at_of(s, i + 1, name) {
        return false;
    }
    let p = i + 1 + name.len();
    p == s.len() || !is_ascii_letter(s[p])
}

fn guarded_at_of(s: &Vec<char>, i: usize) -> (r: bool)
    requires
        i < s.len(),
    ensures
        r == guarded_at(s@, i as int),
{
    let label = vec!['l', 'a', 'b', 'e', 'l'];
    let caption = vec!['c', 'a', 'p', 't', 'i', 'o', 'n'];
    let graphics = vec!['i', 'n', 'c', 'l', 'u', 'd', 'e', 'g', 'r', 'a', 'p', 'h', 'i', 'c', 's'];
    let begin = vec!['b', 'e', 'g', 'i', 'n'];
    let tabular = vec!['t', 'a', 'b', 'u', 'l', 'a', 'r'];
    assert(label@ =~= label_word());
    assert(caption@ =~= caption_word());
    assert(graphics@ =~= graphics_word());
    assert(begin@ =~= begin_word());
    assert(tabular@ =~= tabular_word());
    if command_at_of(s, i, &label) && group_end_of(s, i + 6, '{', '}').is_none() {
        return false;
    }
    if command_at_of(s, i, &caption) && group_end_of(s, i + 8, '{', '}').is_none() {
        return false;
    }
    if command_at_of(s, i, &graphics) {
        let p = i + 16;
        let plain = group_end_of(s, p, '{', '}').is_some();
        let with_options = match group_end_of(s, p, '[', ']') {
            Some(q) => group_end_of(s, q, '{', '}').is_some(),
            None => false,
        };
        if !plain && !with_options {
            return false;
        }
    }
    let definers = vec![
        vec!['n', 'e', 'w', 'c', 'o', 'm', 'm', 'a', 'n', 'd'],
        vec!['r', 'e', 'n', 'e', 'w', 'c', 'o', 'm', 'm', 'a', 'n', 'd'],
        vec!['p', 'r', 'o', 'v', 'i', 'd', 'e', 'c', 'o', 'm', 'm', 'a', 'n', 'd'],
        vec!['D', 'e', 'c', 'l', 'a', 'r', 'e', 'R', 'o', 'b', 'u', 's', 't', 'C', 'o', 'm', 'm', 'a', 'n', 'd'],
        vec!['n', 'e', 'w', 'e', 'n', 'v', 'i', 'r', 'o', 'n', 'm', 'e', 'n', 't'],
        vec!['r', 'e', 'n', 'e', 'w', 'e', 'n', 'v', 'i', 'r', 'o', 'n', 'm', 'e', 'n', 't'],
    ];
    assert(definers@[0]@ =~= seq!['n', 'e', 'w', 'c', 'o', 'm', 'm', 'a', 'n', 'd']);
    assert(definers@[1]@ =~= seq!['r', 'e', 'n', 'e', 'w', 'c', 'o', 'm', 'm', 'a', 'n', 'd']);
    assert(definers@[2]@ =~= seq!['p', 'r', 'o', 'v', 'i', 'd', 'e', 'c', 'o', 'm', 'm', 'a', 'n', 'd']);
    assert(definers@[3]@ =~= seq![
        'D', 'e', 'c', 'l', 'a', 'r', 'e', 'R', 'o', 'b', 'u', 's', 't', 'C', 'o', 'm', 'm', 'a', 'n', 'd',
    ]);
    assert(definers@[4]@ =~= seq!['n', 'e', 'w', 'e', 'n', 'v', 'i', 'r', 'o', 'n', 'm', 'e', 'n', 't']);
    assert(definers@[5]@ =~= seq!['r', 'e', 'n', 'e', 'w', 'e', 'n', 'v', 'i', 'r', 'o', 'n', 'm', 'e', 'n', 't']);
    let mut d: usize = 0;
    while d < definers.len()
        invariant
            d <= definers.len(),
            definers.len() == 6,
            i < s.len(),
            definers@[0]@ == seq!['n', 'e', 'w', 'c', 'o', 'm', 'm', 'a', 'n', 'd'],
            definers@[1]@ == seq!['r', 'e', 'n', 'e', 'w', 'c', 'o', 'm', 'm', 'a', 'n', 'd'],
            definers@[2]@ == seq!['p', 'r', 'o', 'v', 'i', 'd', 'e', 'c', 'o', 'm', 'm', 'a', 'n', 'd'],
            definers@[3]@ == seq![
                'D', 'e', 'c', 'l', 'a', 'r', 'e', 'R', 'o', 'b', 'u', 's', 't', 'C', 'o', 'm', 'm', 'a', 'n', 'd',
            ],
            definers@[4]@ == seq!['n', 'e', 'w', 'e', 'n', 'v', 'i', 'r', 'o', 'n', 'm', 'e', 'n', 't'],
            definers@[5]@ == seq!['r', 'e', 'n', 'e', 'w', 'e', 'n', 'v', 'i', 'r', 'o', 'n', 'm', 'e', 'n', 't'],
            forall|e: int| 0 <= e < d ==> !command_at(s@, i as int, #[trigger] definers@[e]@),
        decreases definers.len() - d,
    {
        if command_at_of(s, i, &definers[d]) {
            return false;
        }
        d = d + 1;
    }
    assert(!defines_macro(s@, i as int)) by {
        assert(!command_at(s@, i as int, definers@[0]@));
        assert(!command_at(s@, i as int, definers@[1]@));
        assert(!command_at(s@, i as int, definers@[2]@));
        assert(!command_at(s@, i as int, definers@[3]@));
        assert(!command_at(s@, i as int, definers@[4]@));
        assert(!command_at(s@, i as int, definers@[5]@));
    }
    if command_at_of(s, i, &begin) {
        let p = i + 6;
        match group_end_of(s, p, '{', '}') {
            Some(q) => {
                if q <= p + 2 {
                    return false;
                }
                let mut k = p + 1;
                while k < q - 1
                    invariant
                        p + 1 <= k <= q - 1,
                        q <= s.len(),
                        p == i + 6,
                        i < s.len(),
                        command_at(s@, i as int, begin_word()),
                        group_end(s@, p as int, '{', '}') == Some(q as int),
                        forall|m: int| p + 1 <= m < k ==> env_name_char(#[trigger] s@[m]),
                    decreases q - 1 - k,
                {
                    if !(is_ascii_letter(s[k]) || s[k] == '*') {
                        return false;
                    }
                    k = k + 1;
                }
                if q - p == 9 && word_at_of(s, p + 1, &tabular) && group_end_of(s, q, '{', '}').is_none() {
                    return false;
                }
            },
            None => {
                return false;
            },
        }
    }
    true
}

/// Whether `latex` is `mitex_ready`, so that `latex_to_typst` may be called
/// on it.
pub fn latex_convertible(latex: &str) -> (r: bool)
    ensures
        r == mitex_ready(latex@),
{
    let s = chars_of(latex);
    let mut i: usize = 0;
    let mut deep: usize = 0;
    while i < s.len()
        invariant
            i <= s.len(),
            s@ == latex@,
            forall|k: int| 0 <= k < i ==> #[trigger] guarded_at(latex@, k),
            deep == deepening_count(s@.take(i as int)),
            deep <= i,
        decreases s.len() - i,
    {
        if !guarded_at_of(&s, i) {
            return false;
        }
        proof {
            assert(s@.take(i + 1).drop_last() =~= s@.take(i as int));
        }
        let c = s[i];
        if c == '{' || c == '[' || c == '(' || c == '$' || c == '\\' || c == '^' || c == '_' || c == '\'' {
            deep = deep + 1;
        }
        i = i + 1;
    }
    proof {
        assert(s@.take(s.len() as int) =~= s@);
    }
    deep <= 128
}

/// The refusal for LaTeX that is not `mitex_ready`.
pub open spec fn unready_message() -> Seq<char> {
    "this LaTeX is outside what Codimate hands to mitex: each \\label, \\caption, \\includegraphics and \\begin needs its arguments in braces right after it, no macro may be defined, and at most 128 braces, brackets, parentheses, dollars, commands and scripts may occur"@
}

/// LaTeX math to Typst markup, on any text: what `latex_to_typst` gives
/// where the text is `mitex_ready`, and a `Mitex` refusal saying so where it
/// is not.
pub fn latex_to_typst_checked(latex: &str) -> (r: Result<String, FormulaError>)
    ensures
        mitex_ready(latex@) ==> match latex_as_typst(latex@) {
            Ok(t) => r matches Ok(s) && s@ == t,
            Err(m) => r matches Err(FormulaError::Mitex(s)) && s@ == m,
        },
        !mitex_ready(latex@) ==> (r matches Err(FormulaError::Mitex(s)) && s@ == unready_message()),
{
    if latex_convertible(latex) {
        latex_to_typst(latex)
    } else {
        Err(FormulaError::Mitex(owned(
            "this LaTeX is outside what Codimate hands to mitex: each \\label, \\caption, \\includegraphics and \\begin needs its arguments in braces right after it, no macro may be defined, and at most 128 braces, brackets, parentheses, dollars, commands and scripts may occur",
        )))
    }
}

/// `s` without leading whitespace.
pub open spec fn trim_start(s: Seq<char>) -> Seq<char>
    decreases s.len(),
{
    if s.len() > 0 && is_white_space(s[0] as u32) {
        trim_start(s.drop_first())
    } else {
        s
    }
}

/// `s` without trailing whitespace.
pub open spec fn trim_end(s: Seq<char>) -> Seq<char>
    decreases s.len(),
{
    if s.len() > 0 && is_white_space(s.last() as u32) {
        trim_end(s.drop_last())
    } else {
        s
    }
}

/// `s` without whitespace at either end, as `str::trim` leaves it.
pub open spec fn trimmed(s: Seq<char>) -> Seq<char> {
    trim_end(trim_start(s))
}

/// The hex digits of a CSS colour: what follows the `#` of the trimmed text.
pub open spec fn css_hex(s: Seq<char>) -> Option<Seq<char>> {
    let t = trimmed(s);
    if t.len() > 0 && t[0] == '#' {
        Some(t.drop_first())
    } else {
        None
    }
}

/// A doubled digit `#rgb` channel: the digit read twice, as in `0xrr`.
pub open spec fn doubled(b: u8) -> Option<u8> {
    match hex_digit(b) {
        Some(v) => Some((17 * v) as u8),
        None => None,
    }
}

/// A digit of a short `#rgb` colour, in either case, stands for itself
/// twice over: the digit with value `v` gives the byte `17 * v`; any other
/// byte gives nothing.
pub proof fn law_short_css_digits_double(b: u8)
    ensures
        forall|v: int| is_hex_digit_for(b, v) ==> doubled(b) == Some((17 * v) as u8),
        (forall|v: int| !is_hex_digit_for(b, v)) ==> doubled(b) is None,
{
    law_hex_digits_in_either_case(b);
    if forall|v: int| !is_hex_digit_for(b, v) {
        assert forall|v: int| 0 <= v < 16 implies b as u32 != crate::colour::lower_hex_digits()[v] as u32 && b as u32
            != crate::colour::upper_hex_digits()[v] as u32 by {
            assert(!is_hex_digit_for(b, v));
        }
    }
}

/// The red, green and blue bytes of a CSS colour `#rgb` or `#rrggbb`, each
/// digit a hexadecimal digit, whitespace around it ignored; anything else (a named colour, a gradient
/// reference, `none`) reads as nothing.
pub open spec fn css_colour(s: Seq<char>) -> Option<(u8, u8, u8)> {
    match css_hex(s) {
        Some(h) => {
            let b = encode_utf8(h);
            if b.len() == 3 {
                match (doubled(b[0]), doubled(b[1]), doubled(b[2])) {
                    (Some(r), Some(g), Some(bl)) => Some((r, g, bl)),
                    _ => None,
                }
            } else if b.len() == 6 {
                match (hex_byte(b[0], b[1]), hex_byte(b[2], b[3]), hex_byte(b[4], b[5])) {
                    (Some(r), Some(g), Some(bl)) => Some((r, g, bl)),
                    _ => None,
                }
            } else {
                None
            }
        },
        None => None,
    }
}

/// The character positions `lo..hi` of `s` that remain once whitespace is
/// trimmed from both ends.
pub(crate) fn trim_bounds(s: &str) -> (r: (usize, usize))
    ensures
        r.0 <= r.1 <= s@.len(),
        s@.subrange(r.0 as int, r.1 as int) == trimmed(s@),
{
    let c = chars_of(s);
    let mut lo: usize = 0;
    proof {
        assert(c@.subrange(0, c@.len() as int) =~= c@);
    }
    while lo < c.len() && is_whitespace(c[lo])
        invariant
            c@ == s@,
            lo <= c.len(),
            trim_start(s@) == trim_start(c@.subrange(lo as int, c@.len() as int)),
        decreases c.len() - lo,
    {
        proof {
            assert(c@.subrange(lo as int, c@.len() as int).drop_first() =~= c@.subrange(lo + 1, c@.len() as int));
        }
        lo += 1;
    }
    let ghost start = c@.subrange(lo as int, c@.len() as int);
    proof {
        assert(trim_start(start) == start);
    }
    let mut hi: usize = c.len();
    proof {
        assert(start.subrange(0, start.len() as int) =~= start);
    }
    while hi > lo && is_whitespace(c[hi - 1])
        invariant
            c@ == s@,
            lo <= hi <= c.len(),
            start == c@.subrange(lo as int, c@.len() as int),
            trim_start(s@) == start,
            trim_end(start) == trim_end(c@.subrange(lo as int, hi as int)),
        decreases hi,
    {
        proof {
            assert(c@.subrange(lo as int, hi as int).drop_last() =~= c@.subrange(lo as int, hi - 1));
        }
        hi -= 1;
    }
    (lo, hi)
}

fn doubled_value(b: u8) -> (r: Option<u8>)
    ensures
        r == doubled(b),
{
    match hex_digit_of(b) {
        Some(v) => Some(17 * v),
        None => None,
    }
}

/// Read a colour written in an SVG file: `#rgb` or `#rrggbb`, with
/// whitespace around it ignored. Anything else reads as nothing, so the
/// caller keeps its own choice.
pub fn parse_css_colour(raw: &str) -> (r: Option<(u8, u8, u8)>)
    ensures
        r == css_colour(raw@),
{
    let (lo, hi) = trim_bounds(raw);
    if lo == hi || raw.get_char(lo) != '#' {
        return None;
    }
    let hex = raw.substring_char(lo + 1, hi);
    proof {
        assert(hex@ =~= trimmed(raw@).drop_first());
    }
    let b = hex.as_bytes();
    if b.len() == 3 {
        match (doubled_value(b[0]), doubled_value(b[1]), doubled_value(b[2])) {
            (Some(r), Some(g), Some(bl)) => Some((r, g, bl)),
            _ => None,
        }
    } else if b.len() == 6 {
        match (hex_byte_of(b[0], b[1]), hex_byte_of(b[2], b[3]), hex_byte_of(b[4], b[5])) {
            (Some(r), Some(g), Some(bl)) => Some((r, g, bl)),
            _ => None,
        }
    } else {
        None
    }
}

} // verus!
