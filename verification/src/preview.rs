//! The previewer's command line: which example to open, or what to print
//! instead.

use vstd::prelude::*;
use crate::text::{str_eq, str_starts_with, starts_with};

verus! {

/// What the previewer was asked to do. Positions refer to the argument list,
/// whose first entry is the program's own name.
#[derive(Clone, Copy, Debug, PartialEq, Eq, Structural)]
pub enum PreviewCommand {
    /// Print the usage text.
    Help,
    /// List the examples (also what happens when no example is named).
    List,
    /// Open the example named by the argument at this position.
    Preview(usize),
    /// `-e`/`--example` came last, with no name after it.
    MissingExampleName,
    /// The argument at this position is a flag nothing understands, or a
    /// second bare name.
    UnknownFlag(usize),
}

/// The characters of each argument.
pub open spec fn arg_views(args: Seq<String>) -> Seq<Seq<char>> {
    args.map_values(|a: String| a@)
}

/// Reading the arguments from position `i` on, with the example named so far
/// at position `name`. `-h`/`--help` and `-l`/`--list` answer at once;
/// `-e`/`--example` names the example with the next argument, replacing any
/// earlier choice; the first bare argument (not starting with `-`) names it
/// too; anything else is refused. At the end, a named example is opened and
/// otherwise the list is shown.
pub open spec fn command_from(args: Seq<Seq<char>>, i: int, name: Option<usize>) -> PreviewCommand
    decreases args.len() - i,
{
    if i >= args.len() {
        match name {
            Some(k) => PreviewCommand::Preview(k),
            None => PreviewCommand::List,
        }
    } else {
        let a = args[i];
        if a == "-h"@ || a == "--help"@ {
            PreviewCommand::Help
        } else if a == "-l"@ || a == "--list"@ {
            PreviewCommand::List
        } else if a == "-e"@ || a == "--example"@ {
            if i + 1 < args.len() {
                command_from(args, i + 2, Some((i + 1) as usize))
            } else {
                PreviewCommand::MissingExampleName
            }
        } else if !starts_with(a, "-"@) && name is None {
            command_from(args, i + 1, Some(i as usize))
        } else {
            PreviewCommand::UnknownFlag(i as usize)
        }
    }
}

/// What the whole command line asks for; the first argument is the
/// program's name and is skipped.
pub open spec fn preview_command(args: Seq<Seq<char>>) -> PreviewCommand {
    command_from(args, 1, None)
}

/// Read the previewer's command line.
pub fn parse_args(args: &Vec<String>) -> (r: PreviewCommand)
    ensures
        r == preview_command(arg_views(args@)),
{
    let ghost views = arg_views(args@);
    let mut name: Option<usize> = None;
    let mut i: usize = 1;
    while i < args.len()
        invariant
            views == arg_views(args@),
            1 <= i,
            command_from(views, i as int, name) == preview_command(views),
        decreases args.len() - i,
    {
        let a = args[i].as_str();
        proof {
            assert(views[i as int] == a@);
        }
        if str_eq(a, "-h") || str_eq(a, "--help") {
            return PreviewCommand::Help;
        } else if str_eq(a, "-l") || str_eq(a, "--list") {
            return PreviewCommand::List;
        } else if str_eq(a, "-e") || str_eq(a, "--example") {
            if i + 1 < args.len() {
                name = Some(i + 1);
                i += 2;
            } else {
                return PreviewCommand::MissingExampleName;
            }
        } else if !str_starts_with(a, "-") && name.is_none() {
            name = Some(i);
            i += 1;
        } else {
            return PreviewCommand::UnknownFlag(i);
        }
    }
    match name {
        Some(k) => PreviewCommand::Preview(k),
        None => PreviewCommand::List,
    }
}

} // verus!
