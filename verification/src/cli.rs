//! Command-line arguments of the plugin window.

use vstd::prelude::*;
use crate::text::{chars_of, push_range, push_str, same_chars, starts_with, string_from_chars};

verus! {

/// The `--project-dir=` form of the option, up to its value.
pub open spec fn project_dir_eq_flag() -> Seq<char> {
    "--project-dir="@
}

/// The `--project-dir` form of the option, whose value is the next argument.
pub open spec fn project_dir_flag() -> Seq<char> {
    "--project-dir"@
}

/// The project directory given among `args[i..]`: the value of the first
/// argument that is `--project-dir=VALUE`, or the argument after the first
/// `--project-dir` (none if that flag comes last).
pub open spec fn project_dir_from(args: Seq<Seq<char>>, i: int) -> Option<Seq<char>>
    decreases args.len() - i,
{
    if i < 0 || i >= args.len() {
        None
    } else if args[i].len() >= project_dir_eq_flag().len() && args[i].subrange(
        0,
        project_dir_eq_flag().len() as int,
    ) == project_dir_eq_flag() {
        Some(args[i].subrange(project_dir_eq_flag().len() as int, args[i].len() as int))
    } else if args[i] == project_dir_flag() {
        if i + 1 < args.len() {
            Some(args[i + 1])
        } else {
            None
        }
    } else {
        project_dir_from(args, i + 1)
    }
}

/// The texts of the arguments.
pub open spec fn arg_texts(args: Seq<String>) -> Seq<Seq<char>> {
    args.map_values(|a: String| a@)
}

/// Reads an optional `--project-dir <path>` or `--project-dir=<path>` from
/// the command line (`args[0]`, the program name, is skipped). A launcher
/// inside KiCad uses it to pre-fill the project directory.
pub fn parse_project_dir_arg(args: &[String]) -> (r: Option<String>)
    ensures
        match project_dir_from(arg_texts(args@), 1) {
            Some(v) => r matches Some(s) && s@ == v,
            None => r is None,
        },
{
    let mut eq_flag: Vec<char> = Vec::new();
    push_str(&mut eq_flag, "--project-dir=");
    let mut flag: Vec<char> = Vec::new();
    push_str(&mut flag, "--project-dir");
    assert(eq_flag@ =~= project_dir_eq_flag());
    assert(flag@ =~= project_dir_flag());
    let ghost texts = arg_texts(args@);
    let mut i: usize = 1;
    while i < args.len()
        invariant
            1 <= i,
            texts == arg_texts(args@),
            eq_flag@ == project_dir_eq_flag(),
            flag@ == project_dir_flag(),
            project_dir_from(texts, i as int) == project_dir_from(texts, 1),
        decreases args.len() - i,
    {
        let arg = chars_of(args[i].as_str());
        assert(arg@ == texts[i as int]);
        if starts_with(&arg, &eq_flag) {
            let mut value: Vec<char> = Vec::new();
            push_range(&mut value, &arg, eq_flag.len(), arg.len());
            assert(value@ =~= arg@.subrange(eq_flag@.len() as int, arg@.len() as int));
            return Some(string_from_chars(&value));
        }
        if same_chars(&arg, &flag) {
            if i + 1 < args.len() {
                let next = args[i + 1].clone();
                assert(next@ == texts[i + 1]);
                return Some(next);
            }
            return None;
        }
        i += 1;
    }
    None
}

/// Argument `a` is neither form of the option.
pub open spec fn not_project_dir_option(a: Seq<char>) -> bool {
    &&& !(a.len() >= 14 && a.subrange(0, 14) == "--project-dir="@)
    &&& a != "--project-dir"@
}

/// Arguments `args[from..to]` hold neither form of the option, so reading
/// from `from` gives what reading from `to` gives.
proof fn lemma_skip_other_args(args: Seq<Seq<char>>, from: int, to: int)
    requires
        0 <= from <= to <= args.len(),
        forall|j: int| from <= j < to ==> not_project_dir_option(#[trigger] args[j]),
    ensures
        project_dir_from(args, from) == project_dir_from(args, to),
    decreases to - from,
{
    reveal_strlit("--project-dir=");
    if from < to {
        assert(not_project_dir_option(args[from]));
        lemma_skip_other_args(args, from + 1, to);
    }
}

/// The value of the first `--project-dir=VALUE` is the whole rest of that
/// argument, whatever it holds, when no earlier argument (after the
/// program name) is either form of the option.
pub proof fn law_project_dir_equals_form(args: Seq<Seq<char>>, i: int, value: Seq<char>)
    requires
        1 <= i < args.len(),
        args[i] == "--project-dir="@ + value,
        forall|j: int| 1 <= j < i ==> not_project_dir_option(#[trigger] args[j]),
    ensures
        project_dir_from(args, 1) == Some(value),
{
    reveal_strlit("--project-dir=");
    lemma_skip_other_args(args, 1, i);
    assert(args[i].subrange(0, 14) =~= "--project-dir="@);
    assert(args[i].subrange(14, args[i].len() as int) =~= value);
}

/// After the first `--project-dir` (with no earlier form of the option) the
/// value is the next argument, whatever it is; there is none when the flag
/// comes last.
pub proof fn law_project_dir_flag_form(args: Seq<Seq<char>>, i: int)
    requires
        1 <= i < args.len(),
        args[i] == "--project-dir"@,
        forall|j: int| 1 <= j < i ==> not_project_dir_option(#[trigger] args[j]),
    ensures
        project_dir_from(args, 1) == if i + 1 < args.len() {
            Some(args[i + 1])
        } else {
            None
        },
{
    reveal_strlit("--project-dir=");
    reveal_strlit("--project-dir");
    lemma_skip_other_args(args, 1, i);
}

/// Without either form of the option after the program name there is no
/// project directory.
pub proof fn law_project_dir_absent(args: Seq<Seq<char>>)
    requires
        forall|j: int| 1 <= j < args.len() ==> not_project_dir_option(#[trigger] args[j]),
    ensures
        project_dir_from(args, 1) is None,
{
    if args.len() >= 1 {
        lemma_skip_other_args(args, 1, args.len() as int);
    }
}

} // verus!
