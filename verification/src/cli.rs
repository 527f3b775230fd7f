//! The command line's vocabulary: its subcommands, the shells it writes
//! completions for, and the check of the flags that forging needs.
use vstd::prelude::*;

verus! {

/// A subcommand; without one the tool forges.
pub enum Command {
    /// Print the identity text.
    Identity,
    /// Generate shell completions.
    Completion { shell: Shell },
}

/// A shell for which completions can be generated.
#[derive(Clone, Copy, Debug, PartialEq, Eq, Structural)]
pub enum Shell {
    Bash,
    Zsh,
    Fish,
    Powershell,
}

/// A flag that forging needs and that was not given.
#[derive(Clone, Copy, Debug, PartialEq, Eq, Structural)]
pub enum MissingArgument {
    /// `--out <OUT>`
    Out,
    /// `--files <FILE>...`
    Files,
}

/// The output path and the input files that forging needs: `--out` is
/// checked first, then `--files`.
pub fn required_args(out: Option<String>, files: Option<Vec<String>>) -> (r: Result<
    (String, Vec<String>),
    MissingArgument,
>)
    ensures
        out is None ==> r == Err::<(String, Vec<String>), MissingArgument>(MissingArgument::Out),
        out is Some && files is None ==> r == Err::<(String, Vec<String>), MissingArgument>(
            MissingArgument::Files,
        ),
        out is Some && files is Some ==> r == Ok::<(String, Vec<String>), MissingArgument>(
            (out->0, files->0),
        ),
{
    match out {
        None => Err(MissingArgument::Out),
        Some(o) => match files {
            None => Err(MissingArgument::Files),
            Some(f) => Ok((o, f)),
        },
    }
}

} // verus!
