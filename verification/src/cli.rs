//! What the command line asks for.

use vstd::prelude::*;

verus! {

/// The parsed command line.
pub struct Args {
    /// Input file to compile or run.
    pub file: Option<String>,
    /// Show tokens.
    pub tokens: bool,
    /// Print version.
    pub version: bool,
    /// File that the generated code is written to.
    pub input: String,
    /// File of the generated binary.
    pub output: String,
}

/// What the program does.
pub enum RunMode {
    /// Print the tokens of `file`.
    Tokens { file: String },
    /// Print the version.
    Version,
    /// Compile `file`, writing the generated code to `input` and the binary
    /// to `output`.
    Compile { file: String, input: String, output: String },
    /// Nothing to do: there is no input file.
    NoInput,
}

/// `--version` wins; otherwise `--tokens` with a file shows tokens, a file
/// alone is compiled, and no file leaves nothing to do.
pub fn resolve_run_mode(args: &Args) -> (r: RunMode)
    ensures
        args.version ==> r is Version,
        !args.version && args.file is None ==> r is NoInput,
        !args.version && args.file is Some && args.tokens ==> r == (RunMode::Tokens {
            file: args.file.unwrap(),
        }),
        !args.version && args.file is Some && !args.tokens ==> r == (RunMode::Compile {
            file: args.file.unwrap(),
            input: args.input,
            output: args.output,
        }),
{
    match (&args.file, args.tokens, args.version) {
        (Some(file), true, false) => RunMode::Tokens { file: file.clone() },
        (_, _, true) => RunMode::Version,
        (Some(file), false, false) => RunMode::Compile {
            file: file.clone(),
            input: args.input.clone(),
            output: args.output.clone(),
        },
        _ => RunMode::NoInput,
    }
}

} // verus!
