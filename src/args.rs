//! The command-line arguments of the tool, as plain values.
use vstd::prelude::*;

verus! {

/// The arguments of the tool as a whole.
pub struct Args {
    /// The subcommand to run, if any.
    pub command: Option<Command>,
    /// Print the version and exit.
    pub version: bool,
}

/// The subcommands.
pub enum Command {
    /// Process a file or a build directory.
    Process(ProcessArgs),
    /// Generate documentation.
    Doc(DocArgs),
}

/// The arguments of `process`.
pub struct ProcessArgs {
    /// Input file or build directory.
    pub input: String,
    /// Additional system header search paths.
    pub include_flags: Option<Vec<String>>,
    /// Leave out sources whose path holds `test`.
    pub ignore_tests: bool,
}

/// The arguments of `doc`.
pub struct DocArgs {
    /// Build directory that holds the compilation database.
    pub input: String,
    /// Additional system header search paths.
    pub include_flags: Option<Vec<String>>,
    /// Leave out sources whose path holds `test`.
    pub ignore_tests: bool,
    /// Output format: `markdown` or `m.css`.
    pub format: String,
    /// Output directory.
    pub output: Option<String>,
}

fn copy_strings(v: &Vec<String>) -> (r: Vec<String>)
    ensures
        r@ == v@,
{
    let mut r: Vec<String> = Vec::new();
    let mut k: usize = 0;
    while k < v.len()
        invariant
            k <= v@.len(),
            r@ == v@.subrange(0, k as int),
        decreases v@.len() - k,
    {
        r.push(v[k].clone());
        k = k + 1;
    }
    assert(r@ =~= v@);
    r
}

/// The search paths of an optional list, as a sequence.
pub open spec fn paths_view(p: &Option<Vec<String>>) -> Option<Seq<String>> {
    match p {
        Some(v) => Some(v@),
        None => None,
    }
}

impl ProcessArgs {
    /// The arguments that `doc` shares with `process`.
    pub fn from_doc_args(args: &DocArgs) -> (r: ProcessArgs)
        ensures
            r.input == args.input,
            paths_view(&r.include_flags) == paths_view(&args.include_flags),
            r.ignore_tests == args.ignore_tests,
    {
        let include_flags = match &args.include_flags {
            Some(v) => Some(copy_strings(v)),
            None => None,
        };
        ProcessArgs { input: args.input.clone(), include_flags, ignore_tests: args.ignore_tests }
    }
}

} // verus!
