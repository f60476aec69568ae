use vstd::prelude::*;

verus! {

/// Output path used when none is given on the command line.
pub const DEFAULT_OUTPUT: &'static str = "photo-sword.json";

/// Run options: the directory to scan and the file the snapshot goes to.
pub struct Opts {
    pub directory: String,
    pub output: String,
}

/// Builds the run options from the parsed command-line values, falling back
/// to the default output path when none was given.
pub fn digest(directory: String, output: Option<String>) -> (r: Opts)
    ensures
        r.directory@ == directory@,
        output is Some ==> r.output@ == output->0@,
        output is None ==> r.output@ == DEFAULT_OUTPUT@,
{
    let output = match output {
        Some(o) => o,
        None => DEFAULT_OUTPUT.to_owned(),
    };
    Opts { directory, output }
}

} // verus!
