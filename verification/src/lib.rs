pub mod event_handler;
pub mod fs_model;
pub mod pipeline;
pub mod processor;

use vstd::prelude::*;
use vstd::string::StringExecFns;

verus! {

/// Configuration handed over by the surrounding process: the root path that
/// the pipeline is asked to watch, taken from the command line.
#[derive(Debug, Clone, PartialOrd, PartialEq)]
pub struct InputConfig {
    pub path: String,
}

impl InputConfig {
    pub fn new(path: String) -> (c: Self)
        ensures
            c.path == path,
    {
        Self { path }
    }
}

/// Reads the watch root out of the raw argument list. The first argument is
/// the program's own name, so a usable root is the second entry; with fewer
/// than two entries there is nothing to watch and the call is rejected.
pub fn get_input_config(args: Vec<String>) -> (r: Result<InputConfig, String>)
    ensures
        args@.len() >= 2 ==> r is Ok && r->Ok_0.path@ == args@[1]@,
        args@.len() < 2 ==> r is Err && r->Err_0@ == "Args is empty!"@,
{
    match args.len() {
        0 | 1 => Err(String::from_str("Args is empty!")),
        _ => Ok(InputConfig::new(args[1].clone())),
    }
}

} // verus!
