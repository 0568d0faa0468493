use vstd::prelude::*;

verus! {

/// The settings of the command line interface's server.
#[derive(Clone, Debug)]
pub struct Config {
    pub enabled: Option<bool>,
    pub socket_path: Option<String>,
}

} // verus!
