use vstd::prelude::*;
use crate::config_controller::config_controller::Config as ConfigControllerConfig;

verus! {

/// The agent's settings.
#[derive(Clone, Debug)]
pub struct Config {
    pub name: Option<String>,
    pub config_controller: Option<ConfigControllerConfig>,
}

impl Config {
    /// The settings used where no settings file exists.
    pub fn fallback() -> (c: Config)
        ensures
            c.name matches Some(n) && n@ == "bla"@,
            c.config_controller is None,
    {
        Config { name: Some("bla".to_owned()), config_controller: None }
    }
}

/// The settings file: the one given on the command line, else `config.yaml`.
pub fn config_file_path(arg: Option<String>) -> (p: String)
    ensures
        arg matches Some(a) ==> p == a,
        arg is None ==> p@ == "config.yaml"@,
{
    match arg {
        Some(a) => a,
        None => "config.yaml".to_owned(),
    }
}

} // verus!
