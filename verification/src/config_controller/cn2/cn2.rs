use vstd::prelude::*;
use crate::api::duplicate_string_option;
use crate::config_controller::config_controller::ConfigControllerInterface;

verus! {

/// The settings of the cn2 controller.
#[derive(Clone, Debug)]
pub struct Config {
    pub enabled: Option<bool>,
    pub server: Option<String>,
}

/// Follows the resources of a cn2 config controller.
pub struct CN2ConfigController {
    config: Config,
    name: String,
}

impl CN2ConfigController {
    pub closed spec fn config_spec(&self) -> Config {
        self.config
    }

    pub closed spec fn name_spec(&self) -> Seq<char> {
        self.name@
    }

    pub fn new(name: String, config: Config) -> (r: Self)
        ensures
            r.config_spec() == config,
            r.name_spec() == name@,
    {
        Self { config: config, name: name }
    }

    /// The address of the config controller to subscribe to.
    pub fn server(&self) -> (r: Option<String>)
        ensures
            r == self.config_spec().server,
    {
        duplicate_string_option(&self.config.server)
    }

    /// The name under which this agent subscribes.
    pub fn agent_name(&self) -> (r: String)
        ensures
            r@ == self.name_spec(),
    {
        self.name.clone()
    }
}

impl ConfigControllerInterface for CN2ConfigController {
    fn name(&self) -> (r: String)
        ensures
            r@ == "CN2ConfigController"@,
    {
        "CN2ConfigController".to_owned()
    }
}

/// The node named on the command line: the argument after the program's name,
/// or a fixed name where there are no arguments at all.
pub fn get_node(args: &Vec<String>) -> (r: String)
    requires
        args.len() != 1,
    ensures
        args.len() > 1 ==> r@ == args@[1]@,
        args.len() == 0 ==> r@ == "5b3s30"@,
{
    if args.len() > 0 {
        args[1].clone()
    } else {
        "5b3s30".to_owned()
    }
}

} // verus!
