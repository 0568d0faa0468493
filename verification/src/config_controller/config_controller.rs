use vstd::prelude::*;
use crate::config_controller::cn2::cn2::Config as CN2Config;
use crate::config_controller::cli::cli::Config as CLIConfig;

verus! {

/// The settings of the config controllers.
#[derive(Clone, Debug)]
pub struct Config {
    pub cn2: Option<CN2Config>,
    pub cli: Option<CLIConfig>,
}

/// A config controller, as the agent names it.
pub trait ConfigControllerInterface {
    fn name(&self) -> String;
}

/// The config controllers that the agent can start.
#[derive(PartialEq, Eq, Structural, Clone, Copy, Debug)]
pub enum ControllerKind {
    CN2,
    CLI,
}

/// Both controllers have settings, and each says whether it is enabled.
pub open spec fn config_complete(config: Config) -> bool {
    &&& config.cn2 is Some
    &&& config.cn2->0.enabled is Some
    &&& config.cli is Some
    &&& config.cli->0.enabled is Some
}

pub fn is_config_complete(config: &Config) -> (b: bool)
    ensures
        b == config_complete(*config),
{
    match (&config.cn2, &config.cli) {
        (Some(cn2), Some(cli)) => cn2.enabled.is_some() && cli.enabled.is_some(),
        _ => false,
    }
}

/// The controllers to start, in order: the cn2 controller where it is enabled,
/// then the command line interface where it is enabled.
pub fn controllers_to_start(config: &Config) -> (r: Vec<ControllerKind>)
    requires
        config_complete(*config),
    ensures
        r@ == (if config.cn2->0.enabled->0 { seq![ControllerKind::CN2] } else { seq![] }) + (if config.cli->0.enabled->0 {
            seq![ControllerKind::CLI]
        } else {
            seq![]
        }),
{
    let mut r: Vec<ControllerKind> = Vec::new();
    let cn2_config = config.cn2.as_ref().unwrap();
    if cn2_config.enabled.unwrap() {
        r.push(ControllerKind::CN2);
    }
    let cli_config = config.cli.as_ref().unwrap();
    if cli_config.enabled.unwrap() {
        r.push(ControllerKind::CLI);
    }
    assert(r@ =~= (if config.cn2->0.enabled->0 { seq![ControllerKind::CN2] } else { seq![] }) + (if config.cli->0.enabled->0 {
        seq![ControllerKind::CLI]
    } else {
        seq![]
    }));
    r
}

} // verus!
