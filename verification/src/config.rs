//! Env-driven runtime config, in three stages: the raw environment reading
//! ([`EnvConfigBuilder`], every field optional, straight from the environment),
//! the still all-optional [`ConfigBuilder`], and the [`Config`] the rest of the
//! program uses. Missing variables take defaults rather than failing, so
//! `--help` and local runs work without the full ObjectiveAI environment.

use vstd::prelude::*;

verus! {

/// The variables as read from the environment (`OBJECTIVEAI_STATE_DIR`,
/// `OBJECTIVEAI_AGENT_INSTANCE_HIERARCHY`).
pub struct EnvConfigBuilder {
    pub state_dir: Option<String>,
    pub objectiveai_agent_instance_hierarchy: Option<String>,
}

impl EnvConfigBuilder {
    /// Lower the environment reading into a [`ConfigBuilder`], field by field.
    pub fn build(self) -> (r: ConfigBuilder)
        ensures
            r.state_dir == self.state_dir,
            r.objectiveai_agent_instance_hierarchy == self.objectiveai_agent_instance_hierarchy,
    {
        ConfigBuilder {
            state_dir: self.state_dir,
            objectiveai_agent_instance_hierarchy: self.objectiveai_agent_instance_hierarchy,
        }
    }
}

/// The configuration before defaults are applied.
pub struct ConfigBuilder {
    pub state_dir: Option<String>,
    pub objectiveai_agent_instance_hierarchy: Option<String>,
}

impl Default for ConfigBuilder {
    fn default() -> (r: Self)
        ensures
            r.state_dir is None,
            r.objectiveai_agent_instance_hierarchy is None,
    {
        ConfigBuilder { state_dir: None, objectiveai_agent_instance_hierarchy: None }
    }
}

/// A setting as text: its value when given, else `default`.
pub open spec fn setting_or(value: Option<String>, default: Seq<char>) -> Seq<char> {
    match value {
        Some(v) => v@,
        None => default,
    }
}

impl ConfigBuilder {
    /// Apply the defaults: state directory `.`, agent instance hierarchy `arcanum`.
    pub fn build(self) -> (r: Config)
        ensures
            r.state_dir@ == setting_or(self.state_dir, "."@),
            r.objectiveai_agent_instance_hierarchy@ == setting_or(
                self.objectiveai_agent_instance_hierarchy,
                "arcanum"@,
            ),
    {
        let state_dir = match self.state_dir {
            Some(s) => s,
            None => ".".to_owned(),
        };
        let objectiveai_agent_instance_hierarchy = match self.objectiveai_agent_instance_hierarchy {
            Some(a) => a,
            None => "arcanum".to_owned(),
        };
        Config { state_dir, objectiveai_agent_instance_hierarchy }
    }
}

/// The runtime configuration.
#[derive(Debug, Clone)]
pub struct Config {
    /// Root of the CLI's filesystem state tree (env `OBJECTIVEAI_STATE_DIR`).
    /// Defaults to the current directory.
    pub state_dir: String,
    /// This agent instance's hierarchy (env
    /// `OBJECTIVEAI_AGENT_INSTANCE_HIERARCHY`). Defaults to `"arcanum"`.
    pub objectiveai_agent_instance_hierarchy: String,
}

impl Default for Config {
    fn default() -> (r: Self)
        ensures
            r.state_dir@ == Seq::<char>::empty(),
            r.objectiveai_agent_instance_hierarchy@ == Seq::<char>::empty(),
    {
        Config { state_dir: String::new(), objectiveai_agent_instance_hierarchy: String::new() }
    }
}

impl Config {
    /// The state root (env `OBJECTIVEAI_STATE_DIR`).
    pub fn state_dir(&self) -> (r: String)
        ensures
            r@ == self.state_dir@,
    {
        self.state_dir.clone()
    }
}

/// Build the runtime config from what the environment gave: `from_env` is the
/// reading, or `None` when it failed, which counts as nothing set.
pub fn load_config(from_env: Option<ConfigBuilder>) -> (r: Config)
    ensures
        match from_env {
            Some(b) => r.state_dir@ == setting_or(b.state_dir, "."@)
                && r.objectiveai_agent_instance_hierarchy@ == setting_or(
                b.objectiveai_agent_instance_hierarchy,
                "arcanum"@,
            ),
            None => r.state_dir@ == "."@ && r.objectiveai_agent_instance_hierarchy@ == "arcanum"@,
        },
{
    let builder = match from_env {
        Some(b) => b,
        None => ConfigBuilder::default(),
    };
    builder.build()
}

} // verus!
