use arcanum::commands::mcp::arcanum::begin::Args;
use arcanum::commands::mcp::arcanum::Commands as ArcanumCommands;
use arcanum::commands::mcp::Commands;
use arcanum::config::{load_config, Config, ConfigBuilder, EnvConfigBuilder};

#[test]
fn defaults_when_unset() {
    let c = load_config(None);
    assert_eq!(c.state_dir, ".");
    assert_eq!(c.objectiveai_agent_instance_hierarchy, "arcanum");
    let c = ConfigBuilder::default().build();
    assert_eq!(c.state_dir(), ".");
    assert_eq!(c.objectiveai_agent_instance_hierarchy, "arcanum");
}

#[test]
fn given_values_are_kept() {
    let env = EnvConfigBuilder {
        state_dir: Some("/var/state".to_string()),
        objectiveai_agent_instance_hierarchy: None,
    };
    let c = load_config(Some(env.build()));
    assert_eq!(c.state_dir(), "/var/state");
    assert_eq!(c.objectiveai_agent_instance_hierarchy, "arcanum");
    let b = ConfigBuilder {
        state_dir: None,
        objectiveai_agent_instance_hierarchy: Some("a/b".to_string()),
    };
    let c = b.build();
    assert_eq!(c.state_dir, ".");
    assert_eq!(c.objectiveai_agent_instance_hierarchy, "a/b");
    let d = Config::default();
    assert_eq!(d.state_dir, "");
}

#[test]
fn commands_nest() {
    let cmd = Commands::Arcanum { command: ArcanumCommands::Begin(Args { token_repeat: 5000 }) };
    match cmd {
        Commands::Arcanum { command: ArcanumCommands::Begin(args) } => {
            assert_eq!(args.token_repeat, 5000)
        }
    }
}
