use meshexec::command::{resolve_alias, AliasError, AliasResult, Bindings};
use meshexec::config::{Arg, Command, Flag};

fn leaf(name: &str, command: &str) -> Command {
    Command {
        name: name.to_string(),
        help: String::new(),
        args: vec![],
        flags: vec![],
        command: command.to_string(),
        commands: vec![],
    }
}

fn leaf_with_help(name: &str, command: &str, help: &str) -> Command {
    Command {
        name: name.to_string(),
        help: help.to_string(),
        args: vec![],
        flags: vec![],
        command: command.to_string(),
        commands: vec![],
    }
}

fn arg(name: &str) -> Arg {
    Arg {
        name: name.to_string(),
        help: String::new(),
        default: None,
        greedy: false,
    }
}

fn arg_with_default(name: &str, default: &str) -> Arg {
    Arg {
        name: name.to_string(),
        help: String::new(),
        default: Some(default.to_string()),
        greedy: false,
    }
}

fn greedy_arg(name: &str) -> Arg {
    Arg {
        name: name.to_string(),
        help: String::new(),
        default: None,
        greedy: true,
    }
}

fn bool_flag(long: &str, short: Option<&str>) -> Flag {
    Flag {
        long: long.to_string(),
        short: short.map(|s| s.to_string()),
        help: None,
        arg: None,
        required: false,
        default: None,
        greedy: false,
    }
}

fn value_flag(long: &str, short: Option<&str>, arg_name: &str) -> Flag {
    Flag {
        long: long.to_string(),
        short: short.map(|s| s.to_string()),
        help: None,
        arg: Some(arg_name.to_string()),
        required: false,
        default: None,
        greedy: false,
    }
}

fn unwrap_command(result: AliasResult) -> (String, Bindings) {
    match result {
        AliasResult::Command { command, env } => (command, env),
        AliasResult::HelpText(t) => panic!("expected Command, got HelpText: {t}"),
    }
}

fn unwrap_help(result: AliasResult) -> String {
    match result {
        AliasResult::HelpText(t) => t,
        AliasResult::Command { command, .. } => {
            panic!("expected HelpText, got Command: {command}")
        }
    }
}

#[test]
fn help_returns_command_listing() {
    let cmds = vec![leaf("ping", "do-ping")];
    let text = unwrap_help(resolve_alias("!help", &cmds).unwrap());
    assert!(text.contains("Commands:"));
}

#[test]
fn unknown_command_returns_error() {
    let cmds = vec![leaf("ping", "do-ping")];
    let err = resolve_alias("!unknown", &cmds).unwrap_err();
    assert!(err.message().contains("Unknown command: !unknown"));
}

#[test]
fn leaf_no_args_resolves() {
    let cmds = vec![leaf("ping", "do-ping")];
    let (cmd, env) = unwrap_command(resolve_alias("!ping", &cmds).unwrap());
    assert_eq!(cmd, "do-ping");
    assert!(env.is_empty());
}

#[test]
fn leaf_with_one_positional_arg() {
    let mut c = leaf("greet", "say-hello");
    c.args.push(arg("name"));
    let cmds = vec![c];
    let (cmd, env) = unwrap_command(resolve_alias("!greet Alice", &cmds).unwrap());
    assert_eq!(cmd, "say-hello");
    assert_eq!(env.get("name").unwrap(), "Alice");
}

#[test]
fn leaf_dash_dash_help() {
    let cmds = vec![leaf("ping", "do-ping")];
    let text = unwrap_help(resolve_alias("!ping --help", &cmds).unwrap());
    assert!(text.contains("!ping"));
}

#[test]
fn leaf_dash_h() {
    let cmds = vec![leaf("ping", "do-ping")];
    let text = unwrap_help(resolve_alias("!ping -h", &cmds).unwrap());
    assert!(text.contains("!ping"));
}

#[test]
fn help_flag_takes_priority_over_args() {
    let mut c = leaf("greet", "say-hello");
    c.args.push(arg("name"));
    let cmds = vec![c];
    let text = unwrap_help(resolve_alias("!greet Alice --help", &cmds).unwrap());
    assert!(text.contains("!greet"));
}

#[test]
fn group_no_subcommand_returns_help() {
    let group = Command {
        name: "deploy".to_string(),
        help: String::new(),
        args: vec![],
        flags: vec![],
        command: String::new(),
        commands: vec![leaf("prod", "deploy-prod")],
    };
    let cmds = vec![group];
    let text = unwrap_help(resolve_alias("!deploy", &cmds).unwrap());
    assert!(text.contains("Subcommands:"));
}

#[test]
fn group_dash_dash_help() {
    let group = Command {
        name: "deploy".to_string(),
        help: String::new(),
        args: vec![],
        flags: vec![],
        command: String::new(),
        commands: vec![leaf("prod", "deploy-prod")],
    };
    let cmds = vec![group];
    let text = unwrap_help(resolve_alias("!deploy --help", &cmds).unwrap());
    assert!(text.contains("Subcommands:"));
}

#[test]
fn group_resolves_subcommand() {
    let group = Command {
        name: "deploy".to_string(),
        help: String::new(),
        args: vec![],
        flags: vec![],
        command: String::new(),
        commands: vec![leaf("prod", "deploy-prod")],
    };
    let cmds = vec![group];
    let (cmd, _) = unwrap_command(resolve_alias("!deploy prod", &cmds).unwrap());
    assert_eq!(cmd, "deploy-prod");
}

#[test]
fn group_unknown_subcommand() {
    let group = Command {
        name: "deploy".to_string(),
        help: String::new(),
        args: vec![],
        flags: vec![],
        command: String::new(),
        commands: vec![leaf("prod", "deploy-prod")],
    };
    let cmds = vec![group];
    let err = resolve_alias("!deploy staging", &cmds).unwrap_err();
    assert!(err.message().contains("Unknown command"));
}

#[test]
fn nested_group_resolution() {
    let inner = Command {
        name: "b".to_string(),
        help: String::new(),
        args: vec![],
        flags: vec![],
        command: String::new(),
        commands: vec![leaf("c", "run-c")],
    };
    let outer = Command {
        name: "a".to_string(),
        help: String::new(),
        args: vec![],
        flags: vec![],
        command: String::new(),
        commands: vec![inner],
    };
    let cmds = vec![outer];
    let (cmd, _) = unwrap_command(resolve_alias("!a b c", &cmds).unwrap());
    assert_eq!(cmd, "run-c");
}

#[test]
fn missing_required_arg() {
    let mut c = leaf("greet", "say-hello");
    c.args.push(arg("name"));
    let cmds = vec![c];
    let err = resolve_alias("!greet", &cmds).unwrap_err();
    assert!(err.message().contains("Missing required argument"));
}

#[test]
fn arg_default_used_when_not_provided() {
    let mut c = leaf("greet", "say-hello");
    c.args.push(arg_with_default("name", "World"));
    let cmds = vec![c];
    let (_, env) = unwrap_command(resolve_alias("!greet", &cmds).unwrap());
    assert_eq!(env.get("name").unwrap(), "World");
}

#[test]
fn too_many_positional_args() {
    let mut c = leaf("greet", "say-hello");
    c.args.push(arg("name"));
    let cmds = vec![c];
    let err = resolve_alias("!greet Alice Bob", &cmds).unwrap_err();
    assert!(err.message().contains("Too many arguments"));
}

#[test]
fn greedy_arg_consumes_remaining_tokens() {
    let mut c = leaf("echo", "run-echo");
    c.args.push(greedy_arg("message"));
    let cmds = vec![c];
    let (_, env) = unwrap_command(resolve_alias("!echo hello world foo", &cmds).unwrap());
    assert_eq!(env.get("message").unwrap(), "hello world foo");
}

#[test]
fn arg_name_hyphens_become_underscores() {
    let mut c = leaf("cmd", "run-cmd");
    c.args.push(arg("my-arg"));
    let cmds = vec![c];
    let (_, env) = unwrap_command(resolve_alias("!cmd value", &cmds).unwrap());
    assert!(env.contains_key("my_arg"));
    assert_eq!(env.get("my_arg").unwrap(), "value");
}

#[test]
fn boolean_long_flag() {
    let mut c = leaf("cmd", "run-cmd");
    c.flags.push(bool_flag("--verbose", None));
    let cmds = vec![c];
    let (_, env) = unwrap_command(resolve_alias("!cmd --verbose", &cmds).unwrap());
    assert_eq!(env.get("verbose").unwrap(), "true");
}

#[test]
fn boolean_short_flag() {
    let mut c = leaf("cmd", "run-cmd");
    c.flags.push(bool_flag("--verbose", Some("-v")));
    let cmds = vec![c];
    let (_, env) = unwrap_command(resolve_alias("!cmd -v", &cmds).unwrap());
    assert_eq!(env.get("verbose").unwrap(), "true");
}

#[test]
fn flag_with_value() {
    let mut c = leaf("cmd", "run-cmd");
    c.flags.push(value_flag("--output", Some("-o"), "path"));
    let cmds = vec![c];
    let (_, env) = unwrap_command(resolve_alias("!cmd --output /tmp", &cmds).unwrap());
    assert_eq!(env.get("path").unwrap(), "/tmp");
}

#[test]
fn unknown_flag_errors() {
    let cmds = vec![leaf("cmd", "run-cmd")];
    let err = resolve_alias("!cmd --nope", &cmds).unwrap_err();
    assert!(err.message().contains("Unknown flag"));
}

#[test]
fn flag_missing_value() {
    let mut c = leaf("cmd", "run-cmd");
    c.flags.push(value_flag("--output", None, "path"));
    let cmds = vec![c];
    let err = resolve_alias("!cmd --output", &cmds).unwrap_err();
    assert!(err.message().contains("requires a value"));
}

#[test]
fn required_flag_not_provided() {
    let mut c = leaf("cmd", "run-cmd");
    c.flags.push(Flag {
        long: "--env".to_string(),
        short: None,
        help: None,
        arg: Some("env_name".to_string()),
        required: true,
        default: None,
        greedy: false,
    });
    let cmds = vec![c];
    let err = resolve_alias("!cmd", &cmds).unwrap_err();
    assert!(err.message().contains("Missing required flag"));
}

#[test]
fn flag_default_used_when_not_provided() {
    let mut c = leaf("cmd", "run-cmd");
    c.flags.push(Flag {
        long: "--env".to_string(),
        short: None,
        help: None,
        arg: Some("env_name".to_string()),
        required: false,
        default: Some("production".to_string()),
        greedy: false,
    });
    let cmds = vec![c];
    let (_, env) = unwrap_command(resolve_alias("!cmd", &cmds).unwrap());
    assert_eq!(env.get("env_name").unwrap(), "production");
}

#[test]
fn greedy_flag_consumes_remaining() {
    let mut c = leaf("cmd", "run-cmd");
    c.flags.push(Flag {
        long: "--message".to_string(),
        short: None,
        help: None,
        arg: Some("msg".to_string()),
        required: false,
        default: None,
        greedy: true,
    });
    let cmds = vec![c];
    let (_, env) =
        unwrap_command(resolve_alias("!cmd --message hello world foo", &cmds).unwrap());
    assert_eq!(env.get("msg").unwrap(), "hello world foo");
}

#[test]
fn flag_long_hyphens_become_underscores() {
    let mut c = leaf("cmd", "run-cmd");
    c.flags.push(bool_flag("--dry-run", None));
    let cmds = vec![c];
    let (_, env) = unwrap_command(resolve_alias("!cmd --dry-run", &cmds).unwrap());
    assert_eq!(env.get("dry_run").unwrap(), "true");
}

#[test]
fn help_listing_includes_names_and_help() {
    let cmds = vec![leaf_with_help("ping", "do-ping", "Check connectivity")];
    let text = unwrap_help(resolve_alias("!help", &cmds).unwrap());
    assert!(text.contains("ping"));
    assert!(text.contains("Check connectivity"));
}

#[test]
fn help_listing_includes_footer() {
    let cmds = vec![leaf("ping", "do-ping")];
    let text = unwrap_help(resolve_alias("!help", &cmds).unwrap());
    assert!(text.contains("Send !<command> --help for details."));
}

#[test]
fn group_help_shows_subcommands() {
    let group = Command {
        name: "deploy".to_string(),
        help: String::new(),
        args: vec![],
        flags: vec![],
        command: String::new(),
        commands: vec![
            leaf_with_help("prod", "deploy-prod", "Production deploy"),
            leaf("staging", "deploy-staging"),
        ],
    };
    let cmds = vec![group];
    let text = unwrap_help(resolve_alias("!deploy", &cmds).unwrap());
    assert!(text.contains("prod"));
    assert!(text.contains("Production deploy"));
    assert!(text.contains("staging"));
}

#[test]
fn command_help_shows_args_and_flags() {
    let mut c = leaf_with_help("greet", "say-hello", "Greet someone");
    c.args.push(Arg {
        name: "name".to_string(),
        help: "Who to greet".to_string(),
        default: None,
        greedy: false,
    });
    c.flags.push(Flag {
        long: "--loud".to_string(),
        short: Some("-l".to_string()),
        help: Some("Shout it".to_string()),
        arg: None,
        required: false,
        default: None,
        greedy: false,
    });
    let cmds = vec![c];
    let text = unwrap_help(resolve_alias("!greet --help", &cmds).unwrap());
    assert!(text.contains("<name>"));
    assert!(text.contains("Who to greet"));
    assert!(text.contains("--loud"));
    assert!(text.contains("-l"));
    assert!(text.contains("Shout it"));
}

#[test]
fn command_help_greedy_arg_notation() {
    let mut c = leaf("echo", "run-echo");
    c.args.push(greedy_arg("words"));
    let cmds = vec![c];
    let text = unwrap_help(resolve_alias("!echo --help", &cmds).unwrap());
    assert!(text.contains("<words...>"));
}

#[test]
fn command_help_required_flag() {
    let mut c = leaf("cmd", "run-cmd");
    c.flags.push(Flag {
        long: "--env".to_string(),
        short: None,
        help: None,
        arg: Some("env_name".to_string()),
        required: true,
        default: None,
        greedy: false,
    });
    let cmds = vec![c];
    let text = unwrap_help(resolve_alias("!cmd --help", &cmds).unwrap());
    assert!(text.contains("(required)"));
}

#[test]
fn command_help_default_values() {
    let mut c = leaf("cmd", "run-cmd");
    c.args.push(arg_with_default("target", "main"));
    c.flags.push(Flag {
        long: "--env".to_string(),
        short: None,
        help: None,
        arg: Some("env_name".to_string()),
        required: false,
        default: Some("dev".to_string()),
        greedy: false,
    });
    let cmds = vec![c];
    let text = unwrap_help(resolve_alias("!cmd --help", &cmds).unwrap());
    assert!(text.contains("(default: main)"));
    assert!(text.contains("(default: dev)"));
}

#[test]
fn exact_match_resolves() {
    let cmds = vec![leaf("foo", "run-foo")];
    let (cmd, _) = unwrap_command(resolve_alias("!foo", &cmds).unwrap());
    assert_eq!(cmd, "run-foo");
}

#[test]
fn prefix_match_with_space_resolves() {
    let mut c = leaf("foo", "run-foo");
    c.args.push(arg_with_default("x", "default"));
    let cmds = vec![c];
    let (cmd, _) = unwrap_command(resolve_alias("!foo bar", &cmds).unwrap());
    assert_eq!(cmd, "run-foo");
}

#[test]
fn prefix_match_without_space_does_not_resolve() {
    let cmds = vec![leaf("foo", "run-foo")];
    let err = resolve_alias("!foobar", &cmds).unwrap_err();
    assert!(err.message().contains("Unknown command: !foobar"));
}

#[test]
fn no_match_returns_error() {
    let cmds = vec![leaf("ping", "do-ping")];
    let err = resolve_alias("!zzz", &cmds).unwrap_err();
    assert!(err.message().contains("Unknown command: !zzz"));
}

#[test]
fn alias_error_unknown_alias_display() {
    let e = AliasError::UnknownAlias("!bad".to_string());
    assert_eq!(e.message(), "Unknown command: !bad");
}

#[test]
fn alias_error_missing_required_arg_display() {
    let e = AliasError::MissingRequiredArg("name".to_string());
    assert_eq!(e.message(), "Missing required argument: name");
}

#[test]
fn alias_error_missing_required_flag_display() {
    let e = AliasError::MissingRequiredFlag("--env".to_string());
    assert_eq!(e.message(), "Missing required flag: --env");
}

#[test]
fn alias_error_missing_flag_value_display() {
    let e = AliasError::MissingFlagValue("--output".to_string());
    assert_eq!(e.message(), "Flag --output requires a value");
}

#[test]
fn alias_error_unknown_flag_display() {
    let e = AliasError::UnknownFlag("--nope".to_string());
    assert_eq!(e.message(), "Unknown flag: --nope");
}

#[test]
fn alias_error_too_many_args_display() {
    let e = AliasError::TooManyArgs { expected: 2 };
    assert_eq!(e.message(), "Too many arguments (expected 2)");
}

#[test]
fn positional_then_flag() {
    let mut c = leaf("cmd", "run-cmd");
    c.args.push(arg("target"));
    c.flags.push(value_flag("--env", None, "env_name"));
    let cmds = vec![c];
    let (_, env) = unwrap_command(resolve_alias("!cmd prod --env staging", &cmds).unwrap());
    assert_eq!(env.get("target").unwrap(), "prod");
    assert_eq!(env.get("env_name").unwrap(), "staging");
}

#[test]
fn flag_then_positional() {
    let mut c = leaf("cmd", "run-cmd");
    c.args.push(arg("target"));
    c.flags.push(value_flag("--env", None, "env_name"));
    let cmds = vec![c];
    let (_, env) = unwrap_command(resolve_alias("!cmd --env staging prod", &cmds).unwrap());
    assert_eq!(env.get("target").unwrap(), "prod");
    assert_eq!(env.get("env_name").unwrap(), "staging");
}

#[test]
fn interleaved_flags_and_args() {
    let mut c = leaf("cmd", "run-cmd");
    c.args.push(arg("src"));
    c.args.push(arg("dst"));
    c.flags.push(bool_flag("--verbose", Some("-v")));
    c.flags.push(value_flag("--mode", None, "mode"));
    let cmds = vec![c];
    let (_, env) =
        unwrap_command(resolve_alias("!cmd -v origin --mode fast dest", &cmds).unwrap());
    assert_eq!(env.get("verbose").unwrap(), "true");
    assert_eq!(env.get("src").unwrap(), "origin");
    assert_eq!(env.get("mode").unwrap(), "fast");
    assert_eq!(env.get("dst").unwrap(), "dest");
}

fn group(name: &str, children: Vec<Command>) -> Command {
    Command {
        name: name.to_string(),
        help: String::new(),
        args: vec![],
        flags: vec![],
        command: String::new(),
        commands: children,
    }
}

#[test]
fn longer_sibling_name_wins_over_its_prefix() {
    let cmds = vec![leaf("foo", "run-foo"), leaf("foobar", "run-foobar")];
    let (cmd, _) = unwrap_command(resolve_alias("!foobar", &cmds).unwrap());
    assert_eq!(cmd, "run-foobar");
    let (cmd, _) = unwrap_command(resolve_alias("!foo", &cmds).unwrap());
    assert_eq!(cmd, "run-foo");
    let cmds = vec![leaf("foobar", "run-foobar"), leaf("foo", "run-foo")];
    let (cmd, _) = unwrap_command(resolve_alias("!foobar", &cmds).unwrap());
    assert_eq!(cmd, "run-foobar");
}

#[test]
fn name_with_a_space_beats_a_group_of_its_first_word() {
    let cmds = vec![
        group("deploy", vec![leaf("prod", "deploy-prod")]),
        leaf("deploy prod", "direct-prod"),
    ];
    let (cmd, _) = unwrap_command(resolve_alias("!deploy prod", &cmds).unwrap());
    assert_eq!(cmd, "direct-prod");
}

#[test]
fn first_of_equal_names_wins() {
    let cmds = vec![leaf("ping", "first"), leaf("ping", "second")];
    let (cmd, _) = unwrap_command(resolve_alias("!ping", &cmds).unwrap());
    assert_eq!(cmd, "first");
}

#[test]
fn greet_end_to_end() {
    let mut c = leaf("greet", "say-hello");
    c.args.push(arg("name"));
    let cmds = vec![c];
    let (cmd, env) = unwrap_command(resolve_alias("!greet Alice", &cmds).unwrap());
    assert_eq!(cmd, "say-hello");
    assert_eq!(env.get("name").unwrap(), "Alice");
    assert_eq!(env.pairs().len(), 1);
    match resolve_alias("!greet", &cmds).unwrap_err() {
        AliasError::MissingRequiredArg(n) => assert_eq!(n, "name"),
        other => panic!("unexpected error: {other:?}"),
    }
}

#[test]
fn deploy_end_to_end() {
    let cmds = vec![group("deploy", vec![leaf("prod", "deploy-prod")])];
    let text = unwrap_help(resolve_alias("!deploy", &cmds).unwrap());
    assert!(text.contains("!deploy prod"));
    let (cmd, _) = unwrap_command(resolve_alias("!deploy prod", &cmds).unwrap());
    assert_eq!(cmd, "deploy-prod");
    match resolve_alias("!deploy staging", &cmds).unwrap_err() {
        AliasError::UnknownAlias(n) => assert_eq!(n, "!deploy staging"),
        other => panic!("unexpected error: {other:?}"),
    }
}

#[test]
fn unknown_alias_reports_first_word_only() {
    let cmds = vec![leaf("ping", "do-ping")];
    match resolve_alias("!pong now please", &cmds).unwrap_err() {
        AliasError::UnknownAlias(n) => assert_eq!(n, "!pong"),
        other => panic!("unexpected error: {other:?}"),
    }
    match resolve_alias("!", &cmds).unwrap_err() {
        AliasError::UnknownAlias(n) => assert_eq!(n, "!"),
        other => panic!("unexpected error: {other:?}"),
    }
}

#[test]
fn greedy_arg_takes_flag_like_tokens() {
    let mut c = leaf("echo", "run-echo");
    c.args.push(arg("first"));
    c.args.push(greedy_arg("rest"));
    c.flags.push(bool_flag("--verbose", Some("-v")));
    let cmds = vec![c];
    let (_, env) = unwrap_command(resolve_alias("!echo a b --verbose -x c", &cmds).unwrap());
    assert_eq!(env.get("first").unwrap(), "a");
    assert_eq!(env.get("rest").unwrap(), "b --verbose -x c");
    assert!(!env.contains_key("verbose"));
}

#[test]
fn greedy_flag_takes_flag_like_tokens() {
    let mut c = leaf("cmd", "run-cmd");
    c.flags.push(bool_flag("--verbose", None));
    c.flags.push(Flag {
        long: "--message".to_string(),
        short: Some("-m".to_string()),
        help: None,
        arg: Some("msg".to_string()),
        required: false,
        default: None,
        greedy: true,
    });
    let cmds = vec![c];
    let (_, env) = unwrap_command(resolve_alias("!cmd -m hi --verbose there", &cmds).unwrap());
    assert_eq!(env.get("msg").unwrap(), "hi --verbose there");
    assert!(!env.contains_key("verbose"));
    let err = resolve_alias("!cmd --message", &cmds).unwrap_err();
    assert_eq!(err.message(), "Flag --message requires a value");
}

#[test]
fn help_wins_over_missing_required_values() {
    let mut c = leaf("cmd", "run-cmd");
    c.args.push(arg("target"));
    c.flags.push(Flag {
        long: "--env".to_string(),
        short: None,
        help: None,
        arg: Some("env_name".to_string()),
        required: true,
        default: None,
        greedy: false,
    });
    let cmds = vec![c];
    let text = unwrap_help(resolve_alias("!cmd --nope -h", &cmds).unwrap());
    assert_eq!(text, "!cmd\n\nArgs:\n  <target>\n\nFlags:\n  --env <env_name> (required)\n");
}

#[test]
fn all_defaults_bound_by_exact_name() {
    let mut c = leaf("build", "make");
    c.args.push(arg_with_default("target-dir", "out"));
    c.args.push(arg_with_default("mode", "fast"));
    c.flags.push(bool_flag("--dry-run", None));
    let cmds = vec![group("tools", vec![c])];
    let (cmd, env) = unwrap_command(resolve_alias("!tools build", &cmds).unwrap());
    assert_eq!(cmd, "make");
    assert_eq!(env.get("target_dir").unwrap(), "out");
    assert_eq!(env.get("mode").unwrap(), "fast");
    assert!(!env.contains_key("dry_run"));
}

#[test]
fn too_many_args_reports_declared_count() {
    let mut c = leaf("cp", "run-cp");
    c.args.push(arg("src"));
    c.args.push(arg("dst"));
    let cmds = vec![c];
    match resolve_alias("!cp a b c", &cmds).unwrap_err() {
        AliasError::TooManyArgs { expected } => assert_eq!(expected, 2),
        other => panic!("unexpected error: {other:?}"),
    }
    let cmds = vec![leaf("ping", "do-ping")];
    let err = resolve_alias("!ping extra", &cmds).unwrap_err();
    assert_eq!(err.message(), "Too many arguments (expected 0)");
}

#[test]
fn unknown_flag_reports_the_token() {
    let cmds = vec![leaf("cmd", "run-cmd")];
    match resolve_alias("!cmd -", &cmds).unwrap_err() {
        AliasError::UnknownFlag(t) => assert_eq!(t, "-"),
        other => panic!("unexpected error: {other:?}"),
    }
}

#[test]
fn later_value_overrides_earlier_one() {
    let mut c = leaf("cmd", "run-cmd");
    c.flags.push(value_flag("--out", Some("-o"), "out"));
    let cmds = vec![c];
    let (_, env) = unwrap_command(resolve_alias("!cmd -o a --out b", &cmds).unwrap());
    assert_eq!(env.get("out").unwrap(), "b");
}

#[test]
fn unicode_white_space_separates_tokens() {
    let mut c = leaf("cmd", "run-cmd");
    c.args.push(arg("a"));
    c.args.push(arg("b"));
    let cmds = vec![c];
    let (_, env) = unwrap_command(resolve_alias("!cmd x\u{3000}\ty", &cmds).unwrap());
    assert_eq!(env.get("a").unwrap(), "x");
    assert_eq!(env.get("b").unwrap(), "y");
}

#[test]
fn help_listing_exact_text() {
    let cmds = vec![
        leaf_with_help("ping", "do-ping", "Check connectivity"),
        leaf("uptime", "uptime"),
    ];
    let text = unwrap_help(resolve_alias("!help", &cmds).unwrap());
    assert_eq!(
        text,
        "Commands:\n  !ping - Check connectivity\n  !uptime\n\nSend !<command> --help for details."
    );
}

#[test]
fn group_help_exact_text() {
    let mut g = group("deploy", vec![leaf_with_help("prod", "p", "Production"), leaf("dev", "d")]);
    g.help = "Deployments".to_string();
    let cmds = vec![g];
    let text = unwrap_help(resolve_alias("!deploy -h", &cmds).unwrap());
    assert_eq!(
        text,
        "!deploy - Deployments\n\nSubcommands:\n  !deploy prod - Production\n  !deploy dev\n\nSend !deploy <command> --help for details."
    );
}

#[test]
fn nested_group_help_shows_full_path() {
    let cmds = vec![group("a", vec![group("b", vec![leaf("c", "run-c")])])];
    let text = unwrap_help(resolve_alias("!a b", &cmds).unwrap());
    assert!(text.starts_with("!a b\n"));
    assert!(text.contains("  !a b c\n"));
    match resolve_alias("!a b d", &cmds).unwrap_err() {
        AliasError::UnknownAlias(n) => assert_eq!(n, "!a b d"),
        other => panic!("unexpected error: {other:?}"),
    }
}

#[test]
fn command_help_exact_text() {
    let mut c = leaf_with_help("greet", "say-hello", "Greet someone");
    c.args.push(Arg {
        name: "name".to_string(),
        help: "Who to greet".to_string(),
        default: Some("World".to_string()),
        greedy: false,
    });
    c.args.push(greedy_arg("rest"));
    c.flags.push(Flag {
        long: "--loud".to_string(),
        short: Some("-l".to_string()),
        help: Some("Shout it".to_string()),
        arg: None,
        required: false,
        default: None,
        greedy: false,
    });
    let cmds = vec![c];
    let text = unwrap_help(resolve_alias("!greet --help", &cmds).unwrap());
    assert_eq!(
        text,
        "!greet - Greet someone\n\nArgs:\n  <name> - Who to greet (default: World)\n  <rest...>\n\nFlags:\n  -l, --loud - Shout it\n"
    );
}

#[test]
fn bindings_insert_get_and_replace() {
    let mut b = Bindings::new();
    assert!(b.is_empty());
    b.insert("k".to_string(), "1".to_string());
    b.insert("k".to_string(), "2".to_string());
    assert!(!b.is_empty());
    assert_eq!(b.get("k").unwrap(), "2");
    assert!(b.get("missing").is_none());
    assert!(b.contains_key("k"));
}
