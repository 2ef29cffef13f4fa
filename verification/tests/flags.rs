use fiducia_cli::commands::Command;
use fiducia_cli::error::ErrorKind;
use fiducia_cli::flags::{
    bounded_u64, bounded_usize, build_cli_args, check_parsed, diagnostic_option_name, layer_config,
    CliArgs, ParsedArgv, RegionsSource, TypedConfig,
};
use fiducia_cli::{env_value, EnvMap, Region};

fn pair(k: &str, v: &str) -> (String, String) {
    (k.to_string(), v.to_string())
}

/// The schema defaults of `.cli-flags.toml`, as typed coercion yields them when
/// neither the environment nor argv sets a flag.
fn defaults() -> TypedConfig {
    TypedConfig {
        command: None,
        regions_file: "edge-regions.json".to_string(),
        samples: 5,
        health_path: "/healthz".to_string(),
        timeout_ms: 2000,
        warmup: 0,
        completion_shell: None,
        only_region: None,
        json: false,
        node_url: None,
    }
}

fn parsed(unknown: &[&str], errors: &[&str], extras: &[&str]) -> ParsedArgv {
    ParsedArgv {
        unknown_options: unknown.iter().map(|s| s.to_string()).collect(),
        errors: errors.iter().map(|s| s.to_string()).collect(),
        extras: extras.iter().map(|s| s.to_string()).collect(),
        provided_flags: Vec::new(),
    }
}

fn args(typed: TypedConfig) -> CliArgs {
    build_cli_args(typed, EnvMap::new()).expect("valid configuration")
}

fn region(name: &str, url: &str) -> Region {
    Region { name: name.to_string(), url: url.to_string() }
}

#[test]
fn parses_direct_binary_flags_and_command() {
    let env = layer_config(
        Vec::new(),
        vec![pair("FIDUCIA_SAMPLES", "7"), pair("FIDUCIA_TIMEOUT_MS", "1500"), pair("FIDUCIA_JSON", "1")],
    );
    let typed = TypedConfig {
        command: Some("region".to_string()),
        samples: 7,
        timeout_ms: 1500,
        json: true,
        ..defaults()
    };
    let parsed = build_cli_args(typed, env).expect("valid flags");
    assert_eq!(parsed.command, Command::Region);
    assert_eq!(parsed.samples, 7);
    assert_eq!(parsed.timeout_ms, 1500);
    assert!(parsed.json);
    assert_eq!(env_value(&parsed.env, "FIDUCIA_SAMPLES").as_deref(), Some("7"));
}

#[test]
fn canonicalizes_the_closest_command_alias() {
    let parsed = args(TypedConfig { command: Some("closest".to_string()), ..defaults() });
    assert_eq!(parsed.command, Command::Region);
}

#[test]
fn environment_cannot_spoof_parser_command_metadata() {
    let env = layer_config(vec![pair("FLAGS2ENV_COMMAND", "regions")], Vec::new());
    assert_eq!(env.get("FLAGS2ENV_COMMAND"), None);
    let parsed = args(defaults());
    assert_eq!(parsed.command, Command::Region);
}

#[test]
fn environment_beats_schema_defaults() {
    let env = layer_config(vec![pair("FIDUCIA_SAMPLES", "9")], Vec::new());
    assert_eq!(env.get("FIDUCIA_SAMPLES").map(String::as_str), Some("9"));
}

#[test]
fn cli_flags_beat_environment_values() {
    let env = layer_config(vec![pair("FIDUCIA_SAMPLES", "9")], vec![pair("FIDUCIA_SAMPLES", "7")]);
    assert_eq!(env.get("FIDUCIA_SAMPLES").map(String::as_str), Some("7"));
}

#[test]
fn layering_keeps_unrelated_environment_values_and_lets_the_last_flag_win() {
    let env = layer_config(
        vec![pair("HOME", "/root"), pair("FIDUCIA_WARMUP", "1"), pair("FIDUCIA_WARMUP", "2")],
        vec![pair("FIDUCIA_ONLY_REGION", "eu"), pair("FIDUCIA_ONLY_REGION", "us")],
    );
    assert_eq!(env.keys(), ["FIDUCIA_ONLY_REGION", "FIDUCIA_WARMUP", "HOME"]);
    assert_eq!(env.get("FIDUCIA_WARMUP").map(String::as_str), Some("2"));
    assert_eq!(env.get("FIDUCIA_ONLY_REGION").map(String::as_str), Some("us"));
    assert_eq!(env.get("HOME").map(String::as_str), Some("/root"));
}

#[test]
fn unknown_flags_fail_closed() {
    let error = check_parsed(&parsed(&["--api-token=must-remain-environment-only"], &[], &[]))
        .expect_err("unknown flag");
    assert!(error.contains("unknown command-line option"));
    assert!(error.contains("--api-token"));
    assert!(!error.contains("must-remain-environment-only"));
}

#[test]
fn unknown_options_are_listed_once_in_order() {
    let error = check_parsed(&parsed(&["--zeta=1", "-xsecret", "--alpha", "--zeta=2"], &["bad"], &["x"]))
        .unwrap_err();
    assert_eq!(error, "unknown command-line option(s): --alpha, --zeta, -x");
    let error = check_parsed(&parsed(&[], &["a is bad", "b is bad"], &["x"])).unwrap_err();
    assert_eq!(error, "invalid command-line value(s): a is bad; b is bad");
    let error = check_parsed(&parsed(&[], &[], &["secret-operand", "other"])).unwrap_err();
    assert_eq!(error, "unknown command or unexpected positional argument(s): 2");
    assert!(check_parsed(&parsed(&[], &[], &[])).is_ok());
}

#[test]
fn diagnostic_names_drop_values() {
    assert_eq!(diagnostic_option_name("--api-token=secret"), "--api-token");
    assert_eq!(diagnostic_option_name("--flag"), "--flag");
    assert_eq!(diagnostic_option_name("--=x"), "--");
    assert_eq!(diagnostic_option_name("-tsecret"), "-t");
    assert_eq!(diagnostic_option_name("-t"), "-t");
}

#[test]
fn unsafe_probe_values_are_rejected() {
    assert!(build_cli_args(TypedConfig { samples: 0, ..defaults() }, EnvMap::new()).is_err());
}

#[test]
fn range_checks_name_the_variable_and_bounds() {
    let err = build_cli_args(TypedConfig { samples: 0, ..defaults() }, EnvMap::new()).unwrap_err();
    assert_eq!(err, "FIDUCIA_SAMPLES must be between 1 and 100");
    let err = build_cli_args(TypedConfig { warmup: -1, ..defaults() }, EnvMap::new()).unwrap_err();
    assert_eq!(err, "FIDUCIA_WARMUP must be a non-negative integer");
    let err =
        build_cli_args(TypedConfig { timeout_ms: 60001, ..defaults() }, EnvMap::new()).unwrap_err();
    assert_eq!(err, "FIDUCIA_TIMEOUT_MS must be between 1 and 60000");
    let err = build_cli_args(
        TypedConfig { health_path: "healthz".to_string(), ..defaults() },
        EnvMap::new(),
    )
    .unwrap_err();
    assert_eq!(err, "--path must be an absolute HTTP path without control characters");
    let err = build_cli_args(
        TypedConfig { health_path: "/health\u{7}".to_string(), ..defaults() },
        EnvMap::new(),
    )
    .unwrap_err();
    assert_eq!(err, "--path must be an absolute HTTP path without control characters");
    let err = build_cli_args(
        TypedConfig { regions_file: " ".to_string(), ..defaults() },
        EnvMap::new(),
    )
    .unwrap_err();
    assert_eq!(err, "--regions must not be empty");
    let err = build_cli_args(
        TypedConfig { command: Some("deploy".to_string()), ..defaults() },
        EnvMap::new(),
    )
    .unwrap_err();
    assert_eq!(err, "unknown command: deploy");
    assert_eq!(bounded_usize(100, "N", 0, 100), Ok(100));
    assert_eq!(bounded_u64(1, "N", 1, 60000), Ok(1));
    assert_eq!(bounded_u64(-5, "N", 1, 2), Err("N must be a non-negative integer".to_string()));
}

#[test]
fn completion_shell_defaults_to_bash_and_rejects_others() {
    let parsed = args(TypedConfig { command: Some("completion".to_string()), ..defaults() });
    assert_eq!(parsed.command, Command::Completion);
    assert_eq!(parsed.shell, "bash");

    assert_eq!(
        args(TypedConfig {
            command: Some("completion".to_string()),
            completion_shell: Some("zsh".to_string()),
            ..defaults()
        })
        .shell,
        "zsh"
    );
    let err = build_cli_args(
        TypedConfig {
            command: Some("completion".to_string()),
            completion_shell: Some("fish".to_string()),
            ..defaults()
        },
        EnvMap::new(),
    )
    .unwrap_err();
    assert_eq!(err, "--shell must be one of: bash, zsh");
}

#[test]
fn health_requires_a_single_resolvable_node() {
    let parsed = args(TypedConfig {
        command: Some("health".to_string()),
        node_url: Some("ftp://node.test".to_string()),
        ..defaults()
    });
    let err = parsed.resolve_node(RegionsSource::Decoded(Vec::new())).unwrap_err();
    assert_eq!(err.kind, ErrorKind::Usage);
    assert_eq!(err.message, "--url must start with http:// or https://");
}

#[test]
fn resolve_node_prefers_url_then_a_single_region() {
    let direct = args(TypedConfig { node_url: Some(" https://node.test ".to_string()), ..defaults() });
    assert_eq!(
        direct.resolve_node(RegionsSource::Unreadable("ignored".to_string())).unwrap(),
        (None, "https://node.test".to_string())
    );

    let from_file = args(TypedConfig { node_url: Some("  ".to_string()), ..defaults() });
    assert!(from_file.direct_node().is_none());
    assert_eq!(
        from_file
            .resolve_node(RegionsSource::Decoded(vec![region(" eu ", "https://eu.lb")]))
            .unwrap(),
        (Some("eu".to_string()), "https://eu.lb".to_string())
    );
    let err = from_file.resolve_node(RegionsSource::Decoded(Vec::new())).unwrap_err();
    assert_eq!(err.message, "no regions to query; pass --url or a non-empty --regions file");
    let err = from_file
        .resolve_node(RegionsSource::Decoded(vec![
            region("eu", "https://eu.lb"),
            region("us", "https://us.lb"),
            region("ap", "https://ap.lb"),
        ]))
        .unwrap_err();
    assert_eq!(err.kind, ErrorKind::Usage);
    assert_eq!(err.message, "--only or --url is required: 3 regions are selectable (eu, us, ap)");
}

#[test]
fn load_regions_maps_each_failure_to_its_kind() {
    let a = args(TypedConfig { regions_file: "r.json".to_string(), ..defaults() });
    let err = a.load_regions(RegionsSource::Unreadable("No such file".to_string())).unwrap_err();
    assert_eq!((err.kind, err.exit_code()), (ErrorKind::Runtime, 1));
    assert_eq!(err.message, "cannot read regions file r.json: No such file");
    let err = a.load_regions(RegionsSource::Malformed("expected value".to_string())).unwrap_err();
    assert_eq!((err.kind, err.exit_code()), (ErrorKind::Config, 3));
    assert_eq!(err.message, "invalid regions file: expected value");
    let err = a.load_regions(RegionsSource::Decoded(vec![region("", "https://x")])).unwrap_err();
    assert_eq!(err.message, "invalid regions file: region 0 has an empty name");
    let only = args(TypedConfig { only_region: Some("us".to_string()), ..defaults() });
    let err = only.load_regions(RegionsSource::Decoded(vec![region("eu", "https://x")])).unwrap_err();
    assert_eq!((err.kind, err.exit_code()), (ErrorKind::Usage, 2));
    assert_eq!(err.message, "no region named \"us\"");
    let kept = only
        .load_regions(RegionsSource::Decoded(vec![region("eu", "https://x"), region("us", "http://y")]))
        .unwrap();
    assert_eq!(kept.len(), 1);
    assert_eq!(kept[0].url, "http://y");
}

#[test]
fn probe_settings_copy_the_validated_values() {
    let a = args(TypedConfig { samples: 3, warmup: 1, timeout_ms: 1500, ..defaults() });
    let p = a.probe_settings();
    assert_eq!((p.samples, p.warmup, p.timeout_ms), (3, 1, 1500));
    assert_eq!(p.health_path, "/healthz");
    assert_eq!(p.target("https://aws.lb//"), "https://aws.lb/healthz");
    assert_eq!(p.probe_count(), 4);
    assert!(!p.counts_sample(0, true));
    assert!(p.counts_sample(1, true));
    assert!(!p.counts_sample(2, false));
}
