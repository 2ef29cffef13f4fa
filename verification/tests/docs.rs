use fiducia_cli::commands::docs::{
    publication_mode, resolve_project_path, validate_config, validate_relative_path, DocsConfig,
    DocsReport, PublicationMode,
};
use fiducia_cli::error::ErrorKind;
use fiducia_cli::Report;

fn config() -> DocsConfig {
    DocsConfig {
        schema_version: "ores.api-docs.publication-config.v1".to_string(),
        route_map: "contracts/api.route-map.json".to_string(),
        out_dir: ".fiducia/docs".to_string(),
        publication_mode: "consumer_project".to_string(),
        producer: "my-project".to_string(),
    }
}

#[test]
fn publication_modes_are_explicit_and_closed() {
    assert_eq!(
        publication_mode("publisher_external").expect("publisher mode"),
        PublicationMode::PublisherExternal
    );
    assert_eq!(
        publication_mode("consumer_project").expect("consumer mode"),
        PublicationMode::ConsumerProject
    );
    assert!(publication_mode("official").is_err());
}

#[test]
fn project_paths_reject_escape_and_project_root() {
    let root = "project";
    assert_eq!(
        resolve_project_path(root, "contracts/api.route-map.json", "route_map")
            .expect("relative path"),
        "project/contracts/api.route-map.json"
    );
    assert!(resolve_project_path(root, "../outside.json", "route_map").is_err());
    assert!(resolve_project_path(root, "/tmp/out", "out_dir").is_err());
    assert!(resolve_project_path(root, ".", "out_dir").is_err());
}

#[test]
fn relative_paths_follow_component_rules() {
    assert!(validate_relative_path("a/./b", "p").is_ok());
    assert!(validate_relative_path("./a/", "p").is_ok());
    assert!(validate_relative_path("...", "p").is_ok());
    assert!(validate_relative_path("a/../b", "p").is_err());
    assert!(validate_relative_path("a/..", "p").is_err());
    assert!(validate_relative_path("././/", "p").is_err());
    assert!(validate_relative_path("", "p").is_err());
    let err = validate_relative_path("  ", "out_dir").unwrap_err();
    assert_eq!(err.kind, ErrorKind::Config);
    assert_eq!(
        err.message,
        "out_dir must be a non-empty project-relative path without parent traversal"
    );
    assert_eq!(resolve_project_path("root/", "x", "p").unwrap(), "root/x");
    assert_eq!(resolve_project_path("", "x", "p").unwrap(), "x");
}

#[test]
fn docs_config_checks_run_in_order() {
    assert!(validate_config(&config()).is_ok());
    let err = validate_config(&DocsConfig { schema_version: "v0".to_string(), ..config() }).unwrap_err();
    assert_eq!(
        err.message,
        ".api-docs.toml schema_version must be ores.api-docs.publication-config.v1"
    );
    let err =
        validate_config(&DocsConfig { publication_mode: "official".to_string(), ..config() }).unwrap_err();
    assert_eq!(err.message, "publication_mode must be publisher_external or consumer_project");
    let err = validate_config(&DocsConfig { route_map: "../x".to_string(), ..config() }).unwrap_err();
    assert!(err.message.starts_with("route_map must be"));
    let err = validate_config(&DocsConfig { out_dir: "/abs".to_string(), ..config() }).unwrap_err();
    assert!(err.message.starts_with("out_dir must be"));
    let err = validate_config(&DocsConfig { producer: " \n".to_string(), ..config() }).unwrap_err();
    assert_eq!(err.message, "producer must not be empty");
    assert_eq!(err.exit_code(), 3);
}

#[test]
fn docs_report_renders_one_line() {
    let report = DocsReport {
        service: "fiducia".to_string(),
        publication_mode: PublicationMode::ConsumerProject.as_str().to_string(),
        producer: "me".to_string(),
        contract_sha256: "ab".to_string(),
        artifact_count: 12,
        out_dir: "out".to_string(),
    };
    assert_eq!(
        report.render_human(),
        "generated 12 deterministic API/MCP docs artifacts for fiducia (consumer_project) in out"
    );
}
