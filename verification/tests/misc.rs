use fiducia_cli::commands::health::{request_failed, RequestFailure};
use fiducia_cli::error::ErrorKind;
use fiducia_cli::output::{effective_json, legacy_output_explicit};
use fiducia_cli::Format;

#[test]
fn request_failures_report_status_but_never_a_body() {
    let e = request_failed("health", "https://n", &RequestFailure::Http { status: 503 });
    assert_eq!(e.kind, ErrorKind::Runtime);
    assert_eq!(e.message, "health request to https://n failed: HTTP 503");
    let e = request_failed("status", "https://n", &RequestFailure::Transport("reset".to_string()));
    assert_eq!(e.message, "status request to https://n failed: transport error: reset");
}

#[test]
fn json_flag_selects_the_format() {
    assert_eq!(Format::from_json_flag(true), Format::Json);
    assert_eq!(Format::from_json_flag(false), Format::Human);
}

#[test]
fn legacy_json_spellings_are_detected() {
    let args = |v: &[&str]| v.iter().map(|s| s.to_string()).collect::<Vec<_>>();
    assert!(legacy_output_explicit(true, &args(&[])));
    assert!(legacy_output_explicit(false, &args(&["region", "-j"])));
    assert!(legacy_output_explicit(false, &args(&["--json=false"])));
    assert!(!legacy_output_explicit(false, &args(&["--json", "-jx"])));
    assert!(effective_json(false, true, false, false));
    assert!(!effective_json(true, false, true, true));
    assert!(effective_json(true, false, false, true));
}
