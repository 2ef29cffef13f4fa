use fiducia_cli::commands::region::{RankedRow, RegionRanking};
use fiducia_cli::commands::regions::RegionList;
use fiducia_cli::{normalize_regions, select_regions, truthy, Region, Report};

/// Decodes an `edge-regions.json` document into regions, as the binary does
/// before normalizing them.
fn decode(json: &str) -> Result<Vec<Region>, String> {
    let value: serde_json::Value = serde_json::from_str(json).map_err(|e| e.to_string())?;
    let items = value.as_array().ok_or_else(|| "expected an array".to_string())?;
    let mut regions = Vec::new();
    for item in items {
        let name = item.get("name").and_then(|v| v.as_str()).ok_or("missing name")?;
        let url = item.get("url").and_then(|v| v.as_str()).ok_or("missing url")?;
        regions.push(Region { name: name.to_string(), url: url.to_string() });
    }
    Ok(regions)
}

fn parse_regions(json: &str) -> Result<Vec<Region>, String> {
    normalize_regions(decode(json)?)
}

fn encode(regions: &[Region]) -> String {
    let items: Vec<serde_json::Value> = regions
        .iter()
        .map(|r| {
            let mut object = serde_json::Map::new();
            object.insert("name".to_string(), serde_json::Value::String(r.name.clone()));
            object.insert("url".to_string(), serde_json::Value::String(r.url.clone()));
            serde_json::Value::Object(object)
        })
        .collect();
    serde_json::to_string(&serde_json::Value::Array(items)).unwrap()
}

fn pairs(regions: &[Region]) -> Vec<(String, String)> {
    regions.iter().map(|r| (r.name.clone(), r.url.clone())).collect()
}

#[test]
fn parse_regions_reads_edge_format() {
    let regions = parse_regions(
        r#"[{"name":"gcp","url":"https://gcp.lb"},{"name":"aws","url":"https://aws.lb"}]"#,
    )
    .unwrap();
    assert_eq!(regions.len(), 2);
    assert_eq!(regions[0].name, "gcp");
    assert!(parse_regions("not json").is_err());
}

#[test]
fn parse_regions_trims_names_and_rejects_duplicates() {
    let regions = parse_regions(r#"[{"name":" us-east ","url":" https://aws.lb "}]"#).unwrap();
    assert_eq!(regions[0].name, "us-east");
    assert_eq!(regions[0].url, "https://aws.lb");

    let err = parse_regions(
        r#"[{"name":"us-east","url":"https://a"},{"name":"us-east","url":"https://b"}]"#,
    )
    .unwrap_err();
    assert!(err.contains("duplicate region name"));
}

#[test]
fn parse_regions_rejects_blank_names_and_non_http_urls() {
    let blank_name = parse_regions(r#"[{"name":" ","url":"https://aws.lb"}]"#).unwrap_err();
    assert!(blank_name.contains("empty name"));

    let blank_url = parse_regions(r#"[{"name":"aws","url":" "}]"#).unwrap_err();
    assert!(blank_url.contains("empty url"));

    let non_http = parse_regions(r#"[{"name":"aws","url":"ssh://aws.lb"}]"#).unwrap_err();
    assert!(non_http.contains("http(s)"));
}

#[test]
fn normalize_reports_exact_messages_for_the_first_problem() {
    let r = |name: &str, url: &str| Region { name: name.to_string(), url: url.to_string() };
    assert_eq!(
        normalize_regions(vec![r("a", "https://a"), r("\t", "https://b")]).unwrap_err(),
        "region 1 has an empty name"
    );
    assert_eq!(
        normalize_regions(vec![r(" a ", "")]).unwrap_err(),
        "region a has an empty url"
    );
    assert_eq!(
        normalize_regions(vec![r("a", "ftp://a")]).unwrap_err(),
        "region a url must start with http(s)"
    );
    assert_eq!(
        normalize_regions(vec![r("a", "http://a"), r(" a", "https://b"), r("", "")]).unwrap_err(),
        "duplicate region name: a"
    );
    assert_eq!(normalize_regions(Vec::new()).unwrap().len(), 0);
    // Unicode whitespace is trimmed as `str::trim` does.
    let ok = normalize_regions(vec![r("\u{2003}eu\u{3000}", "\u{a0}http://eu.lb\n")]).unwrap();
    assert_eq!(pairs(&ok), [("eu".to_string(), "http://eu.lb".to_string())]);
}

#[test]
fn select_regions_filters_or_errors() {
    let regions = parse_regions(
        r#"[{"name":"gcp","url":"https://gcp.lb"},{"name":"aws","url":"https://aws.lb"}]"#,
    )
    .unwrap();

    // empty `only` => unchanged
    assert_eq!(select_regions(regions.clone(), "").unwrap().len(), 2);

    // matching name => just that one
    let aws = select_regions(regions.clone(), "aws").unwrap();
    assert_eq!(aws.len(), 1);
    assert_eq!(aws[0].name, "aws");

    // no match => error mentioning the name
    let err = select_regions(regions, "nope").unwrap_err();
    assert!(err.contains("nope"));
}

#[test]
fn select_regions_quotes_the_missing_name() {
    let err = select_regions(Vec::new(), "nope").unwrap_err();
    assert_eq!(err, "no region named \"nope\"");
    let err = select_regions(Vec::new(), "a\"b").unwrap_err();
    assert_eq!(err, "no region named \"a\\\"b\"");
}

#[test]
fn region_json_round_trips_unicode_ipv6_and_selection_without_drift() {
    let parsed = parse_regions(
        r#"[
            {"name":" São Paulo ","url":" https://south-america.fiducia.test "},
            {"name":"ipv6-lab","url":"https://[2001:db8::1]:8443"}
        ]"#,
    )
    .expect("valid edge-region document");

    assert_eq!(parsed[0].name, "São Paulo");
    assert_eq!(parsed[0].url, "https://south-america.fiducia.test");
    assert_eq!(parsed[1].url, "https://[2001:db8::1]:8443");

    let encoded = encode(&parsed);
    let reparsed = parse_regions(&encoded).expect("reparse normalized regions");
    assert_eq!(pairs(&reparsed), pairs(&parsed), "normalization must be idempotent");

    let selected = select_regions(reparsed, "São Paulo").expect("select unicode region");
    assert_eq!(selected.len(), 1);
    assert_eq!(selected[0].url, "https://south-america.fiducia.test");
}

#[test]
fn truthy_accepts_common_yes_values() {
    for y in ["1", "true", "TRUE", "Yes", " on "] {
        assert!(truthy(y), "{y:?} should be truthy");
    }
    for n in ["", "0", "false", "no", "off", "nope"] {
        assert!(!truthy(n), "{n:?} should be falsey");
    }
}

#[test]
fn truthy_trims_unicode_whitespace_and_ignores_non_ascii_case() {
    assert!(truthy("\u{2003}ON\n"));
    assert!(!truthy("ＯＮ"));
    assert!(!truthy("o n"));
}

#[test]
fn region_list_renders_a_padded_table() {
    let list = RegionList {
        regions: vec![
            Region { name: "us-east".to_string(), url: "https://aws.lb".to_string() },
            Region {
                name: "a-very-long-region-name".to_string(),
                url: "https://x".to_string(),
            },
        ],
    };
    assert_eq!(
        list.render_human(),
        "selectable regions (2):\n  us-east          https://aws.lb\n  a-very-long-region-name https://x"
    );
    assert_eq!(list.exit_code(), 0);
    assert_eq!(RegionList { regions: Vec::new() }.render_human(), "selectable regions (0):");
}

#[test]
fn ranking_table_marks_unreachable_regions_and_names_the_closest() {
    let rows = vec![
        RankedRow {
            name: "us-east".to_string(),
            median: Some("7.4".to_string()),
            ok: 5,
            total: 5,
            url: "https://aws.lb.fiducia.cloud".to_string(),
        },
        RankedRow {
            name: "eu-central".to_string(),
            median: None,
            ok: 0,
            total: 5,
            url: "https://hetzner.lb.fiducia.cloud".to_string(),
        },
    ];
    let table = RegionRanking { rows, closest: Some("us-east".to_string()) };
    assert_eq!(
        table.render_human(),
        "region            median ms  ok/total  url\n\
         us-east                 7.4    5/5    https://aws.lb.fiducia.cloud\n\
         eu-central                —    0/5    https://hetzner.lb.fiducia.cloud\n\
         \n\
         closest: us-east  (pass it as  X-Fiducia-Region: us-east)"
    );
    assert_eq!(table.exit_code(), 0);
    let down = RegionRanking { rows: Vec::new(), closest: None };
    assert_eq!(down.render_human(), "region            median ms  ok/total  url\n\nno region was reachable");
    assert_eq!(down.exit_code(), 1);
}
