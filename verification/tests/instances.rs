use dnsmasq_agent::cidr::Cidr;
use dnsmasq_agent::ip::IpAddress;
use dnsmasq_agent::json::Json;
use dnsmasq_agent::lxc::{extract_matching_ips, is_running, plan_registrations, planned_registrations};

fn ip(text: &str) -> IpAddress {
    IpAddress::parse(text).unwrap()
}

fn json(text: &str) -> Json {
    Json::parse(text.as_bytes()).unwrap()
}

fn mask() -> Cidr {
    Cidr::from_str("192.168.0.0/24").unwrap()
}

#[test]
fn extracts_matching_ips_from_lxc_shape() {
    let instance = json(
        r#"{
            "name": "web-1",
            "status": "Running",
            "state": {
                "network": {
                    "eth0": {
                        "addresses": [
                            {"family": "inet", "address": "192.168.0.21"},
                            {"family": "inet6", "address": "fe80::1"}
                        ]
                    }
                }
            }
        }"#,
    );

    let ips = extract_matching_ips(&instance, Cidr::from_str("192.168.0.0/24").unwrap());
    assert_eq!(ips, vec![ip("192.168.0.21")]);
}

#[test]
fn addresses_come_sorted_and_once() {
    let instance = json(
        r#"{"state": {"network": [{"address": "192.168.0.30"}, {"address": "192.168.0.4"}],
            "more": {"address": "192.168.0.30", "deep": [[{"address": "192.168.0.1"}]]}},
            "address": "192.168.0.99"}"#,
    );
    assert_eq!(
        extract_matching_ips(&instance, mask()),
        vec![ip("192.168.0.1"), ip("192.168.0.4"), ip("192.168.0.30")]
    );
}

#[test]
fn other_addresses_are_left_out() {
    for text in [
        r#"{}"#,
        r#"{"state": null}"#,
        r#"[{"state": {"address": "192.168.0.1"}}]"#,
        r#"{"state": {"address": "192.168.1.1"}}"#,
        r#"{"state": {"address": 7, "Address": "192.168.0.1"}}"#,
        r#"{"state": {"address": "192.168.0.1/24"}}"#,
        r#"{"state": ["192.168.0.1", true, 1.5, null]}"#,
    ] {
        assert!(extract_matching_ips(&json(text), mask()).is_empty(), "{}", text);
    }
}

#[test]
fn running_instances() {
    for text in [
        r#"{"status": "Running"}"#,
        r#"{"status": "RUNNING", "state": {"status": "Stopped"}}"#,
        r#"{"state": {"status": "running"}}"#,
        r#"{"status": 1, "state": {"status": "Running"}}"#,
    ] {
        assert!(is_running(&json(text)), "{}", text);
    }
    for text in [
        r#"{}"#,
        r#"{"status": "Stopped", "state": {"status": "Running"}}"#,
        r#"{"status": " Running"}"#,
        r#"{"state": {"state": "Running"}}"#,
        r#"[]"#,
    ] {
        assert!(!is_running(&json(text)), "{}", text);
    }
}

#[test]
fn plan_follows_the_listing() {
    let listing = r#"[
        {"name": "Web-1.", "status": "Running", "state": {"a": {"address": "192.168.0.2"}, "b": {"address": "192.168.0.1"}}},
        {"name": "stopped", "status": "Stopped", "state": {"address": "192.168.0.3"}},
        {"status": "Running", "state": {"address": "192.168.0.4"}},
        {"name": "far", "status": "Running", "state": {"address": "10.0.0.1"}},
        {"name": "db", "status": "Running", "state": {"address": "192.168.0.5"}}
    ]"#;
    let plan = planned_registrations(listing.as_bytes(), "titan", mask()).unwrap();
    let got: Vec<(String, String)> = plan.iter().map(|p| (p.ip.text(), p.host.clone())).collect();
    assert_eq!(
        got,
        vec![
            ("192.168.0.1".to_string(), "web-1.titan".to_string()),
            ("192.168.0.2".to_string(), "web-1.titan".to_string()),
            ("192.168.0.5".to_string(), "db.titan".to_string()),
        ]
    );
}

#[test]
fn wrong_listings_are_refused() {
    assert_eq!(
        planned_registrations(b"nonsense", "titan", mask()).unwrap_err().message,
        "failed to parse lxc ls --format json output"
    );
    assert_eq!(
        planned_registrations(b"{}", "titan", mask()).unwrap_err().message,
        "expected lxc ls JSON output to be an array"
    );
    assert!(plan_registrations(&Json::Array(Vec::new()), "titan", mask()).unwrap().is_empty());
}

#[test]
fn values_are_read() {
    let value = json(r#"{"a": [null, true, 12, "x"], "b": {"c": "d"}}"#);
    match value.get("a") {
        Some(Json::Array(items)) => {
            assert!(matches!(items[0], Json::Null));
            assert!(matches!(items[1], Json::Bool(true)));
            assert!(matches!(items[2], Json::Number));
            assert!(matches!(&items[3], Json::Text(s) if s == "x"));
        }
        other => panic!("{:?}", other),
    }
    assert_eq!(value.get("b").unwrap().get_text("c"), Some("d"));
    assert!(value.get("c").is_none());
    assert!(value.get_text("a").is_none());
    assert!(Json::parse(b"{").is_none());
}
