use dnsmasq_agent::config::{listen_address, load_config, parse_basic_auth, required_config, Config, ConfigValues};
use dnsmasq_agent::ip::IpAddress;
use dnsmasq_agent::sorted::SortedMap;

const SAMPLE: &str = "target=/etc/dnsmasq.hosts
flush_interval_ms=5000
port=8000
bind=0.0.0.0
basic_auth=admin:password
dnsmasq_pid_file=/run/dnsmasq/dnsmasq.pid
db_file=./hosts.sqlite
";

fn load(raw: &str) -> Config {
    load_config("agent.conf", raw).unwrap()
}

fn complaint(raw: &str) -> String {
    load_config("agent.conf", raw).unwrap_err().message
}

fn without(key: &str) -> String {
    SAMPLE
        .lines()
        .filter(|line| !line.starts_with(key))
        .map(|line| format!("{}\n", line))
        .collect()
}

#[test]
fn sample_is_read() {
    let config = load(SAMPLE);
    assert_eq!(config.target, "/etc/dnsmasq.hosts");
    assert_eq!(config.flush_interval_ms, 5000);
    assert_eq!(config.port, 8000);
    assert_eq!(config.bind, "0.0.0.0");
    let auth = config.basic_auth.as_ref().unwrap();
    assert_eq!(auth.username, "admin");
    assert_eq!(auth.password, "password");
    assert_eq!(config.dnsmasq_pid_file, "/run/dnsmasq/dnsmasq.pid");
    assert_eq!(config.db_file, "./hosts.sqlite");
    let address = listen_address(&config).unwrap();
    assert_eq!(address.ip, IpAddress::V4(0));
    assert_eq!(address.port, 8000);
}

#[test]
fn comments_blank_lines_and_white_space() {
    let raw = "# comment\r\n\r\n  target = /a=b \r\n\tflush_interval_ms=1\r\n   # port=1\r\nport= 80\r\nbind=::1\r\ndnsmasq_pid_file=\r\ndb_file=x";
    let config = load(raw);
    assert_eq!(config.target, "/a=b");
    assert_eq!(config.flush_interval_ms, 1);
    assert_eq!(config.port, 80);
    assert_eq!(config.dnsmasq_pid_file, "");
    assert!(config.basic_auth.is_none());
}

#[test]
fn last_setting_counts() {
    let raw = format!("{}port=9000\nport=9001\n", SAMPLE);
    assert_eq!(load(&raw).port, 9001);
}

#[test]
fn line_without_a_pair_is_named() {
    let raw = "# a\ntarget=/a\nnonsense\n";
    assert_eq!(complaint(raw), "invalid config at agent.conf:3: expected key=value");
}

#[test]
fn every_required_key_is_missed() {
    for key in ["target", "flush_interval_ms", "bind", "port", "dnsmasq_pid_file", "db_file"] {
        assert_eq!(
            complaint(&without(key)),
            format!("missing required config key `{}`", key)
        );
    }
    assert!(load(&without("basic_auth")).basic_auth.is_none());
    assert_eq!(complaint(""), "missing required config key `target`");
}

#[test]
fn wrong_values_are_named() {
    assert_eq!(
        complaint(&SAMPLE.replace("flush_interval_ms=5000", "flush_interval_ms=5s")),
        "invalid flush_interval_ms"
    );
    assert_eq!(
        complaint(&SAMPLE.replace("flush_interval_ms=5000", "flush_interval_ms=18446744073709551616")),
        "invalid flush_interval_ms"
    );
    assert_eq!(
        load(&SAMPLE.replace("flush_interval_ms=5000", "flush_interval_ms=18446744073709551615"))
            .flush_interval_ms,
        u64::MAX
    );
    assert_eq!(complaint(&SAMPLE.replace("port=8000", "port=65536")), "invalid port");
    assert_eq!(load(&SAMPLE.replace("port=8000", "port=+65535")).port, 65535);
    assert_eq!(
        complaint(&SAMPLE.replace("admin:password", "admin")),
        "basic_auth must be username:password"
    );
}

#[test]
fn password_may_hold_colons() {
    let user = parse_basic_auth("a:b:c").unwrap();
    assert_eq!(user.username, "a");
    assert_eq!(user.password, "b:c");
    assert_eq!(
        parse_basic_auth("a").unwrap_err().message,
        "basic_auth must be username:password"
    );
}

#[test]
fn required_values() {
    let mut values: ConfigValues = SortedMap::new();
    values.insert("port".to_string(), "1".to_string());
    assert_eq!(required_config(&values, "port").unwrap(), "1");
    assert_eq!(
        required_config(&values, "bind").unwrap_err().message,
        "missing required config key `bind`"
    );
}

#[test]
fn wrong_listen_address_is_named() {
    let config = load(&SAMPLE.replace("bind=0.0.0.0", "bind=localhost"));
    assert_eq!(
        listen_address(&config).unwrap_err().message,
        "invalid bind address localhost:8000"
    );
    let six = load(&SAMPLE.replace("bind=0.0.0.0", "bind=[::1]"));
    assert_eq!(listen_address(&six).unwrap().ip, IpAddress::V6(1));
}
