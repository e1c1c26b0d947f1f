use dnsmasq_agent::hosts::{names_under, render_hosts};
use dnsmasq_agent::ip::IpAddress;
use dnsmasq_agent::replace_mode::ReplaceMode;
use dnsmasq_agent::table::{HostRow, HostTable, RowChange, RowFilter};

fn ip(text: &str) -> IpAddress {
    IpAddress::parse(text).unwrap()
}

fn row(ip: &str, host: &str, ttl_seconds: i64, registered_at_epoch_secs: i64) -> HostRow {
    HostRow { ip: ip.to_string(), host: host.to_string(), ttl_seconds, registered_at_epoch_secs }
}

fn file(table: &HostTable) -> String {
    render_hosts(&table.load_hosts())
}

fn filled() -> HostTable {
    let mut table = HostTable::new();
    table.add(ip("10.0.0.1"), "a.com", 0, 100, ReplaceMode::Neither);
    table.add(ip("10.0.0.1"), "b.com", 0, 100, ReplaceMode::Neither);
    table.add(ip("10.0.0.2"), "a.com", 0, 100, ReplaceMode::Neither);
    table.add(ip("10.0.0.2"), "c.com", 0, 100, ReplaceMode::Neither);
    table
}

#[test]
fn file_is_sorted_by_address_and_host() {
    let mut table = HostTable::new();
    for (address, host) in [
        ("::1", "six"),
        ("10.0.0.10", "z"),
        ("9.0.0.1", "y"),
        ("10.0.0.2", "b"),
        ("10.0.0.2", "a"),
    ] {
        table.add(ip(address), host, 0, 0, ReplaceMode::Neither);
    }
    assert_eq!(file(&table), "9.0.0.1 y\n10.0.0.2 a b\n10.0.0.10 z\n::1 six\n");
}

#[test]
fn empty_table_makes_an_empty_file() {
    assert_eq!(file(&HostTable::new()), "");
}

#[test]
fn same_hosts_make_the_same_file() {
    let mut table = HostTable::new();
    table.add(ip("10.0.0.2"), "c.com", 5, 1, ReplaceMode::Neither);
    table.add(ip("10.0.0.2"), "a.com", 5, 1, ReplaceMode::Neither);
    table.add(ip("10.0.0.1"), "b.com", 5, 1, ReplaceMode::Neither);
    table.add(ip("10.0.0.1"), "a.com", 5, 1, ReplaceMode::Neither);
    assert_eq!(file(&table), file(&filled()));
}

#[test]
fn both_replaces_both_sides() {
    let mut table = filled();
    table.add(ip("10.0.0.1"), "a.com", 0, 200, ReplaceMode::Both);
    assert_eq!(file(&table), "10.0.0.1 a.com\n10.0.0.2 c.com\n");
}

#[test]
fn host_replaces_the_hosts_under_the_address() {
    let mut table = filled();
    table.add(ip("10.0.0.1"), "a.com", 0, 200, ReplaceMode::Host);
    assert_eq!(file(&table), "10.0.0.1 a.com\n10.0.0.2 a.com c.com\n");
}

#[test]
fn ip_replaces_the_addresses_of_the_host() {
    let mut table = filled();
    table.add(ip("10.0.0.1"), "a.com", 0, 200, ReplaceMode::Ip);
    assert_eq!(file(&table), "10.0.0.1 a.com b.com\n10.0.0.2 c.com\n");
}

#[test]
fn none_replaces_nothing() {
    let mut table = filled();
    table.add(ip("10.0.0.1"), "d.com", 0, 200, ReplaceMode::Neither);
    assert_eq!(file(&table), "10.0.0.1 a.com b.com d.com\n10.0.0.2 a.com c.com\n");
}

#[test]
fn adding_again_refreshes() {
    let mut table = HostTable::new();
    table.add(ip("10.2.2.2"), "test.com", 10, 100, ReplaceMode::Neither);
    table.add(ip("10.2.2.2"), "test.com", 20, 105, ReplaceMode::Neither);
    assert_eq!(table.purge_expired(124), 0);
    assert_eq!(table.purge_expired(125), 1);
}

#[test]
fn time_to_live_runs_out() {
    let mut table = HostTable::new();
    table.add(ip("10.2.2.2"), "short", 10, 100, ReplaceMode::Neither);
    table.add(ip("10.2.2.2"), "ever", 0, 100, ReplaceMode::Neither);
    table.add(ip("10.2.2.2"), "huge", u64::MAX, 100, ReplaceMode::Neither);
    assert_eq!(table.purge_expired(109), 0);
    assert_eq!(file(&table), "10.2.2.2 ever huge short\n");
    assert_eq!(table.purge_expired(110), 1);
    assert_eq!(table.purge_expired(110), 0);
    assert_eq!(table.purge_expired(i64::MAX), 0);
    assert_eq!(file(&table), "10.2.2.2 ever huge\n");
}

#[test]
fn largest_time_to_live_does_not_overflow() {
    let mut table = HostTable::new();
    table.add(ip("10.2.2.2"), "long", i64::MAX as u64, i64::MAX, ReplaceMode::Neither);
    assert_eq!(table.purge_expired(i64::MAX), 0);
    let hosts = table.load_hosts();
    assert_eq!(hosts.entries[0].1.ttl_seconds, i64::MAX as u64);
}

#[test]
fn deletions_count() {
    let mut table = filled();
    assert_eq!(table.delete_where(&RowFilter::Ip("10.0.0.1".to_string())), 2);
    assert_eq!(table.delete_where(&RowFilter::Ip("10.0.0.1".to_string())), 0);
    assert_eq!(
        table.delete_where(&RowFilter::Pair("10.0.0.2".to_string(), "a.com".to_string())),
        1
    );
    assert_eq!(
        table.delete_where(&RowFilter::Pair("10.0.0.2".to_string(), "a.com".to_string())),
        0
    );
    assert_eq!(table.delete_where(&RowFilter::Host("c.com".to_string())), 1);
    assert_eq!(file(&table), "");
}

#[test]
fn counter_grows_with_changes_alone() {
    let mut table = filled();
    assert_eq!(table.db_generation(), 4);
    assert_eq!(table.file_generation(), 0);
    table.delete_where(&RowFilter::Ip("1.1.1.1".to_string()));
    table.purge_expired(1000);
    assert_eq!(table.db_generation(), 4);
    table.delete_where(&RowFilter::Ip("10.0.0.1".to_string()));
    assert_eq!(table.db_generation(), 5);
    table.add(ip("10.0.0.2"), "c.com", 0, 100, ReplaceMode::Neither);
    assert_eq!(table.db_generation(), 6);
    table.set_file_generation(6);
    assert_eq!(table.file_generation(), 6);
}

#[test]
fn delete_undoes_add() {
    let mut table = filled();
    let before = file(&table);
    table.add(ip("10.0.0.9"), "new.com", 0, 100, ReplaceMode::Neither);
    assert_eq!(
        table.delete_where(&RowFilter::Pair("10.0.0.9".to_string(), "new.com".to_string())),
        1
    );
    assert_eq!(file(&table), before);
}

#[test]
fn names_under_an_address() {
    let hosts = filled().load_hosts();
    assert_eq!(names_under(&hosts, ip("10.0.0.2")), vec!["a.com", "c.com"]);
    assert!(names_under(&hosts, ip("10.0.0.3")).is_empty());
}

#[test]
fn rows_are_loaded() {
    let rows = vec![
        row("10.0.0.1", "a", 5, 1),
        row("10.0.0.1", "b", -5, 2),
        row("::0001", "c", 0, 3),
        row("::1", "c", 7, 4),
    ];
    let table = HostTable::load(rows, 7, 3).unwrap();
    assert_eq!((table.db_generation(), table.file_generation()), (7, 3));
    let hosts = table.load_hosts();
    assert_eq!(hosts.len(), 3);
    assert_eq!(hosts.entries[1].1.ttl_seconds, 0);
    assert_eq!(hosts.entries[2].1.ttl_seconds, 7);
    assert_eq!(file(&table), "10.0.0.1 a b\n::1 c\n");
}

#[test]
fn unreadable_address_is_named() {
    let rows = vec![row("10.0.0.1", "a", 0, 0), row("nowhere", "b", 0, 0), row("x", "c", 0, 0)];
    assert_eq!(
        HostTable::load(rows, 0, 0).err().unwrap().message,
        "invalid ip stored in sqlite: nowhere"
    );
}

#[test]
fn changes_lead_from_one_table_to_the_other() {
    let before = filled();
    let mut after = before.copy();
    assert!(after.changes_since(&before).is_empty());
    after.delete_where(&RowFilter::Ip("10.0.0.1".to_string()));
    after.add(ip("10.0.0.2"), "a.com", 60, 300, ReplaceMode::Neither);
    let changes = after.changes_since(&before);
    assert_eq!(changes.len(), 3);
    let mut removed = Vec::new();
    let mut put = Vec::new();
    for change in changes {
        match change {
            RowChange::Remove { ip, host } => removed.push((ip, host)),
            RowChange::Put { row } => put.push((row.ip, row.host, row.ttl_seconds)),
        }
    }
    assert_eq!(
        removed,
        vec![
            ("10.0.0.1".to_string(), "a.com".to_string()),
            ("10.0.0.1".to_string(), "b.com".to_string()),
        ]
    );
    assert_eq!(put, vec![("10.0.0.2".to_string(), "a.com".to_string(), 60)]);
}

#[test]
fn mode_names() {
    for (name, mode) in [
        ("both", ReplaceMode::Both),
        ("host", ReplaceMode::Host),
        ("ip", ReplaceMode::Ip),
        ("none", ReplaceMode::Neither),
    ] {
        assert_eq!(mode.as_str(), name);
        assert_eq!(ReplaceMode::from_str(name).unwrap(), mode);
        assert_eq!(ReplaceMode::from_str(&format!(" {}\n", name.to_uppercase())).unwrap(), mode);
    }
    assert_eq!(
        ReplaceMode::from_str(" All").unwrap_err().message,
        "invalid replace mode ` All`; expected one of: both, host, ip, none"
    );
}

#[test]
fn older_flags() {
    let cases = [
        (None, None, ReplaceMode::Both),
        (Some(true), None, ReplaceMode::Host),
        (Some(false), None, ReplaceMode::Neither),
        (None, Some(true), ReplaceMode::Ip),
        (Some(true), Some(true), ReplaceMode::Both),
        (Some(true), Some(false), ReplaceMode::Host),
        (Some(false), Some(true), ReplaceMode::Ip),
        (Some(false), Some(false), ReplaceMode::Neither),
    ];
    for (replace, replace_ip, expected) in cases {
        assert_eq!(ReplaceMode::requested(None, replace, replace_ip), expected);
        assert_eq!(
            ReplaceMode::requested(Some(ReplaceMode::Ip), replace, replace_ip),
            ReplaceMode::Ip
        );
    }
}

#[test]
fn addresses_are_stored_in_their_own_form() {
    let mut table = HostTable::new();
    table.add(ip("0:0:0:0:0:0:0:1"), "six", 0, 0, ReplaceMode::Neither);
    table.add(ip("::ffff:102:304"), "mapped", 0, 0, ReplaceMode::Neither);
    assert_eq!(file(&table), "::1 six\n::ffff:1.2.3.4 mapped\n");
    assert_eq!(table.delete_where(&RowFilter::Ip("::1".to_string())), 1);
}
