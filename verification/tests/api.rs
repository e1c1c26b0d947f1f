use dnsmasq_agent::config::BasicAuthConfig;
use dnsmasq_agent::failure::Failure;
use dnsmasq_agent::guard::basic_credentials;
use dnsmasq_agent::ip::IpAddress;
use dnsmasq_agent::replace_mode::ReplaceMode;
use dnsmasq_agent::requests::{
    add_host, delete_host, delete_ip, internal_api_error, list_all, normalize_host,
    normalize_host_for_api, ui_index, AddHostRequest, RequestHeaders,
};
use dnsmasq_agent::table::HostTable;

fn ip(text: &str) -> IpAddress {
    IpAddress::parse(text).unwrap()
}

fn plain() -> RequestHeaders {
    RequestHeaders { authorization: None, cookie: None, csrf_token: None }
}

fn request(address: &str, host: &str, mode: ReplaceMode, ttl: Option<u64>) -> AddHostRequest {
    AddHostRequest {
        ip: ip(address),
        host: host.to_string(),
        replace_mode: Some(mode),
        replace: None,
        replace_ip: None,
        ttl,
    }
}

#[test]
fn host_is_added_and_listed() {
    let mut table = HostTable::new();
    let first = request("10.2.2.2", " Test.COM ", ReplaceMode::Neither, None);
    let answer = add_host(&mut table, &None, &plain(), &first, 100).unwrap();
    assert_eq!(answer.ip, "10.2.2.2");
    assert_eq!(answer.hosts, vec!["test.com"]);
    let second = request("10.2.2.2", "test1.com", ReplaceMode::Neither, Some(1800));
    let answer = add_host(&mut table, &None, &plain(), &second, 100).unwrap();
    assert_eq!(answer.hosts, vec!["test.com", "test1.com"]);

    let list = list_all(&mut table, &None, &plain(), 200).unwrap();
    assert_eq!(list.entries.len(), 1);
    assert_eq!(list.entries[0].0, "10.2.2.2");
    let hosts = &list.entries[0].1;
    assert_eq!(hosts.len(), 2);
    assert_eq!((hosts[0].name.as_str(), hosts[0].ttl_seconds), ("test.com", 0));
    assert_eq!((hosts[1].name.as_str(), hosts[1].ttl_seconds), ("test1.com", 1800));
    assert!(hosts[0].registered_time.contains(":40.000"));
}

#[test]
fn default_is_to_replace_both_sides() {
    let mut table = HostTable::new();
    for (address, host) in [("10.0.0.1", "a"), ("10.0.0.1", "b"), ("10.0.0.2", "a")] {
        let r = request(address, host, ReplaceMode::Neither, None);
        add_host(&mut table, &None, &plain(), &r, 0).unwrap();
    }
    let r = AddHostRequest {
        ip: ip("10.0.0.1"),
        host: "A".to_string(),
        replace_mode: None,
        replace: None,
        replace_ip: None,
        ttl: None,
    };
    let answer = add_host(&mut table, &None, &plain(), &r, 0).unwrap();
    assert_eq!(answer.hosts, vec!["a"]);
    let list = list_all(&mut table, &None, &plain(), 0).unwrap();
    assert_eq!(list.entries.len(), 1);
}

#[test]
fn expired_hosts_are_gone_from_every_answer() {
    let mut table = HostTable::new();
    let short = request("10.0.0.1", "short", ReplaceMode::Neither, Some(10));
    add_host(&mut table, &None, &plain(), &short, 100).unwrap();
    assert_eq!(list_all(&mut table, &None, &plain(), 109).unwrap().entries.len(), 1);
    assert_eq!(table.db_generation(), 1);
    assert_eq!(list_all(&mut table, &None, &plain(), 110).unwrap().entries.len(), 0);
    assert_eq!(table.db_generation(), 2);
    add_host(&mut table, &None, &plain(), &short, 200).unwrap();
    assert_eq!(delete_ip(&mut table, &None, &plain(), ip("10.0.0.1"), 210).unwrap(), 0);
    let other = request("10.0.0.1", "other", ReplaceMode::Neither, None);
    add_host(&mut table, &None, &plain(), &short, 300).unwrap();
    let answer = add_host(&mut table, &None, &plain(), &other, 310).unwrap();
    assert_eq!(answer.hosts, vec!["other"]);
}

#[test]
fn deletions_answer_how_many() {
    let mut table = HostTable::new();
    for host in ["a", "b", "c"] {
        let r = request("10.2.2.2", host, ReplaceMode::Neither, None);
        add_host(&mut table, &None, &plain(), &r, 0).unwrap();
    }
    let address = ip("10.2.2.2");
    assert_eq!(delete_host(&mut table, &None, &plain(), address, " A ", 0).unwrap(), 1);
    assert_eq!(delete_host(&mut table, &None, &plain(), address, "a", 0).unwrap(), 0);
    assert_eq!(delete_ip(&mut table, &None, &plain(), address, 0).unwrap(), 2);
    assert_eq!(delete_ip(&mut table, &None, &plain(), address, 0).unwrap(), 0);
}

#[test]
fn empty_host_is_refused() {
    let mut table = HostTable::new();
    let r = request("10.2.2.2", "  ", ReplaceMode::Both, None);
    let error = add_host(&mut table, &None, &plain(), &r, 0).unwrap_err();
    assert_eq!((error.status, error.message.as_str()), (400, "host must not be empty"));
    let error = delete_host(&mut table, &None, &plain(), ip("10.2.2.2"), "\t", 0).unwrap_err();
    assert_eq!(error.status, 400);
    assert_eq!(table.db_generation(), 0);
}

#[test]
fn strangers_are_refused_before_anything_else() {
    let auth = Some(BasicAuthConfig { username: "u".to_string(), password: "p".to_string() });
    let mut table = HostTable::new();
    let r = request("10.2.2.2", "", ReplaceMode::Both, None);
    let headers = RequestHeaders {
        authorization: None,
        cookie: Some("dnsmasq_csrf=x".to_string()),
        csrf_token: None,
    };
    assert_eq!(add_host(&mut table, &auth, &headers, &r, 0).unwrap_err().status, 401);
    assert_eq!(delete_ip(&mut table, &auth, &headers, ip("::1"), 0).unwrap_err().status, 401);
    assert_eq!(delete_host(&mut table, &auth, &headers, ip("::1"), "", 0).unwrap_err().status, 401);
    assert_eq!(list_all(&mut table, &auth, &headers, 0).err().unwrap().status, 401);
    assert_eq!(ui_index(&auth, &headers).unwrap_err().status, 401);
    let known = RequestHeaders {
        authorization: Some(basic_credentials("u", "p")),
        cookie: Some("dnsmasq_csrf=x".to_string()),
        csrf_token: None,
    };
    assert_eq!(add_host(&mut table, &auth, &known, &r, 0).unwrap_err().status, 403);
    assert_eq!(delete_ip(&mut table, &auth, &known, ip("::1"), 0).unwrap_err().status, 403);
    assert!(list_all(&mut table, &auth, &known, 0).is_ok());
    assert!(ui_index(&auth, &known).is_ok());
    let trusted = RequestHeaders { csrf_token: Some("x".to_string()), ..known };
    assert_eq!(add_host(&mut table, &auth, &trusted, &r, 0).unwrap_err().status, 400);
    assert_eq!(delete_ip(&mut table, &auth, &trusted, ip("::1"), 0).unwrap(), 0);
}

#[test]
fn page_and_cookie_hold_the_same_token() {
    let page = ui_index(&None, &plain()).unwrap();
    let token = page.cookie.strip_prefix("dnsmasq_csrf=").unwrap().split(';').next().unwrap();
    assert_eq!(token.len(), 32);
    assert!(page.html.contains(&format!("const csrfToken = \"{}\";", token)));
}

#[test]
fn host_names_are_normalized() {
    assert_eq!(normalize_host("  WWW.Example.COM\n").unwrap(), "www.example.com");
    assert_eq!(normalize_host(&normalize_host("A b").unwrap()).unwrap(), "a b");
    assert_eq!(normalize_host("\u{c4}").unwrap(), "\u{c4}");
    assert_eq!(normalize_host("\u{3000}\u{a0}").unwrap_err().message, "host must not be empty");
    assert_eq!(normalize_host_for_api("X").unwrap(), "x");
    assert_eq!(normalize_host_for_api("").unwrap_err().status, 400);
}

#[test]
fn internal_errors_carry_their_message() {
    let error = internal_api_error(&Failure { message: "disk full".to_string() });
    assert_eq!((error.status, error.message.as_str()), (500, "disk full"));
}

#[test]
fn second_request_refreshes_the_host() {
    let mut table = HostTable::new();
    let first = request("10.2.2.2", "test.com", ReplaceMode::Neither, Some(10));
    let second = request("10.2.2.2", " TEST.com ", ReplaceMode::Neither, Some(20));
    add_host(&mut table, &None, &plain(), &first, 100).unwrap();
    let answer = add_host(&mut table, &None, &plain(), &second, 105).unwrap();
    assert_eq!(answer.hosts, vec!["test.com"]);
    let list = list_all(&mut table, &None, &plain(), 124).unwrap();
    assert_eq!(list.entries[0].1.len(), 1);
    assert_eq!(list.entries[0].1[0].ttl_seconds, 20);
    assert!(list.entries[0].1[0].registered_time.contains(":45.000"));
    assert!(list_all(&mut table, &None, &plain(), 125).unwrap().entries.is_empty());
}

#[test]
fn delete_request_undoes_add_request() {
    let mut table = HostTable::new();
    let other = request("10.2.2.2", "other", ReplaceMode::Neither, None);
    add_host(&mut table, &None, &plain(), &other, 0).unwrap();
    let before = table.copy();
    let added = AddHostRequest {
        ip: ip("10.2.2.2"),
        host: "New".to_string(),
        replace_mode: None,
        replace: Some(false),
        replace_ip: None,
        ttl: None,
    };
    add_host(&mut table, &None, &plain(), &added, 1).unwrap();
    assert_eq!(table.changes_since(&before).len(), 1);
    assert_eq!(delete_host(&mut table, &None, &plain(), ip("10.2.2.2"), "nEW", 2).unwrap(), 1);
    assert!(table.changes_since(&before).is_empty());
    assert_eq!(table.db_generation(), 3);
    assert_eq!(delete_host(&mut table, &None, &plain(), ip("10.2.2.2"), "new", 3).unwrap(), 0);
    assert_eq!(table.db_generation(), 3);
}

#[test]
fn delete_ip_request_counts_live_rows() {
    let mut table = HostTable::new();
    for (host, ttl) in [("a", None), ("b", Some(5)), ("c", Some(50))] {
        let r = request("10.2.2.2", host, ReplaceMode::Neither, ttl);
        add_host(&mut table, &None, &plain(), &r, 0).unwrap();
    }
    let other = request("10.2.2.3", "a", ReplaceMode::Neither, None);
    add_host(&mut table, &None, &plain(), &other, 0).unwrap();
    assert_eq!(table.db_generation(), 4);
    assert_eq!(delete_ip(&mut table, &None, &plain(), ip("10.2.2.2"), 10).unwrap(), 2);
    assert_eq!(table.db_generation(), 6);
    assert_eq!(delete_ip(&mut table, &None, &plain(), ip("10.2.2.2"), 10).unwrap(), 0);
    assert_eq!(table.db_generation(), 6);
    assert_eq!(list_all(&mut table, &None, &plain(), 10).unwrap().len(), 1);
}
