use dnsmasq_agent::config::BasicAuthConfig;
use dnsmasq_agent::export::{
    begin_export, begin_flush, export_completed, export_now, parse_pid, should_log_no_pending,
    temp_path, Export, ExportAction,
};
use dnsmasq_agent::ip::IpAddress;
use dnsmasq_agent::replace_mode::ReplaceMode;
use dnsmasq_agent::requests::RequestHeaders;
use dnsmasq_agent::table::HostTable;

fn plain() -> RequestHeaders {
    RequestHeaders { authorization: None, cookie: None, csrf_token: None }
}

fn one_host() -> HostTable {
    let mut table = HostTable::new();
    table.add(IpAddress::V4(0x0808_0808), "dns.google.com", 0, 0, ReplaceMode::Both);
    table.add(IpAddress::V4(0x0808_0808), "dns1.google.com", 0, 0, ReplaceMode::Neither);
    table
}

/// Carries an export out on a file in memory, and says what was done.
fn carry_out(export: &mut Export, file: &mut Option<Vec<u8>>) -> Vec<ExportAction> {
    let mut done = Vec::new();
    while export.action != ExportAction::Finished {
        done.push(export.action);
        let mut read = None;
        match export.action {
            ExportAction::ReadTarget => read = file.clone(),
            ExportAction::WriteTarget => *file = Some(export.rendered.as_bytes().to_vec()),
            _ => {}
        }
        export.advance(read.as_deref());
    }
    export.advance(None);
    assert_eq!(export.action, ExportAction::Finished);
    done
}

#[test]
fn changed_file_is_written_and_reloaded() {
    for existing in [None, Some(b"old\n".to_vec()), Some(Vec::new())] {
        let mut table = one_host();
        let mut file = existing;
        let mut export = begin_flush(&mut table, 0).unwrap();
        assert_eq!(export.db_generation, 2);
        assert_eq!(
            carry_out(&mut export, &mut file),
            vec![
                ExportAction::WriteTemp,
                ExportAction::ReadTarget,
                ExportAction::WriteTarget,
                ExportAction::RemoveTemp,
                ExportAction::SignalReload,
                ExportAction::RecordGeneration,
            ]
        );
        assert_eq!(file.unwrap(), b"8.8.8.8 dns.google.com dns1.google.com\n".to_vec());
    }
}

#[test]
fn unchanged_file_is_left_alone() {
    let mut table = one_host();
    let mut file = Some(b"8.8.8.8 dns.google.com dns1.google.com\n".to_vec());
    let mut export = begin_flush(&mut table, 0).unwrap();
    assert_eq!(
        carry_out(&mut export, &mut file),
        vec![
            ExportAction::WriteTemp,
            ExportAction::ReadTarget,
            ExportAction::RemoveTemp,
            ExportAction::RecordGeneration,
        ]
    );
}

#[test]
fn forced_export_always_writes_and_reloads() {
    let mut table = one_host();
    table.set_file_generation(2);
    let mut file = Some(b"8.8.8.8 dns.google.com dns1.google.com\n".to_vec());
    let mut export = begin_export(&mut table, 0);
    assert_eq!(
        carry_out(&mut export, &mut file),
        vec![
            ExportAction::WriteTemp,
            ExportAction::WriteTarget,
            ExportAction::RemoveTemp,
            ExportAction::SignalReload,
            ExportAction::RecordGeneration,
        ]
    );
}

#[test]
fn nothing_is_pending_after_an_export() {
    let mut table = one_host();
    let export = begin_flush(&mut table, 0).unwrap();
    table.set_file_generation(export.db_generation);
    assert!(begin_flush(&mut table, 0).is_none());
    table.add(IpAddress::V4(1), "x", 5, 0, ReplaceMode::Both);
    let export = begin_flush(&mut table, 0).unwrap();
    assert_eq!(export.rendered, "0.0.0.1 x\n8.8.8.8 dns.google.com dns1.google.com\n");
    table.set_file_generation(export.db_generation);
    assert!(begin_flush(&mut table, 4).is_none());
    let export = begin_flush(&mut table, 5).unwrap();
    assert_eq!(export.db_generation, 4);
    assert_eq!(export.rendered, "8.8.8.8 dns.google.com dns1.google.com\n");
}

#[test]
fn change_during_an_export_stays_pending() {
    let mut table = one_host();
    let export = begin_flush(&mut table, 0).unwrap();
    table.add(IpAddress::V4(1), "x", 0, 0, ReplaceMode::Both);
    table.set_file_generation(export.db_generation);
    assert!(begin_flush(&mut table, 0).is_some());
}

#[test]
fn export_on_request() {
    let auth = Some(BasicAuthConfig { username: "u".to_string(), password: "p".to_string() });
    let mut table = one_host();
    assert_eq!(export_now(&mut table, &auth, &plain(), 0).err().unwrap().status, 401);
    let forged = RequestHeaders {
        authorization: None,
        cookie: Some("dnsmasq_csrf=a".to_string()),
        csrf_token: Some("b".to_string()),
    };
    assert_eq!(export_now(&mut table, &None, &forged, 0).err().unwrap().status, 403);
    let export = export_now(&mut table, &None, &plain(), 0).unwrap();
    assert!(export.forced);
    assert_eq!(export_completed(), "export completed");
}

#[test]
fn temporary_file_is_beside_the_target() {
    assert_eq!(temp_path("/etc/dnsmasq.hosts"), "/etc/dnsmasq.hosts.tmp");
}

#[test]
fn process_numbers() {
    assert_eq!(parse_pid(" 123\n", "/run/x.pid").unwrap(), 123);
    assert_eq!(parse_pid("-1", "x").unwrap(), -1);
    assert_eq!(parse_pid("2147483647", "x").unwrap(), i32::MAX);
    assert_eq!(parse_pid("-2147483648", "x").unwrap(), i32::MIN);
    for raw in ["", "abc", "2147483648", "-2147483649", "1 2", "--1"] {
        assert_eq!(parse_pid(raw, "/run/x.pid").unwrap_err().message, "invalid pid in /run/x.pid");
    }
}

#[test]
fn idle_is_logged_every_two_days() {
    assert!(should_log_no_pending(None));
    assert!(!should_log_no_pending(Some(0)));
    assert!(!should_log_no_pending(Some(172799)));
    assert!(should_log_no_pending(Some(172800)));
}
