use clash_verge_service::error::ServiceError;
use clash_verge_service::version::get_version;
use clash_verge_service::clash::{
    clash_launch_args, clash_process_name, get_clash, ClashStatus, StartBody,
};
use clash_verge_service::dns::{
    get_dns_servers_args, proxy_dns_servers, set_dns, set_dns_servers_args, unset_dns, DNSStatus,
};

fn body() -> StartBody {
    StartBody {
        bin_path: "/usr/bin/verge-mihomo".to_string(),
        config_dir: "/tmp/clash".to_string(),
        config_file: "/tmp/clash/config.yaml".to_string(),
        log_file: "/tmp/clash/service.log".to_string(),
    }
}

#[test]
fn no_core_before_start() {
    let status = ClashStatus::new();
    assert!(matches!(get_clash(&status), Err(ServiceError::ClashNotExecuted)));
    let status = ClashStatus::default();
    assert!(status.info.is_none());
}

#[test]
fn started_core_is_reported() {
    let mut status = ClashStatus::new();
    let plan = status.begin_start(&body());
    assert_eq!(plan.kill_process, "verge-mihomo");
    assert_eq!(plan.program, "/usr/bin/verge-mihomo");
    assert_eq!(plan.args, vec!["-d", "/tmp/clash", "-f", "/tmp/clash/config.yaml"]);
    assert_eq!(plan.log_file, "/tmp/clash/service.log");
    assert!(matches!(get_clash(&status), Err(ServiceError::ClashNotExecuted)));
    status.finish_start(body(), true);
    let got = get_clash(&status).ok().unwrap();
    assert_eq!(got.bin_path, "/usr/bin/verge-mihomo");
    assert_eq!(got.config_dir, "/tmp/clash");
    assert_eq!(got.config_file, "/tmp/clash/config.yaml");
    assert_eq!(got.log_file, "/tmp/clash/service.log");
}

#[test]
fn failed_start_leaves_no_core() {
    let mut status = ClashStatus::new();
    status.finish_start(body(), true);
    let _ = status.begin_start(&body());
    status.finish_start(body(), false);
    assert!(matches!(get_clash(&status), Err(ServiceError::ClashNotExecuted)));
}

#[test]
fn stopped_core_is_not_reported() {
    let mut status = ClashStatus::new();
    status.finish_start(body(), true);
    assert_eq!(status.stop(), "verge-mihomo");
    assert!(matches!(get_clash(&status), Err(ServiceError::ClashNotExecuted)));
}

#[test]
fn restart_replaces_previous_body() {
    let mut status = ClashStatus::new();
    status.finish_start(body(), true);
    let mut other = body();
    other.config_file = "/etc/other.yaml".to_string();
    let _ = status.begin_start(&other);
    status.finish_start(other, true);
    assert_eq!(get_clash(&status).ok().unwrap().config_file, "/etc/other.yaml");
}

#[test]
fn launch_arguments() {
    assert_eq!(
        clash_launch_args(&body()),
        vec!["-d", "/tmp/clash", "-f", "/tmp/clash/config.yaml"]
    );
    assert_eq!(clash_process_name(), "verge-mihomo");
}

fn strings(v: &[&str]) -> Vec<String> {
    v.iter().map(|s| s.to_string()).collect()
}

#[test]
fn set_dns_records_one_server_as_read() {
    let mut status = DNSStatus::new();
    assert_eq!(set_dns(&mut status, b"192.168.100.200\n".to_vec()), Ok(()));
    assert_eq!(status.dns.as_deref(), Some("192.168.100.200\n"));
    assert_eq!(unset_dns(&status), Some(strings(&["192.168.100.200\n"])));
}

#[test]
fn set_dns_records_several_servers() {
    let mut status = DNSStatus::new();
    let out = "1.1.1.1\n 2606:4700:4700::1111 \n\n8.8.8.8\n";
    assert_eq!(set_dns(&mut status, out.as_bytes().to_vec()), Ok(()));
    assert_eq!(status.dns.as_deref(), Some(out));
    let servers = strings(&["1.1.1.1", "2606:4700:4700::1111", "8.8.8.8"]);
    assert_eq!(unset_dns(&status), Some(servers.clone()));
    let mut expected = strings(&["-setdnsservers", "Wi-Fi"]);
    expected.extend(servers);
    assert_eq!(set_dns_servers_args("Wi-Fi", &unset_dns(&status).unwrap()), expected);
}

#[test]
fn set_dns_short_pair_restored_one_by_one() {
    let mut status = DNSStatus::new();
    // Fifteen bytes once trimmed: kept as read, restored server by server.
    assert_eq!(set_dns(&mut status, b"1.1.1.1\n8.8.8.8\n".to_vec()), Ok(()));
    assert_eq!(status.dns.as_deref(), Some("1.1.1.1\n8.8.8.8\n"));
    assert_eq!(unset_dns(&status), Some(strings(&["1.1.1.1", "8.8.8.8"])));
}

#[test]
fn set_dns_long_ipv6_server_kept() {
    let mut status = DNSStatus::new();
    let out = "2001:4860:4860::8888\n";
    assert_eq!(set_dns(&mut status, out.as_bytes().to_vec()), Ok(()));
    assert_eq!(status.dns.as_deref(), Some(out));
    assert_eq!(unset_dns(&status), Some(strings(&[out])));
}

#[test]
fn set_dns_records_marker_when_none_set() {
    let mut status = DNSStatus::default();
    let out = b"There aren't any DNS Servers set on Wi-Fi.\n".to_vec();
    assert_eq!(set_dns(&mut status, out), Ok(()));
    assert_eq!(status.dns.as_deref(), Some("Empty"));
    assert_eq!(unset_dns(&status), Some(strings(&["Empty"])));
}

#[test]
fn set_dns_short_sentence_kept_as_read() {
    let mut status = DNSStatus::new();
    // Fifteen bytes at most: kept as read even though it is not an address.
    assert_eq!(set_dns(&mut status, "  no servers \n".as_bytes().to_vec()), Ok(()));
    assert_eq!(status.dns.as_deref(), Some("  no servers \n"));
    assert_eq!(unset_dns(&status), Some(strings(&["  no servers \n"])));
}

#[test]
fn set_dns_length_counts_utf8_bytes() {
    let mut status = DNSStatus::new();
    // Nine characters but eighteen bytes, and two words: replaced.
    assert_eq!(set_dns(&mut status, "éééé ééééé".as_bytes().to_vec()), Ok(()));
    assert_eq!(status.dns.as_deref(), Some("Empty"));
    // Seven two-byte characters in two words are fourteen bytes: kept.
    assert_eq!(set_dns(&mut status, "ééé éééé".as_bytes().to_vec()), Ok(()));
    assert_eq!(status.dns.as_deref(), Some("ééé éééé"));
}

#[test]
fn set_dns_whitespace_output_kept_and_sent_back() {
    let mut status = DNSStatus::new();
    assert_eq!(set_dns(&mut status, Vec::new()), Ok(()));
    assert_eq!(status.dns.as_deref(), Some(""));
    assert_eq!(unset_dns(&status), None);
    assert_eq!(set_dns(&mut status, b" \n\t\n".to_vec()), Ok(()));
    assert_eq!(status.dns.as_deref(), Some(" \n\t\n"));
    assert_eq!(unset_dns(&status), Some(strings(&[" \n\t\n"])));
}

#[test]
fn set_dns_invalid_utf8_changes_nothing() {
    let mut status = DNSStatus::new();
    assert_eq!(set_dns(&mut status, b"9.9.9.9".to_vec()), Ok(()));
    assert_eq!(
        set_dns(&mut status, vec![b'1', 0x80]),
        Err(ServiceError::InvalidUtf8 { valid_up_to: 1, error_len: Some(1) })
    );
    assert_eq!(status.dns.as_deref(), Some("9.9.9.9"));
}

#[test]
fn unset_without_set_restores_nothing() {
    assert_eq!(unset_dns(&DNSStatus::new()), None);
}

#[test]
fn dns_command_arguments() {
    assert_eq!(proxy_dns_servers(), strings(&["223.5.5.5"]));
    assert_eq!(get_dns_servers_args("Wi-Fi"), vec!["-getdnsservers", "Wi-Fi"]);
    assert_eq!(
        set_dns_servers_args("Wi-Fi", &proxy_dns_servers()),
        vec!["-setdnsservers", "Wi-Fi", "223.5.5.5"]
    );
}

#[test]
fn version_map() {
    let map = get_version("1.2.3").ok().unwrap();
    assert_eq!(map.len(), 2);
    assert_eq!(map.get("service").map(|s| s.as_str()), Some("Clash Verge Legacy Service"));
    assert_eq!(map.get("version").map(|s| s.as_str()), Some("1.2.3"));
    assert!(map.get("other").is_none());
}
