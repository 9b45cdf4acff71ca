use clash_verge_service::install::{
    install_should_start, install_step_for_status, uninstall_should_stop, InstallStep,
    ServiceRunState,
};
use clash_verge_service::route::{
    interface_for_local_ip, socket_address, IpAddress, NetworkInterface, SocketAddress,
};

fn iface(name: &str, addresses: Vec<Option<SocketAddress>>) -> NetworkInterface {
    NetworkInterface { name: name.to_string(), addresses }
}

#[test]
fn socket_address_of_ip() {
    assert_eq!(
        socket_address(IpAddress::V4(0xc0a8_0102), 0),
        SocketAddress::V4 { ip: 0xc0a8_0102, port: 0 }
    );
    assert_eq!(
        socket_address(IpAddress::V6(1), 80),
        SocketAddress::V6 { ip6: 1, port: 80, flowinfo: 0, scope_id: 0 }
    );
}

#[test]
fn finds_interface_holding_local_address() {
    let ifs = vec![
        iface("lo0", vec![Some(SocketAddress::V4 { ip: 0x7f00_0001, port: 0 })]),
        iface("en0", vec![None, Some(SocketAddress::V4 { ip: 0xc0a8_0102, port: 0 })]),
        iface("en1", vec![Some(SocketAddress::V4 { ip: 0xc0a8_0102, port: 0 })]),
    ];
    assert_eq!(interface_for_local_ip(&ifs, IpAddress::V4(0xc0a8_0102)), Some("en0".to_string()));
    assert_eq!(interface_for_local_ip(&ifs, IpAddress::V4(0x0a00_0001)), None);
}

#[test]
fn address_must_match_exactly() {
    let ifs = vec![
        iface("en0", vec![Some(SocketAddress::V4 { ip: 0xc0a8_0102, port: 53 })]),
        iface("en1", vec![Some(SocketAddress::V6 { ip6: 0xfe80, port: 0, flowinfo: 0, scope_id: 4 })]),
        iface("en2", vec![Some(SocketAddress::V6 { ip6: 0xfe80, port: 0, flowinfo: 0, scope_id: 0 })]),
    ];
    assert_eq!(interface_for_local_ip(&ifs, IpAddress::V4(0xc0a8_0102)), None);
    assert_eq!(interface_for_local_ip(&ifs, IpAddress::V6(0xfe80)), Some("en2".to_string()));
    assert_eq!(interface_for_local_ip(&vec![], IpAddress::V6(0xfe80)), None);
}

#[test]
fn linux_install_steps() {
    assert_eq!(install_step_for_status(Some(0)), InstallStep::Done);
    assert_eq!(install_step_for_status(Some(1)), InstallStep::StartUnit);
    assert_eq!(install_step_for_status(Some(2)), InstallStep::StartUnit);
    assert_eq!(install_step_for_status(Some(3)), InstallStep::StartUnit);
    assert_eq!(install_step_for_status(Some(4)), InstallStep::WriteUnit);
}

#[test]
fn windows_service_decisions() {
    for s in [ServiceRunState::Stopped, ServiceRunState::StopPending, ServiceRunState::Paused, ServiceRunState::PausePending] {
        assert!(install_should_start(s));
    }
    for s in [ServiceRunState::Running, ServiceRunState::StartPending, ServiceRunState::ContinuePending] {
        assert!(!install_should_start(s));
    }
    assert!(!uninstall_should_stop(ServiceRunState::Stopped));
    for s in [ServiceRunState::StartPending, ServiceRunState::StopPending, ServiceRunState::Running, ServiceRunState::ContinuePending, ServiceRunState::PausePending, ServiceRunState::Paused] {
        assert!(uninstall_should_stop(s));
    }
}
