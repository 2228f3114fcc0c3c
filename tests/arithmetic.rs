use rip_router::config::{Interface, InterfaceWrapper};
use rip_router::net::{get_network, ipv4, mask_to_ip, same_subnet};
use rip_router::rip::get_exit_interface;

fn iface(device: &str, ip: u32, mask: u8) -> InterfaceWrapper {
    InterfaceWrapper { interface: Interface::new(device.to_string(), ip, mask).unwrap() }
}

#[test]
fn network_of_slash_24() {
    assert_eq!(get_network(ipv4(192, 168, 1, 45), mask_to_ip(24)), ipv4(192, 168, 1, 0));
}

#[test]
fn mask_extremes() {
    assert_eq!(mask_to_ip(0), 0);
    assert_eq!(mask_to_ip(32), 0xFFFF_FFFF);
    assert_eq!(mask_to_ip(32), ipv4(255, 255, 255, 255));
}

#[test]
fn mask_middle_values() {
    assert_eq!(mask_to_ip(24), ipv4(255, 255, 255, 0));
    assert_eq!(mask_to_ip(1), ipv4(128, 0, 0, 0));
    assert_eq!(mask_to_ip(20), ipv4(255, 255, 240, 0));
}

#[test]
fn ipv4_octet_order() {
    assert_eq!(ipv4(10, 1, 2, 3), 0x0A01_0203);
}

#[test]
fn subnet_membership() {
    assert!(same_subnet(ipv4(10, 0, 2, 1), ipv4(10, 0, 2, 200), mask_to_ip(24)));
    assert!(!same_subnet(ipv4(10, 0, 2, 1), ipv4(10, 0, 3, 1), mask_to_ip(24)));
    assert!(same_subnet(ipv4(10, 0, 2, 1), ipv4(10, 0, 3, 1), mask_to_ip(16)));
}

#[test]
fn exit_interface_is_first_match() {
    let config = vec![
        iface("eth0", ipv4(192, 168, 0, 1), 24),
        iface("eth1", ipv4(10, 0, 2, 2), 24),
        iface("eth2", ipv4(10, 0, 2, 3), 16),
    ];
    assert_eq!(get_exit_interface(&config, ipv4(10, 0, 2, 1)), Some(ipv4(10, 0, 2, 2)));
    assert_eq!(get_exit_interface(&config, ipv4(10, 0, 9, 1)), Some(ipv4(10, 0, 2, 3)));
    assert_eq!(get_exit_interface(&config, ipv4(172, 16, 0, 1)), None);
}

#[test]
fn interface_prefix_over_32_is_rejected() {
    assert!(Interface::new("eth0".to_string(), ipv4(10, 0, 0, 1), 33).is_none());
    assert!(Interface::new("eth0".to_string(), ipv4(10, 0, 0, 1), 32).is_some());
}
