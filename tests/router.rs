use rip_router::config::{Interface, InterfaceWrapper};
use rip_router::net::ipv4;
use rip_router::rip::{build_message, initialize_routes, Router};
use rip_router::routing::{NextHop, Route};
use rip_router::wire::{encode, MalformedDatagram, RipMessage, RouteEntry};

fn iface(device: &str, ip: u32, mask: u8) -> InterfaceWrapper {
    InterfaceWrapper { interface: Interface::new(device.to_string(), ip, mask).unwrap() }
}

fn find(routes: &[Route], network: u32, mask: u8) -> Option<Route> {
    routes.iter().copied().find(|r| r.network == network && r.mask == mask)
}

#[test]
fn two_interfaces_seed_two_direct_routes() {
    let router = Router::new(vec![
        iface("eth0", ipv4(10, 0, 1, 7), 24),
        iface("eth1", ipv4(192, 168, 5, 1), 16),
    ]);
    let routes = router.get_routing_table();
    assert_eq!(routes.len(), 2);
    for r in &routes {
        assert_eq!(r.metric, 1);
        assert_eq!(r.next_hop, NextHop::Direct);
    }
    assert_eq!(routes[0].network, ipv4(10, 0, 1, 0));
    assert_eq!(routes[0].exit_interface, Some(ipv4(10, 0, 1, 7)));
    assert_eq!(routes[1].network, ipv4(192, 168, 0, 0));
    assert_eq!(routes[1].mask, 16);
}

#[test]
fn interfaces_on_one_subnet_seed_one_route() {
    let table = initialize_routes(&[
        iface("eth0", ipv4(10, 0, 1, 7), 24),
        iface("eth1", ipv4(10, 0, 1, 8), 24),
    ]);
    let routes = table.get_routes();
    assert_eq!(routes.len(), 1);
    assert_eq!(routes[0].exit_interface, Some(ipv4(10, 0, 1, 7)));
}

#[test]
fn learned_route_integration() {
    let a = Router::new(vec![
        iface("eth0", ipv4(10, 0, 0, 1), 24),
        iface("eth1", ipv4(10, 0, 2, 1), 24),
    ]);
    let mut b = Router::new(vec![iface("eth0", ipv4(10, 0, 2, 2), 24)]);
    let datagram = a.update_datagram(ipv4(10, 0, 2, 1)).unwrap();
    assert_eq!(b.receive(&datagram), Ok(()));
    let routes = b.get_routing_table();
    assert_eq!(routes.len(), 2);
    let learned = find(&routes, ipv4(10, 0, 0, 0), 24).unwrap();
    assert_eq!(learned.next_hop, NextHop::Via(ipv4(10, 0, 2, 1)));
    assert_eq!(learned.metric, 2);
    assert_eq!(learned.exit_interface, Some(ipv4(10, 0, 2, 2)));
    let direct = find(&routes, ipv4(10, 0, 2, 0), 24).unwrap();
    assert_eq!(direct.next_hop, NextHop::Direct);
    assert_eq!(direct.metric, 1);
}

#[test]
fn single_entry_advertisement_integration() {
    let mut b = Router::new(vec![iface("eth0", ipv4(10, 0, 2, 2), 24)]);
    let msg = RipMessage::new(
        ipv4(10, 0, 2, 1),
        vec![RouteEntry { network: ipv4(10, 0, 0, 0), mask: 24, metric: 1 }],
    );
    assert_eq!(b.receive(&encode(&msg)), Ok(()));
    let learned = find(&b.get_routing_table(), ipv4(10, 0, 0, 0), 24).unwrap();
    assert_eq!(
        learned,
        Route {
            network: ipv4(10, 0, 0, 0),
            mask: 24,
            next_hop: NextHop::Via(ipv4(10, 0, 2, 1)),
            metric: 2,
            exit_interface: Some(ipv4(10, 0, 2, 2)),
        }
    );
}

#[test]
fn unresolved_exit_interface_is_none() {
    let mut b = Router::new(vec![iface("eth0", ipv4(10, 0, 2, 2), 24)]);
    let msg = RipMessage::new(
        ipv4(172, 16, 0, 1),
        vec![RouteEntry { network: ipv4(10, 7, 0, 0), mask: 16, metric: 3 }],
    );
    assert_eq!(b.receive(&encode(&msg)), Ok(()));
    let learned = find(&b.get_routing_table(), ipv4(10, 7, 0, 0), 16).unwrap();
    assert_eq!(learned.metric, 4);
    assert_eq!(learned.exit_interface, None);
}

#[test]
fn metric_255_entry_is_not_learned() {
    let mut b = Router::new(vec![iface("eth0", ipv4(10, 0, 2, 2), 24)]);
    let msg = RipMessage::new(
        ipv4(10, 0, 2, 1),
        vec![
            RouteEntry { network: ipv4(10, 7, 0, 0), mask: 16, metric: 255 },
            RouteEntry { network: ipv4(10, 8, 0, 0), mask: 16, metric: 254 },
        ],
    );
    assert_eq!(b.receive(&encode(&msg)), Ok(()));
    let routes = b.get_routing_table();
    assert_eq!(routes.len(), 2);
    assert!(find(&routes, ipv4(10, 7, 0, 0), 16).is_none());
    assert_eq!(find(&routes, ipv4(10, 8, 0, 0), 16).unwrap().metric, 255);
}

#[test]
fn malformed_datagram_leaves_table_and_loop_usable() {
    let mut b = Router::new(vec![iface("eth0", ipv4(10, 0, 2, 2), 24)]);
    let before = b.get_routing_table();
    assert_eq!(b.receive(&[10, 0, 2]), Err(MalformedDatagram::TooShort));
    assert_eq!(b.receive(&[10, 0, 2, 1, 0, 3, 10, 0, 0, 0, 24, 1]), Err(MalformedDatagram::LengthMismatch));
    assert_eq!(b.receive(&[10, 0, 2, 1, 0, 1, 10, 0, 0, 0, 40, 1]), Err(MalformedDatagram::PrefixTooLong));
    assert_eq!(b.get_routing_table(), before);
    assert_eq!(b.receive(&[10, 0, 2, 1, 0, 1, 10, 0, 0, 0, 24, 1]), Ok(()));
    assert_eq!(b.get_routing_table().len(), 2);
}

#[test]
fn repeated_advertisement_changes_nothing() {
    let mut b = Router::new(vec![iface("eth0", ipv4(10, 0, 2, 2), 24)]);
    let msg = RipMessage::new(
        ipv4(10, 0, 2, 1),
        vec![
            RouteEntry { network: ipv4(10, 0, 0, 0), mask: 24, metric: 1 },
            RouteEntry { network: ipv4(10, 0, 0, 0), mask: 24, metric: 4 },
            RouteEntry { network: ipv4(10, 0, 2, 0), mask: 24, metric: 1 },
        ],
    );
    let bytes = encode(&msg);
    b.receive(&bytes).unwrap();
    let once = b.get_routing_table();
    b.receive(&bytes).unwrap();
    b.receive(&bytes).unwrap();
    assert_eq!(b.get_routing_table(), once);
    assert_eq!(find(&once, ipv4(10, 0, 0, 0), 24).unwrap().metric, 2);
}

#[test]
fn no_replacement_by_equal_metric_from_other_neighbour() {
    let mut b = Router::new(vec![iface("eth0", ipv4(10, 0, 2, 2), 24)]);
    let first = RipMessage::new(
        ipv4(10, 0, 2, 1),
        vec![RouteEntry { network: ipv4(10, 5, 0, 0), mask: 16, metric: 2 }],
    );
    let second = RipMessage::new(
        ipv4(10, 0, 2, 9),
        vec![RouteEntry { network: ipv4(10, 5, 0, 0), mask: 16, metric: 2 }],
    );
    let third = RipMessage::new(
        ipv4(10, 0, 2, 9),
        vec![RouteEntry { network: ipv4(10, 5, 0, 0), mask: 16, metric: 1 }],
    );
    b.receive(&encode(&first)).unwrap();
    b.receive(&encode(&second)).unwrap();
    let r = find(&b.get_routing_table(), ipv4(10, 5, 0, 0), 16).unwrap();
    assert_eq!(r.next_hop, NextHop::Via(ipv4(10, 0, 2, 1)));
    b.receive(&encode(&third)).unwrap();
    let r = find(&b.get_routing_table(), ipv4(10, 5, 0, 0), 16).unwrap();
    assert_eq!(r.next_hop, NextHop::Via(ipv4(10, 0, 2, 9)));
    assert_eq!(r.metric, 2);
}

#[test]
fn build_message_projects_the_table() {
    let table = initialize_routes(&[iface("eth0", ipv4(10, 0, 1, 7), 24)]);
    let msg = build_message(&table, ipv4(10, 0, 1, 7));
    assert_eq!(msg.sender, ipv4(10, 0, 1, 7));
    assert_eq!(msg.routes, vec![RouteEntry { network: ipv4(10, 0, 1, 0), mask: 24, metric: 1 }]);
}

#[test]
fn test_rip_simulation() {
    let mut router1 = Router::new(vec![iface("eth0", ipv4(10, 1, 1, 1), 24)]);
    let mut router2 = Router::new(vec![
        iface("eth0", ipv4(10, 1, 1, 2), 24),
        iface("eth1", ipv4(10, 1, 2, 1), 24),
    ]);
    let mut router3 = Router::new(vec![iface("eth0", ipv4(10, 1, 2, 2), 24)]);

    let ip1_1 = ipv4(10, 1, 1, 1);
    let ip2_1 = ipv4(10, 1, 1, 2);
    let ip2_2 = ipv4(10, 1, 2, 1);
    let ip3_1 = ipv4(10, 1, 2, 2);

    let d = router1.update_datagram(ip1_1).unwrap();
    router2.receive(&d).unwrap();
    let d = router2.update_datagram(ip2_1).unwrap();
    router1.receive(&d).unwrap();
    let d = router3.update_datagram(ip3_1).unwrap();
    router2.receive(&d).unwrap();
    let d = router2.update_datagram(ip2_1).unwrap();
    router1.receive(&d).unwrap();
    let d = router2.update_datagram(ip2_2).unwrap();
    router3.receive(&d).unwrap();

    let t1 = router1.get_routing_table();
    let t2 = router2.get_routing_table();
    let t3 = router3.get_routing_table();
    assert_eq!(t1.len(), 2);
    assert_eq!(t2.len(), 2);
    assert_eq!(t3.len(), 2);
    let r = find(&t1, ipv4(10, 1, 2, 0), 24).unwrap();
    assert_eq!((r.metric, r.next_hop, r.exit_interface), (2, NextHop::Via(ip2_1), Some(ip1_1)));
    let r = find(&t3, ipv4(10, 1, 1, 0), 24).unwrap();
    assert_eq!((r.metric, r.next_hop, r.exit_interface), (2, NextHop::Via(ip2_2), Some(ip3_1)));
}
