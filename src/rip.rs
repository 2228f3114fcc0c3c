//! The router: seeds its table from its interfaces, integrates the
//! advertisements it receives, and produces the advertisement it sends.
//! Sockets and threads stay with the caller, which hands in each received
//! datagram and sends the bytes it gets back.

use vstd::prelude::*;
use crate::config::{all_wf, Interface, InterfaceWrapper};
use crate::net::{get_network, mask_to_ip, prefix_mask};
use crate::routing::{
    holds_key, same_key, keys_unique, lemma_upsert_all_idempotent, upsert_all, NextHop, Route, RoutingTable,
};
use crate::wire::{
    decode, decode_result, encode, encoding, MalformedDatagram, RipMessage, RouteEntry, MAX_RECORDS,
};

verus! {

/// Whether `dest` lies in the subnet of interface `i`.
pub open spec fn on_link(i: Interface, dest: u32) -> bool {
    (i.ip & prefix_mask(i.mask)) == (dest & prefix_mask(i.mask))
}

/// The address of the first interface whose subnet holds `dest`.
pub open spec fn resolve_exit(config: Seq<InterfaceWrapper>, dest: u32) -> Option<u32>
    decreases config.len(),
{
    if config.len() == 0 {
        None
    } else if on_link(config[0].interface, dest) {
        Some(config[0].interface.ip)
    } else {
        resolve_exit(config.drop_first(), dest)
    }
}

/// The route to an interface's own subnet.
pub open spec fn direct_route(i: Interface) -> Route {
    Route {
        network: i.ip & prefix_mask(i.mask),
        mask: i.mask,
        next_hop: NextHop::Direct,
        metric: 1,
        exit_interface: Some(i.ip),
    }
}

pub open spec fn direct_routes(config: Seq<InterfaceWrapper>) -> Seq<Route> {
    config.map_values(|w: InterfaceWrapper| direct_route(w.interface))
}

/// The table a router starts with.
pub open spec fn seeded(config: Seq<InterfaceWrapper>) -> Seq<Route> {
    upsert_all(Seq::empty(), direct_routes(config))
}

/// The route learned from an advertised entry: one hop further, through the
/// sender.
pub open spec fn learned_route(e: RouteEntry, sender: u32, exit: Option<u32>) -> Route {
    Route {
        network: e.network,
        mask: e.mask,
        next_hop: NextHop::Via(sender),
        metric: (e.metric + 1) as u8,
        exit_interface: exit,
    }
}

/// The routes offered to the table for the entries of an advertisement.
/// An entry already at metric 255 yields none: one more hop leaves the range.
pub open spec fn candidates(es: Seq<RouteEntry>, sender: u32, exit: Option<u32>) -> Seq<Route>
    decreases es.len(),
{
    if es.len() == 0 {
        Seq::empty()
    } else if es.last().metric < 255 {
        candidates(es.drop_last(), sender, exit).push(learned_route(es.last(), sender, exit))
    } else {
        candidates(es.drop_last(), sender, exit)
    }
}

/// The table after integrating an advertisement from `sender`.
pub open spec fn integrated(
    s: Seq<Route>,
    config: Seq<InterfaceWrapper>,
    sender: u32,
    es: Seq<RouteEntry>,
) -> Seq<Route> {
    upsert_all(s, candidates(es, sender, resolve_exit(config, sender)))
}

/// The entries a router advertises for its table.
pub open spec fn advertised(s: Seq<Route>) -> Seq<RouteEntry> {
    s.map_values(|r: Route| RouteEntry { network: r.network, mask: r.mask, metric: r.metric })
}

/// The address of the first interface whose subnet holds `dest_ip`, if any.
pub fn get_exit_interface(config: &[InterfaceWrapper], dest_ip: u32) -> (r: Option<u32>)
    requires
        all_wf(config@),
    ensures
        r == resolve_exit(config@, dest_ip),
{
    let n = config.len();
    let mut i: usize = 0;
    assert(config@.subrange(0, n as int) =~= config@);
    while i < n
        invariant
            n == config@.len(),
            i <= n,
            all_wf(config@),
            resolve_exit(config@.subrange(i as int, n as int), dest_ip) == resolve_exit(
                config@,
                dest_ip,
            ),
        decreases n - i,
    {
        let ip = config[i].interface.ip;
        assert(config@[i as int].interface.wf());
        let mask = mask_to_ip(config[i].interface.mask);
        let network = get_network(ip, mask);
        let ghost rest = config@.subrange(i as int, n as int);
        assert(rest[0] == config@[i as int]);
        if network == get_network(dest_ip, mask) {
            return Some(ip);
        }
        assert(rest.drop_first() =~= config@.subrange(i as int + 1, n as int));
        i = i + 1;
    }
    None
}

/// The table holding the direct route of each interface.
pub fn initialize_routes(config: &[InterfaceWrapper]) -> (r: RoutingTable)
    requires
        all_wf(config@),
    ensures
        r.wf(),
        r@ == seeded(config@),
{
    let mut table = RoutingTable::new();
    let n = config.len();
    let mut i: usize = 0;
    while i < n
        invariant
            n == config@.len(),
            i <= n,
            all_wf(config@),
            table.wf(),
            table@ == upsert_all(Seq::empty(), direct_routes(config@).take(i as int)),
        decreases n - i,
    {
        let ip = config[i].interface.ip;
        assert(config@[i as int].interface.wf());
        let mask = mask_to_ip(config[i].interface.mask);
        let network = get_network(ip, mask);
        let route = Route {
            network,
            mask: config[i].interface.mask,
            next_hop: NextHop::Direct,
            metric: 1,
            exit_interface: Some(ip),
        };
        table.update(route);
        proof {
            let t = direct_routes(config@).take(i as int + 1);
            assert(t.drop_last() =~= direct_routes(config@).take(i as int));
            assert(t.last() == route);
        }
        i = i + 1;
    }
    assert(direct_routes(config@).take(n as int) =~= direct_routes(config@));
    table
}

/// Offers the table each route learned from `msg`.
pub fn integrate_message(
    routing_table: &mut RoutingTable,
    msg: &RipMessage,
    config: &[InterfaceWrapper],
)
    requires
        old(routing_table).wf(),
        all_wf(config@),
    ensures
        final(routing_table).wf(),
        final(routing_table)@ == integrated(old(routing_table)@, config@, msg.sender, msg.routes@),
{
    let exit = get_exit_interface(config, msg.sender);
    let n = msg.routes.len();
    let mut i: usize = 0;
    while i < n
        invariant
            n == msg.routes@.len(),
            i <= n,
            routing_table.wf(),
            exit == resolve_exit(config@, msg.sender),
            routing_table@ == upsert_all(
                old(routing_table)@,
                candidates(msg.routes@.take(i as int), msg.sender, exit),
            ),
        decreases n - i,
    {
        let e = msg.routes[i];
        proof {
            let t = msg.routes@.take(i as int + 1);
            assert(t.drop_last() =~= msg.routes@.take(i as int));
            assert(t.last() == e);
        }
        if e.metric < 255 {
            let route = Route {
                network: e.network,
                mask: e.mask,
                next_hop: NextHop::Via(msg.sender),
                metric: e.metric + 1,
                exit_interface: exit,
            };
            routing_table.update(route);
            proof {
                let c = candidates(msg.routes@.take(i as int), msg.sender, exit);
                assert(c.push(route).drop_last() =~= c);
            }
        }
        i = i + 1;
    }
    assert(msg.routes@.take(n as int) =~= msg.routes@);
}

/// Decodes a received datagram and integrates it; a malformed datagram is
/// reported and leaves the table as it was.
pub fn update_routing_table(
    routing_table: &mut RoutingTable,
    data: &[u8],
    config: &[InterfaceWrapper],
) -> (r: Result<(), MalformedDatagram>)
    requires
        old(routing_table).wf(),
        all_wf(config@),
    ensures
        final(routing_table).wf(),
        match decode_result(data@) {
            Ok((sender, es)) => r is Ok && final(routing_table)@ == integrated(
                old(routing_table)@,
                config@,
                sender,
                es,
            ),
            Err(e) => r == Err::<(), MalformedDatagram>(e) && final(routing_table)@ == old(
                routing_table,
            )@,
        },
{
    match decode(data) {
        Ok(msg) => {
            integrate_message(routing_table, &msg, config);
            Ok(())
        },
        Err(e) => Err(e),
    }
}

/// The advertisement of a table from `exit_interface_ip`.
pub fn build_message(routing_table: &RoutingTable, exit_interface_ip: u32) -> (r: RipMessage)
    ensures
        r.sender == exit_interface_ip,
        r.routes@ == advertised(routing_table@),
{
    let routes = routing_table.get_routes();
    let n = routes.len();
    let mut entries: Vec<RouteEntry> = Vec::new();
    let mut i: usize = 0;
    while i < n
        invariant
            n == routes@.len(),
            routes@ == routing_table@,
            i <= n,
            entries@ == advertised(routes@.take(i as int)),
        decreases n - i,
    {
        let r = routes[i];
        entries.push(RouteEntry { network: r.network, mask: r.mask, metric: r.metric });
        assert(entries@ =~= advertised(routes@.take(i as int + 1)));
        i = i + 1;
    }
    assert(routes@.take(n as int) =~= routes@);
    RipMessage::new(exit_interface_ip, entries)
}

/// A router: its interfaces and its routing table.
pub struct Router {
    config: Vec<InterfaceWrapper>,
    routing_table: RoutingTable,
}

impl View for Router {
    type V = Seq<Route>;

    closed spec fn view(&self) -> Seq<Route> {
        self.routing_table@
    }
}

impl Router {
    pub closed spec fn config(&self) -> Seq<InterfaceWrapper> {
        self.config@
    }

    pub closed spec fn wf(&self) -> bool {
        self.routing_table.wf() && all_wf(self.config@)
    }

    /// A router whose table holds the direct route of each interface.
    pub fn new(config: Vec<InterfaceWrapper>) -> (r: Router)
        requires
            all_wf(config@),
        ensures
            r.wf(),
            r.config() == config@,
            r@ == seeded(config@),
    {
        let routing_table = initialize_routes(config.as_slice());
        Router { config, routing_table }
    }

    /// A copy of the routing table.
    pub fn get_routing_table(&self) -> (r: Vec<Route>)
        ensures
            r@ == self@,
    {
        self.routing_table.get_routes()
    }

    /// Handles one received datagram: integrates it when it decodes, and
    /// otherwise reports why and changes nothing.
    pub fn receive(&mut self, data: &[u8]) -> (r: Result<(), MalformedDatagram>)
        requires
            old(self).wf(),
        ensures
            final(self).wf(),
            final(self).config() == old(self).config(),
            match decode_result(data@) {
                Ok((sender, es)) => r is Ok && final(self)@ == integrated(
                    old(self)@,
                    old(self).config(),
                    sender,
                    es,
                ),
                Err(e) => r == Err::<(), MalformedDatagram>(e) && final(self)@ == old(self)@,
            },
    {
        update_routing_table(&mut self.routing_table, data, self.config.as_slice())
    }

    /// The datagram that advertises this router's table from
    /// `exit_interface_ip`; `None` when the table has more routes than one
    /// datagram can count.
    pub fn update_datagram(&self, exit_interface_ip: u32) -> (r: Option<Vec<u8>>)
        ensures
            r is Some <==> self@.len() <= MAX_RECORDS,
            r matches Some(b) ==> b@ == encoding(exit_interface_ip, advertised(self@)),
    {
        if self.routing_table.len() > MAX_RECORDS {
            return None;
        }
        let msg = build_message(&self.routing_table, exit_interface_ip);
        Some(encode(&msg))
    }
}

/// Integrating the same advertisement twice leaves the table as integrating
/// it once did.
pub proof fn lemma_integrate_idempotent(
    s: Seq<Route>,
    config: Seq<InterfaceWrapper>,
    sender: u32,
    es: Seq<RouteEntry>,
)
    requires
        keys_unique(s),
    ensures
        integrated(integrated(s, config, sender, es), config, sender, es) == integrated(
            s,
            config,
            sender,
            es,
        ),
{
    lemma_upsert_all_idempotent(s, candidates(es, sender, resolve_exit(config, sender)));
}

/// A router built from two interfaces on distinct subnets starts with exactly
/// two routes, both direct and at metric 1.
pub proof fn lemma_two_interfaces_seed_two_routes(a: InterfaceWrapper, b: InterfaceWrapper)
    requires
        a.interface.wf(),
        b.interface.wf(),
        (a.interface.ip & prefix_mask(a.interface.mask), a.interface.mask) != (b.interface.ip
            & prefix_mask(b.interface.mask), b.interface.mask),
    ensures
        seeded(seq![a, b]).len() == 2,
        seeded(seq![a, b])[0].metric == 1,
        seeded(seq![a, b])[0].next_hop == NextHop::Direct,
        seeded(seq![a, b])[1].metric == 1,
        seeded(seq![a, b])[1].next_hop == NextHop::Direct,
{
    let ra = direct_route(a.interface);
    let rb = direct_route(b.interface);
    let ds = direct_routes(seq![a, b]);
    assert(ds =~= seq![ra, rb]);
    assert(ds.drop_last() =~= seq![ra]);
    assert(seq![ra].drop_last() =~= Seq::<Route>::empty());
    let e = Seq::<Route>::empty();
    assert(!holds_key(e, ra.network, ra.mask));
    let one = seq![ra];
    assert(one.drop_last() =~= e);
    assert(upsert_all(e, e) == e);
    assert(one.last() == ra);
    assert(upsert_all(e, one) == e.push(ra));
    assert(e.push(ra) =~= one);
    assert(!holds_key(one, rb.network, rb.mask)) by {
        if holds_key(one, rb.network, rb.mask) {
            let k = choose|k: int| 0 <= k < 1 && #[trigger] same_key(one[k], rb.network, rb.mask);
            assert(one[k] == ra);
        }
    }
    assert(seeded(seq![a, b]) == seq![ra].push(rb));
}

} // verus!
