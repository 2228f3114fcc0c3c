//! The routing table: at most one route per (network, prefix length) key,
//! updated by the distance-vector rule "keep the strictly shorter path".

use vstd::prelude::*;

verus! {

/// How a destination is reached: on a directly attached link, or through a
/// neighbouring router.
#[derive(Clone, Copy, Debug, PartialEq, Eq)]
pub enum NextHop {
    Direct,
    Via(u32),
}

/// One destination network with its hop count and the way out.
/// `mask` is the prefix length; `exit_interface` is the address of the
/// local interface that reaches it, `None` where it could not be resolved.
#[derive(Clone, Copy, Debug, PartialEq, Eq)]
pub struct Route {
    pub network: u32,
    pub mask: u8,
    pub next_hop: NextHop,
    pub metric: u8,
    pub exit_interface: Option<u32>,
}

pub open spec fn same_key(r: Route, network: u32, mask: u8) -> bool {
    r.network == network && r.mask == mask
}

/// No two routes of the sequence share a (network, prefix length) key.
pub open spec fn keys_unique(s: Seq<Route>) -> bool {
    forall|i: int, j: int|
        0 <= i < s.len() && 0 <= j < s.len() && i != j ==> !same_key(
            #[trigger] s[i],
            (#[trigger] s[j]).network,
            s[j].mask,
        )
}

pub open spec fn holds_key(s: Seq<Route>, network: u32, mask: u8) -> bool {
    exists|i: int| 0 <= i < s.len() && #[trigger] same_key(s[i], network, mask)
}

/// Where the route with this key stands (meaningful when `holds_key`).
pub open spec fn index_of(s: Seq<Route>, network: u32, mask: u8) -> int {
    choose|i: int| 0 <= i < s.len() && #[trigger] same_key(s[i], network, mask)
}

/// The table after offering `c`: inserted when its key is new; put in place
/// of the stored route when its metric is strictly smaller; otherwise the
/// table is left as it was.
pub open spec fn upsert_spec(s: Seq<Route>, c: Route) -> Seq<Route> {
    if holds_key(s, c.network, c.mask) {
        let i = index_of(s, c.network, c.mask);
        if c.metric < s[i].metric {
            s.update(i, c)
        } else {
            s
        }
    } else {
        s.push(c)
    }
}

/// The table after offering each route of `cs`, first to last.
pub open spec fn upsert_all(s: Seq<Route>, cs: Seq<Route>) -> Seq<Route>
    decreases cs.len(),
{
    if cs.len() == 0 {
        s
    } else {
        upsert_spec(upsert_all(s, cs.drop_last()), cs.last())
    }
}

/// The table holds `c`'s key with a metric no larger than `c`'s.
pub open spec fn covers(s: Seq<Route>, c: Route) -> bool {
    exists|i: int|
        0 <= i < s.len() && #[trigger] same_key(s[i], c.network, c.mask) && s[i].metric <= c.metric
}

/// The routing table of one router.
#[derive(Debug)]
pub struct RoutingTable {
    routes: Vec<Route>,
}

impl View for RoutingTable {
    type V = Seq<Route>;

    closed spec fn view(&self) -> Seq<Route> {
        self.routes@
    }
}

impl RoutingTable {
    pub open spec fn wf(&self) -> bool {
        keys_unique(self@)
    }

    /// An empty table.
    pub fn new() -> (r: RoutingTable)
        ensures
            r@ == Seq::<Route>::empty(),
            r.wf(),
    {
        RoutingTable { routes: Vec::new() }
    }

    /// Offers `route` to the table (see `upsert_spec`).
    pub fn update(&mut self, route: Route)
        requires
            old(self).wf(),
        ensures
            final(self)@ == upsert_spec(old(self)@, route),
            final(self).wf(),
    {
        proof {
            lemma_upsert_keeps_keys_unique(self@, route);
        }
        let n = self.routes.len();
        let mut i: usize = 0;
        while i < n
            invariant
                n == self.routes.len(),
                self@ == old(self)@,
                keys_unique(self@),
                i <= n,
                forall|j: int| 0 <= j < i ==> !(#[trigger] same_key(self.routes@[j], route.network, route.mask)),
            decreases n - i,
        {
            let r = self.routes[i];
            if r.network == route.network && r.mask == route.mask {
                proof {
                    lemma_index_of_unique(self@, i as int);
                }
                if route.metric < r.metric {
                    self.routes.set(i, route);
                }
                return;
            }
            i = i + 1;
        }
        self.routes.push(route);
    }

    /// A copy of every route, in the table's order.
    pub fn get_routes(&self) -> (r: Vec<Route>)
        ensures
            r@ == self@,
    {
        self.routes.clone()
    }

    /// The number of routes held.
    pub fn len(&self) -> (r: usize)
        ensures
            r == self@.len(),
    {
        self.routes.len()
    }
}

/// In a table with unique keys, the route at `i` is the one its key finds.
pub proof fn lemma_index_of_unique(s: Seq<Route>, i: int)
    requires
        keys_unique(s),
        0 <= i < s.len(),
    ensures
        holds_key(s, s[i].network, s[i].mask),
        index_of(s, s[i].network, s[i].mask) == i,
{
    assert(same_key(s[i], s[i].network, s[i].mask));
    let k = index_of(s, s[i].network, s[i].mask);
    assert(same_key(s[k], s[i].network, s[i].mask));
}

/// Offering a route never creates a second route for one key.
pub proof fn lemma_upsert_keeps_keys_unique(s: Seq<Route>, c: Route)
    requires
        keys_unique(s),
    ensures
        keys_unique(upsert_spec(s, c)),
{
    let u = upsert_spec(s, c);
    if holds_key(s, c.network, c.mask) {
        let k = index_of(s, c.network, c.mask);
        assert forall|i: int, j: int|
            0 <= i < u.len() && 0 <= j < u.len() && i != j implies !same_key(
            #[trigger] u[i],
            (#[trigger] u[j]).network,
            u[j].mask,
        ) by {
            assert(same_key(s[k], c.network, c.mask));
        }
    } else {
        assert forall|i: int, j: int|
            0 <= i < u.len() && 0 <= j < u.len() && i != j implies !same_key(
            #[trigger] u[i],
            (#[trigger] u[j]).network,
            u[j].mask,
        ) by {
            if i < s.len() && j == s.len() {
                assert(!same_key(s[i], c.network, c.mask));
            } else if j < s.len() && i == s.len() {
                assert(!same_key(s[j], c.network, c.mask));
            }
        }
    }
}

/// After any sequence of offers the table still holds at most one route per
/// (network, prefix length) key.
pub proof fn lemma_upsert_all_keeps_keys_unique(s: Seq<Route>, cs: Seq<Route>)
    requires
        keys_unique(s),
    ensures
        keys_unique(upsert_all(s, cs)),
    decreases cs.len(),
{
    if cs.len() > 0 {
        lemma_upsert_all_keeps_keys_unique(s, cs.drop_last());
        lemma_upsert_keeps_keys_unique(upsert_all(s, cs.drop_last()), cs.last());
    }
}

/// A stored route is replaced by an offer for its key exactly when the offer's
/// metric is strictly smaller; an equal or larger metric leaves the table
/// unchanged.
pub proof fn lemma_replaces_iff_better(s: Seq<Route>, c: Route, i: int)
    requires
        keys_unique(s),
        0 <= i < s.len(),
        same_key(s[i], c.network, c.mask),
    ensures
        c.metric < s[i].metric ==> upsert_spec(s, c) == s.update(i, c),
        c.metric >= s[i].metric ==> upsert_spec(s, c) == s,
{
    lemma_index_of_unique(s, i);
}

/// An offer whose key is new is appended to the table.
pub proof fn lemma_new_key_inserted(s: Seq<Route>, c: Route)
    requires
        !holds_key(s, c.network, c.mask),
    ensures
        upsert_spec(s, c) == s.push(c),
{
}

/// An offer that a stored route already matches or beats changes nothing.
pub proof fn lemma_covered_unchanged(s: Seq<Route>, c: Route)
    requires
        keys_unique(s),
        covers(s, c),
    ensures
        upsert_spec(s, c) == s,
{
    let i = choose|i: int|
        0 <= i < s.len() && #[trigger] same_key(s[i], c.network, c.mask) && s[i].metric <= c.metric;
    lemma_replaces_iff_better(s, c, i);
}

/// After an offer, its key is held at a metric no larger than its own, and
/// every key that was held is still held at no larger a metric.
pub proof fn lemma_upsert_covers(s: Seq<Route>, c: Route)
    requires
        keys_unique(s),
    ensures
        covers(upsert_spec(s, c), c),
        forall|d: Route| covers(s, d) ==> #[trigger] covers(upsert_spec(s, c), d),
{
    let u = upsert_spec(s, c);
    if holds_key(s, c.network, c.mask) {
        let k = index_of(s, c.network, c.mask);
        assert(same_key(s[k], c.network, c.mask));
        if c.metric < s[k].metric {
            assert(same_key(u[k], c.network, c.mask));
        } else {
            assert(same_key(u[k], c.network, c.mask) && u[k].metric <= c.metric);
        }
        assert forall|d: Route| covers(s, d) implies #[trigger] covers(u, d) by {
            let i = choose|i: int|
                0 <= i < s.len() && #[trigger] same_key(s[i], d.network, d.mask) && s[i].metric
                    <= d.metric;
            if i == k {
                assert(same_key(u[k], d.network, d.mask));
            } else {
                assert(same_key(u[i], d.network, d.mask));
            }
        }
    } else {
        assert(same_key(u[s.len() as int], c.network, c.mask));
        assert forall|d: Route| covers(s, d) implies #[trigger] covers(u, d) by {
            let i = choose|i: int|
                0 <= i < s.len() && #[trigger] same_key(s[i], d.network, d.mask) && s[i].metric
                    <= d.metric;
            assert(same_key(u[i], d.network, d.mask));
        }
    }
}

/// After offering every route of `cs`, each of them is covered.
pub proof fn lemma_upsert_all_covers(s: Seq<Route>, cs: Seq<Route>)
    requires
        keys_unique(s),
    ensures
        forall|j: int| 0 <= j < cs.len() ==> covers(upsert_all(s, cs), #[trigger] cs[j]),
    decreases cs.len(),
{
    if cs.len() > 0 {
        let p = cs.drop_last();
        lemma_upsert_all_covers(s, p);
        lemma_upsert_all_keeps_keys_unique(s, p);
        lemma_upsert_covers(upsert_all(s, p), cs.last());
        assert forall|j: int| 0 <= j < cs.len() implies covers(upsert_all(s, cs), #[trigger] cs[j]) by {
            if j < cs.len() - 1 {
                assert(cs[j] == p[j]);
            }
        }
    }
}

/// Offering routes that are all already covered changes nothing.
pub proof fn lemma_upsert_all_covered_unchanged(s: Seq<Route>, cs: Seq<Route>)
    requires
        keys_unique(s),
        forall|j: int| 0 <= j < cs.len() ==> covers(s, #[trigger] cs[j]),
    ensures
        upsert_all(s, cs) == s,
    decreases cs.len(),
{
    if cs.len() > 0 {
        let p = cs.drop_last();
        assert forall|j: int| 0 <= j < p.len() implies covers(s, #[trigger] p[j]) by {
            assert(p[j] == cs[j]);
        }
        lemma_upsert_all_covered_unchanged(s, p);
        lemma_covered_unchanged(s, cs.last());
    }
}

/// Offering the same routes a second time leaves the table as the first
/// pass left it.
pub proof fn lemma_upsert_all_idempotent(s: Seq<Route>, cs: Seq<Route>)
    requires
        keys_unique(s),
    ensures
        upsert_all(upsert_all(s, cs), cs) == upsert_all(s, cs),
{
    lemma_upsert_all_covers(s, cs);
    lemma_upsert_all_keeps_keys_unique(s, cs);
    lemma_upsert_all_covered_unchanged(upsert_all(s, cs), cs);
}

/// A key held at metric `d.metric` or less stays so held after any sequence
/// of offers: an installed route is never replaced by one with an equal or
/// larger metric.
pub proof fn lemma_upsert_all_never_worse(s: Seq<Route>, cs: Seq<Route>, d: Route)
    requires
        keys_unique(s),
        covers(s, d),
    ensures
        covers(upsert_all(s, cs), d),
    decreases cs.len(),
{
    if cs.len() > 0 {
        lemma_upsert_all_never_worse(s, cs.drop_last(), d);
        lemma_upsert_all_keeps_keys_unique(s, cs.drop_last());
        lemma_upsert_covers(upsert_all(s, cs.drop_last()), cs.last());
    }
}

} // verus!
