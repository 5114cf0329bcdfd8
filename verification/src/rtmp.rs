//! Listening to the routers of a cable.
//!
//! Every router broadcasts what it can reach. From such a broadcast follow the
//! range of our own cable, a router to send to, and the routes behind it.
//! Nothing is ever sent in reply.

use crate::addr::{deduped, push_new, AppleTalkAddress};
use crate::route_table::{
    disjoint, first_local, inserted, law_told_network_is_found, law_untold_routes_stay, learned, learned_changes,
    learned_entry, lemma_filter_sorted, lemma_partition_bounds, live_hops, local_is, local_set, not_exactly, partition,
    sorted, without_overlap, without_range, CableRange, DefaultRouter, DispatchView, Interface, LearningMode, NextHop,
    RouteChange, RouteModel, RouteTable, RtmpEntry, ZoneView, RTMP_ROUTE_TTL,
};
use crate::seqs::lemma_filter_contains;
use vstd::prelude::*;

verus! {

/// Distance at which a tuple means that a route is gone.
pub const RTMP_DISTANCE_UNREACHABLE: u8 = 31;

/// A route that a router advertises, with its distance from that router.
#[derive(Debug, Clone, Copy, PartialEq, Eq, Structural)]
pub enum RtmpTuple {
    NonExtended { network: u16, distance: u8 },
    Extended { range_start: u16, distance: u8, range_end: u16 },
}

/// A broadcast of a router.
#[derive(Debug)]
pub struct RtmpDataPacket {
    /// The network number of the cable that the router sends on, or zero.
    pub router_network: u16,
    pub tuples: Vec<RtmpTuple>,
}

impl RtmpTuple {
    /// The networks that the tuple speaks of.
    pub open spec fn range(self) -> CableRange {
        match self {
            RtmpTuple::NonExtended { network, .. } => (network, network),
            RtmpTuple::Extended { range_start, range_end, .. } => (range_start, range_end),
        }
    }

    /// How far they are from the router.
    pub open spec fn hops(self) -> u8 {
        match self {
            RtmpTuple::NonExtended { distance, .. } => distance,
            RtmpTuple::Extended { distance, .. } => distance,
        }
    }
}

/// The range of the cable that a broadcast arrives on.
pub open spec fn cable_range(iface: Interface, router_network: u16, tuples: Seq<RtmpTuple>) -> Option<CableRange> {
    if iface == Interface::EtherTalk && tuples.len() > 0 && tuples[0] is Extended && tuples[0].hops() == 0 {
        if tuples[0].range().0 != 0 {
            Some(tuples[0].range())
        } else {
            None
        }
    } else if router_network != 0 {
        Some((router_network, router_network))
    } else {
        None
    }
}

/// The range of the cable that a broadcast arrives on: the first tuple on an
/// extended network, the network number of the header on any other; `None`
/// where the router does not know it yet.
pub fn local_cable_range(iface: Interface, data: &RtmpDataPacket) -> (r: Option<CableRange>)
    ensures
        r == cable_range(iface, data.router_network, data.tuples@),
{
    if iface == Interface::EtherTalk && data.tuples.len() > 0 {
        if let RtmpTuple::Extended { range_start, distance, range_end } = data.tuples[0] {
            if distance == 0 {
                return if range_start != 0 {
                    Some((range_start, range_end))
                } else {
                    None
                };
            }
        }
    }
    if data.router_network != 0 {
        Some((data.router_network, data.router_network))
    } else {
        None
    }
}

/// The routes among the first `n` tuples, with their distance from us.
pub open spec fn routes_in(tuples: Seq<RtmpTuple>, n: nat) -> Seq<(u16, u16, u8)>
    decreases n,
{
    if n == 0 {
        Seq::empty()
    } else {
        let before = routes_in(tuples, (n - 1) as nat);
        let t = tuples[n - 1];
        if t.hops() >= RTMP_DISTANCE_UNREACHABLE {
            before
        } else {
            before.push((t.range().0, t.range().1, (t.hops() + 1) as u8))
        }
    }
}

/// The ranges among the first `n` tuples that are no longer reached.
pub open spec fn poisoned_in(tuples: Seq<RtmpTuple>, n: nat) -> Seq<(u16, u16)>
    decreases n,
{
    if n == 0 {
        Seq::empty()
    } else {
        let before = poisoned_in(tuples, (n - 1) as nat);
        let t = tuples[n - 1];
        if t.hops() >= RTMP_DISTANCE_UNREACHABLE {
            before.push(t.range())
        } else {
            before
        }
    }
}

/// Parts the tuples of a broadcast into routes, with their distance from us,
/// and ranges that are no longer reached.
pub fn tuples_for_route_table(data: &RtmpDataPacket) -> (r: (Vec<(u16, u16, u8)>, Vec<(u16, u16)>))
    ensures
        r.0@ == routes_in(data.tuples@, data.tuples@.len()),
        r.1@ == poisoned_in(data.tuples@, data.tuples@.len()),
{
    let mut routes: Vec<(u16, u16, u8)> = Vec::new();
    let mut poisoned: Vec<(u16, u16)> = Vec::new();
    let mut i: usize = 0;
    while i < data.tuples.len()
        invariant
            i <= data.tuples@.len(),
            routes@ == routes_in(data.tuples@, i as nat),
            poisoned@ == poisoned_in(data.tuples@, i as nat),
        decreases data.tuples@.len() - i,
    {
        let (lo, hi, distance) = match data.tuples[i] {
            RtmpTuple::NonExtended { network, distance } => (network, network, distance),
            RtmpTuple::Extended { range_start, distance, range_end } => (range_start, range_end, distance),
        };
        if distance >= RTMP_DISTANCE_UNREACHABLE {
            poisoned.push((lo, hi));
        } else {
            routes.push((lo, hi, distance + 1));
        }
        i += 1;
    }
    (routes, poisoned)
}

/// The entries without the first `n` ranges.
pub open spec fn withdrawn(entries: Seq<RtmpEntry>, ranges: Seq<(u16, u16)>, n: nat) -> Seq<RtmpEntry>
    decreases n,
{
    if n == 0 {
        entries
    } else {
        without_range(withdrawn(entries, ranges, (n - 1) as nat), ranges[n - 1].0, ranges[n - 1].1)
    }
}

/// The changes that taking out routes brings.
pub open spec fn withdrawals(ranges: Seq<(u16, u16)>) -> Seq<RouteChange> {
    Seq::new(ranges.len(), |i: int| RouteChange::RemoveRoute { lo: ranges[i].0, hi: ranges[i].1 })
}

/// The router that a broadcast comes from. A sender without a network number
/// has that of the cable.
pub open spec fn router_of(src_network: u16, src_node: u8, router_network: u16) -> AppleTalkAddress {
    AppleTalkAddress {
        network_number: if src_network != 0 {
            src_network
        } else {
            router_network
        },
        node_number: src_node,
    }
}

/// What the routing table knows after a broadcast.
pub open spec fn after_broadcast(
    m: RouteModel,
    iface: Interface,
    router: AppleTalkAddress,
    router_network: u16,
    tuples: Seq<RtmpTuple>,
    now: u64,
) -> RouteModel {
    let expires_at = (now + RTMP_ROUTE_TTL) as u64;
    let poisoned = poisoned_in(tuples, tuples.len());
    let routes = routes_in(tuples, tuples.len());
    let kept = withdrawn(m.entries, poisoned, poisoned.len());
    RouteModel {
        local: match cable_range(iface, router_network, tuples) {
            Some(range) => local_set(m.local, iface, range),
            None => m.local,
        },
        default_router: if m.mode == LearningMode::Static {
            m.default_router
        } else {
            Some(DefaultRouter { addr: router, interface: iface, expires_at: Some(expires_at) })
        },
        entries: if m.mode == LearningMode::Static {
            kept
        } else {
            learned(kept, router, iface, routes, expires_at, routes.len())
        },
        ..m
    }
}

/// The changes that a broadcast brings, in order.
pub open spec fn broadcast_changes(
    m: RouteModel,
    iface: Interface,
    router: AppleTalkAddress,
    router_network: u16,
    tuples: Seq<RtmpTuple>,
    now: u64,
) -> Seq<RouteChange> {
    let expires_at = (now + RTMP_ROUTE_TTL) as u64;
    let poisoned = poisoned_in(tuples, tuples.len());
    let routes = routes_in(tuples, tuples.len());
    let kept = withdrawn(m.entries, poisoned, poisoned.len());
    let local = match cable_range(iface, router_network, tuples) {
        Some(range) => if local_is(m.local, iface, range) {
            Seq::empty()
        } else {
            seq![RouteChange::SetLocalRange(range)]
        },
        None => Seq::empty(),
    };
    let learned = if m.mode == LearningMode::Static {
        Seq::empty()
    } else {
        learned_changes(kept, router, iface, routes, expires_at, routes.len())
    };
    local + withdrawals(poisoned) + learned
}

/// What a broadcast leads to, besides what the table learns.
#[derive(Debug)]
pub struct RtmpReaction {
    /// The changes to publish.
    pub changes: Vec<RouteChange>,
    /// The range of the cable, where the broadcast tells it.
    pub cable: Option<CableRange>,
    /// Whether the zone of the cable has to be asked for again, which is so
    /// when the first router appears on it.
    pub refresh_zone: bool,
}

/// The listener: it remembers on which interfaces a router has been heard.
#[derive(Debug)]
pub struct Rtmp {
    pub heard_on_localtalk: bool,
    pub heard_on_ethertalk: bool,
}

impl Rtmp {
    /// Whether a router has been heard on an interface.
    pub open spec fn heard_on(self, iface: Interface) -> bool {
        match iface {
            Interface::LocalTalk => self.heard_on_localtalk,
            Interface::EtherTalk => self.heard_on_ethertalk,
        }
    }

    /// A listener that has heard no router.
    pub fn new() -> (r: Self)
        ensures
            forall|iface: Interface| !r.heard_on(iface),
    {
        Rtmp { heard_on_localtalk: false, heard_on_ethertalk: false }
    }

    fn mark_heard(&mut self, iface: Interface) -> (first: bool)
        ensures
            first == !old(self).heard_on(iface),
            forall|i: Interface| final(self).heard_on(i) == (old(self).heard_on(i) || i == iface),
    {
        match iface {
            Interface::LocalTalk => {
                let first = !self.heard_on_localtalk;
                self.heard_on_localtalk = true;
                first
            },
            Interface::EtherTalk => {
                let first = !self.heard_on_ethertalk;
                self.heard_on_ethertalk = true;
                first
            },
        }
    }

    /// Takes in a broadcast that `src_network`, `src_node` sent on `iface`.
    pub fn handle_packet(
        &mut self,
        table: &mut RouteTable,
        iface: Interface,
        src_network: u16,
        src_node: u8,
        data: &RtmpDataPacket,
        now: u64,
    ) -> (r: RtmpReaction)
        requires
            old(table).wf(),
            now + RTMP_ROUTE_TTL <= u64::MAX,
        ensures
            final(table).wf(),
            final(table)@ == after_broadcast(
                old(table)@,
                iface,
                router_of(src_network, src_node, data.router_network),
                data.router_network,
                data.tuples@,
                now,
            ),
            r.changes@ == broadcast_changes(
                old(table)@,
                iface,
                router_of(src_network, src_node, data.router_network),
                data.router_network,
                data.tuples@,
                now,
            ),
            r.cable == cable_range(iface, data.router_network, data.tuples@),
            r.refresh_zone == !old(self).heard_on(iface),
            forall|i: Interface| final(self).heard_on(i) == (old(self).heard_on(i) || i == iface),
    {
        let ghost start = table@;
        let router = AppleTalkAddress {
            network_number: if src_network != 0 { src_network } else { data.router_network },
            node_number: src_node,
        };
        let mut changes: Vec<RouteChange> = Vec::new();
        let cable = local_cable_range(iface, data);
        if let Some((lo, hi)) = cable {
            if let Some(change) = table.set_local_range_for(iface, lo, hi) {
                changes.push(change);
            }
        }
        table.note_router(router, iface, now);
        let refresh_zone = self.mark_heard(iface);
        let (routes, poisoned) = tuples_for_route_table(data);
        let ghost local_changes = changes@;
        let ghost noted = table@;
        let mut i: usize = 0;
        while i < poisoned.len()
            invariant
                i <= poisoned@.len(),
                table.wf(),
                table@ == (RouteModel { entries: withdrawn(noted.entries, poisoned@, i as nat), ..noted }),
                changes@ == local_changes + withdrawals(poisoned@.take(i as int)),
            decreases poisoned@.len() - i,
        {
            let (lo, hi) = poisoned[i];
            let change = table.remove_route(lo, hi);
            changes.push(change);
            assert(withdrawals(poisoned@.take(i + 1)) =~= withdrawals(poisoned@.take(i as int)).push(
                RouteChange::RemoveRoute { lo, hi },
            ));
            i += 1;
        }
        assert(poisoned@.take(i as int) =~= poisoned@);
        let ghost kept = table@;
        if routes.len() > 0 {
            let mut learned_now = table.handle_rtmp(router, iface, &routes, now);
            changes.append(&mut learned_now);
        }
        proof {
            assert(noted.entries == start.entries);
            let expires_at = (now + RTMP_ROUTE_TTL) as u64;
            assert(routes@.len() == 0 ==> learned(kept.entries, router, iface, routes@, expires_at, 0) == kept.entries);
            assert(table@ =~= after_broadcast(start, iface, router, data.router_network, data.tuples@, now));
            assert(changes@ =~= broadcast_changes(start, iface, router, data.router_network, data.tuples@, now));
        }
        RtmpReaction { changes, cable, refresh_zone }
    }

    /// The address that our node on a cable without extended ranges takes when
    /// a broadcast tells the network number: the same node, unless the number
    /// is already the right one. On any other cable the address stays.
    pub fn learn_local_cable(iface: Interface, data: &RtmpDataPacket, cur: AppleTalkAddress) -> (r: Option<
        AppleTalkAddress,
    >)
        ensures
            r == match cable_range(iface, data.router_network, data.tuples@) {
                Some(range) => if iface == Interface::LocalTalk && cur.network_number != range.0 {
                    Some(AppleTalkAddress { network_number: range.0, node_number: cur.node_number })
                } else {
                    None
                },
                None => None,
            },
    {
        match local_cable_range(iface, data) {
            Some((lo, _)) => if iface == Interface::LocalTalk && cur.network_number != lo {
                Some(AppleTalkAddress { network_number: lo, node_number: cur.node_number })
            } else {
                None
            },
            None => None,
        }
    }
}

/// A broadcast, whatever routes it carries, makes its sender a router that
/// lookups in every zone are sent to.
pub proof fn law_broadcast_switches_lookups_to_the_router(
    m: RouteModel,
    iface: Interface,
    router: AppleTalkAddress,
    router_network: u16,
    tuples: Seq<RtmpTuple>,
    now: u64,
)
    requires
        m.mode == LearningMode::Dynamic,
        now + RTMP_ROUTE_TTL <= u64::MAX,
    ensures
        ({
            let after = after_broadcast(m, iface, router, router_network, tuples, now);
            &&& after.has_router(now)
            &&& after.nbp_dispatch(ZoneView::All, now) matches DispatchView::RouterBroadcast(routers)
                && routers.contains(router)
        }),
{
    let after = after_broadcast(m, iface, router, router_network, tuples, now);
    let hops = deduped(live_hops(after.entries, now));
    let all = push_new(hops, router);
    if !hops.contains(router) {
        assert(all[all.len() - 1] == router);
    }
    assert(all.contains(router));
}

proof fn lemma_inserted_contains(entries: Seq<RtmpEntry>, new: RtmpEntry, e: RtmpEntry)
    requires
        inserted(entries, new).contains(e),
    ensures
        e == new || entries.contains(e),
{
    let kept = without_overlap(entries, new.range_lo, new.range_hi);
    let at = partition(kept, new.range_lo as int) as int;
    lemma_partition_bounds(kept, new.range_lo as int);
    let i = choose|i: int| 0 <= i < inserted(entries, new).len() && inserted(entries, new)[i] == e;
    if i != at {
        let k = if i < at {
            i
        } else {
            i - 1
        };
        assert(kept[k] == e);
        assert(kept.contains(e));
        lemma_filter_contains(entries, |x: RtmpEntry| x.range_hi < new.range_lo || x.range_lo > new.range_hi, e);
    }
}

proof fn lemma_learned_contains(
    entries: Seq<RtmpEntry>,
    src: AppleTalkAddress,
    iface: Interface,
    routes: Seq<(u16, u16, u8)>,
    expires_at: u64,
    n: nat,
    e: RtmpEntry,
)
    requires
        n <= routes.len(),
        learned(entries, src, iface, routes, expires_at, n).contains(e),
    ensures
        entries.contains(e) || exists|i: int|
            0 <= i < n && e == learned_entry(src, iface, #[trigger] routes[i], expires_at),
    decreases n,
{
    if n > 0 {
        let before = learned(entries, src, iface, routes, expires_at, (n - 1) as nat);
        let new = learned_entry(src, iface, routes[n - 1], expires_at);
        lemma_inserted_contains(before, new, e);
        if e != new {
            lemma_learned_contains(entries, src, iface, routes, expires_at, (n - 1) as nat, e);
        }
    }
}

proof fn lemma_withdrawn_contains(entries: Seq<RtmpEntry>, ranges: Seq<(u16, u16)>, n: nat, k: int, e: RtmpEntry)
    requires
        n <= ranges.len(),
        0 <= k < n,
        withdrawn(entries, ranges, n).contains(e),
    ensures
        !(e.range_lo == ranges[k].0 && e.range_hi == ranges[k].1),
    decreases n,
{
    let before = withdrawn(entries, ranges, (n - 1) as nat);
    lemma_filter_contains(before, not_exactly(ranges[n - 1].0, ranges[n - 1].1), e);
    if k < n - 1 {
        lemma_withdrawn_contains(entries, ranges, (n - 1) as nat, k, e);
    }
}

/// A range that a router says it no longer reaches is not a route afterwards,
/// unless the same broadcast advertises it as well.
pub proof fn law_withdrawn_routes_are_gone(
    m: RouteModel,
    iface: Interface,
    router: AppleTalkAddress,
    router_network: u16,
    tuples: Seq<RtmpTuple>,
    now: u64,
    range: CableRange,
    e: RtmpEntry,
)
    requires
        poisoned_in(tuples, tuples.len()).contains(range),
        forall|i: int|
            0 <= i < routes_in(tuples, tuples.len()).len() ==> {
                let r = #[trigger] routes_in(tuples, tuples.len())[i];
                (r.0, r.1) != range
            },
        after_broadcast(m, iface, router, router_network, tuples, now).entries.contains(e),
    ensures
        (e.range_lo, e.range_hi) != range,
{
    let poisoned = poisoned_in(tuples, tuples.len());
    let routes = routes_in(tuples, tuples.len());
    let kept = withdrawn(m.entries, poisoned, poisoned.len());
    let expires_at = (now + RTMP_ROUTE_TTL) as u64;
    let k = choose|k: int| 0 <= k < poisoned.len() && poisoned[k] == range;
    if m.mode != LearningMode::Static {
        lemma_learned_contains(kept, router, iface, routes, expires_at, routes.len(), e);
    }
    if kept.contains(e) {
        lemma_withdrawn_contains(m.entries, poisoned, poisoned.len(), k, e);
    }
}

/// A tuple tells of one network or of a range of them, at its distance.
pub proof fn law_tuple_is_its_range(t: RtmpTuple)
    ensures
        match t {
            RtmpTuple::NonExtended { network, distance } => t.range().0 == network && t.range().1 == network && t.hops()
                == distance,
            RtmpTuple::Extended { range_start, range_end, distance } => t.range().0 == range_start && t.range().1
                == range_end && t.hops() == distance,
        },
{
}

/// A router's tuples are routes, one hop further than it tells, as far as they are
/// fewer than 31 hops away.
pub proof fn law_tuples_are_routes(tuples: Seq<RtmpTuple>, n: nat, r: (u16, u16, u8))
    requires
        n <= tuples.len(),
    ensures
        routes_in(tuples, n).contains(r) <==> exists|i: int|
            0 <= i < n && (#[trigger] tuples[i]).hops() < 31 && tuples[i].range() == (r.0, r.1) && tuples[i].hops() + 1 == r.2,
        routes_in(tuples, n).len() + poisoned_in(tuples, n).len() == n,
    decreases n,
{
    let all = routes_in(tuples, n);
    if n > 0 {
        let fewer = routes_in(tuples, (n - 1) as nat);
        let t = tuples[n - 1];
        law_tuples_are_routes(tuples, (n - 1) as nat, r);
        if fewer.contains(r) {
            let k = choose|k: int| 0 <= k < fewer.len() && fewer[k] == r;
            assert(all[k] == r);
        }
        if t.hops() < 31 && t.range() == (r.0, r.1) && t.hops() + 1 == r.2 {
            assert(all.last() == r);
        }
        if all.contains(r) && !fewer.contains(r) {
            let k = choose|k: int| 0 <= k < all.len() && all[k] == r;
            if k < fewer.len() {
                assert(fewer[k] == r);
            }
            assert(tuples[n - 1].hops() < 31);
        }
    } else {
        assert(all.len() == 0);
    }
}

/// A tuple that is 31 hops away or more takes back its range.
pub proof fn law_far_tuples_take_back(tuples: Seq<RtmpTuple>, n: nat, r: (u16, u16))
    requires
        n <= tuples.len(),
    ensures
        poisoned_in(tuples, n).contains(r) <==> exists|i: int|
            0 <= i < n && (#[trigger] tuples[i]).hops() >= 31 && tuples[i].range() == r,
    decreases n,
{
    let all = poisoned_in(tuples, n);
    if n > 0 {
        let fewer = poisoned_in(tuples, (n - 1) as nat);
        let t = tuples[n - 1];
        law_far_tuples_take_back(tuples, (n - 1) as nat, r);
        if fewer.contains(r) {
            let k = choose|k: int| 0 <= k < fewer.len() && fewer[k] == r;
            assert(all[k] == r);
        }
        if t.hops() >= 31 && t.range() == r {
            assert(all.last() == r);
        }
        if all.contains(r) && !fewer.contains(r) {
            let k = choose|k: int| 0 <= k < all.len() && all[k] == r;
            if k < fewer.len() {
                assert(fewer[k] == r);
            }
            assert(tuples[n - 1].hops() >= 31);
        }
    } else {
        assert(all.len() == 0);
    }
}

/// What our own cable is, as its router tells: on EtherTalk the range of the
/// first tuple where it is an extended one without a hop; else the router's own
/// network. Network zero tells nothing.
pub proof fn law_router_tells_our_cable(iface: Interface, network: u16, tuples: Seq<RtmpTuple>, lo: u16, hi: u16)
    ensures
        tuples.len() > 0 && tuples[0] == (RtmpTuple::Extended { range_start: lo, range_end: hi, distance: 0 }) && lo != 0
            ==> cable_range(Interface::EtherTalk, network, tuples) == Some((lo, hi)),
        tuples.len() > 0 && tuples[0] == (RtmpTuple::Extended { range_start: 0, range_end: hi, distance: 0 })
            ==> cable_range(Interface::EtherTalk, network, tuples) is None,
        network != 0 ==> cable_range(Interface::LocalTalk, network, tuples) == Some((network, network)),
        network == 0 ==> cable_range(Interface::LocalTalk, network, tuples) is None,
        tuples.len() == 0 || !(tuples[0] is Extended) || tuples[0].hops() > 0 ==> cable_range(
            Interface::EtherTalk,
            network,
            tuples,
        ) == cable_range(Interface::LocalTalk, network, tuples),
{
}

/// A router is known by the address that it sends from; one that does not know its
/// network in the header tells it in the packet.
pub proof fn law_router_is_its_sender(src_network: u16, src_node: u8, router_network: u16)
    ensures
        router_of(src_network, src_node, router_network).node_number == src_node,
        src_network != 0 ==> router_of(src_network, src_node, router_network).network_number == src_network,
        src_network == 0 ==> router_of(src_network, src_node, router_network).network_number == router_network,
{
}

/// What is taken back leaves just the routes of other ranges.
pub proof fn law_withdrawal_is_exact(entries: Seq<RtmpEntry>, ranges: Seq<(u16, u16)>, n: nat, e: RtmpEntry)
    requires
        n <= ranges.len(),
    ensures
        withdrawn(entries, ranges, n).contains(e) <==> entries.contains(e) && forall|i: int|
            0 <= i < n ==> #[trigger] ranges[i] != (e.range_lo, e.range_hi),
    decreases n,
{
    if n > 0 {
        law_withdrawal_is_exact(entries, ranges, (n - 1) as nat, e);
        let before = withdrawn(entries, ranges, (n - 1) as nat);
        lemma_filter_contains(before, not_exactly(ranges[n - 1].0, ranges[n - 1].1), e);
        assert(ranges[n - 1] == (ranges[n - 1].0, ranges[n - 1].1));
    }
}

/// Each range that is taken back is reported as such.
pub proof fn law_withdrawals_are_reported(ranges: Seq<(u16, u16)>, i: int)
    requires
        0 <= i < ranges.len(),
    ensures
        withdrawals(ranges).len() == ranges.len(),
        withdrawals(ranges)[i] == (RouteChange::RemoveRoute { lo: ranges[i].0, hi: ranges[i].1 }),
{
}

/// A broadcast makes its sender the default router for a minute, on the interface
/// where it was heard, unless routes are not learned at all; zones stay.
pub proof fn law_broadcast_makes_a_default_router(
    m: RouteModel,
    iface: Interface,
    router: AppleTalkAddress,
    router_network: u16,
    tuples: Seq<RtmpTuple>,
    now: u64,
)
    requires
        now + 60000 <= u64::MAX,
    ensures
        ({
            let after = after_broadcast(m, iface, router, router_network, tuples, now);
            &&& m.mode == LearningMode::Static ==> after.default_router == m.default_router
            &&& m.mode == LearningMode::Dynamic ==> after.default_router is Some && after.default_router->0.addr == router
                && after.default_router->0.interface == iface && after.default_router->0.expires_at == Some(
                (now + 60000) as u64,
            )
            &&& after.zip == m.zip && after.mode == m.mode
        }),
{
}

proof fn lemma_withdrawn_stays(entries: Seq<RtmpEntry>, ranges: Seq<(u16, u16)>, n: nat)
    requires
        sorted(entries),
        disjoint(entries),
        n <= ranges.len(),
    ensures
        sorted(withdrawn(entries, ranges, n)),
        disjoint(withdrawn(entries, ranges, n)),
    decreases n,
{
    if n > 0 {
        lemma_withdrawn_stays(entries, ranges, (n - 1) as nat);
        let before = withdrawn(entries, ranges, (n - 1) as nat);
        lemma_filter_sorted(before, not_exactly(ranges[n - 1].0, ranges[n - 1].1));
    }
}

/// A network that a router's broadcast tells of, and that is not on our own
/// cable, is reached by way of that router, on the interface where it was heard,
/// for a minute.
pub proof fn law_announced_network_is_reached(
    m: RouteModel,
    iface: Interface,
    router: AppleTalkAddress,
    router_network: u16,
    tuples: Seq<RtmpTuple>,
    now: u64,
    i: int,
    net: u16,
    later: u64,
)
    requires
        m.mode == LearningMode::Dynamic,
        sorted(m.entries),
        disjoint(m.entries),
        now + 60000 <= u64::MAX,
        later < now + 60000,
        ({
            let routes = routes_in(tuples, tuples.len());
            &&& 0 <= i < routes.len()
            &&& routes[i].0 <= net <= routes[i].1
            &&& forall|j: int| 0 <= j < routes.len() ==> (#[trigger] routes[j]).0 <= routes[j].1
            &&& forall|j: int| i < j < routes.len() ==> (#[trigger] routes[j]).1 < routes[i].0 || routes[i].1 < routes[j].0
        }),
        first_local(after_broadcast(m, iface, router, router_network, tuples, now).local, net) is None,
    ensures
        after_broadcast(m, iface, router, router_network, tuples, now).resolve(net, later) == Some(
            NextHop::Via { router, interface: iface },
        ),
{
    let poisoned = poisoned_in(tuples, tuples.len());
    let routes = routes_in(tuples, tuples.len());
    let kept = withdrawn(m.entries, poisoned, poisoned.len());
    lemma_withdrawn_stays(m.entries, poisoned, poisoned.len());
    law_told_network_is_found(kept, router, iface, routes, (now + 60000) as u64, routes.len(), i, net, later);
}

/// A broadcast is reported in order: what our cable is now, where that is news,
/// then what is taken back, then what is learned; nothing is learned where routes
/// are not.
pub proof fn law_broadcast_is_reported_in_order(
    m: RouteModel,
    iface: Interface,
    router: AppleTalkAddress,
    router_network: u16,
    tuples: Seq<RtmpTuple>,
    now: u64,
)
    requires
        now + 60000 <= u64::MAX,
    ensures
        ({
            let changes = broadcast_changes(m, iface, router, router_network, tuples, now);
            let cable = cable_range(iface, router_network, tuples);
            let news: int = if cable is Some && !local_is(m.local, iface, cable->0) {
                1
            } else {
                0
            };
            let gone = poisoned_in(tuples, tuples.len());
            let routes = routes_in(tuples, tuples.len());
            &&& changes.len() >= news + gone.len()
            &&& news == 1 ==> changes[0] == RouteChange::SetLocalRange(cable->0)
            &&& forall|k: int|
                0 <= k < gone.len() ==> #[trigger] changes[news + k] == (RouteChange::RemoveRoute {
                    lo: gone[k].0,
                    hi: gone[k].1,
                })
            &&& m.mode == LearningMode::Static ==> changes.len() == news + gone.len()
            &&& m.mode == LearningMode::Dynamic ==> changes.skip(news + gone.len()) == learned_changes(
                withdrawn(m.entries, gone, gone.len()),
                router,
                iface,
                routes,
                (now + 60000) as u64,
                routes.len(),
            )
        }),
{
    let changes = broadcast_changes(m, iface, router, router_network, tuples, now);
    let cable = cable_range(iface, router_network, tuples);
    let gone = poisoned_in(tuples, tuples.len());
    let routes = routes_in(tuples, tuples.len());
    let news: int = if cable is Some && !local_is(m.local, iface, cable->0) {
        1
    } else {
        0
    };
    let told = learned_changes(
        withdrawn(m.entries, gone, gone.len()),
        router,
        iface,
        routes,
        (now + 60000) as u64,
        routes.len(),
    );
    if m.mode == LearningMode::Dynamic {
        assert(changes.skip(news + gone.len()) =~= told);
    }
}

/// A broadcast sets the range of our own cable where it tells one.
pub proof fn law_broadcast_sets_our_cable(
    m: RouteModel,
    iface: Interface,
    router: AppleTalkAddress,
    router_network: u16,
    tuples: Seq<RtmpTuple>,
    now: u64,
)
    ensures
        ({
            let after = after_broadcast(m, iface, router, router_network, tuples, now);
            &&& cable_range(iface, router_network, tuples) is None ==> after.local == m.local
            &&& cable_range(iface, router_network, tuples) matches Some(range) ==> after.local == local_set(
                m.local,
                iface,
                range,
            )
        }),
{
}

/// Routers are heard on each interface on its own.
pub proof fn law_routers_are_heard_by_interface(r: Rtmp)
    ensures
        r.heard_on(Interface::LocalTalk) == r.heard_on_localtalk,
        r.heard_on(Interface::EtherTalk) == r.heard_on_ethertalk,
{
}

/// Routes, and ranges that are taken back, stand in the order of their tuples.
pub proof fn law_routes_keep_the_order(tuples: Seq<RtmpTuple>, n: nat)
    requires
        0 < n <= tuples.len(),
    ensures
        routes_in(tuples, (n - 1) as nat).is_prefix_of(routes_in(tuples, n)),
        poisoned_in(tuples, (n - 1) as nat).is_prefix_of(poisoned_in(tuples, n)),
        tuples[n - 1].hops() < 31 ==> routes_in(tuples, n).last().0 == tuples[n - 1].range().0 && routes_in(tuples, n).last().1
            == tuples[n - 1].range().1 && routes_in(tuples, n).last().2 == tuples[n - 1].hops() + 1,
        tuples[n - 1].hops() >= 31 ==> poisoned_in(tuples, n).last() == tuples[n - 1].range(),
{
}

/// A table that does not learn keeps its routes, but for those that are taken
/// back.
pub proof fn law_static_table_learns_nothing(
    m: RouteModel,
    iface: Interface,
    router: AppleTalkAddress,
    router_network: u16,
    tuples: Seq<RtmpTuple>,
    now: u64,
    e: RtmpEntry,
)
    requires
        m.mode == LearningMode::Static,
    ensures
        after_broadcast(m, iface, router, router_network, tuples, now).entries.contains(e) <==> m.entries.contains(e)
            && forall|i: int|
            0 <= i < tuples.len() && (#[trigger] tuples[i]).hops() >= 31 ==> tuples[i].range() != (e.range_lo, e.range_hi),
{
    let gone = poisoned_in(tuples, tuples.len());
    law_withdrawal_is_exact(m.entries, gone, gone.len(), e);
    law_far_tuples_take_back(tuples, tuples.len(), (e.range_lo, e.range_hi));
    if forall|i: int| 0 <= i < gone.len() ==> #[trigger] gone[i] != (e.range_lo, e.range_hi) {
        assert(!gone.contains((e.range_lo, e.range_hi)));
    }
    assert forall|i: int| 0 <= i < gone.len() implies gone.contains(#[trigger] gone[i]) by {}
}

/// A broadcast leaves the routes alone that it neither takes back nor overlaps.
pub proof fn law_broadcast_leaves_other_routes(
    m: RouteModel,
    iface: Interface,
    router: AppleTalkAddress,
    router_network: u16,
    tuples: Seq<RtmpTuple>,
    now: u64,
    e: RtmpEntry,
)
    requires
        m.mode == LearningMode::Dynamic,
        e.range_lo <= e.range_hi,
        forall|i: int| 0 <= i < tuples.len() ==> (#[trigger] tuples[i]).range().0 <= tuples[i].range().1,
        forall|i: int|
            0 <= i < tuples.len() ==> (#[trigger] tuples[i]).range().1 < e.range_lo || e.range_hi < tuples[i].range().0,
    ensures
        after_broadcast(m, iface, router, router_network, tuples, now).entries.contains(e) <==> m.entries.contains(e),
{
    let gone = poisoned_in(tuples, tuples.len());
    let routes = routes_in(tuples, tuples.len());
    let kept = withdrawn(m.entries, gone, gone.len());
    law_withdrawal_is_exact(m.entries, gone, gone.len(), e);
    assert forall|i: int| 0 <= i < gone.len() implies #[trigger] gone[i] != (e.range_lo, e.range_hi) by {
        law_far_tuples_take_back(tuples, tuples.len(), gone[i]);
        assert(gone.contains(gone[i]));
    }
    assert forall|j: int| 0 <= j < routes.len() implies (#[trigger] routes[j]).0 <= routes[j].1 && (routes[j].1 < e.range_lo
        || e.range_hi < routes[j].0) by {
        law_tuples_are_routes(tuples, tuples.len(), routes[j]);
        assert(routes.contains(routes[j]));
    }
    law_untold_routes_stay(kept, router, iface, routes, (now + RTMP_ROUTE_TTL) as u64, routes.len(), e);
}

} // verus!
