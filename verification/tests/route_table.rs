use std::sync::{Arc, Mutex};
use tailtalk::addr::{AddressSource, AppleTalkAddress};
use tailtalk::route_table::{
    Interface, LearningMode, NbpDispatch, NbpZone, NextHop, RouteChange, RouteSnapshot, RouteTable, RTMP_ROUTE_TTL,
};

const NOW: u64 = 1_000;

fn addr(net: u16, node: u8) -> AppleTalkAddress {
    AppleTalkAddress { network_number: net, node_number: node }
}

#[test]
fn local_range_membership() {
    let mut t = RouteTable::new(LearningMode::Static);
    t.set_local_range_for(Interface::EtherTalk, 100, 105);

    assert!(t.is_local(100));
    assert!(t.is_local(103));
    assert!(t.is_local(105));
    assert!(!t.is_local(99));
    assert!(!t.is_local(106));
}

#[test]
fn route_for_local() {
    let mut t = RouteTable::new(LearningMode::Static);
    t.set_local_range_for(Interface::EtherTalk, 100, 105);
    assert_eq!(t.resolve(102, NOW), Some(NextHop::Local(Interface::EtherTalk)));
}

#[test]
fn route_for_via_router() {
    let mut t = RouteTable::new(LearningMode::Static);
    t.set_local_range_for(Interface::EtherTalk, 100, 105);
    t.insert_route(200, 210, addr(100, 1), Interface::EtherTalk);
    assert_eq!(t.route_for(205, NOW), Some(addr(100, 1)));
}

#[test]
fn route_for_unknown_returns_none() {
    let mut t = RouteTable::new(LearningMode::Static);
    t.set_local_range_for(Interface::EtherTalk, 100, 105);
    assert_eq!(t.resolve(999, NOW), None);
}

#[test]
fn insert_route_replaces_overlap() {
    let mut t = RouteTable::new(LearningMode::Static);
    t.insert_route(100, 200, addr(1, 1), Interface::EtherTalk);
    t.insert_route(150, 160, addr(1, 2), Interface::EtherTalk); // overlaps; old entry removed wholesale
    assert_eq!(t.route_for(155, NOW), Some(addr(1, 2)));
    // Parts of the old range outside [150, 160] are gone
    assert_eq!(t.route_for(100, NOW), None);
}

#[test]
fn dynamic_routes_carry_interface_and_local_range_wins() {
    let mut t = RouteTable::new(LearningMode::Dynamic);
    t.set_local_range_for(Interface::LocalTalk, 2, 2);
    t.handle_rtmp(addr(2, 254), Interface::LocalTalk, &[(2, 2, 1), (3, 5, 1)], NOW);

    // Our own cable range takes precedence over the router's own-net tuple.
    assert_eq!(t.resolve(2, NOW), Some(NextHop::Local(Interface::LocalTalk)));
    // Off-cable network routes via the router, tagged with its cable.
    assert_eq!(t.route_for(4, NOW), Some(addr(2, 254)));
    assert_eq!(t.interface_for_net(2, NOW), Some(Interface::LocalTalk));
    assert_eq!(t.interface_for_net(254, NOW), None);
}

#[test]
fn a_router_forwards_unknown_nets() {
    // A bridge that announces itself but sends no tuples: note_router alone
    // must make it the next hop for off-cable traffic.
    let mut t = RouteTable::new(LearningMode::Dynamic);
    t.set_local_range_for(Interface::LocalTalk, 65456, 65456);
    t.note_router(addr(65456, 190), Interface::LocalTalk, NOW);

    assert!(t.has_router(NOW));
    // Our own cable is still delivered directly, not via the router.
    assert_eq!(t.resolve(65456, NOW), Some(NextHop::Local(Interface::LocalTalk)));
    // Any off-cable net now routes via the A-Router on LocalTalk.
    assert_eq!(
        t.resolve(65309, NOW),
        Some(NextHop::Via { router: addr(65456, 190), interface: Interface::LocalTalk })
    );
    assert_eq!(
        t.nbp_dispatch(NbpZone::All, NOW),
        NbpDispatch::RouterBroadcast(vec![addr(65456, 190)])
    );
}

#[test]
fn specific_route_wins_over_a_router() {
    let mut t = RouteTable::new(LearningMode::Dynamic);
    t.note_router(addr(2, 254), Interface::LocalTalk, NOW);
    t.handle_rtmp(addr(2, 254), Interface::LocalTalk, &[(3, 5, 1)], NOW);
    // A net with a specific route uses it; everything else falls to the A-Router.
    assert_eq!(
        t.resolve(4, NOW),
        Some(NextHop::Via { router: addr(2, 254), interface: Interface::LocalTalk })
    );
    assert_eq!(
        t.resolve(999, NOW),
        Some(NextHop::Via { router: addr(2, 254), interface: Interface::LocalTalk })
    );
    // The router appears once in NBP dispatch, not twice.
    assert_eq!(
        t.nbp_dispatch(NbpZone::All, NOW),
        NbpDispatch::RouterBroadcast(vec![addr(2, 254)])
    );
}

#[test]
fn a_router_is_static_mode_noop() {
    let mut t = RouteTable::new(LearningMode::Static);
    t.note_router(addr(65456, 190), Interface::LocalTalk, NOW);
    assert!(!t.has_router(NOW));
    assert_eq!(t.resolve(65309, NOW), None);
}

#[test]
fn a_router_expires_and_purges() {
    let mut t = RouteTable::new(LearningMode::Dynamic);
    t.note_router(addr(65456, 190), Interface::LocalTalk, NOW);
    assert!(t.has_router(NOW));

    // Past the A-Router's time to live.
    let later = NOW + RTMP_ROUTE_TTL + 1_000;

    // Reads ignore it even before purge.
    assert!(!t.has_router(later));
    assert_eq!(t.resolve(65309, later), None);
    assert_eq!(t.nbp_dispatch(NbpZone::All, later), NbpDispatch::LocalBroadcast);

    t.purge_expired(later);
    assert!(t.default_router.is_none());
}

#[test]
fn rtmp_routes_expire_and_purge() {
    let mut t = RouteTable::new(LearningMode::Dynamic);
    t.handle_rtmp(addr(2, 254), Interface::LocalTalk, &[(3, 5, 1)], NOW);
    assert!(t.has_router(NOW));
    assert!(t.resolve(4, NOW).is_some());

    // Past the entry's time to live.
    let later = NOW + RTMP_ROUTE_TTL + 1_000;

    // Reads ignore the expired entry even before it is purged.
    assert!(!t.has_router(later));
    assert_eq!(t.resolve(4, later), None);
    assert_eq!(t.nbp_dispatch(NbpZone::All, later), NbpDispatch::LocalBroadcast);

    t.purge_expired(later);
    assert!(t.rtmp.entries.is_empty());

    // A fresh broadcast brings the route back.
    t.handle_rtmp(addr(2, 254), Interface::LocalTalk, &[(3, 5, 1)], later);
    assert!(t.has_router(later));
}

#[test]
fn set_local_range_publishes_only_changes() {
    let mut t = RouteTable::new(LearningMode::Dynamic);
    let mut published: Vec<RouteChange> = Vec::new();

    published.extend(t.set_local_range_for(Interface::EtherTalk, 3, 5));
    published.extend(t.set_local_range_for(Interface::EtherTalk, 3, 5)); // refresh, no publish
    published.extend(t.set_local_range_for(Interface::EtherTalk, 3, 6)); // change, publish

    let mut rx = published.into_iter();
    assert_eq!(rx.next(), Some(RouteChange::SetLocalRange((3, 5))));
    assert_eq!(rx.next(), Some(RouteChange::SetLocalRange((3, 6))));
    assert!(rx.next().is_none());
}

#[test]
fn handle_rtmp_publishes_only_new_routes() {
    let mut t = RouteTable::new(LearningMode::Dynamic);
    let mut published: Vec<RouteChange> = Vec::new();

    published.extend(t.handle_rtmp(addr(2, 254), Interface::LocalTalk, &[(3, 5, 1)], NOW));
    published.extend(t.handle_rtmp(addr(2, 254), Interface::LocalTalk, &[(3, 5, 1)], NOW)); // refresh
    let mut rx = published.into_iter();
    assert_eq!(
        rx.next(),
        Some(RouteChange::InsertRoute { lo: 3, hi: 5, next_hop: addr(2, 254), interface: Some(Interface::LocalTalk) })
    );
    assert!(rx.next().is_none());
}

#[test]
fn has_router_tracks_rtmp_entries() {
    let mut t = RouteTable::new(LearningMode::Static);
    assert!(!t.has_router(NOW));
    t.insert_route(200, 210, addr(100, 1), Interface::EtherTalk);
    assert!(t.has_router(NOW));
    t.remove_route(200, 210);
    assert!(!t.has_router(NOW));
}

#[test]
fn remove_route() {
    let mut t = RouteTable::new(LearningMode::Static);
    t.insert_route(200, 210, addr(100, 1), Interface::EtherTalk);
    t.remove_route(200, 210);
    assert_eq!(t.resolve(205, NOW), None);
}

#[test]
fn nbp_local_always_broadcasts() {
    let mut t = RouteTable::new(LearningMode::Static);
    t.insert_route(200, 210, addr(100, 1), Interface::EtherTalk); // router present, still local
    assert_eq!(t.nbp_dispatch(NbpZone::Local, NOW), NbpDispatch::LocalBroadcast);
}

#[test]
fn nbp_all_no_router() {
    let t = RouteTable::new(LearningMode::Static);
    assert_eq!(t.nbp_dispatch(NbpZone::All, NOW), NbpDispatch::LocalBroadcast);
}

#[test]
fn nbp_all_with_router() {
    let mut t = RouteTable::new(LearningMode::Static);
    t.insert_route(200, 210, addr(100, 1), Interface::EtherTalk);
    assert_eq!(
        t.nbp_dispatch(NbpZone::All, NOW),
        NbpDispatch::RouterBroadcast(vec![addr(100, 1)])
    );
}

#[test]
fn nbp_named_zone_known() {
    let mut t = RouteTable::new(LearningMode::Static);
    t.insert_route(200, 210, addr(100, 1), Interface::EtherTalk);
    t.insert_zone("Engineering", &[(200, 210)]);
    assert_eq!(
        t.nbp_dispatch(NbpZone::Named("Engineering"), NOW),
        NbpDispatch::RouterBroadcast(vec![addr(100, 1)])
    );
}

#[test]
fn nbp_named_zone_unknown_fallback() {
    let mut t = RouteTable::new(LearningMode::Static);
    // No router at all — ZoneUnknown
    assert_eq!(t.nbp_dispatch(NbpZone::Named("Printers"), NOW), NbpDispatch::ZoneUnknown);

    // Router known but zone not in ZIP — falls back to that router
    t.insert_route(200, 210, addr(100, 1), Interface::EtherTalk);
    assert_eq!(
        t.nbp_dispatch(NbpZone::Named("Printers"), NOW),
        NbpDispatch::RouterBroadcast(vec![addr(100, 1)])
    );
}

#[test]
fn handle_rtmp_respects_mode() {
    let mut dynamic = RouteTable::new(LearningMode::Dynamic);
    dynamic.handle_rtmp(addr(100, 1), Interface::EtherTalk, &[(200, 210, 1), (300, 305, 2)], NOW);
    assert_eq!(dynamic.route_for(205, NOW), Some(addr(100, 1)));
    assert_eq!(
        dynamic.resolve(301, NOW),
        Some(NextHop::Via { router: addr(100, 1), interface: Interface::EtherTalk })
    );

    let mut static_ = RouteTable::new(LearningMode::Static);
    static_.handle_rtmp(addr(100, 1), Interface::EtherTalk, &[(200, 210, 1)], NOW);
    assert_eq!(static_.resolve(205, NOW), None);
}

#[test]
fn handle_zip_reply_respects_mode() {
    let mut dynamic = RouteTable::new(LearningMode::Dynamic);
    dynamic.insert_route(200, 210, addr(100, 1), Interface::EtherTalk);
    dynamic.handle_zip_reply((200, 210), &["Engineering", "Printers"]);
    assert_eq!(
        dynamic.nbp_dispatch(NbpZone::Named("Engineering"), NOW),
        NbpDispatch::RouterBroadcast(vec![addr(100, 1)])
    );

    let mut static_ = RouteTable::new(LearningMode::Static);
    static_.insert_route(200, 210, addr(100, 1), Interface::EtherTalk);
    static_.handle_zip_reply((200, 210), &["Engineering"]);
    // ZIP entry not recorded; zone unknown but falls back to the known router
    assert_eq!(
        static_.nbp_dispatch(NbpZone::Named("Engineering"), NOW),
        NbpDispatch::RouterBroadcast(vec![addr(100, 1)])
    );
}

#[test]
fn remove_zone() {
    let mut t = RouteTable::new(LearningMode::Static);
    t.insert_route(200, 210, addr(100, 1), Interface::EtherTalk);
    t.insert_zone("Engineering", &[(200, 210)]);
    t.remove_zone("Engineering");
    // Falls back to any-router since zone is gone but route remains
    assert_eq!(
        t.nbp_dispatch(NbpZone::Named("Engineering"), NOW),
        NbpDispatch::RouterBroadcast(vec![addr(100, 1)])
    );
}

#[test]
fn clone_shares_state() {
    let t1 = Arc::new(Mutex::new(RouteTable::new(LearningMode::Static)));
    let t2 = t1.clone();
    t1.lock().unwrap().insert_route(200, 210, addr(100, 1), Interface::EtherTalk);
    assert_eq!(
        t2.lock().unwrap().resolve(205, NOW),
        Some(NextHop::Via { router: addr(100, 1), interface: Interface::EtherTalk })
    );
}

#[test]
fn routers_for_zone_deduped() {
    let mut t = RouteTable::new(LearningMode::Static);

    // Consecutive duplicates: two ranges, same router
    t.insert_route(200, 210, addr(100, 1), Interface::EtherTalk);
    t.insert_route(211, 220, addr(100, 1), Interface::EtherTalk);
    t.insert_zone("Engineering", &[(200, 210), (211, 220)]);
    assert_eq!(
        t.nbp_dispatch(NbpZone::Named("Engineering"), NOW),
        NbpDispatch::RouterBroadcast(vec![addr(100, 1)])
    );

    // Non-consecutive: zone spans A, B, A — router A must appear only once
    t.insert_route(221, 230, addr(100, 2), Interface::EtherTalk); // router B
    t.insert_route(231, 240, addr(100, 1), Interface::EtherTalk); // router A again
    t.insert_zone("Engineering", &[(221, 230), (231, 240)]);
    assert_eq!(
        t.nbp_dispatch(NbpZone::Named("Engineering"), NOW),
        NbpDispatch::RouterBroadcast(vec![addr(100, 1), addr(100, 2)])
    );
}

#[test]
fn snapshots_restore_routes_and_zones() {
    let mut t = RouteTable::new(LearningMode::Static);
    t.set_local_range_for(Interface::EtherTalk, 1, 1);
    t.insert_route(200, 210, addr(100, 1), Interface::LocalTalk);
    t.insert_zone("Engineering", &[(200, 210)]);
    let snapshot = t.snapshot(NOW);

    let mut copy = RouteTable::new(LearningMode::Static);
    copy.replace_contents(snapshot);
    assert_eq!(
        copy.resolve(205, NOW),
        Some(NextHop::Via { router: addr(100, 1), interface: Interface::LocalTalk })
    );
    assert_eq!(copy.routers_for_zone("Engineering", NOW), vec![addr(100, 1)]);
    assert!(copy.is_local(1));

    copy.replace_contents(RouteSnapshot::default());
    assert_eq!(copy.resolve(205, NOW), None);
}

#[test]
fn interfaces_follow_the_address_source() {
    assert_eq!(Interface::from(AddressSource::LocalTalk), Interface::LocalTalk);
    assert_eq!(Interface::from(AddressSource::EtherTalkPhase1), Interface::EtherTalk);
    assert_eq!(Interface::from(AddressSource::EtherTalkPhase2), Interface::EtherTalk);
}

#[test]
fn routes_on_another_interface_are_reported() {
    let mut t = RouteTable::new(LearningMode::Dynamic);
    let router = addr(100, 1);
    assert!(t.insert_route(200, 210, router, Interface::EtherTalk).is_some());
    assert!(t.insert_route(200, 210, router, Interface::EtherTalk).is_none());
    let moved = RouteChange::InsertRoute { lo: 200, hi: 210, next_hop: router, interface: Some(Interface::LocalTalk) };
    assert_eq!(t.insert_route(200, 210, router, Interface::LocalTalk), Some(moved));
    assert_eq!(t.interface_for_net(205, 0), Some(Interface::LocalTalk));
    let changes = t.handle_rtmp(router, Interface::EtherTalk, &[(200, 210, 1)], 0);
    assert_eq!(changes.len(), 1);
    assert!(t.handle_rtmp(router, Interface::EtherTalk, &[(200, 210, 1)], 5).is_empty());
}
