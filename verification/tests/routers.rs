use tailtalk::addr::AppleTalkAddress;
use tailtalk::route_table::{Interface, LearningMode, NbpDispatch, NbpZone, NextHop, RouteChange, RouteTable};
use tailtalk::rtmp::{local_cable_range, tuples_for_route_table, Rtmp, RtmpDataPacket, RtmpTuple};
use tailtalk::zip::{addresses_for, cached_zone, choose_zone, GetNetInfoReply, RetryStep, Zip};

const NOW: u64 = 5_000;

fn addr(net: u16, node: u8) -> AppleTalkAddress {
    AppleTalkAddress { network_number: net, node_number: node }
}

fn nonextended(network: u16, distance: u8) -> RtmpTuple {
    RtmpTuple::NonExtended { network, distance }
}

fn extended(range_start: u16, distance: u8, range_end: u16) -> RtmpTuple {
    RtmpTuple::Extended { range_start, distance, range_end }
}

/// A broadcast of node 128 on non-extended LocalTalk net 0, advertising a
/// single route to its own net.
fn netatalk_broadcast() -> RtmpDataPacket {
    RtmpDataPacket { router_network: 0, tuples: vec![nonextended(0, 0)] }
}

/// A broadcast of a bridge: router 2.254 on non-extended LocalTalk net 2,
/// advertising net 2 (its own), the extended EtherTalk range 3-5, and net 1.
fn asantetalk_broadcast() -> RtmpDataPacket {
    RtmpDataPacket { router_network: 2, tuples: vec![nonextended(2, 0), extended(3, 0, 5), nonextended(1, 0)] }
}

#[test]
fn tuples_for_route_table_converts_and_increments_hop_count() {
    let data = netatalk_broadcast();
    let (routes, poisoned) = tuples_for_route_table(&data);
    assert_eq!(routes, vec![(0, 0, 1)]);
    assert!(poisoned.is_empty());
}

#[test]
fn poisoned_tuples_are_separated() {
    // Net 7 advertised at distance 31: withdrawn, not a route.
    let data = RtmpDataPacket { router_network: 2, tuples: vec![nonextended(7, 0x1f), nonextended(1, 0)] };
    let (routes, poisoned) = tuples_for_route_table(&data);
    assert_eq!(routes, vec![(1, 1, 1)]);
    assert_eq!(poisoned, vec![(7, 7)]);
}

#[test]
fn local_cable_range_nonextended_header() {
    let data = asantetalk_broadcast();
    // Arriving on LocalTalk: the header's net 2 is our cable.
    assert_eq!(local_cable_range(Interface::LocalTalk, &data), Some((2, 2)));

    // An unconfigured router (net 0) reveals nothing.
    let data = netatalk_broadcast();
    assert_eq!(local_cable_range(Interface::LocalTalk, &data), None);
}

#[test]
fn local_cable_range_extended_first_tuple() {
    // The same router seen from its EtherTalk side: first tuple is the
    // extended cable range 3-5.
    let data = RtmpDataPacket { router_network: 3, tuples: vec![extended(3, 0, 5), nonextended(2, 0)] };
    assert_eq!(local_cable_range(Interface::EtherTalk, &data), Some((3, 5)));
}

/// A broadcast, once fed into the route table, is enough to flip NBP dispatch
/// from local to router broadcast.
#[test]
fn seeing_rtmp_broadcast_switches_nbp_to_router_broadcast() {
    let mut table = RouteTable::new(LearningMode::Dynamic);
    assert_eq!(table.nbp_dispatch(NbpZone::All, NOW), NbpDispatch::LocalBroadcast);

    let data = netatalk_broadcast();
    let router = addr(0, 128);
    let (routes, _) = tuples_for_route_table(&data);
    table.handle_rtmp(router, Interface::LocalTalk, &routes, NOW);

    assert_eq!(
        table.nbp_dispatch(NbpZone::All, NOW),
        NbpDispatch::RouterBroadcast(vec![router])
    );
}

/// Routes learned on LocalTalk are tagged so DDP can reach the router over the
/// LocalTalk cable even though it has a nonzero network number.
#[test]
fn asantetalk_routes_are_tagged_localtalk() {
    let mut table = RouteTable::new(LearningMode::Dynamic);
    let data = asantetalk_broadcast();
    let router = addr(2, 254);

    if let Some((lo, hi)) = local_cable_range(Interface::LocalTalk, &data) {
        table.set_local_range_for(Interface::LocalTalk, lo, hi);
    }
    let (routes, _) = tuples_for_route_table(&data);
    table.handle_rtmp(router, Interface::LocalTalk, &routes, NOW);

    // The router itself is on our cable.
    assert_eq!(table.resolve(2, NOW), Some(NextHop::Local(Interface::LocalTalk)));
    // The EtherTalk range behind it routes via the router, on LocalTalk.
    assert_eq!(table.resolve(4, NOW), Some(NextHop::Via { router, interface: Interface::LocalTalk }));
}

#[test]
fn broadcasts_teach_cable_router_and_routes() {
    let mut table = RouteTable::new(LearningMode::Dynamic);
    let mut rtmp = Rtmp::new();
    let reaction = rtmp.handle_packet(&mut table, Interface::LocalTalk, 0, 254, &asantetalk_broadcast(), NOW);
    assert!(reaction.refresh_zone);
    assert_eq!(reaction.cable, Some((2, 2)));
    assert_eq!(reaction.changes[0], RouteChange::SetLocalRange((2, 2)));
    assert_eq!(reaction.changes.len(), 4);
    assert_eq!(table.route_for(4, NOW), Some(addr(2, 254)));
    assert_eq!(table.route_for(999, NOW), Some(addr(2, 254)));

    // Heard again: nothing new, and the zone is not asked for again.
    let again = rtmp.handle_packet(&mut table, Interface::LocalTalk, 0, 254, &asantetalk_broadcast(), NOW);
    assert!(!again.refresh_zone);
    assert!(again.changes.is_empty());

    // The route to 3-5 is withdrawn.
    let withdrawal = RtmpDataPacket { router_network: 2, tuples: vec![extended(3, 31, 5)] };
    let gone = rtmp.handle_packet(&mut table, Interface::LocalTalk, 0, 254, &withdrawal, NOW);
    assert_eq!(gone.changes, vec![RouteChange::RemoveRoute { lo: 3, hi: 5 }]);
    assert!(table.rtmp.entries.iter().all(|e| (e.range_lo, e.range_hi) != (3, 5)));
}

#[test]
fn network_numbers_are_gleaned_on_localtalk_only() {
    let data = asantetalk_broadcast();
    assert_eq!(Rtmp::learn_local_cable(Interface::LocalTalk, &data, addr(0, 9)), Some(addr(2, 9)));
    assert_eq!(Rtmp::learn_local_cable(Interface::LocalTalk, &data, addr(2, 9)), None);
    assert_eq!(Rtmp::learn_local_cable(Interface::EtherTalk, &data, addr(0, 9)), None);
}

fn reply(zone: &str, invalid: bool, default_zone: Option<&str>) -> GetNetInfoReply {
    GetNetInfoReply {
        range_start: 3,
        range_end: 5,
        zone_invalid: invalid,
        zone: zone.to_string(),
        default_zone: default_zone.map(|z| z.to_string()),
    }
}

#[test]
fn zones_are_chosen_from_replies() {
    assert_eq!(choose_zone(&reply("Ours", false, Some("Default"))), Some("Ours".to_string()));
    assert_eq!(choose_zone(&reply("Ours", true, Some("Default"))), Some("Default".to_string()));
    assert_eq!(choose_zone(&reply("", false, Some("Default"))), Some("Default".to_string()));
    assert_eq!(choose_zone(&reply("Ours", true, None)), Some("Ours".to_string()));
    assert_eq!(choose_zone(&reply("", false, Some(""))), None);
}

#[test]
fn cached_zones_are_trimmed() {
    assert_eq!(cached_zone("  Attic\n"), Some("Attic".to_string()));
    assert_eq!(cached_zone(" \n"), None);
    for c in '\0'..='\u{FFFF}' {
        let text = format!("{c}Top Floor{c}");
        assert_eq!(cached_zone(&text), Some(text.trim().to_string()), "around {:X}", c as u32);
    }
}

#[test]
fn discovery_gives_up_after_three_attempts() {
    let mut zip = Zip::new(None);
    assert_eq!(zip.retry(), RetryStep::Idle);
    zip.start_discovery();
    assert_eq!(zip.request_zone(), "");
    assert_eq!(zip.retry(), RetryStep::Resend);
    assert_eq!(zip.retry(), RetryStep::Resend);
    assert_eq!(zip.retry(), RetryStep::GiveUp);
    assert_eq!(zip.retry(), RetryStep::Idle);
}

#[test]
fn replies_settle_discovery() {
    let mut zip = Zip::new(Some("Attic".to_string()));
    let mut table = RouteTable::new(LearningMode::Dynamic);
    zip.start_discovery();
    assert_eq!(zip.request_zone(), "Attic");
    let adoption = zip.adopt(&mut table, &reply("Ours", false, None), Interface::EtherTalk);
    assert_eq!(addresses_for(&reply("Ours", false, None), Interface::EtherTalk), (None, Some((3, 5))));
    assert_eq!(adoption.zone_to_cache.as_deref(), Some("Ours"));
    assert_eq!(
        adoption.changes,
        vec![
            RouteChange::SetLocalRange((3, 5)),
            RouteChange::InsertZone { zone: "Ours".to_string(), ranges: vec![(3, 5)] },
        ]
    );
    assert_eq!(zip.retry(), RetryStep::Idle);
    assert_eq!(zip.request_zone(), "Ours");
    assert!(table.is_local(4));

    assert_eq!(addresses_for(&reply("Ours", false, None), Interface::LocalTalk), (Some(3), None));
    let unknown = GetNetInfoReply { range_start: 0, ..reply("Ours", false, None) };
    assert_eq!(addresses_for(&unknown, Interface::EtherTalk), (None, None));
}
