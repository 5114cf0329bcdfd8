//! Asking routers for the network range and the zone of our cables.
//!
//! A discovery round broadcasts a request, repeats it while no router answers,
//! and gives up after a few attempts. A reply describes the cable that it
//! arrives on; what it says goes into the routing table and decides which
//! address our node takes there.

use crate::route_table::{local_is, local_set, CableRange, Interface, RouteChange, RouteModel, RouteTable};
use crate::text::{is_white, law_trimming_takes_white_space, trim_text, trimmed};
use vstd::prelude::*;

verus! {

/// Requests that a discovery round sends before it gives up.
pub const GNI_MAX_ATTEMPTS: usize = 3;

/// A router's answer to a request.
#[derive(Debug)]
pub struct GetNetInfoReply {
    pub range_start: u16,
    pub range_end: u16,
    /// Whether the zone of the request is not one of this cable.
    pub zone_invalid: bool,
    /// The zone that was asked for.
    pub zone: String,
    pub default_zone: Option<String>,
}

/// The zone that a reply puts us in: the one that was asked for, unless it is
/// not one of this cable or none was asked for; then the default zone where
/// there is one.
pub open spec fn zone_of(zone_invalid: bool, zone: Seq<char>, default_zone: Option<Seq<char>>) -> Option<Seq<char>> {
    if !zone_invalid && zone.len() > 0 {
        Some(zone)
    } else if default_zone matches Some(d) && d.len() > 0 {
        default_zone
    } else if zone.len() > 0 {
        Some(zone)
    } else {
        None
    }
}

/// The characters of a text that may be missing.
pub open spec fn chars_of(s: Option<String>) -> Option<Seq<char>> {
    match s {
        Some(s) => Some(s@),
        None => None,
    }
}

/// Whether a text has no characters.
fn is_blank(s: &str) -> (r: bool)
    ensures
        r == (s@.len() == 0),
{
    s.unicode_len() == 0
}

/// The zone that a reply puts us in.
pub fn choose_zone(reply: &GetNetInfoReply) -> (r: Option<String>)
    ensures
        chars_of(r) == zone_of(reply.zone_invalid, reply.zone@, chars_of(reply.default_zone)),
{
    if !reply.zone_invalid && !is_blank(&reply.zone) {
        return Some(reply.zone.clone());
    }
    if let Some(d) = &reply.default_zone {
        if !is_blank(d) {
            return Some(d.clone());
        }
    }
    if !is_blank(&reply.zone) {
        Some(reply.zone.clone())
    } else {
        None
    }
}

/// The zone that a cache file holds; `None` where it holds only white space.
pub fn cached_zone(text: &str) -> (r: Option<String>)
    ensures
        chars_of(r) == if trimmed(text@).len() == 0 {
            None
        } else {
            Some(trimmed(text@))
        },
{
    let zone = trim_text(text);
    kept_zone(zone)
}

/// A zone name, unless it is empty.
pub fn kept_zone(zone: String) -> (r: Option<String>)
    ensures
        chars_of(r) == if zone@.len() == 0 {
            None
        } else {
            Some(zone@)
        },
{
    if is_blank(&zone) {
        None
    } else {
        Some(zone)
    }
}

/// What a reply that arrived on `iface` asks of our addresses before the table
/// learns of it: the network number that our node on LocalTalk takes, and the
/// range in which our node on EtherTalk needs an address.
pub open spec fn addresses_of(range: CableRange, iface: Interface) -> (Option<u16>, Option<CableRange>) {
    if range.0 == 0 {
        (None, None)
    } else if iface == Interface::LocalTalk {
        (Some(range.0), None)
    } else {
        (None, Some(range))
    }
}

/// What a reply that arrived on `iface` asks of our addresses before the table
/// learns of it.
pub fn addresses_for(reply: &GetNetInfoReply, iface: Interface) -> (r: (Option<u16>, Option<CableRange>))
    ensures
        r == addresses_of((reply.range_start, reply.range_end), iface),
{
    if reply.range_start == 0 {
        return (None, None);
    }
    match iface {
        Interface::LocalTalk => (Some(reply.range_start), None),
        Interface::EtherTalk => (None, Some((reply.range_start, reply.range_end))),
    }
}

/// What the retry timer does.
#[derive(Debug, Clone, Copy, PartialEq, Eq, Structural)]
pub enum RetryStep {
    /// No round is under way.
    Idle,
    /// No router has answered; the round is over and its waiters are released.
    GiveUp,
    /// The request is sent again.
    Resend,
}

/// What a reply leads to, besides what the table learns.
#[derive(Debug)]
pub struct Adoption {
    /// The changes to publish.
    pub changes: Vec<RouteChange>,
    /// The zone to keep in the cache file.
    pub zone_to_cache: Option<String>,
}

/// What the routing table knows after a reply.
pub open spec fn after_reply(m: RouteModel, iface: Interface, range: CableRange, zone: Option<Seq<char>>) -> RouteModel {
    RouteModel {
        local: if range.0 != 0 {
            local_set(m.local, iface, range)
        } else {
            m.local
        },
        zip: match zone {
            Some(z) => m.zip.insert(z, range),
            None => m.zip,
        },
        ..m
    }
}

/// The discovery of zones.
#[derive(Debug)]
pub struct Zip {
    /// The zone that requests ask to have confirmed.
    pub remembered_zone: Option<String>,
    /// Requests left in the current round; zero where no round is under way.
    pub attempts_left: usize,
}

impl Zip {
    /// A discovery that has not started, with the zone from the cache file.
    pub fn new(remembered_zone: Option<String>) -> (z: Self)
        ensures
            z.remembered_zone == remembered_zone,
            z.attempts_left == 0,
    {
        Zip { remembered_zone, attempts_left: 0 }
    }

    /// Starts a round, which sends a request at once.
    pub fn start_discovery(&mut self)
        ensures
            final(self).attempts_left == GNI_MAX_ATTEMPTS,
            final(self).remembered_zone == old(self).remembered_zone,
    {
        self.attempts_left = GNI_MAX_ATTEMPTS;
    }

    /// The zone of a request: the remembered one, or none.
    pub fn request_zone(&self) -> (zone: String)
        ensures
            zone@ == match self.remembered_zone {
                Some(z) => z@,
                None => Seq::empty(),
            },
    {
        match &self.remembered_zone {
            Some(z) => z.clone(),
            None => {
                proof {
                    reveal_strlit("");
                }
                let s = "".to_owned();
                assert(s@ =~= Seq::<char>::empty());
                s
            },
        }
    }

    /// The retry timer.
    pub fn retry(&mut self) -> (step: RetryStep)
        ensures
            final(self).remembered_zone == old(self).remembered_zone,
            final(self).attempts_left == if old(self).attempts_left == 0 {
                0
            } else {
                old(self).attempts_left - 1
            },
            step == if old(self).attempts_left == 0 {
                RetryStep::Idle
            } else if old(self).attempts_left == 1 {
                RetryStep::GiveUp
            } else {
                RetryStep::Resend
            },
    {
        if self.attempts_left > 0 {
            self.attempts_left -= 1;
            if self.attempts_left == 0 {
                RetryStep::GiveUp
            } else {
                RetryStep::Resend
            }
        } else {
            RetryStep::Idle
        }
    }

    /// Takes in a reply that arrived on `iface`, once our addresses follow it; the
    /// round is over.
    pub fn adopt(&mut self, table: &mut RouteTable, reply: &GetNetInfoReply, iface: Interface) -> (a: Adoption)
        requires
            old(table).wf(),
        ensures
            ({
                let range = (reply.range_start, reply.range_end);
                let zone = zone_of(reply.zone_invalid, reply.zone@, chars_of(reply.default_zone));
                &&& final(table).wf()
                &&& final(table)@ == after_reply(old(table)@, iface, range, zone)
                &&& final(self).attempts_left == 0
                &&& zone is Some ==> chars_of(final(self).remembered_zone) == zone
                &&& zone is None ==> final(self).remembered_zone == old(self).remembered_zone
                &&& chars_of(a.zone_to_cache) == zone
                &&& adoption_changes(a.changes@, old(table)@, iface, range, zone)
            }),
    {
        let lo: u16 = reply.range_start;
        let hi: u16 = reply.range_end;
        let zone = choose_zone(reply);
        let ghost start = table@;
        let mut changes: Vec<RouteChange> = Vec::new();
        if lo != 0 {
            if let Some(change) = table.set_local_range_for(iface, lo, hi) {
                changes.push(change);
            }
        }
        let ghost ranged = table@;
        let mut zone_to_cache: Option<String> = None;
        if let Some(z) = zone {
            let ranges: Vec<CableRange> = vec![(lo, hi)];
            let change = table.insert_zone(z.as_str(), &ranges);
            proof {
                reveal_with_fuel(crate::route_table::ZipModel::insert_ranges, 2);
                assert(ranges@ =~= seq![(lo, hi)]);
            }
            changes.push(change);
            zone_to_cache = Some(z.clone());
            self.remembered_zone = Some(z);
        }
        self.attempts_left = 0;
        proof {
            let found = zone_of(reply.zone_invalid, reply.zone@, chars_of(reply.default_zone));
            assert(table@ =~= after_reply(start, iface, (lo, hi), found));
        }
        Adoption { changes, zone_to_cache }
    }
}

/// Whether `changes` are those of a reply: the new range of the cable, and
/// then the zone.
pub open spec fn adoption_changes(
    changes: Seq<RouteChange>,
    m: RouteModel,
    iface: Interface,
    range: CableRange,
    zone: Option<Seq<char>>,
) -> bool {
    let ranged: int = if range.0 != 0 && !local_is(m.local, iface, range) {
        1
    } else {
        0
    };
    let zoned: int = if zone is Some {
        1
    } else {
        0
    };
    &&& changes.len() == ranged + zoned
    &&& ranged == 1 ==> changes[0] == RouteChange::SetLocalRange(range)
    &&& zone matches Some(name) ==> (changes[ranged] matches RouteChange::InsertZone { zone: z, ranges: r } && z@ == name
        && r@ == seq![range])
}

/// After a reply that names a zone, the zone is known to be on the cable that
/// the reply describes.
pub proof fn law_reply_makes_the_zone_known(m: RouteModel, iface: Interface, range: CableRange, zone: Seq<char>)
    ensures
        after_reply(m, iface, range, Some(zone)).zip.ranges_of(zone).contains(range),
{
    let before = m.zip.ranges_of(zone);
    let after = after_reply(m, iface, range, Some(zone)).zip.ranges_of(zone);
    assert(after == crate::route_table::with_member(before, range));
    if !before.contains(range) {
        assert(after[after.len() - 1] == range);
    }
}

/// A round without an answer sends its request as often as the attempts allow
/// and then gives up: the attempts left count down to the end.
pub proof fn law_rounds_end(attempts: nat, ticks: nat)
    ensures
        attempts_after(attempts, ticks) == if ticks < attempts {
            attempts - ticks
        } else {
            0
        },
    decreases ticks,
{
    if ticks > 0 {
        law_rounds_end(attempts, (ticks - 1) as nat);
    }
}

/// The attempts left after a number of retries.
pub open spec fn attempts_after(attempts: nat, ticks: nat) -> nat
    decreases ticks,
{
    if ticks == 0 {
        attempts
    } else {
        let before = attempts_after(attempts, (ticks - 1) as nat);
        if before == 0 {
            0
        } else {
            (before - 1) as nat
        }
    }
}

/// A zone that is kept in the cache file is the zone that the next start asks
/// for, unless its name starts or ends with white space.
pub proof fn law_kept_zone_is_remembered(zone: Seq<char>)
    requires
        zone.len() > 0,
        !is_white(zone[0]),
        !is_white(zone.last()),
    ensures
        trimmed(zone) == zone,
{
    law_trimming_takes_white_space(zone);
}

/// Which zone a reply puts us in: the one that we asked for where the router takes
/// it, else the router's default; where it names none, the one that it sent back,
/// and where that is empty none.
pub proof fn law_zone_is_the_one_the_router_takes(zone: Seq<char>, default_zone: Seq<char>)
    ensures
        zone.len() > 0 ==> zone_of(false, zone, Some(default_zone)) == Some(zone),
        zone.len() > 0 ==> zone_of(false, zone, None) == Some(zone),
        default_zone.len() > 0 ==> zone_of(true, zone, Some(default_zone)) == Some(default_zone),
        default_zone.len() > 0 ==> zone_of(false, Seq::empty(), Some(default_zone)) == Some(default_zone),
        zone.len() > 0 ==> zone_of(true, zone, None) == Some(zone),
        zone.len() > 0 ==> zone_of(true, zone, Some(Seq::empty())) == Some(zone),
        zone_of(true, Seq::empty(), None) is None,
        zone_of(false, Seq::empty(), None) is None,
        zone_of(true, Seq::empty(), Some(Seq::empty())) is None,
        zone_of(false, Seq::empty(), Some(Seq::empty())) is None,
{
}

/// What a reply tells of our address: on LocalTalk the network, on EtherTalk the
/// range, and nothing where it starts at zero.
pub proof fn law_reply_tells_our_network(lo: u16, hi: u16)
    ensures
        lo != 0 ==> addresses_of((lo, hi), Interface::LocalTalk) == (Some(lo), None::<CableRange>),
        lo != 0 ==> addresses_of((lo, hi), Interface::EtherTalk) == (None::<u16>, Some((lo, hi))),
        addresses_of((0, hi), Interface::LocalTalk) == (None::<u16>, None::<CableRange>),
        addresses_of((0, hi), Interface::EtherTalk) == (None::<u16>, None::<CableRange>),
{
}

/// A reply changes our own cable and its zone, and nothing else.
pub proof fn law_reply_changes_cable_and_zone(m: RouteModel, iface: Interface, range: CableRange, zone: Option<Seq<char>>)
    ensures
        ({
            let after = after_reply(m, iface, range, zone);
            &&& after.entries == m.entries && after.default_router == m.default_router && after.mode == m.mode
            &&& range.0 == 0 ==> after.local == m.local
            &&& range.0 != 0 ==> after.local == local_set(m.local, iface, range)
            &&& zone is None ==> after.zip == m.zip
            &&& zone matches Some(z) ==> after.zip.ranges_of(z).contains(range)
        }),
{
    if let Some(z) = zone {
        law_reply_makes_the_zone_known(m, iface, range, z);
    }
}

/// What a reply changes is reported: the range of our cable first, where it is
/// news, then the zone.
pub proof fn law_adoption_is_reported(
    changes: Seq<RouteChange>,
    m: RouteModel,
    iface: Interface,
    range: CableRange,
    zone: Option<Seq<char>>,
)
    requires
        adoption_changes(changes, m, iface, range, zone),
    ensures
        range.0 != 0 && !local_is(m.local, iface, range) ==> changes.len() >= 1 && changes[0]
            == RouteChange::SetLocalRange(range),
        zone matches Some(name) ==> changes.len() >= 1 && (changes.last() matches RouteChange::InsertZone {
            zone: z,
            ranges: r,
        } && z@ == name && r@.len() == 1 && r@[0] == range),
        (range.0 == 0 || local_is(m.local, iface, range)) && zone is None ==> changes.len() == 0,
        range.0 == 0 || local_is(m.local, iface, range) || zone is None ==> changes.len() <= 1,
        changes.len() <= 2,
{
}

/// A zone is told by its characters.
pub proof fn law_zone_is_its_characters(s: String)
    ensures
        chars_of(Some(s)) == Some(s@),
        chars_of(None) is None,
{
}

/// A round of discovery asks three times.
pub proof fn law_discovery_asks_three_times(ticks: nat)
    ensures
        attempts_after(GNI_MAX_ATTEMPTS as nat, ticks) == if ticks < 3 {
            3 - ticks
        } else {
            0
        },
{
    law_rounds_end(GNI_MAX_ATTEMPTS as nat, ticks);
}

} // verus!
