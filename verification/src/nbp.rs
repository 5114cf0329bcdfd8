//! Name Binding Protocol: the names that a node answers for, and its lookups.
//!
//! Whether a registered name matches the pattern of a lookup, and whether a
//! name is fully qualified, is decided by the caller's name matcher and handed
//! in.

use crate::addr::AppleTalkAddress;
use crate::idmap::IdMap;
use crate::route_table::{Interface, NbpDispatch, NbpZone, NextHop, RouteTable};
use crate::seqs::{lemma_filter_all, lemma_filter_step};
use crate::wire::str_eq;
use vstd::prelude::*;
use vstd::string::*;

verus! {

/// The socket of the protocol.
pub const NBP_SOCKET: u8 = 2;

/// Milliseconds for which the answers to a lookup are collected.
pub const LOOKUP_WINDOW: u64 = 3000;

/// An entity name.
#[derive(Debug)]
pub struct EntityName {
    pub object: String,
    pub entity_type: String,
    pub zone: String,
}

/// The characters of an entity name.
pub struct NameView {
    pub object: Seq<char>,
    pub entity_type: Seq<char>,
    pub zone: Seq<char>,
}

impl View for EntityName {
    type V = NameView;

    open spec fn view(&self) -> NameView {
        NameView { object: self.object@, entity_type: self.entity_type@, zone: self.zone@ }
    }
}

impl EntityName {
    fn same(&self, other: &EntityName) -> (r: bool)
        ensures
            r == (self@ == other@),
    {
        str_eq(self.object.as_str(), other.object.as_str()) && str_eq(
            self.entity_type.as_str(),
            other.entity_type.as_str(),
        ) && str_eq(self.zone.as_str(), other.zone.as_str())
    }
}

/// A name and where it is bound.
#[derive(Debug)]
pub struct NbpTuple {
    pub network_number: u16,
    pub node_id: u8,
    pub socket_number: u8,
    pub enumerator: u8,
    pub entity_name: EntityName,
}

/// What a tuple holds.
pub struct TupleView {
    pub network_number: u16,
    pub node_id: u8,
    pub socket_number: u8,
    pub enumerator: u8,
    pub entity_name: NameView,
}

impl View for NbpTuple {
    type V = TupleView;

    open spec fn view(&self) -> TupleView {
        TupleView {
            network_number: self.network_number,
            node_id: self.node_id,
            socket_number: self.socket_number,
            enumerator: self.enumerator,
            entity_name: self.entity_name@,
        }
    }
}

/// What each tuple of a list holds.
pub open spec fn tuples_of(tuples: Seq<NbpTuple>) -> Seq<TupleView> {
    Seq::new(tuples.len(), |i: int| tuples[i]@)
}

/// What an NBP packet is for.
#[derive(Debug, Clone, Copy, PartialEq, Eq, Structural)]
pub enum NbpOperation {
    BroadcastRequest,
    Lookup,
    LookupReply,
    ForwardRequest,
}

/// An NBP packet.
#[derive(Debug)]
pub struct NbpPacket {
    pub operation: NbpOperation,
    pub transaction_id: u8,
    pub tuples: Vec<NbpTuple>,
}

/// A name that this node answers for.
#[derive(Debug)]
pub struct RegisteredName {
    pub name: EntityName,
    pub sock_num: u8,
}

/// What a registered name holds.
pub open spec fn registered(n: RegisteredName) -> (NameView, u8) {
    (n.name@, n.sock_num)
}

/// What each registered name of a list holds.
pub open spec fn registered_of(names: Seq<RegisteredName>) -> Seq<(NameView, u8)> {
    Seq::new(names.len(), |i: int| registered(names[i]))
}

/// A lookup whose answers are being collected.
#[derive(Debug)]
pub struct PendingLookup {
    pub start_time: u64,
    pub results: Vec<NbpTuple>,
}

/// Why a name cannot be registered.
#[derive(Debug, Clone, Copy, PartialEq, Eq, Structural)]
pub enum RegisterError {
    /// The name is not fully qualified.
    InvalidName,
    /// The same name is registered for the same socket.
    AlreadyRegistered,
}

/// The name is not registered for that socket.
#[derive(Debug, Clone, Copy, PartialEq, Eq, Structural)]
pub struct NotRegistered;

/// A socket on the internet.
#[derive(Debug, Clone, Copy, PartialEq, Eq, Structural)]
pub struct NbpDestination {
    pub addr: AppleTalkAddress,
    pub socket: u8,
}

/// How a lookup goes out.
#[derive(Debug)]
pub struct LookupPlan {
    pub tid: u8,
    pub dispatch: NbpDispatch,
    /// The interface whose address the answers should come to.
    pub reply_iface: Option<Interface>,
}

/// Whether a pending lookup has been collecting for too long.
pub open spec fn lookup_over(p: PendingLookup, now: u64) -> bool {
    now - p.start_time > LOOKUP_WINDOW
}

/// Which entries still collect.
pub open spec fn still_open(now: u64) -> spec_fn((u64, PendingLookup)) -> bool {
    |e: (u64, PendingLookup)| !lookup_over(e.1, now)
}

/// Which entries are over.
pub open spec fn over(now: u64) -> spec_fn((u64, PendingLookup)) -> bool {
    |e: (u64, PendingLookup)| lookup_over(e.1, now)
}

/// The tuple that answers for a registered name, in the local zone, at our address.
pub open spec fn answer_for(name: (NameView, u8), addr: AppleTalkAddress) -> TupleView {
    TupleView {
        network_number: addr.network_number,
        node_id: addr.node_number,
        socket_number: name.1,
        enumerator: 0,
        entity_name: NameView { zone: "*"@, ..name.0 },
    }
}

/// The tuples that answer one request tuple: one for each of the first `n`
/// registered names that match it.
pub open spec fn row_answers(names: Seq<(NameView, u8)>, row: Seq<bool>, addr: AppleTalkAddress, n: nat) -> Seq<TupleView>
    decreases n,
{
    if n == 0 {
        Seq::empty()
    } else if row[n - 1] {
        row_answers(names, row, addr, (n - 1) as nat).push(answer_for(names[n - 1], addr))
    } else {
        row_answers(names, row, addr, (n - 1) as nat)
    }
}

/// The tuples that answer the first `k` request tuples.
pub open spec fn answers(names: Seq<(NameView, u8)>, matches: Seq<Seq<bool>>, addr: AppleTalkAddress, k: nat) -> Seq<
    TupleView,
>
    decreases k,
{
    if k == 0 {
        Seq::empty()
    } else {
        answers(names, matches, addr, (k - 1) as nat) + row_answers(names, matches[k - 1], addr, names.len())
    }
}

/// The rows of a match table.
pub open spec fn match_rows(matches: Seq<Vec<bool>>) -> Seq<Seq<bool>> {
    Seq::new(matches.len(), |i: int| matches[i]@)
}

/// What sends a lookup next.
#[derive(Debug, Clone, Copy, PartialEq, Eq, Structural)]
pub enum SendStep {
    /// Send it there.
    SendTo(NbpDestination),
    /// It has been sent.
    Sent,
    /// It could not be sent anywhere.
    Failed,
}

/// A lookup that is being sent. Any one router handles the whole request, so it
/// goes to the first destination that can be sent to.
#[derive(Debug)]
pub struct LookupSending {
    pub destinations: Vec<NbpDestination>,
    pub tried: usize,
}

impl LookupSending {
    /// A lookup that has not been sent to any of its destinations.
    pub fn new(destinations: Vec<NbpDestination>) -> (s: Self)
        ensures
            s == (LookupSending { destinations, tried: 0 }),
    {
        LookupSending { destinations, tried: 0 }
    }

    /// Says what to do next; `sent` tells whether the last send has succeeded.
    pub fn next(&mut self, sent: bool) -> (step: SendStep)
        ensures
            final(self).destinations == old(self).destinations,
            if sent {
                step == SendStep::Sent && final(self).tried == old(self).tried
            } else if old(self).tried < old(self).destinations@.len() {
                step == SendStep::SendTo(old(self).destinations@[old(self).tried as int]) && final(self).tried == old(
                    self,
                ).tried + 1
            } else {
                step == SendStep::Failed && final(self).tried == old(self).tried
            },
    {
        if sent {
            SendStep::Sent
        } else if self.tried < self.destinations.len() {
            let dest = self.destinations[self.tried];
            self.tried = self.tried + 1;
            SendStep::SendTo(dest)
        } else {
            SendStep::Failed
        }
    }
}

/// The names and lookups of a node.
#[derive(Debug)]
pub struct Nbp {
    pub registered_names: Vec<RegisteredName>,
    pub pending_lookups: IdMap<PendingLookup>,
    pub next_tid: u8,
}

/// The interface whose address to use: the given one where it is configured,
/// else EtherTalk if there is one, else LocalTalk.
pub fn addr_on(iface: Option<Interface>, has_et: bool, has_lt: bool) -> (r: Interface)
    requires
        has_et || has_lt,
    ensures
        r == if iface == Some(Interface::LocalTalk) && has_lt {
            Interface::LocalTalk
        } else if has_et {
            Interface::EtherTalk
        } else {
            Interface::LocalTalk
        },
{
    match iface {
        Some(Interface::LocalTalk) => if has_lt {
            Interface::LocalTalk
        } else {
            Interface::EtherTalk
        },
        _ => if has_et {
            Interface::EtherTalk
        } else {
            Interface::LocalTalk
        },
    }
}

impl Nbp {
    /// The invariant of a node's names and lookups.
    pub open spec fn wf(self) -> bool {
        self.pending_lookups.wf()
    }

    /// The names that the node answers for.
    pub open spec fn names(self) -> Seq<(NameView, u8)> {
        registered_of(self.registered_names@)
    }

    /// No names and no lookups.
    pub fn new() -> (n: Self)
        ensures
            n.wf(),
            n.names() == Seq::<(NameView, u8)>::empty(),
            n.pending_lookups@ == Map::<u64, PendingLookup>::empty(),
            n.next_tid == 1,
    {
        let n = Nbp { registered_names: Vec::new(), pending_lookups: IdMap::new(), next_tid: 1 };
        assert(n.names() =~= Seq::<(NameView, u8)>::empty());
        n
    }

    fn is_registered(&self, request: &RegisteredName) -> (r: bool)
        ensures
            r == self.names().contains(registered(*request)),
    {
        let mut i: usize = 0;
        while i < self.registered_names.len()
            invariant
                i <= self.registered_names@.len(),
                forall|j: int| 0 <= j < i ==> #[trigger] self.names()[j] != registered(*request),
            decreases self.registered_names@.len() - i,
        {
            let n = &self.registered_names[i];
            assert(self.names()[i as int] == registered(*n));
            if n.sock_num == request.sock_num && n.name.same(&request.name) {
                return true;
            }
            i += 1;
        }
        false
    }

    /// Registers a name. `fully_qualified` tells whether the name is one that
    /// can be registered at all.
    pub fn handle_register_req(&mut self, request: RegisteredName, fully_qualified: bool) -> (r: Result<
        (),
        RegisterError,
    >)
        requires
            old(self).wf(),
        ensures
            final(self).wf(),
            final(self).pending_lookups == old(self).pending_lookups,
            final(self).next_tid == old(self).next_tid,
            if !fully_qualified {
                r == Err::<(), RegisterError>(RegisterError::InvalidName) && final(self).names() == old(self).names()
            } else if old(self).names().contains(registered(request)) {
                r == Err::<(), RegisterError>(RegisterError::AlreadyRegistered) && final(self).names() == old(
                    self,
                ).names()
            } else {
                r is Ok && final(self).names() == old(self).names().push(registered(request))
            },
    {
        if !fully_qualified {
            return Err(RegisterError::InvalidName);
        }
        if self.is_registered(&request) {
            return Err(RegisterError::AlreadyRegistered);
        }
        let ghost before = self.names();
        let ghost added = registered(request);
        self.registered_names.push(request);
        assert(self.names() =~= before.push(added));
        Ok(())
    }

    /// Takes back a registration.
    pub fn handle_unregister_req(&mut self, request: &RegisteredName) -> (r: Result<(), NotRegistered>)
        requires
            old(self).wf(),
        ensures
            final(self).wf(),
            final(self).pending_lookups == old(self).pending_lookups,
            final(self).next_tid == old(self).next_tid,
            final(self).names() == old(self).names().filter(
                |n: (NameView, u8)| n != registered(*request),
            ),
            r is Ok <==> old(self).names().contains(registered(*request)),
    {
        let ghost all = self.names();
        let ghost pred = |n: (NameView, u8)| n != registered(*request);
        let ghost mut j: int = 0;
        let mut i: usize = 0;
        let mut found = false;
        proof {
            reveal(Seq::filter);
            assert(all.take(0) =~= Seq::<(NameView, u8)>::empty());
            assert(all.take(0).filter(pred) + all.skip(0) =~= all);
        }
        while i < self.registered_names.len()
            invariant
                0 <= j <= all.len(),
                i <= self.registered_names@.len(),
                pred == (|n: (NameView, u8)| n != registered(*request)),
                i == all.take(j).filter(pred).len(),
                self.names() == all.take(j).filter(pred) + all.skip(j),
                found == all.take(j).contains(registered(*request)),
                self.pending_lookups == old(self).pending_lookups,
                self.next_tid == old(self).next_tid,
            decreases self.registered_names@.len() - i,
        {
            let n = &self.registered_names[i];
            let hit = n.sock_num == request.sock_num && n.name.same(&request.name);
            let ghost now = self.names();
            proof {
                lemma_filter_step(all, j, pred);
                assert(now.len() == i + (all.len() - j));
                assert(now[i as int] == all[j]);
                assert(now[i as int] == registered(*n));
                assert(hit == (all[j] == registered(*request)));
                let before = all.take(j);
                let after = all.take(j + 1);
                assert(after[j] == all[j]);
                if before.contains(registered(*request)) {
                    let k = choose|k: int| 0 <= k < before.len() && before[k] == registered(*request);
                    assert(after[k] == registered(*request));
                }
                if after.contains(registered(*request)) && !hit {
                    let k = choose|k: int| 0 <= k < after.len() && after[k] == registered(*request);
                    assert(before[k] == registered(*request));
                }
            }
            if hit {
                let _gone = self.registered_names.remove(i);
                found = true;
                proof {
                    assert(self.names() =~= now.remove(i as int));
                    assert(self.names() =~= all.take(j + 1).filter(pred) + all.skip(j + 1));
                }
            } else {
                i += 1;
                proof {
                    assert(self.names() =~= all.take(j + 1).filter(pred) + all.skip(j + 1));
                }
            }
            proof {
                j = j + 1;
            }
        }
        proof {
            assert(all.skip(j).len() == 0);
            assert(all.take(j) =~= all);
            assert(self.names() =~= all.filter(pred));
        }
        if found {
            Ok(())
        } else {
            Err(NotRegistered)
        }
    }

    /// Plans a lookup. The zones `*` and `=` are both asked through any known
    /// router; a named zone is asked through its own routers. The identifier
    /// is used up.
    pub fn plan_lookup(&mut self, request: &EntityName, table: &RouteTable, now: u64) -> (plan: LookupPlan)
        requires
            old(self).wf(),
            table.wf(),
        ensures
            *final(self) == (Nbp {
                next_tid: if old(self).next_tid == 255 {
                    0
                } else {
                    (old(self).next_tid + 1) as u8
                },
                ..*old(self)
            }),
            plan.tid == old(self).next_tid,
            plan.dispatch@ == table@.nbp_dispatch(
                if request.zone@ == "*"@ || request.zone@ == "="@ {
                    crate::route_table::ZoneView::All
                } else {
                    crate::route_table::ZoneView::Named(request.zone@)
                },
                now,
            ),
            plan.reply_iface == match plan.dispatch {
                NbpDispatch::RouterBroadcast(routers) => if routers@.len() > 0 {
                    match table@.resolve(routers@[0].network_number, now) {
                        Some(NextHop::Local(i)) => Some(i),
                        Some(NextHop::Via { router, interface }) => Some(interface),
                        None => None,
                    }
                } else {
                    None
                },
                _ => None,
            },
    {
        let tid: u8 = self.next_tid;
        self.next_tid = if tid == 255 { 0 } else { tid + 1 };
        let zone = request.zone.as_str();
        let dispatch = if str_eq(zone, "*") || str_eq(zone, "=") {
            table.nbp_dispatch(NbpZone::All, now)
        } else {
            table.nbp_dispatch(NbpZone::Named(zone), now)
        };
        let reply_iface = match &dispatch {
            NbpDispatch::RouterBroadcast(routers) => {
                if routers.len() > 0 {
                    table.interface_for_net(routers[0].network_number, now)
                } else {
                    None
                }
            },
            _ => None,
        };
        LookupPlan { tid, dispatch, reply_iface }
    }

    /// The packet of a planned lookup, and the destinations to try in turn
    /// until one send succeeds: the routers, or all nodes of the cable.
    pub fn lookup_packet(plan: &LookupPlan, request: EntityName, our_addr: AppleTalkAddress) -> (r: (
        NbpPacket,
        Vec<NbpDestination>,
    ))
        ensures
            r.0.transaction_id == plan.tid,
            tuples_of(r.0.tuples@) == seq![
                (TupleView {
                    network_number: our_addr.network_number,
                    node_id: our_addr.node_number,
                    socket_number: NBP_SOCKET,
                    enumerator: 0,
                    entity_name: request@,
                }),
            ],
            match plan.dispatch {
                NbpDispatch::RouterBroadcast(routers) => r.0.operation == NbpOperation::BroadcastRequest && r.1@
                    == routers@.map_values(|a: AppleTalkAddress| NbpDestination { addr: a, socket: NBP_SOCKET }),
                _ => r.0.operation == NbpOperation::Lookup && r.1@ == seq![
                    (NbpDestination {
                        addr: AppleTalkAddress { network_number: 0, node_number: 255 },
                        socket: NBP_SOCKET,
                    }),
                ],
            },
    {
        let tuple = NbpTuple {
            network_number: our_addr.network_number,
            node_id: our_addr.node_number,
            socket_number: NBP_SOCKET,
            enumerator: 0,
            entity_name: request,
        };
        let ghost tv = tuple@;
        let mut tuples: Vec<NbpTuple> = Vec::new();
        tuples.push(tuple);
        assert(tuples_of(tuples@) =~= seq![tv]);
        let mut dests: Vec<NbpDestination> = Vec::new();
        match &plan.dispatch {
            NbpDispatch::RouterBroadcast(routers) => {
                let ghost shape = |a: AppleTalkAddress| NbpDestination { addr: a, socket: NBP_SOCKET };
                let mut i: usize = 0;
                while i < routers.len()
                    invariant
                        i <= routers@.len(),
                        shape == (|a: AppleTalkAddress| NbpDestination { addr: a, socket: NBP_SOCKET }),
                        dests@ == routers@.take(i as int).map_values(shape),
                    decreases routers@.len() - i,
                {
                    dests.push(NbpDestination { addr: routers[i], socket: NBP_SOCKET });
                    i += 1;
                    assert(dests@ =~= routers@.take(i as int).map_values(shape));
                }
                assert(routers@.take(i as int) =~= routers@);
                (NbpPacket { operation: NbpOperation::BroadcastRequest, transaction_id: plan.tid, tuples }, dests)
            },
            _ => {
                dests.push(
                    NbpDestination {
                        addr: AppleTalkAddress { network_number: 0, node_number: 255 },
                        socket: NBP_SOCKET,
                    },
                );
                assert(dests@ =~= seq![
                    (NbpDestination {
                        addr: AppleTalkAddress { network_number: 0, node_number: 255 },
                        socket: NBP_SOCKET,
                    }),
                ]);
                (NbpPacket { operation: NbpOperation::Lookup, transaction_id: plan.tid, tuples }, dests)
            },
        }
    }

    /// A lookup has been sent: its answers are collected from now on.
    pub fn lookup_sent(&mut self, tid: u8, now: u64)
        requires
            old(self).wf(),
        ensures
            final(self).wf(),
            final(self).registered_names == old(self).registered_names,
            final(self).next_tid == old(self).next_tid,
            exists|p: PendingLookup|
                p.start_time == now && p.results@.len() == 0 && #[trigger] old(self).pending_lookups@.insert(
                    tid as u64,
                    p,
                ) == final(self).pending_lookups@,
    {
        let p = PendingLookup { start_time: now, results: Vec::new() };
        let ghost pv = p;
        self.pending_lookups.insert(tid as u64, p);
        assert(old(self).pending_lookups@.insert(tid as u64, pv) == self.pending_lookups@);
    }

    /// Ends the lookups whose time is over and returns what they collected,
    /// with their identifiers.
    pub fn check_timeouts(&mut self, now: u64) -> (r: Vec<(u64, PendingLookup)>)
        requires
            old(self).wf(),
        ensures
            final(self).wf(),
            final(self).registered_names == old(self).registered_names,
            final(self).next_tid == old(self).next_tid,
            r@ == old(self).pending_lookups.entries@.filter(over(now)),
            final(self).pending_lookups@ == old(self).pending_lookups@.restrict(
                Set::new(
                    |k: u64|
                        old(self).pending_lookups@.contains_key(k) && !lookup_over(old(self).pending_lookups@[k], now),
                ),
            ),
    {
        let ghost before = self.pending_lookups;
        let ghost all = before.entries@;
        let ghost mut j: int = 0;
        let mut out: Vec<(u64, PendingLookup)> = Vec::new();
        let mut i: usize = 0;
        proof {
            reveal(Seq::filter);
            assert(all.take(0) =~= Seq::<(u64, PendingLookup)>::empty());
            assert(all.take(0).filter(still_open(now)) + all.skip(0) =~= all);
        }
        while i < self.pending_lookups.entries.len()
            invariant
                0 <= j <= all.len(),
                i <= self.pending_lookups.entries@.len(),
                i == all.take(j).filter(still_open(now)).len(),
                self.pending_lookups.entries@ == all.take(j).filter(still_open(now)) + all.skip(j),
                out@ == all.take(j).filter(over(now)),
                self.registered_names == old(self).registered_names,
                self.next_tid == old(self).next_tid,
            decreases self.pending_lookups.entries@.len() - i,
        {
            let start: u64 = self.pending_lookups.entries[i].1.start_time;
            let ghost cur = self.pending_lookups.entries@;
            proof {
                lemma_filter_step(all, j, still_open(now));
                lemma_filter_step(all, j, over(now));
                assert(cur[i as int] == all[j]);
            }
            if now > start && now - start > LOOKUP_WINDOW {
                let e = self.pending_lookups.entries.remove(i);
                out.push(e);
                proof {
                    assert(self.pending_lookups.entries@ =~= all.take(j + 1).filter(still_open(now)) + all.skip(j + 1));
                }
            } else {
                i += 1;
                proof {
                    assert(self.pending_lookups.entries@ =~= all.take(j + 1).filter(still_open(now)) + all.skip(j + 1));
                }
            }
            proof {
                j = j + 1;
            }
        }
        proof {
            assert(all.skip(j).len() == 0);
            assert(all.take(j) =~= all);
            assert(self.pending_lookups.entries@ =~= all.filter(still_open(now)));
            self.pending_lookups.lemma_filtered(before, still_open(now));
            let want = Set::new(|k: u64| before@.contains_key(k) && !lookup_over(before@[k], now));
            let got = Set::new(|k: u64| before@.contains_key(k) && still_open(now)((k, before@[k])));
            assert(want =~= got);
        }
        out
    }

    /// The reply to a lookup: `matches[i][j]` tells whether registered name
    /// `j` matches request tuple `i`.
    pub fn generate_response(&self, transaction_id: u8, matches: &Vec<Vec<bool>>, our_addr: AppleTalkAddress) -> (r:
        NbpPacket)
        requires
            forall|i: int|
                0 <= i < matches@.len() ==> (#[trigger] matches@[i])@.len() == self.registered_names@.len(),
        ensures
            r.operation == NbpOperation::LookupReply,
            r.transaction_id == transaction_id,
            tuples_of(r.tuples@) == answers(self.names(), match_rows(matches@), our_addr, matches@.len()),
            forall|x: int|
                0 <= x < r.tuples@.len() ==> (#[trigger] r.tuples@[x]).network_number == our_addr.network_number
                    && r.tuples@[x].node_id == our_addr.node_number,
    {
        let mut tuples: Vec<NbpTuple> = Vec::new();
        let ghost rows = match_rows(matches@);
        let ghost names = self.names();
        let mut i: usize = 0;
        assert(tuples_of(tuples@) =~= Seq::<TupleView>::empty());
        while i < matches.len()
            invariant
                i <= matches@.len(),
                rows == match_rows(matches@),
                names == self.names(),
                tuples_of(tuples@) == answers(names, rows, our_addr, i as nat),
                forall|k: int|
                    0 <= k < matches@.len() ==> (#[trigger] matches@[k])@.len() == self.registered_names@.len(),
            decreases matches@.len() - i,
        {
            let ghost base = tuples_of(tuples@);
            let row = &matches[i];
            assert(rows[i as int] == row@);
            let mut j: usize = 0;
            assert(base + row_answers(names, row@, our_addr, 0) =~= base);
            while j < self.registered_names.len()
                invariant
                    j <= self.registered_names@.len(),
                    row@.len() == self.registered_names@.len(),
                    names == self.names(),
                    tuples_of(tuples@) == base + row_answers(names, row@, our_addr, j as nat),
                decreases self.registered_names@.len() - j,
            {
                let name = &self.registered_names[j];
                assert(names[j as int] == registered(*name));
                if row[j] {
                    let tuple = NbpTuple {
                        network_number: our_addr.network_number,
                        node_id: our_addr.node_number,
                        socket_number: name.sock_num,
                        enumerator: 0,
                        entity_name: EntityName {
                            object: name.name.object.clone(),
                            entity_type: name.name.entity_type.clone(),
                            zone: "*".to_owned(),
                        },
                    };
                    let ghost tv = tuple@;
                    let ghost was = tuples_of(tuples@);
                    tuples.push(tuple);
                    assert(tuples_of(tuples@) =~= was.push(tv));
                    assert(tuples_of(tuples@) =~= base + row_answers(names, row@, our_addr, (j + 1) as nat));
                }
                j += 1;
            }
            i += 1;
        }
        assert forall|x: int| 0 <= x < tuples@.len() implies (#[trigger] tuples@[x]).network_number
            == our_addr.network_number && tuples@[x].node_id == our_addr.node_number by {
            law_answers_lead_to_the_name(*self, matches@, our_addr, tuples@, x);
        }
        NbpPacket { operation: NbpOperation::LookupReply, transaction_id, tuples }
    }

    /// Answers a lookup: the reply and where it goes, which is the address of
    /// the first request tuple and not that of the packet, since a router
    /// forwards lookups in the name of the requester. No reply where nothing
    /// matches.
    pub fn handle_lookup(&self, packet: &NbpPacket, matches: &Vec<Vec<bool>>, our_addr: AppleTalkAddress) -> (r: Option<
        (NbpPacket, NbpDestination),
    >)
        requires
            matches@.len() == packet.tuples@.len(),
            forall|i: int|
                0 <= i < matches@.len() ==> (#[trigger] matches@[i])@.len() == self.registered_names@.len(),
        ensures
            ({
                let found = answers(self.names(), match_rows(matches@), our_addr, matches@.len());
                &&& r is Some <==> found.len() > 0
                &&& r matches Some(reply) ==> {
                    let first = packet.tuples@[0];
                    &&& reply.0.operation == NbpOperation::LookupReply
                    &&& reply.0.transaction_id == packet.transaction_id
                    &&& tuples_of(reply.0.tuples@) == found
                    &&& reply.1 == (NbpDestination {
                        addr: AppleTalkAddress { network_number: first.network_number, node_number: first.node_id },
                        socket: first.socket_number,
                    })
                }
            }),
    {
        let response = self.generate_response(packet.transaction_id, matches, our_addr);
        assert(tuples_of(response.tuples@).len() == response.tuples@.len());
        if response.tuples.len() == 0 {
            return None;
        }
        assert(packet.tuples@.len() > 0);
        let first = &packet.tuples[0];
        let dest = NbpDestination {
            addr: AppleTalkAddress { network_number: first.network_number, node_number: first.node_id },
            socket: first.socket_number,
        };
        Some((response, dest))
    }

    /// Takes in a reply to one of our lookups; a reply to none of them is
    /// dropped.
    pub fn handle_lookup_reply(&mut self, packet: NbpPacket)
        requires
            old(self).wf(),
        ensures
            final(self).wf(),
            final(self).registered_names == old(self).registered_names,
            final(self).next_tid == old(self).next_tid,
            final(self).pending_lookups@.dom() == old(self).pending_lookups@.dom(),
            forall|k: u64| #[trigger]
                old(self).pending_lookups@.contains_key(k) ==> {
                    let was = old(self).pending_lookups@[k];
                    let is = final(self).pending_lookups@[k];
                    is.start_time == was.start_time && is.results@ == if k == packet.transaction_id {
                        was.results@ + packet.tuples@
                    } else {
                        was.results@
                    }
                },
    {
        let key: u64 = packet.transaction_id as u64;
        let ghost before = self.pending_lookups;
        match self.pending_lookups.find(key) {
            Some(i) => {
                let mut tuples = packet.tuples;
                self.pending_lookups.entries[i].1.results.append(&mut tuples);
                proof {
                    self.pending_lookups.lemma_replaced(before, i as int, self.pending_lookups.entries@[i as int].1);
                    assert(self.pending_lookups@.dom() =~= before@.dom());
                }
            },
            None => {},
        }
    }
}

/// A lookup ends only when its time is over, and what it has collected is
/// handed out then: an identifier is either still collecting or among those
/// handed out, never both.
pub proof fn law_lookup_ends_once(entries: Seq<(u64, PendingLookup)>, now: u64, e: (u64, PendingLookup))
    requires
        entries.contains(e),
    ensures
        entries.filter(over(now)).contains(e) <==> !entries.filter(still_open(now)).contains(e),
{
    crate::seqs::lemma_filter_contains(entries, over(now), e);
    crate::seqs::lemma_filter_contains(entries, still_open(now), e);
}

proof fn lemma_row_answers(names: Seq<(NameView, u8)>, row: Seq<bool>, addr: AppleTalkAddress, n: nat, t: TupleView)
    ensures
        row_answers(names, row, addr, n).contains(t) <==> exists|j: int|
            0 <= j < n && #[trigger] row[j] && t == answer_for(names[j], addr),
    decreases n,
{
    if n > 0 {
        let before = row_answers(names, row, addr, (n - 1) as nat);
        let after = row_answers(names, row, addr, n);
        lemma_row_answers(names, row, addr, (n - 1) as nat, t);
        if row[n - 1] {
            let last = answer_for(names[n - 1], addr);
            assert(after == before.push(last));
            assert(after[before.len() as int] == last);
            if before.contains(t) {
                let k = choose|k: int| 0 <= k < before.len() && before[k] == t;
                assert(after[k] == t);
            }
            if after.contains(t) && t != last {
                let k = choose|k: int| 0 <= k < after.len() && after[k] == t;
                assert(before[k] == t);
            }
        }
    } else {
        assert(row_answers(names, row, addr, n).len() == 0);
    }
}

/// A lookup is answered with exactly the registered names that match one of
/// its tuples.
pub proof fn law_matching_names_are_answered(
    names: Seq<(NameView, u8)>,
    matches: Seq<Seq<bool>>,
    addr: AppleTalkAddress,
    k: nat,
    t: TupleView,
)
    ensures
        answers(names, matches, addr, k).contains(t) <==> exists|i: int, j: int|
            0 <= i < k && 0 <= j < names.len() && #[trigger] matches[i][j] && t == answer_for(names[j], addr),
    decreases k,
{
    if k > 0 {
        let before = answers(names, matches, addr, (k - 1) as nat);
        let row = row_answers(names, matches[k - 1], addr, names.len());
        let after = answers(names, matches, addr, k);
        law_matching_names_are_answered(names, matches, addr, (k - 1) as nat, t);
        lemma_row_answers(names, matches[k - 1], addr, names.len(), t);
        if before.contains(t) {
            let n = choose|n: int| 0 <= n < before.len() && before[n] == t;
            assert(after[n] == t);
        }
        if row.contains(t) {
            let n = choose|n: int| 0 <= n < row.len() && row[n] == t;
            assert(after[before.len() + n] == t);
            let j = choose|j: int| 0 <= j < names.len() && #[trigger] matches[k - 1][j] && t == answer_for(names[j], addr);
            assert(matches[k - 1][j]);
        }
        if after.contains(t) {
            let n = choose|n: int| 0 <= n < after.len() && after[n] == t;
            if n < before.len() {
                assert(before[n] == t);
            } else {
                assert(row[n - before.len()] == t);
            }
        }
        if exists|i: int, j: int|
            0 <= i < k && 0 <= j < names.len() && #[trigger] matches[i][j] && t == answer_for(names[j], addr) {
            let (i, j) = choose|i: int, j: int|
                0 <= i < k && 0 <= j < names.len() && #[trigger] matches[i][j] && t == answer_for(names[j], addr);
            if i == k - 1 {
                assert(matches[k - 1][j]);
            }
        }
    } else {
        assert(answers(names, matches, addr, k).len() == 0);
    }
}

/// A name that has been registered and taken back leaves the names as they
/// were: no lookup matches it any more.
pub proof fn law_unregister_undoes_register(names: Seq<(NameView, u8)>, name: (NameView, u8))
    requires
        !names.contains(name),
    ensures
        names.push(name).filter(|n: (NameView, u8)| n != name) == names,
        !names.push(name).filter(|n: (NameView, u8)| n != name).contains(name),
{
    let pred = |n: (NameView, u8)| n != name;
    let all = names.push(name);
    reveal(Seq::filter);
    lemma_filter_all(names, pred);
    assert(all.drop_last() =~= names);
    assert(all.last() == name);
    assert(all.filter(pred) =~= names);
}

proof fn lemma_answer(names: Seq<(NameView, u8)>, matches: Seq<Seq<bool>>, addr: AppleTalkAddress, k: nat, t: TupleView)
    requires
        answers(names, matches, addr, k).contains(t),
    ensures
        t.network_number == addr.network_number,
        t.node_id == addr.node_number,
        t.enumerator == 0,
        t.entity_name.zone == "*"@,
        exists|i: int, j: int|
            0 <= i < k && 0 <= j < names.len() && #[trigger] matches[i][j] && t.socket_number == names[j].1
                && t.entity_name.object == names[j].0.object && t.entity_name.entity_type == names[j].0.entity_type,
{
    law_matching_names_are_answered(names, matches, addr, k, t);
    let (i, j) = choose|i: int, j: int|
        0 <= i < k && 0 <= j < names.len() && #[trigger] matches[i][j] && t == answer_for(names[j], addr);
    assert(matches[i][j]);
}

/// Every tuple of the answer to a lookup leads to the name that it tells: the
/// network and the node are those of our own address, and the socket is the one
/// under which a name that matches is registered. The tuple has the object and
/// the type of that name, in the local zone, and no enumerator.
pub proof fn law_answers_lead_to_the_name(
    nbp: Nbp,
    matches: Seq<Vec<bool>>,
    our_addr: AppleTalkAddress,
    tuples: Seq<NbpTuple>,
    x: int,
)
    requires
        tuples_of(tuples) == answers(nbp.names(), match_rows(matches), our_addr, matches.len()),
        0 <= x < tuples.len(),
    ensures
        tuples[x].network_number == our_addr.network_number,
        tuples[x].node_id == our_addr.node_number,
        tuples[x].enumerator == 0,
        tuples[x].entity_name.zone@ == "*"@,
        exists|i: int, j: int|
            0 <= i < matches.len() && 0 <= j < nbp.registered_names@.len() && #[trigger] matches[i]@[j]
                && tuples[x].socket_number == nbp.registered_names@[j].sock_num && tuples[x].entity_name.object@
                == nbp.registered_names@[j].name.object@ && tuples[x].entity_name.entity_type@
                == nbp.registered_names@[j].name.entity_type@,
{
    let names = nbp.names();
    let rows = match_rows(matches);
    let t = tuples_of(tuples)[x];
    assert(answers(names, rows, our_addr, matches.len()).contains(t));
    lemma_answer(names, rows, our_addr, matches.len(), t);
    let (i, j) = choose|i: int, j: int|
        0 <= i < matches.len() && 0 <= j < names.len() && #[trigger] rows[i][j] && t.socket_number == names[j].1
            && t.entity_name.object == names[j].0.object && t.entity_name.entity_type == names[j].0.entity_type;
    assert(matches[i]@[j]);
}

/// How many of the first `n` registered names match a request tuple.
pub open spec fn hits(row: Seq<bool>, n: nat) -> nat
    decreases n,
{
    if n == 0 {
        0
    } else {
        hits(row, (n - 1) as nat) + if row[n - 1] {
            1nat
        } else {
            0
        }
    }
}

proof fn lemma_row_places(names: Seq<(NameView, u8)>, row: Seq<bool>, addr: AppleTalkAddress, n: nat, j: int)
    requires
        0 <= j < n,
        row[j],
    ensures
        row_answers(names, row, addr, n).len() == hits(row, n),
        hits(row, j as nat) < hits(row, n),
        ({
            let t = row_answers(names, row, addr, n)[hits(row, j as nat) as int];
            &&& t.network_number == addr.network_number
            &&& t.node_id == addr.node_number
            &&& t.socket_number == names[j].1
            &&& t.entity_name.object == names[j].0.object
            &&& t.entity_name.entity_type == names[j].0.entity_type
        }),
    decreases n,
{
    lemma_row_len(names, row, addr, n);
    lemma_row_len(names, row, addr, (n - 1) as nat);
    if j < n - 1 {
        lemma_row_places(names, row, addr, (n - 1) as nat, j);
    }
}

proof fn lemma_row_len(names: Seq<(NameView, u8)>, row: Seq<bool>, addr: AppleTalkAddress, n: nat)
    ensures
        row_answers(names, row, addr, n).len() == hits(row, n),
    decreases n,
{
    if n > 0 {
        lemma_row_len(names, row, addr, (n - 1) as nat);
    }
}

/// How many answers the first `k` request tuples get from `n` registered names.
pub open spec fn all_hits(matches: Seq<Seq<bool>>, n: nat, k: nat) -> nat
    decreases k,
{
    if k == 0 {
        0
    } else {
        all_hits(matches, n, (k - 1) as nat) + hits(matches[k - 1], n)
    }
}

/// A lookup is answered in order, for one request tuple after the other and for
/// each of them in the order in which the names were registered: where name `j`
/// matches request tuple `i`, its tuple stands behind as many as there are
/// matches before it, and there are no others.
pub proof fn law_answers_come_in_order(
    names: Seq<(NameView, u8)>,
    matches: Seq<Seq<bool>>,
    addr: AppleTalkAddress,
    k: nat,
    i: int,
    j: int,
)
    requires
        0 <= i < k,
        0 <= j < names.len(),
        matches[i][j],
    ensures
        ({
            let all = answers(names, matches, addr, k);
            let at = all_hits(matches, names.len(), i as nat) + hits(matches[i], j as nat);
            &&& all.len() == all_hits(matches, names.len(), k)
            &&& at < all.len()
            &&& all[at as int].network_number == addr.network_number
            &&& all[at as int].node_id == addr.node_number
            &&& all[at as int].socket_number == names[j].1
            &&& all[at as int].entity_name.object == names[j].0.object
            &&& all[at as int].entity_name.entity_type == names[j].0.entity_type
        }),
    decreases k,
{
    lemma_answers_len(names, matches, addr, k);
    lemma_answers_len(names, matches, addr, (k - 1) as nat);
    lemma_row_len(names, matches[k - 1], addr, names.len());
    if i < k - 1 {
        law_answers_come_in_order(names, matches, addr, (k - 1) as nat, i, j);
    } else {
        lemma_row_places(names, matches[i], addr, names.len(), j);
    }
}

proof fn lemma_answers_len(names: Seq<(NameView, u8)>, matches: Seq<Seq<bool>>, addr: AppleTalkAddress, k: nat)
    ensures
        answers(names, matches, addr, k).len() == all_hits(matches, names.len(), k),
    decreases k,
{
    if k > 0 {
        lemma_answers_len(names, matches, addr, (k - 1) as nat);
        lemma_row_len(names, matches[k - 1], addr, names.len());
    }
}

/// A lookup collects answers for three seconds and no longer, counted from when
/// it was sent.
pub proof fn law_lookup_takes_three_seconds(p: PendingLookup, now: u64)
    ensures
        lookup_over(p, now) <==> now > p.start_time + 3000,
{
}

/// What is registered is known as it was named: object, type, zone and socket.
pub proof fn law_names_are_as_registered(nbp: Nbp, j: int)
    requires
        0 <= j < nbp.registered_names@.len(),
    ensures
        nbp.names().len() == nbp.registered_names@.len(),
        nbp.names()[j].0.object == nbp.registered_names@[j].name.object@,
        nbp.names()[j].0.entity_type == nbp.registered_names@[j].name.entity_type@,
        nbp.names()[j].0.zone == nbp.registered_names@[j].name.zone@,
        nbp.names()[j].1 == nbp.registered_names@[j].sock_num,
{
}

/// Two names are taken for one exactly where they agree in all that they hold.
pub proof fn law_registered_names_differ_by_their_parts(a: RegisteredName, b: RegisteredName)
    ensures
        registered(a) == registered(b) <==> a.sock_num == b.sock_num && a.name.object@ == b.name.object@
            && a.name.entity_type@ == b.name.entity_type@ && a.name.zone@ == b.name.zone@,
{
}

/// A lookup is over three seconds after it was sent, and is handed out then;
/// until then it goes on collecting.
pub proof fn law_lookup_is_handed_out_when_over(entries: Seq<(u64, PendingLookup)>, now: u64, e: (u64, PendingLookup))
    requires
        entries.contains(e),
    ensures
        entries.filter(over(now)).contains(e) <==> now > e.1.start_time + 3000,
        entries.filter(still_open(now)).contains(e) <==> now <= e.1.start_time + 3000,
{
    crate::seqs::lemma_filter_contains(entries, over(now), e);
    crate::seqs::lemma_filter_contains(entries, still_open(now), e);
}

/// Names are looked up at socket 2.
pub proof fn law_names_are_at_socket_two()
    ensures
        NBP_SOCKET == 2,
{
}

} // verus!
