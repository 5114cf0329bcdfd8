//! AppleTalk Session Protocol: the session table of a server and the commands
//! of a session.

use crate::atp::{AtpAddress, AtpReceivedRequest, ATP_MAX_DATA_PER_PACKET};
use crate::idmap::IdMap;
use crate::wire::{be16, copy_bytes, put_be16};
use vstd::prelude::*;

verus! {

/// Milliseconds without a command or tickle after which a session is dead.
pub const SESSION_TIMEOUT: u64 = 120_000;

/// Milliseconds between two tickles.
pub const TICKLE_INTERVAL: u64 = 30_000;

/// What a session packet asks for.
#[derive(Debug, Clone, Copy, PartialEq, Eq, Structural)]
pub enum SPFunction {
    CloseSess,
    Command,
    GetStatus,
    OpenSess,
    Tickle,
    Write,
    WriteContinue,
    Attention,
}

/// A session header.
#[derive(Debug, Clone, Copy, PartialEq, Eq, Structural)]
pub struct AspHeader {
    pub function: SPFunction,
    pub session_id: u8,
    pub sequence_number: u16,
}

/// A reply to a command: the result code in the user bytes, and data.
#[derive(Debug)]
pub struct AspCommandResponse {
    pub result: [u8; 4],
    pub data: Vec<u8>,
}

/// A command that has come in for a session.
#[derive(Debug)]
pub struct AspCommand {
    pub sequence_number: u16,
    pub client_address: AtpAddress,
    pub data: Vec<u8>,
    /// Most bytes that the client takes in a reply.
    pub atp_max_response_bytes: usize,
}

/// One session of a server.
#[derive(Debug, Clone, Copy, PartialEq, Eq, Structural)]
pub struct AspState {
    /// Where the last command came from.
    pub addr: AtpAddress,
    /// Where the client listens for messages that the server initiates.
    pub session_addr: AtpAddress,
    pub last_activity: u64,
}

/// A session as its owner sees it.
#[derive(Debug)]
pub struct AspSession {
    pub id: u8,
    pub remote_addr: AtpAddress,
    pub session_addr: AtpAddress,
}

/// What to do about a request that came in.
#[derive(Debug)]
pub enum AspAction {
    /// Nothing; no reply either.
    Ignore,
    /// Answer with these user bytes and no data.
    Reply([u8; 4]),
    /// Answer with these user bytes and the status block.
    ReplyStatus([u8; 4]),
    /// Hand the new session to the waiting acceptor, then answer with these
    /// user bytes.
    Open { session: AspSession, reply: [u8; 4] },
    /// Hand the command to the owner of the session, and answer with the reply
    /// that the owner gives.
    Deliver { session_id: u8, command: AspCommand },
}

/// The user bytes that refuse a session for want of an acceptor: error -1071.
pub open spec fn server_busy() -> Seq<u8> {
    seq![0xFFu8, 0xFFu8, 0xFBu8, 0xD1u8]
}

/// The session table of a server.
#[derive(Debug)]
pub struct Asp {
    /// The socket that sessions talk to.
    pub socket: u8,
    pub sessions: IdMap<AspState>,
    pub next_session_id: u8,
}

/// What a server knows of its sessions.
#[verifier::ext_equal]
pub struct AspModel {
    pub socket: u8,
    pub sessions: Map<u64, AspState>,
    pub next_session_id: u8,
}

/// The session number that follows `id`: zero is left out.
pub open spec fn next_id(id: u8) -> u8 {
    if id == 255 {
        1
    } else {
        (id + 1) as u8
    }
}

/// Whether two addresses are on the same node; the sockets may differ.
pub open spec fn same_node(a: AtpAddress, b: AtpAddress) -> bool {
    a.network_number == b.network_number && a.node_number == b.node_number
}

/// Whether a session has been silent for too long.
pub open spec fn is_dead(s: AspState, now: u64) -> bool {
    now - s.last_activity > SESSION_TIMEOUT
}

/// A message to a client that no request asked for.
#[derive(Debug, Clone, Copy, PartialEq, Eq, Structural)]
pub struct AspNotice {
    pub address: AtpAddress,
    pub header: AspHeader,
}

/// The tickles of the first `n` sessions: one for each that is not dead.
pub open spec fn tickles(entries: Seq<(u64, AspState)>, now: u64, n: nat) -> Seq<AspNotice>
    decreases n,
{
    if n == 0 {
        Seq::empty()
    } else if is_dead(entries[n - 1].1, now) {
        tickles(entries, now, (n - 1) as nat)
    } else {
        tickles(entries, now, (n - 1) as nat).push(
            AspNotice {
                address: entries[n - 1].1.session_addr,
                header: AspHeader {
                    function: SPFunction::Tickle,
                    session_id: entries[n - 1].0 as u8,
                    sequence_number: 0,
                },
            },
        )
    }
}

/// The messages that close sessions, one for each.
pub open spec fn closings(entries: Seq<(u64, AspState)>) -> Seq<AspNotice> {
    Seq::new(
        entries.len(),
        |i: int|
            (AspNotice {
                address: entries[i].1.session_addr,
                header: AspHeader {
                    function: SPFunction::CloseSess,
                    session_id: entries[i].0 as u8,
                    sequence_number: 0,
                },
            }),
    )
}

impl Asp {
    /// The table's invariant: session numbers are bytes other than zero.
    pub open spec fn wf(self) -> bool {
        &&& self.sessions.wf()
        &&& 1 <= self.next_session_id
        &&& forall|i: int|
            0 <= i < self.sessions.entries@.len() ==> 1 <= (#[trigger] self.sessions.entries@[i]).0 <= 255
    }

    /// What the server knows of its sessions.
    pub open spec fn view(self) -> AspModel {
        AspModel { socket: self.socket, sessions: self.sessions@, next_session_id: self.next_session_id }
    }

    /// A server without sessions; session numbers start at one.
    pub fn new(socket: u8) -> (a: Self)
        ensures
            a.wf(),
            a@ == (AspModel { socket, sessions: Map::empty(), next_session_id: 1 }),
    {
        Asp { socket, sessions: IdMap::new(), next_session_id: 1 }
    }

    proof fn lemma_keys(self, before: Self)
        requires
            before.wf(),
            self.sessions.wf(),
            1 <= self.next_session_id,
            forall|k: u64| #[trigger] self.sessions@.contains_key(k) ==> before.sessions@.contains_key(k) || 1 <= k <= 255,
        ensures
            self.wf(),
    {
        assert forall|i: int| 0 <= i < self.sessions.entries@.len() implies 1 <= (
        #[trigger] self.sessions.entries@[i]).0 <= 255 by {
            self.sessions.lemma_entry(i);
            let k = self.sessions.entries@[i].0;
            if before.sessions@.contains_key(k) {
                let j = choose|j: int| before.sessions.key_is(j, k);
                assert(before.sessions.entries@[j].0 == k);
            }
        }
    }

    /// Takes in a request whose session header has been read as `header`.
    /// `acceptor_waiting` tells whether someone waits for a new session.
    pub fn handle_request(&mut self, req: &AtpReceivedRequest, header: AspHeader, acceptor_waiting: bool, now: u64) -> (action:
        AspAction)
        requires
            old(self).wf(),
        ensures
            final(self).wf(),
            match header.function {
                SPFunction::GetStatus => {
                    &&& final(self)@ == old(self)@
                    &&& action matches AspAction::ReplyStatus(u) && u@ == seq![0u8, header.session_id] + be16(
                        header.sequence_number,
                    )
                },
                SPFunction::OpenSess => if acceptor_waiting {
                    let id = old(self)@.next_session_id;
                    let css = AtpAddress { socket_number: header.session_id, ..req.source };
                    &&& final(self)@ == (AspModel {
                        sessions: old(self)@.sessions.insert(
                            id as u64,
                            AspState { addr: req.source, session_addr: css, last_activity: now },
                        ),
                        next_session_id: next_id(id),
                        ..old(self)@
                    })
                    &&& action matches AspAction::Open { session, reply } && session.id == id && session.remote_addr
                        == req.source && session.session_addr == css && reply@ == seq![old(self)@.socket, id, 0u8, 0u8]
                } else {
                    &&& final(self)@ == old(self)@
                    &&& action matches AspAction::Reply(u) && u@ == server_busy()
                },
                SPFunction::CloseSess => {
                    &&& final(self)@ == (AspModel {
                        sessions: old(self)@.sessions.remove(header.session_id as u64),
                        ..old(self)@
                    })
                    &&& action matches AspAction::Reply(u) && u@ == seq![0u8, header.session_id, 0u8, 0u8]
                },
                SPFunction::Command | SPFunction::Write => {
                    let key = header.session_id as u64;
                    let sess = old(self)@.sessions[key];
                    if !old(self)@.sessions.contains_key(key) {
                        final(self)@ == old(self)@ && action is Ignore
                    } else if same_node(sess.addr, req.source) {
                        &&& final(self)@ == (AspModel {
                            sessions: old(self)@.sessions.insert(
                                key,
                                AspState { addr: req.source, last_activity: now, ..sess },
                            ),
                            ..old(self)@
                        })
                        &&& action matches AspAction::Deliver { session_id, command } && session_id == header.session_id
                            && command.sequence_number == header.sequence_number && command.client_address == req.source
                            && command.data@ == req.data@ && command.atp_max_response_bytes
                            == crate::atp::packets_admitted(req.bitmap) * ATP_MAX_DATA_PER_PACKET
                    } else {
                        &&& final(self)@ == (AspModel {
                            sessions: old(self)@.sessions.insert(key, AspState { last_activity: now, ..sess }),
                            ..old(self)@
                        })
                        &&& action is Ignore
                    }
                },
                SPFunction::Tickle => {
                    let key = header.session_id as u64;
                    &&& final(self)@ == if old(self)@.sessions.contains_key(key) {
                        AspModel {
                            sessions: old(self)@.sessions.insert(
                                key,
                                AspState { last_activity: now, ..old(self)@.sessions[key] },
                            ),
                            ..old(self)@
                        }
                    } else {
                        old(self)@
                    }
                    &&& action is Ignore
                },
                _ => final(self)@ == old(self)@ && action is Ignore,
            },
    {
        let ghost before = *self;
        let key: u64 = header.session_id as u64;
        match header.function {
            SPFunction::GetStatus => {
                let u: [u8; 4] = [
                    0,
                    header.session_id,
                    (header.sequence_number / 256) as u8,
                    (header.sequence_number % 256) as u8,
                ];
                assert(u@ =~= seq![0u8, header.session_id] + be16(header.sequence_number));
                AspAction::ReplyStatus(u)
            },
            SPFunction::OpenSess => {
                if acceptor_waiting {
                    let id: u8 = self.next_session_id;
                    self.next_session_id = if id == 255 { 1 } else { id + 1 };
                    let css = AtpAddress {
                        network_number: req.source.network_number,
                        node_number: req.source.node_number,
                        socket_number: header.session_id,
                    };
                    self.sessions.insert(
                        id as u64,
                        AspState { addr: req.source, session_addr: css, last_activity: now },
                    );
                    proof {
                        self.lemma_keys(before);
                    }
                    let reply: [u8; 4] = [self.socket, id, 0, 0];
                    assert(reply@ =~= seq![before@.socket, id, 0u8, 0u8]);
                    AspAction::Open {
                        session: AspSession { id, remote_addr: req.source, session_addr: css },
                        reply,
                    }
                } else {
                    let u: [u8; 4] = [0xFF, 0xFF, 0xFB, 0xD1];
                    assert(u@ =~= server_busy());
                    AspAction::Reply(u)
                }
            },
            SPFunction::CloseSess => {
                let _gone = self.sessions.remove(key);
                proof {
                    self.lemma_keys(before);
                }
                let u: [u8; 4] = [0, header.session_id, 0, 0];
                assert(u@ =~= seq![0u8, header.session_id, 0u8, 0u8]);
                AspAction::Reply(u)
            },
            SPFunction::Command | SPFunction::Write => {
                match self.sessions.find(key) {
                    None => AspAction::Ignore,
                    Some(i) => {
                        let sess = self.sessions.entries[i].1;
                        let mine = sess.addr.network_number == req.source.network_number && sess.addr.node_number
                            == req.source.node_number;
                        let addr = if mine { req.source } else { sess.addr };
                        self.sessions.insert(
                            key,
                            AspState { addr, session_addr: sess.session_addr, last_activity: now },
                        );
                        proof {
                            self.lemma_keys(before);
                        }
                        if mine {
                            AspAction::Deliver {
                                session_id: header.session_id,
                                command: AspCommand {
                                    sequence_number: header.sequence_number,
                                    client_address: req.source,
                                    data: copy_bytes(&req.data),
                                    atp_max_response_bytes: req.max_response_bytes(),
                                },
                            }
                        } else {
                            AspAction::Ignore
                        }
                    },
                }
            },
            SPFunction::Tickle => {
                match self.sessions.find(key) {
                    None => {},
                    Some(i) => {
                        let sess = self.sessions.entries[i].1;
                        self.sessions.insert(
                            key,
                            AspState { addr: sess.addr, session_addr: sess.session_addr, last_activity: now },
                        );
                        proof {
                            self.lemma_keys(before);
                        }
                    },
                }
                AspAction::Ignore
            },
            _ => AspAction::Ignore,
        }
    }

    /// Closes every session, with a message to its client.
    pub fn close_sessions(&mut self) -> (r: Vec<AspNotice>)
        requires
            old(self).wf(),
        ensures
            final(self).wf(),
            r@ == closings(old(self).sessions.entries@),
            final(self)@ == (AspModel { sessions: Map::empty(), ..old(self)@ }),
    {
        let mut r: Vec<AspNotice> = Vec::new();
        let mut i: usize = 0;
        while i < self.sessions.entries.len()
            invariant
                i <= self.sessions.entries@.len(),
                self.wf(),
                *self == *old(self),
                r@ == closings(self.sessions.entries@.take(i as int)),
            decreases self.sessions.entries@.len() - i,
        {
            r.push(
                AspNotice {
                    address: self.sessions.entries[i].1.session_addr,
                    header: AspHeader {
                        function: SPFunction::CloseSess,
                        session_id: self.sessions.entries[i].0 as u8,
                        sequence_number: 0,
                    },
                },
            );
            i += 1;
            assert(r@ =~= closings(self.sessions.entries@.take(i as int)));
        }
        assert(self.sessions.entries@.take(i as int) =~= self.sessions.entries@);
        self.sessions = IdMap::new();
        r
    }

    /// The tickle timer: tickles every live session and forgets the dead ones.
    pub fn tickle(&mut self, now: u64) -> (r: Vec<AspNotice>)
        requires
            old(self).wf(),
        ensures
            final(self).wf(),
            r@ == tickles(old(self).sessions.entries@, now, old(self).sessions.entries@.len()),
            final(self)@ == (AspModel {
                sessions: old(self)@.sessions.restrict(
                    Set::new(|k: u64| old(self)@.sessions.contains_key(k) && !is_dead(old(self)@.sessions[k], now)),
                ),
                ..old(self)@
            }),
    {
        let mut r: Vec<AspNotice> = Vec::new();
        let mut kept: IdMap<AspState> = IdMap::new();
        let ghost all = self.sessions;
        let mut i: usize = 0;
        while i < self.sessions.entries.len()
            invariant
                i <= self.sessions.entries@.len(),
                self.wf(),
                *self == *old(self),
                all == self.sessions,
                kept.wf(),
                r@ == tickles(all.entries@, now, i as nat),
                forall|k: u64|
                    #![trigger kept@.contains_key(k)]
                    kept@.contains_key(k) <==> exists|j: int|
                        0 <= j < i && (#[trigger] all.entries@[j]).0 == k && !is_dead(all.entries@[j].1, now),
                forall|k: u64| #[trigger] kept@.contains_key(k) ==> all@.contains_key(k) && kept@[k] == all@[k],
            decreases self.sessions.entries@.len() - i,
        {
            let id: u64 = self.sessions.entries[i].0;
            let sess = self.sessions.entries[i].1;
            proof {
                all.lemma_entry(i as int);
            }
            let dead = now > sess.last_activity && now - sess.last_activity > SESSION_TIMEOUT;
            let ghost was = kept@;
            if !dead {
                r.push(
                    AspNotice {
                        address: sess.session_addr,
                        header: AspHeader {
                            function: SPFunction::Tickle,
                            session_id: id as u8,
                            sequence_number: 0,
                        },
                    },
                );
                kept.insert(id, sess);
            }
            proof {
                assert forall|k: u64| kept@.contains_key(k) <==> exists|j: int|
                    0 <= j < i + 1 && (#[trigger] all.entries@[j]).0 == k && !is_dead(all.entries@[j].1, now) by {
                    if was.contains_key(k) {
                        let j = choose|j: int|
                            0 <= j < i && (#[trigger] all.entries@[j]).0 == k && !is_dead(all.entries@[j].1, now);
                        assert(0 <= j < i + 1 && all.entries@[j].0 == k);
                    }
                    if k == id && !dead {
                        assert(all.entries@[i as int].0 == k);
                    }
                    if exists|j: int|
                        0 <= j < i + 1 && (#[trigger] all.entries@[j]).0 == k && !is_dead(all.entries@[j].1, now) {
                        let j = choose|j: int|
                            0 <= j < i + 1 && (#[trigger] all.entries@[j]).0 == k && !is_dead(all.entries@[j].1, now);
                        if j < i {
                            assert(was.contains_key(k));
                        }
                    }
                }
            }
            i += 1;
        }
        let ghost before = *self;
        self.sessions = kept;
        proof {
            self.lemma_keys(before);
            let want = before@.sessions.restrict(
                Set::new(|k: u64| before@.sessions.contains_key(k) && !is_dead(before@.sessions[k], now)),
            );
            assert forall|k: u64| self@.sessions.contains_key(k) <==> want.contains_key(k) by {
                if self@.sessions.contains_key(k) {
                    let j = choose|j: int|
                        0 <= j < i && (#[trigger] all.entries@[j]).0 == k && !is_dead(all.entries@[j].1, now);
                    all.lemma_entry(j);
                }
                if want.contains_key(k) {
                    let j = choose|j: int| all.key_is(j, k);
                    all.lemma_entry(j);
                    assert(all.entries@[j].0 == k && !is_dead(all.entries@[j].1, now));
                }
            }
            assert(self@.sessions =~= want);
        }
        r
    }
}

impl AspSession {
    /// Notes where a command came from: the client may have changed its socket
    /// since it opened the session.
    pub fn get_command(&mut self, cmd: &AspCommand)
        ensures
            *final(self) == (AspSession { remote_addr: cmd.client_address, ..*old(self) }),
    {
        self.remote_addr = cmd.client_address;
    }

    /// The transaction that fetches the data of a write command: its header,
    /// and as data the most bytes that one transaction carries, at most
    /// `req_count`.
    pub fn write(&self, req_count: usize, sequence_number: u16) -> (r: (AtpAddress, AspHeader, Vec<u8>))
        ensures
            r.0 == self.session_addr,
            r.1 == (AspHeader { function: SPFunction::WriteContinue, session_id: self.id, sequence_number }),
            r.2@ == be16(
                if req_count <= ATP_MAX_DATA_PER_PACKET * 8 {
                    req_count as u16
                } else {
                    4624
                },
            ),
    {
        let quantum: usize = if req_count <= ATP_MAX_DATA_PER_PACKET * 8 {
            req_count
        } else {
            ATP_MAX_DATA_PER_PACKET * 8
        };
        let mut data: Vec<u8> = Vec::new();
        put_be16(&mut data, quantum as u16);
        assert(data@ =~= be16(quantum as u16));
        let header = AspHeader { function: SPFunction::WriteContinue, session_id: self.id, sequence_number };
        (self.session_addr, header, data)
    }
}

/// A new session never gets the number zero, and the number given out next is
/// not zero either.
pub proof fn law_session_ids_skip_zero(id: u8)
    requires
        id != 0,
    ensures
        next_id(id) != 0,
{
}

/// A server without room for a session says so: error -1071, as four bytes.
pub proof fn law_busy_is_minus_1071()
    ensures
        server_busy().len() == 4,
        server_busy()[0] * 16777216 + server_busy()[1] * 65536 + server_busy()[2] * 256 + server_busy()[3] - 0x1_0000_0000
            == -1071,
{
}

/// Sessions are numbered from 1 to 255 and then over again.
pub proof fn law_sessions_are_numbered_in_turn(id: u8)
    requires
        id > 0,
    ensures
        next_id(id) == id % 255 + 1,
{
}

/// Requests come from the node of a session exactly where network and node are
/// the same; the socket may differ.
pub proof fn law_a_node_is_its_address(a: AtpAddress, b: AtpAddress)
    ensures
        same_node(a, b) <==> (a.network_number, a.node_number) == (b.network_number, b.node_number),
{
}

/// A session is dead exactly where nothing has been heard for over two minutes.
pub proof fn law_session_dies_after_two_minutes(s: AspState, now: u64)
    ensures
        is_dead(s, now) <==> now > s.last_activity + 120000,
{
}

/// Each session that is alive gets one tickle, at its session socket and under its
/// own number, and no other does.
pub proof fn law_living_sessions_are_tickled(entries: Seq<(u64, AspState)>, now: u64, n: nat, t: AspNotice)
    requires
        n <= entries.len(),
    ensures
        tickles(entries, now, n).len() <= n,
        tickles(entries, now, n).contains(t) <==> exists|i: int|
            0 <= i < n && now <= (#[trigger] entries[i]).1.last_activity + 120000 && t.address
                == entries[i].1.session_addr && t.header.session_id == entries[i].0 as u8 && t.header.function
                == SPFunction::Tickle && t.header.sequence_number == 0,
    decreases n,
{
    let all = tickles(entries, now, n);
    if n > 0 {
        let before = tickles(entries, now, (n - 1) as nat);
        law_living_sessions_are_tickled(entries, now, (n - 1) as nat, t);
        if before.contains(t) {
            let k = choose|k: int| 0 <= k < before.len() && before[k] == t;
            assert(all[k] == t);
        }
        if all.contains(t) {
            let k = choose|k: int| 0 <= k < all.len() && all[k] == t;
            if k < before.len() {
                assert(before[k] == t);
            } else {
                assert(now <= entries[n - 1].1.last_activity + 120000);
            }
        }
        if now <= entries[n - 1].1.last_activity + 120000 && t.address == entries[n - 1].1.session_addr
            && t.header.session_id == entries[n - 1].0 as u8 && t.header.function == SPFunction::Tickle
            && t.header.sequence_number == 0 {
            assert(all.last() == t);
        }
    } else {
        assert(all.len() == 0);
    }
}

/// Each session is told that it is closed, at its session socket and under its
/// own number.
pub proof fn law_every_session_is_told(entries: Seq<(u64, AspState)>, i: int)
    requires
        0 <= i < entries.len(),
    ensures
        closings(entries).len() == entries.len(),
        closings(entries)[i].address == entries[i].1.session_addr,
        closings(entries)[i].header.function == SPFunction::CloseSess,
        closings(entries)[i].header.session_id == entries[i].0 as u8,
        closings(entries)[i].header.sequence_number == 0,
{
}

/// A session is tickled every half minute, four times before it is given up.
pub proof fn law_sessions_have_their_times()
    ensures
        TICKLE_INTERVAL == 30000,
        SESSION_TIMEOUT == 4 * TICKLE_INTERVAL,
{
}

/// A server's sessions are told by number.
pub proof fn law_server_is_its_sessions(a: Asp)
    ensures
        a@.socket == a.socket,
        a@.next_session_id == a.next_session_id,
        a@.sessions == a.sessions@,
{
}

/// Sessions are tickled in the order in which they were opened.
pub proof fn law_tickles_keep_the_order(entries: Seq<(u64, AspState)>, now: u64, n: nat)
    requires
        0 < n <= entries.len(),
    ensures
        tickles(entries, now, (n - 1) as nat).is_prefix_of(tickles(entries, now, n)),
        now <= entries[n - 1].1.last_activity + 120000 ==> tickles(entries, now, n).len() == tickles(
            entries,
            now,
            (n - 1) as nat,
        ).len() + 1,
        now > entries[n - 1].1.last_activity + 120000 ==> tickles(entries, now, n) == tickles(entries, now, (n - 1) as nat),
{
}

} // verus!
