//! AppleTalk Echo Protocol: the echo requests that wait for a reply.

use crate::addr::AppleTalkAddress;
use crate::addressing::addr_key;
use crate::idmap::IdMap;
use crate::seqs::lemma_filter_step;
use vstd::prelude::*;

verus! {

/// Milliseconds after which an echo request has failed.
pub const ECHO_TIMEOUT: u64 = 5000;

/// The socket of the protocol.
pub const ECHO_SOCKET: u8 = 4;

/// What an echo packet is for.
#[derive(Debug, Clone, Copy, PartialEq, Eq, Structural)]
pub enum AepFunction {
    Request,
    Reply,
}

/// An echo request that waits for its reply.
#[derive(Debug, Clone, Copy, PartialEq, Eq, Structural)]
pub struct PendingRequest {
    pub addr: AppleTalkAddress,
    pub start_time: u64,
}

/// What to do about an echo packet.
#[derive(Debug, Clone, Copy, PartialEq, Eq, Structural)]
pub enum EchoAction {
    /// Send the packet back to its source as a reply.
    SendBack,
    /// The request to the packet's source is answered, after so many
    /// milliseconds.
    Answered(u64),
    /// Nothing.
    Ignore,
}

/// The echo requests of a node, at most one for each address.
#[derive(Debug)]
pub struct Echo {
    pub pending: IdMap<PendingRequest>,
}

/// Whether a request has waited for too long.
pub open spec fn timed_out(r: PendingRequest, now: u64) -> bool {
    now - r.start_time > ECHO_TIMEOUT
}

/// Which entries still wait.
pub open spec fn still_waiting(now: u64) -> spec_fn((u64, PendingRequest)) -> bool {
    |e: (u64, PendingRequest)| !timed_out(e.1, now)
}

/// Which entries have timed out.
pub open spec fn given_up(now: u64) -> spec_fn((u64, PendingRequest)) -> bool {
    |e: (u64, PendingRequest)| timed_out(e.1, now)
}

/// How long a request has waited; nothing on a clock that went back.
pub open spec fn waited(req: PendingRequest, now: u64) -> u64 {
    if req.start_time <= now {
        (now - req.start_time) as u64
    } else {
        0
    }
}

fn key_of(addr: AppleTalkAddress) -> (k: u64)
    ensures
        k == addr_key(addr) as u64,
{
    addr.network_number as u64 * 256 + addr.node_number as u64
}

impl Echo {
    /// The invariant of the waiting requests.
    pub open spec fn wf(self) -> bool {
        self.pending.wf()
    }

    /// No requests.
    pub fn new() -> (e: Self)
        ensures
            e.wf(),
            e.pending@ == Map::<u64, PendingRequest>::empty(),
    {
        Echo { pending: IdMap::new() }
    }

    /// A request has been sent. It takes the place of an earlier one to the
    /// same address.
    pub fn send_echo(&mut self, addr: AppleTalkAddress, now: u64)
        requires
            old(self).wf(),
        ensures
            final(self).wf(),
            final(self).pending@ == old(self).pending@.insert(
                addr_key(addr) as u64,
                PendingRequest { addr, start_time: now },
            ),
    {
        self.pending.insert(key_of(addr), PendingRequest { addr, start_time: now });
    }

    /// Takes in an echo packet from `src`.
    pub fn handle_packet(&mut self, function: AepFunction, src: AppleTalkAddress, now: u64) -> (action: EchoAction)
        requires
            old(self).wf(),
        ensures
            final(self).wf(),
            match function {
                AepFunction::Request => action == EchoAction::SendBack && final(self).pending@ == old(self).pending@,
                AepFunction::Reply => {
                    let key = addr_key(src) as u64;
                    &&& final(self).pending@ == old(self).pending@.remove(key)
                    &&& action == if old(self).pending@.contains_key(key) {
                        EchoAction::Answered(waited(old(self).pending@[key], now))
                    } else {
                        EchoAction::Ignore
                    }
                },
            },
    {
        match function {
            AepFunction::Request => EchoAction::SendBack,
            AepFunction::Reply => {
                match self.pending.remove(key_of(src)) {
                    Some(req) => EchoAction::Answered(if req.start_time <= now { now - req.start_time } else { 0 }),
                    None => EchoAction::Ignore,
                }
            },
        }
    }

    /// Gives up the requests that have waited for too long and returns them.
    pub fn check_timeouts(&mut self, now: u64) -> (r: Vec<(u64, PendingRequest)>)
        requires
            old(self).wf(),
        ensures
            final(self).wf(),
            r@ == old(self).pending.entries@.filter(given_up(now)),
            final(self).pending@ == old(self).pending@.restrict(
                Set::new(|k: u64| old(self).pending@.contains_key(k) && !timed_out(old(self).pending@[k], now)),
            ),
    {
        let ghost before = self.pending;
        let ghost all = before.entries@;
        let mut out: Vec<(u64, PendingRequest)> = Vec::new();
        let mut kept: Vec<(u64, PendingRequest)> = Vec::new();
        let mut i: usize = 0;
        proof {
            reveal(Seq::filter);
            assert(all.take(0) =~= Seq::<(u64, PendingRequest)>::empty());
        }
        while i < self.pending.entries.len()
            invariant
                i <= all.len(),
                self.pending.entries@ == all,
                kept@ == all.take(i as int).filter(still_waiting(now)),
                out@ == all.take(i as int).filter(given_up(now)),
            decreases all.len() - i,
        {
            let (key, req) = self.pending.entries[i];
            proof {
                lemma_filter_step(all, i as int, still_waiting(now));
                lemma_filter_step(all, i as int, given_up(now));
            }
            if now > req.start_time && now - req.start_time > ECHO_TIMEOUT {
                out.push((key, req));
            } else {
                kept.push((key, req));
            }
            i += 1;
        }
        self.pending.entries = kept;
        proof {
            assert(all.take(i as int) =~= all);
            self.pending.lemma_filtered(before, still_waiting(now));
            let want = Set::new(|k: u64| before@.contains_key(k) && !timed_out(before@[k], now));
            let got = Set::new(|k: u64| before@.contains_key(k) && still_waiting(now)((k, before@[k])));
            assert(want =~= got);
        }
        out
    }
}

/// An echo is waited for five seconds and no longer.
pub proof fn law_echo_waits_five_seconds(r: PendingRequest, now: u64)
    ensures
        timed_out(r, now) <==> now > r.start_time + 5000,
{
}

/// The time that an echo took is from when it was sent until it came back.
pub proof fn law_echo_time_is_the_wait(r: PendingRequest, now: u64)
    ensures
        now >= r.start_time ==> r.start_time + waited(r, now) == now,
        now < r.start_time ==> waited(r, now) == 0,
{
}

/// Each echo that is sent either goes on waiting or is given up.
pub proof fn law_echo_is_given_up_once(entries: Seq<(u64, PendingRequest)>, now: u64, e: (u64, PendingRequest))
    requires
        entries.contains(e),
    ensures
        entries.filter(given_up(now)).contains(e) <==> now > e.1.start_time + 5000,
        entries.filter(still_waiting(now)).contains(e) <==> now <= e.1.start_time + 5000,
{
    crate::seqs::lemma_filter_contains(entries, given_up(now), e);
    crate::seqs::lemma_filter_contains(entries, still_waiting(now), e);
}

} // verus!
