//! The routing table: local cable ranges, routes learned over RTMP or set by
//! hand, the default router, and the zones of each cable range.
//!
//! Time is a number of milliseconds on a clock of the caller's choice. Methods
//! whose effect subscribers of the table have to hear of return the change.

use crate::addr::{deduped, push_new, push_new_address, AddressSource, AppleTalkAddress};
use crate::seqs::{lemma_filter_all, lemma_filter_contains, lemma_filter_index, lemma_filter_step};
use crate::strmap::StrMap;
use crate::wire::str_eq;
use std::collections::HashMap;
use vstd::prelude::*;
use vstd::std_specs::convert::FromSpec;
use vstd::string::*;

verus! {

/// How long a learned route stays valid without being advertised again, in
/// milliseconds.
pub const RTMP_ROUTE_TTL: u64 = 60_000;

/// Where the tables are filled from.
#[derive(Debug, Clone, Copy, PartialEq, Eq, Structural)]
pub enum LearningMode {
    /// From RTMP and ZIP broadcasts as well as by hand.
    Dynamic,
    /// By hand only.
    Static,
}

/// The physical cable that an address, route or local range belongs to.
#[derive(Debug, Clone, Copy, PartialEq, Eq, Structural, Hash)]
pub enum Interface {
    EtherTalk,
    LocalTalk,
}

/// The cable of an address source; both EtherTalk phases share one.
pub open spec fn interface_of(src: AddressSource) -> Interface {
    match src {
        AddressSource::LocalTalk => Interface::LocalTalk,
        _ => Interface::EtherTalk,
    }
}

impl From<AddressSource> for Interface {
    fn from(src: AddressSource) -> (r: Self) {
        match src {
            AddressSource::LocalTalk => Interface::LocalTalk,
            AddressSource::EtherTalkPhase1 => Interface::EtherTalk,
            AddressSource::EtherTalkPhase2 => Interface::EtherTalk,
        }
    }
}

impl vstd::std_specs::convert::FromSpecImpl<AddressSource> for Interface {
    open spec fn obeys_from_spec() -> bool {
        true
    }

    open spec fn from_spec(src: AddressSource) -> Interface {
        interface_of(src)
    }
}

/// Where to send a packet for a destination network.
#[derive(Debug, Clone, Copy, PartialEq, Eq, Structural)]
pub enum NextHop {
    /// The destination is on our cable.
    Local(Interface),
    /// Forward to this router.
    Via { router: AppleTalkAddress, interface: Interface },
}

/// Zone portion of an NBP name.
#[derive(Debug, Clone, Copy)]
pub enum NbpZone<'a> {
    /// `*`: the local zone only.
    Local,
    /// `=`: all known zones.
    All,
    /// A zone by name.
    Named(&'a str),
}

/// How to dispatch an NBP lookup.
#[derive(Debug, PartialEq, Eq)]
pub enum NbpDispatch {
    /// Broadcast on the local segment.
    LocalBroadcast,
    /// Send a broadcast request to each of these routers.
    RouterBroadcast(Vec<AppleTalkAddress>),
    /// The zone is not known and neither is any router.
    ZoneUnknown,
}

/// What a dispatch decision says.
pub enum DispatchView {
    LocalBroadcast,
    RouterBroadcast(Seq<AppleTalkAddress>),
    ZoneUnknown,
}

impl View for NbpDispatch {
    type V = DispatchView;

    open spec fn view(&self) -> DispatchView {
        match *self {
            NbpDispatch::LocalBroadcast => DispatchView::LocalBroadcast,
            NbpDispatch::RouterBroadcast(v) => DispatchView::RouterBroadcast(v@),
            NbpDispatch::ZoneUnknown => DispatchView::ZoneUnknown,
        }
    }
}

/// A range of network numbers, both ends included.
pub type CableRange = (u16, u16);

// ── RTMP table ───────────────────────────────────────────────────────────────

/// A route to a cable range.
#[derive(Debug, Clone, Copy, PartialEq, Eq, Structural)]
pub struct RtmpEntry {
    pub range_lo: u16,
    pub range_hi: u16,
    pub hop_count: u8,
    pub next_hop: AppleTalkAddress,
    pub interface: Interface,
    /// When the entry stops being served; `None` for one that never does.
    pub expires_at: Option<u64>,
}

/// Whether something that expires at `at` has expired at `now`.
pub open spec fn is_expired(at: Option<u64>, now: u64) -> bool {
    match at {
        Some(t) => now >= t,
        None => false,
    }
}

fn expired_at(at: Option<u64>, now: u64) -> (r: bool)
    ensures
        r == is_expired(at, now),
{
    match at {
        Some(t) => now >= t,
        None => false,
    }
}

impl RtmpEntry {
    /// Whether the entry has expired.
    pub fn expired(&self, now: u64) -> (r: bool)
        ensures
            r == is_expired(self.expires_at, now),
    {
        expired_at(self.expires_at, now)
    }
}

/// A router heard advertising on a cable: the next hop for every destination
/// without a route of its own.
#[derive(Debug, Clone, Copy, PartialEq, Eq, Structural)]
pub struct DefaultRouter {
    pub addr: AppleTalkAddress,
    pub interface: Interface,
    pub expires_at: Option<u64>,
}

impl DefaultRouter {
    /// Whether the router has not been heard for too long.
    pub fn expired(&self, now: u64) -> (r: bool)
        ensures
            r == is_expired(self.expires_at, now),
    {
        expired_at(self.expires_at, now)
    }
}

/// Routes ordered by the start of their ranges.
#[derive(Debug)]
pub struct RtmpTable {
    pub entries: Vec<RtmpEntry>,
}

/// Ordered by the start of the ranges.
pub open spec fn sorted(entries: Seq<RtmpEntry>) -> bool {
    forall|i: int, j: int| 0 <= i <= j < entries.len() ==> entries[i].range_lo <= entries[j].range_lo
}

/// Every range is a proper one, and no two of them overlap.
pub open spec fn disjoint(entries: Seq<RtmpEntry>) -> bool {
    &&& forall|i: int| 0 <= i < entries.len() ==> (#[trigger] entries[i]).range_lo <= entries[i].range_hi
    &&& forall|i: int, j: int| 0 <= i < j < entries.len() ==> entries[i].range_hi < entries[j].range_lo
}

/// How many leading entries start below `bound`.
pub open spec fn partition(entries: Seq<RtmpEntry>, bound: int) -> nat
    decreases entries.len(),
{
    if entries.len() == 0 || entries[0].range_lo >= bound {
        0
    } else {
        1 + partition(entries.drop_first(), bound)
    }
}

proof fn lemma_partition(entries: Seq<RtmpEntry>, bound: int, n: int)
    requires
        0 <= n <= entries.len(),
        forall|i: int| 0 <= i < n ==> (#[trigger] entries[i]).range_lo < bound,
        n < entries.len() ==> entries[n].range_lo >= bound,
    ensures
        partition(entries, bound) == n,
    decreases entries.len(),
{
    if n > 0 {
        let rest = entries.drop_first();
        assert forall|i: int| 0 <= i < n - 1 implies (#[trigger] rest[i]).range_lo < bound by {
            assert(rest[i] == entries[i + 1]);
        }
        lemma_partition(rest, bound, n - 1);
    }
}

pub proof fn lemma_partition_bounds(entries: Seq<RtmpEntry>, bound: int)
    ensures
        partition(entries, bound) <= entries.len(),
        forall|i: int| 0 <= i < partition(entries, bound) ==> (#[trigger] entries[i]).range_lo < bound,
        partition(entries, bound) < entries.len() ==> entries[partition(entries, bound) as int].range_lo >= bound,
    decreases entries.len(),
{
    if !(entries.len() == 0 || entries[0].range_lo >= bound) {
        let rest = entries.drop_first();
        lemma_partition_bounds(rest, bound);
        assert forall|i: int| 0 <= i < partition(entries, bound) implies (#[trigger] entries[i]).range_lo < bound by {
            if i > 0 {
                assert(entries[i] == rest[i - 1]);
            }
        }
        if partition(entries, bound) < entries.len() {
            assert(entries[partition(entries, bound) as int] == rest[partition(rest, bound) as int]);
        }
    }
}

/// The live route for `net`: the last one that starts at or before it, if it
/// reaches that far and has not expired.
pub open spec fn lookup_entry(entries: Seq<RtmpEntry>, net: u16, now: u64) -> Option<RtmpEntry> {
    let n = partition(entries, net + 1);
    if n == 0 {
        None
    } else {
        let e = entries[n - 1];
        if net <= e.range_hi && !is_expired(e.expires_at, now) {
            Some(e)
        } else {
            None
        }
    }
}

/// The entries that do not overlap `lo..=hi`.
pub open spec fn without_overlap(entries: Seq<RtmpEntry>, lo: u16, hi: u16) -> Seq<RtmpEntry> {
    entries.filter(|e: RtmpEntry| e.range_hi < lo || e.range_lo > hi)
}

/// Whether an entry covers something else than exactly `lo..=hi`.
pub open spec fn not_exactly(lo: u16, hi: u16) -> spec_fn(RtmpEntry) -> bool {
    |e: RtmpEntry| !(e.range_lo == lo && e.range_hi == hi)
}

/// The entries that do not cover exactly `lo..=hi`.
pub open spec fn without_range(entries: Seq<RtmpEntry>, lo: u16, hi: u16) -> Seq<RtmpEntry> {
    entries.filter(not_exactly(lo, hi))
}

/// The entries after a route has been put in: everything that overlaps it is
/// gone, and it stands before the first entry that does not start below it.
pub open spec fn inserted(entries: Seq<RtmpEntry>, new: RtmpEntry) -> Seq<RtmpEntry> {
    let kept = without_overlap(entries, new.range_lo, new.range_hi);
    kept.insert(partition(kept, new.range_lo as int) as int, new)
}

/// Whether the same range is already routed to the same router.
pub open spec fn is_refresh(entries: Seq<RtmpEntry>, lo: u16, hi: u16, next_hop: AppleTalkAddress) -> bool {
    exists|i: int|
        0 <= i < entries.len() && (#[trigger] entries[i]).range_lo == lo && entries[i].range_hi == hi
            && entries[i].next_hop == next_hop
}

/// Whether the same range is already routed to the same router on the same
/// interface.
pub open spec fn is_known(
    entries: Seq<RtmpEntry>,
    lo: u16,
    hi: u16,
    next_hop: AppleTalkAddress,
    interface: Interface,
) -> bool {
    exists|i: int|
        0 <= i < entries.len() && (#[trigger] entries[i]).range_lo == lo && entries[i].range_hi == hi
            && entries[i].next_hop == next_hop && entries[i].interface == interface
}

/// The next hops of the live entries, in order, with repetitions.
pub open spec fn live_hops(entries: Seq<RtmpEntry>, now: u64) -> Seq<AppleTalkAddress>
    decreases entries.len(),
{
    if entries.len() == 0 {
        Seq::empty()
    } else if is_expired(entries.last().expires_at, now) {
        live_hops(entries.drop_last(), now)
    } else {
        live_hops(entries.drop_last(), now).push(entries.last().next_hop)
    }
}

/// The entries that have not expired.
pub open spec fn live_entries(entries: Seq<RtmpEntry>, now: u64) -> Seq<RtmpEntry> {
    entries.filter(|e: RtmpEntry| !is_expired(e.expires_at, now))
}

pub(crate) proof fn lemma_filter_sorted(entries: Seq<RtmpEntry>, pred: spec_fn(RtmpEntry) -> bool)
    requires
        sorted(entries),
    ensures
        sorted(entries.filter(pred)),
        disjoint(entries) ==> disjoint(entries.filter(pred)),
{
    let at = lemma_filter_index(entries, pred);
    let f = entries.filter(pred);
    assert forall|i: int, j: int| 0 <= i <= j < f.len() implies f[i].range_lo <= f[j].range_lo by {
        assert(entries[at[i]] == f[i] && entries[at[j]] == f[j]);
    }
    if disjoint(entries) {
        assert forall|i: int| 0 <= i < f.len() implies (#[trigger] f[i]).range_lo <= f[i].range_hi by {
            assert(entries[at[i]] == f[i]);
        }
        assert forall|i: int, j: int| 0 <= i < j < f.len() implies f[i].range_hi < f[j].range_lo by {
            assert(entries[at[i]] == f[i] && entries[at[j]] == f[j]);
        }
    }
}

/// Putting in a route keeps the table ordered; putting in a proper range keeps
/// the ranges proper and free of overlap.
pub proof fn law_insert_keeps_order(entries: Seq<RtmpEntry>, new: RtmpEntry)
    requires
        sorted(entries),
    ensures
        sorted(inserted(entries, new)),
        disjoint(entries) && new.range_lo <= new.range_hi ==> disjoint(inserted(entries, new)),
{
    let pred = |e: RtmpEntry| e.range_hi < new.range_lo || e.range_lo > new.range_hi;
    let kept = without_overlap(entries, new.range_lo, new.range_hi);
    assert(kept == entries.filter(pred));
    lemma_filter_sorted(entries, pred);
    let n = partition(kept, new.range_lo as int) as int;
    lemma_partition_bounds(kept, new.range_lo as int);
    let r = inserted(entries, new);
    assert forall|i: int| 0 <= i < r.len() implies #[trigger] r[i] == if i < n {
        kept[i]
    } else if i == n {
        new
    } else {
        kept[i - 1]
    } by {}
    assert forall|i: int, j: int| 0 <= i <= j < r.len() implies r[i].range_lo <= r[j].range_lo by {
        if j == n && i < n {
            assert(kept[i].range_lo < new.range_lo);
        }
        if i == n && j > n {
            assert(kept[n].range_lo <= kept[j - 1].range_lo);
        }
    }
    if disjoint(entries) && new.range_lo <= new.range_hi {
        let at = lemma_filter_index(entries, pred);
        assert forall|i: int, j: int| 0 <= i < j < r.len() implies r[i].range_hi < r[j].range_lo by {
            if j == n {
                assert(pred(entries[at[i]]));
                assert(kept[i].range_lo < new.range_lo);
            } else if i == n {
                assert(pred(entries[at[j - 1]]));
                assert(kept[n].range_lo <= kept[j - 1].range_lo);
                assert(kept[j - 1].range_lo <= kept[j - 1].range_hi);
            }
        }
    }
}

/// In a table of proper ranges without overlap, a lookup gives the live entry
/// whose range holds the network, and nothing exactly where there is none.
pub proof fn law_lookup_finds_the_range(entries: Seq<RtmpEntry>, net: u16, now: u64)
    requires
        sorted(entries),
        disjoint(entries),
    ensures
        match lookup_entry(entries, net, now) {
            Some(e) => entries.contains(e) && e.range_lo <= net <= e.range_hi && !is_expired(e.expires_at, now),
            None => forall|i: int|
                0 <= i < entries.len() && (#[trigger] entries[i]).range_lo <= net <= entries[i].range_hi ==> is_expired(
                    entries[i].expires_at,
                    now,
                ),
        },
{
    let n = partition(entries, net + 1) as int;
    lemma_partition_bounds(entries, net + 1);
    if n > 0 {
        assert(entries[n - 1].range_lo <= net);
    }
    assert forall|i: int|
        0 <= i < entries.len() && (#[trigger] entries[i]).range_lo <= net <= entries[i].range_hi implies i == n - 1 by {
        if i < n - 1 {
            assert(entries[i].range_hi < entries[n - 1].range_lo);
        }
        if i >= n {
            assert(entries[n].range_lo <= entries[i].range_lo);
        }
    }
}

/// A live route that has just been put in is the one that a lookup in its
/// range finds.
pub proof fn law_inserted_is_found(entries: Seq<RtmpEntry>, new: RtmpEntry, net: u16, now: u64)
    requires
        sorted(entries),
        disjoint(entries),
        new.range_lo <= net <= new.range_hi,
        !is_expired(new.expires_at, now),
    ensures
        lookup_entry(inserted(entries, new), net, now) == Some(new),
{
    law_insert_keeps_order(entries, new);
    let r = inserted(entries, new);
    law_lookup_finds_the_range(r, net, now);
    let kept = without_overlap(entries, new.range_lo, new.range_hi);
    let n = partition(kept, new.range_lo as int) as int;
    lemma_partition_bounds(kept, new.range_lo as int);
    assert(r[n] == new);
    match lookup_entry(r, net, now) {
        Some(e) => {
            let i = choose|i: int| 0 <= i < r.len() && r[i] == e;
            if i < n {
                assert(r[i].range_hi < r[n].range_lo);
            } else if i > n {
                assert(r[n].range_hi < r[i].range_lo);
            }
        },
        None => {
            assert(r[n].range_lo <= net <= r[n].range_hi);
        },
    }
}

impl RtmpTable {
    /// The table's invariant.
    pub open spec fn wf(self) -> bool {
        sorted(self.entries@)
    }

    /// An empty table.
    pub fn new() -> (t: Self)
        ensures
            t.wf(),
            t.entries@ == Seq::<RtmpEntry>::empty(),
    {
        RtmpTable { entries: Vec::new() }
    }

    fn partition_point(&self, bound: u32) -> (n: usize)
        requires
            self.wf(),
        ensures
            n == partition(self.entries@, bound as int),
            n <= self.entries@.len(),
    {
        let mut lo: usize = 0;
        let mut hi: usize = self.entries.len();
        while lo < hi
            invariant
                lo <= hi <= self.entries@.len(),
                self.wf(),
                forall|i: int| 0 <= i < lo ==> (#[trigger] self.entries@[i]).range_lo < bound,
                forall|i: int| hi <= i < self.entries@.len() ==> (#[trigger] self.entries@[i]).range_lo >= bound,
            decreases hi - lo,
        {
            let mid: usize = lo + (hi - lo) / 2;
            if (self.entries[mid].range_lo as u32) < bound {
                assert forall|i: int| 0 <= i < mid + 1 implies (#[trigger] self.entries@[i]).range_lo < bound by {
                    assert(self.entries@[i].range_lo <= self.entries@[mid as int].range_lo);
                }
                lo = mid + 1;
            } else {
                assert forall|i: int| mid <= i < self.entries@.len() implies (#[trigger] self.entries@[i]).range_lo
                    >= bound by {
                    assert(self.entries@[mid as int].range_lo <= self.entries@[i].range_lo);
                }
                hi = mid;
            }
        }
        proof {
            lemma_partition(self.entries@, bound as int, lo as int);
        }
        lo
    }

    /// The live entry whose range holds `net`.
    pub fn lookup(&self, net: u16, now: u64) -> (r: Option<RtmpEntry>)
        requires
            self.wf(),
        ensures
            r == lookup_entry(self.entries@, net, now),
    {
        let n: usize = self.partition_point(net as u32 + 1);
        if n == 0 {
            return None;
        }
        let e = self.entries[n - 1];
        if net <= e.range_hi && !e.expired(now) {
            Some(e)
        } else {
            None
        }
    }

    /// Whether the same range is already routed to the same router on the same
    /// interface.
    fn knows(&self, lo: u16, hi: u16, next_hop: AppleTalkAddress, interface: Interface) -> (r: bool)
        ensures
            r == is_known(self.entries@, lo, hi, next_hop, interface),
    {
        let mut i: usize = 0;
        while i < self.entries.len()
            invariant
                i <= self.entries@.len(),
                forall|k: int|
                    0 <= k < i ==> !((#[trigger] self.entries@[k]).range_lo == lo && self.entries@[k].range_hi == hi
                        && self.entries@[k].next_hop == next_hop && self.entries@[k].interface == interface),
            decreases self.entries@.len() - i,
        {
            let e = self.entries[i];
            if e.range_lo == lo && e.range_hi == hi && e.next_hop == next_hop && e.interface == interface {
                assert(self.entries@[i as int].range_lo == lo);
                return true;
            }
            i += 1;
        }
        false
    }

    /// Puts in a route, in place of everything that overlaps it. Returns
    /// whether the range is new or has another next hop, as opposed to a route
    /// that is already there and only refreshed.
    pub fn insert(
        &mut self,
        lo: u16,
        hi: u16,
        next_hop: AppleTalkAddress,
        hop_count: u8,
        interface: Interface,
        expires_at: Option<u64>,
    ) -> (new: bool)
        requires
            old(self).wf(),
        ensures
            final(self).wf(),
            new == !is_refresh(old(self).entries@, lo, hi, next_hop),
            final(self).entries@ == inserted(
                old(self).entries@,
                (RtmpEntry { range_lo: lo, range_hi: hi, hop_count, next_hop, interface, expires_at }),
            ),
    {
        let mut refresh = false;
        let mut kept: Vec<RtmpEntry> = Vec::new();
        let ghost pred = |e: RtmpEntry| e.range_hi < lo || e.range_lo > hi;
        let ghost all = self.entries@;
        let mut i: usize = 0;
        proof {
            reveal(Seq::filter);
            assert(all.take(0) =~= Seq::<RtmpEntry>::empty());
        }
        while i < self.entries.len()
            invariant
                i <= self.entries@.len(),
                self.entries@ == all,
                pred == (|e: RtmpEntry| e.range_hi < lo || e.range_lo > hi),
                kept@ == all.take(i as int).filter(pred),
                refresh == is_refresh(all.take(i as int), lo, hi, next_hop),
            decreases self.entries@.len() - i,
        {
            let e = self.entries[i];
            proof {
                lemma_filter_step(all, i as int, pred);
                let before = all.take(i as int);
                let after = all.take(i + 1);
                assert forall|k: int| 0 <= k < i implies before[k] == after[k] by {}
                assert(after[i as int] == e);
                if is_refresh(before, lo, hi, next_hop) {
                    let k = choose|k: int|
                        0 <= k < before.len() && (#[trigger] before[k]).range_lo == lo && before[k].range_hi == hi
                            && before[k].next_hop == next_hop;
                    assert(after[k].range_lo == lo);
                }
                if is_refresh(after, lo, hi, next_hop) {
                    let k = choose|k: int|
                        0 <= k < after.len() && (#[trigger] after[k]).range_lo == lo && after[k].range_hi == hi
                            && after[k].next_hop == next_hop;
                    if k < i {
                        assert(before[k].range_lo == lo);
                    }
                }
            }
            if e.range_lo == lo && e.range_hi == hi && e.next_hop == next_hop {
                refresh = true;
            }
            if e.range_hi < lo || e.range_lo > hi {
                kept.push(e);
            }
            i += 1;
        }
        assert(all.take(i as int) =~= all);
        let entry = RtmpEntry { range_lo: lo, range_hi: hi, hop_count, next_hop, interface, expires_at };
        proof {
            lemma_filter_sorted(all, pred);
            law_insert_keeps_order(all, entry);
            assert(kept@ == without_overlap(all, lo, hi));
        }
        self.entries = kept;
        let pos: usize = self.partition_point(lo as u32);
        self.entries.insert(pos, entry);
        !refresh
    }

    /// Takes out the routes that cover exactly `lo..=hi`.
    pub fn remove(&mut self, lo: u16, hi: u16)
        requires
            old(self).wf(),
        ensures
            final(self).wf(),
            final(self).entries@ == without_range(old(self).entries@, lo, hi),
    {
        let mut kept: Vec<RtmpEntry> = Vec::new();
        let ghost pred = not_exactly(lo, hi);
        let ghost all = self.entries@;
        let mut i: usize = 0;
        proof {
            reveal(Seq::filter);
            assert(all.take(0) =~= Seq::<RtmpEntry>::empty());
        }
        while i < self.entries.len()
            invariant
                i <= self.entries@.len(),
                self.entries@ == all,
                pred == not_exactly(lo, hi),
                kept@ == all.take(i as int).filter(pred),
            decreases self.entries@.len() - i,
        {
            let e = self.entries[i];
            proof {
                lemma_filter_step(all, i as int, pred);
            }
            if !(e.range_lo == lo && e.range_hi == hi) {
                kept.push(e);
            }
            i += 1;
        }
        proof {
            assert(all.take(i as int) =~= all);
            lemma_filter_sorted(all, pred);
        }
        self.entries = kept;
    }

    /// The routers of the live entries, each once.
    pub fn all_next_hops_deduped(&self, now: u64) -> (r: Vec<AppleTalkAddress>)
        ensures
            r@ == deduped(live_hops(self.entries@, now)),
    {
        let mut r: Vec<AppleTalkAddress> = Vec::new();
        let mut i: usize = 0;
        while i < self.entries.len()
            invariant
                i <= self.entries@.len(),
                r@ == deduped(live_hops(self.entries@.take(i as int), now)),
            decreases self.entries@.len() - i,
        {
            let e = self.entries[i];
            proof {
                let h = live_hops(self.entries@.take(i as int), now);
                assert(self.entries@.take(i + 1).drop_last() =~= self.entries@.take(i as int));
                assert(h.push(e.next_hop).drop_last() =~= h);
            }
            if !e.expired(now) {
                push_new_address(&mut r, e.next_hop);
            }
            i += 1;
        }
        assert(self.entries@.take(i as int) =~= self.entries@);
        r
    }

    /// Drops the expired entries and returns how many they were.
    pub fn purge_expired(&mut self, now: u64) -> (n: usize)
        requires
            old(self).wf(),
        ensures
            final(self).wf(),
            final(self).entries@ == live_entries(old(self).entries@, now),
            n == old(self).entries@.len() - final(self).entries@.len(),
    {
        let before: usize = self.entries.len();
        let mut kept: Vec<RtmpEntry> = Vec::new();
        let ghost pred = |e: RtmpEntry| !is_expired(e.expires_at, now);
        let ghost all = self.entries@;
        let mut i: usize = 0;
        proof {
            reveal(Seq::filter);
            assert(all.take(0) =~= Seq::<RtmpEntry>::empty());
        }
        while i < self.entries.len()
            invariant
                i <= self.entries@.len(),
                self.entries@ == all,
                pred == (|e: RtmpEntry| !is_expired(e.expires_at, now)),
                kept@ == all.take(i as int).filter(pred),
                kept@.len() <= i,
            decreases self.entries@.len() - i,
        {
            let e = self.entries[i];
            proof {
                lemma_filter_step(all, i as int, pred);
            }
            if !e.expired(now) {
                kept.push(e);
            }
            i += 1;
        }
        proof {
            assert(all.take(i as int) =~= all);
            lemma_filter_sorted(all, pred);
        }
        self.entries = kept;
        before - self.entries.len()
    }
}

// ── ZIP table ────────────────────────────────────────────────────────────────

/// The characters of each name of a list.
pub open spec fn names_of(names: Seq<String>) -> Seq<Seq<char>> {
    Seq::new(names.len(), |i: int| names[i]@)
}

/// A cable range as one number.
pub open spec fn range_key(range: CableRange) -> u32 {
    (range.0 * 0x1_0000 + range.1) as u32
}

/// `list` with `x` at its end, unless it is there already.
pub open spec fn with_member<A>(list: Seq<A>, x: A) -> Seq<A> {
    if list.contains(x) {
        list
    } else {
        list.push(x)
    }
}

/// What the zone table knows: the ranges of each zone and the zones of each
/// range.
#[verifier::ext_equal]
pub struct ZipModel {
    pub zones: Map<Seq<char>, Seq<CableRange>>,
    pub ranges: Map<u32, Seq<Seq<char>>>,
}

impl ZipModel {
    /// The ranges of a zone.
    pub open spec fn ranges_of(self, zone: Seq<char>) -> Seq<CableRange> {
        if self.zones.contains_key(zone) {
            self.zones[zone]
        } else {
            Seq::empty()
        }
    }

    /// The zones of a range.
    pub open spec fn zones_of(self, range: CableRange) -> Seq<Seq<char>> {
        if self.ranges.contains_key(range_key(range)) {
            self.ranges[range_key(range)]
        } else {
            Seq::empty()
        }
    }

    /// A zone has been tied to a range.
    pub open spec fn insert(self, zone: Seq<char>, range: CableRange) -> ZipModel {
        ZipModel {
            zones: self.zones.insert(zone, with_member(self.ranges_of(zone), range)),
            ranges: self.ranges.insert(range_key(range), with_member(self.zones_of(range), zone)),
        }
    }

    /// A zone has been tied to the first `n` of several ranges.
    pub open spec fn insert_ranges(self, zone: Seq<char>, ranges: Seq<CableRange>, n: nat) -> ZipModel
        decreases n,
    {
        if n == 0 {
            self
        } else {
            self.insert_ranges(zone, ranges, (n - 1) as nat).insert(zone, ranges[n - 1])
        }
    }

    /// The first `n` of several zones have been tied to a range.
    pub open spec fn insert_names(self, range: CableRange, names: Seq<Seq<char>>, n: nat) -> ZipModel
        decreases n,
    {
        if n == 0 {
            self
        } else {
            self.insert_names(range, names, (n - 1) as nat).insert(names[n - 1], range)
        }
    }

    /// The first `n` of several zones have been tied to their ranges.
    pub open spec fn insert_zones(self, zones: Seq<(Seq<char>, Seq<CableRange>)>, n: nat) -> ZipModel
        decreases n,
    {
        if n == 0 {
            self
        } else {
            self.insert_zones(zones, (n - 1) as nat).insert_ranges(zones[n - 1].0, zones[n - 1].1, zones[n - 1].1.len())
        }
    }

    /// A zone is gone.
    pub open spec fn remove(self, zone: Seq<char>) -> ZipModel {
        if self.zones.contains_key(zone) {
            ZipModel {
                zones: self.zones.remove(zone),
                ranges: zone_dropped(self.ranges, zone, self.zones[zone], self.zones[zone].len()),
            }
        } else {
            self
        }
    }

    /// The two directions agree: a range is among a zone's ranges exactly when
    /// the zone is among the range's zones.
    pub open spec fn consistent(self) -> bool {
        forall|zone: Seq<char>, range: CableRange|
            #![trigger self.ranges_of(zone).contains(range)]
            #![trigger self.zones_of(range).contains(zone)]
            self.ranges_of(zone).contains(range) <==> self.zones_of(range).contains(zone)
    }
}

/// Which names differ from `zone`.
pub open spec fn other_than(zone: Seq<char>) -> spec_fn(Seq<char>) -> bool {
    |z: Seq<char>| z != zone
}

/// The zones of each range after `zone` has been struck from the first `n` of
/// `at`; a range left without zones is gone.
pub open spec fn zone_dropped(ranges: Map<u32, Seq<Seq<char>>>, zone: Seq<char>, at: Seq<CableRange>, n: nat) -> Map<
    u32,
    Seq<Seq<char>>,
>
    decreases n,
{
    if n == 0 {
        ranges
    } else {
        let before = zone_dropped(ranges, zone, at, (n - 1) as nat);
        let key = range_key(at[n - 1]);
        if before.contains_key(key) {
            let left = before[key].filter(other_than(zone));
            if left.len() == 0 {
                before.remove(key)
            } else {
                before.insert(key, left)
            }
        } else {
            before
        }
    }
}

proof fn lemma_range_key_injective(a: CableRange, b: CableRange)
    ensures
        range_key(a) == range_key(b) ==> a == b,
{
}

proof fn lemma_with_member<A>(list: Seq<A>, x: A, y: A)
    ensures
        with_member(list, x).contains(y) <==> y == x || list.contains(y),
{
    if !list.contains(x) {
        let l = list.push(x);
        assert(l[list.len() as int] == x);
        if list.contains(y) {
            let i = choose|i: int| 0 <= i < list.len() && list[i] == y;
            assert(l[i] == y);
        }
        if l.contains(y) && y != x {
            let i = choose|i: int| 0 <= i < l.len() && l[i] == y;
            assert(list[i] == y);
        }
    }
}

/// Tying a zone to a range, and removing a zone, keep the two directions of
/// the zone table in agreement.
pub proof fn law_zip_stays_consistent(m: ZipModel, zone: Seq<char>, range: CableRange)
    requires
        m.consistent(),
    ensures
        m.insert(zone, range).consistent(),
        m.remove(zone).consistent(),
{
    let a = m.insert(zone, range);
    assert forall|z: Seq<char>, r: CableRange|
        #![trigger a.ranges_of(z).contains(r)]
        #![trigger a.zones_of(r).contains(z)]
        a.ranges_of(z).contains(r) <==> a.zones_of(r).contains(z) by {
        lemma_with_member(m.ranges_of(zone), range, r);
        lemma_with_member(m.zones_of(range), zone, z);
        lemma_range_key_injective(r, range);
        assert(m.ranges_of(z).contains(r) <==> m.zones_of(r).contains(z));
    }
    if m.zones.contains_key(zone) {
        let b = m.remove(zone);
        let at = m.zones[zone];
        assert forall|z: Seq<char>, r: CableRange|
            #![trigger b.ranges_of(z).contains(r)]
            #![trigger b.zones_of(r).contains(z)]
            b.ranges_of(z).contains(r) <==> b.zones_of(r).contains(z) by {
            lemma_zone_dropped(m.ranges, zone, at, at.len(), r, z);
            assert(m.ranges_of(z).contains(r) <==> m.zones_of(r).contains(z));
            if z == zone {
                assert(m.ranges_of(zone) == at);
                if at.contains(r) {
                    let k = choose|k: int| 0 <= k < at.len() && at[k] == r;
                    assert(range_key(at[k]) == range_key(r));
                }
            }
        }
    }
}

spec fn names_at(ranges: Map<u32, Seq<Seq<char>>>, r: CableRange) -> Seq<Seq<char>> {
    if ranges.contains_key(range_key(r)) {
        ranges[range_key(r)]
    } else {
        Seq::empty()
    }
}

proof fn lemma_zone_dropped(
    ranges: Map<u32, Seq<Seq<char>>>,
    zone: Seq<char>,
    at: Seq<CableRange>,
    n: nat,
    r: CableRange,
    z: Seq<char>,
)
    requires
        n <= at.len(),
    ensures
        names_at(zone_dropped(ranges, zone, at, n), r).contains(z) <==> names_at(ranges, r).contains(z) && !(z == zone
            && exists|k: int| 0 <= k < n && range_key(#[trigger] at[k]) == range_key(r)),
    decreases n,
{
    if n > 0 {
        let before = zone_dropped(ranges, zone, at, (n - 1) as nat);
        lemma_zone_dropped(ranges, zone, at, (n - 1) as nat, r, z);
        let key = range_key(at[n - 1]);
        let after = zone_dropped(ranges, zone, at, n);
        if key == range_key(r) {
            assert(0 <= n - 1 < n && range_key(at[n - 1]) == range_key(r));
            if before.contains_key(key) {
                let left = before[key].filter(other_than(zone));
                lemma_filter_contains(before[key], other_than(zone), z);
                assert(names_at(after, r).contains(z) <==> left.contains(z));
            }
        } else {
            assert(names_at(after, r) == names_at(before, r));
        }
        if exists|k: int| 0 <= k < n - 1 && range_key(#[trigger] at[k]) == range_key(r) {
            let k = choose|k: int| 0 <= k < n - 1 && range_key(#[trigger] at[k]) == range_key(r);
            assert(0 <= k < n && range_key(at[k]) == range_key(r));
        }
        if exists|k: int| 0 <= k < n && range_key(#[trigger] at[k]) == range_key(r) {
            let k = choose|k: int| 0 <= k < n && range_key(#[trigger] at[k]) == range_key(r);
            if k < n - 1 {
                assert(0 <= k < n - 1 && range_key(at[k]) == range_key(r));
            }
        }
    }
}

/// Zones and cable ranges, each looked up from the other.
pub struct ZipTable {
    pub range_to_zones: HashMap<u32, Vec<String>>,
    pub zone_to_ranges: StrMap<Vec<CableRange>>,
}

fn range_key_of(range: CableRange) -> (k: u32)
    ensures
        k == range_key(range),
{
    range.0 as u32 * 0x1_0000 + range.1 as u32
}

fn copy_ranges(ranges: &[CableRange]) -> (r: Vec<CableRange>)
    ensures
        r@ == ranges@,
{
    let mut r: Vec<CableRange> = Vec::new();
    let mut i: usize = 0;
    while i < ranges.len()
        invariant
            i <= ranges@.len(),
            r@ == ranges@.take(i as int),
        decreases ranges@.len() - i,
    {
        r.push(ranges[i]);
        i += 1;
        assert(r@ =~= ranges@.take(i as int));
    }
    assert(r@ =~= ranges@);
    r
}

fn has_range(ranges: &Vec<CableRange>, range: CableRange) -> (r: bool)
    ensures
        r == ranges@.contains(range),
{
    let mut i: usize = 0;
    while i < ranges.len()
        invariant
            i <= ranges@.len(),
            forall|j: int| 0 <= j < i ==> ranges@[j] != range,
        decreases ranges@.len() - i,
    {
        if ranges[i].0 == range.0 && ranges[i].1 == range.1 {
            assert(ranges@[i as int] == range);
            return true;
        }
        i += 1;
    }
    false
}

fn has_name(names: &Vec<String>, name: &str) -> (r: bool)
    ensures
        r == names_of(names@).contains(name@),
{
    let mut i: usize = 0;
    while i < names.len()
        invariant
            i <= names@.len(),
            forall|j: int| 0 <= j < i ==> names_of(names@)[j] != name@,
        decreases names@.len() - i,
    {
        if str_eq(names[i].as_str(), name) {
            assert(names_of(names@)[i as int] == name@);
            return true;
        }
        i += 1;
    }
    false
}

fn names_without(names: &Vec<String>, name: &str) -> (r: Vec<String>)
    ensures
        names_of(r@) == names_of(names@).filter(other_than(name@)),
{
    let mut r: Vec<String> = Vec::new();
    let ghost pred = other_than(name@);
    let ghost all = names_of(names@);
    let mut i: usize = 0;
    proof {
        reveal(Seq::filter);
        assert(all.take(0) =~= Seq::<Seq<char>>::empty());
        assert(names_of(r@) =~= Seq::<Seq<char>>::empty());
    }
    while i < names.len()
        invariant
            i <= names@.len(),
            all == names_of(names@),
            pred == other_than(name@),
            names_of(r@) == all.take(i as int).filter(pred),
        decreases names@.len() - i,
    {
        proof {
            lemma_filter_step(all, i as int, pred);
        }
        if !str_eq(names[i].as_str(), name) {
            let ghost before = names_of(r@);
            r.push(names[i].clone());
            assert(names_of(r@) =~= before.push(all[i as int]));
        }
        i += 1;
    }
    assert(all.take(i as int) =~= all);
    r
}

impl ZipTable {
    /// The table's invariant.
    pub open spec fn wf(self) -> bool {
        self.zone_to_ranges.wf()
    }

    /// What the table knows.
    pub open spec fn view(self) -> ZipModel {
        ZipModel {
            zones: Map::new(
                |z: Seq<char>| self.zone_to_ranges@.contains_key(z),
                |z: Seq<char>| self.zone_to_ranges@[z]@,
            ),
            ranges: Map::new(
                |k: u32| self.range_to_zones@.contains_key(k),
                |k: u32| names_of(self.range_to_zones@[k]@),
            ),
        }
    }

    /// An empty table.
    pub fn new() -> (t: Self)
        ensures
            t.wf(),
            t@ == (ZipModel { zones: Map::empty(), ranges: Map::empty() }),
    {
        broadcast use vstd::std_specs::hash::group_hash_axioms;

        let t = ZipTable { range_to_zones: HashMap::new(), zone_to_ranges: StrMap::new() };
        assert(t@ =~= (ZipModel { zones: Map::empty(), ranges: Map::empty() }));
        t
    }

    /// Ties `zone` to `range`.
    pub fn insert_zone_range(&mut self, zone: &str, range: CableRange)
        requires
            old(self).wf(),
        ensures
            final(self).wf(),
            final(self)@ == old(self)@.insert(zone@, range),
    {
        broadcast use vstd::std_specs::hash::group_hash_axioms;

        let ghost before = self@;
        let key: u32 = range_key_of(range);
        let mut zones: Vec<String> = match self.range_to_zones.remove(&key) {
            Some(v) => v,
            None => Vec::new(),
        };
        assert(names_of(zones@) =~= before.zones_of(range));
        if !has_name(&zones, zone) {
            let ghost names = names_of(zones@);
            zones.push(zone.to_owned());
            assert(names_of(zones@) =~= names.push(zone@));
        }
        self.range_to_zones.insert(key, zones);

        let mut ranges: Vec<CableRange> = match self.zone_to_ranges.get(zone) {
            Some(v) => copy_ranges(v),
            None => Vec::new(),
        };
        assert(ranges@ =~= before.ranges_of(zone@));
        if !has_range(&ranges, range) {
            ranges.push(range);
        }
        self.zone_to_ranges.insert(zone.to_owned(), ranges);
        assert(self@.zones =~= before.insert(zone@, range).zones);
        assert(self@.ranges =~= before.insert(zone@, range).ranges);
    }

    /// Forgets `zone`.
    pub fn remove_zone(&mut self, zone: &str)
        requires
            old(self).wf(),
        ensures
            final(self).wf(),
            final(self)@ == old(self)@.remove(zone@),
    {
        broadcast use vstd::std_specs::hash::group_hash_axioms;

        let ghost before = self@;
        let removed = self.zone_to_ranges.remove(zone);
        if let Some(ranges) = removed {
            let ghost zones = self@.zones;
            assert(zones =~= before.zones.remove(zone@));
            assert(self@.ranges =~= before.ranges);
            let mut i: usize = 0;
            while i < ranges.len()
                invariant
                    i <= ranges@.len(),
                    self.wf(),
                    self@.zones == zones,
                    self@.ranges == zone_dropped(before.ranges, zone@, ranges@, i as nat),
                decreases ranges@.len() - i,
            {
                broadcast use vstd::std_specs::hash::group_hash_axioms;

                let key: u32 = range_key_of(ranges[i]);
                let ghost now = self@;
                let taken = self.range_to_zones.remove(&key);
                if let Some(names) = taken {
                    let left = names_without(&names, zone);
                    assert(names_of(left@).len() == left@.len());
                    if left.len() > 0 {
                        self.range_to_zones.insert(key, left);
                        assert(self@.ranges =~= now.ranges.insert(key, names_of(left@)));
                    } else {
                        assert(self@.ranges =~= now.ranges.remove(key));
                    }
                } else {
                    assert(self@.ranges =~= now.ranges);
                }
                assert(self@.zones =~= zones);
                i += 1;
            }
        } else {
            assert(self@.zones =~= before.zones);
            assert(self@.ranges =~= before.ranges);
        }
    }

    /// The ranges of `zone`, in the order in which they came.
    pub fn ranges_for_zone(&self, zone: &str) -> (r: Vec<CableRange>)
        requires
            self.wf(),
        ensures
            r@ == self@.ranges_of(zone@),
    {
        match self.zone_to_ranges.get(zone) {
            Some(v) => copy_ranges(v),
            None => Vec::new(),
        }
    }
}

// ── Changes and snapshots ────────────────────────────────────────────────────

/// A change that subscribers of the table have to hear of.
#[derive(Debug, PartialEq, Eq)]
pub enum RouteChange {
    SetLocalRange(CableRange),
    InsertRoute { lo: u16, hi: u16, next_hop: AppleTalkAddress, interface: Option<Interface> },
    RemoveRoute { lo: u16, hi: u16 },
    InsertZone { zone: String, ranges: Vec<CableRange> },
    RemoveZone { zone: String },
}

/// A copy of the table's contents at one point in time.
#[derive(Debug)]
pub struct RouteSnapshot {
    pub local_range: Option<CableRange>,
    /// Start, end, next hop and interface of every live route.
    pub routes: Vec<(u16, u16, AppleTalkAddress, Option<Interface>)>,
    /// Name and cable ranges of every known zone.
    pub zones: Vec<(String, Vec<CableRange>)>,
}

impl Default for RouteSnapshot {
    fn default() -> (r: Self)
        ensures
            r.local_range == None::<CableRange>,
            r.routes@.len() == 0,
            r.zones@.len() == 0,
    {
        RouteSnapshot { local_range: None, routes: Vec::new(), zones: Vec::new() }
    }
}

/// The zones of a snapshot.
pub open spec fn zone_list(zones: Seq<(String, Vec<CableRange>)>) -> Seq<(Seq<char>, Seq<CableRange>)> {
    Seq::new(zones.len(), |i: int| (zones[i].0@, zones[i].1@))
}

/// A local cable range and the interface that it belongs to.
#[derive(Debug, Clone, Copy)]
pub struct LocalRange {
    pub interface: Interface,
    pub range: CableRange,
}

/// The first local range that holds `net`.
pub open spec fn first_local(ranges: Seq<LocalRange>, net: u16) -> Option<LocalRange>
    decreases ranges.len(),
{
    if ranges.len() == 0 {
        None
    } else if ranges[0].range.0 <= net <= ranges[0].range.1 {
        Some(ranges[0])
    } else {
        first_local(ranges.drop_first(), net)
    }
}

/// The local ranges after the range of an interface has been set: the first
/// slot of that interface has it, or else a new last slot.
pub open spec fn local_set(ranges: Seq<LocalRange>, interface: Interface, range: CableRange) -> Seq<LocalRange>
    decreases ranges.len(),
{
    if ranges.len() == 0 {
        seq![(LocalRange { interface, range })]
    } else if ranges[0].interface == interface {
        ranges.update(0, LocalRange { interface, range })
    } else {
        seq![ranges[0]] + local_set(ranges.drop_first(), interface, range)
    }
}

/// Whether an interface's first slot already has this range.
pub open spec fn local_is(ranges: Seq<LocalRange>, interface: Interface, range: CableRange) -> bool
    decreases ranges.len(),
{
    if ranges.len() == 0 {
        false
    } else if ranges[0].interface == interface {
        ranges[0].range == range
    } else {
        local_is(ranges.drop_first(), interface, range)
    }
}

/// What the routing table knows.
#[verifier::ext_equal]
pub struct RouteModel {
    pub mode: LearningMode,
    pub local: Seq<LocalRange>,
    pub entries: Seq<RtmpEntry>,
    pub default_router: Option<DefaultRouter>,
    pub zip: ZipModel,
}

/// A zone as an NBP name gives it.
pub enum ZoneView {
    Local,
    All,
    Named(Seq<char>),
}

impl<'a> View for NbpZone<'a> {
    type V = ZoneView;

    open spec fn view(&self) -> ZoneView {
        match *self {
            NbpZone::Local => ZoneView::Local,
            NbpZone::All => ZoneView::All,
            NbpZone::Named(s) => ZoneView::Named(s@),
        }
    }
}

/// The routers of the live routes to the ranges, in order, with repetitions.
pub open spec fn range_hops(entries: Seq<RtmpEntry>, ranges: Seq<CableRange>, now: u64) -> Seq<AppleTalkAddress>
    decreases ranges.len(),
{
    if ranges.len() == 0 {
        Seq::empty()
    } else {
        match lookup_entry(entries, ranges.last().0, now) {
            Some(e) => range_hops(entries, ranges.drop_last(), now).push(e.next_hop),
            None => range_hops(entries, ranges.drop_last(), now),
        }
    }
}

impl RouteModel {
    /// The default router, if it is still heard.
    pub open spec fn live_default(self, now: u64) -> Option<DefaultRouter> {
        match self.default_router {
            Some(r) => if is_expired(r.expires_at, now) {
                None
            } else {
                Some(r)
            },
            None => None,
        }
    }

    /// The next hop for a network: our own cable before a route, a route
    /// before the default router.
    pub open spec fn resolve(self, net: u16, now: u64) -> Option<NextHop> {
        match first_local(self.local, net) {
            Some(l) => Some(NextHop::Local(l.interface)),
            None => match lookup_entry(self.entries, net, now) {
                Some(e) => Some(NextHop::Via { router: e.next_hop, interface: e.interface }),
                None => match self.live_default(now) {
                    Some(r) => Some(NextHop::Via { router: r.addr, interface: r.interface }),
                    None => None,
                },
            },
        }
    }

    /// Whether any router is known.
    pub open spec fn has_router(self, now: u64) -> bool {
        live_hops(self.entries, now).len() > 0 || self.live_default(now) is Some
    }

    /// Every router once: those of the routes, then the default router.
    pub open spec fn all_routers(self, now: u64) -> Seq<AppleTalkAddress> {
        let hops = deduped(live_hops(self.entries, now));
        match self.live_default(now) {
            Some(r) => push_new(hops, r.addr),
            None => hops,
        }
    }

    /// The routers that lead to a zone's ranges, each once.
    pub open spec fn routers_for_zone(self, zone: Seq<char>, now: u64) -> Seq<AppleTalkAddress> {
        deduped(range_hops(self.entries, self.zip.ranges_of(zone), now))
    }

    /// How a lookup in a zone is dispatched.
    pub open spec fn nbp_dispatch(self, zone: ZoneView, now: u64) -> DispatchView {
        match zone {
            ZoneView::Local => DispatchView::LocalBroadcast,
            ZoneView::All => if self.all_routers(now).len() == 0 {
                DispatchView::LocalBroadcast
            } else {
                DispatchView::RouterBroadcast(self.all_routers(now))
            },
            ZoneView::Named(name) => if self.routers_for_zone(name, now).len() > 0 {
                DispatchView::RouterBroadcast(self.routers_for_zone(name, now))
            } else if self.all_routers(now).len() > 0 {
                DispatchView::RouterBroadcast(self.all_routers(now))
            } else {
                DispatchView::ZoneUnknown
            },
        }
    }
}

/// A route as an RTMP tuple advertises it.
pub open spec fn learned_entry(
    src: AppleTalkAddress,
    interface: Interface,
    tuple: (u16, u16, u8),
    expires_at: u64,
) -> RtmpEntry {
    RtmpEntry {
        range_lo: tuple.0,
        range_hi: tuple.1,
        hop_count: tuple.2,
        next_hop: src,
        interface,
        expires_at: Some(expires_at),
    }
}

/// The routes after the first `n` tuples of an RTMP packet.
pub open spec fn learned(
    entries: Seq<RtmpEntry>,
    src: AppleTalkAddress,
    interface: Interface,
    tuples: Seq<(u16, u16, u8)>,
    expires_at: u64,
    n: nat,
) -> Seq<RtmpEntry>
    decreases n,
{
    if n == 0 {
        entries
    } else {
        inserted(
            learned(entries, src, interface, tuples, expires_at, (n - 1) as nat),
            learned_entry(src, interface, tuples[n - 1], expires_at),
        )
    }
}

/// The changes that the first `n` tuples of an RTMP packet bring: one for each
/// route that was not there before on the same interface.
pub open spec fn learned_changes(
    entries: Seq<RtmpEntry>,
    src: AppleTalkAddress,
    interface: Interface,
    tuples: Seq<(u16, u16, u8)>,
    expires_at: u64,
    n: nat,
) -> Seq<RouteChange>
    decreases n,
{
    if n == 0 {
        Seq::empty()
    } else {
        let before = learned_changes(entries, src, interface, tuples, expires_at, (n - 1) as nat);
        let t = tuples[n - 1];
        if is_known(
            learned(entries, src, interface, tuples, expires_at, (n - 1) as nat),
            t.0,
            t.1,
            src,
            interface,
        ) {
            before
        } else {
            before.push(
                RouteChange::InsertRoute { lo: t.0, hi: t.1, next_hop: src, interface: Some(interface) },
            )
        }
    }
}

/// A route of a snapshot as a table entry; a route without an interface is
/// taken to be on EtherTalk.
pub open spec fn restored_entry(route: (u16, u16, AppleTalkAddress, Option<Interface>)) -> RtmpEntry {
    RtmpEntry {
        range_lo: route.0,
        range_hi: route.1,
        hop_count: 0,
        next_hop: route.2,
        interface: match route.3 {
            Some(i) => i,
            None => Interface::EtherTalk,
        },
        expires_at: None,
    }
}

/// The routes that the first `n` routes of a snapshot make.
pub open spec fn restored(routes: Seq<(u16, u16, AppleTalkAddress, Option<Interface>)>, n: nat) -> Seq<RtmpEntry>
    decreases n,
{
    if n == 0 {
        Seq::empty()
    } else {
        inserted(restored(routes, (n - 1) as nat), restored_entry(routes[n - 1]))
    }
}

/// A route as a snapshot holds it.
pub open spec fn snapshot_route(e: RtmpEntry) -> (u16, u16, AppleTalkAddress, Option<Interface>) {
    (e.range_lo, e.range_hi, e.next_hop, Some(e.interface))
}

/// The routing table.
pub struct RouteTable {
    pub mode: LearningMode,
    pub local_ranges: Vec<LocalRange>,
    pub rtmp: RtmpTable,
    pub default_router: Option<DefaultRouter>,
    pub zip: ZipTable,
}

impl RouteTable {
    /// The table's invariant.
    pub open spec fn wf(self) -> bool {
        self.rtmp.wf() && self.zip.wf()
    }

    /// What the table knows.
    pub open spec fn view(self) -> RouteModel {
        RouteModel {
            mode: self.mode,
            local: self.local_ranges@,
            entries: self.rtmp.entries@,
            default_router: self.default_router,
            zip: self.zip@,
        }
    }

    /// An empty table.
    pub fn new(mode: LearningMode) -> (t: Self)
        ensures
            t.wf(),
            t@ == (RouteModel {
                mode,
                local: Seq::empty(),
                entries: Seq::empty(),
                default_router: None,
                zip: ZipModel { zones: Map::empty(), ranges: Map::empty() },
            }),
    {
        RouteTable {
            mode,
            local_ranges: Vec::new(),
            rtmp: RtmpTable::new(),
            default_router: None,
            zip: ZipTable::new(),
        }
    }

    /// Sets the local range of an interface. Returns whether that changed it.
    fn upsert_local_range(&mut self, interface: Interface, range: CableRange) -> (changed: bool)
        requires
            old(self).wf(),
        ensures
            final(self).wf(),
            changed == !local_is(old(self)@.local, interface, range),
            final(self)@ == (RouteModel { local: local_set(old(self)@.local, interface, range), ..old(self)@ }),
    {
        let ghost all = self.local_ranges@;
        let mut i: usize = 0;
        proof {
            assert(all.skip(0) =~= all);
            assert(all.take(0) + local_set(all, interface, range) =~= local_set(all, interface, range));
        }
        while i < self.local_ranges.len()
            invariant
                i <= self.local_ranges@.len(),
                self.local_ranges@ == all,
                self.wf(),
                *self == *old(self),
                local_is(all, interface, range) == local_is(all.skip(i as int), interface, range),
                local_set(all, interface, range) == all.take(i as int) + local_set(
                    all.skip(i as int),
                    interface,
                    range,
                ),
            decreases self.local_ranges@.len() - i,
        {
            let slot = self.local_ranges[i];
            let ghost rest = all.skip(i as int);
            assert(rest[0] == all[i as int]);
            if slot.interface == interface {
                let changed = !(slot.range.0 == range.0 && slot.range.1 == range.1);
                self.local_ranges.set(i, LocalRange { interface, range });
                assert(self.local_ranges@ =~= all.take(i as int) + rest.update(0, LocalRange { interface, range }));
                return changed;
            }
            i += 1;
            proof {
                assert(rest.drop_first() =~= all.skip(i as int));
                assert(all.take(i - 1) + (seq![rest[0]] + local_set(all.skip(i as int), interface, range)) =~= all.take(
                    i as int,
                ) + local_set(all.skip(i as int), interface, range));
            }
        }
        proof {
            assert(all.skip(i as int).len() == 0);
            assert(all.take(i as int) =~= all);
        }
        self.local_ranges.push(LocalRange { interface, range });
        assert(self.local_ranges@ =~= all + seq![(LocalRange { interface, range })]);
        true
    }

    /// Sets the cable range of an interface. Setting the same range again
    /// changes nothing and is not reported.
    pub fn set_local_range_for(&mut self, interface: Interface, lo: u16, hi: u16) -> (change: Option<RouteChange>)
        requires
            old(self).wf(),
        ensures
            final(self).wf(),
            final(self)@ == (RouteModel { local: local_set(old(self)@.local, interface, (lo, hi)), ..old(self)@ }),
            change == if local_is(old(self)@.local, interface, (lo, hi)) {
                None
            } else {
                Some(RouteChange::SetLocalRange((lo, hi)))
            },
    {
        if self.upsert_local_range(interface, (lo, hi)) {
            Some(RouteChange::SetLocalRange((lo, hi)))
        } else {
            None
        }
    }

    /// Puts in a route that never expires. A route that is already there, on
    /// the same interface, is not reported.
    pub fn insert_route(&mut self, lo: u16, hi: u16, next_hop: AppleTalkAddress, interface: Interface) -> (change:
        Option<RouteChange>)
        requires
            old(self).wf(),
        ensures
            final(self).wf(),
            final(self)@ == (RouteModel {
                entries: inserted(
                    old(self)@.entries,
                    RtmpEntry { range_lo: lo, range_hi: hi, hop_count: 0, next_hop, interface, expires_at: None },
                ),
                ..old(self)@
            }),
            change == if is_known(old(self)@.entries, lo, hi, next_hop, interface) {
                None
            } else {
                Some(RouteChange::InsertRoute { lo, hi, next_hop, interface: Some(interface) })
            },
    {
        let known = self.rtmp.knows(lo, hi, next_hop, interface);
        let _ = self.rtmp.insert(lo, hi, next_hop, 0, interface, None);
        if known {
            None
        } else {
            Some(RouteChange::InsertRoute { lo, hi, next_hop, interface: Some(interface) })
        }
    }

    /// Takes out the route that covers exactly `lo..=hi`.
    pub fn remove_route(&mut self, lo: u16, hi: u16) -> (change: RouteChange)
        requires
            old(self).wf(),
        ensures
            final(self).wf(),
            final(self)@ == (RouteModel {
                entries: without_range(old(self)@.entries, lo, hi),
                ..old(self)@
            }),
            change == (RouteChange::RemoveRoute { lo, hi }),
    {
        self.rtmp.remove(lo, hi);
        RouteChange::RemoveRoute { lo, hi }
    }

    /// Ties a zone to cable ranges.
    pub fn insert_zone(&mut self, zone: &str, ranges: &[CableRange]) -> (change: RouteChange)
        requires
            old(self).wf(),
        ensures
            final(self).wf(),
            final(self)@ == (RouteModel {
                zip: old(self)@.zip.insert_ranges(zone@, ranges@, ranges@.len()),
                ..old(self)@
            }),
            change matches RouteChange::InsertZone { zone: z, ranges: r } && z@ == zone@ && r@ == ranges@,
    {
        let mut i: usize = 0;
        while i < ranges.len()
            invariant
                i <= ranges@.len(),
                self.wf(),
                self@ == (RouteModel { zip: old(self)@.zip.insert_ranges(zone@, ranges@, i as nat), ..old(self)@ }),
            decreases ranges@.len() - i,
        {
            self.zip.insert_zone_range(zone, ranges[i]);
            i += 1;
        }
        RouteChange::InsertZone { zone: zone.to_owned(), ranges: copy_ranges(ranges) }
    }

    /// Forgets a zone.
    pub fn remove_zone(&mut self, zone: &str) -> (change: RouteChange)
        requires
            old(self).wf(),
        ensures
            final(self).wf(),
            final(self)@ == (RouteModel { zip: old(self)@.zip.remove(zone@), ..old(self)@ }),
            change matches RouteChange::RemoveZone { zone: z } && z@ == zone@,
    {
        self.zip.remove_zone(zone);
        RouteChange::RemoveZone { zone: zone.to_owned() }
    }

    /// Replaces the contents of the table, without reporting a change.
    pub fn replace_contents(&mut self, snapshot: RouteSnapshot)
        requires
            old(self).wf(),
        ensures
            final(self).wf(),
            final(self)@ == (RouteModel {
                mode: old(self)@.mode,
                local: match snapshot.local_range {
                    Some(range) => seq![(LocalRange { interface: Interface::EtherTalk, range })],
                    None => Seq::empty(),
                },
                entries: restored(snapshot.routes@, snapshot.routes@.len()),
                default_router: None,
                zip: (ZipModel { zones: Map::empty(), ranges: Map::empty() }).insert_zones(
                    zone_list(snapshot.zones@),
                    snapshot.zones@.len(),
                ),
            }),
    {
        let mut local_ranges: Vec<LocalRange> = Vec::new();
        if let Some(range) = snapshot.local_range {
            local_ranges.push(LocalRange { interface: Interface::EtherTalk, range });
        }
        let mut rtmp = RtmpTable::new();
        let mut i: usize = 0;
        while i < snapshot.routes.len()
            invariant
                i <= snapshot.routes@.len(),
                rtmp.wf(),
                rtmp.entries@ == restored(snapshot.routes@, i as nat),
            decreases snapshot.routes@.len() - i,
        {
            let (lo, hi, next_hop, tag) = snapshot.routes[i];
            let interface = match tag {
                Some(t) => t,
                None => Interface::EtherTalk,
            };
            rtmp.insert(lo, hi, next_hop, 0, interface, None);
            i += 1;
        }
        let mut zip = ZipTable::new();
        let ghost empty = zip@;
        let ghost zones = zone_list(snapshot.zones@);
        let mut j: usize = 0;
        while j < snapshot.zones.len()
            invariant
                j <= snapshot.zones@.len(),
                zip.wf(),
                zones == zone_list(snapshot.zones@),
                zip@ == empty.insert_zones(zones, j as nat),
            decreases snapshot.zones@.len() - j,
        {
            let ghost before = zip@;
            let mut k: usize = 0;
            while k < snapshot.zones[j].1.len()
                invariant
                    j < snapshot.zones@.len(),
                    k <= snapshot.zones@[j as int].1@.len(),
                    zip.wf(),
                    zones == zone_list(snapshot.zones@),
                    zip@ == before.insert_ranges(zones[j as int].0, zones[j as int].1, k as nat),
                decreases snapshot.zones@[j as int].1@.len() - k,
            {
                zip.insert_zone_range(snapshot.zones[j].0.as_str(), snapshot.zones[j].1[k]);
                k += 1;
            }
            j += 1;
        }
        self.local_ranges = local_ranges;
        self.rtmp = rtmp;
        self.default_router = None;
        self.zip = zip;
        assert(self@.local =~= match snapshot.local_range {
            Some(range) => seq![(LocalRange { interface: Interface::EtherTalk, range })],
            None => Seq::empty(),
        });
    }

    /// Copies the contents of the table: the first local range, the live
    /// routes and all zones.
    pub fn snapshot(&self, now: u64) -> (s: RouteSnapshot)
        requires
            self.wf(),
        ensures
            s.local_range == if self@.local.len() > 0 {
                Some(self@.local[0].range)
            } else {
                None
            },
            s.routes@ == live_entries(self@.entries, now).map_values(|e: RtmpEntry| snapshot_route(e)),
            zone_list(s.zones@).no_duplicates(),
            forall|z: Seq<char>, r: Seq<CableRange>|
                zone_list(s.zones@).contains((z, r)) <==> self@.zip.zones.contains_key(z) && self@.zip.zones[z] == r,
    {
        let local_range = if self.local_ranges.len() > 0 {
            Some(self.local_ranges[0].range)
        } else {
            None
        };
        let mut routes: Vec<(u16, u16, AppleTalkAddress, Option<Interface>)> = Vec::new();
        let ghost pred = |e: RtmpEntry| !is_expired(e.expires_at, now);
        let ghost shape = |e: RtmpEntry| snapshot_route(e);
        let ghost all = self.rtmp.entries@;
        let mut i: usize = 0;
        proof {
            reveal(Seq::filter);
            assert(all.take(0) =~= Seq::<RtmpEntry>::empty());
            assert(routes@ =~= all.take(0).filter(pred).map_values(shape));
        }
        while i < self.rtmp.entries.len()
            invariant
                i <= all.len(),
                all == self.rtmp.entries@,
                pred == (|e: RtmpEntry| !is_expired(e.expires_at, now)),
                shape == (|e: RtmpEntry| snapshot_route(e)),
                routes@ == all.take(i as int).filter(pred).map_values(shape),
            decreases all.len() - i,
        {
            let e = self.rtmp.entries[i];
            let ghost kept = all.take(i as int).filter(pred);
            proof {
                lemma_filter_step(all, i as int, pred);
            }
            if !e.expired(now) {
                routes.push((e.range_lo, e.range_hi, e.next_hop, Some(e.interface)));
                assert(routes@ =~= kept.push(e).map_values(shape));
            }
            i += 1;
        }
        assert(all.take(i as int) =~= all);
        let mut zones: Vec<(String, Vec<CableRange>)> = Vec::new();
        let mut j: usize = 0;
        while j < self.zip.zone_to_ranges.entries.len()
            invariant
                j <= self.zip.zone_to_ranges.entries@.len(),
                self.wf(),
                zones@.len() == j,
                forall|k: int|
                    0 <= k < j ==> (#[trigger] zones@[k]).0@ == self.zip.zone_to_ranges.entries@[k].0@ && zones@[k].1@
                        == self.zip.zone_to_ranges.entries@[k].1@,
            decreases self.zip.zone_to_ranges.entries@.len() - j,
        {
            let name = self.zip.zone_to_ranges.entries[j].0.clone();
            let ranges = copy_ranges(&self.zip.zone_to_ranges.entries[j].1);
            zones.push((name, ranges));
            j += 1;
        }
        proof {
            let list = zone_list(zones@);
            let m = self.zip.zone_to_ranges;
            assert forall|a: int, b: int| 0 <= a < list.len() && 0 <= b < list.len() && a != b implies list[a]
                != list[b] by {
                if a < b {
                    assert(m.entries@[a].0@ != m.entries@[b].0@);
                } else {
                    assert(m.entries@[b].0@ != m.entries@[a].0@);
                }
            }
            assert forall|z: Seq<char>, r: Seq<CableRange>|
                list.contains((z, r)) <==> self@.zip.zones.contains_key(z) && self@.zip.zones[z] == r by {
                if list.contains((z, r)) {
                    let k = choose|k: int| 0 <= k < list.len() && list[k] == (z, r);
                    m.lemma_entry(k);
                }
                if self@.zip.zones.contains_key(z) && self@.zip.zones[z] == r {
                    let k = choose|k: int| m.key_is(k, z);
                    m.lemma_entry(k);
                    assert(list[k] == (z, r));
                }
            }
        }
        RouteSnapshot { local_range, routes, zones }
    }

    /// Takes in an RTMP packet received from `src` on `interface`; each tuple
    /// is start, end and hop count. Returns the changes, refreshed routes not
    /// among them. Does nothing in static mode.
    pub fn handle_rtmp(
        &mut self,
        src: AppleTalkAddress,
        interface: Interface,
        tuples: &[(u16, u16, u8)],
        now: u64,
    ) -> (changes: Vec<RouteChange>)
        requires
            old(self).wf(),
            now + RTMP_ROUTE_TTL <= u64::MAX,
        ensures
            final(self).wf(),
            old(self)@.mode == LearningMode::Static ==> final(self)@ == old(self)@ && changes@.len() == 0,
            old(self)@.mode == LearningMode::Dynamic ==> {
                let expires_at = (now + RTMP_ROUTE_TTL) as u64;
                &&& final(self)@ == (RouteModel {
                    entries: learned(old(self)@.entries, src, interface, tuples@, expires_at, tuples@.len()),
                    ..old(self)@
                })
                &&& changes@ == learned_changes(
                    old(self)@.entries,
                    src,
                    interface,
                    tuples@,
                    expires_at,
                    tuples@.len(),
                )
            },
    {
        let mut changes: Vec<RouteChange> = Vec::new();
        if self.mode == LearningMode::Static {
            return changes;
        }
        let expires_at: u64 = now + RTMP_ROUTE_TTL;
        let ghost entries = self@.entries;
        let mut i: usize = 0;
        while i < tuples.len()
            invariant
                i <= tuples@.len(),
                self.wf(),
                entries == old(self)@.entries,
                self@ == (RouteModel {
                    entries: learned(entries, src, interface, tuples@, expires_at, i as nat),
                    ..old(self)@
                }),
                changes@ == learned_changes(entries, src, interface, tuples@, expires_at, i as nat),
            decreases tuples@.len() - i,
        {
            let (lo, hi, hops) = tuples[i];
            let known = self.rtmp.knows(lo, hi, src, interface);
            let _ = self.rtmp.insert(lo, hi, src, hops, interface, Some(expires_at));
            if !known {
                changes.push(RouteChange::InsertRoute { lo, hi, next_hop: src, interface: Some(interface) });
            }
            i += 1;
        }
        changes
    }

    /// Notes that a router is advertising on an interface, which makes it the
    /// default router. Does nothing in static mode.
    pub fn note_router(&mut self, router: AppleTalkAddress, interface: Interface, now: u64)
        requires
            old(self).wf(),
            now + RTMP_ROUTE_TTL <= u64::MAX,
        ensures
            final(self).wf(),
            final(self)@ == if old(self)@.mode == LearningMode::Static {
                old(self)@
            } else {
                RouteModel {
                    default_router: Some(
                        DefaultRouter { addr: router, interface, expires_at: Some((now + RTMP_ROUTE_TTL) as u64) },
                    ),
                    ..old(self)@
                }
            },
    {
        if self.mode == LearningMode::Static {
            return;
        }
        self.default_router = Some(
            DefaultRouter { addr: router, interface, expires_at: Some(now + RTMP_ROUTE_TTL) },
        );
    }

    /// Drops what has expired. Returns how many routes that were.
    pub fn purge_expired(&mut self, now: u64) -> (n: usize)
        requires
            old(self).wf(),
        ensures
            final(self).wf(),
            final(self)@ == (RouteModel {
                entries: live_entries(old(self)@.entries, now),
                default_router: old(self)@.live_default(now),
                ..old(self)@
            }),
            n == old(self)@.entries.len() - final(self)@.entries.len(),
    {
        let n: usize = self.rtmp.purge_expired(now);
        let gone = match &self.default_router {
            Some(r) => r.expired(now),
            None => false,
        };
        if gone {
            self.default_router = None;
        }
        n
    }

    /// Takes in a ZIP reply that ties a range to zones. Does nothing in static
    /// mode.
    pub fn handle_zip_reply(&mut self, range: CableRange, zones: &[&str])
        requires
            old(self).wf(),
        ensures
            final(self).wf(),
            final(self)@ == if old(self)@.mode == LearningMode::Static {
                old(self)@
            } else {
                RouteModel {
                    zip: old(self)@.zip.insert_names(
                        range,
                        Seq::new(zones@.len(), |i: int| zones@[i]@),
                        zones@.len(),
                    ),
                    ..old(self)@
                }
            },
    {
        if self.mode == LearningMode::Static {
            return;
        }
        let ghost names = Seq::new(zones@.len(), |i: int| zones@[i]@);
        let mut i: usize = 0;
        while i < zones.len()
            invariant
                i <= zones@.len(),
                self.wf(),
                names == Seq::new(zones@.len(), |i: int| zones@[i]@),
                self@ == (RouteModel { zip: old(self)@.zip.insert_names(range, names, i as nat), ..old(self)@ }),
            decreases zones@.len() - i,
        {
            let zone = zones[i];
            assert(names[i as int] == zone@);
            self.zip.insert_zone_range(zone, range);
            i += 1;
        }
    }

    fn local_range_for(&self, net: u16) -> (r: Option<LocalRange>)
        ensures
            r == first_local(self@.local, net),
    {
        let ghost all = self.local_ranges@;
        let mut i: usize = 0;
        assert(all.skip(0) =~= all);
        while i < self.local_ranges.len()
            invariant
                i <= all.len(),
                all == self.local_ranges@,
                first_local(all, net) == first_local(all.skip(i as int), net),
            decreases all.len() - i,
        {
            let l = self.local_ranges[i];
            assert(all.skip(i as int)[0] == l);
            assert(all.skip(i as int).drop_first() =~= all.skip(i + 1));
            if l.range.0 <= net && net <= l.range.1 {
                return Some(l);
            }
            i += 1;
        }
        None
    }

    /// Whether a network is one of ours.
    pub fn is_local(&self, net: u16) -> (r: bool)
        ensures
            r == (first_local(self@.local, net) is Some),
    {
        self.local_range_for(net).is_some()
    }

    fn live_default_router(&self, now: u64) -> (r: Option<DefaultRouter>)
        ensures
            r == self@.live_default(now),
    {
        match self.default_router {
            Some(r) => if r.expired(now) {
                None
            } else {
                Some(r)
            },
            None => None,
        }
    }

    /// The next hop for a network.
    pub fn resolve(&self, net: u16, now: u64) -> (r: Option<NextHop>)
        requires
            self.wf(),
        ensures
            r == self@.resolve(net, now),
    {
        if let Some(l) = self.local_range_for(net) {
            return Some(NextHop::Local(l.interface));
        }
        if let Some(e) = self.rtmp.lookup(net, now) {
            return Some(NextHop::Via { router: e.next_hop, interface: e.interface });
        }
        match self.live_default_router(now) {
            Some(r) => Some(NextHop::Via { router: r.addr, interface: r.interface }),
            None => None,
        }
    }

    /// The router for a remote network.
    pub fn route_for(&self, net: u16, now: u64) -> (r: Option<AppleTalkAddress>)
        requires
            self.wf(),
        ensures
            r == match self@.resolve(net, now) {
                Some(NextHop::Via { router, interface }) => Some(router),
                _ => None,
            },
    {
        match self.resolve(net, now) {
            Some(NextHop::Via { router, interface }) => Some(router),
            _ => None,
        }
    }

    /// The cable that leads to a network.
    pub fn interface_for_net(&self, net: u16, now: u64) -> (r: Option<Interface>)
        requires
            self.wf(),
        ensures
            r == match self@.resolve(net, now) {
                Some(NextHop::Local(interface)) => Some(interface),
                Some(NextHop::Via { router, interface }) => Some(interface),
                None => None,
            },
    {
        match self.resolve(net, now) {
            Some(NextHop::Local(interface)) => Some(interface),
            Some(NextHop::Via { router, interface }) => Some(interface),
            None => None,
        }
    }

    /// Whether any router is known.
    pub fn has_router(&self, now: u64) -> (r: bool)
        ensures
            r == self@.has_router(now),
    {
        let mut i: usize = 0;
        assert(self.rtmp.entries@.take(0) =~= Seq::<RtmpEntry>::empty());
        while i < self.rtmp.entries.len()
            invariant
                i <= self.rtmp.entries@.len(),
                live_hops(self.rtmp.entries@.take(i as int), now).len() == 0,
            decreases self.rtmp.entries@.len() - i,
        {
            assert(self.rtmp.entries@.take(i + 1).drop_last() =~= self.rtmp.entries@.take(i as int));
            if !self.rtmp.entries[i].expired(now) {
                proof {
                    lemma_live_hops_grow(self.rtmp.entries@, now, i + 1);
                }
                return true;
            }
            i += 1;
        }
        assert(self.rtmp.entries@.take(i as int) =~= self.rtmp.entries@);
        self.live_default_router(now).is_some()
    }

    fn all_routers(&self, now: u64) -> (r: Vec<AppleTalkAddress>)
        ensures
            r@ == self@.all_routers(now),
    {
        let mut routers = self.rtmp.all_next_hops_deduped(now);
        if let Some(r) = self.live_default_router(now) {
            push_new_address(&mut routers, r.addr);
        }
        routers
    }

    /// The routers that can forward NBP requests for a zone.
    pub fn routers_for_zone(&self, zone: &str, now: u64) -> (r: Vec<AppleTalkAddress>)
        requires
            self.wf(),
        ensures
            r@ == self@.routers_for_zone(zone@, now),
    {
        let ranges = self.zip.ranges_for_zone(zone);
        let mut r: Vec<AppleTalkAddress> = Vec::new();
        let mut i: usize = 0;
        while i < ranges.len()
            invariant
                i <= ranges@.len(),
                self.wf(),
                r@ == deduped(range_hops(self.rtmp.entries@, ranges@.take(i as int), now)),
            decreases ranges@.len() - i,
        {
            let ghost hops = range_hops(self.rtmp.entries@, ranges@.take(i as int), now);
            assert(ranges@.take(i + 1).drop_last() =~= ranges@.take(i as int));
            if let Some(e) = self.rtmp.lookup(ranges[i].0, now) {
                push_new_address(&mut r, e.next_hop);
                assert(hops.push(e.next_hop).drop_last() =~= hops);
            }
            i += 1;
        }
        assert(ranges@.take(i as int) =~= ranges@);
        r
    }

    /// How to dispatch an NBP lookup in a zone.
    pub fn nbp_dispatch(&self, zone: NbpZone<'_>, now: u64) -> (d: NbpDispatch)
        requires
            self.wf(),
        ensures
            d@ == self@.nbp_dispatch(zone@, now),
    {
        match zone {
            NbpZone::Local => NbpDispatch::LocalBroadcast,
            NbpZone::All => {
                let routers = self.all_routers(now);
                if routers.len() == 0 {
                    NbpDispatch::LocalBroadcast
                } else {
                    NbpDispatch::RouterBroadcast(routers)
                }
            },
            NbpZone::Named(name) => {
                let routers = self.routers_for_zone(name, now);
                if routers.len() > 0 {
                    return NbpDispatch::RouterBroadcast(routers);
                }
                let any = self.all_routers(now);
                if any.len() == 0 {
                    NbpDispatch::ZoneUnknown
                } else {
                    NbpDispatch::RouterBroadcast(any)
                }
            },
        }
    }
}

proof fn lemma_live_hops_grow(entries: Seq<RtmpEntry>, now: u64, n: int)
    requires
        0 <= n <= entries.len(),
    ensures
        live_hops(entries.take(n), now).len() <= live_hops(entries, now).len(),
    decreases entries.len() - n,
{
    if n < entries.len() {
        lemma_live_hops_grow(entries, now, n + 1);
        assert(entries.take(n + 1).drop_last() =~= entries.take(n));
    } else {
        assert(entries.take(n) =~= entries);
    }
}

// ── Laws ─────────────────────────────────────────────────────────────────────

/// Expired routes are invisible before they are purged: purging at `now`
/// changes no lookup from then on.
pub proof fn law_purge_changes_no_lookup(entries: Seq<RtmpEntry>, now: u64, net: u16, later: u64)
    requires
        sorted(entries),
        disjoint(entries),
        now <= later,
    ensures
        lookup_entry(live_entries(entries, now), net, later) == lookup_entry(entries, net, later),
{
    let pred = |e: RtmpEntry| !is_expired(e.expires_at, now);
    let live = live_entries(entries, now);
    assert(live == entries.filter(pred));
    lemma_filter_sorted(entries, pred);
    law_lookup_finds_the_range(entries, net, later);
    law_lookup_finds_the_range(live, net, later);
    match lookup_entry(entries, net, later) {
        Some(e) => {
            lemma_filter_contains(entries, pred, e);
            let k = choose|k: int| 0 <= k < live.len() && live[k] == e;
            match lookup_entry(live, net, later) {
                Some(f) => {
                    let j = choose|j: int| 0 <= j < live.len() && live[j] == f;
                    if j < k {
                        assert(live[j].range_hi < live[k].range_lo);
                    } else if k < j {
                        assert(live[k].range_hi < live[j].range_lo);
                    }
                },
                None => {
                    assert(live[k].range_lo <= net <= live[k].range_hi);
                },
            }
        },
        None => {
            if let Some(f) = lookup_entry(live, net, later) {
                lemma_filter_contains(entries, pred, f);
                let j = choose|j: int| 0 <= j < entries.len() && entries[j] == f;
                assert(entries[j].range_lo <= net <= entries[j].range_hi);
            }
        },
    }
}

/// A network on our own cable is reached directly whatever routes there are,
/// and a live route is preferred to the default router.
pub proof fn law_specific_wins(m: RouteModel, net: u16, now: u64)
    ensures
        first_local(m.local, net) matches Some(l) ==> m.resolve(net, now) == Some(NextHop::Local(l.interface)),
        first_local(m.local, net) is None ==> (lookup_entry(m.entries, net, now) matches Some(e) ==> m.resolve(net, now)
            == Some(NextHop::Via { router: e.next_hop, interface: e.interface })),
{
}

/// The routers of a broadcast are distinct, and there is one exactly when a
/// router is known.
pub proof fn law_routers_are_distinct(m: RouteModel, zone: Seq<char>, now: u64)
    ensures
        m.all_routers(now).no_duplicates(),
        m.routers_for_zone(zone, now).no_duplicates(),
        m.has_router(now) <==> m.all_routers(now).len() > 0,
{
    let hops = live_hops(m.entries, now);
    crate::addr::law_deduped(hops);
    crate::addr::law_deduped(range_hops(m.entries, m.zip.ranges_of(zone), now));
    if hops.len() > 0 {
        assert(hops.contains(hops[0]));
        assert(deduped(hops).contains(hops[0]));
    }
    if deduped(hops).len() > 0 {
        assert(deduped(hops).contains(deduped(hops)[0]));
        assert(hops.contains(deduped(hops)[0]));
    }
}

proof fn lemma_insert_at_end(entries: Seq<RtmpEntry>, new: RtmpEntry)
    requires
        new.range_lo <= new.range_hi,
        forall|i: int| 0 <= i < entries.len() ==> (#[trigger] entries[i]).range_lo <= entries[i].range_hi
            && entries[i].range_hi < new.range_lo,
    ensures
        inserted(entries, new) == entries.push(new),
{
    let pred = |e: RtmpEntry| e.range_hi < new.range_lo || e.range_lo > new.range_hi;
    lemma_filter_all(entries, pred);
    assert(without_overlap(entries, new.range_lo, new.range_hi) == entries);
    lemma_partition(entries, new.range_lo as int, entries.len() as int);
    assert(entries.insert(entries.len() as int, new) =~= entries.push(new));
}

/// A route that is put in and not reported as a change changes no route: ranges,
/// routers and interfaces are what they were.
pub proof fn law_unreported_route_changes_nothing(entries: Seq<RtmpEntry>, new: RtmpEntry)
    requires
        sorted(entries),
        disjoint(entries),
        is_known(entries, new.range_lo, new.range_hi, new.next_hop, new.interface),
    ensures
        inserted(entries, new).map_values(|e: RtmpEntry| snapshot_route(e)) == entries.map_values(
            |e: RtmpEntry| snapshot_route(e),
        ),
{
    let i = choose|i: int|
        0 <= i < entries.len() && (#[trigger] entries[i]).range_lo == new.range_lo && entries[i].range_hi == new.range_hi
            && entries[i].next_hop == new.next_hop && entries[i].interface == new.interface;
    let pred = |e: RtmpEntry| e.range_hi < new.range_lo || e.range_lo > new.range_hi;
    let front = entries.take(i);
    let own = seq![entries[i]];
    let back = entries.skip(i + 1);
    assert(entries =~= front + own + back);
    Seq::filter_distributes_over_add(front + own, back, pred);
    Seq::filter_distributes_over_add(front, own, pred);
    assert forall|k: int| 0 <= k < front.len() implies pred(#[trigger] front[k]) by {
        assert(entries[k].range_hi < entries[i].range_lo);
    }
    assert forall|k: int| 0 <= k < back.len() implies pred(#[trigger] back[k]) by {
        assert(back[k] == entries[i + 1 + k]);
        assert(entries[i].range_hi < entries[i + 1 + k].range_lo);
    }
    lemma_filter_all(front, pred);
    lemma_filter_all(back, pred);
    assert(own.filter(pred) =~= Seq::<RtmpEntry>::empty()) by {
        reveal_with_fuel(Seq::filter, 2);
        assert(own.drop_last().len() == 0);
        assert(entries[i].range_lo <= entries[i].range_hi);
        assert(!pred(own.last()));
    }
    let kept = without_overlap(entries, new.range_lo, new.range_hi);
    assert(kept =~= front + back);
    assert forall|k: int| 0 <= k < i implies (#[trigger] kept[k]).range_lo < new.range_lo by {
        assert(kept[k] == entries[k]);
        assert(entries[k].range_hi < entries[i].range_lo);
        assert(entries[k].range_lo <= entries[k].range_hi);
    }
    if i < kept.len() {
        assert(kept[i] == entries[i + 1]);
    }
    lemma_partition(kept, new.range_lo as int, i);
    assert(inserted(entries, new) =~= entries.update(i, new));
    assert(inserted(entries, new).map_values(|e: RtmpEntry| snapshot_route(e)) =~= entries.map_values(
        |e: RtmpEntry| snapshot_route(e),
    ));
}

/// A snapshot of a table of proper ranges without overlap restores its live
/// routes: same ranges, same routers, same interfaces, in the same order.
pub proof fn law_snapshot_restores_routes(entries: Seq<RtmpEntry>, now: u64, n: nat)
    requires
        sorted(entries),
        disjoint(entries),
        n <= live_entries(entries, now).len(),
    ensures
        ({
            let live = live_entries(entries, now);
            let routes = live.map_values(|e: RtmpEntry| snapshot_route(e));
            &&& restored(routes, n).len() == n
            &&& forall|i: int| 0 <= i < n ==> snapshot_route(#[trigger] restored(routes, n)[i]) == snapshot_route(live[i])
        }),
    decreases n,
{
    let pred = |e: RtmpEntry| !is_expired(e.expires_at, now);
    let live = live_entries(entries, now);
    assert(live == entries.filter(pred));
    lemma_filter_sorted(entries, pred);
    let routes = live.map_values(|e: RtmpEntry| snapshot_route(e));
    if n > 0 {
        law_snapshot_restores_routes(entries, now, (n - 1) as nat);
        let before = restored(routes, (n - 1) as nat);
        let new = restored_entry(routes[n - 1]);
        assert(snapshot_route(new) == snapshot_route(live[n - 1]));
        assert forall|i: int| 0 <= i < before.len() implies (#[trigger] before[i]).range_lo <= before[i].range_hi
            && before[i].range_hi < new.range_lo by {
            assert(snapshot_route(before[i]) == snapshot_route(live[i]));
            assert(live[i].range_hi < live[n - 1].range_lo);
        }
        assert(live[n - 1].range_lo <= live[n - 1].range_hi);
        lemma_insert_at_end(before, new);
    }
}

/// What has a time to expire at is expired from that time on, and what has none
/// never is.
pub proof fn law_routes_expire_at_their_time(t: u64, now: u64)
    ensures
        is_expired(Some(t), now) <==> t <= now,
        !is_expired(None, now),
{
}

/// A route that is put in takes the place of those that it overlaps, and of no
/// others.
pub proof fn law_new_route_replaces_what_it_overlaps(entries: Seq<RtmpEntry>, new: RtmpEntry, e: RtmpEntry)
    ensures
        inserted(entries, new).contains(e) <==> e == new || entries.contains(e) && (e.range_hi < new.range_lo
            || new.range_hi < e.range_lo),
{
    let pred = |x: RtmpEntry| x.range_hi < new.range_lo || x.range_lo > new.range_hi;
    let kept = without_overlap(entries, new.range_lo, new.range_hi);
    let at = partition(kept, new.range_lo as int) as int;
    lemma_partition_bounds(kept, new.range_lo as int);
    let all = inserted(entries, new);
    lemma_filter_contains(entries, pred, e);
    assert(all[at] == new);
    if kept.contains(e) {
        let k = choose|k: int| 0 <= k < kept.len() && kept[k] == e;
        if k < at {
            assert(all[k] == e);
        } else {
            assert(all[k + 1] == e);
        }
    }
    if all.contains(e) && e != new {
        let i = choose|i: int| 0 <= i < all.len() && all[i] == e;
        let k = if i < at {
            i
        } else {
            i - 1
        };
        assert(kept[k] == e);
    }
}

/// Taking out a range takes out just the routes of exactly that range.
pub proof fn law_removal_is_exact(entries: Seq<RtmpEntry>, lo: u16, hi: u16, e: RtmpEntry)
    ensures
        without_range(entries, lo, hi).contains(e) <==> entries.contains(e) && (e.range_lo != lo || e.range_hi != hi),
{
    lemma_filter_contains(entries, not_exactly(lo, hi), e);
}

/// Purging leaves just the routes whose time has not come.
pub proof fn law_purge_leaves_the_living(entries: Seq<RtmpEntry>, now: u64, e: RtmpEntry)
    ensures
        live_entries(entries, now).contains(e) <==> entries.contains(e) && match e.expires_at {
            Some(t) => now < t,
            None => true,
        },
{
    lemma_filter_contains(entries, |x: RtmpEntry| !is_expired(x.expires_at, now), e);
}

/// A route is a refresh exactly where its range is known by way of the same
/// router, and known exactly where also the interface is the same.
pub proof fn law_known_routes_agree(
    entries: Seq<RtmpEntry>,
    lo: u16,
    hi: u16,
    next_hop: AppleTalkAddress,
    interface: Interface,
)
    ensures
        is_refresh(entries, lo, hi, next_hop) <==> exists|e: RtmpEntry|
            #[trigger] entries.contains(e) && (e.range_lo, e.range_hi) == (lo, hi) && e.next_hop == next_hop,
        is_known(entries, lo, hi, next_hop, interface) <==> exists|e: RtmpEntry|
            #[trigger] entries.contains(e) && (e.range_lo, e.range_hi) == (lo, hi) && e.next_hop == next_hop
                && e.interface == interface,
{
    if is_refresh(entries, lo, hi, next_hop) {
        let i = choose|i: int|
            0 <= i < entries.len() && (#[trigger] entries[i]).range_lo == lo && entries[i].range_hi == hi
                && entries[i].next_hop == next_hop;
        assert(entries.contains(entries[i]));
    }
    if is_known(entries, lo, hi, next_hop, interface) {
        let i = choose|i: int|
            0 <= i < entries.len() && (#[trigger] entries[i]).range_lo == lo && entries[i].range_hi == hi
                && entries[i].next_hop == next_hop && entries[i].interface == interface;
        assert(entries.contains(entries[i]));
    }
    assert forall|e: RtmpEntry| #[trigger] entries.contains(e) implies exists|i: int|
        0 <= i < entries.len() && #[trigger] entries[i] == e by {}
}

/// The one live route whose range holds a network is the one that is found.
pub proof fn law_lookup_is_by_range(entries: Seq<RtmpEntry>, e: RtmpEntry, net: u16, now: u64)
    requires
        sorted(entries),
        disjoint(entries),
        entries.contains(e),
        e.range_lo <= net <= e.range_hi,
        e.expires_at matches Some(t) ==> now < t,
    ensures
        lookup_entry(entries, net, now) == Some(e),
{
    law_lookup_finds_the_range(entries, net, now);
    let i = choose|i: int| 0 <= i < entries.len() && entries[i] == e;
    assert(entries[i].range_lo <= net <= entries[i].range_hi);
    match lookup_entry(entries, net, now) {
        Some(f) => {
            let j = choose|j: int| 0 <= j < entries.len() && entries[j] == f;
            if j < i {
                assert(entries[j].range_hi < entries[i].range_lo);
            } else if i < j {
                assert(entries[i].range_hi < entries[j].range_lo);
            }
        },
        None => {},
    }
}

/// Whatever order a table has, what a lookup finds holds the network and has not
/// expired.
pub proof fn law_found_route_holds_the_network(entries: Seq<RtmpEntry>, net: u16, now: u64)
    requires
        sorted(entries),
    ensures
        lookup_entry(entries, net, now) matches Some(e) ==> entries.contains(e) && e.range_lo <= net <= e.range_hi && (
        e.expires_at matches Some(t) ==> now < t),
{
    lemma_partition_bounds(entries, net + 1);
    let n = partition(entries, net + 1) as int;
    if n > 0 {
        assert(entries[n - 1].range_lo <= net);
    }
}

/// Our own cables are searched in order: the first one that holds the network.
pub proof fn law_first_cable_is_found(ranges: Seq<LocalRange>, net: u16)
    ensures
        first_local(ranges, net) matches Some(l) ==> exists|i: int|
            0 <= i < ranges.len() && #[trigger] ranges[i] == l && l.range.0 <= net <= l.range.1 && forall|k: int|
                0 <= k < i ==> !((#[trigger] ranges[k]).range.0 <= net <= ranges[k].range.1),
        first_local(ranges, net) is None ==> forall|k: int|
            0 <= k < ranges.len() ==> !((#[trigger] ranges[k]).range.0 <= net <= ranges[k].range.1),
    decreases ranges.len(),
{
    if ranges.len() > 0 {
        if ranges[0].range.0 <= net <= ranges[0].range.1 {
            assert(first_local(ranges, net) == Some(ranges[0]));
        } else {
            let rest = ranges.drop_first();
            law_first_cable_is_found(rest, net);
            assert forall|k: int| 0 < k < ranges.len() implies #[trigger] ranges[k] == rest[k - 1] by {}
            match first_local(ranges, net) {
                Some(l) => {
                    let i = choose|i: int|
                        0 <= i < rest.len() && #[trigger] rest[i] == l && l.range.0 <= net <= l.range.1 && forall|k: int|
                            0 <= k < i ==> !((#[trigger] rest[k]).range.0 <= net <= rest[k].range.1);
                    assert(ranges[i + 1] == l);
                    assert forall|k: int| 0 <= k < i + 1 implies !((#[trigger] ranges[k]).range.0 <= net
                        <= ranges[k].range.1) by {
                        if k > 0 {
                            assert(ranges[k] == rest[k - 1]);
                        }
                    }
                },
                None => {},
            }
        }
    }
}

/// The range of a cable is set for its interface alone: the first entry of the
/// interface has it afterwards, or a new one at the end, and all others stay.
pub proof fn law_cable_range_is_set(ranges: Seq<LocalRange>, interface: Interface, range: CableRange, k: int)
    requires
        0 <= k < ranges.len(),
    ensures
        ({
            let after = local_set(ranges, interface, range);
            &&& ranges.len() <= after.len() <= ranges.len() + 1
            &&& after.contains(LocalRange { interface, range })
            &&& ranges[k].interface != interface ==> after[k] == ranges[k]
            &&& (after.len() == ranges.len() <==> exists|i: int| 0 <= i < ranges.len() && (#[trigger] ranges[i]).interface == interface)
            &&& local_is(after, interface, range)
        }),
    decreases ranges.len(),
{
    let after = local_set(ranges, interface, range);
    let rest = ranges.drop_first();
    if ranges[0].interface == interface {
        assert(after[0] == (LocalRange { interface, range }));
    } else if rest.len() == 0 {
        assert(local_set(rest, interface, range) =~= seq![(LocalRange { interface, range })]);
        assert(after[1] == (LocalRange { interface, range }));
        let tail = after.drop_first();
        assert(tail =~= seq![(LocalRange { interface, range })]);
        assert(local_is(tail, interface, range));
    } else {
        let tail = local_set(rest, interface, range);
        law_cable_range_is_set(rest, interface, range, if k > 0 {
            k - 1
        } else {
            0
        });
        assert(after.drop_first() =~= tail);
        let j = choose|j: int| 0 <= j < tail.len() && tail[j] == (LocalRange { interface, range });
        assert(after[j + 1] == (LocalRange { interface, range }));
        if exists|i: int| 0 <= i < ranges.len() && (#[trigger] ranges[i]).interface == interface {
            let i = choose|i: int| 0 <= i < ranges.len() && (#[trigger] ranges[i]).interface == interface;
            assert(rest[i - 1].interface == interface);
        }
        if exists|i: int| 0 <= i < rest.len() && (#[trigger] rest[i]).interface == interface {
            let i = choose|i: int| 0 <= i < rest.len() && (#[trigger] rest[i]).interface == interface;
            assert(ranges[i + 1].interface == interface);
        }
    }
}

/// The range of a cable is known exactly where the first entry of its interface
/// has it; `i` is the number of entries before that one.
pub proof fn law_cable_range_is_known(ranges: Seq<LocalRange>, interface: Interface, range: CableRange, i: int)
    requires
        0 <= i <= ranges.len(),
        forall|k: int| 0 <= k < i ==> (#[trigger] ranges[k]).interface != interface,
        i < ranges.len() ==> ranges[i].interface == interface,
    ensures
        local_is(ranges, interface, range) <==> i < ranges.len() && ranges[i].range == range,
    decreases ranges.len(),
{
    if i > 0 {
        let rest = ranges.drop_first();
        assert(ranges[0].interface != interface);
        assert forall|k: int| 0 <= k < i - 1 implies (#[trigger] rest[k]).interface != interface by {
            assert(rest[k] == ranges[k + 1]);
        }
        law_cable_range_is_known(rest, interface, range, i - 1);
    }
}

/// The first cable that is set is the only one.
pub proof fn law_first_cable_is_set(interface: Interface, range: CableRange)
    ensures
        ({
            let after = local_set(Seq::empty(), interface, range);
            &&& after.len() == 1
            &&& after[0].interface == interface
            &&& after[0].range == range
        }),
{
}

/// How a network is reached: directly where one of our cables holds it; else by
/// way of the router of the live route that holds it; else by way of the default
/// router, until its time has come; else not at all.
pub proof fn law_networks_are_reached(m: RouteModel, net: u16, now: u64)
    ensures
        first_local(m.local, net) matches Some(l) ==> m.resolve(net, now) == Some(NextHop::Local(l.interface)),
        first_local(m.local, net) is None ==> match lookup_entry(m.entries, net, now) {
            Some(e) => m.resolve(net, now) == Some(NextHop::Via { router: e.next_hop, interface: e.interface }),
            None => match m.default_router {
                Some(r) => m.resolve(net, now) == if (r.expires_at matches Some(t) && t <= now) {
                    None
                } else {
                    Some(NextHop::Via { router: r.addr, interface: r.interface })
                },
                None => m.resolve(net, now) is None,
            },
        },
{
}

/// The default router is there until its time has come.
pub proof fn law_default_router_expires(m: RouteModel, now: u64)
    ensures
        m.live_default(now) is Some <==> m.default_router is Some && (m.default_router->0.expires_at matches Some(t) ==> now
            < t),
        m.live_default(now) is Some ==> m.live_default(now) == m.default_router,
{
}

/// What is learned from a router goes by way of that router, on the interface
/// where it was heard, over the range and at the distance that it tells, until its
/// time.
pub proof fn law_learned_route_is_as_told(src: AppleTalkAddress, interface: Interface, tuple: (u16, u16, u8), expires_at: u64)
    ensures
        ({
            let e = learned_entry(src, interface, tuple, expires_at);
            &&& e.range_lo == tuple.0 && e.range_hi == tuple.1 && e.hop_count == tuple.2
            &&& e.next_hop == src && e.interface == interface && e.expires_at == Some(expires_at)
        }),
{
}

/// A route out of a snapshot is over its range, by way of its router, on its
/// interface or else on EtherTalk, and never expires; a route goes into a snapshot
/// with the same range, router and interface.
pub proof fn law_restored_route_is_as_saved(route: (u16, u16, AppleTalkAddress, Option<Interface>), e: RtmpEntry)
    ensures
        restored_entry(route).range_lo == route.0,
        restored_entry(route).range_hi == route.1,
        restored_entry(route).next_hop == route.2,
        restored_entry(route).hop_count == 0,
        restored_entry(route).expires_at is None,
        route.3 matches Some(i) ==> restored_entry(route).interface == i,
        route.3 is None ==> restored_entry(route).interface == Interface::EtherTalk,
        snapshot_route(e).0 == e.range_lo,
        snapshot_route(e).1 == e.range_hi,
        snapshot_route(e).2 == e.next_hop,
        snapshot_route(e).3 == Some(e.interface),
{
}

/// A network that a router tells of is found by way of that router, unless a
/// later tuple tells of it as well.
pub proof fn law_told_network_is_found(
    entries: Seq<RtmpEntry>,
    src: AppleTalkAddress,
    interface: Interface,
    tuples: Seq<(u16, u16, u8)>,
    expires_at: u64,
    n: nat,
    i: int,
    net: u16,
    now: u64,
)
    requires
        sorted(entries),
        disjoint(entries),
        0 <= i < n <= tuples.len(),
        forall|j: int| 0 <= j < n ==> (#[trigger] tuples[j]).0 <= tuples[j].1,
        forall|j: int| i < j < n ==> (#[trigger] tuples[j]).1 < tuples[i].0 || tuples[i].1 < tuples[j].0,
        tuples[i].0 <= net <= tuples[i].1,
        now < expires_at,
    ensures
        ({
            let found = lookup_entry(learned(entries, src, interface, tuples, expires_at, n), net, now);
            &&& found matches Some(e) && e.next_hop == src && e.interface == interface && e.range_lo == tuples[i].0
                && e.range_hi == tuples[i].1 && e.hop_count == tuples[i].2 && e.expires_at == Some(expires_at)
        }),
        sorted(learned(entries, src, interface, tuples, expires_at, n)),
        disjoint(learned(entries, src, interface, tuples, expires_at, n)),
    decreases n,
{
    lemma_learned_stays(entries, src, interface, tuples, expires_at, (n - 1) as nat);
    let before = learned(entries, src, interface, tuples, expires_at, (n - 1) as nat);
    let new = learned_entry(src, interface, tuples[n - 1], expires_at);
    law_insert_keeps_order(before, new);
    let after = inserted(before, new);
    if i < n - 1 {
        law_told_network_is_found(entries, src, interface, tuples, expires_at, (n - 1) as nat, i, net, now);
        let e = lookup_entry(before, net, now)->0;
        law_lookup_finds_the_range(before, net, now);
        law_new_route_replaces_what_it_overlaps(before, new, e);
        assert(tuples[n - 1].1 < tuples[i].0 || tuples[i].1 < tuples[n - 1].0);
        law_lookup_is_by_range(after, e, net, now);
    } else {
        law_inserted_is_found(before, new, net, now);
    }
}

proof fn lemma_learned_stays(
    entries: Seq<RtmpEntry>,
    src: AppleTalkAddress,
    interface: Interface,
    tuples: Seq<(u16, u16, u8)>,
    expires_at: u64,
    n: nat,
)
    requires
        sorted(entries),
        disjoint(entries),
        n <= tuples.len(),
        forall|j: int| 0 <= j < n ==> (#[trigger] tuples[j]).0 <= tuples[j].1,
    ensures
        sorted(learned(entries, src, interface, tuples, expires_at, n)),
        disjoint(learned(entries, src, interface, tuples, expires_at, n)),
    decreases n,
{
    if n > 0 {
        lemma_learned_stays(entries, src, interface, tuples, expires_at, (n - 1) as nat);
        let before = learned(entries, src, interface, tuples, expires_at, (n - 1) as nat);
        assert(tuples[n - 1].0 <= tuples[n - 1].1);
        law_insert_keeps_order(before, learned_entry(src, interface, tuples[n - 1], expires_at));
    }
}

/// Routes that a router does not tell of stay as they are.
pub proof fn law_untold_routes_stay(
    entries: Seq<RtmpEntry>,
    src: AppleTalkAddress,
    interface: Interface,
    tuples: Seq<(u16, u16, u8)>,
    expires_at: u64,
    n: nat,
    e: RtmpEntry,
)
    requires
        n <= tuples.len(),
        forall|j: int| 0 <= j < n ==> (#[trigger] tuples[j]).1 < e.range_lo || e.range_hi < tuples[j].0,
        e.range_lo <= e.range_hi,
        forall|j: int| 0 <= j < n ==> (#[trigger] tuples[j]).0 <= tuples[j].1,
    ensures
        learned(entries, src, interface, tuples, expires_at, n).contains(e) <==> entries.contains(e),
    decreases n,
{
    if n > 0 {
        law_untold_routes_stay(entries, src, interface, tuples, expires_at, (n - 1) as nat, e);
        let before = learned(entries, src, interface, tuples, expires_at, (n - 1) as nat);
        law_new_route_replaces_what_it_overlaps(before, learned_entry(src, interface, tuples[n - 1], expires_at), e);
        assert(tuples[n - 1].1 < e.range_lo || e.range_hi < tuples[n - 1].0);
        assert(tuples[n - 1].0 <= tuples[n - 1].1);
    }
}

/// What is reported of a router's broadcast are routes by way of that router, on
/// its interface, over ranges that it told of; a range is left out only where it
/// was known in just that way before.
pub proof fn law_learned_routes_are_reported(
    entries: Seq<RtmpEntry>,
    src: AppleTalkAddress,
    interface: Interface,
    tuples: Seq<(u16, u16, u8)>,
    expires_at: u64,
    n: nat,
    i: int,
)
    requires
        0 <= i < n <= tuples.len(),
    ensures
        ({
            let changes = learned_changes(entries, src, interface, tuples, expires_at, n);
            let before = learned(entries, src, interface, tuples, expires_at, i as nat);
            let known = exists|e: RtmpEntry|
                #[trigger] before.contains(e) && (e.range_lo, e.range_hi) == (tuples[i].0, tuples[i].1) && e.next_hop == src
                    && e.interface == interface;
            &&& changes.len() <= n
            &&& !known ==> changes.contains(
                RouteChange::InsertRoute { lo: tuples[i].0, hi: tuples[i].1, next_hop: src, interface: Some(interface) },
            )
            &&& forall|c: RouteChange| #[trigger]
                changes.contains(c) ==> c is InsertRoute && c->InsertRoute_next_hop == src && c->InsertRoute_interface == Some(
                    interface,
                )
        }),
    decreases n,
{
    let changes = learned_changes(entries, src, interface, tuples, expires_at, n);
    let fewer = learned_changes(entries, src, interface, tuples, expires_at, (n - 1) as nat);
    let before = learned(entries, src, interface, tuples, expires_at, (n - 1) as nat);
    let t = tuples[n - 1];
    let last = RouteChange::InsertRoute { lo: t.0, hi: t.1, next_hop: src, interface: Some(interface) };
    law_known_routes_agree(before, t.0, t.1, src, interface);
    if n > 1 {
        law_learned_routes_are_reported(entries, src, interface, tuples, expires_at, (n - 1) as nat, if i < n - 1 {
            i
        } else {
            0
        });
    } else {
        assert(fewer =~= Seq::<RouteChange>::empty());
    }
    assert forall|c: RouteChange| #[trigger] changes.contains(c) implies c == last || fewer.contains(c) by {
        let k = choose|k: int| 0 <= k < changes.len() && changes[k] == c;
        if k < fewer.len() {
            assert(fewer[k] == c);
        }
    }
    assert forall|c: RouteChange| fewer.contains(c) implies #[trigger] changes.contains(c) by {
        let k = choose|k: int| 0 <= k < fewer.len() && fewer[k] == c;
        assert(changes[k] == c);
    }
    if !is_known(before, t.0, t.1, src, interface) {
        assert(changes.last() == last);
        assert(changes.contains(last));
    }
}

/// The routers behind live routes stand in the order of their routes.
pub proof fn law_live_hops_are_those_of_live_routes(entries: Seq<RtmpEntry>, now: u64)
    ensures
        live_hops(entries, now) == live_entries(entries, now).map_values(|e: RtmpEntry| e.next_hop),
    decreases entries.len(),
{
    let pred = |e: RtmpEntry| !is_expired(e.expires_at, now);
    reveal(Seq::filter);
    if entries.len() == 0 {
        assert(live_hops(entries, now) =~= live_entries(entries, now).map_values(|e: RtmpEntry| e.next_hop));
    } else {
        let init = entries.drop_last();
        law_live_hops_are_those_of_live_routes(init, now);
        assert(live_hops(entries, now) =~= live_entries(entries, now).map_values(|e: RtmpEntry| e.next_hop));
    }
}

/// The routers for a zone are those behind the live routes of its ranges.
pub proof fn law_zone_routers_are_behind_its_ranges(entries: Seq<RtmpEntry>, ranges: Seq<CableRange>, now: u64, a: AppleTalkAddress)
    ensures
        range_hops(entries, ranges, now).contains(a) <==> exists|i: int|
            0 <= i < ranges.len() && (lookup_entry(entries, (#[trigger] ranges[i]).0, now) matches Some(e) && e.next_hop == a),
    decreases ranges.len(),
{
    let all = range_hops(entries, ranges, now);
    if ranges.len() > 0 {
        let init = ranges.drop_last();
        let fewer = range_hops(entries, init, now);
        law_zone_routers_are_behind_its_ranges(entries, init, now, a);
        if fewer.contains(a) {
            let k = choose|k: int| 0 <= k < fewer.len() && fewer[k] == a;
            assert(all[k] == a);
            let i = choose|i: int|
                0 <= i < init.len() && (lookup_entry(entries, (#[trigger] init[i]).0, now) matches Some(e) && e.next_hop == a);
            assert(ranges[i] == init[i]);
        }
        if all.contains(a) && !fewer.contains(a) {
            let k = choose|k: int| 0 <= k < all.len() && all[k] == a;
            if k < fewer.len() {
                assert(fewer[k] == a);
            }
            assert(ranges[ranges.len() - 1] == ranges.last());
        }
        if lookup_entry(entries, ranges.last().0, now) matches Some(e) && e.next_hop == a {
            assert(all.last() == a);
        }
        if exists|i: int|
            0 <= i < ranges.len() && (lookup_entry(entries, (#[trigger] ranges[i]).0, now) matches Some(e) && e.next_hop == a) {
            let i = choose|i: int|
                0 <= i < ranges.len() && (lookup_entry(entries, (#[trigger] ranges[i]).0, now) matches Some(e) && e.next_hop
                    == a);
            if i < ranges.len() - 1 {
                assert(init[i] == ranges[i]);
            }
        }
    } else {
        assert(all.len() == 0);
    }
}

/// All routers are those behind live routes and, behind them, the default router
/// until its time has come.
pub proof fn law_all_routers_are_the_living(m: RouteModel, now: u64, a: AppleTalkAddress)
    ensures
        m.all_routers(now).contains(a) <==> live_hops(m.entries, now).contains(a) || m.default_router is Some
            && m.default_router->0.addr == a && (m.default_router->0.expires_at matches Some(t) ==> now < t),
        m.live_default(now) is Some && !live_hops(m.entries, now).contains(m.default_router->0.addr)
            ==> m.all_routers(now).last() == m.default_router->0.addr,
{
    let hops = deduped(live_hops(m.entries, now));
    crate::addr::law_deduped(live_hops(m.entries, now));
    let all = m.all_routers(now);
    match m.live_default(now) {
        Some(r) => {
            if hops.contains(a) {
                let k = choose|k: int| 0 <= k < hops.len() && hops[k] == a;
                assert(all[k] == a);
            }
            if !hops.contains(r.addr) {
                assert(all.last() == r.addr);
            }
            if all.contains(a) && a != r.addr {
                let k = choose|k: int| 0 <= k < all.len() && all[k] == a;
                assert(hops[k] == a);
            }
        },
        None => {},
    }
}

/// How a lookup of names goes out: for our own zone always on our own cable; for
/// all zones to all routers, or on our cable where there is none; for a zone that
/// is known to its routers, else to all of them, and nowhere without one.
pub proof fn law_lookups_go_to_routers(m: RouteModel, name: Seq<char>, now: u64)
    ensures
        m.nbp_dispatch(ZoneView::Local, now) == DispatchView::LocalBroadcast,
        m.all_routers(now).len() == 0 ==> m.nbp_dispatch(ZoneView::All, now) == DispatchView::LocalBroadcast,
        m.all_routers(now).len() > 0 ==> m.nbp_dispatch(ZoneView::All, now) == DispatchView::RouterBroadcast(
            m.all_routers(now),
        ),
        m.routers_for_zone(name, now).len() > 0 ==> m.nbp_dispatch(ZoneView::Named(name), now)
            == DispatchView::RouterBroadcast(m.routers_for_zone(name, now)),
        m.routers_for_zone(name, now).len() == 0 && m.all_routers(now).len() > 0 ==> m.nbp_dispatch(
            ZoneView::Named(name),
            now,
        ) == DispatchView::RouterBroadcast(m.all_routers(now)),
        m.routers_for_zone(name, now).len() == 0 && m.all_routers(now).len() == 0 ==> m.nbp_dispatch(
            ZoneView::Named(name),
            now,
        ) == DispatchView::ZoneUnknown,
{
}

/// Tying a zone to a range adds the range to the zone, once, and the zone to the
/// range, once; all other zones and ranges keep theirs.
pub proof fn law_zone_is_tied_to_its_range(m: ZipModel, zone: Seq<char>, range: CableRange, z: Seq<char>, r: CableRange)
    ensures
        m.insert(zone, range).ranges_of(zone).contains(r) <==> r == range || m.ranges_of(zone).contains(r),
        m.insert(zone, range).zones_of(range).contains(z) <==> z == zone || m.zones_of(range).contains(z),
        z != zone ==> m.insert(zone, range).ranges_of(z) == m.ranges_of(z),
        r != range ==> m.insert(zone, range).zones_of(r) == m.zones_of(r),
        m.ranges_of(zone).no_duplicates() ==> m.insert(zone, range).ranges_of(zone).no_duplicates(),
        m.zones_of(range).no_duplicates() ==> m.insert(zone, range).zones_of(range).no_duplicates(),
{
    lemma_with_member(m.ranges_of(zone), range, r);
    lemma_with_member(m.zones_of(range), zone, z);
    lemma_range_key_injective(r, range);
}

/// A zone that is removed has no ranges, and every other zone keeps its own; no
/// range of it has its name.
pub proof fn law_removed_zone_is_gone(m: ZipModel, zone: Seq<char>, z: Seq<char>, r: CableRange)
    requires
        m.consistent(),
    ensures
        m.remove(zone).ranges_of(zone).len() == 0,
        !m.remove(zone).zones_of(r).contains(zone),
        z != zone ==> m.remove(zone).ranges_of(z) == m.ranges_of(z),
        z != zone ==> (m.remove(zone).zones_of(r).contains(z) <==> m.zones_of(r).contains(z)),
{
    law_zip_stays_consistent(m, zone, r);
    let after = m.remove(zone);
    assert(after.ranges_of(zone).contains(r) <==> after.zones_of(r).contains(zone));
    assert(after.ranges_of(z).contains(r) <==> after.zones_of(r).contains(z));
    assert(m.ranges_of(z).contains(r) <==> m.zones_of(r).contains(z));
}

/// Tying a zone to a list of ranges ties it to each of them; other zones keep
/// theirs.
pub proof fn law_zone_is_tied_to_all(m: ZipModel, zone: Seq<char>, ranges: Seq<CableRange>, n: nat, z: Seq<char>, r: CableRange)
    requires
        n <= ranges.len(),
    ensures
        m.insert_ranges(zone, ranges, n).ranges_of(zone).contains(r) <==> m.ranges_of(zone).contains(r) || exists|i: int|
            0 <= i < n && #[trigger] ranges[i] == r,
        z != zone ==> m.insert_ranges(zone, ranges, n).ranges_of(z) == m.ranges_of(z),
    decreases n,
{
    if n > 0 {
        law_zone_is_tied_to_all(m, zone, ranges, (n - 1) as nat, z, r);
        let before = m.insert_ranges(zone, ranges, (n - 1) as nat);
        law_zone_is_tied_to_its_range(before, zone, ranges[n - 1], z, r);
    }
}

/// Tying a range to a list of zones ties it to each of them; other ranges keep
/// theirs.
pub proof fn law_range_is_tied_to_all(m: ZipModel, range: CableRange, names: Seq<Seq<char>>, n: nat, z: Seq<char>, r: CableRange)
    requires
        n <= names.len(),
    ensures
        m.insert_names(range, names, n).zones_of(range).contains(z) <==> m.zones_of(range).contains(z) || exists|i: int|
            0 <= i < n && #[trigger] names[i] == z,
        r != range ==> m.insert_names(range, names, n).zones_of(r) == m.zones_of(r),
        m.insert_names(range, names, n).ranges_of(z).contains(range) <==> m.ranges_of(z).contains(range) || exists|i: int|
            0 <= i < n && #[trigger] names[i] == z,
    decreases n,
{
    if n > 0 {
        law_range_is_tied_to_all(m, range, names, (n - 1) as nat, z, r);
        let before = m.insert_names(range, names, (n - 1) as nat);
        law_zone_is_tied_to_its_range(before, names[n - 1], range, z, r);
        law_zone_is_tied_to_its_range(before, names[n - 1], range, z, range);
    }
}

/// A list of zones with their ranges ties every zone to its own ranges.
pub proof fn law_all_zones_are_tied(m: ZipModel, zones: Seq<(Seq<char>, Seq<CableRange>)>, n: nat, z: Seq<char>, r: CableRange)
    requires
        n <= zones.len(),
    ensures
        m.insert_zones(zones, n).ranges_of(z).contains(r) <==> m.ranges_of(z).contains(r) || exists|i: int|
            0 <= i < n && (#[trigger] zones[i]).0 == z && zones[i].1.contains(r),
    decreases n,
{
    if n > 0 {
        law_all_zones_are_tied(m, zones, (n - 1) as nat, z, r);
        let before = m.insert_zones(zones, (n - 1) as nat);
        let (name, ranges) = zones[n - 1];
        law_zone_is_tied_to_all(before, name, ranges, ranges.len(), z, r);
        if ranges.contains(r) {
            let k = choose|k: int| 0 <= k < ranges.len() && ranges[k] == r;
            assert(ranges[k] == r);
        }
    }
}

/// A link is the interface that it is on.
pub proof fn law_links_are_on_their_interface()
    ensures
        interface_of(AddressSource::LocalTalk) == Interface::LocalTalk,
        interface_of(AddressSource::EtherTalkPhase1) == Interface::EtherTalk,
        interface_of(AddressSource::EtherTalkPhase2) == Interface::EtherTalk,
{
}

/// A table is known by what its fields hold.
pub proof fn law_table_is_its_fields(t: RouteTable, z: ZipTable, name: Seq<char>, range: CableRange)
    ensures
        t@.mode == t.mode,
        t@.local == t.local_ranges@,
        t@.entries == t.rtmp.entries@,
        t@.default_router == t.default_router,
        t@.zip == t.zip@,
        z@.zones.contains_key(name) == z.zone_to_ranges@.contains_key(name),
        z.zone_to_ranges@.contains_key(name) ==> z@.ranges_of(name) == z.zone_to_ranges@[name]@,
        !z.zone_to_ranges@.contains_key(name) ==> z@.ranges_of(name).len() == 0,
{
}

/// Ranges are told apart by both of their ends.
pub proof fn law_range_key_is_both_ends(range: CableRange)
    ensures
        range_key(range) / 0x1_0000 == range.0,
        range_key(range) % 0x1_0000 == range.1,
{
}

/// Zones are listed with their names and their ranges, in order.
pub proof fn law_zones_are_listed(zones: Seq<(String, Vec<CableRange>)>, names: Seq<String>, i: int)
    ensures
        zone_list(zones).len() == zones.len(),
        0 <= i < zones.len() ==> zone_list(zones)[i].0 == zones[i].0@ && zone_list(zones)[i].1 == zones[i].1@,
        names_of(names).len() == names.len(),
        0 <= i < names.len() ==> names_of(names)[i] == names[i]@,
{
}

/// The routers of a list of ranges are those of its parts, in order.
pub proof fn law_range_hops_keep_the_order(entries: Seq<RtmpEntry>, a: Seq<CableRange>, b: Seq<CableRange>, now: u64)
    ensures
        range_hops(entries, a + b, now) == range_hops(entries, a, now) + range_hops(entries, b, now),
    decreases b.len(),
{
    if b.len() == 0 {
        assert(a + b =~= a);
        assert(range_hops(entries, a, now) + range_hops(entries, b, now) =~= range_hops(entries, a, now));
    } else {
        law_range_hops_keep_the_order(entries, a, b.drop_last(), now);
        assert((a + b).drop_last() =~= a + b.drop_last());
        assert(range_hops(entries, a + b, now) =~= range_hops(entries, a, now) + range_hops(entries, b, now));
    }
}

/// What is learned first is reported first.
pub proof fn law_reports_keep_the_order(
    entries: Seq<RtmpEntry>,
    src: AppleTalkAddress,
    interface: Interface,
    tuples: Seq<(u16, u16, u8)>,
    expires_at: u64,
    n: nat,
)
    requires
        0 < n <= tuples.len(),
    ensures
        learned_changes(entries, src, interface, tuples, expires_at, (n - 1) as nat).is_prefix_of(
            learned_changes(entries, src, interface, tuples, expires_at, n),
        ),
{
}

/// A link turns into the interface that it is on.
pub proof fn law_links_turn_into_interfaces()
    ensures
        <Interface as FromSpec<AddressSource>>::from_spec(AddressSource::LocalTalk) == Interface::LocalTalk,
        <Interface as FromSpec<AddressSource>>::from_spec(AddressSource::EtherTalkPhase1) == Interface::EtherTalk,
        <Interface as FromSpec<AddressSource>>::from_spec(AddressSource::EtherTalkPhase2) == Interface::EtherTalk,
        <Interface as FromSpec<AddressSource>>::obeys_from_spec(),
{
}

} // verus!
