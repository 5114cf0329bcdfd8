//! Listing a directory: the entries in order, page by page.
//!
//! Directories come before files, and both are in the order of their names. A
//! page starts at an index and ends where the reply would get too long.

use crate::afp::parms::{
    dir_parms_named, file_parms_named, law_dir_name_stands_at_its_offset, law_dir_parms_read_back,
    law_file_name_stands_at_its_offset, law_file_parms_read_back, tells_of_dir, tells_of_file, DirBitmap, DirFacts,
    FileBitmap, FileFacts, MAX_NAME_CHARS,
};
use crate::afp::path::{
    afp_joined, afp_path_to_posix, join_paths, no_path, parsed, posix_name_to_afp, short_name_bytes, swapped, text_of,
    FsPath,
};
use crate::afp::volume::{
    entries_of, is_hidden, lemma_joined_short, short_names, path_ok, visible, DirEntry, EntryView, Volume,
};
use crate::afp::AfpError;
use crate::wire::{be16, put_be16, put_bytes, repeat, utf8};
use vstd::prelude::*;
use vstd::string::*;

verus! {

/// The type of a directory in a listing.
pub const ENTRY_DIRECTORY: u8 = 0x80;

/// The type of a file in a listing.
pub const ENTRY_FILE: u8 = 0;

/// Whether a text comes before another one or is the same, by the first
/// character in which they differ.
pub open spec fn text_le(a: Seq<char>, b: Seq<char>) -> bool
    decreases a.len(),
{
    if a.len() == 0 {
        true
    } else if b.len() == 0 {
        false
    } else if a[0] != b[0] {
        a[0] < b[0]
    } else {
        text_le(a.skip(1), b.skip(1))
    }
}

/// Whether an entry comes before another one or is like it: directories before
/// files, and then by name.
pub open spec fn entry_le(a: EntryView, b: EntryView) -> bool {
    if a.is_dir != b.is_dir {
        a.is_dir
    } else {
        text_le(a.name, b.name)
    }
}

/// How many entries at the front come before an entry or are like it.
pub open spec fn place(sorted: Seq<EntryView>, e: EntryView) -> nat
    decreases sorted.len(),
{
    if sorted.len() == 0 || !entry_le(sorted[0], e) {
        0
    } else {
        1 + place(sorted.skip(1), e)
    }
}

/// The first `n` entries in order.
pub open spec fn in_order(entries: Seq<EntryView>, n: nat) -> Seq<EntryView>
    decreases n,
{
    if n == 0 {
        Seq::empty()
    } else {
        let before = in_order(entries, (n - 1) as nat);
        before.insert(place(before, entries[n - 1]) as int, entries[n - 1])
    }
}

proof fn lemma_text_le_at(a: Seq<char>, b: Seq<char>, n: int)
    requires
        0 <= n <= a.len(),
        n <= b.len(),
        forall|i: int| 0 <= i < n ==> a[i] == b[i],
    ensures
        text_le(a, b) == text_le(a.skip(n), b.skip(n)),
    decreases n,
{
    if n == 0 {
        assert(a.skip(0) =~= a);
        assert(b.skip(0) =~= b);
    } else {
        let x = a.skip(1);
        let y = b.skip(1);
        assert(a[0] == b[0]);
        assert forall|i: int| 0 <= i < n - 1 implies x[i] == y[i] by {
            assert(a[i + 1] == b[i + 1]);
        }
        lemma_text_le_at(x, y, n - 1);
        assert(x.skip(n - 1) =~= a.skip(n));
        assert(y.skip(n - 1) =~= b.skip(n));
    }
}

fn text_not_behind(a: &str, b: &str) -> (r: bool)
    ensures
        r == text_le(a@, b@),
{
    let n: usize = a.unicode_len();
    let m: usize = b.unicode_len();
    let mut i: usize = 0;
    while i < n && i < m && a.get_char(i) == b.get_char(i)
        invariant
            n == a@.len(),
            m == b@.len(),
            i <= n,
            i <= m,
            forall|k: int| 0 <= k < i ==> a@[k] == b@[k],
        decreases n - i,
    {
        i += 1;
    }
    proof {
        lemma_text_le_at(a@, b@, i as int);
        if i < n {
            assert(a@.skip(i as int)[0] == a@[i as int]);
        }
        if i < m {
            assert(b@.skip(i as int)[0] == b@[i as int]);
        }
    }
    if i == n {
        true
    } else if i == m {
        false
    } else {
        a.get_char(i) < b.get_char(i)
    }
}

fn entry_not_behind(a: &DirEntry, b: &DirEntry) -> (r: bool)
    ensures
        r == entry_le(a@, b@),
{
    if a.is_dir != b.is_dir {
        a.is_dir
    } else {
        text_not_behind(a.name.as_str(), b.name.as_str())
    }
}

proof fn lemma_place(sorted: Seq<EntryView>, e: EntryView, n: int)
    requires
        0 <= n <= sorted.len(),
        forall|i: int| 0 <= i < n ==> entry_le(#[trigger] sorted[i], e),
        n < sorted.len() ==> !entry_le(sorted[n], e),
    ensures
        place(sorted, e) == n,
    decreases sorted.len(),
{
    if n > 0 {
        let rest = sorted.skip(1);
        assert forall|i: int| 0 <= i < n - 1 implies entry_le(#[trigger] rest[i], e) by {
            assert(rest[i] == sorted[i + 1]);
        }
        assert(entry_le(sorted[0], e));
        if n < sorted.len() {
            assert(rest[n - 1] == sorted[n]);
        }
        lemma_place(rest, e, n - 1);
    }
}

proof fn lemma_place_bounds(sorted: Seq<EntryView>, e: EntryView)
    ensures
        place(sorted, e) <= sorted.len(),
        forall|i: int| 0 <= i < place(sorted, e) ==> entry_le(#[trigger] sorted[i], e),
        place(sorted, e) < sorted.len() ==> !entry_le(sorted[place(sorted, e) as int], e),
    decreases sorted.len(),
{
    if sorted.len() > 0 && entry_le(sorted[0], e) {
        let rest = sorted.skip(1);
        lemma_place_bounds(rest, e);
        assert forall|i: int| 0 <= i < place(sorted, e) implies entry_le(#[trigger] sorted[i], e) by {
            if i > 0 {
                assert(sorted[i] == rest[i - 1]);
            }
        }
        if place(sorted, e) < sorted.len() {
            assert(sorted[place(sorted, e) as int] == rest[place(rest, e) as int]);
        }
    }
}

fn copy_entry(e: &DirEntry) -> (r: DirEntry)
    ensures
        r@ == e@,
{
    DirEntry { name: e.name.clone(), is_dir: e.is_dir }
}

/// The entries of a directory that clients see, in order.
fn sorted_entries(listing: &[DirEntry]) -> (sorted: Vec<DirEntry>)
    ensures
        entries_of(sorted@) == in_order(
            visible(entries_of(listing@), listing@.len()),
            visible(entries_of(listing@), listing@.len()).len(),
        ),
{
    let ghost all = entries_of(listing@);
    let mut sorted: Vec<DirEntry> = Vec::new();
    let mut i: usize = 0;
    assert(entries_of(sorted@) =~= Seq::<EntryView>::empty());
    while i < listing.len()
        invariant
            i <= listing@.len(),
            all == entries_of(listing@),
            entries_of(sorted@) == in_order(visible(all, i as nat), visible(all, i as nat).len()),
        decreases listing@.len() - i,
    {
        let e = &listing[i];
        assert(all[i as int] == e@);
        if !is_hidden(e.name.as_str()) {
            let mut at: usize = 0;
            while at < sorted.len() && entry_not_behind(&sorted[at], e)
                invariant
                    at <= sorted@.len(),
                    forall|k: int| 0 <= k < at ==> entry_le(#[trigger] entries_of(sorted@)[k], e@),
                decreases sorted@.len() - at,
            {
                assert(entries_of(sorted@)[at as int] == sorted@[at as int]@);
                at += 1;
            }
            let ghost before = entries_of(sorted@);
            proof {
                if at < sorted@.len() {
                    assert(before[at as int] == sorted@[at as int]@);
                }
                lemma_place(before, e@, at as int);
            }
            sorted.insert(at, copy_entry(e));
            proof {
                assert(entries_of(sorted@) =~= before.insert(at as int, e@));
                let shown = visible(all, i as nat);
                let next = visible(all, (i + 1) as nat);
                assert(next == shown.push(e@));
                lemma_in_order_prefix(next, shown, shown.len());
            }
        }
        i += 1;
    }
    sorted
}

proof fn lemma_in_order_prefix(a: Seq<EntryView>, b: Seq<EntryView>, n: nat)
    requires
        n <= a.len(),
        n <= b.len(),
        forall|i: int| 0 <= i < n ==> a[i] == b[i],
    ensures
        in_order(a, n) == in_order(b, n),
    decreases n,
{
    if n > 0 {
        lemma_in_order_prefix(a, b, (n - 1) as nat);
    }
}

proof fn lemma_text_le_total(a: Seq<char>, b: Seq<char>)
    ensures
        text_le(a, b) || text_le(b, a),
    decreases a.len(),
{
    if a.len() > 0 && b.len() > 0 && a[0] == b[0] {
        lemma_text_le_total(a.skip(1), b.skip(1));
    }
}

proof fn lemma_text_le_trans(a: Seq<char>, b: Seq<char>, c: Seq<char>)
    requires
        text_le(a, b),
        text_le(b, c),
    ensures
        text_le(a, c),
    decreases a.len(),
{
    if a.len() > 0 && b.len() > 0 && c.len() > 0 && a[0] == b[0] && b[0] == c[0] {
        lemma_text_le_trans(a.skip(1), b.skip(1), c.skip(1));
    }
}

proof fn lemma_entry_le_trans(a: EntryView, b: EntryView, c: EntryView)
    requires
        entry_le(a, b),
        entry_le(b, c),
    ensures
        entry_le(a, c),
{
    if a.is_dir == b.is_dir && b.is_dir == c.is_dir {
        lemma_text_le_trans(a.name, b.name, c.name);
    }
}

/// Whether entries are in order.
pub open spec fn is_sorted(entries: Seq<EntryView>) -> bool {
    forall|i: int, j: int| 0 <= i < j < entries.len() ==> entry_le(#[trigger] entries[i], #[trigger] entries[j])
}

/// A listing holds every entry, and directories come before files and both by
/// name.
pub proof fn law_listing_is_sorted(entries: Seq<EntryView>, n: nat)
    requires
        n <= entries.len(),
    ensures
        is_sorted(in_order(entries, n)),
        in_order(entries, n).to_multiset() == entries.take(n as int).to_multiset(),
        in_order(entries, n).len() == n,
    decreases n,
{
    if n == 0 {
        assert(entries.take(0) =~= Seq::<EntryView>::empty());
    } else {
        let before = in_order(entries, (n - 1) as nat);
        let e = entries[n - 1];
        law_listing_is_sorted(entries, (n - 1) as nat);
        lemma_place_bounds(before, e);
        let at = place(before, e) as int;
        let after = in_order(entries, n);
        assert(after =~= before.insert(at, e));
        assert forall|i: int, j: int| 0 <= i < j < after.len() implies entry_le(
            #[trigger] after[i],
            #[trigger] after[j],
        ) by {
            if j == at {
                assert(after[i] == before[i]);
                assert(entry_le(before[i], e));
            } else if i == at {
                assert(after[j] == before[j - 1]);
                lemma_text_le_total(e.name, before[at].name);
                assert(entry_le(e, before[at]));
                if j - 1 > at {
                    assert(entry_le(before[at], before[j - 1]));
                    lemma_entry_le_trans(e, before[at], before[j - 1]);
                }
            } else {
                let x = if i < at {
                    i
                } else {
                    i - 1
                };
                let y = if j < at {
                    j
                } else {
                    j - 1
                };
                assert(after[i] == before[x]);
                assert(after[j] == before[y]);
                assert(entry_le(before[x], before[y]));
            }
        }
        vstd::seq_lib::to_multiset_insert(before, at, e);
        assert(entries.take(n as int) =~= entries.take(n - 1).push(e));
        vstd::seq_lib::to_multiset_build(entries.take(n - 1), e);
    }
}

// ── Pages ────────────────────────────────────────────────────────────────────

/// What a client asks for.
#[derive(Debug, Clone, Copy)]
pub struct EnumerateRequest {
    pub file_bitmap: FileBitmap,
    pub dir_bitmap: DirBitmap,
    /// The index of the first entry, counted from one.
    pub start_index: u16,
    pub req_count: u16,
    /// How long the reply may be.
    pub max_reply_size: u16,
}

/// The entries of a page.
pub open spec fn page_of(sorted: Seq<EntryView>, start_index: u16, req_count: u16) -> Seq<EntryView> {
    let start = start_index - 1;
    if start >= sorted.len() {
        Seq::empty()
    } else if start + req_count <= sorted.len() {
        sorted.subrange(start, start + req_count)
    } else {
        sorted.skip(start)
    }
}

/// The length of an entry's parameters as it is told beforehand, by the length
/// of the name in the file system.
pub open spec fn told_len(req: EnumerateRequest, e: EntryView) -> nat {
    if e.is_dir {
        req.dir_bitmap.reply_len(utf8(e.name).len())
    } else {
        req.file_bitmap.reply_len(utf8(e.name).len())
    }
}

/// A length rounded up to an even number.
pub open spec fn even(n: nat) -> nat {
    n + n % 2
}

/// An entry of a listing: its length, its type, its parameters, and a byte that
/// makes the length even.
pub open spec fn entry_bytes(req: EnumerateRequest, e: EntryView, parms: Seq<u8>) -> Seq<u8> {
    let told = told_len(req, e);
    seq![
        ((even(told) + 2) % 256) as u8,
        if e.is_dir {
            ENTRY_DIRECTORY
        } else {
            ENTRY_FILE
        },
    ] + parms + repeat(0, told % 2)
}

/// A listing that is being made.
#[derive(Debug)]
pub struct Enumeration {
    pub request: EnumerateRequest,
    pub dir_id: u32,
    pub dir_path: FsPath,
    pub page: Vec<DirEntry>,
    /// How many entries of the page have been dealt with.
    pub at: usize,
    /// How many are in the reply.
    pub count: u16,
    pub body: Vec<u8>,
}

/// An entry whose parameters are needed next.
#[derive(Debug, Clone, Copy, PartialEq, Eq, Structural)]
pub struct PendingEntry {
    pub id: u32,
    pub is_dir: bool,
}

/// What a listing that is being made holds.
#[verifier::ext_equal]
pub struct EnumerationView {
    pub page: Seq<EntryView>,
    pub at: nat,
    pub count: nat,
    pub body: Seq<u8>,
}

/// The directory that a client's path stands for, with its number.
pub fn plan_enumerate(volume: &Volume, directory_id: u32, afp_path: &str) -> (r: Result<(u32, FsPath), AfpError>)
    requires
        volume.wf(),
    ensures
        match volume@.resolve(directory_id, text_of(afp_joined(no_path(), afp_path@, 0))) {
            None => r == Err::<(u32, FsPath), AfpError>(AfpError::ObjectNotFound),
            Some(id) => if !volume@.nodes.contains_key(id as u64) {
                r == Err::<(u32, FsPath), AfpError>(AfpError::ObjectNotFound)
            } else if !volume@.nodes[id as u64].is_dir {
                r == Err::<(u32, FsPath), AfpError>(AfpError::ObjectTypeErr)
            } else {
                r matches Ok((n, p)) && n == id && p@ == volume@.nodes[id as u64].path && path_ok(p@)
            },
        },
{
    let path = afp_path_to_posix(afp_path).text();
    let id: u32 = match volume.resolve_node(directory_id, path.as_str()) {
        Ok(id) => id,
        Err(e) => {
            return Err(e);
        },
    };
    match volume.plan_directory(id) {
        Ok(dir) => Ok((id, dir)),
        Err(e) => Err(e),
    }
}

impl Enumeration {
    /// What the listing holds.
    pub open spec fn view(self) -> EnumerationView {
        EnumerationView {
            page: entries_of(self.page@),
            at: self.at as nat,
            count: self.count as nat,
            body: self.body@,
        }
    }

    /// The invariant: no more entries are in the reply than have been dealt
    /// with.
    pub open spec fn wf(self) -> bool {
        &&& self.count <= self.at <= self.page@.len() <= 0xFFFF
        &&& short_names(entries_of(self.page@))
        &&& path_ok(self.dir_path@)
    }

    /// The next entry.
    pub open spec fn current(self) -> EntryView {
        entries_of(self.page@)[self.at as int]
    }

    /// Whether the next entry fits into the reply, behind the count and the
    /// entries that are there.
    pub open spec fn fits(self) -> bool {
        2 + self.body@.len() + 2 + even(told_len(self.request, self.current())) <= self.request.max_reply_size
    }

    /// Starts a page of a directory, whose entries have been read. An empty
    /// directory, and the index zero, are refused.
    pub fn begin(request: EnumerateRequest, dir_id: u32, dir_path: FsPath, listing: &[DirEntry]) -> (r: Result<
        Enumeration,
        AfpError,
    >)
        requires
            short_names(entries_of(listing@)),
            path_ok(dir_path@),
        ensures
            ({
                let shown = visible(entries_of(listing@), listing@.len());
                let sorted = in_order(shown, shown.len());
                if sorted.len() == 0 || request.start_index == 0 {
                    r == Err::<Enumeration, AfpError>(AfpError::ObjectNotFound)
                } else {
                    &&& r matches Ok(e)
                    &&& e.wf()
                    &&& e.request == request
                    &&& e.dir_id == dir_id
                    &&& e.dir_path == dir_path
                    &&& e@ == (EnumerationView {
                        page: page_of(sorted, request.start_index, request.req_count),
                        at: 0,
                        count: 0,
                        body: Seq::empty(),
                    })
                }
            }),
    {
        let sorted = sorted_entries(listing);
        let ghost all = entries_of(sorted@);
        proof {
            lemma_sorted_short(listing@);
        }
        if sorted.len() == 0 || request.start_index == 0 {
            return Err(AfpError::ObjectNotFound);
        }
        let start: usize = (request.start_index - 1) as usize;
        let want: usize = request.req_count as usize;
        let mut page: Vec<DirEntry> = Vec::new();
        let mut i: usize = start;
        assert(entries_of(page@) =~= Seq::<EntryView>::empty());
        while i < sorted.len() && i - start < want
            invariant
                start <= i,
                i - start <= want,
                want <= 0xFFFF,
                start < 0xFFFF,
                all == entries_of(sorted@),
                i <= sorted@.len() || i == start,
                page@.len() == i - start,
                i <= sorted@.len() ==> entries_of(page@) == all.subrange(start as int, i as int),
                i > sorted@.len() ==> entries_of(page@) == Seq::<EntryView>::empty(),
            decreases sorted@.len() - i,
        {
            let ghost before = entries_of(page@);
            page.push(copy_entry(&sorted[i]));
            proof {
                assert(all[i as int] == sorted@[i as int]@);
                assert(entries_of(page@) =~= before.push(all[i as int]));
                assert(all.subrange(start as int, i + 1) =~= all.subrange(start as int, i as int).push(all[i as int]));
            }
            i += 1;
        }
        proof {
            assert(entries_of(page@) =~= page_of(all, request.start_index, request.req_count));
            assert forall|k: int| 0 <= k < entries_of(page@).len() implies (
            #[trigger] entries_of(page@)[k]).name.len() <= MAX_NAME_CHARS by {
                assert(entries_of(page@)[k] == all[start + k]);
            }
        }
        let body: Vec<u8> = Vec::new();
        assert(body@ =~= Seq::<u8>::empty());
        Ok(Enumeration { request, dir_id, dir_path, page, at: 0, count: 0, body })
    }

    fn current_len(&self) -> (n: usize)
        requires
            self.wf(),
            self.at < self.page@.len(),
        ensures
            n == told_len(self.request, self.current()),
            n <= 0x0500_0000,
    {
        let e = &self.page[self.at];
        proof {
            assert(entries_of(self.page@)[self.at as int] == e@);
        }
        let name_len: usize = short_name_bytes(e.name.as_str());
        if e.is_dir {
            self.request.dir_bitmap.response_len(name_len)
        } else {
            self.request.file_bitmap.response_len(name_len)
        }
    }

    /// The next entry that goes into the reply, which gets a number where it
    /// has none; its parameters have to be supplied. None where the page is at
    /// its end or the entry does not fit.
    pub fn next(&mut self, volume: &mut Volume) -> (r: Option<PendingEntry>)
        requires
            old(self).wf(),
            old(volume).wf(),
            old(volume).next_id < u32::MAX,
        ensures
            final(self).wf(),
            final(volume).wf(),
            final(volume).root == old(volume).root,
            final(self).request == old(self).request,
            final(self).dir_id == old(self).dir_id,
            final(self).dir_path == old(self).dir_path,
            final(self).page == old(self).page,
            final(self).body == old(self).body,
            final(self).count == old(self).count,
            ({
                let e = old(self).current();
                let path = join_paths(old(self).dir_path@, parsed(e.name));
                if old(self).at >= old(self).page@.len() {
                    r is None && final(volume)@ == old(volume)@ && final(self).at == old(self).at
                } else {
                    &&& final(volume)@ == if old(volume)@.at(path) is Some {
                        old(volume)@
                    } else {
                        old(volume)@.registered(
                            old(self).dir_id,
                            path,
                            swapped(e.name, ':', '/'),
                            e.is_dir,
                        )
                    }
                    &&& if old(self).fits() {
                        r matches Some(p) && p.is_dir == e.is_dir && Some(p.id) == final(volume)@.at(path)
                            && final(self).at == old(self).at
                    } else {
                        r is None && final(self).at == old(self).page@.len()
                    }
                }
            }),
    {
        if self.at >= self.page.len() {
            return None;
        }
        let e = &self.page[self.at];
        assert(entries_of(self.page@)[self.at as int] == e@);
        let is_dir = e.is_dir;
        let path = self.dir_path.join(&FsPath::from_text(e.name.as_str()));
        proof {
            lemma_joined_short(self.dir_path@, e.name@);
        }
        let name = posix_name_to_afp(e.name.as_str());
        let id: u32 = volume.number_of(self.dir_id, path, name, is_dir);
        let told: usize = self.current_len();
        let len: usize = told + told % 2;
        let room: usize = self.request.max_reply_size as usize;
        if self.body.len() > room || room - self.body.len() < 4 + len {
            self.at = self.page.len();
            return None;
        }
        Some(PendingEntry { id, is_dir })
    }

    /// Takes in the parameters of the next entry, which goes into the reply; an
    /// entry without parameters is left out.
    pub fn supply(&mut self, parms: Option<Vec<u8>>)
        requires
            old(self).wf(),
            old(self).at < old(self).page@.len(),
            old(self).fits(),
        ensures
            final(self).wf(),
            final(self).request == old(self).request,
            final(self).dir_id == old(self).dir_id,
            final(self).dir_path == old(self).dir_path,
            final(self).page == old(self).page,
            final(self).at == old(self).at + 1,
            match parms {
                Some(p) => final(self).count == old(self).count + 1 && final(self).body@ == old(self).body@ + entry_bytes(
                    old(self).request,
                    old(self).current(),
                    p@,
                ),
                None => final(self).count == old(self).count && final(self).body@ == old(self).body@,
            },
            parms is Some ==> final(self).body@[old(self).body@.len() as int + 1] == if old(self).page@[old(self).at as int].is_dir {
                0x80u8
            } else {
                0u8
            },
    {
        let told: usize = self.current_len();
        let is_dir = self.page[self.at].is_dir;
        assert(entries_of(self.page@)[self.at as int] == self.page@[self.at as int]@);
        if let Some(p) = parms {
            let ghost before = self.body@;
            let len: usize = told + told % 2 + 2;
            self.body.push((len % 256) as u8);
            self.body.push(if is_dir { ENTRY_DIRECTORY } else { ENTRY_FILE });
            put_bytes(&mut self.body, &p);
            if told % 2 == 1 {
                self.body.push(0);
            }
            assert(self.body@ =~= before + entry_bytes(old(self).request, old(self).current(), p@));
            self.count = self.count + 1;
        }
        self.at = self.at + 1;
    }

    /// The reply: the number of entries, and the entries.
    pub fn finish(self) -> (bytes: Vec<u8>)
        ensures
            bytes@ == be16(self.count) + self.body@,
    {
        let mut bytes: Vec<u8> = Vec::new();
        put_be16(&mut bytes, self.count);
        put_bytes(&mut bytes, &self.body);
        assert(bytes@ =~= be16(self.count) + self.body@);
        bytes
    }
}

proof fn lemma_sorted_short(listing: Seq<DirEntry>)
    requires
        short_names(entries_of(listing)),
    ensures
        ({
            let shown = visible(entries_of(listing), listing.len());
            short_names(in_order(shown, shown.len()))
        }),
{
    lemma_visible_short(entries_of(listing), listing.len());
    let shown = visible(entries_of(listing), listing.len());
    lemma_in_order_short(shown, shown.len());
}

proof fn lemma_visible_short(entries: Seq<EntryView>, n: nat)
    requires
        n <= entries.len(),
        short_names(entries),
    ensures
        short_names(visible(entries, n)),
    decreases n,
{
    if n > 0 {
        lemma_visible_short(entries, (n - 1) as nat);
        let before = visible(entries, (n - 1) as nat);
        let after = visible(entries, n);
        assert forall|i: int| 0 <= i < after.len() implies (#[trigger] after[i]).name.len() <= MAX_NAME_CHARS by {
            if i < before.len() {
                assert(after[i] == before[i]);
            } else {
                assert(after[i] == entries[n - 1]);
            }
        }
    }
}

proof fn lemma_in_order_short(entries: Seq<EntryView>, n: nat)
    requires
        n <= entries.len(),
        short_names(entries),
    ensures
        short_names(in_order(entries, n)),
    decreases n,
{
    if n > 0 {
        lemma_in_order_short(entries, (n - 1) as nat);
        let before = in_order(entries, (n - 1) as nat);
        let e = entries[n - 1];
        lemma_place_bounds(before, e);
        let at = place(before, e) as int;
        let after = in_order(entries, n);
        assert(e.name.len() <= MAX_NAME_CHARS);
        assert forall|i: int| 0 <= i < after.len() implies (#[trigger] after[i]).name.len() <= MAX_NAME_CHARS by {
            if i < at {
                assert(after[i] == before[i]);
            } else if i > at {
                assert(after[i] == before[i - 1]);
            }
        }
    }
}

/// A reply never gets longer than was asked for, as long as the parameters of
/// an entry are no longer than was told beforehand, which is so where the
/// encoded name is no longer than the name in the file system.
pub proof fn law_reply_stays_within_limit(req: EnumerateRequest, body: Seq<u8>, e: EntryView, parms: Seq<u8>)
    requires
        2 + body.len() + 2 + even(told_len(req, e)) <= req.max_reply_size,
        parms.len() <= told_len(req, e),
    ensures
        2 + (body + entry_bytes(req, e, parms)).len() <= req.max_reply_size,
        parms.len() == told_len(req, e) ==> (entry_bytes(req, e, parms).len() % 2 == 0 && entry_bytes(req, e, parms)[0]
            == (entry_bytes(req, e, parms).len() % 256)),
{
}

/// Pages do not overlap and leave nothing out: a page and the page that starts
/// behind it are one longer page.
pub proof fn law_pages_join(sorted: Seq<EntryView>, start_index: u16, n: u16, m: u16)
    requires
        start_index > 0,
        start_index + n <= u16::MAX,
        n + m <= u16::MAX,
    ensures
        page_of(sorted, start_index, n) + page_of(sorted, (start_index + n) as u16, m) == page_of(
            sorted,
            start_index,
            (n + m) as u16,
        ),
{
    assert(page_of(sorted, start_index, n) + page_of(sorted, (start_index + n) as u16, m) =~= page_of(
        sorted,
        start_index,
        (n + m) as u16,
    ));
}

// ── What a listing tells ─────────────────────────────────────────────────────

/// The second byte of every entry tells what the entry is, 0x80 for a directory
/// and zero for a file; its parameters stand from the third byte on, as they
/// were supplied, and nothing but one zero stands behind them.
pub proof fn law_entry_tells_its_kind(req: EnumerateRequest, e: EntryView, parms: Seq<u8>)
    ensures
        ({
            let entry = entry_bytes(req, e, parms);
            &&& entry.len() == 2 + parms.len() || entry.len() == 2 + parms.len() + 1 && entry.last() == 0
            &&& e.is_dir ==> entry[1] == 0x80
            &&& !e.is_dir ==> entry[1] == 0
            &&& forall|k: int| 0 <= k < parms.len() ==> #[trigger] entry[2 + k] == parms[k]
        }),
{
}

/// An entry whose parameters are as long as was told has an even length, and
/// starts with it.
pub proof fn law_entry_starts_with_its_length(req: EnumerateRequest, e: EntryView, parms: Seq<u8>)
    requires
        parms.len() == told_len(req, e),
    ensures
        entry_bytes(req, e, parms).len() % 2 == 0,
        entry_bytes(req, e, parms)[0] == entry_bytes(req, e, parms).len() % 256,
{
    let n = told_len(req, e);
    let entry = entry_bytes(req, e, parms);
    assert(entry.len() == 2 + n + n % 2);
}

/// The length that is told of a directory is that of the parameters that the
/// bitmap for directories asks for, and of a file that of the ones that the
/// bitmap for files asks for, where the name is as long as it is in the file
/// system.
pub proof fn law_told_length_is_by_the_bitmap(
    req: EnumerateRequest,
    e: EntryView,
    id: u32,
    parent_id: u32,
    name: Seq<u8>,
    file: FileFacts,
    dir: DirFacts,
)
    requires
        name.len() == utf8(e.name).len(),
        name.len() <= 255,
    ensures
        e.is_dir ==> told_len(req, e) == dir_parms_named(req.dir_bitmap, id, parent_id, name, dir).len(),
        !e.is_dir ==> told_len(req, e) == file_parms_named(req.file_bitmap, id, parent_id, name, file).len(),
{
    assert(name.take(255) =~= name || name.len() < 255);
    if e.is_dir {
        law_dir_name_stands_at_its_offset(req.dir_bitmap, id, parent_id, name, dir);
    } else {
        law_file_name_stands_at_its_offset(req.file_bitmap, id, parent_id, name, file);
    }
}

/// An entry goes into a reply exactly where the reply, its count of two bytes in
/// front, stays within what was asked for.
pub proof fn law_entries_fill_the_reply(e: Enumeration, parms: Seq<u8>)
    requires
        parms.len() == told_len(e.request, e.current()),
    ensures
        e.fits() <==> 2 + (e.body@ + entry_bytes(e.request, e.current(), parms)).len() <= e.request.max_reply_size,
{
}

/// The entry that is dealt with next is the one at its place in the page.
pub proof fn law_current_is_at_its_place(e: Enumeration)
    requires
        e.at < e.page@.len(),
    ensures
        e.current().name == e.page@[e.at as int].name@,
        e.current().is_dir == e.page@[e.at as int].is_dir,
        e@.page.len() == e.page@.len(),
        e@.page[e.at as int] == e.current(),
{
}

/// A page starts at the entry that its index tells, counted from one, and holds
/// the entries that follow, as many as were asked for or are left.
pub proof fn law_page_starts_at_its_index(sorted: Seq<EntryView>, start_index: u16, req_count: u16)
    requires
        start_index > 0,
    ensures
        ({
            let page = page_of(sorted, start_index, req_count);
            let left = if sorted.len() >= start_index {
                sorted.len() - start_index + 1
            } else {
                0
            };
            &&& page.len() == if left <= req_count {
                left
            } else {
                req_count as int
            }
            &&& forall|i: int| 0 <= i < page.len() ==> #[trigger] page[i] == sorted[start_index - 1 + i]
        }),
{
}

/// Whether a text comes before another one: it goes on where the other one ends,
/// or has the smaller character at the first place where they differ.
pub open spec fn comes_first(a: Seq<char>, b: Seq<char>) -> bool {
    exists|n: int|
        0 <= n <= a.len() && n <= b.len() && a.take(n) == b.take(n) && #[trigger] differs_at(a, b, n)
}

/// Whether the order of two texts is decided behind `n` characters.
pub open spec fn differs_at(a: Seq<char>, b: Seq<char>, n: int) -> bool {
    n == a.len() || n < b.len() && a[n] < b[n]
}

proof fn lemma_text_le(a: Seq<char>, b: Seq<char>)
    requires
        text_le(a, b),
    ensures
        comes_first(a, b),
    decreases a.len(),
{
    if a.len() == 0 {
        assert(a.take(0) =~= b.take(0));
        assert(differs_at(a, b, 0));
    } else if a[0] != b[0] {
        assert(a.take(0) =~= b.take(0));
        assert(differs_at(a, b, 0));
    } else {
        let x = a.skip(1);
        let y = b.skip(1);
        lemma_text_le(x, y);
        let n = choose|n: int| 0 <= n <= x.len() && n <= y.len() && x.take(n) == y.take(n) && differs_at(x, y, n);
        assert(a.take(n + 1) =~= seq![a[0]] + x.take(n));
        assert(b.take(n + 1) =~= seq![b[0]] + y.take(n));
        assert(differs_at(a, b, n + 1));
    }
}

/// In a listing no file stands before a directory, and among directories, as
/// among files, names stand in the order of their characters.
pub proof fn law_directories_come_first(entries: Seq<EntryView>, n: nat, i: int, j: int)
    requires
        n <= entries.len(),
        0 <= i < j < n,
    ensures
        ({
            let a = in_order(entries, n)[i];
            let b = in_order(entries, n)[j];
            &&& b.is_dir ==> a.is_dir
            &&& a.is_dir == b.is_dir ==> comes_first(a.name, b.name)
        }),
{
    law_listing_is_sorted(entries, n);
    let all = in_order(entries, n);
    assert(entry_le(all[i], all[j]));
    if all[i].is_dir == all[j].is_dir {
        lemma_text_le(all[i].name, all[j].name);
    }
}

/// What a client reads behind the first two bytes of an entry are the parameters
/// that the bitmap of its kind asks for, of the file or directory itself.
pub proof fn law_entry_reads_by_its_bitmap(
    req: EnumerateRequest,
    e: EntryView,
    id: u32,
    parent_id: u32,
    name: Seq<u8>,
    file: FileFacts,
    dir: DirFacts,
)
    ensures
        e.is_dir ==> {
            let parms = dir_parms_named(req.dir_bitmap, id, parent_id, name, dir);
            let entry = entry_bytes(req, e, parms);
            entry[1] == 0x80 && tells_of_dir(
                entry.subrange(2, (2 + parms.len()) as int),
                req.dir_bitmap,
                id,
                parent_id,
                name,
                dir,
            )
        },
        !e.is_dir ==> {
            let parms = file_parms_named(req.file_bitmap, id, parent_id, name, file);
            let entry = entry_bytes(req, e, parms);
            entry[1] == 0 && tells_of_file(
                entry.subrange(2, (2 + parms.len()) as int),
                req.file_bitmap,
                id,
                parent_id,
                name,
                file,
            )
        },
{
    let d = dir_parms_named(req.dir_bitmap, id, parent_id, name, dir);
    let f = file_parms_named(req.file_bitmap, id, parent_id, name, file);
    lemma_parms_stand(req, e, d);
    lemma_parms_stand(req, e, f);
    law_dir_parms_read_back(req.dir_bitmap, id, parent_id, name, dir);
    law_file_parms_read_back(req.file_bitmap, id, parent_id, name, file);
}

proof fn lemma_parms_stand(req: EnumerateRequest, e: EntryView, parms: Seq<u8>)
    ensures
        entry_bytes(req, e, parms).subrange(2, (2 + parms.len()) as int) == parms,
        e.is_dir ==> entry_bytes(req, e, parms)[1] == 0x80,
        !e.is_dir ==> entry_bytes(req, e, parms)[1] == 0,
{
    assert(entry_bytes(req, e, parms).subrange(2, (2 + parms.len()) as int) =~= parms);
}

/// A listing that is being told is known by what its fields hold.
pub proof fn law_enumeration_is_its_fields(e: Enumeration)
    ensures
        e@.at == e.at,
        e@.count == e.count,
        e@.body == e.body@,
        e@.page == entries_of(e.page@),
{
}

} // verus!
