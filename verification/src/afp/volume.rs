//! A volume: the files and directories that clients know by number, the forks
//! that they have open, and the ranges that they have locked.
//!
//! What a request does to the file system is done by the program. A function
//! whose name starts with `plan_` says what has to be done, or why the request
//! is refused; the function without it takes the result in.

use crate::afp::parms::{
    dir_parms, dir_parms_named, file_parms, file_parms_named, get_directory_parms, get_file_parms, get_volume_parms,
    law_encoded_parms_read_back, volume_parms, DirBitmap, DirFacts, FileBitmap, FileFacts, VolumeBitmap, MAX_NAME_CHARS,
    VOLUME_BYTES,
};
use crate::afp::path::{
    afp_name_to_posix, afp_path_is_empty, blank, canonical, is_below, join_paths, last_name,
    law_parsed_paths_are_canonical, law_path_text_reads_back, lemma_part_lens, lemma_rebased, lemma_same_text, no_path,
    parent_of, parsed, posix_name_to_afp, rebased, swapped, text_of, FsPath, PathView,
};
use crate::afp::{AfpError, ForkType};
use crate::idmap::IdMap;
use crate::strmap::StrMap;
use crate::wire::{from_be16, get_be16, number32, slice_bytes, str_eq, utf8};
use crate::{afp_date_v1, time_to_afp_v1};
use vstd::prelude::*;
use vstd::string::*;
use vstd::utf8::is_ascii_chars;

verus! {

/// The number of the directory above the root, which is no real directory.
pub const PARENT_OF_ROOT: u32 = 1;

/// The number of the root.
pub const ROOT: u32 = 2;

/// A file or directory that clients know by number.
#[derive(Debug)]
pub struct Node {
    pub id: u32,
    pub parent_id: u32,
    /// The name as clients see it.
    pub name: String,
    pub is_dir: bool,
    /// The path below the volume's root.
    pub path: FsPath,
    pub data_open: bool,
    pub rsrc_open: bool,
}

/// What is known of a file or directory.
#[verifier::ext_equal]
pub struct NodeView {
    pub id: u32,
    pub parent_id: u32,
    pub name: Seq<char>,
    pub is_dir: bool,
    pub path: PathView,
    pub data_open: bool,
    pub rsrc_open: bool,
}

impl Node {
    /// What is known of the file or directory.
    pub open spec fn view(self) -> NodeView {
        NodeView {
            id: self.id,
            parent_id: self.parent_id,
            name: self.name@,
            is_dir: self.is_dir,
            path: self.path@,
            data_open: self.data_open,
            rsrc_open: self.rsrc_open,
        }
    }
}

/// A node with nothing open.
pub open spec fn new_node(id: u32, parent_id: u32, name: Seq<char>, is_dir: bool, path: PathView) -> NodeView {
    NodeView { id, parent_id, name, is_dir, path, data_open: false, rsrc_open: false }
}

impl NodeView {
    /// Whether a fork is open.
    pub open spec fn is_open(self, fork: ForkType) -> bool {
        match fork {
            ForkType::Data => self.data_open,
            ForkType::Resource => self.rsrc_open,
        }
    }

    /// The node after a fork has been opened or closed.
    pub open spec fn with_fork(self, fork: ForkType, open: bool) -> NodeView {
        match fork {
            ForkType::Data => NodeView { data_open: open, ..self },
            ForkType::Resource => NodeView { rsrc_open: open, ..self },
        }
    }
}

/// A locked range: where it starts, and its length.
pub type LockedRange = (u64, u64);

/// An entry of a directory in the file system.
#[derive(Debug)]
pub struct DirEntry {
    pub name: String,
    pub is_dir: bool,
}

/// What a directory entry is.
#[verifier::ext_equal]
pub struct EntryView {
    pub name: Seq<char>,
    pub is_dir: bool,
}

impl DirEntry {
    /// What the directory entry is.
    pub open spec fn view(self) -> EntryView {
        EntryView { name: self.name@, is_dir: self.is_dir }
    }
}

/// What directory entries are.
pub open spec fn entries_of(list: Seq<DirEntry>) -> Seq<EntryView> {
    Seq::new(list.len(), |i: int| list[i]@)
}

/// A volume.
#[derive(Debug)]
pub struct Volume {
    /// The name that clients see.
    pub name: String,
    /// Where the volume is in the file system.
    pub root: FsPath,
    pub created_at: u32,
    pub volume_id: u16,
    pub nodes: IdMap<Node>,
    /// The numbers of nodes by the text of their paths.
    pub paths: StrMap<u32>,
    pub next_id: u32,
    /// The open forks by their reference numbers.
    pub forks: IdMap<(u32, ForkType)>,
    pub next_fork_ref: u16,
    /// The locked ranges of each open fork.
    pub locks: IdMap<Vec<LockedRange>>,
    /// The reference number of the desktop database, where it is open.
    pub desktop: Option<u16>,
}

/// The state of a volume.
#[verifier::ext_equal]
pub struct VolumeModel {
    pub name: Seq<char>,
    pub created_at: u32,
    pub volume_id: u16,
    pub nodes: Map<u64, NodeView>,
    pub paths: Map<Seq<char>, u32>,
    pub next_id: u32,
    pub forks: Map<u64, (u32, ForkType)>,
    pub next_fork_ref: u16,
    pub locks: Map<u64, Seq<LockedRange>>,
    pub desktop: Option<u16>,
}

/// Whether two ranges have a byte in common, or one lies inside the other.
pub open spec fn overlap(a: LockedRange, b: LockedRange) -> bool {
    a.0 < range_end(b) && range_end(a) > b.0
}

/// Where a range ends; no range ends behind the largest number.
pub open spec fn range_end(r: LockedRange) -> int {
    if r.0 + r.1 <= u64::MAX {
        r.0 + r.1
    } else {
        u64::MAX as int
    }
}

/// Whether no two ranges overlap.
pub open spec fn apart(ranges: Seq<LockedRange>) -> bool {
    forall|i: int, j: int| 0 <= i < j < ranges.len() ==> !overlap(#[trigger] ranges[i], #[trigger] ranges[j])
}

/// Whether a path is one that a text can stand for, with components that are
/// not too long to be a name.
pub open spec fn path_ok(p: PathView) -> bool {
    canonical(p) && forall|i: int| 0 <= i < p.parts.len() ==> (#[trigger] p.parts[i]).len() <= MAX_NAME_CHARS
}

/// Whether a node is kept under a number as it should be.
pub open spec fn node_ok(n: NodeView, id: u64, next_id: u32) -> bool {
    n.id == id && id < next_id && n.name.len() <= MAX_NAME_CHARS && path_ok(n.path)
}

impl VolumeModel {
    /// The invariant of a volume: every node is kept under its number, which is
    /// below the next one to be given out; a path leads to a node that has that
    /// path; no fork has the number zero; the locked ranges of a fork do not
    /// overlap.
    pub open spec fn ok(self) -> bool {
        &&& forall|id: u64| #[trigger] self.nodes.contains_key(id) ==> node_ok(self.nodes[id], id, self.next_id)
        &&& forall|t: Seq<char>| #[trigger] self.paths.contains_key(t) ==> self.leads_home(t)
        &&& self.next_fork_ref != 0
        &&& forall|f: u64| #[trigger] self.forks.contains_key(f) ==> f != 0
        &&& forall|f: u64| #[trigger] self.locks.contains_key(f) ==> apart(self.locks[f])
    }

    /// Whether a path leads to a node that has that path.
    pub open spec fn leads_home(self, t: Seq<char>) -> bool {
        self.nodes.contains_key(self.paths[t] as u64) && text_of(self.nodes[self.paths[t] as u64].path) == t
    }

    /// The number that a client's path in a directory stands for. Zero stands
    /// for the root; below the directory above the root there is only the
    /// volume itself.
    pub open spec fn resolve(self, directory_id: u32, path: Seq<char>) -> Option<u32> {
        let d = if directory_id == 0 {
            ROOT
        } else {
            directory_id
        };
        if d == PARENT_OF_ROOT {
            if blank(path) {
                Some(PARENT_OF_ROOT)
            } else if parsed(path) == parsed(self.name) {
                Some(ROOT)
            } else {
                None
            }
        } else if !self.nodes.contains_key(d as u64) {
            None
        } else if blank(path) {
            Some(d)
        } else {
            self.at(join_paths(self.nodes[d as u64].path, parsed(path)))
        }
    }

    /// The number of the node at a path.
    pub open spec fn at(self, path: PathView) -> Option<u32> {
        if self.paths.contains_key(text_of(path)) {
            Some(self.paths[text_of(path)])
        } else {
            None
        }
    }

    /// The number of the directory that a node is in: of the one at its path, or
    /// else the one that the node was created in.
    pub open spec fn home_of(self, id: u32) -> u32 {
        let node = self.nodes[id as u64];
        match self.at(parent_of(node.path)) {
            Some(home) => home,
            None => node.parent_id,
        }
    }

    /// The volume with one more node.
    pub open spec fn registered(self, parent_id: u32, path: PathView, name: Seq<char>, is_dir: bool) -> VolumeModel {
        VolumeModel {
            nodes: self.nodes.insert(
                self.next_id as u64,
                new_node(self.next_id, parent_id, name, is_dir, path),
            ),
            paths: self.paths.insert(text_of(path), self.next_id),
            next_id: (self.next_id + 1) as u32,
            ..self
        }
    }

    /// The volume after the first `n` entries of a directory have been taken
    /// in: those that are not known yet get a number.
    pub open spec fn populated(self, dir_id: u32, dir_path: PathView, entries: Seq<EntryView>, n: nat) -> VolumeModel
        decreases n,
    {
        if n == 0 {
            self
        } else {
            let before = self.populated(dir_id, dir_path, entries, (n - 1) as nat);
            let e = entries[n - 1];
            let path = join_paths(dir_path, parsed(e.name));
            if hidden(e.name) || before.at(path) is Some {
                before
            } else {
                before.registered(dir_id, path, swapped(e.name, ':', '/'), e.is_dir)
            }
        }
    }

    /// The volume after the first `n` entries of a directory have been walked
    /// over: all get a number.
    pub open spec fn walked(self, dir_id: u32, dir_path: PathView, entries: Seq<EntryView>, n: nat) -> VolumeModel
        decreases n,
    {
        if n == 0 {
            self
        } else {
            let before = self.walked(dir_id, dir_path, entries, (n - 1) as nat);
            let e = entries[n - 1];
            if hidden(e.name) {
                before
            } else {
                before.registered(
                    dir_id,
                    join_paths(dir_path, parsed(e.name)),
                    swapped(e.name, ':', '/'),
                    e.is_dir,
                )
            }
        }
    }
}

/// Whether a name is one of the server's own, which clients do not see.
pub open spec fn hidden(name: Seq<char>) -> bool {
    name == ".tailtalk"@ || name == ".AppleDesktop"@
}

/// Whether a name is one of the server's own.
pub fn is_hidden(name: &str) -> (r: bool)
    ensures
        r == hidden(name@),
{
    str_eq(name, ".tailtalk") || str_eq(name, ".AppleDesktop")
}

/// Whether every name of a directory is short enough.
pub open spec fn short_names(entries: Seq<EntryView>) -> bool {
    forall|i: int| 0 <= i < entries.len() ==> (#[trigger] entries[i]).name.len() <= MAX_NAME_CHARS
}

/// What is put together from a sound path and a text that is short enough is a
/// sound path.
pub proof fn lemma_joined_short(base: PathView, text: Seq<char>)
    requires
        path_ok(base),
        text.len() <= MAX_NAME_CHARS,
    ensures
        path_ok(parsed(text)),
        path_ok(join_paths(base, parsed(text))),
{
    lemma_part_lens(text, 0);
    law_parsed_paths_are_canonical(text);
    let rel = parsed(text);
    let p = join_paths(base, rel);
    assert forall|i: int| 0 <= i < rel.parts.len() implies (#[trigger] rel.parts[i]).len() <= MAX_NAME_CHARS by {}
    if !(rel.absolute || base == no_path()) {
        assert forall|i: int| 0 <= i < p.parts.len() implies (#[trigger] p.parts[i]).len() <= MAX_NAME_CHARS
            && p.parts[i].len() > 0 && !p.parts[i].contains('/') && (p.parts[i] == seq!['.'] ==> i == 0 && !p.absolute) by {
            if i < base.parts.len() {
                assert(p.parts[i] == base.parts[i]);
            } else if rel.parts.len() > 0 && rel.parts[0] == seq!['.'] {
                assert(p.parts[i] == rel.parts[i - base.parts.len() + 1]);
            } else {
                assert(p.parts[i] == rel.parts[i - base.parts.len()]);
                if i == base.parts.len() {
                    assert(p.parts[i] == rel.parts[0]);
                }
            }
        }
    }
}

proof fn lemma_registered_ok(m: VolumeModel, parent_id: u32, path: PathView, name: Seq<char>, is_dir: bool)
    requires
        m.ok(),
        m.next_id < u32::MAX,
        name.len() <= MAX_NAME_CHARS,
        path_ok(path),
    ensures
        m.registered(parent_id, path, name, is_dir).ok(),
        !m.nodes.contains_key(m.next_id as u64),
{
    let after = m.registered(parent_id, path, name, is_dir);
    assert forall|t: Seq<char>| #[trigger] after.paths.contains_key(t) implies after.leads_home(t) by {
        if t != text_of(path) {
            assert(m.paths.contains_key(t));
            assert(m.leads_home(t));
            assert(m.nodes.contains_key(m.paths[t] as u64));
        }
    }
    assert forall|id: u64| #[trigger] after.nodes.contains_key(id) implies node_ok(after.nodes[id], id, after.next_id) by {
        if id != m.next_id {
            assert(m.nodes.contains_key(id));
        }
    }
}

impl Volume {
    /// The invariants of the tables that hold the state.
    pub open spec fn tables_wf(self) -> bool {
        self.nodes.wf() && self.paths.wf() && self.forks.wf() && self.locks.wf()
    }

    /// The invariant of the volume.
    pub open spec fn wf(self) -> bool {
        self.tables_wf() && self@.ok()
    }

    /// The state of the volume.
    pub open spec fn view(self) -> VolumeModel {
        VolumeModel {
            name: self.name@,
            created_at: self.created_at,
            volume_id: self.volume_id,
            nodes: Map::new(|k: u64| self.nodes@.contains_key(k), |k: u64| self.nodes@[k]@),
            paths: self.paths@,
            next_id: self.next_id,
            forks: self.forks@,
            next_fork_ref: self.next_fork_ref,
            locks: Map::new(|k: u64| self.locks@.contains_key(k), |k: u64| self.locks@[k]@),
            desktop: self.desktop,
        }
    }

    /// The state of a new volume: the root and the directory above it.
    pub open spec fn fresh(name: Seq<char>, created_at: u32, volume_id: u16) -> VolumeModel {
        VolumeModel {
            name,
            created_at,
            volume_id,
            nodes: Map::<u64, NodeView>::empty().insert(
                PARENT_OF_ROOT as u64,
                new_node(PARENT_OF_ROOT, PARENT_OF_ROOT, name, true, no_path()),
            ).insert(ROOT as u64, new_node(ROOT, PARENT_OF_ROOT, name, true, no_path())),
            paths: Map::<Seq<char>, u32>::empty().insert(Seq::empty(), ROOT),
            next_id: 3,
            forks: Map::empty(),
            next_fork_ref: 1,
            locks: Map::empty(),
            desktop: None,
        }
    }

    fn put_node(&mut self, node: Node)
        requires
            old(self).tables_wf(),
        ensures
            final(self).tables_wf(),
            final(self)@ == (VolumeModel { nodes: old(self)@.nodes.insert(node.id as u64, node@), ..old(self)@ }),
            final(self).root == old(self).root,
    {
        let ghost before = *self;
        let ghost added = node;
        self.nodes.insert(node.id as u64, node);
        assert(self@ =~= (VolumeModel { nodes: before@.nodes.insert(added.id as u64, added@), ..before@ })) by {
            assert(self@.nodes =~= before@.nodes.insert(added.id as u64, added@));
            assert(self@.locks =~= before@.locks);
        }
    }

    fn put_path(&mut self, text: String, id: u32)
        requires
            old(self).tables_wf(),
        ensures
            final(self).tables_wf(),
            final(self)@ == (VolumeModel { paths: old(self)@.paths.insert(text@, id), ..old(self)@ }),
            final(self).nodes == old(self).nodes,
            final(self).root == old(self).root,
    {
        let ghost before = *self;
        self.paths.insert(text, id);
        assert(self@ =~= (VolumeModel { paths: before@.paths.insert(text@, id), ..before@ })) by {
            assert(self@.nodes =~= before@.nodes);
            assert(self@.locks =~= before@.locks);
        }
    }

    fn drop_path(&mut self, text: &str)
        requires
            old(self).tables_wf(),
        ensures
            final(self).tables_wf(),
            final(self)@ == (VolumeModel { paths: old(self)@.paths.remove(text@), ..old(self)@ }),
            final(self).nodes == old(self).nodes,
            final(self).root == old(self).root,
    {
        let ghost before = *self;
        self.paths.remove(text);
        assert(self@ =~= (VolumeModel { paths: before@.paths.remove(text@), ..before@ })) by {
            assert(self@.nodes =~= before@.nodes);
            assert(self@.locks =~= before@.locks);
        }
    }

    fn node(&self, id: u32) -> (r: Option<&Node>)
        requires
            self.tables_wf(),
        ensures
            match r {
                Some(n) => self@.nodes.contains_key(id as u64) && self@.nodes[id as u64] == n@,
                None => !self@.nodes.contains_key(id as u64),
            },
    {
        self.nodes.get(id as u64)
    }

    fn id_at(&self, path: &FsPath) -> (r: Option<u32>)
        requires
            self.tables_wf(),
        ensures
            r == self@.at(path@),
    {
        let text = path.text();
        match self.paths.get(text.as_str()) {
            Some(id) => Some(*id),
            None => None,
        }
    }

    /// A volume of which nothing is known but the root.
    pub fn new(name: String, root: FsPath, volume_id: u16, created_at: u32) -> (v: Self)
        requires
            name@.len() <= MAX_NAME_CHARS,
        ensures
            v.wf(),
            v@ == Volume::fresh(name@, created_at, volume_id),
            v.root == root,
    {
        let first = name.clone();
        let second = name.clone();
        let mut v = Volume {
            name,
            root,
            created_at,
            volume_id,
            nodes: IdMap::new(),
            paths: StrMap::new(),
            next_id: 3,
            forks: IdMap::new(),
            next_fork_ref: 1,
            locks: IdMap::new(),
            desktop: None,
        };
        v.put_node(
            Node {
                id: PARENT_OF_ROOT,
                parent_id: PARENT_OF_ROOT,
                name: first,
                is_dir: true,
                path: FsPath::empty(),
                data_open: false,
                rsrc_open: false,
            },
        );
        v.put_node(
            Node {
                id: ROOT,
                parent_id: PARENT_OF_ROOT,
                name: second,
                is_dir: true,
                path: FsPath::empty(),
                data_open: false,
                rsrc_open: false,
            },
        );
        let empty = FsPath::empty().text();
        assert(empty@ =~= Seq::<char>::empty());
        v.put_path(empty, ROOT);
        proof {
            assert(v@ =~= Volume::fresh(name@, created_at, volume_id)) by {
                assert(v@.nodes =~= Volume::fresh(name@, created_at, volume_id).nodes);
                assert(v@.locks =~= Map::<u64, Seq<LockedRange>>::empty());
            }
            assert(text_of(no_path()) =~= Seq::<char>::empty());
        }
        v
    }

    /// The path of a node.
    pub fn get_node_path(&self, id: u32) -> (r: Option<FsPath>)
        requires
            self.wf(),
        ensures
            match r {
                Some(p) => self@.nodes.contains_key(id as u64) && p@ == self@.nodes[id as u64].path,
                None => !self@.nodes.contains_key(id as u64),
            },
    {
        match self.node(id) {
            Some(n) => Some(n.path.copy()),
            None => None,
        }
    }

    /// The number that a client's path in a directory stands for.
    pub fn resolve_node(&self, directory_id: u32, path_name: &str) -> (r: Result<u32, AfpError>)
        requires
            self.wf(),
        ensures
            r == match self@.resolve(directory_id, path_name@) {
                Some(id) => Ok::<u32, AfpError>(id),
                None => Err(AfpError::ObjectNotFound),
            },
    {
        let d: u32 = if directory_id == 0 { ROOT } else { directory_id };
        let is_empty = afp_path_is_empty(path_name);
        if d == PARENT_OF_ROOT {
            if is_empty {
                return Ok(PARENT_OF_ROOT);
            }
            let wanted = FsPath::from_text(path_name);
            let ours = FsPath::from_text(self.name.as_str());
            if wanted.same(&ours) {
                return Ok(ROOT);
            }
            return Err(AfpError::ObjectNotFound);
        }
        match self.node(d) {
            None => Err(AfpError::ObjectNotFound),
            Some(n) => {
                if is_empty {
                    return Ok(d);
                }
                let full = n.path.join(&FsPath::from_text(path_name));
                match self.id_at(&full) {
                    Some(id) => Ok(id),
                    None => Err(AfpError::ObjectNotFound),
                }
            },
        }
    }

    fn register(&mut self, parent_id: u32, path: FsPath, name: String, is_dir: bool) -> (id: u32)
        requires
            old(self).wf(),
            old(self).next_id < u32::MAX,
            name@.len() <= MAX_NAME_CHARS,
            path_ok(path@),
        ensures
            final(self).wf(),
            id == old(self).next_id,
            final(self)@ == old(self)@.registered(parent_id, path@, name@, is_dir),
            final(self).root == old(self).root,
    {
        let ghost start = self@;
        let id: u32 = self.next_id;
        self.next_id = id + 1;
        let ghost counted = self@;
        assert(counted =~= (VolumeModel { next_id: (start.next_id + 1) as u32, ..start })) by {
            assert(counted.nodes =~= start.nodes);
            assert(counted.locks =~= start.locks);
        }
        let text = path.text();
        let ghost view = path@;
        self.put_node(
            Node { id, parent_id, name, is_dir, path, data_open: false, rsrc_open: false },
        );
        self.put_path(text, id);
        proof {
            assert(self@ =~= start.registered(parent_id, view, name@, is_dir));
            lemma_registered_ok(start, parent_id, view, name@, is_dir);
        }
        id
    }

    /// The path of a node that has to be a directory.
    pub fn plan_directory(&self, id: u32) -> (r: Result<FsPath, AfpError>)
        requires
            self.wf(),
        ensures
            if !self@.nodes.contains_key(id as u64) {
                r == Err::<FsPath, AfpError>(AfpError::ObjectNotFound)
            } else if !self@.nodes[id as u64].is_dir {
                r == Err::<FsPath, AfpError>(AfpError::ObjectTypeErr)
            } else {
                r matches Ok(p) && p@ == self@.nodes[id as u64].path && path_ok(p@)
            },
    {
        match self.node(id) {
            None => Err(AfpError::ObjectNotFound),
            Some(n) => {
                assert(node_ok(self@.nodes[id as u64], id as u64, self.next_id));
                if n.is_dir {
                    Ok(n.path.copy())
                } else {
                    Err(AfpError::ObjectTypeErr)
                }
            },
        }
    }

    /// The number of the node at a path, which gets one where it has none.
    pub fn number_of(&mut self, parent_id: u32, path: FsPath, name: String, is_dir: bool) -> (id: u32)
        requires
            old(self).wf(),
            old(self).next_id < u32::MAX,
            name@.len() <= MAX_NAME_CHARS,
            path_ok(path@),
        ensures
            final(self).wf(),
            final(self).root == old(self).root,
            final(self)@ == if old(self)@.at(path@) is Some {
                old(self)@
            } else {
                old(self)@.registered(parent_id, path@, name@, is_dir)
            },
            Some(id) == final(self)@.at(path@),
    {
        match self.id_at(&path) {
            Some(id) => id,
            None => self.register(parent_id, path, name, is_dir),
        }
    }

    /// Takes in the entries of a directory: those that are not known yet get a
    /// number. What is below them is not looked at.
    pub fn ensure_dir_populated(&mut self, dir_id: u32, listing: &[DirEntry]) -> (r: Result<(), AfpError>)
        requires
            old(self).wf(),
            old(self).next_id + listing@.len() <= u32::MAX,
            short_names(entries_of(listing@)),
        ensures
            final(self).wf(),
            final(self).root == old(self).root,
            if old(self)@.nodes.contains_key(dir_id as u64) {
                r == Ok::<(), AfpError>(()) && final(self)@ == old(self)@.populated(
                    dir_id,
                    old(self)@.nodes[dir_id as u64].path,
                    entries_of(listing@),
                    listing@.len(),
                )
            } else {
                r == Err::<(), AfpError>(AfpError::ObjectNotFound) && final(self)@ == old(self)@
            },
    {
        let ghost start = self@;
        let ghost entries = entries_of(listing@);
        let dir_path = match self.node(dir_id) {
            Some(n) => n.path.copy(),
            None => {
                return Err(AfpError::ObjectNotFound);
            },
        };
        let mut i: usize = 0;
        while i < listing.len()
            invariant
                i <= listing@.len(),
                entries == entries_of(listing@),
                short_names(entries),
                path_ok(dir_path@),
                self.wf(),
                self.root == old(self).root,
                self.next_id + (listing@.len() - i) <= u32::MAX,
                self@ == start.populated(dir_id, dir_path@, entries, i as nat),
            decreases listing@.len() - i,
        {
            let e = &listing[i];
            assert(entries[i as int] == e@);
            if !is_hidden(e.name.as_str()) {
                let path = dir_path.join(&FsPath::from_text(e.name.as_str()));
                proof {
                    lemma_joined_short(dir_path@, e.name@);
                }
                if self.id_at(&path).is_none() {
                    let name = posix_name_to_afp(e.name.as_str());
                    self.register(dir_id, path, name, e.is_dir);
                }
            }
            i += 1;
        }
        Ok(())
    }

    /// Like `resolve_node`, but a path that is not known is looked for among
    /// the entries of its directory, where these can be read.
    pub fn resolve_node_lazy(&mut self, directory_id: u32, path_name: &str, listing: Option<&[DirEntry]>) -> (r: Result<
        u32,
        AfpError,
    >)
        requires
            old(self).wf(),
            listing matches Some(l) ==> old(self).next_id + l@.len() <= u32::MAX && short_names(entries_of(l@)),
        ensures
            final(self).wf(),
            final(self).root == old(self).root,
            ({
                let d = if directory_id == 0 {
                    ROOT
                } else {
                    directory_id
                };
                let looked = if old(self)@.resolve(directory_id, path_name@) is None && d >= ROOT && !blank(path_name@)
                    && listing is Some && old(self)@.nodes.contains_key(d as u64) {
                    old(self)@.populated(
                        d,
                        old(self)@.nodes[d as u64].path,
                        entries_of(listing->0@),
                        listing->0@.len(),
                    )
                } else {
                    old(self)@
                };
                &&& final(self)@ == looked
                &&& r == match looked.resolve(directory_id, path_name@) {
                    Some(id) => Ok::<u32, AfpError>(id),
                    None => Err(AfpError::ObjectNotFound),
                }
            }),
    {
        if let Ok(id) = self.resolve_node(directory_id, path_name) {
            return Ok(id);
        }
        let d: u32 = if directory_id == 0 { ROOT } else { directory_id };
        if d >= ROOT && !afp_path_is_empty(path_name) {
            if let Some(entries) = listing {
                let _ = self.ensure_dir_populated(d, entries);
            }
        }
        self.resolve_node(directory_id, path_name)
    }

    /// How many entries of a directory clients see, in 16 bits.
    pub fn count_directory_entries(listing: &[DirEntry]) -> (count: u16)
        ensures
            count == if visible(entries_of(listing@), listing@.len()).len() > 0xFFFF {
                0xFFFF
            } else {
                visible(entries_of(listing@), listing@.len()).len() as int
            },
    {
        let ghost entries = entries_of(listing@);
        let mut count: u16 = 0;
        let mut i: usize = 0;
        while i < listing.len()
            invariant
                i <= listing@.len(),
                entries == entries_of(listing@),
                count == if visible(entries, i as nat).len() > 0xFFFF {
                    0xFFFF
                } else {
                    visible(entries, i as nat).len() as int
                },
            decreases listing@.len() - i,
        {
            assert(entries[i as int] == listing@[i as int]@);
            if !is_hidden(listing[i].name.as_str()) {
                count = count.saturating_add(1);
            }
            i += 1;
        }
        count
    }
}

/// The entries among the first `n` that clients see.
pub open spec fn visible(entries: Seq<EntryView>, n: nat) -> Seq<EntryView>
    decreases n,
{
    if n == 0 {
        Seq::empty()
    } else if hidden(entries[n - 1].name) {
        visible(entries, (n - 1) as nat)
    } else {
        visible(entries, (n - 1) as nat).push(entries[n - 1])
    }
}

// ── Walking a directory ──────────────────────────────────────────────────────

/// A walk over a directory and everything below it: the directories that are
/// still to be read, the next one last.
#[derive(Debug)]
pub struct Walk {
    pub stack: Vec<(FsPath, u32)>,
}

/// The paths and numbers of directories.
pub open spec fn stack_of(stack: Seq<(FsPath, u32)>) -> Seq<(PathView, u32)> {
    Seq::new(stack.len(), |i: int| (stack[i].0@, stack[i].1))
}

/// The directories among the first `n` entries, as they get numbers from
/// `next_id` on.
pub open spec fn walked_dirs(next_id: u32, dir_path: PathView, entries: Seq<EntryView>, n: nat) -> Seq<(PathView, u32)>
    decreases n,
{
    if n == 0 {
        Seq::empty()
    } else {
        let before = walked_dirs(next_id, dir_path, entries, (n - 1) as nat);
        let e = entries[n - 1];
        if !hidden(e.name) && e.is_dir {
            before.push(
                (
                    join_paths(dir_path, parsed(e.name)),
                    (next_id + visible(entries, (n - 1) as nat).len()) as u32,
                ),
            )
        } else {
            before
        }
    }
}

impl Walk {
    /// A walk that starts at a path; a path that is not known counts as the
    /// root's number.
    pub fn walk_dir(volume: &Volume, relative_path: &FsPath) -> (w: Self)
        requires
            volume.wf(),
        ensures
            stack_of(w.stack@) == seq![
                (
                    relative_path@,
                    match volume@.at(relative_path@) {
                        Some(id) => id,
                        None => ROOT,
                    },
                ),
            ],
    {
        let start: u32 = match volume.id_at(relative_path) {
            Some(id) => id,
            None => ROOT,
        };
        let mut stack: Vec<(FsPath, u32)> = Vec::new();
        stack.push((relative_path.copy(), start));
        assert(stack_of(stack@) =~= seq![(relative_path@, start)]);
        Walk { stack }
    }

    /// The next directory to be read, with its number.
    pub fn next_dir(&mut self) -> (r: Option<(FsPath, u32)>)
        ensures
            match r {
                Some(d) => old(self).stack@.len() > 0 && (d.0@, d.1) == stack_of(old(self).stack@).last() && stack_of(
                    final(self).stack@,
                ) == stack_of(old(self).stack@).drop_last(),
                None => old(self).stack@.len() == 0 && final(self).stack@ == old(self).stack@,
            },
    {
        let r = self.stack.pop();
        if r.is_some() {
            assert(stack_of(self.stack@) =~= stack_of(old(self).stack@).drop_last());
        }
        r
    }

    /// Takes in the entries of a directory: all get a number, and directories
    /// are to be read as well.
    pub fn entries(&mut self, volume: &mut Volume, dir_path: &FsPath, dir_id: u32, listing: &[DirEntry])
        requires
            old(volume).wf(),
            old(volume).next_id + listing@.len() <= u32::MAX,
            short_names(entries_of(listing@)),
            path_ok(dir_path@),
        ensures
            final(volume).wf(),
            final(volume).root == old(volume).root,
            final(volume)@ == old(volume)@.walked(dir_id, dir_path@, entries_of(listing@), listing@.len()),
            stack_of(final(self).stack@) == stack_of(old(self).stack@) + walked_dirs(
                old(volume).next_id,
                dir_path@,
                entries_of(listing@),
                listing@.len(),
            ),
    {
        let ghost start = volume@;
        let ghost base = stack_of(self.stack@);
        let ghost entries = entries_of(listing@);
        let mut i: usize = 0;
        assert(base + Seq::<(PathView, u32)>::empty() =~= base);
        while i < listing.len()
            invariant
                i <= listing@.len(),
                entries == entries_of(listing@),
                short_names(entries),
                path_ok(dir_path@),
                volume.wf(),
                volume.root == old(volume).root,
                start.next_id + listing@.len() <= u32::MAX,
                volume.next_id == start.next_id + visible(entries, i as nat).len(),
                visible(entries, i as nat).len() <= i,
                volume@ == start.walked(dir_id, dir_path@, entries, i as nat),
                stack_of(self.stack@) == base + walked_dirs(start.next_id, dir_path@, entries, i as nat),
            decreases listing@.len() - i,
        {
            let e = &listing[i];
            assert(entries[i as int] == e@);
            if !is_hidden(e.name.as_str()) {
                let path = dir_path.join(&FsPath::from_text(e.name.as_str()));
                proof {
                    lemma_joined_short(dir_path@, e.name@);
                }
                let copy = path.copy();
                let name = posix_name_to_afp(e.name.as_str());
                let id: u32 = volume.register(dir_id, path, name, e.is_dir);
                if e.is_dir {
                    let ghost before = self.stack@;
                    self.stack.push((copy, id));
                    assert(stack_of(self.stack@) =~= stack_of(before).push((copy@, id)));
                    assert(stack_of(self.stack@) =~= base + walked_dirs(
                        start.next_id,
                        dir_path@,
                        entries,
                        (i + 1) as nat,
                    ));
                }
            }
            i += 1;
        }
    }
}

// ── Parameters ───────────────────────────────────────────────────────────────

/// What a request for parameters is about.
#[derive(Debug)]
pub struct ParmsTarget {
    pub id: u32,
    pub is_dir: bool,
    pub path: FsPath,
}

/// Which of the parameters are to be set that can be.
#[derive(Debug, Clone, Copy, PartialEq, Eq, Structural)]
pub struct SetBitmap {
    pub attributes: bool,
    pub create_date: bool,
    pub modification_date: bool,
    pub backup_date: bool,
    pub finder_info: bool,
}

/// What is set of a file or directory.
#[derive(Debug)]
pub struct SetParms {
    pub attributes: Option<u16>,
    pub finder_info: Option<Vec<u8>>,
}

impl SetBitmap {
    /// Where the Finder information stands: behind the attributes and the
    /// dates.
    pub open spec fn finder_info_at(self) -> nat {
        (if self.attributes {
            2nat
        } else {
            0
        }) + (if self.create_date {
            4nat
        } else {
            0
        }) + (if self.modification_date {
            4nat
        } else {
            0
        }) + (if self.backup_date {
            4nat
        } else {
            0
        })
    }

    /// Whether the data holds what the bitmap tells.
    pub open spec fn fits(self, data: Seq<u8>) -> bool {
        &&& self.attributes ==> data.len() >= 2
        &&& self.finder_info ==> data.len() >= self.finder_info_at() + 32
    }

    /// Whether the data holds what the bitmap tells.
    pub fn holds(&self, data: &[u8]) -> (r: bool)
        ensures
            r == self.fits(data@),
    {
        let mut at: usize = 0;
        if self.attributes {
            at += 2;
        }
        if self.create_date {
            at += 4;
        }
        if self.modification_date {
            at += 4;
        }
        if self.backup_date {
            at += 4;
        }
        (!self.attributes || data.len() >= 2) && (!self.finder_info || data.len() >= at + 32)
    }

    /// Reads what is to be set. Dates are passed over.
    pub fn read(&self, data: &[u8]) -> (p: SetParms)
        requires
            self.fits(data@),
        ensures
            p.attributes == if self.attributes {
                Some(from_be16(data@[0], data@[1]))
            } else {
                None
            },
            match p.finder_info {
                Some(info) => self.finder_info && info@ == data@.subrange(
                    self.finder_info_at() as int,
                    (self.finder_info_at() + 32) as int,
                ),
                None => !self.finder_info,
            },
    {
        let mut offset: usize = 0;
        let mut attributes: Option<u16> = None;
        if self.attributes {
            attributes = Some(get_be16(data, 0));
            offset = 2;
        }
        if self.create_date {
            offset = offset + 4;
        }
        if self.modification_date {
            offset = offset + 4;
        }
        if self.backup_date {
            offset = offset + 4;
        }
        let finder_info = if self.finder_info { Some(slice_bytes(data, offset, offset + 32)) } else { None };
        SetParms { attributes, finder_info }
    }
}

impl VolumeModel {
    /// The node whose parameters a request for a node gets: the one that its
    /// path leads to.
    pub open spec fn parms_of(self, node_id: u32) -> Option<u32> {
        if self.nodes.contains_key(node_id as u64) {
            self.at(self.nodes[node_id as u64].path)
        } else {
            None
        }
    }
}

impl Volume {
    /// What a request for the parameters of a node is about.
    pub fn plan_node_parms(&self, node_id: u32) -> (r: Result<ParmsTarget, AfpError>)
        requires
            self.wf(),
        ensures
            match self@.parms_of(node_id) {
                Some(id) => r matches Ok(t) && t.id == id && t.is_dir == self@.nodes[node_id as u64].is_dir && t.path@
                    == self@.nodes[node_id as u64].path && self@.nodes.contains_key(id as u64),
                None => r == Err::<ParmsTarget, AfpError>(AfpError::ObjectNotFound),
            },
    {
        match self.node(node_id) {
            None => Err(AfpError::ObjectNotFound),
            Some(n) => match self.id_at(&n.path) {
                None => Err(AfpError::ObjectNotFound),
                Some(id) => {
                    proof {
                        let t = text_of(self@.nodes[node_id as u64].path);
                        assert(self@.paths.contains_key(t));
                        assert(self@.leads_home(t));
                    }
                    Ok(ParmsTarget { id, is_dir: n.is_dir, path: n.path.copy() })
                },
            },
        }
    }

    /// The parameters of a file. The facts are missing where the file system
    /// has no such file.
    pub fn get_file_parms_resp(&self, bitmap: FileBitmap, id: u32, facts: Option<FileFacts>) -> (r: Result<Vec<u8>, AfpError>)
        requires
            self.wf(),
        ensures
            match facts {
                Some(f) => if self@.nodes.contains_key(id as u64) {
                    let n = self@.nodes[id as u64];
                    r matches Ok(out) && out@ == file_parms(bitmap, n.id, n.parent_id, n.name, f) && (is_ascii_chars(n.name)
                        ==> out@ == file_parms_named(bitmap, n.id, n.parent_id, utf8(n.name), f))
                } else {
                    r == Err::<Vec<u8>, AfpError>(AfpError::ObjectNotFound)
                },
                None => r == Err::<Vec<u8>, AfpError>(AfpError::ObjectNotFound),
            },
    {
        match (self.node(id), facts) {
            (Some(n), Some(f)) => {
                assert(node_ok(n@, id as u64, self.next_id));
                Ok(get_file_parms(bitmap, n.id, n.parent_id, n.name.as_str(), &f))
            },
            _ => Err(AfpError::ObjectNotFound),
        }
    }

    /// The parameters of a directory. The facts are missing where the file
    /// system has no such directory.
    pub fn get_directory_parms_resp(&self, bitmap: DirBitmap, id: u32, facts: Option<DirFacts>) -> (r: Result<
        Vec<u8>,
        AfpError,
    >)
        requires
            self.wf(),
        ensures
            match facts {
                Some(f) => if self@.nodes.contains_key(id as u64) {
                    let n = self@.nodes[id as u64];
                    r matches Ok(out) && out@ == dir_parms(bitmap, n.id, n.parent_id, n.name, f) && (is_ascii_chars(n.name)
                        ==> out@ == dir_parms_named(bitmap, n.id, n.parent_id, utf8(n.name), f))
                } else {
                    r == Err::<Vec<u8>, AfpError>(AfpError::ObjectNotFound)
                },
                None => r == Err::<Vec<u8>, AfpError>(AfpError::ObjectNotFound),
            },
    {
        match (self.node(id), facts) {
            (Some(n), Some(f)) => {
                assert(node_ok(n@, id as u64, self.next_id));
                Ok(get_directory_parms(bitmap, n.id, n.parent_id, n.name.as_str(), &f))
            },
            _ => Err(AfpError::ObjectNotFound),
        }
    }

    /// Whether the parameters of a node can be set, and whether it is a
    /// directory.
    pub fn plan_set_node_parms(&self, node_id: u32) -> (r: Result<bool, AfpError>)
        requires
            self.wf(),
        ensures
            r == if node_id == PARENT_OF_ROOT || !self@.nodes.contains_key(node_id as u64) {
                Err(AfpError::ObjectNotFound)
            } else {
                Ok(self@.nodes[node_id as u64].is_dir)
            },
    {
        if node_id == PARENT_OF_ROOT {
            return Err(AfpError::ObjectNotFound);
        }
        match self.node(node_id) {
            Some(n) => Ok(n.is_dir),
            None => Err(AfpError::ObjectNotFound),
        }
    }

    /// The attributes of the volume: it can be written to.
    pub fn get_attributes(&self) -> (r: u16)
        ensures
            r == 0,
    {
        0
    }

    /// When the volume was created.
    pub fn get_created_at(&self) -> (r: u32)
        ensures
            r == self@.created_at,
    {
        self.created_at
    }

    /// When the volume was changed: by the Unix time of its directory, or else
    /// when it was created.
    pub fn get_modified_at(&self, modified: Option<i64>) -> (r: u32)
        ensures
            r == match modified {
                Some(t) => afp_date_v1(t),
                None => self@.created_at,
            },
    {
        match modified {
            Some(t) => time_to_afp_v1(t),
            None => self.created_at,
        }
    }

    /// When the volume was backed up: never.
    pub fn get_backup_at(&self) -> (r: u32)
        ensures
            r == 0,
    {
        0
    }

    /// The number of the volume.
    pub fn get_volume_id(&self) -> (r: u16)
        ensures
            r == self@.volume_id,
    {
        self.volume_id
    }

    /// The free space of the volume.
    pub fn get_bytes_free(&self) -> (r: u32)
        ensures
            r == VOLUME_BYTES,
    {
        VOLUME_BYTES
    }

    /// The size of the volume.
    pub fn get_bytes_total(&self) -> (r: u32)
        ensures
            r == VOLUME_BYTES,
    {
        VOLUME_BYTES
    }

    /// The parameters of the volume, unless they are longer than `room` bytes.
    pub fn get_bitmap_resp(&self, bitmap: VolumeBitmap, modified_at: u32, room: usize) -> (r: Result<Vec<u8>, AfpError>)
        ensures
            ({
                let out = volume_parms(bitmap, self@.created_at, modified_at, self@.volume_id, self@.name);
                if out.len() <= room {
                    r matches Ok(bytes) && bytes@ == out
                } else {
                    r == Err::<Vec<u8>, AfpError>(AfpError::ParamError)
                }
            }),
    {
        let out = get_volume_parms(
            bitmap,
            self.created_at,
            modified_at,
            self.volume_id,
            self.name.as_str(),
        );
        if out.len() <= room {
            Ok(out)
        } else {
            Err(AfpError::ParamError)
        }
    }
}

// ── Creating ─────────────────────────────────────────────────────────────────

/// Whether an existing file is replaced.
#[derive(Debug, Clone, Copy, PartialEq, Eq, Structural)]
pub enum CreateFlag {
    Soft,
    Hard,
}

/// What creates a file.
#[derive(Debug)]
pub struct CreateFile {
    pub path: FsPath,
    /// Whether the file that is there has to be removed first.
    pub remove_first: bool,
}

proof fn lemma_last_name_short(p: PathView)
    requires
        path_ok(p),
    ensures
        last_name(p) matches Some(name) ==> name.len() <= MAX_NAME_CHARS,
{
    if p.parts.len() > 0 {
        assert(p.parts[p.parts.len() - 1].len() <= MAX_NAME_CHARS);
    }
}

proof fn lemma_next_id_ok(m: VolumeModel)
    requires
        m.ok(),
        m.next_id < u32::MAX,
    ensures
        (VolumeModel { next_id: (m.next_id + 1) as u32, ..m }).ok(),
{
    let after = VolumeModel { next_id: (m.next_id + 1) as u32, ..m };
    assert forall|id: u64| #[trigger] after.nodes.contains_key(id) implies node_ok(after.nodes[id], id, after.next_id) by {
        assert(m.nodes.contains_key(id));
    }
    assert forall|t: Seq<char>| #[trigger] after.paths.contains_key(t) implies after.leads_home(t) by {
        assert(m.paths.contains_key(t));
        assert(m.leads_home(t));
    }
}

impl Volume {
    /// The path of a directory that is to be created.
    pub fn plan_create_dir(&self, directory_id: u32, path_name: &str) -> (r: Result<FsPath, AfpError>)
        requires
            self.wf(),
        ensures
            if self@.nodes.contains_key(directory_id as u64) {
                r matches Ok(p) && p@ == join_paths(self@.nodes[directory_id as u64].path, parsed(path_name@))
            } else {
                r == Err::<FsPath, AfpError>(AfpError::ObjectNotFound)
            },
    {
        match self.node(directory_id) {
            Some(n) => Ok(n.path.join(&FsPath::from_text(path_name))),
            None => Err(AfpError::ObjectNotFound),
        }
    }

    /// Takes in a directory that has been created, or was there: it keeps its
    /// number, or gets one.
    pub fn create_dir(&mut self, directory_id: u32, path_name: &str) -> (r: Result<u32, AfpError>)
        requires
            old(self).wf(),
            old(self).next_id < u32::MAX,
            path_name@.len() <= MAX_NAME_CHARS,
        ensures
            final(self).wf(),
            final(self).root == old(self).root,
            ({
                let m = old(self)@;
                let path = join_paths(m.nodes[directory_id as u64].path, parsed(path_name@));
                if !m.nodes.contains_key(directory_id as u64) {
                    r == Err::<u32, AfpError>(AfpError::ObjectNotFound) && final(self)@ == m
                } else {
                    match m.at(path) {
                        Some(id) => r == Ok::<u32, AfpError>(id) && final(self)@ == m,
                        None => match last_name(parsed(path_name@)) {
                            Some(name) => r == Ok::<u32, AfpError>(m.next_id) && final(self)@ == m.registered(
                                directory_id,
                                path,
                                swapped(name, ':', '/'),
                                true,
                            ),
                            None => r == Err::<u32, AfpError>(AfpError::ObjectNotFound) && final(self)@ == (VolumeModel {
                                next_id: (m.next_id + 1) as u32,
                                ..m
                            }),
                        },
                    }
                }
            }),
    {
        let ghost start = self@;
        let rel = FsPath::from_text(path_name);
        let path = match self.node(directory_id) {
            Some(n) => {
                proof {
                    assert(node_ok(start.nodes[directory_id as u64], directory_id as u64, start.next_id));
                    lemma_joined_short(n.path@, path_name@);
                    lemma_last_name_short(parsed(path_name@));
                }
                n.path.join(&rel)
            },
            None => {
                return Err(AfpError::ObjectNotFound);
            },
        };
        if let Some(id) = self.id_at(&path) {
            return Ok(id);
        }
        match rel.file_name() {
            Some(name) => {
                let afp_name = posix_name_to_afp(name.as_str());
                Ok(self.register(directory_id, path, afp_name, true))
            },
            None => {
                proof {
                    lemma_next_id_ok(start);
                }
                self.next_id = self.next_id + 1;
                assert(self@ =~= (VolumeModel { next_id: (start.next_id + 1) as u32, ..start })) by {
                    assert(self@.nodes =~= start.nodes);
                    assert(self@.locks =~= start.locks);
                }
                Err(AfpError::ObjectNotFound)
            },
        }
    }

    /// What creates a file, of which it is known whether it exists.
    pub fn plan_create_file(&self, create_flag: CreateFlag, directory_id: u32, path_name: &str, there: bool) -> (r: Result<
        CreateFile,
        AfpError,
    >)
        requires
            self.wf(),
        ensures
            if !self@.nodes.contains_key(directory_id as u64) {
                r == Err::<CreateFile, AfpError>(AfpError::ObjectNotFound)
            } else if create_flag == CreateFlag::Soft && there {
                r == Err::<CreateFile, AfpError>(AfpError::ObjectExists)
            } else {
                r matches Ok(c) && c.remove_first == there && c.path@ == join_paths(
                    self@.nodes[directory_id as u64].path,
                    parsed(path_name@),
                )
            },
    {
        match self.node(directory_id) {
            None => Err(AfpError::ObjectNotFound),
            Some(n) => {
                if there && create_flag == CreateFlag::Soft {
                    return Err(AfpError::ObjectExists);
                }
                Ok(CreateFile { path: n.path.join(&FsPath::from_text(path_name)), remove_first: there })
            },
        }
    }

    /// Takes in a file that has been created: it gets a number of its own.
    pub fn create_file(&mut self, directory_id: u32, path_name: &str) -> (r: Result<u32, AfpError>)
        requires
            old(self).wf(),
            old(self).next_id < u32::MAX,
            path_name@.len() <= MAX_NAME_CHARS,
        ensures
            final(self).wf(),
            final(self).root == old(self).root,
            ({
                let m = old(self)@;
                let path = join_paths(m.nodes[directory_id as u64].path, parsed(path_name@));
                if !m.nodes.contains_key(directory_id as u64) {
                    r == Err::<u32, AfpError>(AfpError::ObjectNotFound) && final(self)@ == m
                } else {
                    match last_name(path) {
                        Some(name) => r == Ok::<u32, AfpError>(m.next_id) && final(self)@ == m.registered(
                            directory_id,
                            path,
                            swapped(name, ':', '/'),
                            false,
                        ),
                        None => r == Err::<u32, AfpError>(AfpError::ObjectNotFound) && final(self)@ == (VolumeModel {
                            next_id: (m.next_id + 1) as u32,
                            ..m
                        }),
                    }
                }
            }),
    {
        let ghost start = self@;
        let path = match self.node(directory_id) {
            Some(n) => {
                proof {
                    assert(node_ok(start.nodes[directory_id as u64], directory_id as u64, start.next_id));
                    lemma_joined_short(n.path@, path_name@);
                }
                n.path.join(&FsPath::from_text(path_name))
            },
            None => {
                return Err(AfpError::ObjectNotFound);
            },
        };
        proof {
            lemma_last_name_short(path@);
        }
        match path.file_name() {
            Some(name) => {
                let afp_name = posix_name_to_afp(name.as_str());
                Ok(self.register(directory_id, path, afp_name, false))
            },
            None => {
                proof {
                    lemma_next_id_ok(start);
                }
                self.next_id = self.next_id + 1;
                assert(self@ =~= (VolumeModel { next_id: (start.next_id + 1) as u32, ..start })) by {
                    assert(self@.nodes =~= start.nodes);
                    assert(self@.locks =~= start.locks);
                }
                Err(AfpError::ObjectNotFound)
            },
        }
    }
}

// ── Forks ────────────────────────────────────────────────────────────────────

/// The reference number after one: zero is left out.
pub open spec fn fork_ref_after(n: u16) -> u16 {
    if n == u16::MAX {
        1
    } else {
        (n + 1) as u16
    }
}

impl VolumeModel {
    /// The volume after a fork of a node has been opened.
    pub open spec fn fork_opened(self, id: u32, fork: ForkType) -> VolumeModel {
        VolumeModel {
            nodes: self.nodes.insert(id as u64, self.nodes[id as u64].with_fork(fork, true)),
            forks: self.forks.insert(self.next_fork_ref as u64, (id, fork)),
            next_fork_ref: fork_ref_after(self.next_fork_ref),
            ..self
        }
    }

    /// The volume after a fork has been closed.
    pub open spec fn fork_closed(self, fork_id: u16) -> VolumeModel {
        let (id, fork) = self.forks[fork_id as u64];
        VolumeModel {
            nodes: self.nodes.insert(id as u64, self.nodes[id as u64].with_fork(fork, false)),
            forks: self.forks.remove(fork_id as u64),
            locks: self.locks.remove(fork_id as u64),
            ..self
        }
    }

    /// Whether a reference number is one of a fork whose node is known.
    pub open spec fn has_fork(self, fork_id: u16) -> bool {
        self.forks.contains_key(fork_id as u64) && self.nodes.contains_key(self.forks[fork_id as u64].0 as u64)
    }

    /// Whether the node of a reference number has that fork open.
    pub open spec fn fork_is_open(self, fork_id: u16) -> bool {
        self.nodes[self.forks[fork_id as u64].0 as u64].is_open(self.forks[fork_id as u64].1)
    }
}

proof fn lemma_same_place_ok(m: VolumeModel, after: VolumeModel, id: u64)
    requires
        m.ok(),
        m.nodes.contains_key(id),
        after.nodes == m.nodes.insert(id, after.nodes[id]),
        after.nodes[id].path == m.nodes[id].path,
        after.nodes[id].id == m.nodes[id].id,
        after.nodes[id].name == m.nodes[id].name,
        after.paths == m.paths,
        after.next_id == m.next_id,
        after.next_fork_ref != 0,
        forall|f: u64| #[trigger] after.forks.contains_key(f) ==> f != 0,
        forall|f: u64| #[trigger] after.locks.contains_key(f) ==> apart(after.locks[f]),
    ensures
        after.ok(),
{
    assert forall|k: u64| #[trigger] after.nodes.contains_key(k) implies node_ok(after.nodes[k], k, after.next_id) by {
        assert(m.nodes.contains_key(k));
        assert(node_ok(m.nodes[k], k, m.next_id));
    }
    assert forall|t: Seq<char>| #[trigger] after.paths.contains_key(t) implies after.leads_home(t) by {
        assert(m.paths.contains_key(t));
        assert(m.leads_home(t));
    }
}

impl Volume {
    fn set_fork(&mut self, id: u32, fork: ForkType, open: bool) -> (known: bool)
        requires
            old(self).tables_wf(),
        ensures
            final(self).tables_wf(),
            known == old(self)@.nodes.contains_key(id as u64),
            final(self)@ == if known {
                VolumeModel {
                    nodes: old(self)@.nodes.insert(id as u64, old(self)@.nodes[id as u64].with_fork(fork, open)),
                    ..old(self)@
                }
            } else {
                old(self)@
            },
            final(self).root == old(self).root,
    {
        let ghost before = *self;
        match self.nodes.find(id as u64) {
            None => false,
            Some(i) => {
                match fork {
                    ForkType::Data => {
                        self.nodes.entries[i].1.data_open = open;
                    },
                    ForkType::Resource => {
                        self.nodes.entries[i].1.rsrc_open = open;
                    },
                }
                proof {
                    let changed = self.nodes.entries@[i as int].1;
                    assert(self.nodes.entries@ =~= before.nodes.entries@.update(i as int, (id as u64, changed)));
                    self.nodes.lemma_replaced(before.nodes, i as int, changed);
                    assert(changed@ =~= before@.nodes[id as u64].with_fork(fork, open));
                    assert(self@ =~= (VolumeModel {
                        nodes: before@.nodes.insert(id as u64, before@.nodes[id as u64].with_fork(fork, open)),
                        ..before@
                    })) by {
                        assert(self@.nodes =~= before@.nodes.insert(
                            id as u64,
                            before@.nodes[id as u64].with_fork(fork, open),
                        ));
                        assert(self@.locks =~= before@.locks);
                    }
                }
                true
            },
        }
    }

    /// The node whose fork is to be opened, once the entries of its directory
    /// have been taken in.
    pub fn plan_open_fork(&self, fork_type: ForkType, dir_id: u32, path_name: &str) -> (r: Result<ParmsTarget, AfpError>)
        requires
            self.wf(),
        ensures
            ({
                let path = join_paths(self@.nodes[dir_id as u64].path, parsed(path_name@));
                if !self@.nodes.contains_key(dir_id as u64) || self@.at(path) is None {
                    r == Err::<ParmsTarget, AfpError>(AfpError::ObjectNotFound)
                } else {
                    let id = self@.at(path)->0;
                    let node = self@.nodes[id as u64];
                    if node.is_open(fork_type) {
                        r == Err::<ParmsTarget, AfpError>(AfpError::FileBusy)
                    } else {
                        r matches Ok(t) && t.id == id && t.is_dir == node.is_dir && t.path@ == node.path
                            && self@.nodes.contains_key(id as u64)
                    }
                }
            }),
    {
        let full = match self.node(dir_id) {
            Some(n) => n.path.join(&FsPath::from_text(path_name)),
            None => {
                return Err(AfpError::ObjectNotFound);
            },
        };
        match self.id_at(&full) {
            None => Err(AfpError::ObjectNotFound),
            Some(id) => {
                proof {
                    assert(self@.paths.contains_key(text_of(full@)));
                    assert(self@.leads_home(text_of(full@)));
                }
                match self.node(id) {
                    None => Err(AfpError::ObjectNotFound),
                    Some(n) => {
                        let busy = match fork_type {
                            ForkType::Data => n.data_open,
                            ForkType::Resource => n.rsrc_open,
                        };
                        if busy {
                            Err(AfpError::FileBusy)
                        } else {
                            Ok(ParmsTarget { id, is_dir: n.is_dir, path: n.path.copy() })
                        }
                    },
                }
            },
        }
    }

    /// Takes in a fork that has been opened, and gives it a reference number.
    pub fn open_fork(&mut self, id: u32, fork_type: ForkType) -> (fork_ref: u16)
        requires
            old(self).wf(),
            old(self)@.nodes.contains_key(id as u64),
        ensures
            final(self).wf(),
            final(self).root == old(self).root,
            fork_ref == old(self).next_fork_ref,
            fork_ref != 0,
            final(self)@ == old(self)@.fork_opened(id, fork_type),
    {
        let ghost start = self@;
        self.set_fork(id, fork_type, true);
        let ghost opened = *self;
        let fork_ref: u16 = self.next_fork_ref;
        self.next_fork_ref = if fork_ref == u16::MAX { 1 } else { fork_ref + 1 };
        self.forks.insert(fork_ref as u64, (id, fork_type));
        proof {
            assert(self@ =~= start.fork_opened(id, fork_type)) by {
                assert(self@.nodes =~= opened@.nodes);
                assert(self@.locks =~= opened@.locks);
            }
            assert forall|f: u64| #[trigger] self@.forks.contains_key(f) implies f != 0 by {
                if f != fork_ref {
                    assert(start.forks.contains_key(f));
                }
            }
            lemma_same_place_ok(start, self@, id as u64);
        }
        fork_ref
    }

    /// Closes a fork: its node and its kind, unless there is none.
    pub fn close_fork(&mut self, fork_id: u16) -> (r: Result<(u32, ForkType), AfpError>)
        requires
            old(self).wf(),
        ensures
            final(self).wf(),
            final(self).root == old(self).root,
            if old(self)@.has_fork(fork_id) {
                r == Ok::<(u32, ForkType), AfpError>(old(self)@.forks[fork_id as u64]) && final(self)@
                    == old(self)@.fork_closed(fork_id)
            } else {
                r == Err::<(u32, ForkType), AfpError>(AfpError::ObjectNotFound) && final(self)@ == old(self)@
            },
    {
        let ghost start = self@;
        let (node_id, fork_type) = match self.forks.get(fork_id as u64) {
            Some(f) => *f,
            None => {
                return Err(AfpError::ObjectNotFound);
            },
        };
        if !self.set_fork(node_id, fork_type, false) {
            return Err(AfpError::ObjectNotFound);
        }
        let ghost closed = *self;
        self.forks.remove(fork_id as u64);
        self.locks.remove(fork_id as u64);
        proof {
            assert(self@ =~= start.fork_closed(fork_id)) by {
                assert(self@.nodes =~= closed@.nodes);
                assert(self@.locks =~= closed@.locks.remove(fork_id as u64));
            }
            lemma_same_place_ok(start, self@, node_id as u64);
        }
        Ok((node_id, fork_type))
    }

    /// The node of a fork whose parameters are asked for.
    pub fn get_fork_parms(&self, fork_id: u16) -> (r: Result<u32, AfpError>)
        requires
            self.wf(),
        ensures
            r == if self@.has_fork(fork_id) {
                Ok(self@.forks[fork_id as u64].0)
            } else {
                Err(AfpError::ObjectNotFound)
            },
    {
        match self.forks.get(fork_id as u64) {
            None => Err(AfpError::ObjectNotFound),
            Some(f) => if self.node(f.0).is_some() {
                Ok(f.0)
            } else {
                Err(AfpError::ObjectNotFound)
            },
        }
    }

    /// The node and the kind of a fork that is read from.
    pub fn plan_read(&self, fork_id: u16) -> (r: Result<(u32, ForkType), AfpError>)
        requires
            self.wf(),
        ensures
            r == if self@.has_fork(fork_id) && self@.fork_is_open(fork_id) {
                Ok(self@.forks[fork_id as u64])
            } else {
                Err(AfpError::ObjectNotFound)
            },
    {
        match self.forks.get(fork_id as u64) {
            None => Err(AfpError::ObjectNotFound),
            Some(f) => match self.node(f.0) {
                None => Err(AfpError::ObjectNotFound),
                Some(n) => {
                    let open = match f.1 {
                        ForkType::Data => n.data_open,
                        ForkType::Resource => n.rsrc_open,
                    };
                    if open {
                        Ok(*f)
                    } else {
                        Err(AfpError::ObjectNotFound)
                    }
                },
            },
        }
    }

    /// The node and the kind of a fork that is written to.
    pub fn plan_write_fork(&self, fork_id: u16) -> (r: Result<(u32, ForkType), AfpError>)
        requires
            self.wf(),
        ensures
            r == if !self@.forks.contains_key(fork_id as u64) {
                Err(AfpError::AccessDenied)
            } else if !self@.has_fork(fork_id) {
                Err(AfpError::ObjectNotFound)
            } else if !self@.fork_is_open(fork_id) {
                Err(AfpError::AccessDenied)
            } else {
                Ok(self@.forks[fork_id as u64])
            },
    {
        match self.forks.get(fork_id as u64) {
            None => Err(AfpError::AccessDenied),
            Some(f) => match self.node(f.0) {
                None => Err(AfpError::ObjectNotFound),
                Some(n) => {
                    let open = match f.1 {
                        ForkType::Data => n.data_open,
                        ForkType::Resource => n.rsrc_open,
                    };
                    if open {
                        Ok(*f)
                    } else {
                        Err(AfpError::AccessDenied)
                    }
                },
            },
        }
    }

    /// The node, the kind and the new length of a fork; no length where the
    /// request sets none. The length of the other fork cannot be set.
    pub fn set_fork_parms(&self, fork_id: u16, data_fork_length: Option<u32>, resource_fork_length: Option<u32>) -> (r: Result<
        Option<(u32, ForkType, u32)>,
        AfpError,
    >)
        requires
            self.wf(),
        ensures
            ({
                let (id, fork) = self@.forks[fork_id as u64];
                let (own, other) = match fork {
                    ForkType::Data => (data_fork_length, resource_fork_length),
                    ForkType::Resource => (resource_fork_length, data_fork_length),
                };
                r == if !self@.has_fork(fork_id) {
                    Err(AfpError::ObjectNotFound)
                } else if other is Some {
                    Err(AfpError::BitmapErr)
                } else {
                    match own {
                        None => Ok(None),
                        Some(len) => if self@.fork_is_open(fork_id) {
                            Ok(Some((id, fork, len)))
                        } else {
                            Err(AfpError::ObjectNotFound)
                        },
                    }
                }
            }),
    {
        let (id, fork) = match self.forks.get(fork_id as u64) {
            Some(f) => *f,
            None => {
                return Err(AfpError::ObjectNotFound);
            },
        };
        let node = match self.node(id) {
            Some(n) => n,
            None => {
                return Err(AfpError::ObjectNotFound);
            },
        };
        let (own, other, open) = match fork {
            ForkType::Data => (data_fork_length, resource_fork_length, node.data_open),
            ForkType::Resource => (resource_fork_length, data_fork_length, node.rsrc_open),
        };
        if other.is_some() {
            return Err(AfpError::BitmapErr);
        }
        match own {
            None => Ok(None),
            Some(len) => if open {
                Ok(Some((id, fork, len)))
            } else {
                Err(AfpError::ObjectNotFound)
            },
        }
    }
}

/// A fork that has been opened and closed again leaves the volume as it was,
/// but for the next reference number and for what that number stood for.
pub proof fn law_close_undoes_open(m: VolumeModel, id: u32, fork: ForkType)
    requires
        m.ok(),
        m.nodes.contains_key(id as u64),
        !m.nodes[id as u64].is_open(fork),
        !m.forks.contains_key(m.next_fork_ref as u64),
        !m.locks.contains_key(m.next_fork_ref as u64),
    ensures
        m.fork_opened(id, fork).fork_closed(m.next_fork_ref) == (VolumeModel {
            next_fork_ref: fork_ref_after(m.next_fork_ref),
            ..m
        }),
{
    let open = m.fork_opened(id, fork);
    let closed = open.fork_closed(m.next_fork_ref);
    assert(closed.nodes =~= m.nodes);
    assert(closed.forks =~= m.forks);
    assert(closed.locks =~= m.locks);
}

/// A fork that is open cannot be opened again until it is closed.
pub proof fn law_open_fork_is_busy(m: VolumeModel, id: u32, fork: ForkType)
    requires
        m.ok(),
        m.nodes.contains_key(id as u64),
    ensures
        m.fork_opened(id, fork).nodes[id as u64].is_open(fork),
        m.fork_opened(id, fork).has_fork(m.next_fork_ref),
        m.fork_opened(id, fork).fork_is_open(m.next_fork_ref),
        !m.fork_opened(id, fork).fork_closed(m.next_fork_ref).nodes[id as u64].is_open(fork),
{
}

/// Whether a byte ends a line, where lines are asked for.
pub open spec fn ends_line(ends: Option<Seq<bool>>, i: int) -> bool {
    match ends {
        Some(m) => m[i],
        None => false,
    }
}

/// How many bytes a read takes from the bytes that are left in a fork: no more
/// than `max`, and where a byte ends a line, none behind the first such byte.
pub open spec fn read_len(ends: Option<Seq<bool>>, available: nat, max: nat, at: nat) -> nat
    decreases available - at,
{
    if at >= available || at >= max {
        at
    } else if ends_line(ends, at as int) {
        at + 1
    } else {
        read_len(ends, available, max, at + 1)
    }
}

/// Whether a read meets the end of the fork: it stops before `max` bytes, and
/// not at the end of a line.
pub open spec fn read_hits_end(ends: Option<Seq<bool>>, available: nat, max: nat) -> bool {
    let n = read_len(ends, available, max, 0);
    n < max && !(n > 0 && ends_line(ends, n - 1))
}

/// Reads from the bytes that are left in a fork. `line_ends` tells of each
/// whether it ends a line, where lines are asked for.
pub fn read(data: &[u8], line_ends: Option<&[bool]>, max: usize) -> (r: (Vec<u8>, bool))
    requires
        line_ends matches Some(m) ==> m@.len() == data@.len(),
    ensures
        ({
            let ends = match line_ends {
                Some(m) => Some(m@),
                None => None,
            };
            &&& r.0@ == data@.take(read_len(ends, data@.len(), max as nat, 0) as int)
            &&& r.1 == read_hits_end(ends, data@.len(), max as nat)
        }),
{
    let ghost ends = match line_ends {
        Some(m) => Some(m@),
        None => None,
    };
    let mut n: usize = 0;
    let mut stopped = false;
    while n < data.len() && n < max && !stopped
        invariant
            n <= data@.len(),
            n <= max,
            line_ends matches Some(m) ==> m@.len() == data@.len() && ends == Some(m@),
            line_ends is None ==> ends is None,
            stopped ==> n > 0 && ends_line(ends, n - 1),
            !stopped ==> forall|k: int| 0 <= k < n ==> !#[trigger] ends_line(ends, k),
            read_len(ends, data@.len(), max as nat, 0) == if stopped {
                n as nat
            } else {
                read_len(ends, data@.len(), max as nat, n as nat)
            },
        decreases data@.len() - n + (if stopped {
            0int
        } else {
            1int
        }),
    {
        if let Some(m) = line_ends {
            if m[n] {
                stopped = true;
            }
        }
        n += 1;
    }
    let eof = n < max && !stopped;
    let bytes = slice_bytes(data, 0, n);
    assert(bytes@ =~= data@.take(n as int));
    (bytes, eof)
}

// ── Locked ranges ────────────────────────────────────────────────────────────

/// A request to lock or unlock a range of a fork.
#[derive(Debug, Clone, Copy, PartialEq, Eq, Structural)]
pub struct LockRequest {
    pub fork_id: u16,
    pub offset: i32,
    pub length: u32,
    /// Whether the offset counts from the end of the fork.
    pub from_end: bool,
    pub unlock: bool,
}

/// Where a range starts. None starts before the fork, or behind the largest
/// number.
pub open spec fn lock_start(offset: i32, from_end: bool, fork_size: u64) -> u64 {
    let at = if from_end {
        fork_size + offset
    } else {
        offset as int
    };
    if at < 0 {
        0
    } else if at > u64::MAX {
        u64::MAX
    } else {
        at as u64
    }
}

/// Whether a range overlaps one that is locked.
pub open spec fn conflicts(ranges: Seq<LockedRange>, r: LockedRange) -> bool {
    exists|i: int| 0 <= i < ranges.len() && overlap(r, #[trigger] ranges[i])
}

/// The locked ranges of a fork.
pub open spec fn locks_of(m: VolumeModel, fork_id: u16) -> Seq<LockedRange> {
    if m.locks.contains_key(fork_id as u64) {
        m.locks[fork_id as u64]
    } else {
        Seq::empty()
    }
}

/// Where a range stands among others, the first time; or their number.
pub open spec fn first_of(ranges: Seq<LockedRange>, r: LockedRange) -> nat
    decreases ranges.len(),
{
    if ranges.len() == 0 || ranges[0] == r {
        0
    } else {
        1 + first_of(ranges.skip(1), r)
    }
}

proof fn lemma_first_of(ranges: Seq<LockedRange>, r: LockedRange, n: int)
    requires
        0 <= n <= ranges.len(),
        forall|i: int| 0 <= i < n ==> #[trigger] ranges[i] != r,
        n < ranges.len() ==> ranges[n] == r,
    ensures
        first_of(ranges, r) == n,
    decreases ranges.len(),
{
    if n > 0 {
        let rest = ranges.skip(1);
        assert forall|i: int| 0 <= i < n - 1 implies #[trigger] rest[i] != r by {
            assert(rest[i] == ranges[i + 1]);
        }
        lemma_first_of(rest, r, n - 1);
    }
}

impl VolumeModel {
    /// The volume with other locked ranges of a fork.
    pub open spec fn with_locks(self, fork_id: u16, ranges: Seq<LockedRange>) -> VolumeModel {
        VolumeModel { locks: self.locks.insert(fork_id as u64, ranges), ..self }
    }
}

impl Volume {
    fn put_locks(&mut self, fork_id: u16, ranges: Vec<LockedRange>)
        requires
            old(self).wf(),
            apart(ranges@),
        ensures
            final(self).wf(),
            final(self).root == old(self).root,
            final(self)@ == old(self)@.with_locks(fork_id, ranges@),
    {
        let ghost before = *self;
        self.locks.insert(fork_id as u64, ranges);
        proof {
            assert(self@ =~= before@.with_locks(fork_id, ranges@)) by {
                assert(self@.nodes =~= before@.nodes);
                assert(self@.locks =~= before@.locks.insert(fork_id as u64, ranges@));
            }
            assert forall|t: Seq<char>| #[trigger] self@.paths.contains_key(t) implies self@.leads_home(t) by {
                assert(before@.leads_home(t));
            }
            assert forall|f: u64| #[trigger] self@.locks.contains_key(f) implies apart(self@.locks[f]) by {
                if f != fork_id as u64 {
                    assert(before@.locks.contains_key(f));
                }
            }
        }
    }

    /// Locks or unlocks a range of a fork of `fork_size` bytes. A range can be
    /// locked that overlaps no locked one, and its start comes back; a range
    /// can be unlocked that is locked just so, and zero comes back.
    pub fn byte_range_lock(&mut self, req: LockRequest, fork_size: u64) -> (r: Result<u32, AfpError>)
        requires
            old(self).wf(),
            req.from_end ==> req.offset != i32::MIN,
        ensures
            final(self).wf(),
            final(self).root == old(self).root,
            ({
                let start = lock_start(req.offset, req.from_end, fork_size);
                let range = (start, req.length as u64);
                let ranges = locks_of(old(self)@, req.fork_id);
                if !old(self)@.has_fork(req.fork_id) {
                    r == Err::<u32, AfpError>(AfpError::ObjectNotFound) && final(self)@ == old(self)@
                } else if !req.unlock {
                    if conflicts(ranges, range) {
                        r == Err::<u32, AfpError>(AfpError::RangeOverlap) && final(self)@ == old(self)@
                    } else {
                        r == Ok::<u32, AfpError>((start % 0x1_0000_0000) as u32) && final(self)@
                            == old(self)@.with_locks(req.fork_id, ranges.push(range))
                    }
                } else if first_of(ranges, range) < ranges.len() {
                    r == Ok::<u32, AfpError>(0) && final(self)@ == old(self)@.with_locks(
                        req.fork_id,
                        ranges.remove(first_of(ranges, range) as int),
                    )
                } else {
                    r == Err::<u32, AfpError>(AfpError::RangeNotLocked) && final(self)@ == old(self)@
                }
            }),
    {
        let ghost start_model = self@;
        if self.get_fork_parms(req.fork_id).is_err() {
            return Err(AfpError::ObjectNotFound);
        }
        let start: u64 = if req.from_end {
            if req.offset < 0 {
                let back: u64 = (-req.offset) as u64;
                fork_size.saturating_sub(back)
            } else {
                fork_size.saturating_add(req.offset as u64)
            }
        } else if req.offset < 0 {
            0
        } else {
            req.offset as u64
        };
        assert(start == lock_start(req.offset, req.from_end, fork_size));
        let range: LockedRange = (start, req.length as u64);
        let end: u64 = start.saturating_add(range.1);
        let mut ranges: Vec<LockedRange> = Vec::new();
        if let Some(known) = self.locks.get(req.fork_id as u64) {
            proof {
                assert(self@.locks.contains_key(req.fork_id as u64));
            }
            let mut i: usize = 0;
            while i < known.len()
                invariant
                    i <= known@.len(),
                    ranges@ == known@.take(i as int),
                decreases known@.len() - i,
            {
                ranges.push(known[i]);
                assert(ranges@ =~= known@.take(i + 1));
                i += 1;
            }
            assert(known@.take(i as int) =~= known@);
        }
        assert(ranges@ =~= locks_of(self@, req.fork_id));
        assert(apart(ranges@));
        if !req.unlock {
            let mut i: usize = 0;
            while i < ranges.len()
                invariant
                    i <= ranges@.len(),
                    end == range_end(range),
                    start == range.0,
                    self@ == start_model,
                    self.wf(),
                    ranges@ == locks_of(self@, req.fork_id),
                    self@.has_fork(req.fork_id),
                    start == lock_start(req.offset, req.from_end, fork_size),
                    range == (start, req.length as u64),
                    !req.unlock,
                    start_model == old(self)@,
                    self.root == old(self).root,
                    forall|k: int| 0 <= k < i ==> !overlap(range, #[trigger] ranges@[k]),
                decreases ranges@.len() - i,
            {
                let (at, len) = ranges[i];
                let there: u64 = at.saturating_add(len);
                if start < there && end > at {
                    assert(overlap(range, ranges@[i as int]));
                    return Err(AfpError::RangeOverlap);
                }
                i += 1;
            }
            let ghost before = ranges@;
            ranges.push(range);
            assert(apart(ranges@)) by {
                assert forall|a: int, b: int| 0 <= a < b < ranges@.len() implies !overlap(
                    #[trigger] ranges@[a],
                    #[trigger] ranges@[b],
                ) by {
                    if b == before.len() {
                        assert(!overlap(range, before[a]));
                    } else {
                        assert(!overlap(before[a], before[b]));
                    }
                }
            }
            self.put_locks(req.fork_id, ranges);
            Ok((start % 0x1_0000_0000) as u32)
        } else {
            let mut i: usize = 0;
            while i < ranges.len() && !(ranges[i].0 == range.0 && ranges[i].1 == range.1)
                invariant
                    i <= ranges@.len(),
                    forall|k: int| 0 <= k < i ==> #[trigger] ranges@[k] != range,
                decreases ranges@.len() - i,
            {
                i += 1;
            }
            proof {
                lemma_first_of(ranges@, range, i as int);
            }
            if i < ranges.len() {
                let ghost before = ranges@;
                ranges.remove(i);
                assert(apart(ranges@)) by {
                    assert forall|a: int, b: int| 0 <= a < b < ranges@.len() implies !overlap(
                        #[trigger] ranges@[a],
                        #[trigger] ranges@[b],
                    ) by {
                        let x = if a < i {
                            a
                        } else {
                            a + 1
                        };
                        let y = if b < i {
                            b
                        } else {
                            b + 1
                        };
                        assert(!overlap(before[x], before[y]));
                    }
                }
                self.put_locks(req.fork_id, ranges);
                Ok(0)
            } else {
                Err(AfpError::RangeNotLocked)
            }
        }
    }
}

/// A range that could be locked and is unlocked again leaves the locked ranges
/// as they were.
pub proof fn law_unlock_undoes_lock(ranges: Seq<LockedRange>, r: LockedRange)
    requires
        !conflicts(ranges, r),
        r.1 > 0,
        r.0 < u64::MAX,
    ensures
        ranges.push(r).remove(first_of(ranges.push(r), r) as int) == ranges,
{
    let locked = ranges.push(r);
    assert forall|i: int| 0 <= i < ranges.len() implies #[trigger] locked[i] != r by {
        if locked[i] == r {
            assert(overlap(r, ranges[i]));
        }
    }
    lemma_first_of(locked, r, ranges.len() as int);
    assert(locked.remove(ranges.len() as int) =~= ranges);
}

/// Two ranges that are locked at the same time have no byte in common.
pub proof fn law_locked_ranges_are_apart(m: VolumeModel, fork_id: u64, i: int, j: int, byte: int)
    requires
        m.ok(),
        m.locks.contains_key(fork_id),
        0 <= i < j < m.locks[fork_id].len(),
    ensures
        !(m.locks[fork_id][i].0 <= byte < range_end(m.locks[fork_id][i]) && m.locks[fork_id][j].0 <= byte < range_end(
            m.locks[fork_id][j],
        )),
{
    assert(!overlap(m.locks[fork_id][i], m.locks[fork_id][j]));
}

// ── Moving, deleting, copying ────────────────────────────────────────────────

/// What moves a file or directory.
#[derive(Debug)]
pub struct MovePlan {
    pub src_id: u32,
    pub dst_id: u32,
    pub old_path: FsPath,
    pub new_path: FsPath,
    /// The name that clients see from now on.
    pub name: String,
    pub is_dir: bool,
}

/// The name after a move or copy: the new one, or the one that it has.
pub open spec fn name_after(new_name: Seq<char>, name: Seq<char>) -> Seq<char> {
    if new_name.len() == 0 {
        name
    } else {
        new_name
    }
}

/// The path of a name that clients use, in a directory.
pub open spec fn path_in(dir: PathView, name: Seq<char>) -> PathView {
    join_paths(dir, parsed(swapped(name, '/', ':')))
}

impl MovePlan {
    /// Whether this is what moves a node into a directory under a name.
    pub open spec fn moves(self, m: VolumeModel, src: u32, dst: u32, new_name: Seq<char>) -> bool {
        let node = m.nodes[src as u64];
        &&& m.nodes.contains_key(src as u64)
        &&& self.src_id == src
        &&& self.dst_id == dst
        &&& self.is_dir == node.is_dir
        &&& self.old_path@ == node.path
        &&& self.name@ == name_after(new_name, node.name)
        &&& self.new_path@ == path_in(m.nodes[dst as u64].path, self.name@)
        &&& self.name@.len() <= MAX_NAME_CHARS
        &&& path_ok(self.new_path@)
    }

    /// Whether this is what renames a node where it is.
    pub open spec fn renames(self, m: VolumeModel, src: u32, new_name: Seq<char>) -> bool {
        let node = m.nodes[src as u64];
        &&& m.nodes.contains_key(src as u64)
        &&& self.src_id == src
        &&& self.dst_id == m.home_of(src)
        &&& self.is_dir == node.is_dir
        &&& self.old_path@ == node.path
        &&& self.name@ == name_after(new_name, node.name)
        &&& self.new_path@ == path_in(parent_of(node.path), self.name@)
        &&& self.name@.len() <= MAX_NAME_CHARS
        &&& path_ok(self.new_path@)
    }
}

/// Why a new name is refused, if it is.
pub open spec fn rename_refused(m: VolumeModel, dir_id: u32, src_path: Seq<char>, new_name: Seq<char>) -> Option<AfpError> {
    match m.resolve(dir_id, src_path) {
        None => Some(AfpError::ObjectNotFound),
        Some(src) => if src <= ROOT {
            Some(AfpError::AccessDenied)
        } else if !m.nodes.contains_key(src as u64) {
            Some(AfpError::ObjectNotFound)
        } else {
            let node = m.nodes[src as u64];
            let new_path = path_in(parent_of(node.path), name_after(new_name, node.name));
            if new_path != node.path && m.at(new_path) is Some {
                Some(AfpError::ObjectExists)
            } else {
                None
            }
        },
    }
}

/// Why a move is refused, if it is.
pub open spec fn move_refused(
    m: VolumeModel,
    src_dir_id: u32,
    dst_dir_id: u32,
    src_path: Seq<char>,
    dst_path: Seq<char>,
    new_name: Seq<char>,
) -> Option<AfpError> {
    match m.resolve(src_dir_id, src_path) {
        None => Some(AfpError::ObjectNotFound),
        Some(src) => if src <= ROOT {
            Some(AfpError::AccessDenied)
        } else {
            match m.resolve(dst_dir_id, dst_path) {
                None => Some(AfpError::ObjectNotFound),
                Some(dst) => if !m.nodes.contains_key(src as u64) || !m.nodes.contains_key(dst as u64) {
                    Some(AfpError::ObjectNotFound)
                } else if !m.nodes[dst as u64].is_dir {
                    Some(AfpError::ObjectTypeErr)
                } else {
                    let old_path = m.nodes[src as u64].path;
                    let new_path = path_in(
                        m.nodes[dst as u64].path,
                        name_after(new_name, m.nodes[src as u64].name),
                    );
                    if new_path != old_path && m.at(new_path) is Some {
                        Some(AfpError::ObjectExists)
                    } else {
                        None
                    }
                },
            }
        },
    }
}

/// What a move changes in the volume, with what is below a moved directory
/// still to follow.
pub open spec fn moved_itself(m: VolumeModel, src: u32, dst: u32, new_path: PathView, name: Seq<char>) -> VolumeModel {
    let node = m.nodes[src as u64];
    VolumeModel {
        paths: m.paths.remove(text_of(node.path)).insert(text_of(new_path), src),
        nodes: m.nodes.insert(src as u64, NodeView { parent_id: dst, name, path: new_path, ..node }),
        ..m
    }
}

/// Whether a node follows a moved directory.
pub open spec fn follows(m: VolumeModel, id: u64, src: u32, old_path: PathView) -> bool {
    id != src as u64 && m.nodes.contains_key(id) && is_below(m.nodes[id].path, old_path)
}

/// The volume after one node has followed.
pub open spec fn followed_one(m: VolumeModel, id: u64, old_path: PathView, new_path: PathView) -> VolumeModel {
    let node = m.nodes[id];
    let path = rebased(node.path, old_path, new_path);
    VolumeModel {
        paths: m.paths.remove(text_of(node.path)).insert(text_of(path), id as u32),
        nodes: m.nodes.insert(id, NodeView { path, ..node }),
        ..m
    }
}

/// The volume after those among the first `n` nodes have followed that are
/// below the moved directory.
pub open spec fn followed(
    m: VolumeModel,
    ids: Seq<u64>,
    src: u32,
    old_path: PathView,
    new_path: PathView,
    n: nat,
) -> VolumeModel
    decreases n,
{
    if n == 0 {
        m
    } else {
        let before = followed(m, ids, src, old_path, new_path, (n - 1) as nat);
        if follows(before, ids[n - 1], src, old_path) {
            followed_one(before, ids[n - 1], old_path, new_path)
        } else {
            before
        }
    }
}

/// The old and new paths of those among the first `n` nodes that follow.
pub open spec fn follow_list(
    m: VolumeModel,
    ids: Seq<u64>,
    src: u32,
    old_path: PathView,
    new_path: PathView,
    n: nat,
) -> Seq<(PathView, PathView)>
    decreases n,
{
    if n == 0 {
        Seq::empty()
    } else {
        let earlier = follow_list(m, ids, src, old_path, new_path, (n - 1) as nat);
        let before = followed(m, ids, src, old_path, new_path, (n - 1) as nat);
        if follows(before, ids[n - 1], src, old_path) {
            let p = before.nodes[ids[n - 1]].path;
            earlier.push((p, rebased(p, old_path, new_path)))
        } else {
            earlier
        }
    }
}

/// The numbers of nodes in the order of the table.
pub open spec fn ids_of(entries: Seq<(u64, Node)>) -> Seq<u64> {
    Seq::new(entries.len(), |i: int| entries[i].0)
}

/// The paths of pairs.
pub open spec fn pairs_of(pairs: Seq<(FsPath, FsPath)>) -> Seq<(PathView, PathView)> {
    Seq::new(pairs.len(), |i: int| (pairs[i].0@, pairs[i].1@))
}

proof fn lemma_path_change_ok(m: VolumeModel, after: VolumeModel, id: u64)
    requires
        m.ok(),
        id <= u32::MAX,
        m.nodes.contains_key(id),
        after.nodes == m.nodes.insert(id, after.nodes[id]),
        after.nodes[id].id == m.nodes[id].id,
        after.nodes[id].name.len() <= MAX_NAME_CHARS,
        path_ok(after.nodes[id].path),
        after.paths == m.paths.remove(text_of(m.nodes[id].path)).insert(text_of(after.nodes[id].path), id as u32),
        after.next_id == m.next_id,
        after.next_fork_ref == m.next_fork_ref,
        after.forks == m.forks,
        after.locks == m.locks,
    ensures
        after.ok(),
{
    assert forall|k: u64| #[trigger] after.nodes.contains_key(k) implies node_ok(after.nodes[k], k, after.next_id) by {
        assert(m.nodes.contains_key(k));
        assert(node_ok(m.nodes[k], k, m.next_id));
    }
    assert forall|t: Seq<char>| #[trigger] after.paths.contains_key(t) implies after.leads_home(t) by {
        if t != text_of(after.nodes[id].path) {
            assert(m.paths.contains_key(t));
            assert(m.leads_home(t));
            assert(m.paths[t] as u64 != id);
        }
    }
}

proof fn lemma_rebased_short(p: PathView, old_path: PathView, new_path: PathView)
    requires
        path_ok(p),
        path_ok(new_path),
        old_path.parts.len() <= p.parts.len(),
    ensures
        path_ok(rebased(p, old_path, new_path)),
{
    let rest = PathView { absolute: false, parts: p.parts.skip(old_path.parts.len() as int) };
    let q = rebased(p, old_path, new_path);
    assert(forall|i: int| 0 <= i < rest.parts.len() ==> #[trigger] rest.parts[i] == p.parts[i + old_path.parts.len()]);
    assert forall|i: int| 0 <= i < q.parts.len() implies (#[trigger] q.parts[i]).len() <= MAX_NAME_CHARS && q.parts[i].len()
        > 0 && !q.parts[i].contains('/') && (q.parts[i] == seq!['.'] ==> i == 0 && !q.absolute) by {
        if new_path == no_path() {
            assert(q.parts[i] == rest.parts[i]);
        } else if i < new_path.parts.len() {
            assert(q.parts[i] == new_path.parts[i]);
        } else if rest.parts.len() > 0 && rest.parts[0] == seq!['.'] {
            assert(q.parts[i] == rest.parts[i - new_path.parts.len() + 1]);
        } else {
            assert(q.parts[i] == rest.parts[i - new_path.parts.len()]);
            if i == new_path.parts.len() {
                assert(q.parts[i] == rest.parts[0]);
            }
        }
    }
}

impl Volume {
    fn nodes_of_move(&self, src: u32, dst: u32) -> (r: Option<(&Node, &Node)>)
        requires
            self.tables_wf(),
        ensures
            match r {
                Some((a, b)) => self@.nodes.contains_key(src as u64) && self@.nodes.contains_key(dst as u64) && a@
                    == self@.nodes[src as u64] && b@ == self@.nodes[dst as u64],
                None => !self@.nodes.contains_key(src as u64) || !self@.nodes.contains_key(dst as u64),
            },
    {
        match (self.node(src), self.node(dst)) {
            (Some(a), Some(b)) => Some((a, b)),
            _ => None,
        }
    }

    /// What moves a file or directory into another directory, renames it, or
    /// both. An empty new name keeps the name.
    pub fn plan_move(&self, src_dir_id: u32, dst_dir_id: u32, src_path: &str, dst_path: &str, new_name: &str) -> (r: Result<
        MovePlan,
        AfpError,
    >)
        requires
            self.wf(),
            new_name@.len() <= MAX_NAME_CHARS,
        ensures
            match move_refused(self@, src_dir_id, dst_dir_id, src_path@, dst_path@, new_name@) {
                Some(e) => r == Err::<MovePlan, AfpError>(e),
                None => r matches Ok(p) && p.moves(
                    self@,
                    self@.resolve(src_dir_id, src_path@)->0,
                    self@.resolve(dst_dir_id, dst_path@)->0,
                    new_name@,
                ),
            },
    {
        let src_id: u32 = match self.resolve_node(src_dir_id, src_path) {
            Ok(id) => id,
            Err(e) => {
                return Err(e);
            },
        };
        if src_id <= ROOT {
            return Err(AfpError::AccessDenied);
        }
        let dst_id: u32 = match self.resolve_node(dst_dir_id, dst_path) {
            Ok(id) => id,
            Err(e) => {
                return Err(e);
            },
        };
        let (src, dst) = match self.nodes_of_move(src_id, dst_id) {
            Some(pair) => pair,
            None => {
                return Err(AfpError::ObjectNotFound);
            },
        };
        if !dst.is_dir {
            return Err(AfpError::ObjectTypeErr);
        }
        let name = if new_name.unicode_len() == 0 { src.name.clone() } else { new_name.to_owned() };
        let posix = afp_name_to_posix(name.as_str());
        let new_path = dst.path.join(&FsPath::from_text(posix.as_str()));
        proof {
            assert(node_ok(self@.nodes[src_id as u64], src_id as u64, self.next_id));
            assert(node_ok(self@.nodes[dst_id as u64], dst_id as u64, self.next_id));
            lemma_joined_short(dst.path@, posix@);
        }
        if !new_path.same(&src.path) && self.id_at(&new_path).is_some() {
            return Err(AfpError::ObjectExists);
        }
        Ok(MovePlan { src_id, dst_id, old_path: src.path.copy(), new_path, name, is_dir: src.is_dir })
    }

    /// What renames a file or directory within the directory that it is in. An
    /// empty new name keeps the name.
    pub fn rename(&self, dir_id: u32, src_path: &str, new_name: &str) -> (r: Result<MovePlan, AfpError>)
        requires
            self.wf(),
            new_name@.len() <= MAX_NAME_CHARS,
        ensures
            match rename_refused(self@, dir_id, src_path@, new_name@) {
                Some(e) => r == Err::<MovePlan, AfpError>(e),
                None => r matches Ok(p) && p.renames(self@, self@.resolve(dir_id, src_path@)->0, new_name@),
            },
    {
        let src_id: u32 = match self.resolve_node(dir_id, src_path) {
            Ok(id) => id,
            Err(e) => {
                return Err(e);
            },
        };
        if src_id <= ROOT {
            return Err(AfpError::AccessDenied);
        }
        let src = match self.node(src_id) {
            Some(node) => node,
            None => {
                return Err(AfpError::ObjectNotFound);
            },
        };
        let parent = src.path.parent();
        let dst_id: u32 = match self.id_at(&parent) {
            Some(id) => id,
            None => src.parent_id,
        };
        let name = if new_name.unicode_len() == 0 { src.name.clone() } else { new_name.to_owned() };
        let posix = afp_name_to_posix(name.as_str());
        let new_path = parent.join(&FsPath::from_text(posix.as_str()));
        proof {
            assert(node_ok(self@.nodes[src_id as u64], src_id as u64, self.next_id));
            let path = src.path@;
            assert(forall|i: int| 0 <= i < parent@.parts.len() ==> #[trigger] parent@.parts[i] == path.parts[i]);
            lemma_joined_short(parent@, posix@);
        }
        if !new_path.same(&src.path) && self.id_at(&new_path).is_some() {
            return Err(AfpError::ObjectExists);
        }
        Ok(MovePlan { src_id, dst_id, old_path: src.path.copy(), new_path, name, is_dir: src.is_dir })
    }

    fn move_node(&mut self, id: u32, i: usize, node: NodeChange)
        requires
            old(self).wf(),
            old(self).nodes.key_is(i as int, id as u64),
            path_ok(node.path@),
            node.name matches Some(n) ==> n@.len() <= MAX_NAME_CHARS,
        ensures
            final(self).wf(),
            final(self).root == old(self).root,
            ids_of(final(self).nodes.entries@) == ids_of(old(self).nodes.entries@),
            ({
                let was = old(self)@.nodes[id as u64];
                let is = NodeView {
                    path: node.path@,
                    name: match node.name {
                        Some(n) => n@,
                        None => was.name,
                    },
                    parent_id: match node.parent_id {
                        Some(p) => p,
                        None => was.parent_id,
                    },
                    ..was
                };
                final(self)@ == (VolumeModel {
                    paths: old(self)@.paths.remove(text_of(was.path)).insert(text_of(node.path@), id),
                    nodes: old(self)@.nodes.insert(id as u64, is),
                    ..old(self)@
                })
            }),
    {
        let ghost start = *self;
        proof {
            start.nodes.lemma_entry(i as int);
        }
        let NodeChange { path, name, parent_id } = node;
        let old_text = self.nodes.entries[i].1.path.text();
        let new_text = path.text();
        let ghost new_view = path@;
        self.drop_path(old_text.as_str());
        self.put_path(new_text, id);
        let ghost mid = *self;
        self.nodes.entries[i].1.path = path;
        if let Some(p) = parent_id {
            self.nodes.entries[i].1.parent_id = p;
        }
        if let Some(n) = name {
            self.nodes.entries[i].1.name = n;
        }
        proof {
            let changed = self.nodes.entries@[i as int].1;
            assert(self.nodes.entries@ =~= start.nodes.entries@.update(i as int, (id as u64, changed)));
            self.nodes.lemma_replaced(start.nodes, i as int, changed);
            assert(ids_of(self.nodes.entries@) =~= ids_of(start.nodes.entries@));
            let was = start@.nodes[id as u64];
            assert(self@ =~= (VolumeModel {
                paths: start@.paths.remove(text_of(was.path)).insert(text_of(new_view), id),
                nodes: start@.nodes.insert(id as u64, changed@),
                ..start@
            })) by {
                assert(self@.nodes =~= start@.nodes.insert(id as u64, changed@));
                assert(self@.locks =~= start@.locks);
            }
            assert(start@.nodes.contains_key(id as u64));
            assert(node_ok(was, id as u64, start@.next_id));
            lemma_path_change_ok(start@, self@, id as u64);
        }
    }

    /// Takes in a move that has been done. What is below a moved directory
    /// follows. Returns the old and new paths of everything that has moved, the
    /// file or directory itself last; their comments move along.
    pub fn move_and_rename(&mut self, plan: MovePlan) -> (moved: Vec<(FsPath, FsPath)>)
        requires
            old(self).wf(),
            old(self)@.nodes.contains_key(plan.src_id as u64),
            plan.is_dir == old(self)@.nodes[plan.src_id as u64].is_dir,
            plan.old_path@ == old(self)@.nodes[plan.src_id as u64].path,
            plan.name@.len() <= MAX_NAME_CHARS,
            path_ok(plan.new_path@),
        ensures
            final(self).wf(),
            final(self).root == old(self).root,
            ({
                let itself = moved_itself(old(self)@, plan.src_id, plan.dst_id, plan.new_path@, plan.name@);
                let ids = ids_of(old(self).nodes.entries@);
                let old_path = old(self)@.nodes[plan.src_id as u64].path;
                if plan.is_dir {
                    &&& final(self)@ == followed(itself, ids, plan.src_id, old_path, plan.new_path@, ids.len())
                    &&& pairs_of(moved@) == follow_list(
                        itself,
                        ids,
                        plan.src_id,
                        old_path,
                        plan.new_path@,
                        ids.len(),
                    ).push((old_path, plan.new_path@))
                } else {
                    final(self)@ == itself && pairs_of(moved@) == seq![(old_path, plan.new_path@)]
                }
            }),
            final(self)@.nodes.contains_key(plan.src_id as u64),
            final(self)@.nodes[plan.src_id as u64].parent_id == plan.dst_id,
            final(self)@.nodes[plan.src_id as u64].name == plan.name@,
            final(self)@.nodes[plan.src_id as u64].path == plan.new_path@,
    {
        proof {
            let old_path = self@.nodes[plan.src_id as u64].path;
            let all = ids_of(self.nodes.entries@);
            law_moved_node_tells_its_home(self@, all, plan.src_id, plan.dst_id, plan.new_path@, plan.name@, all.len());
            law_moved_node_tells_its_home(self@, all, plan.src_id, plan.dst_id, plan.new_path@, plan.name@, 0);
        }
        let ghost start = self@;
        let ghost ids = ids_of(self.nodes.entries@);
        let MovePlan { src_id, dst_id, old_path, new_path, name, is_dir } = plan;
        let ghost itself = moved_itself(start, src_id, dst_id, new_path@, name@);
        if let Some(i) = self.nodes.find(src_id as u64) {
            self.move_node(
                src_id,
                i,
                NodeChange { path: new_path.copy(), name: Some(name), parent_id: Some(dst_id) },
            );
        }
        assert(self@ == itself);
        let mut moved: Vec<(FsPath, FsPath)> = Vec::new();
        assert(pairs_of(moved@) =~= Seq::<(PathView, PathView)>::empty());
        if is_dir {
            let mut i: usize = 0;
            while i < self.nodes.entries.len()
                invariant
                    i <= self.nodes.entries@.len(),
                    self.wf(),
                    self.root == old(self).root,
                    ids_of(self.nodes.entries@) == ids,
                    path_ok(new_path@),
                    self@ == followed(itself, ids, src_id, old_path@, new_path@, i as nat),
                    pairs_of(moved@) == follow_list(itself, ids, src_id, old_path@, new_path@, i as nat),
                decreases self.nodes.entries@.len() - i,
            {
                let ghost before = self@;
                proof {
                    assert(ids.len() == self.nodes.entries@.len());
                    assert(ids[i as int] == self.nodes.entries@[i as int].0);
                    self.nodes.lemma_entry(i as int);
                    assert(self@.nodes.contains_key(ids[i as int]));
                    assert(node_ok(self@.nodes[ids[i as int]], ids[i as int], self.next_id));
                }
                let id: u32 = self.nodes.entries[i].1.id;
                let below = id != src_id && self.nodes.entries[i].1.path.starts_with(&old_path);
                assert(below == follows(before, ids[i as int], src_id, old_path@));
                if below {
                    let from = self.nodes.entries[i].1.path.copy();
                    let to = from.rebase(&old_path, &new_path);
                    proof {
                        lemma_rebased_short(from@, old_path@, new_path@);
                    }
                    self.move_node(id, i, NodeChange { path: to.copy(), name: None, parent_id: None });
                    let ghost earlier = moved@;
                    moved.push((from, to));
                    proof {
                        assert(self@ =~= followed_one(before, ids[i as int], old_path@, new_path@));
                        assert(pairs_of(moved@) =~= pairs_of(earlier).push((from@, to@)));
                    }
                }
                i += 1;
            }
        }
        let ghost earlier = moved@;
        moved.push((old_path, new_path));
        assert(pairs_of(moved@) =~= pairs_of(earlier).push((old_path@, new_path@)));
        moved
    }
}

/// What changes in a node that moves.
#[derive(Debug)]
pub struct NodeChange {
    pub path: FsPath,
    pub name: Option<String>,
    pub parent_id: Option<u32>,
}

proof fn lemma_followed(
    m: VolumeModel,
    ids: Seq<u64>,
    src: u32,
    old_path: PathView,
    new_path: PathView,
    n: nat,
    id: u64,
)
    requires
        n <= ids.len(),
        m.nodes.contains_key(id),
        forall|i: int, j: int| 0 <= i < j < ids.len() ==> #[trigger] ids[i] != #[trigger] ids[j],
    ensures
        ({
            let after = followed(m, ids, src, old_path, new_path, n);
            let was = m.nodes[id];
            &&& after.nodes.contains_key(id)
            &&& after.nodes[id] == if ids.take(n as int).contains(id) && follows(m, id, src, old_path) {
                NodeView { path: rebased(was.path, old_path, new_path), ..was }
            } else {
                was
            }
        }),
    decreases n,
{
    if n > 0 {
        let m1 = (n - 1) as nat;
        lemma_followed(m, ids, src, old_path, new_path, m1, id);
        let before = followed(m, ids, src, old_path, new_path, m1);
        let last = ids[n - 1];
        let head = ids.take(n as int);
        assert(head[n - 1] == last);
        assert(head =~= ids.take(m1 as int).push(last));
        if last == id {
            assert(head.contains(id));
            assert(!ids.take(m1 as int).contains(id)) by {
                if ids.take(m1 as int).contains(id) {
                    let k = choose|k: int| 0 <= k < m1 && ids.take(m1 as int)[k] == id;
                    assert(ids[k] == ids[n - 1]);
                }
            }
            assert(before.nodes[id] == m.nodes[id]);
        } else {
            assert(head.contains(id) == ids.take(m1 as int).contains(id)) by {
                if head.contains(id) {
                    let k = choose|k: int| 0 <= k < n && head[k] == id;
                    assert(ids.take(m1 as int)[k] == id);
                }
                if ids.take(m1 as int).contains(id) {
                    let k = choose|k: int| 0 <= k < m1 && ids.take(m1 as int)[k] == id;
                    assert(head[k] == id);
                }
            }
        }
    }
}

/// Everything below a moved directory moves along: what was at a place below
/// the old path is at the same place below the new one, and no other node moves.
pub proof fn law_subtree_follows_move(
    m: VolumeModel,
    ids: Seq<u64>,
    src: u32,
    dst: u32,
    new_path: PathView,
    name: Seq<char>,
    id: u64,
)
    requires
        m.nodes.contains_key(src as u64),
        m.nodes.contains_key(id),
        id != src as u64,
        ids.contains(id),
        forall|i: int, j: int| 0 <= i < j < ids.len() ==> #[trigger] ids[i] != #[trigger] ids[j],
    ensures
        ({
            let old_path = m.nodes[src as u64].path;
            let after = followed(moved_itself(m, src, dst, new_path, name), ids, src, old_path, new_path, ids.len());
            &&& after.nodes.contains_key(id)
            &&& after.nodes[id].path == if is_below(m.nodes[id].path, old_path) {
                rebased(m.nodes[id].path, old_path, new_path)
            } else {
                m.nodes[id].path
            }
            &&& after.nodes[id].name == m.nodes[id].name
            &&& after.nodes[id].parent_id == m.nodes[id].parent_id
        }),
{
    let old_path = m.nodes[src as u64].path;
    let itself = moved_itself(m, src, dst, new_path, name);
    assert(ids.take(ids.len() as int) =~= ids);
    lemma_followed(itself, ids, src, old_path, new_path, ids.len(), id);
}

proof fn lemma_followed_is_found(
    m: VolumeModel,
    ids: Seq<u64>,
    src: u32,
    dst: u32,
    new_path: PathView,
    name: Seq<char>,
    n: nat,
    id: u64,
)
    requires
        m.ok(),
        n <= ids.len(),
        move_is_clean(m, src, new_path, id),
        forall|i: int, j: int| 0 <= i < j < ids.len() ==> #[trigger] ids[i] != #[trigger] ids[j],
        id == src as u64 || ids.take(n as int).contains(id),
    ensures
        ({
            let old_path = m.nodes[src as u64].path;
            let itself = moved_itself(m, src, dst, new_path, name);
            followed(itself, ids, src, old_path, new_path, n).at(rebased(m.nodes[id].path, old_path, new_path)) == Some(
                id as u32,
            )
        }),
    decreases n,
{
    let old_path = m.nodes[src as u64].path;
    let itself = moved_itself(m, src, dst, new_path, name);
    let path = m.nodes[id].path;
    let target = rebased(path, old_path, new_path);
    assert(node_ok(m.nodes[id], id, m.next_id));
    assert(node_ok(m.nodes[src as u64], src as u64, m.next_id));
    lemma_rebased(path, path, old_path, new_path);
    lemma_rebased_short(path, old_path, new_path);
    if n > 0 {
        let k = (n - 1) as nat;
        let before = followed(itself, ids, src, old_path, new_path, k);
        let last = ids[k as int];
        assert(ids.take(n as int) =~= ids.take(k as int).push(last));
        if last == id {
            lemma_followed(itself, ids, src, old_path, new_path, k, id);
            assert(!ids.take(k as int).contains(id)) by {
                if ids.take(k as int).contains(id) {
                    let j = choose|j: int| 0 <= j < k && ids.take(k as int)[j] == id;
                    assert(ids[j] == ids[k as int]);
                }
            }
            if id == src as u64 {
                lemma_followed_is_found(m, ids, src, dst, new_path, name, k, id);
            }
        } else {
            if id != src as u64 {
                let j = choose|j: int| 0 <= j < n && ids.take(n as int)[j] == id;
                assert(ids.take(k as int)[j] == id);
            }
            lemma_followed_is_found(m, ids, src, dst, new_path, name, k, id);
            if follows(before, last, src, old_path) {
                lemma_followed_backwards(itself, ids, src, old_path, new_path, k, last);
                lemma_followed(itself, ids, src, old_path, new_path, k, last);
                assert(!ids.take(k as int).contains(last)) by {
                    if ids.take(k as int).contains(last) {
                        let j = choose|j: int| 0 <= j < k && ids.take(k as int)[j] == last;
                        assert(ids[j] == ids[k as int]);
                    }
                }
                let other = m.nodes[last].path;
                assert(before.nodes[last].path == other);
                assert(node_ok(m.nodes[last], last, m.next_id));
                assert(is_below(other, old_path) && other != path);
                lemma_rebased(other, path, old_path, new_path);
                lemma_rebased_short(other, old_path, new_path);
                if text_of(other) == text_of(target) {
                    lemma_same_text(other, target);
                    lemma_nested(other, old_path, new_path);
                }
                if text_of(rebased(other, old_path, new_path)) == text_of(target) {
                    lemma_same_text(rebased(other, old_path, new_path), target);
                }
            }
        }
    }
}

/// A path that is below two others shows that one of them is below the other.
proof fn lemma_nested(p: PathView, a: PathView, b: PathView)
    requires
        is_below(p, a),
        is_below(p, b),
    ensures
        is_below(a, b) || is_below(b, a),
{
    if a.parts.len() <= b.parts.len() {
        assert(a.parts =~= b.parts.subrange(0, a.parts.len() as int)) by {
            assert forall|i: int| 0 <= i < a.parts.len() implies a.parts[i] == b.parts[i] by {
                assert(a.parts[i] == p.parts[i] && b.parts[i] == p.parts[i]);
            }
        }
    } else {
        assert(b.parts =~= a.parts.subrange(0, b.parts.len() as int)) by {
            assert forall|i: int| 0 <= i < b.parts.len() implies a.parts[i] == b.parts[i] by {
                assert(a.parts[i] == p.parts[i] && b.parts[i] == p.parts[i]);
            }
        }
    }
}

proof fn lemma_followed_backwards(
    m: VolumeModel,
    ids: Seq<u64>,
    src: u32,
    old_path: PathView,
    new_path: PathView,
    n: nat,
    id: u64,
)
    ensures
        followed(m, ids, src, old_path, new_path, n).nodes.contains_key(id) == m.nodes.contains_key(id),
    decreases n,
{
    if n > 0 {
        lemma_followed_backwards(m, ids, src, old_path, new_path, (n - 1) as nat, id);
        lemma_followed_backwards(m, ids, src, old_path, new_path, (n - 1) as nat, ids[n - 1]);
    }
}

/// Whether a node at or below a moved directory is the only one with its path,
/// and neither the old nor the new place of the directory is inside the other.
pub open spec fn move_is_clean(m: VolumeModel, src: u32, new_path: PathView, id: u64) -> bool {
    let old_path = m.nodes[src as u64].path;
    &&& m.nodes.contains_key(src as u64)
    &&& m.nodes.contains_key(id)
    &&& is_below(m.nodes[id].path, old_path)
    &&& old_path.parts.len() > 0
    &&& path_ok(new_path)
    &&& new_path == old_path || !is_below(new_path, old_path) && !is_below(old_path, new_path)
    &&& forall|other: u64| #[trigger] m.nodes.contains_key(other) && other != id ==> m.nodes[other].path != m.nodes[id].path
}

/// Everything in a moved directory, and the directory itself, is found at its
/// new path, as long as no two nodes share its path and the directory is not
/// moved into itself or onto one that holds it.
pub proof fn law_subtree_is_found_after_move(
    m: VolumeModel,
    ids: Seq<u64>,
    src: u32,
    dst: u32,
    new_path: PathView,
    name: Seq<char>,
    id: u64,
)
    requires
        m.ok(),
        move_is_clean(m, src, new_path, id),
        ids.contains(id),
        forall|i: int, j: int| 0 <= i < j < ids.len() ==> #[trigger] ids[i] != #[trigger] ids[j],
    ensures
        ({
            let old_path = m.nodes[src as u64].path;
            let after = followed(moved_itself(m, src, dst, new_path, name), ids, src, old_path, new_path, ids.len());
            let path = rebased(m.nodes[id].path, old_path, new_path);
            &&& after.nodes[id].path == path
            &&& after.at(path) == Some(id as u32)
        }),
{
    let old_path = m.nodes[src as u64].path;
    let itself = moved_itself(m, src, dst, new_path, name);
    assert(ids.take(ids.len() as int) =~= ids);
    lemma_followed_is_found(m, ids, src, dst, new_path, name, ids.len(), id);
    lemma_followed(itself, ids, src, old_path, new_path, ids.len(), id);
    assert(node_ok(m.nodes[src as u64], src as u64, m.next_id));
    lemma_rebased(old_path, old_path, old_path, new_path);
}

/// A moved file is found at its new path and, unless that is the old one, no
/// longer at the old one; every other path leads where it led.
pub proof fn law_moved_file_is_found(
    m: VolumeModel,
    src: u32,
    dst: u32,
    new_path: PathView,
    name: Seq<char>,
    other: PathView,
)
    requires
        m.ok(),
        m.nodes.contains_key(src as u64),
        text_of(other) != text_of(new_path),
        text_of(other) != text_of(m.nodes[src as u64].path),
    ensures
        ({
            let after = moved_itself(m, src, dst, new_path, name);
            let old_path = m.nodes[src as u64].path;
            &&& after.at(new_path) == Some(src)
            &&& text_of(old_path) != text_of(new_path) ==> after.at(old_path) is None
            &&& after.at(other) == m.at(other)
            &&& after.nodes[src as u64].name == name
        }),
{
}

// ── Deleting ─────────────────────────────────────────────────────────────────

/// What deletes a file or directory.
#[derive(Debug)]
pub struct DeletePlan {
    pub node_id: u32,
    /// A directory has to be empty, as [`check_emptied`] tells.
    pub is_dir: bool,
    pub path: FsPath,
    pub parent_id: u32,
}

impl VolumeModel {
    /// The volume without a node.
    pub open spec fn deleted(self, id: u32) -> VolumeModel {
        VolumeModel {
            nodes: self.nodes.remove(id as u64),
            paths: self.paths.remove(text_of(self.nodes[id as u64].path)),
            ..self
        }
    }
}

/// Refuses to delete a directory in which an entry has been found.
pub fn check_emptied(is_dir: bool, has_entries: bool) -> (r: Result<(), AfpError>)
    ensures
        r == if is_dir && has_entries {
            Err(AfpError::DirNotEmpty)
        } else {
            Ok(())
        },
{
    if is_dir && has_entries {
        Err(AfpError::DirNotEmpty)
    } else {
        Ok(())
    }
}

impl Volume {
    /// What deletes a node. The root stays, and so does a file whose data fork
    /// is open.
    pub fn plan_delete(&self, node_id: u32) -> (r: Result<DeletePlan, AfpError>)
        requires
            self.wf(),
        ensures
            if node_id == ROOT {
                r == Err::<DeletePlan, AfpError>(AfpError::AccessDenied)
            } else if !self@.nodes.contains_key(node_id as u64) {
                r == Err::<DeletePlan, AfpError>(AfpError::ObjectNotFound)
            } else {
                let n = self@.nodes[node_id as u64];
                if !n.is_dir && n.data_open {
                    r == Err::<DeletePlan, AfpError>(AfpError::FileBusy)
                } else {
                    r matches Ok(p) && p.node_id == node_id && p.is_dir == n.is_dir && p.path@ == n.path && p.parent_id
                        == n.parent_id
                }
            },
    {
        if node_id == ROOT {
            return Err(AfpError::AccessDenied);
        }
        match self.node(node_id) {
            None => Err(AfpError::ObjectNotFound),
            Some(n) => {
                if !n.is_dir && n.data_open {
                    return Err(AfpError::FileBusy);
                }
                Ok(DeletePlan { node_id, is_dir: n.is_dir, path: n.path.copy(), parent_id: n.parent_id })
            },
        }
    }

    /// Takes in that a file or directory has been deleted.
    pub fn delete(&mut self, node_id: u32)
        requires
            old(self).wf(),
            old(self)@.nodes.contains_key(node_id as u64),
        ensures
            final(self).wf(),
            final(self).root == old(self).root,
            final(self)@ == old(self)@.deleted(node_id),
    {
        let ghost start = *self;
        if let Some(n) = self.nodes.remove(node_id as u64) {
            let text = n.path.text();
            let ghost mid = *self;
            self.paths.remove(text.as_str());
            proof {
                assert(self@ =~= start@.deleted(node_id)) by {
                    assert(self@.nodes =~= start@.nodes.remove(node_id as u64));
                    assert(self@.locks =~= start@.locks);
                }
                assert forall|k: u64| #[trigger] self@.nodes.contains_key(k) implies node_ok(
                    self@.nodes[k],
                    k,
                    self.next_id,
                ) by {
                    assert(start@.nodes.contains_key(k));
                }
                assert forall|t: Seq<char>| #[trigger] self@.paths.contains_key(t) implies self@.leads_home(t) by {
                    assert(start@.paths.contains_key(t));
                    assert(start@.leads_home(t));
                }
            }
        }
    }
}

/// What is deleted is found neither by its number nor by its path, and
/// everything else stays.
pub proof fn law_deleted_is_gone(m: VolumeModel, id: u32, other: u32, path: PathView)
    requires
        m.ok(),
        m.nodes.contains_key(id as u64),
        other != id,
        text_of(path) != text_of(m.nodes[id as u64].path),
    ensures
        !m.deleted(id).nodes.contains_key(id as u64),
        m.deleted(id).at(m.nodes[id as u64].path) is None,
        m.deleted(id).nodes.contains_key(other as u64) == m.nodes.contains_key(other as u64),
        m.nodes.contains_key(other as u64) ==> m.deleted(id).nodes[other as u64] == m.nodes[other as u64],
        m.deleted(id).at(path) == m.at(path),
{
}

/// A node that has got a number is found by it and by its path, and the number
/// was free before.
pub proof fn law_registered_node_is_found(m: VolumeModel, parent_id: u32, path: PathView, name: Seq<char>, is_dir: bool)
    requires
        m.ok(),
        m.next_id < u32::MAX,
    ensures
        !m.nodes.contains_key(m.next_id as u64),
        ({
            let after = m.registered(parent_id, path, name, is_dir);
            &&& after.at(path) == Some(m.next_id)
            &&& after.nodes[m.next_id as u64].path == path
            &&& after.next_id > m.next_id
            &&& forall|id: u64| #[trigger] m.nodes.contains_key(id) ==> after.nodes[id] == m.nodes[id]
        }),
{
    if m.nodes.contains_key(m.next_id as u64) {
        assert(node_ok(m.nodes[m.next_id as u64], m.next_id as u64, m.next_id));
    }
}

// ── Copying ──────────────────────────────────────────────────────────────────

/// What copies a file.
#[derive(Debug)]
pub struct CopyPlan {
    pub dst_id: u32,
    pub src_path: FsPath,
    pub new_path: FsPath,
    /// The name of the copy.
    pub name: String,
}

/// Why a copy is refused, if it is.
pub open spec fn copy_refused(
    m: VolumeModel,
    src_dir_id: u32,
    src_path: Seq<char>,
    dst_dir_id: u32,
    dst_path: Seq<char>,
    new_name: Seq<char>,
) -> Option<AfpError> {
    match m.resolve(src_dir_id, src_path) {
        None => Some(AfpError::ObjectNotFound),
        Some(src) => if !m.nodes.contains_key(src as u64) {
            Some(AfpError::ObjectNotFound)
        } else if m.nodes[src as u64].is_dir {
            Some(AfpError::ObjectTypeErr)
        } else {
            match m.resolve(dst_dir_id, dst_path) {
                None => Some(AfpError::ObjectNotFound),
                Some(dst) => if !m.nodes.contains_key(dst as u64) {
                    Some(AfpError::ObjectNotFound)
                } else if !m.nodes[dst as u64].is_dir {
                    Some(AfpError::ObjectTypeErr)
                } else if m.at(
                    path_in(m.nodes[dst as u64].path, name_after(new_name, m.nodes[src as u64].name)),
                ) is Some {
                    Some(AfpError::ObjectExists)
                } else {
                    None
                },
            }
        },
    }
}

impl Volume {
    /// What copies a file into a directory. An empty new name keeps the name.
    pub fn plan_copy(&self, src_dir_id: u32, src_path: &str, dst_dir_id: u32, dst_path: &str, new_name: &str) -> (r: Result<
        CopyPlan,
        AfpError,
    >)
        requires
            self.wf(),
            new_name@.len() <= MAX_NAME_CHARS,
        ensures
            match copy_refused(self@, src_dir_id, src_path@, dst_dir_id, dst_path@, new_name@) {
                Some(e) => r == Err::<CopyPlan, AfpError>(e),
                None => {
                    let src = self@.nodes[self@.resolve(src_dir_id, src_path@)->0 as u64];
                    let dst = self@.resolve(dst_dir_id, dst_path@)->0;
                    &&& r matches Ok(p)
                    &&& p.dst_id == dst
                    &&& p.src_path@ == src.path
                    &&& p.name@ == name_after(new_name@, src.name)
                    &&& p.new_path@ == path_in(self@.nodes[dst as u64].path, p.name@)
                    &&& p.name@.len() <= MAX_NAME_CHARS
                    &&& path_ok(p.new_path@)
                },
            },
    {
        let src_id: u32 = match self.resolve_node(src_dir_id, src_path) {
            Ok(id) => id,
            Err(e) => {
                return Err(e);
            },
        };
        let src = match self.node(src_id) {
            Some(n) => n,
            None => {
                return Err(AfpError::ObjectNotFound);
            },
        };
        if src.is_dir {
            return Err(AfpError::ObjectTypeErr);
        }
        let dst_id: u32 = match self.resolve_node(dst_dir_id, dst_path) {
            Ok(id) => id,
            Err(e) => {
                return Err(e);
            },
        };
        let dst = match self.node(dst_id) {
            Some(n) => n,
            None => {
                return Err(AfpError::ObjectNotFound);
            },
        };
        if !dst.is_dir {
            return Err(AfpError::ObjectTypeErr);
        }
        let name = if new_name.unicode_len() == 0 { src.name.clone() } else { new_name.to_owned() };
        let posix = afp_name_to_posix(name.as_str());
        let new_path = dst.path.join(&FsPath::from_text(posix.as_str()));
        proof {
            assert(self@.nodes.contains_key(src_id as u64));
            assert(self@.nodes.contains_key(dst_id as u64));
            assert(node_ok(self@.nodes[src_id as u64], src_id as u64, self.next_id));
            assert(node_ok(self@.nodes[dst_id as u64], dst_id as u64, self.next_id));
            lemma_joined_short(dst.path@, posix@);
        }
        if self.id_at(&new_path).is_some() {
            return Err(AfpError::ObjectExists);
        }
        Ok(CopyPlan { dst_id, src_path: src.path.copy(), new_path, name })
    }

    /// Takes in a copy that has been made: it gets a number.
    pub fn copy_file(&mut self, plan: CopyPlan) -> (id: u32)
        requires
            old(self).wf(),
            old(self).next_id < u32::MAX,
            plan.name@.len() <= MAX_NAME_CHARS,
            path_ok(plan.new_path@),
        ensures
            final(self).wf(),
            final(self).root == old(self).root,
            id == old(self).next_id,
            final(self)@ == old(self)@.registered(plan.dst_id, plan.new_path@, plan.name@, false),
    {
        let CopyPlan { dst_id, src_path: _, new_path, name } = plan;
        self.register(dst_id, new_path, name, false)
    }
}

/// What is created in a directory is found there under the path that it was
/// created with.
pub proof fn law_created_is_found(m: VolumeModel, dir_id: u32, path: Seq<char>, name: Seq<char>, is_dir: bool)
    requires
        m.ok(),
        m.next_id < u32::MAX,
        dir_id >= ROOT,
        m.nodes.contains_key(dir_id as u64),
        !blank(path),
    ensures
        m.registered(dir_id, join_paths(m.nodes[dir_id as u64].path, parsed(path)), name, is_dir).resolve(dir_id, path)
            == Some(m.next_id),
{
    assert(node_ok(m.nodes[dir_id as u64], dir_id as u64, m.next_id));
}

proof fn lemma_populated_knows(m: VolumeModel, dir_id: u32, dir_path: PathView, entries: Seq<EntryView>, n: nat, i: int)
    requires
        0 <= i < n,
        n <= entries.len(),
        !hidden(entries[i].name),
    ensures
        m.populated(dir_id, dir_path, entries, n).at(join_paths(dir_path, parsed(entries[i].name))) is Some,
    decreases n,
{
    if i < n - 1 {
        lemma_populated_knows(m, dir_id, dir_path, entries, (n - 1) as nat, i);
    }
}

proof fn lemma_populated_idle(m: VolumeModel, dir_id: u32, dir_path: PathView, entries: Seq<EntryView>, n: nat)
    requires
        n <= entries.len(),
        forall|i: int|
            0 <= i < n && !hidden((#[trigger] entries[i]).name) ==> m.at(join_paths(dir_path, parsed(entries[i].name)))
                is Some,
    ensures
        m.populated(dir_id, dir_path, entries, n) == m,
    decreases n,
{
    if n > 0 {
        lemma_populated_idle(m, dir_id, dir_path, entries, (n - 1) as nat);
        assert(entries[n - 1] == entries[n - 1]);
    }
}

/// Reading a directory again gives no entry a second number.
pub proof fn law_populating_again_changes_nothing(
    m: VolumeModel,
    dir_id: u32,
    dir_path: PathView,
    entries: Seq<EntryView>,
)
    ensures
        ({
            let once = m.populated(dir_id, dir_path, entries, entries.len());
            once.populated(dir_id, dir_path, entries, entries.len()) == once
        }),
{
    let once = m.populated(dir_id, dir_path, entries, entries.len());
    assert forall|i: int| 0 <= i < entries.len() && !hidden((#[trigger] entries[i]).name) implies once.at(
        join_paths(dir_path, parsed(entries[i].name)),
    ) is Some by {
        lemma_populated_knows(m, dir_id, dir_path, entries, entries.len(), i);
    }
    lemma_populated_idle(once, dir_id, dir_path, entries, entries.len());
}

// ── The desktop database ─────────────────────────────────────────────────────

impl Volume {
    /// Opens the desktop database: its reference number, and whether it has to
    /// be opened on disk first.
    pub fn open_dt(&mut self) -> (r: (u16, bool))
        requires
            old(self).wf(),
        ensures
            final(self).wf(),
            final(self).root == old(self).root,
            match old(self)@.desktop {
                Some(n) => r == (n, false) && final(self)@ == old(self)@,
                None => r == (1u16, true) && final(self)@ == (VolumeModel { desktop: Some(1), ..old(self)@ }),
            },
    {
        if let Some(n) = self.desktop {
            return (n, false);
        }
        let ghost before = *self;
        self.desktop = Some(1);
        proof {
            assert(self@ =~= (VolumeModel { desktop: Some(1), ..before@ })) by {
                assert(self@.nodes =~= before@.nodes);
                assert(self@.locks =~= before@.locks);
            }
            assert forall|t: Seq<char>| #[trigger] self@.paths.contains_key(t) implies self@.leads_home(t) by {
                assert(before@.leads_home(t));
            }
        }
        (1, true)
    }

    /// Whether a reference number is the one of the desktop database.
    pub fn check_dt(&self, dt_ref_num: u16) -> (r: Result<(), AfpError>)
        ensures
            r == if self@.desktop == Some(dt_ref_num) {
                Ok(())
            } else {
                Err(AfpError::ItemNotFound)
            },
    {
        match self.desktop {
            Some(n) => if n == dt_ref_num {
                Ok(())
            } else {
                Err(AfpError::ItemNotFound)
            },
            None => Err(AfpError::ItemNotFound),
        }
    }

    /// The path of a file whose comment is asked for.
    pub fn comment_target(&self, directory_id: u32, path_name: &str) -> (r: Result<FsPath, AfpError>)
        requires
            self.wf(),
        ensures
            match self@.resolve(directory_id, path_name@) {
                None => r == Err::<FsPath, AfpError>(AfpError::ObjectNotFound),
                Some(id) => if !self@.nodes.contains_key(id as u64) {
                    r == Err::<FsPath, AfpError>(AfpError::ObjectNotFound)
                } else if self@.desktop is None {
                    r == Err::<FsPath, AfpError>(AfpError::AccessDenied)
                } else {
                    r matches Ok(p) && p@ == self@.nodes[id as u64].path
                },
            },
    {
        let id: u32 = match self.resolve_node(directory_id, path_name) {
            Ok(id) => id,
            Err(e) => {
                return Err(e);
            },
        };
        match self.node(id) {
            None => Err(AfpError::ObjectNotFound),
            Some(n) => if self.desktop.is_none() {
                Err(AfpError::AccessDenied)
            } else {
                Ok(n.path.copy())
            },
        }
    }
}

// ── What the operations are for ──────────────────────────────────────────────

proof fn lemma_followed_keeps(
    m: VolumeModel,
    ids: Seq<u64>,
    src: u32,
    old_path: PathView,
    new_path: PathView,
    n: nat,
)
    ensures
        ({
            let after = followed(m, ids, src, old_path, new_path, n);
            &&& after.nodes.contains_key(src as u64) == m.nodes.contains_key(src as u64)
            &&& after.nodes[src as u64] == m.nodes[src as u64]
            &&& after.name == m.name
            &&& after.next_id == m.next_id
            &&& after.forks == m.forks
            &&& after.next_fork_ref == m.next_fork_ref
            &&& after.locks == m.locks
            &&& after.desktop == m.desktop
            &&& after.volume_id == m.volume_id
            &&& after.created_at == m.created_at
        }),
    decreases n,
{
    if n > 0 {
        lemma_followed_keeps(m, ids, src, old_path, new_path, (n - 1) as nat);
    }
}

/// What has been moved says that it is where it is: its parent is the directory
/// that it was moved into, and stays so while what is below follows; its name and
/// path are the new ones. Its number, its kind and its open forks stay, and
/// nothing else of the volume changes.
pub proof fn law_moved_node_tells_its_home(
    m: VolumeModel,
    ids: Seq<u64>,
    src: u32,
    dst: u32,
    new_path: PathView,
    name: Seq<char>,
    n: nat,
)
    requires
        m.nodes.contains_key(src as u64),
    ensures
        ({
            let was = m.nodes[src as u64];
            let after = followed(moved_itself(m, src, dst, new_path, name), ids, src, was.path, new_path, n);
            let now = after.nodes[src as u64];
            &&& after.nodes.contains_key(src as u64)
            &&& now.parent_id == dst
            &&& now.name == name
            &&& now.path == new_path
            &&& now.id == was.id
            &&& now.is_dir == was.is_dir
            &&& now.data_open == was.data_open
            &&& now.rsrc_open == was.rsrc_open
            &&& after.forks == m.forks
            &&& after.locks == m.locks
            &&& after.next_id == m.next_id
            &&& after.next_fork_ref == m.next_fork_ref
            &&& after.desktop == m.desktop
            &&& after.name == m.name
        }),
{
    let was = m.nodes[src as u64];
    lemma_followed_keeps(moved_itself(m, src, dst, new_path, name), ids, src, was.path, new_path, n);
}

/// A client that asks a moved file or directory for its parent reads the number
/// of the directory that it was moved into.
pub proof fn law_moved_parms_name_the_parent(
    m: VolumeModel,
    ids: Seq<u64>,
    src: u32,
    dst: u32,
    new_path: PathView,
    name: Seq<char>,
    n: nat,
    fb: FileBitmap,
    db: DirBitmap,
    file: FileFacts,
    dir: DirFacts,
)
    requires
        m.nodes.contains_key(src as u64),
        fb.parent_dir_id && !fb.attributes,
        db.parent_dir_id && !db.attributes,
    ensures
        ({
            let after = followed(
                moved_itself(m, src, dst, new_path, name),
                ids,
                src,
                m.nodes[src as u64].path,
                new_path,
                n,
            );
            let now = after.nodes[src as u64];
            &&& number32(file_parms(fb, now.id, now.parent_id, now.name, file), 0) == dst
            &&& number32(dir_parms(db, now.id, now.parent_id, now.name, dir), 0) == dst
        }),
{
    law_moved_node_tells_its_home(m, ids, src, dst, new_path, name, n);
    let after = followed(moved_itself(m, src, dst, new_path, name), ids, src, m.nodes[src as u64].path, new_path, n);
    let now = after.nodes[src as u64];
    law_encoded_parms_read_back(fb, db, now.id, now.parent_id, now.name, file, dir);
    reveal(crate::afp::parms::width);
}

/// What follows a moved directory keeps its number, kind, name, parent and open
/// forks.
pub proof fn law_followers_stay_themselves(
    m: VolumeModel,
    ids: Seq<u64>,
    src: u32,
    dst: u32,
    new_path: PathView,
    name: Seq<char>,
    id: u64,
)
    requires
        m.nodes.contains_key(src as u64),
        m.nodes.contains_key(id),
        id != src as u64,
        forall|i: int, j: int| 0 <= i < j < ids.len() ==> #[trigger] ids[i] != #[trigger] ids[j],
    ensures
        ({
            let old_path = m.nodes[src as u64].path;
            let after = followed(moved_itself(m, src, dst, new_path, name), ids, src, old_path, new_path, ids.len());
            let was = m.nodes[id];
            let now = after.nodes[id];
            &&& now.id == was.id
            &&& now.parent_id == was.parent_id
            &&& now.name == was.name
            &&& now.is_dir == was.is_dir
            &&& now.data_open == was.data_open
            &&& now.rsrc_open == was.rsrc_open
        }),
{
    let old_path = m.nodes[src as u64].path;
    lemma_followed(moved_itself(m, src, dst, new_path, name), ids, src, old_path, new_path, ids.len(), id);
}

/// The name that clients give becomes one component of the path, with a `:` for
/// every `/`, right below the directory.
pub proof fn law_new_path_is_in_the_directory(dir: PathView, name: Seq<char>)
    requires
        path_ok(dir),
        name.len() > 0,
        name != seq!['.'],
    ensures
        ({
            let p = path_in(dir, name);
            &&& p.absolute == dir.absolute
            &&& p.parts.len() == dir.parts.len() + 1
            &&& forall|i: int| 0 <= i < dir.parts.len() ==> #[trigger] p.parts[i] == dir.parts[i]
            &&& p.parts.last().len() == name.len()
            &&& forall|k: int|
                0 <= k < name.len() ==> #[trigger] p.parts.last()[k] == if name[k] == '/' {
                    ':'
                } else {
                    name[k]
                }
        }),
{
    let t = swapped(name, '/', ':');
    assert(!t.contains('/')) by {
        if t.contains('/') {
            let k = choose|k: int| 0 <= k < t.len() && t[k] == '/';
            assert(name[k] != '/' || t[k] == ':');
        }
    }
    assert(t != seq!['.']) by {
        if t == seq!['.'] {
            assert(t[0] == '.');
            assert(name[0] == '.');
            assert(name =~= seq!['.']);
        }
    }
    let p = PathView { absolute: false, parts: seq![t] };
    assert(canonical(p));
    assert(text_of(p) == t);
    law_path_text_reads_back(p);
    assert(parsed(t) == p);
    let joined = path_in(dir, name);
    if dir == no_path() {
        assert(joined == p);
    } else {
        assert(joined.parts =~= dir.parts.push(t));
    }
    assert(joined.parts.last() == t);
}

/// A plan of a move names the node, the directory, and the name that the node
/// gets: the new one, or where none is given its own.
pub proof fn law_move_plan_is_the_request(p: MovePlan, m: VolumeModel, src: u32, dst: u32, new_name: Seq<char>)
    requires
        p.moves(m, src, dst, new_name),
    ensures
        p.src_id == src,
        p.dst_id == dst,
        p.old_path@ == m.nodes[src as u64].path,
        p.is_dir == m.nodes[src as u64].is_dir,
        new_name.len() > 0 ==> p.name@ == new_name,
        new_name.len() == 0 ==> p.name@ == m.nodes[src as u64].name,
        p.new_path@ == path_in(m.nodes[dst as u64].path, p.name@),
{
}

/// A plan of a renaming keeps the node in its directory: only the last component
/// of its path changes.
pub proof fn law_rename_stays_in_place(p: MovePlan, m: VolumeModel, src: u32, new_name: Seq<char>)
    requires
        m.ok(),
        p.renames(m, src, new_name),
        new_name.len() > 0,
        new_name != seq!['.'],
        m.nodes[src as u64].path.parts.len() > 0,
    ensures
        p.src_id == src,
        p.name@ == new_name,
        p.old_path@ == m.nodes[src as u64].path,
        p.new_path@.parts.len() == p.old_path@.parts.len(),
        p.new_path@.absolute == p.old_path@.absolute,
        forall|i: int| 0 <= i < p.old_path@.parts.len() - 1 ==> #[trigger] p.new_path@.parts[i] == p.old_path@.parts[i],
        p.new_path@.parts.last().len() == new_name.len(),
        match m.at(parent_of(m.nodes[src as u64].path)) {
            Some(home) => p.dst_id == home,
            None => p.dst_id == m.nodes[src as u64].parent_id,
        },
{
    let path = m.nodes[src as u64].path;
    assert(node_ok(m.nodes[src as u64], src as u64, m.next_id));
    let parent = parent_of(path);
    assert(forall|i: int| 0 <= i < parent.parts.len() ==> #[trigger] parent.parts[i] == path.parts[i]);
    law_new_path_is_in_the_directory(parent, new_name);
}

/// A move is refused exactly where one of these holds: there is no such node, it
/// is the root or the directory above it, there is no such directory, what is
/// named is no directory, or something else is at the new place.
pub proof fn law_move_is_refused_when(
    m: VolumeModel,
    src_dir: u32,
    dst_dir: u32,
    src_path: Seq<char>,
    dst_path: Seq<char>,
    new_name: Seq<char>,
)
    ensures
        ({
            let r = move_refused(m, src_dir, dst_dir, src_path, dst_path, new_name);
            let src = m.resolve(src_dir, src_path);
            let dst = m.resolve(dst_dir, dst_path);
            &&& src is None ==> r == Some(AfpError::ObjectNotFound)
            &&& src is Some && src->0 <= 2 ==> r == Some(AfpError::AccessDenied)
            &&& src is Some && src->0 > 2 && dst is None ==> r == Some(AfpError::ObjectNotFound)
            &&& r is None ==> src is Some && dst is Some && src->0 > 2 && m.nodes.contains_key(src->0 as u64)
                && m.nodes.contains_key(dst->0 as u64) && m.nodes[dst->0 as u64].is_dir
            &&& r == Some(AfpError::ObjectTypeErr) ==> dst is Some && !m.nodes[dst->0 as u64].is_dir
            &&& r is None || r == Some(AfpError::ObjectExists) ==> {
                let name = if new_name.len() == 0 {
                    m.nodes[src->0 as u64].name
                } else {
                    new_name
                };
                let new_path = path_in(m.nodes[dst->0 as u64].path, name);
                (r is Some) == (m.paths.contains_key(text_of(new_path)) && new_path != m.nodes[src->0 as u64].path)
            }
            &&& r is None || r == Some(AfpError::ObjectNotFound) || r == Some(AfpError::AccessDenied) || r == Some(
                AfpError::ObjectTypeErr,
            ) || r == Some(AfpError::ObjectExists)
        }),
{
}

/// A copy is refused exactly where one of these holds: there is no such node, it
/// is a directory, there is no such directory, what is named is none, or
/// something is at the new place.
pub proof fn law_copy_is_refused_when(
    m: VolumeModel,
    src_dir: u32,
    src_path: Seq<char>,
    dst_dir: u32,
    dst_path: Seq<char>,
    new_name: Seq<char>,
)
    ensures
        ({
            let r = copy_refused(m, src_dir, src_path, dst_dir, dst_path, new_name);
            let src = m.resolve(src_dir, src_path);
            let dst = m.resolve(dst_dir, dst_path);
            &&& src is None ==> r == Some(AfpError::ObjectNotFound)
            &&& src is Some && m.nodes.contains_key(src->0 as u64) && m.nodes[src->0 as u64].is_dir ==> r == Some(
                AfpError::ObjectTypeErr,
            )
            &&& r is None ==> src is Some && dst is Some && !m.nodes[src->0 as u64].is_dir && m.nodes[dst->0 as u64].is_dir
            &&& r is None || r == Some(AfpError::ObjectExists) ==> {
                let name = if new_name.len() == 0 {
                    m.nodes[src->0 as u64].name
                } else {
                    new_name
                };
                (r is Some) == m.paths.contains_key(text_of(path_in(m.nodes[dst->0 as u64].path, name)))
            }
        }),
{
}

/// A renaming is refused exactly where there is no such node, it is the root or
/// the directory above it, or something else is at the new place.
pub proof fn law_rename_is_refused_when(m: VolumeModel, dir_id: u32, src_path: Seq<char>, new_name: Seq<char>)
    ensures
        ({
            let r = rename_refused(m, dir_id, src_path, new_name);
            let src = m.resolve(dir_id, src_path);
            &&& src is None ==> r == Some(AfpError::ObjectNotFound)
            &&& src is Some && src->0 <= 2 ==> r == Some(AfpError::AccessDenied)
            &&& r is None || r == Some(AfpError::ObjectExists) ==> {
                let node = m.nodes[src->0 as u64];
                let name = if new_name.len() == 0 {
                    node.name
                } else {
                    new_name
                };
                let new_path = path_in(parent_of(node.path), name);
                (r is Some) == (m.paths.contains_key(text_of(new_path)) && new_path != node.path)
            }
            &&& r is None || r == Some(AfpError::ObjectNotFound) || r == Some(AfpError::AccessDenied) || r == Some(
                AfpError::ObjectExists,
            )
        }),
{
}

/// How a client's path is found: the number zero stands for the root, number two;
/// below number one there is only the volume, by its name; an empty path is the
/// directory itself; anything else is below the directory.
pub proof fn law_paths_are_found_in_their_directory(m: VolumeModel, directory_id: u32, path: Seq<char>)
    ensures
        m.resolve(0, path) == m.resolve(2, path),
        m.resolve(1, Seq::empty()) == Some(1u32),
        m.resolve(1, m.name) == Some(if blank(m.name) {
            1u32
        } else {
            2u32
        }),
        m.resolve(1, path) matches Some(id) ==> id == 1 || id == 2,
        directory_id >= 2 && !m.nodes.contains_key(directory_id as u64) ==> m.resolve(directory_id, path) is None,
        directory_id >= 2 && m.nodes.contains_key(directory_id as u64) ==> m.resolve(directory_id, Seq::empty()) == Some(
            directory_id,
        ),
        directory_id >= 2 && m.nodes.contains_key(directory_id as u64) && (exists|k: int|
            0 <= k < path.len() && path[k] != '\0') ==> {
            let text = text_of(join_paths(m.nodes[directory_id as u64].path, parsed(path)));
            m.resolve(directory_id, path) == if m.paths.contains_key(text) {
                Some(m.paths[text])
            } else {
                None
            }
        },
{
}

/// What gets a number gets the next one, and says what it was told: its parent,
/// its name, its kind and its path, with no fork open; nothing else changes.
pub proof fn law_registered_node_says_what_it_is(
    m: VolumeModel,
    parent_id: u32,
    path: PathView,
    name: Seq<char>,
    is_dir: bool,
)
    requires
        m.next_id < u32::MAX,
    ensures
        ({
            let after = m.registered(parent_id, path, name, is_dir);
            let n = after.nodes[m.next_id as u64];
            &&& after.nodes.contains_key(m.next_id as u64)
            &&& n.id == m.next_id
            &&& n.parent_id == parent_id
            &&& n.name == name
            &&& n.is_dir == is_dir
            &&& n.path == path
            &&& !n.data_open && !n.rsrc_open
            &&& after.next_id == m.next_id + 1
            &&& after.paths.contains_key(text_of(path)) && after.paths[text_of(path)] == m.next_id
            &&& forall|t: Seq<char>|
                t != text_of(path) ==> #[trigger] after.paths.contains_key(t) == m.paths.contains_key(t) && (
                m.paths.contains_key(t) ==> after.paths[t] == m.paths[t])
            &&& after.forks == m.forks && after.locks == m.locks && after.desktop == m.desktop && after.name == m.name
        }),
{
}

/// A new volume holds the root, number two, and above it number one; both have
/// the volume's name, and the empty path leads to the root.
pub proof fn law_fresh_volume_has_a_root(name: Seq<char>, created_at: u32, volume_id: u16)
    ensures
        ({
            let m = Volume::fresh(name, created_at, volume_id);
            &&& m.nodes.contains_key(1) && m.nodes.contains_key(2)
            &&& m.nodes[1].id == 1 && m.nodes[2].id == 2
            &&& m.nodes[1].parent_id == 1 && m.nodes[2].parent_id == 1
            &&& m.nodes[1].name == name && m.nodes[2].name == name
            &&& m.nodes[1].is_dir && m.nodes[2].is_dir
            &&& m.nodes[2].path.parts.len() == 0 && !m.nodes[2].path.absolute
            &&& m.paths.contains_key(Seq::empty()) && m.paths[Seq::empty()] == 2
            &&& forall|id: u64| #[trigger] m.nodes.contains_key(id) ==> id == 1 || id == 2
            &&& m.next_id == 3 && m.next_fork_ref == 1
            &&& m.created_at == created_at && m.volume_id == volume_id && m.name == name
            &&& m.desktop is None
            &&& forall|f: u64| !m.forks.contains_key(f) && !m.locks.contains_key(f)
        }),
{
}

/// Clients see every entry but the server's own.
pub proof fn law_own_entries_are_not_seen(entries: Seq<EntryView>, n: nat, e: EntryView)
    requires
        n <= entries.len(),
    ensures
        visible(entries, n).contains(e) <==> e.name != ".tailtalk"@ && e.name != ".AppleDesktop"@ && exists|i: int|
            0 <= i < n && #[trigger] entries[i] == e,
        visible(entries, n).len() <= n,
    decreases n,
{
    if n > 0 {
        let before = visible(entries, (n - 1) as nat);
        let after = visible(entries, n);
        law_own_entries_are_not_seen(entries, (n - 1) as nat, e);
        if before.contains(e) {
            let i = choose|i: int| 0 <= i < before.len() && before[i] == e;
            assert(after[i] == e);
        }
        if entries[n - 1] == e && !hidden(e.name) {
            assert(after.last() == e);
        }
        if after.contains(e) {
            let i = choose|i: int| 0 <= i < after.len() && after[i] == e;
            if i < before.len() {
                assert(before[i] == e);
            } else {
                assert(entries[n - 1] == e);
            }
        }
    } else {
        assert(visible(entries, n).len() == 0);
    }
}

/// Reading a directory lets every number stay what it was.
pub proof fn law_populating_keeps_numbers(m: VolumeModel, dir_id: u32, dir_path: PathView, entries: Seq<EntryView>, n: nat)
    requires
        m.ok(),
        n <= entries.len(),
        m.next_id + n <= u32::MAX,
        path_ok(dir_path),
        short_names(entries),
    ensures
        ({
            let after = m.populated(dir_id, dir_path, entries, n);
            &&& after.ok()
            &&& m.next_id <= after.next_id <= m.next_id + n
            &&& forall|id: u64| #[trigger] m.nodes.contains_key(id) ==> after.nodes.contains_key(id) && after.nodes[id]
                == m.nodes[id]
            &&& forall|t: Seq<char>| #[trigger] m.paths.contains_key(t) ==> after.paths.contains_key(t) && after.paths[t]
                == m.paths[t]
            &&& forall|id: u64| #[trigger] after.nodes.contains_key(id) ==> m.nodes.contains_key(id)
                || after.nodes[id].parent_id == dir_id
        }),
    decreases n,
{
    if n > 0 {
        law_populating_keeps_numbers(m, dir_id, dir_path, entries, (n - 1) as nat);
        let before = m.populated(dir_id, dir_path, entries, (n - 1) as nat);
        let e = entries[n - 1];
        let path = join_paths(dir_path, parsed(e.name));
        assert(e.name.len() <= MAX_NAME_CHARS);
        lemma_joined_short(dir_path, e.name);
        if !(hidden(e.name) || before.at(path) is Some) {
            lemma_registered_ok(before, dir_id, path, swapped(e.name, ':', '/'), e.is_dir);
        }
    }
}

/// An entry that is new gets a node of its kind, in the directory that was read,
/// under its name with a `/` for every `:`.
pub proof fn law_new_entries_get_nodes(m: VolumeModel, dir_id: u32, dir_path: PathView, entries: Seq<EntryView>, n: nat)
    requires
        0 < n <= entries.len(),
        entries[n - 1].name != ".tailtalk"@,
        entries[n - 1].name != ".AppleDesktop"@,
        m.populated(dir_id, dir_path, entries, (n - 1) as nat).at(join_paths(dir_path, parsed(entries[n - 1].name))) is None,
    ensures
        ({
            let before = m.populated(dir_id, dir_path, entries, (n - 1) as nat);
            let after = m.populated(dir_id, dir_path, entries, n);
            let e = entries[n - 1];
            let node = after.nodes[before.next_id as u64];
            &&& after.at(join_paths(dir_path, parsed(e.name))) == Some(before.next_id)
            &&& node.parent_id == dir_id
            &&& node.is_dir == e.is_dir
            &&& node.path == join_paths(dir_path, parsed(e.name))
            &&& node.name.len() == e.name.len()
            &&& forall|k: int|
                0 <= k < e.name.len() ==> #[trigger] node.name[k] == if e.name[k] == ':' {
                    '/'
                } else {
                    e.name[k]
                }
        }),
{
}

/// A walk gives every entry a number of its own, in their order, and comes back
/// to the directories among them under the numbers that they got.
pub proof fn law_walk_numbers_in_order(m: VolumeModel, dir_id: u32, dir_path: PathView, entries: Seq<EntryView>, n: nat, i: int)
    requires
        n <= entries.len(),
        m.next_id + n <= u32::MAX,
        0 <= i < n,
        entries[i].name != ".tailtalk"@,
        entries[i].name != ".AppleDesktop"@,
    ensures
        ({
            let after = m.walked(dir_id, dir_path, entries, n);
            let id = (m.next_id + visible(entries, i as nat).len()) as u32;
            let node = after.nodes[id as u64];
            &&& after.next_id == m.next_id + visible(entries, n).len()
            &&& after.nodes.contains_key(id as u64)
            &&& node.id == id
            &&& node.parent_id == dir_id
            &&& node.is_dir == entries[i].is_dir
            &&& node.path == join_paths(dir_path, parsed(entries[i].name))
            &&& node.name == swapped(entries[i].name, ':', '/')
            &&& entries[i].is_dir ==> walked_dirs(m.next_id, dir_path, entries, n).contains((node.path, id))
        }),
    decreases n,
{
    lemma_walked_next(m, dir_id, dir_path, entries, n);
    lemma_walked_next(m, dir_id, dir_path, entries, (n - 1) as nat);
    let before = m.walked(dir_id, dir_path, entries, (n - 1) as nat);
    let dirs = walked_dirs(m.next_id, dir_path, entries, (n - 1) as nat);
    let all = walked_dirs(m.next_id, dir_path, entries, n);
    if i < n - 1 {
        law_walk_numbers_in_order(m, dir_id, dir_path, entries, (n - 1) as nat, i);
        lemma_visible_grows(entries, (i + 1) as nat, (n - 1) as nat);
        let id = (m.next_id + visible(entries, i as nat).len()) as u32;
        let pair = (before.nodes[id as u64].path, id);
        if entries[i].is_dir {
            let k = choose|k: int| 0 <= k < dirs.len() && dirs[k] == pair;
            assert(all[k] == pair);
        }
    } else if entries[i].is_dir {
        assert(all.last().1 == (m.next_id + visible(entries, i as nat).len()) as u32);
        assert(all.contains(all.last()));
    }
}

proof fn lemma_visible_grows(entries: Seq<EntryView>, a: nat, b: nat)
    requires
        a <= b,
    ensures
        visible(entries, a).len() <= visible(entries, b).len() <= visible(entries, a).len() + (b - a),
    decreases b - a,
{
    if a < b {
        lemma_visible_grows(entries, a, (b - 1) as nat);
    }
}

proof fn lemma_walked_next(m: VolumeModel, dir_id: u32, dir_path: PathView, entries: Seq<EntryView>, n: nat)
    requires
        m.next_id + n <= u32::MAX,
    ensures
        m.walked(dir_id, dir_path, entries, n).next_id == m.next_id + visible(entries, n).len(),
        visible(entries, n).len() <= n,
    decreases n,
{
    if n > 0 {
        lemma_walked_next(m, dir_id, dir_path, entries, (n - 1) as nat);
    }
}

/// An opened fork gets the next reference number, which is never zero, and is
/// known to be the fork of its node; the other fork of the node stays as it is.
pub proof fn law_opened_fork_is_of_its_node(m: VolumeModel, id: u32, fork: ForkType)
    requires
        m.nodes.contains_key(id as u64),
        m.next_fork_ref != 0,
    ensures
        ({
            let after = m.fork_opened(id, fork);
            let was = m.nodes[id as u64];
            let now = after.nodes[id as u64];
            &&& after.forks.contains_key(m.next_fork_ref as u64)
            &&& after.forks[m.next_fork_ref as u64].0 == id
            &&& after.forks[m.next_fork_ref as u64].1 == fork
            &&& fork == ForkType::Data ==> now.data_open && now.rsrc_open == was.rsrc_open
            &&& fork == ForkType::Resource ==> now.rsrc_open && now.data_open == was.data_open
            &&& now.path == was.path && now.name == was.name && now.id == was.id && now.parent_id == was.parent_id
            &&& after.next_fork_ref != 0
            &&& after.next_fork_ref == m.next_fork_ref + 1 || m.next_fork_ref == 65535 && after.next_fork_ref == 1
            &&& forall|f: u64|
                f != m.next_fork_ref ==> #[trigger] after.forks.contains_key(f) == m.forks.contains_key(f) && (
                m.forks.contains_key(f) ==> after.forks[f] == m.forks[f])
        }),
{
}

/// A closed fork is no longer known, and neither are its locks; the other fork of
/// its node stays as it is, and so do all other forks.
pub proof fn law_closed_fork_is_gone(m: VolumeModel, fork_id: u16, other: u64)
    requires
        m.has_fork(fork_id),
        other != fork_id,
    ensures
        ({
            let after = m.fork_closed(fork_id);
            let (id, fork) = m.forks[fork_id as u64];
            let was = m.nodes[id as u64];
            let now = after.nodes[id as u64];
            &&& !after.forks.contains_key(fork_id as u64)
            &&& !after.locks.contains_key(fork_id as u64)
            &&& fork == ForkType::Data ==> !now.data_open && now.rsrc_open == was.rsrc_open
            &&& fork == ForkType::Resource ==> !now.rsrc_open && now.data_open == was.data_open
            &&& after.forks.contains_key(other) == m.forks.contains_key(other)
            &&& m.forks.contains_key(other) ==> after.forks[other] == m.forks[other]
            &&& after.locks.contains_key(other) == m.locks.contains_key(other)
            &&& m.locks.contains_key(other) ==> after.locks[other] == m.locks[other]
        }),
{
}

/// What is read goes up to the limit or the end of the data, whichever comes
/// first, unless a line ends before: then it ends with the first end of a line.
/// The end of the data has been hit where less was read than was asked for and
/// no line ends there.
pub proof fn law_reading_stops_at_a_line_end(ends: Option<Seq<bool>>, available: nat, max: nat)
    requires
        ends matches Some(m) ==> m.len() == available,
    ensures
        ({
            let n = read_len(ends, available, max, 0);
            let most = if available <= max {
                available
            } else {
                max
            };
            &&& n <= most
            &&& ends is None ==> n == most
            &&& ends matches Some(m) ==> (forall|k: int| 0 <= k < n - 1 ==> !#[trigger] m[k])
            &&& ends matches Some(m) ==> (n < most ==> n > 0 && m[n - 1])
            &&& read_hits_end(ends, available, max) <==> n < max && !(ends matches Some(m) && n > 0 && m[n - 1])
            &&& read_hits_end(ends, available, max) ==> n == available
        }),
{
    lemma_read_len(ends, available, max, 0);
}

proof fn lemma_read_len(ends: Option<Seq<bool>>, available: nat, max: nat, at: nat)
    requires
        ends matches Some(m) ==> m.len() == available,
        at <= available,
        at <= max,
    ensures
        ({
            let n = read_len(ends, available, max, at);
            let most = if available <= max {
                available
            } else {
                max
            };
            &&& at <= n <= most
            &&& ends is None ==> n == most
            &&& ends matches Some(m) ==> (forall|k: int| at <= k < n - 1 ==> !#[trigger] m[k])
            &&& ends matches Some(m) ==> (n < most ==> n > at && m[n - 1])
        }),
    decreases available - at,
{
    if at < available && at < max && !ends_line(ends, at as int) {
        lemma_read_len(ends, available, max, at + 1);
    }
}

/// Where a lock starts: from the front an offset counts as it is, and from the
/// end it is added to the size; what lies before the front starts at the front.
pub proof fn law_locks_start_where_asked(offset: i32, fork_size: u64)
    ensures
        offset >= 0 ==> lock_start(offset, false, fork_size) == offset,
        offset < 0 ==> lock_start(offset, false, fork_size) == 0,
        0 <= fork_size + offset <= 0xFFFF_FFFF_FFFF_FFFFu64 ==> lock_start(offset, true, fork_size) == fork_size + offset,
        fork_size + offset < 0 ==> lock_start(offset, true, fork_size) == 0,
        fork_size + offset > 0xFFFF_FFFF_FFFF_FFFFu64 ==> lock_start(offset, true, fork_size) == 0xFFFF_FFFF_FFFF_FFFFu64,
{
}

/// Two ranges of bytes, neither of them empty nor running behind the largest
/// number, overlap exactly where they have a byte in common.
pub proof fn law_overlap_is_a_common_byte(a: LockedRange, b: LockedRange)
    requires
        a.1 > 0,
        b.1 > 0,
        a.0 + a.1 <= 0xFFFF_FFFF_FFFF_FFFFu64,
        b.0 + b.1 <= 0xFFFF_FFFF_FFFF_FFFFu64,
    ensures
        overlap(a, b) <==> exists|byte: int| a.0 <= byte < a.0 + a.1 && #[trigger] lies_in(byte, b),
{
    if overlap(a, b) {
        let byte = if a.0 >= b.0 {
            a.0 as int
        } else {
            b.0 as int
        };
        assert(lies_in(byte, b));
    }
}

/// Whether a byte lies in a range.
pub open spec fn lies_in(byte: int, r: LockedRange) -> bool {
    r.0 <= byte < r.0 + r.1
}

/// A lock is refused exactly where it overlaps a locked range, and an unlocking
/// takes out the first range that is just the one that was named.
pub proof fn law_first_range_is_unlocked(ranges: Seq<LockedRange>, r: LockedRange)
    ensures
        ({
            let n = first_of(ranges, r);
            &&& n <= ranges.len()
            &&& n < ranges.len() ==> ranges[n as int].0 == r.0 && ranges[n as int].1 == r.1
            &&& forall|i: int| 0 <= i < n ==> #[trigger] ranges[i] != r
        }),
        conflicts(ranges, r) <==> exists|i: int| 0 <= i < ranges.len() && #[trigger] overlap(r, ranges[i]),
    decreases ranges.len(),
{
    if ranges.len() > 0 && ranges[0] != r {
        let rest = ranges.skip(1);
        law_first_range_is_unlocked(rest, r);
        assert forall|i: int| 0 <= i < first_of(ranges, r) implies #[trigger] ranges[i] != r by {
            if i > 0 {
                assert(ranges[i] == rest[i - 1]);
            }
        }
        if first_of(ranges, r) < ranges.len() {
            assert(ranges[first_of(ranges, r) as int] == rest[first_of(rest, r) as int]);
        }
    }
}

/// The ranges of one fork are locked without those of another.
pub proof fn law_locks_are_by_fork(m: VolumeModel, fork_id: u16, ranges: Seq<LockedRange>, other: u16)
    requires
        other != fork_id,
    ensures
        locks_of(m.with_locks(fork_id, ranges), fork_id) == ranges,
        locks_of(m.with_locks(fork_id, ranges), other) == locks_of(m, other),
        m.with_locks(fork_id, ranges).nodes == m.nodes,
        m.with_locks(fork_id, ranges).forks == m.forks,
        m.with_locks(fork_id, ranges).paths == m.paths,
        m.with_locks(fork_id, ranges).next_id == m.next_id,
        m.with_locks(fork_id, ranges).next_fork_ref == m.next_fork_ref,
        m.with_locks(fork_id, ranges).desktop == m.desktop,
{
}

/// Where the Finder information stands among the parameters that a client sets:
/// behind two bytes of attributes and four of each date, as far as they are there.
pub proof fn law_set_parms_stand_in_order(b: SetBitmap, data: Seq<u8>)
    ensures
        b.finder_info_at() <= 14,
        b.attributes && b.create_date && b.modification_date && b.backup_date ==> b.finder_info_at() == 14,
        !b.attributes ==> b.finder_info_at() % 4 == 0,
        b.attributes ==> b.finder_info_at() % 4 == 2,
        !b.create_date && !b.modification_date && !b.backup_date ==> b.finder_info_at() <= 2,
        b.create_date && !b.modification_date && !b.backup_date ==> 4 <= b.finder_info_at() <= 6,
        !b.create_date && b.modification_date && !b.backup_date ==> 4 <= b.finder_info_at() <= 6,
        !b.create_date && !b.modification_date && b.backup_date ==> 4 <= b.finder_info_at() <= 6,
        b.fits(data) && b.finder_info ==> data.len() >= b.finder_info_at() + 32,
        b.fits(data) && b.attributes ==> data.len() >= 2,
        data.len() >= 46 ==> b.fits(data),
{
}

/// After a move the new path leads to what was moved, and the old one no longer
/// does; while nothing follows, every other path leads where it led.
pub proof fn law_move_changes_two_paths(m: VolumeModel, src: u32, dst: u32, new_path: PathView, name: Seq<char>, t: Seq<char>)
    ensures
        ({
            let after = moved_itself(m, src, dst, new_path, name);
            let old_text = text_of(m.nodes[src as u64].path);
            &&& after.at(new_path) == Some(src)
            &&& old_text != text_of(new_path) ==> !after.paths.contains_key(old_text)
            &&& t != old_text && t != text_of(new_path) ==> after.paths.contains_key(t) == m.paths.contains_key(t)
            &&& t != old_text && t != text_of(new_path) && m.paths.contains_key(t) ==> after.paths[t] == m.paths[t]
        }),
        forall|id: u64| id != src ==> #[trigger] moved_itself(m, src, dst, new_path, name).nodes.contains_key(id)
            == m.nodes.contains_key(id) && (m.nodes.contains_key(id) ==> moved_itself(m, src, dst, new_path, name).nodes[id]
            == m.nodes[id]),
{
}

/// What a move reports of a directory are the paths of what follows, each with the
/// new one: every node below is there with its old path and its new one, and each
/// old path lies below the directory.
pub proof fn law_followers_are_reported(
    m: VolumeModel,
    ids: Seq<u64>,
    src: u32,
    old_path: PathView,
    new_path: PathView,
    n: nat,
    i: int,
)
    requires
        0 <= i < n <= ids.len(),
        forall|a: int, b: int| 0 <= a < b < ids.len() ==> #[trigger] ids[a] != #[trigger] ids[b],
        m.nodes.contains_key(ids[i]),
    ensures
        ids[i] != src && is_below(m.nodes[ids[i]].path, old_path) ==> follow_list(m, ids, src, old_path, new_path, n).contains(
            (
                m.nodes[ids[i]].path,
                followed(m, ids, src, old_path, new_path, n).nodes[ids[i]].path,
            ),
        ),
        forall|k: int|
            0 <= k < follow_list(m, ids, src, old_path, new_path, n).len() ==> is_below(
                (#[trigger] follow_list(m, ids, src, old_path, new_path, n)[k]).0,
                old_path,
            ) && follow_list(m, ids, src, old_path, new_path, n)[k].1 == rebased(
                follow_list(m, ids, src, old_path, new_path, n)[k].0,
                old_path,
                new_path,
            ),
    decreases n,
{
    lemma_follow_list_below(m, ids, src, old_path, new_path, n);
    let id = ids[i];
    lemma_followed(m, ids, src, old_path, new_path, n, id);
    lemma_followed(m, ids, src, old_path, new_path, (n - 1) as nat, id);
    let list = follow_list(m, ids, src, old_path, new_path, n);
    let earlier = follow_list(m, ids, src, old_path, new_path, (n - 1) as nat);
    if id != src && is_below(m.nodes[id].path, old_path) {
        assert(ids.take(n as int)[i] == id);
        assert(ids.take(n as int).contains(id));
        let pair = (m.nodes[id].path, rebased(m.nodes[id].path, old_path, new_path));
        if i < n - 1 {
            law_followers_are_reported(m, ids, src, old_path, new_path, (n - 1) as nat, i);
            assert(ids.take(n - 1)[i] == id);
            assert(ids.take(n - 1).contains(id));
            let k = choose|k: int| 0 <= k < earlier.len() && earlier[k] == pair;
            assert(list[k] == pair);
        } else {
            assert(!ids.take(n - 1).contains(id)) by {
                if ids.take(n - 1).contains(id) {
                    let front = ids.take(n - 1);
                    let k = choose|k: int| 0 <= k < front.len() && front[k] == id;
                    assert(ids[k] != ids[i]);
                }
            }
            assert(list.last() == pair);
        }
    }
}

proof fn lemma_follow_list_below(m: VolumeModel, ids: Seq<u64>, src: u32, old_path: PathView, new_path: PathView, n: nat)
    ensures
        forall|k: int|
            0 <= k < follow_list(m, ids, src, old_path, new_path, n).len() ==> is_below(
                (#[trigger] follow_list(m, ids, src, old_path, new_path, n)[k]).0,
                old_path,
            ) && follow_list(m, ids, src, old_path, new_path, n)[k].1 == rebased(
                follow_list(m, ids, src, old_path, new_path, n)[k].0,
                old_path,
                new_path,
            ),
    decreases n,
{
    if n > 0 {
        lemma_follow_list_below(m, ids, src, old_path, new_path, (n - 1) as nat);
        let earlier = follow_list(m, ids, src, old_path, new_path, (n - 1) as nat);
        let list = follow_list(m, ids, src, old_path, new_path, n);
        assert forall|k: int| 0 <= k < list.len() implies is_below((#[trigger] list[k]).0, old_path) && list[k].1 == rebased(
            list[k].0,
            old_path,
            new_path,
        ) by {
            if k < earlier.len() {
                assert(list[k] == earlier[k]);
            }
        }
    }
}

/// Below number one there is nothing but the volume, under its own name.
pub proof fn law_only_the_volume_is_above(m: VolumeModel, path: Seq<char>)
    requires
        exists|k: int| 0 <= k < path.len() && path[k] != '\0',
    ensures
        m.resolve(1, path) == if parsed(path) == parsed(m.name) {
            Some(2u32)
        } else {
            None
        },
{
}

/// A path leads to the number that is kept for its text.
pub proof fn law_paths_lead_by_their_text(m: VolumeModel, p: PathView)
    ensures
        m.at(p) is Some <==> m.paths.contains_key(text_of(p)),
        m.at(p) matches Some(id) ==> id == m.paths[text_of(p)],
{
}

/// The parameters of a node are told of the node that its path leads to.
pub proof fn law_parms_are_of_the_path(m: VolumeModel, id: u32)
    ensures
        !m.nodes.contains_key(id as u64) ==> m.parms_of(id) is None,
        m.nodes.contains_key(id as u64) && m.paths.contains_key(text_of(m.nodes[id as u64].path)) ==> m.parms_of(id) == Some(
            m.paths[text_of(m.nodes[id as u64].path)],
        ),
        m.nodes.contains_key(id as u64) && !m.paths.contains_key(text_of(m.nodes[id as u64].path)) ==> m.parms_of(id) is None,
{
}

/// A reference number is of a fork where it is known and its node is there; the
/// fork is open where its node says so.
pub proof fn law_forks_are_known_by_number(m: VolumeModel, fork_id: u16)
    ensures
        m.has_fork(fork_id) <==> m.forks.contains_key(fork_id as u64) && m.nodes.contains_key(
            m.forks[fork_id as u64].0 as u64,
        ),
        m.forks[fork_id as u64].1 == ForkType::Data ==> m.fork_is_open(fork_id)
            == m.nodes[m.forks[fork_id as u64].0 as u64].data_open,
        m.forks[fork_id as u64].1 == ForkType::Resource ==> m.fork_is_open(fork_id)
            == m.nodes[m.forks[fork_id as u64].0 as u64].rsrc_open,
{
}

/// A range ends behind its last byte, or at the largest number.
pub proof fn law_ranges_end_behind_their_bytes(r: LockedRange)
    ensures
        r.0 + r.1 <= 0xFFFF_FFFF_FFFF_FFFFu64 ==> range_end(r) == r.0 + r.1,
        r.0 + r.1 > 0xFFFF_FFFF_FFFF_FFFFu64 ==> range_end(r) == 0xFFFF_FFFF_FFFF_FFFFu64,
{
}

/// What is deleted is no longer there, under its number or its path; all other
/// nodes and paths stay, and no number is given back.
pub proof fn law_deletion_takes_one(m: VolumeModel, id: u32, other: u64, t: Seq<char>)
    requires
        other != id,
        t != text_of(m.nodes[id as u64].path),
    ensures
        ({
            let after = m.deleted(id);
            &&& !after.nodes.contains_key(id as u64)
            &&& !after.paths.contains_key(text_of(m.nodes[id as u64].path))
            &&& after.nodes.contains_key(other) == m.nodes.contains_key(other)
            &&& m.nodes.contains_key(other) ==> after.nodes[other] == m.nodes[other]
            &&& after.paths.contains_key(t) == m.paths.contains_key(t)
            &&& m.paths.contains_key(t) ==> after.paths[t] == m.paths[t]
            &&& after.next_id == m.next_id && after.forks == m.forks && after.locks == m.locks && after.desktop == m.desktop
        }),
{
}

/// A node is known by what its fields hold.
pub proof fn law_node_is_its_fields(n: Node, e: DirEntry)
    ensures
        n@.id == n.id,
        n@.parent_id == n.parent_id,
        n@.name == n.name@,
        n@.is_dir == n.is_dir,
        n@.path == n.path@,
        n@.data_open == n.data_open,
        n@.rsrc_open == n.rsrc_open,
        e@.name == e.name@,
        e@.is_dir == e.is_dir,
{
}

/// A volume is known by what its tables hold.
pub proof fn law_volume_is_its_tables(v: Volume, id: u64)
    ensures
        v@.name == v.name@,
        v@.created_at == v.created_at,
        v@.volume_id == v.volume_id,
        v@.next_id == v.next_id,
        v@.next_fork_ref == v.next_fork_ref,
        v@.desktop == v.desktop,
        v@.paths == v.paths@,
        v@.forks == v.forks@,
        v@.nodes.contains_key(id) == v.nodes@.contains_key(id),
        v.nodes@.contains_key(id) ==> v@.nodes[id] == v.nodes@[id]@,
        v@.locks.contains_key(id) == v.locks@.contains_key(id),
        v.locks@.contains_key(id) ==> v@.locks[id] == v.locks@[id]@,
{
}

/// The server's own entries get no number.
pub proof fn law_own_entries_get_no_number(m: VolumeModel, dir_id: u32, dir_path: PathView, entries: Seq<EntryView>, n: nat)
    requires
        0 < n <= entries.len(),
        entries[n - 1].name == ".tailtalk"@ || entries[n - 1].name == ".AppleDesktop"@,
    ensures
        m.populated(dir_id, dir_path, entries, n) == m.populated(dir_id, dir_path, entries, (n - 1) as nat),
        m.walked(dir_id, dir_path, entries, n) == m.walked(dir_id, dir_path, entries, (n - 1) as nat),
        visible(entries, n) == visible(entries, (n - 1) as nat),
        walked_dirs(m.next_id, dir_path, entries, n) == walked_dirs(m.next_id, dir_path, entries, (n - 1) as nat),
{
}

/// Entries are seen in the order in which they are listed.
pub proof fn law_entries_are_seen_in_order(entries: Seq<EntryView>, n: nat)
    requires
        0 < n <= entries.len(),
        entries[n - 1].name != ".tailtalk"@,
        entries[n - 1].name != ".AppleDesktop"@,
    ensures
        visible(entries, n) == visible(entries, (n - 1) as nat).push(entries[n - 1]),
{
}

/// A name that is given is taken, and an empty one leaves the name as it is.
pub proof fn law_empty_name_keeps_the_name(new_name: Seq<char>, name: Seq<char>)
    ensures
        new_name.len() > 0 ==> name_after(new_name, name) == new_name,
        new_name.len() == 0 ==> name_after(new_name, name) == name,
{
}

/// Each of the two forks of a node is open on its own.
pub proof fn law_forks_are_open_on_their_own(n: NodeView)
    ensures
        n.is_open(ForkType::Data) == n.data_open,
        n.is_open(ForkType::Resource) == n.rsrc_open,
{
}

/// Pairs of paths, and places of a walk, are told as they are.
pub proof fn law_lists_of_paths_are_told(pairs: Seq<(FsPath, FsPath)>, stack: Seq<(FsPath, u32)>, list: Seq<DirEntry>, i: int)
    ensures
        pairs_of(pairs).len() == pairs.len(),
        0 <= i < pairs.len() ==> pairs_of(pairs)[i].0 == pairs[i].0@ && pairs_of(pairs)[i].1 == pairs[i].1@,
        stack_of(stack).len() == stack.len(),
        0 <= i < stack.len() ==> stack_of(stack)[i].0 == stack[i].0@ && stack_of(stack)[i].1 == stack[i].1,
        entries_of(list).len() == list.len(),
        0 <= i < list.len() ==> entries_of(list)[i].name == list[i].name@ && entries_of(list)[i].is_dir == list[i].is_dir,
{
}

} // verus!
