use std::collections::BTreeMap;
use tailtalk::afp::desktop::{comment_key, copy_comment, found_or_missing, move_comment, Change};
use tailtalk::afp::enumerate::{plan_enumerate, EnumerateRequest, Enumeration};
use tailtalk::afp::parms::{DirBitmap, DirFacts, FileBitmap, FileFacts, VolumeBitmap, VOLUME_BYTES};
use tailtalk::afp::path::{resolve_resource_fork_path, rsrc_path, FsPath};
use tailtalk::afp::volume::{
    check_emptied, is_hidden, read, CreateFlag, DirEntry, LockRequest, MovePlan, SetBitmap, Volume, Walk, PARENT_OF_ROOT, ROOT,
};
use tailtalk::afp::{AfpError, ForkType};

/// A volume on a file system that is a map: directories have no contents.
struct Mounted {
    volume: Volume,
    files: BTreeMap<String, Option<Vec<u8>>>,
    comments: BTreeMap<Vec<u8>, Vec<u8>>,
}

const NO_FILE_PARMS: FileBitmap = FileBitmap {
    bits: 0,
    attributes: false,
    parent_dir_id: false,
    create_date: false,
    modification_date: false,
    backup_date: false,
    finder_info: false,
    long_name: false,
    file_number: false,
    data_fork_length: false,
    resource_fork_length: false,
    prodos_info: false,
};

const NO_DIR_PARMS: DirBitmap = DirBitmap {
    bits: 0,
    attributes: false,
    parent_dir_id: false,
    create_date: false,
    modification_date: false,
    backup_date: false,
    finder_info: false,
    long_name: false,
    dir_id: false,
    offspring_count: false,
    owner_id: false,
    group_id: false,
    access_rights: false,
};

fn file_facts(data_len: u64, rsrc_len: u32, finder_info: [u8; 32]) -> FileFacts {
    FileFacts { flags: 0, created: 0, modified: 0, finder_info, data_len, rsrc_len }
}

fn dir_facts(finder_info: [u8; 32], offspring: u16) -> DirFacts {
    DirFacts { flags: 0, created_at: 7, modified_at: 9, finder_info, offspring }
}

impl Mounted {
    fn new(paths: &[&str]) -> Mounted {
        let mut files = BTreeMap::new();
        for path in paths {
            match path.strip_suffix('/') {
                Some(dir) => files.insert(dir.to_string(), None),
                None => files.insert(path.to_string(), Some(vec![])),
            };
        }
        let volume = Volume::new("TestVol".to_string(), FsPath::from_text("/srv/share"), 1, 1234);
        Mounted { volume, files, comments: BTreeMap::new() }
    }

    fn listing(&self, dir: &str) -> Vec<DirEntry> {
        let prefix = if dir.is_empty() { String::new() } else { format!("{}/", dir) };
        self.files
            .iter()
            .filter_map(|(path, contents)| {
                let name = path.strip_prefix(&prefix)?;
                if name.is_empty() || name.contains('/') {
                    return None;
                }
                Some(DirEntry { name: name.to_string(), is_dir: contents.is_none() })
            })
            .collect()
    }

    fn path_of(&self, id: u32) -> String {
        self.volume.get_node_path(id).unwrap().text()
    }

    fn resolve(&mut self, dir: u32, path: &str) -> Result<u32, AfpError> {
        let listing = self.volume.get_node_path(dir).map(|p| self.listing(&p.text()));
        self.volume.resolve_node_lazy(dir, path, listing.as_deref())
    }

    fn walk(&mut self) {
        let mut walk = Walk::walk_dir(&self.volume, &FsPath::empty());
        while let Some((path, id)) = walk.next_dir() {
            let listing = self.listing(&path.text());
            walk.entries(&mut self.volume, &path, id, &listing);
        }
    }

    fn create_dir(&mut self, dir: u32, path: &str) -> Result<u32, AfpError> {
        let on_disk = self.volume.plan_create_dir(dir, path)?;
        self.files.insert(on_disk.text(), None);
        self.volume.create_dir(dir, path)
    }

    fn create_file(&mut self, flag: CreateFlag, dir: u32, path: &str) -> Result<u32, AfpError> {
        let there = self.files.contains_key(path);
        let plan = self.volume.plan_create_file(flag, dir, path, there)?;
        self.files.insert(plan.path.text(), Some(vec![]));
        self.volume.create_file(dir, path)
    }

    fn open_fork(&mut self, fork: ForkType, dir: u32, path: &str) -> Result<u16, AfpError> {
        self.resolve(dir, path)?;
        let target = self.volume.plan_open_fork(fork, dir, path)?;
        Ok(self.volume.open_fork(target.id, fork))
    }

    fn enumerate(&mut self, dir: u32, request: EnumerateRequest) -> Result<Vec<u8>, AfpError> {
        let (id, path) = plan_enumerate(&self.volume, dir, "")?;
        let listing = self.listing(&path.text());
        let mut listed = Enumeration::begin(request, id, path, &listing)?;
        while let Some(entry) = listed.next(&mut self.volume) {
            let parms = if entry.is_dir {
                let facts = dir_facts([0; 32], 0);
                self.volume.get_directory_parms_resp(request.dir_bitmap, entry.id, Some(facts))
            } else {
                let facts = file_facts(0, 0, [0; 32]);
                self.volume.get_file_parms_resp(request.file_bitmap, entry.id, Some(facts))
            };
            listed.supply(parms.ok());
        }
        Ok(listed.finish())
    }

    fn delete(&mut self, dir: u32, path: &str) -> Result<(), AfpError> {
        let id = self.resolve(dir, path)?;
        let plan = self.volume.plan_delete(id)?;
        let on_disk = plan.path.text();
        check_emptied(plan.is_dir, !self.listing(&on_disk).is_empty())?;
        self.files.remove(&on_disk);
        self.comments.remove(&comment_key(&on_disk));
        self.volume.delete(plan.node_id);
        Ok(())
    }

    fn apply(&mut self, changes: Vec<Change>) {
        for change in changes {
            match change {
                Change::Insert { key, value } => self.comments.insert(key, value),
                Change::Remove { key } => self.comments.remove(&key),
            };
        }
    }

    fn move_and_rename(&mut self, src: u32, dst: u32, src_path: &str, dst_path: &str, name: &str) -> Result<(), AfpError> {
        let plan = self.volume.plan_move(src, dst, src_path, dst_path, name)?;
        self.carry_out(plan);
        Ok(())
    }

    fn rename(&mut self, dir: u32, path: &str, name: &str) -> Result<(), AfpError> {
        let plan = self.volume.rename(dir, path, name)?;
        self.carry_out(plan);
        Ok(())
    }

    fn carry_out(&mut self, plan: MovePlan) {
        for (old, new) in self.volume.move_and_rename(plan) {
            let (old, new) = (old.text(), new.text());
            if let Some(contents) = self.files.remove(&old) {
                self.files.insert(new.clone(), contents);
            }
            let found = self.comments.get(&comment_key(&old)).cloned();
            let changes = move_comment(found, &old, &new);
            self.apply(changes);
        }
    }

    fn copy_file(&mut self, src: u32, src_path: &str, dst: u32, dst_path: &str, name: &str) -> Result<u32, AfpError> {
        let plan = self.volume.plan_copy(src, src_path, dst, dst_path, name)?;
        let contents = self.files[&plan.src_path.text()].clone();
        self.files.insert(plan.new_path.text(), contents);
        let found = self.comments.get(&comment_key(&plan.src_path.text())).cloned();
        if let Some(change) = copy_comment(found, &plan.new_path.text()) {
            self.apply(vec![change]);
        }
        Ok(self.volume.copy_file(plan))
    }

    fn set_comment(&mut self, dir: u32, path: &str, comment: &[u8]) -> Result<(), AfpError> {
        let target = self.volume.comment_target(dir, path)?;
        self.comments.insert(comment_key(&target.text()), comment.to_vec());
        Ok(())
    }

    fn get_comment(&self, dir: u32, path: &str) -> Result<Vec<u8>, AfpError> {
        let target = self.volume.comment_target(dir, path)?;
        found_or_missing(self.comments.get(&comment_key(&target.text())).cloned())
    }
}

fn names_and_numbers(max_reply_size: u16) -> EnumerateRequest {
    EnumerateRequest {
        file_bitmap: FileBitmap { long_name: true, file_number: true, ..NO_FILE_PARMS },
        dir_bitmap: DirBitmap { long_name: true, dir_id: true, ..NO_DIR_PARMS },
        start_index: 1,
        req_count: 100,
        max_reply_size,
    }
}

fn count(reply: &[u8]) -> u16 {
    u16::from_be_bytes([reply[0], reply[1]])
}

#[test]
fn test_enumerate_volume_root() {
    let mut m = Mounted::new(&["file1.txt", "file2.txt"]);
    let reply = m.enumerate(ROOT, EnumerateRequest { req_count: 69, ..names_and_numbers(1024) }).unwrap();
    assert_eq!(count(&reply), 2, "Should have found 2 files");
}

#[test]
fn test_enumerate_respects_max_reply_size() {
    let names: Vec<String> = (0..10).map(|i| format!("file_{}.txt", i)).collect();
    let paths: Vec<&str> = names.iter().map(|n| n.as_str()).collect();
    let mut m = Mounted::new(&paths);
    let bitmap = FileBitmap { long_name: true, file_number: true, ..NO_FILE_PARMS };
    assert_eq!(bitmap.long_name_offset(), 6);
    assert_eq!(bitmap.response_len(10), 17);
    let reply = m.enumerate(ROOT, names_and_numbers(55)).unwrap();
    assert!(reply.len() <= 55, "enumerate wrote {} bytes but max_reply_size is 55", reply.len());
    assert_eq!(reply.len(), 42);
    assert_eq!(count(&reply), 2, "expected exactly 2 entries to fit in 55 bytes");
}

#[test]
fn enumerate_pages_join() {
    let mut m = Mounted::new(&["b", "a", "D/", "c", ".tailtalk/", ".AppleDesktop/"]);
    let whole = m.enumerate(ROOT, names_and_numbers(2048)).unwrap();
    assert_eq!(count(&whole), 4);
    let first = m.enumerate(ROOT, EnumerateRequest { req_count: 3, ..names_and_numbers(2048) }).unwrap();
    let second = m.enumerate(ROOT, EnumerateRequest { start_index: 4, ..names_and_numbers(2048) }).unwrap();
    assert_eq!([&first[2..], &second[2..]].concat(), &whole[2..]);
    let past = m.enumerate(ROOT, EnumerateRequest { start_index: 9, ..names_and_numbers(2048) }).unwrap();
    assert_eq!(past, vec![0, 0]);
}

#[test]
fn test_open_fork_and_write() {
    let mut m = Mounted::new(&["root_file.txt", "subdir/", "subdir/sub_file.txt"]);
    let fork = m.open_fork(ForkType::Data, 2, "root_file.txt").unwrap();
    assert!(fork > 0);
    let id = m.volume.resolve_node(2, "root_file.txt").unwrap();
    assert_eq!(m.volume.plan_write_fork(fork), Ok((id, ForkType::Data)));
    assert_eq!(m.volume.get_fork_parms(fork), Ok(id));
    assert_eq!(m.open_fork(ForkType::Data, 2, "root_file.txt"), Err(AfpError::FileBusy));
    // The other fork is still free.
    let rsrc = m.open_fork(ForkType::Resource, 2, "root_file.txt").unwrap();
    assert_ne!(rsrc, fork);
    m.volume.close_fork(rsrc).unwrap();
    assert_eq!(m.volume.close_fork(fork), Ok((id, ForkType::Data)));
    assert_eq!(m.volume.close_fork(fork), Err(AfpError::ObjectNotFound));
    assert_eq!(m.volume.plan_write_fork(fork), Err(AfpError::AccessDenied));
    assert_eq!(m.volume.plan_read(fork), Err(AfpError::ObjectNotFound));

    let subdir = m.resolve(2, "subdir").unwrap();
    let fork = m.open_fork(ForkType::Data, subdir, "sub_file.txt").unwrap();
    assert!(fork > 0);
    assert!(m.volume.plan_write_fork(fork).is_ok());
    m.volume.close_fork(fork).unwrap();
    assert_eq!(m.open_fork(ForkType::Data, subdir, "none"), Err(AfpError::ObjectNotFound));
}

#[test]
fn test_resource_fork_roundtrip() {
    let mut m = Mounted::new(&["rsrc_test.txt", "subdir/", "subdir/rsrc_sub.txt"]);
    let root = FsPath::from_text("/srv/share");
    let fork = m.open_fork(ForkType::Resource, 2, "rsrc_test.txt").unwrap();
    assert!(matches!(m.volume.plan_write_fork(fork), Ok((_, ForkType::Resource))));
    let rel = FsPath::from_text("rsrc_test.txt");
    assert_eq!(rsrc_path(&root, &rel).text(), "/srv/share/.tailtalk/rsrc/rsrc_test.txt");
    let (path, len) = resolve_resource_fork_path(&root, &rel, false, None, Some(18));
    assert_eq!((path.text().as_str(), len), ("/srv/share/.tailtalk/rsrc/rsrc_test.txt", 18));
    m.volume.close_fork(fork).unwrap();

    let id = m.resolve(2, "rsrc_test.txt").unwrap();
    let bitmap = FileBitmap { resource_fork_length: true, ..NO_FILE_PARMS };
    let parms = m.volume.get_file_parms_resp(bitmap, id, Some(file_facts(0, 18, [0; 32]))).unwrap();
    assert_eq!(parms, vec![0, 0, 0, 18]);

    let subdir = m.resolve(2, "subdir").unwrap();
    let fork = m.open_fork(ForkType::Resource, subdir, "rsrc_sub.txt").unwrap();
    m.volume.close_fork(fork).unwrap();
    assert_eq!(
        rsrc_path(&root, &FsPath::from_text("subdir/rsrc_sub.txt")).text(),
        "/srv/share/.tailtalk/rsrc/subdir/rsrc_sub.txt"
    );
    m.delete(2, "rsrc_test.txt").unwrap();
    assert!(!m.files.contains_key("rsrc_test.txt"));
}

#[test]
fn test_resource_fork_falls_back_to_macos_named_fork() {
    let root = FsPath::from_text("/srv/share");
    let rel = FsPath::from_text("MacApp");
    // An empty sidecar does not shadow the native fork.
    let (path, len) = resolve_resource_fork_path(&root, &rel, true, Some(37), Some(0));
    assert_eq!((path.text().as_str(), len), ("/srv/share/MacApp/..namedfork/rsrc", 37));
    let (path, len) = resolve_resource_fork_path(&root, &rel, true, Some(0), Some(5));
    assert_eq!((path.text().as_str(), len), ("/srv/share/.tailtalk/rsrc/MacApp", 5));
    let (path, len) = resolve_resource_fork_path(&root, &rel, true, None, None);
    assert_eq!((path.text().as_str(), len), ("/srv/share/MacApp/..namedfork/rsrc", 0));
    let (path, len) = resolve_resource_fork_path(&root, &rel, false, Some(37), None);
    assert_eq!((path.text().as_str(), len), ("/srv/share/.tailtalk/rsrc/MacApp", 0));
}

#[test]
fn test_resolve_node_identity() {
    let m = Mounted::new(&[]);
    assert_eq!(m.volume.resolve_node(1, "").unwrap(), 1);
    assert_eq!(m.volume.resolve_node(1, "\0").unwrap(), 1);
    assert_eq!(m.volume.resolve_node(1, "TestVol").unwrap(), 2);
    assert_eq!(m.volume.resolve_node(2, "").unwrap(), 2);
    assert_eq!(m.volume.resolve_node(0, ""), m.volume.resolve_node(2, ""));
    assert_eq!(m.volume.resolve_node(1, "OtherVol"), Err(AfpError::ObjectNotFound));
    assert_eq!(m.volume.resolve_node(77, ""), Err(AfpError::ObjectNotFound));
}

#[test]
fn test_resolve_subdir() {
    let mut m = Mounted::new(&["subdir/"]);
    let subdir = m.resolve(2, "subdir").unwrap();
    assert!(subdir >= 3, "subdir should have a real node ID");
    assert_eq!(m.volume.resolve_node(subdir, "").unwrap(), subdir);
    assert_eq!(m.volume.resolve_node(subdir, "\0").unwrap(), subdir);
}

#[test]
fn test_enumerate_subdirectory() {
    let mut m = Mounted::new(&["subdir/", "subdir/a.txt", "subdir/b.txt", "subdir/c.txt"]);
    let subdir = m.resolve(2, "subdir").unwrap();
    let reply = m.enumerate(subdir, names_and_numbers(2048)).unwrap();
    assert_eq!(count(&reply), 3, "should enumerate 3 files inside subdir");
    let zero = EnumerateRequest { start_index: 0, ..names_and_numbers(2048) };
    assert_eq!(
        m.enumerate(subdir, zero),
        Err(AfpError::ObjectNotFound),
        "start_index=0 should return ObjectNotFound"
    );
    let file = m.volume.resolve_node(subdir, "a.txt").unwrap();
    assert_eq!(m.enumerate(file, names_and_numbers(2048)), Err(AfpError::ObjectTypeErr));
}

#[test]
fn test_finder_info_roundtrip() {
    let mut m = Mounted::new(&["mydir/"]);
    let id = m.resolve(2, "mydir").unwrap();
    let mut finder_info = [0u8; 32];
    finder_info[0..4].copy_from_slice(b"TEST");
    finder_info[28..32].copy_from_slice(b"TAIL");
    assert_eq!(m.volume.plan_set_node_parms(id), Ok(true));
    let set = SetBitmap {
        attributes: false,
        create_date: false,
        modification_date: false,
        backup_date: false,
        finder_info: true,
    };
    let parms = set.read(&finder_info);
    assert_eq!(parms.attributes, None);
    let stored: [u8; 32] = parms.finder_info.unwrap().try_into().unwrap();
    let target = m.volume.plan_node_parms(id).unwrap();
    assert!(target.is_dir);
    let bitmap = DirBitmap { finder_info: true, ..NO_DIR_PARMS };
    let out = m.volume.get_directory_parms_resp(bitmap, target.id, Some(dir_facts(stored, 0))).unwrap();
    assert_eq!(out, finder_info, "finder info roundtrip mismatch");
}

#[test]
fn parameters_to_set_stand_in_order() {
    let all = SetBitmap {
        attributes: true,
        create_date: true,
        modification_date: true,
        backup_date: true,
        finder_info: true,
    };
    let mut data = vec![0x80, 0x01];
    data.extend_from_slice(&[0xEE; 12]);
    data.extend_from_slice(&[0x55; 32]);
    assert!(all.holds(&data));
    assert!(!all.holds(&data[..45]));
    let parms = all.read(&data);
    assert_eq!(parms.attributes, Some(0x8001));
    assert_eq!(parms.finder_info, Some(vec![0x55; 32]));
}

#[test]
fn test_delete_file() {
    let mut m = Mounted::new(&["todelete.txt"]);
    m.delete(2, "todelete.txt").unwrap();
    assert!(!m.files.contains_key("todelete.txt"), "file should be gone from disk");
    assert!(m.volume.resolve_node(2, "todelete.txt").is_err(), "node should be removed from volume index");
}

#[test]
fn test_delete_nonempty_dir_fails() {
    let mut m = Mounted::new(&["notempty/", "notempty/occupant.txt"]);
    assert_eq!(m.delete(2, "notempty"), Err(AfpError::DirNotEmpty));
    assert!(m.files.contains_key("notempty/occupant.txt"));
    assert!(m.volume.resolve_node(2, "notempty").is_ok());
}

#[test]
fn only_full_directories_are_kept() {
    assert_eq!(check_emptied(true, true), Err(AfpError::DirNotEmpty));
    assert_eq!(check_emptied(true, false), Ok(()));
    assert_eq!(check_emptied(false, true), Ok(()));
    let mut m = Mounted::new(&["empty/"]);
    assert_eq!(m.delete(2, "empty"), Ok(()));
}

#[test]
fn open_files_and_the_root_are_not_deleted() {
    let mut m = Mounted::new(&["busy.txt"]);
    let fork = m.open_fork(ForkType::Data, 2, "busy.txt").unwrap();
    assert_eq!(m.delete(2, "busy.txt"), Err(AfpError::FileBusy));
    m.volume.close_fork(fork).unwrap();
    assert_eq!(m.delete(2, "busy.txt"), Ok(()));
    assert_eq!(m.delete(2, ""), Err(AfpError::AccessDenied));
    assert!(matches!(m.volume.plan_delete(99), Err(AfpError::ObjectNotFound)));
}

#[test]
fn test_file_backup_date_is_sentinel() {
    let mut m = Mounted::new(&["test.txt"]);
    let id = m.resolve(2, "test.txt").unwrap();
    let target = m.volume.plan_node_parms(id).unwrap();
    assert!(!target.is_dir);
    let bitmap = FileBitmap { backup_date: true, ..NO_FILE_PARMS };
    let out = m.volume.get_file_parms_resp(bitmap, id, Some(file_facts(0, 0, [0; 32]))).unwrap();
    assert_eq!(out, vec![0, 0, 0, 0], "backup date should be zero (never backed up)");
}

#[test]
fn test_finder_info_roundtrip_file() {
    let mut m = Mounted::new(&["test.txt"]);
    let id = m.resolve(2, "test.txt").unwrap();
    let mut finder_info = [0u8; 32];
    finder_info[0..4].copy_from_slice(b"TEXT");
    finder_info[4..8].copy_from_slice(b"ttxt");
    let bitmap = FileBitmap { finder_info: true, ..NO_FILE_PARMS };
    let out = m.volume.get_file_parms_resp(bitmap, id, Some(file_facts(0, 0, finder_info))).unwrap();
    assert_eq!(out, finder_info, "finder info roundtrip failed for file");
    assert_eq!(m.volume.get_file_parms_resp(bitmap, id, None), Err(AfpError::ObjectNotFound));
}

#[test]
fn test_delete_empty_dir() {
    let mut m = Mounted::new(&["emptydir/"]);
    m.delete(2, "emptydir").unwrap();
    assert!(!m.files.contains_key("emptydir"), "dir should be gone from disk");
    assert!(m.volume.resolve_node(2, "emptydir").is_err(), "node should be removed from volume index");
}

#[test]
fn test_trash_folder_lifecycle() {
    let mut m = Mounted::new(&[]);
    let trash = m.create_dir(2, "Network Trash Folder").unwrap();
    assert!(trash >= 3, "should receive a real DID");
    let can = m.create_dir(trash, "Trash Can #2").unwrap();
    assert!(can > trash, "child DID must be greater than parent DID");

    let bitmap = DirBitmap { parent_dir_id: true, dir_id: true, ..NO_DIR_PARMS };
    for (id, parent) in [(trash, 2), (can, trash)] {
        let target = m.volume.plan_node_parms(id).unwrap();
        assert!(target.is_dir);
        let out = m.volume.get_directory_parms_resp(bitmap, id, Some(dir_facts([0; 32], 0))).unwrap();
        assert_eq!(out.len(), 8);
        assert_eq!(u32::from_be_bytes([out[0], out[1], out[2], out[3]]), parent);
        assert_eq!(u32::from_be_bytes([out[4], out[5], out[6], out[7]]), id);
    }

    let reply = m.enumerate(trash, names_and_numbers(2048)).unwrap();
    assert_eq!(count(&reply), 1, "Network Trash Folder should contain exactly Trash Can #2");

    m.delete(trash, "Trash Can #2").unwrap();
    assert!(!m.files.contains_key("Network Trash Folder/Trash Can #2"), "Trash Can #2 must be gone from disk");
    assert_eq!(
        m.enumerate(trash, names_and_numbers(2048)),
        Err(AfpError::ObjectNotFound),
        "empty directory enumeration should return ObjectNotFound"
    );
    assert!(matches!(m.volume.plan_node_parms(can), Err(AfpError::ObjectNotFound)));
    assert!(m.volume.resolve_node(trash, "Trash Can #2").is_err(), "deleted dir must not resolve by name");
}

#[test]
fn test_comment_set_get_remove() {
    let mut m = Mounted::new(&["readme.txt"]);
    m.walk();
    assert_eq!(m.set_comment(2, "readme.txt", b"early"), Err(AfpError::AccessDenied));
    assert_eq!(m.volume.open_dt(), (1, true));
    assert_eq!(m.volume.open_dt(), (1, false));
    assert_eq!(m.volume.check_dt(1), Ok(()));
    assert_eq!(m.volume.check_dt(2), Err(AfpError::ItemNotFound));
    m.set_comment(2, "readme.txt", b"hello comment").unwrap();
    assert_eq!(m.get_comment(2, "readme.txt").unwrap(), b"hello comment");
    let target = m.volume.comment_target(2, "readme.txt").unwrap();
    m.comments.remove(&comment_key(&target.text()));
    assert_eq!(m.get_comment(2, "readme.txt"), Err(AfpError::ItemNotFound));
}

#[test]
fn test_comment_survives_volume_restart() {
    let mut m = Mounted::new(&["persist.txt"]);
    m.walk();
    m.volume.open_dt();
    m.set_comment(2, "persist.txt", b"survives restart").unwrap();
    m.volume = Volume::new("TestVol".to_string(), FsPath::from_text("/srv/share"), 1, 1234);
    m.volume.open_dt();
    m.walk();
    assert_eq!(m.get_comment(2, "persist.txt").unwrap(), b"survives restart");
}

#[test]
fn test_comment_follows_rename() {
    let mut m = Mounted::new(&["before.txt"]);
    m.volume.open_dt();
    m.walk();
    m.set_comment(2, "before.txt", b"my comment").unwrap();
    m.rename(2, "before.txt", "after.txt").unwrap();
    assert_eq!(m.get_comment(2, "after.txt").unwrap(), b"my comment");
    assert_eq!(m.get_comment(2, "before.txt"), Err(AfpError::ObjectNotFound));
}

#[test]
fn renamed_files_stay_in_their_directory() {
    let mut m = Mounted::new(&["d/", "d/a", "d/b"]);
    m.walk();
    let a = m.volume.resolve_node(2, "d/a").unwrap();
    assert_eq!(m.rename(2, "d/a", "b"), Err(AfpError::ObjectExists));
    m.rename(2, "d/a", "c").unwrap();
    assert_eq!(m.path_of(a), "d/c");
    assert_eq!(m.rename(2, "d/a", "x"), Err(AfpError::ObjectNotFound));
    assert_eq!(m.rename(2, "", "x"), Err(AfpError::AccessDenied));
}

#[test]
fn files_in_unknown_directories_are_renamed_there() {
    let mut v = Volume::new("TestVol".to_string(), FsPath::from_text("/vol"), 1, 0);
    let id = v.create_file(2, "a/b").unwrap();
    let plan = v.rename(2, "a/b", "c").unwrap();
    assert_eq!(plan.new_path.text(), "a/c");
    v.move_and_rename(plan);
    assert_eq!(v.resolve_node(2, "a/c"), Ok(id));
    assert_eq!(v.resolve_node(2, "a/b"), Err(AfpError::ObjectNotFound));
}

#[test]
fn test_comment_follows_move() {
    let mut m = Mounted::new(&["src_dir/", "dst_dir/", "src_dir/file.txt"]);
    m.volume.open_dt();
    m.walk();
    let src = m.volume.resolve_node(2, "src_dir").unwrap();
    let dst = m.volume.resolve_node(2, "dst_dir").unwrap();
    m.set_comment(src, "file.txt", b"moved comment").unwrap();
    m.move_and_rename(src, dst, "file.txt", "", "").unwrap();
    assert_eq!(m.get_comment(dst, "file.txt").unwrap(), b"moved comment");
    assert_eq!(m.get_comment(src, "file.txt"), Err(AfpError::ObjectNotFound));
}

#[test]
fn test_comment_copied_with_file() {
    let mut m = Mounted::new(&["dst_dir/", "original.txt"]);
    m.volume.open_dt();
    m.walk();
    let dst = m.volume.resolve_node(2, "dst_dir").unwrap();
    m.set_comment(2, "original.txt", b"copied comment").unwrap();
    m.copy_file(2, "original.txt", dst, "", "copy.txt").unwrap();
    assert_eq!(m.get_comment(2, "original.txt").unwrap(), b"copied comment");
    assert_eq!(m.get_comment(dst, "copy.txt").unwrap(), b"copied comment");
    assert_eq!(m.copy_file(2, "original.txt", dst, "", "copy.txt"), Err(AfpError::ObjectExists));
    assert_eq!(m.copy_file(2, "dst_dir", 2, "", "x"), Err(AfpError::ObjectTypeErr));
    assert_eq!(m.copy_file(2, "original.txt", 2, "original.txt", "x"), Err(AfpError::ObjectTypeErr));
    assert_eq!(m.copy_file(2, "missing", 2, "", "x"), Err(AfpError::ObjectNotFound));
}

#[test]
fn test_comment_removed_on_delete() {
    let mut m = Mounted::new(&["doomed.txt"]);
    m.volume.open_dt();
    m.walk();
    m.set_comment(2, "doomed.txt", b"goodbye").unwrap();
    m.delete(2, "doomed.txt").unwrap();
    assert_eq!(
        found_or_missing(m.comments.get(&comment_key("doomed.txt")).cloned()),
        Err(AfpError::ItemNotFound),
        "comment should have been deleted with the file"
    );
}

#[test]
fn subtrees_follow_their_directory() {
    let mut m = Mounted::new(&["a/", "a/b/", "a/b/f", "ab/", "ab/g", "dst/"]);
    m.walk();
    let a = m.volume.resolve_node(2, "a").unwrap();
    let b = m.volume.resolve_node(a, "b").unwrap();
    let f = m.volume.resolve_node(b, "f").unwrap();
    m.move_and_rename(2, 2, "a", "dst", "z").unwrap();
    assert_eq!(m.path_of(a), "dst/z");
    assert_eq!(m.path_of(b), "dst/z/b");
    assert_eq!(m.path_of(f), "dst/z/b/f");
    assert_eq!(m.volume.resolve_node(b, "f"), Ok(f));
    assert!(m.files.contains_key("dst/z/b/f"));
    // A name that merely starts the same stays.
    assert!(m.volume.resolve_node(2, "ab/g").is_ok());
    assert_eq!(m.volume.resolve_node(2, "a/b/f"), Err(AfpError::ObjectNotFound));
    assert_eq!(m.move_and_rename(2, 2, "ab", "", "dst"), Err(AfpError::ObjectExists));
    assert_eq!(m.move_and_rename(2, f, "ab", "", ""), Err(AfpError::ObjectTypeErr));
    assert_eq!(m.move_and_rename(1, 2, "TestVol", "", "x"), Err(AfpError::AccessDenied));
}

#[test]
fn files_are_created_soft_or_hard() {
    let mut m = Mounted::new(&[]);
    let id = m.create_file(CreateFlag::Soft, 2, "new.txt").unwrap();
    assert_eq!(m.volume.resolve_node(2, "new.txt"), Ok(id));
    assert_eq!(m.create_file(CreateFlag::Soft, 2, "new.txt"), Err(AfpError::ObjectExists));
    let plan = m.volume.plan_create_file(CreateFlag::Hard, 2, "new.txt", true).unwrap();
    assert!(plan.remove_first);
    assert_eq!(m.create_file(CreateFlag::Soft, 99, "x"), Err(AfpError::ObjectNotFound));
    // A directory that is there already keeps its number.
    let dir = m.create_dir(2, "dir").unwrap();
    assert_eq!(m.create_dir(2, "dir"), Ok(dir));
}

#[test]
fn populating_twice_changes_nothing() {
    let mut m = Mounted::new(&["a", "b/", ".tailtalk/"]);
    let listing = m.listing("");
    m.volume.ensure_dir_populated(2, &listing).unwrap();
    let (a, next) = (m.volume.resolve_node(2, "a"), m.volume.next_id);
    m.volume.ensure_dir_populated(2, &listing).unwrap();
    assert_eq!(m.volume.resolve_node(2, "a"), a);
    assert_eq!(m.volume.next_id, next);
    assert_eq!(m.volume.ensure_dir_populated(99, &listing), Err(AfpError::ObjectNotFound));
    assert_eq!(Volume::count_directory_entries(&listing), 2);
    assert!(is_hidden(".AppleDesktop") && is_hidden(".tailtalk") && !is_hidden("a"));
    assert!(m.volume.plan_directory(2).is_ok());
    let file = a.unwrap();
    assert!(matches!(m.volume.plan_directory(file), Err(AfpError::ObjectTypeErr)));
}

fn lock(fork_id: u16, offset: i32, length: u32) -> LockRequest {
    LockRequest { fork_id, offset, length, from_end: false, unlock: false }
}

#[test]
fn byte_ranges_are_locked_once() {
    let mut m = Mounted::new(&["f"]);
    let fork = m.open_fork(ForkType::Data, 2, "f").unwrap();
    assert_eq!(m.volume.byte_range_lock(lock(fork, 10, 5), 100), Ok(10));
    assert_eq!(m.volume.byte_range_lock(lock(fork, 14, 1), 100), Err(AfpError::RangeOverlap));
    assert_eq!(m.volume.byte_range_lock(lock(fork, 15, 5), 100), Ok(15));
    let end = LockRequest { from_end: true, ..lock(fork, -1, 1) };
    assert_eq!(m.volume.byte_range_lock(end, 100), Ok(99));
    let undo = LockRequest { unlock: true, ..lock(fork, 10, 5) };
    assert_eq!(m.volume.byte_range_lock(undo, 100), Ok(0));
    assert_eq!(m.volume.byte_range_lock(undo, 100), Err(AfpError::RangeNotLocked));
    assert_eq!(m.volume.byte_range_lock(lock(fork, 12, 2), 100), Ok(12));
    assert_eq!(m.volume.byte_range_lock(lock(999, 0, 1), 100), Err(AfpError::ObjectNotFound));
}

#[test]
fn fork_lengths_are_set_on_their_own_fork() {
    let mut m = Mounted::new(&["f"]);
    let fork = m.open_fork(ForkType::Data, 2, "f").unwrap();
    let id = m.volume.resolve_node(2, "f").unwrap();
    assert_eq!(m.volume.set_fork_parms(fork, Some(9), None), Ok(Some((id, ForkType::Data, 9))));
    assert_eq!(m.volume.set_fork_parms(fork, None, Some(9)), Err(AfpError::BitmapErr));
    assert_eq!(m.volume.set_fork_parms(fork, None, None), Ok(None));
    assert_eq!(m.volume.set_fork_parms(999, None, None), Err(AfpError::ObjectNotFound));
}

#[test]
fn reads_stop_at_lines_and_ends() {
    let data = b"one\rtwo\r";
    let ends: Vec<bool> = data.iter().map(|b| *b == b'\r').collect();
    assert_eq!(read(data, Some(&ends), 100), (b"one\r".to_vec(), false));
    assert_eq!(read(data, Some(&ends), 2), (b"on".to_vec(), false));
    assert_eq!(read(data, None, 100), (data.to_vec(), true));
    assert_eq!(read(data, None, 8), (data.to_vec(), false));
    assert_eq!(read(&[], Some(&[]), 10), (vec![], true));
}

#[test]
fn volume_parameters_stand_in_order() {
    let m = Mounted::new(&[]);
    let bitmap = VolumeBitmap {
        bits: 0x01FF,
        attributes: true,
        signature: true,
        creation_date: true,
        modification_date: true,
        backup_date: true,
        volume_id: true,
        bytes_free: true,
        bytes_total: true,
        volume_name: true,
    };
    let out = m.volume.get_bitmap_resp(bitmap, 77, 128).unwrap();
    let mut expected = vec![0x01, 0xFF, 0, 0, 0, 2, 0, 0, 0x04, 0xD2, 0, 0, 0, 77, 0, 0, 0, 0, 0, 1];
    expected.extend_from_slice(&VOLUME_BYTES.to_be_bytes());
    expected.extend_from_slice(&VOLUME_BYTES.to_be_bytes());
    assert_eq!(&out[..28], &expected[..]);
    assert_eq!(&out[30..], b"\x07TestVol");
    assert_eq!(m.volume.get_bitmap_resp(bitmap, 77, 20), Err(AfpError::ParamError));
    assert_eq!(m.volume.get_volume_id(), 1);
    assert_eq!(m.volume.get_created_at(), 1234);
    assert_eq!(m.volume.get_modified_at(None), 1234);
    assert_eq!(m.volume.get_modified_at(Some(0)), 2_082_844_800);
    assert_eq!((m.volume.get_attributes(), m.volume.get_backup_at()), (0, 0));
    assert_eq!((m.volume.get_bytes_free(), m.volume.get_bytes_total()), (VOLUME_BYTES, VOLUME_BYTES));
    assert!(matches!(m.volume.plan_set_node_parms(PARENT_OF_ROOT), Err(AfpError::ObjectNotFound)));
}
