use tailtalk::afp::desktop::{
    add_appl, add_icon, comment_key, copy_appl, delete_appls_for_path, get_appl, get_icon_info, move_appl_path,
    move_comment, remove_appl, Change, IconKey, Row,
};
use tailtalk::afp::finder::{
    get_attributes, get_finder_info, infer_type_creator_from_content, infer_type_creator_from_extension,
    set_attributes, FinderInfo, TypeCreator, ATTRIBUTE_INVISIBLE, IS_INVISIBLE,
};
use tailtalk::afp::parms::{get_directory_parms, get_file_parms, DirBitmap, DirFacts, FileBitmap, FileFacts};
use tailtalk::afp::path::{
    afp_name_to_posix, afp_path_is_empty, afp_path_to_posix, is_native_resource_fork_path, posix_name_to_afp,
    short_name_bytes, FsPath,
};
use tailtalk::afp::server::{
    afp_cmd_name, appl_reply, check_copy_volumes, check_directory, comment_reply, create_error_reply,
    create_login_success_reply, enumerate_limit, enumerate_reply, file_dir_parms_reply, fork_parms_reply, fork_type,
    handle_session, has_dir_parms, icon_info_reply, number_reply, open_dt_reply, open_fork_reply, parse_command, read_reply,
    read_size, server_entity, set_dir_parms_data, write_reply, AfpCommand, AfpServerConfig, SessionStep,
};
use tailtalk::afp::{AfpError, ForkType};

#[test]
fn names_swap_their_separators() {
    assert_eq!(posix_name_to_afp("a:b"), "a/b");
    assert_eq!(afp_name_to_posix("a/b"), "a:b");
    assert_eq!(afp_name_to_posix(&posix_name_to_afp("x:y:z")), "x:y:z");
    assert!(afp_path_is_empty(""));
    assert!(afp_path_is_empty("\0\0"));
    assert!(!afp_path_is_empty("a"));
    assert_eq!(short_name_bytes("aé"), 3);
}

#[test]
fn paths_are_canonical() {
    assert_eq!(FsPath::from_text("a//b/./c/").text(), "a/b/c");
    assert_eq!(FsPath::from_text("/a/b").text(), "/a/b");
    assert_eq!(FsPath::from_text(FsPath::from_text("x/../y").text().as_str()).text(), "x/../y");
    let p = FsPath::from_text("a/b/c");
    assert!(p.starts_with(&FsPath::from_text("a/b")));
    assert!(!p.starts_with(&FsPath::from_text("a/bc")));
    assert_eq!(p.rebase(&FsPath::from_text("a"), &FsPath::from_text("z/y")).text(), "z/y/b/c");
    assert_eq!(p.file_name().as_deref(), Some("c"));
    assert_eq!(FsPath::empty().file_name(), None);
    assert!(p.copy().same(&p));
    assert_eq!(FsPath::from_text("a").join(&FsPath::from_text("/b")).text(), "/b");
    assert_eq!(FsPath::from_text("a").join(&FsPath::from_text("b")).text(), "a/b");
    assert_eq!(afp_path_to_posix(":folder::file/1").text(), "folder/file:1");
    assert!(is_native_resource_fork_path(&FsPath::from_text("a/..namedfork/rsrc")));
    assert!(!is_native_resource_fork_path(&FsPath::from_text("a/rsrc")));
}

fn codes(c: Option<TypeCreator>) -> Option<([u8; 4], [u8; 4])> {
    c.map(|c| (c.file_type, c.creator))
}

const BLANK: FinderInfo = FinderInfo { file_type: [0; 4], creator: [0; 4], flags: 0, rest: [0; 22] };

#[test]
fn types_are_inferred() {
    let text = Some((*b"TEXT", *b"ttxt"));
    assert_eq!(codes(infer_type_creator_from_content("text/plain")), text);
    assert_eq!(codes(infer_type_creator_from_content("image/png")), None);
    assert_eq!(codes(infer_type_creator_from_extension(&FsPath::from_text("dir/README.TXT"))), text);
    assert_eq!(codes(infer_type_creator_from_extension(&FsPath::from_text("README"))), None);
    assert_eq!(codes(infer_type_creator_from_extension(&FsPath::from_text(".txt"))), None);

    let content = infer_type_creator_from_content("application/pdf");
    let name = infer_type_creator_from_extension(&FsPath::from_text("a.txt"));
    let (info, changed) = get_finder_info(BLANK, false, content, name);
    assert!(changed);
    assert_eq!(Some((info.file_type, info.creator)), codes(content));
    let (info, changed) = get_finder_info(BLANK, false, None, name);
    assert!(changed && info.file_type == *b"TEXT");
    // Directories, and what has been set before, stay as they are.
    assert!(!get_finder_info(BLANK, true, content, name).1);
    let stored = FinderInfo { file_type: *b"APPL", ..BLANK };
    let (info, changed) = get_finder_info(stored, false, content, name);
    assert!(!changed && info.file_type == *b"APPL");
}

#[test]
fn finder_information_is_kept_in_order() {
    let raw: [u8; 32] = std::array::from_fn(|i| i as u8);
    let info = FinderInfo::from_bytes(raw);
    assert_eq!(info.file_type, [0, 1, 2, 3]);
    assert_eq!(info.creator, [4, 5, 6, 7]);
    assert_eq!(info.flags, 0x0809);
    assert_eq!(info.rest[21], 31);
    assert_eq!(info.to_bytes(), raw);
    assert_eq!(BLANK.to_bytes(), [0; 32]);
}

#[test]
fn invisibility_is_an_attribute() {
    assert_eq!(get_attributes(IS_INVISIBLE | 0x0100), ATTRIBUTE_INVISIBLE);
    assert_eq!(get_attributes(0x0100), 0);
    assert_eq!(set_attributes(0x0100, 0x8000 | ATTRIBUTE_INVISIBLE), IS_INVISIBLE | 0x0100);
    assert_eq!(set_attributes(IS_INVISIBLE | 0x0100, 0x8000), 0x0100);
}

#[test]
fn names_are_written_in_mac_roman() {
    let bitmap = FileBitmap {
        bits: 0,
        attributes: false,
        parent_dir_id: true,
        create_date: false,
        modification_date: false,
        backup_date: false,
        finder_info: false,
        long_name: true,
        file_number: false,
        data_fork_length: true,
        resource_fork_length: false,
        prodos_info: false,
    };
    let facts = FileFacts { flags: 0, created: 0, modified: 0, finder_info: [0; 32], data_len: 0x1_0000_0005, rsrc_len: 0 };
    let out = get_file_parms(bitmap, 20, 2, "é", &facts);
    // The parent, where the name stands, the length, and the name: 0x8E in Mac Roman.
    assert_eq!(&out[0..6], &[0, 0, 0, 2, 0, 10]);
    assert_eq!(&out[10..], &[1, 0x8E]);
    assert_eq!(bitmap.long_name_offset(), 10);
    assert_eq!(bitmap.response_len(1), 12);

    let dir = DirBitmap {
        bits: 0,
        attributes: false,
        parent_dir_id: false,
        create_date: true,
        modification_date: true,
        backup_date: false,
        finder_info: false,
        long_name: true,
        dir_id: false,
        offspring_count: true,
        owner_id: false,
        group_id: false,
        access_rights: true,
    };
    let facts = DirFacts { flags: 0, created_at: 1, modified_at: 2, finder_info: [0; 32], offspring: 3 };
    let out = get_directory_parms(dir, 20, 2, "d", &facts);
    assert_eq!(out, vec![0, 0, 0, 1, 0, 0, 0, 2, 0, 16, 0, 3, 0x87, 7, 7, 7, 1, b'd']);
    assert_eq!(dir.long_name_offset(), 16);
}

#[test]
fn icons_are_kept_by_creator_type_and_size() {
    let row = add_icon(*b"ttxt", *b"TEXT", 4, &[1, 2, 3]);
    assert_eq!(row.key, b"ttxtTEXT\x04");
    assert_eq!(row.value, vec![1, 2, 3]);
    let key = IconKey { creator: *b"ttxt", file_type: *b"TEXT", icon_type: 4 };
    assert_eq!(key.to_bytes().to_vec(), row.key);
    let other = IconKey { icon_type: 5, ..key.clone() };
    assert_ne!(other.to_bytes(), key.to_bytes());
    assert_eq!(get_icon_info(&[row], *b"ttxt"), Ok((0, u32::from_be_bytes(*b"TEXT"), 3)));
    assert_eq!(get_icon_info(&[], *b"ttxt"), Err(AfpError::ItemNotFound));
}

/// Applies changes to rows in the order of their keys.
fn apply(rows: Vec<Row>, changes: Vec<Change>) -> Vec<Row> {
    let mut map: std::collections::BTreeMap<Vec<u8>, Vec<u8>> = rows.into_iter().map(|r| (r.key, r.value)).collect();
    for change in changes {
        match change {
            Change::Insert { key, value } => map.insert(key, value),
            Change::Remove { key } => map.remove(&key),
        };
    }
    map.into_iter().map(|(key, value)| Row { key, value }).collect()
}

#[test]
fn applications_follow_their_files() {
    let rows = vec![
        add_appl(*b"ttxt", 1, 2, "Apps/SimpleText").unwrap(),
        add_appl(*b"ttxt", 2, 2, "Other").unwrap(),
    ];
    assert_eq!(get_appl(&rows, 0), Ok((1, 2, "Apps/SimpleText".to_string())));
    assert_eq!(get_appl(&rows, 1), Ok((1, 2, "Apps/SimpleText".to_string())));
    assert_eq!(get_appl(&rows, 2), Ok((2, 2, "Other".to_string())));
    assert_eq!(get_appl(&rows, 3), Err(AfpError::ItemNotFound));
    assert!(matches!(add_appl(*b"ttxt", 1, 2, &"x".repeat(256)), Err(AfpError::ParamError)));

    let changes = move_appl_path(&rows, "Apps/SimpleText", "New/SimpleText", 2, 9);
    let rows = apply(rows, changes);
    assert_eq!(get_appl(&rows, 1), Ok((1, 9, "New/SimpleText".to_string())));
    assert_eq!(get_appl(&rows, 2), Ok((2, 2, "Other".to_string())));

    let changes = copy_appl(&rows, "Other", "Copy", 2, 5);
    let rows = apply(rows, changes);
    // The copy is registered beside the application itself.
    assert_eq!(get_appl(&rows, 2), Ok((2, 2, "Other".to_string())));
    assert_eq!(get_appl(&rows, 3), Ok((2, 5, "Copy".to_string())));
    assert_eq!(get_appl(&rows, 4), Err(AfpError::ItemNotFound));
    // A copied row that has moved away keeps its key; copying again leaves it alone.
    let changes = move_appl_path(&rows, "Copy", "Elsewhere", 5, 5);
    let rows = apply(rows, changes);
    let changes = copy_appl(&rows, "Other", "Copy", 2, 5);
    let rows = apply(rows, changes);
    assert_eq!(rows.len(), 4);
    assert_eq!(get_appl(&rows, 2), Ok((2, 2, "Other".to_string())));
    assert_eq!(get_appl(&rows, 3), Ok((2, 5, "Elsewhere".to_string())));
    assert_eq!(get_appl(&rows, 4), Ok((2, 5, "Copy".to_string())));
    assert!(copy_appl(&rows, "Missing", "Copy", 2, 5).is_empty());

    assert!(matches!(remove_appl(&rows, 2, "Missing"), Err(AfpError::ItemNotFound)));
    let rows = [(5, "Copy"), (5, "Elsewhere"), (2, "Other")].iter().fold(rows, |rows, (dir, path)| {
        let change = remove_appl(&rows, *dir, path).unwrap();
        apply(rows, vec![change])
    });
    assert_eq!(rows.len(), 1);
    let changes = delete_appls_for_path(&rows, 9, "New/SimpleText");
    assert!(apply(rows, changes).is_empty());
}

#[test]
fn comments_follow_their_files() {
    assert_eq!(comment_key("a/b"), b"a/b");
    assert!(move_comment(None, "a", "b").is_empty());
    let rows = vec![Row { key: b"a".to_vec(), value: b"note".to_vec() }];
    let rows = apply(rows, move_comment(Some(b"note".to_vec()), "a", "b"));
    assert_eq!(rows.len(), 1);
    assert_eq!(rows[0].key, b"b");
    assert_eq!(rows[0].value, b"note");
}

#[test]
fn commands_are_sorted() {
    assert!(matches!(handle_session(&[]), SessionStep::Refuse(AfpError::ParamError)));
    assert!(matches!(handle_session(&[255]), SessionStep::Refuse(AfpError::BadVersNum)));
    assert!(matches!(handle_session(&[6, 0]), SessionStep::Run(AfpCommand::CreateDir)));
    match handle_session(&[20]) {
        SessionStep::Answer { reply, done } => assert!(done && reply.result == [0; 4] && reply.data.is_empty()),
        other => panic!("not answered: {:?}", other),
    }
    match handle_session(&[2]) {
        SessionStep::Answer { done, .. } => assert!(!done),
        other => panic!("not answered: {:?}", other),
    }
    match handle_session(&[10]) {
        SessionStep::SyncThenAnswer { reply } => assert!(reply.data.is_empty()),
        other => panic!("not synced: {:?}", other),
    }
    for code in 0..=255u8 {
        if let Some(command) = parse_command(code) {
            let same = (0..=255u8).filter(|c| parse_command(*c) == Some(command)).count();
            assert_eq!(same, 1);
        }
    }
    assert_eq!(afp_cmd_name(9), "FPEnumerate");
    let config = AfpServerConfig::default();
    let entity = server_entity(&config);
    assert_eq!((entity.object.as_str(), entity.entity_type.as_str(), entity.zone.as_str()), ("TailTalk", "AFPServer", "*"));
}

#[test]
fn replies_have_their_layout() {
    assert_eq!(create_error_reply(-5018).result, (-5018i32).to_be_bytes());
    assert_eq!(create_login_success_reply(1).data, vec![0, 1, 0, 0]);
    assert_eq!(number_reply(0x01020304).data, vec![1, 2, 3, 4]);
    assert_eq!(open_dt_reply(1).data, vec![0, 1]);
    assert_eq!(file_dir_parms_reply(1, 2, true, &[9]).data, vec![0, 1, 0, 2, 0x80, 0, 9]);
    assert_eq!(file_dir_parms_reply(1, 2, false, &[9]).data[4], 0);
    assert_eq!(open_fork_reply(1, 7, &[9]).data, vec![0, 1, 0, 7, 9]);
    assert_eq!(fork_parms_reply(1, &[9]).data, vec![0, 1, 9]);
    assert_eq!(icon_info_reply(0, 1, 2).data, vec![0, 0, 0, 0, 0, 0, 0, 1, 0, 2]);
    assert_eq!(comment_reply(b"hi").data, vec![2, b'h', b'i']);
    assert_eq!(appl_reply(1, 2, "ab").data, vec![0, 0, 0, 1, 0, 0, 0, 2, 2, 2, b'a', b'b']);
    assert_eq!(write_reply(10, 5).data, vec![0, 0, 0, 15]);
    assert_eq!(fork_type(0x80), ForkType::Resource);
    assert_eq!(fork_type(0x01), ForkType::Data);
    assert_eq!(check_directory(1), Err(AfpError::ObjectNotFound));
    assert_eq!(check_directory(2), Ok(()));
    assert_eq!(check_copy_volumes(1, 2), Err(AfpError::ParamError));
    assert_eq!(check_copy_volumes(0, 2), Ok(()));

    let eof = read_reply(vec![1], true, 10, -5009);
    assert_eq!(eof.result, (-5009i32).to_be_bytes());
    assert_eq!(eof.data, vec![1]);
    assert_eq!(read_reply(vec![], true, 0, -5009).result, [0; 4]);
    assert_eq!(read_size(10_000, 8_000), 4096);
    assert_eq!(read_size(10_000, 578), 578);
    assert_eq!(enumerate_limit(1000, 578), 574);
    assert_eq!(enumerate_limit(3, 578), 0);
    let empty = enumerate_reply(1, 2, 0, &[0, 0], -5018);
    assert_eq!(empty.result, (-5018i32).to_be_bytes());
    assert_eq!(enumerate_reply(1, 2, 3, &[0, 3], -5018).data, vec![0, 1, 0, 2, 0, 3]);
    // Two bytes, nine of header, three of path: the parameters start at an even offset.
    let request: Vec<u8> = (0..40).collect();
    assert_eq!(set_dir_parms_data(&request, 3)[0], 14);
    assert_eq!(set_dir_parms_data(&request, 4)[0], 16);
    assert!(has_dir_parms(&request, 29));
    assert!(has_dir_parms(&request, 28));
    assert!(!has_dir_parms(&request[..39], 28));
    assert!(!has_dir_parms(&request, usize::MAX));
}
