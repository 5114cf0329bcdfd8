//! The commands of a session and their replies.

use crate::afp::{AfpError, ForkType};
use crate::asp::AspCommandResponse;
use crate::nbp::EntityName;
use crate::wire::{
    be16, be32, law_bytes_count_by_their_place, number32, put_be16, put_be32, put_bytes, repeat, slice_bytes, utf8,
};
use vstd::prelude::*;
use vstd::string::*;

verus! {

/// The number of the only volume that a server offers.
pub const VOLUME_ID: u16 = 1234;

/// Most bytes that a single read returns.
pub const MAX_READ: usize = 4096;

/// Bytes of the two bitmaps in front of a listing.
pub const ENUMERATE_HEADER: u16 = 4;

/// Room for the parameters of a volume.
pub const VOLUME_REPLY_ROOM: usize = 128;

// ── Configuration ────────────────────────────────────────────────────────────

/// A version of the protocol.
#[derive(Debug, Clone, Copy, PartialEq, Eq, Structural)]
pub enum AfpVersion {
    Version1_1,
    Version2,
    Version2_1,
    Version2_2,
}

/// A way to log in.
#[derive(Debug, Clone, Copy, PartialEq, Eq, Structural)]
pub enum AfpUam {
    NoUserAuthent,
    CleartxtPasswrd,
}

/// What a server is told at the start.
#[derive(Debug)]
pub struct AfpServerConfig {
    pub server_name: String,
    pub machine_type: String,
    pub afp_versions: Vec<AfpVersion>,
    pub uams: Vec<AfpUam>,
    pub volume_icon: Option<[u8; 256]>,
    pub flags: u16,
    /// Where the volume is in the file system.
    pub volume_path: String,
    /// The name of the volume that clients see.
    pub volume_name: String,
}

impl Default for AfpServerConfig {
    fn default() -> (c: Self)
        ensures
            c.server_name@ == "TailTalk"@,
            c.machine_type@ == "Macintosh"@,
            c.afp_versions@ == seq![AfpVersion::Version2, AfpVersion::Version2_1],
            c.uams@ == seq![AfpUam::NoUserAuthent],
            c.volume_icon is None,
            c.flags == 3,
            c.volume_path@ == "./"@,
            c.volume_name@ == "MacShare"@,
    {
        AfpServerConfig {
            server_name: "TailTalk".to_owned(),
            machine_type: "Macintosh".to_owned(),
            afp_versions: vec![AfpVersion::Version2, AfpVersion::Version2_1],
            uams: vec![AfpUam::NoUserAuthent],
            volume_icon: None,
            flags: 0x3,
            volume_path: "./".to_owned(),
            volume_name: "MacShare".to_owned(),
        }
    }
}

/// The name under which clients find a server.
pub fn server_entity(config: &AfpServerConfig) -> (e: EntityName)
    ensures
        e.object@ == config.server_name@,
        e.entity_type@ == "AFPServer"@,
        e.zone@ == "*"@,
{
    EntityName {
        object: config.server_name.clone(),
        entity_type: "AFPServer".to_owned(),
        zone: "*".to_owned(),
    }
}

// ── Commands ─────────────────────────────────────────────────────────────────

/// A command of a client.
#[derive(Debug, Clone, Copy, PartialEq, Eq, Structural)]
pub enum AfpCommand {
    ByteRangeLock,
    CloseVol,
    CloseFork,
    CopyFile,
    CreateDir,
    CreateFile,
    Delete,
    Enumerate,
    Flush,
    FlushFork,
    GetForkParms,
    GetSrvrParms,
    GetVolParms,
    Login,
    Logout,
    MoveAndRename,
    OpenVol,
    OpenFork,
    Read,
    Rename,
    SetDirParms,
    SetForkParms,
    Write,
    GetFileDirParms,
    SetFileDirParms,
    GetSrvrMsg,
    OpenDT,
    CloseDT,
    GetIcon,
    GetIconInfo,
    AddAPPL,
    RemoveAPPL,
    GetAPPL,
    AddComment,
    RemoveComment,
    GetComment,
    AddIcon,
}

/// The command that a code stands for.
pub open spec fn command_of(code: u8) -> Option<AfpCommand> {
    if code == 1 {
        Some(AfpCommand::ByteRangeLock)
    } else if code == 2 {
        Some(AfpCommand::CloseVol)
    } else if code == 4 {
        Some(AfpCommand::CloseFork)
    } else if code == 5 {
        Some(AfpCommand::CopyFile)
    } else if code == 6 {
        Some(AfpCommand::CreateDir)
    } else if code == 7 {
        Some(AfpCommand::CreateFile)
    } else if code == 8 {
        Some(AfpCommand::Delete)
    } else if code == 9 {
        Some(AfpCommand::Enumerate)
    } else if code == 10 {
        Some(AfpCommand::Flush)
    } else if code == 11 {
        Some(AfpCommand::FlushFork)
    } else if code == 14 {
        Some(AfpCommand::GetForkParms)
    } else if code == 16 {
        Some(AfpCommand::GetSrvrParms)
    } else if code == 17 {
        Some(AfpCommand::GetVolParms)
    } else if code == 18 {
        Some(AfpCommand::Login)
    } else if code == 20 {
        Some(AfpCommand::Logout)
    } else if code == 23 {
        Some(AfpCommand::MoveAndRename)
    } else if code == 24 {
        Some(AfpCommand::OpenVol)
    } else if code == 26 {
        Some(AfpCommand::OpenFork)
    } else if code == 27 {
        Some(AfpCommand::Read)
    } else if code == 28 {
        Some(AfpCommand::Rename)
    } else if code == 29 {
        Some(AfpCommand::SetDirParms)
    } else if code == 31 {
        Some(AfpCommand::SetForkParms)
    } else if code == 33 {
        Some(AfpCommand::Write)
    } else if code == 34 {
        Some(AfpCommand::GetFileDirParms)
    } else if code == 35 {
        Some(AfpCommand::SetFileDirParms)
    } else if code == 38 {
        Some(AfpCommand::GetSrvrMsg)
    } else if code == 48 {
        Some(AfpCommand::OpenDT)
    } else if code == 49 {
        Some(AfpCommand::CloseDT)
    } else if code == 51 {
        Some(AfpCommand::GetIcon)
    } else if code == 52 {
        Some(AfpCommand::GetIconInfo)
    } else if code == 53 {
        Some(AfpCommand::AddAPPL)
    } else if code == 54 {
        Some(AfpCommand::RemoveAPPL)
    } else if code == 55 {
        Some(AfpCommand::GetAPPL)
    } else if code == 56 {
        Some(AfpCommand::AddComment)
    } else if code == 57 {
        Some(AfpCommand::RemoveComment)
    } else if code == 58 {
        Some(AfpCommand::GetComment)
    } else if code == 192 {
        Some(AfpCommand::AddIcon)
    } else {
        None
    }
}

/// The name of a command.
pub open spec fn command_name(c: Option<AfpCommand>) -> Seq<char> {
    match c {
        Some(AfpCommand::ByteRangeLock) => "FPByteRangeLock"@,
        Some(AfpCommand::CloseVol) => "FPCloseVol"@,
        Some(AfpCommand::CloseFork) => "FPCloseFork"@,
        Some(AfpCommand::CopyFile) => "FPCopyFile"@,
        Some(AfpCommand::CreateDir) => "FPCreateDir"@,
        Some(AfpCommand::CreateFile) => "FPCreateFile"@,
        Some(AfpCommand::Delete) => "FPDelete"@,
        Some(AfpCommand::Enumerate) => "FPEnumerate"@,
        Some(AfpCommand::Flush) => "FPFlush"@,
        Some(AfpCommand::FlushFork) => "FPFlushFork"@,
        Some(AfpCommand::GetForkParms) => "FPGetForkParms"@,
        Some(AfpCommand::GetSrvrParms) => "FPGetSrvrParms"@,
        Some(AfpCommand::GetVolParms) => "FPGetVolParms"@,
        Some(AfpCommand::Login) => "FPLogin"@,
        Some(AfpCommand::Logout) => "FPLogout"@,
        Some(AfpCommand::MoveAndRename) => "FPMoveAndRename"@,
        Some(AfpCommand::OpenVol) => "FPOpenVol"@,
        Some(AfpCommand::OpenFork) => "FPOpenFork"@,
        Some(AfpCommand::Read) => "FPRead"@,
        Some(AfpCommand::Rename) => "FPRename"@,
        Some(AfpCommand::SetDirParms) => "FPSetDirParms"@,
        Some(AfpCommand::SetForkParms) => "FPSetForkParms"@,
        Some(AfpCommand::Write) => "FPWrite"@,
        Some(AfpCommand::GetFileDirParms) => "FPGetFileDirParms"@,
        Some(AfpCommand::SetFileDirParms) => "FPSetFileDirParms"@,
        Some(AfpCommand::GetSrvrMsg) => "FPGetSrvrMsg"@,
        Some(AfpCommand::OpenDT) => "FPOpenDT"@,
        Some(AfpCommand::CloseDT) => "FPCloseDT"@,
        Some(AfpCommand::GetIcon) => "FPGetIcon"@,
        Some(AfpCommand::GetIconInfo) => "FPGetIconInfo"@,
        Some(AfpCommand::AddAPPL) => "FPAddAPPL"@,
        Some(AfpCommand::RemoveAPPL) => "FPRemoveAPPL"@,
        Some(AfpCommand::GetAPPL) => "FPGetAPPL"@,
        Some(AfpCommand::AddComment) => "FPAddComment"@,
        Some(AfpCommand::RemoveComment) => "FPRemoveComment"@,
        Some(AfpCommand::GetComment) => "FPGetComment"@,
        Some(AfpCommand::AddIcon) => "FPAddIcon"@,
        None => "FPUnknown"@,
    }
}

/// The command that a code stands for.
pub fn parse_command(code: u8) -> (c: Option<AfpCommand>)
    ensures
        c == command_of(code),
{
    match code {
        1 => Some(AfpCommand::ByteRangeLock),
        2 => Some(AfpCommand::CloseVol),
        4 => Some(AfpCommand::CloseFork),
        5 => Some(AfpCommand::CopyFile),
        6 => Some(AfpCommand::CreateDir),
        7 => Some(AfpCommand::CreateFile),
        8 => Some(AfpCommand::Delete),
        9 => Some(AfpCommand::Enumerate),
        10 => Some(AfpCommand::Flush),
        11 => Some(AfpCommand::FlushFork),
        14 => Some(AfpCommand::GetForkParms),
        16 => Some(AfpCommand::GetSrvrParms),
        17 => Some(AfpCommand::GetVolParms),
        18 => Some(AfpCommand::Login),
        20 => Some(AfpCommand::Logout),
        23 => Some(AfpCommand::MoveAndRename),
        24 => Some(AfpCommand::OpenVol),
        26 => Some(AfpCommand::OpenFork),
        27 => Some(AfpCommand::Read),
        28 => Some(AfpCommand::Rename),
        29 => Some(AfpCommand::SetDirParms),
        31 => Some(AfpCommand::SetForkParms),
        33 => Some(AfpCommand::Write),
        34 => Some(AfpCommand::GetFileDirParms),
        35 => Some(AfpCommand::SetFileDirParms),
        38 => Some(AfpCommand::GetSrvrMsg),
        48 => Some(AfpCommand::OpenDT),
        49 => Some(AfpCommand::CloseDT),
        51 => Some(AfpCommand::GetIcon),
        52 => Some(AfpCommand::GetIconInfo),
        53 => Some(AfpCommand::AddAPPL),
        54 => Some(AfpCommand::RemoveAPPL),
        55 => Some(AfpCommand::GetAPPL),
        56 => Some(AfpCommand::AddComment),
        57 => Some(AfpCommand::RemoveComment),
        58 => Some(AfpCommand::GetComment),
        192 => Some(AfpCommand::AddIcon),
        _ => None,
    }
}

/// The name of the command that a code stands for.
pub fn afp_cmd_name(code: u8) -> (name: &'static str)
    ensures
        name@ == command_name(command_of(code)),
{
    match code {
        1 => "FPByteRangeLock",
        2 => "FPCloseVol",
        4 => "FPCloseFork",
        5 => "FPCopyFile",
        6 => "FPCreateDir",
        7 => "FPCreateFile",
        8 => "FPDelete",
        9 => "FPEnumerate",
        10 => "FPFlush",
        11 => "FPFlushFork",
        14 => "FPGetForkParms",
        16 => "FPGetSrvrParms",
        17 => "FPGetVolParms",
        18 => "FPLogin",
        20 => "FPLogout",
        23 => "FPMoveAndRename",
        24 => "FPOpenVol",
        26 => "FPOpenFork",
        27 => "FPRead",
        28 => "FPRename",
        29 => "FPSetDirParms",
        31 => "FPSetForkParms",
        33 => "FPWrite",
        34 => "FPGetFileDirParms",
        35 => "FPSetFileDirParms",
        38 => "FPGetSrvrMsg",
        48 => "FPOpenDT",
        49 => "FPCloseDT",
        51 => "FPGetIcon",
        52 => "FPGetIconInfo",
        53 => "FPAddAPPL",
        54 => "FPRemoveAPPL",
        55 => "FPGetAPPL",
        56 => "FPAddComment",
        57 => "FPRemoveComment",
        58 => "FPGetComment",
        192 => "FPAddIcon",
        _ => "FPUnknown",
    }
}

/// What becomes of a command.
#[derive(Debug)]
pub enum SessionStep {
    /// It is refused.
    Refuse(AfpError),
    /// It is answered at once; the session may be over then.
    Answer { reply: AspCommandResponse, done: bool },
    /// The open forks are written out, whatever comes of it, and it is
    /// answered.
    SyncThenAnswer { reply: AspCommandResponse },
    /// It has to be carried out.
    Run(AfpCommand),
}

/// Whether a reply says that all went well and carries data.
pub open spec fn is_success(r: AspCommandResponse, data: Seq<u8>) -> bool {
    r.result@ == seq![0u8, 0u8, 0u8, 0u8] && r.data@ == data
}

/// A reply that says that all went well.
pub fn success(data: Vec<u8>) -> (r: AspCommandResponse)
    ensures
        is_success(r, data@),
{
    let result: [u8; 4] = [0, 0, 0, 0];
    assert(result@ =~= seq![0u8, 0u8, 0u8, 0u8]);
    AspCommandResponse { result, data }
}

/// A number and its two's complement in 32 bits.
pub open spec fn sign_extended(code: i16) -> u32 {
    if code >= 0 {
        code as u32
    } else {
        (0x1_0000_0000 + code) as u32
    }
}

/// The reply for an error, by its code.
pub fn create_error_reply(code: i16) -> (r: AspCommandResponse)
    ensures
        r.result@ == be32(sign_extended(code)),
        r.data@.len() == 0,
{
    AspCommandResponse { result: result_code(code), data: Vec::new() }
}

fn result_code(code: i16) -> (result: [u8; 4])
    ensures
        result@ == be32(sign_extended(code)),
{
    let x: u32 = if code >= 0 { code as u32 } else { (0x1_0000_0000i64 + code as i64) as u32 };
    let result: [u8; 4] = [
        (x / 0x100_0000) as u8,
        ((x / 0x1_0000) % 256) as u8,
        ((x / 256) % 256) as u8,
        (x % 256) as u8,
    ];
    assert(result@ =~= be32(x));
    result
}

/// Looks at a command of a session: an empty one and one that is not known are
/// refused, and some are answered without further ado.
pub fn handle_session(data: &[u8]) -> (step: SessionStep)
    ensures
        if data@.len() == 0 {
            step == SessionStep::Refuse(AfpError::ParamError)
        } else {
            match command_of(data@[0]) {
                None => step == SessionStep::Refuse(AfpError::BadVersNum),
                Some(AfpCommand::CloseVol) | Some(AfpCommand::CloseDT) => step matches SessionStep::Answer {
                    reply,
                    done,
                } && !done && is_success(reply, Seq::empty()),
                Some(AfpCommand::Logout) => step matches SessionStep::Answer { reply, done } && done && is_success(
                    reply,
                    Seq::empty(),
                ),
                Some(AfpCommand::GetSrvrMsg) => step matches SessionStep::Answer { reply, done } && !done && is_success(
                    reply,
                    repeat(0, 4),
                ),
                Some(AfpCommand::Flush) | Some(AfpCommand::FlushFork) => step matches SessionStep::SyncThenAnswer {
                    reply,
                } && is_success(reply, Seq::empty()),
                Some(c) => step == SessionStep::Run(c),
            }
        },
{
    if data.len() == 0 {
        return SessionStep::Refuse(AfpError::ParamError);
    }
    let empty: Vec<u8> = Vec::new();
    assert(empty@ =~= Seq::<u8>::empty());
    match parse_command(data[0]) {
        None => SessionStep::Refuse(AfpError::BadVersNum),
        Some(c) => match c {
            AfpCommand::CloseVol | AfpCommand::CloseDT => SessionStep::Answer { reply: success(empty), done: false },
            AfpCommand::Logout => SessionStep::Answer { reply: success(empty), done: true },
            AfpCommand::GetSrvrMsg => {
                let zeros: Vec<u8> = vec![0, 0, 0, 0];
                assert(zeros@ =~= repeat(0, 4));
                SessionStep::Answer { reply: success(zeros), done: false }
            },
            AfpCommand::Flush | AfpCommand::FlushFork => SessionStep::SyncThenAnswer { reply: success(empty) },
            _ => SessionStep::Run(c),
        },
    }
}

// ── Replies ──────────────────────────────────────────────────────────────────

/// A 16-bit number and its two's complement.
pub open spec fn unsigned16(n: i16) -> u16 {
    if n >= 0 {
        n as u16
    } else {
        (0x1_0000 + n) as u16
    }
}

/// The reply to a login: the reference number of the session, and a number that
/// is not used.
pub fn create_login_success_reply(session_ref_num: i16) -> (r: AspCommandResponse)
    ensures
        is_success(r, be16(unsigned16(session_ref_num)) + seq![0u8, 0u8]),
{
    let x: u16 = if session_ref_num >= 0 {
        session_ref_num as u16
    } else {
        (0x1_0000i32 + session_ref_num as i32) as u16
    };
    let mut data: Vec<u8> = Vec::new();
    put_be16(&mut data, x);
    data.push(0);
    data.push(0);
    assert(data@ =~= be16(unsigned16(session_ref_num)) + seq![0u8, 0u8]);
    success(data)
}

/// A reply that carries a 32-bit number.
pub fn number_reply(n: u32) -> (r: AspCommandResponse)
    ensures
        is_success(r, be32(n)),
{
    let mut data: Vec<u8> = Vec::new();
    put_be32(&mut data, n);
    assert(data@ =~= be32(n));
    success(data)
}

/// The reply to opening the desktop database: its reference number.
pub fn open_dt_reply(ref_num: u16) -> (r: AspCommandResponse)
    ensures
        is_success(r, be16(ref_num)),
{
    let mut data: Vec<u8> = Vec::new();
    put_be16(&mut data, ref_num);
    assert(data@ =~= be16(ref_num));
    success(data)
}

/// The reply with the parameters of a file or directory: the two bitmaps, which
/// of the two it is, and the parameters.
pub fn file_dir_parms_reply(file_bits: u16, dir_bits: u16, is_dir: bool, parms: &[u8]) -> (r: AspCommandResponse)
    ensures
        is_success(
            r,
            be16(file_bits) + be16(dir_bits) + seq![
                if is_dir {
                    0x80u8
                } else {
                    0u8
                },
                0u8,
            ] + parms@,
        ),
{
    let mut data: Vec<u8> = Vec::new();
    put_be16(&mut data, file_bits);
    put_be16(&mut data, dir_bits);
    data.push(if is_dir { 0x80 } else { 0 });
    data.push(0);
    put_bytes(&mut data, parms);
    assert(data@ =~= be16(file_bits) + be16(dir_bits) + seq![
        if is_dir {
            0x80u8
        } else {
            0u8
        },
        0u8,
    ] + parms@);
    success(data)
}

/// The reply to opening a fork: the bitmap, the reference number, and the
/// parameters.
pub fn open_fork_reply(file_bits: u16, fork_ref: u16, parms: &[u8]) -> (r: AspCommandResponse)
    ensures
        is_success(r, be16(file_bits) + be16(fork_ref) + parms@),
{
    let mut data: Vec<u8> = Vec::new();
    put_be16(&mut data, file_bits);
    put_be16(&mut data, fork_ref);
    put_bytes(&mut data, parms);
    assert(data@ =~= be16(file_bits) + be16(fork_ref) + parms@);
    success(data)
}

/// The reply with the parameters of a fork: the bitmap and the parameters.
pub fn fork_parms_reply(file_bits: u16, parms: &[u8]) -> (r: AspCommandResponse)
    ensures
        is_success(r, be16(file_bits) + parms@),
{
    let mut data: Vec<u8> = Vec::new();
    put_be16(&mut data, file_bits);
    put_bytes(&mut data, parms);
    assert(data@ =~= be16(file_bits) + parms@);
    success(data)
}

/// The fork that the flags of a request to open one ask for.
pub fn fork_type(flags: u8) -> (f: ForkType)
    ensures
        f == if flags & 0x80 != 0 {
            ForkType::Resource
        } else {
            ForkType::Data
        },
{
    if flags & 0x80 != 0 {
        ForkType::Resource
    } else {
        ForkType::Data
    }
}

/// Whether the parent of the root is meant, which has no parameters.
pub fn check_directory(directory_id: u32) -> (r: Result<(), AfpError>)
    ensures
        r == if directory_id == 1 {
            Err(AfpError::ObjectNotFound)
        } else {
            Ok(())
        },
{
    if directory_id == 1 {
        Err(AfpError::ObjectNotFound)
    } else {
        Ok(())
    }
}

/// Whether a copy stays on one volume; zero stands for any.
pub fn check_copy_volumes(src_volume_id: u16, dst_volume_id: u16) -> (r: Result<(), AfpError>)
    ensures
        r == if src_volume_id != dst_volume_id && src_volume_id != 0 && dst_volume_id != 0 {
            Err(AfpError::ParamError)
        } else {
            Ok(())
        },
{
    if src_volume_id != dst_volume_id && src_volume_id != 0 && dst_volume_id != 0 {
        Err(AfpError::ParamError)
    } else {
        Ok(())
    }
}

/// Where the parameters of a request to set those of a directory stand: behind
/// the header and the path, at an even offset behind the first two bytes.
pub open spec fn dir_parms_at(path_len: nat) -> nat {
    2 + 9 + path_len + (9 + path_len) % 2
}

/// Whether a request to set the parameters of a directory reaches as far as
/// they stand.
pub fn has_dir_parms(data: &[u8], path_len: usize) -> (r: bool)
    ensures
        r == (dir_parms_at(path_len as nat) <= data@.len()),
{
    if data.len() < 11 || path_len > data.len() - 11 {
        return false;
    }
    let offset: usize = 9 + path_len;
    offset % 2 == 0 || offset + 2 < data.len()
}

/// The parameters of a request to set those of a directory.
pub fn set_dir_parms_data(data: &[u8], path_len: usize) -> (r: Vec<u8>)
    requires
        dir_parms_at(path_len as nat) <= data@.len(),
    ensures
        r@ == data@.skip(dir_parms_at(path_len as nat) as int),
{
    let total: usize = data.len();
    let offset: usize = 9 + path_len;
    let at: usize = if offset % 2 == 0 { offset + 2 } else { offset + 3 };
    let r = slice_bytes(data, at, total);
    assert(r@ =~= data@.skip(at as int));
    r
}

/// How many bytes a read asks the fork for: no more than the reply can carry.
pub fn read_size(req_count: u32, atp_limit: usize) -> (n: usize)
    ensures
        n <= MAX_READ,
        n <= atp_limit,
        n <= req_count,
        n == MAX_READ || n == atp_limit || n == req_count,
{
    let mut n: usize = MAX_READ;
    if atp_limit < n {
        n = atp_limit;
    }
    if (req_count as u64) < n as u64 {
        n = req_count as usize;
    }
    n
}

/// The reply to a read. The end of the fork is told by an error code beside
/// the bytes.
pub fn read_reply(bytes: Vec<u8>, is_eof: bool, req_count: u32, eof_code: i16) -> (r: AspCommandResponse)
    ensures
        r.data@ == bytes@,
        r.result@ == if is_eof && req_count > 0 {
            be32(sign_extended(eof_code))
        } else {
            seq![0u8, 0u8, 0u8, 0u8]
        },
{
    if is_eof && req_count > 0 {
        AspCommandResponse { result: result_code(eof_code), data: bytes }
    } else {
        success(bytes)
    }
}

/// The reply to a write: the offset behind the last byte written.
pub fn write_reply(offset: u32, bytes_written: usize) -> (r: AspCommandResponse)
    requires
        offset + bytes_written as u64 % 0x1_0000_0000 <= u32::MAX,
    ensures
        is_success(r, be32((offset + bytes_written as u64 % 0x1_0000_0000) as u32)),
{
    let n: u32 = (bytes_written as u64 % 0x1_0000_0000) as u32;
    number_reply(offset + n)
}

/// How long a listing may be, without the bitmaps in front of it: no longer
/// than the client asks for and the transport can carry.
pub fn enumerate_limit(max_reply_size: u16, atp_limit: usize) -> (n: u16)
    ensures
        ({
            let asked: int = if max_reply_size < ENUMERATE_HEADER {
                0
            } else {
                max_reply_size - ENUMERATE_HEADER
            };
            let carried: int = if atp_limit < ENUMERATE_HEADER {
                0
            } else {
                (atp_limit - ENUMERATE_HEADER) % 0x1_0000
            };
            n == if asked <= carried {
                asked
            } else {
                carried
            }
        }),
{
    let asked: u16 = max_reply_size.saturating_sub(ENUMERATE_HEADER);
    let carried: u16 = (atp_limit.saturating_sub(ENUMERATE_HEADER as usize) % 0x1_0000) as u16;
    if asked <= carried {
        asked
    } else {
        carried
    }
}

/// The reply with a listing: the two bitmaps and the listing. One without
/// entries is told by an error code beside it.
pub fn enumerate_reply(file_bits: u16, dir_bits: u16, count: u16, listing: &[u8], not_found_code: i16) -> (r: AspCommandResponse)
    ensures
        r.data@ == be16(file_bits) + be16(dir_bits) + listing@,
        r.result@ == if count == 0 {
            be32(sign_extended(not_found_code))
        } else {
            seq![0u8, 0u8, 0u8, 0u8]
        },
{
    let mut data: Vec<u8> = Vec::new();
    put_be16(&mut data, file_bits);
    put_be16(&mut data, dir_bits);
    put_bytes(&mut data, listing);
    assert(data@ =~= be16(file_bits) + be16(dir_bits) + listing@);
    if count == 0 {
        AspCommandResponse { result: result_code(not_found_code), data }
    } else {
        success(data)
    }
}

/// The reply about an icon: tag, type and size.
pub fn icon_info_reply(icon_tag: u32, file_type: u32, size: u16) -> (r: AspCommandResponse)
    ensures
        is_success(r, be32(icon_tag) + be32(file_type) + be16(size)),
{
    let mut data: Vec<u8> = Vec::new();
    put_be32(&mut data, icon_tag);
    put_be32(&mut data, file_type);
    put_be16(&mut data, size);
    assert(data@ =~= be32(icon_tag) + be32(file_type) + be16(size));
    success(data)
}

/// The reply with a comment: its length in a byte, and the comment.
pub fn comment_reply(comment: &[u8]) -> (r: AspCommandResponse)
    ensures
        is_success(r, seq![(comment@.len() % 256) as u8] + comment@),
{
    let mut data: Vec<u8> = Vec::new();
    data.push((comment.len() % 256) as u8);
    put_bytes(&mut data, comment);
    assert(data@ =~= seq![(comment@.len() % 256) as u8] + comment@);
    success(data)
}

/// The reply about an application: tag, directory, the kind of path, and the
/// path behind its length.
pub fn appl_reply(tag: u32, directory_id: u32, path: &str) -> (r: AspCommandResponse)
    ensures
        is_success(
            r,
            be32(tag) + be32(directory_id) + seq![2u8, (utf8(path@).len() % 256) as u8] + utf8(path@),
        ),
{
    let bytes = path.as_bytes();
    let mut data: Vec<u8> = Vec::new();
    put_be32(&mut data, tag);
    put_be32(&mut data, directory_id);
    data.push(2);
    data.push((bytes.len() % 256) as u8);
    put_bytes(&mut data, bytes);
    assert(data@ =~= be32(tag) + be32(directory_id) + seq![2u8, (utf8(path@).len() % 256) as u8] + utf8(path@));
    success(data)
}

/// Every code has one command, and every command one code: what is not known
/// has the name of the unknown, and nothing else has.
pub proof fn law_commands_have_one_code(a: u8, b: u8)
    requires
        command_of(a) is Some,
        command_of(a) == command_of(b),
    ensures
        a == b,
{
}

/// The error code of a reply can be told from success: it is zero only for
/// the code zero.
pub proof fn law_error_replies_tell(code: i16)
    ensures
        be32(sign_extended(code)) == seq![0u8, 0u8, 0u8, 0u8] <==> code == 0,
{
    crate::wire::lemma_be32_round_trip(sign_extended(code));
    if code == 0 {
        assert(be32(0) =~= seq![0u8, 0u8, 0u8, 0u8]);
    }
    if be32(sign_extended(code)) == seq![0u8, 0u8, 0u8, 0u8] {
        assert(sign_extended(code) == crate::wire::from_be32(0, 0, 0, 0));
    }
}

/// Commands have the codes that clients know them by.
pub proof fn law_commands_have_their_codes()
    ensures
        command_of(1) == Some(AfpCommand::ByteRangeLock),
        command_of(2) == Some(AfpCommand::CloseVol),
        command_of(4) == Some(AfpCommand::CloseFork),
        command_of(5) == Some(AfpCommand::CopyFile),
        command_of(6) == Some(AfpCommand::CreateDir),
        command_of(7) == Some(AfpCommand::CreateFile),
        command_of(8) == Some(AfpCommand::Delete),
        command_of(9) == Some(AfpCommand::Enumerate),
        command_of(10) == Some(AfpCommand::Flush),
        command_of(11) == Some(AfpCommand::FlushFork),
        command_of(14) == Some(AfpCommand::GetForkParms),
        command_of(16) == Some(AfpCommand::GetSrvrParms),
        command_of(17) == Some(AfpCommand::GetVolParms),
        command_of(18) == Some(AfpCommand::Login),
        command_of(20) == Some(AfpCommand::Logout),
        command_of(23) == Some(AfpCommand::MoveAndRename),
        command_of(24) == Some(AfpCommand::OpenVol),
        command_of(26) == Some(AfpCommand::OpenFork),
        command_of(27) == Some(AfpCommand::Read),
        command_of(28) == Some(AfpCommand::Rename),
        command_of(29) == Some(AfpCommand::SetDirParms),
        command_of(31) == Some(AfpCommand::SetForkParms),
        command_of(33) == Some(AfpCommand::Write),
        command_of(34) == Some(AfpCommand::GetFileDirParms),
        command_of(35) == Some(AfpCommand::SetFileDirParms),
        command_of(38) == Some(AfpCommand::GetSrvrMsg),
        command_of(48) == Some(AfpCommand::OpenDT),
        command_of(49) == Some(AfpCommand::CloseDT),
        command_of(51) == Some(AfpCommand::GetIcon),
        command_of(52) == Some(AfpCommand::GetIconInfo),
        command_of(53) == Some(AfpCommand::AddAPPL),
        command_of(54) == Some(AfpCommand::RemoveAPPL),
        command_of(55) == Some(AfpCommand::GetAPPL),
        command_of(56) == Some(AfpCommand::AddComment),
        command_of(57) == Some(AfpCommand::RemoveComment),
        command_of(58) == Some(AfpCommand::GetComment),
        command_of(192) == Some(AfpCommand::AddIcon),
{
}

/// Commands are told by their names.
pub proof fn law_commands_have_their_names()
    ensures
        command_name(command_of(1)) == "FPByteRangeLock"@,
        command_name(command_of(2)) == "FPCloseVol"@,
        command_name(command_of(4)) == "FPCloseFork"@,
        command_name(command_of(5)) == "FPCopyFile"@,
        command_name(command_of(6)) == "FPCreateDir"@,
        command_name(command_of(7)) == "FPCreateFile"@,
        command_name(command_of(8)) == "FPDelete"@,
        command_name(command_of(9)) == "FPEnumerate"@,
        command_name(command_of(10)) == "FPFlush"@,
        command_name(command_of(11)) == "FPFlushFork"@,
        command_name(command_of(14)) == "FPGetForkParms"@,
        command_name(command_of(16)) == "FPGetSrvrParms"@,
        command_name(command_of(17)) == "FPGetVolParms"@,
        command_name(command_of(18)) == "FPLogin"@,
        command_name(command_of(20)) == "FPLogout"@,
        command_name(command_of(23)) == "FPMoveAndRename"@,
        command_name(command_of(24)) == "FPOpenVol"@,
        command_name(command_of(26)) == "FPOpenFork"@,
        command_name(command_of(27)) == "FPRead"@,
        command_name(command_of(28)) == "FPRename"@,
        command_name(command_of(29)) == "FPSetDirParms"@,
        command_name(command_of(31)) == "FPSetForkParms"@,
        command_name(command_of(33)) == "FPWrite"@,
        command_name(command_of(34)) == "FPGetFileDirParms"@,
        command_name(command_of(35)) == "FPSetFileDirParms"@,
        command_name(command_of(38)) == "FPGetSrvrMsg"@,
        command_name(command_of(48)) == "FPOpenDT"@,
        command_name(command_of(49)) == "FPCloseDT"@,
        command_name(command_of(51)) == "FPGetIcon"@,
        command_name(command_of(52)) == "FPGetIconInfo"@,
        command_name(command_of(53)) == "FPAddAPPL"@,
        command_name(command_of(54)) == "FPRemoveAPPL"@,
        command_name(command_of(55)) == "FPGetAPPL"@,
        command_name(command_of(56)) == "FPAddComment"@,
        command_name(command_of(57)) == "FPRemoveComment"@,
        command_name(command_of(58)) == "FPGetComment"@,
        command_name(command_of(192)) == "FPAddIcon"@,
        command_name(None) == "FPUnknown"@,
{
}

/// No other code is a command: not zero, none of those left free in between, and
/// none above 58 but 192.
pub proof fn law_other_codes_are_no_commands(code: u8)
    ensures
        code == 0 || code == 3 || code == 12 || code == 13 || code == 15 || code == 19 || code == 21 || code == 22 || code
            == 25 || code == 30 || code == 32 || code == 36 || code == 37 ==> command_of(code) is None,
        39 <= code < 48 || code == 50 || 58 < code < 192 || 192 < code ==> command_of(code) is None,
{
}

/// A reply of success has the result zero and just the data.
pub proof fn law_success_is_zero(r: AspCommandResponse, data: Seq<u8>)
    requires
        is_success(r, data),
    ensures
        r.result@[0] == 0 && r.result@[1] == 0 && r.result@[2] == 0 && r.result@[3] == 0,
        r.data@ == data,
{
}

/// Error codes are told in 32 bits, and numbers of sessions in 16, as they are
/// modulo these.
pub proof fn law_codes_are_told_in_full(code: i16)
    ensures
        sign_extended(code) == code as int % 0x1_0000_0000,
        unsigned16(code) == code as int % 0x1_0000,
        number32(be32(sign_extended(code)), 0) == if code >= 0 {
            code as int
        } else {
            0x1_0000_0000 + code
        },
{
    law_bytes_count_by_their_place(0, sign_extended(code));
}

/// The parameters of a directory that a client sets stand behind the path, at the
/// next even byte.
pub proof fn law_dir_parms_stand_at_an_even_byte(path_len: nat)
    ensures
        dir_parms_at(path_len) >= 11 + path_len,
        dir_parms_at(path_len) <= 12 + path_len,
        dir_parms_at(path_len) % 2 == 0,
{
}

/// The server's volume, and how much it reads and tells at once.
pub proof fn law_server_has_its_limits()
    ensures
        VOLUME_ID == 1234,
        MAX_READ == 4096,
        ENUMERATE_HEADER == 4,
        VOLUME_REPLY_ROOM == 128,
{
}

} // verus!
