//! The AppleTalk Filing Protocol: volumes, the desktop database and the
//! commands of a session.

use vstd::prelude::*;

pub mod desktop;
pub mod enumerate;
pub mod finder;
pub mod parms;
pub mod path;
pub mod server;
pub mod volume;

verus! {

/// Why a request is refused.
#[derive(Debug, Clone, Copy, PartialEq, Eq, Structural)]
pub enum AfpError {
    AccessDenied,
    BadVersNum,
    BitmapErr,
    DirNotEmpty,
    EoFErr,
    FileBusy,
    ItemNotFound,
    MiscErr,
    ObjectExists,
    ObjectNotFound,
    ObjectTypeErr,
    ParamError,
    RangeNotLocked,
    RangeOverlap,
}

/// The two parts of a file.
#[derive(Debug, Clone, Copy, PartialEq, Eq, Structural)]
pub enum ForkType {
    Data,
    Resource,
}

} // verus!
