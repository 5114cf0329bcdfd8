//! AppleTalk protocol logic: addressing, routing, transports, printing and file
//! service.
//!
//! Every protocol is a state machine on plain values. What comes in from a
//! link, a timer or a client is handed to a function of the machine, which
//! returns what has to be sent or told; the program around the library does
//! the sending. Times are milliseconds on a clock that the program keeps.

use vstd::prelude::*;

pub mod addr;
pub mod addressing;
pub mod adsp;
pub mod afp;
pub mod asp;
pub mod atp;
mod bytebuf;
pub mod ddp;
pub mod echo;
pub mod ethertalk;
pub mod idmap;
pub mod link;
pub mod nbp;
pub mod pap;
mod pending;
pub mod processor;
mod random;
pub mod remote;
pub mod route_table;
pub mod rtmp;
pub mod seqs;
pub mod strmap;
pub mod stylewriter;
mod text;
pub mod wire;
pub mod zip;

pub use link::{DataLinkPacket, DataLinkProtocol};

verus! {

/// Seconds from the Unix epoch to the start of 2000, the AFP 2.x epoch.
pub const AFP2_EPOCH_OFFSET: i64 = 946_684_800;

/// Seconds from the start of 1904, the AFP 1.x epoch, to the Unix epoch.
pub const MAC_TO_UNIX_EPOCH_OFFSET: i64 = 2_082_844_800;

/// A number of seconds as a date: none where it is negative, and the low 32
/// bits of what does not fit.
pub open spec fn date_of(secs: int) -> u32 {
    if secs < 0 {
        0
    } else {
        (secs % 0x1_0000_0000) as u32
    }
}

/// The AFP 2.x date of a Unix time: seconds since the start of 2000, none for
/// an earlier time.
pub open spec fn afp_date(unix_secs: i64) -> u32 {
    date_of(unix_secs - AFP2_EPOCH_OFFSET)
}

/// The AFP 1.x date of a Unix time, which is negative before 1970: seconds since
/// the start of 1904, none for an earlier time.
pub open spec fn afp_date_v1(unix_secs: i64) -> u32 {
    date_of(unix_secs + MAC_TO_UNIX_EPOCH_OFFSET)
}

fn to_date(secs: i128) -> (date: u32)
    requires
        secs <= u64::MAX,
    ensures
        date == date_of(secs as int),
{
    if secs < 0 {
        0
    } else {
        (secs as u64 % 0x1_0000_0000) as u32
    }
}

/// Converts a Unix time to a date for AFP 2.x.
pub fn time_to_afp(unix_secs: i64) -> (date: u32)
    ensures
        date == afp_date(unix_secs),
{
    to_date(unix_secs as i128 - AFP2_EPOCH_OFFSET as i128)
}

/// Converts a Unix time, which is negative before 1970, to a date for AFP 1.x.
pub fn time_to_afp_v1(unix_secs: i64) -> (date: u32)
    ensures
        date == afp_date_v1(unix_secs),
{
    to_date(unix_secs as i128 + MAC_TO_UNIX_EPOCH_OFFSET as i128)
}

/// From the start of 1904 on, a date for AFP 1.x counts the seconds since then,
/// until they no longer fit.
pub proof fn law_dates_count_from_1904(unix_secs: i64)
    requires
        -MAC_TO_UNIX_EPOCH_OFFSET <= unix_secs,
        unix_secs + MAC_TO_UNIX_EPOCH_OFFSET <= u32::MAX,
    ensures
        afp_date_v1(unix_secs) == unix_secs + MAC_TO_UNIX_EPOCH_OFFSET,
{
}

/// From the start of 2000 on, a date for AFP 1.x and one for AFP 2.x of the same
/// time differ by the distance of the epochs, in 32 bits.
pub proof fn law_dates_differ_by_the_epochs(unix_secs: i64)
    requires
        AFP2_EPOCH_OFFSET <= unix_secs,
    ensures
        (afp_date_v1(unix_secs) - afp_date(unix_secs)) % 0x1_0000_0000 == (MAC_TO_UNIX_EPOCH_OFFSET + AFP2_EPOCH_OFFSET)
            % 0x1_0000_0000,
{
    let late = unix_secs + MAC_TO_UNIX_EPOCH_OFFSET;
    let early = unix_secs - AFP2_EPOCH_OFFSET;
    assert((late % 0x1_0000_0000 - early % 0x1_0000_0000) % 0x1_0000_0000 == (late - early) % 0x1_0000_0000);
}

/// A date for AFP 1.x counts the seconds since the start of 1904, which is
/// 2082844800 seconds before the start of 1970; one for AFP 2.x counts them since
/// the start of 2000, 946684800 seconds after it. What lies before is zero, and
/// what lies too far behind is counted from zero again.
pub proof fn law_dates_are_seconds(unix_secs: i64)
    ensures
        -2082844800 <= unix_secs ==> afp_date_v1(unix_secs) == (unix_secs + 2082844800) % 0x1_0000_0000,
        unix_secs < -2082844800 ==> afp_date_v1(unix_secs) == 0,
        946684800 <= unix_secs ==> afp_date(unix_secs) == (unix_secs - 946684800) % 0x1_0000_0000,
        unix_secs < 946684800 ==> afp_date(unix_secs) == 0,
{
}

/// A second later is a second more, as long as dates last.
pub proof fn law_dates_go_on(unix_secs: i64)
    requires
        -2082844800 <= unix_secs < 2212122495,
    ensures
        afp_date_v1((unix_secs + 1) as i64) == afp_date_v1(unix_secs) + 1,
        946684800 <= unix_secs ==> afp_date((unix_secs + 1) as i64) == afp_date(unix_secs) + 1,
{
}

} // verus!
