//! What the packet interceptor says of a packet, and of its own failures.

use crate::number::{format_i32, signed_decimal};
use crate::text::chars_of;
use vstd::prelude::*;

verus! {

/// Set in an address's flags where the packet is IPv6.
pub const WINDIVERT_FLAG_IPV6: u32 = 0x0010_0000;

/// Set in an address's flags where the packet leaves this machine.
pub const WINDIVERT_FLAG_OUTBOUND: u32 = 0x0002_0000;

/// What the interceptor hands over with a packet and takes back with it.
#[derive(Debug, Clone, Copy)]
pub struct WinDivertAddress {
    pub timestamp: i64,
    pub flags: u32,
    pub reserved2: u32,
    pub if_idx: u32,
    pub sub_if_idx: u32,
    pub padding: [u8; 56],
}

impl Default for WinDivertAddress {
    fn default() -> (r: Self)
        ensures
            r.timestamp == 0,
            r.flags == 0,
            r.reserved2 == 0,
            r.if_idx == 0,
            r.sub_if_idx == 0,
            forall|i: int| 0 <= i < 56 ==> #[trigger] r.padding@[i] == 0,
    {
        WinDivertAddress {
            timestamp: 0,
            flags: 0,
            reserved2: 0,
            if_idx: 0,
            sub_if_idx: 0,
            padding: [0;56],
        }
    }
}

impl WinDivertAddress {
    /// Whether the packet leaves this machine.
    pub fn is_outbound(self) -> (r: bool)
        ensures
            r == (self.flags & WINDIVERT_FLAG_OUTBOUND != 0),
    {
        (self.flags & WINDIVERT_FLAG_OUTBOUND) != 0
    }

    /// Whether the packet is IPv6.
    pub fn is_ipv6(self) -> (r: bool)
        ensures
            r == (self.flags & WINDIVERT_FLAG_IPV6 != 0),
    {
        (self.flags & WINDIVERT_FLAG_IPV6) != 0
    }
}

/// Why the interceptor did not open.
#[derive(Debug)]
pub enum WinDivertError {
    MissingDll,
    MissingDriver,
    /// The library or one of its functions could not be loaded; the loader's words.
    Load(String),
    AccessDenied,
    DriverNotFound,
    OpenFailed(i32),
}

/// What a failure says.
pub open spec fn divert_message(e: WinDivertError) -> Seq<char> {
    match e {
        WinDivertError::MissingDll => "WinDivert.dll not found next to the executable."@,
        WinDivertError::MissingDriver => "WinDivert64.sys not found next to the executable."@,
        WinDivertError::Load(cause) => "failed to load WinDivert.dll: "@ + cause@,
        WinDivertError::AccessDenied => "Access denied. Run as Administrator."@,
        WinDivertError::DriverNotFound => "WinDivert driver not found."@,
        WinDivertError::OpenFailed(code) => "WinDivert failed to open (error "@ + signed_decimal(
            code as int,
        ) + ")."@,
    }
}

impl WinDivertError {
    /// What went wrong, in words.
    pub fn message(&self) -> (r: String)
        ensures
            r@ == divert_message(*self),
    {
        match self {
            WinDivertError::MissingDll => String::from_str(
                "WinDivert.dll not found next to the executable.",
            ),
            WinDivertError::MissingDriver => String::from_str(
                "WinDivert64.sys not found next to the executable.",
            ),
            WinDivertError::Load(cause) => {
                let mut out = String::from_str("failed to load WinDivert.dll: ");
                out.append(cause.as_str());
                out
            },
            WinDivertError::AccessDenied => String::from_str(
                "Access denied. Run as Administrator.",
            ),
            WinDivertError::DriverNotFound => String::from_str("WinDivert driver not found."),
            WinDivertError::OpenFailed(code) => {
                let mut out = String::from_str("WinDivert failed to open (error ");
                let number = format_i32(*code);
                out.append(number.as_str());
                out.append(").");
                out
            },
        }
    }
}

/// The path of a file in a directory: a separator goes between them, unless the directory is
/// empty, ends with one, or is only a drive.
pub open spec fn path_in(dir: Seq<char>, file: Seq<char>) -> Seq<char> {
    if dir.len() == 0 || dir.last() == '\\' || dir.last() == '/' || (dir.len() == 2 && dir[1]
        == ':') {
        dir + file
    } else {
        dir.push('\\') + file
    }
}

fn join_path(dir: &str, file: &str) -> (r: String)
    ensures
        r@ == path_in(dir@, file@),
{
    let chars = chars_of(dir);
    let n: usize = chars.len();
    let mut out = String::from_str(dir);
    if !(n == 0 || chars[n - 1] == '\\' || chars[n - 1] == '/' || (n == 2 && chars[1] == ':')) {
        out.push('\\');
    }
    out.append(file);
    out
}

/// Where the interceptor's library and driver are expected: next to the program.
pub fn expected_paths(exe_dir: &str) -> (r: (String, String))
    ensures
        r.0@ == path_in(exe_dir@, "WinDivert.dll"@),
        r.1@ == path_in(exe_dir@, "WinDivert64.sys"@),
{
    (join_path(exe_dir, "WinDivert.dll"), join_path(exe_dir, "WinDivert64.sys"))
}

/// Whether the files that the interceptor needs lie next to the program: the library is looked
/// for first, then the driver.
pub fn check_files(has_library: bool, has_driver: bool) -> (r: Result<(), WinDivertError>)
    ensures
        r == (if !has_library {
            Err(WinDivertError::MissingDll)
        } else if !has_driver {
            Err(WinDivertError::MissingDriver)
        } else {
            Ok(())
        }),
{
    if !has_library {
        return Err(WinDivertError::MissingDll);
    }
    if !has_driver {
        return Err(WinDivertError::MissingDriver);
    }
    Ok(())
}

/// What the system's error code says when the interceptor's handle did not open.
pub fn open_failure(code: i32) -> (r: WinDivertError)
    ensures
        r == (if code == 5 {
            WinDivertError::AccessDenied
        } else if code == 2 {
            WinDivertError::DriverNotFound
        } else {
            WinDivertError::OpenFailed(code)
        }),
{
    match code {
        5 => WinDivertError::AccessDenied,
        2 => WinDivertError::DriverNotFound,
        other => WinDivertError::OpenFailed(other),
    }
}

/// Each failure says which it is: what is missing by its file, a refusal by what helps, and any other
/// with the system's words or number.
pub proof fn failures_say_what_they_are(cause: String, code: i32)
    ensures
        divert_message(WinDivertError::MissingDll)
            == "WinDivert.dll not found next to the executable."@,
        divert_message(WinDivertError::MissingDriver)
            == "WinDivert64.sys not found next to the executable."@,
        divert_message(WinDivertError::AccessDenied) == "Access denied. Run as Administrator."@,
        divert_message(WinDivertError::DriverNotFound) == "WinDivert driver not found."@,
        divert_message(WinDivertError::Load(cause)) == "failed to load WinDivert.dll: "@ + cause@,
        divert_message(WinDivertError::OpenFailed(code)) == "WinDivert failed to open (error "@
            + signed_decimal(code as int) + ")."@,
{
}

} // verus!
