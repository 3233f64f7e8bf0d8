//! The platforms the tool runs on, and the decisions of the firmware access
//! gateway: who may change the next boot target, what the boot manager is
//! asked, and what its answers mean.
use vstd::prelude::*;

pub mod linux;

use crate::os::linux::{get_boot_info_from_str, parse_report, BootInfo, BootInfoView, ParseError};
use crate::text::{chars_of, decimal, push_decimal, range_is, trim, trimmed};

verus! {

/// The platforms the tool knows of.
#[derive(Debug, Clone, Copy, PartialEq, Eq, Structural)]
pub enum OperatingSystemType {
    Linux,
    Windows,
}

impl OperatingSystemType {
    /// The platform that an operating system name (`linux`, `windows`) stands
    /// for; any other name has no implementation.
    pub fn from_os_name(name: &str) -> (r: Option<OperatingSystemType>)
        ensures
            r == (if name@ == "linux"@ {
                Some(OperatingSystemType::Linux)
            } else if name@ == "windows"@ {
                Some(OperatingSystemType::Windows)
            } else {
                None
            }),
    {
        let t = chars_of(name);
        assert(t@.subrange(0, t@.len() as int) =~= t@);
        if range_is(&t, 0, t.len(), "linux") {
            Some(OperatingSystemType::Linux)
        } else if range_is(&t, 0, t.len(), "windows") {
            Some(OperatingSystemType::Windows)
        } else {
            None
        }
    }
}

/// A failure to read or change the firmware boot configuration.
#[derive(Debug)]
pub enum AccessError {
    /// The boot manager could not be run or reported failure, with its diagnostic.
    ToolFailed { stderr: String },
    /// The boot manager's output was not text.
    Encoding,
    /// Changing the boot configuration needs administrative privilege.
    PermissionDenied,
    /// The boot manager's report did not follow its grammar.
    Malformed(ParseError),
}

/// Linux, where the boot configuration is read and changed through `efibootmgr`.
pub struct Linux;

/// Windows, for which no implementation is maintained.
pub struct Windows;

/// Relies on nix's `Uid::effective` and `Uid::is_root`: whether the process
/// runs with the root user's rights. It depends on the process, so nothing is
/// promised of the answer.
#[verifier::external_body]
fn effective_user_is_root() -> bool {
    nix::unistd::Uid::effective().is_root()
}

impl Linux {
    /// The programs the platform needs.
    pub fn get_required_binaries(&self) -> (r: Vec<&'static str>)
        ensures
            r@.len() == 1,
            r@[0]@ == "efibootmgr"@,
    {
        proof {
            reveal_strlit("efibootmgr");
        }
        let mut r: Vec<&'static str> = Vec::new();
        r.push("efibootmgr");
        r
    }

    /// The arguments that make `num` the boot manager's next boot target.
    pub fn boot_next_args(num: u32) -> (r: Vec<String>)
        ensures
            r@.len() == 2,
            r@[0]@ == "--bootnext"@,
            r@[1]@ == decimal(num as nat),
    {
        let mut n = String::new();
        push_decimal(&mut n, num);
        assert(n@ =~= decimal(num as nat));
        let mut r: Vec<String> = Vec::new();
        r.push("--bootnext".to_owned());
        r.push(n);
        r
    }

    /// The decision before the next boot target is changed: without elevation
    /// the change is refused and nothing is run; with it, the boot manager is
    /// run with these arguments.
    pub fn plan_boot_next(elevated: bool, num: u32) -> (r: Result<Vec<String>, AccessError>)
        ensures
            !elevated <==> r matches Err(AccessError::PermissionDenied),
            elevated ==> (r matches Ok(args) && args@.len() == 2 && args@[0]@ == "--bootnext"@
                && args@[1]@ == decimal(num as nat)),
    {
        if !elevated {
            Err(AccessError::PermissionDenied)
        } else {
            Ok(Linux::boot_next_args(num))
        }
    }

    /// The same decision, made on the rights of the running process.
    pub fn prepare_boot_next(&self, num: u32) -> (r: Result<Vec<String>, AccessError>)
        ensures
            r matches Err(e) ==> e is PermissionDenied,
            r matches Ok(args) ==> args@.len() == 2 && args@[0]@ == "--bootnext"@ && args@[1]@
                == decimal(num as nat),
    {
        Linux::plan_boot_next(effective_user_is_root(), num)
    }

    /// What a run of the boot manager that changed the next boot target means:
    /// success, or `ToolFailed` with its diagnostic trimmed (empty when the
    /// diagnostic was not text).
    pub fn boot_next_outcome(success: bool, stderr: Option<&str>) -> (r: Result<(), AccessError>)
        ensures
            success ==> r is Ok,
            !success ==> match stderr {
                Some(s) => r matches Err(AccessError::ToolFailed { stderr: m }) && m@ == trim(s@),
                None => r matches Err(AccessError::ToolFailed { stderr: m }) && m@.len() == 0,
            },
    {
        if success {
            Ok(())
        } else {
            match stderr {
                Some(s) => Err(AccessError::ToolFailed { stderr: trimmed(s) }),
                None => Err(AccessError::ToolFailed { stderr: String::new() }),
            }
        }
    }

    /// What a run of the boot manager that read the configuration means: its
    /// report parsed when it succeeded with text on its output, `Encoding` when
    /// that output was not text; `ToolFailed` when it failed, with its
    /// diagnostic trimmed (empty when the diagnostic was not text).
    pub fn read_outcome(success: bool, stdout: Option<&str>, stderr: Option<&str>) -> (r: Result<
        BootInfo,
        AccessError,
    >)
        ensures
            !success ==> match stderr {
                Some(s) => r matches Err(AccessError::ToolFailed { stderr: m }) && m@ == trim(s@),
                None => r matches Err(AccessError::ToolFailed { stderr: m }) && m@.len() == 0,
            },
            success ==> match stdout {
                None => r matches Err(AccessError::Encoding),
                Some(out) => match parse_report(out@) {
                    Ok(v) => r matches Ok(info) && info@ == v,
                    Err(e) => r matches Err(AccessError::Malformed(x)) && x@ == e,
                },
            },
    {
        if !success {
            match stderr {
                Some(s) => Err(AccessError::ToolFailed { stderr: trimmed(s) }),
                None => Err(AccessError::ToolFailed { stderr: String::new() }),
            }
        } else {
            match stdout {
                None => Err(AccessError::Encoding),
                Some(out) => match get_boot_info_from_str(out) {
                    Ok(info) => Ok(info),
                    Err(e) => Err(AccessError::Malformed(e)),
                },
            }
        }
    }
}

} // verus!
