use reboot_to::os::linux::ParseError;
use reboot_to::os::{AccessError, Linux, OperatingSystemType};

#[test]
fn boot_next_without_elevation_is_refused() {
    assert!(matches!(Linux::plan_boot_next(false, 3), Err(AccessError::PermissionDenied)));
}

#[test]
fn boot_next_with_elevation_asks_the_manager() {
    let args = Linux::plan_boot_next(true, 3).unwrap();
    assert_eq!(args, vec!["--bootnext".to_string(), "3".to_string()]);
    let args = Linux::boot_next_args(4294967295);
    assert_eq!(args[1], "4294967295");
    assert_eq!(Linux::boot_next_args(0)[1], "0");
    assert_eq!(Linux::boot_next_args(10)[1], "10");
}

#[test]
fn boot_next_outcomes() {
    assert!(Linux::boot_next_outcome(true, Some("ignored")).is_ok());
    match Linux::boot_next_outcome(false, Some("  Could not set BootNext \n")) {
        Err(AccessError::ToolFailed { stderr }) => assert_eq!(stderr, "Could not set BootNext"),
        other => panic!("{other:?}"),
    }
    match Linux::boot_next_outcome(false, None) {
        Err(AccessError::ToolFailed { stderr }) => assert_eq!(stderr, ""),
        other => panic!("{other:?}"),
    }
}

#[test]
fn read_outcomes() {
    let info = Linux::read_outcome(true, Some("BootCurrent: 0001\nBoot0001* A\tx"), None).unwrap();
    assert_eq!(info.boot_current, 1);
    assert_eq!(info.boot_entries.len(), 1);
    match Linux::read_outcome(true, Some("BootNext: nope"), Some("")) {
        Err(AccessError::Malformed(ParseError::MalformedField { key, value })) => {
            assert_eq!(key, "BootNext");
            assert_eq!(value, "nope");
        }
        other => panic!("{other:?}"),
    }
    assert!(matches!(Linux::read_outcome(true, None, None), Err(AccessError::Encoding)));
    match Linux::read_outcome(false, Some("x"), None) {
        Err(AccessError::ToolFailed { stderr }) => assert_eq!(stderr, ""),
        other => panic!("{other:?}"),
    }
    match Linux::read_outcome(false, Some("x"), Some(" EFI variables are not supported \n")) {
        Err(AccessError::ToolFailed { stderr }) => {
            assert_eq!(stderr, "EFI variables are not supported")
        }
        other => panic!("{other:?}"),
    }
}

#[test]
fn platform_names() {
    assert_eq!(OperatingSystemType::from_os_name("linux"), Some(OperatingSystemType::Linux));
    assert_eq!(OperatingSystemType::from_os_name("windows"), Some(OperatingSystemType::Windows));
    assert_eq!(OperatingSystemType::from_os_name("macos"), None);
    assert_eq!(OperatingSystemType::from_os_name("Linux"), None);
}

#[test]
fn required_binaries() {
    assert_eq!(Linux.get_required_binaries(), vec!["efibootmgr"]);
}
