use reboot_to::os::linux::{get_boot_info_from_str, BootEntry, BootInfo, ParseError};

fn entries(info: &BootInfo) -> Vec<(u32, String)> {
    info.boot_entries
        .iter()
        .map(|e| (e.boot_num, e.boot_label.clone()))
        .collect()
}

fn malformed(text: &str) -> (String, String) {
    match get_boot_info_from_str(text) {
        Err(ParseError::MalformedField { key, value }) => (key, value),
        Ok(info) => panic!("parsed: {info:?}"),
    }
}

#[test]
fn end_to_end_report() {
    let text = "BootCurrent: 0002\nBootOrder: 0000,0002,0001\nBoot0000* Windows Boot Manager\tHD(...)\nBoot0001* Linux\tHD(...)\nBoot0002* Diagnostics\tHD(...)\n";
    let info = get_boot_info_from_str(text).unwrap();
    assert_eq!(info.boot_current, 2);
    assert_eq!(info.boot_order, vec![0, 2, 1]);
    assert_eq!(info.boot_next, None);
    assert_eq!(info.timeout, None);
    assert_eq!(
        entries(&info),
        vec![
            (0, "Windows Boot Manager".to_string()),
            (1, "Linux".to_string()),
            (2, "Diagnostics".to_string()),
        ]
    );
    let current = info.current_entry().unwrap();
    assert_eq!(current.boot_num, 2);
    assert_eq!(current.boot_label, "Diagnostics");
}

#[test]
fn malformed_boot_current() {
    let (key, value) = malformed("BootCurrent: abc");
    assert_eq!(key, "BootCurrent");
    assert_eq!(value, "abc");
}

#[test]
fn malformed_fields_of_each_key() {
    assert_eq!(malformed("BootNext: x1"), ("BootNext".to_string(), "x1".to_string()));
    assert_eq!(malformed("Timeout: 1 seconds"), ("Timeout".to_string(), "1 seconds".to_string()));
    assert_eq!(malformed("BootOrder: 0000,zz,0001"), ("BootOrder".to_string(), "0000,zz,0001".to_string()));
    assert_eq!(malformed("BootOrder:"), ("BootOrder".to_string(), "".to_string()));
    assert_eq!(malformed("BootCurrent: 4294967296"), ("BootCurrent".to_string(), "4294967296".to_string()));
    assert_eq!(malformed("BootCurrent: -1"), ("BootCurrent".to_string(), "-1".to_string()));
}

#[test]
fn error_stops_at_first_malformed_line() {
    assert_eq!(
        malformed("BootCurrent: 1\nBootNext: q\nTimeout: r"),
        ("BootNext".to_string(), "q".to_string())
    );
}

#[test]
fn empty_input() {
    let info = get_boot_info_from_str("").unwrap();
    assert_eq!(info.boot_current, 0);
    assert!(info.boot_order.is_empty());
    assert!(info.boot_entries.is_empty());
    assert_eq!(info.boot_next, None);
    assert_eq!(info.timeout, None);
    assert!(info.current_entry().is_none());
}

#[test]
fn whitespace_only_input() {
    let info = get_boot_info_from_str("  \n\t\r\n   \n").unwrap();
    assert_eq!(info.boot_current, 0);
    assert!(info.boot_order.is_empty());
    assert!(info.boot_entries.is_empty());
    assert_eq!(info.boot_next, None);
    assert_eq!(info.timeout, None);
}

#[test]
fn all_recognised_fields() {
    let text = "BootNext: 0003\nBootCurrent: +7\nTimeout: 5\nBootOrder: 0003 , 0007,0001\r\n";
    let info = get_boot_info_from_str(text).unwrap();
    assert_eq!(info.boot_next, Some(3));
    assert_eq!(info.boot_current, 7);
    assert_eq!(info.timeout, Some(5));
    assert_eq!(info.boot_order, vec![3, 7, 1]);
}

#[test]
fn duplicate_entry_number_takes_later_label() {
    let text = "Boot0004* First\tPath\nBoot0005* Other\tPath\nBoot0004* Second\tPath";
    let info = get_boot_info_from_str(text).unwrap();
    assert_eq!(
        entries(&info),
        vec![(4, "Second".to_string()), (5, "Other".to_string())]
    );
}

#[test]
fn entry_numbers_are_unique() {
    let text = "Boot0001* A\tx\nBoot0002* B\tx\nBoot0001* C\tx\nBoot0002* D\tx\nBoot0001* E\tx";
    let info = get_boot_info_from_str(text).unwrap();
    let nums: Vec<u32> = info.boot_entries.iter().map(|e| e.boot_num).collect();
    assert_eq!(nums, vec![1, 2]);
    assert_eq!(entries(&info)[0].1, "E");
    assert_eq!(entries(&info)[1].1, "D");
}

#[test]
fn unknown_keys_and_noise_are_ignored() {
    let base = "BootCurrent: 0001\nBoot0001* Linux\tHD(1)\nBootOrder: 0001";
    let noisy = "BootCurrent: 0001\nMirrored: yes\nBoot0001* Linux\tHD(1)\nsome explanatory text\nBootOrder: 0001\nBoot12* short\tx";
    let a = get_boot_info_from_str(base).unwrap();
    let b = get_boot_info_from_str(noisy).unwrap();
    assert_eq!(a.boot_current, b.boot_current);
    assert_eq!(a.boot_order, b.boot_order);
    assert_eq!(a.boot_next, b.boot_next);
    assert_eq!(a.timeout, b.timeout);
    assert_eq!(entries(&a), entries(&b));
}

#[test]
fn entry_line_shapes() {
    // A trailing tab is trimmed with the line, so the label has no end.
    let info = get_boot_info_from_str("Boot0003* Lonely\t").unwrap();
    assert!(info.boot_entries.is_empty());
    // The label ends at the first tab after its first character.
    let info = get_boot_info_from_str("Boot0003* A\tB\tC").unwrap();
    assert_eq!(entries(&info), vec![(3, "A".to_string())]);
    // The entry may stand after other text on the line.
    let info = get_boot_info_from_str("xxBoot0042* Far\tpath").unwrap();
    assert_eq!(entries(&info), vec![(42, "Far".to_string())]);
    // Without the asterisk the line is not an entry.
    let info = get_boot_info_from_str("Boot0003 Inactive\tpath").unwrap();
    assert!(info.boot_entries.is_empty());
    // A colon anywhere makes the line a field.
    let info = get_boot_info_from_str("Boot0003* Name\tFile(a:b)").unwrap();
    assert!(info.boot_entries.is_empty());
}

#[test]
fn current_entry_missing() {
    let info = get_boot_info_from_str("BootCurrent: 0009\nBoot0001* Linux\tx").unwrap();
    assert!(info.current_entry().is_none());
}

#[test]
fn entry_display_string() {
    let e = BootEntry { boot_num: 2, boot_label: "Diagnostics".to_string() };
    assert_eq!(e.to_display_string(), "2: Diagnostics");
    let e = BootEntry { boot_num: 1234, boot_label: String::new() };
    assert_eq!(e.to_display_string(), "1234: ");
}

#[test]
fn new_info_is_empty() {
    let info = BootInfo::new();
    assert_eq!(info.boot_current, 0);
    assert!(info.boot_entries.is_empty());
}

#[test]
fn written_report_reads_back() {
    let text = "BootCurrent: 17\nBootNext: 4\nTimeout: 0\nBootOrder: 4,17,9999\nBoot0004* USB stick\tPciRoot(0x0)/USB(1,0)\nBoot0017* debian\tHD(1,GPT)/File(\\EFI\\debian\\shimx64.efi)\nBoot9999* x\ty";
    let info = get_boot_info_from_str(text).unwrap();
    assert_eq!(info.boot_current, 17);
    assert_eq!(info.boot_next, Some(4));
    assert_eq!(info.timeout, Some(0));
    assert_eq!(info.boot_order, vec![4, 17, 9999]);
    assert_eq!(
        entries(&info),
        vec![
            (4, "USB stick".to_string()),
            (17, "debian".to_string()),
            (9999, "x".to_string()),
        ]
    );
}

#[test]
fn written_report_reads_back_in_any_order() {
    let text = "Boot0017* debian\tHD(x)\nTimeout: 3\nBoot0004* USB stick\tHD(x)\nBootOrder: 17,4,17\nBootNext: 4\nBootCurrent: 17";
    let info = get_boot_info_from_str(text).unwrap();
    assert_eq!(info.boot_current, 17);
    assert_eq!(info.boot_next, Some(4));
    assert_eq!(info.timeout, Some(3));
    assert_eq!(info.boot_order, vec![17, 4, 17]);
    let mut got = entries(&info);
    got.sort();
    assert_eq!(got, vec![(4, "USB stick".to_string()), (17, "debian".to_string())]);
}
