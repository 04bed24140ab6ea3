use r_vlr_util::options::{AppOptions, OptionSource, OptionValue};
use r_vlr_util::windows::console_capture::{CaptureOptions, CapturedOutput};
use r_vlr_util::windows::error::HResult;
use r_vlr_util::windows::filetime::{
    from_ticks, ticks_from_unix_nanos, to_ticks, unix_nanos_from_ticks, FileTime, WINDOWS_TO_UNIX_EPOCH_100NS,
};
use r_vlr_util::windows::filesystem::utf16_buffer_to_string;
use r_vlr_util::windows::registry::{
    decode_utf16_bytes, store_registry_value, wide, RegistryValue, REG_BINARY, REG_DWORD, REG_EXPAND_SZ,
    REG_MULTI_SZ, REG_NONE, REG_QWORD, REG_SZ,
};
use r_vlr_util::windows::security::Sid;
use r_vlr_util::windows::security_descriptor::{Ace, AclSnapshot};
use r_vlr_util::windows::services::{dependency_units, CreateServiceConfig};

#[test]
fn service_creation_config_rejects_unquoted_spaced_path() {
    assert!(
        CreateServiceConfig::new("name", "display", "C:\\Program Files\\service.exe")
            .validate()
            .is_err()
    );
}

#[test]
fn service_names_and_quoted_paths_are_checked() {
    assert!(CreateServiceConfig::new("name", "display", "\"C:\\Program Files\\service.exe\"").validate().is_ok());
    assert!(CreateServiceConfig::new("name", "display", "C:\\service.exe").validate().is_ok());
    assert!(CreateServiceConfig::new("", "display", "C:\\service.exe").validate().is_err());
    assert!(CreateServiceConfig::new("a/b", "display", "C:\\service.exe").validate().is_err());
    assert!(CreateServiceConfig::new("a\\b", "display", "C:\\service.exe").validate().is_err());
    let long = "x".repeat(257);
    assert!(CreateServiceConfig::new(&long, "display", "C:\\service.exe").validate().is_err());
    assert_eq!(
        CreateServiceConfig::new("", "display", "x").validate(),
        Err(HResult::invalid_argument())
    );
}

#[test]
fn win32_errors_become_failure_hresults() {
    assert_eq!(HResult::from_win32(0), HResult::ok());
    let error = HResult::from_win32(5);
    assert!(error.is_failure());
    assert_eq!(error.facility(), 7);
    assert_eq!(error.code(), 5);
    assert_eq!(error.to_string(), "0x80070005");
}

#[test]
fn hresult_constants_and_text() {
    assert_eq!(HResult::fail().to_string(), "0x80004005");
    assert_eq!(HResult::invalid_argument().to_string(), "0x80070057");
    assert_eq!(HResult::not_implemented().to_string(), "0x80004001");
    assert!(HResult::false_result().is_success());
    assert_eq!(HResult::from_win32(0x1_0002).code(), 2);
    assert_eq!(HResult(0x0ABC_DEF0).to_string(), "0x0ABCDEF0");
}

#[test]
fn file_times_split_and_join_ticks() {
    let value = from_ticks(0x0123_4567_89AB_CDEF);
    assert_eq!(value, FileTime { low: 0x89AB_CDEF, high: 0x0123_4567 });
    assert_eq!(to_ticks(value), 0x0123_4567_89AB_CDEF);
}

#[test]
fn unix_epoch_ticks_round_trip() {
    let ticks = ticks_from_unix_nanos(0);
    assert_eq!(ticks, WINDOWS_TO_UNIX_EPOCH_100NS);
    assert_eq!(unix_nanos_from_ticks(ticks), Some(0));
    assert_eq!(unix_nanos_from_ticks(WINDOWS_TO_UNIX_EPOCH_100NS - 1), None);
    assert_eq!(unix_nanos_from_ticks(WINDOWS_TO_UNIX_EPOCH_100NS + 3), Some(300));
    assert_eq!(unix_nanos_from_ticks(u64::MAX), Some(u64::MAX));
    assert_eq!(ticks_from_unix_nanos(299), WINDOWS_TO_UNIX_EPOCH_100NS + 2);
    assert_eq!(ticks_from_unix_nanos(u64::MAX as u128 * 100), u64::MAX);
}

fn raw_bytes(units: &[u16]) -> Vec<u8> {
    units.iter().flat_map(|u| u.to_le_bytes()).collect()
}

#[test]
fn registry_values_decode_their_layouts() {
    assert_eq!(RegistryValue::decode(REG_NONE, vec![1, 2]), Ok(RegistryValue::NoType));
    let text = raw_bytes(&[0x68, 0x69, 0, 0x78]);
    assert_eq!(RegistryValue::decode(REG_SZ, text.clone()), Ok(RegistryValue::String("hi".into())));
    assert_eq!(RegistryValue::decode(REG_EXPAND_SZ, text), Ok(RegistryValue::ExpandString("hi".into())));
    assert_eq!(RegistryValue::decode(REG_DWORD, vec![1, 2, 3, 4, 5]), Ok(RegistryValue::Dword(0x0403_0201)));
    assert_eq!(
        RegistryValue::decode(REG_DWORD, vec![1, 2]),
        Ok(RegistryValue::Unknown { value_type: REG_DWORD, data: vec![1, 2] })
    );
    assert_eq!(
        RegistryValue::decode(REG_QWORD, vec![1, 0, 0, 0, 0, 0, 0, 0x80]),
        Ok(RegistryValue::Qword(0x8000_0000_0000_0001))
    );
    assert_eq!(RegistryValue::decode(REG_BINARY, vec![9, 8]), Ok(RegistryValue::Binary(vec![9, 8])));
    let list = raw_bytes(&[0x61, 0, 0x62, 0x63, 0, 0]);
    assert_eq!(
        RegistryValue::decode(REG_MULTI_SZ, list),
        Ok(RegistryValue::MultiString(vec!["a".into(), "bc".into()]))
    );
    assert_eq!(RegistryValue::decode(REG_MULTI_SZ, raw_bytes(&[0x61, 0])), Err(HResult::fail()));
    assert_eq!(
        RegistryValue::decode(99, vec![7]),
        Ok(RegistryValue::Unknown { value_type: 99, data: vec![7] })
    );
}

#[test]
fn registry_values_survive_storage() {
    let values = vec![
        RegistryValue::NoType,
        RegistryValue::String("värde 😀".into()),
        RegistryValue::ExpandString("%PATH%".into()),
        RegistryValue::MultiString(vec!["one".into(), "two".into()]),
        RegistryValue::MultiString(vec![]),
        RegistryValue::Dword(0xDEAD_BEEF),
        RegistryValue::Qword(0x0102_0304_0506_0708),
        RegistryValue::Binary(vec![0, 1, 2]),
        RegistryValue::Unknown { value_type: 42, data: vec![5] },
    ];
    for value in values {
        let (value_type, data) = value.to_raw();
        assert_eq!(RegistryValue::decode(value_type, data), Ok(value));
    }
    let (value_type, data) = RegistryValue::Dword(0x0403_0201).to_raw();
    assert_eq!((value_type, data), (REG_DWORD, vec![1, 2, 3, 4]));
    assert_eq!(RegistryValue::String("a".into()).to_raw(), (REG_SZ, vec![0x61, 0, 0, 0]));
}

#[test]
fn utf16_text_helpers_stop_at_nul() {
    assert_eq!(wide("ab"), vec![0x61, 0x62, 0]);
    assert_eq!(decode_utf16_bytes(&[0x61, 0, 0x62, 0, 0, 0, 0x63, 0]), "ab");
    assert_eq!(decode_utf16_bytes(&[0x61, 0, 0x62]), "a");
    assert_eq!(utf16_buffer_to_string(&[0x61, 0xD800, 0, 0x62]), "a\u{fffd}");
    assert_eq!(utf16_buffer_to_string(&[0x61, 0x62]), "ab");
}

#[test]
fn registry_values_become_options() {
    let mut options = AppOptions::default();
    assert!(store_registry_value(&mut options, "Level", RegistryValue::Dword(3)));
    assert!(store_registry_value(&mut options, "Name", RegistryValue::ExpandString("x".into())));
    assert!(!store_registry_value(&mut options, "Empty", RegistryValue::NoType));
    assert_eq!(options.get("level"), Some(&OptionValue::U64(3)));
    assert_eq!(options.get("name"), Some(&OptionValue::from("x")));
    assert_eq!(options.get("empty"), None);
    assert_eq!(options.find_by_native_name("Level").unwrap().source, OptionSource::SystemConfigRepository);
}

fn ace(flags: u8, sid: &[u8]) -> Ace {
    Ace {
        ace_type: 0,
        flags,
        bytes: vec![0, flags, 8, 0, 1, 0, 0, 0],
        access_mask: Ace::access_mask_from(0, &[0, flags, 8, 0, 1, 0, 0, 0]),
        sid: Some(Sid::from_bytes(sid.to_vec())),
    }
}

#[test]
fn acl_snapshots_compare_entries() {
    let inherited = AclSnapshot { entries: vec![ace(0x10, &[1, 2]), ace(0x13, &[3])] };
    assert!(inherited.entirely_inherited());
    let mixed = AclSnapshot { entries: vec![ace(0x10, &[1, 2]), ace(0x02, &[3])] };
    assert!(!mixed.entirely_inherited());
    assert!(AclSnapshot { entries: vec![] }.entirely_inherited());
    assert!(inherited.effectively_identical(&inherited.clone()));
    assert!(!inherited.effectively_identical(&mixed));
    let other_sid = AclSnapshot { entries: vec![ace(0x10, &[1, 3]), ace(0x13, &[3])] };
    assert!(!inherited.effectively_identical(&other_sid));
    assert_eq!(Ace::access_mask_from(0, &[0, 0, 8, 0, 0x01, 0x02, 0x03, 0x04]), Some(0x0403_0201));
    assert_eq!(Ace::access_mask_from(5, &[]), None);
    assert!(!ace(0, &[1]).is_inherited());
    assert_eq!(Sid::from_bytes(vec![1, 5]).as_bytes(), &[1, 5]);
}

#[test]
fn captured_output_reads_lines_and_text() {
    let output = CapturedOutput {
        stdout: b"first\r\nsecond\n".to_vec(),
        stderr: b"bad \xff byte".to_vec(),
    };
    assert_eq!(output.stdout_lines(), vec!["first".to_owned(), "second".to_owned()]);
    assert!(output.contains_stdout("cond"));
    assert!(!output.contains_stdout("third"));
    assert!(output.contains_stdout(""));
    assert_eq!(output.stderr_lines(), vec!["bad \u{fffd} byte".to_owned()]);
    assert!(output.contains_stderr("\u{fffd}"));
    assert!(!output.contains_stderr("xyz"));
    let options = CaptureOptions::all();
    assert!(options.stdout && options.stderr);
    assert_eq!(CaptureOptions::default(), CaptureOptions { stdout: false, stderr: false });
}

#[test]
fn service_dependencies_form_a_multi_string() {
    assert_eq!(dependency_units(None), None);
    assert_eq!(dependency_units(Some(&[])), None);
    assert_eq!(dependency_units(Some(&["ab", "c"])), Some(vec![0x61, 0x62, 0, 0x63, 0, 0]));
}

#[test]
fn filetime_round_trips_unix_epoch() {
    let unix_epoch = std::time::UNIX_EPOCH;
    let nanos = unix_epoch.duration_since(std::time::UNIX_EPOCH).unwrap().as_nanos();
    let file_time = from_ticks(ticks_from_unix_nanos(nanos));
    let back = unix_nanos_from_ticks(to_ticks(file_time))
        .map(|n| std::time::UNIX_EPOCH + std::time::Duration::from_nanos(n));
    assert_eq!(back, Some(unix_epoch));
}

#[test]
fn ace_entries_are_read_from_their_bytes() {
    let allowed = Ace::from_entry_bytes(vec![0, 0x10, 8, 0, 0x01, 0x02, 0x03, 0x04], Some(Sid::from_bytes(vec![1])));
    assert_eq!(allowed.ace_type, 0);
    assert_eq!(allowed.flags, 0x10);
    assert_eq!(allowed.access_mask, Some(0x0403_0201));
    assert!(allowed.is_inherited());
    let other = Ace::from_entry_bytes(vec![5, 0x02, 4, 0], None);
    assert_eq!(other.ace_type, 5);
    assert_eq!(other.access_mask, None);
    assert!(Ace::carries_mask_and_sid(1));
    assert!(!Ace::carries_mask_and_sid(2));
}
