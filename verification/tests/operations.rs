use skytraxx_updater::device::{find_mountpoint, Volume};
use skytraxx_updater::metadata::{parse_lines, Metadata};
use skytraxx_updater::orchestrator::{
    clean_device, descriptor_file_path, device_file_path, download_destination, extract,
    get_device_info, get_skytraxx_device, sys_info_path, unpack_dir, update_device,
    update_device_info, FrontendResult,
};
use skytraxx_updater::progress::DownloadTracker;
use skytraxx_updater::text::{eq_ignore_ascii_case, str_eq};

fn device_metadata(pairs: &[(&str, &str)]) -> Metadata {
    let mut dict = Metadata::new();
    for (k, v) in pairs {
        dict.insert(k.to_string(), v.to_string());
    }
    dict
}

#[test]
fn discover_reports_identity() {
    let dict = device_metadata(&[("hw", "Skytraxx 3.0"), ("sw", "3.0.0")]);
    let r = get_skytraxx_device(Ok(dict));
    assert_eq!(r.error, "");
    let info = r.result.unwrap();
    assert_eq!(info.device_name, "Skytraxx 3.0");
    assert_eq!(info.software_version, "3.0.0");
}

#[test]
fn discover_without_sw_key_fails() {
    let dict = device_metadata(&[("hw", "Skytraxx 3.0")]);
    let r = get_skytraxx_device(Ok(dict));
    assert!(r.result.is_none());
    assert_eq!(r.error, "software_version not found");
}

#[test]
fn discover_without_hw_key_fails() {
    let dict = device_metadata(&[("sw", "3.0.0")]);
    let r = get_skytraxx_device(Ok(dict));
    assert!(r.result.is_none());
    assert_eq!(r.error, "device_name not found");
}

#[test]
fn discover_passes_load_error_through() {
    let r: FrontendResult<_> = get_skytraxx_device(Err("Skytraxx not found".to_string()));
    assert!(r.result.is_none());
    assert_eq!(r.error, "Skytraxx not found");
}

#[test]
fn discover_strips_build_prefix() {
    let dict = device_metadata(&[("hw", "Skytraxx 3.0"), ("sw", "build-3.0.0")]);
    let r = get_skytraxx_device(Ok(dict));
    assert_eq!(r.result.unwrap().software_version, "3.0.0");
}

#[test]
fn discover_strips_only_a_leading_prefix() {
    let dict = device_metadata(&[("hw", "X"), ("sw", "v1-build-2")]);
    let r = get_skytraxx_device(Ok(dict));
    assert_eq!(r.result.unwrap().software_version, "v1-build-2");
}

#[test]
fn fetch_without_device_fails_before_any_path_exists() {
    let r = download_destination(None, "firmware.tar");
    assert_eq!(r.unwrap_err(), "Skytraxx not found");
}

#[test]
fn fetch_destination_is_under_mount_root() {
    let r = download_destination(Some("/mnt/skytraxx".to_string()), "firmware.tar");
    assert_eq!(r.unwrap(), "/mnt/skytraxx/firmware.tar");
}

#[test]
fn extract_passes_step_failure_through() {
    let r = extract(Err("No such file or directory (os error 2)".to_string()));
    assert!(r.result.is_none());
    assert_eq!(r.error, "No such file or directory (os error 2)");
}

#[test]
fn extract_reads_descriptor_at_offset_24() {
    let mut content = vec![0u8; 24];
    content.extend_from_slice(b"202401021530");
    content.extend_from_slice(b"trailing data ignored");
    let r = extract(Ok(content));
    assert_eq!(r.error, "");
    assert_eq!(r.result.unwrap(), "202401021530");
}

#[test]
fn extract_of_short_file_is_an_error() {
    let content = vec![0u8; 35];
    let r = extract(Ok(content));
    assert!(r.result.is_none());
    assert_eq!(r.error, "failed to fill whole buffer");
}

#[test]
fn extract_decodes_invalid_bytes_leniently() {
    let mut content = vec![0u8; 24];
    content.extend_from_slice(b"abc");
    content.push(0xFF);
    content.extend_from_slice(b"defghijk");
    let r = extract(Ok(content));
    assert_eq!(r.result.unwrap(), "abc\u{FFFD}defghijk");
}

#[test]
fn clean_failure_is_reported_not_swallowed() {
    let r = clean_device(Err("No such file or directory (os error 2)".to_string()));
    assert!(r.result.is_none());
    assert_eq!(r.error, "No such file or directory (os error 2)");
}

#[test]
fn clean_success_confirms() {
    let r = clean_device(Ok(()));
    assert_eq!(r.error, "");
    assert_eq!(r.result.unwrap(), "Tar removed successfully");
}

#[test]
fn update_is_an_explicit_terminal_failure() {
    let r = update_device(Some("/mnt/skytraxx".to_string()));
    assert!(r.result.is_none());
    assert_eq!(r.error, "update is not implemented");
}

#[test]
fn update_without_device_keeps_its_own_error() {
    let r = update_device(None);
    assert!(r.result.is_none());
    assert_eq!(r.error, "Skytraxx not found");
}

#[test]
fn progress_is_monotone_and_ends_at_bytes_written() {
    let mut tracker = DownloadTracker::new(15);
    let chunks: [u64; 3] = [5, 7, 3];
    let mut last: u64 = 0;
    for c in chunks {
        let p = tracker.record_chunk(c);
        assert!(p.downloaded >= last);
        assert_eq!(p.total, 15);
        last = p.downloaded;
    }
    assert_eq!(last, 15);
}

#[test]
fn progress_with_unknown_total_reports_zero_total() {
    let mut tracker = DownloadTracker::new(0);
    let p = tracker.record_chunk(4096);
    assert_eq!(p.total, 0);
    assert_eq!(p.downloaded, 4096);
}

fn volume(name: &str, mount: Option<&str>) -> Volume {
    Volume { name: name.to_string(), mount_point: mount.map(|m| m.to_string()) }
}

#[test]
fn mountpoint_lookup_ignores_ascii_case() {
    let volumes = vec![volume("root", Some("/")), volume("SKYTRAXX", Some("/mnt/skytraxx"))];
    assert_eq!(find_mountpoint(&volumes, "Skytraxx").unwrap(), "/mnt/skytraxx");
}

#[test]
fn mountpoint_lookup_takes_the_first_match() {
    let volumes = vec![
        volume("skytraxx", Some("/mnt/a")),
        volume("Skytraxx", Some("/mnt/b")),
    ];
    assert_eq!(find_mountpoint(&volumes, "SKYTRAXX").unwrap(), "/mnt/a");
}

#[test]
fn mountpoint_lookup_without_match_is_none() {
    let volumes = vec![volume("root", Some("/"))];
    assert!(find_mountpoint(&volumes, "Skytraxx").is_none());
}

#[test]
fn unrepresentable_mount_root_is_none() {
    let volumes = vec![volume("Skytraxx", None), volume("Skytraxx", Some("/mnt/skytraxx"))];
    assert!(find_mountpoint(&volumes, "Skytraxx").is_none());
}

#[test]
fn device_paths_are_rooted_at_the_mountpoint() {
    assert_eq!(device_file_path("/mnt/sky", "fw.tar"), "/mnt/sky/fw.tar");
    assert_eq!(unpack_dir("/mnt/sky"), "/mnt/sky/unpacked");
    assert_eq!(descriptor_file_path("/mnt/sky"), "/mnt/sky/unpacked/update/fw5mini.xlb");
    assert_eq!(sys_info_path("/mnt/sky"), "/mnt/sky/.sys/hwsw.info");
}

#[test]
fn device_info_from_unreadable_file_is_an_error() {
    let r = get_device_info(None);
    assert_eq!(r.unwrap_err(), "Failed to read file");
}

#[test]
fn device_info_parses_file_content() {
    let r = get_device_info(Some("hw=\"Skytraxx 3.0\"\nsw=\"3.0.0\"".to_string()));
    let dict = r.unwrap();
    assert_eq!(dict.get("hw").unwrap(), "Skytraxx 3.0");
}

#[test]
fn recording_a_version_rewrites_the_sw_entry_in_place() {
    let dict = parse_lines("hw=\"Skytraxx 3.0\"\nsw=\"3.0.0\"");
    let text = update_device_info(dict, "3.1.0");
    assert_eq!(text, "hw=\"Skytraxx 3.0\"\nsw=\"3.1.0\"\n");
}

#[test]
fn recording_a_version_appends_when_absent() {
    let dict = parse_lines("hw=\"Skytraxx 3.0\"");
    let text = update_device_info(dict, "3.1.0");
    assert_eq!(text, "hw=\"Skytraxx 3.0\"\nsw=\"3.1.0\"\n");
}

#[test]
fn string_comparison_helpers() {
    assert!(str_eq("abc", "abc"));
    assert!(!str_eq("abc", "abd"));
    assert!(!str_eq("abc", "ab"));
    assert!(eq_ignore_ascii_case("SkyTraxx", "sKYTRAXX"));
    assert!(!eq_ignore_ascii_case("skytraxx", "skytraxy"));
    assert!(!eq_ignore_ascii_case("päd", "pÄd"));
}
