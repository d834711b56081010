//! The user-facing operations: discover, fetch, extract, update and clean,
//! each yielding a uniform result.
//!
//! Every operation's surrounding I/O — volume enumeration, file reads and
//! writes, the network transfer, the archive unpacking — happens in the
//! caller, which hands the outcomes in as plain values; the decisions on
//! those outcomes are made and verified here.

use crate::descriptor::{descriptor_bytes, descriptor_from_bytes, descriptor_ok, lossy_text_of};
use crate::metadata::{parse_lines, parse_spec, serialize_spec, upsert_entries, write_lines, Metadata};
use vstd::prelude::*;

verus! {

/// The device's identity: its hardware name and its software version.
pub struct DeviceInfo {
    pub device_name: String,
    pub software_version: String,
}

/// The uniform outcome of a user-facing operation: an error message, or a
/// success payload.
pub struct FrontendResult<T> {
    pub error: String,
    pub result: Option<T>,
}

impl<T> FrontendResult<T> {
    /// A failed outcome carrying the given message and no payload.
    pub fn error(error: String) -> (r: Self)
        ensures
            r.error == error,
            r.result is None,
    {
        FrontendResult { error, result: None }
    }

    /// A successful outcome carrying the payload and an empty message.
    pub fn result(result: T) -> (r: Self)
        ensures
            r.error@ == Seq::<char>::empty(),
            r.result == Some(result),
    {
        FrontendResult { error: String::new(), result: Some(result) }
    }
}

/// The version prefix that marks a raw build string.
pub open spec fn build_prefix() -> Seq<char> {
    seq!['b', 'u', 'i', 'l', 'd', '-']
}

/// A leading `build-` stripped once; any other text unchanged.
pub open spec fn strip_build_prefix(v: Seq<char>) -> Seq<char> {
    if v.len() >= 6 && v.take(6) == build_prefix() {
        v.skip(6)
    } else {
        v
    }
}

fn strip_build(v: &str) -> (r: String)
    ensures
        r@ == strip_build_prefix(v@),
{
    let len = v.unicode_len();
    if len >= 6 {
        if v.get_char(0) == 'b' && v.get_char(1) == 'u' && v.get_char(2) == 'i' && v.get_char(3)
            == 'l' && v.get_char(4) == 'd' && v.get_char(5) == '-' {
            proof {
                assert(v@.take(6) =~= build_prefix());
            }
            return v.substring_char(6, len).to_owned();
        }
        proof {
            assert(v@.take(6) != build_prefix()) by {
                if v@.take(6) == build_prefix() {
                    assert(v@[0] == 'b' && v@[1] == 'u' && v@[2] == 'i' && v@[3] == 'l' && v@[4]
                        == 'd' && v@[5] == '-') by {
                        assert(forall|j: int| 0 <= j < 6 ==> v@.take(6)[j] == v@[j]);
                    }
                }
            }
        }
    }
    v.to_owned()
}

/// Discover: the device's identity from its loaded metadata. The identity
/// requires both the "hw" and the "sw" key; a missing key is a reported
/// error, never a partially filled identity. A leading `build-` prefix is
/// stripped from the software version.
pub fn get_skytraxx_device(info: Result<Metadata, String>) -> (r: FrontendResult<DeviceInfo>)
    requires
        info matches Ok(d) ==> d.wf(),
    ensures
        match info {
            Err(e) => r.result is None && r.error@ == e@,
            Ok(d) => {
                if !d@.contains_key("hw"@) {
                    r.result is None && r.error@ == "device_name not found"@
                } else if !d@.contains_key("sw"@) {
                    r.result is None && r.error@ == "software_version not found"@
                } else {
                    r.error@ == Seq::<char>::empty() && match r.result {
                        Some(di) => di.device_name@ == d@["hw"@] && di.software_version@
                            == strip_build_prefix(d@["sw"@]),
                        None => false,
                    }
                }
            },
        },
{
    let dict = match info {
        Ok(d) => d,
        Err(e) => {
            return FrontendResult::error(e);
        },
    };
    let device_name = match dict.get("hw") {
        Some(name) => name.clone(),
        None => {
            return FrontendResult::error("device_name not found".to_owned());
        },
    };
    let software_version = match dict.get("sw") {
        Some(version) => strip_build(version.as_str()),
        None => {
            return FrontendResult::error("software_version not found".to_owned());
        },
    };
    FrontendResult::result(DeviceInfo { device_name, software_version })
}

/// Extract: the descriptor text from the outcome of reading the update
/// file inside the unpacked archive tree. Any failure on the way to those
/// bytes — device absent, archive unreadable, unpacking failed, expected
/// file missing — arrives as the error message and is passed on: the
/// operation never claims success on a failed step.
pub fn extract(update_file: Result<Vec<u8>, String>) -> (r: FrontendResult<String>)
    ensures
        match update_file {
            Err(e) => r.result is None && r.error@ == e@,
            Ok(b) => {
                if descriptor_ok(b@) {
                    r.error@ == Seq::<char>::empty() && match r.result {
                        Some(s) => s@ == lossy_text_of(descriptor_bytes(b@)),
                        None => false,
                    }
                } else {
                    r.result is None && r.error@ == "failed to fill whole buffer"@
                }
            },
        },
{
    let content = match update_file {
        Ok(b) => b,
        Err(e) => {
            return FrontendResult::error(e);
        },
    };
    match descriptor_from_bytes(&content) {
        Ok(s) => FrontendResult::result(s),
        Err(e) => FrontendResult::error(e),
    }
}

/// Clean: the outcome of deleting the archive file from the device root.
/// A failed removal — the file already absent, or not permitted — is
/// reported as the error message, never as success.
pub fn clean_device(remove_outcome: Result<(), String>) -> (r: FrontendResult<String>)
    ensures
        match remove_outcome {
            Err(e) => r.result is None && r.error@ == e@,
            Ok(_) => r.error@ == Seq::<char>::empty() && match r.result {
                Some(m) => m@ == "Tar removed successfully"@,
                None => false,
            },
        },
{
    match remove_outcome {
        Ok(_) => FrontendResult::result("Tar removed successfully".to_owned()),
        Err(e) => FrontendResult::error(e),
    }
}

/// Apply the update: not yet defined for this core, and therefore an
/// explicit terminal failure, never a silent no-op. The device is still
/// required first, so an absent device keeps its own error.
pub fn update_device(mountpoint: Option<String>) -> (r: FrontendResult<String>)
    ensures
        r.result is None,
        match mountpoint {
            None => r.error@ == "Skytraxx not found"@,
            Some(_) => r.error@ == "update is not implemented"@,
        },
{
    match mountpoint {
        None => FrontendResult::error("Skytraxx not found".to_owned()),
        Some(_) => FrontendResult::error("update is not implemented".to_owned()),
    }
}

/// Fetch, first step: where the downloaded archive is to be written. An
/// absent device is an error before any file path exists at all — the
/// transfer must not create anything in that case.
pub fn download_destination(mountpoint: Option<String>, file_name: &str) -> (r: Result<
    String,
    String,
>)
    ensures
        match mountpoint {
            None => r matches Err(e) && e@ == "Skytraxx not found"@,
            Some(m) => r matches Ok(p) && p@ == m@ + seq!['/'] + file_name@,
        },
{
    match mountpoint {
        None => Err("Skytraxx not found".to_owned()),
        Some(m) => Ok(device_file_path(m.as_str(), file_name)),
    }
}

/// `root/rel`: a path under the device's mount root.
pub fn device_file_path(mountpoint: &str, rel: &str) -> (r: String)
    ensures
        r@ == mountpoint@ + seq!['/'] + rel@,
{
    let mut s = mountpoint.to_owned();
    s.append("/");
    s.append(rel);
    proof {
        reveal_strlit("/");
        assert("/"@ =~= seq!['/']);
        assert(s@ =~= mountpoint@ + seq!['/'] + rel@);
    }
    s
}

/// Where the archive is unpacked to: the fixed `unpacked` subdirectory of
/// the device root.
pub fn unpack_dir(mountpoint: &str) -> (r: String)
    ensures
        r@ == mountpoint@ + "/unpacked"@,
{
    let mut s = mountpoint.to_owned();
    s.append("/unpacked");
    s
}

/// Where the update file stands inside the unpacked tree.
pub fn descriptor_file_path(mountpoint: &str) -> (r: String)
    ensures
        r@ == mountpoint@ + "/unpacked/update/fw5mini.xlb"@,
{
    let mut s = mountpoint.to_owned();
    s.append("/unpacked/update/fw5mini.xlb");
    s
}

/// Where the identity file stands on the device.
pub fn sys_info_path(mountpoint: &str) -> (r: String)
    ensures
        r@ == mountpoint@ + "/.sys/hwsw.info"@,
{
    let mut s = mountpoint.to_owned();
    s.append("/.sys/hwsw.info");
    s
}

/// The device's metadata from the outcome of reading the identity file:
/// an unreadable file is an error, readable text is parsed leniently.
pub fn get_device_info(file_content: Option<String>) -> (r: Result<Metadata, String>)
    ensures
        match file_content {
            None => r matches Err(e) && e@ == "Failed to read file"@,
            Some(c) => r matches Ok(d) && d.wf() && d@ == parse_spec(c@),
        },
{
    match file_content {
        None => Err("Failed to read file".to_owned()),
        Some(c) => Ok(parse_lines(c.as_str())),
    }
}

/// The new text of the identity file after recording a fresh software
/// version: the "sw" entry replaced (or appended), everything else kept.
pub fn update_device_info(info: Metadata, software_version: &str) -> (r: String)
    requires
        info.wf(),
    ensures
        r@ == serialize_spec(upsert_entries(info.entries_view(), "sw"@, software_version@)),
{
    let mut dict = info;
    dict.insert("sw".to_owned(), software_version.to_owned());
    write_lines(dict)
}

} // verus!
