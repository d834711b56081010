//! Volume-label lookup: resolving the device's volume label to the mount
//! root under which its filesystem is reachable.
//!
//! Enumerating the mounted volumes is the caller's task; the lookup itself
//! — first match by case-insensitive label, mount root taken only when it
//! is representable as text — is decided here.

use crate::text::{eq_ignore_ascii_case, seq_eq_ignore_ascii_case};
use vstd::prelude::*;

verus! {

/// One mounted volume: its display label, and its mount root where that
/// is representable as text.
pub struct Volume {
    pub name: String,
    pub mount_point: Option<String>,
}

/// The first volume whose label matches `label` up to ASCII case.
pub open spec fn first_label_match(vols: Seq<Volume>, label: Seq<char>) -> Option<Volume>
    decreases vols.len(),
{
    if vols.len() == 0 {
        None
    } else if seq_eq_ignore_ascii_case(vols[0].name@, label) {
        Some(vols[0])
    } else {
        first_label_match(vols.drop_first(), label)
    }
}

/// Resolves a volume label to a mount root. The volume list is scanned in
/// order; the first volume whose label equals `vol_name` up to ASCII case
/// decides the outcome: its mount root when one is representable, and
/// `None` otherwise. Without any match the result is `None`. No volume
/// after the first match is considered.
pub fn find_mountpoint(volumes: &Vec<Volume>, vol_name: &str) -> (r: Option<String>)
    ensures
        match first_label_match(volumes@, vol_name@) {
            None => r is None,
            Some(v) => {
                match v.mount_point {
                    Some(m) => r matches Some(rm) && rm@ == m@,
                    None => r is None,
                }
            },
        },
{
    let n = volumes.len();
    let mut i: usize = 0;
    proof {
        assert(volumes@.skip(0) =~= volumes@);
    }
    while i < n
        invariant
            n == volumes@.len(),
            0 <= i <= n,
            first_label_match(volumes@, vol_name@) == first_label_match(
                volumes@.skip(i as int),
                vol_name@,
            ),
        decreases n - i,
    {
        proof {
            assert(volumes@.skip(i as int)[0] == volumes@[i as int]);
            assert(volumes@.skip(i as int).drop_first() =~= volumes@.skip(i + 1));
        }
        if eq_ignore_ascii_case(volumes[i].name.as_str(), vol_name) {
            match &volumes[i].mount_point {
                Some(m) => {
                    return Some(m.clone());
                },
                None => {
                    return None;
                },
            }
        }
        i += 1;
    }
    proof {
        assert(volumes@.skip(n as int) =~= Seq::<Volume>::empty());
    }
    None
}

} // verus!
