//! Core logic of a firmware updater for a removable storage device.
//!
//! The device is identified by a volume label; its identity lives in a flat
//! `key="value"` text file on the device. The library holds the verified
//! logic: parsing and serialising that file, resolving a volume label to a
//! mount root, extracting the fixed-offset firmware descriptor from an
//! unpacked archive, accounting download progress, and turning the outcomes
//! of the surrounding I/O into uniform operation results.
//!
//! All file, network and volume I/O is left to the caller, which hands the
//! outcomes in as plain values.

pub mod descriptor;
pub mod device;
pub mod metadata;
pub mod orchestrator;
pub mod progress;
pub mod text;
