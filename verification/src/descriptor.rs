//! The firmware descriptor: a fixed 12-byte field at byte offset 24 of the
//! update file inside the unpacked archive tree, interpreted as a
//! timestamp-like string.
//!
//! Offset 24 and length 12 are fixed by the vendor's firmware file format.
//! The bytes are decoded as text leniently: byte sequences that are not
//! valid text are replaced, not rejected.

use vstd::prelude::*;

verus! {

/// The text that lossy UTF-8 decoding yields for the given bytes.
pub uninterp spec fn lossy_text_of(bytes: Seq<u8>) -> Seq<char>;

/// Relies on `String::from_utf8_lossy`: the result is a function of the
/// bytes alone; valid UTF-8 decodes exactly, and in particular ASCII bytes
/// decode to themselves.
#[verifier::external_body]
fn lossy_string(bytes: &[u8]) -> (r: String)
    ensures
        r@ == lossy_text_of(bytes@),
        (forall|i: int| 0 <= i < bytes@.len() ==> bytes@[i] < 128) ==> r@ == bytes@.map_values(
            |b: u8| b as char,
        ),
{
    String::from_utf8_lossy(bytes).to_string()
}

/// The update file is long enough to hold the descriptor field.
pub open spec fn descriptor_ok(content: Seq<u8>) -> bool {
    content.len() >= 36
}

/// The descriptor field: the 12 bytes at offset 24.
pub open spec fn descriptor_bytes(content: Seq<u8>) -> Seq<u8> {
    content.subrange(24, 36)
}

/// Reads the firmware descriptor out of the update file's bytes: the 12
/// bytes at offset 24, decoded as text. A file too short to hold the field
/// is a short read and an error.
pub fn descriptor_from_bytes(content: &Vec<u8>) -> (r: Result<String, String>)
    ensures
        match r {
            Ok(s) => descriptor_ok(content@) && s@ == lossy_text_of(descriptor_bytes(content@)),
            Err(e) => !descriptor_ok(content@) && e@ == "failed to fill whole buffer"@,
        },
{
    if content.len() < 36 {
        return Err("failed to fill whole buffer".to_owned());
    }
    let mut buf: Vec<u8> = Vec::new();
    let mut i: usize = 24;
    proof {
        assert(content@.subrange(24, 24) =~= Seq::<u8>::empty());
    }
    while i < 36
        invariant
            24 <= i <= 36,
            content@.len() >= 36,
            buf@ == content@.subrange(24, i as int),
        decreases 36 - i,
    {
        proof {
            assert(content@.subrange(24, i + 1) =~= content@.subrange(24, i as int).push(
                content@[i as int],
            ));
        }
        buf.push(content[i]);
        i += 1;
    }
    Ok(lossy_string(buf.as_slice()))
}

} // verus!
