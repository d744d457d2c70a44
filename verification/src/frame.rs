//! The envelope of a stored index: a fixed mark, a format version and the length of
//! the payload, ahead of the payload itself. A file that does not carry exactly this
//! envelope is not read.

use vstd::bytes::{spec_u64_from_le_bytes, spec_u64_to_le_bytes, u64_from_le_bytes, u64_to_le_bytes};
use vstd::prelude::*;

verus! {

/// The version of the stored format.
pub const FORMAT_VERSION: u8 = 1;

/// The length of the envelope ahead of the payload.
pub const HEADER_BYTES: usize = 13;

/// The four bytes that open every stored index: `FIQX`.
pub open spec fn mark() -> Seq<u8> {
    seq![0x46u8, 0x49u8, 0x51u8, 0x58u8]
}

/// A payload in its envelope.
pub open spec fn framed(payload: Seq<u8>) -> Seq<u8> {
    mark() + seq![FORMAT_VERSION] + spec_u64_to_le_bytes(payload.len() as u64) + payload
}

/// The payload of an envelope, or `None` where the bytes are no envelope of this
/// version around a payload of the stated length.
pub open spec fn unframed(bytes: Seq<u8>) -> Option<Seq<u8>> {
    if bytes.len() >= HEADER_BYTES && bytes.subrange(0, 4) == mark() && bytes[4] == FORMAT_VERSION
        && spec_u64_from_le_bytes(bytes.subrange(5, 13)) == bytes.len() - HEADER_BYTES {
        Some(bytes.skip(HEADER_BYTES as int))
    } else {
        None
    }
}

/// Puts a payload into its envelope.
pub fn frame(payload: &[u8]) -> (bytes: Vec<u8>)
    ensures
        bytes@ == framed(payload@),
{
    let mut bytes: Vec<u8> = Vec::new();
    bytes.push(0x46);
    bytes.push(0x49);
    bytes.push(0x51);
    bytes.push(0x58);
    bytes.push(FORMAT_VERSION);
    let mut length = u64_to_le_bytes(payload.len() as u64);
    bytes.append(&mut length);
    let ghost head = bytes@;
    bytes.extend_from_slice(payload);
    assert(bytes@ =~= head + payload@);
    assert(head =~= mark() + seq![FORMAT_VERSION] + spec_u64_to_le_bytes(payload@.len() as u64));
    bytes
}

/// Takes the payload out of its envelope.
pub fn unframe(bytes: &[u8]) -> (payload: Option<&[u8]>)
    ensures
        match payload {
            Some(inner) => unframed(bytes@) == Some(inner@),
            None => unframed(bytes@).is_none(),
        },
{
    let n = bytes.len();
    if n < HEADER_BYTES {
        return None;
    }
    if bytes[0] != 0x46 || bytes[1] != 0x49 || bytes[2] != 0x51 || bytes[3] != 0x58 {
        assert(bytes@.subrange(0, 4)[0] == bytes@[0]);
        assert(bytes@.subrange(0, 4)[1] == bytes@[1]);
        assert(bytes@.subrange(0, 4)[2] == bytes@[2]);
        assert(bytes@.subrange(0, 4)[3] == bytes@[3]);
        return None;
    }
    assert(bytes@.subrange(0, 4) =~= mark());
    if bytes[4] != FORMAT_VERSION {
        return None;
    }
    let stated = u64_from_le_bytes(vstd::slice::slice_subrange(bytes, 5, 13));
    if stated != (n - HEADER_BYTES) as u64 {
        return None;
    }
    Some(vstd::slice::slice_subrange(bytes, HEADER_BYTES, n))
}

/// Taking a payload out of the envelope it was put into gives the payload back.
pub proof fn lemma_unframe_frame(payload: Seq<u8>)
    requires
        payload.len() <= u64::MAX,
    ensures
        unframed(framed(payload)) == Some(payload),
{
    vstd::bytes::lemma_auto_spec_u64_to_from_le_bytes();
    let bytes = framed(payload);
    let length = spec_u64_to_le_bytes(payload.len() as u64);
    assert(length.len() == 8);
    assert(bytes.subrange(0, 4) =~= mark());
    assert(bytes[4] == FORMAT_VERSION);
    assert(bytes.subrange(5, 13) =~= length);
    assert(bytes.skip(HEADER_BYTES as int) =~= payload);
}

} // verus!
