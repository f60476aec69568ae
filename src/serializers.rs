use vstd::prelude::*;

verus! {

/// A 32-byte content digest, kept as raw bytes so that it serialises as such.
#[derive(Clone, Copy, Debug)]
pub struct SerializableHash(pub [u8; 32]);

impl View for SerializableHash {
    type V = Seq<u8>;

    open spec fn view(&self) -> Seq<u8> {
        self.0@
    }
}

/// The BLAKE3 digest of a byte sequence.
pub uninterp spec fn blake3_of(bytes: Seq<u8>) -> Seq<u8>;

/// Relies on `blake3::hash` and `Hash::as_bytes`: the 32-byte BLAKE3 digest of
/// the input, which depends on the input bytes alone.
#[verifier::external_body]
fn blake3_hash(input: &[u8]) -> (r: [u8; 32])
    ensures
        r@ == blake3_of(input@),
{
    *blake3::hash(input).as_bytes()
}

/// The digest attached to a file whose full contents are `contents`.
pub fn content_digest(contents: &[u8]) -> (r: SerializableHash)
    ensures
        r@ == blake3_of(contents@),
{
    SerializableHash(blake3_hash(contents))
}

impl SerializableHash {
    /// Wraps digest bytes computed elsewhere.
    pub fn from_bytes(bytes: [u8; 32]) -> (r: SerializableHash)
        ensures
            r@ == bytes@,
    {
        SerializableHash(bytes)
    }
}

} // verus!
