//! SHA-512 content digests, computed incrementally.

use vstd::prelude::*;

verus! {

/// A running SHA-512 computation (`sha2::Sha512`).
///
/// The hasher's own type is an alias of nested generic wrappers that cannot be
/// declared to the verifier, so it is kept behind this opaque struct. Nothing
/// is known of a value but the bytes it has absorbed, see [`absorbed`].
#[verifier::external_body]
pub struct Sha512State {
    inner: sha2::Sha512,
}

/// The SHA-512 digest of a byte string, as `sha2` computes it.
pub uninterp spec fn sha512_digest(data: Seq<u8>) -> Seq<u8>;

/// The bytes that a running computation has been fed so far, in order.
pub uninterp spec fn absorbed(state: Sha512State) -> Seq<u8>;

/// `sha2::Sha512::new` (`Digest::new`): a fresh hasher, which has absorbed
/// nothing yet.
#[verifier::external_body]
pub(crate) fn sha512_start() -> (state: Sha512State)
    ensures
        absorbed(state) == Seq::<u8>::empty(),
{
    Sha512State { inner: <sha2::Sha512 as sha2::Digest>::new() }
}

/// `Digest::update` on `sha2::Sha512`: feeds `chunk` to the hasher. The
/// hasher processes a message piece by piece, so after the call it has
/// absorbed what it had before, followed by `chunk`.
#[verifier::external_body]
pub(crate) fn sha512_absorb(state: &mut Sha512State, chunk: &[u8])
    ensures
        absorbed(*final(state)) == absorbed(*old(state)) + chunk@,
{
    sha2::Digest::update(&mut state.inner, chunk)
}

/// `Digest::finalize` on `sha2::Sha512`: consumes the hasher and returns the
/// digest of everything it absorbed. A SHA-512 digest is 64 bytes long.
#[verifier::external_body]
pub(crate) fn sha512_finish(state: Sha512State) -> (digest: Vec<u8>)
    ensures
        digest@ == sha512_digest(absorbed(state)),
        digest@.len() == 64,
{
    sha2::Digest::finalize(state.inner).to_vec()
}

} // verus!
