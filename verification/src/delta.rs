//! Binary deltas: a patch between two related byte sequences, applied
//! against a base whose identity the patch records.

use vstd::prelude::*;

use crate::EngineError;
use crate::hashing::{sha256_of, sha256};
use crate::pieces::bytes_eq;

verus! {

/// The patch the delta algorithm produces for `old` -> `new`. A pure
/// function of the two byte sequences; its value is named, not stated.
pub uninterp spec fn bsdiff_patch_of(old: Seq<u8>, new: Seq<u8>) -> Seq<u8>;

/// Relies on bsdiff::diff: the patch bytes depend on the two inputs alone,
/// and applying them to `old` with bsdiff::patch yields `new`. The call
/// cannot fail here: bsdiff::diff errors only through its writer, and the
/// `Write` implementation of `Vec<u8>` is infallible.
#[verifier::external_body]
fn bsdiff_diff(old: &[u8], new: &[u8]) -> (r: Option<Vec<u8>>)
    ensures
        r matches Some(p) ==> p@ == bsdiff_patch_of(old@, new@),
        r is Some,
{
    let mut v: Vec<u8> = Vec::new();
    match bsdiff::diff(old, new, &mut v) {
        Ok(()) => Some(v),
        Err(_) => None,
    }
}

/// Relies on bsdiff::patch: applying the patch bsdiff::diff produced for
/// `old` -> `new` against `old` returns `new`.
#[verifier::external_body]
fn bsdiff_apply(old: &[u8], patch_bytes: &[u8]) -> (r: Option<Vec<u8>>)
    ensures
        r matches Some(n) ==> forall|newv: Seq<u8>|
            patch_bytes@ == bsdiff_patch_of(old@, newv) ==> n@ == newv,
        r is None ==> forall|newv: Seq<u8>| patch_bytes@ != bsdiff_patch_of(old@, newv),
{
    let mut out: Vec<u8> = Vec::new();
    let mut reader: &[u8] = patch_bytes;
    match bsdiff::patch(old, &mut reader, &mut out) {
        Ok(()) => Some(out),
        Err(_) => None,
    }
}

/// A delta patch: the digest of the base it was made against, and the
/// patch bytes.
pub struct DeltaPatch {
    pub base_hash: Vec<u8>,
    pub data: Vec<u8>,
}

/// Computes the patch that turns `old` into `new`, recording the digest of
/// `old` so a later `apply` can reject a wrong base. Total: every pair of
/// byte sequences has a patch, pinned to the inputs, so together with
/// `apply`'s contract the round trip `apply(old, diff(old, new)) == new`
/// holds for arbitrary `old` and `new`.
pub fn diff(old: &[u8], new: &[u8]) -> (r: DeltaPatch)
    ensures
        r.base_hash@ == sha256_of(old@),
        r.data@ == bsdiff_patch_of(old@, new@),
{
    match bsdiff_diff(old, new) {
        Some(data) => DeltaPatch { base_hash: sha256(old), data },
        None => {
            proof {
                assert(false);
            }
            DeltaPatch { base_hash: sha256(old), data: Vec::new() }
        },
    }
}

/// Applies `patch` to `old`. A base whose digest differs from the recorded
/// one is rejected with `PatchMismatchError`; against the right base, the
/// result is exactly the `new` the patch was made for — the delta round
/// trip `apply(old, diff(old, new)) == new`, for every `old` and `new`.
pub fn apply(old: &[u8], patch: &DeltaPatch) -> (r: Result<Vec<u8>, EngineError>)
    ensures
        sha256_of(old@) != patch.base_hash@ ==> r == Err::<Vec<u8>, EngineError>(
            EngineError::PatchMismatchError,
        ),
        sha256_of(old@) == patch.base_hash@ ==> forall|newv: Seq<u8>|
            patch.data@ == bsdiff_patch_of(old@, newv) ==> (r matches Ok(n) && n@ == newv),
        r matches Err(e) ==> (e == EngineError::PatchMismatchError || e
            == EngineError::CompressionError),
{
    let digest = sha256(old);
    if !bytes_eq(digest.as_slice(), patch.base_hash.as_slice()) {
        return Err(EngineError::PatchMismatchError);
    }
    match bsdiff_apply(old, patch.data.as_slice()) {
        Some(n) => Ok(n),
        None => Err(EngineError::CompressionError),
    }
}

} // verus!
