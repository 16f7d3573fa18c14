//! Whole-file deduplication: a catalog from content hash to an opaque
//! storage reference, consulted before any piece-level work.

use vstd::prelude::*;

use crate::EngineError;
use crate::pieces::bytes_eq;

verus! {

/// One catalog entry: a content hash and the reference under which that
/// content is already stored.
pub struct DedupEntry {
    pub content_hash: Vec<u8>,
    pub storage_reference: String,
}

/// Append-only catalog with one entry per distinct content hash.
pub struct DedupCatalog {
    pub entries: Vec<DedupEntry>,
}

/// Well-formed catalog: no content hash appears twice.
pub open spec fn catalog_wf(entries: Seq<DedupEntry>) -> bool {
    forall|i: int, j: int|
        0 <= i < j < entries.len() ==> (#[trigger] entries[i]).content_hash@ != (
        #[trigger] entries[j]).content_hash@
}

/// The storage reference cataloged for `h`, if any.
pub open spec fn spec_lookup(entries: Seq<DedupEntry>, h: Seq<u8>) -> Option<Seq<char>> {
    if exists|j: int| 0 <= j < entries.len() && (#[trigger] entries[j]).content_hash@ == h {
        let j = choose|j: int| 0 <= j < entries.len() && (#[trigger] entries[j]).content_hash@
            == h;
        Some(entries[j].storage_reference@)
    } else {
        None
    }
}

impl DedupCatalog {
    /// An empty catalog.
    pub fn new() -> (r: DedupCatalog)
        ensures
            r.entries@ == Seq::<DedupEntry>::empty(),
            catalog_wf(r.entries@),
    {
        DedupCatalog { entries: Vec::new() }
    }

    /// The reference under which content with hash `hash` is already
    /// stored, or `None` if that content was never stored. A miss is normal
    /// control flow, not an error.
    pub fn lookup(&self, hash: &Vec<u8>) -> (r: Option<String>)
        requires
            catalog_wf(self.entries@),
        ensures
            r is Some <==> spec_lookup(self.entries@, hash@) is Some,
            r matches Some(x) ==> spec_lookup(self.entries@, hash@) == Some(x@),
    {
        let mut i: usize = 0;
        while i < self.entries.len()
            invariant
                catalog_wf(self.entries@),
                i <= self.entries@.len(),
                forall|j: int| 0 <= j < i ==> (#[trigger] self.entries@[j]).content_hash@ != hash@,
            decreases self.entries@.len() - i,
        {
            if bytes_eq(self.entries[i].content_hash.as_slice(), hash.as_slice()) {
                let r = self.entries[i].storage_reference.clone();
                proof {
                    let j = choose|j: int|
                        0 <= j < self.entries@.len() && (#[trigger] self.entries@[j]).content_hash@
                            == hash@;
                    if j != i as int {
                        assert(self.entries@[j].content_hash@
                            != self.entries@[i as int].content_hash@);
                    }
                }
                return Some(r);
            }
            i = i + 1;
        }
        None
    }

    /// Registers `reference` for content hash `hash`. Registering the same
    /// reference again is accepted and changes nothing; a different
    /// reference for an already-cataloged hash is a consistency violation
    /// and is rejected with `DuplicateError`; a new hash is appended.
    pub fn register(&mut self, hash: &Vec<u8>, reference: &String) -> (r: Result<
        (),
        EngineError,
    >)
        requires
            catalog_wf(old(self).entries@),
        ensures
            catalog_wf(final(self).entries@),
            spec_lookup(old(self).entries@, hash@) is None ==> {
                &&& r is Ok
                &&& spec_lookup(final(self).entries@, hash@) == Some(reference@)
                &&& forall|h2: Seq<u8>|
                    h2 != hash@ ==> spec_lookup(final(self).entries@, h2) == spec_lookup(
                        old(self).entries@,
                        h2,
                    )
            },
            spec_lookup(old(self).entries@, hash@) matches Some(refr) ==> {
                &&& final(self).entries@ == old(self).entries@
                &&& (r is Ok <==> refr == reference@)
                &&& r is Err ==> r == Err::<(), EngineError>(EngineError::DuplicateError)
            },
    {
        let ghost old_entries = self.entries@;
        let mut i: usize = 0;
        while i < self.entries.len()
            invariant
                self.entries@ == old_entries,
                catalog_wf(self.entries@),
                i <= self.entries@.len(),
                forall|j: int| 0 <= j < i ==> (#[trigger] self.entries@[j]).content_hash@ != hash@,
            decreases self.entries@.len() - i,
        {
            if bytes_eq(self.entries[i].content_hash.as_slice(), hash.as_slice()) {
                proof {
                    let j = choose|j: int|
                        0 <= j < old_entries.len() && (#[trigger] old_entries[j]).content_hash@
                            == hash@;
                    if j != i as int {
                        assert(old_entries[j].content_hash@
                            != old_entries[i as int].content_hash@);
                    }
                }
                if self.entries[i].storage_reference == *reference {
                    return Ok(());
                } else {
                    return Err(EngineError::DuplicateError);
                }
            }
            i = i + 1;
        }
        let entry = DedupEntry {
            content_hash: crate::tracker::clone_bytes(hash),
            storage_reference: reference.clone(),
        };
        self.entries.push(entry);
        proof {
            let cur = self.entries@;
            let n = old_entries.len() as int;
            assert(cur.drop_last() =~= old_entries);
            assert(cur[n].content_hash@ == hash@);
            assert(spec_lookup(old_entries, hash@) is None);
            assert(spec_lookup(cur, hash@) == Some(reference@)) by {
                assert(cur[n].content_hash@ == hash@);
                let j = choose|j: int|
                    0 <= j < cur.len() && (#[trigger] cur[j]).content_hash@ == hash@;
                if j != n {
                    assert(old_entries[j].content_hash@ == hash@);
                }
            }
            assert forall|h2: Seq<u8>| h2 != hash@ implies spec_lookup(cur, h2) == spec_lookup(
                old_entries,
                h2,
            ) by {
                if exists|j: int| 0 <= j < cur.len() && (#[trigger] cur[j]).content_hash@ == h2 {
                    let j = choose|j: int|
                        0 <= j < cur.len() && (#[trigger] cur[j]).content_hash@ == h2;
                    assert(j != n);
                    assert(old_entries[j].content_hash@ == h2);
                    let j2 = choose|j2: int|
                        0 <= j2 < old_entries.len() && (#[trigger] old_entries[j2]).content_hash@
                            == h2;
                    if j != j2 {
                        assert(old_entries[j].content_hash@ != old_entries[j2].content_hash@);
                    }
                    let j3 = choose|j3: int|
                        0 <= j3 < cur.len() && (#[trigger] cur[j3]).content_hash@ == h2;
                    if j3 != j {
                        if j3 == n {
                            assert(cur[j3].content_hash@ == hash@);
                        } else {
                            assert(old_entries[j3].content_hash@
                                != old_entries[j].content_hash@);
                        }
                    }
                } else {
                    if exists|j: int|
                        0 <= j < old_entries.len() && (#[trigger] old_entries[j]).content_hash@
                            == h2 {
                        let j = choose|j: int|
                            0 <= j < old_entries.len() && (
                            #[trigger] old_entries[j]).content_hash@ == h2;
                        assert(cur[j].content_hash@ == h2);
                    }
                }
            }
            assert(catalog_wf(cur)) by {
                assert forall|a: int, b: int| 0 <= a < b < cur.len() implies cur[a].content_hash@
                    != cur[b].content_hash@ by {
                    if b == n {
                        assert(cur[a].content_hash@ == old_entries[a].content_hash@);
                    }
                }
            }
        }
        Ok(())
    }
}

/// Queries the catalog for already-stored content with the given hash; the
/// result is the cataloged storage reference, if the content is known.
pub fn check_tracker_for_file(catalog: &DedupCatalog, hash: &Vec<u8>) -> (r: Option<String>)
    requires
        catalog_wf(catalog.entries@),
    ensures
        r is Some <==> spec_lookup(catalog.entries@, hash@) is Some,
        r matches Some(x) ==> spec_lookup(catalog.entries@, hash@) == Some(x@),
{
    catalog.lookup(hash)
}

} // verus!
