//! The store-and-distribute pipeline: deduplicate by content hash, split
//! into pieces, derive redundancy, and assign pieces to unchoked peers.

use vstd::prelude::*;

use crate::EngineError;
use crate::choke::{choke_peers, spec_choke_outcome};
use crate::compress::MAX_COMPRESS_INPUT;
use crate::dedup::{DedupCatalog, catalog_wf, spec_lookup};
use crate::erasure::{ShardSet, rs_parity_of, shards_ok, views_of, encode};
use crate::hashing::{sha256_of, sha256};
use crate::pieces::{
    Piece,
    PieceMetadata,
    spec_chunk,
    spec_num_chunks,
    split,
    split_models,
};
use crate::tracker::{
    AvailabilityTracker,
    PeerState,
    next_piece_for,
    spec_holds,
    spec_rarity,
    tracker_wf,
};

verus! {

/// Immutable description of a stored file: its content hash, its piece
/// metadata in index order, and its total size.
pub struct FileRecord {
    pub content_hash: Vec<u8>,
    pub pieces: Vec<PieceMetadata>,
    pub total_size: usize,
}

/// One piece request to hand to the transport layer.
pub struct Assignment {
    pub peer_id: String,
    pub piece_index: usize,
}

/// What a store-and-distribute call produced: either the reference under
/// which identical content is already stored, or the new record with its
/// pieces, optional redundancy, and the piece requests for unchoked peers.
pub enum StoreOutcome {
    Deduplicated { reference: String },
    Stored {
        record: FileRecord,
        blocks: Vec<Piece>,
        shards: Option<ShardSet>,
        unchoked: Vec<String>,
        assignments: Vec<Assignment>,
    },
}

/// Chunk `i` of `data`, padded with zero bytes to exactly `psize` bytes.
pub open spec fn spec_padded_chunk(data: Seq<u8>, psize: nat, i: int) -> Seq<u8> {
    spec_chunk(data, psize, i) + Seq::new(
        (psize - spec_chunk(data, psize, i).len()) as nat,
        |_j: int| 0u8,
    )
}

/// All chunks of `data`, each padded to `psize` bytes.
pub open spec fn spec_padded_chunks(data: Seq<u8>, psize: nat) -> Seq<Seq<u8>> {
    Seq::new(spec_num_chunks(data.len(), psize), |i: int| spec_padded_chunk(data, psize, i))
}

/// The requested redundancy can be derived: either none was requested, or
/// the chunk count admits `m` parity shards.
pub open spec fn spec_erasure_feasible(len: nat, psize: nat, m: nat) -> bool {
    ||| m == 0
    ||| (1 <= spec_num_chunks(len, psize) && spec_num_chunks(len, psize) + m
        <= crate::erasure::MAX_TOTAL_SHARDS)
}

/// Piece `ix` is, for the peer named `id`, a missing piece of minimum
/// rarity, with the lowest index among equally rare ones.
pub open spec fn spec_rarest_missing(
    peers: Seq<PeerState>,
    npieces: nat,
    id: Seq<char>,
    ix: usize,
) -> bool {
    &&& ix < npieces
    &&& !spec_holds(peers, id, ix)
    &&& forall|jx: usize|
        jx < npieces && !spec_holds(peers, id, jx) ==> (spec_rarity(peers, ix) < spec_rarity(
            peers,
            jx,
        ) || (spec_rarity(peers, ix) == spec_rarity(peers, jx) && ix <= jx))
}

/// The peer named `id` misses at least one of the `npieces` pieces.
pub open spec fn spec_misses_some(peers: Seq<PeerState>, npieces: nat, id: Seq<char>) -> bool {
    exists|ix: usize| ix < npieces && !(#[trigger] spec_holds(peers, id, ix))
}

/// `assignments` pairs, in order, exactly those peers of `unchoked` that
/// miss a piece with their rarest missing piece: a peer holding everything
/// gets no entry, every other unchoked peer gets exactly one.
pub open spec fn spec_assignments_for(
    peers: Seq<PeerState>,
    npieces: nat,
    unchoked: Seq<String>,
    assignments: Seq<Assignment>,
) -> bool
    decreases unchoked.len(),
{
    if unchoked.len() == 0 {
        assignments.len() == 0
    } else {
        if spec_misses_some(peers, npieces, unchoked[0]@) {
            &&& assignments.len() >= 1
            &&& assignments[0].peer_id@ == unchoked[0]@
            &&& spec_rarest_missing(peers, npieces, unchoked[0]@, assignments[0].piece_index)
            &&& spec_assignments_for(
                peers,
                npieces,
                unchoked.drop_first(),
                assignments.drop_first(),
            )
        } else {
            spec_assignments_for(peers, npieces, unchoked.drop_first(), assignments)
        }
    }
}

/// Extending the unchoked list by one peer extends a valid assignment list
/// by that peer's rarest missing piece, or by nothing if it misses none.
proof fn lemma_assignments_push(
    peers: Seq<PeerState>,
    npieces: nat,
    unchoked: Seq<String>,
    assignments: Seq<Assignment>,
    x: String,
    opt: Option<Assignment>,
)
    requires
        spec_assignments_for(peers, npieces, unchoked, assignments),
        match opt {
            Some(g) => spec_misses_some(peers, npieces, x@) && g.peer_id@ == x@
                && spec_rarest_missing(peers, npieces, x@, g.piece_index),
            None => !spec_misses_some(peers, npieces, x@),
        },
    ensures
        spec_assignments_for(
            peers,
            npieces,
            unchoked.push(x),
            match opt {
                Some(g) => assignments.push(g),
                None => assignments,
            },
        ),
    decreases unchoked.len(),
{
    let u2 = unchoked.push(x);
    let a2 = match opt {
        Some(g) => assignments.push(g),
        None => assignments,
    };
    if unchoked.len() == 0 {
        assert(u2[0] == x);
        assert(u2.drop_first() =~= Seq::<String>::empty());
        match opt {
            Some(g) => {
                assert(a2[0] == g);
                assert(a2.drop_first() =~= Seq::<Assignment>::empty());
                assert(spec_assignments_for(peers, npieces, u2.drop_first(), a2.drop_first()));
            },
            None => {
                assert(spec_assignments_for(peers, npieces, u2.drop_first(), a2));
            },
        }
    } else {
        assert(u2[0] == unchoked[0]);
        assert(u2.drop_first() =~= unchoked.drop_first().push(x));
        if spec_misses_some(peers, npieces, unchoked[0]@) {
            assert(assignments.len() >= 1);
            match opt {
                Some(g) => {
                    assert(a2[0] == assignments[0]);
                    assert(a2.drop_first() =~= assignments.drop_first().push(g));
                    lemma_assignments_push(
                        peers,
                        npieces,
                        unchoked.drop_first(),
                        assignments.drop_first(),
                        x,
                        opt,
                    );
                    assert(spec_assignments_for(
                        peers,
                        npieces,
                        u2.drop_first(),
                        a2.drop_first(),
                    ));
                },
                None => {
                    assert(a2.drop_first() == assignments.drop_first());
                    lemma_assignments_push(
                        peers,
                        npieces,
                        unchoked.drop_first(),
                        assignments.drop_first(),
                        x,
                        opt,
                    );
                    assert(spec_assignments_for(
                        peers,
                        npieces,
                        u2.drop_first(),
                        a2.drop_first(),
                    ));
                },
            }
        } else {
            lemma_assignments_push(peers, npieces, unchoked.drop_first(), assignments, x, opt);
            assert(spec_assignments_for(peers, npieces, u2.drop_first(), a2));
        }
    }
}

/// Every chunk is at most `psize` bytes, so its padded form is exactly
/// `psize` bytes.
proof fn lemma_padded_len(data: Seq<u8>, psize: nat, i: int)
    requires
        psize >= 1,
        0 <= i < spec_num_chunks(data.len(), psize),
    ensures
        spec_chunk(data, psize, i).len() <= psize,
        i * psize <= data.len(),
        spec_padded_chunk(data, psize, i).len() == psize,
{
    crate::pieces::lemma_num_chunks_covers(data.len(), psize);
    let num = spec_num_chunks(data.len(), psize);
    assert(i * psize <= (num - 1) * psize) by (nonlinear_arith)
        requires
            i <= num - 1,
            psize >= 0,
    ;
    assert((i + 1) * psize == i * psize + psize) by (nonlinear_arith);
}

/// Splits `raw_bytes` into its chunks, each padded with zero bytes to
/// exactly `piece_size` bytes.
pub fn pad_chunks(raw_bytes: &[u8], piece_size: usize) -> (r: Vec<Vec<u8>>)
    requires
        piece_size >= 1,
    ensures
        r@.len() == spec_num_chunks(raw_bytes@.len(), piece_size as nat),
        forall|i: int|
            0 <= i < r@.len() ==> (#[trigger] r@[i])@ == spec_padded_chunk(
                raw_bytes@,
                piece_size as nat,
                i,
            ),
{
    let len = raw_bytes.len();
    let ghost psize = piece_size as nat;
    let mut out: Vec<Vec<u8>> = Vec::new();
    let mut offset: usize = 0;
    let mut idx: usize = 0;
    while offset < len
        invariant
            len == raw_bytes@.len(),
            piece_size >= 1,
            psize == piece_size as nat,
            offset <= len,
            offset < len ==> offset == idx * psize,
            offset == len ==> idx * psize >= len,
            idx == out@.len(),
            idx + spec_num_chunks((len - offset) as nat, psize) == spec_num_chunks(
                len as nat,
                psize,
            ),
            forall|i: int|
                0 <= i < idx ==> (#[trigger] out@[i])@ == spec_padded_chunk(raw_bytes@, psize, i),
        decreases len - offset,
    {
        let end: usize = if len - offset > piece_size { offset + piece_size } else { len };
        proof {
            assert((idx + 1) * psize == idx * psize + psize) by (nonlinear_arith);
            assert(idx * psize >= idx) by (nonlinear_arith)
                requires
                    psize >= 1,
            ;
        }
        let mut shard: Vec<u8> = Vec::new();
        let mut j: usize = offset;
        while j < end
            invariant
                offset <= j <= end <= len,
                len == raw_bytes@.len(),
                shard@ == raw_bytes@.subrange(offset as int, j as int),
            decreases end - j,
        {
            shard.push(raw_bytes[j]);
            proof {
                assert(raw_bytes@.subrange(offset as int, j as int).push(raw_bytes@[j as int])
                    =~= raw_bytes@.subrange(offset as int, j + 1));
            }
            j = j + 1;
        }
        let ghost chunk = spec_chunk(raw_bytes@, psize, idx as int);
        proof {
            assert(shard@ == chunk);
        }
        while shard.len() < piece_size
            invariant
                chunk.len() <= shard@.len() <= piece_size,
                shard@ == chunk + Seq::new((shard@.len() - chunk.len()) as nat, |_j: int| 0u8),
            decreases piece_size - shard.len(),
        {
            shard.push(0u8);
            proof {
                assert(chunk + Seq::new((shard@.len() - 1 - chunk.len()) as nat, |_j: int| 0u8)
                    + seq![0u8] =~= chunk + Seq::new(
                    (shard@.len() - chunk.len()) as nat,
                    |_j: int| 0u8,
                ));
            }
        }
        proof {
            assert(shard@ == spec_padded_chunk(raw_bytes@, psize, idx as int));
        }
        out.push(shard);
        offset = end;
        idx = idx + 1;
    }
    proof {
        assert(spec_num_chunks(0, psize) == 0);
    }
    out
}

/// Determinism of storing: two stored outcomes for the same bytes and the
/// same piece size describe the same file — equal content hashes and
/// piecewise identical metadata (same indices, same piece hashes, same
/// sizes) — whichever run produced them. The hypotheses are exactly what
/// `store_and_distribute` ensures of every stored record.
pub proof fn lemma_store_record_deterministic(
    r1: FileRecord,
    b1: Seq<Piece>,
    r2: FileRecord,
    b2: Seq<Piece>,
    raw: Seq<u8>,
    psize: nat,
)
    requires
        split_models(b1, raw, psize),
        split_models(b2, raw, psize),
        r1.content_hash@ == sha256_of(raw),
        r2.content_hash@ == sha256_of(raw),
        r1.pieces@.len() == b1.len(),
        r2.pieces@.len() == b2.len(),
        forall|i: int|
            0 <= i < r1.pieces@.len() ==> {
                &&& (#[trigger] r1.pieces@[i]).index == i
                &&& r1.pieces@[i].hash@ == b1[i].meta.hash@
                &&& r1.pieces@[i].size == b1[i].meta.size
            },
        forall|i: int|
            0 <= i < r2.pieces@.len() ==> {
                &&& (#[trigger] r2.pieces@[i]).index == i
                &&& r2.pieces@[i].hash@ == b2[i].meta.hash@
                &&& r2.pieces@[i].size == b2[i].meta.size
            },
    ensures
        r1.content_hash@ == r2.content_hash@,
        r1.pieces@.len() == r2.pieces@.len(),
        forall|i: int|
            0 <= i < r1.pieces@.len() ==> {
                &&& (#[trigger] r1.pieces@[i]).index == r2.pieces@[i].index
                &&& r1.pieces@[i].hash@ == r2.pieces@[i].hash@
                &&& r1.pieces@[i].size == r2.pieces@[i].size
            },
{
    crate::pieces::lemma_split_deterministic(b1, b2, raw, psize);
}

/// Stores new content and plans its distribution. The content hash is
/// computed first; if the catalog already holds it, the existing reference
/// is returned and no piece-level work happens. Otherwise the bytes are
/// split into compressed, hashed pieces, parity shards are derived when
/// redundancy is requested, the top-scored peers are unchoked, and each
/// unchoked peer that misses a piece is assigned its rarest missing piece.
pub fn store_and_distribute(
    catalog: &DedupCatalog,
    availability: &AvailabilityTracker,
    raw_bytes: &[u8],
    piece_size: usize,
    parity_count: usize,
    choke_capacity: usize,
) -> (r: Result<StoreOutcome, EngineError>)
    requires
        piece_size >= 1,
        catalog_wf(catalog.entries@),
        tracker_wf(availability.peers@),
    ensures
        spec_lookup(catalog.entries@, sha256_of(raw_bytes@)) matches Some(refr) ==> (r matches Ok(
            o,
        ) && o matches StoreOutcome::Deduplicated { reference } && reference@ == refr),
        spec_lookup(catalog.entries@, sha256_of(raw_bytes@)) is None && raw_bytes@.len()
            <= MAX_COMPRESS_INPUT && spec_erasure_feasible(
            raw_bytes@.len(),
            piece_size as nat,
            parity_count as nat,
        ) ==> (r matches Ok(o) && o is Stored),
        r matches Ok(o) ==> o matches StoreOutcome::Stored {
            record,
            blocks,
            shards,
            unchoked,
            assignments,
        } ==> {
            &&& spec_lookup(catalog.entries@, sha256_of(raw_bytes@)) is None
            &&& record.content_hash@ == sha256_of(raw_bytes@)
            &&& record.content_hash@.len() == 32
            &&& record.total_size == raw_bytes@.len()
            &&& split_models(blocks@, raw_bytes@, piece_size as nat)
            &&& record.pieces@.len() == blocks@.len()
            &&& forall|i: int|
                0 <= i < record.pieces@.len() ==> {
                    &&& (#[trigger] record.pieces@[i]).index == i
                    &&& record.pieces@[i].hash@ == blocks@[i].meta.hash@
                    &&& record.pieces@[i].size == blocks@[i].meta.size
                }
            &&& parity_count == 0 ==> shards is None
            &&& parity_count >= 1 ==> (shards matches Some(ss) && {
                &&& ss.k == blocks@.len()
                &&& ss.m == parity_count
                &&& views_of(ss.data_shards@) == spec_padded_chunks(raw_bytes@, piece_size as nat)
                &&& views_of(ss.parity_shards@) == rs_parity_of(
                    spec_padded_chunks(raw_bytes@, piece_size as nat),
                    parity_count as nat,
                )
            })
            &&& spec_choke_outcome(availability.peers@, choke_capacity as nat, unchoked@)
            &&& spec_assignments_for(
                availability.peers@,
                record.pieces@.len() as nat,
                unchoked@,
                assignments@,
            )
            &&& forall|a: int|
                0 <= a < assignments@.len() ==> spec_rarest_missing(
                    availability.peers@,
                    record.pieces@.len() as nat,
                    (#[trigger] assignments@[a]).peer_id@,
                    assignments@[a].piece_index,
                )
        },
        r matches Err(e) ==> (e == EngineError::CompressionError || e
            == EngineError::ConfigurationError),
{
    let content_hash = sha256(raw_bytes);
    if let Some(reference) = catalog.lookup(&content_hash) {
        return Ok(StoreOutcome::Deduplicated { reference });
    }
    let blocks = match split(raw_bytes, piece_size) {
        Ok(b) => b,
        Err(e) => {
            return Err(e);
        },
    };
    let mut metas: Vec<PieceMetadata> = Vec::new();
    let mut i: usize = 0;
    while i < blocks.len()
        invariant
            i <= blocks@.len(),
            metas@.len() == i,
            forall|j: int|
                0 <= j < i ==> {
                    &&& (#[trigger] metas@[j]).index == blocks@[j].meta.index
                    &&& metas@[j].hash@ == blocks@[j].meta.hash@
                    &&& metas@[j].size == blocks@[j].meta.size
                },
        decreases blocks@.len() - i,
    {
        let b = &blocks[i];
        metas.push(
            PieceMetadata {
                index: b.meta.index,
                hash: crate::tracker::clone_bytes(&b.meta.hash),
                size: b.meta.size,
            },
        );
        i = i + 1;
    }
    let shards: Option<ShardSet> = if parity_count > 0 {
        let padded = pad_chunks(raw_bytes, piece_size);
        proof {
            assert(views_of(padded@) =~= spec_padded_chunks(raw_bytes@, piece_size as nat));
        }
        match encode(padded, parity_count) {
            Ok(ss) => Some(ss),
            Err(e) => {
                proof {
                    if spec_erasure_feasible(
                        raw_bytes@.len(),
                        piece_size as nat,
                        parity_count as nat,
                    ) {
                        let pc = spec_padded_chunks(raw_bytes@, piece_size as nat);
                        lemma_padded_len(raw_bytes@, piece_size as nat, 0);
                        assert(pc[0].len() == piece_size);
                        assert forall|k: int| 0 <= k < pc.len() implies (#[trigger] pc[k]).len()
                            == pc[0].len() by {
                            lemma_padded_len(raw_bytes@, piece_size as nat, k);
                            assert(pc[k] == spec_padded_chunk(
                                raw_bytes@,
                                piece_size as nat,
                                k,
                            ));
                        }
                        assert(shards_ok(pc, parity_count as nat));
                    }
                }
                return Err(e);
            },
        }
    } else {
        None
    };
    let record = FileRecord { content_hash, pieces: metas, total_size: raw_bytes.len() };
    let unchoked = choke_peers(&availability.peers, choke_capacity);
    let ghost npieces = record.pieces@.len() as nat;
    let mut assignments: Vec<Assignment> = Vec::new();
    let mut p: usize = 0;
    proof {
        assert(unchoked@.subrange(0, 0) =~= Seq::<String>::empty());
    }
    while p < unchoked.len()
        invariant
            tracker_wf(availability.peers@),
            crate::tracker::pieces_wf(record.pieces@),
            npieces == record.pieces@.len() as nat,
            p <= unchoked@.len(),
            spec_assignments_for(
                availability.peers@,
                npieces,
                unchoked@.subrange(0, p as int),
                assignments@,
            ),
            forall|a: int|
                0 <= a < assignments@.len() ==> spec_rarest_missing(
                    availability.peers@,
                    npieces,
                    (#[trigger] assignments@[a]).peer_id@,
                    assignments@[a].piece_index,
                ),
        decreases unchoked@.len() - p,
    {
        let name = &unchoked[p];
        let ghost a_pre = assignments@;
        let ghost u_pre = unchoked@.subrange(0, p as int);
        match next_piece_for(&record.pieces, availability, name) {
            Some(m) => {
                assignments.push(Assignment { peer_id: name.clone(), piece_index: m.index });
                proof {
                    let g = assignments@.last();
                    assert(assignments@ == a_pre.push(g));
                    assert(g.peer_id@ == unchoked@[p as int]@);
                    assert(spec_misses_some(availability.peers@, npieces, name@)) by {
                        assert(m.index < npieces && !spec_holds(
                            availability.peers@,
                            name@,
                            m.index,
                        ));
                    }
                    assert(spec_rarest_missing(availability.peers@, npieces, name@,
                        g.piece_index));
                    lemma_assignments_push(
                        availability.peers@,
                        npieces,
                        u_pre,
                        a_pre,
                        unchoked@[p as int],
                        Some(g),
                    );
                    assert(unchoked@.subrange(0, p + 1) =~= u_pre.push(unchoked@[p as int]));
                }
            },
            None => {
                proof {
                    assert(!spec_misses_some(availability.peers@, npieces, name@)) by {
                        if spec_misses_some(availability.peers@, npieces, name@) {
                            let ix = choose|ix: usize|
                                ix < npieces && !spec_holds(availability.peers@, name@, ix);
                        }
                    }
                    lemma_assignments_push(
                        availability.peers@,
                        npieces,
                        u_pre,
                        a_pre,
                        unchoked@[p as int],
                        None,
                    );
                    assert(unchoked@.subrange(0, p + 1) =~= u_pre.push(unchoked@[p as int]));
                }
            },
        }
        p = p + 1;
    }
    proof {
        assert(unchoked@.subrange(0, unchoked@.len() as int) =~= unchoked@);
    }
    Ok(StoreOutcome::Stored { record, blocks, shards, unchoked, assignments })
}

} // verus!
