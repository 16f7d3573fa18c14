//! Splitting raw bytes into fixed-size, compressed, content-addressed pieces,
//! and reassembling the original bytes from them.

use vstd::prelude::*;

use crate::EngineError;
use crate::compress::{MAX_COMPRESS_INPUT, compressed_of, compress_block, decompress_block};
use crate::hashing::{sha256_of, sha256};

verus! {

/// Metadata for one piece of a file: its position, the digest of its
/// canonical compressed form, and the length of its raw chunk.
///
/// The digest covers the compressed form, so every peer must produce that
/// form with the same deterministic codec build; hashing the raw chunk
/// instead would lift that assumption at the cost of recompressing for
/// transport.
pub struct PieceMetadata {
    pub index: usize,
    pub hash: Vec<u8>,
    pub size: usize,
}

/// A piece together with its canonical compressed content.
pub struct Piece {
    pub meta: PieceMetadata,
    pub data: Vec<u8>,
}

/// Number of chunks a byte sequence of length `len` yields for chunk size
/// `psize`: full chunks, plus one shorter final chunk if the length is not a
/// multiple of `psize`.
pub open spec fn spec_num_chunks(len: nat, psize: nat) -> nat
    decreases len,
{
    if psize == 0 || len == 0 {
        0
    } else if len <= psize {
        1
    } else {
        1 + spec_num_chunks((len - psize) as nat, psize)
    }
}

/// The raw bytes of chunk `i` of `data` for chunk size `psize`.
pub open spec fn spec_chunk(data: Seq<u8>, psize: nat, i: int) -> Seq<u8> {
    let start = i * psize;
    let end = if (i + 1) * psize <= data.len() { (i + 1) * psize } else { data.len() as int };
    data.subrange(start, end)
}

/// `p` is piece `i` of `data`: indexed `i`, carrying the compressed chunk,
/// its digest, and the raw chunk length.
pub open spec fn piece_models(p: Piece, data: Seq<u8>, psize: nat, i: int) -> bool {
    &&& p.meta.index == i
    &&& p.data@ == compressed_of(spec_chunk(data, psize, i))
    &&& p.meta.hash@ == sha256_of(p.data@)
    &&& p.meta.size == spec_chunk(data, psize, i).len()
}

/// `pieces` is exactly the piece sequence of `data` for piece size `psize`.
pub open spec fn split_models(pieces: Seq<Piece>, data: Seq<u8>, psize: nat) -> bool {
    &&& pieces.len() == spec_num_chunks(data.len(), psize)
    &&& forall|i: int| 0 <= i < pieces.len() ==> piece_models(#[trigger] pieces[i], data, psize, i)
}

/// Chunks cover the whole input: the chunk count is large enough that the
/// final chunk ends at the end of the input, and (when the input is not
/// empty) the last chunk starts before the end and is non-empty.
pub proof fn lemma_num_chunks_covers(len: nat, psize: nat)
    requires
        psize >= 1,
    ensures
        spec_num_chunks(len, psize) * psize >= len,
        len > 0 ==> (spec_num_chunks(len, psize) - 1) * psize < len,
    decreases len,
{
    if len == 0 {
    } else if len <= psize {
        assert(spec_num_chunks(len, psize) == 1);
        assert(1 * psize == psize) by (nonlinear_arith);
        assert(0 * psize == 0) by (nonlinear_arith);
    } else {
        lemma_num_chunks_covers((len - psize) as nat, psize);
        let rest = spec_num_chunks((len - psize) as nat, psize);
        assert(rest * psize >= len - psize);
        assert((rest - 1) * psize < len - psize);
        assert((rest + 1) * psize == rest * psize + psize) by (nonlinear_arith);
        assert(rest * psize == (rest - 1) * psize + psize) by (nonlinear_arith);
    }
}

/// Splits `raw_bytes` into chunks of `piece_size` bytes (the final chunk may
/// be shorter), compresses each chunk, and hashes the compressed form. The
/// result is pinned to the input: on success it is exactly the piece
/// sequence of `raw_bytes`, and success is owed whenever the codec's input
/// limit is respected.
pub fn split(raw_bytes: &[u8], piece_size: usize) -> (r: Result<Vec<Piece>, EngineError>)
    requires
        piece_size >= 1,
    ensures
        r matches Ok(ps) ==> split_models(ps@, raw_bytes@, piece_size as nat),
        r matches Err(e) ==> e == EngineError::CompressionError,
        raw_bytes@.len() <= MAX_COMPRESS_INPUT ==> r is Ok,
{
    let len = raw_bytes.len();
    let ghost psize = piece_size as nat;
    let mut pieces: Vec<Piece> = Vec::new();
    let mut offset: usize = 0;
    let mut idx: usize = 0;
    while offset < len
        invariant
            len == raw_bytes@.len(),
            piece_size >= 1,
            psize == piece_size as nat,
            offset <= len,
            offset < len ==> offset == idx * psize,
            offset == len ==> idx * psize >= len,
            idx == pieces@.len(),
            idx + spec_num_chunks((len - offset) as nat, psize)
                == spec_num_chunks(len as nat, psize),
            forall|j: int| 0 <= j < idx
                ==> piece_models(#[trigger] pieces@[j], raw_bytes@, psize, j),
        decreases len - offset,
    {
        let end: usize = if len - offset > piece_size { offset + piece_size } else { len };
        proof {
            assert((idx + 1) * psize == idx * psize + psize) by (nonlinear_arith);
            assert(idx * psize >= idx) by (nonlinear_arith)
                requires psize >= 1;
        }
        let chunk = vstd::slice::slice_subrange(raw_bytes, offset, end);
        let compressed = match compress_block(chunk) {
            Some(c) => c,
            None => {
                return Err(EngineError::CompressionError);
            },
        };
        let hash = sha256(compressed.as_slice());
        let piece = Piece {
            meta: PieceMetadata { index: idx, hash, size: end - offset },
            data: compressed,
        };
        proof {
            assert(chunk@ == spec_chunk(raw_bytes@, psize, idx as int));
            assert(piece_models(piece, raw_bytes@, psize, idx as int));
        }
        pieces.push(piece);
        offset = end;
        idx = idx + 1;
    }
    proof {
        assert(spec_num_chunks(0, psize) == 0);
    }
    Ok(pieces)
}

/// Two piece sequences of the same bytes with the same piece size agree
/// piecewise: same indices, same hashes, same sizes, same contents.
pub proof fn lemma_split_deterministic(p1: Seq<Piece>, p2: Seq<Piece>, data: Seq<u8>, psize: nat)
    requires
        split_models(p1, data, psize),
        split_models(p2, data, psize),
    ensures
        p1.len() == p2.len(),
        forall|i: int| 0 <= i < p1.len() ==> {
            &&& (#[trigger] p1[i]).meta.index == p2[i].meta.index
            &&& p1[i].meta.hash@ == p2[i].meta.hash@
            &&& p1[i].meta.size == p2[i].meta.size
            &&& p1[i].data@ == p2[i].data@
        },
{
}

/// Checks a received piece against its declared digest; the piece is
/// accepted exactly when its bytes hash to `meta.hash`.
pub fn verify_piece(data: &[u8], meta: &PieceMetadata) -> (r: Result<(), EngineError>)
    ensures
        r is Ok <==> sha256_of(data@) == meta.hash@,
        r matches Err(e) ==> e == EngineError::IntegrityError,
{
    let digest = sha256(data);
    if bytes_eq(digest.as_slice(), meta.hash.as_slice()) {
        Ok(())
    } else {
        Err(EngineError::IntegrityError)
    }
}

/// Byte-sequence equality.
pub fn bytes_eq(a: &[u8], b: &[u8]) -> (r: bool)
    ensures
        r <==> a@ == b@,
{
    if a.len() != b.len() {
        proof {
            assert(a@ != b@);
        }
        return false;
    }
    let mut i: usize = 0;
    while i < a.len()
        invariant
            i <= a@.len(),
            a@.len() == b@.len(),
            forall|j: int| 0 <= j < i ==> a@[j] == b@[j],
        decreases a@.len() - i,
    {
        if a[i] != b[i] {
            proof {
                assert(a@ != b@);
            }
            return false;
        }
        i = i + 1;
    }
    proof {
        assert(a@ =~= b@);
    }
    true
}

/// Decompresses the pieces and concatenates their contents in index order.
/// For any original byte sequence whose piece sequence `blocks` is, the
/// result is exactly that sequence.
pub fn reassemble(blocks: &Vec<Piece>, piece_size: usize) -> (r: Result<Vec<u8>, EngineError>)
    requires
        piece_size >= 1,
    ensures
        forall|orig: Seq<u8>| #[trigger] split_models(blocks@, orig, piece_size as nat)
            ==> (r matches Ok(b) && b@ == orig),
        r matches Err(e) ==> e == EngineError::CompressionError,
{
    let ghost psize = piece_size as nat;
    let n = blocks.len();
    let mut acc: Vec<u8> = Vec::new();
    let mut idx: usize = 0;
    while idx < n
        invariant
            piece_size >= 1,
            psize == piece_size as nat,
            n == blocks@.len(),
            idx <= n,
            forall|orig: Seq<u8>| #[trigger] split_models(blocks@, orig, psize) ==> {
                let upto = if idx * psize <= orig.len() { idx * psize } else { orig.len() as int };
                acc@ == orig.subrange(0, upto)
            },
        decreases n - idx,
    {
        let decompressed = match decompress_block(blocks[idx].data.as_slice()) {
            Some(d) => d,
            None => {
                proof {
                    assert forall|orig: Seq<u8>| !split_models(blocks@, orig, psize) by {
                        if split_models(blocks@, orig, psize) {
                            assert(piece_models(blocks@[idx as int], orig, psize, idx as int));
                            assert(blocks@[idx as int].data@
                                == compressed_of(spec_chunk(orig, psize, idx as int)));
                        }
                    }
                }
                return Err(EngineError::CompressionError);
            },
        };
        proof {
            assert forall|orig: Seq<u8>| #[trigger] split_models(blocks@, orig, psize)
                implies decompressed@ == spec_chunk(orig, psize, idx as int) by {
                assert(piece_models(blocks@[idx as int], orig, psize, idx as int));
                assert(blocks@[idx as int].data@
                    == compressed_of(spec_chunk(orig, psize, idx as int)));
            }
        }
        let ghost acc_before = acc@;
        append_bytes(&mut acc, decompressed.as_slice());
        proof {
            assert forall|orig: Seq<u8>| #[trigger] split_models(blocks@, orig, psize) implies {
                let upto = if (idx + 1) * psize <= orig.len() {
                    (idx + 1) * psize
                } else {
                    orig.len() as int
                };
                acc@ == orig.subrange(0, upto)
            } by {
                let start = idx * psize;
                let upto_old = if start <= orig.len() { start } else { orig.len() as int };
                let upto = if (idx + 1) * psize <= orig.len() {
                    (idx + 1) * psize
                } else {
                    orig.len() as int
                };
                assert((idx + 1) * psize == idx * psize + psize) by (nonlinear_arith);
                assert(idx < blocks@.len());
                lemma_num_chunks_covers(orig.len(), psize);
                assert(idx * psize <= (spec_num_chunks(orig.len(), psize) - 1) * psize)
                    by (nonlinear_arith)
                    requires idx + 1 <= spec_num_chunks(orig.len(), psize), psize >= 1;
                if orig.len() > 0 {
                    assert(start <= orig.len());
                } else {
                    assert(blocks@.len() == 0);
                }
                assert(upto_old == start);
                assert(acc@ == acc_before + decompressed@);
                assert(orig.subrange(0, upto) =~= orig.subrange(0, start)
                    + spec_chunk(orig, psize, idx as int));
            }
        }
        idx = idx + 1;
    }
    proof {
        assert forall|orig: Seq<u8>| #[trigger] split_models(blocks@, orig, psize)
            implies acc@ == orig by {
            lemma_num_chunks_covers(orig.len(), psize);
            let upto = if idx * psize <= orig.len() { idx * psize } else { orig.len() as int };
            assert(upto == orig.len());
            assert(orig.subrange(0, orig.len() as int) =~= orig);
        }
    }
    Ok(acc)
}

/// Appends every byte of `src` to `dst` in order.
pub fn append_bytes(dst: &mut Vec<u8>, src: &[u8])
    ensures
        final(dst)@ == old(dst)@ + src@,
{
    let mut i: usize = 0;
    while i < src.len()
        invariant
            i <= src@.len(),
            dst@ == old(dst)@ + src@.subrange(0, i as int),
        decreases src@.len() - i,
    {
        dst.push(src[i]);
        proof {
            assert(old(dst)@ + src@.subrange(0, i as int) + seq![src@[i as int]]
                =~= old(dst)@ + src@.subrange(0, i + 1));
        }
        i = i + 1;
    }
    proof {
        assert(src@.subrange(0, src@.len() as int) =~= src@);
    }
}

} // verus!
