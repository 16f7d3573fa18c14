//! Erasure-coded redundancy: parity shards over equal-size data shards,
//! and reconstruction of the original data from any `k` of the `k + m`
//! shards.

use vstd::prelude::*;

use crate::EngineError;

verus! {

/// Most shards the Galois-8 coding scheme supports in one encoding.
pub const MAX_TOTAL_SHARDS: usize = 256;

/// The views of a sequence of byte vectors.
pub open spec fn views_of(s: Seq<Vec<u8>>) -> Seq<Seq<u8>> {
    s.map_values(|v: Vec<u8>| v@)
}

/// The views of a sequence of optional byte vectors.
pub open spec fn opts_of(s: Seq<Option<Vec<u8>>>) -> Seq<Option<Seq<u8>>> {
    s.map_values(
        |o: Option<Vec<u8>>|
            match o {
                Some(v) => Some(v@),
                None => None,
            },
    )
}

/// The `m` parity shards the coding scheme derives from `data`. A pure
/// function of the data shards and the parity count; its value is named,
/// not stated.
pub uninterp spec fn rs_parity_of(data: Seq<Seq<u8>>, m: nat) -> Seq<Seq<u8>>;

/// Valid encoding parameters: at least one data shard and one parity
/// shard, a supported total shard count, and equal-length non-empty shards.
pub open spec fn shards_ok(data: Seq<Seq<u8>>, m: nat) -> bool {
    &&& 1 <= data.len()
    &&& 1 <= m
    &&& data.len() + m <= MAX_TOTAL_SHARDS
    &&& data[0].len() >= 1
    &&& forall|i: int| 0 <= i < data.len() ==> (#[trigger] data[i]).len() == data[0].len()
}

/// `avail` is a (possibly partial) view of the encoding of `data` with `m`
/// parity shards: every present shard equals the corresponding shard of
/// the full encoding.
pub open spec fn shards_match(avail: Seq<Option<Seq<u8>>>, data: Seq<Seq<u8>>, m: nat) -> bool {
    &&& avail.len() == data.len() + m
    &&& forall|i: int|
        0 <= i < avail.len() ==> ((#[trigger] avail[i]) matches Some(b) ==> b == (data
            + rs_parity_of(data, m))[i])
}

/// How many shards of `avail` are present.
pub open spec fn count_present(avail: Seq<Option<Seq<u8>>>) -> nat
    decreases avail.len(),
{
    if avail.len() == 0 {
        0
    } else {
        count_present(avail.drop_last()) + (if avail.last() is Some {
            1nat
        } else {
            0nat
        })
    }
}

/// Relies on reed_solomon_erasure::galois_8::ReedSolomon::{new, encode}:
/// given `k` data shards followed by `m` same-length slots, `encode`
/// overwrites the slots with parity shards that are a function of the data
/// shards and the counts alone; `new` accepts positive counts up to 256
/// shards in total, and `encode` accepts equal-length non-empty shards.
#[verifier::external_body]
fn rs_encode_shards(shards: Vec<Vec<u8>>, k: usize, m: usize) -> (r: Option<Vec<Vec<u8>>>)
    requires
        shards@.len() == k + m,
    ensures
        r matches Some(out) ==> {
            &&& out@.len() == k + m
            &&& out@.subrange(0, k as int) == shards@.subrange(0, k as int)
            &&& views_of(out@.subrange(k as int, (k + m) as int)) == rs_parity_of(
                views_of(shards@.subrange(0, k as int)),
                m as nat,
            )
            &&& forall|j: int|
                0 <= j < out@.len() ==> (#[trigger] out@[j])@.len() == shards@[0]@.len()
        },
        r is None ==> !(1 <= k && 1 <= m && k + m <= MAX_TOTAL_SHARDS && shards@[0]@.len() >= 1
            && forall|j: int| 0 <= j < shards@.len() ==> (#[trigger] shards@[j])@.len()
            == shards@[0]@.len()),
{
    let rs = match reed_solomon_erasure::galois_8::ReedSolomon::new(k, m) {
        Ok(rs) => rs,
        Err(_) => return None,
    };
    let mut shards = shards;
    match rs.encode(&mut shards) {
        Ok(()) => Some(shards),
        Err(_) => None,
    }
}

/// Relies on reed_solomon_erasure::galois_8::ReedSolomon::{new,
/// reconstruct}: with at least `k` of the `k + m` shards of an encoding
/// present, reconstruction fills every missing shard with the shard of
/// that encoding.
#[verifier::external_body]
fn rs_reconstruct_shards(shards: Vec<Option<Vec<u8>>>, k: usize, m: usize) -> (r: Option<
    Vec<Vec<u8>>,
>)
    ensures
        r matches Some(out) ==> forall|d: Seq<Seq<u8>>|
            #![trigger shards_match(opts_of(shards@), d, m as nat)]
            shards_match(opts_of(shards@), d, m as nat) && d.len() == k && shards_ok(
                d,
                m as nat,
            ) && count_present(opts_of(shards@)) >= k ==> views_of(out@) == d + rs_parity_of(
                d,
                m as nat,
            ),
        r is None ==> forall|d: Seq<Seq<u8>>|
            #![trigger shards_match(opts_of(shards@), d, m as nat)]
            !(shards_match(opts_of(shards@), d, m as nat) && d.len() == k && shards_ok(
                d,
                m as nat,
            ) && count_present(opts_of(shards@)) >= k),
{
    let rs = match reed_solomon_erasure::galois_8::ReedSolomon::new(k, m) {
        Ok(rs) => rs,
        Err(_) => return None,
    };
    let mut s = shards;
    match rs.reconstruct(&mut s) {
        Ok(()) => Some(s.into_iter().map(|o| o.unwrap()).collect()),
        Err(_) => None,
    }
}

/// Data shards with their derived parity shards: the original content is
/// reconstructable from any `k` of the `k + m` shards.
#[derive(Debug)]
pub struct ShardSet {
    pub data_shards: Vec<Vec<u8>>,
    pub parity_shards: Vec<Vec<u8>>,
    pub k: usize,
    pub m: usize,
}

/// Derives `parity_count` parity shards over the given equal-length data
/// shards. Succeeds exactly on valid parameters; every failure is a
/// `ConfigurationError`.
pub fn encode(data_shards: Vec<Vec<u8>>, parity_count: usize) -> (r: Result<
    ShardSet,
    EngineError,
>)
    ensures
        r is Ok <==> shards_ok(views_of(data_shards@), parity_count as nat),
        r matches Ok(ss) ==> {
            &&& ss.k == data_shards@.len()
            &&& ss.m == parity_count
            &&& ss.data_shards@ == data_shards@
            &&& views_of(ss.parity_shards@) == rs_parity_of(
                views_of(data_shards@),
                parity_count as nat,
            )
            &&& ss.parity_shards@.len() == parity_count
            &&& forall|j: int|
                0 <= j < ss.parity_shards@.len() ==> (#[trigger] ss.parity_shards@[j])@.len()
                    == data_shards@[0]@.len()
        },
        r matches Err(e) ==> e == EngineError::ConfigurationError,
{
    let k = data_shards.len();
    if k == 0 || parity_count == 0 || parity_count > MAX_TOTAL_SHARDS || k > MAX_TOTAL_SHARDS
        - parity_count {
        return Err(EngineError::ConfigurationError);
    }
    if data_shards[0].len() == 0 {
        proof {
            assert(views_of(data_shards@)[0] == data_shards@[0]@);
        }
        return Err(EngineError::ConfigurationError);
    }
    let mut i: usize = 1;
    while i < k
        invariant
            k == data_shards@.len(),
            i <= k,
            forall|j: int|
                0 <= j < i ==> (#[trigger] data_shards@[j])@.len() == data_shards@[0]@.len(),
        decreases k - i,
    {
        if data_shards[i].len() != data_shards[0].len() {
            proof {
                assert(views_of(data_shards@)[i as int] == data_shards@[i as int]@);
                assert(views_of(data_shards@)[0] == data_shards@[0]@);
            }
            return Err(EngineError::ConfigurationError);
        }
        i = i + 1;
    }
    proof {
        assert forall|j: int| 0 <= j < views_of(data_shards@).len() implies (
        #[trigger] views_of(data_shards@)[j]).len() == views_of(data_shards@)[0].len() by {
            assert(data_shards@[j]@.len() == data_shards@[0]@.len());
        }
        assert(shards_ok(views_of(data_shards@), parity_count as nat));
    }
    let shard_len = data_shards[0].len();
    let ghost data_view = data_shards@;
    let mut shards = data_shards;
    let mut j: usize = 0;
    while j < parity_count
        invariant
            j <= parity_count,
            k + parity_count <= MAX_TOTAL_SHARDS,
            shards@.len() == data_view.len() + j,
            k == data_view.len(),
            forall|i: int| 0 <= i < k ==> shards@[i] == data_view[i],
            forall|i: int| k <= i < shards@.len() ==> (#[trigger] shards@[i])@.len() == shard_len,
            shard_len == data_view[0]@.len(),
        decreases parity_count - j,
    {
        let mut slot: Vec<u8> = Vec::new();
        let mut z: usize = 0;
        while z < shard_len
            invariant
                z <= shard_len,
                slot@.len() == z,
            decreases shard_len - z,
        {
            slot.push(0u8);
            z = z + 1;
        }
        shards.push(slot);
        j = j + 1;
    }
    let ghost pre = shards@;
    match rs_encode_shards(shards, k, parity_count) {
        Some(mut out) => {
            let ghost full = out@;
            let parity = out.split_off(k);
            proof {
                assert(pre.subrange(0, k as int) =~= data_view);
                assert(out@ =~= data_view);
                assert(views_of(parity@) == rs_parity_of(views_of(data_view), parity_count as nat))
                    by {
                    assert(parity@ == full.subrange(k as int, (k + parity_count) as int));
                }
                assert forall|i: int| 0 <= i < parity@.len() implies (
                #[trigger] parity@[i])@.len() == data_view[0]@.len() by {
                    assert(parity@[i] == full[k + i]);
                    assert(full[k + i]@.len() == pre[0]@.len());
                }
            }
            Ok(ShardSet { data_shards: out, parity_shards: parity, k, m: parity_count })
        },
        None => {
            proof {
                assert(pre[0] == data_view[0]);
                assert(pre[0]@.len() == shard_len);
                assert forall|t: int| 0 <= t < pre.len() implies (#[trigger] pre[t])@.len()
                    == pre[0]@.len() by {
                    if t < k {
                        assert(pre[t] == data_view[t]);
                        assert(views_of(data_view)[t].len() == views_of(data_view)[0].len());
                    }
                }
                assert(false);
            }
            Err(EngineError::ConfigurationError)
        },
    }
}

/// Counts the present shards.
fn present_count(avail: &Vec<Option<Vec<u8>>>) -> (r: usize)
    ensures
        r as nat == count_present(opts_of(avail@)),
{
    let mut count: usize = 0;
    let mut i: usize = 0;
    proof {
        assert(opts_of(avail@.subrange(0, 0)) =~= Seq::<Option<Seq<u8>>>::empty());
    }
    while i < avail.len()
        invariant
            i <= avail@.len(),
            count <= i,
            count as nat == count_present(opts_of(avail@.subrange(0, i as int))),
        decreases avail@.len() - i,
    {
        let ghost pre = opts_of(avail@.subrange(0, i as int));
        proof {
            let post = opts_of(avail@.subrange(0, i + 1));
            assert(post.drop_last() =~= pre);
            assert(post.last() == opts_of(avail@)[i as int]);
        }
        if avail[i].is_some() {
            count = count + 1;
        }
        i = i + 1;
    }
    proof {
        assert(avail@.subrange(0, avail@.len() as int) =~= avail@);
    }
    count
}

/// Reconstructs the original `k` data shards from any `k` of the `k + m`
/// shards of an encoding. Fewer than `k` present shards is rejected with
/// `InsufficientShardsError`; for every data sequence the available shards
/// are an encoding of, the result is exactly that sequence.
pub fn decode(available: Vec<Option<Vec<u8>>>, k: usize, m: usize) -> (r: Result<
    Vec<Vec<u8>>,
    EngineError,
>)
    ensures
        count_present(opts_of(available@)) < k ==> r == Err::<Vec<Vec<u8>>, EngineError>(
            EngineError::InsufficientShardsError,
        ),
        forall|d: Seq<Seq<u8>>|
            #![trigger shards_match(opts_of(available@), d, m as nat)]
            shards_match(opts_of(available@), d, m as nat) && d.len() == k && shards_ok(
                d,
                m as nat,
            ) && count_present(opts_of(available@)) >= k ==> (r matches Ok(out) && views_of(out@)
                == d),
        r matches Err(e) ==> (e == EngineError::InsufficientShardsError || e
            == EngineError::ConfigurationError),
{
    let present = present_count(&available);
    if present < k {
        return Err(EngineError::InsufficientShardsError);
    }
    let ghost avail_view = opts_of(available@);
    match rs_reconstruct_shards(available, k, m) {
        Some(mut out) => {
            let ghost full = out@;
            out.truncate(k);
            proof {
                assert forall|d: Seq<Seq<u8>>|
                    #![trigger shards_match(avail_view, d, m as nat)]
                    shards_match(avail_view, d, m as nat) && d.len() == k && shards_ok(
                        d,
                        m as nat,
                    ) && count_present(avail_view) >= k implies views_of(out@) == d by {
                    assert(views_of(full) == d + rs_parity_of(d, m as nat));
                    assert(views_of(out@) =~= d) by {
                        assert(out@ == full.subrange(0, k as int));
                        assert forall|j: int| 0 <= j < k implies views_of(out@)[j] == d[j] by {
                            assert(views_of(full)[j] == (d + rs_parity_of(d, m as nat))[j]);
                            assert(out@[j] == full[j]);
                        }
                        assert(views_of(full).len() == full.len());
                        assert(full.len() == d.len() + rs_parity_of(d, m as nat).len());
                    }
                }
            }
            Ok(out)
        },
        None => Err(EngineError::ConfigurationError),
    }
}

/// Loss tolerance of the coding: any availability view that keeps at least
/// `k` shards of an encoding of `data` — no matter which shards were lost —
/// still matches `data`, so `decode` is obliged to return exactly `data`
/// from it.
pub proof fn lemma_erasure_tolerates_loss(
    data: Seq<Seq<u8>>,
    m: nat,
    avail: Seq<Option<Seq<u8>>>,
)
    requires
        avail.len() == data.len() + m,
        forall|i: int|
            0 <= i < avail.len() ==> ((#[trigger] avail[i]) matches Some(b) ==> b == (data
                + rs_parity_of(data, m))[i]),
    ensures
        shards_match(avail, data, m),
{
}

} // verus!
