//! Choke control: partitioning peers into an unchoked (served) set and a
//! choked remainder by performance score.

use vstd::prelude::*;

use crate::tracker::PeerState;
use crate::tracker::vec_contains;

verus! {

/// Peer index `a` outranks peer index `b`: a strictly higher score wins,
/// and equal scores fall to the lower index. A strict total order on
/// distinct indices, so the top-K selection is deterministic.
pub open spec fn spec_better(peers: Seq<PeerState>, a: int, b: int) -> bool {
    ||| peers[a].score > peers[b].score
    ||| (peers[a].score == peers[b].score && a < b)
}

/// `sel` is the deterministic unchoke selection for `peers` and `cap`:
/// `min(cap, |peers|)` distinct peer indices, listed best first, each
/// outranking every unselected index.
pub open spec fn spec_unchoked_selection(peers: Seq<PeerState>, cap: nat, sel: Seq<usize>) -> bool {
    &&& sel.len() == (if cap <= peers.len() {
        cap
    } else {
        peers.len()
    })
    &&& forall|k: int| 0 <= k < sel.len() ==> (#[trigger] sel[k]) < peers.len()
    &&& forall|a: int, b: int|
        0 <= a < b < sel.len() ==> spec_better(peers, sel[a] as int, sel[b] as int)
    &&& forall|k: int, j: usize|
        #![trigger sel[k], sel.contains(j)]
        0 <= k < sel.len() && j < peers.len() && !sel.contains(j) ==> spec_better(
            peers,
            sel[k] as int,
            j as int,
        )
}

/// Picks the indices of the top `capacity` peers by descending score, ties
/// broken by the lower index.
pub fn select_unchoked_indices(peers: &Vec<PeerState>, capacity: usize) -> (r: Vec<usize>)
    ensures
        spec_unchoked_selection(peers@, capacity as nat, r@),
{
    let n = peers.len();
    let mut candidates: Vec<usize> = Vec::new();
    let mut j: usize = 0;
    while j < n
        invariant
            j <= n,
            candidates@.len() == j,
            forall|k: int| 0 <= k < j ==> candidates@[k] == k,
        decreases n - j,
    {
        candidates.push(j);
        j = j + 1;
    }
    let mut chosen: Vec<usize> = Vec::new();
    proof {
        assert forall|v: usize| v < n implies candidates@.contains(v) by {
            assert(candidates@[v as int] == v);
        }
    }
    while chosen.len() < capacity && candidates.len() > 0
        invariant
            n == peers@.len(),
            candidates@.len() + chosen@.len() == n,
            chosen@.len() <= capacity,
            forall|k: int| 0 <= k < candidates@.len() ==> (#[trigger] candidates@[k]) < n,
            forall|k: int| 0 <= k < chosen@.len() ==> (#[trigger] chosen@[k]) < n,
            candidates@.no_duplicates(),
            chosen@.no_duplicates(),
            forall|v: usize| candidates@.contains(v) ==> !chosen@.contains(v),
            forall|v: usize| v < n ==> candidates@.contains(v) || chosen@.contains(v),
            forall|a: int, b: int|
                0 <= a < b < chosen@.len() ==> spec_better(
                    peers@,
                    chosen@[a] as int,
                    chosen@[b] as int,
                ),
            forall|a: int, c: int|
                0 <= a < chosen@.len() && 0 <= c < candidates@.len() ==> spec_better(
                    peers@,
                    (#[trigger] chosen@[a]) as int,
                    (#[trigger] candidates@[c]) as int,
                ),
        decreases capacity - chosen.len(),
    {
        // position in `candidates` of the best remaining peer
        let mut best_pos: usize = 0;
        let mut c: usize = 1;
        while c < candidates.len()
            invariant
                candidates@.len() > 0,
                best_pos < c,
                c <= candidates@.len(),
                candidates@.no_duplicates(),
                forall|k: int| 0 <= k < candidates@.len() ==> (#[trigger] candidates@[k]) < n,
                n == peers@.len(),
                forall|k: int|
                    0 <= k < c && k != best_pos ==> spec_better(
                        peers@,
                        candidates@[best_pos as int] as int,
                        (#[trigger] candidates@[k]) as int,
                    ),
            decreases candidates@.len() - c,
        {
            let ci = candidates[c];
            let bi = candidates[best_pos];
            if peers[ci].score > peers[bi].score || (peers[ci].score == peers[bi].score && ci < bi)
            {
                best_pos = c;
            }
            c = c + 1;
        }
        let ghost cand_pre = candidates@;
        let ghost chosen_pre = chosen@;
        let best = candidates.remove(best_pos);
        chosen.push(best);
        proof {
            assert(candidates@ == cand_pre.remove(best_pos as int));
            assert(chosen@ == chosen_pre.push(best));
            assert(best == cand_pre[best_pos as int]);
            assert forall|v: usize| candidates@.contains(v) implies cand_pre.contains(v) && v
                != best by {
                let k = choose|k: int| 0 <= k < candidates@.len() && candidates@[k] == v;
                let k0 = if k < best_pos as int { k } else { k + 1 };
                assert(cand_pre[k0] == v);
                if v == best {
                    assert(cand_pre[k0] == cand_pre[best_pos as int]);
                }
            }
            assert forall|v: usize| cand_pre.contains(v) && v != best implies
                candidates@.contains(v) by {
                let k = choose|k: int| 0 <= k < cand_pre.len() && cand_pre[k] == v;
                assert(k != best_pos as int);
                let k1 = if k < best_pos as int { k } else { k - 1 };
                assert(candidates@[k1] == v);
            }
            assert(cand_pre.contains(best));
            assert forall|v: usize| v < n implies candidates@.contains(v) || chosen@.contains(v) by {
                if cand_pre.contains(v) {
                    if v != best {
                        assert(candidates@.contains(v));
                    } else {
                        assert(chosen@[chosen_pre.len() as int] == v);
                    }
                } else {
                    assert(chosen_pre.contains(v));
                    let k = choose|k: int| 0 <= k < chosen_pre.len() && chosen_pre[k] == v;
                    assert(chosen@[k] == v);
                }
            }
            assert forall|v: usize| candidates@.contains(v) implies !chosen@.contains(v) by {
                if chosen@.contains(v) {
                    let k = choose|k: int| 0 <= k < chosen@.len() && chosen@[k] == v;
                    if k < chosen_pre.len() {
                        assert(chosen_pre.contains(v));
                    } else {
                        assert(v == best);
                    }
                }
            }
            assert(!chosen_pre.contains(best));
            assert(chosen@.no_duplicates()) by {
                assert forall|a: int, b: int| 0 <= a < b < chosen@.len() implies chosen@[a]
                    != chosen@[b] by {
                    if b == chosen_pre.len() {
                        if chosen@[a] == best {
                            assert(chosen_pre[a] == best);
                            assert(chosen_pre.contains(best));
                        }
                    }
                }
            }
            assert forall|a: int, c2: int|
                0 <= a < chosen@.len() && 0 <= c2 < candidates@.len() implies spec_better(
                peers@,
                (#[trigger] chosen@[a]) as int,
                (#[trigger] candidates@[c2]) as int,
            ) by {
                let v = candidates@[c2];
                assert(cand_pre.contains(v) && v != best);
                let k0 = choose|k0: int| 0 <= k0 < cand_pre.len() && cand_pre[k0] == v;
                if a < chosen_pre.len() {
                    assert(spec_better(peers@, chosen_pre[a] as int, cand_pre[k0] as int));
                } else {
                    assert(chosen@[a] == best);
                    if k0 != best_pos as int {
                        assert(spec_better(
                            peers@,
                            cand_pre[best_pos as int] as int,
                            cand_pre[k0] as int,
                        ));
                    }
                }
            }
            assert forall|a: int, b: int|
                0 <= a < b < chosen@.len() implies spec_better(
                peers@,
                chosen@[a] as int,
                chosen@[b] as int,
            ) by {
                if b == chosen_pre.len() {
                    assert(spec_better(peers@, chosen_pre[a] as int, best as int));
                }
            }
        }
    }
    proof {
        assert forall|k: int, j: usize|
            #![trigger chosen@[k], chosen@.contains(j)]
            0 <= k < chosen@.len() && j < peers@.len() && !chosen@.contains(j) implies spec_better(
            peers@,
            chosen@[k] as int,
            j as int,
        ) by {
            assert(candidates@.contains(j));
        }
        if chosen@.len() < capacity {
            assert(candidates@.len() == 0);
        }
    }
    chosen
}

/// The peer names selected for unchoking: the top `capacity` peers by
/// descending score, ties broken deterministically by the lower index.
pub fn select_unchoked(peers: &Vec<PeerState>, capacity: usize) -> (r: Vec<String>)
    ensures
        exists|sel: Seq<usize>|
            {
                &&& #[trigger] spec_unchoked_selection(peers@, capacity as nat, sel)
                &&& r@.len() == sel.len()
                &&& forall|k: int|
                    0 <= k < sel.len() ==> (#[trigger] r@[k])@ == peers@[sel[k] as int].peer_id@
            },
{
    let sel = select_unchoked_indices(peers, capacity);
    let r = ids_of(peers, &sel);
    proof {
        assert(spec_unchoked_selection(peers@, capacity as nat, sel@));
    }
    r
}

/// The peer names at the given indices, in order.
fn ids_of(peers: &Vec<PeerState>, idxs: &Vec<usize>) -> (r: Vec<String>)
    requires
        forall|k: int| 0 <= k < idxs@.len() ==> (#[trigger] idxs@[k]) < peers@.len(),
    ensures
        r@.len() == idxs@.len(),
        forall|k: int|
            0 <= k < idxs@.len() ==> (#[trigger] r@[k])@ == peers@[idxs@[k] as int].peer_id@,
{
    let mut out: Vec<String> = Vec::new();
    let mut i: usize = 0;
    while i < idxs.len()
        invariant
            i <= idxs@.len(),
            out@.len() == i,
            forall|k: int| 0 <= k < idxs@.len() ==> (#[trigger] idxs@[k]) < peers@.len(),
            forall|k: int|
                0 <= k < i ==> (#[trigger] out@[k])@ == peers@[idxs@[k] as int].peer_id@,
        decreases idxs@.len() - i,
    {
        out.push(peers[idxs[i]].peer_id.clone());
        i = i + 1;
    }
    out
}

/// Relies on rand::random_range over `0..n`: the result is a uniformly
/// random index below `n`; the range is non-empty, so the call returns.
#[verifier::external_body]
fn random_below(n: usize) -> (r: usize)
    requires
        n >= 1,
    ensures
        r < n,
{
    rand::random_range(0..n)
}

/// `r` is a valid unchoke decision for one re-evaluation cycle over
/// `peers` and capacity `cap`: the deterministic top selection first, in
/// rank order, and — whenever some peer is left choked — exactly one
/// optimistic entry at the end, naming an unselected peer.
pub open spec fn spec_choke_outcome(peers: Seq<PeerState>, cap: nat, r: Seq<String>) -> bool {
    exists|sel: Seq<usize>|
        {
            &&& #[trigger] spec_unchoked_selection(peers, cap, sel)
            &&& forall|k: int|
                0 <= k < sel.len() ==> (#[trigger] r[k])@ == peers[sel[k] as int].peer_id@
            &&& sel.len() < peers.len() ==> {
                &&& r.len() == sel.len() + 1
                &&& exists|j: usize|
                    j < peers.len() && !sel.contains(j) && r.last()@ == peers[
                        j as int
                    ].peer_id@
            }
            &&& sel.len() >= peers.len() ==> r.len() == sel.len()
        }
}

/// The unchoke decision for one re-evaluation cycle: the deterministic top
/// `choke_limit` peers by descending score, plus — when any peer is left
/// choked — one optimistic slot filled by a random choked peer, to let
/// under-scored peers demonstrate improvement.
pub fn choke_peers(peers: &Vec<PeerState>, choke_limit: usize) -> (r: Vec<String>)
    ensures
        spec_choke_outcome(peers@, choke_limit as nat, r@),
{
    let sel = select_unchoked_indices(peers, choke_limit);
    let mut r = ids_of(peers, &sel);
    let mut rest: Vec<usize> = Vec::new();
    let mut j: usize = 0;
    while j < peers.len()
        invariant
            j <= peers@.len(),
            forall|k: int| 0 <= k < rest@.len() ==> (#[trigger] rest@[k]) < peers@.len(),
            forall|k: int| 0 <= k < rest@.len() ==> !sel@.contains(#[trigger] rest@[k]),
            forall|v: usize| v < j && !sel@.contains(v) ==> rest@.contains(v),
        decreases peers@.len() - j,
    {
        if !vec_contains(&sel, j) {
            let ghost rest_pre = rest@;
            rest.push(j);
            proof {
                assert forall|v: usize| v < j + 1 && !sel@.contains(v) implies rest@.contains(
                    v,
                ) by {
                    if v < j {
                        let k = choose|k: int| 0 <= k < rest_pre.len() && rest_pre[k] == v;
                        assert(rest@[k] == v);
                    } else {
                        assert(rest@[rest_pre.len() as int] == v);
                    }
                }
            }
        }
        j = j + 1;
    }
    if rest.len() > 0 {
        let pick = random_below(rest.len());
        let opt = rest[pick];
        r.push(peers[opt].peer_id.clone());
        proof {
            assert(spec_unchoked_selection(peers@, choke_limit as nat, sel@));
            assert(sel@.len() < peers@.len()) by {
                if sel@.len() >= peers@.len() {
                    assert(rest@.len() > 0);
                    let v = rest@[0];
                    assert(!sel@.contains(v));
                    assert(spec_unchoked_selection(peers@, choke_limit as nat, sel@));
                    lemma_full_selection_contains_all(peers@, choke_limit as nat, sel@, v);
                }
            }
            assert(r@.last()@ == peers@[opt as int].peer_id@);
            assert(forall|k: int|
                0 <= k < sel@.len() ==> (#[trigger] r@[k])@ == peers@[sel@[k] as int].peer_id@);
        }
    } else {
        proof {
            assert(spec_unchoked_selection(peers@, choke_limit as nat, sel@));
            assert(sel@.len() >= peers@.len()) by {
                if sel@.len() < peers@.len() {
                    assert(peers@.len() <= usize::MAX) by {
                        assert(peers@.len() == peers.len());
                    }
                    lemma_selection_misses_one(peers@, choke_limit as nat, sel@);
                    let v = choose|v: usize| v < peers@.len() && !sel@.contains(v);
                    assert(rest@.contains(v));
                }
            }
        }
    }
    r
}

/// A selection as long as the peer list contains every peer index.
proof fn lemma_full_selection_contains_all(
    peers: Seq<PeerState>,
    cap: nat,
    sel: Seq<usize>,
    v: usize,
)
    requires
        spec_unchoked_selection(peers, cap, sel),
        sel.len() >= peers.len(),
        v < peers.len(),
    ensures
        sel.contains(v),
{
    if !sel.contains(v) {
        // every selected index outranks `v`, in particular `v` itself would
        // have to outrank a selected index, contradicting the strict order;
        // formally: the selection has |peers| distinct indices all below
        // |peers|, so by counting it contains every index below |peers|.
        assert(sel.len() == peers.len());
        assert forall|a: int, b: int| 0 <= a < b < sel.len() implies sel[a] != sel[b] by {
            assert(spec_better(peers, sel[a] as int, sel[b] as int));
        }
        lemma_distinct_below_contains(sel, peers.len() as nat, v);
    }
}

/// `sel` has pairwise distinct entries (it is strictly ordered), all below
/// `n`, and length `n`: then it contains every value below `n`.
proof fn lemma_distinct_below_contains(sel: Seq<usize>, n: nat, v: usize)
    requires
        sel.len() == n,
        forall|k: int| 0 <= k < sel.len() ==> (#[trigger] sel[k]) < n,
        forall|a: int, b: int| 0 <= a < b < sel.len() ==> sel[a] != sel[b],
        v < n,
    ensures
        sel.contains(v),
{
    broadcast use vstd::seq_lib::seq_to_set_is_finite;

    let s = sel.map_values(|x: usize| x as int);
    assert(s.no_duplicates()) by {
        assert forall|a: int, b: int|
            0 <= a < s.len() && 0 <= b < s.len() && a != b implies s[a] != s[b] by {
            if a < b {
                assert(sel[a] != sel[b]);
            } else {
                assert(sel[b] != sel[a]);
            }
        }
    }
    let range = vstd::set_lib::set_int_range(0, n as int);
    vstd::set_lib::lemma_int_range(0, n as int);
    s.unique_seq_to_set();
    if !sel.contains(v) {
        let smaller = s.to_set();
        let target = range.remove(v as int);
        assert(!smaller.contains(v as int)) by {
            if smaller.contains(v as int) {
                let k = choose|k: int| 0 <= k < s.len() && s[k] == v as int;
                assert(sel[k] == v);
            }
        }
        assert(smaller.subset_of(target)) by {
            assert forall|x: int| smaller.contains(x) implies target.contains(x) by {
                let k = choose|k: int| 0 <= k < s.len() && s[k] == x;
                assert(sel[k] < n);
            }
        }
        assert(target.len() == n - 1) by {
            assert(range.contains(v as int));
        }
        vstd::set_lib::lemma_len_subset(smaller, target);
        assert(false);
    }
}

/// A selection shorter than the peer list misses some peer index.
proof fn lemma_selection_misses_one(peers: Seq<PeerState>, cap: nat, sel: Seq<usize>)
    requires
        spec_unchoked_selection(peers, cap, sel),
        sel.len() < peers.len(),
        peers.len() <= usize::MAX,
    ensures
        exists|v: usize| v < peers.len() && !sel.contains(v),
{
    broadcast use vstd::seq_lib::seq_to_set_is_finite;

    let s = sel.map_values(|x: usize| x as int);
    let range = vstd::set_lib::set_int_range(0, peers.len() as int);
    vstd::set_lib::lemma_int_range(0, peers.len() as int);
    if forall|v: usize| #![trigger sel.contains(v)] v < peers.len() ==> sel.contains(v) {
        assert(range.subset_of(s.to_set())) by {
            assert forall|x: int| range.contains(x) implies s.to_set().contains(x) by {
                let v = x as usize;
                assert(sel.contains(v));
                let k = choose|k: int| 0 <= k < sel.len() && sel[k] == v;
                assert(s.len() == sel.len());
                assert(s[k] == (sel[k] as int));
                assert(s[k] == x);
                assert(s.contains(x));
            }
        }
        vstd::set_lib::lemma_len_subset(range, s.to_set());
        s.lemma_cardinality_of_set();
        assert(false);
    }
}

} // verus!
