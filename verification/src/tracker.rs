//! Peer availability: which peers hold which piece indices, per-piece rarity
//! counts, and rarest-first piece selection.

use vstd::prelude::*;

use crate::pieces::PieceMetadata;

verus! {

/// One remote peer: its identifier, the piece indices it reports holding,
/// and its performance score (e.g. a recent transfer rate).
pub struct PeerState {
    pub peer_id: String,
    pub held_pieces: Vec<usize>,
    pub score: u64,
}

/// Records which peers hold which pieces. Rarity is derived from the held
/// sets on demand, so a held-set update and its rarity update can never be
/// applied partially.
pub struct AvailabilityTracker {
    pub peers: Vec<PeerState>,
}

/// Peer `p` reports holding piece `ix`.
pub open spec fn peer_holds(p: PeerState, ix: usize) -> bool {
    p.held_pieces@.contains(ix)
}

/// Some peer named `id` holds piece `ix`.
pub open spec fn spec_holds(peers: Seq<PeerState>, id: Seq<char>, ix: usize) -> bool {
    exists|j: int|
        0 <= j < peers.len() && peers[j].peer_id@ == id && peer_holds(#[trigger] peers[j], ix)
}

/// A peer named `id` is known.
pub open spec fn spec_has_peer(peers: Seq<PeerState>, id: Seq<char>) -> bool {
    exists|j: int| 0 <= j < peers.len() && (#[trigger] peers[j]).peer_id@ == id
}

/// The index of the peer named `id` (unique in a well-formed tracker).
pub open spec fn spec_find(peers: Seq<PeerState>, id: Seq<char>) -> int {
    choose|j: int| 0 <= j < peers.len() && (#[trigger] peers[j]).peer_id@ == id
}

/// The score of the peer named `id`.
pub open spec fn spec_score_of(peers: Seq<PeerState>, id: Seq<char>) -> u64 {
    peers[spec_find(peers, id)].score
}

/// How many peers hold piece `ix`: the rarity count of that piece.
pub open spec fn spec_rarity(peers: Seq<PeerState>, ix: usize) -> nat
    decreases peers.len(),
{
    if peers.len() == 0 {
        0
    } else {
        spec_rarity(peers.drop_last(), ix) + (if peer_holds(peers.last(), ix) {
            1nat
        } else {
            0nat
        })
    }
}

/// Well-formed tracker state: peer names are unique and no peer lists a
/// piece index twice.
pub open spec fn tracker_wf(peers: Seq<PeerState>) -> bool {
    &&& forall|i: int, j: int|
        0 <= i < j < peers.len() ==> (#[trigger] peers[i]).peer_id@ != (
        #[trigger] peers[j]).peer_id@
    &&& forall|i: int|
        0 <= i < peers.len() ==> (#[trigger] peers[i]).held_pieces@.no_duplicates()
}

/// Rarity never exceeds the number of peers.
pub proof fn lemma_rarity_le_len(peers: Seq<PeerState>, ix: usize)
    ensures
        spec_rarity(peers, ix) <= peers.len(),
    decreases peers.len(),
{
    if peers.len() > 0 {
        lemma_rarity_le_len(peers.drop_last(), ix);
    }
}

/// Replacing the peer at `i` changes each rarity count by the difference
/// the replacement makes.
proof fn lemma_rarity_update(peers: Seq<PeerState>, i: int, p: PeerState, ix: usize)
    requires
        0 <= i < peers.len(),
    ensures
        spec_rarity(peers.update(i, p), ix) == spec_rarity(peers, ix) - (if peer_holds(
            peers[i],
            ix,
        ) {
            1int
        } else {
            0int
        }) + (if peer_holds(p, ix) {
            1int
        } else {
            0int
        }),
    decreases peers.len(),
{
    let upd = peers.update(i, p);
    if i == peers.len() - 1 {
        assert(upd.drop_last() =~= peers.drop_last());
        assert(upd.last() == p);
    } else {
        assert(upd.drop_last() =~= peers.drop_last().update(i, p));
        assert(upd.last() == peers.last());
        lemma_rarity_update(peers.drop_last(), i, p, ix);
    }
}

/// Removing the peer at `i` lowers each rarity count by exactly what that
/// peer contributed.
proof fn lemma_rarity_remove(peers: Seq<PeerState>, i: int, ix: usize)
    requires
        0 <= i < peers.len(),
    ensures
        spec_rarity(peers.remove(i), ix) == spec_rarity(peers, ix) - (if peer_holds(
            peers[i],
            ix,
        ) {
            1int
        } else {
            0int
        }),
    decreases peers.len(),
{
    let rem = peers.remove(i);
    if i == peers.len() - 1 {
        assert(rem =~= peers.drop_last());
    } else {
        assert(rem.drop_last() =~= peers.drop_last().remove(i));
        assert(rem.last() == peers.last());
        lemma_rarity_remove(peers.drop_last(), i, ix);
    }
}

/// Rarity counts do not depend on the order in which peers are listed:
/// any two peer lists that are permutations of one another give every
/// piece the same rarity, so the rarest-first choice (minimum rarity,
/// ties to the lowest index) is the same whatever order reports arrived
/// in.
pub proof fn lemma_rarity_order_independent(p1: Seq<PeerState>, p2: Seq<PeerState>, ix: usize)
    requires
        p1.to_multiset() == p2.to_multiset(),
    ensures
        spec_rarity(p1, ix) == spec_rarity(p2, ix),
    decreases p1.len(),
{
    broadcast use vstd::seq_lib::group_to_multiset_ensures;

    if p1.len() == 0 {
        assert(p1.to_multiset().len() == 0);
        assert(p2.len() == 0);
    } else {
        let x = p1.last();
        let rest1 = p1.drop_last();
        assert(p1 =~= rest1.push(x));
        assert(p1.to_multiset() == rest1.to_multiset().insert(x));
        assert(p2.to_multiset().count(x) > 0) by {
            assert(p1.to_multiset().count(x) > 0);
        }
        assert(p2.contains(x));
        let i = choose|i: int| 0 <= i < p2.len() && p2[i] == x;
        let rest2 = p2.remove(i);
        assert(rest2.to_multiset() == p2.to_multiset().remove(x));
        assert(rest1.to_multiset() =~= rest2.to_multiset()) by {
            assert forall|v: PeerState|
                rest1.to_multiset().count(v) == rest2.to_multiset().count(v) by {
                assert(p1.to_multiset().count(v) == rest1.to_multiset().insert(x).count(v));
            }
        }
        lemma_rarity_remove(p2, i, ix);
        lemma_rarity_order_independent(rest1, rest2, ix);
        assert(spec_rarity(p1, ix) == spec_rarity(rest1, ix) + (if peer_holds(x, ix) {
            1nat
        } else {
            0nat
        }));
    }
}

/// Whether `v` contains `x`.
pub fn vec_contains(v: &Vec<usize>, x: usize) -> (r: bool)
    ensures
        r == v@.contains(x),
{
    let mut i: usize = 0;
    while i < v.len()
        invariant
            i <= v@.len(),
            forall|j: int| 0 <= j < i ==> v@[j] != x,
        decreases v@.len() - i,
    {
        if v[i] == x {
            return true;
        }
        i = i + 1;
    }
    false
}

impl AvailabilityTracker {
    /// A tracker that knows no peers.
    pub fn new() -> (r: AvailabilityTracker)
        ensures
            r.peers@ == Seq::<PeerState>::empty(),
            tracker_wf(r.peers@),
    {
        AvailabilityTracker { peers: Vec::new() }
    }

    /// The index of the peer named `peer_id`, if it is known.
    fn find_peer(&self, peer_id: &String) -> (r: Option<usize>)
        ensures
            r matches Some(i) ==> i < self.peers@.len() && self.peers@[i as int].peer_id@
                == peer_id@,
            r is None ==> !spec_has_peer(self.peers@, peer_id@),
    {
        let mut i: usize = 0;
        while i < self.peers.len()
            invariant
                i <= self.peers@.len(),
                forall|j: int| 0 <= j < i ==> (#[trigger] self.peers@[j]).peer_id@ != peer_id@,
            decreases self.peers@.len() - i,
    {
            if self.peers[i].peer_id == *peer_id {
                return Some(i);
            }
            i = i + 1;
        }
        None
    }

    /// Records that `peer_id` holds `piece_index`. Idempotent: the piece is
    /// added to the peer's held set, and that piece's rarity count rises by
    /// one exactly when the peer did not already hold it. A peer seen for
    /// the first time is created with score 0.
    pub fn record(&mut self, peer_id: &String, piece_index: usize)
        requires
            tracker_wf(old(self).peers@),
        ensures
            tracker_wf(final(self).peers@),
            forall|id: Seq<char>, ix: usize|
                spec_holds(final(self).peers@, id, ix) <==> (spec_holds(old(self).peers@, id, ix)
                    || (id == peer_id@ && ix == piece_index)),
            forall|id: Seq<char>|
                spec_has_peer(final(self).peers@, id) <==> (spec_has_peer(old(self).peers@, id)
                    || id == peer_id@),
            forall|ix: usize|
                ix != piece_index ==> spec_rarity(final(self).peers@, ix) == spec_rarity(
                    old(self).peers@,
                    ix,
                ),
            spec_rarity(final(self).peers@, piece_index) == spec_rarity(
                old(self).peers@,
                piece_index,
            ) + (if spec_holds(old(self).peers@, peer_id@, piece_index) {
                0int
            } else {
                1int
            }),
            forall|id: Seq<char>|
                spec_has_peer(old(self).peers@, id) ==> spec_score_of(final(self).peers@, id)
                    == spec_score_of(old(self).peers@, id),
    {
        let ghost old_peers = self.peers@;
        match self.find_peer(peer_id) {
            Some(i) => {
                let mut p = self.peers.remove(i);
                if vec_contains(&p.held_pieces, piece_index) {
                    self.peers.insert(i, p);
                    proof {
                        assert(self.peers@ =~= old_peers);
                        assert(peer_holds(old_peers[i as int], piece_index));
                        assert(spec_holds(old_peers, peer_id@, piece_index));
                    }
                } else {
                    let ghost heldq = p.held_pieces@;
                    p.held_pieces.push(piece_index);
                    self.peers.insert(i, p);
                    proof {
                        let np = self.peers@[i as int];
                        assert(self.peers@ =~= old_peers.update(i as int, np));
                        assert(np.held_pieces@ == heldq.push(piece_index));
                        self.lemma_record_update(old_peers, i as int, np, heldq,
                            peer_id@, piece_index);
                    }
                }
            },
            None => {
                let held: Vec<usize> = vec![piece_index];
                let np = PeerState { peer_id: peer_id.clone(), held_pieces: held, score: 0 };
                self.peers.push(np);
                proof {
                    let npg = self.peers@.last();
                    assert(self.peers@.drop_last() =~= old_peers);
                    assert(npg.held_pieces@ =~= seq![piece_index]);
                    self.lemma_record_push(old_peers, npg, peer_id@, piece_index);
                }
            },
        }
    }

    /// Proof that appending a fresh peer holding only `piece_index` has the
    /// effects `record` states.
    proof fn lemma_record_push(
        &self,
        old_peers: Seq<PeerState>,
        np: PeerState,
        id0: Seq<char>,
        piece_index: usize,
    )
        requires
            tracker_wf(old_peers),
            !spec_has_peer(old_peers, id0),
            self.peers@ == old_peers.push(np),
            np.peer_id@ == id0,
            np.held_pieces@ == seq![piece_index],
        ensures
            tracker_wf(self.peers@),
            forall|id: Seq<char>, ix: usize|
                spec_holds(self.peers@, id, ix) <==> (spec_holds(old_peers, id, ix) || (id == id0
                    && ix == piece_index)),
            forall|id: Seq<char>|
                spec_has_peer(self.peers@, id) <==> (spec_has_peer(old_peers, id) || id == id0),
            forall|ix: usize|
                ix != piece_index ==> spec_rarity(self.peers@, ix) == spec_rarity(old_peers, ix),
            spec_rarity(self.peers@, piece_index) == spec_rarity(old_peers, piece_index) + 1,
            forall|id: Seq<char>|
                spec_has_peer(old_peers, id) ==> spec_score_of(self.peers@, id) == spec_score_of(
                    old_peers,
                    id,
                ),
    {
        let n = old_peers.len() as int;
        let cur = self.peers@;
        assert(cur.drop_last() =~= old_peers);
        assert(cur.last() == np);
        assert forall|ix: usize| peer_holds(np, ix) <==> ix == piece_index by {
            if peer_holds(np, ix) {
                let k = choose|k: int| 0 <= k < np.held_pieces@.len() && np.held_pieces@[k] == ix;
                assert(k == 0);
            }
            if ix == piece_index {
                assert(np.held_pieces@[0] == ix);
            }
        }
        assert(np.held_pieces@.no_duplicates());
        assert forall|id: Seq<char>, ix: usize|
            spec_holds(cur, id, ix) <==> (spec_holds(old_peers, id, ix) || (id == id0 && ix
            == piece_index)) by {
            if spec_holds(cur, id, ix) {
                let j = choose|j: int|
                    0 <= j < cur.len() && cur[j].peer_id@ == id && peer_holds(cur[j], ix);
                if j < n {
                    assert(peer_holds(old_peers[j], ix));
                }
            }
            if spec_holds(old_peers, id, ix) {
                let j = choose|j: int|
                    0 <= j < old_peers.len() && old_peers[j].peer_id@ == id && peer_holds(
                        old_peers[j],
                        ix,
                    );
                assert(cur[j] == old_peers[j]);
                assert(peer_holds(cur[j], ix));
            }
            if id == id0 && ix == piece_index {
                assert(cur[n].peer_id@ == id && peer_holds(cur[n], ix));
            }
        }
        assert forall|id: Seq<char>|
            spec_has_peer(cur, id) <==> (spec_has_peer(old_peers, id) || id == id0) by {
            if spec_has_peer(cur, id) {
                let j = choose|j: int| 0 <= j < cur.len() && cur[j].peer_id@ == id;
                if j < n {
                    assert(old_peers[j].peer_id@ == id);
                }
            }
            if spec_has_peer(old_peers, id) {
                let j = choose|j: int| 0 <= j < old_peers.len() && old_peers[j].peer_id@ == id;
                assert(cur[j].peer_id@ == id);
            }
            if id == id0 {
                assert(cur[n].peer_id@ == id);
            }
        }
        assert forall|id: Seq<char>|
            spec_has_peer(old_peers, id) implies spec_score_of(cur, id) == spec_score_of(
            old_peers,
            id,
        ) by {
            let j1 = spec_find(old_peers, id);
            assert(0 <= j1 < n && old_peers[j1].peer_id@ == id);
            assert(cur[j1].peer_id@ == id);
            assert(spec_has_peer(cur, id));
            let j2 = spec_find(cur, id);
            assert(0 <= j2 < cur.len() && cur[j2].peer_id@ == id);
            assert(j2 != n);
            if j1 != j2 {
                assert(old_peers[j1].peer_id@ != old_peers[j2].peer_id@);
            }
        }
    }

    /// Proof that replacing peer `i`'s held set with the same set plus
    /// `piece_index` has the effects `record` states.
    proof fn lemma_record_update(
        &self,
        old_peers: Seq<PeerState>,
        i: int,
        np: PeerState,
        heldq: Seq<usize>,
        id0: Seq<char>,
        piece_index: usize,
    )
        requires
            tracker_wf(old_peers),
            0 <= i < old_peers.len(),
            old_peers[i].peer_id@ == id0,
            self.peers@ == old_peers.update(i, np),
            np.peer_id@ == id0,
            np.score == old_peers[i].score,
            heldq == old_peers[i].held_pieces@,
            !heldq.contains(piece_index),
            np.held_pieces@ == heldq.push(piece_index),
        ensures
            tracker_wf(self.peers@),
            forall|id: Seq<char>, ix: usize|
                spec_holds(self.peers@, id, ix) <==> (spec_holds(old_peers, id, ix) || (id == id0
                    && ix == piece_index)),
            forall|id: Seq<char>|
                spec_has_peer(self.peers@, id) <==> (spec_has_peer(old_peers, id) || id == id0),
            forall|ix: usize|
                ix != piece_index ==> spec_rarity(self.peers@, ix) == spec_rarity(old_peers, ix),
            spec_rarity(self.peers@, piece_index) == spec_rarity(old_peers, piece_index) + (
            if spec_holds(old_peers, id0, piece_index) {
                0int
            } else {
                1int
            }),
            forall|id: Seq<char>|
                spec_has_peer(old_peers, id) ==> spec_score_of(self.peers@, id) == spec_score_of(
                    old_peers,
                    id,
                ),
    {
        let cur = self.peers@;
        assert forall|ix: usize|
            peer_holds(np, ix) <==> (peer_holds(old_peers[i], ix) || ix == piece_index) by {
            if peer_holds(np, ix) {
                let k = choose|k: int| 0 <= k < np.held_pieces@.len() && np.held_pieces@[k] == ix;
                if k < heldq.len() {
                    assert(heldq[k] == ix);
                }
            }
            if peer_holds(old_peers[i], ix) {
                let k = choose|k: int| 0 <= k < heldq.len() && heldq[k] == ix;
                assert(np.held_pieces@[k] == ix);
            }
            if ix == piece_index {
                assert(np.held_pieces@[heldq.len() as int] == ix);
            }
        }
        assert(np.held_pieces@.no_duplicates()) by {
            assert(heldq.no_duplicates());
            assert forall|a: int, b: int|
                0 <= a < b < np.held_pieces@.len() implies np.held_pieces@[a]
                != np.held_pieces@[b] by {
                if b == heldq.len() {
                    assert(heldq.contains(heldq[a]));
                }
            }
        }
        assert(!spec_holds(old_peers, id0, piece_index)) by {
            if spec_holds(old_peers, id0, piece_index) {
                let j = choose|j: int|
                    0 <= j < old_peers.len() && old_peers[j].peer_id@ == id0 && peer_holds(
                        old_peers[j],
                        piece_index,
                    );
                if j != i {
                    assert(old_peers[j].peer_id@ != old_peers[i].peer_id@);
                }
            }
        }
        assert forall|ix: usize|
            spec_rarity(cur, ix) == spec_rarity(old_peers, ix) + (if ix == piece_index {
                1int
            } else {
                0int
            }) by {
            lemma_rarity_update(old_peers, i, np, ix);
        }
        assert forall|id: Seq<char>, ix: usize|
            spec_holds(cur, id, ix) <==> (spec_holds(old_peers, id, ix) || (id == id0 && ix
            == piece_index)) by {
            if spec_holds(cur, id, ix) {
                let j = choose|j: int|
                    0 <= j < cur.len() && cur[j].peer_id@ == id && peer_holds(cur[j], ix);
                if j != i {
                    assert(peer_holds(old_peers[j], ix));
                }
            }
            if spec_holds(old_peers, id, ix) {
                let j = choose|j: int|
                    0 <= j < old_peers.len() && old_peers[j].peer_id@ == id && peer_holds(
                        old_peers[j],
                        ix,
                    );
                if j == i {
                    assert(peer_holds(cur[i], ix));
                } else {
                    assert(peer_holds(cur[j], ix));
                }
            }
            if id == id0 && ix == piece_index {
                assert(cur[i].peer_id@ == id && peer_holds(cur[i], ix));
            }
        }
        assert forall|id: Seq<char>|
            spec_has_peer(cur, id) <==> (spec_has_peer(old_peers, id) || id == id0) by {
            if spec_has_peer(cur, id) {
                let j = choose|j: int| 0 <= j < cur.len() && cur[j].peer_id@ == id;
                if j != i {
                    assert(old_peers[j].peer_id@ == id);
                }
            }
            if spec_has_peer(old_peers, id) {
                let j = choose|j: int| 0 <= j < old_peers.len() && old_peers[j].peer_id@ == id;
                if j == i {
                    assert(cur[i].peer_id@ == id);
                } else {
                    assert(cur[j].peer_id@ == id);
                }
            }
        }
        assert forall|id: Seq<char>|
            spec_has_peer(old_peers, id) implies spec_score_of(cur, id) == spec_score_of(
            old_peers,
            id,
        ) by {
            let j1 = spec_find(old_peers, id);
            assert(0 <= j1 < old_peers.len() && old_peers[j1].peer_id@ == id);
            assert(cur[j1].peer_id@ == id);
            assert(spec_has_peer(cur, id));
            let j2 = spec_find(cur, id);
            assert(0 <= j2 < cur.len() && cur[j2].peer_id@ == id);
            if j1 != j2 {
                if j1 == i || j2 == i {
                    assert(cur[j1].peer_id@ == old_peers[j1].peer_id@);
                    assert(cur[j2].peer_id@ == old_peers[j2].peer_id@);
                }
                assert(old_peers[j1].peer_id@ != old_peers[j2].peer_id@);
            }
        }
    }

    /// Drops the peer named `peer_id`; every piece it held becomes one peer
    /// rarer. Unknown peers leave the tracker unchanged.
    pub fn remove_peer(&mut self, peer_id: &String)
        requires
            tracker_wf(old(self).peers@),
        ensures
            tracker_wf(final(self).peers@),
            forall|id: Seq<char>|
                spec_has_peer(final(self).peers@, id) <==> (spec_has_peer(old(self).peers@, id)
                    && id != peer_id@),
            forall|id: Seq<char>, ix: usize|
                spec_holds(final(self).peers@, id, ix) <==> (spec_holds(old(self).peers@, id, ix)
                    && id != peer_id@),
            forall|ix: usize|
                spec_rarity(final(self).peers@, ix) == spec_rarity(old(self).peers@, ix) - (
                if spec_holds(old(self).peers@, peer_id@, ix) {
                    1int
                } else {
                    0int
                }),
            forall|id: Seq<char>|
                spec_has_peer(old(self).peers@, id) && id != peer_id@ ==> spec_score_of(
                    final(self).peers@,
                    id,
                ) == spec_score_of(old(self).peers@, id),
    {
        let ghost old_peers = self.peers@;
        match self.find_peer(peer_id) {
            Some(i) => {
                let _ = self.peers.remove(i);
                proof {
                    let cur = self.peers@;
                    assert(cur == old_peers.remove(i as int));
                    assert forall|ix: usize|
                        spec_rarity(cur, ix) == spec_rarity(old_peers, ix) - (if peer_holds(
                            old_peers[i as int],
                            ix,
                        ) {
                            1int
                        } else {
                            0int
                        }) by {
                        lemma_rarity_remove(old_peers, i as int, ix);
                    }
                    assert forall|ix: usize|
                        spec_holds(old_peers, peer_id@, ix) <==> peer_holds(
                            old_peers[i as int],
                            ix,
                        ) by {
                        if spec_holds(old_peers, peer_id@, ix) {
                            let j = choose|j: int|
                                0 <= j < old_peers.len() && old_peers[j].peer_id@ == peer_id@
                                    && peer_holds(old_peers[j], ix);
                            if j != i as int {
                                assert(old_peers[j].peer_id@ != old_peers[i as int].peer_id@);
                            }
                        }
                    }
                    assert forall|id: Seq<char>, ix: usize|
                        spec_holds(cur, id, ix) <==> (spec_holds(old_peers, id, ix) && id
                        != peer_id@) by {
                        if spec_holds(cur, id, ix) {
                            let j = choose|j: int|
                                0 <= j < cur.len() && cur[j].peer_id@ == id && peer_holds(
                                    cur[j],
                                    ix,
                                );
                            let j0 = if j < i as int { j } else { j + 1 };
                            assert(cur[j] == old_peers[j0]);
                            assert(peer_holds(old_peers[j0], ix));
                            if id == peer_id@ {
                                assert(old_peers[j0].peer_id@ != old_peers[i as int].peer_id@);
                            }
                        }
                        if spec_holds(old_peers, id, ix) && id != peer_id@ {
                            let j = choose|j: int|
                                0 <= j < old_peers.len() && old_peers[j].peer_id@ == id
                                    && peer_holds(old_peers[j], ix);
                            assert(j != i as int);
                            let j1 = if j < i as int { j } else { j - 1 };
                            assert(cur[j1] == old_peers[j]);
                            assert(peer_holds(cur[j1], ix));
                        }
                    }
                    assert forall|id: Seq<char>|
                        spec_has_peer(cur, id) <==> (spec_has_peer(old_peers, id) && id
                        != peer_id@) by {
                        if spec_has_peer(cur, id) {
                            let j = choose|j: int| 0 <= j < cur.len() && cur[j].peer_id@ == id;
                            let j0 = if j < i as int { j } else { j + 1 };
                            assert(cur[j] == old_peers[j0]);
                            if id == peer_id@ {
                                assert(old_peers[j0].peer_id@ != old_peers[i as int].peer_id@);
                            }
                        }
                        if spec_has_peer(old_peers, id) && id != peer_id@ {
                            let j = choose|j: int|
                                0 <= j < old_peers.len() && old_peers[j].peer_id@ == id;
                            assert(j != i as int);
                            let j1 = if j < i as int { j } else { j - 1 };
                            assert(cur[j1] == old_peers[j]);
                        }
                    }
                    assert forall|id: Seq<char>|
                        spec_has_peer(old_peers, id) && id != peer_id@ implies spec_score_of(
                        cur,
                        id,
                    ) == spec_score_of(old_peers, id) by {
                        let j1 = spec_find(old_peers, id);
                        assert(0 <= j1 < old_peers.len() && old_peers[j1].peer_id@ == id);
                        assert(j1 != i as int);
                        let j1c = if j1 < i as int { j1 } else { j1 - 1 };
                        assert(cur[j1c] == old_peers[j1]);
                        assert(spec_has_peer(cur, id));
                        let j2 = spec_find(cur, id);
                        assert(0 <= j2 < cur.len() && cur[j2].peer_id@ == id);
                        let j2o = if j2 < i as int { j2 } else { j2 + 1 };
                        assert(cur[j2] == old_peers[j2o]);
                        if j1 != j2o {
                            assert(old_peers[j1].peer_id@ != old_peers[j2o].peer_id@);
                        }
                    }
                }
            },
            None => {},
        }
    }

    /// Sets the score of `peer_id`, creating the peer (holding nothing) if
    /// it is unknown. Held sets and rarity counts are untouched.
    pub fn update_score(&mut self, peer_id: &String, score: u64)
        requires
            tracker_wf(old(self).peers@),
        ensures
            tracker_wf(final(self).peers@),
            forall|id: Seq<char>, ix: usize|
                spec_holds(final(self).peers@, id, ix) <==> spec_holds(old(self).peers@, id, ix),
            forall|ix: usize|
                spec_rarity(final(self).peers@, ix) == spec_rarity(old(self).peers@, ix),
            forall|id: Seq<char>|
                spec_has_peer(final(self).peers@, id) <==> (spec_has_peer(old(self).peers@, id)
                    || id == peer_id@),
            spec_score_of(final(self).peers@, peer_id@) == score,
            forall|id: Seq<char>|
                spec_has_peer(old(self).peers@, id) && id != peer_id@ ==> spec_score_of(
                    final(self).peers@,
                    id,
                ) == spec_score_of(old(self).peers@, id),
    {
        let ghost old_peers = self.peers@;
        match self.find_peer(peer_id) {
            Some(i) => {
                let mut p = self.peers.remove(i);
                p.score = score;
                self.peers.insert(i, p);
                proof {
                    let cur = self.peers@;
                    let np = cur[i as int];
                    assert(cur =~= old_peers.update(i as int, np));
                    assert(np.peer_id@ == peer_id@ && np.score == score && np.held_pieces@
                        == old_peers[i as int].held_pieces@);
                    self.lemma_same_held_effects(old_peers, i as int, np, peer_id@);
                }
            },
            None => {
                let held: Vec<usize> = Vec::new();
                let np = PeerState { peer_id: peer_id.clone(), held_pieces: held, score };
                self.peers.push(np);
                proof {
                    let cur = self.peers@;
                    let npg = cur.last();
                    let n = old_peers.len() as int;
                    assert(cur.drop_last() =~= old_peers);
                    assert(npg.held_pieces@.len() == 0);
                    assert forall|ix: usize| !peer_holds(npg, ix) by {
                        if peer_holds(npg, ix) {
                            let k = choose|k: int|
                                0 <= k < npg.held_pieces@.len() && npg.held_pieces@[k] == ix;
                        }
                    }
                    assert forall|id: Seq<char>, ix: usize|
                        spec_holds(cur, id, ix) <==> spec_holds(old_peers, id, ix) by {
                        if spec_holds(cur, id, ix) {
                            let j = choose|j: int|
                                0 <= j < cur.len() && cur[j].peer_id@ == id && peer_holds(
                                    cur[j],
                                    ix,
                                );
                            assert(j != n);
                            assert(peer_holds(old_peers[j], ix));
                        }
                        if spec_holds(old_peers, id, ix) {
                            let j = choose|j: int|
                                0 <= j < old_peers.len() && old_peers[j].peer_id@ == id
                                    && peer_holds(old_peers[j], ix);
                            assert(peer_holds(cur[j], ix));
                        }
                    }
                    assert forall|id: Seq<char>|
                        spec_has_peer(cur, id) <==> (spec_has_peer(old_peers, id) || id
                        == peer_id@) by {
                        if spec_has_peer(cur, id) {
                            let j = choose|j: int| 0 <= j < cur.len() && cur[j].peer_id@ == id;
                            if j < n {
                                assert(old_peers[j].peer_id@ == id);
                            }
                        }
                        if spec_has_peer(old_peers, id) {
                            let j = choose|j: int|
                                0 <= j < old_peers.len() && old_peers[j].peer_id@ == id;
                            assert(cur[j].peer_id@ == id);
                        }
                        if id == peer_id@ {
                            assert(cur[n].peer_id@ == id);
                        }
                    }
                    assert(spec_score_of(cur, peer_id@) == score) by {
                        let j = spec_find(cur, peer_id@);
                        assert(cur[n].peer_id@ == peer_id@);
                        assert(spec_has_peer(cur, peer_id@));
                        assert(0 <= j < cur.len() && cur[j].peer_id@ == peer_id@);
                        if j != n {
                            assert(old_peers[j].peer_id@ == peer_id@);
                            assert(!spec_has_peer(old_peers, peer_id@));
                        }
                    }
                    assert forall|ix: usize|
                        spec_rarity(cur, ix) == spec_rarity(old_peers, ix) by {
                        assert(cur.drop_last() == old_peers);
                    }
                    assert forall|id: Seq<char>|
                        spec_has_peer(old_peers, id) && id != peer_id@ implies spec_score_of(
                        cur,
                        id,
                    ) == spec_score_of(old_peers, id) by {
                        let j1 = spec_find(old_peers, id);
                        assert(0 <= j1 < n && old_peers[j1].peer_id@ == id);
                        assert(cur[j1].peer_id@ == id);
                        assert(spec_has_peer(cur, id));
                        let j2 = spec_find(cur, id);
                        assert(0 <= j2 < cur.len() && cur[j2].peer_id@ == id);
                        assert(j2 != n);
                        if j1 != j2 {
                            assert(old_peers[j1].peer_id@ != old_peers[j2].peer_id@);
                        }
                    }
                }
            },
        }
    }

    /// Proof that replacing peer `i` with a peer of the same name and held
    /// set (only the score may differ) leaves holdings, rarity and the other
    /// peers' scores unchanged, and sets that peer's score.
    proof fn lemma_same_held_effects(
        &self,
        old_peers: Seq<PeerState>,
        i: int,
        np: PeerState,
        id0: Seq<char>,
    )
        requires
            tracker_wf(old_peers),
            0 <= i < old_peers.len(),
            old_peers[i].peer_id@ == id0,
            self.peers@ == old_peers.update(i, np),
            np.peer_id@ == id0,
            np.held_pieces@ == old_peers[i].held_pieces@,
        ensures
            tracker_wf(self.peers@),
            forall|id: Seq<char>, ix: usize|
                spec_holds(self.peers@, id, ix) <==> spec_holds(old_peers, id, ix),
            forall|ix: usize| spec_rarity(self.peers@, ix) == spec_rarity(old_peers, ix),
            forall|id: Seq<char>|
                spec_has_peer(self.peers@, id) <==> spec_has_peer(old_peers, id),
            spec_score_of(self.peers@, id0) == np.score,
            forall|id: Seq<char>|
                spec_has_peer(old_peers, id) && id != id0 ==> spec_score_of(self.peers@, id)
                    == spec_score_of(old_peers, id),
    {
        let cur = self.peers@;
        assert forall|ix: usize|
            peer_holds(np, ix) <==> peer_holds(old_peers[i], ix) by {}
        assert forall|ix: usize| spec_rarity(cur, ix) == spec_rarity(old_peers, ix) by {
            lemma_rarity_update(old_peers, i, np, ix);
        }
        assert forall|id: Seq<char>, ix: usize|
            spec_holds(cur, id, ix) <==> spec_holds(old_peers, id, ix) by {
            if spec_holds(cur, id, ix) {
                let j = choose|j: int|
                    0 <= j < cur.len() && cur[j].peer_id@ == id && peer_holds(cur[j], ix);
                if j == i {
                    assert(peer_holds(old_peers[i], ix));
                } else {
                    assert(peer_holds(old_peers[j], ix));
                }
            }
            if spec_holds(old_peers, id, ix) {
                let j = choose|j: int|
                    0 <= j < old_peers.len() && old_peers[j].peer_id@ == id && peer_holds(
                        old_peers[j],
                        ix,
                    );
                if j == i {
                    assert(cur[i].peer_id@ == id && peer_holds(cur[i], ix));
                } else {
                    assert(peer_holds(cur[j], ix));
                }
            }
        }
        assert forall|id: Seq<char>|
            spec_has_peer(cur, id) <==> spec_has_peer(old_peers, id) by {
            if spec_has_peer(cur, id) {
                let j = choose|j: int| 0 <= j < cur.len() && cur[j].peer_id@ == id;
                if j == i {
                    assert(old_peers[i].peer_id@ == id);
                } else {
                    assert(old_peers[j].peer_id@ == id);
                }
            }
            if spec_has_peer(old_peers, id) {
                let j = choose|j: int| 0 <= j < old_peers.len() && old_peers[j].peer_id@ == id;
                if j == i {
                    assert(cur[i].peer_id@ == id);
                } else {
                    assert(cur[j].peer_id@ == id);
                }
            }
        }
        assert(spec_score_of(cur, id0) == np.score) by {
            assert(cur[i].peer_id@ == id0);
            assert(spec_has_peer(cur, id0));
            let j = spec_find(cur, id0);
            assert(0 <= j < cur.len() && cur[j].peer_id@ == id0);
            if j != i {
                assert(cur[j].peer_id@ == old_peers[j].peer_id@);
                assert(old_peers[j].peer_id@ != old_peers[i].peer_id@);
            }
        }
        assert forall|id: Seq<char>|
            spec_has_peer(old_peers, id) && id != id0 implies spec_score_of(cur, id)
            == spec_score_of(old_peers, id) by {
            let j1 = spec_find(old_peers, id);
            assert(0 <= j1 < old_peers.len() && old_peers[j1].peer_id@ == id);
            assert(j1 != i);
            assert(cur[j1].peer_id@ == id);
            assert(spec_has_peer(cur, id));
            let j2 = spec_find(cur, id);
            assert(0 <= j2 < cur.len() && cur[j2].peer_id@ == id);
            assert(j2 != i);
            if j1 != j2 {
                assert(old_peers[j1].peer_id@ != old_peers[j2].peer_id@);
            }
        }
    }

    /// Whether `peer_id` holds `piece_index`.
    pub fn holds_piece(&self, peer_id: &String, piece_index: usize) -> (r: bool)
        requires
            tracker_wf(self.peers@),
        ensures
            r == spec_holds(self.peers@, peer_id@, piece_index),
    {
        match self.find_peer(peer_id) {
            Some(i) => {
                let r = vec_contains(&self.peers[i].held_pieces, piece_index);
                proof {
                    if r {
                        assert(peer_holds(self.peers@[i as int], piece_index));
                    } else if spec_holds(self.peers@, peer_id@, piece_index) {
                        let j = choose|j: int|
                            0 <= j < self.peers@.len() && self.peers@[j].peer_id@ == peer_id@
                                && peer_holds(self.peers@[j], piece_index);
                        if j != i as int {
                            assert(self.peers@[j].peer_id@ != self.peers@[i as int].peer_id@);
                        }
                    }
                }
                r
            },
            None => {
                proof {
                    if spec_holds(self.peers@, peer_id@, piece_index) {
                        let j = choose|j: int|
                            0 <= j < self.peers@.len() && self.peers@[j].peer_id@ == peer_id@
                                && peer_holds(self.peers@[j], piece_index);
                        assert(spec_has_peer(self.peers@, peer_id@));
                    }
                }
                false
            },
        }
    }

    /// The rarity of `piece_index`: how many peers hold it.
    pub fn rarity(&self, piece_index: usize) -> (r: usize)
        ensures
            r as nat == spec_rarity(self.peers@, piece_index),
    {
        let mut count: usize = 0;
        let mut i: usize = 0;
        proof {
            assert(self.peers@.subrange(0, 0) =~= Seq::<PeerState>::empty());
        }
        while i < self.peers.len()
            invariant
                i <= self.peers@.len(),
                count <= i,
                count as nat == spec_rarity(self.peers@.subrange(0, i as int), piece_index),
            decreases self.peers@.len() - i,
        {
            let ghost pre = self.peers@.subrange(0, i as int);
            let held = vec_contains(&self.peers[i].held_pieces, piece_index);
            proof {
                let post = self.peers@.subrange(0, i + 1);
                assert(post.drop_last() =~= pre);
                assert(post.last() == self.peers@[i as int]);
                lemma_rarity_le_len(pre, piece_index);
            }
            if held {
                count = count + 1;
            }
            i = i + 1;
        }
        proof {
            assert(self.peers@.subrange(0, self.peers@.len() as int) =~= self.peers@);
        }
        count
    }

    /// The peers that hold `piece_index`: one entry per holder.
    pub fn holders(&self, piece_index: usize) -> (r: Vec<String>)
        requires
            tracker_wf(self.peers@),
        ensures
            r@.len() == spec_rarity(self.peers@, piece_index),
            forall|k: int|
                0 <= k < r@.len() ==> spec_holds(self.peers@, (#[trigger] r@[k])@, piece_index),
            forall|id: Seq<char>|
                spec_holds(self.peers@, id, piece_index) ==> exists|k: int|
                    0 <= k < r@.len() && (#[trigger] r@[k])@ == id,
    {
        let mut out: Vec<String> = Vec::new();
        let mut i: usize = 0;
        proof {
            assert(self.peers@.subrange(0, 0) =~= Seq::<PeerState>::empty());
        }
        while i < self.peers.len()
            invariant
                tracker_wf(self.peers@),
                i <= self.peers@.len(),
                out@.len() as nat == spec_rarity(self.peers@.subrange(0, i as int), piece_index),
                forall|k: int|
                    0 <= k < out@.len() ==> spec_holds(
                        self.peers@,
                        (#[trigger] out@[k])@,
                        piece_index,
                    ),
                forall|j: int|
                    0 <= j < i && peer_holds(#[trigger] self.peers@[j], piece_index)
                        ==> exists|k: int|
                        0 <= k < out@.len() && (#[trigger] out@[k])@ == self.peers@[j].peer_id@,
            decreases self.peers@.len() - i,
        {
            let ghost pre = self.peers@.subrange(0, i as int);
            let held = vec_contains(&self.peers[i].held_pieces, piece_index);
            proof {
                let post = self.peers@.subrange(0, i + 1);
                assert(post.drop_last() =~= pre);
                assert(post.last() == self.peers@[i as int]);
            }
            if held {
                let ghost outpre = out@;
                out.push(self.peers[i].peer_id.clone());
                proof {
                    assert(out@[outpre.len() as int]@ == self.peers@[i as int].peer_id@);
                    assert(peer_holds(self.peers@[i as int], piece_index));
                    assert(spec_holds(self.peers@, self.peers@[i as int].peer_id@, piece_index));
                    assert forall|k: int| 0 <= k < out@.len() implies spec_holds(
                        self.peers@,
                        (#[trigger] out@[k])@,
                        piece_index,
                    ) by {
                        if k < outpre.len() {
                            assert(out@[k] == outpre[k]);
                        }
                    }
                    assert forall|j: int|
                        0 <= j < i + 1 && peer_holds(#[trigger] self.peers@[j], piece_index)
                            implies exists|k: int|
                            0 <= k < out@.len() && (#[trigger] out@[k])@
                            == self.peers@[j].peer_id@ by {
                        if j < i {
                            let k = choose|k: int|
                                0 <= k < outpre.len() && (#[trigger] outpre[k])@
                                    == self.peers@[j].peer_id@;
                            assert(out@[k] == outpre[k]);
                        } else {
                            assert(out@[outpre.len() as int]@ == self.peers@[i as int].peer_id@);
                        }
                    }
                }
            }
            i = i + 1;
        }
        proof {
            assert(self.peers@.subrange(0, self.peers@.len() as int) =~= self.peers@);
            assert forall|id: Seq<char>|
                spec_holds(self.peers@, id, piece_index) implies exists|k: int|
                0 <= k < out@.len() && (#[trigger] out@[k])@ == id by {
                let j = choose|j: int|
                    0 <= j < self.peers@.len() && self.peers@[j].peer_id@ == id && peer_holds(
                        self.peers@[j],
                        piece_index,
                    );
            }
        }
        out
    }
}

/// A file split into pieces, together with the availability of those pieces
/// among peers.
pub struct File {
    pub pieces: Vec<PieceMetadata>,
    pub availability: AvailabilityTracker,
}

/// The pieces of a well-formed file are indexed contiguously from 0.
pub open spec fn pieces_wf(pieces: Seq<PieceMetadata>) -> bool {
    forall|i: int| 0 <= i < pieces.len() ==> (#[trigger] pieces[i]).index == i
}

impl File {
    /// A file with the given pieces and no peer information yet.
    pub fn new(pieces: Vec<PieceMetadata>) -> (r: File)
        requires
            pieces_wf(pieces@),
        ensures
            r.pieces@ == pieces@,
            r.availability.peers@ == Seq::<PeerState>::empty(),
            pieces_wf(r.pieces@),
            tracker_wf(r.availability.peers@),
    {
        File { pieces, availability: AvailabilityTracker::new() }
    }

    /// Records that `peer_id` holds `piece_index`; see
    /// `AvailabilityTracker::record`.
    pub fn update_peer(&mut self, peer_id: &String, piece_index: usize)
        requires
            tracker_wf(old(self).availability.peers@),
        ensures
            final(self).pieces@ == old(self).pieces@,
            tracker_wf(final(self).availability.peers@),
            forall|id: Seq<char>, ix: usize|
                spec_holds(final(self).availability.peers@, id, ix) <==> (spec_holds(
                    old(self).availability.peers@,
                    id,
                    ix,
                ) || (id == peer_id@ && ix == piece_index)),
            forall|ix: usize|
                ix != piece_index ==> spec_rarity(final(self).availability.peers@, ix)
                    == spec_rarity(old(self).availability.peers@, ix),
            spec_rarity(final(self).availability.peers@, piece_index) == spec_rarity(
                old(self).availability.peers@,
                piece_index,
            ) + (if spec_holds(old(self).availability.peers@, peer_id@, piece_index) {
                0int
            } else {
                1int
            }),
    {
        self.availability.record(peer_id, piece_index);
    }

    /// The rarest piece that `peer_id` is missing; see `next_piece_for`.
    pub fn rarest_first_piece(&self, peer_id: &String) -> (r: Option<PieceMetadata>)
        requires
            tracker_wf(self.availability.peers@),
            pieces_wf(self.pieces@),
        ensures
            r is None <==> forall|ix: usize|
                ix < self.pieces@.len() ==> spec_holds(self.availability.peers@, peer_id@, ix),
            r matches Some(m) ==> {
                &&& m.index < self.pieces@.len()
                &&& m.hash@ == self.pieces@[m.index as int].hash@
                &&& m.size == self.pieces@[m.index as int].size
                &&& !spec_holds(self.availability.peers@, peer_id@, m.index)
                &&& forall|ix: usize|
                    ix < self.pieces@.len() && !spec_holds(self.availability.peers@, peer_id@, ix)
                        ==> (spec_rarity(self.availability.peers@, m.index) < spec_rarity(
                        self.availability.peers@,
                        ix,
                    ) || (spec_rarity(self.availability.peers@, m.index) == spec_rarity(
                        self.availability.peers@,
                        ix,
                    ) && m.index <= ix))
            },
    {
        next_piece_for(&self.pieces, &self.availability, peer_id)
    }
}

/// The next piece to request for `peer_id`: among the pieces the peer does
/// not hold, the one with the fewest holders, ties broken by the lowest
/// index. `None` exactly when the peer misses nothing.
pub fn next_piece_for(
    pieces: &Vec<PieceMetadata>,
    availability: &AvailabilityTracker,
    peer_id: &String,
) -> (r: Option<PieceMetadata>)
    requires
        tracker_wf(availability.peers@),
        pieces_wf(pieces@),
    ensures
        r is None <==> forall|ix: usize|
            ix < pieces@.len() ==> spec_holds(availability.peers@, peer_id@, ix),
        r matches Some(m) ==> {
            &&& m.index < pieces@.len()
            &&& m.hash@ == pieces@[m.index as int].hash@
            &&& m.size == pieces@[m.index as int].size
            &&& !spec_holds(availability.peers@, peer_id@, m.index)
            &&& forall|ix: usize|
                ix < pieces@.len() && !spec_holds(availability.peers@, peer_id@, ix)
                    ==> (spec_rarity(availability.peers@, m.index) < spec_rarity(
                    availability.peers@,
                    ix,
                ) || (spec_rarity(availability.peers@, m.index) == spec_rarity(
                    availability.peers@,
                    ix,
                ) && m.index <= ix))
        },
{
    let n = pieces.len();
    let mut best: Option<usize> = None;
    let mut best_rarity: usize = 0;
    let mut i: usize = 0;
    while i < n
        invariant
            n == pieces@.len(),
            tracker_wf(availability.peers@),
            pieces_wf(pieces@),
            i <= n,
            best is None ==> forall|ix: usize|
                ix < i ==> spec_holds(availability.peers@, peer_id@, ix),
            best matches Some(b) ==> {
                &&& b < i
                &&& !spec_holds(availability.peers@, peer_id@, b)
                &&& best_rarity as nat == spec_rarity(availability.peers@, b)
                &&& forall|ix: usize|
                    ix < i && !spec_holds(availability.peers@, peer_id@, ix)
                        ==> ((best_rarity as nat) < spec_rarity(availability.peers@, ix)
                        || (best_rarity as nat == spec_rarity(availability.peers@, ix)
                        && b <= ix))
            },
        decreases n - i,
    {
        if !availability.holds_piece(peer_id, i) {
            let r = availability.rarity(i);
            match best {
                None => {
                    best = Some(i);
                    best_rarity = r;
                },
                Some(_) => {
                    if r < best_rarity {
                        best = Some(i);
                        best_rarity = r;
                    }
                },
            }
        }
        i = i + 1;
    }
    match best {
        None => None,
        Some(b) => {
            let m = &pieces[b];
            Some(PieceMetadata { index: m.index, hash: clone_bytes(&m.hash), size: m.size })
        },
    }
}

/// A copy of a byte vector, byte for byte.
pub fn clone_bytes(v: &Vec<u8>) -> (r: Vec<u8>)
    ensures
        r@ == v@,
{
    let mut out: Vec<u8> = Vec::new();
    let mut i: usize = 0;
    while i < v.len()
        invariant
            i <= v@.len(),
            out@ == v@.subrange(0, i as int),
        decreases v@.len() - i,
    {
        out.push(v[i]);
        proof {
            assert(v@.subrange(0, i as int).push(v@[i as int]) =~= v@.subrange(0, i + 1));
        }
        i = i + 1;
    }
    proof {
        assert(v@.subrange(0, v@.len() as int) =~= v@);
    }
    out
}

} // verus!
