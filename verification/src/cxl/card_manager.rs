//! Registry of attached CXL cards and of the CXL pages mapped into
//! processes, with the consistent-hash ring that places pages on cards.

use vstd::prelude::*;
use crate::cxl::hash_ring::{route_spec, HashRing};
use crate::cxl::CxlCardId;

verus! {

/// A CXL page mapped into a process: its frame, the card holding it, and
/// the virtual page and process it is mapped at.
#[derive(Clone, Copy, Debug, PartialEq, Eq, Structural)]
pub struct TrackedPage {
    pub ppn: usize,
    pub card: CxlCardId,
    pub vpn: usize,
    pub pid: usize,
}

/// The tracked pages of `s` held by `card`, in order.
pub open spec fn pages_on_card(s: Seq<TrackedPage>, card: CxlCardId) -> Seq<TrackedPage>
    decreases s.len(),
{
    if s.len() == 0 {
        Seq::empty()
    } else {
        let f = pages_on_card(s.drop_last(), card);
        if s.last().card == card {
            f.push(s.last())
        } else {
            f
        }
    }
}

/// The tracked pages of `s` held by another card whose virtual page the
/// ring `points` now routes to `card`, in order: the pages that move to a
/// newly added card.
pub open spec fn pages_rerouted_to(s: Seq<TrackedPage>, points: Map<u64, CxlCardId>, card: CxlCardId) -> Seq<
    TrackedPage,
>
    decreases s.len(),
{
    if s.len() == 0 {
        Seq::empty()
    } else {
        let f = pages_rerouted_to(s.drop_last(), points, card);
        let p = s.last();
        if p.card != card && route_spec(points, p.vpn as u64) == Some(card) {
            f.push(p)
        } else {
            f
        }
    }
}

/// The pages that move to a newly added `card` are exactly the tracked
/// pages held by another card whose virtual page the ring routes to
/// `card`: each listed page is such a page of `s`, and each such page of
/// `s` is listed. A page already on `card` is never listed.
pub proof fn lemma_rerouted_pages_move_to_card(s: Seq<TrackedPage>, points: Map<u64, CxlCardId>, card: CxlCardId)
    ensures
        forall|k: int|
            0 <= k < pages_rerouted_to(s, points, card).len() ==> {
                let p = #[trigger] pages_rerouted_to(s, points, card)[k];
                &&& p.card != card
                &&& route_spec(points, p.vpn as u64) == Some(card)
                &&& s.contains(p)
            },
        forall|j: int|
            0 <= j < s.len() && (#[trigger] s[j]).card != card && route_spec(points, s[j].vpn as u64) == Some(card)
                ==> pages_rerouted_to(s, points, card).contains(s[j]),
    decreases s.len(),
{
    if s.len() > 0 {
        let d = s.drop_last();
        lemma_rerouted_pages_move_to_card(d, points, card);
        let f = pages_rerouted_to(d, points, card);
        let r = pages_rerouted_to(s, points, card);
        assert forall|k: int| 0 <= k < r.len() implies {
            let p = #[trigger] r[k];
            &&& p.card != card
            &&& route_spec(points, p.vpn as u64) == Some(card)
            &&& s.contains(p)
        } by {
            if k < f.len() {
                assert(r[k] == f[k]);
                let j = choose|j: int| 0 <= j < d.len() && d[j] == f[k];
                assert(s[j] == d[j]);
            } else {
                assert(r[k] == s.last());
                assert(s[s.len() - 1] == s.last());
            }
        }
        assert forall|j: int|
            0 <= j < s.len() && (#[trigger] s[j]).card != card && route_spec(points, s[j].vpn as u64) == Some(card)
            implies r.contains(s[j]) by {
            if j < d.len() {
                assert(d[j] == s[j]);
                let q = choose|q: int| 0 <= q < f.len() && f[q] == d[j];
                if s.last().card != card && route_spec(points, s.last().vpn as u64) == Some(card) {
                    assert(r[q] == f[q]);
                } else {
                    assert(r[q] == f[q]);
                }
            } else {
                assert(s[j] == s.last());
                assert(r[r.len() - 1] == s[j]);
            }
        }
    }
}

/// Cards, the ring and the tracked pages.
pub struct CxlCardManager {
    pub hash_ring: HashRing,
    pub pages: Vec<TrackedPage>,
}

impl CxlCardManager {
    /// The ring is well formed and no frame is tracked twice.
    pub open spec fn wf(&self) -> bool {
        &&& self.hash_ring.wf()
        &&& forall|i: int, j: int|
            0 <= i < j < self.pages@.len() ==> (#[trigger] self.pages@[i]).ppn != (#[trigger] self.pages@[j]).ppn
    }

    pub fn new() -> (m: Self)
        ensures
            m.wf(),
            m.hash_ring.points() == Map::<u64, CxlCardId>::empty(),
            m.hash_ring.node_seq() == Seq::<CxlCardId>::empty(),
            m.pages@ == Seq::<TrackedPage>::empty(),
    {
        CxlCardManager { hash_ring: HashRing::new(), pages: Vec::new() }
    }

    /// Whether `card` is attached.
    pub fn has_card(&self, card: CxlCardId) -> (b: bool)
        ensures
            b == self.hash_ring.node_seq().contains(card),
    {
        self.hash_ring.contains_node(card)
    }

    /// Attaches `card` to the ring (nothing changes when it is attached).
    pub fn add_card(&mut self, card: CxlCardId)
        requires
            old(self).wf(),
            card.0 < 0x1_0000_0000int,
        ensures
            final(self).wf(),
            final(self).pages@ == old(self).pages@,
            old(self).hash_ring.node_seq().contains(card) ==> final(self).hash_ring.node_seq() == old(
                self,
            ).hash_ring.node_seq() && final(self).hash_ring.points() == old(self).hash_ring.points(),
            !old(self).hash_ring.node_seq().contains(card) ==> final(self).hash_ring.node_seq() == old(
                self,
            ).hash_ring.node_seq().push(card) && final(self).hash_ring.points() == old(self).hash_ring.points().union_prefer_right(
                crate::cxl::hash_ring::card_points(card, crate::cxl::hash_ring::VNODES),
            ),
    {
        self.hash_ring.add_node(card);
    }

    /// Records that frame `ppn` of `card` is mapped at `vpn` of process
    /// `pid`, replacing what was recorded for the frame.
    pub fn track_page_vpn(&mut self, ppn: usize, card: CxlCardId, vpn: usize, pid: usize)
        requires
            old(self).wf(),
        ensures
            final(self).wf(),
            final(self).hash_ring == old(self).hash_ring,
            exists|i: int| 0 <= i < final(self).pages@.len() && #[trigger] final(self).pages@[i] == (TrackedPage {
                ppn,
                card,
                vpn,
                pid,
            }),
            forall|q: TrackedPage| q.ppn != ppn ==> (final(self).pages@.contains(q) <==> old(self).pages@.contains(q)),
    {
        let e = TrackedPage { ppn, card, vpn, pid };
        let mut i: usize = 0;
        while i < self.pages.len()
            invariant
                i <= self.pages@.len(),
                self.pages@ == old(self).pages@,
                self.hash_ring == old(self).hash_ring,
                old(self).wf(),
                e == (TrackedPage { ppn, card, vpn, pid }),
                forall|k: int| 0 <= k < i ==> (#[trigger] self.pages@[k]).ppn != ppn,
            decreases self.pages@.len() - i,
        {
            if self.pages[i].ppn == ppn {
                let ghost before = self.pages@;
                self.pages.set(i, e);
                proof {
                    assert(self.pages@ == before.update(i as int, e));
                    assert(self.pages@[i as int] == e);
                    assert forall|q: TrackedPage| q.ppn != ppn implies (self.pages@.contains(q) <==> before.contains(q)) by {
                        if self.pages@.contains(q) {
                            let k = choose|k: int| 0 <= k < self.pages@.len() && self.pages@[k] == q;
                            if k == i as int {
                                assert(q == e);
                            }
                            assert(before[k] == q);
                        }
                        if before.contains(q) {
                            let k = choose|k: int| 0 <= k < before.len() && before[k] == q;
                            assert(k != i);
                            assert(self.pages@[k] == q);
                        }
                    }
                    assert forall|a: int, b: int| 0 <= a < b < self.pages@.len() implies (#[trigger] self.pages@[a]).ppn
                        != (#[trigger] self.pages@[b]).ppn by {
                        assert(before[i as int].ppn == ppn);
                        assert(self.pages@[a].ppn == before[a].ppn);
                        assert(self.pages@[b].ppn == before[b].ppn);
                        assert(before[a].ppn != before[b].ppn);
                    }
                }
                return;
            }
            i = i + 1;
        }
        let ghost before = self.pages@;
        self.pages.push(e);
        proof {
            assert forall|a: int, b: int| 0 <= a < b < self.pages@.len() implies (#[trigger] self.pages@[a]).ppn
                != (#[trigger] self.pages@[b]).ppn by {
                if b < before.len() {
                    assert(before[a].ppn != before[b].ppn);
                } else {
                    assert(self.pages@[a] == before[a]);
                }
            }
            assert(self.pages@[before.len() as int] == e);
            assert forall|q: TrackedPage| q.ppn != ppn implies (self.pages@.contains(q) <==> before.contains(q)) by {
                if self.pages@.contains(q) {
                    let k = choose|k: int| 0 <= k < self.pages@.len() && self.pages@[k] == q;
                    assert(before[k] == q);
                }
                if before.contains(q) {
                    let k = choose|k: int| 0 <= k < before.len() && before[k] == q;
                    assert(self.pages@[k] == q);
                }
            }
        }
    }

    /// The tracked pages held by `card`, in order.
    pub fn get_card_pages(&self, card: CxlCardId) -> (v: Vec<TrackedPage>)
        ensures
            v@ == pages_on_card(self.pages@, card),
    {
        let mut v: Vec<TrackedPage> = Vec::new();
        let mut i: usize = 0;
        while i < self.pages.len()
            invariant
                i <= self.pages@.len(),
                v@ == pages_on_card(self.pages@.take(i as int), card),
            decreases self.pages@.len() - i,
        {
            let p = self.pages[i];
            proof {
                assert(self.pages@.take(i as int + 1).drop_last() =~= self.pages@.take(i as int));
            }
            if p.card == card {
                v.push(p);
            }
            i = i + 1;
        }
        assert(self.pages@.take(self.pages@.len() as int) =~= self.pages@);
        v
    }

    /// The tracked pages of other cards that the ring now routes to
    /// `card` (by their virtual page), in order: what a newly added card
    /// takes over.
    pub fn rehash_candidates(&self, card: CxlCardId) -> (v: Vec<TrackedPage>)
        requires
            self.wf(),
        ensures
            v@ == pages_rerouted_to(self.pages@, self.hash_ring.points(), card),
            forall|k: int|
                0 <= k < v@.len() ==> (#[trigger] v@[k]).card != card && route_spec(
                    self.hash_ring.points(),
                    v@[k].vpn as u64,
                ) == Some(card) && self.pages@.contains(v@[k]),
            forall|j: int|
                0 <= j < self.pages@.len() && (#[trigger] self.pages@[j]).card != card && route_spec(
                    self.hash_ring.points(),
                    self.pages@[j].vpn as u64,
                ) == Some(card) ==> v@.contains(self.pages@[j]),
    {
        proof {
            lemma_rerouted_pages_move_to_card(self.pages@, self.hash_ring.points(), card);
        }
        let mut v: Vec<TrackedPage> = Vec::new();
        let mut i: usize = 0;
        while i < self.pages.len()
            invariant
                i <= self.pages@.len(),
                self.hash_ring.wf(),
                v@ == pages_rerouted_to(self.pages@.take(i as int), self.hash_ring.points(), card),
            decreases self.pages@.len() - i,
        {
            let p = self.pages[i];
            proof {
                assert(self.pages@.take(i as int + 1).drop_last() =~= self.pages@.take(i as int));
            }
            if p.card != card {
                let routed = match self.hash_ring.route(p.vpn as u64) {
                    Some(c) => *c == card,
                    None => false,
                };
                if routed {
                    v.push(p);
                }
            }
            i = i + 1;
        }
        assert(self.pages@.take(self.pages@.len() as int) =~= self.pages@);
        v
    }
}

} // verus!
