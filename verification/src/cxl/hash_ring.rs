//! Consistent-hash ring that routes keys to CXL cards.
//!
//! Every card owns `VNODES` points on a ring of 64-bit hashes. A key is
//! routed to the owner of the first point at or after the key's hash,
//! wrapping around to the smallest point. Adding a card only takes keys
//! over to that card; removing a card only moves the keys it owned.

use vstd::prelude::*;
use crate::cxl::CxlCardId;

verus! {

/// Points each card owns on the ring.
pub const VNODES: u64 = 2048;
/// Salt that keeps card points apart from key hashes.
pub const VNODE_SALT: u64 = 0x243F_6A88_85A3_08D3;
/// Increment of the 64-bit mixing function.
pub const MIX_GAMMA: u64 = 0x9E37_79B9_7F4A_7C15;

/// A 64-bit mixing function (add a constant, then two xor-shift-multiply
/// rounds and a final xor-shift), wrapping at 2^64.
pub open spec fn spec_mix64(x: u64) -> u64 {
    let z0 = vstd::wrapping::u64_specs::wrapping_add(x, MIX_GAMMA);
    let z1 = vstd::wrapping::u64_specs::wrapping_mul(z0 ^ (z0 >> 30u64), 0xbf58_476d_1ce4_e5b9u64);
    let z2 = vstd::wrapping::u64_specs::wrapping_mul(z1 ^ (z1 >> 27u64), 0x94d0_49bb_1331_11ebu64);
    z2 ^ (z2 >> 31u64)
}

/// The ring position of a key.
pub open spec fn spec_key_hash(key: u64) -> u64 {
    spec_mix64(key)
}

/// The ring position of card `c`'s `r`-th point.
pub open spec fn spec_vnode_point(c: CxlCardId, r: u64) -> u64 {
    spec_mix64((((c.0 as u64) << 32u64) | r) ^ VNODE_SALT)
}

/// Mixes the bits of `x`.
pub fn mix64(x: u64) -> (r: u64)
    ensures
        r == spec_mix64(x),
{
    let z0 = x.wrapping_add(MIX_GAMMA);
    let z1 = (z0 ^ (z0 >> 30u64)).wrapping_mul(0xbf58_476d_1ce4_e5b9u64);
    let z2 = (z1 ^ (z1 >> 27u64)).wrapping_mul(0x94d0_49bb_1331_11ebu64);
    z2 ^ (z2 >> 31u64)
}

/// The ring position of card `c`'s `r`-th point.
pub fn vnode_point(c: CxlCardId, r: u64) -> (p: u64)
    ensures
        p == spec_vnode_point(c, r),
{
    mix64((((c.0 as u64) << 32u64) | r) ^ VNODE_SALT)
}

/// `p` is the point that a key hashing to `h` is routed to: the smallest
/// point at or after `h`, or the smallest point of all when no point is
/// at or after `h`.
pub open spec fn is_successor(m: Map<u64, CxlCardId>, h: u64, p: u64) -> bool {
    &&& m.contains_key(p)
    &&& ((p >= h && forall|q: u64| #[trigger] m.contains_key(q) && q >= h ==> p <= q) || ((forall|q: u64|
        #[trigger] m.contains_key(q) ==> q < h) && forall|q: u64| #[trigger] m.contains_key(q) ==> p <= q))
}

/// The card a key is routed to on a ring with points `m`; `None` when the
/// ring has no points.
pub open spec fn route_spec(m: Map<u64, CxlCardId>, key: u64) -> Option<CxlCardId> {
    let h = spec_key_hash(key);
    if exists|p: u64| is_successor(m, h, p) {
        Some(m[choose|p: u64| is_successor(m, h, p)])
    } else {
        None
    }
}

/// The points that card `c` places on the ring, for its first `n` points.
pub open spec fn card_points(c: CxlCardId, n: u64) -> Map<u64, CxlCardId> {
    Map::new(|p: u64| exists|r: u64| r < n && p == #[trigger] spec_vnode_point(c, r), |p: u64| c)
}

/// The ring points not owned by `c`.
pub open spec fn without_card(m: Map<u64, CxlCardId>, c: CxlCardId) -> Map<u64, CxlCardId> {
    Map::new(|p: u64| m.contains_key(p) && m[p] != c, |p: u64| m[p])
}

/// Keys strictly increasing along the sequence.
pub open spec fn sorted_points(s: Seq<(u64, CxlCardId)>) -> bool {
    forall|i: int, j: int| 0 <= i < j < s.len() ==> (#[trigger] s[i]).0 < (#[trigger] s[j]).0
}

/// The map from point to owner that a sequence of points stands for.
pub open spec fn ring_map(s: Seq<(u64, CxlCardId)>) -> Map<u64, CxlCardId> {
    Map::new(
        |p: u64| exists|i: int| 0 <= i < s.len() && (#[trigger] s[i]).0 == p,
        |p: u64| s[choose|i: int| 0 <= i < s.len() && (#[trigger] s[i]).0 == p].1,
    )
}

/// The consistent-hash ring.
pub struct HashRing {
    /// Points in increasing order, each with its owner.
    ring: Vec<(u64, CxlCardId)>,
    /// Registered cards, in the order they were added.
    nodes: Vec<CxlCardId>,
}

impl HashRing {
    /// The ring's points and their owners.
    pub closed spec fn points(&self) -> Map<u64, CxlCardId> {
        ring_map(self.ring@)
    }

    /// The registered cards in the order they were added.
    pub closed spec fn node_seq(&self) -> Seq<CxlCardId> {
        self.nodes@
    }

    /// Points are sorted, every registered card appears once, and every
    /// point belongs to a registered card.
    spec fn wf_core(&self) -> bool {
        &&& sorted_points(self.ring@)
        &&& self.nodes@.no_duplicates()
        &&& forall|i: int| 0 <= i < self.ring@.len() ==> self.nodes@.contains(#[trigger] self.ring@[i].1)
    }

    /// Every registered card has an id below 2^32 (so that the positions
    /// of different cards never meet) and owns all of its positions.
    spec fn owns_positions(&self) -> bool {
        &&& forall|i: int| 0 <= i < self.nodes@.len() ==> (#[trigger] self.nodes@[i]).0 < 0x1_0000_0000int
        &&& forall|i: int, r: u64|
            0 <= i < self.nodes@.len() && r < VNODES ==> self.points().contains_key(
                #[trigger] spec_vnode_point(self.nodes@[i], r),
            ) && self.points()[spec_vnode_point(self.nodes@[i], r)] == self.nodes@[i]
    }

    /// The ring is consistent: see `wf_core` and `owns_positions`.
    pub closed spec fn wf(&self) -> bool {
        self.wf_core() && self.owns_positions()
    }

    /// An empty ring.
    pub fn new() -> (r: Self)
        ensures
            r.wf(),
            r.points() == Map::<u64, CxlCardId>::empty(),
            r.node_seq() == Seq::<CxlCardId>::empty(),
    {
        let r = HashRing { ring: Vec::new(), nodes: Vec::new() };
        assert(r.points() =~= Map::<u64, CxlCardId>::empty());
        r
    }

    /// Whether card `id` is registered.
    pub fn contains_node(&self, id: CxlCardId) -> (b: bool)
        ensures
            b == self.node_seq().contains(id),
    {
        let mut i: usize = 0;
        while i < self.nodes.len()
            invariant
                i <= self.nodes@.len(),
                forall|k: int| 0 <= k < i ==> self.nodes@[k] != id,
            decreases self.nodes@.len() - i,
        {
            if self.nodes[i] == id {
                return true;
            }
            i = i + 1;
        }
        false
    }

    /// Number of registered cards.
    pub fn node_count(&self) -> (n: usize)
        ensures
            n == self.node_seq().len(),
    {
        self.nodes.len()
    }

    /// Index of the first point at or after `h` (the number of points when
    /// every point is before `h`).
    fn lower_bound(&self, h: u64) -> (i: usize)
        requires
            self.wf_core(),
        ensures
            i <= self.ring@.len(),
            forall|j: int| 0 <= j < i ==> (#[trigger] self.ring@[j]).0 < h,
            forall|j: int| i <= j < self.ring@.len() ==> (#[trigger] self.ring@[j]).0 >= h,
    {
        let mut lo: usize = 0;
        let mut hi: usize = self.ring.len();
        while lo < hi
            invariant
                lo <= hi <= self.ring@.len(),
                sorted_points(self.ring@),
                forall|j: int| 0 <= j < lo ==> (#[trigger] self.ring@[j]).0 < h,
                forall|j: int| hi <= j < self.ring@.len() ==> (#[trigger] self.ring@[j]).0 >= h,
            decreases hi - lo,
        {
            let mid = lo + (hi - lo) / 2;
            if self.ring[mid].0 < h {
                lo = mid + 1;
            } else {
                hi = mid;
            }
        }
        lo
    }

    /// Puts point `p` on the ring with owner `c`, replacing the owner when
    /// the point is already there.
    fn insert_point(&mut self, p: u64, c: CxlCardId)
        requires
            old(self).wf_core(),
            old(self).nodes@.contains(c),
        ensures
            final(self).wf_core(),
            final(self).points() == old(self).points().insert(p, c),
            final(self).nodes@ == old(self).nodes@,
    {
        let i = self.lower_bound(p);
        let ghost s = self.ring@;
        if i < self.ring.len() && self.ring[i].0 == p {
            self.ring.set(i, (p, c));
            proof {
                lemma_ring_map_update(s, i as int, p, c);
            }
        } else {
            self.ring.insert(i, (p, c));
            proof {
                lemma_ring_map_insert(s, i as int, p, c);
            }
        }
    }

    /// Registers card `id` and places its points on the ring. A card that
    /// is already registered is left as it is. A card's positions keep the
    /// low 32 bits of its id, so ids are below 2^32.
    pub fn add_node(&mut self, id: CxlCardId)
        requires
            old(self).wf(),
            id.0 < 0x1_0000_0000int,
        ensures
            final(self).wf(),
            old(self).node_seq().contains(id) ==> final(self).node_seq() == old(self).node_seq()
                && final(self).points() == old(self).points(),
            !old(self).node_seq().contains(id) ==> final(self).node_seq() == old(self).node_seq().push(id)
                && final(self).points() == old(self).points().union_prefer_right(card_points(id, VNODES)),
    {
        if self.contains_node(id) {
            return;
        }
        self.nodes.push(id);
        let ghost old_points = old(self).points();
        proof {
            assert(self.nodes@.last() == id);
            assert forall|i: int| 0 <= i < self.ring@.len() implies self.nodes@.contains(#[trigger] self.ring@[i].1) by {
                assert(old(self).nodes@.contains(self.ring@[i].1));
                let k = choose|k: int| 0 <= k < old(self).nodes@.len() && old(self).nodes@[k] == self.ring@[i].1;
                assert(self.nodes@[k] == old(self).nodes@[k]);
            }
            assert(self.points().union_prefer_right(card_points(id, 0)) =~= self.points());
        }
        let mut r: u64 = 0;
        while r < VNODES
            invariant
                r <= VNODES,
                self.wf_core(),
                self.nodes@ == old(self).nodes@.push(id),
                self.nodes@.contains(id),
                self.points() == old_points.union_prefer_right(card_points(id, r)),
                id.0 < 0x1_0000_0000int,
                !old(self).nodes@.contains(id),
            decreases VNODES - r,
        {
            let p = vnode_point(id, r);
            self.insert_point(p, id);
            proof {
                assert(old_points.union_prefer_right(card_points(id, (r + 1) as u64)) =~= old_points.union_prefer_right(
                    card_points(id, r),
                ).insert(p, id)) by {
                    assert forall|q: u64| #[trigger] card_points(id, (r + 1) as u64).contains_key(q) <==> (
                    card_points(id, r).contains_key(q) || q == p) by {
                        if card_points(id, (r + 1) as u64).contains_key(q) {
                            let k = choose|k: u64| k < r + 1 && q == spec_vnode_point(id, k);
                            if k < r {
                                assert(card_points(id, r).contains_key(q));
                            }
                        }
                        if card_points(id, r).contains_key(q) {
                            let k = choose|k: u64| k < r && q == spec_vnode_point(id, k);
                            assert(k < r + 1 && q == spec_vnode_point(id, k));
                        }
                        if q == p {
                            assert(r < r + 1 && q == spec_vnode_point(id, r));
                        }
                    }
                }
            }
            r = r + 1;
        }
        proof {
            assert(self.points() == old_points.union_prefer_right(card_points(id, VNODES)));
            {
                assert forall|i: int| 0 <= i < self.nodes@.len() implies (#[trigger] self.nodes@[i]).0
                    < 0x1_0000_0000int by {
                    if i < old(self).nodes@.len() {
                        assert(self.nodes@[i] == old(self).nodes@[i]);
                    }
                }
                assert forall|i: int, r: u64|
                    0 <= i < self.nodes@.len() && r < VNODES implies self.points().contains_key(
                    #[trigger] spec_vnode_point(self.nodes@[i], r))
                    && self.points()[spec_vnode_point(self.nodes@[i], r)] == self.nodes@[i] by {
                    let c = self.nodes@[i];
                    let q = spec_vnode_point(c, r);
                    if i == old(self).nodes@.len() {
                        assert(card_points(id, VNODES).contains_key(q));
                    } else {
                        assert(c == old(self).nodes@[i]);
                        assert(old(self).owns_positions());
                        assert(old(self).nodes@[i].0 < 0x1_0000_0000int);
                        assert(old_points.contains_key(q) && old_points[q] == c);
                        if card_points(id, VNODES).contains_key(q) {
                            let k = choose|k: u64| k < VNODES && q == spec_vnode_point(id, k);
                            lemma_vnode_point_injective(c, r, id, k);
                            assert(old(self).nodes@.contains(c));
                        }
                    }
                }
            }
            assert(self.wf_core());
            assert(self.owns_positions());
        }
    }

    /// Position of card `id` among the registered cards.
    fn find_node(&self, id: CxlCardId) -> (k: Option<usize>)
        ensures
            k is None <==> !self.nodes@.contains(id),
            k matches Some(i) ==> i < self.nodes@.len() && self.nodes@[i as int] == id,
    {
        let mut k: usize = 0;
        while k < self.nodes.len()
            invariant
                k <= self.nodes@.len(),
                forall|m: int| 0 <= m < k ==> self.nodes@[m] != id,
            decreases self.nodes@.len() - k,
        {
            if self.nodes[k] == id {
                return Some(k);
            }
            k = k + 1;
        }
        None
    }

    /// Unregisters card `id` and takes its points off the ring. Returns
    /// `Some(id)` when the card was registered, `None` otherwise.
    pub fn remove_node(&mut self, id: CxlCardId) -> (res: Option<CxlCardId>)
        requires
            old(self).wf(),
        ensures
            final(self).wf(),
            res is Some <==> old(self).node_seq().contains(id),
            res is Some ==> res == Some(id) && final(self).points() == without_card(old(self).points(), id)
                && exists|k: int|
                0 <= k < old(self).node_seq().len() && old(self).node_seq()[k] == id && final(self).node_seq()
                    == old(self).node_seq().remove(k),
            res is None ==> final(self).points() == old(self).points() && final(self).node_seq()
                == old(self).node_seq(),
            !final(self).node_seq().contains(id),
    {
        let k = match self.find_node(id) {
            Some(k) => k,
            None => {
                return None;
            },
        };
        self.nodes.remove(k);
        let kept = points_not_owned_by(&self.ring, id);
        let ghost s = self.ring@;
        proof {
            lemma_filter_card(s, id);
            assert forall|m: int| 0 <= m < kept@.len() implies self.nodes@.contains(#[trigger] kept@[m].1) by {
                let j = choose|j: int| 0 <= j < s.len() && s[j] == kept@[m] && s[j].1 != id;
                assert(old(self).nodes@.contains(s[j].1));
                let q = choose|q: int| 0 <= q < old(self).nodes@.len() && old(self).nodes@[q] == s[j].1;
                assert(q != k);
                if q < k {
                    assert(self.nodes@[q] == old(self).nodes@[q]);
                } else {
                    assert(self.nodes@[q - 1] == old(self).nodes@[q]);
                }
            }
            assert(self.nodes@.no_duplicates()) by {
                assert forall|a: int, b: int|
                    0 <= a < self.nodes@.len() && 0 <= b < self.nodes@.len() && a != b implies self.nodes@[a]
                    != self.nodes@[b] by {
                    let oa = if a < k { a } else { a + 1 };
                    let ob = if b < k { b } else { b + 1 };
                    assert(self.nodes@[a] == old(self).nodes@[oa]);
                    assert(self.nodes@[b] == old(self).nodes@[ob]);
                }
            }
            if self.nodes@.contains(id) {
                let j = choose|j: int| 0 <= j < self.nodes@.len() && self.nodes@[j] == id;
                if j < k {
                    assert(old(self).nodes@[j] == id);
                } else {
                    assert(old(self).nodes@[j + 1] == id);
                }
            }
        }
        self.ring = kept;
        proof {
            assert(self.points() == without_card(old(self).points(), id));
            {
                assert(old(self).owns_positions());
                assert forall|i: int| 0 <= i < self.nodes@.len() implies (#[trigger] self.nodes@[i]).0
                    < 0x1_0000_0000int by {
                    let oi = if i < k { i } else { i + 1 };
                    assert(self.nodes@[i] == old(self).nodes@[oi]);
                }
                assert forall|i: int, r: u64|
                    0 <= i < self.nodes@.len() && r < VNODES implies self.points().contains_key(
                    #[trigger] spec_vnode_point(self.nodes@[i], r))
                    && self.points()[spec_vnode_point(self.nodes@[i], r)] == self.nodes@[i] by {
                    let oi = if i < k { i } else { i + 1 };
                    let c = old(self).nodes@[oi];
                    assert(self.nodes@[i] == c);
                    assert(c.0 < 0x1_0000_0000int && old(self).points().contains_key(spec_vnode_point(c, r))
                        && old(self).points()[spec_vnode_point(c, r)] == c);
                    assert(c != id) by {
                        assert(self.nodes@.contains(c));
                    }
                }
            }
            assert(0 <= k < old(self).node_seq().len() && old(self).node_seq()[k as int] == id && self.node_seq()
                == old(self).node_seq().remove(k as int));
        }
        Some(id)
    }

    /// Routes `key` to the card owning the first point at or after the
    /// key's hash (wrapping around); `None` exactly when the ring has no
    /// points, that is when no card is registered.
    pub fn route(&self, key: u64) -> (r: Option<&CxlCardId>)
        requires
            self.wf(),
        ensures
            match r {
                Some(c) => route_spec(self.points(), key) == Some(*c),
                None => route_spec(self.points(), key) is None,
            },
            r is None <==> self.points().dom().is_empty(),
            r is None <==> self.node_seq().len() == 0,
    {
        let ghost m = self.points();
        let ghost h = spec_key_hash(key);
        if self.ring.len() == 0 {
            proof {
                assert(m.dom() =~= Set::<u64>::empty());
                assert(!exists|p: u64| is_successor(m, h, p));
                if self.nodes@.len() > 0 {
                    let q = spec_vnode_point(self.nodes@[0], 0);
                    assert(m.contains_key(q));
                    assert(false);
                }
            }
            return None;
        }
        proof {
            assert(self.nodes@.contains(self.ring@[0].1));
        }
        let hk = mix64(key);
        let i = self.lower_bound(hk);
        let j = if i == self.ring.len() { 0 } else { i };
        proof {
            let p = self.ring@[j as int].0;
            lemma_ring_map_index(self.ring@, j as int);
            assert(is_successor(m, h, p)) by {
                if i < self.ring@.len() {
                    assert forall|q: u64| #[trigger] m.contains_key(q) && q >= h implies p <= q by {
                        let t = choose|t: int| 0 <= t < self.ring@.len() && (#[trigger] self.ring@[t]).0 == q;
                        if t < i {
                        } else if t > i {
                        }
                    }
                } else {
                    assert forall|q: u64| #[trigger] m.contains_key(q) implies q < h by {
                        let t = choose|t: int| 0 <= t < self.ring@.len() && (#[trigger] self.ring@[t]).0 == q;
                    }
                    assert forall|q: u64| #[trigger] m.contains_key(q) implies p <= q by {
                        let t = choose|t: int| 0 <= t < self.ring@.len() && (#[trigger] self.ring@[t]).0 == q;
                        if t > 0 {
                        }
                    }
                }
            }
            lemma_successor_unique(m, h, p);
            assert(!m.dom().is_empty()) by {
                assert(m.dom().contains(p));
            }
        }
        Some(&self.ring[j].1)
    }
}

/// The points of `s` not owned by `id`, in order.
pub open spec fn filter_card(s: Seq<(u64, CxlCardId)>, id: CxlCardId) -> Seq<(u64, CxlCardId)>
    decreases s.len(),
{
    if s.len() == 0 {
        Seq::empty()
    } else {
        let f = filter_card(s.drop_last(), id);
        if s.last().1 != id {
            f.push(s.last())
        } else {
            f
        }
    }
}

/// Copies the points of `ring` that `id` does not own.
fn points_not_owned_by(ring: &Vec<(u64, CxlCardId)>, id: CxlCardId) -> (kept: Vec<(u64, CxlCardId)>)
    ensures
        kept@ == filter_card(ring@, id),
{
    let mut kept: Vec<(u64, CxlCardId)> = Vec::new();
    let mut i: usize = 0;
    while i < ring.len()
        invariant
            i <= ring@.len(),
            kept@ == filter_card(ring@.take(i as int), id),
        decreases ring@.len() - i,
    {
        let e = ring[i];
        proof {
            assert(ring@.take(i as int + 1).drop_last() =~= ring@.take(i as int));
        }
        if e.1 != id {
            kept.push(e);
        }
        i = i + 1;
    }
    assert(ring@.take(ring@.len() as int) =~= ring@);
    kept
}

proof fn lemma_filter_card_members(s: Seq<(u64, CxlCardId)>, id: CxlCardId)
    ensures
        forall|m: int| 0 <= m < filter_card(s, id).len() ==> exists|j: int|
            0 <= j < s.len() && s[j] == #[trigger] filter_card(s, id)[m] && s[j].1 != id,
        forall|j: int| 0 <= j < s.len() && (#[trigger] s[j]).1 != id ==> exists|m: int|
            0 <= m < filter_card(s, id).len() && filter_card(s, id)[m] == s[j],
    decreases s.len(),
{
    if s.len() > 0 {
        let d = s.drop_last();
        lemma_filter_card_members(d, id);
        let f = filter_card(s, id);
        let fd = filter_card(d, id);
        assert forall|m: int| 0 <= m < f.len() implies exists|j: int|
            0 <= j < s.len() && s[j] == #[trigger] f[m] && s[j].1 != id by {
            if m < fd.len() {
                let j = choose|j: int| 0 <= j < d.len() && d[j] == fd[m] && d[j].1 != id;
                assert(s[j] == d[j]);
                assert(f[m] == fd[m]);
            } else {
                assert(s[s.len() - 1] == f[m]);
            }
        }
        assert forall|j: int| 0 <= j < s.len() && (#[trigger] s[j]).1 != id implies exists|m: int|
            0 <= m < f.len() && f[m] == s[j] by {
            if j < d.len() {
                assert(d[j] == s[j]);
                let m = choose|m: int| 0 <= m < fd.len() && fd[m] == d[j];
                assert(f[m] == fd[m]);
            } else {
                assert(f[f.len() - 1] == s[j]);
            }
        }
    }
}

proof fn lemma_filter_card_sorted(s: Seq<(u64, CxlCardId)>, id: CxlCardId)
    requires
        sorted_points(s),
    ensures
        sorted_points(filter_card(s, id)),
    decreases s.len(),
{
    if s.len() > 0 {
        let d = s.drop_last();
        assert(sorted_points(d)) by {
            assert forall|a: int, b: int| 0 <= a < b < d.len() implies (#[trigger] d[a]).0 < (#[trigger] d[b]).0 by {
                assert(d[a] == s[a] && d[b] == s[b]);
            }
        }
        lemma_filter_card_sorted(d, id);
        lemma_filter_card_members(d, id);
        let f = filter_card(s, id);
        let fd = filter_card(d, id);
        if s.last().1 != id {
            assert forall|a: int, b: int| 0 <= a < b < f.len() implies (#[trigger] f[a]).0 < (#[trigger] f[b]).0 by {
                if b < fd.len() {
                    assert(f[a] == fd[a] && f[b] == fd[b]);
                } else {
                    assert(f[a] == fd[a]);
                    let j = choose|j: int| 0 <= j < d.len() && d[j] == #[trigger] fd[a] && d[j].1 != id;
                    assert(s[j] == d[j]);
                    assert(s[j].0 < s[s.len() - 1].0);
                }
            }
        }
    }
}

/// Dropping `id`'s points from a sorted sequence keeps it sorted and
/// leaves exactly the points that `id` does not own.
#[verifier::spinoff_prover]
#[verifier::rlimit(50)]
proof fn lemma_filter_card(s: Seq<(u64, CxlCardId)>, id: CxlCardId)
    requires
        sorted_points(s),
    ensures
        sorted_points(filter_card(s, id)),
        ring_map(filter_card(s, id)) == without_card(ring_map(s), id),
        forall|m: int| 0 <= m < filter_card(s, id).len() ==> exists|j: int|
            0 <= j < s.len() && s[j] == #[trigger] filter_card(s, id)[m] && s[j].1 != id,
{
    lemma_filter_card_sorted(s, id);
    lemma_filter_card_members(s, id);
    let f = filter_card(s, id);
    assert forall|p: u64| #[trigger] ring_map(f).contains_key(p) <==> without_card(ring_map(s), id).contains_key(p) by {
        if ring_map(f).contains_key(p) {
            let m = choose|m: int| 0 <= m < f.len() && (#[trigger] f[m]).0 == p;
            let j = choose|j: int| 0 <= j < s.len() && s[j] == #[trigger] f[m] && s[j].1 != id;
            lemma_ring_map_index(s, j);
        }
        if without_card(ring_map(s), id).contains_key(p) {
            let j = choose|j: int| 0 <= j < s.len() && (#[trigger] s[j]).0 == p;
            lemma_ring_map_index(s, j);
            let m = choose|m: int| 0 <= m < f.len() && f[m] == s[j];
        }
    }
    assert forall|p: u64| #[trigger] ring_map(f).contains_key(p) implies ring_map(f)[p] == without_card(
        ring_map(s),
        id,
    )[p] by {
        let m = choose|m: int| 0 <= m < f.len() && (#[trigger] f[m]).0 == p;
        let j = choose|j: int| 0 <= j < s.len() && s[j] == #[trigger] f[m] && s[j].1 != id;
        lemma_ring_map_index(s, j);
        lemma_ring_map_index(f, m);
    }
    assert(ring_map(f) =~= without_card(ring_map(s), id));
}

proof fn lemma_successor_unique(m: Map<u64, CxlCardId>, h: u64, p: u64)
    requires
        is_successor(m, h, p),
    ensures
        forall|q: u64| #[trigger] is_successor(m, h, q) ==> q == p,
        (choose|q: u64| is_successor(m, h, q)) == p,
{
    assert forall|q: u64| #[trigger] is_successor(m, h, q) implies q == p by {
        assert(m.contains_key(p) && m.contains_key(q));
    }
}

/// In a sorted point sequence, the entry at index `i` is what the map
/// holds for its point.
proof fn lemma_ring_map_index(s: Seq<(u64, CxlCardId)>, i: int)
    requires
        sorted_points(s),
        0 <= i < s.len(),
    ensures
        ring_map(s).contains_key(s[i].0),
        ring_map(s)[s[i].0] == s[i].1,
{
    let p = s[i].0;
    assert(0 <= i < s.len() && s[i].0 == p);
    let j = choose|j: int| 0 <= j < s.len() && (#[trigger] s[j]).0 == p;
    if j < i {
    } else if j > i {
    }
}

proof fn lemma_ring_map_update(s: Seq<(u64, CxlCardId)>, i: int, p: u64, c: CxlCardId)
    requires
        sorted_points(s),
        0 <= i < s.len(),
        s[i].0 == p,
    ensures
        sorted_points(s.update(i, (p, c))),
        ring_map(s.update(i, (p, c))) == ring_map(s).insert(p, c),
{
    let t = s.update(i, (p, c));
    assert(sorted_points(t)) by {
        assert forall|a: int, b: int| 0 <= a < b < t.len() implies (#[trigger] t[a]).0 < (#[trigger] t[b]).0 by {
            assert(s[a].0 < s[b].0);
        }
    }
    assert forall|q: u64| #[trigger] ring_map(t).contains_key(q) <==> ring_map(s).insert(p, c).contains_key(q) by {
        if ring_map(t).contains_key(q) {
            let j = choose|j: int| 0 <= j < t.len() && (#[trigger] t[j]).0 == q;
            assert(s[j].0 == q);
        }
        if ring_map(s).contains_key(q) {
            let j = choose|j: int| 0 <= j < s.len() && (#[trigger] s[j]).0 == q;
            assert(t[j].0 == q);
        }
        if q == p {
            assert(t[i].0 == q);
        }
    }
    assert forall|q: u64| #[trigger] ring_map(t).contains_key(q) implies ring_map(t)[q] == ring_map(s).insert(p, c)[q] by {
        let j = choose|j: int| 0 <= j < t.len() && (#[trigger] t[j]).0 == q;
        lemma_ring_map_index(t, j);
        lemma_ring_map_index(s, j);
    }
    assert(ring_map(t) =~= ring_map(s).insert(p, c));
}

proof fn lemma_ring_map_insert(s: Seq<(u64, CxlCardId)>, i: int, p: u64, c: CxlCardId)
    requires
        sorted_points(s),
        0 <= i <= s.len(),
        forall|j: int| 0 <= j < i ==> (#[trigger] s[j]).0 < p,
        forall|j: int| i <= j < s.len() ==> (#[trigger] s[j]).0 >= p,
        i < s.len() ==> s[i].0 != p,
    ensures
        sorted_points(s.insert(i, (p, c))),
        ring_map(s.insert(i, (p, c))) == ring_map(s).insert(p, c),
{
    let t = s.insert(i, (p, c));
    assert(sorted_points(t)) by {
        assert forall|a: int, b: int| 0 <= a < b < t.len() implies (#[trigger] t[a]).0 < (#[trigger] t[b]).0 by {
            if b < i {
                assert(s[a].0 < s[b].0);
            } else if b == i {
            } else if a < i {
                assert(t[b] == s[b - 1]);
                if b - 1 == i {
                } else {
                    assert(s[i].0 < s[b - 1].0);
                }
            } else if a == i {
                assert(t[b] == s[b - 1]);
                if b - 1 == i {
                } else {
                    assert(s[i].0 < s[b - 1].0);
                }
            } else {
                assert(s[a - 1].0 < s[b - 1].0);
            }
        }
    }
    assert forall|q: u64| #[trigger] ring_map(t).contains_key(q) <==> ring_map(s).insert(p, c).contains_key(q) by {
        if ring_map(t).contains_key(q) {
            let j = choose|j: int| 0 <= j < t.len() && (#[trigger] t[j]).0 == q;
            if j < i {
                assert(s[j].0 == q);
            } else if j > i {
                assert(s[j - 1].0 == q);
            }
        }
        if ring_map(s).contains_key(q) {
            let j = choose|j: int| 0 <= j < s.len() && (#[trigger] s[j]).0 == q;
            if j < i {
                assert(t[j].0 == q);
            } else {
                assert(t[j + 1].0 == q);
            }
        }
        if q == p {
            assert(t[i].0 == q);
        }
    }
    assert forall|q: u64| #[trigger] ring_map(t).contains_key(q) implies ring_map(t)[q] == ring_map(s).insert(p, c)[q] by {
        let j = choose|j: int| 0 <= j < t.len() && (#[trigger] t[j]).0 == q;
        lemma_ring_map_index(t, j);
        if j < i {
            lemma_ring_map_index(s, j);
        } else if j > i {
            lemma_ring_map_index(s, j - 1);
        }
    }
    assert(ring_map(t) =~= ring_map(s).insert(p, c));
}

} // verus!

verus! {

proof fn lemma_successor_exists(s: Seq<(u64, CxlCardId)>, h: u64) -> (p: u64)
    requires
        sorted_points(s),
        s.len() > 0,
    ensures
        is_successor(ring_map(s), h, p),
    decreases s.len(),
{
    let m = ring_map(s);
    if s.len() == 1 {
        let p = s[0].0;
        lemma_ring_map_index(s, 0);
        assert forall|q: u64| #[trigger] m.contains_key(q) implies q == p by {
            let t = choose|t: int| 0 <= t < s.len() && (#[trigger] s[t]).0 == q;
        }
        p
    } else {
        let d = s.drop_last();
        assert(sorted_points(d)) by {
            assert forall|a: int, b: int| 0 <= a < b < d.len() implies (#[trigger] d[a]).0 < (#[trigger] d[b]).0 by {
                assert(d[a] == s[a] && d[b] == s[b]);
            }
        }
        let pd = lemma_successor_exists(d, h);
        let md = ring_map(d);
        let last = s[s.len() - 1].0;
        lemma_ring_map_index(s, s.len() - 1);
        let jd = choose|t: int| 0 <= t < d.len() && (#[trigger] d[t]).0 == pd;
        assert(s[jd] == d[jd]);
        lemma_ring_map_index(s, jd);
        assert(pd < last);
        // every key of s is a key of d or the last one
        assert forall|q: u64| #[trigger] m.contains_key(q) implies md.contains_key(q) || q == last by {
            let t = choose|t: int| 0 <= t < s.len() && (#[trigger] s[t]).0 == q;
            if t < d.len() {
                assert(d[t] == s[t]);
            }
        }
        assert forall|q: u64| #[trigger] md.contains_key(q) implies m.contains_key(q) by {
            let t = choose|t: int| 0 <= t < d.len() && (#[trigger] d[t]).0 == q;
            assert(s[t] == d[t]);
        }
        if pd >= h || last < h {
            assert(is_successor(m, h, pd)) by {
                if pd >= h {
                    assert forall|q: u64| #[trigger] m.contains_key(q) && q >= h implies pd <= q by {
                        if q != last {
                            assert(md.contains_key(q));
                        }
                    }
                } else {
                    assert forall|q: u64| #[trigger] m.contains_key(q) implies q < h by {
                        if q != last {
                            assert(md.contains_key(q));
                        }
                    }
                    assert forall|q: u64| #[trigger] m.contains_key(q) implies pd <= q by {
                        if q != last {
                            assert(md.contains_key(q));
                        }
                    }
                }
            }
            pd
        } else {
            // no key of d is at or after h, but the last one is
            assert forall|q: u64| #[trigger] m.contains_key(q) && q >= h implies last <= q by {
                if q != last {
                    assert(md.contains_key(q));
                }
            }
            last
        }
    }
}

/// The ring has points exactly when some card is registered.
pub proof fn lemma_points_iff_registered(r: HashRing)
    requires
        r.wf(),
    ensures
        r.points().dom().is_empty() <==> r.node_seq().len() == 0,
{
    let m = r.points();
    if r.nodes@.len() > 0 {
        assert(m.dom().contains(spec_vnode_point(r.nodes@[0], 0)));
    }
    if r.ring@.len() > 0 {
        lemma_ring_map_index(r.ring@, 0);
        assert(r.nodes@.contains(r.ring@[0].1));
    } else {
        assert(m.dom() =~= Set::<u64>::empty());
    }
}

/// On a well-formed ring, routing fails exactly when the ring has no
/// points, that is exactly when no card is registered.
pub proof fn lemma_route_none_iff_empty(r: HashRing, key: u64)
    requires
        r.wf(),
    ensures
        route_spec(r.points(), key) is None <==> r.points().dom().is_empty(),
        route_spec(r.points(), key) is None <==> r.node_seq().len() == 0,
{
    lemma_points_iff_registered(r);
    let m = r.points();
    let h = spec_key_hash(key);
    if r.ring@.len() > 0 {
        let p = lemma_successor_exists(r.ring@, h);
        assert(m.dom().contains(p));
    } else {
        assert(m.dom() =~= Set::<u64>::empty());
        assert(!exists|p: u64| is_successor(m, h, p));
    }
}

/// Every key is routed to a registered card.
pub proof fn lemma_route_registered(r: HashRing, key: u64)
    requires
        r.wf(),
    ensures
        route_spec(r.points(), key) matches Some(c) ==> r.node_seq().contains(c),
{
    let m = r.points();
    let h = spec_key_hash(key);
    if exists|p: u64| is_successor(m, h, p) {
        let p = choose|p: u64| is_successor(m, h, p);
        let t = choose|t: int| 0 <= t < r.ring@.len() && (#[trigger] r.ring@[t]).0 == p;
        lemma_ring_map_index(r.ring@, t);
    }
}

/// Adding card `c` only moves keys to `c`: every key is routed either to
/// the card it was routed to before or to `c`.
pub proof fn lemma_add_moves_keys_only_to_new_card(a: HashRing, b: HashRing, c: CxlCardId, key: u64)
    requires
        a.wf(),
        b.wf(),
        b.points() == a.points().union_prefer_right(card_points(c, VNODES)),
    ensures
        route_spec(b.points(), key) == route_spec(a.points(), key) || route_spec(b.points(), key) == Some(c),
{
    let ma = a.points();
    let mb = b.points();
    let h = spec_key_hash(key);
    lemma_route_none_iff_empty(a, key);
    lemma_route_none_iff_empty(b, key);
    if exists|p: u64| is_successor(mb, h, p) {
        let p = choose|p: u64| is_successor(mb, h, p);
        if !card_points(c, VNODES).contains_key(p) {
            assert(ma.contains_key(p));
            assert(mb[p] == ma[p]);
            assert(is_successor(ma, h, p)) by {
                assert forall|q: u64| #[trigger] ma.contains_key(q) implies mb.contains_key(q) by {}
            }
            lemma_successor_unique(ma, h, p);
        }
    } else {
        assert(mb.dom().is_empty());
        assert(ma.dom() =~= Set::<u64>::empty()) by {
            assert forall|q: u64| !ma.dom().contains(q) by {
                if ma.dom().contains(q) {
                    assert(mb.dom().contains(q));
                }
            }
        }
    }
}

/// Removing card `c` leaves every key that was not routed to `c` where it
/// was.
pub proof fn lemma_remove_keeps_other_routes(
    a: HashRing,
    b: HashRing,
    c: CxlCardId,
    key: u64,
    x: CxlCardId,
)
    requires
        a.wf(),
        b.wf(),
        b.points() == without_card(a.points(), c),
        route_spec(a.points(), key) == Some(x),
        x != c,
    ensures
        route_spec(b.points(), key) == Some(x),
{
    let ma = a.points();
    let mb = b.points();
    let h = spec_key_hash(key);
    let p = choose|p: u64| is_successor(ma, h, p);
    assert(is_successor(ma, h, p));
    assert(mb.contains_key(p));
    assert(is_successor(mb, h, p)) by {
        assert forall|q: u64| #[trigger] mb.contains_key(q) implies ma.contains_key(q) by {}
    }
    lemma_successor_unique(mb, h, p);
}

/// A call that changes which cards are registered.
pub enum RingOp {
    Add(CxlCardId),
    Remove(CxlCardId),
}

/// The cards registered after applying `ops`, in order, to an empty ring.
pub open spec fn registered_after(ops: Seq<RingOp>) -> Set<CxlCardId>
    decreases ops.len(),
{
    if ops.len() == 0 {
        Set::empty()
    } else {
        let before = registered_after(ops.drop_last());
        match ops.last() {
            RingOp::Add(c) => before.insert(c),
            RingOp::Remove(c) => before.remove(c),
        }
    }
}

/// `b`'s registered cards are what `add_node` or `remove_node` makes of
/// `a`'s, as their contracts state.
pub open spec fn ring_step(a: HashRing, b: HashRing, op: RingOp) -> bool {
    match op {
        RingOp::Add(c) => if a.node_seq().contains(c) {
            b.node_seq() == a.node_seq()
        } else {
            b.node_seq() == a.node_seq().push(c)
        },
        RingOp::Remove(c) => if a.node_seq().contains(c) {
            exists|k: int| 0 <= k < a.node_seq().len() && a.node_seq()[k] == c && b.node_seq() == a.node_seq().remove(k)
        } else {
            b.node_seq() == a.node_seq()
        },
    }
}

/// Over any run of `add_node` and `remove_node` calls from a new ring, the
/// registered cards are those added and not removed since, and
/// `node_count` is their number.
pub proof fn lemma_node_count_over_run(rs: Seq<HashRing>, ops: Seq<RingOp>)
    requires
        rs.len() == ops.len() + 1,
        rs[0].node_seq() == Seq::<CxlCardId>::empty(),
        forall|i: int| 0 <= i < rs.len() ==> (#[trigger] rs[i]).wf(),
        forall|i: int| 0 <= i < ops.len() ==> ring_step(#[trigger] rs[i], rs[i + 1], ops[i]),
    ensures
        rs.last().node_seq().to_set() == registered_after(ops),
        rs.last().node_seq().len() == registered_after(ops).len(),
    decreases ops.len(),
{
    broadcast use vstd::set::group_set_axioms;
    let last = rs.last();
    if ops.len() == 0 {
        assert(last.node_seq().to_set() =~= Set::<CxlCardId>::empty());
    } else {
        let n = ops.len() - 1;
        let prev = rs[n];
        lemma_node_count_over_run(rs.drop_last(), ops.drop_last());
        assert(rs.drop_last().last() == prev);
        assert(ring_step(rs[n], rs[n + 1], ops[n]));
        assert(rs[n + 1] == last);
        let before = prev.node_seq();
        let after = last.node_seq();
        match ops.last() {
            RingOp::Add(c) => {
                if before.contains(c) {
                    assert(before.to_set().insert(c) =~= before.to_set());
                } else {
                    before.lemma_push_to_set_commute(c);
                }
            },
            RingOp::Remove(c) => {
                if before.contains(c) {
                    let k = choose|k: int| 0 <= k < before.len() && before[k] == c && after == before.remove(k);
                    assert(after.to_set() =~= before.to_set().remove(c)) by {
                        assert forall|x: CxlCardId| after.to_set().contains(x) <==> before.to_set().remove(c).contains(x) by {
                            if after.contains(x) {
                                let j = choose|j: int| 0 <= j < after.len() && after[j] == x;
                                if j < k {
                                    assert(before[j] == x);
                                } else {
                                    assert(before[j + 1] == x);
                                    assert(j + 1 != k);
                                }
                            }
                            if before.contains(x) && x != c {
                                let j = choose|j: int| 0 <= j < before.len() && before[j] == x;
                                assert(j != k);
                                if j < k {
                                    assert(after[j] == x);
                                } else {
                                    assert(after[j - 1] == x);
                                }
                            }
                        }
                    }
                } else {
                    assert(before.to_set().remove(c) =~= before.to_set());
                }
            },
        }
    }
    last.nodes@.unique_seq_to_set();
}

/// Once card `c` is removed, no key is routed to it.
pub proof fn lemma_removed_card_not_routed(b: HashRing, a_points: Map<u64, CxlCardId>, c: CxlCardId, key: u64)
    requires
        b.wf(),
        b.points() == without_card(a_points, c),
    ensures
        route_spec(b.points(), key) != Some(c),
{
    let mb = b.points();
    let h = spec_key_hash(key);
    if exists|p: u64| is_successor(mb, h, p) {
        let p = choose|p: u64| is_successor(mb, h, p);
        assert(mb.contains_key(p));
    }
}

} // verus!

verus! {

proof fn lemma_xorshift_injective(x: u64, y: u64)
    ensures
        x ^ (x >> 30u64) == y ^ (y >> 30u64) ==> x == y,
        x ^ (x >> 27u64) == y ^ (y >> 27u64) ==> x == y,
        x ^ (x >> 31u64) == y ^ (y >> 31u64) ==> x == y,
{
    assert(x ^ (x >> 30u64) == y ^ (y >> 30u64) ==> x == y) by (bit_vector);
    assert(x ^ (x >> 27u64) == y ^ (y >> 27u64) ==> x == y) by (bit_vector);
    assert(x ^ (x >> 31u64) == y ^ (y >> 31u64) ==> x == y) by (bit_vector);
}

proof fn lemma_mul_inverse_cancels(x: int, c: int, cinv: int, k: int)
    requires
        0 <= x < 0x1_0000_0000_0000_0000,
        c * cinv == 1 + k * 0x1_0000_0000_0000_0000,
        k >= 0,
    ensures
        ((x * c) % 0x1_0000_0000_0000_0000) * cinv % 0x1_0000_0000_0000_0000 == x,
{
    let m: int = 0x1_0000_0000_0000_0000;
    vstd::arithmetic::div_mod::lemma_mul_mod_noop_left(x * c, cinv, m);
    vstd::arithmetic::mul::lemma_mul_is_associative(x, c, cinv);
    assert(x * (c * cinv) == x + (x * k) * m) by (nonlinear_arith)
        requires
            c * cinv == 1 + k * m,
    ;
    vstd::arithmetic::div_mod::lemma_mod_multiples_vanish(x * k, x, m);
    assert((x * k) * m == m * (x * k)) by (nonlinear_arith);
    vstd::arithmetic::div_mod::lemma_small_mod(x as nat, m as nat);
}

proof fn lemma_wrapping_mul_injective(x: u64, y: u64, c: u64, cinv: int, k: int)
    requires
        c * cinv == 1 + k * 0x1_0000_0000_0000_0000,
        k >= 0,
        vstd::wrapping::u64_specs::wrapping_mul(x, c) == vstd::wrapping::u64_specs::wrapping_mul(y, c),
    ensures
        x == y,
{
    lemma_mul_inverse_cancels(x as int, c as int, cinv, k);
    lemma_mul_inverse_cancels(y as int, c as int, cinv, k);
    assert((x as nat * c as nat) % 0x1_0000_0000_0000_0000nat == (x as int * c as int) % 0x1_0000_0000_0000_0000);
    assert((y as nat * c as nat) % 0x1_0000_0000_0000_0000nat == (y as int * c as int) % 0x1_0000_0000_0000_0000);
}

/// The mixing function is one-to-one: different inputs mix to different
/// ring positions.
pub proof fn lemma_mix64_injective(x: u64, y: u64)
    requires
        spec_mix64(x) == spec_mix64(y),
    ensures
        x == y,
{
    let ax = vstd::wrapping::u64_specs::wrapping_add(x, MIX_GAMMA);
    let ay = vstd::wrapping::u64_specs::wrapping_add(y, MIX_GAMMA);
    let bx = vstd::wrapping::u64_specs::wrapping_mul(ax ^ (ax >> 30u64), 0xbf58_476d_1ce4_e5b9u64);
    let by = vstd::wrapping::u64_specs::wrapping_mul(ay ^ (ay >> 30u64), 0xbf58_476d_1ce4_e5b9u64);
    let cx = vstd::wrapping::u64_specs::wrapping_mul(bx ^ (bx >> 27u64), 0x94d0_49bb_1331_11ebu64);
    let cy = vstd::wrapping::u64_specs::wrapping_mul(by ^ (by >> 27u64), 0x94d0_49bb_1331_11ebu64);
    lemma_xorshift_injective(cx, cy);
    assert(cx == cy);
    lemma_wrapping_mul_injective(
        bx ^ (bx >> 27u64),
        by ^ (by >> 27u64),
        0x94d0_49bb_1331_11ebu64,
        0x319642b2d24d8ec3,
        2077064247507883091,
    );
    lemma_xorshift_injective(bx, by);
    lemma_wrapping_mul_injective(
        ax ^ (ax >> 30u64),
        ay ^ (ay >> 30u64),
        0xbf58_476d_1ce4_e5b9u64,
        0x96de1b173f119089,
        8125545580553827436,
    );
    lemma_xorshift_injective(ax, ay);
}

/// Different cards with ids below 2^32, or different positions of one
/// card, land on different points of the ring.
pub proof fn lemma_vnode_point_injective(c1: CxlCardId, r1: u64, c2: CxlCardId, r2: u64)
    requires
        c1.0 < 0x1_0000_0000int,
        c2.0 < 0x1_0000_0000int,
        r1 < 0x1_0000_0000,
        r2 < 0x1_0000_0000,
        spec_vnode_point(c1, r1) == spec_vnode_point(c2, r2),
    ensures
        c1 == c2,
        r1 == r2,
{
    let a1 = c1.0 as u64;
    let a2 = c2.0 as u64;
    lemma_mix64_injective(((a1 << 32u64) | r1) ^ VNODE_SALT, ((a2 << 32u64) | r2) ^ VNODE_SALT);
    assert(a1 == a2 && r1 == r2) by (bit_vector)
        requires
            a1 < 0x1_0000_0000,
            a2 < 0x1_0000_0000,
            r1 < 0x1_0000_0000,
            r2 < 0x1_0000_0000,
            ((a1 << 32u64) | r1) ^ 0x243F_6A88_85A3_08D3u64 == ((a2 << 32u64) | r2) ^ 0x243F_6A88_85A3_08D3u64,
    ;
}

} // verus!
