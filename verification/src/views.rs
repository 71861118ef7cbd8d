use vstd::prelude::*;
use crate::peer::PeerId;
use crate::rng::XorShiftRng;

verus! {

/// The two bounded views a node keeps: the active view of connected peers and
/// the passive view of known-but-unconnected candidates.
pub struct ViewStore {
    pub self_id: PeerId,
    pub active: Vec<PeerId>,
    pub passive: Vec<PeerId>,
    pub active_view_size: usize,
    pub passive_view_size: usize,
}

/// Membership test on a list of peers.
pub fn contains_peer(v: &Vec<PeerId>, p: &PeerId) -> (r: bool)
    ensures
        r == v@.contains(*p),
{
    let mut i: usize = 0;
    while i < v.len()
        invariant
            i <= v@.len(),
            forall|j: int| 0 <= j < i ==> v@[j] != *p,
        decreases v@.len() - i,
    {
        if v[i] == *p {
            return true;
        }
        i = i + 1;
    }
    false
}

/// Removes `p` from the list if present; says whether it was.
fn remove_peer(v: &mut Vec<PeerId>, p: &PeerId) -> (found: bool)
    requires
        old(v)@.no_duplicates(),
    ensures
        final(v)@.no_duplicates(),
        found == old(v)@.contains(*p),
        !found ==> final(v)@ == old(v)@,
        found ==> final(v)@.len() == old(v)@.len() - 1,
        !final(v)@.contains(*p),
        final(v)@.to_set() == old(v)@.to_set().remove(*p),
        forall|q: PeerId| final(v)@.contains(q) ==> old(v)@.contains(q),
{
    let ghost orig = old(v)@;
    let mut i: usize = 0;
    while i < v.len()
        invariant
            orig == old(v)@,
            orig.no_duplicates(),
            v@ == orig,
            i <= orig.len(),
            forall|j: int| 0 <= j < i ==> orig[j] != *p,
        decreases orig.len() - i,
    {
        if v[i] == *p {
            let ghost ii = i as int;
            v.remove(i);
            proof {
                orig.remove_ensures(ii);
                assert(orig.contains(*p)) by {
                    assert(orig[ii] == *p);
                }
                assert(v@.len() == orig.len() - 1);
                assert forall|k: int| 0 <= k < ii implies v@[k] == orig[k] by {
                    assert(orig.remove(ii)[k] == orig[k]);
                }
                assert forall|k: int| ii <= k < v@.len() implies v@[k] == orig[k + 1] by {
                    assert(orig.remove(ii)[k] == orig[k + 1]);
                }
                assert forall|a: int, b: int|
                    0 <= a < v@.len() && 0 <= b < v@.len() && a != b implies v@[a] != v@[b] by {
                    let a0: int = if a < ii { a } else { a + 1 };
                    let b0: int = if b < ii { b } else { b + 1 };
                    assert(v@[a] == orig[a0] && v@[b] == orig[b0]);
                    assert(a0 != b0 && 0 <= a0 < orig.len() && 0 <= b0 < orig.len());
                    assert(orig[a0] != orig[b0]);
                }
                assert(!v@.contains(*p)) by {
                    if v@.contains(*p) {
                        let j = choose|j: int| 0 <= j < v@.len() && v@[j] == *p;
                        let j0: int = if j < ii { j } else { j + 1 };
                        assert(orig[j0] == *p && orig[ii] == *p && j0 != ii);
                    }
                }
                assert forall|q: PeerId| v@.contains(q) implies orig.contains(q) by {
                    let j = choose|j: int| 0 <= j < v@.len() && v@[j] == q;
                    let j0: int = if j < ii { j } else { j + 1 };
                    assert(orig[j0] == q);
                }
                assert(v@.to_set() =~= orig.to_set().remove(*p)) by {
                    assert forall|q: PeerId| orig.contains(q) && q != *p implies v@.contains(q) by {
                        let j0 = choose|j0: int| 0 <= j0 < orig.len() && orig[j0] == q;
                        let j: int = if j0 < ii { j0 } else { j0 - 1 };
                        assert(v@[j] == q);
                    }
                }
            }
            return true;
        }
        i = i + 1;
    }
    proof {
        assert(v@.to_set() =~= orig.to_set().remove(*p));
    }
    false
}

impl ViewStore {
    pub open spec fn active_set(self) -> Set<PeerId> {
        self.active@.to_set()
    }

    pub open spec fn passive_set(self) -> Set<PeerId> {
        self.passive@.to_set()
    }

    /// Holds between any two events: the views are duplicate-free and
    /// disjoint, exclude the node itself, and stay within their bounds.
    pub open spec fn wf(self) -> bool {
        &&& self.active@.no_duplicates()
        &&& self.passive@.no_duplicates()
        &&& (forall|p: PeerId| self.active@.contains(p) ==> !self.passive@.contains(p))
        &&& !self.active@.contains(self.self_id)
        &&& !self.passive@.contains(self.self_id)
        &&& self.active@.len() <= self.active_view_size
        &&& self.passive@.len() <= self.passive_view_size
        &&& self.active_view_size >= 1
        &&& self.passive_view_size >= 1
    }

    /// The configuration fields and identity never change after construction.
    pub open spec fn same_shape(self, other: ViewStore) -> bool {
        self.self_id == other.self_id && self.active_view_size == other.active_view_size
            && self.passive_view_size == other.passive_view_size
    }

    pub fn new(self_id: PeerId, active_view_size: usize, passive_view_size: usize) -> (r: ViewStore)
        requires
            active_view_size >= 1,
            passive_view_size >= 1,
        ensures
            r.wf(),
            r.self_id == self_id,
            r.active_view_size == active_view_size,
            r.passive_view_size == passive_view_size,
            r.active@ == Seq::<PeerId>::empty(),
            r.passive@ == Seq::<PeerId>::empty(),
    {
        ViewStore {
            self_id,
            active: Vec::new(),
            passive: Vec::new(),
            active_view_size,
            passive_view_size,
        }
    }

    pub fn active_contains(&self, p: &PeerId) -> (r: bool)
        ensures
            r == self.active@.contains(*p),
    {
        contains_peer(&self.active, p)
    }

    pub fn passive_contains(&self, p: &PeerId) -> (r: bool)
        ensures
            r == self.passive@.contains(*p),
    {
        contains_peer(&self.passive, p)
    }

    pub fn active_is_full(&self) -> (r: bool)
        ensures
            r == (self.active@.len() >= self.active_view_size),
    {
        self.active.len() >= self.active_view_size
    }

    pub fn passive_is_full(&self) -> (r: bool)
        ensures
            r == (self.passive@.len() >= self.passive_view_size),
    {
        self.passive.len() >= self.passive_view_size
    }

    /// Removes `p` from the active view if present.
    pub fn remove_active(&mut self, p: &PeerId) -> (found: bool)
        requires
            old(self).wf(),
        ensures
            final(self).wf(),
            old(self).same_shape(*final(self)),
            found == old(self).active@.contains(*p),
            final(self).active@.to_set() == old(self).active_set().remove(*p),
            !found ==> final(self).active@ == old(self).active@,
            found ==> final(self).active@.len() == old(self).active@.len() - 1,
            final(self).passive@ == old(self).passive@,
            forall|q: PeerId| final(self).active@.contains(q) ==> old(self).active@.contains(q),
    {
        remove_peer(&mut self.active, p)
    }

    /// Removes `p` from the passive view if present.
    pub fn remove_passive(&mut self, p: &PeerId) -> (found: bool)
        requires
            old(self).wf(),
        ensures
            final(self).wf(),
            old(self).same_shape(*final(self)),
            found == old(self).passive@.contains(*p),
            final(self).passive@.to_set() == old(self).passive_set().remove(*p),
            !found ==> final(self).passive@ == old(self).passive@,
            final(self).active@ == old(self).active@,
            forall|q: PeerId| final(self).passive@.contains(q) ==> old(self).passive@.contains(q),
    {
        remove_peer(&mut self.passive, p)
    }
}


/// Appends a peer known to be absent, keeping the list duplicate-free.
fn push_peer(v: &mut Vec<PeerId>, p: PeerId)
    requires
        old(v)@.no_duplicates(),
        !old(v)@.contains(p),
    ensures
        final(v)@ == old(v)@.push(p),
        final(v)@.no_duplicates(),
        final(v)@.len() == old(v)@.len() + 1,
        final(v)@.contains(p),
        final(v)@.to_set() == old(v)@.to_set().insert(p),
        forall|q: PeerId| final(v)@.contains(q) ==> old(v)@.contains(q) || q == p,
        forall|q: PeerId| old(v)@.contains(q) ==> final(v)@.contains(q),
{
    let ghost orig = old(v)@;
    v.push(p);
    proof {
        assert(v@[orig.len() as int] == p);
        assert forall|a: int, b: int|
            0 <= a < v@.len() && 0 <= b < v@.len() && a != b implies v@[a] != v@[b] by {
            if a < orig.len() && b < orig.len() {
                assert(v@[a] == orig[a] && v@[b] == orig[b]);
            } else if a < orig.len() {
                assert(v@[a] == orig[a] && v@[b] == p);
                assert(orig[a] != p);
            } else {
                assert(v@[a] == p && v@[b] == orig[b]);
                assert(orig[b] != p);
            }
        }
        assert forall|q: PeerId| v@.contains(q) implies orig.contains(q) || q == p by {
            let j = choose|j: int| 0 <= j < v@.len() && v@[j] == q;
            if j < orig.len() {
                assert(orig[j] == q);
            }
        }
        assert(v@.to_set() =~= orig.to_set().insert(p)) by {
            assert forall|q: PeerId| orig.contains(q) implies v@.contains(q) by {
                let j = choose|j: int| 0 <= j < orig.len() && orig[j] == q;
                assert(v@[j] == q);
            }
        }
        assert(v@.contains(p));
        assert forall|q: PeerId| orig.contains(q) implies v@.contains(q) by {
            let j = choose|j: int| 0 <= j < orig.len() && orig[j] == q;
            assert(v@[j] == q);
        }
    }
}

/// Up to `n` distinct members of `v`, none of them in `excluding`, chosen by
/// repeated uniform draws without replacement. Returns exactly
/// `min(n, |eligible|)` members, where the eligible members are those of `v`
/// not in `excluding`.
pub fn sample_peers(v: &Vec<PeerId>, n: usize, excluding: &Vec<PeerId>, rng: &mut XorShiftRng) -> (r: Vec<PeerId>)
    requires
        v@.no_duplicates(),
    ensures
        r@.no_duplicates(),
        forall|q: PeerId| r@.contains(q) ==> v@.contains(q) && !excluding@.contains(q),
        r@.len() <= n,
        ({
            let elig = v@.to_set().difference(excluding@.to_set());
            r@.len() == if n <= elig.len() {
                n as int
            } else {
                elig.len() as int
            }
        }),
{
    let ghost elig = v@.to_set().difference(excluding@.to_set());
    let mut pool: Vec<PeerId> = Vec::new();
    let mut i: usize = 0;
    while i < v.len()
        invariant
            v@.no_duplicates(),
            i <= v@.len(),
            pool@.no_duplicates(),
            forall|q: PeerId| pool@.contains(q) ==> v@.contains(q) && !excluding@.contains(q),
            forall|q: PeerId| pool@.contains(q) ==> exists|j: int| 0 <= j < i && v@[j] == q,
            forall|j: int| 0 <= j < i && !excluding@.contains(v@[j]) ==> pool@.contains(v@[j]),
        decreases v@.len() - i,
    {
        let q = v[i];
        if !contains_peer(excluding, &q) {
            proof {
                assert(!pool@.contains(q)) by {
                    if pool@.contains(q) {
                        let j = choose|j: int| 0 <= j < i && v@[j] == q;
                        assert(v@[j] == v@[i as int] && j != i);
                    }
                }
            }
            let ghost pre = pool@;
            push_peer(&mut pool, q);
            proof {
                assert forall|qq: PeerId| pool@.contains(qq) implies exists|j: int|
                    0 <= j < i + 1 && v@[j] == qq by {
                    if pre.contains(qq) {
                        let j = choose|j: int| 0 <= j < i && v@[j] == qq;
                        assert(0 <= j < i + 1 && v@[j] == qq);
                    } else {
                        assert(qq == q);
                        assert(v@[i as int] == qq);
                    }
                }
            }
        }
        i = i + 1;
    }
    proof {
        assert(pool@.to_set() =~= elig) by {
            assert forall|q: PeerId| elig.contains(q) implies pool@.contains(q) by {
                let j = choose|j: int| 0 <= j < v@.len() && v@[j] == q;
                assert(!excluding@.contains(v@[j]));
            }
        }
        pool@.unique_seq_to_set();
        assert(pool@.len() == elig.len());
    }
    let ghost pool_start = pool@.len() as int;
    let mut r: Vec<PeerId> = Vec::new();
    while r.len() < n && pool.len() > 0
        invariant
            pool@.no_duplicates(),
            r@.no_duplicates(),
            forall|q: PeerId| pool@.contains(q) ==> v@.contains(q) && !excluding@.contains(q),
            forall|q: PeerId| r@.contains(q) ==> v@.contains(q) && !excluding@.contains(q),
            forall|q: PeerId| r@.contains(q) ==> !pool@.contains(q),
            r@.len() <= n,
            pool@.len() + r@.len() == pool_start,
        decreases pool@.len(),
    {
        let idx = rng.below(pool.len());
        let e = pool[idx];
        proof {
            assert(pool@.contains(e)) by {
                assert(pool@[idx as int] == e);
            }
        }
        remove_peer(&mut pool, &e);
        push_peer(&mut r, e);
    }
    proof {
        assert(pool_start == elig.len());
        if r@.len() < n {
            assert(pool@.len() == 0);
            assert(r@.len() == elig.len());
        }
    }
    r
}

impl ViewStore {
    /// A peer may enter the passive view only if it is neither the node
    /// itself nor already known in either view.
    pub open spec fn passive_eligible(self, p: PeerId) -> bool {
        p != self.self_id && !self.active@.contains(p) && !self.passive@.contains(p)
    }

    /// Inserts `p` into the active view. A full view gives up a uniformly
    /// random member, which the engine must disconnect; a peer promoted out
    /// of the passive view leaves it. Never accepts `self_id`.
    pub fn add_active(&mut self, p: PeerId, rng: &mut XorShiftRng) -> (evicted: Option<PeerId>)
        requires
            old(self).wf(),
            p != old(self).self_id,
        ensures
            final(self).wf(),
            old(self).same_shape(*final(self)),
            final(self).passive_set() == old(self).passive_set().remove(p),
            old(self).active@.contains(p) ==> final(self).active@ == old(self).active@
                && final(self).passive@ == old(self).passive@ && evicted is None,
            !old(self).active@.contains(p) ==> final(self).active@.contains(p),
            !old(self).active@.contains(p) ==> match evicted {
                Option::None => old(self).active@.len() < old(self).active_view_size
                    && final(self).active_set() == old(self).active_set().insert(p),
                Option::Some(e) => old(self).active@.len() == old(self).active_view_size
                    && old(self).active@.contains(e) && e != p
                    && final(self).active_set() == old(self).active_set().remove(e).insert(p),
            },
            evicted is Some ==> !old(self).active@.contains(p),
            forall|x: PeerId| final(self).active@.contains(x) ==> old(self).active@.contains(x)
                || x == p,
            forall|x: PeerId| final(self).passive@.contains(x) ==> old(self).passive@.contains(x),
            !final(self).passive@.contains(p),
    {
        if self.active_contains(&p) {
            proof {
                assert(!self.passive@.contains(p));
                assert(self.passive_set() =~= self.passive_set().remove(p));
            }
            return Option::None;
        }
        self.remove_passive(&p);
        let mut evicted: Option<PeerId> = Option::None;
        if self.active.len() >= self.active_view_size {
            let idx = rng.below(self.active.len());
            let e = self.active[idx];
            proof {
                assert(self.active@.contains(e)) by {
                    assert(self.active@[idx as int] == e);
                }
            }
            remove_peer(&mut self.active, &e);
            evicted = Option::Some(e);
        }
        let ghost mid = self.active@;
        push_peer(&mut self.active, p);
        proof {
            assert forall|q: PeerId| self.active@.contains(q) && q != p implies old(
                self,
            ).active@.contains(q) by {
                assert(mid.contains(q));
            }
            assert forall|q: PeerId| self.active@.contains(q) implies !self.passive@.contains(
                q,
            ) by {
                if self.passive@.contains(q) {
                    assert(self.passive@.to_set().contains(q));
                    assert(q != p);
                    assert(old(self).passive@.contains(q));
                    assert(old(self).active@.contains(q));
                }
            }
        }
        evicted
    }

    /// Inserts `p` into the passive view if eligible; a full view gives up a
    /// uniformly random member. Returns the member that made room, if any.
    pub fn add_passive(&mut self, p: PeerId, rng: &mut XorShiftRng) -> (evicted: Option<PeerId>)
        requires
            old(self).wf(),
        ensures
            final(self).wf(),
            old(self).same_shape(*final(self)),
            final(self).active@ == old(self).active@,
            !old(self).passive_eligible(p) ==> final(self).passive@ == old(self).passive@
                && evicted is None,
            old(self).passive_eligible(p) ==> final(self).passive@.contains(p),
            old(self).passive_eligible(p) ==> match evicted {
                Option::None => old(self).passive@.len() < old(self).passive_view_size
                    && final(self).passive@ == old(self).passive@.push(p),
                Option::Some(e) => old(self).passive@.len() == old(self).passive_view_size
                    && old(self).passive@.contains(e) && e != p
                    && final(self).passive_set() == old(self).passive_set().remove(e).insert(p),
            },
            forall|x: PeerId| final(self).passive@.contains(x) ==> old(self).passive@.contains(x)
                || x == p,
    {
        let empty: Vec<PeerId> = Vec::new();
        self.add_passive_with(p, &empty, false, rng)
    }

    /// Like `add_passive`, but when eviction is needed the victim is taken
    /// outside `avoid` whenever any member of the passive view is outside it.
    pub fn add_passive_avoiding(&mut self, p: PeerId, avoid: &Vec<PeerId>, rng: &mut XorShiftRng) -> (evicted: Option<PeerId>)
        requires
            old(self).wf(),
        ensures
            final(self).wf(),
            old(self).same_shape(*final(self)),
            final(self).active@ == old(self).active@,
            !old(self).passive_eligible(p) ==> final(self).passive@ == old(self).passive@
                && evicted is None,
            old(self).passive_eligible(p) ==> final(self).passive@.contains(p),
            old(self).passive_eligible(p) ==> match evicted {
                Option::None => old(self).passive@.len() < old(self).passive_view_size
                    && final(self).passive@ == old(self).passive@.push(p),
                Option::Some(e) => old(self).passive@.len() == old(self).passive_view_size
                    && old(self).passive@.contains(e) && e != p
                    && final(self).passive_set() == old(self).passive_set().remove(e).insert(p)
                    && ((exists|w: PeerId| old(self).passive@.contains(w) && !avoid@.contains(w))
                        ==> !avoid@.contains(e)),
            },
            forall|x: PeerId| final(self).passive@.contains(x) ==> old(self).passive@.contains(x)
                || x == p,
    {
        self.add_passive_with(p, avoid, false, rng)
    }

    /// Like `add_passive`, but when eviction is needed the victim is taken
    /// from `prefer` whenever any member of the passive view is in it.
    pub fn add_passive_preferring(&mut self, p: PeerId, prefer: &Vec<PeerId>, rng: &mut XorShiftRng) -> (evicted: Option<PeerId>)
        requires
            old(self).wf(),
        ensures
            final(self).wf(),
            old(self).same_shape(*final(self)),
            final(self).active@ == old(self).active@,
            !old(self).passive_eligible(p) ==> final(self).passive@ == old(self).passive@
                && evicted is None,
            old(self).passive_eligible(p) ==> final(self).passive@.contains(p),
            old(self).passive_eligible(p) ==> match evicted {
                Option::None => old(self).passive@.len() < old(self).passive_view_size
                    && final(self).passive@ == old(self).passive@.push(p),
                Option::Some(e) => old(self).passive@.len() == old(self).passive_view_size
                    && old(self).passive@.contains(e) && e != p
                    && final(self).passive_set() == old(self).passive_set().remove(e).insert(p)
                    && ((exists|w: PeerId| old(self).passive@.contains(w) && prefer@.contains(w))
                        ==> prefer@.contains(e)),
            },
            forall|x: PeerId| final(self).passive@.contains(x) ==> old(self).passive@.contains(x)
                || x == p,
    {
        self.add_passive_with(p, prefer, true, rng)
    }

    /// Shared body of the passive insertions: `special` narrows the choice of
    /// eviction victim, towards it (`prefer_special`) or away from it.
    fn add_passive_with(&mut self, p: PeerId, special: &Vec<PeerId>, prefer_special: bool, rng: &mut XorShiftRng) -> (evicted: Option<PeerId>)
        requires
            old(self).wf(),
        ensures
            final(self).wf(),
            old(self).same_shape(*final(self)),
            final(self).active@ == old(self).active@,
            !old(self).passive_eligible(p) ==> final(self).passive@ == old(self).passive@
                && evicted is None,
            old(self).passive_eligible(p) ==> final(self).passive@.contains(p),
            old(self).passive_eligible(p) ==> match evicted {
                Option::None => old(self).passive@.len() < old(self).passive_view_size
                    && final(self).passive@ == old(self).passive@.push(p),
                Option::Some(e) => old(self).passive@.len() == old(self).passive_view_size
                    && old(self).passive@.contains(e) && e != p
                    && final(self).passive_set() == old(self).passive_set().remove(e).insert(p)
                    && ((exists|w: PeerId| old(self).passive@.contains(w) && special@.contains(w)
                        == prefer_special) ==> special@.contains(e) == prefer_special),
            },
            forall|x: PeerId| final(self).passive@.contains(x) ==> old(self).passive@.contains(x)
                || x == p,
    {
        if self.self_id == p || self.active_contains(&p) || self.passive_contains(&p) {
            return Option::None;
        }
        let mut evicted: Option<PeerId> = Option::None;
        if self.passive.len() >= self.passive_view_size {
            let e = self.pick_victim(special, prefer_special, rng);
            remove_peer(&mut self.passive, &e);
            evicted = Option::Some(e);
        }
        let ghost mid = self.passive@;
        push_peer(&mut self.passive, p);
        proof {
            assert forall|q: PeerId| self.passive@.contains(q) && q != p implies old(
                self,
            ).passive@.contains(q) by {
                assert(mid.contains(q));
            }
            assert forall|q: PeerId| self.active@.contains(q) implies !self.passive@.contains(
                q,
            ) by {
                if self.passive@.contains(q) {
                    if q == p {
                        assert(!old(self).active@.contains(p));
                    } else {
                        assert(old(self).passive@.contains(q));
                        assert(old(self).active@.contains(q));
                    }
                }
            }
            if let Option::Some(e) = evicted {
                assert(self.passive@.to_set() =~= old(self).passive_set().remove(e).insert(p));
            }
            assert(self.passive@.len() <= self.passive_view_size);
            assert(!self.passive@.contains(self.self_id));
            assert(self.wf());
        }
        evicted
    }

    /// A uniformly random member of the non-empty passive view, drawn from
    /// those whose membership in `special` matches `prefer_special` when any
    /// such member exists.
    fn pick_victim(&self, special: &Vec<PeerId>, prefer_special: bool, rng: &mut XorShiftRng) -> (e: PeerId)
        requires
            self.wf(),
            self.passive@.len() > 0,
        ensures
            self.passive@.contains(e),
            (exists|w: PeerId| self.passive@.contains(w) && special@.contains(w) == prefer_special)
                ==> special@.contains(e) == prefer_special,
    {
        let mut pool: Vec<PeerId> = Vec::new();
        let mut i: usize = 0;
        while i < self.passive.len()
            invariant
                self.wf(),
                i <= self.passive@.len(),
                forall|q: PeerId| pool@.contains(q) ==> self.passive@.contains(q)
                    && special@.contains(q) == prefer_special,
                forall|j: int| 0 <= j < i && special@.contains(self.passive@[j]) == prefer_special
                    ==> pool@.len() > 0,
            decreases self.passive@.len() - i,
        {
            let q = self.passive[i];
            proof {
                assert(self.passive@.contains(q)) by {
                    assert(self.passive@[i as int] == q);
                }
            }
            if contains_peer(special, &q) == prefer_special {
                let ghost pre = pool@;
                pool.push(q);
                proof {
                    assert(pool@[pool@.len() - 1] == q);
                    assert(pool@.contains(q));
                    assert forall|qq: PeerId| pool@.contains(qq) implies self.passive@.contains(qq)
                        && special@.contains(qq) == prefer_special by {
                        let j = choose|j: int| 0 <= j < pool@.len() && pool@[j] == qq;
                        if j < pool@.len() - 1 {
                            assert(pre[j] == qq);
                            assert(pre.contains(qq));
                        }
                    }
                }
            }
            i = i + 1;
        }
        if pool.len() > 0 {
            let idx = rng.below(pool.len());
            let e = pool[idx];
            proof {
                assert(pool@.contains(e)) by {
                    assert(pool@[idx as int] == e);
                }
            }
            e
        } else {
            let idx = rng.below(self.passive.len());
            let e = self.passive[idx];
            proof {
                assert(self.passive@.contains(e)) by {
                    assert(self.passive@[idx as int] == e);
                }
                assert forall|w: PeerId|
                    self.passive@.contains(w) implies special@.contains(w) != prefer_special by {
                    let j = choose|j: int| 0 <= j < self.passive@.len() && self.passive@[j] == w;
                }
            }
            e
        }
    }

    /// Up to `n` distinct uniformly random active members outside `excluding`.
    pub fn sample_active(&self, n: usize, excluding: &Vec<PeerId>, rng: &mut XorShiftRng) -> (r: Vec<PeerId>)
        requires
            self.wf(),
        ensures
            r@.no_duplicates(),
            forall|q: PeerId| r@.contains(q) ==> self.active@.contains(q)
                && !excluding@.contains(q),
            r@.len() <= n,
            ({
                let elig = self.active_set().difference(excluding@.to_set());
                r@.len() == if n <= elig.len() {
                    n as int
                } else {
                    elig.len() as int
                }
            }),
    {
        sample_peers(&self.active, n, excluding, rng)
    }

    /// Up to `n` distinct uniformly random passive members outside `excluding`.
    pub fn sample_passive(&self, n: usize, excluding: &Vec<PeerId>, rng: &mut XorShiftRng) -> (r: Vec<PeerId>)
        requires
            self.wf(),
        ensures
            r@.no_duplicates(),
            forall|q: PeerId| r@.contains(q) ==> self.passive@.contains(q)
                && !excluding@.contains(q),
            r@.len() <= n,
            ({
                let elig = self.passive_set().difference(excluding@.to_set());
                r@.len() == if n <= elig.len() {
                    n as int
                } else {
                    elig.len() as int
                }
            }),
    {
        sample_peers(&self.passive, n, excluding, rng)
    }

    /// A uniformly random active member other than `p`; `None` exactly when
    /// every active member is `p` (or the view is empty).
    pub fn random_active_except(&self, p: &PeerId, rng: &mut XorShiftRng) -> (r: Option<PeerId>)
        requires
            self.wf(),
        ensures
            match r {
                Option::Some(q) => self.active@.contains(q) && q != *p,
                Option::None => forall|q: PeerId| self.active@.contains(q) ==> q == *p,
            },
    {
        let mut excl: Vec<PeerId> = Vec::new();
        excl.push(*p);
        let picks = sample_peers(&self.active, 1, &excl, rng);
        if picks.len() > 0 {
            let q = picks[0];
            proof {
                assert(picks@.contains(q)) by {
                    assert(picks@[0] == q);
                }
                assert(excl@.contains(*p)) by {
                    assert(excl@[0] == *p);
                }
            }
            Option::Some(q)
        } else {
            proof {
                let elig = self.active_set().difference(excl@.to_set());
                assert(elig.len() == 0);
                assert forall|q: PeerId| self.active@.contains(q) implies q == *p by {
                    if q != *p {
                        assert(!excl@.contains(q)) by {
                            if excl@.contains(q) {
                                let j = choose|j: int| 0 <= j < excl@.len() && excl@[j] == q;
                                assert(excl@[0] == *p);
                            }
                        }
                        assert(elig.contains(q));
                        vstd::set_lib::lemma_set_empty_equivalency_len(elig);
                    }
                }
            }
            Option::None
        }
    }
}

} // verus!
