//! An incremental tracker of equivalence classes (clusters) of keys.
//!
//! Keys are registered one at a time or in linked pairs; linking two keys
//! merges their clusters. At any time every registered key belongs to
//! exactly one cluster, and the final partition can be extracted.

use vstd::prelude::*;

verus! {

/// Tracks disjoint clusters of keys as links get registered.
///
/// A key's cluster is recorded as a numeric identifier; identifiers are
/// handed out from a monotonically increasing counter and never reused.
pub struct Clusterer {
    pub index: usize,
    pub keys: Vec<u64>,
    pub ids: Vec<usize>,
}

impl Clusterer {
    /// Internal consistency: one entry per key, and every cluster
    /// identifier in use was handed out by the counter.
    pub open spec fn wf(self) -> bool {
        &&& self.keys@.len() == self.ids@.len()
        &&& forall|i: int, j: int|
            0 <= i < j < self.keys@.len() ==> self.keys@[i] != self.keys@[j]
        &&& forall|i: int| 0 <= i < self.ids@.len() ==> self.ids@[i] < self.index
        &&& self.index <= self.keys@.len()
    }

    /// Whether `k` has been registered.
    pub open spec fn registered(self, k: u64) -> bool {
        self.keys@.contains(k)
    }

    /// Whether `k` is recorded as a member of cluster `id`.
    pub open spec fn has_entry(self, k: u64, id: usize) -> bool {
        exists|i: int|
            0 <= i < self.keys@.len() && self.keys@[i] == k && self.ids@[i] == id
    }

    /// The cluster identifier of a registered key.
    pub open spec fn key_id(self, k: u64) -> usize {
        choose|id: usize| self.has_entry(k, id)
    }

    /// Whether two keys are registered and lie in the same cluster.
    pub open spec fn same_cluster(self, a: u64, b: u64) -> bool {
        self.registered(a) && self.registered(b) && self.key_id(a) == self.key_id(b)
    }

    /// Every registered key belongs to exactly one cluster: it has an
    /// entry for `key_id`, and any two entries for it carry the same
    /// cluster identifier.
    pub proof fn lemma_key_id(self, k: u64)
        requires
            self.wf(),
            self.registered(k),
        ensures
            self.has_entry(k, self.key_id(k)),
            forall|id: usize| self.has_entry(k, id) ==> id == self.key_id(k),
    {
        let i = choose|i: int| 0 <= i < self.keys@.len() && self.keys@[i] == k;
        assert(self.has_entry(k, self.ids@[i]));
        assert forall|id: usize| self.has_entry(k, id) implies id == self.key_id(k) by {
            let j = choose|j: int|
                0 <= j < self.keys@.len() && self.keys@[j] == k && self.ids@[j] == id;
            let m = choose|m: int|
                0 <= m < self.keys@.len() && self.keys@[m] == k
                    && self.ids@[m] == self.key_id(k);
            assert(j == m);
        }
    }

    pub fn new() -> (c: Clusterer)
        ensures
            c.wf(),
            c.keys@ =~= Seq::<u64>::empty(),
            c.ids@ =~= Seq::<usize>::empty(),
            c.index == 0,
    {
        Clusterer { index: 0, keys: Vec::new(), ids: Vec::new() }
    }

    fn get_next_index(&mut self) -> (index: usize)
        requires
            old(self).index < usize::MAX,
        ensures
            index == old(self).index,
            final(self).index == old(self).index + 1,
            final(self).keys@ == old(self).keys@,
            final(self).ids@ == old(self).ids@,
    {
        let index = self.index;
        self.index = self.index + 1;
        index
    }

    /// Look a key up; on success the returned position carries the key's
    /// cluster identifier.
    fn find(&self, k: &u64) -> (r: Option<usize>)
        requires
            self.wf(),
        ensures
            r matches Some(i) ==> i < self.keys@.len() && self.keys@[i as int] == *k
                && self.ids@[i as int] == self.key_id(*k),
            r is Some <==> self.registered(*k),
    {
        let n = self.keys.len();
        let mut i: usize = 0;
        while i < n
            invariant
                self.wf(),
                n == self.keys@.len(),
                i <= n,
                forall|j: int| 0 <= j < i ==> self.keys@[j] != *k,
            decreases n - i,
        {
            if self.keys[i] == *k {
                proof {
                    assert(self.has_entry(*k, self.ids@[i as int]));
                    self.lemma_key_id(*k);
                }
                return Some(i);
            }
            i = i + 1;
        }
        proof {
            assert forall|j: int| 0 <= j < self.keys@.len() implies self.keys@[j] != *k by {}
        }
        None
    }

    /// Add a singular entry in the Clusterer. If the entry already exists,
    /// do nothing.
    pub fn add_single(&mut self, entry: &u64)
        requires
            old(self).wf(),
        ensures
            final(self).wf(),
            old(self).registered(*entry) ==> final(self).keys@ == old(self).keys@
                && final(self).ids@ == old(self).ids@
                && final(self).index == old(self).index,
            !old(self).registered(*entry) ==> final(self).keys@ == old(self).keys@.push(*entry)
                && final(self).ids@ == old(self).ids@.push(old(self).index)
                && final(self).index == old(self).index + 1,
            final(self).registered(*entry),
            forall|k: u64| final(self).registered(k) <==> old(self).registered(k) || k == *entry,
            forall|x: u64, y: u64|
                old(self).same_cluster(x, y) ==> final(self).same_cluster(x, y),
    {
        let found = self.find(entry);
        if found.is_none() {
            let ghost o = *self;
            self.keys.push(*entry);
            self.ids.push(self.index);
            let l = self.keys.len();
            assert(self.index < l);
            let _ = self.get_next_index();
            proof {
                assert(self.keys@ == o.keys@.push(*entry));
                assert(self.registered(*entry)) by {
                    assert(self.keys@[self.keys@.len() - 1] == *entry);
                }
                assert forall|k: u64|
                    self.registered(k) <==> o.registered(k) || k == *entry by {
                    if self.registered(k) {
                        let i = choose|i: int|
                            0 <= i < self.keys@.len() && self.keys@[i] == k;
                        if i < o.keys@.len() {
                            assert(o.keys@[i] == k);
                        }
                    }
                    if o.registered(k) {
                        let i = choose|i: int|
                            0 <= i < o.keys@.len() && o.keys@[i] == k;
                        assert(self.keys@[i] == k);
                    }
                }
                assert forall|x: u64, y: u64|
                    o.same_cluster(x, y) implies self.same_cluster(x, y) by {
                    Self::lemma_push_preserves_entries(o, *self, *entry, o.index);
                    o.lemma_key_id(x);
                    o.lemma_key_id(y);
                    self.lemma_key_id(x);
                    self.lemma_key_id(y);
                    assert(self.has_entry(x, o.key_id(x)));
                    assert(self.has_entry(y, o.key_id(y)));
                }
            }
        }
    }

    /// The state change that `add_link` makes, as a relation between the
    /// state before (`o`) and the state after (`s`).
    pub open spec fn add_link_rel(o: Clusterer, s: Clusterer, a: u64, b: u64) -> bool {
        if !o.registered(a) && !o.registered(b) {
            &&& s.index == o.index + 1
            &&& s.keys@ == (if a == b {
                o.keys@.push(a)
            } else {
                o.keys@.push(a).push(b)
            })
            &&& s.ids@ == (if a == b {
                o.ids@.push(o.index)
            } else {
                o.ids@.push(o.index).push(o.index)
            })
        } else if o.registered(a) && !o.registered(b) {
            &&& s.index == o.index
            &&& s.keys@ == o.keys@.push(b)
            &&& s.ids@ == o.ids@.push(o.key_id(a))
        } else if !o.registered(a) && o.registered(b) {
            &&& s.index == o.index
            &&& s.keys@ == o.keys@.push(a)
            &&& s.ids@ == o.ids@.push(o.key_id(b))
        } else if o.key_id(a) == o.key_id(b) {
            &&& s.index == o.index
            &&& s.keys@ == o.keys@
            &&& s.ids@ == o.ids@
        } else {
            &&& s.index == o.index
            &&& s.keys@ == o.keys@
            &&& s.ids@ == Seq::new(
                o.ids@.len(),
                |i: int| if o.ids@[i] == o.key_id(b) { o.key_id(a) } else { o.ids@[i] },
            )
        }
    }

    /// A recorded entry pins the key's cluster identifier down.
    proof fn lemma_entry_key_id(self, k: u64, id: usize)
        requires
            self.wf(),
            self.has_entry(k, id),
        ensures
            self.registered(k),
            self.key_id(k) == id,
    {
        let i = choose|i: int|
            0 <= i < self.keys@.len() && self.keys@[i] == k && self.ids@[i] == id;
        assert(self.keys@[i] == k);
        self.lemma_key_id(k);
    }

    /// Add a bidirectional link between two entries. If the entries do not
    /// exist, they are added.
    pub fn add_link(&mut self, a: &u64, b: &u64)
        requires
            old(self).wf(),
        ensures
            final(self).wf(),
            Self::add_link_rel(*old(self), *final(self), *a, *b),
            final(self).same_cluster(*a, *b),
            forall|k: u64|
                final(self).registered(k) <==> old(self).registered(k) || k == *a || k == *b,
            forall|x: u64, y: u64|
                old(self).same_cluster(x, y) ==> final(self).same_cluster(x, y),
    {
        let ghost o = *self;
        let fa = self.find(a);
        let fb = self.find(b);
        match (fa, fb) {
            (None, None) => {
                self.keys.push(*a);
                self.ids.push(self.index);
                if *b != *a {
                    self.keys.push(*b);
                    self.ids.push(self.index);
                }
                let l = self.keys.len();
                assert(self.index < l);
                let _ = self.get_next_index();
                proof {
                    Self::lemma_link_none_none(o, *self, *a, *b);
                }
            }
            (Some(ia), None) => {
                let id = self.ids[ia];
                self.keys.push(*b);
                self.ids.push(id);
                proof {
                    Self::lemma_link_one_new(o, *self, *a, *b);
                }
            }
            (None, Some(ib)) => {
                let id = self.ids[ib];
                self.keys.push(*a);
                self.ids.push(id);
                proof {
                    Self::lemma_link_one_new(o, *self, *b, *a);
                    assert(self.same_cluster(*a, *b));
                }
            }
            (Some(ia), Some(ib)) => {
                let ida = self.ids[ia];
                let idb = self.ids[ib];
                if ida != idb {
                    let n = self.ids.len();
                    let mut i: usize = 0;
                    while i < n
                        invariant
                            n == self.ids@.len(),
                            i <= n,
                            self.keys@ == o.keys@,
                            self.index == o.index,
                            ida == o.key_id(*a),
                            idb == o.key_id(*b),
                            forall|j: int| 0 <= j < i ==> self.ids@[j]
                                == (if o.ids@[j] == idb { ida } else { o.ids@[j] }),
                            forall|j: int| i <= j < n ==> self.ids@[j] == o.ids@[j],
                        decreases n - i,
                    {
                        if self.ids[i] == idb {
                            self.ids.set(i, ida);
                        }
                        i = i + 1;
                    }
                    proof {
                        assert(self.ids@ =~= Seq::new(
                            o.ids@.len(),
                            |j: int| if o.ids@[j] == o.key_id(*b) {
                                o.key_id(*a)
                            } else {
                                o.ids@[j]
                            },
                        ));
                        Self::lemma_link_merge(o, *self, *a, *b);
                    }
                } else {
                    proof {
                        o.lemma_entry_key_id(*a, ida);
                        o.lemma_entry_key_id(*b, idb);
                        assert forall|x: u64, y: u64|
                            o.same_cluster(x, y) implies self.same_cluster(x, y) by {}
                    }
                }
            }
        }
    }

    /// After linking two unregistered keys, both are registered in one
    /// fresh cluster and every earlier entry is untouched.
    proof fn lemma_link_none_none(o: Clusterer, s: Clusterer, a: u64, b: u64)
        requires
            o.wf(),
            !o.registered(a),
            !o.registered(b),
            Self::add_link_rel(o, s, a, b),
        ensures
            s.wf(),
            s.same_cluster(a, b),
            forall|k: u64| s.registered(k) <==> o.registered(k) || k == a || k == b,
            forall|x: u64, y: u64| o.same_cluster(x, y) ==> s.same_cluster(x, y),
    {
        let n = o.keys@.len() as int;
        assert forall|i: int| 0 <= i < n implies o.keys@[i] != a && o.keys@[i] != b by {
            if o.keys@[i] == a {
                assert(o.registered(a));
            }
            if o.keys@[i] == b {
                assert(o.registered(b));
            }
        }
        assert(s.wf());
        assert(s.has_entry(a, o.index)) by {
            assert(s.keys@[n] == a && s.ids@[n] == o.index);
        }
        assert(s.has_entry(b, o.index)) by {
            if a == b {
                assert(s.keys@[n] == b && s.ids@[n] == o.index);
            } else {
                assert(s.keys@[n + 1] == b && s.ids@[n + 1] == o.index);
            }
        }
        s.lemma_entry_key_id(a, o.index);
        s.lemma_entry_key_id(b, o.index);
        assert forall|k: u64|
            s.registered(k) <==> o.registered(k) || k == a || k == b by {
            if s.registered(k) {
                let i = choose|i: int| 0 <= i < s.keys@.len() && s.keys@[i] == k;
                if i < n {
                    assert(o.keys@[i] == k);
                }
            }
            if o.registered(k) {
                let i = choose|i: int| 0 <= i < o.keys@.len() && o.keys@[i] == k;
                assert(s.keys@[i] == k);
            }
        }
        assert forall|x: u64, y: u64|
            o.same_cluster(x, y) implies s.same_cluster(x, y) by {
            o.lemma_key_id(x);
            o.lemma_key_id(y);
            Self::lemma_preserved_entry(o, s, x, o.key_id(x));
            Self::lemma_preserved_entry(o, s, y, o.key_id(y));
            s.lemma_entry_key_id(x, o.key_id(x));
            s.lemma_entry_key_id(y, o.key_id(y));
        }
    }

    /// After linking a registered key `r` with an unregistered key `f`,
    /// `f` joins `r`'s cluster and every earlier entry is untouched.
    proof fn lemma_link_one_new(o: Clusterer, s: Clusterer, r: u64, f: u64)
        requires
            o.wf(),
            o.registered(r),
            !o.registered(f),
            s.index == o.index,
            s.keys@ == o.keys@.push(f),
            s.ids@ == o.ids@.push(o.key_id(r)),
        ensures
            s.wf(),
            s.same_cluster(r, f),
            forall|k: u64| s.registered(k) <==> o.registered(k) || k == r || k == f,
            forall|x: u64, y: u64| o.same_cluster(x, y) ==> s.same_cluster(x, y),
    {
        let n = o.keys@.len() as int;
        assert forall|i: int| 0 <= i < n implies o.keys@[i] != f by {
            if o.keys@[i] == f {
                assert(o.registered(f));
            }
        }
        o.lemma_key_id(r);
        assert(s.wf());
        Self::lemma_preserved_entry(o, s, r, o.key_id(r));
        assert(s.has_entry(f, o.key_id(r))) by {
            assert(s.keys@[n] == f && s.ids@[n] == o.key_id(r));
        }
        s.lemma_entry_key_id(r, o.key_id(r));
        s.lemma_entry_key_id(f, o.key_id(r));
        assert forall|k: u64|
            s.registered(k) <==> o.registered(k) || k == r || k == f by {
            if s.registered(k) {
                let i = choose|i: int| 0 <= i < s.keys@.len() && s.keys@[i] == k;
                if i < n {
                    assert(o.keys@[i] == k);
                }
            }
            if o.registered(k) {
                let i = choose|i: int| 0 <= i < o.keys@.len() && o.keys@[i] == k;
                assert(s.keys@[i] == k);
            }
        }
        assert forall|x: u64, y: u64|
            o.same_cluster(x, y) implies s.same_cluster(x, y) by {
            o.lemma_key_id(x);
            o.lemma_key_id(y);
            Self::lemma_preserved_entry(o, s, x, o.key_id(x));
            Self::lemma_preserved_entry(o, s, y, o.key_id(y));
            s.lemma_entry_key_id(x, o.key_id(x));
            s.lemma_entry_key_id(y, o.key_id(y));
        }
    }

    /// After merging `b`'s cluster into `a`'s, the two share a cluster and
    /// keys that shared a cluster before still do.
    proof fn lemma_link_merge(o: Clusterer, s: Clusterer, a: u64, b: u64)
        requires
            o.wf(),
            o.registered(a),
            o.registered(b),
            o.key_id(a) != o.key_id(b),
            s.index == o.index,
            s.keys@ == o.keys@,
            s.ids@ == Seq::new(
                o.ids@.len(),
                |i: int| if o.ids@[i] == o.key_id(b) { o.key_id(a) } else { o.ids@[i] },
            ),
        ensures
            s.wf(),
            s.same_cluster(a, b),
            forall|k: u64| s.registered(k) <==> o.registered(k) || k == a || k == b,
            forall|x: u64, y: u64| o.same_cluster(x, y) ==> s.same_cluster(x, y),
    {
        let ia = o.key_id(a);
        let ib = o.key_id(b);
        o.lemma_key_id(a);
        o.lemma_key_id(b);
        assert(o.has_entry(a, ia) && o.has_entry(b, ib));
        assert forall|i: int| 0 <= i < o.ids@.len() implies o.ids@[i] < o.index by {}
        assert(ia < o.index) by {
            let i = choose|i: int|
                0 <= i < o.keys@.len() && o.keys@[i] == a && o.ids@[i] == ia;
        }
        assert(s.wf());
        assert forall|k: u64, id: usize|
            o.has_entry(k, id) implies s.has_entry(k, if id == ib { ia } else { id }) by {
            let i = choose|i: int|
                0 <= i < o.keys@.len() && o.keys@[i] == k && o.ids@[i] == id;
            assert(s.keys@[i] == k);
            assert(s.ids@[i] == (if id == ib { ia } else { id }));
        }
        assert(s.has_entry(a, ia));
        assert(s.has_entry(b, ia));
        s.lemma_entry_key_id(a, ia);
        s.lemma_entry_key_id(b, ia);
        assert forall|x: u64, y: u64|
            o.same_cluster(x, y) implies s.same_cluster(x, y) by {
            o.lemma_key_id(x);
            o.lemma_key_id(y);
            let id = o.key_id(x);
            assert(o.has_entry(x, id) && o.has_entry(y, id));
            s.lemma_entry_key_id(x, if id == ib { ia } else { id });
            s.lemma_entry_key_id(y, if id == ib { ia } else { id });
        }
    }

    /// Consume the Clusterer to get its clusters.
    ///
    /// The returned groups partition the registered keys: every registered
    /// key appears in exactly one group at exactly one position, and two
    /// keys share a group exactly when they share a cluster.
    pub fn into_sccs(self) -> (r: Vec<Vec<u64>>)
        requires
            self.wf(),
        ensures
            forall|g: int| 0 <= g < r@.len() ==> r@[g]@.len() >= 1,
            forall|g: int, m: int|
                0 <= g < r@.len() && 0 <= m < r@[g]@.len()
                    ==> self.registered(#[trigger] r@[g]@[m]),
            forall|k: u64| self.registered(k)
                ==> exists|g: int, m: int|
                    0 <= g < r@.len() && 0 <= m < r@[g]@.len() && r@[g]@[m] == k,
            forall|g: int, m1: int, m2: int|
                0 <= g < r@.len() && 0 <= m1 < r@[g]@.len() && 0 <= m2 < r@[g]@.len()
                    ==> self.same_cluster(r@[g]@[m1], r@[g]@[m2]),
            forall|g1: int, m1: int, g2: int, m2: int|
                0 <= g1 < r@.len() && 0 <= m1 < r@[g1]@.len() && 0 <= g2 < r@.len()
                    && 0 <= m2 < r@[g2]@.len() && g1 != g2
                    ==> !self.same_cluster(r@[g1]@[m1], r@[g2]@[m2]),
            forall|g1: int, m1: int, g2: int, m2: int|
                0 <= g1 < r@.len() && 0 <= m1 < r@[g1]@.len() && 0 <= g2 < r@.len()
                    && 0 <= m2 < r@[g2]@.len() && r@[g1]@[m1] == r@[g2]@[m2]
                    ==> g1 == g2 && m1 == m2,
    {
        let n = self.keys.len();
        let mut r: Vec<Vec<u64>> = Vec::new();
        let ghost mut gids: Seq<usize> = Seq::empty();
        let mut t: usize = 0;
        while t < n
            invariant
                self.wf(),
                n == self.keys@.len(),
                t <= n,
                r@.len() == gids.len(),
                forall|g: int| 0 <= g < r@.len() ==> #[trigger] r@[g]@.len() >= 1,
                forall|g: int| 0 <= g < gids.len()
                    ==> r@[g]@ == Self::keys_with_id(self.keys@, self.ids@, #[trigger] gids[g]),
                forall|g1: int, g2: int|
                    0 <= g1 < g2 < gids.len() ==> gids[g1] != gids[g2],
                forall|g: int| 0 <= g < gids.len()
                    ==> exists|j: int| 0 <= j < t && self.ids@[j] == #[trigger] gids[g],
                forall|j: int| 0 <= j < t ==> gids.contains(#[trigger] self.ids@[j]),
            decreases n - t,
        {
            let id = self.ids[t];
            let mut seen = false;
            let mut t0: usize = 0;
            while t0 < t
                invariant
                    t0 <= t,
                    t <= self.ids@.len(),
                    seen <==> exists|j: int| 0 <= j < t0 && self.ids@[j] == id,
                decreases t - t0,
            {
                if self.ids[t0] == id {
                    seen = true;
                }
                t0 = t0 + 1;
            }
            if !seen {
                let mut grp: Vec<u64> = Vec::new();
                let mut t2: usize = 0;
                while t2 < n
                    invariant
                        self.wf(),
                        n == self.keys@.len(),
                        t2 <= n,
                        grp@ == Self::keys_with_id(
                            self.keys@.take(t2 as int),
                            self.ids@.take(t2 as int),
                            id,
                        ),
                    decreases n - t2,
                {
                    proof {
                        let ks = self.keys@.take(t2 + 1);
                        let is2 = self.ids@.take(t2 + 1);
                        assert(ks.drop_last() =~= self.keys@.take(t2 as int));
                        assert(is2.drop_last() =~= self.ids@.take(t2 as int));
                        assert(ks.last() == self.keys@[t2 as int]);
                        assert(is2.last() == self.ids@[t2 as int]);
                        assert(Self::keys_with_id(ks, is2, id) == (if is2.last() == id {
                            Self::keys_with_id(
                                self.keys@.take(t2 as int),
                                self.ids@.take(t2 as int),
                                id,
                            ).push(ks.last())
                        } else {
                            Self::keys_with_id(
                                self.keys@.take(t2 as int),
                                self.ids@.take(t2 as int),
                                id,
                            )
                        }));
                    }
                    if self.ids[t2] == id {
                        grp.push(self.keys[t2]);
                    }
                    t2 = t2 + 1;
                }
                proof {
                    assert(self.keys@.take(n as int) =~= self.keys@);
                    assert(self.ids@.take(n as int) =~= self.ids@);
                    Self::lemma_keys_with_id_members(self.keys@, self.ids@, id);
                    assert(Self::keys_with_id(self.keys@, self.ids@, id).contains(
                        self.keys@[t as int],
                    ));
                    assert(grp@.len() >= 1);
                }
                r.push(grp);
                proof {
                    let old_gids = gids;
                    gids = gids.push(id);
                    assert forall|g: int| 0 <= g < old_gids.len()
                        implies gids[g] == old_gids[g] by {}
                    assert forall|j: int| 0 <= j < t + 1
                        implies gids.contains(#[trigger] self.ids@[j]) by {
                        if self.ids@[j] == id {
                            assert(gids[gids.len() - 1] == self.ids@[j]);
                        } else {
                            assert(old_gids.contains(self.ids@[j]));
                            let g = choose|g: int|
                                0 <= g < old_gids.len() && old_gids[g] == self.ids@[j];
                            assert(gids[g] == self.ids@[j]);
                        }
                    }
                }
            } else {
                proof {
                    let j = choose|j: int| 0 <= j < t && self.ids@[j] == id;
                    assert(gids.contains(self.ids@[j]));
                }
            }
            t = t + 1;
        }
        proof {
            let groups = r@.map_values(|v: Vec<u64>| v@);
            assert(groups.len() == r@.len());
            assert forall|g: int| 0 <= g < r@.len() implies #[trigger] groups[g] == r@[g]@ by {}
            Self::lemma_sccs_shape(self, groups, gids);
            assert forall|g: int, m: int|
                0 <= g < r@.len() && 0 <= m < r@[g]@.len()
                implies self.registered(#[trigger] r@[g]@[m]) by {
                assert(groups[g][m] == r@[g]@[m]);
            }
            assert forall|k: u64| self.registered(k) implies exists|g: int, m: int|
                0 <= g < r@.len() && 0 <= m < r@[g]@.len() && r@[g]@[m] == k by {
                let (g, m) = choose|g: int, m: int|
                    0 <= g < groups.len() && 0 <= m < groups[g].len() && groups[g][m] == k;
                assert(r@[g]@[m] == k);
            }
            assert forall|g: int, m1: int, m2: int|
                0 <= g < r@.len() && 0 <= m1 < r@[g]@.len() && 0 <= m2 < r@[g]@.len()
                implies self.same_cluster(r@[g]@[m1], r@[g]@[m2]) by {
                assert(groups[g][m1] == r@[g]@[m1] && groups[g][m2] == r@[g]@[m2]);
            }
            assert forall|g1: int, m1: int, g2: int, m2: int|
                0 <= g1 < r@.len() && 0 <= m1 < r@[g1]@.len() && 0 <= g2 < r@.len()
                    && 0 <= m2 < r@[g2]@.len() && g1 != g2
                implies !self.same_cluster(r@[g1]@[m1], r@[g2]@[m2]) by {
                assert(groups[g1][m1] == r@[g1]@[m1] && groups[g2][m2] == r@[g2]@[m2]);
            }
            assert forall|g1: int, m1: int, g2: int, m2: int|
                0 <= g1 < r@.len() && 0 <= m1 < r@[g1]@.len() && 0 <= g2 < r@.len()
                    && 0 <= m2 < r@[g2]@.len() && r@[g1]@[m1] == r@[g2]@[m2]
                implies g1 == g2 && m1 == m2 by {
                assert(groups[g1][m1] == r@[g1]@[m1] && groups[g2][m2] == r@[g2]@[m2]);
            }
        }
        r
    }

    /// The keys recorded under one cluster identifier, in entry order.
    pub open spec fn keys_with_id(keys: Seq<u64>, ids: Seq<usize>, id: usize) -> Seq<u64>
        decreases keys.len(),
    {
        if keys.len() == 0 || keys.len() != ids.len() {
            Seq::empty()
        } else if ids.last() == id {
            Self::keys_with_id(keys.drop_last(), ids.drop_last(), id).push(keys.last())
        } else {
            Self::keys_with_id(keys.drop_last(), ids.drop_last(), id)
        }
    }

    /// Each member of `keys_with_id` is an entry with that identifier, and
    /// every entry with that identifier is a member.
    proof fn lemma_keys_with_id_members(keys: Seq<u64>, ids: Seq<usize>, id: usize)
        requires
            keys.len() == ids.len(),
        ensures
            forall|m: int|
                0 <= m < Self::keys_with_id(keys, ids, id).len()
                    ==> exists|i: int|
                        0 <= i < keys.len() && keys[i]
                            == #[trigger] Self::keys_with_id(keys, ids, id)[m] && ids[i] == id,
            forall|i: int| 0 <= i < ids.len() && ids[i] == id
                ==> Self::keys_with_id(keys, ids, id).contains(#[trigger] keys[i]),
        decreases keys.len(),
    {
        let f = Self::keys_with_id(keys, ids, id);
        if keys.len() == 0 {
        } else {
            let kp = keys.drop_last();
            let ip = ids.drop_last();
            let fp = Self::keys_with_id(kp, ip, id);
            Self::lemma_keys_with_id_members(kp, ip, id);
            assert forall|m: int| 0 <= m < f.len() implies exists|i: int|
                0 <= i < keys.len() && keys[i] == #[trigger] f[m] && ids[i] == id by {
                if m < fp.len() {
                    let i = choose|i: int|
                        0 <= i < kp.len() && kp[i] == fp[m] && ip[i] == id;
                    assert(keys[i] == f[m] && ids[i] == id);
                } else {
                    assert(ids.last() == id);
                    assert(f[m] == keys.last());
                    assert(keys[keys.len() - 1] == f[m] && ids[keys.len() - 1] == id);
                }
            }
            assert forall|i: int| 0 <= i < ids.len() && ids[i] == id
                implies f.contains(#[trigger] keys[i]) by {
                if i < kp.len() {
                    assert(fp.contains(kp[i]));
                    let m = choose|m: int| 0 <= m < fp.len() && fp[m] == kp[i];
                    assert(f[m] == keys[i]);
                } else {
                    assert(ids.last() == id);
                    assert(f[f.len() - 1] == keys[i]);
                }
            }
        }
    }

    /// With no duplicate keys, `keys_with_id` has no duplicates either.
    proof fn lemma_keys_with_id_nodup(keys: Seq<u64>, ids: Seq<usize>, id: usize)
        requires
            keys.len() == ids.len(),
            forall|i: int, j: int| 0 <= i < j < keys.len() ==> keys[i] != keys[j],
        ensures
            forall|m1: int, m2: int|
                0 <= m1 < m2 < Self::keys_with_id(keys, ids, id).len()
                    ==> Self::keys_with_id(keys, ids, id)[m1]
                        != Self::keys_with_id(keys, ids, id)[m2],
        decreases keys.len(),
    {
        let f = Self::keys_with_id(keys, ids, id);
        if keys.len() == 0 {
        } else {
            let kp = keys.drop_last();
            let ip = ids.drop_last();
            let fp = Self::keys_with_id(kp, ip, id);
            Self::lemma_keys_with_id_nodup(kp, ip, id);
            Self::lemma_keys_with_id_members(kp, ip, id);
            assert forall|m1: int, m2: int|
                0 <= m1 < m2 < f.len() implies f[m1] != f[m2] by {
                if m2 < fp.len() {
                } else if ids.last() == id {
                    let i = choose|i: int|
                        0 <= i < kp.len() && kp[i] == fp[m1] && ip[i] == id;
                    assert(keys[i] == f[m1]);
                    assert(f[m2] == keys.last());
                    assert(keys[i] != keys[keys.len() - 1]);
                }
            }
        }
    }

    /// Derives the partition shape of `into_sccs`'s result from the loop's
    /// closing state.
    proof fn lemma_sccs_shape(self, groups: Seq<Seq<u64>>, gids: Seq<usize>)
        requires
            self.wf(),
            groups.len() == gids.len(),
            forall|g: int| 0 <= g < gids.len()
                ==> groups[g] == Self::keys_with_id(self.keys@, self.ids@, #[trigger] gids[g]),
            forall|g1: int, g2: int| 0 <= g1 < g2 < gids.len() ==> gids[g1] != gids[g2],
            forall|j: int| 0 <= j < self.ids@.len()
                ==> gids.contains(#[trigger] self.ids@[j]),
        ensures
            forall|g: int, m: int|
                0 <= g < groups.len() && 0 <= m < groups[g].len()
                    ==> self.registered(#[trigger] groups[g][m]),
            forall|k: u64| self.registered(k)
                ==> exists|g: int, m: int|
                    0 <= g < groups.len() && 0 <= m < groups[g].len() && groups[g][m] == k,
            forall|g: int, m1: int, m2: int|
                0 <= g < groups.len() && 0 <= m1 < groups[g].len() && 0 <= m2 < groups[g].len()
                    ==> self.same_cluster(groups[g][m1], groups[g][m2]),
            forall|g1: int, m1: int, g2: int, m2: int|
                0 <= g1 < groups.len() && 0 <= m1 < groups[g1].len() && 0 <= g2 < groups.len()
                    && 0 <= m2 < groups[g2].len() && g1 != g2
                    ==> !self.same_cluster(groups[g1][m1], groups[g2][m2]),
            forall|g1: int, m1: int, g2: int, m2: int|
                0 <= g1 < groups.len() && 0 <= m1 < groups[g1].len() && 0 <= g2 < groups.len()
                    && 0 <= m2 < groups[g2].len() && groups[g1][m1] == groups[g2][m2]
                    ==> g1 == g2 && m1 == m2,
    {
        assert forall|g: int, m: int|
            0 <= g < groups.len() && 0 <= m < groups[g].len()
            implies self.registered(#[trigger] groups[g][m])
                && self.has_entry(groups[g][m], gids[g]) by {
            Self::lemma_keys_with_id_members(self.keys@, self.ids@, gids[g]);
            let i = choose|i: int|
                0 <= i < self.keys@.len() && self.keys@[i] == groups[g][m]
                    && self.ids@[i] == gids[g];
            assert(self.keys@[i] == groups[g][m]);
        }
        assert forall|k: u64| self.registered(k) implies exists|g: int, m: int|
            0 <= g < groups.len() && 0 <= m < groups[g].len() && groups[g][m] == k by {
            let i = choose|i: int| 0 <= i < self.keys@.len() && self.keys@[i] == k;
            assert(gids.contains(self.ids@[i]));
            let g = choose|g: int| 0 <= g < gids.len() && gids[g] == self.ids@[i];
            Self::lemma_keys_with_id_members(self.keys@, self.ids@, gids[g]);
            assert(groups[g].contains(self.keys@[i]));
            let m = choose|m: int| 0 <= m < groups[g].len() && groups[g][m] == k;
            assert(groups[g][m] == k);
        }
        assert forall|g: int, m1: int, m2: int|
            0 <= g < groups.len() && 0 <= m1 < groups[g].len() && 0 <= m2 < groups[g].len()
            implies self.same_cluster(groups[g][m1], groups[g][m2]) by {
            self.lemma_entry_key_id(groups[g][m1], gids[g]);
            self.lemma_entry_key_id(groups[g][m2], gids[g]);
        }
        assert forall|g1: int, m1: int, g2: int, m2: int|
            0 <= g1 < groups.len() && 0 <= m1 < groups[g1].len() && 0 <= g2 < groups.len()
                && 0 <= m2 < groups[g2].len() && g1 != g2
            implies !self.same_cluster(groups[g1][m1], groups[g2][m2]) by {
            self.lemma_entry_key_id(groups[g1][m1], gids[g1]);
            self.lemma_entry_key_id(groups[g2][m2], gids[g2]);
        }
        assert forall|g1: int, m1: int, g2: int, m2: int|
            0 <= g1 < groups.len() && 0 <= m1 < groups[g1].len() && 0 <= g2 < groups.len()
                && 0 <= m2 < groups[g2].len() && groups[g1][m1] == groups[g2][m2]
            implies g1 == g2 && m1 == m2 by {
            self.lemma_entry_key_id(groups[g1][m1], gids[g1]);
            self.lemma_entry_key_id(groups[g2][m2], gids[g2]);
            if g1 == g2 && m1 != m2 {
                Self::lemma_keys_with_id_nodup(self.keys@, self.ids@, gids[g1]);
            }
        }
    }

    /// Two trackers whose entry tables agree pointwise register the same
    /// keys and induce the same clusters.
    proof fn lemma_equal_entries_same_clusters(s1: Clusterer, s2: Clusterer)
        requires
            s1.wf(),
            s2.wf(),
            forall|k: u64, id: usize| s1.has_entry(k, id) <==> s2.has_entry(k, id),
        ensures
            forall|k: u64| s1.registered(k) <==> s2.registered(k),
            forall|x: u64, y: u64|
                #[trigger] s1.same_cluster(x, y) <==> #[trigger] s2.same_cluster(x, y),
    {
        assert forall|k: u64| s1.registered(k) <==> s2.registered(k) by {
            if s1.registered(k) {
                s1.lemma_key_id(k);
                assert(s2.has_entry(k, s1.key_id(k)));
                let i = choose|i: int|
                    0 <= i < s2.keys@.len() && s2.keys@[i] == k
                        && s2.ids@[i] == s1.key_id(k);
                assert(s2.keys@[i] == k);
            }
            if s2.registered(k) {
                s2.lemma_key_id(k);
                assert(s1.has_entry(k, s2.key_id(k)));
                let i = choose|i: int|
                    0 <= i < s1.keys@.len() && s1.keys@[i] == k
                        && s1.ids@[i] == s2.key_id(k);
                assert(s1.keys@[i] == k);
            }
        }
        assert forall|x: u64, y: u64|
            #[trigger] s1.same_cluster(x, y) <==> #[trigger] s2.same_cluster(x, y) by {
            if s1.same_cluster(x, y) {
                s1.lemma_key_id(x);
                s1.lemma_key_id(y);
                s2.lemma_entry_key_id(x, s1.key_id(x));
                s2.lemma_entry_key_id(y, s1.key_id(y));
            }
            if s2.same_cluster(x, y) {
                s2.lemma_key_id(x);
                s2.lemma_key_id(y);
                s1.lemma_entry_key_id(x, s2.key_id(x));
                s1.lemma_entry_key_id(y, s2.key_id(y));
            }
        }
    }

    /// Linking is symmetric: from one starting state, `add_link(a, b)` and
    /// `add_link(b, a)` register the same keys and induce the same final
    /// partition into clusters.
    pub proof fn lemma_add_link_symmetric(
        o: Clusterer,
        s1: Clusterer,
        s2: Clusterer,
        a: u64,
        b: u64,
    )
        requires
            o.wf(),
            s1.wf(),
            s2.wf(),
            Self::add_link_rel(o, s1, a, b),
            Self::add_link_rel(o, s2, b, a),
        ensures
            forall|k: u64| s1.registered(k) <==> s2.registered(k),
            forall|x: u64, y: u64|
                #[trigger] s1.same_cluster(x, y) <==> #[trigger] s2.same_cluster(x, y),
    {
        let n = o.keys@.len() as int;
        if !o.registered(a) && !o.registered(b) {
            if a == b {
                Self::lemma_equal_entries_same_clusters(s1, s2);
            } else {
                assert forall|k: u64, id: usize|
                    s1.has_entry(k, id) <==> s2.has_entry(k, id) by {
                    if s1.has_entry(k, id) {
                        let i = choose|i: int|
                            0 <= i < s1.keys@.len() && s1.keys@[i] == k && s1.ids@[i] == id;
                        if i < n {
                            assert(s2.keys@[i] == k && s2.ids@[i] == id);
                        } else if i == n {
                            assert(k == a && id == o.index);
                            assert(s2.keys@[n + 1] == a && s2.ids@[n + 1] == o.index);
                        } else {
                            assert(k == b && id == o.index);
                            assert(s2.keys@[n] == b && s2.ids@[n] == o.index);
                        }
                    }
                    if s2.has_entry(k, id) {
                        let i = choose|i: int|
                            0 <= i < s2.keys@.len() && s2.keys@[i] == k && s2.ids@[i] == id;
                        if i < n {
                            assert(s1.keys@[i] == k && s1.ids@[i] == id);
                        } else if i == n {
                            assert(k == b && id == o.index);
                            assert(s1.keys@[n + 1] == b && s1.ids@[n + 1] == o.index);
                        } else {
                            assert(k == a && id == o.index);
                            assert(s1.keys@[n] == a && s1.ids@[n] == o.index);
                        }
                    }
                }
                Self::lemma_equal_entries_same_clusters(s1, s2);
            }
        } else if o.registered(a) && !o.registered(b) {
            Self::lemma_equal_entries_same_clusters(s1, s2);
        } else if !o.registered(a) && o.registered(b) {
            Self::lemma_equal_entries_same_clusters(s1, s2);
        } else if o.key_id(a) == o.key_id(b) {
            Self::lemma_equal_entries_same_clusters(s1, s2);
        } else {
            let ia = o.key_id(a);
            let ib = o.key_id(b);
            assert forall|k: u64| s1.registered(k) <==> s2.registered(k) by {}
            assert forall|k: u64, id: usize| #[trigger] o.has_entry(k, id)
                implies s1.has_entry(k, if id == ib { ia } else { id })
                    && s2.has_entry(k, if id == ia { ib } else { id }) by {
                let i = choose|i: int|
                    0 <= i < o.keys@.len() && o.keys@[i] == k && o.ids@[i] == id;
                assert(s1.keys@[i] == k && s1.ids@[i] == (if id == ib { ia } else { id }));
                assert(s2.keys@[i] == k && s2.ids@[i] == (if id == ia { ib } else { id }));
            }
            assert forall|x: u64, y: u64|
                #[trigger] s1.same_cluster(x, y) <==> #[trigger] s2.same_cluster(x, y) by {
                if o.registered(x) && o.registered(y) {
                    o.lemma_key_id(x);
                    o.lemma_key_id(y);
                    let idx = o.key_id(x);
                    let idy = o.key_id(y);
                    s1.lemma_entry_key_id(x, if idx == ib { ia } else { idx });
                    s1.lemma_entry_key_id(y, if idy == ib { ia } else { idy });
                    s2.lemma_entry_key_id(x, if idx == ia { ib } else { idx });
                    s2.lemma_entry_key_id(y, if idy == ia { ib } else { idy });
                }
            }
        }
    }

    /// Whether `x` is one of two linked keys, or lies in one of their
    /// clusters.
    pub open spec fn reaches_link(o: Clusterer, a: u64, b: u64, x: u64) -> bool {
        x == a || x == b || o.same_cluster(x, a) || o.same_cluster(x, b)
    }

    /// The key at a position carries that position's cluster identifier.
    proof fn lemma_id_at(self, i: int)
        requires
            self.wf(),
            0 <= i < self.keys@.len(),
        ensures
            self.registered(self.keys@[i]),
            self.key_id(self.keys@[i]) == self.ids@[i],
    {
        assert(self.has_entry(self.keys@[i], self.ids@[i]));
        self.lemma_entry_key_id(self.keys@[i], self.ids@[i]);
    }

    /// Registering one key creates no cluster relation beyond the key's
    /// own fresh singleton cluster.
    pub proof fn lemma_add_single_sound(o: Clusterer, s: Clusterer, e: u64, x: u64, y: u64)
        requires
            o.wf(),
            s.wf(),
            o.registered(e) ==> s.keys@ == o.keys@ && s.ids@ == o.ids@,
            !o.registered(e) ==> s.keys@ == o.keys@.push(e) && s.ids@ == o.ids@.push(o.index),
            s.same_cluster(x, y),
        ensures
            o.same_cluster(x, y) || (x == e && y == e),
    {
        let n = o.keys@.len() as int;
        let ix = choose|i: int| 0 <= i < s.keys@.len() && s.keys@[i] == x;
        let iy = choose|i: int| 0 <= i < s.keys@.len() && s.keys@[i] == y;
        s.lemma_id_at(ix);
        s.lemma_id_at(iy);
        if ix < n && iy < n {
            o.lemma_id_at(ix);
            o.lemma_id_at(iy);
        } else if ix < n {
            o.lemma_id_at(ix);
            assert(o.ids@[ix] < o.index);
            assert(s.ids@[iy as int] == o.index);
            assert(false);
        } else if iy < n {
            o.lemma_id_at(iy);
            assert(o.ids@[iy] < o.index);
            assert(s.ids@[ix as int] == o.index);
            assert(false);
        } else {
            assert(x == e && y == e);
        }
    }

    /// Linking two keys creates no cluster relation beyond their own
    /// clusters: keys that share a cluster afterwards either already did,
    /// or each of them is, or shared a cluster with, one of the linked
    /// keys.
    pub proof fn lemma_add_link_sound(o: Clusterer, s: Clusterer, a: u64, b: u64, x: u64, y: u64)
        requires
            o.wf(),
            s.wf(),
            Self::add_link_rel(o, s, a, b),
            s.same_cluster(x, y),
        ensures
            o.same_cluster(x, y) || (Self::reaches_link(o, a, b, x) && Self::reaches_link(
                o,
                a,
                b,
                y,
            )),
    {
        let n = o.keys@.len() as int;
        let ix = choose|i: int| 0 <= i < s.keys@.len() && s.keys@[i] == x;
        let iy = choose|i: int| 0 <= i < s.keys@.len() && s.keys@[i] == y;
        s.lemma_id_at(ix);
        s.lemma_id_at(iy);
        if !o.registered(a) && !o.registered(b) {
            if ix < n && iy < n {
                o.lemma_id_at(ix);
                o.lemma_id_at(iy);
            } else if ix < n {
                o.lemma_id_at(ix);
                assert(o.ids@[ix] < o.index);
                assert(s.ids@[iy as int] == o.index);
                assert(false);
            } else if iy < n {
                o.lemma_id_at(iy);
                assert(o.ids@[iy] < o.index);
                assert(s.ids@[ix as int] == o.index);
                assert(false);
            } else {
                assert(x == a || x == b);
                assert(y == a || y == b);
            }
        } else if o.registered(a) && !o.registered(b) {
            if ix < n && iy < n {
                o.lemma_id_at(ix);
                o.lemma_id_at(iy);
            } else if ix < n {
                o.lemma_id_at(ix);
                assert(y == b);
                assert(s.ids@[iy as int] == o.key_id(a));
                assert(o.key_id(x) == o.key_id(a));
                assert(o.same_cluster(x, a));
            } else if iy < n {
                o.lemma_id_at(iy);
                assert(x == b);
                assert(s.ids@[ix as int] == o.key_id(a));
                assert(o.same_cluster(y, a));
            } else {
                assert(x == b && y == b);
            }
        } else if !o.registered(a) && o.registered(b) {
            if ix < n && iy < n {
                o.lemma_id_at(ix);
                o.lemma_id_at(iy);
            } else if ix < n {
                o.lemma_id_at(ix);
                assert(y == a);
                assert(s.ids@[iy as int] == o.key_id(b));
                assert(o.same_cluster(x, b));
            } else if iy < n {
                o.lemma_id_at(iy);
                assert(x == a);
                assert(s.ids@[ix as int] == o.key_id(b));
                assert(o.same_cluster(y, b));
            } else {
                assert(x == a && y == a);
            }
        } else if o.key_id(a) == o.key_id(b) {
            o.lemma_id_at(ix);
            o.lemma_id_at(iy);
        } else {
            o.lemma_key_id(a);
            o.lemma_key_id(b);
            o.lemma_id_at(ix);
            o.lemma_id_at(iy);
            let ia = o.key_id(a);
            let ib = o.key_id(b);
            let kx = o.ids@[ix];
            let ky = o.ids@[iy];
            assert(s.ids@[ix] == (if kx == ib {
                ia
            } else {
                kx
            }));
            assert(s.ids@[iy] == (if ky == ib {
                ia
            } else {
                ky
            }));
            if kx == ky {
                assert(o.same_cluster(x, y));
            } else if kx == ib {
                assert(ky == ia);
                assert(o.same_cluster(x, b) && o.same_cluster(y, a));
            } else {
                assert(ky == ib && kx == ia);
                assert(o.same_cluster(x, a) && o.same_cluster(y, b));
            }
        }
    }

    /// Entries are preserved when one fresh key is appended.
    proof fn lemma_preserved_entry(o: Clusterer, s: Clusterer, k: u64, id: usize)
        requires
            o.keys@.len() == o.ids@.len(),
            o.has_entry(k, id),
            s.keys@.len() == s.ids@.len(),
            o.keys@.len() <= s.keys@.len(),
            forall|i: int| 0 <= i < o.keys@.len() ==> s.keys@[i] == o.keys@[i]
                && s.ids@[i] == o.ids@[i],
        ensures
            s.has_entry(k, id),
    {
        let i = choose|i: int|
            0 <= i < o.keys@.len() && o.keys@[i] == k && o.ids@[i] == id;
        assert(s.keys@[i] == k && s.ids@[i] == id);
    }

    /// Appending one fresh entry keeps every earlier entry.
    proof fn lemma_push_preserves_entries(o: Clusterer, s: Clusterer, k: u64, id: usize)
        requires
            o.keys@.len() == o.ids@.len(),
            s.keys@ == o.keys@.push(k),
            s.ids@ == o.ids@.push(id),
        ensures
            forall|x: u64, xid: usize| o.has_entry(x, xid) ==> s.has_entry(x, xid),
    {
        assert forall|x: u64, xid: usize|
            o.has_entry(x, xid) implies s.has_entry(x, xid) by {
            let i = choose|i: int|
                0 <= i < o.keys@.len() && o.keys@[i] == x && o.ids@[i] == xid;
            assert(s.keys@[i] == x && s.ids@[i] == xid);
        }
    }
}

} // verus!
