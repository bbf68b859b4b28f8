//! The preference store.
//!
//! Clients are ingested as a pair of label lists; labels are interned to
//! tokens, and running per-token totals are kept of how many clients like and
//! dislike each item. The store is the input of the set-selection optimizer.

use vstd::prelude::*;

use crate::interner::{spec_intern, Interner};

verus! {

/// One client's preferences as token sets: the client is satisfied by a
/// candidate set that covers all of `likes` and touches none of `dislikes`.
pub struct Client {
    pub likes: Vec<usize>,
    pub dislikes: Vec<usize>,
}

/// The clients seen so far, the item-label interner, and per-token totals of
/// like and dislike occurrences, indexed by token with entry 0 unused.
pub struct PrefStore {
    pub items: Interner,
    pub clients: Vec<Client>,
    pub like_count: Vec<usize>,
    pub dislike_count: Vec<usize>,
}

/// A client record is well formed against a table of `n` item tokens: every
/// token in range, no token twice in one list.
pub open spec fn wf_client(c: Client, n: int) -> bool {
    &&& forall|j: int| 0 <= j < c.likes@.len() ==> 1 <= (#[trigger] c.likes@[j]) <= n
    &&& forall|j: int| 0 <= j < c.dislikes@.len() ==> 1 <= (#[trigger] c.dislikes@[j]) <= n
    &&& forall|j1: int, j2: int| 0 <= j1 < j2 < c.likes@.len() ==> c.likes@[j1] != c.likes@[j2]
    &&& forall|j1: int, j2: int|
        0 <= j1 < j2 < c.dislikes@.len() ==> c.dislikes@[j1] != c.dislikes@[j2]
}

/// How many of `clients` like item `t`.
pub open spec fn n_likers(clients: Seq<Client>, t: usize) -> nat
    decreases clients.len(),
{
    if clients.len() == 0 {
        0
    } else {
        n_likers(clients.drop_last(), t) + if clients.last().likes@.contains(t) {
            1nat
        } else {
            0nat
        }
    }
}

/// How many of `clients` dislike item `t`.
pub open spec fn n_dislikers(clients: Seq<Client>, t: usize) -> nat
    decreases clients.len(),
{
    if clients.len() == 0 {
        0
    } else {
        n_dislikers(clients.drop_last(), t) + if clients.last().dislikes@.contains(t) {
            1nat
        } else {
            0nat
        }
    }
}

pub proof fn lemma_n_likers_le(clients: Seq<Client>, t: usize)
    ensures
        n_likers(clients, t) <= clients.len(),
        n_dislikers(clients, t) <= clients.len(),
    decreases clients.len(),
{
    if clients.len() > 0 {
        lemma_n_likers_le(clients.drop_last(), t);
    }
}

/// A token outside every client's range is liked and disliked by nobody.
pub proof fn lemma_counts_zero_above(clients: Seq<Client>, t: usize, n: int)
    requires
        forall|i: int| 0 <= i < clients.len() ==> wf_client(#[trigger] clients[i], n),
        t > n,
    ensures
        n_likers(clients, t) == 0,
        n_dislikers(clients, t) == 0,
    decreases clients.len(),
{
    if clients.len() > 0 {
        let c = clients.last();
        assert(wf_client(clients[clients.len() - 1], n));
        if c.likes@.contains(t) {
            let j = choose|j: int| 0 <= j < c.likes@.len() && c.likes@[j] == t;
            assert(false);
        }
        if c.dislikes@.contains(t) {
            let j = choose|j: int| 0 <= j < c.dislikes@.len() && c.dislikes@[j] == t;
            assert(false);
        }
        assert(forall|i: int| 0 <= i < clients.len() - 1 ==> clients.drop_last()[i] == clients[i]);
        lemma_counts_zero_above(clients.drop_last(), t, n);
    }
}

/// Interning a list of labels left to right: the final name table and the
/// tokens, in list order.
pub open spec fn spec_intern_labels(
    names: Seq<Seq<char>>,
    labels: Seq<Seq<char>>,
) -> (Seq<Seq<char>>, Seq<usize>)
    decreases labels.len(),
{
    if labels.len() == 0 {
        (names, Seq::empty())
    } else {
        let r = spec_intern_labels(names, labels.drop_last());
        let s = spec_intern(r.0, labels.last());
        (s.0, r.1.push(s.1 as usize))
    }
}

impl PrefStore {
    /// How many item tokens are in use.
    pub open spec fn n_items(&self) -> int {
        self.items@.len() as int
    }

    /// The store invariant: the interner is sound, every client is well
    /// formed, and the count tables carry, for every token, exactly how many
    /// clients like and dislike it.
    pub open spec fn wf(&self) -> bool {
        &&& self.items.wf()
        &&& self.like_count@.len() == self.n_items() + 1
        &&& self.dislike_count@.len() == self.n_items() + 1
        &&& forall|i: int|
            0 <= i < self.clients@.len() ==> wf_client(#[trigger] self.clients@[i], self.n_items())
        &&& forall|t: int|
            0 <= t < self.like_count@.len() ==> (#[trigger] self.like_count@[t]) == n_likers(
                self.clients@,
                t as usize,
            )
        &&& forall|t: int|
            0 <= t < self.dislike_count@.len() ==> (#[trigger] self.dislike_count@[t])
                == n_dislikers(self.clients@, t as usize)
    }

    pub fn new() -> (r: PrefStore)
        ensures
            r.wf(),
            r.items@ =~= Seq::<Seq<char>>::empty(),
            r.clients@ =~= Seq::<Client>::empty(),
    {
        let mut like_count: Vec<usize> = Vec::new();
        like_count.push(0);
        let mut dislike_count: Vec<usize> = Vec::new();
        dislike_count.push(0);
        let r = PrefStore { items: Interner::new(), clients: Vec::new(), like_count, dislike_count };
        proof {
            assert(n_likers(r.clients@, 0) == 0);
            assert(n_dislikers(r.clients@, 0) == 0);
        }
        r
    }

    /// Interns each label, padding the count tables with zero entries for the
    /// tokens that are new.
    fn intern_labels(&mut self, labels: Vec<String>) -> (toks: Vec<usize>)
        requires
            old(self).wf(),
            old(self).items@.len() + labels@.len() < usize::MAX,
        ensures
            final(self).wf(),
            final(self).clients == old(self).clients,
            (final(self).items@, toks@) == spec_intern_labels(old(self).items@, labels.deep_view()),
            toks@.len() == labels@.len(),
            old(self).items@.len() <= final(self).items@.len() <= old(self).items@.len()
                + labels@.len(),
            forall|k: int|
                0 <= k < old(self).items@.len() ==> final(self).items@[k] == old(self).items@[k],
            forall|j: int|
                0 <= j < toks@.len() ==> 1 <= (#[trigger] toks@[j]) <= final(self).n_items()
                    && final(self).items@[toks@[j] - 1] == labels.deep_view()[j],
    {
        let ghost names0 = self.items@;
        let ghost lab = labels.deep_view();
        let m = labels.len();
        let mut toks: Vec<usize> = Vec::new();
        let mut i: usize = 0;
        while i < m
            invariant
                i <= m,
                m == labels@.len(),
                lab == labels.deep_view(),
                names0 == old(self).items@,
                self.clients == old(self).clients,
                self.wf(),
                toks@.len() == i,
                (self.items@, toks@) == spec_intern_labels(names0, lab.take(i as int)),
                names0.len() <= self.items@.len() <= names0.len() + i,
                names0.len() + m < usize::MAX,
                forall|k: int| 0 <= k < names0.len() ==> self.items@[k] == names0[k],
                forall|j: int|
                    0 <= j < i ==> 1 <= (#[trigger] toks@[j]) <= self.n_items()
                        && self.items@[toks@[j] - 1] == lab[j],
            decreases m - i,
        {
            proof {
                assert(lab[i as int] == labels@[i as int]@);
            }
            let label = labels[i].clone();
            let ghost pre_names = self.items@;
            let ghost pre_clients = self.clients@;
            let t = self.items.intern(label);
            if t == self.like_count.len() {
                self.like_count.push(0);
                self.dislike_count.push(0);
                proof {
                    lemma_counts_zero_above(self.clients@, t, pre_names.len() as int);
                }
            }
            toks.push(t);
            i = i + 1;
            proof {
                assert(lab.take(i as int).drop_last() =~= lab.take(i - 1));
                assert(lab.take(i as int).last() == lab[i - 1]);
                assert((self.items@, toks@) == spec_intern_labels(names0, lab.take(i as int)));
                assert forall|k: int| 0 <= k < names0.len() implies self.items@[k] == names0[k] by {
                    assert(self.items@[k] == pre_names[k]);
                }
                assert forall|ii: int| 0 <= ii < self.clients@.len() implies wf_client(
                    #[trigger] self.clients@[ii],
                    self.n_items(),
                ) by {
                    assert(wf_client(pre_clients[ii], pre_names.len() as int));
                }
            }
        }
        proof {
            assert(lab.take(m as int) =~= lab);
        }
        toks
    }

    /// Records one client: interns the liked and disliked labels, counts one
    /// like and one dislike occurrence per distinct item, and appends the
    /// client's token sets. Each list names an item at most once, as the
    /// lists stand for sets.
    pub fn add_client(&mut self, likes: Vec<String>, dislikes: Vec<String>)
        requires
            old(self).wf(),
            forall|j1: int, j2: int| 0 <= j1 < j2 < likes@.len() ==> likes@[j1]@ != likes@[j2]@,
            forall|j1: int, j2: int|
                0 <= j1 < j2 < dislikes@.len() ==> dislikes@[j1]@ != dislikes@[j2]@,
            old(self).items@.len() + likes@.len() + dislikes@.len() < usize::MAX,
            old(self).clients@.len() < usize::MAX,
        ensures
            final(self).wf(),
            ({
                let r1 = spec_intern_labels(old(self).items@, likes.deep_view());
                let r2 = spec_intern_labels(r1.0, dislikes.deep_view());
                &&& final(self).items@ == r2.0
                &&& final(self).clients@.len() == old(self).clients@.len() + 1
                &&& forall|i: int|
                    0 <= i < old(self).clients@.len() ==> final(self).clients@[i] == old(
                        self,
                    ).clients@[i]
                &&& final(self).clients@.last().likes@ == r1.1
                &&& final(self).clients@.last().dislikes@ == r2.1
            }),
    {
        let ghost lab1 = likes.deep_view();
        let ghost lab2 = dislikes.deep_view();
        proof {
            assert forall|j1: int, j2: int| 0 <= j1 < j2 < lab1.len() implies lab1[j1]
                != lab1[j2] by {
                assert(lab1[j1] == likes@[j1]@);
                assert(lab1[j2] == likes@[j2]@);
            }
            assert forall|j1: int, j2: int| 0 <= j1 < j2 < lab2.len() implies lab2[j1]
                != lab2[j2] by {
                assert(lab2[j1] == dislikes@[j1]@);
                assert(lab2[j2] == dislikes@[j2]@);
            }
        }
        let lt = self.intern_labels(likes);
        let ghost mid_items = self.items@;
        let dt = self.intern_labels(dislikes);
        proof {
            // The tokens of each list are pairwise distinct, because they
            // point at pairwise distinct labels.
            assert forall|j1: int, j2: int| 0 <= j1 < j2 < lt@.len() implies lt@[j1] != lt@[j2] by {
                assert(mid_items[lt@[j1] - 1] == lab1[j1]);
                assert(mid_items[lt@[j2] - 1] == lab1[j2]);
                assert(self.items@[lt@[j1] - 1] == mid_items[lt@[j1] - 1]);
                assert(self.items@[lt@[j2] - 1] == mid_items[lt@[j2] - 1]);
            }
            assert forall|j1: int, j2: int| 0 <= j1 < j2 < dt@.len() implies dt@[j1] != dt@[j2] by {
                assert(self.items@[dt@[j1] - 1] == lab2[j1]);
                assert(self.items@[dt@[j2] - 1] == lab2[j2]);
            }
            assert forall|j: int| 0 <= j < lt@.len() implies 1 <= (#[trigger] lt@[j])
                <= self.n_items() by {
                assert(mid_items[lt@[j] - 1] == lab1[j]);
            }
        }
        let ghost clients0 = self.clients@;
        let ghost lc0 = self.like_count@;
        let ghost dc0 = self.dislike_count@;
        let ghost items1 = self.items@;
        let ghost n = self.n_items();
        let m1 = lt.len();
        let mut j: usize = 0;
        while j < m1
            invariant
                j <= m1,
                m1 == lt@.len(),
                clients0 == self.clients@,
                clients0.len() < usize::MAX,
                items1 == self.items@,
                dc0 == self.dislike_count@,
                n == self.n_items(),
                lc0.len() == n + 1,
                self.like_count@.len() == lc0.len(),
                forall|k: int| 0 <= k < m1 ==> 1 <= (#[trigger] lt@[k]) <= n,
                forall|k1: int, k2: int| 0 <= k1 < k2 < m1 ==> lt@[k1] != lt@[k2],
                forall|t: int|
                    0 <= t < lc0.len() ==> (#[trigger] lc0[t]) == n_likers(clients0, t as usize),
                forall|t: int|
                    0 <= t < self.like_count@.len() ==> (#[trigger] self.like_count@[t]) == lc0[t]
                        + (if lt@.take(j as int).contains(t as usize) {
                        1int
                    } else {
                        0int
                    }),
            decreases m1 - j,
        {
            let t = lt[j];
            proof {
                assert forall|k: int| 0 <= k < j implies lt@.take(j as int)[k] != t by {}
                assert(!lt@.take(j as int).contains(t));
                lemma_n_likers_le(clients0, t);
                assert(self.like_count@[t as int] == lc0[t as int]);
            }
            let v = self.like_count[t];
            self.like_count[t] = v + 1;
            j = j + 1;
            proof {
                let pre = lt@.take(j - 1);
                let cur = lt@.take(j as int);
                assert(cur =~= pre.push(t));
                assert forall|tt: int|
                    0 <= tt < self.like_count@.len() implies (#[trigger] self.like_count@[tt])
                        == lc0[tt] + (if cur.contains(tt as usize) {
                        1int
                    } else {
                        0int
                    }) by {
                    if tt == t as int {
                        assert(cur.last() == t);
                        assert(cur.contains(t));
                    } else {
                        vstd::std_specs::vec::axiom_spec_len(&self.like_count);
                        assert(tt as usize as int == tt);
                        if cur.contains(tt as usize) {
                            let k = choose|k: int| 0 <= k < cur.len() && cur[k] == tt as usize;
                            assert(k != cur.len() - 1);
                            assert(pre[k] == tt as usize);
                            assert(pre.contains(tt as usize));
                        }
                        if pre.contains(tt as usize) {
                            let k = choose|k: int| 0 <= k < pre.len() && pre[k] == tt as usize;
                            assert(cur[k] == tt as usize);
                        }
                    }
                }
            }
        }
        proof {
            assert(lt@.take(m1 as int) =~= lt@);
        }
        let ghost lc1 = self.like_count@;
        let m2 = dt.len();
        j = 0;
        while j < m2
            invariant
                j <= m2,
                m2 == dt@.len(),
                clients0 == self.clients@,
                clients0.len() < usize::MAX,
                items1 == self.items@,
                lc1 == self.like_count@,
                n == self.n_items(),
                dc0.len() == n + 1,
                self.dislike_count@.len() == dc0.len(),
                forall|k: int| 0 <= k < m2 ==> 1 <= (#[trigger] dt@[k]) <= n,
                forall|k1: int, k2: int| 0 <= k1 < k2 < m2 ==> dt@[k1] != dt@[k2],
                forall|t: int|
                    0 <= t < dc0.len() ==> (#[trigger] dc0[t]) == n_dislikers(clients0, t as usize),
                forall|t: int|
                    0 <= t < self.dislike_count@.len() ==> (#[trigger] self.dislike_count@[t])
                        == dc0[t] + (if dt@.take(j as int).contains(t as usize) {
                        1int
                    } else {
                        0int
                    }),
            decreases m2 - j,
        {
            let t = dt[j];
            proof {
                assert forall|k: int| 0 <= k < j implies dt@.take(j as int)[k] != t by {}
                assert(!dt@.take(j as int).contains(t));
                lemma_n_likers_le(clients0, t);
                assert(self.dislike_count@[t as int] == dc0[t as int]);
            }
            let v = self.dislike_count[t];
            self.dislike_count[t] = v + 1;
            j = j + 1;
            proof {
                let pre = dt@.take(j - 1);
                let cur = dt@.take(j as int);
                assert(cur =~= pre.push(t));
                assert forall|tt: int|
                    0 <= tt < self.dislike_count@.len() implies (#[trigger] self.dislike_count@[tt])
                        == dc0[tt] + (if cur.contains(tt as usize) {
                        1int
                    } else {
                        0int
                    }) by {
                    if tt == t as int {
                        assert(cur.last() == t);
                        assert(cur.contains(t));
                    } else {
                        vstd::std_specs::vec::axiom_spec_len(&self.dislike_count);
                        assert(tt as usize as int == tt);
                        if cur.contains(tt as usize) {
                            let k = choose|k: int| 0 <= k < cur.len() && cur[k] == tt as usize;
                            assert(k != cur.len() - 1);
                            assert(pre[k] == tt as usize);
                            assert(pre.contains(tt as usize));
                        }
                        if pre.contains(tt as usize) {
                            let k = choose|k: int| 0 <= k < pre.len() && pre[k] == tt as usize;
                            assert(cur[k] == tt as usize);
                        }
                    }
                }
            }
        }
        proof {
            assert(dt@.take(m2 as int) =~= dt@);
        }
        let c = Client { likes: lt, dislikes: dt };
        self.clients.push(c);
        proof {
            assert(self.clients@.drop_last() =~= clients0);
            assert(self.clients@.last() == c);
            assert forall|t: int|
                0 <= t < self.like_count@.len() implies (#[trigger] self.like_count@[t])
                    == n_likers(self.clients@, t as usize) by {
                assert(n_likers(self.clients@, t as usize) == n_likers(clients0, t as usize)
                    + if c.likes@.contains(t as usize) {
                    1nat
                } else {
                    0nat
                });
            }
            assert forall|t: int|
                0 <= t < self.dislike_count@.len() implies (#[trigger] self.dislike_count@[t])
                    == n_dislikers(self.clients@, t as usize) by {
                assert(n_dislikers(self.clients@, t as usize) == n_dislikers(clients0, t as usize)
                    + if c.dislikes@.contains(t as usize) {
                    1nat
                } else {
                    0nat
                });
            }
            assert forall|i: int| 0 <= i < self.clients@.len() implies wf_client(
                #[trigger] self.clients@[i],
                n,
            ) by {
                if i < clients0.len() {
                    assert(self.clients@[i] == clients0[i]);
                }
            }
        }
    }
}

} // verus!
