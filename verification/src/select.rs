//! The set-selection optimizer.
//!
//! From a [`PrefStore`] it builds a candidate set of item tokens in two
//! stages: a construction pass keeps every token whose like count is at least
//! its dislike count ([`PrefStore::simple_solution`]), and a refinement pass
//! tries single-token removals (most-disliked first) and then single-token
//! additions, keeping exactly the moves that strictly raise the score
//! ([`PrefStore::advanced_solution`]). The score of a candidate set is the
//! number of clients whose likes it covers and whose dislikes it avoids
//! ([`PrefStore::measure`]).

use vstd::prelude::*;

use crate::prefs::{n_dislikers, n_likers, Client, PrefStore};

verus! {

/// The candidate set `cand` (indexed by token) holds token `t`.
pub open spec fn cand_has(cand: Seq<bool>, t: usize) -> bool {
    t < cand.len() && cand[t as int]
}

/// Client `c` is satisfied by `cand`: all likes in, no dislike in.
pub open spec fn sat_client(c: Client, cand: Seq<bool>) -> bool {
    &&& forall|j: int| 0 <= j < c.likes@.len() ==> cand_has(cand, #[trigger] c.likes@[j])
    &&& forall|j: int| 0 <= j < c.dislikes@.len() ==> !cand_has(cand, #[trigger] c.dislikes@[j])
}

/// The simple satisfaction rule of the construction phase: all likes in,
/// dislikes ignored.
pub open spec fn sat_simple(c: Client, cand: Seq<bool>) -> bool {
    forall|j: int| 0 <= j < c.likes@.len() ==> cand_has(cand, #[trigger] c.likes@[j])
}

/// How many of `clients` the candidate set satisfies.
pub open spec fn measure_rec(clients: Seq<Client>, cand: Seq<bool>) -> nat
    decreases clients.len(),
{
    if clients.len() == 0 {
        0
    } else {
        measure_rec(clients.drop_last(), cand) + if sat_client(clients.last(), cand) {
            1nat
        } else {
            0nat
        }
    }
}

/// How many of `clients` the candidate set satisfies under the simple rule.
pub open spec fn measure_simple_rec(clients: Seq<Client>, cand: Seq<bool>) -> nat
    decreases clients.len(),
{
    if clients.len() == 0 {
        0
    } else {
        measure_simple_rec(clients.drop_last(), cand) + if sat_simple(clients.last(), cand) {
            1nat
        } else {
            0nat
        }
    }
}

/// The construction-phase candidate set: token `t` is in exactly when it is
/// liked at least once and liked at least as often as it is disliked.
pub open spec fn spec_simple(store: PrefStore) -> Seq<bool> {
    Seq::new(
        (store.n_items() + 1) as nat,
        |t: int|
            t >= 1 && n_likers(store.clients@, t as usize) >= 1 && n_likers(
                store.clients@,
                t as usize,
            ) >= n_dislikers(store.clients@, t as usize),
    )
}

/// One removal trial: drop `t` when that strictly raises the score, else
/// keep the set as it is.
pub open spec fn try_remove(clients: Seq<Client>, cand: Seq<bool>, t: usize) -> Seq<bool> {
    let c2 = cand.update(t as int, false);
    if measure_rec(clients, c2) > measure_rec(clients, cand) {
        c2
    } else {
        cand
    }
}

/// One addition trial: add `t` when that strictly raises the score, else
/// keep the set as it is.
pub open spec fn try_add(clients: Seq<Client>, cand: Seq<bool>, t: usize) -> Seq<bool> {
    let c2 = cand.update(t as int, true);
    if measure_rec(clients, c2) > measure_rec(clients, cand) {
        c2
    } else {
        cand
    }
}

/// The removal sweep: each token of `order` is tried once, left to right.
pub open spec fn remove_pass(clients: Seq<Client>, cand: Seq<bool>, order: Seq<usize>) -> Seq<bool>
    decreases order.len(),
{
    if order.len() == 0 {
        cand
    } else {
        try_remove(clients, remove_pass(clients, cand, order.drop_last()), order.last())
    }
}

/// The addition sweep: each token of `order` is tried once, left to right.
pub open spec fn add_pass(clients: Seq<Client>, cand: Seq<bool>, order: Seq<usize>) -> Seq<bool>
    decreases order.len(),
{
    if order.len() == 0 {
        cand
    } else {
        try_add(clients, add_pass(clients, cand, order.drop_last()), order.last())
    }
}

/// Token `a` is tried for removal before token `b`: it is disliked more
/// often, or equally often with the higher token number.
pub open spec fn heavier(dcs: Seq<usize>, a: usize, b: usize) -> bool {
    dcs[a as int] > dcs[b as int] || (dcs[a as int] == dcs[b as int] && a > b)
}

/// The position in `s` of the token that is tried first; the earliest such
/// position on an exact tie.
pub open spec fn heavy_pos(dcs: Seq<usize>, s: Seq<usize>) -> int
    decreases s.len(),
{
    if s.len() <= 1 {
        0
    } else {
        let p = heavy_pos(dcs, s.drop_last());
        if heavier(dcs, s.last(), s[p]) {
            s.len() - 1
        } else {
            p
        }
    }
}

pub proof fn lemma_heavy_pos_in_range(dcs: Seq<usize>, s: Seq<usize>)
    requires
        s.len() >= 1,
    ensures
        0 <= heavy_pos(dcs, s) < s.len(),
    decreases s.len(),
{
    if s.len() > 1 {
        lemma_heavy_pos_in_range(dcs, s.drop_last());
    }
}

/// The order in which the removal sweep tries the tokens of `s`: repeatedly
/// pull out the most-disliked remaining token.
pub open spec fn removal_order(dcs: Seq<usize>, s: Seq<usize>) -> Seq<usize>
    decreases s.len(),
    via removal_order_decreases
{
    if s.len() == 0 {
        Seq::empty()
    } else {
        let p = heavy_pos(dcs, s);
        seq![s[p]] + removal_order(dcs, s.remove(p))
    }
}

#[via_fn]
proof fn removal_order_decreases(dcs: Seq<usize>, s: Seq<usize>) {
    if s.len() > 0 {
        lemma_heavy_pos_in_range(dcs, s);
    }
}

/// The removal order keeps length and draws its entries from `s`.
pub proof fn lemma_removal_order_elements(dcs: Seq<usize>, s: Seq<usize>)
    ensures
        removal_order(dcs, s).len() == s.len(),
        forall|k: int| 0 <= k < s.len() ==> s.contains(#[trigger] removal_order(dcs, s)[k]),
    decreases s.len(),
{
    if s.len() > 0 {
        let p = heavy_pos(dcs, s);
        lemma_heavy_pos_in_range(dcs, s);
        let rest = s.remove(p);
        lemma_removal_order_elements(dcs, rest);
        let r = removal_order(dcs, s);
        assert forall|k: int| 0 <= k < s.len() implies s.contains(#[trigger] r[k]) by {
            if k == 0 {
                assert(r[0] == s[p]);
            } else {
                assert(r[k] == removal_order(dcs, rest)[k - 1]);
                assert(rest.contains(r[k]));
                let j = choose|j: int| 0 <= j < rest.len() && rest[j] == r[k];
                if j < p {
                    assert(s[j] == rest[j]);
                } else {
                    assert(s[j + 1] == rest[j]);
                }
            }
        }
    }
}

/// The tokens under `k` that are in the candidate set, ascending.
pub open spec fn members_up_to(cand: Seq<bool>, k: int) -> Seq<usize>
    decreases k,
{
    if k <= 0 {
        Seq::empty()
    } else {
        members_up_to(cand, k - 1) + if cand[k - 1] {
            seq![(k - 1) as usize]
        } else {
            Seq::empty()
        }
    }
}

/// The tokens from 1 under `k` that are not in the candidate set, ascending.
pub open spec fn nonmembers_up_to(cand: Seq<bool>, k: int) -> Seq<usize>
    decreases k,
{
    if k <= 1 {
        Seq::empty()
    } else {
        nonmembers_up_to(cand, k - 1) + if !cand[k - 1] {
            seq![(k - 1) as usize]
        } else {
            Seq::empty()
        }
    }
}

/// The refined candidate set: start from the constructed one, sweep removals
/// over its members in decreasing dislike order, then sweep additions over
/// the complement in ascending token order, keeping exactly the strictly
/// improving moves.
pub open spec fn spec_advanced(store: PrefStore) -> Seq<bool> {
    let s0 = spec_simple(store);
    let order = removal_order(store.dislike_count@, members_up_to(s0, s0.len() as int));
    let s1 = remove_pass(store.clients@, s0, order);
    add_pass(store.clients@, s1, nonmembers_up_to(s1, s1.len() as int))
}

/// Law: a refinement move never lowers the score, a move that changes the
/// set strictly raises it, and a move that does not strictly raise the
/// score is rejected and leaves the set unchanged.
pub proof fn lemma_refine_move(clients: Seq<Client>, cand: Seq<bool>, t: usize)
    ensures
        measure_rec(clients, try_remove(clients, cand, t)) >= measure_rec(clients, cand),
        try_remove(clients, cand, t) != cand ==> measure_rec(clients, try_remove(clients, cand, t))
            > measure_rec(clients, cand),
        measure_rec(clients, cand.update(t as int, false)) <= measure_rec(clients, cand)
            ==> try_remove(clients, cand, t) == cand,
        measure_rec(clients, try_add(clients, cand, t)) >= measure_rec(clients, cand),
        try_add(clients, cand, t) != cand ==> measure_rec(clients, try_add(clients, cand, t))
            > measure_rec(clients, cand),
        measure_rec(clients, cand.update(t as int, true)) <= measure_rec(clients, cand)
            ==> try_add(clients, cand, t) == cand,
{
}

/// The removal sweep never lowers the score.
pub proof fn lemma_remove_pass_monotone(clients: Seq<Client>, cand: Seq<bool>, order: Seq<usize>)
    ensures
        measure_rec(clients, remove_pass(clients, cand, order)) >= measure_rec(clients, cand),
    decreases order.len(),
{
    if order.len() > 0 {
        lemma_remove_pass_monotone(clients, cand, order.drop_last());
        lemma_refine_move(clients, remove_pass(clients, cand, order.drop_last()), order.last());
    }
}

/// The addition sweep never lowers the score.
pub proof fn lemma_add_pass_monotone(clients: Seq<Client>, cand: Seq<bool>, order: Seq<usize>)
    ensures
        measure_rec(clients, add_pass(clients, cand, order)) >= measure_rec(clients, cand),
    decreases order.len(),
{
    if order.len() > 0 {
        lemma_add_pass_monotone(clients, cand, order.drop_last());
        lemma_refine_move(clients, add_pass(clients, cand, order.drop_last()), order.last());
    }
}

/// Law: the refined solution never scores below the constructed one.
pub proof fn lemma_advanced_at_least_simple(store: PrefStore)
    ensures
        measure_rec(store.clients@, spec_advanced(store)) >= measure_rec(
            store.clients@,
            spec_simple(store),
        ),
{
    let s0 = spec_simple(store);
    let order = removal_order(store.dislike_count@, members_up_to(s0, s0.len() as int));
    let s1 = remove_pass(store.clients@, s0, order);
    lemma_remove_pass_monotone(store.clients@, s0, order);
    lemma_add_pass_monotone(store.clients@, s1, nonmembers_up_to(s1, s1.len() as int));
}

/// Whether `cand` satisfies one client: covers all likes, avoids all
/// dislikes.
fn client_satisfied(c: &Client, cand: &Vec<bool>) -> (b: bool)
    ensures
        b == sat_client(*c, cand@),
{
    let nl = c.likes.len();
    let mut j: usize = 0;
    while j < nl
        invariant
            j <= nl,
            nl == c.likes@.len(),
            forall|k: int| 0 <= k < j ==> cand_has(cand@, #[trigger] c.likes@[k]),
        decreases nl - j,
    {
        let t = c.likes[j];
        if !(t < cand.len() && cand[t]) {
            return false;
        }
        j = j + 1;
    }
    let nd = c.dislikes.len();
    j = 0;
    while j < nd
        invariant
            j <= nd,
            nd == c.dislikes@.len(),
            forall|k: int| 0 <= k < j ==> !cand_has(cand@, #[trigger] c.dislikes@[k]),
            forall|k: int| 0 <= k < c.likes@.len() ==> cand_has(cand@, #[trigger] c.likes@[k]),
        decreases nd - j,
    {
        let t = c.dislikes[j];
        if t < cand.len() && cand[t] {
            return false;
        }
        j = j + 1;
    }
    true
}

/// Whether `cand` satisfies one client under the simple rule: covers all
/// likes.
fn client_satisfied_simple(c: &Client, cand: &Vec<bool>) -> (b: bool)
    ensures
        b == sat_simple(*c, cand@),
{
    let nl = c.likes.len();
    let mut j: usize = 0;
    while j < nl
        invariant
            j <= nl,
            nl == c.likes@.len(),
            forall|k: int| 0 <= k < j ==> cand_has(cand@, #[trigger] c.likes@[k]),
        decreases nl - j,
    {
        let t = c.likes[j];
        if !(t < cand.len() && cand[t]) {
            return false;
        }
        j = j + 1;
    }
    true
}

impl PrefStore {
    /// The score of a candidate set: how many clients it satisfies, counting
    /// a client whose likes it covers and whose dislikes it avoids.
    pub fn measure(&self, cand: &Vec<bool>) -> (m: usize)
        ensures
            m == measure_rec(self.clients@, cand@),
    {
        let nc = self.clients.len();
        let mut m: usize = 0;
        let mut i: usize = 0;
        while i < nc
            invariant
                i <= nc,
                nc == self.clients@.len(),
                m <= i,
                m == measure_rec(self.clients@.take(i as int), cand@),
            decreases nc - i,
        {
            let c = &self.clients[i];
            let s = client_satisfied(c, cand);
            if s {
                m = m + 1;
            }
            i = i + 1;
            proof {
                let cur = self.clients@.take(i as int);
                assert(cur.drop_last() =~= self.clients@.take(i - 1));
                assert(cur.last() == self.clients@[i - 1]);
            }
        }
        proof {
            assert(self.clients@.take(nc as int) =~= self.clients@);
        }
        m
    }

    /// The score of a candidate set under the simple rule, which ignores
    /// dislikes: the construction phase's intentional simplification.
    pub fn measure_simple(&self, cand: &Vec<bool>) -> (m: usize)
        ensures
            m == measure_simple_rec(self.clients@, cand@),
    {
        let nc = self.clients.len();
        let mut m: usize = 0;
        let mut i: usize = 0;
        while i < nc
            invariant
                i <= nc,
                nc == self.clients@.len(),
                m <= i,
                m == measure_simple_rec(self.clients@.take(i as int), cand@),
            decreases nc - i,
        {
            let c = &self.clients[i];
            let s = client_satisfied_simple(c, cand);
            if s {
                m = m + 1;
            }
            i = i + 1;
            proof {
                let cur = self.clients@.take(i as int);
                assert(cur.drop_last() =~= self.clients@.take(i - 1));
                assert(cur.last() == self.clients@[i - 1]);
            }
        }
        proof {
            assert(self.clients@.take(nc as int) =~= self.clients@);
        }
        m
    }

    /// The construction pass: keep every token that at least one client
    /// likes and that is liked at least as often as it is disliked.
    pub fn simple_solution(&self) -> (cand: Vec<bool>)
        requires
            self.wf(),
        ensures
            cand@ == spec_simple(*self),
            cand@.len() == self.n_items() + 1,
    {
        let n1 = self.like_count.len();
        let mut cand: Vec<bool> = Vec::new();
        let mut t: usize = 0;
        while t < n1
            invariant
                t <= n1,
                self.wf(),
                n1 == self.like_count@.len(),
                cand@.len() == t,
                forall|k: int| 0 <= k < t ==> cand@[k] == (k >= 1 && n_likers(self.clients@, k as usize)
                    >= 1 && n_likers(self.clients@, k as usize) >= n_dislikers(
                    self.clients@,
                    k as usize,
                )),
            decreases n1 - t,
        {
            let lc = self.like_count[t];
            let dc = self.dislike_count[t];
            let keep = t >= 1 && lc >= 1 && lc >= dc;
            cand.push(keep);
            t = t + 1;
        }
        proof {
            assert(cand@ =~= spec_simple(*self));
        }
        cand
    }

    /// Whether token `a` comes before token `b` in the removal order:
    /// disliked more often, or equally often with the higher token.
    fn heavier_token(&self, a: usize, b: usize) -> (r: bool)
        requires
            a < self.dislike_count@.len(),
            b < self.dislike_count@.len(),
        ensures
            r == heavier(self.dislike_count@, a, b),
    {
        let da = self.dislike_count[a];
        let db = self.dislike_count[b];
        da > db || (da == db && a > b)
    }

    /// Sorts the member tokens into removal order: most-disliked first, the
    /// higher token first on equal dislike counts.
    fn removal_order_exec(&self, mem: Vec<usize>) -> (order: Vec<usize>)
        requires
            forall|k: int| 0 <= k < mem@.len() ==> (#[trigger] mem@[k]) < self.dislike_count@.len(),
        ensures
            order@ == removal_order(self.dislike_count@, mem@),
    {
        let ghost dcs = self.dislike_count@;
        let ghost full = removal_order(dcs, mem@);
        let mut work = mem;
        let mut order: Vec<usize> = Vec::new();
        proof {
            assert(order@ + removal_order(dcs, work@) =~= full);
        }
        while work.len() > 0
            invariant
                order@ + removal_order(dcs, work@) == full,
                forall|k: int| 0 <= k < work@.len() ==> (#[trigger] work@[k]) < dcs.len(),
                dcs == self.dislike_count@,
            decreases work@.len(),
        {
            let m = work.len();
            let mut p: usize = 0;
            let mut q: usize = 1;
            proof {
                assert(work@.take(1).len() == 1);
            }
            while q < m
                invariant
                    1 <= q <= m,
                    p < q,
                    m == work@.len(),
                    dcs == self.dislike_count@,
                    forall|k: int| 0 <= k < work@.len() ==> (#[trigger] work@[k]) < dcs.len(),
                    p as int == heavy_pos(dcs, work@.take(q as int)),
                decreases m - q,
            {
                let h = self.heavier_token(work[q], work[p]);
                proof {
                    let pre = work@.take(q as int);
                    let cur = work@.take(q as int + 1);
                    assert(cur.drop_last() =~= pre);
                    assert(cur.last() == work@[q as int]);
                    lemma_heavy_pos_in_range(dcs, pre);
                    assert(cur[p as int] == work@[p as int]);
                }
                if h {
                    p = q;
                }
                q = q + 1;
            }
            proof {
                assert(work@.take(m as int) =~= work@);
                lemma_heavy_pos_in_range(dcs, work@);
            }
            let ghost pre_work = work@;
            let ghost pre_order = order@;
            let chosen = work.remove(p);
            order.push(chosen);
            proof {
                assert(removal_order(dcs, pre_work) == seq![pre_work[p as int]] + removal_order(
                    dcs,
                    pre_work.remove(p as int),
                ));
                assert(order@ + removal_order(dcs, work@) =~= pre_order + removal_order(
                    dcs,
                    pre_work,
                ));
                assert forall|k: int| 0 <= k < work@.len() implies (#[trigger] work@[k])
                    < dcs.len() by {
                    if k < p {
                        assert(work@[k] == pre_work[k]);
                    } else {
                        assert(work@[k] == pre_work[k + 1]);
                    }
                }
            }
        }
        proof {
            assert(removal_order(dcs, work@).len() == 0);
            assert(order@ =~= full);
        }
        order
    }

    /// The refinement pass: start from the constructed set, try removing
    /// each member once (most-disliked first), then try adding each missing
    /// token once (ascending); keep exactly the moves that strictly raise
    /// the score. Returns the refined set and its score.
    pub fn advanced_solution(&self) -> (r: (Vec<bool>, usize))
        requires
            self.wf(),
        ensures
            r.0@ == spec_advanced(*self),
            r.1 == measure_rec(self.clients@, r.0@),
    {
        let mut cand = self.simple_solution();
        let n1 = cand.len();
        let ghost s0 = cand@;
        let mut mem: Vec<usize> = Vec::new();
        let mut t: usize = 0;
        while t < n1
            invariant
                t <= n1,
                n1 == cand@.len(),
                cand@ == s0,
                mem@ == members_up_to(cand@, t as int),
                forall|k: int| 0 <= k < mem@.len() ==> (#[trigger] mem@[k]) < n1,
            decreases n1 - t,
        {
            let is_in = cand[t];
            if is_in {
                mem.push(t);
            }
            t = t + 1;
            proof {
                if is_in {
                    assert(members_up_to(cand@, t as int) =~= members_up_to(cand@, t - 1)
                        + seq![(t - 1) as usize]);
                } else {
                    assert(members_up_to(cand@, t as int) =~= members_up_to(cand@, t - 1));
                }
            }
        }
        proof {
            assert(n1 == self.dislike_count@.len());
        }
        let order = self.removal_order_exec(mem);
        let ghost ord = order@;
        proof {
            lemma_removal_order_elements(self.dislike_count@, members_up_to(s0, n1 as int));
            assert forall|k: int| 0 <= k < ord.len() implies (#[trigger] ord[k]) < n1 by {
                let ms = members_up_to(s0, n1 as int);
                assert(ms.contains(ord[k]));
                let j = choose|j: int| 0 <= j < ms.len() && ms[j] == ord[k];
            }
        }
        let mut score = self.measure(&cand);
        let no = order.len();
        let mut i: usize = 0;
        while i < no
            invariant
                i <= no,
                no == ord.len(),
                ord == order@,
                self.wf(),
                cand@.len() == n1,
                forall|k: int| 0 <= k < ord.len() ==> (#[trigger] ord[k]) < n1,
                cand@ == remove_pass(self.clients@, s0, ord.take(i as int)),
                score == measure_rec(self.clients@, cand@),
            decreases no - i,
        {
            let tk = order[i];
            let ghost prev = cand@;
            let was = cand[tk];
            cand[tk] = false;
            let m2 = self.measure(&cand);
            if m2 > score {
                score = m2;
            } else {
                cand[tk] = was;
            }
            i = i + 1;
            proof {
                let cur = ord.take(i as int);
                assert(cur.drop_last() =~= ord.take(i - 1));
                assert(cur.last() == ord[i - 1]);
                let c2 = prev.update(tk as int, false);
                if m2 > measure_rec(self.clients@, prev) {
                    assert(cand@ == c2);
                } else {
                    assert(cand@ =~= prev);
                }
                assert(cand@ == try_remove(self.clients@, prev, tk));
                assert(cand@ == remove_pass(self.clients@, s0, cur));
            }
        }
        proof {
            assert(ord.take(no as int) =~= ord);
        }
        let ghost s1 = cand@;
        let mut comp: Vec<usize> = Vec::new();
        t = 1;
        while t < n1
            invariant
                1 <= t <= n1,
                n1 == cand@.len(),
                cand@ == s1,
                comp@ == nonmembers_up_to(cand@, t as int),
                forall|k: int| 0 <= k < comp@.len() ==> (#[trigger] comp@[k]) < n1,
            decreases n1 - t,
        {
            let is_out = !cand[t];
            if is_out {
                comp.push(t);
            }
            t = t + 1;
            proof {
                if is_out {
                    assert(nonmembers_up_to(cand@, t as int) =~= nonmembers_up_to(cand@, t - 1)
                        + seq![(t - 1) as usize]);
                } else {
                    assert(nonmembers_up_to(cand@, t as int) =~= nonmembers_up_to(cand@, t - 1));
                }
            }
        }
        proof {
            if n1 <= 1 {
                assert(comp@ =~= nonmembers_up_to(s1, n1 as int));
            }
        }
        let ghost cp = comp@;
        let nc = comp.len();
        i = 0;
        while i < nc
            invariant
                i <= nc,
                nc == cp.len(),
                cp == comp@,
                self.wf(),
                cand@.len() == n1,
                forall|k: int| 0 <= k < cp.len() ==> (#[trigger] cp[k]) < n1,
                cand@ == add_pass(self.clients@, s1, cp.take(i as int)),
                score == measure_rec(self.clients@, cand@),
            decreases nc - i,
        {
            let tk = comp[i];
            let ghost prev = cand@;
            let was = cand[tk];
            cand[tk] = true;
            let m2 = self.measure(&cand);
            if m2 > score {
                score = m2;
            } else {
                cand[tk] = was;
            }
            i = i + 1;
            proof {
                let cur = cp.take(i as int);
                assert(cur.drop_last() =~= cp.take(i - 1));
                assert(cur.last() == cp[i - 1]);
                let c2 = prev.update(tk as int, true);
                if m2 > measure_rec(self.clients@, prev) {
                    assert(cand@ == c2);
                } else {
                    assert(cand@ =~= prev);
                }
                assert(cand@ == try_add(self.clients@, prev, tk));
                assert(cand@ == add_pass(self.clients@, s1, cur));
            }
        }
        proof {
            assert(cp.take(nc as int) =~= cp);
            assert(cand@ == spec_advanced(*self));
        }
        (cand, score)
    }
}

} // verus!
