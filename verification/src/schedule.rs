//! The skill registry and the matching scheduler.
//!
//! A [`Game`] holds skilled contributors and projects whose ordered
//! requirement slots ask for a minimum level of one skill each. Skill names
//! are interned to dense tokens, and a skill-to-holders index is kept so that
//! matching never scans all contributors per slot. [`Game::greedy`] assigns
//! contributors to projects in decreasing score-density order, picking for
//! each slot the least-loaded qualifying contributor, and commits a project
//! only when every slot is filled by a distinct contributor.

use vstd::prelude::*;

use crate::interner::{spec_intern, token_index, Interner};

verus! {

/// A contributor: a name and the levels of the skills they hold, as
/// `(skill token, level)` pairs with pairwise distinct tokens.
pub struct Contributor {
    pub name: String,
    pub skills: Vec<(usize, usize)>,
}

/// A project: metadata and an ordered list of required `(skill token,
/// minimum level)` slots. Slot order matters: slots are filled in this order
/// and the result is reported in it.
pub struct Project {
    pub name: String,
    pub days: usize,
    pub score: usize,
    pub best_before: usize,
    pub reqs: Vec<(usize, usize)>,
}

/// A committed assignment: one contributor name per requirement slot of the
/// project, in slot order.
pub struct Plan {
    pub project_name: String,
    pub contributors: Vec<String>,
}

/// The registry both solvers of the assignment problem work from.
pub struct Game {
    pub skill_names: Interner,
    pub contributors: Vec<Contributor>,
    pub projects: Vec<Project>,
    /// `skill_index[t]` lists, in ascending order, the indices of the
    /// contributors that hold the skill with token `t`; entry 0 is unused.
    pub skill_index: Vec<Vec<usize>>,
}

/// The level attached to the first pair of `skills` at or after `i` whose
/// token is `t`.
pub open spec fn find_skill_from(skills: Seq<(usize, usize)>, t: usize, i: int) -> Option<usize>
    decreases skills.len() - i,
{
    if i < 0 || i >= skills.len() {
        None
    } else if skills[i].0 == t {
        Some(skills[i].1)
    } else {
        find_skill_from(skills, t, i + 1)
    }
}

/// The level contributor `c` holds skill `t` at, if any.
pub open spec fn skill_level(c: Contributor, t: usize) -> Option<usize> {
    find_skill_from(c.skills@, t, 0)
}

/// What `find_skill_from` returns: the first matching pair, or a guarantee
/// that none matches.
pub proof fn lemma_find_skill_from(skills: Seq<(usize, usize)>, t: usize, i: int)
    requires
        0 <= i <= skills.len(),
    ensures
        match find_skill_from(skills, t, i) {
            Some(l) => exists|j: int|
                i <= j < skills.len() && (#[trigger] skills[j]).0 == t && skills[j].1 == l,
            None => forall|j: int| i <= j < skills.len() ==> (#[trigger] skills[j]).0 != t,
        },
    decreases skills.len() - i,
{
    if i < skills.len() && skills[i].0 != t {
        lemma_find_skill_from(skills, t, i + 1);
    }
}

/// Some pair of `toks` carries token `t`.
pub open spec fn toks_contain(toks: Seq<(usize, usize)>, t: usize) -> bool {
    exists|j: int| 0 <= j < toks.len() && (#[trigger] toks[j]).0 == t
}

/// A contributor record is well formed against a table of `n` skill tokens.
pub open spec fn wf_contributor(c: Contributor, n: int) -> bool {
    &&& forall|j: int| 0 <= j < c.skills@.len() ==> 1 <= (#[trigger] c.skills@[j]).0 <= n
    &&& forall|j1: int, j2: int|
        0 <= j1 < j2 < c.skills@.len() ==> c.skills@[j1].0 != c.skills@[j2].0
}

/// A project record is well formed against a table of `n` skill tokens.
pub open spec fn wf_project(p: Project, n: int) -> bool {
    &&& forall|j: int| 0 <= j < p.reqs@.len() ==> 1 <= (#[trigger] p.reqs@[j]).0 <= n
    &&& p.days >= 1
}

/// One entry of the index list for token `t` is accounted for: it is an
/// existing contributor that holds `t`, or the record under construction
/// (index `contributors.len()`) whose skills so far are `extra`.
pub open spec fn index_entry_ok(
    contributors: Seq<Contributor>,
    extra: Seq<(usize, usize)>,
    e: usize,
    t: usize,
) -> bool {
    if e < contributors.len() {
        skill_level(contributors[e as int], t) is Some
    } else {
        e == contributors.len() && toks_contain(extra, t)
    }
}

/// The index list for token `t` is exactly the ascending list of the holders
/// of `t`, counting the record under construction described by `extra`.
pub open spec fn index_list_ok(
    contributors: Seq<Contributor>,
    extra: Seq<(usize, usize)>,
    l: Vec<usize>,
    t: usize,
) -> bool {
    &&& forall|k: int| 0 <= k < l@.len() ==> index_entry_ok(contributors, extra, #[trigger] l@[k], t)
    &&& forall|k1: int, k2: int| 0 <= k1 < k2 < l@.len() ==> l@[k1] < l@[k2]
    &&& forall|e: int|
        0 <= e < contributors.len() && skill_level(#[trigger] contributors[e], t) is Some
            ==> l@.contains(e as usize)
    &&& toks_contain(extra, t) ==> l@.contains(contributors.len() as usize)
}

/// The whole skill index is accounted for, with a record under construction
/// whose skills so far are `extra`.
pub open spec fn index_wf_mid(
    contributors: Seq<Contributor>,
    index: Seq<Vec<usize>>,
    extra: Seq<(usize, usize)>,
    n: int,
) -> bool {
    &&& index.len() == n + 1
    &&& index[0]@.len() == 0
    &&& forall|t: int|
        1 <= t <= n ==> index_list_ok(contributors, extra, #[trigger] index[t], t as usize)
}

/// The skill index is exactly the ascending holders list of every token.
pub open spec fn index_wf(contributors: Seq<Contributor>, index: Seq<Vec<usize>>, n: int) -> bool {
    index_wf_mid(contributors, index, Seq::empty(), n)
}

/// Interning a list of `(label, level)` pairs left to right: the final name
/// table and the `(token, level)` pairs.
pub open spec fn spec_intern_pairs(
    names: Seq<Seq<char>>,
    pairs: Seq<(Seq<char>, usize)>,
) -> (Seq<Seq<char>>, Seq<(usize, usize)>)
    decreases pairs.len(),
{
    if pairs.len() == 0 {
        (names, Seq::empty())
    } else {
        let r = spec_intern_pairs(names, pairs.drop_last());
        let s = spec_intern(r.0, pairs.last().0);
        (s.0, r.1.push((s.1 as usize, pairs.last().1)))
    }
}

impl Game {
    /// How many skill tokens are in use.
    pub open spec fn n_skills(&self) -> int {
        self.skill_names@.len() as int
    }

    /// The registry invariant: the name table is sound, every stored token is
    /// in range, contributors hold pairwise distinct skills, projects have a
    /// positive duration, and the skill index lists exactly the holders of
    /// every skill in ascending order.
    pub open spec fn wf(&self) -> bool {
        &&& self.skill_names.wf()
        &&& forall|i: int|
            0 <= i < self.contributors@.len() ==> wf_contributor(
                #[trigger] self.contributors@[i],
                self.n_skills(),
            )
        &&& forall|i: int|
            0 <= i < self.projects@.len() ==> wf_project(
                #[trigger] self.projects@[i],
                self.n_skills(),
            )
        &&& index_wf(self.contributors@, self.skill_index@, self.n_skills())
    }

    pub fn new() -> (g: Game)
        ensures
            g.wf(),
            g.skill_names@ =~= Seq::<Seq<char>>::empty(),
            g.contributors@ =~= Seq::<Contributor>::empty(),
            g.projects@ =~= Seq::<Project>::empty(),
    {
        let mut index: Vec<Vec<usize>> = Vec::new();
        index.push(Vec::new());
        Game { skill_names: Interner::new(), contributors: Vec::new(), projects: Vec::new(), skill_index: index }
    }

    /// Interns one skill label, growing the index by one empty holders list
    /// when the label is new. `extra` describes the record under
    /// construction, so that the index invariant can be carried through.
    fn intern_skill(&mut self, label: String, Ghost(extra): Ghost<Seq<(usize, usize)>>) -> (t: usize)
        requires
            old(self).skill_names.wf(),
            old(self).skill_names@.len() < usize::MAX,
            index_wf_mid(old(self).contributors@, old(self).skill_index@, extra, old(self).n_skills()),
            forall|j: int| 0 <= j < extra.len() ==> 1 <= (#[trigger] extra[j]).0 <= old(self).n_skills(),
            forall|i: int|
                0 <= i < old(self).contributors@.len() ==> wf_contributor(
                    #[trigger] old(self).contributors@[i],
                    old(self).n_skills(),
                ),
        ensures
            final(self).skill_names.wf(),
            (final(self).skill_names@, t as int) == spec_intern(old(self).skill_names@, label@),
            1 <= t <= final(self).n_skills(),
            final(self).skill_names@[t - 1] == label@,
            final(self).contributors == old(self).contributors,
            final(self).projects == old(self).projects,
            index_wf_mid(final(self).contributors@, final(self).skill_index@, extra, final(self).n_skills()),
            token_index(old(self).skill_names@, label@) is Some ==> final(self).skill_index
                == old(self).skill_index && final(self).skill_names@.len()
                == old(self).skill_names@.len(),
            token_index(old(self).skill_names@, label@) is None ==> final(self).skill_names@.len()
                == old(self).skill_names@.len() + 1 && final(self).skill_index@.len()
                == old(self).skill_index@.len() + 1 && (forall|k: int|
                0 <= k < old(self).skill_index@.len() ==> final(self).skill_index@[k] == old(
                    self,
                ).skill_index@[k]),
            forall|k: int|
                0 <= k < old(self).skill_names@.len() ==> final(self).skill_names@[k] == old(
                    self,
                ).skill_names@[k],
    {
        let t = self.skill_names.intern(label);
        if t == self.skill_index.len() {
            self.skill_index.push(Vec::new());
            proof {
                let n = self.n_skills();
                let c = self.contributors@;
                assert forall|tt: int| 1 <= tt <= n implies index_list_ok(
                    c,
                    extra,
                    #[trigger] self.skill_index@[tt],
                    tt as usize,
                ) by {
                    if tt < n {
                        assert(self.skill_index@[tt] == old(self).skill_index@[tt]);
                    } else {
                        let l = self.skill_index@[tt];
                        assert(l@.len() == 0);
                        assert forall|e: int|
                            0 <= e < c.len() && skill_level(
                                #[trigger] c[e],
                                tt as usize,
                            ) is Some implies l@.contains(e as usize) by {
                            lemma_find_skill_from(c[e].skills@, tt as usize, 0);
                        }
                        assert(!toks_contain(extra, tt as usize));
                    }
                }
            }
        }
        t
    }

    /// Records one contributor: interns each skill label, indexes the new
    /// contributor under each of its skills, and appends the record. The
    /// skill names of one contributor must be pairwise distinct, as the
    /// record is a mapping from skill name to level.
    pub fn add_contributor(&mut self, name: String, skills: Vec<(String, usize)>)
        requires
            old(self).wf(),
            forall|j1: int, j2: int|
                0 <= j1 < j2 < skills@.len() ==> skills@[j1].0@ != skills@[j2].0@,
            old(self).skill_names@.len() + skills@.len() < usize::MAX,
        ensures
            final(self).wf(),
            final(self).projects == old(self).projects,
            ({
                let r = spec_intern_pairs(old(self).skill_names@, skills.deep_view());
                &&& final(self).skill_names@ == r.0
                &&& final(self).contributors@.len() == old(self).contributors@.len() + 1
                &&& forall|i: int|
                    0 <= i < old(self).contributors@.len() ==> final(self).contributors@[i] == old(
                        self,
                    ).contributors@[i]
                &&& final(self).contributors@.last().name@ == name@
                &&& final(self).contributors@.last().skills@ == r.1
            }),
    {
        let ghost names0 = self.skill_names@;
        let ghost pairs = skills.deep_view();
        let n_pairs = skills.len();
        let ci = self.contributors.len();
        let mut toks: Vec<(usize, usize)> = Vec::new();
        let mut i: usize = 0;
        while i < n_pairs
            invariant
                i <= n_pairs,
                n_pairs == skills@.len(),
                pairs == skills.deep_view(),
                names0 == old(self).skill_names@,
                forall|j1: int, j2: int|
                    0 <= j1 < j2 < skills@.len() ==> skills@[j1].0@ != skills@[j2].0@,
                self.contributors == old(self).contributors,
                self.projects == old(self).projects,
                ci == self.contributors@.len(),
                toks@.len() == i,
                self.skill_names.wf(),
                (self.skill_names@, toks@) == spec_intern_pairs(names0, pairs.take(i as int)),
                self.skill_names@.len() <= names0.len() + i,
                names0.len() + n_pairs < usize::MAX,
                index_wf_mid(self.contributors@, self.skill_index@, toks@, self.n_skills()),
                forall|j: int|
                    0 <= j < i ==> 1 <= (#[trigger] toks@[j]).0 <= self.n_skills()
                        && self.skill_names@[toks@[j].0 - 1] == pairs[j].0 && toks@[j].1
                        == pairs[j].1,
                forall|ii: int|
                    0 <= ii < self.contributors@.len() ==> wf_contributor(
                        #[trigger] self.contributors@[ii],
                        self.n_skills(),
                    ),
                forall|ii: int|
                    0 <= ii < self.projects@.len() ==> wf_project(
                        #[trigger] self.projects@[ii],
                        self.n_skills(),
                    ),
            decreases n_pairs - i,
        {
            proof {
                assert(pairs[i as int] == (skills@[i as int].0@, skills@[i as int].1));
            }
            let label = skills[i].0.clone();
            let lvl = skills[i].1;
            let ghost pre_names = self.skill_names@;
            let ghost pre_toks = toks@;
            let t = self.intern_skill(label, Ghost(toks@));
            proof {
                // The token is fresh for this contributor: it points at this
                // pair's label, and earlier tokens point at distinct labels.
                assert forall|j: int| 0 <= j < i implies (#[trigger] toks@[j]).0 != t by {
                    assert(self.skill_names@[toks@[j].0 - 1] == pairs[j].0);
                    assert(self.skill_names@[t - 1] == pairs[i as int].0);
                    assert(pairs[j].0 != pairs[i as int].0);
                }
                assert(!toks_contain(toks@, t));
            }
            let ghost pre_index = self.skill_index@;
            let mut holders = self.skill_index.remove(t);
            holders.push(ci);
            self.skill_index.insert(t, holders);
            proof {
                assert(self.skill_index@ =~= pre_index.update(
                    t as int,
                    self.skill_index@[t as int],
                ));
                assert(self.skill_index@[t as int]@ =~= pre_index[t as int]@.push(ci));
            }
            toks.push((t, lvl));
            i = i + 1;
            proof {
                let c = self.contributors@;
                let n = self.n_skills();
                // The index now accounts for the grown record.
                assert forall|tt: int| 1 <= tt <= n implies index_list_ok(
                    c,
                    toks@,
                    #[trigger] self.skill_index@[tt],
                    tt as usize,
                ) by {
                    let l = self.skill_index@[tt];
                    let lpre = pre_index[tt];
                    if tt == t {
                        assert(l@ == lpre@.push(ci));
                        assert(index_list_ok(c, pre_toks, lpre, tt as usize));
                        assert forall|k: int| 0 <= k < l@.len() implies index_entry_ok(
                            c,
                            toks@,
                            #[trigger] l@[k],
                            tt as usize,
                        ) by {
                            if k < lpre@.len() {
                                assert(index_entry_ok(c, pre_toks, lpre@[k], tt as usize));
                                if lpre@[k] >= c.len() {
                                    assert(toks_contain(pre_toks, tt as usize));
                                    assert(false);
                                }
                            } else {
                                assert(l@[k] == ci);
                                assert(toks@.last() == (t, lvl));
                                assert(toks_contain(toks@, t));
                            }
                        }
                        assert forall|k1: int, k2: int|
                            0 <= k1 < k2 < l@.len() implies l@[k1] < l@[k2] by {
                            if k2 == l@.len() - 1 {
                                assert(index_entry_ok(c, pre_toks, lpre@[k1], tt as usize));
                                assert(lpre@[k1] < ci);
                            }
                        }
                        assert forall|e: int|
                            0 <= e < c.len() && skill_level(
                                #[trigger] c[e],
                                tt as usize,
                            ) is Some implies l@.contains(e as usize) by {
                            assert(lpre@.contains(e as usize));
                            let k = choose|k: int| 0 <= k < lpre@.len() && lpre@[k] == e as usize;
                            assert(l@[k] == e as usize);
                        }
                        assert(l@[l@.len() - 1] == ci);
                        assert(l@.contains(ci));
                    } else {
                        assert(l == pre_index[tt]);
                        assert(index_list_ok(c, pre_toks, l, tt as usize));
                        assert forall|k: int| 0 <= k < l@.len() implies index_entry_ok(
                            c,
                            toks@,
                            #[trigger] l@[k],
                            tt as usize,
                        ) by {
                            assert(index_entry_ok(c, pre_toks, l@[k], tt as usize));
                            if l@[k] >= c.len() {
                                let j = choose|j: int|
                                    0 <= j < pre_toks.len() && (#[trigger] pre_toks[j]).0
                                        == tt as usize;
                                assert(toks@[j] == pre_toks[j]);
                                assert(toks_contain(toks@, tt as usize));
                            }
                        }
                        if toks_contain(toks@, tt as usize) {
                            let j = choose|j: int|
                                0 <= j < toks@.len() && (#[trigger] toks@[j]).0 == tt as usize;
                            assert(j < pre_toks.len());
                            assert(pre_toks[j] == toks@[j]);
                            assert(toks_contain(pre_toks, tt as usize));
                        }
                    }
                }
                // The interning fold advanced by one pair.
                assert(pairs.take(i as int).drop_last() =~= pairs.take(i - 1));
                assert(pairs.take(i as int).last() == pairs[i - 1]);
                assert((self.skill_names@, toks@) == spec_intern_pairs(names0, pairs.take(i as int)));
                // Earlier tokens still point at their labels.
                assert forall|j: int|
                    0 <= j < i implies 1 <= (#[trigger] toks@[j]).0 <= self.n_skills()
                        && self.skill_names@[toks@[j].0 - 1] == pairs[j].0 && toks@[j].1
                        == pairs[j].1 by {
                    if j < i - 1 {
                        assert(toks@[j] == pre_toks[j]);
                        assert(pre_names[toks@[j].0 - 1] == pairs[j].0);
                    }
                }
            }
        }
        proof {
            assert(pairs.take(n_pairs as int) =~= pairs);
        }
        let contributor = Contributor { name, skills: toks };
        self.contributors.push(contributor);
        proof {
            let c = self.contributors@;
            let cpre = old(self).contributors@;
            let n = self.n_skills();
            let tk = c.last().skills@;
            assert forall|tt: int| 1 <= tt <= n implies index_list_ok(
                c,
                Seq::<(usize, usize)>::empty(),
                #[trigger] self.skill_index@[tt],
                tt as usize,
            ) by {
                let l = self.skill_index@[tt];
                assert(index_list_ok(cpre, tk, l, tt as usize));
                assert forall|k: int| 0 <= k < l@.len() implies index_entry_ok(
                    c,
                    Seq::<(usize, usize)>::empty(),
                    #[trigger] l@[k],
                    tt as usize,
                ) by {
                    assert(index_entry_ok(cpre, tk, l@[k], tt as usize));
                    let e = l@[k];
                    if e < cpre.len() {
                        assert(c[e as int] == cpre[e as int]);
                    } else {
                        assert(toks_contain(tk, tt as usize));
                        let j = choose|j: int|
                            0 <= j < tk.len() && (#[trigger] tk[j]).0 == tt as usize;
                        lemma_find_skill_from_found(tk, tt as usize, j);
                        assert(skill_level(c[e as int], tt as usize) is Some);
                    }
                }
                assert forall|e: int|
                    0 <= e < c.len() && skill_level(#[trigger] c[e], tt as usize) is Some implies l@.contains(
                    e as usize,
                ) by {
                    if e < cpre.len() {
                        assert(cpre[e] == c[e]);
                    } else {
                        lemma_find_skill_from(tk, tt as usize, 0);
                        assert(toks_contain(tk, tt as usize));
                    }
                }
            }
            assert(index_wf(c, self.skill_index@, n));
            assert forall|ii: int| 0 <= ii < c.len() implies wf_contributor(
                #[trigger] c[ii],
                n,
            ) by {
                if ii == c.len() - 1 {
                    assert(forall|j: int|
                        0 <= j < tk.len() ==> 1 <= (#[trigger] tk[j]).0 <= n);
                }
            }
        }
    }

    /// Records one project: interns each required skill label and appends the
    /// record with its ordered `(token, level)` slots. Durations are
    /// positive, as score density divides by them.
    pub fn add_project(
        &mut self,
        name: String,
        days: usize,
        score: usize,
        best_before: usize,
        reqs: Vec<(String, usize)>,
    )
        requires
            old(self).wf(),
            days >= 1,
            old(self).skill_names@.len() + reqs@.len() < usize::MAX,
        ensures
            final(self).wf(),
            final(self).contributors == old(self).contributors,
            ({
                let r = spec_intern_pairs(old(self).skill_names@, reqs.deep_view());
                &&& final(self).skill_names@ == r.0
                &&& final(self).projects@.len() == old(self).projects@.len() + 1
                &&& forall|i: int|
                    0 <= i < old(self).projects@.len() ==> final(self).projects@[i] == old(
                        self,
                    ).projects@[i]
                &&& final(self).projects@.last().name@ == name@
                &&& final(self).projects@.last().days == days
                &&& final(self).projects@.last().score == score
                &&& final(self).projects@.last().best_before == best_before
                &&& final(self).projects@.last().reqs@ == r.1
            }),
    {
        let ghost names0 = self.skill_names@;
        let ghost pairs = reqs.deep_view();
        let n_pairs = reqs.len();
        let mut toks: Vec<(usize, usize)> = Vec::new();
        let mut i: usize = 0;
        while i < n_pairs
            invariant
                i <= n_pairs,
                n_pairs == reqs@.len(),
                pairs == reqs.deep_view(),
                names0 == old(self).skill_names@,
                self.contributors == old(self).contributors,
                self.projects == old(self).projects,
                toks@.len() == i,
                self.skill_names.wf(),
                (self.skill_names@, toks@) == spec_intern_pairs(names0, pairs.take(i as int)),
                self.skill_names@.len() <= names0.len() + i,
                names0.len() + n_pairs < usize::MAX,
                index_wf(self.contributors@, self.skill_index@, self.n_skills()),
                forall|j: int| 0 <= j < i ==> 1 <= (#[trigger] toks@[j]).0 <= self.n_skills(),
                forall|ii: int|
                    0 <= ii < self.contributors@.len() ==> wf_contributor(
                        #[trigger] self.contributors@[ii],
                        self.n_skills(),
                    ),
                forall|ii: int|
                    0 <= ii < self.projects@.len() ==> wf_project(
                        #[trigger] self.projects@[ii],
                        self.n_skills(),
                    ),
            decreases n_pairs - i,
        {
            proof {
                assert(pairs[i as int] == (reqs@[i as int].0@, reqs@[i as int].1));
            }
            let label = reqs[i].0.clone();
            let lvl = reqs[i].1;
            let ghost pre_toks = toks@;
            let t = self.intern_skill(label, Ghost(Seq::<(usize, usize)>::empty()));
            toks.push((t, lvl));
            i = i + 1;
            proof {
                assert(pairs.take(i as int).drop_last() =~= pairs.take(i - 1));
                assert(pairs.take(i as int).last() == pairs[i - 1]);
                assert((self.skill_names@, toks@) == spec_intern_pairs(names0, pairs.take(i as int)));
            }
        }
        proof {
            assert(pairs.take(n_pairs as int) =~= pairs);
        }
        let project = Project { name, days, score, best_before, reqs: toks };
        self.projects.push(project);
    }
}

/// When the first pair carrying token `t` sits at position `j`, the scan
/// from `i` returns its level.
pub proof fn lemma_find_skill_at(skills: Seq<(usize, usize)>, t: usize, i: int, j: int)
    requires
        0 <= i <= j < skills.len(),
        skills[j].0 == t,
        forall|k: int| i <= k < j ==> (#[trigger] skills[k]).0 != t,
    ensures
        find_skill_from(skills, t, i) == Some(skills[j].1),
    decreases j - i,
{
    if i < j {
        lemma_find_skill_at(skills, t, i + 1, j);
    }
}

/// A pair list that carries token `t` yields a level for `t`.
pub proof fn lemma_find_skill_from_found(toks: Seq<(usize, usize)>, t: usize, j: int)
    requires
        0 <= j < toks.len(),
        toks[j].0 == t,
    ensures
        find_skill_from(toks, t, 0) is Some,
{
    lemma_find_skill_from(toks, t, 0);
}

/// Project `a` is tried before project `b`: its score density (score divided
/// by duration, compared exactly by cross-multiplication) is higher, or equal
/// with `a` the earlier project in input order.
pub open spec fn proj_before(projects: Seq<Project>, a: int, b: int) -> bool {
    let sa = projects[a].score as int;
    let da = projects[a].days as int;
    let sb = projects[b].score as int;
    let db = projects[b].days as int;
    sa * db > sb * da || (sa * db == sb * da && a < b)
}

/// The position in `s` of the project index that comes first; the earliest
/// such position on a tie.
pub open spec fn best_pos(projects: Seq<Project>, s: Seq<usize>) -> int
    decreases s.len(),
{
    if s.len() <= 1 {
        0
    } else {
        let p = best_pos(projects, s.drop_last());
        if proj_before(projects, s.last() as int, s[p] as int) {
            s.len() - 1
        } else {
            p
        }
    }
}

pub proof fn lemma_best_pos_in_range(projects: Seq<Project>, s: Seq<usize>)
    requires
        s.len() >= 1,
    ensures
        0 <= best_pos(projects, s) < s.len(),
    decreases s.len(),
{
    if s.len() > 1 {
        lemma_best_pos_in_range(projects, s.drop_last());
    }
}

/// The priority order over the project indices in `s`: repeatedly pull out
/// the index that comes first.
pub open spec fn proj_order_rec(projects: Seq<Project>, s: Seq<usize>) -> Seq<usize>
    decreases s.len(),
    via proj_order_rec_decreases
{
    if s.len() == 0 {
        Seq::empty()
    } else {
        let p = best_pos(projects, s);
        seq![s[p]] + proj_order_rec(projects, s.remove(p))
    }
}

#[via_fn]
proof fn proj_order_rec_decreases(projects: Seq<Project>, s: Seq<usize>) {
    if s.len() > 0 {
        lemma_best_pos_in_range(projects, s);
    }
}

/// The sequence `0, 1, ..., n - 1`.
pub open spec fn iota(n: int) -> Seq<usize> {
    Seq::new(n as nat, |k: int| k as usize)
}

/// The order in which `greedy` visits the projects: all of them, by
/// decreasing score density, earlier input order first on ties.
pub open spec fn proj_order(projects: Seq<Project>) -> Seq<usize> {
    proj_order_rec(projects, iota(projects.len() as int))
}

/// The priority order keeps length and draws its entries from `s`.
pub proof fn lemma_proj_order_elements(projects: Seq<Project>, s: Seq<usize>)
    ensures
        proj_order_rec(projects, s).len() == s.len(),
        forall|k: int|
            0 <= k < s.len() ==> s.contains(#[trigger] proj_order_rec(projects, s)[k]),
    decreases s.len(),
{
    if s.len() > 0 {
        let p = best_pos(projects, s);
        lemma_best_pos_in_range(projects, s);
        let rest = s.remove(p);
        lemma_proj_order_elements(projects, rest);
        let r = proj_order_rec(projects, s);
        assert forall|k: int| 0 <= k < s.len() implies s.contains(#[trigger] r[k]) by {
            if k == 0 {
                assert(r[0] == s[p]);
            } else {
                assert(r[k] == proj_order_rec(projects, rest)[k - 1]);
                assert(rest.contains(r[k]));
                let j = choose|j: int| 0 <= j < rest.len() && rest[j] == r[k];
                if j < p {
                    assert(s[j] == rest[j]);
                } else {
                    assert(s[j + 1] == rest[j]);
                }
            }
        }
    }
}

/// Contributor `ci` qualifies for a slot requiring skill `t` at level `lvl`.
pub open spec fn qualified(contributors: Seq<Contributor>, ci: int, t: usize, lvl: usize) -> bool {
    &&& 0 <= ci < contributors.len()
    &&& match skill_level(contributors[ci], t) {
        Some(l) => l >= lvl,
        None => false,
    }
}

/// The scan that picks a slot's contributor: walk the candidate list from
/// position `i` with current best `best`, replacing the best whenever a
/// candidate qualifies, is not already chosen for this project, and has a
/// strictly lower load count. Ties keep the earlier candidate.
pub open spec fn pick_from(
    contributors: Seq<Contributor>,
    cands: Seq<usize>,
    t: usize,
    lvl: usize,
    chosen: Seq<usize>,
    seen: Seq<usize>,
    i: int,
    best: Option<usize>,
) -> Option<usize>
    decreases cands.len() - i,
{
    if i < 0 || i >= cands.len() {
        best
    } else {
        let c = cands[i];
        let take = qualified(contributors, c as int, t, lvl) && !chosen.contains(c) && (match best {
            None => true,
            Some(b) => seen[c as int] < seen[b as int],
        });
        pick_from(
            contributors,
            cands,
            t,
            lvl,
            chosen,
            seen,
            i + 1,
            if take {
                Some(c)
            } else {
                best
            },
        )
    }
}

/// The contributor assigned to one slot, if any: the least-loaded qualifying
/// candidate not already chosen for this project, the earliest in the
/// candidate list on equal load.
pub open spec fn spec_pick(
    contributors: Seq<Contributor>,
    cands: Seq<usize>,
    t: usize,
    lvl: usize,
    chosen: Seq<usize>,
    seen: Seq<usize>,
) -> Option<usize> {
    pick_from(contributors, cands, t, lvl, chosen, seen, 0, None)
}

/// What the scan returns, it vouches for: a qualifying candidate not yet
/// chosen, provided the incoming best already was one.
pub proof fn lemma_pick_from(
    contributors: Seq<Contributor>,
    cands: Seq<usize>,
    t: usize,
    lvl: usize,
    chosen: Seq<usize>,
    seen: Seq<usize>,
    i: int,
    best: Option<usize>,
)
    requires
        best is Some ==> qualified(contributors, best->0 as int, t, lvl) && !chosen.contains(
            best->0,
        ),
    ensures
        ({
            let r = pick_from(contributors, cands, t, lvl, chosen, seen, i, best);
            r is Some ==> qualified(contributors, r->0 as int, t, lvl) && !chosen.contains(r->0)
        }),
    decreases cands.len() - i,
{
    if 0 <= i < cands.len() {
        let c = cands[i];
        let take = qualified(contributors, c as int, t, lvl) && !chosen.contains(c) && (match best {
            None => true,
            Some(b) => seen[c as int] < seen[b as int],
        });
        lemma_pick_from(
            contributors,
            cands,
            t,
            lvl,
            chosen,
            seen,
            i + 1,
            if take {
                Some(c)
            } else {
                best
            },
        );
    }
}

/// Filling a project's slots from slot `k` on, with `chosen` the contributors
/// of the earlier slots and `ok` whether every earlier slot was filled. An
/// unfilled slot does not abort the walk; it only clears `ok`, and the
/// project is committed only when `ok` survives every slot.
pub open spec fn fill_from(
    contributors: Seq<Contributor>,
    index: Seq<Vec<usize>>,
    reqs: Seq<(usize, usize)>,
    seen: Seq<usize>,
    k: int,
    chosen: Seq<usize>,
    ok: bool,
) -> (Seq<usize>, bool)
    decreases reqs.len() - k,
{
    if k < 0 || k >= reqs.len() {
        (chosen, ok)
    } else {
        let t = reqs[k].0;
        let lvl = reqs[k].1;
        match spec_pick(contributors, index[t as int]@, t, lvl, chosen, seen) {
            Some(c) => fill_from(contributors, index, reqs, seen, k + 1, chosen.push(c), ok),
            None => fill_from(contributors, index, reqs, seen, k + 1, chosen, false),
        }
    }
}

/// One project's matching attempt under load counts `seen`: the contributors
/// chosen slot by slot, and whether every slot was filled.
pub open spec fn spec_fill(
    contributors: Seq<Contributor>,
    index: Seq<Vec<usize>>,
    reqs: Seq<(usize, usize)>,
    seen: Seq<usize>,
) -> (Seq<usize>, bool) {
    fill_from(contributors, index, reqs, seen, 0, Seq::empty(), true)
}

/// How often `c` occurs in `ch`.
pub open spec fn occ_count(ch: Seq<usize>, c: usize) -> nat
    decreases ch.len(),
{
    if ch.len() == 0 {
        0
    } else {
        occ_count(ch.drop_last(), c) + if ch.last() == c {
            1nat
        } else {
            0nat
        }
    }
}

pub proof fn lemma_occ_not_contains(ch: Seq<usize>, c: usize)
    requires
        !ch.contains(c),
    ensures
        occ_count(ch, c) == 0,
    decreases ch.len(),
{
    if ch.len() > 0 {
        assert(forall|k: int| 0 <= k < ch.len() ==> ch[k] != c);
        assert(!ch.drop_last().contains(c));
        lemma_occ_not_contains(ch.drop_last(), c);
    }
}

pub proof fn lemma_occ_distinct(ch: Seq<usize>, c: usize)
    requires
        forall|k1: int, k2: int| 0 <= k1 < k2 < ch.len() ==> ch[k1] != ch[k2],
    ensures
        occ_count(ch, c) <= 1,
    decreases ch.len(),
{
    if ch.len() > 0 {
        let rest = ch.drop_last();
        if ch.last() == c {
            assert(forall|k: int| 0 <= k < rest.len() ==> rest[k] == ch[k] && ch[k] != ch[ch.len() - 1]);
            assert(!rest.contains(c));
            lemma_occ_not_contains(rest, c);
        } else {
            lemma_occ_distinct(rest, c);
        }
    }
}

/// The load counts after committing a plan: one increment per entry of
/// `chosen`, applied left to right.
pub open spec fn bump_seen(seen: Seq<usize>, chosen: Seq<usize>) -> Seq<usize>
    decreases chosen.len(),
{
    if chosen.len() == 0 {
        seen
    } else {
        let s1 = bump_seen(seen, chosen.drop_last());
        let c = chosen.last();
        s1.update(c as int, (s1[c as int] + 1) as usize)
    }
}

/// Committing a plan raises each member's load count by its number of slots
/// in the plan and touches no other count.
pub proof fn lemma_bump_seen(seen: Seq<usize>, chosen: Seq<usize>)
    requires
        seen.len() <= usize::MAX,
        forall|k: int| 0 <= k < chosen.len() ==> (#[trigger] chosen[k]) < seen.len(),
        forall|c: int| 0 <= c < seen.len() ==> seen[c] + occ_count(chosen, c as usize) <= usize::MAX,
    ensures
        bump_seen(seen, chosen).len() == seen.len(),
        forall|c: int|
            0 <= c < seen.len() ==> #[trigger] bump_seen(seen, chosen)[c] == seen[c] + occ_count(
                chosen,
                c as usize,
            ),
    decreases chosen.len(),
{
    if chosen.len() > 0 {
        let rest = chosen.drop_last();
        let c = chosen.last();
        assert(c == chosen[chosen.len() - 1] && c < seen.len());
        assert forall|cc: int| 0 <= cc < seen.len() implies seen[cc] + occ_count(
            rest,
            cc as usize,
        ) <= usize::MAX by {
            assert(occ_count(chosen, cc as usize) == occ_count(rest, cc as usize) + if c
                == cc as usize {
                1nat
            } else {
                0nat
            });
        }
        lemma_bump_seen(seen, rest);
        let s1 = bump_seen(seen, rest);
        assert forall|cc: int| 0 <= cc < seen.len() implies #[trigger] bump_seen(seen, chosen)[cc]
            == seen[cc] + occ_count(chosen, cc as usize) by {
            assert(occ_count(chosen, cc as usize) == occ_count(rest, cc as usize) + if c
                == cc as usize {
                1nat
            } else {
                0nat
            });
            assert(bump_seen(seen, chosen) == s1.update(c as int, (s1[c as int] + 1) as usize));
            if cc == c as int {
                assert(s1[c as int] == seen[c as int] + occ_count(rest, c));
                assert(seen[c as int] + occ_count(chosen, c) <= usize::MAX);
            }
        }
    }
}

/// The scheduling run from position `i` of the priority order: each project
/// in turn is matched under the current load counts; a full match commits the
/// plan and the load counts, a partial match is discarded whole.
pub open spec fn run_from(
    contributors: Seq<Contributor>,
    index: Seq<Vec<usize>>,
    projects: Seq<Project>,
    order: Seq<usize>,
    i: int,
    seen: Seq<usize>,
    plans: Seq<(usize, Seq<usize>)>,
) -> (Seq<(usize, Seq<usize>)>, Seq<usize>)
    decreases order.len() - i,
{
    if i < 0 || i >= order.len() {
        (plans, seen)
    } else {
        let p = order[i];
        let fr = spec_fill(contributors, index, projects[p as int].reqs@, seen);
        if fr.1 {
            run_from(
                contributors,
                index,
                projects,
                order,
                i + 1,
                bump_seen(seen, fr.0),
                plans.push((p, fr.0)),
            )
        } else {
            run_from(contributors, index, projects, order, i + 1, seen, plans)
        }
    }
}

/// All-zero load counts for `n` contributors.
pub open spec fn zero_seen(n: nat) -> Seq<usize> {
    Seq::new(n, |k: int| 0usize)
}

/// The whole scheduling run of a registry: the committed plans as
/// `(project index, contributor indices)` pairs, and the final load counts.
pub open spec fn spec_schedule(g: Game) -> (Seq<(usize, Seq<usize>)>, Seq<usize>) {
    run_from(
        g.contributors@,
        g.skill_index@,
        g.projects@,
        proj_order(g.projects@),
        0,
        zero_seen(g.contributors@.len()),
        Seq::empty(),
    )
}

/// The rendered plans carry exactly the names behind the index-level plans.
pub open spec fn plans_match(r: Seq<Plan>, sp: Seq<(usize, Seq<usize>)>, g: Game) -> bool {
    &&& r.len() == sp.len()
    &&& forall|k: int|
        0 <= k < r.len() ==> (#[trigger] sp[k]).0 < g.projects@.len() && r[k].project_name@
            == g.projects@[sp[k].0 as int].name@
    &&& forall|k: int| 0 <= k < r.len() ==> (#[trigger] r[k]).contributors@.len() == sp[k].1.len()
    &&& forall|k: int, j: int|
        0 <= k < r.len() && 0 <= j < sp[k].1.len() ==> (#[trigger] sp[k].1[j]) < g.contributors@.len()
            && r[k].contributors@[j]@ == g.contributors@[sp[k].1[j] as int].name@
}

impl Game {
    /// Exact score-density comparison of two projects by cross-multiplication.
    fn better_priority(&self, a: usize, b: usize) -> (r: bool)
        requires
            a < self.projects@.len(),
            b < self.projects@.len(),
        ensures
            r == proj_before(self.projects@, a as int, b as int),
    {
        let pa = &self.projects[a];
        let pb = &self.projects[b];
        proof {
            lemma_mul_fits_u128(pa.score, pb.days);
            lemma_mul_fits_u128(pb.score, pa.days);
        }
        let lhs: u128 = (pa.score as u128) * (pb.days as u128);
        let rhs: u128 = (pb.score as u128) * (pa.days as u128);
        lhs > rhs || (lhs == rhs && a < b)
    }

    /// All project indices, sorted by decreasing score density with input
    /// order deciding ties.
    fn project_order(&self) -> (order: Vec<usize>)
        ensures
            order@ == proj_order(self.projects@),
            order@.len() == self.projects@.len(),
            forall|k: int| 0 <= k < order@.len() ==> (#[trigger] order@[k]) < self.projects@.len(),
    {
        let n = self.projects.len();
        let mut work: Vec<usize> = Vec::new();
        let mut i: usize = 0;
        while i < n
            invariant
                i <= n,
                work@ =~= iota(i as int),
            decreases n - i,
        {
            work.push(i);
            i = i + 1;
            proof {
                assert(work@ =~= iota(i as int));
            }
        }
        let ghost full = proj_order_rec(self.projects@, iota(n as int));
        let mut order: Vec<usize> = Vec::new();
        proof {
            assert(order@ + proj_order_rec(self.projects@, work@) =~= full);
        }
        while work.len() > 0
            invariant
                order@ + proj_order_rec(self.projects@, work@) == full,
                forall|k: int| 0 <= k < work@.len() ==> (#[trigger] work@[k]) < n,
                forall|k: int| 0 <= k < order@.len() ==> (#[trigger] order@[k]) < n,
                n == self.projects@.len(),
            decreases work@.len(),
        {
            let m = work.len();
            let mut p: usize = 0;
            let mut q: usize = 1;
            proof {
                assert(work@.take(1).len() == 1);
            }
            while q < m
                invariant
                    1 <= q <= m,
                    p < q,
                    m == work@.len(),
                    n == self.projects@.len(),
                    forall|k: int| 0 <= k < work@.len() ==> (#[trigger] work@[k]) < n,
                    p as int == best_pos(self.projects@, work@.take(q as int)),
                decreases m - q,
            {
                let better = self.better_priority(work[q], work[p]);
                proof {
                    let pre = work@.take(q as int);
                    let cur = work@.take(q as int + 1);
                    assert(cur.drop_last() =~= pre);
                    assert(cur.last() == work@[q as int]);
                    lemma_best_pos_in_range(self.projects@, pre);
                    assert(cur[p as int] == work@[p as int]);
                }
                if better {
                    p = q;
                }
                q = q + 1;
            }
            proof {
                assert(work@.take(m as int) =~= work@);
                lemma_best_pos_in_range(self.projects@, work@);
            }
            let ghost pre_work = work@;
            let ghost pre_order = order@;
            let chosen = work.remove(p);
            order.push(chosen);
            proof {
                assert(proj_order_rec(self.projects@, pre_work) == seq![pre_work[p as int]]
                    + proj_order_rec(self.projects@, pre_work.remove(p as int)));
                assert(order@ + proj_order_rec(self.projects@, work@) =~= pre_order
                    + proj_order_rec(self.projects@, pre_work));
                assert forall|k: int| 0 <= k < work@.len() implies (#[trigger] work@[k]) < n by {
                    if k < p {
                        assert(work@[k] == pre_work[k]);
                    } else {
                        assert(work@[k] == pre_work[k + 1]);
                    }
                }
            }
        }
        proof {
            assert(proj_order_rec(self.projects@, work@).len() == 0);
            assert(order@ =~= full);
            lemma_proj_order_elements(self.projects@, iota(n as int));
        }
        order
    }

    /// Whether contributor `ci` holds skill `t` at level `lvl` or better.
    fn check_level(&self, ci: usize, t: usize, lvl: usize) -> (b: bool)
        requires
            ci < self.contributors@.len(),
        ensures
            b == qualified(self.contributors@, ci as int, t, lvl),
    {
        let skills = &self.contributors[ci].skills;
        let m = skills.len();
        let mut j: usize = 0;
        while j < m
            invariant
                j <= m,
                m == skills@.len(),
                ci < self.contributors@.len(),
                skills@ == self.contributors@[ci as int].skills@,
                forall|k: int| 0 <= k < j ==> (#[trigger] skills@[k]).0 != t,
            decreases m - j,
        {
            let pair = skills[j];
            if pair.0 == t {
                proof {
                    lemma_find_skill_at(skills@, t, 0, j as int);
                }
                return pair.1 >= lvl;
            }
            j = j + 1;
        }
        proof {
            lemma_find_skill_from(skills@, t, 0);
            if find_skill_from(skills@, t, 0) is Some {
                let l = find_skill_from(skills@, t, 0)->0;
                let jj = choose|jj: int|
                    0 <= jj < skills@.len() && (#[trigger] skills@[jj]).0 == t && skills@[jj].1 == l;
                assert(false);
            }
        }
        false
    }

    /// The least-loaded qualifying candidate for one slot, if any.
    fn pick_for_slot(&self, t: usize, lvl: usize, chosen: &Vec<usize>, seen: &Vec<usize>) -> (r:
        Option<usize>)
        requires
            self.wf(),
            1 <= t <= self.n_skills(),
            seen@.len() == self.contributors@.len(),
        ensures
            r == spec_pick(self.contributors@, self.skill_index@[t as int]@, t, lvl, chosen@, seen@),
            r is Some ==> qualified(self.contributors@, r->0 as int, t, lvl) && !chosen@.contains(
                r->0,
            ),
    {
        let cands = &self.skill_index[t];
        let m = cands.len();
        let mut best: Option<usize> = None;
        let mut i: usize = 0;
        while i < m
            invariant
                i <= m,
                m == cands@.len(),
                self.wf(),
                1 <= t <= self.n_skills(),
                cands@ == self.skill_index@[t as int]@,
                seen@.len() == self.contributors@.len(),
                best is Some ==> best->0 < self.contributors@.len() && qualified(
                    self.contributors@,
                    best->0 as int,
                    t,
                    lvl,
                ) && !chosen@.contains(best->0),
                spec_pick(self.contributors@, cands@, t, lvl, chosen@, seen@) == pick_from(
                    self.contributors@,
                    cands@,
                    t,
                    lvl,
                    chosen@,
                    seen@,
                    i as int,
                    best,
                ),
            decreases m - i,
        {
            let c = cands[i];
            proof {
                assert(index_list_ok(
                    self.contributors@,
                    Seq::<(usize, usize)>::empty(),
                    self.skill_index@[t as int],
                    t,
                ));
                assert(index_entry_ok(
                    self.contributors@,
                    Seq::<(usize, usize)>::empty(),
                    cands@[i as int],
                    t,
                ));
                assert(c < self.contributors@.len());
            }
            let q = self.check_level(c, t, lvl);
            let mut take = q && !contains_val(chosen, c);
            if take {
                match best {
                    Some(b) => {
                        if !(seen[c] < seen[b]) {
                            take = false;
                        }
                    },
                    None => {},
                }
            }
            proof {
                let spec_take = qualified(self.contributors@, c as int, t, lvl)
                    && !chosen@.contains(c) && (match best {
                    None => true,
                    Some(b) => seen@[c as int] < seen@[b as int],
                });
                assert(take == spec_take);
            }
            if take {
                best = Some(c);
            }
            i = i + 1;
        }
        best
    }

    /// One project's matching attempt: the contributors picked slot by slot
    /// in declared order, and whether every slot was filled.
    fn fill_project(&self, reqs: &Vec<(usize, usize)>, seen: &Vec<usize>) -> (r: (Vec<usize>, bool))
        requires
            self.wf(),
            seen@.len() == self.contributors@.len(),
            forall|j: int| 0 <= j < reqs@.len() ==> 1 <= (#[trigger] reqs@[j]).0 <= self.n_skills(),
        ensures
            (r.0@, r.1) == spec_fill(self.contributors@, self.skill_index@, reqs@, seen@),
            forall|k: int| 0 <= k < r.0@.len() ==> (#[trigger] r.0@[k]) < self.contributors@.len(),
            forall|k1: int, k2: int| 0 <= k1 < k2 < r.0@.len() ==> r.0@[k1] != r.0@[k2],
            r.0@.len() <= reqs@.len(),
            r.1 ==> r.0@.len() == reqs@.len(),
    {
        let nr = reqs.len();
        let mut chosen: Vec<usize> = Vec::new();
        let mut ok = true;
        let mut k: usize = 0;
        while k < nr
            invariant
                k <= nr,
                nr == reqs@.len(),
                self.wf(),
                seen@.len() == self.contributors@.len(),
                forall|j: int| 0 <= j < reqs@.len() ==> 1 <= (#[trigger] reqs@[j]).0 <= self.n_skills(),
                spec_fill(self.contributors@, self.skill_index@, reqs@, seen@) == fill_from(
                    self.contributors@,
                    self.skill_index@,
                    reqs@,
                    seen@,
                    k as int,
                    chosen@,
                    ok,
                ),
                forall|j: int| 0 <= j < chosen@.len() ==> (#[trigger] chosen@[j])
                    < self.contributors@.len(),
                forall|j1: int, j2: int| 0 <= j1 < j2 < chosen@.len() ==> chosen@[j1] != chosen@[j2],
                chosen@.len() <= k,
                ok ==> chosen@.len() == k,
            decreases nr - k,
        {
            let t = reqs[k].0;
            let lvl = reqs[k].1;
            let r = self.pick_for_slot(t, lvl, &chosen, seen);
            match r {
                Some(c) => {
                    proof {
                        assert(!chosen@.contains(c));
                        assert(forall|j: int| 0 <= j < chosen@.len() ==> chosen@[j] != c);
                    }
                    chosen.push(c);
                },
                None => {
                    ok = false;
                },
            }
            k = k + 1;
        }
        (chosen, ok)
    }

    /// The matching scheduler. Projects are visited in decreasing
    /// score-density order; each requirement slot takes the least-loaded
    /// qualifying contributor not already used in the project; a project is
    /// committed only when every slot is filled, and only committed plans
    /// raise the members' load counts.
    pub fn greedy(&self) -> (r: Vec<Plan>)
        requires
            self.wf(),
        ensures
            plans_match(r@, spec_schedule(*self).0, *self),
    {
        let order = self.project_order();
        let n = self.projects.len();
        let ncon = self.contributors.len();
        let mut seen: Vec<usize> = Vec::new();
        let mut z: usize = 0;
        while z < ncon
            invariant
                z <= ncon,
                seen@ =~= zero_seen(z as nat),
            decreases ncon - z,
        {
            seen.push(0);
            z = z + 1;
            proof {
                assert(seen@ =~= zero_seen(z as nat));
            }
        }
        let mut result: Vec<Plan> = Vec::new();
        let ghost mut gplans: Seq<(usize, Seq<usize>)> = Seq::empty();
        let mut i: usize = 0;
        while i < n
            invariant
                i <= n,
                n == self.projects@.len(),
                ncon == self.contributors@.len(),
                self.wf(),
                order@.len() == n,
                forall|k: int| 0 <= k < n ==> (#[trigger] order@[k]) < n,
                seen@.len() == ncon,
                forall|c: int| 0 <= c < ncon ==> (#[trigger] seen@[c]) <= gplans.len(),
                gplans.len() <= i,
                run_from(
                    self.contributors@,
                    self.skill_index@,
                    self.projects@,
                    order@,
                    i as int,
                    seen@,
                    gplans,
                ) == spec_schedule(*self),
                plans_match(result@, gplans, *self),
            decreases n - i,
        {
            let p = order[i];
            let proj = &self.projects[p];
            proof {
                assert(wf_project(self.projects@[p as int], self.n_skills()));
            }
            let (chosen, ok) = self.fill_project(&proj.reqs, &seen);
            let ghost seen_pre = seen@;
            let ghost gplans_pre = gplans;
            if ok {
                let m = chosen.len();
                let mut names: Vec<String> = Vec::new();
                let mut j: usize = 0;
                while j < m
                    invariant
                        j <= m,
                        m == chosen@.len(),
                        ncon == self.contributors@.len(),
                        forall|k: int| 0 <= k < m ==> (#[trigger] chosen@[k]) < ncon,
                        names@.len() == j,
                        forall|k: int|
                            0 <= k < j ==> (#[trigger] names@[k])@
                                == self.contributors@[chosen@[k] as int].name@,
                    decreases m - j,
                {
                    let cidx = chosen[j];
                    names.push(self.contributors[cidx].name.clone());
                    j = j + 1;
                }
                result.push(Plan { project_name: proj.name.clone(), contributors: names });
                j = 0;
                while j < m
                    invariant
                        j <= m,
                        m == chosen@.len(),
                        ncon == self.contributors@.len(),
                        seen@.len() == ncon,
                        gplans_pre.len() <= i < n,
                        forall|k: int| 0 <= k < m ==> (#[trigger] chosen@[k]) < ncon,
                        forall|k1: int, k2: int| 0 <= k1 < k2 < m ==> chosen@[k1] != chosen@[k2],
                        forall|c: int| 0 <= c < ncon ==> (#[trigger] seen_pre[c]) <= gplans_pre.len(),
                        seen_pre.len() == ncon,
                        seen@ == bump_seen(seen_pre, chosen@.take(j as int)),
                    decreases m - j,
                {
                    let cidx = chosen[j];
                    proof {
                        let pre = chosen@.take(j as int);
                        assert forall|k: int| 0 <= k < pre.len() implies (#[trigger] pre[k])
                            < seen_pre.len() by {}
                        assert(!pre.contains(cidx));
                        lemma_occ_not_contains(pre, cidx);
                        assert forall|c: int| 0 <= c < ncon implies seen_pre[c] + occ_count(
                            pre,
                            c as usize,
                        ) <= usize::MAX by {
                            lemma_occ_distinct(pre, c as usize);
                        }
                        lemma_bump_seen(seen_pre, pre);
                        assert(seen@[cidx as int] == seen_pre[cidx as int]);
                        assert(seen@[cidx as int] < usize::MAX);
                    }
                    let v = seen[cidx];
                    seen[cidx] = v + 1;
                    j = j + 1;
                    proof {
                        let pre = chosen@.take(j - 1);
                        let cur = chosen@.take(j as int);
                        assert(cur.drop_last() =~= pre);
                        assert(cur.last() == cidx);
                        assert(seen@ == bump_seen(seen_pre, cur));
                    }
                }
                proof {
                    assert(chosen@.take(m as int) =~= chosen@);
                    gplans = gplans.push((p, chosen@));
                    // the committed plan keeps every invariant
                    assert forall|c: int| 0 <= c < ncon implies seen_pre[c] + occ_count(
                        chosen@,
                        c as usize,
                    ) <= usize::MAX by {
                        lemma_occ_distinct(chosen@, c as usize);
                    }
                    lemma_bump_seen(seen_pre, chosen@);
                    assert forall|c: int| 0 <= c < ncon implies (#[trigger] seen@[c])
                        <= gplans.len() by {
                        lemma_occ_distinct(chosen@, c as usize);
                    }
                    assert(plans_match(result@, gplans, *self));
                }
            }
            i = i + 1;
            proof {
                let fr = spec_fill(
                    self.contributors@,
                    self.skill_index@,
                    self.projects@[p as int].reqs@,
                    seen_pre,
                );
                assert(fr == (chosen@, ok));
                assert(run_from(
                    self.contributors@,
                    self.skill_index@,
                    self.projects@,
                    order@,
                    i - 1,
                    seen_pre,
                    gplans_pre,
                ) == run_from(
                    self.contributors@,
                    self.skill_index@,
                    self.projects@,
                    order@,
                    i as int,
                    seen@,
                    gplans,
                ));
            }
        }
        result
    }
}

proof fn lemma_mul_fits_u128(a: usize, b: usize)
    ensures
        (a as int) * (b as int) <= u128::MAX,
{
    assert(a as int <= 0xffff_ffff_ffff_ffffu64 as int);
    assert(b as int <= 0xffff_ffff_ffff_ffffu64 as int);
    assert((a as int) * (b as int) <= 0xffff_ffff_ffff_ffffu64 as int
        * 0xffff_ffff_ffff_ffffu64 as int) by (nonlinear_arith)
        requires
            0 <= a as int <= 0xffff_ffff_ffff_ffffu64 as int,
            0 <= b as int <= 0xffff_ffff_ffff_ffffu64 as int,
    ;
}

/// A committed plan is sound: it names a real project, fills every one of
/// its requirement slots with a contributor qualifying for that slot, and
/// names no contributor twice.
pub open spec fn plan_ok(g: Game, pl: (usize, Seq<usize>)) -> bool {
    &&& pl.0 < g.projects@.len()
    &&& pl.1.len() == g.projects@[pl.0 as int].reqs@.len()
    &&& forall|j: int|
        0 <= j < pl.1.len() ==> qualified(
            g.contributors@,
            #[trigger] pl.1[j] as int,
            g.projects@[pl.0 as int].reqs@[j].0,
            g.projects@[pl.0 as int].reqs@[j].1,
        )
    &&& forall|j1: int, j2: int| 0 <= j1 < j2 < pl.1.len() ==> pl.1[j1] != pl.1[j2]
}

/// What slot filling guarantees: earlier choices are kept, and when every
/// slot was filled, the choices number exactly the remaining slots, each
/// qualifying for its slot and distinct from all earlier choices.
pub proof fn lemma_fill_ok(
    contributors: Seq<Contributor>,
    index: Seq<Vec<usize>>,
    reqs: Seq<(usize, usize)>,
    seen: Seq<usize>,
    k: int,
    chosen: Seq<usize>,
    ok: bool,
)
    requires
        0 <= k <= reqs.len(),
    ensures
        ({
            let r = fill_from(contributors, index, reqs, seen, k, chosen, ok);
            &&& r.0.len() <= chosen.len() + (reqs.len() - k)
            &&& chosen.is_prefix_of(r.0)
            &&& (r.1 ==> ok && r.0.len() == chosen.len() + (reqs.len() - k))
            &&& (r.1 ==> forall|kk: int|
                k <= kk < reqs.len() ==> qualified(
                    contributors,
                    r.0[chosen.len() + (kk - k)] as int,
                    (#[trigger] reqs[kk]).0,
                    reqs[kk].1,
                ) && !r.0.take(chosen.len() + (kk - k)).contains(r.0[chosen.len() + (kk - k)]))
        }),
    decreases reqs.len() - k,
{
    if k < reqs.len() {
        let t = reqs[k].0;
        let lvl = reqs[k].1;
        let pr = spec_pick(contributors, index[t as int]@, t, lvl, chosen, seen);
        lemma_pick_from(contributors, index[t as int]@, t, lvl, chosen, seen, 0, None);
        let r = fill_from(contributors, index, reqs, seen, k, chosen, ok);
        match pr {
            Some(c) => {
                let next = chosen.push(c);
                lemma_fill_ok(contributors, index, reqs, seen, k + 1, next, ok);
                assert(chosen =~= next.take(chosen.len() as int));
                assert(chosen =~= r.0.take(chosen.len() as int));
                if r.1 {
                    assert forall|kk: int|
                        k <= kk < reqs.len() implies qualified(
                        contributors,
                        r.0[chosen.len() + (kk - k)] as int,
                        (#[trigger] reqs[kk]).0,
                        reqs[kk].1,
                    ) && !r.0.take(chosen.len() + (kk - k)).contains(
                        r.0[chosen.len() + (kk - k)],
                    ) by {
                        if kk == k {
                            assert(r.0[chosen.len() as int] == next[chosen.len() as int]);
                            assert(r.0[chosen.len() as int] == c);
                            assert(r.0.take(chosen.len() as int) =~= chosen);
                        } else {
                            assert(qualified(
                                contributors,
                                r.0[next.len() + (kk - (k + 1))] as int,
                                reqs[kk].0,
                                reqs[kk].1,
                            ));
                            assert(next.len() + (kk - (k + 1)) == chosen.len() + (kk - k));
                        }
                    }
                }
            },
            None => {
                lemma_fill_ok(contributors, index, reqs, seen, k + 1, chosen, false);
            },
        }
    }
}

/// A successful matching attempt fills every slot, each with a qualifying
/// contributor, no contributor twice.
pub proof fn lemma_fill_commit(
    contributors: Seq<Contributor>,
    index: Seq<Vec<usize>>,
    reqs: Seq<(usize, usize)>,
    seen: Seq<usize>,
)
    requires
        spec_fill(contributors, index, reqs, seen).1,
    ensures
        ({
            let fr = spec_fill(contributors, index, reqs, seen);
            &&& fr.0.len() == reqs.len()
            &&& forall|j: int|
                0 <= j < reqs.len() ==> qualified(
                    contributors,
                    fr.0[j] as int,
                    (#[trigger] reqs[j]).0,
                    reqs[j].1,
                )
            &&& forall|j1: int, j2: int| 0 <= j1 < j2 < fr.0.len() ==> fr.0[j1] != fr.0[j2]
        }),
{
    lemma_fill_ok(contributors, index, reqs, seen, 0, Seq::empty(), true);
    let fr = spec_fill(contributors, index, reqs, seen);
    assert forall|j: int| 0 <= j < reqs.len() implies qualified(
        contributors,
        fr.0[j] as int,
        (#[trigger] reqs[j]).0,
        reqs[j].1,
    ) by {
        assert(qualified(contributors, fr.0[0 + (j - 0)] as int, reqs[j].0, reqs[j].1));
    }
    assert forall|j1: int, j2: int| 0 <= j1 < j2 < fr.0.len() implies fr.0[j1] != fr.0[j2] by {
        assert(qualified(contributors, fr.0[0 + (j2 - 0)] as int, reqs[j2].0, reqs[j2].1));
        assert(!fr.0.take(0 + (j2 - 0)).contains(fr.0[0 + (j2 - 0)]));
        assert(fr.0.take(j2)[j1] == fr.0[j1]);
    }
}

/// Every plan that the run commits is sound, provided the plans already
/// committed are.
pub proof fn lemma_run_plans(
    g: Game,
    order: Seq<usize>,
    i: int,
    seen: Seq<usize>,
    plans: Seq<(usize, Seq<usize>)>,
)
    requires
        0 <= i <= order.len(),
        forall|k: int| 0 <= k < order.len() ==> (#[trigger] order[k]) < g.projects@.len(),
        forall|k: int| 0 <= k < plans.len() ==> plan_ok(g, #[trigger] plans[k]),
    ensures
        ({
            let r = run_from(g.contributors@, g.skill_index@, g.projects@, order, i, seen, plans);
            forall|k: int| 0 <= k < r.0.len() ==> plan_ok(g, #[trigger] r.0[k])
        }),
    decreases order.len() - i,
{
    let r = run_from(g.contributors@, g.skill_index@, g.projects@, order, i, seen, plans);
    if i < order.len() {
        let p = order[i];
        let reqs = g.projects@[p as int].reqs@;
        let fr = spec_fill(g.contributors@, g.skill_index@, reqs, seen);
        if fr.1 {
            lemma_fill_commit(g.contributors@, g.skill_index@, reqs, seen);
            assert(plan_ok(g, (p, fr.0)));
            let plans1 = plans.push((p, fr.0));
            assert forall|k: int| 0 <= k < plans1.len() implies plan_ok(g, #[trigger] plans1[k]) by {
                if k < plans.len() {
                    assert(plans1[k] == plans[k]);
                } else {
                    assert(plans1[k] == (p, fr.0));
                }
            }
            let seen1 = bump_seen(seen, fr.0);
            lemma_run_plans(g, order, i + 1, seen1, plans1);
            let rr = run_from(g.contributors@, g.skill_index@, g.projects@, order, i + 1, seen1, plans1);
            assert(r == rr);
            assert forall|k: int| 0 <= k < r.0.len() implies plan_ok(g, #[trigger] r.0[k]) by {
                assert(plan_ok(g, rr.0[k]));
            }
        } else {
            lemma_run_plans(g, order, i + 1, seen, plans);
            let rr = run_from(g.contributors@, g.skill_index@, g.projects@, order, i + 1, seen, plans);
            assert(r == rr);
            assert forall|k: int| 0 <= k < r.0.len() implies plan_ok(g, #[trigger] r.0[k]) by {
                assert(plan_ok(g, rr.0[k]));
            }
        }
    } else {
        assert(r.0 == plans);
        assert forall|k: int| 0 <= k < r.0.len() implies plan_ok(g, #[trigger] r.0[k]) by {
            assert(plan_ok(g, plans[k]));
        }
    }
}

/// Law: a plan is committed exactly when every requirement slot of its
/// project found a distinct qualifying contributor; in particular every
/// committed plan covers all its project's slots, each contributor of it
/// qualifies for the slot it fills, and no contributor fills two slots of
/// one plan.
pub proof fn lemma_plans_complete(g: Game)
    requires
        g.wf(),
    ensures
        forall|k: int|
            0 <= k < spec_schedule(g).0.len() ==> plan_ok(g, #[trigger] spec_schedule(g).0[k]),
{
    let n = g.projects@.len() as int;
    lemma_proj_order_elements(g.projects@, iota(n));
    let order = proj_order(g.projects@);
    assert forall|k: int| 0 <= k < order.len() implies (#[trigger] order[k]) < g.projects@.len() by {
        assert(iota(n).contains(order[k]));
        let j = choose|j: int| 0 <= j < iota(n).len() && iota(n)[j] == order[k];
        assert(iota(n)[j] == j as usize);
    }
    lemma_run_plans(g, order, 0, zero_seen(g.contributors@.len()), Seq::empty());
}

/// How many slots of the committed `plans` contributor `c` fills in all.
pub open spec fn plans_occ(plans: Seq<(usize, Seq<usize>)>, c: usize) -> nat
    decreases plans.len(),
{
    if plans.len() == 0 {
        0
    } else {
        plans_occ(plans.drop_last(), c) + occ_count(plans.last().1, c)
    }
}

proof fn lemma_plans_occ_prepend(x: (usize, Seq<usize>), s: Seq<(usize, Seq<usize>)>, c: usize)
    ensures
        plans_occ(seq![x] + s, c) == occ_count(x.1, c) + plans_occ(s, c),
    decreases s.len(),
{
    let s0 = seq![x] + s;
    if s.len() == 0 {
        assert(s0 =~= seq![x]);
        assert(s0.drop_last() =~= Seq::<(usize, Seq<usize>)>::empty());
        assert(s0.last() == x);
        assert(plans_occ(Seq::<(usize, Seq<usize>)>::empty(), c) == 0);
        assert(plans_occ(s0, c) == plans_occ(s0.drop_last(), c) + occ_count(s0.last().1, c));
    } else {
        assert(s0.drop_last() =~= seq![x] + s.drop_last());
        assert(s0.last() == s.last());
        lemma_plans_occ_prepend(x, s.drop_last(), c);
    }
}

/// The run never touches a load count except by committing a plan that the
/// contributor is part of: the final counts are the initial ones plus, for
/// each contributor, the number of slots they fill in the newly committed
/// plans. A discarded attempt changes nothing.
pub proof fn lemma_run_seen(
    g: Game,
    order: Seq<usize>,
    i: int,
    seen: Seq<usize>,
    plans: Seq<(usize, Seq<usize>)>,
)
    requires
        0 <= i <= order.len(),
        seen.len() == g.contributors@.len(),
        seen.len() <= usize::MAX,
        forall|k: int| 0 <= k < order.len() ==> (#[trigger] order[k]) < g.projects@.len(),
        forall|c: int| 0 <= c < seen.len() ==> seen[c] + (order.len() - i) <= usize::MAX,
    ensures
        ({
            let r = run_from(g.contributors@, g.skill_index@, g.projects@, order, i, seen, plans);
            &&& r.1.len() == seen.len()
            &&& plans.is_prefix_of(r.0)
            &&& forall|c: int|
                0 <= c < seen.len() ==> r.1[c] == seen[c] + plans_occ(
                    r.0.skip(plans.len() as int),
                    c as usize,
                )
        }),
    decreases order.len() - i,
{
    let r = run_from(g.contributors@, g.skill_index@, g.projects@, order, i, seen, plans);
    if i < order.len() {
        let p = order[i];
        let reqs = g.projects@[p as int].reqs@;
        let fr = spec_fill(g.contributors@, g.skill_index@, reqs, seen);
        if fr.1 {
            lemma_fill_commit(g.contributors@, g.skill_index@, reqs, seen);
            assert forall|j: int| 0 <= j < fr.0.len() implies (#[trigger] fr.0[j])
                < seen.len() by {
                assert(qualified(g.contributors@, fr.0[j] as int, reqs[j].0, reqs[j].1));
            }
            assert forall|c: int| 0 <= c < seen.len() implies seen[c] + occ_count(
                fr.0,
                c as usize,
            ) <= usize::MAX by {
                lemma_occ_distinct(fr.0, c as usize);
            }
            lemma_bump_seen(seen, fr.0);
            let seen1 = bump_seen(seen, fr.0);
            let plans1 = plans.push((p, fr.0));
            assert forall|c: int| 0 <= c < seen.len() implies seen1[c] + (order.len() - (i + 1))
                <= usize::MAX by {
                lemma_occ_distinct(fr.0, c as usize);
            }
            lemma_run_seen(g, order, i + 1, seen1, plans1);
            assert(plans1.is_prefix_of(r.0));
            assert(plans1 =~= r.0.take(plans1.len() as int));
            assert(r.0[plans.len() as int] == plans1[plans.len() as int]);
            assert(r.0[plans.len() as int] == (p, fr.0));
            assert(plans =~= r.0.take(plans.len() as int));
            assert(r.0.skip(plans.len() as int) =~= seq![(p, fr.0)] + r.0.skip(plans1.len() as int));
            assert forall|c: int| 0 <= c < seen.len() implies r.1[c] == seen[c] + plans_occ(
                r.0.skip(plans.len() as int),
                c as usize,
            ) by {
                lemma_plans_occ_prepend((p, fr.0), r.0.skip(plans1.len() as int), c as usize);
                lemma_occ_distinct(fr.0, c as usize);
            }
        } else {
            lemma_run_seen(g, order, i + 1, seen, plans);
        }
    } else {
        assert(plans =~= r.0.take(plans.len() as int));
        assert(r.0.skip(plans.len() as int) =~= Seq::<(usize, Seq<usize>)>::empty());
    }
}

/// Law: load counts only ever grow by committed plans. After a whole run
/// starting from zero, each contributor's load count equals the number of
/// slots they fill across the committed plans; a discarded attempt
/// contributes nothing.
pub proof fn lemma_load_counts(g: Game)
    requires
        g.wf(),
    ensures
        ({
            let r = spec_schedule(g);
            &&& r.1.len() == g.contributors@.len()
            &&& forall|c: int| 0 <= c < r.1.len() ==> r.1[c] == plans_occ(r.0, c as usize)
        }),
{
    vstd::std_specs::vec::axiom_spec_len(&g.projects);
    vstd::std_specs::vec::axiom_spec_len(&g.contributors);
    let n = g.projects@.len() as int;
    lemma_proj_order_elements(g.projects@, iota(n));
    let order = proj_order(g.projects@);
    assert forall|k: int| 0 <= k < order.len() implies (#[trigger] order[k]) < g.projects@.len() by {
        assert(iota(n).contains(order[k]));
        let j = choose|j: int| 0 <= j < iota(n).len() && iota(n)[j] == order[k];
        assert(iota(n)[j] == j as usize);
    }
    let z = zero_seen(g.contributors@.len());
    lemma_run_seen(g, order, 0, z, Seq::empty());
    let r = spec_schedule(g);
    assert(r.0.skip(0) =~= r.0);
}

/// Whether `v` holds `x`.
fn contains_val(v: &Vec<usize>, x: usize) -> (b: bool)
    ensures
        b == v@.contains(x),
{
    let m = v.len();
    let mut i: usize = 0;
    while i < m
        invariant
            i <= m,
            m == v@.len(),
            forall|k: int| 0 <= k < i ==> v@[k] != x,
        decreases m - i,
    {
        if v[i] == x {
            return true;
        }
        i = i + 1;
    }
    false
}

} // verus!
