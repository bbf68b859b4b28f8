//! A string-to-token interning table.
//!
//! Every distinct label is given a dense positive token in first-seen order,
//! starting at 1. Identical labels always receive the same token; tokens are
//! never reused or renumbered.

use vstd::prelude::*;

verus! {

/// Position of the first entry of `names` at index `i` or later that equals `label`.
pub open spec fn first_index_from(names: Seq<Seq<char>>, label: Seq<char>, i: int) -> Option<int>
    decreases names.len() - i,
{
    if i < 0 || i >= names.len() {
        None
    } else if names[i] == label {
        Some(i)
    } else {
        first_index_from(names, label, i + 1)
    }
}

/// Position of the first entry of `names` that equals `label`, if any.
pub open spec fn token_index(names: Seq<Seq<char>>, label: Seq<char>) -> Option<int> {
    first_index_from(names, label, 0)
}

/// One interning step: the table after `label` is recorded, and the 1-based
/// token that `label` gets.
pub open spec fn spec_intern(names: Seq<Seq<char>>, label: Seq<char>) -> (Seq<Seq<char>>, int) {
    match token_index(names, label) {
        Some(i) => (names, i + 1),
        None => (names.push(label), names.len() as int + 1),
    }
}

/// What `first_index_from` returns: the first match at or after `i`, or a
/// guarantee that there is none.
pub proof fn lemma_first_index_from(names: Seq<Seq<char>>, label: Seq<char>, i: int)
    requires
        0 <= i <= names.len(),
    ensures
        match first_index_from(names, label, i) {
            Some(j) => i <= j < names.len() && names[j] == label && (forall|k: int|
                i <= k < j ==> names[k] != label),
            None => forall|k: int| i <= k < names.len() ==> names[k] != label,
        },
    decreases names.len() - i,
{
    if i < names.len() && names[i] != label {
        lemma_first_index_from(names, label, i + 1);
    }
}

/// Maps opaque string labels to dense tokens, bidirectionally. The single
/// authority for identity of labels across a run.
pub struct Interner {
    names: Vec<String>,
}

impl View for Interner {
    type V = Seq<Seq<char>>;

    closed spec fn view(&self) -> Seq<Seq<char>> {
        self.names.deep_view()
    }
}

impl Interner {
    /// No label occurs twice in the table.
    pub open spec fn wf(&self) -> bool {
        forall|i: int, j: int| 0 <= i < j < self@.len() ==> self@[i] != self@[j]
    }

    pub fn new() -> (r: Self)
        ensures
            r@ =~= Seq::<Seq<char>>::empty(),
            r.wf(),
    {
        let r = Interner { names: Vec::new() };
        proof {
            assert(r@ =~= Seq::<Seq<char>>::empty());
        }
        r
    }

    /// How many distinct labels have been seen; tokens run from 1 to this.
    pub fn count(&self) -> (n: usize)
        ensures
            n == self@.len(),
    {
        self.names.len()
    }

    /// Returns the token `label` already has, or records it under the next
    /// dense token `count + 1`. Never fails.
    pub fn intern(&mut self, label: String) -> (t: usize)
        requires
            old(self).wf(),
            old(self)@.len() < usize::MAX,
        ensures
            final(self).wf(),
            (final(self)@, t as int) == spec_intern(old(self)@, label@),
            1 <= t <= final(self)@.len(),
            final(self)@.len() >= old(self)@.len(),
            final(self)@[t - 1] == label@,
    {
        let n = self.names.len();
        let mut i: usize = 0;
        while i < n
            invariant
                n == self@.len(),
                n == self.names.len(),
                i <= n,
                self.wf(),
                forall|k: int| 0 <= k < i ==> self@[k] != label@,
            decreases n - i,
        {
            if self.names[i] == label {
                proof {
                    assert(self@[i as int] == label@);
                    lemma_first_index_from(self@, label@, 0);
                    assert(token_index(self@, label@) == Some(i as int));
                }
                return i + 1;
            }
            proof {
                assert(self@[i as int] == self.names@[i as int]@);
            }
            i = i + 1;
        }
        proof {
            lemma_first_index_from(self@, label@, 0);
            assert(token_index(self@, label@) is None);
        }
        let ghost pre = self@;
        self.names.push(label);
        proof {
            assert(self@ =~= pre.push(label@));
        }
        n + 1
    }

    /// The label that `t` stands for.
    pub fn name_of(&self, t: usize) -> (r: &String)
        requires
            1 <= t <= self@.len(),
        ensures
            r@ == self@[t - 1],
    {
        &self.names[t - 1]
    }
}

/// Law: interning is idempotent. Interning `label` a second time returns the
/// same token as the first time and leaves the table unchanged.
pub proof fn lemma_intern_idempotent(names: Seq<Seq<char>>, label: Seq<char>)
    ensures
        ({
            let (n1, t1) = spec_intern(names, label);
            spec_intern(n1, label) == (n1, t1)
        }),
{
    lemma_first_index_from(names, label, 0);
    match token_index(names, label) {
        Some(i) => {},
        None => {
            let n1 = names.push(label);
            lemma_first_index_from(n1, label, 0);
            match token_index(n1, label) {
                Some(j) => {
                    assert(n1[names.len() as int] == label);
                    assert(j == names.len());
                },
                None => {
                    assert(n1[names.len() as int] == label);
                },
            }
        },
    }
}

/// Law: distinct labels receive distinct tokens, in whichever order they are
/// interned.
pub proof fn lemma_intern_distinct(names: Seq<Seq<char>>, a: Seq<char>, b: Seq<char>)
    requires
        a != b,
    ensures
        ({
            let (n1, ta) = spec_intern(names, a);
            let (n2, tb) = spec_intern(n1, b);
            ta != tb
        }),
{
    let (n1, ta) = spec_intern(names, a);
    let (n2, tb) = spec_intern(n1, b);
    lemma_first_index_from(names, a, 0);
    lemma_first_index_from(n1, b, 0);
    assert(n1[ta - 1] == a);
    assert(n2[tb - 1] == b);
    assert(n2[ta - 1] == a);
}

/// Law: tokens are dense, starting at 1. An interned label's token lies in
/// `1 ..= count`, and a label not seen before gets exactly `count + 1`.
pub proof fn lemma_intern_dense(names: Seq<Seq<char>>, label: Seq<char>)
    ensures
        ({
            let (n1, t) = spec_intern(names, label);
            1 <= t <= n1.len() && (token_index(names, label) is None ==> t == names.len() + 1
                && n1.len() == names.len() + 1)
        }),
{
    lemma_first_index_from(names, label, 0);
}

} // verus!
