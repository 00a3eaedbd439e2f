//! A map keyed by names, kept sorted by the code-point order of its keys (the
//! order of `String`'s `Ord`, so iterating it visits names as a `BTreeMap`
//! would).
use vstd::prelude::*;

use crate::text::{seq_lt, str_eq, str_lt};

verus! {

pub proof fn lemma_seq_lt_irrefl(a: Seq<char>)
    ensures
        !seq_lt(a, a),
    decreases a.len(),
{
    if a.len() > 0 {
        lemma_seq_lt_irrefl(a.drop_first());
    }
}

pub proof fn lemma_seq_lt_trans(a: Seq<char>, b: Seq<char>, c: Seq<char>)
    requires
        seq_lt(a, b),
        seq_lt(b, c),
    ensures
        seq_lt(a, c),
    decreases a.len(),
{
    if a.len() > 0 && b.len() > 0 && c.len() > 0 {
        if a[0] == b[0] && b[0] == c[0] {
            lemma_seq_lt_trans(a.drop_first(), b.drop_first(), c.drop_first());
        }
    }
}

pub proof fn lemma_seq_lt_total(a: Seq<char>, b: Seq<char>)
    ensures
        a != b ==> seq_lt(a, b) || seq_lt(b, a),
    decreases a.len(),
{
    if a.len() > 0 && b.len() > 0 {
        if a[0] == b[0] {
            lemma_seq_lt_total(a.drop_first(), b.drop_first());
            if a.drop_first() == b.drop_first() {
                assert(a =~= seq![a[0]] + a.drop_first());
                assert(b =~= seq![b[0]] + b.drop_first());
            }
        } else {
        }
    } else if a.len() == 0 && b.len() == 0 {
        assert(a =~= b);
    }
}

/// Keys strictly increasing, hence each present once.
pub open spec fn sorted_keys<V>(e: Seq<(String, V)>) -> bool {
    forall|i: int, j: int| 0 <= i < j < e.len() ==> seq_lt(#[trigger] e[i].0@, #[trigger] e[j].0@)
}

/// The value stored under `k`, if any.
pub open spec fn lookup<V>(e: Seq<(String, V)>, k: Seq<char>) -> Option<V>
    decreases e.len(),
{
    if e.len() == 0 {
        None
    } else if e[0].0@ == k {
        Some(e[0].1)
    } else {
        lookup(e.drop_first(), k)
    }
}

pub proof fn lemma_lookup_index<V>(e: Seq<(String, V)>, k: Seq<char>)
    ensures
        lookup(e, k) is Some <==> exists|i: int| 0 <= i < e.len() && #[trigger] e[i].0@ == k,
        sorted_keys(e) ==> forall|i: int|
            0 <= i < e.len() && #[trigger] e[i].0@ == k ==> lookup(e, k) == Some(e[i].1),
    decreases e.len(),
{
    if e.len() > 0 {
        lemma_lookup_index(e.drop_first(), k);
        if e[0].0@ != k {
            assert forall|i: int| 0 <= i < e.len() && #[trigger] e[i].0@ == k implies (0 <= i - 1
                < e.drop_first().len() && e.drop_first()[i - 1].0@ == k) by {}
            if exists|i: int| 0 <= i < e.drop_first().len() && #[trigger] e.drop_first()[i].0@
                == k {
                let i = choose|i: int|
                    0 <= i < e.drop_first().len() && #[trigger] e.drop_first()[i].0@ == k;
                assert(e[i + 1].0@ == k);
            }
        } else {
            if sorted_keys(e) {
                assert forall|i: int| 0 <= i < e.len() && #[trigger] e[i].0@ == k implies i
                    == 0 by {
                    if i > 0 {
                        assert(seq_lt(e[0].0@, e[i].0@));
                        lemma_seq_lt_irrefl(k);
                    }
                }
            }
        }
        if sorted_keys(e) {
            assert(sorted_keys(e.drop_first())) by {
                assert forall|i: int, j: int|
                    0 <= i < j < e.drop_first().len() implies seq_lt(
                    #[trigger] e.drop_first()[i].0@,
                    #[trigger] e.drop_first()[j].0@,
                ) by {
                    assert(e.drop_first()[i] == e[i + 1]);
                    assert(e.drop_first()[j] == e[j + 1]);
                }
            }
        }
    }
}

/// A name-keyed map, sorted by name.
pub struct NameMap<V> {
    pub entries: Vec<(String, V)>,
}

impl<V> NameMap<V> {
    pub open spec fn wf(&self) -> bool {
        sorted_keys(self.entries@)
    }

    pub open spec fn get_spec(&self, k: Seq<char>) -> Option<V> {
        lookup(self.entries@, k)
    }

    pub fn new() -> (r: NameMap<V>)
        ensures
            r.wf(),
            r.entries@.len() == 0,
            forall|k: Seq<char>| #[trigger] r.get_spec(k) is None,
    {
        NameMap { entries: Vec::new() }
    }

    /// The position of `k`, or where it would be inserted.
    fn position(&self, k: &str) -> (r: (usize, bool))
        requires
            self.wf(),
        ensures
            r.0 <= self.entries@.len(),
            r.1 ==> r.0 < self.entries@.len() && self.entries@[r.0 as int].0@ == k@,
            !r.1 ==> forall|i: int| 0 <= i < self.entries@.len() ==> #[trigger] self.entries@[i].0@ != k@,
            forall|i: int| 0 <= i < r.0 ==> seq_lt(#[trigger] self.entries@[i].0@, k@),
            !r.1 ==> forall|i: int| r.0 <= i < self.entries@.len() ==> seq_lt(k@, #[trigger] self.entries@[i].0@),
    {
        let mut i: usize = 0;
        while i < self.entries.len()
            invariant
                self.wf(),
                i <= self.entries@.len(),
                forall|j: int| 0 <= j < i ==> seq_lt(#[trigger] self.entries@[j].0@, k@),
            decreases self.entries.len() - i,
        {
            if str_eq(self.entries[i].0.as_str(), k) {
                return (i, true);
            }
            if str_lt(k, self.entries[i].0.as_str()) {
                proof {
                    assert forall|j: int| i <= j < self.entries@.len() implies seq_lt(k@, #[trigger] self.entries@[j].0@) by {
                        if j > i {
                            assert(seq_lt(self.entries@[i as int].0@, self.entries@[j].0@));
                            lemma_seq_lt_trans(k@, self.entries@[i as int].0@, self.entries@[j].0@);
                        }
                    }
                    assert forall|j: int| 0 <= j < self.entries@.len() implies #[trigger] self.entries@[j].0@ != k@ by {
                        if j < i {
                            lemma_seq_lt_irrefl(k@);
                        } else {
                            lemma_seq_lt_irrefl(k@);
                        }
                    }
                }
                return (i, false);
            }
            proof {
                lemma_seq_lt_total(k@, self.entries@[i as int].0@);
            }
            i = i + 1;
        }
        proof {
            assert forall|j: int| 0 <= j < self.entries@.len() implies #[trigger] self.entries@[j].0@ != k@ by {
                lemma_seq_lt_irrefl(k@);
            }
        }
        (i, false)
    }

    /// The value under `k`.
    pub fn get(&self, k: &str) -> (r: Option<&V>)
        requires
            self.wf(),
        ensures
            r matches Some(v) ==> self.get_spec(k@) == Some(*v),
            r is None ==> self.get_spec(k@) is None,
    {
        let (i, found) = self.position(k);
        proof {
            lemma_lookup_index(self.entries@, k@);
        }
        if found {
            Some(&self.entries[i].1)
        } else {
            None
        }
    }

    /// Whether `k` has a value.
    pub fn contains(&self, k: &str) -> (r: bool)
        requires
            self.wf(),
        ensures
            r == self.get_spec(k@) is Some,
    {
        let (_, found) = self.position(k);
        proof {
            lemma_lookup_index(self.entries@, k@);
        }
        found
    }

    /// Store `v` under `k`, replacing any value there.
    pub fn insert(&mut self, k: String, v: V)
        requires
            old(self).wf(),
        ensures
            final(self).wf(),
            final(self).get_spec(k@) == Some(v),
            forall|j: Seq<char>| j != k@ ==> #[trigger] final(self).get_spec(j) == old(self).get_spec(j),
            final(self).entries@.len() == old(self).entries@.len() + if old(self).get_spec(k@) is Some { 0int } else { 1int },
    {
        let (i, found) = self.position(k.as_str());
        let ghost old_e = self.entries@;
        proof {
            lemma_lookup_index(old_e, k@);
        }
        if found {
            self.entries.set(i, (k, v));
            proof {
                let e = self.entries@;
                assert(sorted_keys(e)) by {
                    assert forall|a: int, b: int| 0 <= a < b < e.len() implies seq_lt(#[trigger] e[a].0@, #[trigger] e[b].0@) by {
                        assert(e[a].0@ == old_e[a].0@);
                        assert(e[b].0@ == old_e[b].0@);
                    }
                }
                lemma_lookup_index(e, k@);
                assert(e[i as int].0@ == k@);
                assert forall|j: Seq<char>| j != k@ implies #[trigger] lookup(e, j) == lookup(old_e, j) by {
                    lemma_lookup_index(e, j);
                    lemma_lookup_index(old_e, j);
                    if lookup(old_e, j) is Some {
                        let x = choose|x: int| 0 <= x < old_e.len() && #[trigger] old_e[x].0@ == j;
                        assert(e[x].0@ == j);
                    }
                    if lookup(e, j) is Some {
                        let x = choose|x: int| 0 <= x < e.len() && #[trigger] e[x].0@ == j;
                        assert(old_e[x].0@ == j);
                    }
                }
            }
        } else {
            self.entries.insert(i, (k, v));
            proof {
                let e = self.entries@;
                assert forall|a: int| 0 <= a < e.len() implies #[trigger] e[a] == if a < i { old_e[a] } else if a == i { (k, v) } else { old_e[a - 1] } by {}
                assert(sorted_keys(e)) by {
                    assert forall|a: int, b: int| 0 <= a < b < e.len() implies seq_lt(#[trigger] e[a].0@, #[trigger] e[b].0@) by {
                        if b < i {
                        } else if b == i {
                        } else if a < i {
                            lemma_seq_lt_trans(e[a].0@, k@, e[b].0@);
                        } else if a == i {
                        } else {
                        }
                    }
                }
                lemma_lookup_index(e, k@);
                assert(e[i as int].0@ == k@);
                assert forall|j: Seq<char>| j != k@ implies #[trigger] lookup(e, j) == lookup(old_e, j) by {
                    lemma_lookup_index(e, j);
                    lemma_lookup_index(old_e, j);
                    if lookup(old_e, j) is Some {
                        let x = choose|x: int| 0 <= x < old_e.len() && #[trigger] old_e[x].0@ == j;
                        if x < i {
                            assert(e[x].0@ == j);
                        } else {
                            assert(e[x + 1].0@ == j);
                        }
                    }
                    if lookup(e, j) is Some {
                        let x = choose|x: int| 0 <= x < e.len() && #[trigger] e[x].0@ == j;
                        if x < i {
                            assert(old_e[x].0@ == j);
                        } else if x > i {
                            assert(old_e[x - 1].0@ == j);
                        }
                    }
                }
            }
        }
    }
}

} // verus!
