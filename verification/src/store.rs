use vstd::prelude::*;

use crate::text::{lemma_text_lt_irreflexive, lemma_text_lt_total, lemma_text_lt_transitive, str_eq, text_less, text_lt};
use crate::value::{lemma_vals_of, vals_of, Val, Value};

verus! {

/// A fact set: its name and its rows.
pub type FactSet = (Seq<char>, Seq<Val>);

pub open spec fn facts_view(v: Seq<(String, Vec<Value>)>) -> Seq<FactSet> {
    v.map_values(|e: (String, Vec<Value>)| (e.0@, vals_of(e.1@)))
}

/// Names strictly increasing: each name once, in order.
pub open spec fn strictly_sorted(s: Seq<FactSet>) -> bool {
    forall|i: int, j: int| 0 <= i < j < s.len() ==> text_lt(#[trigger] s[i].0, #[trigger] s[j].0)
}

/// The rows stored under `name`.
pub open spec fn rows_of(s: Seq<FactSet>, name: Seq<char>) -> Option<Seq<Val>> {
    if exists|i: int| 0 <= i < s.len() && #[trigger] s[i].0 == name {
        Some(s[choose|i: int| 0 <= i < s.len() && #[trigger] s[i].0 == name].1)
    } else {
        None
    }
}

/// In-memory storage for named fact sets, for the length of a session.
pub struct FactStore {
    facts: Vec<(String, Vec<Value>)>,
}

impl View for FactStore {
    type V = Seq<FactSet>;

    closed spec fn view(&self) -> Seq<FactSet> {
        facts_view(self.facts@)
    }
}

proof fn lemma_rows_of_at(s: Seq<FactSet>, i: int)
    requires
        strictly_sorted(s),
        0 <= i < s.len(),
    ensures
        rows_of(s, s[i].0) == Some(s[i].1),
{
    let j = choose|j: int| 0 <= j < s.len() && #[trigger] s[j].0 == s[i].0;
    if j < i {
        assert(text_lt(s[j].0, s[i].0));
        lemma_text_lt_irreflexive(s[i].0);
    } else if i < j {
        assert(text_lt(s[i].0, s[j].0));
        lemma_text_lt_irreflexive(s[i].0);
    }
}

impl FactStore {
    /// The fact sets, ordered by name, each name once.
    pub closed spec fn wf(&self) -> bool {
        strictly_sorted(self@)
    }

    /// A well-formed store holds its fact sets ordered by name, each name once.
    pub proof fn lemma_sorted(&self)
        requires
            self.wf(),
        ensures
            strictly_sorted(self@),
    {
    }

    pub fn new() -> (r: Self)
        ensures
            r.wf(),
            r@ == Seq::<FactSet>::empty(),
    {
        let r = FactStore { facts: Vec::new() };
        assert(r@ =~= Seq::<FactSet>::empty());
        r
    }

    /// The index of the first fact set whose name is not before `name`.
    fn position(&self, name: &str) -> (r: usize)
        requires
            self.wf(),
        ensures
            r <= self@.len(),
            forall|i: int| 0 <= i < r ==> text_lt(#[trigger] self@[i].0, name@),
            r < self@.len() ==> !text_lt(self@[r as int].0, name@),
    {
        let mut i: usize = 0;
        while i < self.facts.len()
            invariant
                self.wf(),
                i <= self.facts.len(),
                self@.len() == self.facts@.len(),
                forall|k: int| 0 <= k < i ==> text_lt(#[trigger] self@[k].0, name@),
            decreases self.facts.len() - i,
        {
            assert(self@[i as int].0 == self.facts@[i as int].0@);
            if !text_less(self.facts[i].0.as_str(), name) {
                return i;
            }
            i = i + 1;
        }
        i
    }

    /// Stores `values` under `name`, replacing what was stored there.
    pub fn assert_facts(&mut self, name: String, values: Vec<Value>)
        requires
            old(self).wf(),
        ensures
            final(self).wf(),
            forall|n: Seq<char>|
                #[trigger] rows_of(final(self)@, n) == if n == name@ {
                    Some(vals_of(values@))
                } else {
                    rows_of(old(self)@, n)
                },
    {
        let p = self.position(name.as_str());
        let ghost old_v = self@;
        let ghost entry = (name@, vals_of(values@));
        let replace = p < self.facts.len() && str_eq(self.facts[p].0.as_str(), name.as_str());
        if replace {
            self.facts.set(p, (name, values));
            proof {
                assert(self@ =~= old_v.update(p as int, entry));
                assert forall|i: int, j: int| 0 <= i < j < self@.len() implies text_lt(
                    #[trigger] self@[i].0,
                    #[trigger] self@[j].0,
                ) by {
                    assert(old_v[i].0 == self@[i].0 || i == p);
                    assert(old_v[j].0 == self@[j].0 || j == p);
                    assert(text_lt(old_v[i].0, old_v[j].0));
                }
            }
        } else {
            self.facts.insert(p, (name, values));
            proof {
                assert(self@ =~= old_v.insert(p as int, entry));
                if p < old_v.len() {
                    lemma_text_lt_total(old_v[p as int].0, entry.0);
                }
                assert forall|i: int, j: int| 0 <= i < j < self@.len() implies text_lt(
                    #[trigger] self@[i].0,
                    #[trigger] self@[j].0,
                ) by {
                    if j < p {
                        assert(text_lt(old_v[i].0, old_v[j].0));
                    } else if j == p {
                        assert(text_lt(old_v[i].0, entry.0));
                    } else if i == p {
                        assert(text_lt(entry.0, old_v[p as int].0));
                        if j - 1 > p {
                            assert(text_lt(old_v[p as int].0, old_v[j - 1].0));
                            lemma_text_lt_transitive(entry.0, old_v[p as int].0, old_v[j - 1].0);
                        }
                    } else if i < p {
                        assert(text_lt(old_v[i].0, entry.0));
                        assert(text_lt(entry.0, old_v[p as int].0));
                        lemma_text_lt_transitive(old_v[i].0, entry.0, old_v[p as int].0);
                        if j - 1 > p {
                            assert(text_lt(old_v[p as int].0, old_v[j - 1].0));
                            lemma_text_lt_transitive(old_v[i].0, old_v[p as int].0, old_v[j - 1].0);
                        }
                    } else {
                        assert(text_lt(old_v[i - 1].0, old_v[j - 1].0));
                    }
                }
            }
        }
        proof {
            let nv = self@;
            assert forall|n: Seq<char>|
                #[trigger] rows_of(nv, n) == if n == name@ {
                    Some(vals_of(values@))
                } else {
                    rows_of(old_v, n)
                } by {
                if n == name@ {
                    assert(nv[p as int] == entry);
                    lemma_rows_of_at(nv, p as int);
                } else if exists|i: int| 0 <= i < old_v.len() && #[trigger] old_v[i].0 == n {
                    let i = choose|i: int| 0 <= i < old_v.len() && #[trigger] old_v[i].0 == n;
                    lemma_rows_of_at(old_v, i);
                    let k = if replace || i < p { i } else { i + 1 };
                    assert(nv[k] == old_v[i]);
                    lemma_rows_of_at(nv, k);
                } else {
                    assert forall|i: int| 0 <= i < nv.len() implies #[trigger] nv[i].0 != n by {
                        if i != p {
                            let k = if replace || i < p { i } else { i - 1 };
                            assert(nv[i] == old_v[k]);
                        }
                    }
                }
            }
        }
    }

    /// The same as [`FactStore::assert_facts`].
    pub fn store_facts(&mut self, name: String, values: Vec<Value>)
        requires
            old(self).wf(),
        ensures
            final(self).wf(),
            forall|n: Seq<char>|
                #[trigger] rows_of(final(self)@, n) == if n == name@ {
                    Some(vals_of(values@))
                } else {
                    rows_of(old(self)@, n)
                },
    {
        self.assert_facts(name, values)
    }

    /// The rows stored under `name`.
    pub fn get(&self, name: &str) -> (r: Option<&Vec<Value>>)
        requires
            self.wf(),
        ensures
            r matches Some(v) ==> rows_of(self@, name@) == Some(vals_of(v@)),
            r is None ==> rows_of(self@, name@) is None,
    {
        let p = self.position(name);
        if p < self.facts.len() && str_eq(self.facts[p].0.as_str(), name) {
            proof {
                lemma_rows_of_at(self@, p as int);
            }
            Some(&self.facts[p].1)
        } else {
            proof {
                assert forall|i: int| 0 <= i < self@.len() implies #[trigger] self@[i].0 != name@ by {
                    if i < p {
                        lemma_text_lt_irreflexive(name@);
                    } else if i > p {
                        assert(text_lt(self@[p as int].0, self@[i].0));
                    }
                }
            }
            None
        }
    }

    /// Name and row count of every fact set, ordered by name.
    pub fn list(&self) -> (r: Vec<(String, usize)>)
        requires
            self.wf(),
        ensures
            r@.len() == self@.len(),
            forall|i: int|
                0 <= i < r@.len() ==> (#[trigger] r@[i]).0@ == self@[i].0 && r@[i].1 == self@[i].1.len(),
            forall|i: int, j: int| 0 <= i < j < r@.len() ==> text_lt(#[trigger] r@[i].0@, #[trigger] r@[j].0@),
    {
        let mut out: Vec<(String, usize)> = Vec::new();
        let mut i: usize = 0;
        while i < self.facts.len()
            invariant
                i <= self.facts.len(),
                self@.len() == self.facts@.len(),
                out@.len() == i,
                forall|k: int|
                    0 <= k < i ==> (#[trigger] out@[k]).0@ == self@[k].0 && out@[k].1 == self@[k].1.len(),
            decreases self.facts.len() - i,
        {
            proof {
                lemma_vals_of(self.facts@[i as int].1@);
            }
            out.push((self.facts[i].0.clone(), self.facts[i].1.len()));
            i = i + 1;
        }
        assert forall|i: int, j: int| 0 <= i < j < out@.len() implies text_lt(#[trigger] out@[i].0@, #[trigger] out@[j].0@) by {
            assert(text_lt(self@[i].0, self@[j].0));
        }
        out
    }

    /// Removes the fact set `name`; whether there was one.
    pub fn clear(&mut self, name: &str) -> (r: bool)
        requires
            old(self).wf(),
        ensures
            final(self).wf(),
            r == rows_of(old(self)@, name@) is Some,
            forall|n: Seq<char>|
                #[trigger] rows_of(final(self)@, n) == if n == name@ {
                    None
                } else {
                    rows_of(old(self)@, n)
                },
    {
        let ghost old_v = self@;
        let found = self.get(name).is_some();
        if !found {
            return false;
        }
        let p = self.position(name);
        assert(p < self@.len() && self@[p as int].0 == name@) by {
            let i = choose|i: int| 0 <= i < old_v.len() && #[trigger] old_v[i].0 == name@;
            if i < p {
                lemma_text_lt_irreflexive(name@);
            } else if i > p {
                assert(text_lt(old_v[p as int].0, old_v[i].0));
                lemma_text_lt_total(old_v[p as int].0, name@);
                if text_lt(name@, old_v[p as int].0) {
                    lemma_text_lt_transitive(name@, old_v[p as int].0, old_v[i].0);
                    lemma_text_lt_irreflexive(name@);
                }
            }
        };
        self.facts.remove(p);
        proof {
            let nv = self@;
            assert(nv =~= old_v.remove(p as int));
            assert forall|i: int, j: int| 0 <= i < j < nv.len() implies text_lt(
                #[trigger] nv[i].0,
                #[trigger] nv[j].0,
            ) by {
                let a = if i < p { i } else { i + 1 };
                let b = if j < p { j } else { j + 1 };
                assert(nv[i] == old_v[a]);
                assert(nv[j] == old_v[b]);
            }
            assert forall|n: Seq<char>|
                #[trigger] rows_of(nv, n) == if n == name@ {
                    None
                } else {
                    rows_of(old_v, n)
                } by {
                if n == name@ {
                    assert forall|i: int| 0 <= i < nv.len() implies #[trigger] nv[i].0 != n by {
                        let a = if i < p { i } else { i + 1 };
                        assert(nv[i] == old_v[a]);
                        if a < p {
                            assert(text_lt(old_v[a].0, old_v[p as int].0));
                        } else {
                            assert(text_lt(old_v[p as int].0, old_v[a].0));
                        }
                        lemma_text_lt_irreflexive(n);
                    }
                } else if exists|i: int| 0 <= i < old_v.len() && #[trigger] old_v[i].0 == n {
                    let i = choose|i: int| 0 <= i < old_v.len() && #[trigger] old_v[i].0 == n;
                    lemma_rows_of_at(old_v, i);
                    let k = if i < p { i } else { i - 1 };
                    assert(nv[k] == old_v[i]);
                    lemma_rows_of_at(nv, k);
                } else {
                    assert forall|i: int| 0 <= i < nv.len() implies #[trigger] nv[i].0 != n by {
                        let a = if i < p { i } else { i + 1 };
                        assert(nv[i] == old_v[a]);
                    }
                }
            }
        }
        true
    }

    /// Removes every fact set.
    pub fn clear_all(&mut self)
        ensures
            final(self).wf(),
            final(self)@ == Seq::<FactSet>::empty(),
    {
        self.facts.clear();
        assert(self@ =~= Seq::<FactSet>::empty());
    }
}

} // verus!
