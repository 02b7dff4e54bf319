//! A snapshot: the type records of one metadata file, keyed by qualified
//! type name and kept in name order.

use vstd::prelude::*;
use crate::order::{less, lemma_less_irreflexive, lemma_less_total, lemma_less_transitive, string_less};
use crate::records::{TypeModel, TypeRecord};

verus! {

/// Every key sorts strictly before the keys after it (so no key repeats).
pub open spec fn keys_sorted(e: Seq<(Seq<char>, TypeModel)>) -> bool {
    forall|i: int, j: int| 0 <= i < j < e.len() ==> less(#[trigger] e[i].0, #[trigger] e[j].0)
}

/// Whether some entry has key `k`.
pub open spec fn has_key(e: Seq<(Seq<char>, TypeModel)>, k: Seq<char>) -> bool {
    exists|i: int| 0 <= i < e.len() && #[trigger] e[i].0 == k
}

/// A position of key `k` (meaningful when `has_key(e, k)`).
pub open spec fn key_index(e: Seq<(Seq<char>, TypeModel)>, k: Seq<char>) -> int {
    choose|i: int| 0 <= i < e.len() && #[trigger] e[i].0 == k
}

/// The record stored under key `k`, if any.
pub open spec fn lookup(e: Seq<(Seq<char>, TypeModel)>, k: Seq<char>) -> Option<TypeModel> {
    if has_key(e, k) {
        Some(e[key_index(e, k)].1)
    } else {
        None
    }
}

/// In a sorted sequence, the entry at a position is what its key looks up.
pub proof fn lemma_lookup_at(e: Seq<(Seq<char>, TypeModel)>, i: int)
    requires
        keys_sorted(e),
        0 <= i < e.len(),
    ensures
        lookup(e, e[i].0) == Some(e[i].1),
{
    let k = e[i].0;
    assert(has_key(e, k));
    let j = key_index(e, k);
    if j != i {
        if j < i {
            assert(less(e[j].0, e[i].0));
        } else {
            assert(less(e[i].0, e[j].0));
        }
        lemma_less_irreflexive(k);
    }
}

/// The type records of one metadata file, by qualified name.
#[derive(Debug, PartialEq, Eq)]
pub struct Snapshot {
    types: Vec<(String, TypeRecord)>,
}

impl View for Snapshot {
    type V = Seq<(Seq<char>, TypeModel)>;

    /// The entries in name order.
    closed spec fn view(&self) -> Seq<(Seq<char>, TypeModel)> {
        self.types.deep_view()
    }
}

impl Snapshot {
    #[verifier::type_invariant]
    spec fn sorted(&self) -> bool {
        keys_sorted(self.types.deep_view())
    }

    /// An empty snapshot.
    pub fn new() -> (r: Snapshot)
        ensures
            r@ == Seq::<(Seq<char>, TypeModel)>::empty(),
            keys_sorted(r@),
    {
        let r = Snapshot { types: Vec::new() };
        assert(r@ =~= Seq::<(Seq<char>, TypeModel)>::empty());
        r
    }

    /// The entries, read-only, in name order.
    pub fn entries(&self) -> (r: &Vec<(String, TypeRecord)>)
        ensures
            r.deep_view() == self@,
            keys_sorted(self@),
    {
        proof {
            use_type_invariant(self);
        }
        &self.types
    }

    /// The number of types.
    pub fn len(&self) -> (r: usize)
        ensures
            r == self@.len(),
    {
        self.types.len()
    }

    /// The position of `name`, when some entry has it.
    pub fn position(&self, name: &String) -> (r: Option<usize>)
        ensures
            keys_sorted(self@),
            r is Some <==> has_key(self@, name@),
            r matches Some(p) ==> p < self@.len() && self@[p as int].0 == name@ && lookup(self@, name@)
                == Some(self@[p as int].1),
    {
        proof {
            use_type_invariant(self);
        }
        let mut i: usize = 0;
        while i < self.types.len()
            invariant
                i <= self.types.len(),
                self.types.deep_view() == self@,
                keys_sorted(self@),
                forall|j: int| 0 <= j < i ==> #[trigger] self@[j].0 != name@,
            decreases self.types.len() - i,
        {
            if self.types[i].0 == *name {
                proof {
                    lemma_lookup_at(self@, i as int);
                }
                return Some(i);
            }
            i += 1;
        }
        None
    }

    /// Stores `record` under `name`, in name order, and gives back the
    /// record that was stored under that name before, if any.
    pub fn insert(&mut self, name: String, record: TypeRecord) -> (previous: Option<TypeRecord>)
        ensures
            keys_sorted(final(self)@),
            previous.deep_view() == lookup(old(self)@, name@),
            lookup(final(self)@, name@) == Some(record.deep_view()),
            forall|k: Seq<char>| k != name@ ==> lookup(final(self)@, k) == lookup(old(self)@, k),
            final(self)@.len() == old(self)@.len() + if has_key(old(self)@, name@) {
                0int
            } else {
                1int
            },
    {
        proof {
            use_type_invariant(&*self);
        }
        let ghost e = self@;
        let ghost k = name@;
        let mut types: Vec<(String, TypeRecord)> = Vec::new();
        std::mem::swap(&mut types, &mut self.types);
        assert(types.deep_view() == e);
        let mut p: usize = 0;
        while p < types.len()
            invariant
                types.deep_view() == e,
                k == name@,
                p <= types.len(),
                forall|j: int| 0 <= j < p ==> less(#[trigger] e[j].0, k),
            ensures
                types.deep_view() == e,
                p <= types.len(),
                forall|j: int| 0 <= j < p ==> less(#[trigger] e[j].0, k),
                p < types.len() ==> !less(e[p as int].0, k),
            decreases types.len() - p,
        {
            let before = string_less(types[p].0.as_str(), name.as_str());
            if !before {
                assert(e[p as int].0 == types@[p as int].0@);
                break;
            }
            assert(e[p as int].0 == types@[p as int].0@);
            p += 1;
        }
        let found = p < types.len() && types[p].0 == name;
        let ghost v = record.deep_view();
        let previous = if found {
            let (_, old_record) = types.remove(p);
            Some(old_record)
        } else {
            None
        };
        types.insert(p, (name, record));
        let ghost n = types.deep_view();
        proof {
            // Keys after the insertion point sort after `k`.
            assert forall|j: int| p <= j < e.len() && e[j].0 != k implies less(k, #[trigger] e[j].0) by {
                if !less(k, e[p as int].0) {
                    if e[p as int].0 != k {
                        lemma_less_total(e[p as int].0, k);
                    }
                }
                if j > p {
                    if e[p as int].0 == k {
                        assert(less(e[p as int].0, e[j].0));
                    } else {
                        lemma_less_total(e[p as int].0, k);
                        lemma_less_transitive(k, e[p as int].0, e[j].0);
                    }
                } else {
                    lemma_less_total(e[p as int].0, k);
                }
            }
            if found {
                assert(e[p as int].0 == k);
                assert(n =~= e.take(p as int) + seq![(k, v)] + e.skip(p + 1));
            } else {
                assert(n =~= e.take(p as int) + seq![(k, v)] + e.skip(p as int));
            }
            assert(keys_sorted(n)) by {
                assert forall|a: int, b: int| 0 <= a < b < n.len() implies less(
                    #[trigger] n[a].0,
                    #[trigger] n[b].0,
                ) by {
                    if a < p && b > p {
                        let bb = if found { b } else { b - 1 };
                        if e[bb].0 != k {
                            lemma_less_transitive(n[a].0, k, n[b].0);
                        }
                    } else if a == p {
                        let bb = if found { b } else { b - 1 };
                        assert(n[b] == e[bb]);
                    }
                }
            }
            // Where each key now is.
            lemma_lookup_at(n, p as int);
            assert forall|q: Seq<char>| q != k implies lookup(n, q) == lookup(e, q) by {
                if has_key(e, q) {
                    let i = choose|i: int| 0 <= i < e.len() && #[trigger] e[i].0 == q;
                    lemma_lookup_at(e, i);
                    if i < p {
                        lemma_lookup_at(n, i);
                    } else {
                        let ni = if found { i } else { i + 1 };
                        if found && i == p {
                        } else {
                            assert(n[ni] == e[i]);
                            lemma_lookup_at(n, ni);
                        }
                    }
                } else {
                    if has_key(n, q) {
                        let i = choose|i: int| 0 <= i < n.len() && #[trigger] n[i].0 == q;
                        if i < p {
                            assert(e[i].0 == q);
                        } else if i > p {
                            let ei = if found { i } else { i - 1 };
                            assert(e[ei].0 == q);
                        }
                    }
                }
            }
            if found {
                lemma_lookup_at(e, p as int);
            } else {
                if has_key(e, k) {
                    let i = choose|i: int| 0 <= i < e.len() && #[trigger] e[i].0 == k;
                    assert(e[i].0 == k);
                    lemma_less_irreflexive(k);
                }
            }
        }
        self.types = types;
        previous
    }
}

} // verus!
