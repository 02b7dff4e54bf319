//! Properties of the library as a whole: what a passing comparison tells
//! about the two snapshots, and when a snapshot passes against itself.

use vstd::prelude::*;
use crate::names::{after_last_dot, qualified, short};
use crate::order::{lemma_less_asymmetric, lemma_less_irreflexive, less};
use crate::records::TypeModel;
use crate::canonical::{type_model, TypeDefRow};
use crate::snapshot::{has_key, keys_sorted, lemma_lookup_at, lookup};
use crate::text::debug_option_text;
use crate::validation::{
    agility_messages, baseline_interface, baseline_messages, candidate_interface, comparison,
    expected_agile, method_names, migration_agility_messages, migration_baseline,
    migration_baseline_messages, migration_candidate, migration_comparison,
    migration_unexpected_messages, type_difference_messages, unexpected_messages,
};

verus! {

/// Two records agree in everything the strict comparison describes: all
/// but the agility flag.
pub open spec fn same_but_agility(e: TypeModel, a: TypeModel) -> bool {
    &&& e.category == a.category
    &&& e.flags == a.flags
    &&& e.extends == a.extends
    &&& e.interfaces == a.interfaces
    &&& e.layout == a.layout
    &&& e.fields == a.fields
    &&& e.methods == a.methods
    &&& e.attributes == a.attributes
    &&& e.guid == a.guid
}

/// Every type of the snapshot carries the agility marker exactly when its
/// name and category call for it.
pub open spec fn agility_consistent(s: Seq<(Seq<char>, TypeModel)>) -> bool {
    forall|i: int| 0 <= i < s.len() ==> (#[trigger] s[i]).1.agile == expected_agile(s[i].0, s[i].1)
}

/// No message describes a difference exactly when the records agree in
/// all but the agility flag.
pub proof fn lemma_type_difference_empty(name: Seq<char>, e: TypeModel, a: TypeModel)
    ensures
        type_difference_messages(name, e, a).len() == 0 <==> same_but_agility(e, a),
{
}

proof fn lemma_baseline_messages_empty(b: Seq<(Seq<char>, TypeModel)>, c: Seq<(Seq<char>, TypeModel)>)
    ensures
        baseline_messages(b, c).len() == 0 <==> forall|i: int| 0 <= i < b.len() ==> (
        lookup(c, (#[trigger] b[i]).0) matches Some(a) && same_but_agility(b[i].1, a)),
    decreases b.len(),
{
    if b.len() > 0 {
        let d = b.drop_last();
        lemma_baseline_messages_empty(d, c);
        lemma_type_difference_empty(b.last().0, b.last().1, match lookup(c, b.last().0) {
            Some(a) => a,
            None => b.last().1,
        });
        if baseline_messages(b, c).len() == 0 {
            assert forall|i: int| 0 <= i < b.len() implies (lookup(c, (#[trigger] b[i]).0) matches Some(
                a,
            ) && same_but_agility(b[i].1, a)) by {
                if i < d.len() {
                    assert(b[i] == d[i]);
                }
            }
        } else {
            if forall|i: int| 0 <= i < b.len() ==> (lookup(c, (#[trigger] b[i]).0) matches Some(a)
                && same_but_agility(b[i].1, a)) {
                assert forall|i: int| 0 <= i < d.len() implies (lookup(c, (#[trigger] d[i]).0) matches Some(
                    a,
                ) && same_but_agility(d[i].1, a)) by {
                    assert(b[i] == d[i]);
                }
                assert(b[b.len() - 1] == b.last());
            }
        }
    }
}

proof fn lemma_unexpected_messages_empty(c: Seq<(Seq<char>, TypeModel)>, b: Seq<(Seq<char>, TypeModel)>)
    ensures
        unexpected_messages(c, b).len() == 0 <==> forall|i: int| 0 <= i < c.len() ==> has_key(
            b,
            (#[trigger] c[i]).0,
        ),
    decreases c.len(),
{
    if c.len() > 0 {
        let d = c.drop_last();
        lemma_unexpected_messages_empty(d, b);
        if unexpected_messages(c, b).len() == 0 {
            assert forall|i: int| 0 <= i < c.len() implies has_key(b, (#[trigger] c[i]).0) by {
                if i < d.len() {
                    assert(c[i] == d[i]);
                }
            }
        } else {
            if forall|i: int| 0 <= i < c.len() ==> has_key(b, (#[trigger] c[i]).0) {
                assert forall|i: int| 0 <= i < d.len() implies has_key(b, (#[trigger] d[i]).0) by {
                    assert(c[i] == d[i]);
                }
                assert(c[c.len() - 1] == c.last());
            }
        }
    }
}

proof fn lemma_agility_messages_empty(c: Seq<(Seq<char>, TypeModel)>)
    ensures
        agility_messages(c).len() == 0 <==> agility_consistent(c),
    decreases c.len(),
{
    if c.len() > 0 {
        let d = c.drop_last();
        lemma_agility_messages_empty(d);
        if agility_messages(c).len() == 0 {
            assert forall|i: int| 0 <= i < c.len() implies (#[trigger] c[i]).1.agile == expected_agile(
                c[i].0,
                c[i].1,
            ) by {
                if i < d.len() {
                    assert(c[i] == d[i]);
                }
            }
        } else {
            if agility_consistent(c) {
                assert forall|i: int| 0 <= i < d.len() implies (#[trigger] d[i]).1.agile
                    == expected_agile(d[i].0, d[i].1) by {
                    assert(c[i] == d[i]);
                }
                assert(c[c.len() - 1] == c.last());
            }
        }
    }
}

/// The strict comparison reports nothing exactly when the candidate holds
/// every baseline type with the same record (all but the agility flag),
/// holds no other type, and marks as agile exactly the types that call for
/// it.
pub proof fn lemma_comparison_empty(b: Seq<(Seq<char>, TypeModel)>, c: Seq<(Seq<char>, TypeModel)>)
    ensures
        comparison(b, c).len() == 0 <==> {
            &&& forall|i: int| 0 <= i < b.len() ==> (lookup(c, (#[trigger] b[i]).0) matches Some(a)
                && same_but_agility(b[i].1, a))
            &&& forall|i: int| 0 <= i < c.len() ==> has_key(b, (#[trigger] c[i]).0)
            &&& agility_consistent(c)
        },
{
    lemma_baseline_messages_empty(b, c);
    lemma_unexpected_messages_empty(c, b);
    lemma_agility_messages_empty(c);
}

/// A candidate that passes the strict comparison against a baseline whose
/// agility markers are consistent holds exactly the baseline's types with
/// exactly the baseline's records.
pub proof fn lemma_pass_means_equal(b: Seq<(Seq<char>, TypeModel)>, c: Seq<(Seq<char>, TypeModel)>)
    requires
        keys_sorted(b),
        keys_sorted(c),
        agility_consistent(b),
        comparison(b, c).len() == 0,
    ensures
        forall|k: Seq<char>| #[trigger] lookup(b, k) == lookup(c, k),
{
    lemma_comparison_empty(b, c);
    assert forall|k: Seq<char>| #[trigger] lookup(b, k) == lookup(c, k) by {
        if has_key(b, k) {
            let i = choose|i: int| 0 <= i < b.len() && #[trigger] b[i].0 == k;
            lemma_lookup_at(b, i);
            let a = lookup(c, k)->Some_0;
            let j = choose|j: int| 0 <= j < c.len() && #[trigger] c[j].0 == k;
            lemma_lookup_at(c, j);
            assert(b[i].1.agile == expected_agile(k, b[i].1));
            assert(c[j].1.agile == expected_agile(k, c[j].1));
        } else if has_key(c, k) {
            let j = choose|j: int| 0 <= j < c.len() && #[trigger] c[j].0 == k;
            assert(has_key(b, c[j].0));
        }
    }
}

/// A snapshot passes the strict comparison against itself exactly when its
/// agility markers are consistent.
pub proof fn lemma_identical_passes(s: Seq<(Seq<char>, TypeModel)>)
    requires
        keys_sorted(s),
    ensures
        comparison(s, s).len() == 0 <==> agility_consistent(s),
{
    lemma_comparison_empty(s, s);
    assert forall|i: int| 0 <= i < s.len() implies (lookup(s, (#[trigger] s[i]).0) matches Some(a)
        && same_but_agility(s[i].1, a)) by {
        lemma_lookup_at(s, i);
    }
    assert forall|i: int| 0 <= i < s.len() implies has_key(s, (#[trigger] s[i]).0) by {
        assert(s[i].0 == s[i].0);
    }
}

/// The candidate holds a selected baseline interface when it selects an
/// interface under the same name with the same GUID and method names.
pub open spec fn interface_kept(c: Seq<(Seq<char>, TypeModel)>, name: Seq<char>, e: TypeModel) -> bool {
    candidate_interface(c, name) matches Some(a) && e.guid == a.guid && method_names(e)
        == method_names(a)
}

proof fn lemma_migration_baseline_empty(
    b: Seq<(Seq<char>, TypeModel)>,
    c: Seq<(Seq<char>, TypeModel)>,
)
    ensures
        migration_baseline_messages(b, c).len() == 0 <==> forall|i: int| 0 <= i < b.len()
            ==> migration_baseline((#[trigger] b[i]).0, b[i].1) ==> interface_kept(c, b[i].0, b[i].1),
    decreases b.len(),
{
    if b.len() > 0 {
        let d = b.drop_last();
        lemma_migration_baseline_empty(d, c);
        if migration_baseline_messages(b, c).len() == 0 {
            assert forall|i: int| 0 <= i < b.len() implies migration_baseline((#[trigger] b[i]).0, b[i].1)
                ==> interface_kept(c, b[i].0, b[i].1) by {
                if i < d.len() {
                    assert(b[i] == d[i]);
                }
            }
        } else {
            if forall|i: int| 0 <= i < b.len() ==> migration_baseline((#[trigger] b[i]).0, b[i].1)
                ==> interface_kept(c, b[i].0, b[i].1) {
                assert forall|i: int| 0 <= i < d.len() implies migration_baseline(
                    (#[trigger] d[i]).0,
                    d[i].1,
                ) ==> interface_kept(c, d[i].0, d[i].1) by {
                    assert(b[i] == d[i]);
                }
                assert(b[b.len() - 1] == b.last());
            }
        }
    }
}

proof fn lemma_migration_unexpected_empty(
    c: Seq<(Seq<char>, TypeModel)>,
    b: Seq<(Seq<char>, TypeModel)>,
)
    ensures
        migration_unexpected_messages(c, b).len() == 0 <==> forall|i: int| 0 <= i < c.len()
            ==> migration_candidate((#[trigger] c[i]).0, c[i].1) ==> baseline_interface(b, c[i].0),
    decreases c.len(),
{
    if c.len() > 0 {
        let d = c.drop_last();
        lemma_migration_unexpected_empty(d, b);
        if migration_unexpected_messages(c, b).len() == 0 {
            assert forall|i: int| 0 <= i < c.len() implies migration_candidate((#[trigger] c[i]).0, c[i].1)
                ==> baseline_interface(b, c[i].0) by {
                if i < d.len() {
                    assert(c[i] == d[i]);
                }
            }
        } else {
            if forall|i: int| 0 <= i < c.len() ==> migration_candidate((#[trigger] c[i]).0, c[i].1)
                ==> baseline_interface(b, c[i].0) {
                assert forall|i: int| 0 <= i < d.len() implies migration_candidate(
                    (#[trigger] d[i]).0,
                    d[i].1,
                ) ==> baseline_interface(b, d[i].0) by {
                    assert(c[i] == d[i]);
                }
                assert(c[c.len() - 1] == c.last());
            }
        }
    }
}

proof fn lemma_migration_agility_empty(c: Seq<(Seq<char>, TypeModel)>)
    ensures
        migration_agility_messages(c).len() == 0 <==> forall|i: int| 0 <= i < c.len()
            ==> migration_candidate((#[trigger] c[i]).0, c[i].1) ==> c[i].1.agile,
    decreases c.len(),
{
    if c.len() > 0 {
        let d = c.drop_last();
        lemma_migration_agility_empty(d);
        if migration_agility_messages(c).len() == 0 {
            assert forall|i: int| 0 <= i < c.len() implies migration_candidate((#[trigger] c[i]).0, c[i].1)
                ==> c[i].1.agile by {
                if i < d.len() {
                    assert(c[i] == d[i]);
                }
            }
        } else {
            if forall|i: int| 0 <= i < c.len() ==> migration_candidate((#[trigger] c[i]).0, c[i].1)
                ==> c[i].1.agile {
                assert forall|i: int| 0 <= i < d.len() implies migration_candidate(
                    (#[trigger] d[i]).0,
                    d[i].1,
                ) ==> d[i].1.agile by {
                    assert(c[i] == d[i]);
                }
                assert(c[c.len() - 1] == c.last());
            }
        }
    }
}

/// The migration comparison reports nothing exactly when every `IFabric`
/// interface of the baseline, legacy duplicates aside, is an `IFabric`
/// interface of the candidate with the same GUID and method names in the
/// same order, every `IFabric` interface of the candidate is such a
/// baseline interface, and every one of them is agile.
pub proof fn lemma_migration_comparison_empty(
    b: Seq<(Seq<char>, TypeModel)>,
    c: Seq<(Seq<char>, TypeModel)>,
)
    ensures
        migration_comparison(b, c).len() == 0 <==> {
            &&& forall|i: int| 0 <= i < b.len() ==> migration_baseline((#[trigger] b[i]).0, b[i].1)
                ==> interface_kept(c, b[i].0, b[i].1)
            &&& forall|i: int| 0 <= i < c.len() ==> migration_candidate((#[trigger] c[i]).0, c[i].1)
                ==> baseline_interface(b, c[i].0)
            &&& forall|i: int| 0 <= i < c.len() ==> migration_candidate((#[trigger] c[i]).0, c[i].1)
                ==> c[i].1.agile
        },
{
    lemma_migration_baseline_empty(b, c);
    lemma_migration_unexpected_empty(c, b);
    lemma_migration_agility_empty(c);
}

/// A snapshot passes the migration comparison against itself exactly when
/// it holds no legacy duplicate `IFabric` interface and all its `IFabric`
/// interfaces are agile.
pub proof fn lemma_migration_identical(s: Seq<(Seq<char>, TypeModel)>)
    requires
        keys_sorted(s),
    ensures
        migration_comparison(s, s).len() == 0 <==> forall|i: int| 0 <= i < s.len()
            ==> migration_candidate((#[trigger] s[i]).0, s[i].1) ==> (migration_baseline(
            s[i].0,
            s[i].1,
        ) && s[i].1.agile),
{
    lemma_migration_comparison_empty(s, s);
    assert forall|i: int| 0 <= i < s.len() && migration_baseline((#[trigger] s[i]).0, s[i].1)
        implies interface_kept(s, s[i].0, s[i].1) by {
        lemma_lookup_at(s, i);
    }
    assert forall|i: int| 0 <= i < s.len() && migration_candidate((#[trigger] s[i]).0, s[i].1)
        implies (baseline_interface(s, s[i].0) == migration_baseline(s[i].0, s[i].1)) by {
        lemma_lookup_at(s, i);
    }
}

proof fn lemma_after_last_dot_concat(a: Seq<char>, name: Seq<char>)
    requires
        forall|i: int| 0 <= i < name.len() ==> name[i] != '.',
        a.len() == 0 || a.last() == '.',
    ensures
        after_last_dot(a + name) == a.len(),
    decreases name.len(),
{
    if name.len() > 0 {
        assert((a + name).drop_last() =~= a + name.drop_last());
        lemma_after_last_dot_concat(a, name.drop_last());
    } else {
        assert(a + name =~= a);
    }
}

/// The short name of a qualified name is the name, when the name holds no
/// dot.
pub proof fn lemma_short_of_qualified(namespace: Seq<char>, name: Seq<char>)
    requires
        forall|i: int| 0 <= i < name.len() ==> name[i] != '.',
    ensures
        short(qualified(namespace, name)) == name,
{
    let a = if namespace.len() == 0 {
        Seq::<char>::empty()
    } else {
        namespace.push('.')
    };
    assert(qualified(namespace, name) =~= a + name);
    lemma_after_last_dot_concat(a, name);
    assert((a + name).skip(a.len() as int) =~= name);
}

proof fn lemma_missing_reported(b: Seq<(Seq<char>, TypeModel)>, c: Seq<(Seq<char>, TypeModel)>, i: int)
    requires
        0 <= i < b.len(),
        !has_key(c, b[i].0),
    ensures
        baseline_messages(b, c).contains("missing type: "@ + b[i].0),
    decreases b.len(),
{
    let d = b.drop_last();
    if i < d.len() {
        assert(d[i] == b[i]);
        lemma_missing_reported(d, c, i);
        let k = choose|k: int| 0 <= k < baseline_messages(d, c).len() && baseline_messages(d, c)[k]
            == "missing type: "@ + b[i].0;
        assert(baseline_messages(b, c)[k] == baseline_messages(d, c)[k]);
    } else {
        let m = baseline_messages(b, c);
        assert(m[m.len() - 1] == "missing type: "@ + b[i].0);
    }
}

proof fn lemma_unexpected_reported(c: Seq<(Seq<char>, TypeModel)>, b: Seq<(Seq<char>, TypeModel)>, i: int)
    requires
        0 <= i < c.len(),
        !has_key(b, c[i].0),
    ensures
        unexpected_messages(c, b).contains("unexpected type: "@ + c[i].0),
    decreases c.len(),
{
    let d = c.drop_last();
    if i < d.len() {
        assert(d[i] == c[i]);
        lemma_unexpected_reported(d, b, i);
        let k = choose|k: int| 0 <= k < unexpected_messages(d, b).len() && unexpected_messages(d, b)[k]
            == "unexpected type: "@ + c[i].0;
        assert(unexpected_messages(c, b)[k] == unexpected_messages(d, b)[k]);
    } else {
        let m = unexpected_messages(c, b);
        assert(m[m.len() - 1] == "unexpected type: "@ + c[i].0);
    }
}

/// A type of one snapshot that the other lacks is reported as missing when
/// the first is the baseline, and as unexpected when the roles are swapped.
pub proof fn lemma_missing_is_unexpected_reversed(
    b: Seq<(Seq<char>, TypeModel)>,
    c: Seq<(Seq<char>, TypeModel)>,
    k: Seq<char>,
)
    requires
        has_key(b, k),
        !has_key(c, k),
    ensures
        comparison(b, c).contains("missing type: "@ + k),
        comparison(c, b).contains("unexpected type: "@ + k),
{
    let i = choose|i: int| 0 <= i < b.len() && #[trigger] b[i].0 == k;
    lemma_missing_reported(b, c, i);
    lemma_unexpected_reported(b, c, i);
    let m = baseline_messages(b, c);
    let x = choose|x: int| 0 <= x < m.len() && m[x] == "missing type: "@ + k;
    assert(comparison(b, c)[x] == m[x]);
    let u = unexpected_messages(b, c);
    let y = choose|y: int| 0 <= y < u.len() && u[y] == "unexpected type: "@ + k;
    let p = baseline_messages(c, b);
    assert(comparison(c, b)[p.len() + y] == u[y]);
}

/// The entries of `s` that `sel` keeps, each as its name and `proj` of its
/// record, in order.
pub open spec fn select<X>(
    s: Seq<(Seq<char>, TypeModel)>,
    sel: spec_fn(Seq<char>, TypeModel) -> bool,
    proj: spec_fn(TypeModel) -> X,
) -> Seq<(Seq<char>, X)>
    decreases s.len(),
{
    if s.len() == 0 {
        Seq::empty()
    } else {
        let (n, r) = s.last();
        select(s.drop_last(), sel, proj) + if sel(n, r) {
            seq![(n, proj(r))]
        } else {
            Seq::empty()
        }
    }
}

/// Whether some entry of `p` has name `n`.
pub open spec fn names_has<X>(p: Seq<(Seq<char>, X)>, n: Seq<char>) -> bool {
    exists|i: int| 0 <= i < p.len() && #[trigger] p[i].0 == n
}

/// Names strictly ascending.
pub open spec fn names_sorted<X>(p: Seq<(Seq<char>, X)>) -> bool {
    forall|i: int, j: int| 0 <= i < j < p.len() ==> less(#[trigger] p[i].0, #[trigger] p[j].0)
}

/// What selecting from a sorted snapshot gives: names in order, each one
/// an entry that `sel` keeps, and every such entry present.
proof fn lemma_select<X>(
    s: Seq<(Seq<char>, TypeModel)>,
    sel: spec_fn(Seq<char>, TypeModel) -> bool,
    proj: spec_fn(TypeModel) -> X,
)
    requires
        keys_sorted(s),
    ensures
        names_sorted(select(s, sel, proj)),
        forall|i: int|
            0 <= i < select(s, sel, proj).len() ==> exists|j: int|
                0 <= j < s.len() && s[j].0 == (#[trigger] select(s, sel, proj)[i]).0 && sel(
                    s[j].0,
                    s[j].1,
                ) && select(s, sel, proj)[i].1 == proj(s[j].1),
        forall|j: int|
            0 <= j < s.len() && sel(s[j].0, s[j].1) ==> names_has(
                select(s, sel, proj),
                #[trigger] s[j].0,
            ),
    decreases s.len(),
{
    if s.len() > 0 {
        let d = s.drop_last();
        let last = s.len() - 1;
        assert forall|i: int, j: int| 0 <= i < j < d.len() implies less(
            #[trigger] d[i].0,
            #[trigger] d[j].0,
        ) by {
            assert(d[i] == s[i] && d[j] == s[j]);
        }
        lemma_select(d, sel, proj);
        let pd = select(d, sel, proj);
        let p = select(s, sel, proj);
        let (n, r) = s.last();
        if sel(n, r) {
            assert(p == pd.push((n, proj(r))));
        } else {
            assert(p =~= pd);
        }
        assert forall|i: int| 0 <= i < p.len() implies exists|j: int|
            0 <= j < s.len() && s[j].0 == (#[trigger] p[i]).0 && sel(s[j].0, s[j].1) && p[i].1
                == proj(s[j].1) by {
            if i < pd.len() {
                assert(p[i] == pd[i]);
                let j = choose|j: int|
                    0 <= j < d.len() && d[j].0 == pd[i].0 && sel(d[j].0, d[j].1) && pd[i].1
                        == proj(d[j].1);
                assert(s[j] == d[j]);
            } else {
                assert(s[last] == (n, r));
            }
        }
        assert forall|i: int, k: int| 0 <= i < k < p.len() implies less(
            #[trigger] p[i].0,
            #[trigger] p[k].0,
        ) by {
            if k < pd.len() {
                assert(p[i] == pd[i] && p[k] == pd[k]);
            } else {
                assert(p[i] == pd[i]);
                let j = choose|j: int|
                    0 <= j < d.len() && d[j].0 == pd[i].0 && sel(d[j].0, d[j].1) && pd[i].1
                        == proj(d[j].1);
                assert(s[j] == d[j]);
                assert(less(s[j].0, s[last].0));
            }
        }
        assert forall|j: int| 0 <= j < s.len() && sel(s[j].0, s[j].1) implies names_has(
            p,
            #[trigger] s[j].0,
        ) by {
            if j < last {
                assert(d[j] == s[j]);
                assert(names_has(pd, d[j].0));
                let i = choose|i: int| 0 <= i < pd.len() && #[trigger] pd[i].0 == d[j].0;
                assert(p[i] == pd[i]);
            } else {
                assert(p[pd.len() as int].0 == n);
            }
        }
    }
}

/// Two sequences with names strictly ascending, the same names, and the
/// same value under each name are equal.
proof fn lemma_sorted_equal<X>(p1: Seq<(Seq<char>, X)>, p2: Seq<(Seq<char>, X)>)
    requires
        names_sorted(p1),
        names_sorted(p2),
        forall|n: Seq<char>| #[trigger] names_has(p1, n) == names_has(p2, n),
        forall|i: int, j: int|
            0 <= i < p1.len() && 0 <= j < p2.len() && #[trigger] p1[i].0 == #[trigger] p2[j].0
                ==> p1[i].1 == p2[j].1,
    ensures
        p1 == p2,
    decreases p1.len() + p2.len(),
{
    if p1.len() == 0 && p2.len() == 0 {
        assert(p1 =~= p2);
    } else if p1.len() == 0 {
        assert(names_has(p2, p2[0].0));
        assert(names_has(p1, p2[0].0));
    } else if p2.len() == 0 {
        assert(names_has(p1, p1[0].0));
    } else {
        let l1 = p1.len() - 1;
        let l2 = p2.len() - 1;
        let n1 = p1[l1].0;
        let n2 = p2[l2].0;
        assert(names_has(p1, n1));
        assert(names_has(p2, n2));
        if n1 != n2 {
            assert(names_has(p2, n1));
            assert(names_has(p1, n2));
            let j = choose|j: int| 0 <= j < p2.len() && #[trigger] p2[j].0 == n1;
            let i = choose|i: int| 0 <= i < p1.len() && #[trigger] p1[i].0 == n2;
            assert(j != l2 && i != l1);
            assert(less(p2[j].0, p2[l2].0));
            assert(less(p1[i].0, p1[l1].0));
            lemma_less_asymmetric(n1, n2);
            assert(false);
        }
        assert(n1 == n2);
        assert(p1[l1].1 == p2[l2].1);
        let d1 = p1.drop_last();
        let d2 = p2.drop_last();
        assert forall|i: int, j: int| 0 <= i < j < d1.len() implies less(
            #[trigger] d1[i].0,
            #[trigger] d1[j].0,
        ) by {
            assert(d1[i] == p1[i] && d1[j] == p1[j]);
        }
        assert forall|i: int, j: int| 0 <= i < j < d2.len() implies less(
            #[trigger] d2[i].0,
            #[trigger] d2[j].0,
        ) by {
            assert(d2[i] == p2[i] && d2[j] == p2[j]);
        }
        assert forall|n: Seq<char>| #[trigger] names_has(d1, n) == names_has(d2, n) by {
            if names_has(d1, n) {
                let i = choose|i: int| 0 <= i < d1.len() && #[trigger] d1[i].0 == n;
                assert(p1[i].0 == n);
                assert(less(p1[i].0, p1[l1].0));
                lemma_less_irreflexive(n);
                assert(names_has(p1, n));
                let j = choose|j: int| 0 <= j < p2.len() && #[trigger] p2[j].0 == n;
                assert(j != l2);
                assert(d2[j].0 == n);
            }
            if names_has(d2, n) {
                let j = choose|j: int| 0 <= j < d2.len() && #[trigger] d2[j].0 == n;
                assert(p2[j].0 == n);
                assert(less(p2[j].0, p2[l2].0));
                lemma_less_irreflexive(n);
                assert(names_has(p2, n));
                assert(names_has(p1, n));
                let i = choose|i: int| 0 <= i < p1.len() && #[trigger] p1[i].0 == n;
                assert(i != l1);
                assert(d1[i].0 == n);
            }
        }
        assert forall|i: int, j: int|
            0 <= i < d1.len() && 0 <= j < d2.len() && #[trigger] d1[i].0 == #[trigger] d2[j].0
                implies d1[i].1 == d2[j].1 by {
            assert(d1[i] == p1[i] && d2[j] == p2[j]);
        }
        lemma_sorted_equal(d1, d2);
        assert(p1 =~= d1.push(p1[l1]));
        assert(p2 =~= d2.push(p2[l2]));
    }
}

/// Selecting from a sorted snapshot keeps exactly the names whose record
/// `sel` keeps, each with `proj` of that record.
proof fn lemma_select_lookup<X>(
    s: Seq<(Seq<char>, TypeModel)>,
    sel: spec_fn(Seq<char>, TypeModel) -> bool,
    proj: spec_fn(TypeModel) -> X,
)
    requires
        keys_sorted(s),
    ensures
        names_sorted(select(s, sel, proj)),
        forall|n: Seq<char>|
            #[trigger] names_has(select(s, sel, proj), n) == (lookup(s, n) matches Some(r) && sel(
                n,
                r,
            )),
        forall|i: int|
            0 <= i < select(s, sel, proj).len() ==> (lookup(s, (#[trigger] select(s, sel, proj)[i]).0)
                matches Some(r) && select(s, sel, proj)[i].1 == proj(r)),
{
    lemma_select(s, sel, proj);
    let p = select(s, sel, proj);
    assert forall|i: int| 0 <= i < p.len() implies (lookup(s, (#[trigger] p[i]).0) matches Some(r)
        && p[i].1 == proj(r)) by {
        let j = choose|j: int|
            0 <= j < s.len() && s[j].0 == p[i].0 && sel(s[j].0, s[j].1) && p[i].1 == proj(s[j].1);
        lemma_lookup_at(s, j);
    }
    assert forall|n: Seq<char>| #[trigger] names_has(p, n) == (lookup(s, n) matches Some(r) && sel(
        n,
        r,
    )) by {
        if names_has(p, n) {
            let i = choose|i: int| 0 <= i < p.len() && #[trigger] p[i].0 == n;
            let j = choose|j: int|
                0 <= j < s.len() && s[j].0 == p[i].0 && sel(s[j].0, s[j].1) && p[i].1 == proj(
                    s[j].1,
                );
            lemma_lookup_at(s, j);
        }
        if lookup(s, n) is Some {
            let j = choose|j: int| 0 <= j < s.len() && #[trigger] s[j].0 == n;
            lemma_lookup_at(s, j);
            if sel(s[j].0, s[j].1) {
                assert(names_has(p, s[j].0));
            }
        }
    }
}

/// What the migration comparison reads of the baseline type named `n`:
/// nothing unless it is a selected `IFabric` interface, else its GUID and
/// method names.
pub open spec fn baseline_fields(b: Seq<(Seq<char>, TypeModel)>, n: Seq<char>) -> Option<
    (Option<Seq<char>>, Seq<Seq<char>>),
> {
    match lookup(b, n) {
        Some(r) => if migration_baseline(n, r) {
            Some((r.guid, method_names(r)))
        } else {
            None
        },
        None => None,
    }
}

/// What the migration comparison reads of the candidate type named `n`:
/// nothing unless it is an `IFabric` interface, else its GUID, method names
/// and agility marker.
pub open spec fn candidate_fields(c: Seq<(Seq<char>, TypeModel)>, n: Seq<char>) -> Option<
    (Option<Seq<char>>, Seq<Seq<char>>, bool),
> {
    match candidate_interface(c, n) {
        Some(r) => Some((r.guid, method_names(r), r.agile)),
        None => None,
    }
}

/// The messages about one selected baseline interface.
spec fn interface_messages(
    name: Seq<char>,
    guid: Option<Seq<char>>,
    names: Seq<Seq<char>>,
    c: Seq<(Seq<char>, TypeModel)>,
) -> Seq<Seq<char>> {
    match candidate_interface(c, name) {
        None => seq!["missing interface: "@ + name],
        Some(actual) => crate::validation::when(
            guid != actual.guid,
            name + ": GUID changed from "@ + debug_option_text(guid) + " to "@ + debug_option_text(
                actual.guid,
            ),
        ) + crate::validation::when(names != method_names(actual), name + ": method names or order changed"@),
    }
}

/// The baseline part of the migration comparison, over the selected
/// baseline interfaces.
spec fn selected_baseline_messages(
    p: Seq<(Seq<char>, (Option<Seq<char>>, Seq<Seq<char>>))>,
    c: Seq<(Seq<char>, TypeModel)>,
) -> Seq<Seq<char>>
    decreases p.len(),
{
    if p.len() == 0 {
        Seq::empty()
    } else {
        let (name, (guid, names)) = p.last();
        selected_baseline_messages(p.drop_last(), c) + interface_messages(name, guid, names, c)
    }
}

/// The unexpected-interface part of the migration comparison, over the
/// selected candidate interfaces.
spec fn selected_unexpected_messages(
    p: Seq<(Seq<char>, (Option<Seq<char>>, Seq<Seq<char>>, bool))>,
    b: Seq<(Seq<char>, TypeModel)>,
) -> Seq<Seq<char>>
    decreases p.len(),
{
    if p.len() == 0 {
        Seq::empty()
    } else {
        let name = p.last().0;
        selected_unexpected_messages(p.drop_last(), b) + crate::validation::when(
            !baseline_interface(b, name),
            "unexpected interface: "@ + name,
        )
    }
}

/// The agility part of the migration comparison, over the selected
/// candidate interfaces.
spec fn selected_agility_messages(p: Seq<(Seq<char>, (Option<Seq<char>>, Seq<Seq<char>>, bool))>) -> Seq<
    Seq<char>,
>
    decreases p.len(),
{
    if p.len() == 0 {
        Seq::empty()
    } else {
        let name = p.last().0;
        selected_agility_messages(p.drop_last()) + crate::validation::when(
            !p.last().1.2,
            "missing agility marker: "@ + name,
        )
    }
}

proof fn lemma_baseline_part_selected(
    s: Seq<(Seq<char>, TypeModel)>,
    c: Seq<(Seq<char>, TypeModel)>,
    sel: spec_fn(Seq<char>, TypeModel) -> bool,
    proj: spec_fn(TypeModel) -> (Option<Seq<char>>, Seq<Seq<char>>),
)
    requires
        forall|n: Seq<char>, r: TypeModel| #[trigger] sel(n, r) == migration_baseline(n, r),
        forall|r: TypeModel| #[trigger] proj(r) == (r.guid, method_names(r)),
    ensures
        migration_baseline_messages(s, c) == selected_baseline_messages(select(s, sel, proj), c),
    decreases s.len(),
{
    if s.len() > 0 {
        let d = s.drop_last();
        lemma_baseline_part_selected(d, c, sel, proj);
        let pd = select(d, sel, proj);
        let p = select(s, sel, proj);
        let (n, r) = s.last();
        if sel(n, r) {
            assert(p.drop_last() =~= pd);
            assert(p.last() == (n, proj(r)));
        } else {
            assert(p =~= pd);
            assert(migration_baseline_messages(s, c) =~= migration_baseline_messages(d, c));
        }
    }
}

proof fn lemma_unexpected_part_selected(
    s: Seq<(Seq<char>, TypeModel)>,
    b: Seq<(Seq<char>, TypeModel)>,
    sel: spec_fn(Seq<char>, TypeModel) -> bool,
    proj: spec_fn(TypeModel) -> (Option<Seq<char>>, Seq<Seq<char>>, bool),
)
    requires
        forall|n: Seq<char>, r: TypeModel| #[trigger] sel(n, r) == migration_candidate(n, r),
        forall|r: TypeModel| #[trigger] proj(r) == (r.guid, method_names(r), r.agile),
    ensures
        migration_unexpected_messages(s, b) == selected_unexpected_messages(select(s, sel, proj), b),
        migration_agility_messages(s) == selected_agility_messages(select(s, sel, proj)),
    decreases s.len(),
{
    if s.len() > 0 {
        let d = s.drop_last();
        lemma_unexpected_part_selected(d, b, sel, proj);
        let pd = select(d, sel, proj);
        let p = select(s, sel, proj);
        let (n, r) = s.last();
        if sel(n, r) {
            assert(p.drop_last() =~= pd);
            assert(p.last() == (n, proj(r)));
        } else {
            assert(p =~= pd);
            assert(migration_unexpected_messages(s, b) =~= migration_unexpected_messages(d, b));
            assert(migration_agility_messages(s) =~= migration_agility_messages(d));
        }
    }
}

proof fn lemma_baseline_part_candidates(
    p: Seq<(Seq<char>, (Option<Seq<char>>, Seq<Seq<char>>))>,
    c: Seq<(Seq<char>, TypeModel)>,
    c2: Seq<(Seq<char>, TypeModel)>,
)
    requires
        forall|n: Seq<char>| #[trigger] candidate_fields(c, n) == candidate_fields(c2, n),
    ensures
        selected_baseline_messages(p, c) == selected_baseline_messages(p, c2),
    decreases p.len(),
{
    if p.len() > 0 {
        lemma_baseline_part_candidates(p.drop_last(), c, c2);
        let (name, (guid, names)) = p.last();
        assert(candidate_fields(c, name) == candidate_fields(c2, name));
        assert(interface_messages(name, guid, names, c) == interface_messages(name, guid, names, c2));
    }
}

proof fn lemma_unexpected_part_baselines(
    p: Seq<(Seq<char>, (Option<Seq<char>>, Seq<Seq<char>>, bool))>,
    b: Seq<(Seq<char>, TypeModel)>,
    b2: Seq<(Seq<char>, TypeModel)>,
)
    requires
        forall|n: Seq<char>| #[trigger] baseline_fields(b, n) == baseline_fields(b2, n),
    ensures
        selected_unexpected_messages(p, b) == selected_unexpected_messages(p, b2),
    decreases p.len(),
{
    if p.len() > 0 {
        lemma_unexpected_part_baselines(p.drop_last(), b, b2);
        let name = p.last().0;
        assert(baseline_fields(b, name) == baseline_fields(b2, name));
        assert(baseline_interface(b, name) == baseline_interface(b2, name));
    }
}

/// The migration comparison reads nothing but the `IFabric` interfaces:
/// of each baseline interface that is not a legacy duplicate its name, GUID
/// and method names in order, and of each candidate interface its name,
/// GUID, method names in order and agility marker. Snapshots that agree in
/// those compare alike; every other type, every other field, the legacy
/// duplicates of the baseline and the baseline's agility markers make no
/// difference.
pub proof fn lemma_migration_reads_only_interfaces(
    b: Seq<(Seq<char>, TypeModel)>,
    b2: Seq<(Seq<char>, TypeModel)>,
    c: Seq<(Seq<char>, TypeModel)>,
    c2: Seq<(Seq<char>, TypeModel)>,
)
    requires
        keys_sorted(b),
        keys_sorted(b2),
        keys_sorted(c),
        keys_sorted(c2),
        forall|n: Seq<char>| #[trigger] baseline_fields(b, n) == baseline_fields(b2, n),
        forall|n: Seq<char>| #[trigger] candidate_fields(c, n) == candidate_fields(c2, n),
    ensures
        migration_comparison(b, c) == migration_comparison(b2, c2),
{
    let bsel = |n: Seq<char>, r: TypeModel| migration_baseline(n, r);
    let bproj = |r: TypeModel| (r.guid, method_names(r));
    let csel = |n: Seq<char>, r: TypeModel| migration_candidate(n, r);
    let cproj = |r: TypeModel| (r.guid, method_names(r), r.agile);
    let pb = select(b, bsel, bproj);
    let pb2 = select(b2, bsel, bproj);
    let pc = select(c, csel, cproj);
    let pc2 = select(c2, csel, cproj);
    lemma_select_lookup(b, bsel, bproj);
    lemma_select_lookup(b2, bsel, bproj);
    lemma_select_lookup(c, csel, cproj);
    lemma_select_lookup(c2, csel, cproj);
    assert forall|n: Seq<char>| #[trigger] names_has(pb, n) == names_has(pb2, n) by {
        assert(baseline_fields(b, n) == baseline_fields(b2, n));
    }
    assert forall|i: int, j: int|
        0 <= i < pb.len() && 0 <= j < pb2.len() && #[trigger] pb[i].0 == #[trigger] pb2[j].0
            implies pb[i].1 == pb2[j].1 by {
        let n = pb[i].0;
        assert(names_has(pb, n));
        assert(names_has(pb2, n));
        assert(baseline_fields(b, n) == baseline_fields(b2, n));
    }
    lemma_sorted_equal(pb, pb2);
    assert forall|n: Seq<char>| #[trigger] names_has(pc, n) == names_has(pc2, n) by {
        assert(candidate_fields(c, n) == candidate_fields(c2, n));
    }
    assert forall|i: int, j: int|
        0 <= i < pc.len() && 0 <= j < pc2.len() && #[trigger] pc[i].0 == #[trigger] pc2[j].0
            implies pc[i].1 == pc2[j].1 by {
        let n = pc[i].0;
        assert(names_has(pc, n));
        assert(names_has(pc2, n));
        assert(candidate_fields(c, n) == candidate_fields(c2, n));
    }
    lemma_sorted_equal(pc, pc2);
    lemma_baseline_part_selected(b, c, bsel, bproj);
    lemma_baseline_part_selected(b2, c2, bsel, bproj);
    lemma_baseline_part_candidates(pb, c, c2);
    lemma_unexpected_part_selected(c, b, csel, cproj);
    lemma_unexpected_part_selected(c2, b2, csel, cproj);
    lemma_unexpected_part_baselines(pc, b, b2);
}

/// `x` occurs in `a + b` when it occurs in `a` or in `b`.
proof fn lemma_contains_concat(a: Seq<Seq<char>>, b: Seq<Seq<char>>, x: Seq<char>)
    ensures
        a.contains(x) ==> (a + b).contains(x),
        b.contains(x) ==> (a + b).contains(x),
{
    if a.contains(x) {
        let k = choose|k: int| 0 <= k < a.len() && a[k] == x;
        assert((a + b)[k] == x);
    }
    if b.contains(x) {
        let k = choose|k: int| 0 <= k < b.len() && b[k] == x;
        assert((a + b)[a.len() + k] == x);
    }
}

/// The messages the strict comparison gives for one baseline entry.
spec fn baseline_entry_messages(
    c: Seq<(Seq<char>, TypeModel)>,
    name: Seq<char>,
    expected: TypeModel,
) -> Seq<Seq<char>> {
    match lookup(c, name) {
        None => seq!["missing type: "@ + name],
        Some(actual) => type_difference_messages(name, expected, actual),
    }
}

/// Every message of a baseline entry is among the baseline messages.
proof fn lemma_baseline_entry_reported(
    b: Seq<(Seq<char>, TypeModel)>,
    c: Seq<(Seq<char>, TypeModel)>,
    i: int,
    x: Seq<char>,
)
    requires
        0 <= i < b.len(),
        baseline_entry_messages(c, b[i].0, b[i].1).contains(x),
    ensures
        baseline_messages(b, c).contains(x),
    decreases b.len(),
{
    let d = b.drop_last();
    let (name, expected) = b.last();
    assert(baseline_messages(b, c) == baseline_messages(d, c) + baseline_entry_messages(c, name, expected));
    if i < b.len() - 1 {
        assert(d[i] == b[i]);
        lemma_baseline_entry_reported(d, c, i, x);
    }
    lemma_contains_concat(baseline_messages(d, c), baseline_entry_messages(c, name, expected), x);
}

/// A baseline type whose GUID differs from the candidate's type of the same
/// name is reported with both GUIDs, whatever else about it changed too.
pub proof fn lemma_guid_change_reported(
    b: Seq<(Seq<char>, TypeModel)>,
    c: Seq<(Seq<char>, TypeModel)>,
    n: Seq<char>,
)
    requires
        lookup(b, n) is Some,
        lookup(c, n) is Some,
        lookup(b, n).unwrap().guid != lookup(c, n).unwrap().guid,
    ensures
        comparison(b, c).contains(
            n + ": GUID changed from "@ + debug_option_text(lookup(b, n).unwrap().guid) + " to "@
                + debug_option_text(lookup(c, n).unwrap().guid),
        ),
{
    let e = lookup(b, n).unwrap();
    let a = lookup(c, n).unwrap();
    let x = n + ": GUID changed from "@ + debug_option_text(e.guid) + " to "@ + debug_option_text(
        a.guid,
    );
    let i = crate::snapshot::key_index(b, n);
    assert(b[i] == (n, e));
    let t = type_difference_messages(n, e, a);
    assert(t[t.len() - 1] == x);
    assert(t.contains(x));
    assert(baseline_entry_messages(c, b[i].0, b[i].1) == t);
    lemma_baseline_entry_reported(b, c, i, x);
    lemma_contains_concat(
        baseline_messages(b, c),
        unexpected_messages(c, b) + agility_messages(c),
        x,
    );
    assert(comparison(b, c) =~= baseline_messages(b, c) + (unexpected_messages(c, b)
        + agility_messages(c)));
}

/// The messages the migration comparison gives for one baseline entry.
spec fn migration_entry_messages(
    c: Seq<(Seq<char>, TypeModel)>,
    name: Seq<char>,
    expected: TypeModel,
) -> Seq<Seq<char>> {
    if migration_baseline(name, expected) {
        match candidate_interface(c, name) {
            None => seq!["missing interface: "@ + name],
            Some(actual) => crate::validation::when(
                expected.guid != actual.guid,
                name + ": GUID changed from "@ + debug_option_text(expected.guid) + " to "@
                    + debug_option_text(actual.guid),
            ) + crate::validation::when(
                method_names(expected) != method_names(actual),
                name + ": method names or order changed"@,
            ),
        }
    } else {
        Seq::empty()
    }
}

proof fn lemma_migration_entry_reported(
    b: Seq<(Seq<char>, TypeModel)>,
    c: Seq<(Seq<char>, TypeModel)>,
    i: int,
    x: Seq<char>,
)
    requires
        0 <= i < b.len(),
        migration_entry_messages(c, b[i].0, b[i].1).contains(x),
    ensures
        migration_baseline_messages(b, c).contains(x),
    decreases b.len(),
{
    let d = b.drop_last();
    let (name, expected) = b.last();
    assert(migration_baseline_messages(b, c) == migration_baseline_messages(d, c)
        + migration_entry_messages(c, name, expected));
    if i < b.len() - 1 {
        assert(d[i] == b[i]);
        lemma_migration_entry_reported(d, c, i, x);
    }
    lemma_contains_concat(
        migration_baseline_messages(d, c),
        migration_entry_messages(c, name, expected),
        x,
    );
}

/// A kept baseline interface whose methods, in declaration order, do not
/// have the same names as those of the candidate interface of the same
/// name (other names, other count, or the same names in another order) is
/// reported.
pub proof fn lemma_method_order_change_reported(
    b: Seq<(Seq<char>, TypeModel)>,
    c: Seq<(Seq<char>, TypeModel)>,
    n: Seq<char>,
)
    requires
        lookup(b, n) is Some,
        migration_baseline(n, lookup(b, n).unwrap()),
        candidate_interface(c, n) is Some,
        ({
            let e = lookup(b, n).unwrap();
            let a = candidate_interface(c, n).unwrap();
            e.methods.len() != a.methods.len() || exists|k: int|
                0 <= k < e.methods.len() && #[trigger] e.methods[k].name != a.methods[k].name
        }),
    ensures
        migration_comparison(b, c).contains(n + ": method names or order changed"@),
{
    let e = lookup(b, n).unwrap();
    let a = candidate_interface(c, n).unwrap();
    let x = n + ": method names or order changed"@;
    assert(method_names(e) != method_names(a)) by {
        if method_names(e) == method_names(a) {
            assert(method_names(e).len() == e.methods.len());
            assert(method_names(a).len() == a.methods.len());
            let k = choose|k: int| 0 <= k < e.methods.len() && #[trigger] e.methods[k].name
                != a.methods[k].name;
            assert(method_names(e)[k] == e.methods[k].name);
            assert(method_names(a)[k] == a.methods[k].name);
        }
    }
    let i = crate::snapshot::key_index(b, n);
    assert(b[i] == (n, e));
    let t = migration_entry_messages(c, n, e);
    assert(t[t.len() - 1] == x);
    assert(t.contains(x));
    lemma_migration_entry_reported(b, c, i, x);
    lemma_contains_concat(
        migration_baseline_messages(b, c),
        migration_unexpected_messages(c, b) + migration_agility_messages(c),
        x,
    );
    assert(migration_comparison(b, c) =~= migration_baseline_messages(b, c) + (
    migration_unexpected_messages(c, b) + migration_agility_messages(c)));
}

/// The record of a type definition row keeps the row's own numbers and
/// names: the type's category, flags and layout, and for each field and
/// each method, in order, its name and flags (a method's flags and
/// implementation flags each from its own column) and a method's calling
/// convention.
pub proof fn lemma_type_model_keeps_row_values(def: TypeDefRow)
    ensures
        type_model(def).category == def.category@,
        type_model(def).flags == def.flags,
        type_model(def).layout == def.layout,
        type_model(def).fields.len() == def.fields.len(),
        type_model(def).methods.len() == def.methods.len(),
        forall|i: int|
            0 <= i < def.fields.len() ==> (#[trigger] type_model(def).fields[i]).name
                == def.fields[i].name@ && type_model(def).fields[i].flags == def.fields[i].flags,
        forall|i: int|
            0 <= i < def.methods.len() ==> (#[trigger] type_model(def).methods[i]).name
                == def.methods[i].name@ && type_model(def).methods[i].flags == def.methods[i].flags
                && type_model(def).methods[i].impl_flags == def.methods[i].impl_flags
                && type_model(def).methods[i].calling_convention == def.methods[i].calling_convention@,
{
}

} // verus!
