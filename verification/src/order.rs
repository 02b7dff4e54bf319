//! Lexicographic order on character sequences, the order in which a
//! snapshot keeps its type names (the order of `str`'s `Ord`, which compares
//! code points).

use vstd::prelude::*;
use crate::text::chars_of;

verus! {

/// `a` sorts before `b` when compared from position `i` on, the positions
/// before `i` being taken as equal.
pub open spec fn less_from(a: Seq<char>, b: Seq<char>, i: int) -> bool
    decreases a.len() - i,
{
    if i >= a.len() {
        i < b.len()
    } else if i >= b.len() {
        false
    } else if a[i] != b[i] {
        a[i] < b[i]
    } else {
        less_from(a, b, i + 1)
    }
}

/// Strict lexicographic order: a proper prefix sorts first; otherwise the
/// first differing character decides.
pub open spec fn less(a: Seq<char>, b: Seq<char>) -> bool {
    less_from(a, b, 0)
}

proof fn lemma_less_from_irreflexive(a: Seq<char>, i: int)
    requires
        0 <= i,
    ensures
        !less_from(a, a, i),
    decreases a.len() - i,
{
    if i < a.len() {
        lemma_less_from_irreflexive(a, i + 1);
    }
}

proof fn lemma_less_from_transitive(a: Seq<char>, b: Seq<char>, c: Seq<char>, i: int)
    requires
        0 <= i,
        less_from(a, b, i),
        less_from(b, c, i),
    ensures
        less_from(a, c, i),
    decreases a.len() - i,
{
    if i < a.len() && i < b.len() && i < c.len() && a[i] == b[i] && b[i] == c[i] {
        lemma_less_from_transitive(a, b, c, i + 1);
    }
}

proof fn lemma_less_from_asymmetric(a: Seq<char>, b: Seq<char>, i: int)
    requires
        0 <= i,
        less_from(a, b, i),
    ensures
        !less_from(b, a, i),
    decreases a.len() - i,
{
    if i < a.len() && i < b.len() && a[i] == b[i] {
        lemma_less_from_asymmetric(a, b, i + 1);
    }
}

proof fn lemma_less_from_total(a: Seq<char>, b: Seq<char>, i: int)
    requires
        0 <= i <= a.len(),
        i <= b.len(),
        forall|j: int| 0 <= j < i ==> a[j] == b[j],
        a != b,
    ensures
        less_from(a, b, i) || less_from(b, a, i),
    decreases a.len() - i,
{
    if i == a.len() && i == b.len() {
        assert(a =~= b);
    } else if i < a.len() && i < b.len() && a[i] == b[i] {
        lemma_less_from_total(a, b, i + 1);
    }
}

/// No sequence sorts before itself.
pub proof fn lemma_less_irreflexive(a: Seq<char>)
    ensures
        !less(a, a),
{
    lemma_less_from_irreflexive(a, 0);
}

/// The order is transitive.
pub proof fn lemma_less_transitive(a: Seq<char>, b: Seq<char>, c: Seq<char>)
    requires
        less(a, b),
        less(b, c),
    ensures
        less(a, c),
{
    lemma_less_from_transitive(a, b, c, 0);
}

/// Two sequences are never each before the other.
pub proof fn lemma_less_asymmetric(a: Seq<char>, b: Seq<char>)
    requires
        less(a, b),
    ensures
        !less(b, a),
{
    lemma_less_from_asymmetric(a, b, 0);
}

/// Of two different sequences one sorts before the other.
pub proof fn lemma_less_total(a: Seq<char>, b: Seq<char>)
    requires
        a != b,
    ensures
        less(a, b) || less(b, a),
{
    lemma_less_from_total(a, b, 0);
}

/// Whether `a` sorts strictly before `b`.
pub fn string_less(a: &str, b: &str) -> (r: bool)
    ensures
        r == less(a@, b@),
{
    let x = chars_of(a);
    let y = chars_of(b);
    let mut i: usize = 0;
    while i < x.len() && i < y.len() && x[i] == y[i]
        invariant
            x@ == a@,
            y@ == b@,
            i <= x.len(),
            i <= y.len(),
            less(a@, b@) == less_from(a@, b@, i as int),
        decreases x.len() - i,
    {
        i += 1;
    }
    if i >= x.len() {
        i < y.len()
    } else if i >= y.len() {
        false
    } else {
        x[i] < y[i]
    }
}

/// No element sorts before an earlier one.
pub open spec fn sorted(s: Seq<Seq<char>>) -> bool {
    forall|i: int, j: int| 0 <= i < j < s.len() ==> !less(#[trigger] s[j], #[trigger] s[i])
}

/// `x` placed into `s` after every element that does not sort after it
/// (for sorted `s`: a stable insertion).
pub open spec fn insert_sorted(s: Seq<Seq<char>>, x: Seq<char>) -> Seq<Seq<char>>
    decreases s.len(),
{
    if s.len() == 0 {
        seq![x]
    } else if less(x, s.last()) {
        insert_sorted(s.drop_last(), x).push(s.last())
    } else {
        s.push(x)
    }
}

/// The elements of `s` in sorted order, equal elements kept in their
/// original order.
pub open spec fn sort(s: Seq<Seq<char>>) -> Seq<Seq<char>>
    decreases s.len(),
{
    if s.len() == 0 {
        s
    } else {
        insert_sorted(sort(s.drop_last()), s.last())
    }
}

proof fn lemma_insert_sorted_elements(s: Seq<Seq<char>>, x: Seq<char>)
    ensures
        insert_sorted(s, x).len() == s.len() + 1,
        insert_sorted(s, x).to_multiset() == s.to_multiset().insert(x),
        forall|k: int| 0 <= k < insert_sorted(s, x).len() ==> #[trigger] insert_sorted(s, x)[k] == x
            || exists|i: int| 0 <= i < s.len() && insert_sorted(s, x)[k] == s[i],
    decreases s.len(),
{
    broadcast use vstd::seq_lib::group_to_multiset_ensures;

    let r = insert_sorted(s, x);
    if s.len() == 0 {
        assert(r == Seq::<Seq<char>>::empty().push(x));
    } else if less(x, s.last()) {
        let d = s.drop_last();
        lemma_insert_sorted_elements(d, x);
        assert(s =~= d.push(s.last()));
        assert(r.to_multiset() =~= s.to_multiset().insert(x));
        assert forall|k: int| 0 <= k < r.len() implies #[trigger] r[k] == x || exists|i: int|
            0 <= i < s.len() && r[k] == s[i] by {
            if k == r.len() - 1 {
                assert(r[k] == s[s.len() - 1]);
            } else {
                assert(r[k] == insert_sorted(d, x)[k]);
                if r[k] != x {
                    let i = choose|i: int| 0 <= i < d.len() && insert_sorted(d, x)[k] == d[i];
                    assert(r[k] == s[i]);
                }
            }
        }
    } else {
        assert forall|k: int| 0 <= k < r.len() implies #[trigger] r[k] == x || exists|i: int|
            0 <= i < s.len() && r[k] == s[i] by {
            if k < s.len() {
                assert(r[k] == s[k]);
            }
        }
    }
}

proof fn lemma_insert_sorted_sorted(s: Seq<Seq<char>>, x: Seq<char>)
    requires
        sorted(s),
    ensures
        sorted(insert_sorted(s, x)),
    decreases s.len(),
{
    let r = insert_sorted(s, x);
    if s.len() == 0 {
    } else if less(x, s.last()) {
        let d = s.drop_last();
        let last = s.last();
        lemma_insert_sorted_sorted(d, x);
        lemma_insert_sorted_elements(d, x);
        lemma_less_asymmetric(x, last);
        assert forall|i: int, j: int| 0 <= i < j < r.len() implies !less(#[trigger] r[j], #[trigger] r[i]) by {
            if j == r.len() - 1 {
                let m = insert_sorted(d, x);
                assert(r[i] == m[i]);
                if m[i] != x {
                    let a = choose|a: int| 0 <= a < d.len() && m[i] == d[a];
                    assert(s[a] == d[a]);
                    assert(!less(s[s.len() - 1], s[a]));
                }
            } else {
                assert(r[i] == insert_sorted(d, x)[i]);
                assert(r[j] == insert_sorted(d, x)[j]);
            }
        }
    } else {
        let last = s.last();
        assert forall|i: int, j: int| 0 <= i < j < r.len() implies !less(#[trigger] r[j], #[trigger] r[i]) by {
            if j == r.len() - 1 {
                assert(r[j] == x);
                assert(r[i] == s[i]);
                if less(x, s[i]) {
                    if i < s.len() - 1 {
                        assert(!less(s[s.len() - 1], s[i]));
                        if s[i] != last {
                            lemma_less_total(s[i], last);
                            lemma_less_transitive(x, s[i], last);
                        }
                    }
                }
            } else {
                assert(r[i] == s[i]);
                assert(r[j] == s[j]);
            }
        }
    }
}

/// Sorting yields a sorted arrangement of the same elements.
pub proof fn lemma_sort_sorted_permutation(s: Seq<Seq<char>>)
    ensures
        sorted(sort(s)),
        sort(s).to_multiset() == s.to_multiset(),
        sort(s).len() == s.len(),
    decreases s.len(),
{
    broadcast use vstd::seq_lib::group_to_multiset_ensures;

    if s.len() > 0 {
        let d = s.drop_last();
        lemma_sort_sorted_permutation(d);
        lemma_insert_sorted_sorted(sort(d), s.last());
        lemma_insert_sorted_elements(sort(d), s.last());
        assert(s =~= d.push(s.last()));
    }
}

/// Where a stable insertion puts `x`: after every element that does not
/// sort after it.
proof fn lemma_insert_sorted_at(s: Seq<Seq<char>>, x: Seq<char>, j: int)
    requires
        0 <= j <= s.len(),
        forall|k: int| j <= k < s.len() ==> less(x, #[trigger] s[k]),
        j == 0 || !less(x, s[j - 1]),
    ensures
        insert_sorted(s, x) == s.take(j) + seq![x] + s.skip(j),
    decreases s.len(),
{
    if s.len() == j {
        assert(s.take(j) =~= s);
        assert(s.skip(j) =~= Seq::<Seq<char>>::empty());
        assert(insert_sorted(s, x) =~= s.take(j) + seq![x] + s.skip(j));
    } else {
        let d = s.drop_last();
        lemma_insert_sorted_at(d, x, j);
        assert(insert_sorted(s, x) =~= s.take(j) + seq![x] + s.skip(j));
    }
}

/// The strings in sorted order (`sort` on `Vec<String>`).
pub fn sort_strings(v: &Vec<String>) -> (r: Vec<String>)
    ensures
        r.deep_view() == sort(v.deep_view()),
        sorted(r.deep_view()),
        r.deep_view().to_multiset() == v.deep_view().to_multiset(),
{
    let ghost s = v.deep_view();
    let mut out: Vec<String> = Vec::new();
    let mut i: usize = 0;
    while i < v.len()
        invariant
            i <= v.len(),
            s == v.deep_view(),
            out.deep_view() == sort(s.take(i as int)),
        decreases v.len() - i,
    {
        let x = v[i].clone();
        let ghost o = out.deep_view();
        let mut j: usize = out.len();
        while j > 0
            invariant
                j <= out.len(),
                o == out.deep_view(),
                x@ == s[i as int],
                forall|k: int| j <= k < o.len() ==> less(x@, #[trigger] o[k]),
            ensures
                j <= out.len(),
                forall|k: int| j <= k < o.len() ==> less(x@, #[trigger] o[k]),
                j == 0 || !less(x@, o[j - 1]),
            decreases j,
        {
            let after = string_less(x.as_str(), out[j - 1].as_str());
            if !after {
                break;
            }
            j -= 1;
        }
        proof {
            lemma_insert_sorted_at(o, x@, j as int);
            assert(s.take(i + 1).drop_last() =~= s.take(i as int));
        }
        out.insert(j, x);
        assert(out.deep_view() =~= o.take(j as int) + seq![x@] + o.skip(j as int));
        i += 1;
    }
    proof {
        assert(s.take(v.len() as int) =~= s);
        lemma_sort_sorted_permutation(s);
    }
    out
}

} // verus!
