//! Choosing the newest Windows SDK: directory names such as `10.0.22621.0`
//! are dotted version numbers, ordered by their numbers and not by their
//! text.

use vstd::prelude::*;
use crate::order::{lemma_less_irreflexive, lemma_less_transitive, less, string_less};
use crate::pipeline::split_at;
use crate::text::chars_of;

verus! {

/// A decimal digit.
pub open spec fn is_digit(c: char) -> bool {
    '0' <= c && c <= '9'
}

/// The value of a decimal digit.
pub open spec fn digit_value(c: char) -> nat {
    (c as int - '0' as int) as nat
}

/// Every character is a decimal digit.
pub open spec fn all_digits(d: Seq<char>) -> bool {
    forall|i: int| 0 <= i < d.len() ==> is_digit(#[trigger] d[i])
}

/// The number that a string of decimal digits spells (leading zeros
/// allowed; the empty string spells 0).
pub open spec fn numeral_value(d: Seq<char>) -> nat
    decreases d.len(),
{
    if d.len() == 0 {
        0
    } else {
        numeral_value(d.drop_last()) * 10 + digit_value(d.last())
    }
}

/// Ten to the power `k`.
pub open spec fn pow10(k: nat) -> nat
    decreases k,
{
    if k == 0 {
        1
    } else {
        10 * pow10((k - 1) as nat)
    }
}

/// The digit `j` places from the end of `d`, zero beyond its start.
spec fn digit_from_end(d: Seq<char>, j: nat) -> nat {
    if j < d.len() {
        digit_value(d[d.len() - 1 - j])
    } else {
        0
    }
}

/// The value of the last `k` digits of `d`, padded with zeros in front.
spec fn tail_value(d: Seq<char>, k: nat) -> nat
    decreases k,
{
    if k == 0 {
        0
    } else {
        tail_value(d, (k - 1) as nat) + digit_from_end(d, (k - 1) as nat) * pow10((k - 1) as nat)
    }
}

proof fn lemma_pow10_positive(k: nat)
    ensures
        pow10(k) >= 1,
    decreases k,
{
    if k > 0 {
        lemma_pow10_positive((k - 1) as nat);
    }
}

/// The last `k` digits stay below ten to the `k`.
proof fn lemma_tail_value_bound(d: Seq<char>, k: nat)
    requires
        all_digits(d),
    ensures
        tail_value(d, k) < pow10(k),
    decreases k,
{
    if k > 0 {
        let j = (k - 1) as nat;
        lemma_tail_value_bound(d, j);
        let t = tail_value(d, j);
        let x = digit_from_end(d, j);
        let p = pow10(j);
        if j < d.len() {
            assert(is_digit(d[d.len() - 1 - j]));
        }
        assert(x <= 9);
        assert(t + x * p < 10 * p) by (nonlinear_arith)
            requires
                t < p,
                x <= 9,
        ;
    }
}

/// Peeling off the last digit.
proof fn lemma_tail_value_last(d: Seq<char>, k: nat)
    requires
        d.len() > 0,
        k >= 1,
    ensures
        tail_value(d, k) == digit_value(d.last()) + 10 * tail_value(d.drop_last(), (k - 1) as nat),
    decreases k,
{
    let e = d.drop_last();
    if k > 1 {
        let j = (k - 1) as nat;
        let i = (k - 2) as nat;
        lemma_tail_value_last(d, j);
        assert(digit_from_end(d, j) == digit_from_end(e, i)) by {
            if j < d.len() {
                assert(d[d.len() - 1 - j] == e[e.len() - 1 - i]);
            }
        }
        let a = tail_value(e, i);
        let x = digit_from_end(e, i);
        let p = pow10(i);
        assert(pow10(j) == 10 * p);
        assert(tail_value(d, k) == tail_value(d, j) + digit_from_end(d, j) * pow10(j));
        assert(tail_value(e, j) == a + x * p);
        assert(10 * a + x * (10 * p) == 10 * (a + x * p)) by (nonlinear_arith);
        assert(tail_value(d, j) == digit_value(d.last()) + 10 * a);
        assert(digit_from_end(d, j) * pow10(j) == x * (10 * p));
    } else {
        assert(d[d.len() - 1] == d.last());
        assert(tail_value(d, 1) == tail_value(d, 0) + digit_from_end(d, 0) * pow10(0));
        assert(tail_value(e, 0) == 0);
        let x = digit_from_end(d, 0);
        assert(x == digit_value(d.last()));
        assert(x * 1 == x) by (nonlinear_arith);
        assert(tail_value(d, 1) == x);
    }
}

/// With at least as many places as digits, the tail is the whole number.
proof fn lemma_tail_value_whole(d: Seq<char>, k: nat)
    requires
        k >= d.len(),
    ensures
        tail_value(d, k) == numeral_value(d),
    decreases d.len(), k,
{
    if d.len() == 0 {
        if k > 0 {
            let j = (k - 1) as nat;
            lemma_tail_value_whole(d, j);
            let p = pow10(j);
            assert(digit_from_end(d, j) == 0);
            assert(0 * p == 0) by (nonlinear_arith);
            assert(tail_value(d, k) == tail_value(d, j) + digit_from_end(d, j) * p);
        }
    } else {
        lemma_tail_value_last(d, k);
        lemma_tail_value_whole(d.drop_last(), (k - 1) as nat);
        assert(numeral_value(d) == numeral_value(d.drop_last()) * 10 + digit_value(d.last()));
    }
}

/// Compares the numbers two digit strings spell: -1, 0 or 1 as the first
/// is smaller, equal or larger.
pub fn compare_numerals(a: &Vec<char>, b: &Vec<char>) -> (r: i8)
    requires
        all_digits(a@),
        all_digits(b@),
    ensures
        r == -1 <==> numeral_value(a@) < numeral_value(b@),
        r == 0 <==> numeral_value(a@) == numeral_value(b@),
        r == 1 <==> numeral_value(a@) > numeral_value(b@),
{
    let n: usize = if a.len() > b.len() {
        a.len()
    } else {
        b.len()
    };
    let mut r: i8 = 0;
    let mut k: usize = 0;
    while k < n
        invariant
            all_digits(a@),
            all_digits(b@),
            n >= a.len(),
            n >= b.len(),
            k <= n,
            r == -1 <==> tail_value(a@, k as nat) < tail_value(b@, k as nat),
            r == 0 <==> tail_value(a@, k as nat) == tail_value(b@, k as nat),
            r == 1 <==> tail_value(a@, k as nat) > tail_value(b@, k as nat),
        decreases n - k,
    {
        let da: u32 = if k < a.len() {
            (a[a.len() - 1 - k] as u32) - ('0' as u32)
        } else {
            0
        };
        let db: u32 = if k < b.len() {
            (b[b.len() - 1 - k] as u32) - ('0' as u32)
        } else {
            0
        };
        proof {
            if k < a.len() {
                assert(is_digit(a@[a.len() - 1 - k]));
            }
            if k < b.len() {
                assert(is_digit(b@[b.len() - 1 - k]));
            }
            assert(da == digit_from_end(a@, k as nat));
            assert(db == digit_from_end(b@, k as nat));
            lemma_tail_value_bound(a@, k as nat);
            lemma_tail_value_bound(b@, k as nat);
            let ta = tail_value(a@, k as nat);
            let tb = tail_value(b@, k as nat);
            let p = pow10(k as nat);
            let xa = da as nat;
            let xb = db as nat;
            if xa < xb {
                assert(ta + xa * p < tb + xb * p) by (nonlinear_arith)
                    requires
                        ta < p,
                        xa < xb,
                ;
            } else if xa > xb {
                assert(ta + xa * p > tb + xb * p) by (nonlinear_arith)
                    requires
                        tb < p,
                        xa > xb,
                ;
            }
        }
        if da < db {
            r = -1;
        } else if da > db {
            r = 1;
        }
        k += 1;
    }
    proof {
        lemma_tail_value_whole(a@, n as nat);
        lemma_tail_value_whole(b@, n as nat);
    }
    r
}

/// The numbers that a list of digit groups spells.
pub open spec fn numbers(groups: Seq<Seq<char>>) -> Seq<nat> {
    groups.map_values(|g: Seq<char>| numeral_value(g))
}

/// Groups that are all non-empty digit strings.
pub open spec fn digit_groups(groups: Seq<Seq<char>>) -> bool {
    forall|i: int| 0 <= i < groups.len() ==> #[trigger] groups[i].len() > 0 && all_digits(groups[i])
}

/// The numbers of a dotted version name such as `10.0.22621.0`: present
/// when the name is groups of digits separated by dots, none of them empty.
pub open spec fn version_of(name: Seq<char>) -> Option<Seq<nat>> {
    if digit_groups(split_at(name, '.')) {
        Some(numbers(split_at(name, '.')))
    } else {
        None
    }
}

/// Version order: at the first place where they differ the smaller number
/// is older, and a version that is a proper prefix of another is older.
pub open spec fn version_less(x: Seq<nat>, y: Seq<nat>) -> bool {
    exists|k: int|
        0 <= k <= x.len() && k <= y.len() && #[trigger] x.take(k) == y.take(k) && ((k == x.len() && k
            < y.len()) || (k < x.len() && k < y.len() && x[k] < y[k]))
}

/// Whether directory `a` holds a newer SDK than directory `b`: versions by
/// version order, an equal version by the text of the name, any version
/// over a name that is none, and two such names by their text.
pub open spec fn newer(a: Seq<char>, b: Seq<char>) -> bool {
    match (version_of(a), version_of(b)) {
        (Some(x), Some(y)) => version_less(y, x) || (x == y && less(b, a)),
        (Some(_), None) => true,
        (None, Some(_)) => false,
        (None, None) => less(b, a),
    }
}

proof fn lemma_version_less_irreflexive(x: Seq<nat>)
    ensures
        !version_less(x, x),
{
}

proof fn lemma_version_less_transitive(x: Seq<nat>, y: Seq<nat>, z: Seq<nat>)
    requires
        version_less(x, y),
        version_less(y, z),
    ensures
        version_less(x, z),
{
    let k1 = choose|k: int|
        0 <= k <= x.len() && k <= y.len() && #[trigger] x.take(k) == y.take(k) && ((k == x.len() && k
            < y.len()) || (k < x.len() && k < y.len() && x[k] < y[k]));
    let k2 = choose|k: int|
        0 <= k <= y.len() && k <= z.len() && #[trigger] y.take(k) == z.take(k) && ((k == y.len() && k
            < z.len()) || (k < y.len() && k < z.len() && y[k] < z[k]));
    let k = if k1 < k2 {
        k1
    } else {
        k2
    };
    assert(x.take(k) =~= z.take(k)) by {
        assert forall|i: int| 0 <= i < k implies x.take(k)[i] == z.take(k)[i] by {
            assert(x.take(k1)[i] == y.take(k1)[i]);
            assert(y.take(k2)[i] == z.take(k2)[i]);
        }
    }
    if k1 < k2 && k1 < x.len() {
        assert(y.take(k2)[k1] == z.take(k2)[k1]);
    } else if k2 < k1 {
        assert(x.take(k1)[k2] == y.take(k1)[k2]);
    }
    assert(x.take(k) == z.take(k));
}

/// Newer is a strict order.
pub proof fn lemma_newer_strict(a: Seq<char>, b: Seq<char>, c: Seq<char>)
    ensures
        !newer(a, a),
        newer(a, b) && newer(b, c) ==> newer(a, c),
{
    lemma_less_irreflexive(a);
    if let Some(x) = version_of(a) {
        lemma_version_less_irreflexive(x);
    }
    if newer(a, b) && newer(b, c) {
        match (version_of(a), version_of(b), version_of(c)) {
            (Some(x), Some(y), Some(z)) => {
                if version_less(z, y) && version_less(y, x) {
                    lemma_version_less_transitive(z, y, x);
                } else if !version_less(z, y) && !version_less(y, x) {
                    lemma_less_transitive(c, b, a);
                }
            },
            (None, None, None) => {
                lemma_less_transitive(c, b, a);
            },
            _ => {},
        }
    }
}

/// A list of characters is its own deep view.
proof fn lemma_chars_deep_view(v: &Vec<char>)
    ensures
        v.deep_view() == v@,
{
    assert(v.deep_view() =~= v@);
}

/// Splits a character list at every `sep`, as `str::split` does.
fn split_chars(s: &Vec<char>, sep: char) -> (r: Vec<Vec<char>>)
    ensures
        r.deep_view() == split_at(s@, sep),
{
    let mut groups: Vec<Vec<char>> = Vec::new();
    let mut piece: Vec<char> = Vec::new();
    let mut i: usize = 0;
    assert(s@.take(0) =~= Seq::<char>::empty());
    assert(groups.deep_view() =~= split_at(s@.take(0), sep).drop_last());
    while i < s.len()
        invariant
            i <= s.len(),
            groups.deep_view() == split_at(s@.take(i as int), sep).drop_last(),
            piece@ == split_at(s@.take(i as int), sep).last(),
            split_at(s@.take(i as int), sep).len() >= 1,
        decreases s.len() - i,
    {
        let c = s[i];
        let ghost t = s@.take(i as int);
        let ghost pieces = split_at(t, sep);
        proof {
            assert(s@.take(i + 1).drop_last() =~= t);
            assert(s@.take(i + 1).last() == c);
        }
        if c == sep {
            let ghost before = groups.deep_view();
            proof {
                lemma_chars_deep_view(&piece);
            }
            groups.push(piece);
            piece = Vec::new();
            proof {
                assert(groups.deep_view() =~= before.push(pieces.last()));
                assert(pieces =~= pieces.drop_last().push(pieces.last()));
                assert(split_at(s@.take(i + 1), sep) == pieces.push(Seq::empty()));
                assert(pieces.push(Seq::<char>::empty()).drop_last() =~= pieces);
                assert(piece@ =~= Seq::<char>::empty());
            }
        } else {
            piece.push(c);
            proof {
                assert(split_at(s@.take(i + 1), sep) == pieces.drop_last().push(pieces.last().push(c)));
                assert(pieces.drop_last().push(pieces.last().push(c)).drop_last() =~= pieces.drop_last());
            }
        }
        i += 1;
    }
    let ghost pieces = split_at(s@, sep);
    assert(s@.take(s.len() as int) =~= s@);
    let ghost before = groups.deep_view();
    proof {
        lemma_chars_deep_view(&piece);
    }
    groups.push(piece);
    assert(groups.deep_view() =~= before.push(pieces.last()));
    assert(pieces =~= pieces.drop_last().push(pieces.last()));
    groups
}

/// The digit groups of a version name, or `None` when the name is no
/// version.
fn version_groups(name: &str) -> (r: Option<Vec<Vec<char>>>)
    ensures
        match r {
            Some(g) => digit_groups(g.deep_view()) && version_of(name@) == Some(
                numbers(g.deep_view()),
            ),
            None => version_of(name@) is None,
        },
{
    let chars = chars_of(name);
    let groups = split_chars(&chars, '.');
    let ghost g = groups.deep_view();
    let mut i: usize = 0;
    while i < groups.len()
        invariant
            g == groups.deep_view(),
            g == split_at(name@, '.'),
            i <= groups.len(),
            forall|j: int| 0 <= j < i ==> #[trigger] g[j].len() > 0 && all_digits(g[j]),
        decreases groups.len() - i,
    {
        let group = &groups[i];
        proof {
            lemma_chars_deep_view(group);
        }
        assert(g[i as int] == group@);
        if group.len() == 0 {
            assert(!(g[i as int].len() > 0 && all_digits(g[i as int])));
            return None;
        }
        let mut k: usize = 0;
        while k < group.len()
            invariant
                k <= group.len(),
                forall|m: int| 0 <= m < k ==> is_digit(#[trigger] group@[m]),
                i < g.len(),
                g[i as int] == group@,
                g == split_at(name@, '.'),
            decreases group.len() - k,
        {
            let c = group[k];
            if !('0' <= c && c <= '9') {
                assert(!is_digit(g[i as int][k as int]));
                assert(!(g[i as int].len() > 0 && all_digits(g[i as int])));
                return None;
            }
            k += 1;
        }
        assert(all_digits(g[i as int]));
        i += 1;
    }
    Some(groups)
}

/// The first difference decides the version order.
proof fn lemma_first_difference(x: Seq<nat>, y: Seq<nat>, k: int)
    requires
        0 <= k < x.len(),
        k < y.len(),
        x.take(k) == y.take(k),
        x[k] < y[k],
    ensures
        version_less(x, y),
        !version_less(y, x),
        x != y,
{
    assert(x.take(k) == y.take(k));
    if version_less(y, x) {
        let j = choose|j: int|
            0 <= j <= y.len() && j <= x.len() && #[trigger] y.take(j) == x.take(j) && ((j == y.len() && j
                < x.len()) || (j < y.len() && j < x.len() && y[j] < x[j]));
        if j < k {
            assert(0 <= j < k);
            assert(x.take(k)[j] == x[j]);
            assert(y.take(k)[j] == y[j]);
            assert(x.take(k)[j] == y.take(k)[j]);
            assert(x[j] == y[j]);
        } else if j > k {
            assert(x.take(j)[k] == y.take(j)[k]);
            assert(x[k] == y[k]);
        }
        assert(false);
    }
}

/// A proper prefix is the older version.
proof fn lemma_proper_prefix(x: Seq<nat>, y: Seq<nat>)
    requires
        x.len() < y.len(),
        x == y.take(x.len() as int),
    ensures
        version_less(x, y),
        !version_less(y, x),
        x != y,
{
    let k = x.len() as int;
    assert(x.take(k) =~= y.take(k));
    if version_less(y, x) {
        let j = choose|j: int|
            0 <= j <= y.len() && j <= x.len() && #[trigger] y.take(j) == x.take(j) && ((j == y.len() && j
                < x.len()) || (j < y.len() && j < x.len() && y[j] < x[j]));
        assert(y.take(k)[j] == y[j]);
        assert(x[j] == y[j]);
        assert(false);
    }
}

/// Compares the versions that two lists of digit groups spell: -1, 0 or 1
/// as the first is older, equal or newer.
fn compare_versions(x: &Vec<Vec<char>>, y: &Vec<Vec<char>>) -> (r: i8)
    requires
        digit_groups(x.deep_view()),
        digit_groups(y.deep_view()),
    ensures
        r == -1 <==> version_less(numbers(x.deep_view()), numbers(y.deep_view())),
        r == 0 <==> numbers(x.deep_view()) == numbers(y.deep_view()),
        r == 1 <==> version_less(numbers(y.deep_view()), numbers(x.deep_view())),
{
    let ghost a = numbers(x.deep_view());
    let ghost b = numbers(y.deep_view());
    let mut k: usize = 0;
    while k < x.len() && k < y.len()
        invariant
            a == numbers(x.deep_view()),
            b == numbers(y.deep_view()),
            a.len() == x.len(),
            b.len() == y.len(),
            digit_groups(x.deep_view()),
            digit_groups(y.deep_view()),
            k <= x.len(),
            k <= y.len(),
            a.take(k as int) == b.take(k as int),
        decreases x.len() - k,
    {
        proof {
            lemma_chars_deep_view(&x[k as int]);
            lemma_chars_deep_view(&y[k as int]);
        }
        assert(x.deep_view()[k as int] == x[k as int]@);
        assert(y.deep_view()[k as int] == y[k as int]@);
        assert(a[k as int] == numeral_value(x[k as int]@));
        assert(b[k as int] == numeral_value(y[k as int]@));
        let c = compare_numerals(&x[k], &y[k]);
        if c == -1 {
            proof {
                lemma_first_difference(a, b, k as int);
            }
            return -1;
        } else if c == 1 {
            proof {
                lemma_first_difference(b, a, k as int);
            }
            return 1;
        }
        assert(a.take(k + 1) =~= a.take(k as int).push(a[k as int]));
        assert(b.take(k + 1) =~= b.take(k as int).push(b[k as int]));
        k += 1;
    }
    if x.len() < y.len() {
        proof {
            assert(a.take(k as int) =~= a);
            lemma_proper_prefix(a, b);
        }
        -1
    } else if y.len() < x.len() {
        proof {
            assert(b.take(k as int) =~= b);
            lemma_proper_prefix(b, a);
        }
        1
    } else {
        proof {
            assert(a.take(k as int) =~= a);
            assert(b.take(k as int) =~= b);
            lemma_version_less_irreflexive(a);
        }
        0
    }
}

/// Whether directory `a` holds a newer SDK than directory `b`.
pub fn newer_name(a: &str, b: &str) -> (r: bool)
    ensures
        r == newer(a@, b@),
{
    match (version_groups(a), version_groups(b)) {
        (Some(x), Some(y)) => {
            let c = compare_versions(&x, &y);
            if c == 1 {
                true
            } else if c == 0 {
                string_less(b, a)
            } else {
                false
            }
        },
        (Some(_), None) => true,
        (None, Some(_)) => false,
        (None, None) => string_less(b, a),
    }
}

/// The position of the newest SDK directory among `names` (no name is
/// newer than it), or `None` when there are no names.
pub fn newest(names: &Vec<String>) -> (r: Option<usize>)
    ensures
        r is None <==> names.len() == 0,
        r matches Some(i) ==> i < names.len() && forall|j: int|
            0 <= j < names.len() ==> !newer(#[trigger] names@[j]@, names@[i as int]@),
{
    if names.len() == 0 {
        return None;
    }
    let mut best: usize = 0;
    let mut j: usize = 1;
    proof {
        lemma_newer_strict(names@[0]@, names@[0]@, names@[0]@);
    }
    while j < names.len()
        invariant
            1 <= j <= names.len(),
            best < j,
            forall|q: int| 0 <= q < j ==> !newer(#[trigger] names@[q]@, names@[best as int]@),
        decreases names.len() - j,
    {
        if newer_name(names[j].as_str(), names[best].as_str()) {
            proof {
                assert forall|q: int| 0 <= q <= j implies !newer(
                    #[trigger] names@[q]@,
                    names@[j as int]@,
                ) by {
                    lemma_newer_strict(names@[q]@, names@[j as int]@, names@[best as int]@);
                }
            }
            best = j;
        }
        j += 1;
    }
    Some(best)
}

} // verus!
