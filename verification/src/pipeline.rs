//! The generators' own decisions between the outside tools: the clang
//! include arguments taken from the `INCLUDE` list, and the routes that give
//! every scraped item the namespace of the one partition that owns it.

use vstd::prelude::*;
use crate::text::{chars_of, string_of_chars};

verus! {

/// The pieces of `s` between occurrences of `sep`, as `str::split` gives
/// them: one more piece than there are separators, empty pieces included.
pub open spec fn split_at(s: Seq<char>, sep: char) -> Seq<Seq<char>>
    decreases s.len(),
{
    if s.len() == 0 {
        seq![Seq::<char>::empty()]
    } else {
        let rest = split_at(s.drop_last(), sep);
        if s.last() == sep {
            rest.push(Seq::empty())
        } else {
            rest.drop_last().push(rest.last().push(s.last()))
        }
    }
}

/// The pieces that are not empty, in order.
pub open spec fn nonempty_pieces(pieces: Seq<Seq<char>>) -> Seq<Seq<char>> {
    pieces.filter(|p: Seq<char>| p.len() > 0)
}

/// The directories of an `INCLUDE` list: its `;`-separated entries that are
/// not empty, in order.
pub open spec fn search_dir_list(list: Seq<char>) -> Seq<Seq<char>> {
    nonempty_pieces(split_at(list, ';'))
}

/// There is always at least one piece.
proof fn lemma_split_at_len(s: Seq<char>, sep: char)
    ensures
        split_at(s, sep).len() >= 1,
    decreases s.len(),
{
    if s.len() > 0 {
        lemma_split_at_len(s.drop_last(), sep);
    }
}

/// Keeping the non-empty pieces of a list with one more piece.
proof fn lemma_nonempty_pieces_push(pieces: Seq<Seq<char>>, p: Seq<char>)
    ensures
        nonempty_pieces(pieces.push(p)) == nonempty_pieces(pieces) + if p.len() > 0 {
            seq![p]
        } else {
            Seq::<Seq<char>>::empty()
        },
{
    reveal(Seq::filter);
    assert(pieces.push(p).drop_last() =~= pieces);
    assert(pieces.push(p).last() == p);
    assert(nonempty_pieces(pieces.push(p)) == (if p.len() > 0 {
        nonempty_pieces(pieces).push(p)
    } else {
        nonempty_pieces(pieces)
    }));
    if p.len() > 0 {
        assert(nonempty_pieces(pieces).push(p) =~= nonempty_pieces(pieces) + seq![p]);
    } else {
        assert(nonempty_pieces(pieces) =~= nonempty_pieces(pieces) + Seq::<Seq<char>>::empty());
    }
}

/// Appends a string to a list of strings.
fn push_string(v: &mut Vec<String>, s: String)
    ensures
        final(v).deep_view() == old(v).deep_view().push(s@),
{
    v.push(s);
    assert(final(v).deep_view() =~= old(v).deep_view().push(s@));
}

/// The directories of an `INCLUDE` list: the entries between `;`
/// separators, empty entries left out.
pub fn search_dirs(list: &str) -> (dirs: Vec<String>)
    ensures
        dirs.deep_view() == search_dir_list(list@),
{
    let chars = chars_of(list);
    let ghost s = list@;
    let mut dirs: Vec<String> = Vec::new();
    let mut piece: Vec<char> = Vec::new();
    let mut i: usize = 0;
    proof {
        assert(s.take(0) =~= Seq::<char>::empty());
        assert(seq![Seq::<char>::empty()].drop_last() =~= Seq::<Seq<char>>::empty());
        assert(piece@ =~= Seq::<char>::empty());
    }
    while i < chars.len()
        invariant
            chars@ == s,
            i <= chars.len(),
            dirs.deep_view() == nonempty_pieces(split_at(s.take(i as int), ';').drop_last()),
            piece@ == split_at(s.take(i as int), ';').last(),
        decreases chars.len() - i,
    {
        let c = chars[i];
        let ghost t = s.take(i as int);
        let ghost pieces = split_at(t, ';');
        proof {
            lemma_split_at_len(t, ';');
            assert(s.take(i + 1).drop_last() =~= t);
            assert(s.take(i + 1).last() == c);
            assert(pieces =~= pieces.drop_last().push(pieces.last()));
        }
        if c == ';' {
            proof {
                lemma_nonempty_pieces_push(pieces.drop_last(), pieces.last());
                assert(split_at(s.take(i + 1), ';') == pieces.push(Seq::empty()));
                assert(pieces.push(Seq::<char>::empty()).drop_last() =~= pieces);
            }
            if piece.len() > 0 {
                let text = string_of_chars(&piece);
                push_string(&mut dirs, text);
            } else {
                assert(dirs.deep_view() =~= dirs.deep_view() + Seq::<Seq<char>>::empty());
            }
            piece = Vec::new();
            assert(piece@ =~= Seq::<char>::empty());
        } else {
            piece.push(c);
            proof {
                assert(split_at(s.take(i + 1), ';') == pieces.drop_last().push(pieces.last().push(c)));
                assert(pieces.drop_last().push(pieces.last().push(c)).drop_last() =~= pieces.drop_last());
            }
        }
        i += 1;
    }
    proof {
        let pieces = split_at(s, ';');
        assert(s.take(chars.len() as int) =~= s);
        lemma_split_at_len(s, ';');
        assert(pieces =~= pieces.drop_last().push(pieces.last()));
        lemma_nonempty_pieces_push(pieces.drop_last(), pieces.last());
    }
    if piece.len() > 0 {
        let text = string_of_chars(&piece);
        push_string(&mut dirs, text);
    } else {
        assert(dirs.deep_view() =~= dirs.deep_view() + Seq::<Seq<char>>::empty());
    }
    dirs
}

/// Clang arguments that make each directory a system include directory:
/// `-isystem` before each one.
pub open spec fn isystem_args(dirs: Seq<Seq<char>>) -> Seq<Seq<char>>
    decreases dirs.len(),
{
    if dirs.len() == 0 {
        Seq::empty()
    } else {
        isystem_args(dirs.drop_last()) + seq!["-isystem"@, dirs.last()]
    }
}

/// `-isystem` and the directory, for each directory in order.
pub fn system_dir_args(dirs: &Vec<String>) -> (args: Vec<String>)
    ensures
        args.deep_view() == isystem_args(dirs.deep_view()),
{
    let mut args: Vec<String> = Vec::new();
    let mut i: usize = 0;
    while i < dirs.len()
        invariant
            i <= dirs.len(),
            args.deep_view() == isystem_args(dirs.deep_view().take(i as int)),
        decreases dirs.len() - i,
    {
        let ghost before = args.deep_view();
        proof {
            assert(dirs.deep_view().take(i + 1).drop_last() =~= dirs.deep_view().take(i as int));
            assert(dirs.deep_view().take(i + 1).last() == dirs[i as int]@);
        }
        push_string(&mut args, "-isystem".to_owned());
        push_string(&mut args, dirs[i].clone());
        assert(args.deep_view() =~= before + seq!["-isystem"@, dirs[i as int]@]);
        i += 1;
    }
    assert(dirs.deep_view().take(dirs.len() as int) =~= dirs.deep_view());
    args
}

/// No item name occurs twice.
pub open spec fn distinct_names(e: Seq<(Seq<char>, Seq<char>)>) -> bool {
    forall|i: int, j: int| 0 <= i < j < e.len() ==> #[trigger] e[i].0 != #[trigger] e[j].0
}

/// The routes that a list of (item, namespace) entries describes.
pub open spec fn routes_map(e: Seq<(Seq<char>, Seq<char>)>) -> Map<Seq<char>, Seq<char>>
    decreases e.len(),
{
    if e.len() == 0 {
        Map::empty()
    } else {
        routes_map(e.drop_last()).insert(e.last().0, e.last().1)
    }
}

/// Without repeated names, an item is routed exactly when some entry names
/// it, and to that entry's namespace.
pub proof fn lemma_routes_map(e: Seq<(Seq<char>, Seq<char>)>)
    requires
        distinct_names(e),
    ensures
        forall|q: Seq<char>|
            #[trigger] routes_map(e).contains_key(q) <==> exists|i: int|
                0 <= i < e.len() && #[trigger] e[i].0 == q,
        forall|i: int| 0 <= i < e.len() ==> #[trigger] routes_map(e)[e[i].0] == e[i].1,
    decreases e.len(),
{
    if e.len() > 0 {
        let d = e.drop_last();
        let n = e.len() - 1;
        assert forall|i: int, j: int| 0 <= i < j < d.len() implies #[trigger] d[i].0 != #[trigger] d[j].0 by {
            assert(d[i] == e[i] && d[j] == e[j]);
        }
        lemma_routes_map(d);
        assert forall|i: int| 0 <= i < e.len() implies #[trigger] routes_map(e)[e[i].0] == e[i].1 by {
            if i < n {
                assert(d[i] == e[i]);
                assert(e[i].0 != e[n].0);
                assert(routes_map(d)[d[i].0] == d[i].1);
            }
        }
        assert forall|q: Seq<char>| #[trigger] routes_map(e).contains_key(q) <==> exists|i: int|
            0 <= i < e.len() && #[trigger] e[i].0 == q by {
            if routes_map(e).contains_key(q) {
                if q == e[n].0 {
                    assert(e[n].0 == q);
                } else {
                    assert(routes_map(d).contains_key(q));
                    let i = choose|i: int| 0 <= i < d.len() && #[trigger] d[i].0 == q;
                    assert(e[i] == d[i]);
                }
            }
            if exists|i: int| 0 <= i < e.len() && #[trigger] e[i].0 == q {
                let i = choose|i: int| 0 <= i < e.len() && #[trigger] e[i].0 == q;
                if i < n {
                    assert(d[i] == e[i]);
                    assert(routes_map(d).contains_key(q));
                }
            }
        }
    }
}

/// The namespace of each scraped item, for the remapping step.
pub struct Routes {
    entries: Vec<(String, String)>,
}

impl View for Routes {
    type V = Map<Seq<char>, Seq<char>>;

    /// Item name to namespace.
    closed spec fn view(&self) -> Map<Seq<char>, Seq<char>> {
        routes_map(self.entries.deep_view())
    }
}

impl Routes {
    #[verifier::type_invariant]
    spec fn unique(&self) -> bool {
        distinct_names(self.entries.deep_view())
    }

    /// No routes.
    pub fn new() -> (r: Routes)
        ensures
            r@ == Map::<Seq<char>, Seq<char>>::empty(),
    {
        let r = Routes { entries: Vec::new() };
        assert(r.entries.deep_view() =~= Seq::<(Seq<char>, Seq<char>)>::empty());
        r
    }

    /// The routes as (item, namespace) pairs, each item once.
    pub fn entries(&self) -> (r: &Vec<(String, String)>)
        ensures
            distinct_names(r.deep_view()),
            forall|i: int|
                0 <= i < r.len() ==> self@.contains_key(#[trigger] r[i].0@) && self@[r[i].0@]
                    == r[i].1@,
            forall|q: Seq<char>|
                #[trigger] self@.contains_key(q) ==> exists|i: int| 0 <= i < r.len() && r[i].0@ == q,
    {
        proof {
            use_type_invariant(self);
            lemma_routes_map(self.entries.deep_view());
            assert forall|i: int| 0 <= i < self.entries.len() implies self@.contains_key(
                #[trigger] self.entries[i].0@,
            ) && self@[self.entries[i].0@] == self.entries[i].1@ by {
                let e = self.entries.deep_view();
                assert(e[i] == (self.entries[i].0@, self.entries[i].1@));
                assert(routes_map(e)[e[i].0] == e[i].1);
                assert(routes_map(e).contains_key(e[i].0));
            }
            assert forall|q: Seq<char>| #[trigger] self@.contains_key(q) implies exists|i: int|
                0 <= i < self.entries.len() && self.entries[i].0@ == q by {
                let i = choose|i: int|
                    0 <= i < self.entries.deep_view().len() && #[trigger] self.entries.deep_view()[i].0
                        == q;
                assert(self.entries.deep_view()[i] == (self.entries[i].0@, self.entries[i].1@));
            }
        }
        &self.entries
    }

    /// Routes `name` to `namespace` and gives back the namespace it was
    /// routed to before, if any.
    pub fn insert(&mut self, name: String, namespace: String) -> (previous: Option<String>)
        ensures
            final(self)@ == old(self)@.insert(name@, namespace@),
            previous.deep_view() == if old(self)@.contains_key(name@) {
                Some(old(self)@[name@])
            } else {
                None
            },
    {
        proof {
            use_type_invariant(&*self);
        }
        let ghost e = self.entries.deep_view();
        proof {
            lemma_routes_map(e);
        }
        let mut entries: Vec<(String, String)> = Vec::new();
        std::mem::swap(&mut entries, &mut self.entries);
        let mut p: usize = 0;
        while p < entries.len()
            invariant
                entries.deep_view() == e,
                p <= entries.len(),
                forall|j: int| 0 <= j < p ==> #[trigger] e[j].0 != name@,
            ensures
                entries.deep_view() == e,
                p <= entries.len(),
                forall|j: int| 0 <= j < p ==> #[trigger] e[j].0 != name@,
                p < entries.len() ==> e[p as int].0 == name@,
            decreases entries.len() - p,
        {
            assert(e[p as int] == (entries[p as int].0@, entries[p as int].1@));
            if entries[p].0 == name {
                break;
            }
            p += 1;
        }
        let ghost k = name@;
        let ghost v = namespace@;
        let previous = if p < entries.len() {
            let (_, old_namespace) = entries.remove(p);
            entries.insert(p, (name, namespace));
            let ghost n = entries.deep_view();
            proof {
                assert(n =~= e.update(p as int, (k, v)));
                assert(e[p as int].0 == k);
                assert(distinct_names(n)) by {
                    assert forall|i: int, j: int| 0 <= i < j < n.len() implies #[trigger] n[i].0
                        != #[trigger] n[j].0 by {
                        if i != p && j != p {
                            assert(n[i] == e[i] && n[j] == e[j]);
                        } else if i == p {
                            assert(n[j] == e[j]);
                        } else {
                            assert(n[i] == e[i]);
                        }
                    }
                }
                lemma_routes_map(n);
                assert(routes_map(n) =~= routes_map(e).insert(k, v)) by {
                    assert forall|q: Seq<char>| #[trigger] routes_map(n).contains_key(q)
                        == routes_map(e).insert(k, v).contains_key(q) by {
                        if routes_map(n).contains_key(q) {
                            let i = choose|i: int| 0 <= i < n.len() && #[trigger] n[i].0 == q;
                            if i != p {
                                assert(n[i] == e[i]);
                            }
                        }
                        if routes_map(e).contains_key(q) {
                            let i = choose|i: int| 0 <= i < e.len() && #[trigger] e[i].0 == q;
                            if i != p {
                                assert(n[i] == e[i]);
                            }
                        }
                        if q == k {
                            assert(n[p as int].0 == q);
                        }
                    }
                    assert forall|q: Seq<char>| #[trigger] routes_map(n).contains_key(q) implies
                        routes_map(n)[q] == routes_map(e).insert(k, v)[q] by {
                        let i = choose|i: int| 0 <= i < n.len() && #[trigger] n[i].0 == q;
                        if i != p {
                            assert(n[i] == e[i]);
                        }
                    }
                }
            }
            Some(old_namespace)
        } else {
            entries.push((name, namespace));
            let ghost n = entries.deep_view();
            proof {
                assert(n =~= e.push((k, v)));
                assert(n.drop_last() =~= e);
                assert(!routes_map(e).contains_key(k));
                assert(distinct_names(n)) by {
                    assert forall|i: int, j: int| 0 <= i < j < n.len() implies #[trigger] n[i].0
                        != #[trigger] n[j].0 by {
                        assert(n[i] == e[i]);
                        if j < e.len() {
                            assert(n[j] == e[j]);
                        }
                    }
                }
            }
            None
        };
        self.entries = entries;
        previous
    }
}

/// The routes after each of `names`, in order, is routed to `namespace`.
pub open spec fn routed(
    m: Map<Seq<char>, Seq<char>>,
    names: Seq<Seq<char>>,
    namespace: Seq<char>,
) -> Map<Seq<char>, Seq<char>>
    decreases names.len(),
{
    if names.len() == 0 {
        m
    } else {
        routed(m, names.drop_last(), namespace).insert(names.last(), namespace)
    }
}

/// Whether `name` is already routed to a namespace other than `namespace`.
pub open spec fn conflicts(m: Map<Seq<char>, Seq<char>>, name: Seq<char>, namespace: Seq<char>) -> bool {
    m.contains_key(name) && m[name] != namespace
}

/// Whether `names[i]` is the first of `names` that conflicts.
pub open spec fn first_conflict(
    m: Map<Seq<char>, Seq<char>>,
    names: Seq<Seq<char>>,
    namespace: Seq<char>,
    i: int,
) -> bool {
    &&& 0 <= i < names.len()
    &&& conflicts(m, names[i], namespace)
    &&& forall|j: int| 0 <= j < i ==> !conflicts(m, #[trigger] names[j], namespace)
}

/// Routing a partition's items sends each of them to its namespace and
/// leaves the route of every other item as it was.
pub proof fn lemma_routed(m: Map<Seq<char>, Seq<char>>, names: Seq<Seq<char>>, namespace: Seq<char>)
    ensures
        forall|q: Seq<char>|
            #[trigger] routed(m, names, namespace).contains_key(q) == (m.contains_key(q)
                || names.contains(q)),
        forall|q: Seq<char>|
            routed(m, names, namespace).contains_key(q) ==> #[trigger] routed(m, names, namespace)[q]
                == if names.contains(q) {
                namespace
            } else {
                m[q]
            },
    decreases names.len(),
{
    if names.len() > 0 {
        let d = names.drop_last();
        let last = names.last();
        lemma_routed(m, d, namespace);
        assert(routed(m, names, namespace) == routed(m, d, namespace).insert(last, namespace));
        assert forall|q: Seq<char>| names.contains(q) == (d.contains(q) || q == last) by {
            if names.contains(q) {
                let i = choose|i: int| 0 <= i < names.len() && names[i] == q;
                if i < names.len() - 1 {
                    assert(d[i] == q);
                }
            }
            if d.contains(q) {
                let i = choose|i: int| 0 <= i < d.len() && d[i] == q;
                assert(names[i] == q);
            }
            if q == last {
                assert(names[names.len() - 1] == q);
            }
        }
        assert forall|q: Seq<char>| #[trigger] routed(m, names, namespace).contains_key(q) == (m.contains_key(q)
            || names.contains(q)) by {
            assert(routed(m, d, namespace).contains_key(q) == (m.contains_key(q) || d.contains(q)));
        }
        assert forall|q: Seq<char>| routed(m, names, namespace).contains_key(q) implies #[trigger] routed(
            m,
            names,
            namespace,
        )[q] == if names.contains(q) {
            namespace
        } else {
            m[q]
        } by {
            if q != last {
                assert(routed(m, d, namespace).contains_key(q));
                assert(routed(m, d, namespace)[q] == if d.contains(q) {
                    namespace
                } else {
                    m[q]
                });
            }
        }
    }
}

/// Routes each of `names`, in order, to `namespace`, and stops at the first
/// name that some other namespace already owns: that name and the other
/// namespace come back.
pub fn route_items(routes: &mut Routes, names: &Vec<String>, namespace: &String) -> (conflict: Option<
    (String, String),
>)
    ensures
        conflict is None <==> forall|j: int|
            0 <= j < names.len() ==> !conflicts(old(routes)@, #[trigger] names@[j]@, namespace@),
        conflict is None ==> final(routes)@ == routed(old(routes)@, names.deep_view(), namespace@),
        conflict matches Some(c) ==> exists|i: int|
            #[trigger] first_conflict(old(routes)@, names.deep_view(), namespace@, i) && c.0@
                == names@[i]@ && c.1@ == old(routes)@[names@[i]@] && final(routes)@ == routed(
                old(routes)@,
                names.deep_view().take(i + 1),
                namespace@,
            ),
{
    let ghost m = routes@;
    let ghost all = names.deep_view();
    let mut i: usize = 0;
    assert(all.take(0) =~= Seq::<Seq<char>>::empty());
    while i < names.len()
        invariant
            m == old(routes)@,
            all == names.deep_view(),
            i <= names.len(),
            routes@ == routed(m, all.take(i as int), namespace@),
            forall|j: int| 0 <= j < i ==> !conflicts(m, #[trigger] names@[j]@, namespace@),
        decreases names.len() - i,
    {
        let ghost before = all.take(i as int);
        let ghost name = names@[i as int]@;
        proof {
            lemma_routed(m, before, namespace@);
            assert(all.take(i + 1).drop_last() =~= before);
            assert(all[i as int] == name);
            assert(all.take(i + 1).last() == name);
        }
        let previous = routes.insert(names[i].clone(), namespace.clone());
        match previous {
            Some(p) => {
                if p != *namespace {
                    proof {
                        if before.contains(name) {
                            let j = choose|j: int| 0 <= j < before.len() && before[j] == name;
                            assert(all[j] == names@[j]@);
                        }
                        assert(forall|j: int| 0 <= j < i ==> !conflicts(m, #[trigger] all[j], namespace@));
                        assert(first_conflict(m, all, namespace@, i as int));
                    }
                    return Some((names[i].clone(), p));
                }
            },
            None => {},
        }
        proof {
            if conflicts(m, name, namespace@) {
                if before.contains(name) {
                    let j = choose|j: int| 0 <= j < before.len() && before[j] == name;
                    assert(all[j] == names@[j]@);
                }
            }
        }
        i += 1;
    }
    assert(all.take(names.len() as int) =~= all);
    None
}

/// `d` starts at position `p` of `list`, at the start of the list or just
/// after a `;`.
pub open spec fn placed(list: Seq<char>, p: int, d: Seq<char>) -> bool {
    &&& 0 <= p
    &&& p + d.len() <= list.len()
    &&& list.subrange(p, p + d.len()) == d
    &&& (p == 0 || list[p - 1] == ';')
}

/// `d` stands in `list` as one whole entry: a non-empty run of characters
/// other than `;` that starts at the start of the list or after a `;`, and
/// ends at the end of the list or before a `;`.
pub open spec fn is_entry(list: Seq<char>, d: Seq<char>) -> bool {
    &&& d.len() > 0
    &&& forall|k: int| 0 <= k < d.len() ==> #[trigger] d[k] != ';'
    &&& exists|p: int|
        #[trigger] placed(list, p, d) && (p + d.len() == list.len() || list[p + d.len()] == ';')
}

/// `d` stands at some position of `list`, at its start or after a `;`,
/// and is followed by a `;`.
pub open spec fn placed_before_separator(list: Seq<char>, d: Seq<char>) -> bool {
    exists|p: int| #[trigger] placed(list, p, d) && p + d.len() < list.len() && list[p + d.len()] == ';'
}

/// The strings one after another.
pub open spec fn joined(v: Seq<Seq<char>>) -> Seq<char>
    decreases v.len(),
{
    if v.len() == 0 {
        Seq::empty()
    } else {
        joined(v.drop_last()) + v.last()
    }
}

/// The text without its `;` characters.
pub open spec fn without_separators(s: Seq<char>) -> Seq<char>
    decreases s.len(),
{
    if s.len() == 0 {
        Seq::empty()
    } else {
        without_separators(s.drop_last()) + if s.last() == ';' {
            Seq::<char>::empty()
        } else {
            seq![s.last()]
        }
    }
}

/// Where the pieces of a `;` split stand in the text.
proof fn lemma_split_pieces_placed(s: Seq<char>)
    ensures
        split_at(s, ';').len() >= 1,
        forall|j: int, k: int|
            0 <= j < split_at(s, ';').len() && 0 <= k < split_at(s, ';')[j].len()
                ==> #[trigger] split_at(s, ';')[j][k] != ';',
        forall|j: int|
            0 <= j < split_at(s, ';').len() - 1 ==> placed_before_separator(
                s,
                #[trigger] split_at(s, ';')[j],
            ),
        placed(s, s.len() - split_at(s, ';').last().len(), split_at(s, ';').last()),
        joined(split_at(s, ';')) == without_separators(s),
    decreases s.len(),
{
    let v = split_at(s, ';');
    if s.len() == 0 {
        assert(v.len() == 1);
        assert(v.last().len() == 0);
        assert(s.subrange(0, 0) =~= v.last());
        assert(joined(v) == joined(v.drop_last()) + v.last());
        assert(v.drop_last().len() == 0);
        assert(joined(v) =~= without_separators(s));
    } else {
        let t = s.drop_last();
        let c = s.last();
        let u = split_at(t, ';');
        lemma_split_pieces_placed(t);
        let l = u.last();
        let q = t.len() - l.len();
        assert(u =~= u.drop_last().push(l));
        assert forall|j: int| 0 <= j < u.len() - 1 implies placed_before_separator(s, #[trigger] u[j]) by {
            assert(placed_before_separator(t, u[j]));
            let p = choose|p: int|
                #[trigger] placed(t, p, u[j]) && p + u[j].len() < t.len() && t[p + u[j].len()] == ';';
            assert(s.subrange(p, p + u[j].len()) =~= t.subrange(p, p + u[j].len()));
            if p > 0 {
                assert(s[p - 1] == t[p - 1]);
            }
            assert(s[p + u[j].len()] == t[p + u[j].len()]);
            assert(placed(s, p, u[j]));
        }
        assert(s.subrange(q, q + l.len()) =~= t.subrange(q, q + l.len()));
        if q > 0 {
            assert(s[q - 1] == t[q - 1]);
        }
        if c == ';' {
            assert(v == u.push(Seq::<char>::empty()));
            assert forall|j: int| 0 <= j < v.len() - 1 implies placed_before_separator(
                s,
                #[trigger] v[j],
            ) by {
                if j < u.len() - 1 {
                    assert(v[j] == u[j]);
                    assert(placed_before_separator(s, u[j]));
                } else {
                    assert(v[j] == l);
                    assert(placed(s, q, v[j]));
                    assert(s[q + l.len()] == ';');
                }
            }
            assert(s.subrange(s.len() as int, s.len() as int) =~= Seq::<char>::empty());
            assert(placed(s, s.len() - v.last().len(), v.last()));
            assert forall|j: int, k: int| 0 <= j < v.len() && 0 <= k < v[j].len() implies #[trigger] v[j][k]
                != ';' by {
                assert(v[j] == u[j]);
            }
            assert(v.drop_last() =~= u);
            assert(joined(v) =~= joined(u));
            assert(without_separators(s) =~= without_separators(t));
        } else {
            let l2 = l.push(c);
            assert(v == u.drop_last().push(l2));
            assert forall|j: int| 0 <= j < v.len() - 1 implies placed_before_separator(
                s,
                #[trigger] v[j],
            ) by {
                assert(v[j] == u[j]);
                assert(placed_before_separator(s, u[j]));
            }
            assert(s.subrange(q, q + l2.len()) =~= l2);
            assert(placed(s, s.len() - v.last().len(), v.last()));
            assert forall|j: int, k: int| 0 <= j < v.len() && 0 <= k < v[j].len() implies #[trigger] v[j][k]
                != ';' by {
                if j < v.len() - 1 {
                    assert(v[j] == u[j]);
                } else if k < l.len() {
                    assert(v[j][k] == u[u.len() - 1][k]);
                }
            }
            assert(v.drop_last() =~= u.drop_last());
            assert(joined(u) == joined(u.drop_last()) + l);
            assert(joined(v) =~= joined(u) + seq![c]);
        }
    }
}

/// Keeping the non-empty pieces keeps their text and keeps only pieces.
proof fn lemma_nonempty_pieces_joined(v: Seq<Seq<char>>)
    ensures
        joined(nonempty_pieces(v)) == joined(v),
        forall|x: Seq<char>| #[trigger] nonempty_pieces(v).contains(x) ==> v.contains(x),
    decreases v.len(),
{
    if v.len() > 0 {
        let d = v.drop_last();
        let l = v.last();
        lemma_nonempty_pieces_joined(d);
        assert(v =~= d.push(l));
        lemma_nonempty_pieces_push(d, l);
        let e = nonempty_pieces(d);
        assert forall|x: Seq<char>| nonempty_pieces(v).contains(x) implies v.contains(x) by {
            let k = choose|k: int| 0 <= k < nonempty_pieces(v).len() && nonempty_pieces(v)[k] == x;
            if k < e.len() {
                assert(nonempty_pieces(v)[k] == e[k]);
                assert(e.contains(x));
                assert(d.contains(x));
                let m = choose|m: int| 0 <= m < d.len() && d[m] == x;
                assert(v[m] == x);
            } else {
                assert(x == l);
                assert(v[v.len() - 1] == x);
            }
        }
        if l.len() > 0 {
            assert((e + seq![l]).drop_last() =~= e);
            assert(joined(e + seq![l]) == joined(e) + l);
        } else {
            assert(e + Seq::<Seq<char>>::empty() =~= e);
            assert(joined(v) =~= joined(d) + l);
        }
    }
}

/// Each directory of an `INCLUDE` list is one whole entry of the list,
/// spaces and all, and the directories together hold every character of
/// the list but its `;` separators, in order.
pub proof fn lemma_search_dirs_are_entries(list: Seq<char>)
    ensures
        forall|i: int|
            0 <= i < search_dir_list(list).len() ==> is_entry(list, #[trigger] search_dir_list(list)[i]),
        joined(search_dir_list(list)) == without_separators(list),
{
    let v = split_at(list, ';');
    lemma_split_pieces_placed(list);
    lemma_nonempty_pieces_joined(v);
    assert forall|i: int| 0 <= i < search_dir_list(list).len() implies is_entry(
        list,
        #[trigger] search_dir_list(list)[i],
    ) by {
        let d = search_dir_list(list)[i];
        assert(nonempty_pieces(v).contains(d));
        assert(v.contains(d));
        let j = choose|j: int| 0 <= j < v.len() && v[j] == d;
        reveal(Seq::filter);
        v.lemma_filter_pred(|p: Seq<char>| p.len() > 0, i);
        assert(d.len() > 0);
        assert forall|k: int| 0 <= k < d.len() implies #[trigger] d[k] != ';' by {
            assert(v[j][k] != ';');
        }
        if j < v.len() - 1 {
            assert(placed_before_separator(list, v[j]));
            let p = choose|p: int|
                #[trigger] placed(list, p, v[j]) && p + v[j].len() < list.len() && list[p + v[j].len()]
                    == ';';
            assert(placed(list, p, d));
        } else {
            assert(placed(list, list.len() - d.len(), d));
        }
    }
}

} // verus!
