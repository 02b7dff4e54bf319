//! Type names: qualification, the short name after the last dot, and the
//! `IFabric` interface naming rule.

use vstd::prelude::*;
use crate::text::{chars_of, push_char};

verus! {

/// `namespace.name`, or `name` alone when the namespace is empty.
pub open spec fn qualified(namespace: Seq<char>, name: Seq<char>) -> Seq<char> {
    if namespace.len() == 0 {
        name
    } else {
        namespace.push('.') + name
    }
}

/// One past the position of the last `.` in `s`, or 0 when there is none.
pub open spec fn after_last_dot(s: Seq<char>) -> nat
    decreases s.len(),
{
    if s.len() == 0 {
        0
    } else if s.last() == '.' {
        s.len()
    } else {
        after_last_dot(s.drop_last())
    }
}

/// The part of a qualified name after its last `.` (the whole name when it
/// holds no `.`).
pub open spec fn short(s: Seq<char>) -> Seq<char> {
    s.skip(after_last_dot(s) as int)
}

/// ASCII letters, ASCII digits and `_`.
pub open spec fn is_word_char(c: char) -> bool {
    ('0' <= c && c <= '9') || ('A' <= c && c <= 'Z') || ('a' <= c && c <= 'z') || c == '_'
}

/// The interface name prefix `IFabric`.
pub open spec fn ifabric_prefix() -> Seq<char> {
    seq!['I', 'F', 'a', 'b', 'r', 'i', 'c']
}

/// A name of the form `IFabric` followed by one or more word characters.
pub open spec fn is_ifabric_name(s: Seq<char>) -> bool {
    &&& s.len() > ifabric_prefix().len()
    &&& s.take(ifabric_prefix().len() as int) == ifabric_prefix()
    &&& forall|i: int| 0 <= i < s.len() ==> is_word_char(#[trigger] s[i])
}

/// The three legacy duplicate interface names that may be absent.
pub open spec fn is_omitted_duplicate(s: Seq<char>) -> bool {
    ||| s == "IFabricClientConnectionEventHandler0000"@
    ||| s == "IFabricClientConnectionEventHandler0001"@
    ||| s == "IFabricServiceNotificationEventHandler0000"@
}

/// Joins a namespace and a name with a dot; an empty namespace is left out.
pub fn qualified_name(namespace: &str, name: &str) -> (r: String)
    ensures
        r@ == qualified(namespace@, name@),
{
    if namespace.is_empty() {
        name.to_owned()
    } else {
        let mut r = namespace.to_owned();
        push_char(&mut r, '.');
        r.append(name);
        r
    }
}

proof fn lemma_after_last_dot_suffix(s: Seq<char>, k: int)
    requires
        0 <= k <= s.len(),
        forall|j: int| k <= j < s.len() ==> s[j] != '.',
    ensures
        after_last_dot(s) == after_last_dot(s.take(k)),
    decreases s.len() - k,
{
    if k < s.len() {
        assert(s.drop_last() =~= s.take(s.len() - 1));
        assert(s.take(s.len() - 1).take(k) =~= s.take(k));
        lemma_after_last_dot_suffix(s.take(s.len() - 1), k);
    } else {
        assert(s.take(k) =~= s);
    }
}

/// The part of a qualified name after its last dot.
pub fn short_name(qualified: &str) -> (r: String)
    ensures
        r@ == short(qualified@),
{
    let chars = chars_of(qualified);
    let mut start: usize = chars.len();
    while start > 0 && chars[start - 1] != '.'
        invariant
            chars@ == qualified@,
            start <= chars.len(),
            forall|j: int| start <= j < chars.len() ==> chars@[j] != '.',
        decreases start,
    {
        start -= 1;
    }
    proof {
        lemma_after_last_dot_suffix(chars@, start as int);
        if start > 0 {
            assert(chars@.take(start as int).last() == '.');
        }
    }
    let mut r = String::new();
    let mut i: usize = start;
    while i < chars.len()
        invariant
            start <= i <= chars.len(),
            r@ == chars@.subrange(start as int, i as int),
        decreases chars.len() - i,
    {
        push_char(&mut r, chars[i]);
        assert(chars@.subrange(start as int, i + 1) =~= chars@.subrange(start as int, i as int).push(chars@[i as int]));
        i += 1;
    }
    assert(chars@.subrange(start as int, chars.len() as int) =~= chars@.skip(start as int));
    r
}

/// Whether a character is an ASCII letter, an ASCII digit or `_`.
pub fn word_char(c: char) -> (r: bool)
    ensures
        r == is_word_char(c),
{
    ('0' <= c && c <= '9') || ('A' <= c && c <= 'Z') || ('a' <= c && c <= 'z') || c == '_'
}

/// Whether `name` is `IFabric` followed by one or more ASCII letters,
/// digits or underscores.
pub fn is_ifabric(name: &str) -> (r: bool)
    ensures
        r == is_ifabric_name(name@),
{
    let chars = chars_of(name);
    let prefix: [char; 7] = ['I', 'F', 'a', 'b', 'r', 'i', 'c'];
    if chars.len() <= 7 {
        return false;
    }
    let mut i: usize = 0;
    while i < 7
        invariant
            chars@ == name@,
            chars.len() > 7,
            prefix@ == ifabric_prefix(),
            i <= 7,
            forall|j: int| 0 <= j < i ==> chars@[j] == ifabric_prefix()[j],
        decreases 7 - i,
    {
        if chars[i] != prefix[i] {
            assert(name@.take(7)[i as int] != ifabric_prefix()[i as int]);
            return false;
        }
        i += 1;
    }
    assert(name@.take(7) =~= ifabric_prefix());
    let mut k: usize = 0;
    while k < chars.len()
        invariant
            chars@ == name@,
            k <= chars.len(),
            forall|j: int| 0 <= j < k ==> is_word_char(#[trigger] chars@[j]),
        decreases chars.len() - k,
    {
        if !word_char(chars[k]) {
            return false;
        }
        k += 1;
    }
    true
}

/// Whether a short name is one of the legacy duplicate interfaces that the
/// migration comparison allows to be absent.
pub fn is_omitted(name: &str) -> (r: bool)
    ensures
        r == is_omitted_duplicate(name@),
{
    let owned = name.to_owned();
    owned == String::from_str("IFabricClientConnectionEventHandler0000") || owned
        == String::from_str("IFabricClientConnectionEventHandler0001") || owned
        == String::from_str("IFabricServiceNotificationEventHandler0000")
}

} // verus!
