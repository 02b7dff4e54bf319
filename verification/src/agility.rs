//! Marking `IFabric` interface declarations of RDL text with the agility
//! attribute, line by line.

use vstd::prelude::*;
use crate::names::{ifabric_prefix, is_ifabric_name, is_word_char};
use crate::text::{chars_of, push_char};

verus! {

/// The attribute line text that marks an interface as agile.
pub open spec fn agility_attribute() -> Seq<char> {
    "#[Windows::ServiceFabric::Metadata::MarshalingBehavior(Agile)]"@
}

/// The characters that `char::is_whitespace` accepts (Unicode
/// `White_Space`).
pub open spec fn is_space(c: char) -> bool {
    ||| ('\u{9}' <= c && c <= '\u{d}')
    ||| c == ' '
    ||| c == '\u{85}'
    ||| c == '\u{a0}'
    ||| c == '\u{1680}'
    ||| ('\u{2000}' <= c && c <= '\u{200a}')
    ||| c == '\u{2028}'
    ||| c == '\u{2029}'
    ||| c == '\u{202f}'
    ||| c == '\u{205f}'
    ||| c == '\u{3000}'
}

/// One past the end of the line that starts at `i`: past its `\n`, or the
/// end of the text.
pub open spec fn line_end(s: Seq<char>, i: int) -> int
    decreases s.len() - i,
{
    if i >= s.len() {
        s.len() as int
    } else if s[i] == '\n' {
        i + 1
    } else {
        line_end(s, i + 1)
    }
}

/// A line without its trailing `\r` and `\n` characters.
pub open spec fn trim_line_end(l: Seq<char>) -> Seq<char>
    decreases l.len(),
{
    if l.len() > 0 && (l.last() == '\r' || l.last() == '\n') {
        trim_line_end(l.drop_last())
    } else {
        l
    }
}

/// Text without its leading whitespace.
pub open spec fn trim_start(l: Seq<char>) -> Seq<char>
    decreases l.len(),
{
    if l.len() > 0 && is_space(l[0]) {
        trim_start(l.drop_first())
    } else {
        l
    }
}

/// The leading run of ASCII letters, digits and `_`.
pub open spec fn word_prefix(l: Seq<char>) -> Seq<char>
    decreases l.len(),
{
    if l.len() > 0 && is_word_char(l[0]) {
        seq![l[0]] + word_prefix(l.drop_first())
    } else {
        Seq::empty()
    }
}

/// `interface ` (with its space).
pub open spec fn interface_keyword() -> Seq<char> {
    seq!['i', 'n', 't', 'e', 'r', 'f', 'a', 'c', 'e', ' ']
}

/// The name that a line declares as an interface, if it does: the text
/// after optional leading whitespace and `interface `, up to the first
/// character that is not a word character.
pub open spec fn declared_interface(l: Seq<char>) -> Option<Seq<char>> {
    let t = trim_start(trim_line_end(l));
    if t.len() >= 10 && t.take(10) == interface_keyword() {
        Some(word_prefix(t.skip(10)))
    } else {
        None
    }
}

/// The line break that a marker line copies from the line it precedes.
pub open spec fn line_break(l: Seq<char>) -> Seq<char> {
    if l.len() >= 2 && l[l.len() - 2] == '\r' && l[l.len() - 1] == '\n' {
        seq!['\r', '\n']
    } else {
        seq!['\n']
    }
}

/// What goes before a line: for a line that declares an `IFabric`
/// interface, the line's indentation, the attribute and a line break;
/// nothing before any other line.
pub open spec fn marker(l: Seq<char>) -> Seq<char> {
    match declared_interface(l) {
        Some(name) => if is_ifabric_name(name) {
            let content = trim_line_end(l);
            content.take(content.len() - trim_start(content).len()) + agility_attribute()
                + line_break(l)
        } else {
            Seq::empty()
        },
        None => Seq::empty(),
    }
}

/// A line ends past its start and no later than the text.
pub proof fn lemma_line_end_bounds(s: Seq<char>, i: int)
    requires
        0 <= i < s.len(),
    ensures
        i < line_end(s, i) <= s.len(),
    decreases s.len() - i,
{
    if s[i] != '\n' {
        if i + 1 < s.len() {
            lemma_line_end_bounds(s, i + 1);
        } else {
            assert(line_end(s, i + 1) == s.len());
        }
    }
}

/// The text from position `i` on, each line preceded by its marker.
pub open spec fn marked_from(s: Seq<char>, i: int) -> Seq<char>
    decreases s.len() - i,
{
    if i >= s.len() || i < 0 {
        Seq::empty()
    } else {
        let k = line_end(s, i);
        proof {
            lemma_line_end_bounds(s, i);
        }
        marker(s.subrange(i, k)) + s.subrange(i, k) + marked_from(s, k)
    }
}

/// Whether `char::is_whitespace` holds.
pub fn whitespace(c: char) -> (r: bool)
    ensures
        r == is_space(c),
{
    ('\u{9}' <= c && c <= '\u{d}') || c == ' ' || c == '\u{85}' || c == '\u{a0}' || c == '\u{1680}'
        || ('\u{2000}' <= c && c <= '\u{200a}') || c == '\u{2028}' || c == '\u{2029}' || c
        == '\u{202f}' || c == '\u{205f}' || c == '\u{3000}'
}

proof fn lemma_trim_line_end_prefix(l: Seq<char>, k: int)
    requires
        0 <= k <= l.len(),
        forall|j: int| k <= j < l.len() ==> (l[j] == '\r' || l[j] == '\n'),
        k == 0 || !(l[k - 1] == '\r' || l[k - 1] == '\n'),
    ensures
        trim_line_end(l) == l.take(k),
    decreases l.len(),
{
    if l.len() > k {
        assert(l.drop_last().take(k) =~= l.take(k));
        lemma_trim_line_end_prefix(l.drop_last(), k);
    } else {
        assert(l.take(k) =~= l);
    }
}

proof fn lemma_trim_start_suffix(l: Seq<char>, k: int)
    requires
        0 <= k <= l.len(),
        forall|j: int| 0 <= j < k ==> is_space(#[trigger] l[j]),
        k == l.len() || !is_space(l[k]),
    ensures
        trim_start(l) == l.skip(k),
    decreases k,
{
    if k > 0 {
        assert(l.drop_first().skip(k - 1) =~= l.skip(k));
        lemma_trim_start_suffix(l.drop_first(), k - 1);
    } else {
        assert(l.skip(0) =~= l);
    }
}

proof fn lemma_word_prefix_take(l: Seq<char>, k: int)
    requires
        0 <= k <= l.len(),
        forall|j: int| 0 <= j < k ==> is_word_char(#[trigger] l[j]),
        k == l.len() || !is_word_char(l[k]),
    ensures
        word_prefix(l) == l.take(k),
    decreases k,
{
    if k > 0 {
        lemma_word_prefix_take(l.drop_first(), k - 1);
        assert(seq![l[0]] + l.drop_first().take(k - 1) =~= l.take(k));
    } else {
        assert(l.take(0) =~= Seq::<char>::empty());
    }
}

/// Where the content of `chars[start..end]` ends, before its trailing `\r`
/// and `\n` characters.
fn content_end_of(chars: &Vec<char>, start: usize, end: usize) -> (r: usize)
    requires
        start <= end <= chars.len(),
    ensures
        start <= r <= end,
        trim_line_end(chars@.subrange(start as int, end as int)) == chars@.subrange(
            start as int,
            r as int,
        ),
{
    let ghost l = chars@.subrange(start as int, end as int);
    let mut content_end = end;
    while content_end > start && (chars[content_end - 1] == '\r' || chars[content_end - 1] == '\n')
        invariant
            start <= content_end <= end <= chars.len(),
            forall|j: int| content_end <= j < end ==> (chars@[j] == '\r' || chars@[j] == '\n'),
        decreases content_end,
    {
        content_end -= 1;
    }
    proof {
        lemma_trim_line_end_prefix(l, content_end - start);
    }
    assert(l.take(content_end - start) =~= chars@.subrange(start as int, content_end as int));
    content_end
}

/// Where the text of `chars[start..end]` starts, after its leading
/// whitespace.
fn text_start_of(chars: &Vec<char>, start: usize, end: usize) -> (r: usize)
    requires
        start <= end <= chars.len(),
    ensures
        start <= r <= end,
        trim_start(chars@.subrange(start as int, end as int)) == chars@.subrange(r as int, end as int),
{
    let ghost content = chars@.subrange(start as int, end as int);
    let mut text_start = start;
    while text_start < end && whitespace(chars[text_start])
        invariant
            start <= text_start <= end <= chars.len(),
            forall|j: int| start <= j < text_start ==> is_space(#[trigger] chars@[j]),
        decreases end - text_start,
    {
        text_start += 1;
    }
    proof {
        assert forall|j: int| 0 <= j < text_start - start implies is_space(#[trigger] content[j]) by {
            assert(content[j] == chars@[start + j]);
        }
        lemma_trim_start_suffix(content, text_start - start);
    }
    assert(content.skip(text_start - start) =~= chars@.subrange(text_start as int, end as int));
    text_start
}

/// Whether `chars[start..end]` begins with `interface `.
fn begins_with_interface(chars: &Vec<char>, start: usize, end: usize) -> (r: bool)
    requires
        start <= end <= chars.len(),
    ensures
        r == (end - start >= 10 && chars@.subrange(start as int, end as int).take(10)
            == interface_keyword()),
{
    let ghost t = chars@.subrange(start as int, end as int);
    let keyword: [char; 10] = ['i', 'n', 't', 'e', 'r', 'f', 'a', 'c', 'e', ' '];
    if end - start < 10 {
        return false;
    }
    let mut i: usize = 0;
    while i < 10
        invariant
            i <= 10,
            start + 10 <= end <= chars.len(),
            keyword@ == interface_keyword(),
            t == chars@.subrange(start as int, end as int),
            forall|j: int| 0 <= j < i ==> t[j] == interface_keyword()[j],
        decreases 10 - i,
    {
        if chars[start + i] != keyword[i] {
            assert(t.take(10)[i as int] != interface_keyword()[i as int]);
            return false;
        }
        i += 1;
    }
    assert(t.take(10) =~= interface_keyword());
    true
}

/// Where the leading run of word characters of `chars[start..end]` ends.
fn word_end_of(chars: &Vec<char>, start: usize, end: usize) -> (r: usize)
    requires
        start <= end <= chars.len(),
    ensures
        start <= r <= end,
        word_prefix(chars@.subrange(start as int, end as int)) == chars@.subrange(
            start as int,
            r as int,
        ),
{
    let ghost d = chars@.subrange(start as int, end as int);
    let mut name_end = start;
    while name_end < end && crate::names::word_char(chars[name_end])
        invariant
            start <= name_end <= end <= chars.len(),
            forall|j: int| start <= j < name_end ==> is_word_char(#[trigger] chars@[j]),
        decreases end - name_end,
    {
        name_end += 1;
    }
    proof {
        assert forall|j: int| 0 <= j < name_end - start implies is_word_char(#[trigger] d[j]) by {
            assert(d[j] == chars@[start + j]);
        }
        lemma_word_prefix_take(d, name_end - start);
    }
    assert(d.take(name_end - start) =~= chars@.subrange(start as int, name_end as int));
    name_end
}

/// Whether the word `chars[start..end]` follows the `IFabric` rule.
fn ifabric_word(chars: &Vec<char>, start: usize, end: usize) -> (r: bool)
    requires
        start <= end <= chars.len(),
        forall|j: int| start <= j < end ==> is_word_char(#[trigger] chars@[j]),
    ensures
        r == is_ifabric_name(chars@.subrange(start as int, end as int)),
{
    let ghost name = chars@.subrange(start as int, end as int);
    let prefix: [char; 7] = ['I', 'F', 'a', 'b', 'r', 'i', 'c'];
    if end - start <= 7 {
        return false;
    }
    let mut p: usize = 0;
    while p < 7
        invariant
            p <= 7,
            start + 7 < end <= chars.len(),
            prefix@ == ifabric_prefix(),
            name == chars@.subrange(start as int, end as int),
            forall|j: int| 0 <= j < p ==> name[j] == ifabric_prefix()[j],
        decreases 7 - p,
    {
        if chars[start + p] != prefix[p] {
            assert(name.take(7)[p as int] != ifabric_prefix()[p as int]);
            return false;
        }
        p += 1;
    }
    assert(name.take(7) =~= ifabric_prefix());
    assert forall|i: int| 0 <= i < name.len() implies is_word_char(#[trigger] name[i]) by {
        assert(name[i] == chars@[start + i]);
    }
    true
}

/// Appends `chars[start..end]`.
fn extend_range(m: &mut Vec<char>, chars: &Vec<char>, start: usize, end: usize)
    requires
        start <= end <= chars.len(),
    ensures
        final(m)@ == old(m)@ + chars@.subrange(start as int, end as int),
{
    let mut j: usize = start;
    while j < end
        invariant
            start <= j <= end <= chars.len(),
            m@ == old(m)@ + chars@.subrange(start as int, j as int),
        decreases end - j,
    {
        m.push(chars[j]);
        assert(m@ =~= old(m)@ + chars@.subrange(start as int, j + 1));
        j += 1;
    }
}

proof fn lemma_word_prefix_words(l: Seq<char>)
    ensures
        word_prefix(l).len() <= l.len(),
        forall|j: int| 0 <= j < word_prefix(l).len() ==> word_prefix(l)[j] == l[j] && is_word_char(
            l[j],
        ),
    decreases l.len(),
{
    if l.len() > 0 && is_word_char(l[0]) {
        let rest = l.drop_first();
        lemma_word_prefix_words(rest);
        assert forall|j: int| 0 <= j < word_prefix(l).len() implies word_prefix(l)[j] == l[j]
            && is_word_char(l[j]) by {
            if j > 0 {
                assert(word_prefix(l)[j] == word_prefix(rest)[j - 1]);
                assert(rest[j - 1] == l[j]);
            }
        }
    }
}

/// The marker for the line `chars[start..end]`.
fn line_marker(chars: &Vec<char>, start: usize, end: usize) -> (m: Vec<char>)
    requires
        start <= end <= chars.len(),
    ensures
        m@ == marker(chars@.subrange(start as int, end as int)),
{
    let ghost l = chars@.subrange(start as int, end as int);
    let content_end = content_end_of(chars, start, end);
    let ghost content = chars@.subrange(start as int, content_end as int);
    let text_start = text_start_of(chars, start, content_end);
    let ghost t = chars@.subrange(text_start as int, content_end as int);
    let mut m: Vec<char> = Vec::new();
    if !begins_with_interface(chars, text_start, content_end) {
        assert(declared_interface(l) is None);
        return m;
    }
    let name_start = text_start + 10;
    assert(t.skip(10) =~= chars@.subrange(name_start as int, content_end as int));
    let name_end = word_end_of(chars, name_start, content_end);
    assert(declared_interface(l) == Some(chars@.subrange(name_start as int, name_end as int)));
    assert forall|j: int| name_start <= j < name_end implies is_word_char(#[trigger] chars@[j]) by {
        let w = chars@.subrange(name_start as int, content_end as int);
        crate::agility::lemma_word_prefix_words(w);
        assert(chars@[j] == word_prefix(w)[j - name_start]);
    }
    if !ifabric_word(chars, name_start, name_end) {
        return m;
    }
    extend_range(&mut m, chars, start, text_start);
    assert(chars@.subrange(start as int, text_start as int) =~= content.take(content.len() - t.len()));
    let attribute = chars_of("#[Windows::ServiceFabric::Metadata::MarshalingBehavior(Agile)]");
    extend_range(&mut m, &attribute, 0, attribute.len());
    assert(attribute@.subrange(0, attribute.len() as int) =~= attribute@);
    if end - start >= 2 && chars[end - 2] == '\r' && chars[end - 1] == '\n' {
        m.push('\r');
        m.push('\n');
        assert(line_break(l) =~= seq!['\r', '\n']);
    } else {
        m.push('\n');
        assert(line_break(l) =~= seq!['\n']);
    }
    assert(m@ =~= marker(l));
    m
}

/// Marks every line that declares an `IFabric` interface with the
/// agility attribute: a line of its own before it, with the same
/// indentation and line break. Every input line is kept as it is.
pub fn add_agility_attributes(input: &str) -> (output: String)
    ensures
        output@ == marked_from(input@, 0),
{
    let chars = chars_of(input);
    let ghost s = chars@;
    let mut output = String::new();
    let mut i: usize = 0;
    while i < chars.len()
        invariant
            chars@ == s,
            s == input@,
            i <= chars.len(),
            output@ + marked_from(s, i as int) == marked_from(s, 0),
        decreases chars.len() - i,
    {
        let mut k = i;
        while k < chars.len() && chars[k] != '\n'
            invariant
                i <= k <= chars.len(),
                chars@ == s,
                line_end(s, i as int) == line_end(s, k as int),
            decreases chars.len() - k,
        {
            k += 1;
        }
        if k < chars.len() {
            k += 1;
        }
        assert(k == line_end(s, i as int));
        let m = line_marker(&chars, i, k);
        let ghost before = output@;
        let mut j: usize = 0;
        while j < m.len()
            invariant
                j <= m.len(),
                output@ == before + m@.take(j as int),
            decreases m.len() - j,
        {
            push_char(&mut output, m[j]);
            assert(m@.take(j + 1) =~= m@.take(j as int).push(m@[j as int]));
            j += 1;
        }
        assert(m@.take(m.len() as int) =~= m@);
        let mut j2: usize = i;
        while j2 < k
            invariant
                i <= j2 <= k <= chars.len(),
                chars@ == s,
                output@ == before + m@ + s.subrange(i as int, j2 as int),
            decreases k - j2,
        {
            push_char(&mut output, chars[j2]);
            assert(s.subrange(i as int, j2 + 1) =~= s.subrange(i as int, j2 as int).push(s[j2 as int]));
            j2 += 1;
        }
        proof {
            lemma_line_end_bounds(s, i as int);
            assert(marked_from(s, i as int) == marker(s.subrange(i as int, k as int)) + s.subrange(i as int, k as int) + marked_from(s, k as int));
            assert(output@ + marked_from(s, k as int) =~= before + marked_from(s, i as int));
        }
        i = k;
    }
    assert(output@ =~= output@ + marked_from(s, i as int));
    output
}

/// Whether position `i` starts a line of `s`.
pub open spec fn is_line_start(s: Seq<char>, i: int) -> bool {
    0 <= i < s.len() && (i == 0 || s[i - 1] == '\n')
}

proof fn lemma_line_end_break(s: Seq<char>, i: int)
    requires
        0 <= i < s.len(),
    ensures
        line_end(s, i) == s.len() || s[line_end(s, i) - 1] == '\n',
    decreases s.len() - i,
{
    if s[i] != '\n' {
        if i + 1 < s.len() {
            lemma_line_end_break(s, i + 1);
        } else {
            assert(line_end(s, i + 1) == s.len());
        }
    }
}

proof fn lemma_unmarked_from(s: Seq<char>, i: int)
    requires
        0 <= i <= s.len(),
        i == 0 || i == s.len() || s[i - 1] == '\n',
        forall|j: int| is_line_start(s, j) ==> marker(#[trigger] s.subrange(j, line_end(s, j))).len() == 0,
    ensures
        marked_from(s, i) == s.skip(i),
    decreases s.len() - i,
{
    if i < s.len() {
        let k = line_end(s, i);
        lemma_line_end_bounds(s, i);
        lemma_line_end_break(s, i);
        assert(is_line_start(s, i));
        lemma_unmarked_from(s, k);
        assert(marker(s.subrange(i, k)) =~= Seq::<char>::empty());
        assert(s.subrange(i, k) + s.skip(k) =~= s.skip(i));
        assert(marked_from(s, i) =~= s.skip(i));
    } else {
        assert(s.skip(i) =~= Seq::<char>::empty());
    }
}

/// Text in which no line declares an `IFabric` interface comes back
/// unchanged.
pub proof fn lemma_unmarked_text_unchanged(s: Seq<char>)
    requires
        forall|j: int| is_line_start(s, j) ==> marker(#[trigger] s.subrange(j, line_end(s, j))).len() == 0,
    ensures
        marked_from(s, 0) == s,
{
    lemma_unmarked_from(s, 0);
    assert(s.skip(0) =~= s);
}

} // verus!
