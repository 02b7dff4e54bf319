//! The deterministic rewrites that the generator applies to scraped RDL
//! text before compiling it.

use vstd::prelude::*;
use crate::agility::{
    add_agility_attributes, agility_attribute, declared_interface, is_space, lemma_line_end_bounds,
    line_break, line_end, marked_from, marker, trim_line_end, trim_start,
};
use crate::names::is_ifabric_name;
use crate::text::{chars_of, string_of_chars};

verus! {

/// Whether `s` holds `pattern` at position `i`.
pub open spec fn matches_at(s: Seq<char>, pattern: Seq<char>, i: int) -> bool {
    0 <= i && i + pattern.len() <= s.len() && s.subrange(i, i + pattern.len()) == pattern
}

/// `s` from position `i` on with every occurrence of `pattern` replaced by
/// `with`, occurrences taken from left to right without overlap. An empty
/// `pattern` occurs at every position, the end included, so `with` then
/// comes before each character and once more at the end.
pub open spec fn replaced_from(s: Seq<char>, pattern: Seq<char>, with: Seq<char>, i: int) -> Seq<char>
    decreases s.len() - i,
{
    if pattern.len() == 0 {
        if 0 <= i < s.len() {
            with + seq![s[i]] + replaced_from(s, pattern, with, i + 1)
        } else {
            with
        }
    } else if i < 0 || i >= s.len() {
        s.skip(i)
    } else if matches_at(s, pattern, i) {
        with + replaced_from(s, pattern, with, i + pattern.len())
    } else {
        seq![s[i]] + replaced_from(s, pattern, with, i + 1)
    }
}

/// `s` with every occurrence of `pattern` replaced by `with`.
pub open spec fn replaced(s: Seq<char>, pattern: Seq<char>, with: Seq<char>) -> Seq<char> {
    replaced_from(s, pattern, with, 0)
}

fn matches_here(s: &Vec<char>, pattern: &Vec<char>, i: usize) -> (r: bool)
    requires
        i <= s.len(),
    ensures
        r == matches_at(s@, pattern@, i as int),
{
    if pattern.len() > s.len() - i {
        return false;
    }
    let mut k: usize = 0;
    while k < pattern.len()
        invariant
            k <= pattern.len(),
            i + pattern.len() <= s.len(),
            forall|j: int| 0 <= j < k ==> s@[i + j] == pattern@[j],
        decreases pattern.len() - k,
    {
        if s[i + k] != pattern[k] {
            assert(s@.subrange(i as int, i + pattern.len())[k as int] != pattern@[k as int]);
            return false;
        }
        k += 1;
    }
    assert(s@.subrange(i as int, i + pattern.len()) =~= pattern@);
    true
}

/// Appends the characters of `w`.
fn push_all(out: &mut Vec<char>, w: &Vec<char>)
    ensures
        final(out)@ == old(out)@ + w@,
{
    let mut k: usize = 0;
    while k < w.len()
        invariant
            k <= w.len(),
            out@ == old(out)@ + w@.take(k as int),
        decreases w.len() - k,
    {
        out.push(w[k]);
        assert(w@.take(k + 1) =~= w@.take(k as int).push(w@[k as int]));
        k += 1;
    }
    assert(w@.take(w.len() as int) =~= w@);
}

/// `text` with every occurrence of `pattern` replaced by `with`, as
/// `str::replace` does; an empty `pattern` puts `with` before every
/// character and at the end.
pub fn replace_all(text: &str, pattern: &str, with: &str) -> (r: String)
    ensures
        r@ == replaced(text@, pattern@, with@),
{
    let s = chars_of(text);
    let p = chars_of(pattern);
    let w = chars_of(with);
    let mut out: Vec<char> = Vec::new();
    let mut i: usize = 0;
    if p.len() == 0 {
        while i < s.len()
            invariant
                s@ == text@,
                p@ == pattern@,
                w@ == with@,
                p.len() == 0,
                i <= s.len(),
                out@ + replaced_from(s@, p@, w@, i as int) == replaced(s@, p@, w@),
            decreases s.len() - i,
        {
            let ghost before = out@;
            push_all(&mut out, &w);
            out.push(s[i]);
            assert(out@ + replaced_from(s@, p@, w@, i + 1) =~= before + replaced_from(s@, p@, w@, i as int));
            i = i + 1;
        }
        let ghost before = out@;
        push_all(&mut out, &w);
        assert(out@ =~= before + replaced_from(s@, p@, w@, i as int));
        return string_of_chars(&out);
    }
    while i < s.len()
        invariant
            s@ == text@,
            p@ == pattern@,
            w@ == with@,
            p.len() > 0,
            i <= s.len(),
            out@ + replaced_from(s@, p@, w@, i as int) == replaced(s@, p@, w@),
        decreases s.len() - i,
    {
        let ghost before = out@;
        if matches_here(&s, &p, i) {
            push_all(&mut out, &w);
            assert(out@ + replaced_from(s@, p@, w@, i + p.len()) =~= before + replaced_from(s@, p@, w@, i as int));
            i = i + p.len();
        } else {
            out.push(s[i]);
            assert(out@ + replaced_from(s@, p@, w@, i + 1) =~= before + replaced_from(s@, p@, w@, i as int));
            i = i + 1;
        }
    }
    assert(replaced_from(s@, p@, w@, i as int) =~= Seq::<char>::empty());
    assert(out@ =~= out@ + replaced_from(s@, p@, w@, i as int));
    string_of_chars(&out)
}

/// The rewrite that marks C-style enumerations as scoped.
pub open spec fn scoped_enums(text: Seq<char>) -> Seq<char> {
    replaced(text, "#[repr(i32)]"@, "#[repr(i32)] #[scoped]"@)
}

/// Marks every C-style enumeration (`#[repr(i32)]`) as scoped and every
/// `IFabric` interface as agile.
pub fn scope_enums_and_mark_agile(text: &str) -> (r: String)
    ensures
        r@ == marked_from(scoped_enums(text@), 0),
{
    proof {
        reveal_strlit("#[repr(i32)]");
    }
    let scoped = replace_all(text, "#[repr(i32)]", "#[repr(i32)] #[scoped]");
    add_agility_attributes(scoped.as_str())
}

/// The rewrites of a scraped partition, in order: the `LPCWSTR` alias to
/// the Win32 `PCWSTR`, `FABRIC_URI` to a void pointer, the
/// `FABRIC_AAD_ClAIMS` spelling to `FABRIC_AAD_CLAIMS`, scoped enumerations.
pub open spec fn normalized_partition(text: Seq<char>) -> Seq<char> {
    scoped_enums(
        replaced(
            replaced(
                replaced(
                    text,
                    "type LPCWSTR = *const u16;"@,
                    "type LPCWSTR = Windows::Win32::PCWSTR;"@,
                ),
                "type FABRIC_URI = LPCWSTR;"@,
                "type FABRIC_URI = *mut void;"@,
            ),
            "FABRIC_AAD_ClAIMS"@,
            "FABRIC_AAD_CLAIMS"@,
        ),
    )
}

/// Normalizes a scraped partition (string aliases, `FABRIC_URI`, the
/// claims spelling, scoped enumerations) and marks its `IFabric`
/// interfaces as agile.
pub fn rewrite_partition(text: &str) -> (r: String)
    ensures
        r@ == marked_from(normalized_partition(text@), 0),
{
    proof {
        reveal_strlit("type LPCWSTR = *const u16;");
        reveal_strlit("type FABRIC_URI = LPCWSTR;");
        reveal_strlit("FABRIC_AAD_ClAIMS");
    }
    let a = replace_all(text, "type LPCWSTR = *const u16;", "type LPCWSTR = Windows::Win32::PCWSTR;");
    let b = replace_all(a.as_str(), "type FABRIC_URI = LPCWSTR;", "type FABRIC_URI = *mut void;");
    let c = replace_all(b.as_str(), "FABRIC_AAD_ClAIMS", "FABRIC_AAD_CLAIMS");
    scope_enums_and_mark_agile(c.as_str())
}

/// `x` begins with `q`.
pub open spec fn leads(x: Seq<char>, q: Seq<char>) -> bool {
    q.len() <= x.len() && x.take(q.len() as int) == q
}

/// `p` occurs somewhere in `t`.
pub open spec fn occurs(t: Seq<char>, p: Seq<char>) -> bool {
    exists|j: int| #[trigger] matches_at(t, p, j)
}

/// Whenever `x` begins with a proper suffix of `p`, `t` does too.
spec fn tracks(x: Seq<char>, t: Seq<char>, p: Seq<char>) -> bool {
    forall|k: int| 1 <= k < p.len() && #[trigger] leads(x, p.skip(k)) ==> leads(t, p.skip(k))
}

/// `w` and `p` differ at place `m` of `p` when `p` is laid at place `j`
/// of `w`.
spec fn differs_at(w: Seq<char>, p: Seq<char>, j: int, m: int) -> bool {
    0 <= m < p.len() && j + m < w.len() && w[j + m] != p[m]
}

/// Laid at any place of `w`, `p` disagrees with `w` before `w` ends: `p`
/// neither occurs in `w` nor begins in it.
spec fn no_overlap(w: Seq<char>, p: Seq<char>) -> bool {
    forall|j: int| 0 <= j < w.len() ==> #[trigger] disagrees_from(w, p, j)
}

/// Laid at place `j` of `w`, `p` disagrees with `w` before `w` ends.
spec fn disagrees_from(w: Seq<char>, p: Seq<char>, j: int) -> bool {
    exists|m: int| #[trigger] differs_at(w, p, j, m)
}

/// `w` is not empty and its first character is none of `p`'s but the first.
spec fn fresh_start(w: Seq<char>, p: Seq<char>) -> bool {
    w.len() > 0 && forall|k: int| 1 <= k < p.len() ==> #[trigger] p[k] != w[0]
}

/// Copying a piece of the source in front keeps `p` out of the output.
proof fn lemma_copy_keeps_out(block: Seq<char>, x: Seq<char>, t: Seq<char>, p: Seq<char>)
    requires
        p.len() > 0,
        !occurs(x, p),
        tracks(x, t, p),
        forall|j: int| 0 <= j < block.len() ==> !#[trigger] matches_at(block + t, p, j),
    ensures
        !occurs(block + x, p),
        tracks(block + x, block + t, p),
{
    let b = block.len() as int;
    let n = p.len() as int;
    if occurs(block + x, p) {
        let j = choose|j: int| #[trigger] matches_at(block + x, p, j);
        if j >= b {
            assert((block + x).subrange(j, j + n) =~= x.subrange(j - b, j - b + n));
            assert(matches_at(x, p, j - b));
        } else if j + n <= b {
            assert((block + x).subrange(j, j + n) =~= (block + t).subrange(j, j + n));
            assert(matches_at(block + t, p, j));
        } else {
            let k = b - j;
            assert(x.take(n - k) =~= p.skip(k)) by {
                assert forall|i: int| 0 <= i < n - k implies #[trigger] x.take(n - k)[i] == p.skip(k)[i] by {
                    assert((block + x).subrange(j, j + n)[k + i] == p[k + i]);
                }
            }
            assert(leads(x, p.skip(k)));
            assert(leads(t, p.skip(k)));
            assert((block + t).subrange(j, j + n) =~= p) by {
                assert forall|i: int| 0 <= i < n implies #[trigger] (block + t).subrange(j, j + n)[i] == p[i] by {
                    if i < k {
                        assert((block + x).subrange(j, j + n)[i] == p[i]);
                    } else {
                        assert(t.take(n - k)[i - k] == p.skip(k)[i - k]);
                    }
                }
            }
            assert(matches_at(block + t, p, j));
        }
    }
    assert forall|k: int| 1 <= k < p.len() && #[trigger] leads(block + x, p.skip(k)) implies leads(
        block + t,
        p.skip(k),
    ) by {
        let q = p.skip(k);
        if q.len() <= b {
            assert((block + x).take(q.len() as int) =~= (block + t).take(q.len() as int));
        } else {
            assert(x.take(q.len() - b) =~= p.skip(k + b)) by {
                assert forall|i: int| 0 <= i < q.len() - b implies #[trigger] x.take(q.len() - b)[i] == p.skip(k + b)[i] by {
                    assert((block + x).take(q.len() as int)[b + i] == q[b + i]);
                }
            }
            assert(leads(x, p.skip(k + b)));
            assert(leads(t, p.skip(k + b)));
            assert((block + t).take(q.len() as int) =~= q) by {
                assert forall|i: int| 0 <= i < q.len() implies #[trigger] (block + t).take(q.len() as int)[i] == q[i] by {
                    if i < b {
                        assert((block + x).take(q.len() as int)[i] == q[i]);
                    } else {
                        assert(t.take(q.len() - b)[i - b] == p.skip(k + b)[i - b]);
                    }
                }
            }
        }
    }
}

/// Putting new text in front keeps `p` out of the output, and the output
/// then begins with no proper suffix of `p`.
proof fn lemma_insert_keeps_out(w: Seq<char>, x: Seq<char>, p: Seq<char>)
    requires
        p.len() > 0,
        !occurs(x, p),
        no_overlap(w, p),
        fresh_start(w, p),
    ensures
        !occurs(w + x, p),
        forall|t: Seq<char>| tracks(w + x, t, p),
{
    let n = p.len() as int;
    if occurs(w + x, p) {
        let j = choose|j: int| #[trigger] matches_at(w + x, p, j);
        if j >= w.len() {
            assert((w + x).subrange(j, j + n) =~= x.subrange(j - w.len(), j - w.len() + n));
            assert(matches_at(x, p, j - w.len()));
        } else {
            assert(disagrees_from(w, p, j));
            let m = choose|m: int| #[trigger] differs_at(w, p, j, m);
            assert((w + x).subrange(j, j + n)[m] == w[j + m]);
        }
    }
    assert forall|t: Seq<char>| tracks(w + x, t, p) by {
        assert forall|k: int| 1 <= k < p.len() && #[trigger] leads(w + x, p.skip(k)) implies leads(
            t,
            p.skip(k),
        ) by {
            assert((w + x).take(p.skip(k).len() as int)[0] == w[0]);
            assert(p.skip(k)[0] == p[k]);
        }
    }
}

/// Replacing `pat` by `w` leaves no occurrence of `p`, when every
/// occurrence of `p` in the text is one of `pat` and `w` can neither hold
/// nor begin to hold `p`.
proof fn lemma_replace_keeps_out(s: Seq<char>, pat: Seq<char>, w: Seq<char>, p: Seq<char>, i: int)
    requires
        pat.len() > 0,
        p.len() > 0,
        no_overlap(w, p),
        fresh_start(w, p),
        forall|j: int| #[trigger] matches_at(s, p, j) ==> matches_at(s, pat, j),
        0 <= i <= s.len(),
    ensures
        !occurs(replaced_from(s, pat, w, i), p),
        tracks(replaced_from(s, pat, w, i), s.skip(i), p),
    decreases s.len() - i,
{
    let r = replaced_from(s, pat, w, i);
    if i == s.len() {
        assert(r == s.skip(i));
        assert(r.len() == 0);
    } else if matches_at(s, pat, i) {
        lemma_replace_keeps_out(s, pat, w, p, i + pat.len());
        lemma_insert_keeps_out(w, replaced_from(s, pat, w, i + pat.len()), p);
    } else {
        lemma_replace_keeps_out(s, pat, w, p, i + 1);
        let block = seq![s[i]];
        assert(block + s.skip(i + 1) =~= s.skip(i));
        assert(!matches_at(block + s.skip(i + 1), p, 0)) by {
            if matches_at(s.skip(i), p, 0) {
                assert(s.skip(i).subrange(0, p.len() as int) =~= s.subrange(i, i + p.len()));
                assert(matches_at(s, p, i));
            }
        }
        lemma_copy_keeps_out(block, replaced_from(s, pat, w, i + 1), s.skip(i + 1), p);
    }
}

/// `c` occurs nowhere in `s` from place `i` on.
spec fn lacks_from(s: Seq<char>, c: char, i: int) -> bool
    decreases s.len() - i,
{
    i >= s.len() || (s[i] != c && lacks_from(s, c, i + 1))
}

/// `c` occurs nowhere in `s`.
spec fn lacks(s: Seq<char>, c: char) -> bool {
    lacks_from(s, c, 0)
}

proof fn lemma_lacks_from(s: Seq<char>, c: char, i: int)
    requires
        0 <= i,
        lacks_from(s, c, i),
    ensures
        forall|j: int| i <= j < s.len() ==> #[trigger] s[j] != c,
    decreases s.len() - i,
{
    if i < s.len() {
        lemma_lacks_from(s, c, i + 1);
    }
}

proof fn lemma_lacks(s: Seq<char>, c: char)
    requires
        lacks(s, c),
    ensures
        forall|j: int| 0 <= j < s.len() ==> #[trigger] s[j] != c,
{
    lemma_lacks_from(s, c, 0);
}

/// An ASCII letter, digit or `_`.
spec fn plain(c: char) -> bool {
    ('A' <= c && c <= 'Z') || ('a' <= c && c <= 'z') || ('0' <= c && c <= '9') || c == '_'
}

/// Every character is plain.
spec fn all_plain(s: Seq<char>) -> bool
    decreases s.len(),
{
    s.len() == 0 || (plain(s[0]) && all_plain(s.drop_first()))
}

proof fn lemma_all_plain(s: Seq<char>)
    requires
        all_plain(s),
    ensures
        forall|j: int| 0 <= j < s.len() ==> plain(#[trigger] s[j]),
    decreases s.len(),
{
    if s.len() > 0 {
        lemma_all_plain(s.drop_first());
        assert forall|j: int| 0 <= j < s.len() implies plain(#[trigger] s[j]) by {
            if j > 0 {
                assert(s[j] == s.drop_first()[j - 1]);
            }
        }
    }
}

/// The leading characters that `trim_start` drops are whitespace.
proof fn lemma_trim_start_spaces(l: Seq<char>)
    ensures
        trim_start(l).len() <= l.len(),
        forall|j: int| 0 <= j < l.len() - trim_start(l).len() ==> is_space(#[trigger] l[j]),
    decreases l.len(),
{
    if l.len() > 0 && is_space(l[0]) {
        lemma_trim_start_spaces(l.drop_first());
        assert forall|j: int| 0 <= j < l.len() - trim_start(l).len() implies is_space(#[trigger] l[j]) by {
            if j > 0 {
                assert(l[j] == l.drop_first()[j - 1]);
            }
        }
    }
}

/// A marker line can neither hold nor begin to hold a plain `p` with `_`
/// at place 6: its indentation is whitespace, the attribute has no `_`, and
/// it ends with a line break.
proof fn lemma_marker_no_overlap(l: Seq<char>, p: Seq<char>)
    requires
        marker(l).len() > 0,
        p.len() > 6,
        p[6] == '_',
        forall|k: int| 0 <= k < p.len() ==> plain(#[trigger] p[k]),
    ensures
        no_overlap(marker(l), p),
        fresh_start(marker(l), p),
{
    let content = trim_line_end(l);
    lemma_trim_start_spaces(content);
    let indent = content.take(content.len() - trim_start(content).len());
    let a = agility_attribute();
    let br = line_break(l);
    let w = marker(l);
    assert(declared_interface(l) is Some);
    assert(w == indent + a + br);
    reveal_strlit("#[Windows::ServiceFabric::Metadata::MarshalingBehavior(Agile)]");
    reveal_with_fuel(lacks_from, 70);
    assert(lacks(a, '_'));
    lemma_lacks(a, '_');
    assert(a[0] == '#');
    let e = (indent.len() + a.len()) as int;
    assert(br.len() >= 1 && (br[0] == '\r' || br[0] == '\n'));
    assert forall|j: int| 0 <= j < w.len() implies #[trigger] disagrees_from(w, p, j) by {
        if j >= e {
            assert(w[j] == br[j - e]);
            assert(br[j - e] == '\r' || br[j - e] == '\n');
            assert(plain(p[0]));
            assert(differs_at(w, p, j, 0));
        } else if j + 6 < e {
            if j + 6 < indent.len() {
                assert(w[j + 6] == content[j + 6]);
                assert(is_space(content[j + 6]));
            } else {
                assert(w[j + 6] == a[j + 6 - indent.len()]);
            }
            assert(differs_at(w, p, j, 6));
        } else {
            let m = e - j;
            assert(w[e] == br[0]);
            assert(plain(p[m]));
            assert(differs_at(w, p, j, m));
        }
    }
    assert forall|k: int| 1 <= k < p.len() implies #[trigger] p[k] != w[0] by {
        assert(plain(p[k]));
        if indent.len() > 0 {
            assert(w[0] == content[0]);
            assert(is_space(content[0]));
        } else {
            assert(w[0] == a[0]);
        }
    }
}

/// Marking `IFabric` interfaces brings no plain `p` with `_` at place 6
/// into a text without one.
proof fn lemma_marking_keeps_out(s: Seq<char>, p: Seq<char>, i: int)
    requires
        p.len() > 6,
        p[6] == '_',
        forall|k: int| 0 <= k < p.len() ==> plain(#[trigger] p[k]),
        !occurs(s, p),
        0 <= i <= s.len(),
    ensures
        !occurs(marked_from(s, i), p),
        tracks(marked_from(s, i), s.skip(i), p),
    decreases s.len() - i,
{
    if i == s.len() {
        assert(marked_from(s, i).len() == 0);
    } else {
        let k = line_end(s, i);
        lemma_line_end_bounds(s, i);
        let l = s.subrange(i, k);
        let rest = marked_from(s, k);
        lemma_marking_keeps_out(s, p, k);
        assert(l + s.skip(k) =~= s.skip(i));
        assert forall|j: int| 0 <= j < l.len() implies !#[trigger] matches_at(l + s.skip(k), p, j) by {
            if matches_at(l + s.skip(k), p, j) {
                assert(s.skip(i).subrange(j, j + p.len()) =~= s.subrange(i + j, i + j + p.len()));
                assert(matches_at(s, p, i + j));
            }
        }
        lemma_copy_keeps_out(l, rest, s.skip(k), p);
        let mk = marker(l);
        assert(marked_from(s, i) == mk + l + rest);
        if mk.len() > 0 {
            lemma_marker_no_overlap(l, p);
            lemma_insert_keeps_out(mk, l + rest, p);
            assert(mk + l + rest =~= mk + (l + rest));
            assert(tracks(mk + (l + rest), s.skip(i), p));
        } else {
            assert(mk + l + rest =~= l + rest);
        }
    }
}

/// After the rewrite of a partition, the misspelling `FABRIC_AAD_ClAIMS`
/// occurs nowhere in the text: every occurrence, in declarations and in
/// references alike, is spelled `FABRIC_AAD_CLAIMS`, and neither the
/// scoped-enumeration rewrite nor the agility markers bring it back.
pub proof fn lemma_claims_misspelling_gone(text: Seq<char>)
    ensures
        !occurs(marked_from(normalized_partition(text), 0), "FABRIC_AAD_ClAIMS"@),
{
    let p = "FABRIC_AAD_ClAIMS"@;
    let w = "FABRIC_AAD_CLAIMS"@;
    let r = "#[repr(i32)]"@;
    let r2 = "#[repr(i32)] #[scoped]"@;
    reveal_strlit("FABRIC_AAD_ClAIMS");
    reveal_strlit("FABRIC_AAD_CLAIMS");
    reveal_strlit("#[repr(i32)]");
    reveal_strlit("#[repr(i32)] #[scoped]");
    reveal_with_fuel(lacks_from, 25);
    reveal_with_fuel(all_plain, 20);
    assert(all_plain(p));
    lemma_all_plain(p);
    assert(lacks(p.drop_first(), 'F'));
    lemma_lacks(p.drop_first(), 'F');
    assert(lacks(w.drop_first(), 'F'));
    lemma_lacks(w.drop_first(), 'F');
    assert(lacks(r2, 'F'));
    lemma_lacks(r2, 'F');
    assert forall|j: int| 0 <= j < w.len() implies #[trigger] disagrees_from(w, p, j) by {
        if j == 0 {
            assert(differs_at(w, p, 0, 12));
        } else {
            assert(w[j] == w.drop_first()[j - 1]);
            assert(differs_at(w, p, j, 0));
        }
    }
    assert forall|k: int| 1 <= k < p.len() implies #[trigger] p[k] != w[0] by {
        assert(p[k] == p.drop_first()[k - 1]);
    }
    assert forall|j: int| 0 <= j < r2.len() implies #[trigger] disagrees_from(r2, p, j) by {
        assert(differs_at(r2, p, j, 0));
    }
    assert forall|k: int| 1 <= k < p.len() implies #[trigger] p[k] != r2[0] by {
        assert(plain(p[k]));
    }
    let a = replaced(
        replaced(text, "type LPCWSTR = *const u16;"@, "type LPCWSTR = Windows::Win32::PCWSTR;"@),
        "type FABRIC_URI = LPCWSTR;"@,
        "type FABRIC_URI = *mut void;"@,
    );
    lemma_replace_keeps_out(a, p, w, p, 0);
    let c = replaced(a, p, w);
    assert(c.skip(0) =~= c);
    lemma_replace_keeps_out(c, r, r2, p, 0);
    let d = scoped_enums(c);
    assert(d == normalized_partition(text));
    lemma_marking_keeps_out(d, p, 0);
}

} // verus!
