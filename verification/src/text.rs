//! Character-level helpers: conversions between strings and character
//! vectors, lexicographic order, and number formatting.

use vstd::prelude::*;

verus! {

/// `String::push`: the string afterwards is the string before followed by
/// `c`.
#[verifier::external_body]
pub(crate) fn push_char(s: &mut String, c: char)
    ensures
        final(s)@ == old(s)@.push(c),
{
    s.push(c);
}

/// The characters of a string, in order.
pub fn chars_of(s: &str) -> (v: Vec<char>)
    ensures
        v@ == s@,
{
    let mut v: Vec<char> = Vec::new();
    for c in it: s.chars()
        invariant
            v@ == it.seq().take(it.index() as int),
            it.seq() == s@,
    {
        v.push(c);
    }
    v
}

} // verus!

verus! {

/// A string holding the given characters.
pub fn string_of_chars(v: &Vec<char>) -> (s: String)
    ensures
        s@ == v@,
{
    let mut s = String::new();
    let mut i: usize = 0;
    while i < v.len()
        invariant
            i <= v.len(),
            s@ == v@.take(i as int),
        decreases v.len() - i,
    {
        push_char(&mut s, v[i]);
        assert(v@.take(i + 1) =~= v@.take(i as int).push(v@[i as int]));
        i += 1;
    }
    assert(v@.take(v.len() as int) =~= v@);
    s
}

} // verus!

verus! {

/// The digit character for a value below 16 (lower-case letters above 9).
pub open spec fn digit_char(d: nat) -> char {
    if d == 0 { '0' }
    else if d == 1 { '1' }
    else if d == 2 { '2' }
    else if d == 3 { '3' }
    else if d == 4 { '4' }
    else if d == 5 { '5' }
    else if d == 6 { '6' }
    else if d == 7 { '7' }
    else if d == 8 { '8' }
    else if d == 9 { '9' }
    else if d == 10 { 'a' }
    else if d == 11 { 'b' }
    else if d == 12 { 'c' }
    else if d == 13 { 'd' }
    else if d == 14 { 'e' }
    else { 'f' }
}

/// The digits of `n` in base `base` (10 or 16), most significant first,
/// without leading zeros; `0` is a single zero digit.
pub open spec fn digits(n: nat, base: nat) -> Seq<char>
    recommends
        base == 10 || base == 16,
    decreases n,
{
    if n < base || base < 2 {
        seq![digit_char(n)]
    } else {
        proof {
            assert(n / base < n) by (nonlinear_arith)
                requires
                    n >= base,
                    base >= 2,
            ;
        }
        digits(n / base, base).push(digit_char(n % base))
    }
}

/// Decimal text of `n`.
pub open spec fn decimal(n: nat) -> Seq<char> {
    digits(n, 10)
}

/// `{:#x}` text of `n`: `0x` and lower-case hexadecimal digits.
pub open spec fn hex_prefixed(n: nat) -> Seq<char> {
    seq!['0', 'x'] + digits(n, 16)
}

/// `true` or `false`.
pub open spec fn bool_text(b: bool) -> Seq<char> {
    if b {
        seq!['t', 'r', 'u', 'e']
    } else {
        seq!['f', 'a', 'l', 's', 'e']
    }
}

fn digit(d: u64) -> (c: char)
    requires
        d < 16,
    ensures
        c == digit_char(d as nat),
{
    match d {
        0 => '0',
        1 => '1',
        2 => '2',
        3 => '3',
        4 => '4',
        5 => '5',
        6 => '6',
        7 => '7',
        8 => '8',
        9 => '9',
        10 => 'a',
        11 => 'b',
        12 => 'c',
        13 => 'd',
        14 => 'e',
        _ => 'f',
    }
}

/// Appends the digits of `n` in base 10 or 16.
pub fn push_digits(s: &mut String, n: u64, base: u64)
    requires
        base == 10 || base == 16,
    ensures
        final(s)@ == old(s)@ + digits(n as nat, base as nat),
    decreases n,
{
    if n >= base {
        push_digits(s, n / base, base);
    }
    push_char(s, digit(n % base));
    proof {
        if n < base {
            assert(n % base == n);
        }
    }
    assert(final(s)@ =~= old(s)@ + digits(n as nat, base as nat));
}

/// Appends the decimal text of `n`.
pub fn push_decimal(s: &mut String, n: u64)
    ensures
        final(s)@ == old(s)@ + decimal(n as nat),
{
    push_digits(s, n, 10);
}

/// Appends `0x` and the hexadecimal digits of `n`.
pub fn push_hex(s: &mut String, n: u64)
    ensures
        final(s)@ == old(s)@ + hex_prefixed(n as nat),
{
    push_char(s, '0');
    push_char(s, 'x');
    push_digits(s, n, 16);
    assert(final(s)@ =~= old(s)@ + hex_prefixed(n as nat));
}

/// Appends `true` or `false`.
pub fn push_bool(s: &mut String, b: bool)
    ensures
        final(s)@ == old(s)@ + bool_text(b),
{
    if b {
        push_char(s, 't');
        push_char(s, 'r');
        push_char(s, 'u');
        push_char(s, 'e');
    } else {
        push_char(s, 'f');
        push_char(s, 'a');
        push_char(s, 'l');
        push_char(s, 's');
        push_char(s, 'e');
    }
    assert(final(s)@ =~= old(s)@ + bool_text(b));
}

/// What `format!("{:?}", s)` gives for a string slice: the quoted, escaped
/// text that `Debug` for `str` writes.
pub uninterp spec fn debug_text(s: Seq<char>) -> Seq<char>;

/// `format!("{:?}", s)`: the `Debug` text of a string slice. The escaping
/// rules belong to the standard library and are not restated here; the
/// result is named by `debug_text` of the characters of `s`.
#[verifier::external_body]
pub(crate) fn debug_string(s: &str) -> (r: String)
    ensures
        r@ == debug_text(s@),
{
    format!("{:?}", s)
}

/// `Debug` text of an optional string: `None` or `Some(` debug text `)`.
pub open spec fn debug_option_text(o: Option<Seq<char>>) -> Seq<char> {
    match o {
        Some(s) => seq!['S', 'o', 'm', 'e', '('] + debug_text(s) + seq![')'],
        None => seq!['N', 'o', 'n', 'e'],
    }
}

/// Appends the `Debug` text of an optional string.
pub fn push_debug_option(out: &mut String, o: &Option<String>)
    ensures
        final(out)@ == old(out)@ + debug_option_text(o.deep_view()),
{
    match o {
        Some(s) => {
            push_char(out, 'S');
            push_char(out, 'o');
            push_char(out, 'm');
            push_char(out, 'e');
            push_char(out, '(');
            let d = debug_string(s.as_str());
            out.append(d.as_str());
            push_char(out, ')');
        },
        None => {
            push_char(out, 'N');
            push_char(out, 'o');
            push_char(out, 'n');
            push_char(out, 'e');
        },
    }
    assert(final(out)@ =~= old(out)@ + debug_option_text(o.deep_view()));
}

/// `Debug` text of an optional layout: `None` or `Some((packing, size))`.
pub open spec fn debug_layout_text(o: Option<(u16, u32)>) -> Seq<char> {
    match o {
        Some((p, c)) => seq!['S', 'o', 'm', 'e', '(', '('] + decimal(p as nat) + seq![',', ' ']
            + decimal(c as nat) + seq![')', ')'],
        None => seq!['N', 'o', 'n', 'e'],
    }
}

/// Appends the `Debug` text of an optional layout.
pub fn push_debug_layout(out: &mut String, o: &Option<(u16, u32)>)
    ensures
        final(out)@ == old(out)@ + debug_layout_text(*o),
{
    match o {
        Some((p, c)) => {
            push_char(out, 'S');
            push_char(out, 'o');
            push_char(out, 'm');
            push_char(out, 'e');
            push_char(out, '(');
            push_char(out, '(');
            push_decimal(out, *p as u64);
            push_char(out, ',');
            push_char(out, ' ');
            push_decimal(out, *c as u64);
            push_char(out, ')');
            push_char(out, ')');
        },
        None => {
            push_char(out, 'N');
            push_char(out, 'o');
            push_char(out, 'n');
            push_char(out, 'e');
        },
    }
    assert(final(out)@ =~= old(out)@ + debug_layout_text(*o));
}

} // verus!
