//! Comparison of two snapshots: the strict comparison, which reports every
//! structural difference, and the migration comparison, which checks the
//! `IFabric` interfaces only.

use vstd::prelude::*;
pub use crate::records::{FieldRecord, MethodRecord, ParameterRecord, TypeRecord};
pub use crate::snapshot::Snapshot;
use crate::names::{is_ifabric, is_ifabric_name, is_omitted, is_omitted_duplicate, short, short_name};
use crate::records::{
    lemma_method_models, field_lists_equal, layouts_equal, method_lists_equal, optional_strings_equal, strings_equal,
    type_records_equal, MethodModel, TypeModel,
};
use crate::snapshot::{has_key, keys_sorted, lookup};
use crate::text::{
    bool_text, debug_layout_text, debug_option_text, hex_prefixed, push_bool, push_debug_layout,
    push_debug_option, push_hex,
};

verus! {

/// One message when `c` holds, none otherwise.
pub open spec fn when(c: bool, m: Seq<char>) -> Seq<Seq<char>> {
    if c {
        seq![m]
    } else {
        Seq::empty()
    }
}

/// The messages that describe how `actual` differs from `expected`, in the
/// order category, flags, base type, interfaces, layout, fields, methods,
/// attributes, GUID. The agility flag is not described here.
pub open spec fn type_difference_messages(name: Seq<char>, e: TypeModel, a: TypeModel) -> Seq<
    Seq<char>,
> {
    when(e.category != a.category, category_message(name, e, a)) + when(
        e.flags != a.flags,
        flags_message(name, e, a),
    ) + when(e.extends != a.extends, extends_message(name, e, a)) + when(
        e.interfaces != a.interfaces,
        name + ": implemented interfaces changed"@,
    ) + when(e.layout != a.layout, layout_message(name, e, a)) + when(
        e.fields != a.fields,
        name + ": fields changed"@,
    ) + when(e.methods != a.methods, name + ": methods changed"@) + when(
        e.attributes != a.attributes,
        name + ": attributes changed"@,
    ) + when(e.guid != a.guid, guid_message(name, e.guid, a.guid))
}

/// The category text of interfaces.
pub open spec fn is_interface(r: TypeModel) -> bool {
    r.category == "Interface"@
}

/// Whether a type must carry the agility marker: an interface whose short
/// name follows the `IFabric` rule and is not a legacy duplicate.
pub open spec fn expected_agile(name: Seq<char>, r: TypeModel) -> bool {
    is_interface(r) && is_ifabric_name(short(name)) && !is_omitted_duplicate(short(name))
}

/// For each baseline type in name order: `missing type` when the candidate
/// lacks it, else the messages that describe how it changed.
pub open spec fn baseline_messages(
    base: Seq<(Seq<char>, TypeModel)>,
    cand: Seq<(Seq<char>, TypeModel)>,
) -> Seq<Seq<char>>
    decreases base.len(),
{
    if base.len() == 0 {
        Seq::empty()
    } else {
        let (name, expected) = base.last();
        baseline_messages(base.drop_last(), cand) + match lookup(cand, name) {
            None => seq!["missing type: "@ + name],
            Some(actual) => type_difference_messages(name, expected, actual),
        }
    }
}

/// For each candidate type in name order that the baseline lacks:
/// `unexpected type`.
pub open spec fn unexpected_messages(
    cand: Seq<(Seq<char>, TypeModel)>,
    base: Seq<(Seq<char>, TypeModel)>,
) -> Seq<Seq<char>>
    decreases cand.len(),
{
    if cand.len() == 0 {
        Seq::empty()
    } else {
        let name = cand.last().0;
        unexpected_messages(cand.drop_last(), base) + when(
            !has_key(base, name),
            "unexpected type: "@ + name,
        )
    }
}

/// The agility message of one candidate type whose marker is not what its
/// name and category call for.
pub open spec fn agility_message(name: Seq<char>, r: TypeModel) -> Seq<char> {
    "agility mismatch for "@ + name + ": expected "@ + bool_text(expected_agile(name, r))
        + ", found "@ + bool_text(r.agile)
}

/// For each candidate type in name order whose agility marker is wrong.
pub open spec fn agility_messages(cand: Seq<(Seq<char>, TypeModel)>) -> Seq<Seq<char>>
    decreases cand.len(),
{
    if cand.len() == 0 {
        Seq::empty()
    } else {
        let (name, r) = cand.last();
        agility_messages(cand.drop_last()) + when(
            r.agile != expected_agile(name, r),
            agility_message(name, r),
        )
    }
}

/// Everything the strict comparison reports, in order.
pub open spec fn comparison(
    base: Seq<(Seq<char>, TypeModel)>,
    cand: Seq<(Seq<char>, TypeModel)>,
) -> Seq<Seq<char>> {
    baseline_messages(base, cand) + unexpected_messages(cand, base) + agility_messages(cand)
}

/// An `IFabric` interface, as the migration comparison selects candidates.
pub open spec fn migration_candidate(name: Seq<char>, r: TypeModel) -> bool {
    is_interface(r) && is_ifabric_name(short(name))
}

/// An `IFabric` interface that is not a legacy duplicate, as the migration
/// comparison selects baseline types.
pub open spec fn migration_baseline(name: Seq<char>, r: TypeModel) -> bool {
    migration_candidate(name, r) && !is_omitted_duplicate(short(name))
}

/// The method names of a type, in order.
pub open spec fn method_names(r: TypeModel) -> Seq<Seq<char>> {
    r.methods.map_values(|m: MethodModel| m.name)
}

/// The selected candidate interface stored under `name`.
pub open spec fn candidate_interface(cand: Seq<(Seq<char>, TypeModel)>, name: Seq<char>) -> Option<
    TypeModel,
> {
    match lookup(cand, name) {
        Some(r) => if migration_candidate(name, r) {
            Some(r)
        } else {
            None
        },
        None => None,
    }
}

/// Whether the baseline selects an interface under `name`.
pub open spec fn baseline_interface(base: Seq<(Seq<char>, TypeModel)>, name: Seq<char>) -> bool {
    match lookup(base, name) {
        Some(r) => migration_baseline(name, r),
        None => false,
    }
}

/// For each selected baseline interface in name order: `missing interface`
/// when the candidate selects none under its name, else a GUID change and a
/// change of method names or their order.
pub open spec fn migration_baseline_messages(
    base: Seq<(Seq<char>, TypeModel)>,
    cand: Seq<(Seq<char>, TypeModel)>,
) -> Seq<Seq<char>>
    decreases base.len(),
{
    if base.len() == 0 {
        Seq::empty()
    } else {
        let (name, expected) = base.last();
        migration_baseline_messages(base.drop_last(), cand) + if migration_baseline(
            name,
            expected,
        ) {
            match candidate_interface(cand, name) {
                None => seq!["missing interface: "@ + name],
                Some(actual) => when(
                    expected.guid != actual.guid,
                    name + ": GUID changed from "@ + debug_option_text(expected.guid) + " to "@
                        + debug_option_text(actual.guid),
                ) + when(
                    method_names(expected) != method_names(actual),
                    name + ": method names or order changed"@,
                ),
            }
        } else {
            Seq::empty()
        }
    }
}

/// For each selected candidate interface in name order that the baseline
/// does not select: `unexpected interface`.
pub open spec fn migration_unexpected_messages(
    cand: Seq<(Seq<char>, TypeModel)>,
    base: Seq<(Seq<char>, TypeModel)>,
) -> Seq<Seq<char>>
    decreases cand.len(),
{
    if cand.len() == 0 {
        Seq::empty()
    } else {
        let (name, r) = cand.last();
        migration_unexpected_messages(cand.drop_last(), base) + when(
            migration_candidate(name, r) && !baseline_interface(base, name),
            "unexpected interface: "@ + name,
        )
    }
}

/// For each selected candidate interface in name order without the
/// agility marker: `missing agility marker`.
pub open spec fn migration_agility_messages(cand: Seq<(Seq<char>, TypeModel)>) -> Seq<Seq<char>>
    decreases cand.len(),
{
    if cand.len() == 0 {
        Seq::empty()
    } else {
        let (name, r) = cand.last();
        migration_agility_messages(cand.drop_last()) + when(
            migration_candidate(name, r) && !r.agile,
            "missing agility marker: "@ + name,
        )
    }
}

/// Everything the migration comparison reports, in order.
pub open spec fn migration_comparison(
    base: Seq<(Seq<char>, TypeModel)>,
    cand: Seq<(Seq<char>, TypeModel)>,
) -> Seq<Seq<char>> {
    migration_baseline_messages(base, cand) + migration_unexpected_messages(cand, base)
        + migration_agility_messages(cand)
}

proof fn lemma_add_assoc(a: Seq<Seq<char>>, b: Seq<Seq<char>>, c: Seq<Seq<char>>)
    ensures
        (a + b) + c == a + (b + c),
{
    assert((a + b) + c =~= a + (b + c));
}

/// Appends one message.
fn push_message(differences: &mut Vec<String>, m: String)
    ensures
        final(differences).deep_view() == old(differences).deep_view().push(m@),
{
    differences.push(m);
    assert(final(differences).deep_view() =~= old(differences).deep_view().push(m@));
}

/// `name` followed by `text`.
fn message(name: &str, text: &str) -> (m: String)
    ensures
        m@ == name@ + text@,
{
    let mut m = name.to_owned();
    m.append(text);
    m
}

/// The category message.
pub open spec fn category_message(name: Seq<char>, e: TypeModel, a: TypeModel) -> Seq<char> {
    name + ": category changed from "@ + e.category + " to "@ + a.category
}

/// The type flags message.
pub open spec fn flags_message(name: Seq<char>, e: TypeModel, a: TypeModel) -> Seq<char> {
    name + ": type flags changed from "@ + hex_prefixed(e.flags as nat) + " to "@ + hex_prefixed(
        a.flags as nat,
    )
}

/// The base type message.
pub open spec fn extends_message(name: Seq<char>, e: TypeModel, a: TypeModel) -> Seq<char> {
    name + ": base type changed from "@ + debug_option_text(e.extends) + " to "@
        + debug_option_text(a.extends)
}

/// The layout message.
pub open spec fn layout_message(name: Seq<char>, e: TypeModel, a: TypeModel) -> Seq<char> {
    name + ": layout changed from "@ + debug_layout_text(e.layout) + " to "@ + debug_layout_text(
        a.layout,
    )
}

/// The GUID message.
pub open spec fn guid_message(name: Seq<char>, e: Option<Seq<char>>, a: Option<Seq<char>>) -> Seq<
    char,
> {
    name + ": GUID changed from "@ + debug_option_text(e) + " to "@ + debug_option_text(a)
}

fn describe_category(name: &str, expected: &TypeRecord, actual: &TypeRecord, differences: &mut Vec<String>)
    ensures
        final(differences).deep_view() == old(differences).deep_view() + when(
            expected.deep_view().category != actual.deep_view().category,
            category_message(name@, expected.deep_view(), actual.deep_view()),
        ),
{
    if expected.category != actual.category {
        let mut m = message(name, ": category changed from ");
        m.append(expected.category.as_str());
        m.append(" to ");
        m.append(actual.category.as_str());
        push_message(differences, m);
    }
    assert(final(differences).deep_view() =~= old(differences).deep_view() + when(
        expected.deep_view().category != actual.deep_view().category,
        category_message(name@, expected.deep_view(), actual.deep_view()),
    ));
}

fn describe_flags(name: &str, expected: &TypeRecord, actual: &TypeRecord, differences: &mut Vec<String>)
    ensures
        final(differences).deep_view() == old(differences).deep_view() + when(
            expected.flags != actual.flags,
            flags_message(name@, expected.deep_view(), actual.deep_view()),
        ),
{
    if expected.flags != actual.flags {
        let mut m = message(name, ": type flags changed from ");
        push_hex(&mut m, expected.flags as u64);
        m.append(" to ");
        push_hex(&mut m, actual.flags as u64);
        push_message(differences, m);
    }
    assert(final(differences).deep_view() =~= old(differences).deep_view() + when(
        expected.flags != actual.flags,
        flags_message(name@, expected.deep_view(), actual.deep_view()),
    ));
}

fn describe_extends(name: &str, expected: &TypeRecord, actual: &TypeRecord, differences: &mut Vec<String>)
    ensures
        final(differences).deep_view() == old(differences).deep_view() + when(
            expected.deep_view().extends != actual.deep_view().extends,
            extends_message(name@, expected.deep_view(), actual.deep_view()),
        ),
{
    if !optional_strings_equal(&expected.extends, &actual.extends) {
        let mut m = message(name, ": base type changed from ");
        push_debug_option(&mut m, &expected.extends);
        m.append(" to ");
        push_debug_option(&mut m, &actual.extends);
        push_message(differences, m);
    }
    assert(final(differences).deep_view() =~= old(differences).deep_view() + when(
        expected.deep_view().extends != actual.deep_view().extends,
        extends_message(name@, expected.deep_view(), actual.deep_view()),
    ));
}

fn describe_layout(name: &str, expected: &TypeRecord, actual: &TypeRecord, differences: &mut Vec<String>)
    ensures
        final(differences).deep_view() == old(differences).deep_view() + when(
            expected.layout != actual.layout,
            layout_message(name@, expected.deep_view(), actual.deep_view()),
        ),
{
    if !layouts_equal(&expected.layout, &actual.layout) {
        let mut m = message(name, ": layout changed from ");
        push_debug_layout(&mut m, &expected.layout);
        m.append(" to ");
        push_debug_layout(&mut m, &actual.layout);
        push_message(differences, m);
    }
    assert(final(differences).deep_view() =~= old(differences).deep_view() + when(
        expected.layout != actual.layout,
        layout_message(name@, expected.deep_view(), actual.deep_view()),
    ));
}

fn describe_guid(name: &str, expected: &Option<String>, actual: &Option<String>, differences: &mut Vec<String>)
    ensures
        final(differences).deep_view() == old(differences).deep_view() + when(
            expected.deep_view() != actual.deep_view(),
            guid_message(name@, expected.deep_view(), actual.deep_view()),
        ),
{
    if !optional_strings_equal(expected, actual) {
        let mut m = message(name, ": GUID changed from ");
        push_debug_option(&mut m, expected);
        m.append(" to ");
        push_debug_option(&mut m, actual);
        push_message(differences, m);
    }
    assert(final(differences).deep_view() =~= old(differences).deep_view() + when(
        expected.deep_view() != actual.deep_view(),
        guid_message(name@, expected.deep_view(), actual.deep_view()),
    ));
}

/// Appends `name` followed by `text` when `differs`.
fn describe_when(name: &str, differs: bool, text: &str, differences: &mut Vec<String>)
    ensures
        final(differences).deep_view() == old(differences).deep_view() + when(differs, name@ + text@),
{
    if differs {
        push_message(differences, message(name, text));
    }
    assert(final(differences).deep_view() =~= old(differences).deep_view() + when(differs, name@ + text@));
}

/// Appends the messages that describe how `actual` differs from
/// `expected`.
pub fn describe_type_difference(
    name: &str,
    expected: &TypeRecord,
    actual: &TypeRecord,
    differences: &mut Vec<String>,
)
    ensures
        final(differences).deep_view() == old(differences).deep_view() + type_difference_messages(
            name@,
            expected.deep_view(),
            actual.deep_view(),
        ),
{
    let ghost start = differences.deep_view();
    let ghost e = expected.deep_view();
    let ghost a = actual.deep_view();
    let ghost w1 = when(e.category != a.category, category_message(name@, e, a));
    let ghost w2 = when(e.flags != a.flags, flags_message(name@, e, a));
    let ghost w3 = when(e.extends != a.extends, extends_message(name@, e, a));
    let ghost w4 = when(e.interfaces != a.interfaces, name@ + ": implemented interfaces changed"@);
    let ghost w5 = when(e.layout != a.layout, layout_message(name@, e, a));
    let ghost w6 = when(e.fields != a.fields, name@ + ": fields changed"@);
    let ghost w7 = when(e.methods != a.methods, name@ + ": methods changed"@);
    let ghost w8 = when(e.attributes != a.attributes, name@ + ": attributes changed"@);
    let ghost w9 = when(e.guid != a.guid, guid_message(name@, e.guid, a.guid));
    describe_category(name, expected, actual, differences);
    describe_flags(name, expected, actual, differences);
    proof {
        lemma_add_assoc(start, w1, w2);
    }
    describe_extends(name, expected, actual, differences);
    proof {
        lemma_add_assoc(start, w1 + w2, w3);
    }
    let interfaces_differ = !strings_equal(&expected.interfaces, &actual.interfaces);
    describe_when(name, interfaces_differ, ": implemented interfaces changed", differences);
    proof {
        lemma_add_assoc(start, w1 + w2 + w3, w4);
    }
    describe_layout(name, expected, actual, differences);
    proof {
        lemma_add_assoc(start, w1 + w2 + w3 + w4, w5);
    }
    let fields_differ = !field_lists_equal(&expected.fields, &actual.fields);
    describe_when(name, fields_differ, ": fields changed", differences);
    proof {
        lemma_add_assoc(start, w1 + w2 + w3 + w4 + w5, w6);
    }
    let methods_differ = !method_lists_equal(&expected.methods, &actual.methods);
    describe_when(name, methods_differ, ": methods changed", differences);
    proof {
        lemma_add_assoc(start, w1 + w2 + w3 + w4 + w5 + w6, w7);
    }
    let attributes_differ = !strings_equal(&expected.attributes, &actual.attributes);
    describe_when(name, attributes_differ, ": attributes changed", differences);
    proof {
        lemma_add_assoc(start, w1 + w2 + w3 + w4 + w5 + w6 + w7, w8);
    }
    describe_guid(name, &expected.guid, &actual.guid, differences);
    proof {
        lemma_add_assoc(start, w1 + w2 + w3 + w4 + w5 + w6 + w7 + w8, w9);
    }
    assert(w1 + w2 + w3 + w4 + w5 + w6 + w7 + w8 + w9 == type_difference_messages(name@, e, a));
}

/// Names and records of a snapshot, with the facts the comparisons use.
fn sorted_entries(s: &Snapshot) -> (r: &Vec<(String, TypeRecord)>)
    ensures
        r.deep_view() == s@,
        keys_sorted(s@),
{
    s.entries()
}

/// `prefix` followed by `name`.
fn labelled(prefix: &str, name: &str) -> (m: String)
    ensures
        m@ == prefix@ + name@,
{
    let mut m = prefix.to_owned();
    m.append(name);
    m
}

/// Whether a record's category is `Interface`.
fn record_is_interface(r: &TypeRecord) -> (b: bool)
    ensures
        b == is_interface(r.deep_view()),
{
    r.category == "Interface".to_owned()
}

/// Whether the type named `name` must carry the agility marker.
fn agile_expected(name: &String, r: &TypeRecord) -> (b: bool)
    ensures
        b == expected_agile(name@, r.deep_view()),
{
    let short = short_name(name.as_str());
    record_is_interface(r) && is_ifabric(short.as_str()) && !is_omitted(short.as_str())
}

/// Compares a candidate snapshot with a baseline and lists every
/// difference: each baseline type the candidate lacks or changed, each
/// candidate type the baseline lacks, and each candidate type whose
/// agility marker is not the one its name and category call for.
pub fn compare(baseline: &Snapshot, candidate: &Snapshot) -> (differences: Vec<String>)
    ensures
        differences.deep_view() == comparison(baseline@, candidate@),
{
    let base = sorted_entries(baseline);
    let cand = sorted_entries(candidate);
    let ghost b = baseline@;
    let ghost c = candidate@;
    let mut differences: Vec<String> = Vec::new();
    let mut i: usize = 0;
    while i < base.len()
        invariant
            base.deep_view() == b,
            cand.deep_view() == c,
            b == baseline@,
            c == candidate@,
            i <= base.len(),
            differences.deep_view() == baseline_messages(b.take(i as int), c),
        decreases base.len() - i,
    {
        let ghost before = differences.deep_view();
        let name = &base[i].0;
        let expected = &base[i].1;
        assert(b.take(i + 1).drop_last() =~= b.take(i as int));
        assert(b.take(i + 1).last() == (name@, expected.deep_view()));
        match candidate.position(name) {
            None => {
                push_message(&mut differences, labelled("missing type: ", name.as_str()));
            },
            Some(p) => {
                let actual = &cand[p].1;
                assert(c[p as int].1 == actual.deep_view());
                if !type_records_equal(expected, actual) {
                    describe_type_difference(name.as_str(), expected, actual, &mut differences);
                } else {
                    assert(type_difference_messages(name@, expected.deep_view(), actual.deep_view())
                        =~= Seq::empty());
                    assert(differences.deep_view() =~= before + Seq::empty());
                }
            },
        }
        i += 1;
    }
    assert(b.take(base.len() as int) =~= b);
    let ghost part1 = differences.deep_view();
    let mut j: usize = 0;
    while j < cand.len()
        invariant
            base.deep_view() == b,
            cand.deep_view() == c,
            b == baseline@,
            c == candidate@,
            j <= cand.len(),
            differences.deep_view() == part1 + unexpected_messages(c.take(j as int), b),
        decreases cand.len() - j,
    {
        let name = &cand[j].0;
        assert(c.take(j + 1).drop_last() =~= c.take(j as int));
        assert(c.take(j + 1).last().0 == name@);
        let ghost w = when(!has_key(b, name@), "unexpected type: "@ + name@);
        if baseline.position(name).is_none() {
            push_message(&mut differences, labelled("unexpected type: ", name.as_str()));
        }
        assert(differences.deep_view() =~= part1 + unexpected_messages(c.take(j as int), b) + w);
        proof {
            lemma_add_assoc(part1, unexpected_messages(c.take(j as int), b), w);
        }
        j += 1;
    }
    assert(c.take(cand.len() as int) =~= c);
    let ghost part2 = differences.deep_view();
    let mut k: usize = 0;
    while k < cand.len()
        invariant
            cand.deep_view() == c,
            c == candidate@,
            k <= cand.len(),
            differences.deep_view() == part2 + agility_messages(c.take(k as int)),
        decreases cand.len() - k,
    {
        let name = &cand[k].0;
        let record = &cand[k].1;
        assert(c.take(k + 1).drop_last() =~= c.take(k as int));
        assert(c.take(k + 1).last() == (name@, record.deep_view()));
        let ghost w = when(
            record.deep_view().agile != expected_agile(name@, record.deep_view()),
            agility_message(name@, record.deep_view()),
        );
        let expected_agility = agile_expected(name, record);
        if record.agile != expected_agility {
            let mut m = labelled("agility mismatch for ", name.as_str());
            m.append(": expected ");
            push_bool(&mut m, expected_agility);
            m.append(", found ");
            push_bool(&mut m, record.agile);
            push_message(&mut differences, m);
        }
        assert(differences.deep_view() =~= part2 + agility_messages(c.take(k as int)) + w);
        proof {
            lemma_add_assoc(part2, agility_messages(c.take(k as int)), w);
        }
        k += 1;
    }
    assert(c.take(cand.len() as int) =~= c);
    proof {
        lemma_add_assoc(baseline_messages(b, c), unexpected_messages(c, b), agility_messages(c));
    }
    differences
}

/// The number of types in a snapshot.
pub fn type_count(snapshot: &Snapshot) -> (n: usize)
    ensures
        n == snapshot@.len(),
{
    snapshot.len()
}

/// Whether the type is an `IFabric` interface (a migration candidate).
fn migration_candidate_record(name: &String, r: &TypeRecord) -> (b: bool)
    ensures
        b == migration_candidate(name@, r.deep_view()),
{
    let short = short_name(name.as_str());
    record_is_interface(r) && is_ifabric(short.as_str())
}

/// Whether the type is an `IFabric` interface and not a legacy duplicate.
fn migration_baseline_record(name: &String, r: &TypeRecord) -> (b: bool)
    ensures
        b == migration_baseline(name@, r.deep_view()),
{
    let short = short_name(name.as_str());
    record_is_interface(r) && is_ifabric(short.as_str()) && !is_omitted(short.as_str())
}

/// Whether two method lists have the same names in the same order.
fn same_method_names(a: &TypeRecord, b: &TypeRecord) -> (r: bool)
    ensures
        r == (method_names(a.deep_view()) == method_names(b.deep_view())),
{
    proof {
        lemma_method_models(a.methods@);
        lemma_method_models(b.methods@);
    }
    let ghost x = method_names(a.deep_view());
    let ghost y = method_names(b.deep_view());
    if a.methods.len() != b.methods.len() {
        assert(x.len() != y.len());
        return false;
    }
    let mut i: usize = 0;
    while i < a.methods.len()
        invariant
            a.methods.len() == b.methods.len(),
            i <= a.methods.len(),
            x == method_names(a.deep_view()),
            y == method_names(b.deep_view()),
            x.len() == a.methods.len(),
            y.len() == b.methods.len(),
            forall|j: int| 0 <= j < a.methods.len() ==> #[trigger] x[j] == a.methods@[j].name@,
            forall|j: int| 0 <= j < b.methods.len() ==> #[trigger] y[j] == b.methods@[j].name@,
            forall|j: int| 0 <= j < i ==> x[j] == y[j],
        decreases a.methods.len() - i,
    {
        if a.methods[i].name != b.methods[i].name {
            assert(x[i as int] != y[i as int]);
            return false;
        }
        i += 1;
    }
    assert(x =~= y);
    true
}

/// The candidate record selected as an `IFabric` interface under `name`.
fn candidate_interface_of<'a>(
    candidate: &'a Snapshot,
    cand: &'a Vec<(String, TypeRecord)>,
    name: &String,
) -> (r: Option<&'a TypeRecord>)
    requires
        cand.deep_view() == candidate@,
    ensures
        r.deep_view() == candidate_interface(candidate@, name@),
{
    match candidate.position(name) {
        Some(p) => {
            let actual = &cand[p].1;
            assert(candidate@[p as int].1 == actual.deep_view());
            if migration_candidate_record(name, actual) {
                Some(actual)
            } else {
                None
            }
        },
        None => None,
    }
}

/// Whether the baseline selects an interface under `name`.
fn baseline_interface_of(baseline: &Snapshot, base: &Vec<(String, TypeRecord)>, name: &String) -> (r:
    bool)
    requires
        base.deep_view() == baseline@,
    ensures
        r == baseline_interface(baseline@, name@),
{
    match baseline.position(name) {
        Some(p) => {
            assert(baseline@[p as int].1 == base[p as int].1.deep_view());
            migration_baseline_record(name, &base[p].1)
        },
        None => false,
    }
}

/// Compares the `IFabric` interfaces of a candidate with those of a
/// baseline from an earlier generator: the legacy duplicates may be absent
/// from the candidate, GUIDs and method names (in order) must be kept, no
/// interface may be added, and every candidate interface must be agile.
pub fn compare_migration(baseline: &Snapshot, candidate: &Snapshot) -> (differences: Vec<String>)
    ensures
        differences.deep_view() == migration_comparison(baseline@, candidate@),
{
    let base = sorted_entries(baseline);
    let cand = sorted_entries(candidate);
    let ghost b = baseline@;
    let ghost c = candidate@;
    let mut differences: Vec<String> = Vec::new();
    let mut i: usize = 0;
    while i < base.len()
        invariant
            base.deep_view() == b,
            cand.deep_view() == c,
            b == baseline@,
            c == candidate@,
            i <= base.len(),
            differences.deep_view() == migration_baseline_messages(b.take(i as int), c),
        decreases base.len() - i,
    {
        let ghost before = differences.deep_view();
        let name = &base[i].0;
        let expected = &base[i].1;
        assert(b.take(i + 1).drop_last() =~= b.take(i as int));
        assert(b.take(i + 1).last() == (name@, expected.deep_view()));
        if migration_baseline_record(name, expected) {
            match candidate_interface_of(candidate, cand, name) {
                None => {
                    push_message(&mut differences, labelled("missing interface: ", name.as_str()));
                },
                Some(actual) => {
                    let ghost w1 = when(
                        expected.deep_view().guid != actual.deep_view().guid,
                        guid_message(name@, expected.deep_view().guid, actual.deep_view().guid),
                    );
                    let ghost w2 = when(
                        method_names(expected.deep_view()) != method_names(actual.deep_view()),
                        name@ + ": method names or order changed"@,
                    );
                    describe_guid(name.as_str(), &expected.guid, &actual.guid, &mut differences);
                    let same = same_method_names(expected, actual);
                    describe_when(name.as_str(), !same, ": method names or order changed", &mut differences);
                    proof {
                        lemma_add_assoc(before, w1, w2);
                    }
                },
            }
        } else {
            assert(differences.deep_view() =~= before + Seq::empty());
        }
        i += 1;
    }
    assert(b.take(base.len() as int) =~= b);
    let ghost part1 = differences.deep_view();
    let mut j: usize = 0;
    while j < cand.len()
        invariant
            base.deep_view() == b,
            cand.deep_view() == c,
            b == baseline@,
            c == candidate@,
            j <= cand.len(),
            differences.deep_view() == part1 + migration_unexpected_messages(c.take(j as int), b),
        decreases cand.len() - j,
    {
        let name = &cand[j].0;
        let record = &cand[j].1;
        assert(c.take(j + 1).drop_last() =~= c.take(j as int));
        assert(c.take(j + 1).last() == (name@, record.deep_view()));
        let ghost w = when(
            migration_candidate(name@, record.deep_view()) && !baseline_interface(b, name@),
            "unexpected interface: "@ + name@,
        );
        if migration_candidate_record(name, record) && !baseline_interface_of(baseline, base, name) {
            push_message(&mut differences, labelled("unexpected interface: ", name.as_str()));
        }
        assert(differences.deep_view() =~= part1 + migration_unexpected_messages(c.take(j as int), b) + w);
        proof {
            lemma_add_assoc(part1, migration_unexpected_messages(c.take(j as int), b), w);
        }
        j += 1;
    }
    assert(c.take(cand.len() as int) =~= c);
    let ghost part2 = differences.deep_view();
    let mut k: usize = 0;
    while k < cand.len()
        invariant
            cand.deep_view() == c,
            c == candidate@,
            k <= cand.len(),
            differences.deep_view() == part2 + migration_agility_messages(c.take(k as int)),
        decreases cand.len() - k,
    {
        let name = &cand[k].0;
        let record = &cand[k].1;
        assert(c.take(k + 1).drop_last() =~= c.take(k as int));
        assert(c.take(k + 1).last() == (name@, record.deep_view()));
        let ghost w = when(
            migration_candidate(name@, record.deep_view()) && !record.agile,
            "missing agility marker: "@ + name@,
        );
        if migration_candidate_record(name, record) && !record.agile {
            push_message(&mut differences, labelled("missing agility marker: ", name.as_str()));
        }
        assert(differences.deep_view() =~= part2 + migration_agility_messages(c.take(k as int)) + w);
        proof {
            lemma_add_assoc(part2, migration_agility_messages(c.take(k as int)), w);
        }
        k += 1;
    }
    assert(c.take(cand.len() as int) =~= c);
    proof {
        lemma_add_assoc(
            migration_baseline_messages(b, c),
            migration_unexpected_messages(c, b),
            migration_agility_messages(c),
        );
    }
    differences
}

} // verus!
