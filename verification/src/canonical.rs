//! Canonical text of metadata type signatures and custom attributes, and
//! the construction of type records from metadata rows.

use vstd::prelude::*;
use crate::names::{qualified, qualified_name};
use crate::records::{
    field_models, lemma_field_models, lemma_method_models, lemma_parameter_models, method_models,
    parameter_models, FieldModel, FieldRecord, MethodModel, MethodRecord, ParameterModel,
    ParameterRecord, TypeModel, TypeRecord,
};
use crate::order::{sort, sort_strings, sorted};
use crate::snapshot::{has_key, keys_sorted, lookup, Snapshot};
use crate::text::{decimal, push_char, push_decimal};

verus! {

/// A metadata type signature.
#[derive(Debug, PartialEq)]
pub enum MetadataType {
    Void,
    Bool,
    Char,
    I8,
    U8,
    I16,
    U16,
    I32,
    U32,
    I64,
    U64,
    F32,
    F64,
    ISize,
    USize,
    String,
    Object,
    ClassName(MetadataTypeName),
    ValueName(MetadataTypeName),
    Array(Box<MetadataType>),
    Generic(String, u16),
    RefMut(Box<MetadataType>),
    RefConst(Box<MetadataType>),
    PtrMut(Box<MetadataType>, usize),
    PtrConst(Box<MetadataType>, usize),
    ArrayFixed(Box<MetadataType>, usize),
}

/// A named type in a signature, with its generic arguments.
#[derive(Debug, PartialEq)]
pub struct MetadataTypeName {
    pub namespace: String,
    pub name: String,
    pub generics: Vec<MetadataType>,
}

/// Canonical text of a type signature: the element kind, then for named
/// types the qualified name with generic arguments, for wrappers the
/// wrapped type after the count where there is one.
pub open spec fn canonical(ty: MetadataType) -> Seq<char>
    decreases ty,
{
    match ty {
        MetadataType::Void => "void"@,
        MetadataType::Bool => "bool"@,
        MetadataType::Char => "char"@,
        MetadataType::I8 => "i8"@,
        MetadataType::U8 => "u8"@,
        MetadataType::I16 => "i16"@,
        MetadataType::U16 => "u16"@,
        MetadataType::I32 => "i32"@,
        MetadataType::U32 => "u32"@,
        MetadataType::I64 => "i64"@,
        MetadataType::U64 => "u64"@,
        MetadataType::F32 => "f32"@,
        MetadataType::F64 => "f64"@,
        MetadataType::ISize => "isize"@,
        MetadataType::USize => "usize"@,
        MetadataType::String => "string"@,
        MetadataType::Object => "object"@,
        MetadataType::ClassName(name) => "class:"@ + canonical_name(name),
        MetadataType::ValueName(name) => "value:"@ + canonical_name(name),
        MetadataType::Array(inner) => "array:"@ + canonical(*inner),
        MetadataType::Generic(name, index) => "generic:"@ + name@ + seq![':'] + decimal(
            index as nat,
        ),
        MetadataType::RefMut(inner) => "ref-mut:"@ + canonical(*inner),
        MetadataType::RefConst(inner) => "ref-const:"@ + canonical(*inner),
        MetadataType::PtrMut(inner, depth) => "ptr-mut:"@ + decimal(depth as nat) + seq![':']
            + canonical(*inner),
        MetadataType::PtrConst(inner, depth) => "ptr-const:"@ + decimal(depth as nat) + seq![':']
            + canonical(*inner),
        MetadataType::ArrayFixed(inner, count) => "array-fixed:"@ + decimal(count as nat) + seq![
            ':',
        ] + canonical(*inner),
    }
}

/// Canonical text of a type name: qualified, with `<`, the canonical
/// generic arguments separated by `,`, and `>` when there are arguments.
pub open spec fn canonical_name(name: MetadataTypeName) -> Seq<char>
    decreases name,
{
    if name.generics.len() == 0 {
        qualified(name.namespace@, name.name@)
    } else {
        qualified(name.namespace@, name.name@) + seq!['<'] + canonical_list(name.generics@) + seq![
            '>',
        ]
    }
}

/// Canonical texts of a list of types, separated by `,`.
pub open spec fn canonical_list(types: Seq<MetadataType>) -> Seq<char>
    decreases types,
{
    if types.len() == 0 {
        Seq::empty()
    } else if types.len() == 1 {
        canonical(types[0])
    } else {
        canonical_list(types.drop_last()) + seq![','] + canonical(types.last())
    }
}

/// `prefix` followed by `rest`.
fn joined(prefix: &str, rest: &str) -> (r: String)
    ensures
        r@ == prefix@ + rest@,
{
    let mut r = prefix.to_owned();
    r.append(rest);
    r
}

/// `prefix`, the decimal count, `:` and the canonical wrapped type.
fn counted(prefix: &str, count: usize, inner: &MetadataType) -> (r: String)
    ensures
        r@ == prefix@ + decimal(count as nat) + seq![':'] + canonical(*inner),
    decreases inner, 1nat,
{
    let mut r = prefix.to_owned();
    push_decimal(&mut r, count as u64);
    push_char(&mut r, ':');
    let text = canonical_type(inner);
    r.append(text.as_str());
    r
}

/// Canonical text of a type signature.
pub fn canonical_type(ty: &MetadataType) -> (r: String)
    ensures
        r@ == canonical(*ty),
    decreases ty, 0nat,
{
    match ty {
        MetadataType::Void => "void".to_owned(),
        MetadataType::Bool => "bool".to_owned(),
        MetadataType::Char => "char".to_owned(),
        MetadataType::I8 => "i8".to_owned(),
        MetadataType::U8 => "u8".to_owned(),
        MetadataType::I16 => "i16".to_owned(),
        MetadataType::U16 => "u16".to_owned(),
        MetadataType::I32 => "i32".to_owned(),
        MetadataType::U32 => "u32".to_owned(),
        MetadataType::I64 => "i64".to_owned(),
        MetadataType::U64 => "u64".to_owned(),
        MetadataType::F32 => "f32".to_owned(),
        MetadataType::F64 => "f64".to_owned(),
        MetadataType::ISize => "isize".to_owned(),
        MetadataType::USize => "usize".to_owned(),
        MetadataType::String => "string".to_owned(),
        MetadataType::Object => "object".to_owned(),
        MetadataType::ClassName(name) => joined("class:", canonical_type_name(name).as_str()),
        MetadataType::ValueName(name) => joined("value:", canonical_type_name(name).as_str()),
        MetadataType::Array(inner) => joined("array:", canonical_type(inner).as_str()),
        MetadataType::Generic(name, index) => {
            let mut r = joined("generic:", name.as_str());
            push_char(&mut r, ':');
            push_decimal(&mut r, *index as u64);
            r
        },
        MetadataType::RefMut(inner) => joined("ref-mut:", canonical_type(inner).as_str()),
        MetadataType::RefConst(inner) => joined("ref-const:", canonical_type(inner).as_str()),
        MetadataType::PtrMut(inner, depth) => counted("ptr-mut:", *depth, inner),
        MetadataType::PtrConst(inner, depth) => counted("ptr-const:", *depth, inner),
        MetadataType::ArrayFixed(inner, count) => counted("array-fixed:", *count, inner),
    }
}

/// Canonical text of a type name with its generic arguments.
pub fn canonical_type_name(name: &MetadataTypeName) -> (r: String)
    ensures
        r@ == canonical_name(*name),
    decreases name, 0nat,
{
    let mut r = crate::names::qualified_name(name.namespace.as_str(), name.name.as_str());
    if name.generics.len() == 0 {
        return r;
    }
    push_char(&mut r, '<');
    let list = canonical_type_list(&name.generics);
    r.append(list.as_str());
    push_char(&mut r, '>');
    r
}

/// Canonical texts of a list of types, separated by `,`.
pub fn canonical_type_list(types: &Vec<MetadataType>) -> (r: String)
    ensures
        r@ == canonical_list(types@),
    decreases types, 0nat,
{
    let mut r = String::new();
    let mut i: usize = 0;
    while i < types.len()
        invariant
            i <= types.len(),
            r@ == canonical_list(types@.take(i as int)),
        decreases types.len() - i,
    {
        assert(types@.take(i + 1).drop_last() =~= types@.take(i as int));
        if i > 0 {
            push_char(&mut r, ',');
        }
        assert(decreases_to!(types => types@[i as int]));
        let text = canonical_type(&types[i]);
        r.append(text.as_str());
        i += 1;
    }
    assert(types@.take(types.len() as int) =~= types@);
    r
}

/// An argument value of a custom attribute, as far as the agility check
/// reads it: a 32-bit integer, an enumeration value around another value,
/// or any other value.
#[derive(Debug, PartialEq)]
pub enum AttributeArg {
    I32(i32),
    EnumValue(Box<AttributeArg>),
    Other,
}

/// A custom attribute row: the attribute type's namespace and name, the
/// `Debug` text of its argument list, and its argument values in order.
#[derive(Debug, PartialEq)]
pub struct AttributeRow {
    pub namespace: String,
    pub name: String,
    pub value_text: String,
    pub args: Vec<AttributeArg>,
}

/// Canonical text of an attribute: `namespace.name=` and its argument text.
pub open spec fn attribute_text(a: AttributeRow) -> Seq<char> {
    qualified(a.namespace@, a.name@) + seq!['='] + a.value_text@
}

/// The canonical texts of a list of attributes, sorted.
pub open spec fn attribute_texts(attributes: Seq<AttributeRow>) -> Seq<Seq<char>> {
    sort(attributes.map_values(|a: AttributeRow| attribute_text(a)))
}

/// Whether an argument value selects the agile marshaling behavior (the
/// value 2, bare or as an enumeration value).
pub open spec fn selects_agile(arg: AttributeArg) -> bool {
    match arg {
        AttributeArg::I32(v) => v == 2,
        AttributeArg::EnumValue(inner) => *inner == AttributeArg::I32(2),
        AttributeArg::Other => false,
    }
}

/// The `MarshalingBehaviorAttribute` name.
pub open spec fn marshaling_attribute() -> Seq<char> {
    "MarshalingBehaviorAttribute"@
}

/// For each marshaling behavior attribute, in order: whether one of its
/// arguments selects the agile behavior.
pub open spec fn agility_markers(attributes: Seq<AttributeRow>) -> Seq<bool>
    decreases attributes.len(),
{
    if attributes.len() == 0 {
        Seq::empty()
    } else {
        let a = attributes.last();
        agility_markers(attributes.drop_last()) + if a.name@ == marshaling_attribute() {
            seq![exists|i: int| 0 <= i < a.args.len() && selects_agile(#[trigger] a.args@[i])]
        } else {
            Seq::empty()
        }
    }
}

/// A type is agile when it has exactly one marshaling behavior attribute
/// and that attribute selects the agile behavior.
pub open spec fn is_agile(attributes: Seq<AttributeRow>) -> bool {
    agility_markers(attributes) == seq![true]
}

/// The argument text of the first attribute with the given name.
pub open spec fn first_attribute_value(attributes: Seq<AttributeRow>, name: Seq<char>) -> Option<
    Seq<char>,
>
    decreases attributes.len(),
{
    if attributes.len() == 0 {
        None
    } else if attributes[0].name@ == name {
        Some(attributes[0].value_text@)
    } else {
        first_attribute_value(attributes.drop_first(), name)
    }
}

/// The canonical texts of a list of attributes, sorted.
pub fn canonical_attributes(attributes: &Vec<AttributeRow>) -> (r: Vec<String>)
    ensures
        r.deep_view() == attribute_texts(attributes@),
        sorted(r.deep_view()),
        r.deep_view().to_multiset() == attributes@.map_values(|a: AttributeRow| attribute_text(a)).to_multiset(),
{
    let mut texts: Vec<String> = Vec::new();
    let mut i: usize = 0;
    while i < attributes.len()
        invariant
            i <= attributes.len(),
            texts.deep_view() == attributes@.take(i as int).map_values(
                |a: AttributeRow| attribute_text(a),
            ),
        decreases attributes.len() - i,
    {
        let a = &attributes[i];
        let mut text = crate::names::qualified_name(a.namespace.as_str(), a.name.as_str());
        push_char(&mut text, '=');
        text.append(a.value_text.as_str());
        assert(text@ =~= attribute_text(attributes@[i as int]));
        let ghost before = texts.deep_view();
        texts.push(text);
        assert(texts.deep_view() =~= before.push(attribute_text(attributes@[i as int])));
        assert(texts.deep_view() =~= attributes@.take(i + 1).map_values(
            |a: AttributeRow| attribute_text(a),
        ));
        i += 1;
    }
    assert(attributes@.take(attributes.len() as int) =~= attributes@);
    sort_strings(&texts)
}

/// The argument text of the first attribute named `name`.
pub fn attribute_value(attributes: &Vec<AttributeRow>, name: &str) -> (r: Option<String>)
    ensures
        r.deep_view() == first_attribute_value(attributes@, name@),
{
    let target = name.to_owned();
    assert(attributes@.skip(0) =~= attributes@);
    let mut i: usize = 0;
    while i < attributes.len()
        invariant
            i <= attributes.len(),
            target@ == name@,
            first_attribute_value(attributes@, name@) == first_attribute_value(
                attributes@.skip(i as int),
                name@,
            ),
        decreases attributes.len() - i,
    {
        assert(attributes@.skip(i as int).drop_first() =~= attributes@.skip(i + 1));
        if attributes[i].name == target {
            return Some(attributes[i].value_text.clone());
        }
        i += 1;
    }
    None
}

/// Whether an argument value selects the agile marshaling behavior.
fn arg_selects_agile(arg: &AttributeArg) -> (r: bool)
    ensures
        r == selects_agile(*arg),
{
    match arg {
        AttributeArg::I32(v) => *v == 2,
        AttributeArg::EnumValue(inner) => match &**inner {
            AttributeArg::I32(v) => *v == 2,
            _ => false,
        },
        AttributeArg::Other => false,
    }
}

/// Whether some argument of the attribute selects the agile behavior.
fn any_selects_agile(a: &AttributeRow) -> (r: bool)
    ensures
        r == exists|i: int| 0 <= i < a.args.len() && selects_agile(#[trigger] a.args@[i]),
{
    let mut i: usize = 0;
    while i < a.args.len()
        invariant
            i <= a.args.len(),
            forall|j: int| 0 <= j < i ==> !selects_agile(#[trigger] a.args@[j]),
        decreases a.args.len() - i,
    {
        if arg_selects_agile(&a.args[i]) {
            return true;
        }
        i += 1;
    }
    false
}

/// Whether the attributes mark a type as agile: exactly one marshaling
/// behavior attribute, and it selects the agile behavior.
pub fn has_agility(attributes: &Vec<AttributeRow>) -> (r: bool)
    ensures
        r == is_agile(attributes@),
{
    let marshaling = "MarshalingBehaviorAttribute".to_owned();
    let mut markers: Vec<bool> = Vec::new();
    let mut i: usize = 0;
    while i < attributes.len()
        invariant
            i <= attributes.len(),
            marshaling@ == marshaling_attribute(),
            markers@ == agility_markers(attributes@.take(i as int)),
        decreases attributes.len() - i,
    {
        assert(attributes@.take(i + 1).drop_last() =~= attributes@.take(i as int));
        let a = &attributes[i];
        if a.name == marshaling {
            let marks = any_selects_agile(a);
            markers.push(marks);
        }
        assert(markers@ =~= agility_markers(attributes@.take(i + 1)));
        i += 1;
    }
    assert(attributes@.take(attributes.len() as int) =~= attributes@);
    let r = markers.len() == 1 && markers[0];
    assert(r == (markers@ =~= seq![true]));
    r
}

/// A parameter row.
#[derive(Debug, PartialEq)]
pub struct ParamRow {
    pub flags: u16,
    /// The `Debug` text of the parameter's direction (`Input`, `Output`, ...).
    pub direction: String,
    pub optional: bool,
    pub retval: bool,
    pub attributes: Vec<AttributeRow>,
}

/// The parameter rows of a method by signature position (`None` where a
/// position has no row), and its return row.
#[derive(Debug, PartialEq)]
pub struct ParamMap {
    pub params: Vec<Option<ParamRow>>,
    pub return_param: Option<ParamRow>,
}

/// A method signature.
#[derive(Debug, PartialEq)]
pub struct SignatureRow {
    pub flags: u8,
    pub return_type: MetadataType,
    pub types: Vec<MetadataType>,
}

/// A method row. `params` is the association of parameter rows with
/// signature positions, or the text of the error that made it fail.
#[derive(Debug, PartialEq)]
pub struct MethodRow {
    pub name: String,
    pub flags: u16,
    pub impl_flags: u16,
    pub calling_convention: String,
    pub signature: SignatureRow,
    pub params: Result<ParamMap, String>,
    pub attributes: Vec<AttributeRow>,
}

/// A field row; `constant` is the `Debug` text of its constant value.
#[derive(Debug, PartialEq)]
pub struct FieldRow {
    pub name: String,
    pub ty: MetadataType,
    pub flags: u16,
    pub constant: Option<String>,
    pub attributes: Vec<AttributeRow>,
}

/// A type definition row. `category` is the `Debug` text of the type's
/// category; `extends` is the namespace and name of its base type.
#[derive(Debug, PartialEq)]
pub struct TypeDefRow {
    pub namespace: String,
    pub name: String,
    pub category: String,
    pub flags: u32,
    pub extends: Option<(String, String)>,
    pub interfaces: Vec<MetadataType>,
    pub layout: Option<(u16, u32)>,
    pub fields: Vec<FieldRow>,
    pub methods: Vec<MethodRow>,
    pub attributes: Vec<AttributeRow>,
}

/// The record of a parameter row.
pub open spec fn parameter_model(p: ParamRow) -> ParameterModel {
    ParameterModel {
        flags: p.flags,
        direction: p.direction@,
        optional: p.optional,
        retval: p.retval,
        attributes: attribute_texts(p.attributes@),
    }
}

/// The record of a signature position without a parameter row.
pub open spec fn default_parameter_model() -> ParameterModel {
    ParameterModel {
        flags: 0,
        direction: "Unspecified"@,
        optional: false,
        retval: false,
        attributes: Seq::empty(),
    }
}

/// The record of an optional parameter row.
pub open spec fn position_model(p: Option<ParamRow>) -> ParameterModel {
    match p {
        Some(p) => parameter_model(p),
        None => default_parameter_model(),
    }
}

/// Canonical text of a signature: its flags in decimal, the canonical
/// parameter types in parentheses separated by `,`, `->` and the canonical
/// return type.
pub open spec fn signature_text(sig: SignatureRow) -> Seq<char> {
    decimal(sig.flags as nat) + seq!['('] + canonical_list(sig.types@) + seq![')', '-', '>']
        + canonical(sig.return_type)
}

/// The record of a method row with the given parameter rows by position
/// and return row.
pub open spec fn method_model(
    m: MethodRow,
    params: Seq<Option<ParamRow>>,
    return_param: Option<ParamRow>,
) -> MethodModel {
    MethodModel {
        name: m.name@,
        flags: m.flags,
        impl_flags: m.impl_flags,
        calling_convention: m.calling_convention@,
        signature: signature_text(m.signature),
        parameters: params.map_values(|p: Option<ParamRow>| position_model(p)),
        return_parameter: match return_param {
            Some(p) => Some(parameter_model(p)),
            None => None,
        },
        attributes: attribute_texts(m.attributes@),
    }
}

/// The record of a field row.
pub open spec fn field_model(f: FieldRow) -> FieldModel {
    FieldModel {
        name: f.name@,
        ty: canonical(f.ty),
        flags: f.flags,
        constant: f.constant.deep_view(),
        attributes: attribute_texts(f.attributes@),
    }
}

/// The error of a method row, with the type's and the method's names.
pub open spec fn method_error(owner: Seq<char>, m: MethodRow) -> Option<Seq<char>> {
    match m.params {
        Ok(_) => None,
        Err(e) => Some(owner + seq!['.'] + m.name@ + seq![':', ' '] + e@),
    }
}

/// The error of the first method row of the type whose parameter rows
/// could not be associated, if any.
pub open spec fn first_method_error(owner: Seq<char>, methods: Seq<MethodRow>) -> Option<
    Seq<char>,
>
    decreases methods.len(),
{
    if methods.len() == 0 {
        None
    } else {
        match first_method_error(owner, methods.drop_last()) {
            Some(e) => Some(e),
            None => method_error(owner, methods.last()),
        }
    }
}

/// The record of a type definition row (meaningful when none of its
/// methods has an error).
pub open spec fn type_model(def: TypeDefRow) -> TypeModel {
    TypeModel {
        category: def.category@,
        flags: def.flags,
        extends: match def.extends {
            Some((namespace, name)) => Some(qualified(namespace@, name@)),
            None => None,
        },
        interfaces: sort(def.interfaces@.map_values(|t: MetadataType| canonical(t))),
        layout: def.layout,
        fields: def.fields@.map_values(|f: FieldRow| field_model(f)),
        methods: def.methods@.map_values(
            |m: MethodRow|
                match m.params {
                    Ok(map) => method_model(m, map.params@, map.return_param),
                    Err(_) => method_model(m, Seq::empty(), None),
                },
        ),
        attributes: attribute_texts(def.attributes@),
        agile: is_agile(def.attributes@),
        guid: first_attribute_value(def.attributes@, "GuidAttribute"@),
    }
}

/// The record of a parameter row.
pub fn parameter_record(p: &ParamRow) -> (r: ParameterRecord)
    ensures
        r.deep_view() == parameter_model(*p),
{
    ParameterRecord {
        flags: p.flags,
        direction: p.direction.clone(),
        optional: p.optional,
        retval: p.retval,
        attributes: canonical_attributes(&p.attributes),
    }
}

impl Default for ParameterRecord {
    /// The record of a signature position that has no parameter row.
    fn default() -> (r: Self)
        ensures
            r.deep_view() == default_parameter_model(),
    {
        let r = ParameterRecord {
            flags: 0,
            direction: "Unspecified".to_owned(),
            optional: false,
            retval: false,
            attributes: Vec::new(),
        };
        assert(r.attributes.deep_view() =~= Seq::<Seq<char>>::empty());
        r
    }
}

/// Canonical text of a method signature.
pub fn canonical_signature(sig: &SignatureRow) -> (r: String)
    ensures
        r@ == signature_text(*sig),
{
    let mut r = String::new();
    push_decimal(&mut r, sig.flags as u64);
    push_char(&mut r, '(');
    let list = canonical_type_list(&sig.types);
    r.append(list.as_str());
    push_char(&mut r, ')');
    push_char(&mut r, '-');
    push_char(&mut r, '>');
    let ret = canonical_type(&sig.return_type);
    r.append(ret.as_str());
    assert(r@ =~= signature_text(*sig));
    r
}

/// The record of a method row whose parameter rows were associated.
fn method_record(m: &MethodRow, map: &ParamMap) -> (r: MethodRecord)
    ensures
        r.deep_view() == method_model(*m, map.params@, map.return_param),
{
    let mut parameters: Vec<ParameterRecord> = Vec::new();
    let mut i: usize = 0;
    while i < map.params.len()
        invariant
            i <= map.params.len(),
            parameters.len() == i,
            forall|k: int| 0 <= k < i ==> #[trigger] parameters@[k].deep_view() == position_model(
                map.params@[k],
            ),
        decreases map.params.len() - i,
    {
        let record = match &map.params[i] {
            Some(p) => parameter_record(p),
            None => ParameterRecord::default(),
        };
        parameters.push(record);
        i += 1;
    }
    let return_parameter = match &map.return_param {
        Some(p) => Some(parameter_record(p)),
        None => None,
    };
    let r = MethodRecord {
        name: m.name.clone(),
        flags: m.flags,
        impl_flags: m.impl_flags,
        calling_convention: m.calling_convention.clone(),
        signature: canonical_signature(&m.signature),
        parameters,
        return_parameter,
        attributes: canonical_attributes(&m.attributes),
    };
    proof {
        lemma_parameter_models(r.parameters@);
        assert(parameter_models(r.parameters@) =~= map.params@.map_values(
            |p: Option<ParamRow>| position_model(p),
        ));
    }
    r
}

/// The record of a field row.
fn field_record(f: &FieldRow) -> (r: FieldRecord)
    ensures
        r.deep_view() == field_model(*f),
{
    FieldRecord {
        name: f.name.clone(),
        ty: canonical_type(&f.ty),
        flags: f.flags,
        constant: f.constant.clone(),
        attributes: canonical_attributes(&f.attributes),
    }
}

/// The record of a type definition row, or the error of its first method
/// whose parameter rows could not be associated with signature positions.
pub fn type_record(def: &TypeDefRow) -> (r: Result<TypeRecord, String>)
    ensures
        match r {
            Ok(record) => first_method_error(def.name@, def.methods@) is None && record.deep_view()
                == type_model(*def),
            Err(e) => first_method_error(def.name@, def.methods@) == Some(e@),
        },
{
    let extends = match &def.extends {
        Some((namespace, name)) => Some(qualified_name(namespace.as_str(), name.as_str())),
        None => None,
    };
    let mut interfaces: Vec<String> = Vec::new();
    let mut i: usize = 0;
    while i < def.interfaces.len()
        invariant
            i <= def.interfaces.len(),
            interfaces.deep_view() == def.interfaces@.take(i as int).map_values(
                |t: MetadataType| canonical(t),
            ),
        decreases def.interfaces.len() - i,
    {
        let text = canonical_type(&def.interfaces[i]);
        let ghost before = interfaces.deep_view();
        interfaces.push(text);
        assert(interfaces.deep_view() =~= before.push(canonical(def.interfaces@[i as int])));
        assert(interfaces.deep_view() =~= def.interfaces@.take(i + 1).map_values(
            |t: MetadataType| canonical(t),
        ));
        i += 1;
    }
    assert(def.interfaces@.take(def.interfaces.len() as int) =~= def.interfaces@);
    let interfaces = sort_strings(&interfaces);
    let mut fields: Vec<FieldRecord> = Vec::new();
    let mut j: usize = 0;
    while j < def.fields.len()
        invariant
            j <= def.fields.len(),
            fields.len() == j,
            forall|k: int| 0 <= k < j ==> #[trigger] fields@[k].deep_view() == field_model(
                def.fields@[k],
            ),
        decreases def.fields.len() - j,
    {
        fields.push(field_record(&def.fields[j]));
        j += 1;
    }
    let mut methods: Vec<MethodRecord> = Vec::new();
    let mut k: usize = 0;
    while k < def.methods.len()
        invariant
            k <= def.methods.len(),
            methods.len() == k,
            first_method_error(def.name@, def.methods@.take(k as int)) is None,
            forall|q: int| 0 <= q < k ==> #[trigger] methods@[q].deep_view() == (match def.methods@[q].params {
                Ok(map) => method_model(def.methods@[q], map.params@, map.return_param),
                Err(_) => method_model(def.methods@[q], Seq::empty(), None),
            }),
        decreases def.methods.len() - k,
    {
        let m = &def.methods[k];
        assert(def.methods@.take(k + 1).drop_last() =~= def.methods@.take(k as int));
        match &m.params {
            Err(e) => {
                let mut message = def.name.clone();
                push_char(&mut message, '.');
                message.append(m.name.as_str());
                push_char(&mut message, ':');
                push_char(&mut message, ' ');
                message.append(e.as_str());
                proof {
                    lemma_first_method_error_prefix(def.name@, def.methods@, k as int);
                }
                assert(message@ =~= def.name@ + seq!['.'] + m.name@ + seq![':', ' '] + e@);
                return Err(message);
            },
            Ok(map) => {
                methods.push(method_record(m, map));
            },
        }
        k += 1;
    }
    assert(def.methods@.take(def.methods.len() as int) =~= def.methods@);
    let record = TypeRecord {
        category: def.category.clone(),
        flags: def.flags,
        extends,
        interfaces,
        layout: def.layout,
        fields,
        methods,
        attributes: canonical_attributes(&def.attributes),
        agile: has_agility(&def.attributes),
        guid: attribute_value(&def.attributes, "GuidAttribute"),
    };
    proof {
        lemma_field_models(record.fields@);
        lemma_method_models(record.methods@);
        assert(field_models(record.fields@) =~= def.fields@.map_values(|f: FieldRow| field_model(f)));
        assert(method_models(record.methods@) =~= type_model(*def).methods);
    }
    Ok(record)
}

proof fn lemma_first_method_error_prefix(owner: Seq<char>, methods: Seq<MethodRow>, k: int)
    requires
        0 <= k < methods.len(),
        first_method_error(owner, methods.take(k)) is None,
        method_error(owner, methods[k]) is Some,
    ensures
        first_method_error(owner, methods) == method_error(owner, methods[k]),
    decreases methods.len(),
{
    assert(methods.take(k + 1).drop_last() =~= methods.take(k));
    if methods.len() > k + 1 {
        assert(methods.drop_last().take(k) =~= methods.take(k));
        assert(methods.drop_last()[k] == methods[k]);
        lemma_first_method_error_prefix(owner, methods.drop_last(), k);
    } else {
        assert(methods.take(k + 1) =~= methods);
    }
}

/// The qualified name under which a snapshot keeps a type definition.
pub open spec fn row_key(def: TypeDefRow) -> Seq<char> {
    qualified(def.namespace@, def.name@)
}

/// The error that the `i`-th row raises when it is read after the rows
/// before it: its first method error, else a repeated qualified name.
pub open spec fn row_error(defs: Seq<TypeDefRow>, i: int) -> Option<Seq<char>> {
    match first_method_error(defs[i].name@, defs[i].methods@) {
        Some(e) => Some(e),
        None => if exists|j: int| 0 <= j < i && #[trigger] row_key(defs[j]) == row_key(defs[i]) {
            Some("duplicate type definition: "@ + row_key(defs[i]))
        } else {
            None
        },
    }
}

/// The error of the first row, in order, that raises one.
pub open spec fn rows_error(defs: Seq<TypeDefRow>) -> Option<Seq<char>>
    decreases defs.len(),
{
    if defs.len() == 0 {
        None
    } else {
        match rows_error(defs.drop_last()) {
            Some(e) => Some(e),
            None => row_error(defs, defs.len() - 1),
        }
    }
}

proof fn lemma_rows_error_prefix(defs: Seq<TypeDefRow>, n: int)
    requires
        0 <= n <= defs.len(),
        rows_error(defs.take(n)) is Some,
    ensures
        rows_error(defs) == rows_error(defs.take(n)),
    decreases defs.len(),
{
    if n < defs.len() {
        assert(defs.drop_last().take(n) =~= defs.take(n));
        lemma_rows_error_prefix(defs.drop_last(), n);
    } else {
        assert(defs.take(n) =~= defs);
    }
}

/// Builds the snapshot of a list of type definition rows: the record of
/// each row under its qualified name. Fails with the error of the first
/// row that has a method error or repeats the qualified name of an
/// earlier row.
pub fn snapshot_from_rows(defs: &Vec<TypeDefRow>) -> (r: Result<Snapshot, String>)
    ensures
        match r {
            Ok(snapshot) => {
                &&& rows_error(defs@) is None
                &&& keys_sorted(snapshot@)
                &&& snapshot@.len() == defs.len()
                &&& forall|i: int| 0 <= i < defs.len() ==> lookup(snapshot@, #[trigger] row_key(defs@[i]))
                    == Some(type_model(defs@[i]))
                &&& forall|k: Seq<char>| has_key(snapshot@, k) ==> exists|i: int|
                    0 <= i < defs.len() && #[trigger] row_key(defs@[i]) == k
            },
            Err(e) => rows_error(defs@) == Some(e@),
        },
{
    let mut types = Snapshot::new();
    let mut i: usize = 0;
    while i < defs.len()
        invariant
            i <= defs.len(),
            rows_error(defs@.take(i as int)) is None,
            keys_sorted(types@),
            types@.len() == i,
            forall|j: int| 0 <= j < i ==> lookup(types@, #[trigger] row_key(defs@[j])) == Some(
                type_model(defs@[j]),
            ),
            forall|k: Seq<char>| has_key(types@, k) ==> exists|j: int|
                0 <= j < i && #[trigger] row_key(defs@[j]) == k,
        decreases defs.len() - i,
    {
        let def = &defs[i];
        let ghost prefix = defs@.take(i + 1);
        assert(prefix.drop_last() =~= defs@.take(i as int));
        assert(prefix[i as int] == defs@[i as int]);
        let key = qualified_name(def.namespace.as_str(), def.name.as_str());
        let record = match type_record(def) {
            Ok(record) => record,
            Err(e) => {
                proof {
                    lemma_rows_error_prefix(defs@, i + 1);
                }
                return Err(e);
            },
        };
        let ghost old_types = types@;
        let previous = types.insert(key.clone(), record);
        if previous.is_some() {
            let mut message = "duplicate type definition: ".to_owned();
            message.append(key.as_str());
            proof {
                let j = choose|j: int| 0 <= j < i && #[trigger] row_key(defs@[j]) == key@;
                assert(row_key(prefix[j]) == row_key(prefix[i as int]));
                lemma_rows_error_prefix(defs@, i + 1);
            }
            return Err(message);
        }
        proof {
            assert forall|j: int| 0 <= j < i implies !(#[trigger] row_key(prefix[j]) == row_key(
                prefix[i as int],
            )) by {
                assert(prefix[j] == defs@[j]);
                if row_key(defs@[j]) == key@ {
                    assert(lookup(old_types, row_key(defs@[j])) is Some);
                }
            }
            assert forall|j: int| 0 <= j < i + 1 implies lookup(
                types@,
                #[trigger] row_key(defs@[j]),
            ) == Some(type_model(defs@[j])) by {
                if j < i {
                    if row_key(defs@[j]) == key@ {
                        assert(lookup(old_types, row_key(defs@[j])) is Some);
                    }
                }
            }
            assert forall|k: Seq<char>| has_key(types@, k) implies exists|j: int|
                0 <= j < i + 1 && #[trigger] row_key(defs@[j]) == k by {
                if k != key@ {
                    assert(lookup(types@, k) == lookup(old_types, k));
                    assert(has_key(old_types, k));
                    let j = choose|j: int| 0 <= j < i && #[trigger] row_key(defs@[j]) == k;
                    assert(row_key(defs@[j]) == k);
                } else {
                    assert(row_key(defs@[i as int]) == k);
                }
            }
        }
        i += 1;
    }
    assert(defs@.take(defs.len() as int) =~= defs@);
    Ok(types)
}

} // verus!
