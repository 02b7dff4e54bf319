//! The structural records that a snapshot holds for each type definition,
//! their mathematical models, and exact equality tests on them.

use vstd::prelude::*;

verus! {

/// Metadata of one method parameter row.
#[derive(Clone, Debug, PartialEq, Eq)]
pub struct ParameterRecord {
    pub flags: u16,
    pub direction: String,
    pub optional: bool,
    pub retval: bool,
    pub attributes: Vec<String>,
}

/// Metadata of one field.
#[derive(Clone, Debug, PartialEq, Eq)]
pub struct FieldRecord {
    pub name: String,
    pub ty: String,
    pub flags: u16,
    pub constant: Option<String>,
    pub attributes: Vec<String>,
}

/// Metadata of one method.
#[derive(Clone, Debug, PartialEq, Eq)]
pub struct MethodRecord {
    pub name: String,
    pub flags: u16,
    pub impl_flags: u16,
    pub calling_convention: String,
    pub signature: String,
    pub parameters: Vec<ParameterRecord>,
    pub return_parameter: Option<ParameterRecord>,
    pub attributes: Vec<String>,
}

/// Everything that is compared about one type definition.
#[derive(Clone, Debug, PartialEq, Eq)]
pub struct TypeRecord {
    pub category: String,
    pub flags: u32,
    pub extends: Option<String>,
    pub interfaces: Vec<String>,
    pub layout: Option<(u16, u32)>,
    pub fields: Vec<FieldRecord>,
    pub methods: Vec<MethodRecord>,
    pub attributes: Vec<String>,
    pub agile: bool,
    pub guid: Option<String>,
}

/// Model of a [`ParameterRecord`]: strings as character sequences.
pub struct ParameterModel {
    pub flags: u16,
    pub direction: Seq<char>,
    pub optional: bool,
    pub retval: bool,
    pub attributes: Seq<Seq<char>>,
}

/// Model of a [`FieldRecord`].
pub struct FieldModel {
    pub name: Seq<char>,
    pub ty: Seq<char>,
    pub flags: u16,
    pub constant: Option<Seq<char>>,
    pub attributes: Seq<Seq<char>>,
}

/// Model of a [`MethodRecord`].
pub struct MethodModel {
    pub name: Seq<char>,
    pub flags: u16,
    pub impl_flags: u16,
    pub calling_convention: Seq<char>,
    pub signature: Seq<char>,
    pub parameters: Seq<ParameterModel>,
    pub return_parameter: Option<ParameterModel>,
    pub attributes: Seq<Seq<char>>,
}

/// Model of a [`TypeRecord`].
pub struct TypeModel {
    pub category: Seq<char>,
    pub flags: u32,
    pub extends: Option<Seq<char>>,
    pub interfaces: Seq<Seq<char>>,
    pub layout: Option<(u16, u32)>,
    pub fields: Seq<FieldModel>,
    pub methods: Seq<MethodModel>,
    pub attributes: Seq<Seq<char>>,
    pub agile: bool,
    pub guid: Option<Seq<char>>,
}

/// Models of a list of parameter records.
pub closed spec fn parameter_models(v: Seq<ParameterRecord>) -> Seq<ParameterModel> {
    v.map_values(|p: ParameterRecord| p.deep_view())
}

/// Models of a list of field records.
pub closed spec fn field_models(v: Seq<FieldRecord>) -> Seq<FieldModel> {
    v.map_values(|f: FieldRecord| f.deep_view())
}

/// Models of a list of method records.
pub closed spec fn method_models(v: Seq<MethodRecord>) -> Seq<MethodModel> {
    v.map_values(|m: MethodRecord| m.deep_view())
}

/// The models of a method list are the methods' models, in order.
pub proof fn lemma_method_models(v: Seq<MethodRecord>)
    ensures
        method_models(v).len() == v.len(),
        forall|i: int| 0 <= i < v.len() ==> #[trigger] method_models(v)[i] == v[i].deep_view(),
{
}

/// The models of a field list are the fields' models, in order.
pub proof fn lemma_field_models(v: Seq<FieldRecord>)
    ensures
        field_models(v).len() == v.len(),
        forall|i: int| 0 <= i < v.len() ==> #[trigger] field_models(v)[i] == v[i].deep_view(),
{
}

/// The models of a parameter list are the parameters' models, in order.
pub proof fn lemma_parameter_models(v: Seq<ParameterRecord>)
    ensures
        parameter_models(v).len() == v.len(),
        forall|i: int| 0 <= i < v.len() ==> #[trigger] parameter_models(v)[i] == v[i].deep_view(),
{
}

impl DeepView for ParameterRecord {
    type V = ParameterModel;

    open spec fn deep_view(&self) -> ParameterModel {
        ParameterModel {
            flags: self.flags,
            direction: self.direction@,
            optional: self.optional,
            retval: self.retval,
            attributes: self.attributes.deep_view(),
        }
    }
}

impl DeepView for FieldRecord {
    type V = FieldModel;

    open spec fn deep_view(&self) -> FieldModel {
        FieldModel {
            name: self.name@,
            ty: self.ty@,
            flags: self.flags,
            constant: self.constant.deep_view(),
            attributes: self.attributes.deep_view(),
        }
    }
}

impl DeepView for MethodRecord {
    type V = MethodModel;

    open spec fn deep_view(&self) -> MethodModel {
        MethodModel {
            name: self.name@,
            flags: self.flags,
            impl_flags: self.impl_flags,
            calling_convention: self.calling_convention@,
            signature: self.signature@,
            parameters: parameter_models(self.parameters@),
            return_parameter: self.return_parameter.deep_view(),
            attributes: self.attributes.deep_view(),
        }
    }
}

impl DeepView for TypeRecord {
    type V = TypeModel;

    open spec fn deep_view(&self) -> TypeModel {
        TypeModel {
            category: self.category@,
            flags: self.flags,
            extends: self.extends.deep_view(),
            interfaces: self.interfaces.deep_view(),
            layout: self.layout,
            fields: field_models(self.fields@),
            methods: method_models(self.methods@),
            attributes: self.attributes.deep_view(),
            agile: self.agile,
            guid: self.guid.deep_view(),
        }
    }
}

/// Whether two string lists hold the same strings in the same order.
pub fn strings_equal(a: &Vec<String>, b: &Vec<String>) -> (r: bool)
    ensures
        r == (a.deep_view() == b.deep_view()),
{
    if a.len() != b.len() {
        assert(a.deep_view().len() != b.deep_view().len());
        return false;
    }
    let mut i: usize = 0;
    while i < a.len()
        invariant
            a.len() == b.len(),
            i <= a.len(),
            forall|j: int| 0 <= j < i ==> a.deep_view()[j] == b.deep_view()[j],
        decreases a.len() - i,
    {
        if a[i] != b[i] {
            assert(a.deep_view()[i as int] != b.deep_view()[i as int]);
            return false;
        }
        i += 1;
    }
    assert(a.deep_view() =~= b.deep_view());
    true
}

/// Whether two optional strings are equal.
pub fn optional_strings_equal(a: &Option<String>, b: &Option<String>) -> (r: bool)
    ensures
        r == (a.deep_view() == b.deep_view()),
{
    match (a, b) {
        (Some(x), Some(y)) => *x == *y,
        (None, None) => true,
        _ => false,
    }
}

/// Whether two parameter records are equal.
pub fn parameters_equal(a: &ParameterRecord, b: &ParameterRecord) -> (r: bool)
    ensures
        r == (a.deep_view() == b.deep_view()),
{
    a.flags == b.flags && a.direction == b.direction && a.optional == b.optional && a.retval
        == b.retval && strings_equal(&a.attributes, &b.attributes)
}

/// Whether two optional parameter records are equal.
pub fn optional_parameters_equal(a: &Option<ParameterRecord>, b: &Option<ParameterRecord>) -> (r:
    bool)
    ensures
        r == (a.deep_view() == b.deep_view()),
{
    match (a, b) {
        (Some(x), Some(y)) => parameters_equal(x, y),
        (None, None) => true,
        _ => false,
    }
}

/// Whether two parameter lists are equal.
pub fn parameter_lists_equal(a: &Vec<ParameterRecord>, b: &Vec<ParameterRecord>) -> (r: bool)
    ensures
        r == (parameter_models(a@) == parameter_models(b@)),
{
    if a.len() != b.len() {
        assert(parameter_models(a@).len() != parameter_models(b@).len());
        return false;
    }
    let mut i: usize = 0;
    while i < a.len()
        invariant
            a.len() == b.len(),
            i <= a.len(),
            forall|j: int| 0 <= j < i ==> parameter_models(a@)[j] == parameter_models(b@)[j],
        decreases a.len() - i,
    {
        if !parameters_equal(&a[i], &b[i]) {
            assert(parameter_models(a@)[i as int] != parameter_models(b@)[i as int]);
            return false;
        }
        i += 1;
    }
    assert(parameter_models(a@) =~= parameter_models(b@));
    true
}

/// Whether two field records are equal.
pub fn fields_equal(a: &FieldRecord, b: &FieldRecord) -> (r: bool)
    ensures
        r == (a.deep_view() == b.deep_view()),
{
    a.name == b.name && a.ty == b.ty && a.flags == b.flags && optional_strings_equal(
        &a.constant,
        &b.constant,
    ) && strings_equal(&a.attributes, &b.attributes)
}

/// Whether two field lists are equal.
pub fn field_lists_equal(a: &Vec<FieldRecord>, b: &Vec<FieldRecord>) -> (r: bool)
    ensures
        r == (field_models(a@) == field_models(b@)),
{
    if a.len() != b.len() {
        assert(field_models(a@).len() != field_models(b@).len());
        return false;
    }
    let mut i: usize = 0;
    while i < a.len()
        invariant
            a.len() == b.len(),
            i <= a.len(),
            forall|j: int| 0 <= j < i ==> field_models(a@)[j] == field_models(b@)[j],
        decreases a.len() - i,
    {
        if !fields_equal(&a[i], &b[i]) {
            assert(field_models(a@)[i as int] != field_models(b@)[i as int]);
            return false;
        }
        i += 1;
    }
    assert(field_models(a@) =~= field_models(b@));
    true
}

/// Whether two method records are equal.
pub fn methods_equal(a: &MethodRecord, b: &MethodRecord) -> (r: bool)
    ensures
        r == (a.deep_view() == b.deep_view()),
{
    a.name == b.name && a.flags == b.flags && a.impl_flags == b.impl_flags && a.calling_convention
        == b.calling_convention && a.signature == b.signature && parameter_lists_equal(
        &a.parameters,
        &b.parameters,
    ) && optional_parameters_equal(&a.return_parameter, &b.return_parameter) && strings_equal(
        &a.attributes,
        &b.attributes,
    )
}

/// Whether two method lists are equal.
pub fn method_lists_equal(a: &Vec<MethodRecord>, b: &Vec<MethodRecord>) -> (r: bool)
    ensures
        r == (method_models(a@) == method_models(b@)),
{
    if a.len() != b.len() {
        assert(method_models(a@).len() != method_models(b@).len());
        return false;
    }
    let mut i: usize = 0;
    while i < a.len()
        invariant
            a.len() == b.len(),
            i <= a.len(),
            forall|j: int| 0 <= j < i ==> method_models(a@)[j] == method_models(b@)[j],
        decreases a.len() - i,
    {
        if !methods_equal(&a[i], &b[i]) {
            assert(method_models(a@)[i as int] != method_models(b@)[i as int]);
            return false;
        }
        i += 1;
    }
    assert(method_models(a@) =~= method_models(b@));
    true
}

/// Whether two optional layouts are equal.
pub fn layouts_equal(a: &Option<(u16, u32)>, b: &Option<(u16, u32)>) -> (r: bool)
    ensures
        r == (*a == *b),
{
    match (a, b) {
        (Some(x), Some(y)) => x.0 == y.0 && x.1 == y.1,
        (None, None) => true,
        _ => false,
    }
}

/// Whether two type records are equal in every field.
pub fn type_records_equal(a: &TypeRecord, b: &TypeRecord) -> (r: bool)
    ensures
        r == (a.deep_view() == b.deep_view()),
{
    a.category == b.category && a.flags == b.flags && optional_strings_equal(&a.extends, &b.extends)
        && strings_equal(&a.interfaces, &b.interfaces) && layouts_equal(&a.layout, &b.layout)
        && field_lists_equal(&a.fields, &b.fields) && method_lists_equal(&a.methods, &b.methods)
        && strings_equal(&a.attributes, &b.attributes) && a.agile == b.agile
        && optional_strings_equal(&a.guid, &b.guid)
}

} // verus!
