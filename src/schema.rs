//! From a record's declared fields to the schema that its attribute is parsed against.
use vstd::prelude::*;
use crate::tokens::{Attribute, Delimiter, Token, text_is};
use vstd::string::StrSliceExecFns;
use crate::outside::{snake_case, snake_case_of, lit_str_value, lit_str_value_of};

verus! {

/// A declared type, as far as classification reads it.
#[derive(Debug)]
pub enum TypeExpr {
    /// A path such as `std::option::Option<T>`.
    Path(Vec<PathSegment>),
    /// A tuple type; `()` is the tuple with no element.
    Tuple(Vec<TypeExpr>),
    /// Any other form of type.
    Other,
}

/// One segment of a type path, with its angle-bracketed arguments.
/// A segment written with parenthesized arguments holds one `GenericArg::Other`.
#[derive(Debug)]
pub struct PathSegment {
    pub ident: String,
    pub args: Vec<GenericArg>,
}

/// One generic argument of a path segment.
#[derive(Debug)]
pub enum GenericArg {
    Type(TypeExpr),
    /// A lifetime, a constant, a binding or a parenthesized argument list.
    Other,
}

/// How a field is given in an argument list.
#[derive(Clone, Copy, Debug, PartialEq, Eq, Structural)]
pub enum FieldKind {
    /// A bare key, present or absent.
    Switch,
    /// `key = value`, which may be left out; the value is read by the parser of `T` in `Option<T>`.
    Optional,
    /// `key = value`, which must be given; the value is read by the parser of the field's type.
    Mandatory,
}

/// One declared field of a record.
#[derive(Debug)]
pub struct FieldDecl {
    pub name: Option<String>,
    pub ty: TypeExpr,
}

/// A record declaration: its name, its attributes and its fields in order.
#[derive(Debug)]
pub struct RecordDecl {
    pub name: String,
    pub attrs: Vec<Attribute>,
    pub fields: Vec<FieldDecl>,
}

/// One field of a schema.
#[derive(Debug)]
pub struct FieldSpec {
    pub name: String,
    pub kind: FieldKind,
}

/// The name that selects the attribute, and the fields of its argument list.
#[derive(Debug)]
pub struct Schema {
    pub name: String,
    pub fields: Vec<FieldSpec>,
}

/// Why a record cannot be analyzed.
#[derive(Clone, Copy, Debug, PartialEq, Eq, Structural)]
pub enum DeclError {
    /// The field at `index` has no name.
    AnonymousField { index: usize },
}

/// The last segment of a path type.
pub open spec fn last_segment(ty: TypeExpr) -> Option<PathSegment> {
    match ty {
        TypeExpr::Path(segs) => if segs@.len() > 0 { Some(segs@.last()) } else { None },
        _ => None,
    }
}

/// The `T` of a type whose last path segment is `Option<T>`, with exactly one type argument.
pub open spec fn option_arg(ty: TypeExpr) -> Option<TypeExpr> {
    match last_segment(ty) {
        Some(seg) => if seg.ident@ == "Option"@ && seg.args@.len() == 1 {
            match seg.args@[0] {
                GenericArg::Type(inner) => Some(inner),
                GenericArg::Other => None,
            }
        } else {
            None
        },
        None => None,
    }
}

/// Whether the type is `()`.
pub open spec fn is_unit(ty: TypeExpr) -> bool {
    ty matches TypeExpr::Tuple(elems) && elems@.len() == 0
}

/// The classification of a field of type `ty`: `Option<()>` is a switch, `Option<T>`
/// is optional, and any other type is mandatory.
pub open spec fn kind_of(ty: TypeExpr) -> FieldKind {
    match option_arg(ty) {
        Some(inner) => if is_unit(inner) {
            FieldKind::Switch
        } else {
            FieldKind::Optional
        },
        None => FieldKind::Mandatory,
    }
}

/// The name of the marker attribute that overrides a schema's name.
pub open spec fn marker_name() -> Seq<char> {
    "bae"@
}

/// Whether a literal's text starts as a string or raw string literal does.
pub open spec fn starts_as_string(t: Seq<char>) -> bool {
    t.len() > 0 && (t[0] == '"' || t[0] == 'r')
}

/// The text of the string literal in a marker `#[bae("...")]`, if `a` is one; its
/// group may be delimited by `()`, `[]` or `{}`.
pub open spec fn marker_literal(a: Attribute) -> Option<Seq<char>> {
    if a.name matches Some(n) && n@ == marker_name() && a.delimiter is Some && a.delimiter != Some(Delimiter::Invisible) && a.tokens@.len() == 1 {
        match a.tokens@[0] {
            Token::Literal(t) => if starts_as_string(t@) {
                Some(t@)
            } else {
                None
            },
            _ => None,
        }
    } else {
        None
    }
}

/// The name that a marker attribute gives, if `a` is a marker with a string literal.
pub open spec fn marker_value(a: Attribute) -> Option<Seq<char>> {
    match marker_literal(a) {
        Some(t) => lit_str_value_of(t),
        None => None,
    }
}

/// The name given by the last marker among `attrs` that gives one.
pub open spec fn last_override(attrs: Seq<Attribute>) -> Option<Seq<char>>
    decreases attrs.len(),
{
    if attrs.len() == 0 {
        None
    } else {
        match marker_value(attrs.last()) {
            Some(v) => Some(v),
            None => last_override(attrs.drop_last()),
        }
    }
}

/// A record's schema name: the last marker's literal, or the record's name in snake case.
pub open spec fn schema_name_of(record_name: Seq<char>, attrs: Seq<Attribute>) -> Seq<char> {
    match last_override(attrs) {
        Some(v) => v,
        None => snake_case_of(record_name),
    }
}

/// Whether the record's field at `i` and the schema's field at `i` agree.
pub open spec fn field_matches(d: FieldDecl, f: FieldSpec) -> bool {
    &&& d.name matches Some(n) && f.name == n
    &&& f.kind == kind_of(d.ty)
}

/// The last path segment of `ty`, if it is a path with at least one segment.
fn last_segment_exec(ty: &TypeExpr) -> (r: Option<&PathSegment>)
    ensures
        match r {
            Some(seg) => last_segment(*ty) == Some(*seg),
            None => last_segment(*ty) is None,
        },
{
    match ty {
        TypeExpr::Path(segs) => if segs.len() > 0 {
            Some(&segs[segs.len() - 1])
        } else {
            None
        },
        _ => None,
    }
}

/// The `T` of `Option<T>`, as `option_arg` states.
fn option_arg_exec(ty: &TypeExpr) -> (r: Option<&TypeExpr>)
    ensures
        match r {
            Some(inner) => option_arg(*ty) == Some(*inner),
            None => option_arg(*ty) is None,
        },
{
    match last_segment_exec(ty) {
        Some(seg) => if text_is(&seg.ident, "Option") && seg.args.len() == 1 {
            match &seg.args[0] {
                GenericArg::Type(inner) => Some(inner),
                GenericArg::Other => None,
            }
        } else {
            None
        },
        None => None,
    }
}

/// Classifies a field by its declared type.
pub fn classify(ty: &TypeExpr) -> (r: FieldKind)
    ensures
        r == kind_of(*ty),
{
    match option_arg_exec(ty) {
        Some(inner) => {
            let unit = match inner {
                TypeExpr::Tuple(elems) => elems.len() == 0,
                _ => false,
            };
            if unit {
                FieldKind::Switch
            } else {
                FieldKind::Optional
            }
        },
        None => FieldKind::Mandatory,
    }
}

/// The name that `a` gives as a marker, if it is one.
pub fn marker_override(a: &Attribute) -> (r: Option<String>)
    ensures
        match r {
            Some(v) => marker_value(*a) == Some(v@),
            None => marker_value(*a) is None,
        },
{
    let named = match &a.name {
        Some(n) => text_is(n, "bae"),
        None => false,
    };
    let delimited = match a.delimiter {
        Some(Delimiter::Invisible) => false,
        Some(_) => true,
        None => false,
    };
    if named && delimited && a.tokens.len() == 1 {
        match &a.tokens[0] {
            Token::Literal(t) => {
                let text = t.as_str();
                if text.unicode_len() > 0 && (text.get_char(0) == '"' || text.get_char(0) == 'r') {
                    lit_str_value(text)
                } else {
                    None
                }
            },
            _ => None,
        }
    } else {
        None
    }
}

/// Resolves a record's schema name from its name and its attributes.
pub fn schema_name(record_name: &String, attrs: &Vec<Attribute>) -> (r: String)
    ensures
        r@ == schema_name_of(record_name@, attrs@),
{
    let mut name = snake_case(record_name.as_str());
    let mut i: usize = 0;
    while i < attrs.len()
        invariant
            i <= attrs@.len(),
            name@ == schema_name_of(record_name@, attrs@.subrange(0, i as int)),
        decreases attrs@.len() - i,
    {
        let ghost before = attrs@.subrange(0, i as int);
        assert(attrs@.subrange(0, i + 1).drop_last() =~= before);
        assert(attrs@.subrange(0, i + 1).last() == attrs@[i as int]);
        match marker_override(&attrs[i]) {
            Some(v) => {
                name = v;
            },
            None => {},
        }
        i = i + 1;
    }
    assert(attrs@.subrange(0, attrs@.len() as int) =~= attrs@);
    name
}

impl Schema {
    /// Analyzes a record: resolves its schema name and classifies each field in order.
    /// Fails on the first field that has no name.
    pub fn from_record(record: &RecordDecl) -> (r: Result<Schema, DeclError>)
        ensures
            match r {
                Ok(s) => {
                    &&& s.name@ == schema_name_of(record.name@, record.attrs@)
                    &&& s.fields@.len() == record.fields@.len()
                    &&& forall|i: int| 0 <= i < s.fields@.len()
                        ==> field_matches(#[trigger] record.fields@[i], s.fields@[i])
                },
                Err(DeclError::AnonymousField { index }) => {
                    &&& index < record.fields@.len()
                    &&& record.fields@[index as int].name is None
                    &&& forall|j: int| 0 <= j < index ==> (#[trigger] record.fields@[j]).name is Some
                },
            },
    {
        let mut fields: Vec<FieldSpec> = Vec::new();
        let mut i: usize = 0;
        while i < record.fields.len()
            invariant
                i <= record.fields@.len(),
                fields@.len() == i,
                forall|j: int| 0 <= j < i
                    ==> field_matches(#[trigger] record.fields@[j], fields@[j]),
            decreases record.fields@.len() - i,
        {
            let d = &record.fields[i];
            match &d.name {
                Some(n) => {
                    fields.push(FieldSpec { name: n.clone(), kind: classify(&d.ty) });
                },
                None => {
                    assert forall|j: int| 0 <= j < i implies (#[trigger] record.fields@[j]).name is Some by {
                        assert(field_matches(record.fields@[j], fields@[j]));
                    }
                    return Err(DeclError::AnonymousField { index: i });
                },
            }
            i = i + 1;
        }
        let name = schema_name(&record.name, &record.attrs);
        Ok(Schema { name, fields })
    }
}

} // verus!
