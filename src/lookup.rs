//! Finding the attribute that carries a schema's name, and parsing it.
use vstd::prelude::*;
use crate::tokens::{Attribute, attr_named, has_name};
use crate::schema::Schema;
use crate::args::{Instance, ParseError, SlotView, parse_spec, slots_are};

verus! {

/// The index of the first attribute named `name`.
pub open spec fn first_named(attrs: Seq<Attribute>, name: Seq<char>) -> Option<int>
    decreases attrs.len(),
{
    if attrs.len() == 0 {
        None
    } else {
        match first_named(attrs.drop_last(), name) {
            Some(i) => Some(i),
            None => if attr_named(attrs.last(), name) {
                Some(attrs.len() - 1)
            } else {
                None
            },
        }
    }
}

/// What looking up and parsing the schema's attribute among `attrs` gives:
/// `None` where no attribute carries the name, else the parse of the first that does,
/// with the value extents `extents` of that attribute's tokens.
pub open spec fn lookup_spec(schema: Schema, extents: Seq<Seq<Option<usize>>>, attrs: Seq<Attribute>) -> Result<Option<Seq<SlotView>>, ParseError> {
    match first_named(attrs, schema.name@) {
        None => Ok(None),
        Some(i) => match parse_spec(schema, extents, attrs[i].delimiter, attrs[i].tokens@) {
            Ok(slots) => Ok(Some(slots)),
            Err(x) => Err(x),
        },
    }
}

/// An attribute found among the first ones is found at the same index among all.
pub proof fn lemma_first_named_prefix(attrs: Seq<Attribute>, name: Seq<char>, k: int)
    requires
        0 <= k <= attrs.len(),
        first_named(attrs.subrange(0, k), name) is Some,
    ensures
        first_named(attrs, name) == first_named(attrs.subrange(0, k), name),
    decreases attrs.len() - k,
{
    if k < attrs.len() {
        assert(attrs.subrange(0, k + 1).drop_last() =~= attrs.subrange(0, k));
        lemma_first_named_prefix(attrs, name, k + 1);
    } else {
        assert(attrs.subrange(0, k) =~= attrs);
    }
}

/// A found attribute is one of the list, and carries the name.
pub proof fn lemma_first_named_range(attrs: Seq<Attribute>, name: Seq<char>)
    ensures
        first_named(attrs, name) matches Some(i) ==> 0 <= i < attrs.len() && attr_named(attrs[i], name),
        first_named(attrs, name) is None ==> forall|i: int| 0 <= i < attrs.len() ==> !attr_named(#[trigger] attrs[i], name),
    decreases attrs.len(),
{
    if attrs.len() > 0 {
        lemma_first_named_range(attrs.drop_last(), name);
        assert forall|i: int| 0 <= i < attrs.len() - 1 implies attrs.drop_last()[i] == attrs[i] by {}
    }
}

/// The index of the first attribute named `name`.
pub fn find_attr(attrs: &Vec<Attribute>, name: &String) -> (r: Option<usize>)
    ensures
        match r {
            Some(i) => first_named(attrs@, name@) == Some(i as int),
            None => first_named(attrs@, name@) is None,
        },
{
    let mut i: usize = 0;
    while i < attrs.len()
        invariant
            i <= attrs@.len(),
            first_named(attrs@.subrange(0, i as int), name@) is None,
        decreases attrs@.len() - i,
    {
        assert(attrs@.subrange(0, i + 1).drop_last() =~= attrs@.subrange(0, i as int));
        if has_name(&attrs[i], name) {
            proof {
                lemma_first_named_prefix(attrs@, name@, i + 1);
            }
            return Some(i);
        }
        i = i + 1;
    }
    assert(attrs@.subrange(0, attrs@.len() as int) =~= attrs@);
    None
}

impl Schema {
    /// The name of the attribute that this schema parses.
    pub fn attr_name(&self) -> (r: &String)
        ensures
            *r == self.name,
    {
        &self.name
    }

    /// Parses the first attribute among `attrs` that carries the schema's name, with the
    /// value extents `extents` of that attribute's tokens (see `Schema::parse_args`).
    /// Gives `Ok(None)` where none does; later attributes of that name are not read.
    pub fn try_from_attributes(&self, extents: &Vec<Vec<Option<usize>>>, attrs: &Vec<Attribute>) -> (r: Result<Option<Instance>, ParseError>)
        ensures
            match (r, lookup_spec(*self, extents@.map_values(|row: Vec<Option<usize>>| row@), attrs@)) {
                (Ok(None), Ok(None)) => true,
                (Ok(Some(inst)), Ok(Some(slots))) => slots_are(inst.slots@, slots),
                (Err(x), Err(y)) => x == y,
                _ => false,
            },
    {
        match find_attr(attrs, &self.name) {
            None => Ok(None),
            Some(i) => {
                proof {
                    lemma_first_named_range(attrs@, self.name@);
                }
                let a = &attrs[i];
                match self.parse_args(extents, a.delimiter, &a.tokens) {
                    Ok(inst) => Ok(Some(inst)),
                    Err(x) => Err(x),
                }
            },
        }
    }

    /// As `try_from_attributes`, but an attribute that is not there is an error that
    /// names the schema.
    pub fn from_attributes(&self, extents: &Vec<Vec<Option<usize>>>, attrs: &Vec<Attribute>) -> (r: Result<Instance, ParseError>)
        ensures
            match (r, lookup_spec(*self, extents@.map_values(|row: Vec<Option<usize>>| row@), attrs@)) {
                (Err(ParseError::MissingAttribute { schema_name }), Ok(None)) => schema_name == self.name,
                (Ok(inst), Ok(Some(slots))) => slots_are(inst.slots@, slots),
                (Err(x), Err(y)) => x == y,
                _ => false,
            },
    {
        match self.try_from_attributes(extents, attrs) {
            Ok(Some(inst)) => Ok(inst),
            Ok(None) => Err(ParseError::MissingAttribute { schema_name: self.name.clone() }),
            Err(x) => Err(x),
        }
    }
}

} // verus!
