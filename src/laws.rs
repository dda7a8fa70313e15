//! What holds of every schema and every argument list, stated over the specifications
//! that the parsing functions meet.
use vstd::prelude::*;
use crate::tokens::{Attribute, Delimiter, Token, attr_named};
use crate::schema::{FieldSpec, Schema, marker_value, schema_name_of};
use crate::args::{
    Entry, ParseError, SlotView, assemble, find_field, first_missing, is_missing, parse_spec, setting,
    slot_of, split, lemma_find_field_range,
};
use crate::lookup::{first_named, lookup_spec, lemma_first_named_prefix};
use crate::outside::snake_case_of;

verus! {

/// Whether the entry `e` sets field `i`.
pub open spec fn names(fields: Seq<FieldSpec>, e: Entry, i: int) -> bool {
    find_field(fields, e.key) == Some(i)
}

/// Whether some entry of `es` sets field `i`.
pub open spec fn named_anywhere(fields: Seq<FieldSpec>, es: Seq<Entry>, i: int) -> bool {
    exists|j: int| 0 <= j < es.len() && names(fields, #[trigger] es[j], i)
}

/// Whether no two entries of `es` have the same key.
pub open spec fn distinct_keys(es: Seq<Entry>) -> bool {
    forall|a: int, b: int| 0 <= a < es.len() && 0 <= b < es.len() && a != b ==> (#[trigger] es[a]).key != (#[trigger] es[b]).key
}

/// Whether the argument list `toks`, with the value extents `extents`, splits into the entries `es`.
pub open spec fn splits_into(fields: Seq<FieldSpec>, extents: Seq<Seq<Option<usize>>>, toks: Seq<Token>, es: Seq<Entry>) -> bool {
    split(fields, extents, toks) == Ok::<Seq<Entry>, ParseError>(es)
}

/// What a parenthesized argument list `toks` parses to under `schema` with the value
/// extents `extents`.
pub open spec fn parse_list(schema: Schema, extents: Seq<Seq<Option<usize>>>, toks: Seq<Token>) -> Result<Seq<SlotView>, ParseError> {
    parse_spec(schema, extents, Some(Delimiter::Parenthesis), toks)
}

/// A field that no entry names is not set.
proof fn lemma_setting_none(fields: Seq<FieldSpec>, es: Seq<Entry>, i: int)
    requires
        !named_anywhere(fields, es, i),
    ensures
        setting(fields, es, i) is None,
    decreases es.len(),
{
    if es.len() > 0 {
        assert(names(fields, es[es.len() - 1], i) == false);
        assert forall|j: int| 0 <= j < es.len() - 1 implies !names(fields, #[trigger] es.drop_last()[j], i) by {
            assert(es.drop_last()[j] == es[j]);
        }
        lemma_setting_none(fields, es.drop_last(), i);
    }
}

/// A field is set to the value of the last entry that names it.
proof fn lemma_setting_last(fields: Seq<FieldSpec>, es: Seq<Entry>, i: int, j: int)
    requires
        0 <= j < es.len(),
        names(fields, es[j], i),
        forall|k: int| j < k < es.len() ==> !names(fields, #[trigger] es[k], i),
    ensures
        setting(fields, es, i) == Some(es[j].value),
    decreases es.len(),
{
    if j < es.len() - 1 {
        assert(!names(fields, es[es.len() - 1], i));
        assert forall|k: int| j < k < es.len() - 1 implies !names(fields, #[trigger] es.drop_last()[k], i) by {
            assert(es.drop_last()[k] == es[k]);
        }
        lemma_setting_last(fields, es.drop_last(), i, j);
    }
}

/// A field that some entry names is set by the last entry that names it.
proof fn lemma_last_naming(fields: Seq<FieldSpec>, es: Seq<Entry>, i: int, j: int) -> (l: int)
    requires
        0 <= j < es.len(),
        names(fields, es[j], i),
    ensures
        j <= l < es.len(),
        names(fields, es[l], i),
        forall|k: int| l < k < es.len() ==> !names(fields, #[trigger] es[k], i),
        setting(fields, es, i) == Some(es[l].value),
    decreases es.len() - j,
{
    if exists|k: int| j < k < es.len() && names(fields, #[trigger] es[k], i) {
        let k = choose|k: int| j < k < es.len() && names(fields, #[trigger] es[k], i);
        lemma_last_naming(fields, es, i, k)
    } else {
        lemma_setting_last(fields, es, i, j);
        j
    }
}

/// Entry lists that set every field alike find the same missing field.
proof fn lemma_first_missing_alike(fields: Seq<FieldSpec>, es1: Seq<Entry>, es2: Seq<Entry>, n: int)
    requires
        n <= fields.len(),
        forall|i: int| 0 <= i < fields.len() ==> setting(fields, es1, i) == setting(fields, es2, i),
    ensures
        first_missing(fields, es1, n) == first_missing(fields, es2, n),
    decreases n,
{
    if n > 0 {
        lemma_first_missing_alike(fields, es1, es2, n - 1);
        assert(is_missing(fields, es1, n - 1) == is_missing(fields, es2, n - 1));
    }
}

/// Entry lists that set every field alike give the same instance.
proof fn lemma_assemble_alike(schema: Schema, es1: Seq<Entry>, es2: Seq<Entry>)
    requires
        forall|i: int| 0 <= i < schema.fields@.len() ==> setting(schema.fields@, es1, i) == setting(schema.fields@, es2, i),
    ensures
        assemble(schema, es1) == assemble(schema, es2),
{
    let fields = schema.fields@;
    lemma_first_missing_alike(fields, es1, es2, fields.len() as int);
    assert(Seq::new(fields.len(), |i: int| slot_of(fields[i].kind, setting(fields, es1, i)))
        =~= Seq::new(fields.len(), |i: int| slot_of(fields[i].kind, setting(fields, es2, i))));
}

/// A switch is present exactly where some entry of the list names it, wherever that entry stands.
pub proof fn law_switch_presence(schema: Schema, extents: Seq<Seq<Option<usize>>>, toks: Seq<Token>, es: Seq<Entry>, i: int)
    requires
        splits_into(schema.fields@, extents, toks, es),
        0 <= i < schema.fields@.len(),
        schema.fields@[i].kind is Switch,
        parse_list(schema, extents, toks) is Ok,
    ensures
        parse_list(schema, extents, toks)->Ok_0[i] == SlotView::Switch(named_anywhere(schema.fields@, es, i)),
{
    let fields = schema.fields@;
    if named_anywhere(fields, es, i) {
        let j = choose|j: int| 0 <= j < es.len() && names(fields, #[trigger] es[j], i);
        lemma_last_naming(fields, es, i, j);
    } else {
        lemma_setting_none(fields, es, i);
    }
}

/// An optional field is absent where no entry names it, and holds the value of the
/// entry that names it where exactly one does.
pub proof fn law_optional_value(schema: Schema, extents: Seq<Seq<Option<usize>>>, toks: Seq<Token>, es: Seq<Entry>, i: int)
    requires
        splits_into(schema.fields@, extents, toks, es),
        0 <= i < schema.fields@.len(),
        schema.fields@[i].kind is Optional,
        parse_list(schema, extents, toks) is Ok,
    ensures
        !named_anywhere(schema.fields@, es, i) ==> parse_list(schema, extents, toks)->Ok_0[i] == SlotView::Optional(None),
        forall|j: int| 0 <= j < es.len() && names(schema.fields@, #[trigger] es[j], i)
            && (forall|k: int| 0 <= k < es.len() && k != j ==> !names(schema.fields@, #[trigger] es[k], i))
            ==> parse_list(schema, extents, toks)->Ok_0[i] == SlotView::Optional(es[j].value),
{
    let fields = schema.fields@;
    if !named_anywhere(fields, es, i) {
        lemma_setting_none(fields, es, i);
    }
    assert forall|j: int| 0 <= j < es.len() && names(fields, #[trigger] es[j], i)
        && (forall|k: int| 0 <= k < es.len() && k != j ==> !names(fields, #[trigger] es[k], i))
        implies parse_list(schema, extents, toks)->Ok_0[i] == SlotView::Optional(es[j].value) by {
        lemma_setting_last(fields, es, i, j);
    }
}

/// A mandatory field that no entry names makes the parse fail with a missing-field
/// error, which names that field where every mandatory field before it is given;
/// a mandatory field that entries name holds the value of the last of them.
pub proof fn law_mandatory_field(schema: Schema, extents: Seq<Seq<Option<usize>>>, toks: Seq<Token>, es: Seq<Entry>, i: int)
    requires
        splits_into(schema.fields@, extents, toks, es),
        0 <= i < schema.fields@.len(),
        schema.fields@[i].kind is Mandatory,
    ensures
        !named_anywhere(schema.fields@, es, i) ==> {
            &&& first_missing(schema.fields@, es, schema.fields@.len() as int) matches Some(m)
            &&& m <= i
            &&& parse_list(schema, extents, toks) == Err::<Seq<SlotView>, ParseError>(
                ParseError::MissingField { schema_name: schema.name, field: schema.fields@[m].name },
            )
            &&& (forall|k: int| 0 <= k < i ==> !is_missing(schema.fields@, es, k)) ==> m == i
        },
        forall|j: int| 0 <= j < es.len() && names(schema.fields@, #[trigger] es[j], i)
            && (forall|k: int| j < k < es.len() ==> !names(schema.fields@, #[trigger] es[k], i))
            && parse_list(schema, extents, toks) is Ok
            ==> parse_list(schema, extents, toks)->Ok_0[i] == SlotView::Mandatory(es[j].value->Some_0),
{
    let fields = schema.fields@;
    if !named_anywhere(fields, es, i) {
        lemma_setting_none(fields, es, i);
        lemma_first_missing_found(fields, es, i, fields.len() as int);
    }
    assert forall|j: int| 0 <= j < es.len() && names(fields, #[trigger] es[j], i)
        && (forall|k: int| j < k < es.len() ==> !names(fields, #[trigger] es[k], i))
        && parse_list(schema, extents, toks) is Ok
        implies parse_list(schema, extents, toks)->Ok_0[i] == SlotView::Mandatory(es[j].value->Some_0) by {
        lemma_setting_last(fields, es, i, j);
    }
}

/// Where field `i` is missing, the first missing field stands at or before it, and is
/// `i` itself where no field before it is missing.
proof fn lemma_first_missing_found(fields: Seq<FieldSpec>, es: Seq<Entry>, i: int, n: int)
    requires
        0 <= i < n <= fields.len(),
        is_missing(fields, es, i),
    ensures
        first_missing(fields, es, n) matches Some(m) && m <= i && is_missing(fields, es, m),
        (forall|k: int| 0 <= k < i ==> !is_missing(fields, es, k)) ==> first_missing(fields, es, n) == Some(i),
    decreases n,
{
    if n - 1 > i {
        lemma_first_missing_found(fields, es, i, n - 1);
    } else {
        lemma_first_missing_before(fields, es, i);
    }
}

/// The first missing field among the first `n` is missing, and none before it is.
proof fn lemma_first_missing_before(fields: Seq<FieldSpec>, es: Seq<Entry>, n: int)
    requires
        0 <= n <= fields.len(),
    ensures
        first_missing(fields, es, n) matches Some(m) ==> 0 <= m < n && is_missing(fields, es, m),
        first_missing(fields, es, n) is None ==> forall|k: int| 0 <= k < n ==> !is_missing(fields, es, k),
    decreases n,
{
    if n > 0 {
        lemma_first_missing_before(fields, es, n - 1);
    }
}

/// Of two or more entries that set the same field, the last one's value is kept.
pub proof fn law_last_write_wins(schema: Schema, extents: Seq<Seq<Option<usize>>>, toks: Seq<Token>, es: Seq<Entry>, i: int, a: int, b: int)
    requires
        splits_into(schema.fields@, extents, toks, es),
        0 <= i < schema.fields@.len(),
        0 <= a < b < es.len(),
        names(schema.fields@, es[a], i),
        names(schema.fields@, es[b], i),
        forall|k: int| b < k < es.len() ==> !names(schema.fields@, #[trigger] es[k], i),
        parse_list(schema, extents, toks) is Ok,
    ensures
        parse_list(schema, extents, toks)->Ok_0[i] == slot_of(schema.fields@[i].kind, Some(es[b].value)),
{
    lemma_setting_last(schema.fields@, es, i, b);
}

/// Lists whose entries are the same, in another order, and have distinct keys parse
/// to the same instance, each list read with its own extent table.
pub proof fn law_order_independence(schema: Schema, extents1: Seq<Seq<Option<usize>>>, extents2: Seq<Seq<Option<usize>>>, toks1: Seq<Token>, toks2: Seq<Token>, es1: Seq<Entry>, es2: Seq<Entry>)
    requires
        splits_into(schema.fields@, extents1, toks1, es1),
        splits_into(schema.fields@, extents2, toks2, es2),
        es1.to_multiset() == es2.to_multiset(),
        distinct_keys(es1),
        distinct_keys(es2),
    ensures
        parse_list(schema, extents1, toks1) == parse_list(schema, extents2, toks2),
{
    let fields = schema.fields@;
    es1.to_multiset_ensures();
    es2.to_multiset_ensures();
    assert forall|e: Entry| es1.contains(e) <==> es2.contains(e) by {
        assert(es1.contains(e) <==> es1.to_multiset().count(e) > 0);
        assert(es2.contains(e) <==> es2.to_multiset().count(e) > 0);
    }
    assert forall|i: int| 0 <= i < fields.len() implies setting(fields, es1, i) == setting(fields, es2, i) by {
        lemma_setting_permuted(fields, es1, es2, i);
    }
    lemma_assemble_alike(schema, es1, es2);
}

/// With distinct keys, a field is set by the one entry that names it, so two such
/// lists with the same entries set it alike.
proof fn lemma_setting_permuted(fields: Seq<FieldSpec>, es1: Seq<Entry>, es2: Seq<Entry>, i: int)
    requires
        forall|e: Entry| es1.contains(e) <==> es2.contains(e),
        distinct_keys(es1),
        distinct_keys(es2),
    ensures
        setting(fields, es1, i) == setting(fields, es2, i),
{
    if named_anywhere(fields, es1, i) {
        let j = choose|j: int| 0 <= j < es1.len() && names(fields, #[trigger] es1[j], i);
        lemma_only_naming(fields, es1, i, j);
        assert(es2.contains(es1[j]));
        let j2 = choose|j2: int| 0 <= j2 < es2.len() && es2[j2] == es1[j];
        lemma_only_naming(fields, es2, i, j2);
    } else if named_anywhere(fields, es2, i) {
        let j = choose|j: int| 0 <= j < es2.len() && names(fields, #[trigger] es2[j], i);
        assert(es1.contains(es2[j]));
        let j1 = choose|j1: int| 0 <= j1 < es1.len() && es1[j1] == es2[j];
        assert(names(fields, es1[j1], i));
    } else {
        lemma_setting_none(fields, es1, i);
        lemma_setting_none(fields, es2, i);
    }
}

/// With distinct keys, the one entry that names a field sets it.
proof fn lemma_only_naming(fields: Seq<FieldSpec>, es: Seq<Entry>, i: int, j: int)
    requires
        0 <= j < es.len(),
        names(fields, es[j], i),
        distinct_keys(es),
    ensures
        setting(fields, es, i) == Some(es[j].value),
{
    assert forall|k: int| j < k < es.len() implies !names(fields, #[trigger] es[k], i) by {
        lemma_find_field_range(fields, es[k].key);
        lemma_find_field_range(fields, es[j].key);
    }
    lemma_setting_last(fields, es, i, j);
}

/// An entry that names no field sets nothing, wherever it stands first.
proof fn lemma_setting_unknown_first(fields: Seq<FieldSpec>, e: Entry, es: Seq<Entry>, i: int)
    requires
        find_field(fields, e.key) is None,
    ensures
        setting(fields, seq![e] + es, i) == setting(fields, es, i),
    decreases es.len(),
{
    if es.len() == 0 {
        assert((seq![e] + es).drop_last() =~= es);
    } else {
        assert((seq![e] + es).drop_last() =~= seq![e] + es.drop_last());
        assert((seq![e] + es).last() == es.last());
        lemma_setting_unknown_first(fields, e, es.drop_last(), i);
    }
}

/// An argument list that starts with an entry that names no field, followed by a
/// comma, parses as the list without that entry.
proof fn lemma_unknown_entry_first(schema: Schema, extents: Seq<Seq<Option<usize>>>, toks2: Seq<Token>, toks: Seq<Token>, e: Entry)
    requires
        find_field(schema.fields@, e.key) is None,
        split(schema.fields@, extents, toks2) == match split(schema.fields@, extents, toks) {
            Ok(es) => Ok(seq![e] + es),
            Err(x) => Err::<Seq<Entry>, ParseError>(x),
        },
    ensures
        parse_list(schema, extents, toks2) == parse_list(schema, extents, toks),
{
    if let Ok(es) = split(schema.fields@, extents, toks) {
        assert forall|i: int| 0 <= i < schema.fields@.len() implies setting(schema.fields@, seq![e] + es, i)
            == setting(schema.fields@, es, i) by {
            lemma_setting_unknown_first(schema.fields@, e, es, i);
        }
        lemma_assemble_alike(schema, seq![e] + es, es);
    }
}

/// An entry whose key names no field is skipped without error, as `key = value` with a
/// value of one token tree, or as a bare key. The extent table counts from the end of
/// the list, so one table serves the list with and without that entry.
pub proof fn law_unknown_key_skipped(schema: Schema, extents: Seq<Seq<Option<usize>>>, key: String, value: Token, toks: Seq<Token>)
    requires
        find_field(schema.fields@, key@) is None,
    ensures
        parse_list(schema, extents, seq![Token::Ident(key), Token::Punct('=', false), value, Token::Punct(',', false)] + toks)
            == parse_list(schema, extents, toks),
        parse_list(schema, extents, seq![Token::Ident(key), Token::Punct(',', false)] + toks) == parse_list(schema, extents, toks),
{
    let fields = schema.fields@;
    let with_value = seq![Token::Ident(key), Token::Punct('=', false), value, Token::Punct(',', false)] + toks;
    assert(with_value.skip(3) =~= seq![Token::Punct(',', false)] + toks);
    assert(with_value.skip(3).skip(1) =~= toks);
    assert(with_value.subrange(2, 3) =~= seq![value]);
    lemma_unknown_entry_first(schema, extents, with_value, toks, Entry { key: key@, value: Some(seq![value]) });
    let bare = seq![Token::Ident(key), Token::Punct(',', false)] + toks;
    assert(bare.skip(1) =~= seq![Token::Punct(',', false)] + toks);
    assert(bare.skip(1).skip(1) =~= toks);
    lemma_unknown_entry_first(schema, extents, bare, toks, Entry { key: key@, value: None });
}

/// An entry that names no field sets nothing, wherever it stands.
proof fn lemma_setting_unknown_inserted(fields: Seq<FieldSpec>, es: Seq<Entry>, k: int, e: Entry, i: int)
    requires
        0 <= k <= es.len(),
        find_field(fields, e.key) is None,
    ensures
        setting(fields, es.insert(k, e), i) == setting(fields, es, i),
    decreases es.len(),
{
    let with = es.insert(k, e);
    if k == es.len() {
        assert(with.drop_last() =~= es);
    } else {
        assert(with.last() == es.last());
        assert(with.drop_last() =~= es.drop_last().insert(k, e));
        lemma_setting_unknown_inserted(fields, es.drop_last(), k, e, i);
    }
}

/// A list whose entries are those of another with one more entry, whose key names no
/// field, at any place among them, parses to the same instance; each list is read
/// with its own extent table.
pub proof fn law_unknown_entry_anywhere(
    schema: Schema,
    extents1: Seq<Seq<Option<usize>>>,
    extents2: Seq<Seq<Option<usize>>>,
    toks1: Seq<Token>,
    toks2: Seq<Token>,
    es: Seq<Entry>,
    k: int,
    e: Entry,
)
    requires
        0 <= k <= es.len(),
        find_field(schema.fields@, e.key) is None,
        splits_into(schema.fields@, extents1, toks1, es.insert(k, e)),
        splits_into(schema.fields@, extents2, toks2, es),
    ensures
        parse_list(schema, extents1, toks1) == parse_list(schema, extents2, toks2),
{
    assert forall|i: int| 0 <= i < schema.fields@.len() implies setting(schema.fields@, es.insert(k, e), i)
        == setting(schema.fields@, es, i) by {
        lemma_setting_unknown_inserted(schema.fields@, es, k, e, i);
    }
    lemma_assemble_alike(schema, es.insert(k, e), es);
}

/// The last marker that gives a name decides the schema name; with none, the record's
/// name in snake case is taken.
pub proof fn law_last_marker_wins(record_name: Seq<char>, attrs: Seq<Attribute>)
    ensures
        forall|j: int| 0 <= j < attrs.len() && #[trigger] marker_value(attrs[j]) is Some
            && (forall|k: int| j < k < attrs.len() ==> marker_value(#[trigger] attrs[k]) is None)
            ==> schema_name_of(record_name, attrs) == marker_value(attrs[j])->Some_0,
        (forall|k: int| 0 <= k < attrs.len() ==> marker_value(#[trigger] attrs[k]) is None)
            ==> schema_name_of(record_name, attrs) == snake_case_of(record_name),
    decreases attrs.len(),
{
    if attrs.len() > 0 {
        let rest = attrs.drop_last();
        law_last_marker_wins(record_name, rest);
        assert forall|k: int| 0 <= k < rest.len() implies rest[k] == attrs[k] by {}
        assert forall|j: int| 0 <= j < attrs.len() && #[trigger] marker_value(attrs[j]) is Some
            && (forall|k: int| j < k < attrs.len() ==> marker_value(#[trigger] attrs[k]) is None)
            implies schema_name_of(record_name, attrs) == marker_value(attrs[j])->Some_0 by {
            if j < attrs.len() - 1 {
                assert(marker_value(attrs[attrs.len() - 1]) is None);
                assert(marker_value(rest[j]) is Some);
                assert forall|k: int| j < k < rest.len() implies marker_value(#[trigger] rest[k]) is None by {
                    assert(marker_value(attrs[k]) is None);
                }
            }
        }
        if forall|k: int| 0 <= k < attrs.len() ==> marker_value(#[trigger] attrs[k]) is None {
            assert(marker_value(attrs[attrs.len() - 1]) is None);
            assert forall|k: int| 0 <= k < rest.len() implies marker_value(#[trigger] rest[k]) is None by {
                assert(marker_value(attrs[k]) is None);
            }
        }
    }
}

/// No attribute among `attrs` carries `name`.
proof fn lemma_first_named_none(attrs: Seq<Attribute>, name: Seq<char>)
    requires
        forall|k: int| 0 <= k < attrs.len() ==> !attr_named(#[trigger] attrs[k], name),
    ensures
        first_named(attrs, name) is None,
    decreases attrs.len(),
{
    if attrs.len() > 0 {
        let rest = attrs.drop_last();
        assert(!attr_named(attrs[attrs.len() - 1], name));
        assert forall|k: int| 0 <= k < rest.len() implies !attr_named(#[trigger] rest[k], name) by {
            assert(rest[k] == attrs[k]);
        }
        lemma_first_named_none(rest, name);
    }
}

/// Lookup finds nothing, and that is no error, where no attribute carries the schema's
/// name; where some do, only the first of them is parsed.
pub proof fn law_lookup_first(schema: Schema, extents: Seq<Seq<Option<usize>>>, attrs: Seq<Attribute>)
    ensures
        (forall|k: int| 0 <= k < attrs.len() ==> !attr_named(#[trigger] attrs[k], schema.name@))
            ==> lookup_spec(schema, extents, attrs) == Ok::<Option<Seq<SlotView>>, ParseError>(None),
        forall|a: int| 0 <= a < attrs.len() && #[trigger] attr_named(attrs[a], schema.name@)
            && (forall|k: int| 0 <= k < a ==> !attr_named(#[trigger] attrs[k], schema.name@))
            ==> lookup_spec(schema, extents, attrs) == match parse_spec(schema, extents, attrs[a].delimiter, attrs[a].tokens@) {
                Ok(slots) => Ok(Some(slots)),
                Err(x) => Err::<Option<Seq<SlotView>>, ParseError>(x),
            },
{
    let name = schema.name@;
    if forall|k: int| 0 <= k < attrs.len() ==> !attr_named(#[trigger] attrs[k], name) {
        lemma_first_named_none(attrs, name);
    }
    assert forall|a: int| 0 <= a < attrs.len() && #[trigger] attr_named(attrs[a], name)
        && (forall|k: int| 0 <= k < a ==> !attr_named(#[trigger] attrs[k], name))
        implies first_named(attrs, name) == Some(a) by {
        let before = attrs.subrange(0, a);
        assert forall|k: int| 0 <= k < before.len() implies !attr_named(#[trigger] before[k], name) by {
            assert(before[k] == attrs[k]);
        }
        lemma_first_named_none(before, name);
        assert(attrs.subrange(0, a + 1).drop_last() =~= before);
        lemma_first_named_prefix(attrs, name, a + 1);
    }
}

} // verus!
