//! The argument-list interpreter: parses `(entry, entry, ...)` against a schema.
//!
//! An entry is a bare key (a switch) or `key = value`. The value of a field is as many
//! tokens as the parser of the field's type takes; that count comes from outside, as a
//! table of value extents. The value of a key that names no field is one token tree.
//! Entries may come in any order; a later entry for a key overrides an earlier one; an
//! entry whose key names no field is skipped; a trailing comma is allowed.
use vstd::prelude::*;
use crate::tokens::{Delimiter, Token, is_punct};
use crate::schema::{FieldKind, FieldSpec, Schema};

verus! {

/// Why an argument list is malformed.
#[derive(Clone, Copy, Debug, PartialEq, Eq, Structural)]
pub enum Malformed {
    /// The attribute's input is not one parenthesized group.
    NotParenthesized,
    /// An entry does not start with an identifier.
    ExpectedKey,
    /// A value-bearing key is not followed by `=`.
    ExpectedEq,
    /// The parser of the field's type rejects what follows `=`.
    BadValue,
    /// An entry is followed by something other than `,` or the end of the list.
    ExpectedComma,
}

/// Why parsing failed.
#[derive(Debug)]
pub enum ParseError {
    /// No attribute carries the schema's name.
    MissingAttribute { schema_name: String },
    /// The argument list breaks its grammar at the token `at` (`None`: at its end),
    /// which stands `remaining` tokens before the end of the list.
    Malformed { reason: Malformed, at: Option<Token>, remaining: usize },
    /// The list sets no value for the mandatory field `field`.
    MissingField { schema_name: String, field: String },
}

/// The parsed value of one field.
#[derive(Debug)]
pub enum Slot {
    /// Whether the switch was given.
    Switch(bool),
    /// The value tokens of an optional field, if given.
    Optional(Option<Vec<Token>>),
    /// The value tokens of a mandatory field.
    Mandatory(Vec<Token>),
}

/// A slot as plain sequences.
pub enum SlotView {
    Switch(bool),
    Optional(Option<Seq<Token>>),
    Mandatory(Seq<Token>),
}

/// The sequences that a slot holds.
pub open spec fn slot_view(s: Slot) -> SlotView {
    match s {
        Slot::Switch(b) => SlotView::Switch(b),
        Slot::Optional(v) => SlotView::Optional(
            match v {
                Some(t) => Some(t@),
                None => None,
            },
        ),
        Slot::Mandatory(t) => SlotView::Mandatory(t@),
    }
}

/// Whether the slots hold the sequences `views`.
pub open spec fn slots_are(slots: Seq<Slot>, views: Seq<SlotView>) -> bool {
    &&& slots.len() == views.len()
    &&& forall|i: int| 0 <= i < slots.len() ==> slot_view(#[trigger] slots[i]) == views[i]
}

/// One slot per field of the schema, in the schema's order.
#[derive(Debug)]
pub struct Instance {
    pub slots: Vec<Slot>,
}

/// One entry of an argument list: its key, and the value tokens after `=` if there are any.
pub struct Entry {
    pub key: Seq<char>,
    pub value: Option<Seq<Token>>,
}

/// The extent table: `extents[i][r]` is how many tokens the parser of field `i`'s value
/// type takes from a value that begins `r` tokens before the end of the argument list,
/// or `None` where that parser rejects those tokens. A missing row or cell reads as `None`.
pub open spec fn extent(extents: Seq<Seq<Option<usize>>>, i: int, r: int) -> Option<int> {
    if 0 <= i < extents.len() && 0 <= r < extents[i].len() {
        match extents[i][r] {
            Some(n) => Some(n as int),
            None => None,
        }
    } else {
        None
    }
}

/// The index of the first field named `key`.
pub open spec fn find_field(fields: Seq<FieldSpec>, key: Seq<char>) -> Option<int>
    decreases fields.len(),
{
    if fields.len() == 0 {
        None
    } else {
        match find_field(fields.drop_last(), key) {
            Some(i) => Some(i),
            None => if fields.last().name@ == key {
                Some(fields.len() - 1)
            } else {
                None
            },
        }
    }
}

/// The token at `i`, or `None` past the end.
pub open spec fn token_at(toks: Seq<Token>, i: int) -> Option<Token> {
    if 0 <= i < toks.len() {
        Some(toks[i])
    } else {
        None
    }
}

/// The error for a list `toks` that is malformed at its token `i` (or at its end).
pub open spec fn malformed_in(reason: Malformed, toks: Seq<Token>, i: int) -> ParseError {
    ParseError::Malformed { reason, at: token_at(toks, i), remaining: (toks.len() - i) as usize }
}

/// Reads `key = value` at the front of `toks`. For the field `field`, the value is as
/// many tokens as the extent table gives; for a key that names no field it is one token.
pub open spec fn read_value(
    key: Seq<char>,
    field: Option<int>,
    extents: Seq<Seq<Option<usize>>>,
    toks: Seq<Token>,
) -> Result<(Entry, int), ParseError> {
    if toks.len() < 2 || !is_punct(toks[1], '=') {
        Err(malformed_in(Malformed::ExpectedEq, toks, 1))
    } else {
        match field {
            None => if toks.len() < 3 {
                Err(malformed_in(Malformed::BadValue, toks, 2))
            } else {
                Ok((Entry { key, value: Some(toks.subrange(2, 3)) }, 3))
            },
            Some(i) => match extent(extents, i, toks.len() - 2) {
                Some(n) => if n <= toks.len() - 2 {
                    Ok((Entry { key, value: Some(toks.subrange(2, 2 + n)) }, 2 + n))
                } else {
                    Err(malformed_in(Malformed::BadValue, toks, 2))
                },
                None => Err(malformed_in(Malformed::BadValue, toks, 2)),
            },
        }
    }
}

/// Reads one entry at the front of `toks`: the entry and how many tokens it takes.
/// A key that names no field takes `= value` after it where `=` follows.
pub open spec fn read_entry(fields: Seq<FieldSpec>, extents: Seq<Seq<Option<usize>>>, toks: Seq<Token>) -> Result<
    (Entry, int),
    ParseError,
> {
    match toks[0] {
        Token::Ident(k) => match find_field(fields, k@) {
            Some(i) => match fields[i].kind {
                FieldKind::Switch => Ok((Entry { key: k@, value: None }, 1)),
                _ => read_value(k@, Some(i), extents, toks),
            },
            None => if toks.len() > 1 && is_punct(toks[1], '=') {
                read_value(k@, None, extents, toks)
            } else {
                Ok((Entry { key: k@, value: None }, 1))
            },
        },
        _ => Err(malformed_in(Malformed::ExpectedKey, toks, 0)),
    }
}

/// Splits the tokens inside the parentheses into entries, or finds the first fault.
pub open spec fn split(fields: Seq<FieldSpec>, extents: Seq<Seq<Option<usize>>>, toks: Seq<Token>) -> Result<Seq<Entry>, ParseError>
    decreases toks.len(),
{
    if toks.len() == 0 {
        Ok(Seq::empty())
    } else {
        match read_entry(fields, extents, toks) {
            Err(x) => Err(x),
            Ok((e, n)) => if 0 < n <= toks.len() {
                let rest = toks.skip(n);
                if rest.len() == 0 {
                    Ok(seq![e])
                } else if is_punct(rest[0], ',') {
                    match split(fields, extents, rest.skip(1)) {
                        Ok(es) => Ok(seq![e] + es),
                        Err(x) => Err(x),
                    }
                } else {
                    Err(malformed_in(Malformed::ExpectedComma, rest, 0))
                }
            } else {
                Ok(Seq::empty())
            },
        }
    }
}

/// The entries `done` followed by those of `r`, or the fault of `r`.
pub open spec fn prepend(done: Seq<Entry>, r: Result<Seq<Entry>, ParseError>) -> Result<
    Seq<Entry>,
    ParseError,
> {
    match r {
        Ok(es) => Ok(done + es),
        Err(x) => Err(x),
    }
}

/// What the last entry for field `i` set: `None` where no entry names it, else the
/// entry's value (`None` for a switch).
pub open spec fn setting(fields: Seq<FieldSpec>, es: Seq<Entry>, i: int) -> Option<Option<Seq<Token>>>
    decreases es.len(),
{
    if es.len() == 0 {
        None
    } else if find_field(fields, es.last().key) == Some(i) {
        Some(es.last().value)
    } else {
        setting(fields, es.drop_last(), i)
    }
}

/// Whether field `i` is mandatory and no entry gives it a value.
pub open spec fn is_missing(fields: Seq<FieldSpec>, es: Seq<Entry>, i: int) -> bool {
    fields[i].kind is Mandatory && !(setting(fields, es, i) matches Some(Some(_)))
}

/// The first of the first `n` fields that is missing.
pub open spec fn first_missing(fields: Seq<FieldSpec>, es: Seq<Entry>, n: int) -> Option<int>
    decreases n,
{
    if n <= 0 {
        None
    } else {
        match first_missing(fields, es, n - 1) {
            Some(i) => Some(i),
            None => if is_missing(fields, es, n - 1) {
                Some(n - 1)
            } else {
                None
            },
        }
    }
}

/// The slot of a field of kind `kind` that the entries set as `set`.
pub open spec fn slot_of(kind: FieldKind, set: Option<Option<Seq<Token>>>) -> SlotView {
    match kind {
        FieldKind::Switch => SlotView::Switch(set is Some),
        FieldKind::Optional => SlotView::Optional(
            match set {
                Some(Some(v)) => Some(v),
                _ => None,
            },
        ),
        FieldKind::Mandatory => SlotView::Mandatory(set->Some_0->Some_0),
    }
}

/// The instance that the entries `es` make of `schema`, or the first missing field.
pub open spec fn assemble(schema: Schema, es: Seq<Entry>) -> Result<Seq<SlotView>, ParseError> {
    let fields = schema.fields@;
    match first_missing(fields, es, fields.len() as int) {
        Some(i) => Err(ParseError::MissingField { schema_name: schema.name, field: fields[i].name }),
        None => Ok(Seq::new(fields.len(), |i: int| slot_of(fields[i].kind, setting(fields, es, i)))),
    }
}

/// What an attribute whose input has the delimiter `delimiter` and the tokens `toks`
/// parses to under `schema`, with the value extents `extents`.
pub open spec fn parse_spec(
    schema: Schema,
    extents: Seq<Seq<Option<usize>>>,
    delimiter: Option<Delimiter>,
    toks: Seq<Token>,
) -> Result<Seq<SlotView>, ParseError> {
    if delimiter != Some(Delimiter::Parenthesis) {
        Err(ParseError::Malformed { reason: Malformed::NotParenthesized, at: None, remaining: 0 })
    } else {
        match split(schema.fields@, extents, toks) {
            Ok(es) => assemble(schema, es),
            Err(x) => Err(x),
        }
    }
}

/// A field found among the first fields is found at the same index among all of them.
pub proof fn lemma_find_field_prefix(fields: Seq<FieldSpec>, key: Seq<char>, k: int)
    requires
        0 <= k <= fields.len(),
        find_field(fields.subrange(0, k), key) is Some,
    ensures
        find_field(fields, key) == find_field(fields.subrange(0, k), key),
    decreases fields.len() - k,
{
    if k < fields.len() {
        assert(fields.subrange(0, k + 1).drop_last() =~= fields.subrange(0, k));
        lemma_find_field_prefix(fields, key, k + 1);
    } else {
        assert(fields.subrange(0, k) =~= fields);
    }
}

/// A found field is a field of the schema, and carries the key as its name.
pub proof fn lemma_find_field_range(fields: Seq<FieldSpec>, key: Seq<char>)
    ensures
        find_field(fields, key) matches Some(i) ==> 0 <= i < fields.len() && fields[i].name@ == key,
    decreases fields.len(),
{
    if fields.len() > 0 {
        lemma_find_field_range(fields.drop_last(), key);
    }
}

/// The index of the first field named `key`.
pub fn find_field_exec(fields: &Vec<FieldSpec>, key: &String) -> (r: Option<usize>)
    ensures
        match r {
            Some(i) => find_field(fields@, key@) == Some(i as int),
            None => find_field(fields@, key@) is None,
        },
{
    let mut i: usize = 0;
    while i < fields.len()
        invariant
            i <= fields@.len(),
            find_field(fields@.subrange(0, i as int), key@) is None,
        decreases fields@.len() - i,
    {
        assert(fields@.subrange(0, i + 1).drop_last() =~= fields@.subrange(0, i as int));
        if fields[i].name == *key {
            proof {
                lemma_find_field_prefix(fields@, key@, i + 1);
            }
            return Some(i);
        }
        i = i + 1;
    }
    assert(fields@.subrange(0, fields@.len() as int) =~= fields@);
    None
}

/// The error for the list `toks` from `pos` on, malformed at its token `k` or at its end.
fn malformed_at(reason: Malformed, toks: &Vec<Token>, pos: usize, k: usize) -> (r: ParseError)
    requires
        pos <= toks@.len(),
        k <= toks@.len() - pos,
    ensures
        r == malformed_in(reason, toks@.skip(pos as int), k as int),
{
    let remaining = toks.len() - pos - k;
    let idx = toks.len() - remaining;
    if idx < toks.len() {
        assert(toks@.skip(pos as int)[k as int] == toks@[idx as int]);
        ParseError::Malformed { reason, at: Some(toks[idx].duplicate()), remaining }
    } else {
        ParseError::Malformed { reason, at: None, remaining }
    }
}

/// The cell of the extent table for field `i` and a value that begins `r` tokens before the end.
pub fn extent_exec(extents: &Vec<Vec<Option<usize>>>, i: usize, r: usize) -> (res: Option<usize>)
    ensures
        match res {
            Some(n) => extent(extents@.map_values(|row: Vec<Option<usize>>| row@), i as int, r as int) == Some(n as int),
            None => extent(extents@.map_values(|row: Vec<Option<usize>>| row@), i as int, r as int) is None,
        },
{
    let ghost table = extents@.map_values(|row: Vec<Option<usize>>| row@);
    if i < extents.len() && r < extents[i].len() {
        assert(table[i as int] == extents@[i as int]@);
        extents[i][r]
    } else {
        None
    }
}

/// The tokens of `toks` from `a` up to `b`.
pub fn copy_range(toks: &Vec<Token>, a: usize, b: usize) -> (r: Vec<Token>)
    requires
        a <= b <= toks@.len(),
    ensures
        r@ == toks@.subrange(a as int, b as int),
{
    let mut out: Vec<Token> = Vec::new();
    let mut k: usize = a;
    while k < b
        invariant
            a <= k <= b,
            b <= toks@.len(),
            out@ == toks@.subrange(a as int, k as int),
        decreases b - k,
    {
        out.push(toks[k].duplicate());
        k = k + 1;
        assert(out@ =~= toks@.subrange(a as int, k as int));
    }
    out
}

/// Whether the range `v` of `toks` stands for what the entries set, `s`.
pub open spec fn range_matches(v: Option<Option<(usize, usize)>>, toks: Seq<Token>, s: Option<Option<Seq<Token>>>) -> bool {
    match v {
        None => s is None,
        Some(None) => s == Some(None::<Seq<Token>>),
        Some(Some((a, b))) => a <= b <= toks.len() && s == Some(Some(toks.subrange(a as int, b as int))),
    }
}

/// Reads `= value` after the key at `pos`, for the field `field` or for a key that
/// names no field; gives the value's range and how many tokens the entry takes.
fn read_value_at(
    key: Ghost<Seq<char>>,
    field: Option<usize>,
    extents: &Vec<Vec<Option<usize>>>,
    toks: &Vec<Token>,
    pos: usize,
) -> (r: Result<((usize, usize), usize), ParseError>)
    requires
        pos < toks@.len(),
    ensures
        match (r, read_value(key@, match field { Some(i) => Some(i as int), None => None }, extents@.map_values(|row: Vec<Option<usize>>| row@), toks@.skip(pos as int))) {
            (Ok(((a, b), n)), Ok((e, m))) => {
                &&& a <= b <= toks@.len()
                &&& e.value == Some(toks@.subrange(a as int, b as int))
                &&& n == m
                &&& e.key == key@
            },
            (Err(x), Err(y)) => x == y,
            _ => false,
        },
{
    let ghost rest = toks@.skip(pos as int);
    if toks.len() - pos < 2 || !matches!(toks[pos + 1], Token::Punct('=', _)) {
        return Err(malformed_at(Malformed::ExpectedEq, toks, pos, 1));
    }
    match field {
        None => {
            if toks.len() - pos < 3 {
                return Err(malformed_at(Malformed::BadValue, toks, pos, 2));
            }
            assert(rest.subrange(2, 3) =~= toks@.subrange(pos + 2, pos + 3));
            Ok(((pos + 2, pos + 3), 3))
        },
        Some(i) => {
            let r = toks.len() - pos - 2;
            match extent_exec(extents, i, r) {
                Some(n) => {
                    if n <= r {
                        assert(rest.subrange(2, 2 + n) =~= toks@.subrange(pos + 2, pos + 2 + n));
                        Ok(((pos + 2, pos + 2 + n), 2 + n))
                    } else {
                        Err(malformed_at(Malformed::BadValue, toks, pos, 2))
                    }
                },
                None => Err(malformed_at(Malformed::BadValue, toks, pos, 2)),
            }
        },
    }
}

/// Reads the entry that starts at `pos`: the field that its key names, the range of
/// the value it sets, and how many tokens it takes.
fn read_entry_at(fields: &Vec<FieldSpec>, extents: &Vec<Vec<Option<usize>>>, toks: &Vec<Token>, pos: usize) -> (r: Result<
    (Option<usize>, Option<(usize, usize)>, usize),
    ParseError,
>)
    requires
        pos < toks@.len(),
    ensures
        match (r, read_entry(fields@, extents@.map_values(|row: Vec<Option<usize>>| row@), toks@.skip(pos as int))) {
            (Ok((f, v, n)), Ok((e, m))) => {
                &&& n == m
                &&& range_matches(Some(v), toks@, Some(e.value))
                &&& match f {
                    Some(i) => find_field(fields@, e.key) == Some(i as int),
                    None => find_field(fields@, e.key) is None,
                }
                &&& 0 < n <= toks@.len() - pos
            },
            (Err(x), Err(y)) => x == y,
            _ => false,
        },
{
    let ghost rest = toks@.skip(pos as int);
    assert(rest[0] == toks@[pos as int]);
    match &toks[pos] {
        Token::Ident(k) => {
            let f = find_field_exec(fields, k);
            proof {
                lemma_find_field_range(fields@, k@);
            }
            match f {
                Some(i) => match fields[i].kind {
                    FieldKind::Switch => Ok((f, None, 1)),
                    _ => match read_value_at(Ghost(k@), Some(i), extents, toks, pos) {
                        Ok((v, n)) => Ok((f, Some(v), n)),
                        Err(x) => Err(x),
                    },
                },
                None => {
                    if toks.len() - pos > 1 && matches!(toks[pos + 1], Token::Punct('=', _)) {
                        assert(rest[1] == toks@[pos + 1]);
                        match read_value_at(Ghost(k@), None, extents, toks, pos) {
                            Ok((v, n)) => Ok((f, Some(v), n)),
                            Err(x) => Err(x),
                        }
                    } else {
                        assert(pos + 1 < toks@.len() ==> rest[1] == toks@[pos + 1]);
                        Ok((f, None, 1))
                    }
                },
            }
        },
        _ => Err(malformed_at(Malformed::ExpectedKey, toks, pos, 0)),
    }
}

/// What the entries `done` followed by `e` set for field `i`.
proof fn lemma_setting_push(fields: Seq<FieldSpec>, done: Seq<Entry>, e: Entry, i: int)
    ensures
        setting(fields, done.push(e), i) == if find_field(fields, e.key) == Some(i) {
            Some(e.value)
        } else {
            setting(fields, done, i)
        },
{
    assert(done.push(e).drop_last() =~= done);
}

/// Reads all entries inside the parentheses, keeping for each field the range of
/// what the last entry that names it set.
fn read_entries(fields: &Vec<FieldSpec>, extents: &Vec<Vec<Option<usize>>>, toks: &Vec<Token>) -> (r: Result<
    (Vec<Option<Option<(usize, usize)>>>, Ghost<Seq<Entry>>),
    ParseError,
>)
    ensures
        match (r, split(fields@, extents@.map_values(|row: Vec<Option<usize>>| row@), toks@)) {
            (Ok((vals, es)), Ok(es2)) => {
                &&& es@ == es2
                &&& vals@.len() == fields@.len()
                &&& forall|i: int| 0 <= i < fields@.len() ==> range_matches(#[trigger] vals@[i], toks@, setting(fields@, es@, i))
            },
            (Err(x), Err(y)) => x == y,
            _ => false,
        },
{
    let ghost table = extents@.map_values(|row: Vec<Option<usize>>| row@);
    let mut vals: Vec<Option<Option<(usize, usize)>>> = Vec::new();
    let mut k: usize = 0;
    while k < fields.len()
        invariant
            k <= fields@.len(),
            vals@.len() == k,
            forall|i: int| 0 <= i < k ==> vals@[i] is None,
        decreases fields@.len() - k,
    {
        vals.push(None);
        k = k + 1;
    }
    let ghost mut done: Seq<Entry> = Seq::empty();
    let mut pos: usize = 0;
    assert(toks@.skip(0) =~= toks@);
    assert forall|x: Seq<Entry>| (done + x) =~= x by {}
    while pos < toks.len()
        invariant
            pos <= toks@.len(),
            table == extents@.map_values(|row: Vec<Option<usize>>| row@),
            vals@.len() == fields@.len(),
            forall|i: int| 0 <= i < fields@.len() ==> range_matches(#[trigger] vals@[i], toks@, setting(fields@, done, i)),
            split(fields@, table, toks@) == prepend(done, split(fields@, table, toks@.skip(pos as int))),
        decreases toks@.len() - pos,
    {
        let ghost rest = toks@.skip(pos as int);
        let ghost before = done;
        match read_entry_at(fields, extents, toks, pos) {
            Err(x) => {
                return Err(x);
            },
            Ok((f, v, n)) => {
                let ghost e = read_entry(fields@, table, rest)->Ok_0.0;
                proof {
                    lemma_find_field_range(fields@, e.key);
                }
                match f {
                    Some(i) => {
                        vals[i] = Some(v);
                    },
                    None => {},
                }
                proof {
                    assert forall|j: int| 0 <= j < fields@.len() implies range_matches(#[trigger] vals@[j], toks@, setting(
                        fields@,
                        done.push(e),
                        j,
                    )) by {
                        lemma_setting_push(fields@, done, e, j);
                    }
                    done = done.push(e);
                }
                let next = pos + n;
                assert(rest.skip(n as int) =~= toks@.skip(next as int));
                if next == toks.len() {
                    pos = next;
                    assert(toks@.skip(pos as int).len() == 0);
                    assert(done + Seq::<Entry>::empty() =~= done);
                    assert(before + seq![e] =~= done);
                } else if matches!(toks[next], Token::Punct(',', _)) {
                    pos = next + 1;
                    assert(rest.skip(n as int).skip(1) =~= toks@.skip(pos as int));
                    assert(rest.skip(n as int)[0] == toks@[next as int]);
                    assert forall|x: Seq<Entry>| (before + (seq![e] + x)) =~= (done + x) by {}
                    assert(prepend(before, split(fields@, table, rest)) == prepend(done, split(fields@, table, toks@.skip(pos as int))));
                } else {
                    assert(rest.skip(n as int)[0] == toks@[next as int]);
                    return Err(malformed_at(Malformed::ExpectedComma, toks, next, 0));
                }
            },
        }
    }
    assert(toks@.skip(pos as int).len() == 0);
    assert(done + Seq::<Entry>::empty() =~= done);
    Ok((vals, Ghost(done)))
}

/// Once found among the first `k` fields, the first missing field stays the first.
proof fn lemma_first_missing_stays(fields: Seq<FieldSpec>, es: Seq<Entry>, k: int, n: int)
    requires
        0 <= k <= n,
        first_missing(fields, es, k) is Some,
    ensures
        first_missing(fields, es, n) == first_missing(fields, es, k),
    decreases n - k,
{
    if k < n {
        lemma_first_missing_stays(fields, es, k, n - 1);
    }
}

/// Turns what the entries set into one slot per field, or reports the first
/// mandatory field that no entry gave.
fn assemble_exec(schema: &Schema, toks: &Vec<Token>, vals: &Vec<Option<Option<(usize, usize)>>>, es: Ghost<Seq<Entry>>) -> (r: Result<
    Instance,
    ParseError,
>)
    requires
        vals@.len() == schema.fields@.len(),
        forall|i: int| 0 <= i < schema.fields@.len() ==> range_matches(#[trigger] vals@[i], toks@, setting(schema.fields@, es@, i)),
    ensures
        match (r, assemble(*schema, es@)) {
            (Ok(inst), Ok(slots)) => slots_are(inst.slots@, slots),
            (Err(x), Err(y)) => x == y,
            _ => false,
        },
{
    let ghost fields = schema.fields@;
    let mut slots: Vec<Slot> = Vec::new();
    let mut i: usize = 0;
    while i < schema.fields.len()
        invariant
            fields == schema.fields@,
            i <= fields.len(),
            vals@.len() == fields.len(),
            forall|j: int| 0 <= j < fields.len() ==> range_matches(#[trigger] vals@[j], toks@, setting(fields, es@, j)),
            first_missing(fields, es@, i as int) is None,
            slots@.len() == i,
            forall|j: int| 0 <= j < i ==> slot_view(#[trigger] slots@[j]) == slot_of(fields[j].kind, setting(fields, es@, j)),
        decreases fields.len() - i,
    {
        assert(range_matches(vals@[i as int], toks@, setting(fields, es@, i as int)));
        let slot = match (schema.fields[i].kind, vals[i]) {
            (FieldKind::Switch, set) => Slot::Switch(set.is_some()),
            (FieldKind::Optional, Some(Some((a, b)))) => Slot::Optional(Some(copy_range(toks, a, b))),
            (FieldKind::Optional, _) => Slot::Optional(None),
            (FieldKind::Mandatory, Some(Some((a, b)))) => Slot::Mandatory(copy_range(toks, a, b)),
            (FieldKind::Mandatory, _) => {
                assert(first_missing(fields, es@, i + 1) == Some(i as int));
                proof {
                    lemma_first_missing_stays(fields, es@, i + 1, fields.len() as int);
                }
                return Err(ParseError::MissingField {
                    schema_name: schema.name.clone(),
                    field: schema.fields[i].name.clone(),
                });
            },
        };
        slots.push(slot);
        i = i + 1;
    }
    Ok(Instance { slots })
}

impl Schema {
    /// Parses an attribute's input, given as the delimiter of its group and the tokens
    /// inside, into one slot per field. `extents` gives, for each field and each place
    /// a value may begin, how many tokens the parser of the field's type takes there.
    pub fn parse_args(&self, extents: &Vec<Vec<Option<usize>>>, delimiter: Option<Delimiter>, toks: &Vec<Token>) -> (r: Result<
        Instance,
        ParseError,
    >)
        ensures
            match (r, parse_spec(*self, extents@.map_values(|row: Vec<Option<usize>>| row@), delimiter, toks@)) {
                (Ok(inst), Ok(slots)) => slots_are(inst.slots@, slots),
                (Err(x), Err(y)) => x == y,
                _ => false,
            },
    {
        if !matches!(delimiter, Some(Delimiter::Parenthesis)) {
            return Err(ParseError::Malformed { reason: Malformed::NotParenthesized, at: None, remaining: 0 });
        }
        match read_entries(&self.fields, extents, toks) {
            Ok((vals, es)) => assemble_exec(self, toks, &vals, es),
            Err(x) => Err(x),
        }
    }
}

} // verus!
