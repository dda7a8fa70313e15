use better_bae::args::{Instance, Malformed, ParseError, Slot};
use better_bae::schema::{DeclError, FieldDecl, FieldKind, GenericArg, PathSegment, RecordDecl, Schema, TypeExpr};
use better_bae::tokens::{Attribute, Delimiter, Token};
use proc_macro2::{TokenStream, TokenTree};

type Measure = fn(&[TokenTree], usize) -> Option<usize>;

/// How many trees from `start` on the parser of `T` takes, or `None` where it fails.
fn measure<T: syn::parse::Parse>(trees: &[TokenTree], start: usize) -> Option<usize> {
    let ts: TokenStream = trees[start..].iter().cloned().collect();
    let total = trees.len() - start;
    let parser = |input: syn::parse::ParseStream| -> syn::Result<usize> {
        input.parse::<T>()?;
        let rest: TokenStream = input.parse()?;
        Ok(rest.into_iter().count())
    };
    syn::parse::Parser::parse2(parser, ts).ok().map(|left| total - left)
}

fn no_value(_: &[TokenTree], _: usize) -> Option<usize> {
    None
}

fn convert(t: &TokenTree) -> Token {
    match t {
        TokenTree::Ident(i) => Token::Ident(i.to_string()),
        TokenTree::Punct(p) => Token::Punct(p.as_char(), p.spacing() == proc_macro2::Spacing::Joint),
        TokenTree::Literal(l) => Token::Literal(l.to_string()),
        TokenTree::Group(g) => Token::Group(
            match g.delimiter() {
                proc_macro2::Delimiter::Parenthesis => Delimiter::Parenthesis,
                proc_macro2::Delimiter::Bracket => Delimiter::Bracket,
                proc_macro2::Delimiter::Brace => Delimiter::Brace,
                proc_macro2::Delimiter::None => Delimiter::Invisible,
            },
            g.stream().to_string(),
        ),
    }
}

/// The tokens of `src` and their extent table under the field parsers `measures`.
fn lex(src: &str, measures: &[Measure]) -> (Vec<Token>, Vec<Vec<Option<usize>>>) {
    let trees: Vec<TokenTree> = src.parse::<TokenStream>().unwrap().into_iter().collect();
    let n = trees.len();
    let table = measures.iter().map(|m| (0..=n).map(|r| m(&trees, n - r)).collect()).collect();
    (trees.iter().map(convert).collect(), table)
}

fn ident(s: &str) -> Token {
    Token::Ident(s.to_string())
}

fn lit(s: &str) -> Token {
    Token::Literal(s.to_string())
}

fn path(segs: &[&str]) -> TypeExpr {
    TypeExpr::Path(segs.iter().map(|s| PathSegment { ident: s.to_string(), args: vec![] }).collect())
}

fn generic(name: &str, arg: TypeExpr) -> TypeExpr {
    TypeExpr::Path(vec![PathSegment { ident: name.to_string(), args: vec![GenericArg::Type(arg)] }])
}

fn unit() -> TypeExpr {
    TypeExpr::Tuple(vec![])
}

fn field(name: &str, ty: TypeExpr) -> FieldDecl {
    FieldDecl { name: Some(name.to_string()), ty }
}

fn attr(name: &str, delimiter: Option<Delimiter>, tokens: Vec<Token>) -> Attribute {
    Attribute { name: Some(name.to_string()), delimiter, tokens }
}

fn paren(name: &str, tokens: Vec<Token>) -> Attribute {
    attr(name, Some(Delimiter::Parenthesis), tokens)
}

fn record(name: &str, attrs: Vec<Attribute>, fields: Vec<FieldDecl>) -> RecordDecl {
    RecordDecl { name: name.to_string(), attrs, fields }
}

const EXAMPLE: [Measure; 3] = [no_value, measure::<syn::Ident>, measure::<syn::Ident>];

/// `kind: Option<()>`, `name: Ident`, `label: Option<Ident>`.
fn example_schema() -> Schema {
    let r = record(
        "Schema",
        vec![],
        vec![
            field("kind", generic("Option", unit())),
            field("name", path(&["Ident"])),
            field("label", generic("Option", path(&["Ident"]))),
        ],
    );
    Schema::from_record(&r).unwrap()
}

fn is_ident(t: &Token, s: &str) -> bool {
    matches!(t, Token::Ident(x) if x == s)
}

fn parse_with(schema: &Schema, src: &str, measures: &[Measure]) -> Result<Instance, ParseError> {
    let (toks, table) = lex(src, measures);
    schema.parse_args(&table, Some(Delimiter::Parenthesis), &toks)
}

fn parse(schema: &Schema, src: &str) -> Result<Instance, ParseError> {
    parse_with(schema, src, &EXAMPLE)
}

/// An attribute `name(src)` and the extent table of its tokens.
fn attr_src(name: &str, src: &str) -> (Attribute, Vec<Vec<Option<usize>>>) {
    let (toks, table) = lex(src, &EXAMPLE);
    (paren(name, toks), table)
}

fn value_is(t: &Vec<Token>, s: &str) -> bool {
    t.len() == 1 && is_ident(&t[0], s)
}

fn malformed_reason(r: Result<Instance, ParseError>) -> Malformed {
    match r {
        Err(ParseError::Malformed { reason, .. }) => reason,
        other => panic!("expected a malformed-list error, got {:?}", other),
    }
}

#[test]
fn end_to_end_switch_and_mandatory() {
    let s = example_schema();
    assert_eq!(s.attr_name(), "schema");
    let (found, table) = attr_src("schema", "kind, name = foo");
    let attrs = vec![paren("doc", vec![ident("hidden")]), found];
    let inst = s.from_attributes(&table, &attrs).unwrap();
    assert_eq!(inst.slots.len(), 3);
    assert!(matches!(inst.slots[0], Slot::Switch(true)));
    assert!(matches!(&inst.slots[1], Slot::Mandatory(t) if value_is(t, "foo")));
    assert!(matches!(inst.slots[2], Slot::Optional(None)));
}

#[test]
fn end_to_end_all_fields_any_order() {
    let s = example_schema();
    let (found, table) = attr_src("schema", "name = foo, label = bar, kind");
    let inst = s.try_from_attributes(&table, &vec![found]).unwrap().unwrap();
    assert!(matches!(inst.slots[0], Slot::Switch(true)));
    assert!(matches!(&inst.slots[1], Slot::Mandatory(t) if value_is(t, "foo")));
    assert!(matches!(&inst.slots[2], Slot::Optional(Some(t)) if value_is(t, "bar")));
}

#[test]
fn end_to_end_missing_mandatory() {
    let s = example_schema();
    let (found, table) = attr_src("schema", "");
    match s.from_attributes(&table, &vec![found]) {
        Err(ParseError::MissingField { schema_name, field }) => {
            assert_eq!(schema_name, "schema");
            assert_eq!(field, "name");
        },
        other => panic!("unexpected {:?}", other),
    }
}

#[test]
fn end_to_end_missing_attribute() {
    let s = example_schema();
    let (other, table) = attr_src("other", "name = foo");
    let attrs = vec![other];
    assert!(matches!(s.try_from_attributes(&table, &attrs), Ok(None)));
    match s.from_attributes(&table, &attrs) {
        Err(ParseError::MissingAttribute { schema_name }) => assert_eq!(schema_name, "schema"),
        other => panic!("unexpected {:?}", other),
    }
    assert!(matches!(s.try_from_attributes(&vec![], &vec![]), Ok(None)));
}

#[test]
fn switch_absent_when_not_given() {
    let inst = parse(&example_schema(), "name = foo").unwrap();
    assert!(matches!(inst.slots[0], Slot::Switch(false)));
}

#[test]
fn switch_present_at_any_position() {
    let inst = parse(&example_schema(), "name = foo, kind,").unwrap();
    assert!(matches!(inst.slots[0], Slot::Switch(true)));
}

#[test]
fn optional_value_given() {
    let inst = parse(&example_schema(), "label = x, name = y").unwrap();
    assert!(matches!(&inst.slots[2], Slot::Optional(Some(t)) if value_is(t, "x")));
    assert!(matches!(&inst.slots[1], Slot::Mandatory(t) if value_is(t, "y")));
}

#[test]
fn order_of_entries_does_not_matter() {
    let s = example_schema();
    let a = parse(&s, "kind, label = l, name = n").unwrap();
    let b = parse(&s, "name = n, kind, label = l").unwrap();
    assert_eq!(format!("{:?}", a), format!("{:?}", b));
}

#[test]
fn last_write_wins() {
    let inst = parse(&example_schema(), "name = first, name = second").unwrap();
    assert!(matches!(&inst.slots[1], Slot::Mandatory(t) if value_is(t, "second")));
}

#[test]
fn unknown_keys_are_skipped() {
    let inst = parse(&example_schema(), "extra = (a + b), flag, name = foo, other = 3").unwrap();
    assert!(matches!(&inst.slots[1], Slot::Mandatory(t) if value_is(t, "foo")));
    assert!(matches!(inst.slots[0], Slot::Switch(false)));
}

#[test]
fn unknown_key_with_multi_token_value_is_an_error() {
    let r = parse(&example_schema(), "extra = a + b");
    assert_eq!(malformed_reason(r), Malformed::ExpectedComma);
}

#[test]
fn trailing_comma_is_accepted() {
    let inst = parse(&example_schema(), "name = foo,").unwrap();
    assert!(matches!(&inst.slots[1], Slot::Mandatory(t) if value_is(t, "foo")));
}

#[test]
fn argument_list_must_be_parenthesized() {
    let s = example_schema();
    let (toks, table) = lex("name = foo", &EXAMPLE);
    assert_eq!(malformed_reason(s.parse_args(&table, None, &toks)), Malformed::NotParenthesized);
    assert_eq!(
        malformed_reason(s.parse_args(&table, Some(Delimiter::Bracket), &toks)),
        Malformed::NotParenthesized
    );
    let attrs = vec![attr("schema", None, vec![])];
    assert!(matches!(
        s.from_attributes(&vec![], &attrs),
        Err(ParseError::Malformed { reason: Malformed::NotParenthesized, at: None, .. })
    ));
}

#[test]
fn entry_must_start_with_a_key() {
    let s = example_schema();
    let r = parse(&s, "= foo");
    assert!(matches!(
        r,
        Err(ParseError::Malformed { reason: Malformed::ExpectedKey, at: Some(Token::Punct('=', _)), .. })
    ));
    assert_eq!(malformed_reason(parse(&s, ",")), Malformed::ExpectedKey);
}

#[test]
fn value_key_needs_equals() {
    let s = example_schema();
    assert!(matches!(
        parse(&s, "kind, name foo, label = x"),
        Err(ParseError::Malformed { reason: Malformed::ExpectedEq, remaining: 5, .. })
    ));
    let r = parse(&s, "name foo");
    assert!(matches!(
        &r,
        Err(ParseError::Malformed { reason: Malformed::ExpectedEq, at: Some(t), .. }) if is_ident(t, "foo")
    ));
    let r = parse(&s, "name");
    assert!(matches!(r, Err(ParseError::Malformed { reason: Malformed::ExpectedEq, at: None, .. })));
}

#[test]
fn value_rejected_by_its_type() {
    let s = example_schema();
    let r = parse(&s, "name = \"foo\"");
    assert!(matches!(
        &r,
        Err(ParseError::Malformed { reason: Malformed::BadValue, at: Some(Token::Literal(t)), .. }) if t == "\"foo\""
    ));
    let r = parse(&s, "name =");
    assert!(matches!(r, Err(ParseError::Malformed { reason: Malformed::BadValue, at: None, .. })));
}

#[test]
fn bad_value_comes_before_missing_field() {
    let s = example_schema();
    let r = parse(&s, "label = 123");
    assert_eq!(malformed_reason(r), Malformed::BadValue);
}

#[test]
fn entries_need_commas_between_them() {
    let r = parse(&example_schema(), "kind name = foo");
    assert!(matches!(
        &r,
        Err(ParseError::Malformed { reason: Malformed::ExpectedComma, at: Some(t), .. }) if is_ident(t, "name")
    ));
}

#[test]
fn lookup_parses_only_the_first_match() {
    let s = example_schema();
    let (good, table) = attr_src("schema", "name = first");
    let bad = paren("schema", vec![Token::Punct(',', false)]);
    let inst = s.from_attributes(&table, &vec![good, bad]).unwrap();
    assert!(matches!(&inst.slots[1], Slot::Mandatory(t) if value_is(t, "first")));
    let (good, _) = attr_src("schema", "name = second");
    let bad = paren("schema", vec![Token::Punct(',', false)]);
    assert!(s.from_attributes(&vec![], &vec![bad, good]).is_err());
}

/// `ty: syn::Type`, `p: Option<syn::Path>`, `n: Option<syn::LitInt>`, `e: Option<syn::Expr>`.
fn typed_schema() -> (Schema, [Measure; 4]) {
    let r = record(
        "Typed",
        vec![],
        vec![
            field("ty", path(&["syn", "Type"])),
            field("p", generic("Option", path(&["syn", "Path"]))),
            field("n", generic("Option", path(&["syn", "LitInt"]))),
            field("e", generic("Option", path(&["syn", "Expr"]))),
        ],
    );
    (
        Schema::from_record(&r).unwrap(),
        [measure::<syn::Type>, measure::<syn::Path>, measure::<syn::LitInt>, measure::<syn::Expr>],
    )
}

fn text(t: &Vec<Token>) -> String {
    t.iter()
        .map(|x| match x {
            Token::Ident(s) | Token::Literal(s) => s.clone(),
            Token::Punct(c, _) => c.to_string(),
            Token::Group(_, s) => format!("({})", s),
        })
        .collect::<Vec<_>>()
        .join(" ")
}

#[test]
fn values_span_as_many_tokens_as_their_type_takes() {
    let (s, m) = typed_schema();
    let inst = parse_with(&s, "ty = Vec<u8>, p = a::b, n = -1, e = a + b", &m).unwrap();
    assert!(matches!(&inst.slots[0], Slot::Mandatory(t) if text(t) == "Vec < u8 >"));
    assert!(matches!(&inst.slots[1], Slot::Optional(Some(t)) if text(t) == "a : : b"));
    assert!(matches!(&inst.slots[2], Slot::Optional(Some(t)) if text(t) == "- 1"));
    assert!(matches!(&inst.slots[3], Slot::Optional(Some(t)) if text(t) == "a + b"));
}

#[test]
fn multi_token_values_last_write_wins() {
    let (s, m) = typed_schema();
    let inst = parse_with(&s, "ty = Vec<u8>, ty = Vec<u16>", &m).unwrap();
    assert!(matches!(&inst.slots[0], Slot::Mandatory(t) if text(t) == "Vec < u16 >"));
    assert!(matches!(inst.slots[1], Slot::Optional(None)));
}

#[test]
fn multi_token_values_with_missing_mandatory() {
    let (s, m) = typed_schema();
    match parse_with(&s, "p = a::b, n = -1", &m) {
        Err(ParseError::MissingField { field, .. }) => assert_eq!(field, "ty"),
        other => panic!("unexpected {:?}", other),
    }
    assert_eq!(malformed_reason(parse_with(&s, "ty = 123", &m)), Malformed::BadValue);
}

#[test]
fn schema_name_is_snake_case_of_record_name() {
    let r = record("MyAttr", vec![], vec![]);
    assert_eq!(Schema::from_record(&r).unwrap().name, "my_attr");
    let r = record("HTTPServerConfig", vec![], vec![]);
    assert_eq!(Schema::from_record(&r).unwrap().name, "http_server_config");
}

#[test]
fn last_marker_overrides_schema_name() {
    let attrs = vec![
        paren("bae", vec![lit("\"first\"")]),
        paren("other", vec![lit("\"ignored\"")]),
        paren("bae", vec![lit("\"second\"")]),
        paren("bae", vec![ident("not_a_literal")]),
        paren("bae", vec![lit("42")]),
        attr("bae", Some(Delimiter::Invisible), vec![lit("\"invisible\"")]),
        paren("bae", vec![lit("c\"cstr\"")]),
        paren("bae", vec![lit("b\"bytes\"")]),
    ];
    let r = record("MyAttr", attrs, vec![]);
    assert_eq!(Schema::from_record(&r).unwrap().name, "second");
}

#[test]
fn marker_literal_escapes_are_resolved() {
    let attrs = vec![attr("bae", Some(Delimiter::Bracket), vec![lit("\"a\\x62c\"")])];
    let r = record("MyAttr", attrs, vec![]);
    assert_eq!(Schema::from_record(&r).unwrap().name, "abc");
}

#[test]
fn fields_are_classified_by_type() {
    let r = record(
        "Opts",
        vec![],
        vec![
            field("a", generic("Option", unit())),
            field("b", generic("Option", path(&["syn", "LitStr"]))),
            field("c", generic("Vec", path(&["u8"]))),
            field("d", TypeExpr::Path(vec![
                PathSegment { ident: "std".to_string(), args: vec![] },
                PathSegment { ident: "option".to_string(), args: vec![] },
                PathSegment { ident: "Option".to_string(), args: vec![GenericArg::Type(unit())] },
            ])),
            field("e", path(&["Option"])),
            field("f", TypeExpr::Tuple(vec![path(&["u8"])])),
            field("h", TypeExpr::Other),
        ],
    );
    let s = Schema::from_record(&r).unwrap();
    let kinds: Vec<FieldKind> = s.fields.iter().map(|f| f.kind).collect();
    assert_eq!(
        kinds,
        vec![
            FieldKind::Switch,
            FieldKind::Optional,
            FieldKind::Mandatory,
            FieldKind::Switch,
            FieldKind::Mandatory,
            FieldKind::Mandatory,
            FieldKind::Mandatory,
        ]
    );
    assert_eq!(s.fields[3].name, "d");
}

#[test]
fn option_with_two_arguments_is_mandatory() {
    let ty = TypeExpr::Path(vec![PathSegment {
        ident: "Option".to_string(),
        args: vec![GenericArg::Type(unit()), GenericArg::Other],
    }]);
    let r = record("Opts", vec![], vec![field("a", ty)]);
    let s = Schema::from_record(&r).unwrap();
    assert_eq!(s.fields[0].kind, FieldKind::Mandatory);
}

#[test]
fn anonymous_field_is_a_declaration_error() {
    let r = record(
        "Opts",
        vec![],
        vec![field("a", unit()), FieldDecl { name: None, ty: unit() }, FieldDecl { name: None, ty: unit() }],
    );
    assert!(matches!(Schema::from_record(&r), Err(DeclError::AnonymousField { index: 1 })));
}

#[test]
fn lit_field_accepts_booleans() {
    let r = record("Opts", vec![], vec![field("x", path(&["syn", "Lit"]))]);
    let s = Schema::from_record(&r).unwrap();
    let inst = parse_with(&s, "x = true", &[measure::<syn::Lit>]).unwrap();
    assert!(matches!(&inst.slots[0], Slot::Mandatory(t) if value_is(t, "true")));
}

#[test]
fn raw_string_marker_overrides_schema_name() {
    let attrs = vec![paren("bae", vec![lit("r#\"raw_name\"#")])];
    let r = record("MyAttr", attrs, vec![]);
    assert_eq!(Schema::from_record(&r).unwrap().name, "raw_name");
}

#[test]
fn value_tokens_keep_punctuation_spacing() {
    let (s, m) = typed_schema();
    let inst = parse_with(&s, "ty = &'static str, p = a::b", &m).unwrap();
    match &inst.slots[1] {
        Slot::Optional(Some(t)) => {
            assert!(matches!(t[1], Token::Punct(':', true)));
            assert!(matches!(t[2], Token::Punct(':', false)));
        },
        other => panic!("unexpected {:?}", other),
    }
    match &inst.slots[0] {
        Slot::Mandatory(t) => {
            assert_eq!(t.len(), 4);
            assert!(matches!(t[1], Token::Punct('\'', true)));
        },
        other => panic!("unexpected {:?}", other),
    }
}
