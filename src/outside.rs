//! The calls into outside crates, each behind one trusted item.
use vstd::prelude::*;
use heck::ToSnakeCase;

verus! {

/// What `heck`'s snake-case conversion makes of a text.
pub uninterp spec fn snake_case_of(s: Seq<char>) -> Seq<char>;

/// What `syn` reads as the value of a string literal written as `text`,
/// or `None` where `text` is not one string literal.
pub uninterp spec fn lit_str_value_of(text: Seq<char>) -> Option<Seq<char>>;

/// Relies on `heck::ToSnakeCase::to_snake_case` for `str`: the result depends
/// on the characters of `s` alone.
#[verifier::external_body]
pub(crate) fn snake_case(s: &str) -> (r: String)
    ensures
        r@ == snake_case_of(s@),
{
    s.to_snake_case()
}

/// Relies on `syn::parse_str::<syn::LitStr>` and `syn::LitStr::value`: reads `text`
/// as one string literal and returns its value, with escapes resolved. `syn` panics on
/// literal kinds it does not know (such as `c"x"`), so `text` must start as a string
/// or raw string literal does.
#[verifier::external_body]
pub(crate) fn lit_str_value(text: &str) -> (r: Option<String>)
    requires
        text@.len() > 0,
        text@[0] == '"' || text@[0] == 'r',
    ensures
        match r {
            Some(v) => lit_str_value_of(text@) == Some(v@),
            None => lit_str_value_of(text@) is None,
        },
{
    syn::parse_str::<syn::LitStr>(text).ok().map(|lit| lit.value())
}

} // verus!
