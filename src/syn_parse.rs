use vstd::prelude::*;

verus! {

/// Whether syn lexes and parses `text` whole as an expression that may not end
/// in a struct literal (the expression of a `match`).
pub uninterp spec fn syn_accepts_scrutinee(text: Seq<char>) -> bool;

/// Whether syn lexes and parses `text` whole as an expression.
pub uninterp spec fn syn_accepts_expr(text: Seq<char>) -> bool;

/// Whether syn lexes and parses `text` whole as an identifier (not a keyword,
/// not `_`).
pub uninterp spec fn syn_accepts_ident(text: Seq<char>) -> bool;

/// Whether syn lexes and parses `text` whole as a run of outer attributes.
pub uninterp spec fn syn_accepts_outer_attrs(text: Seq<char>) -> bool;

// Lexing goes through `proc_macro2::TokenStream::from_str`. proc-macro2 is
// built without its `proc-macro` feature, so it always uses its own lexer and
// the result depends on the text alone. syn 2 reads a literal it does not
// recognise as `Lit::Verbatim` rather than panicking (`Lit::new`).

/// Relies on `syn::Expr::parse_without_eager_brace` through `Parser::parse2`,
/// which succeeds exactly when the whole token stream is such an expression.
#[verifier::external_body]
pub(crate) fn parses_as_scrutinee(text: &Vec<char>) -> (r: bool)
    ensures
        r == syn_accepts_scrutinee(text@),
{
    let s: String = text.iter().collect();
    match s.parse::<proc_macro2::TokenStream>() {
        Ok(ts) => syn::parse::Parser::parse2(syn::Expr::parse_without_eager_brace, ts).is_ok(),
        Err(_) => false,
    }
}

/// Relies on `syn::parse2::<syn::Expr>`, which succeeds exactly when the whole
/// token stream is an expression.
#[verifier::external_body]
pub(crate) fn parses_as_expr(text: &Vec<char>) -> (r: bool)
    ensures
        r == syn_accepts_expr(text@),
{
    let s: String = text.iter().collect();
    match s.parse::<proc_macro2::TokenStream>() {
        Ok(ts) => syn::parse2::<syn::Expr>(ts).is_ok(),
        Err(_) => false,
    }
}

/// Relies on `syn::parse2::<syn::Ident>`, which refuses keywords and `_`.
#[verifier::external_body]
pub(crate) fn parses_as_ident(text: &String) -> (r: bool)
    ensures
        r == syn_accepts_ident(text@),
{
    match text.parse::<proc_macro2::TokenStream>() {
        Ok(ts) => syn::parse2::<syn::Ident>(ts).is_ok(),
        Err(_) => false,
    }
}

/// Relies on `syn::Attribute::parse_outer` through `Parser::parse2`: `#`, a
/// bracketed group, and in it a path followed by nothing, a delimited group,
/// or `=` and an expression.
#[verifier::external_body]
pub(crate) fn parses_as_outer_attrs(text: &Vec<char>) -> (r: bool)
    ensures
        r == syn_accepts_outer_attrs(text@),
{
    let s: String = text.iter().collect();
    match s.parse::<proc_macro2::TokenStream>() {
        Ok(ts) => syn::parse::Parser::parse2(syn::Attribute::parse_outer, ts).is_ok(),
        Err(_) => false,
    }
}

} // verus!
