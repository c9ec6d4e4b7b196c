use all_the_same::{all_the_same, parse_args, Delim, Expected, ParseError, Tok};
use proc_macro2::{Delimiter, Spacing, TokenStream, TokenTree};
use std::str::FromStr;

fn delim(d: Delimiter) -> Delim {
    match d {
        Delimiter::Parenthesis => Delim::Paren,
        Delimiter::Bracket => Delim::Bracket,
        Delimiter::Brace => Delim::Brace,
        Delimiter::None => Delim::Invisible,
    }
}

fn flatten(ts: TokenStream, out: &mut Vec<Tok>) {
    for tt in ts {
        match tt {
            TokenTree::Ident(i) => out.push(Tok::Ident(i.to_string())),
            TokenTree::Punct(p) => out.push(Tok::Punct(p.as_char(), p.spacing() == Spacing::Joint)),
            TokenTree::Literal(l) => out.push(Tok::Lit(l.to_string())),
            TokenTree::Group(g) => {
                out.push(Tok::Open(delim(g.delimiter())));
                flatten(g.stream(), out);
                out.push(Tok::Close(delim(g.delimiter())));
            }
        }
    }
}

fn lex(s: &str) -> Vec<Tok> {
    let mut out = Vec::new();
    flatten(TokenStream::from_str(s).unwrap(), &mut out);
    out
}

fn expand(s: &str) -> Result<Vec<Tok>, ParseError> {
    all_the_same(&lex(s))
}

fn expected_at(s: &str) -> Expected {
    match expand(s) {
        Ok(_) => panic!("accepted malformed input: {}", s),
        Err(e) => e.expected,
    }
}

#[test]
fn stream_example_expands_to_three_arms() {
    let out = expand(
        "match self.get_mut() { Stream::[Tcp, Unix, Custom](s) => Pin::new(s).poll_write(cx, buf) }",
    )
    .unwrap();
    let want = lex(
        "match self.get_mut() { \
         Stream::Tcp(s) => Pin::new(s).poll_write(cx, buf), \
         Stream::Unix(s) => Pin::new(s).poll_write(cx, buf), \
         Stream::Custom(s) => Pin::new(s).poll_write(cx, buf) }",
    );
    assert_eq!(out, want);
}

#[test]
fn attribute_example_is_carried_to_its_arm() {
    let out = expand("match self { Variants::[Foo, #[cfg(test)]Bar](v) => v }").unwrap();
    let want = lex("match self { Variants::Foo(v) => v, #[cfg(test)] Variants::Bar(v) => v }");
    assert_eq!(out, want);
}

#[test]
fn three_cases_keep_shape_and_body() {
    let out = expand("match x { E::[A, B, C](y) => f(y) + 1 }").unwrap();
    let want = lex("match x { E::A(y) => f(y) + 1, E::B(y) => f(y) + 1, E::C(y) => f(y) + 1 }");
    assert_eq!(out, want);
}

#[test]
fn cases_without_attributes_get_none() {
    let out = expand("match x { E::[#[cfg(a)] #[allow(dead_code)] A, B](y) => y }").unwrap();
    let want = lex("match x { #[cfg(a)] #[allow(dead_code)] E::A(y) => y, E::B(y) => y }");
    assert_eq!(out, want);
}

#[test]
fn permuted_cases_permute_arms() {
    let out = expand("match x { E::[C, A, B, A](y) => y }").unwrap();
    let want = lex("match x { E::C(y) => y, E::A(y) => y, E::B(y) => y, E::A(y) => y }");
    assert_eq!(out, want);
}

#[test]
fn single_case_gives_whole_match() {
    let out = expand("match x { E::[Only](y) => y }").unwrap();
    let want = lex("match x { E::Only(y) => y }");
    assert_eq!(out, want);
}

#[test]
fn trailing_comma_is_accepted() {
    let out = expand("match x { E::[A, B,](y) => y }").unwrap();
    let want = lex("match x { E::A(y) => y, E::B(y) => y }");
    assert_eq!(out, want);
}

#[test]
fn block_body_is_copied() {
    let out = expand("match &mut s { S::[P, Q](inner) => { inner.go(); 3 } }").unwrap();
    let want = lex("match &mut s { S::P(inner) => { inner.go(); 3 }, S::Q(inner) => { inner.go(); 3 } }");
    assert_eq!(out, want);
}

#[test]
fn missing_binding_parentheses_fail() {
    assert_eq!(expected_at("match x { E::[A, B] y => y }"), Expected::Paren);
}

#[test]
fn missing_arrow_fails() {
    assert_eq!(expected_at("match x { E::[A, B](y) y }"), Expected::Arrow);
}

#[test]
fn empty_case_list_fails() {
    let err = expand("match x { E::[](y) => y }").unwrap_err();
    assert_eq!(err, ParseError { expected: Expected::Case, at: 7 });
}

#[test]
fn missing_match_keyword_fails() {
    let err = expand("x { E::[A](y) => y }").unwrap_err();
    assert_eq!(err, ParseError { expected: Expected::MatchKeyword, at: 0 });
    assert_eq!(expected_at(""), Expected::MatchKeyword);
}

#[test]
fn missing_body_braces_fail() {
    assert_eq!(expected_at("match x ( E::[A](y) => y )"), Expected::Brace);
}

#[test]
fn missing_double_colon_fails() {
    assert_eq!(expected_at("match x { E:[A](y) => y }"), Expected::DoubleColon);
    assert_eq!(expected_at("match x { E : : [A](y) => y }"), Expected::DoubleColon);
}

#[test]
fn missing_case_brackets_fail() {
    assert_eq!(expected_at("match x { E::(A)(y) => y }"), Expected::Bracket);
}

#[test]
fn missing_comma_between_cases_fails() {
    assert_eq!(expected_at("match x { E::[A B](y) => y }"), Expected::Comma);
}

#[test]
fn keyword_names_are_refused() {
    assert_eq!(expected_at("match x { E::[A, fn](y) => y }"), Expected::Ident);
    assert_eq!(expected_at("match x { E::[A](_) => 0 }"), Expected::Ident);
    assert_eq!(expected_at("match x { self::[A](y) => y }"), Expected::Ident);
}

#[test]
fn raw_identifiers_are_names() {
    let out = expand("match x { E::[r#Type](y) => y }").unwrap();
    assert_eq!(out, lex("match x { E::r#Type(y) => y }"));
}

#[test]
fn malformed_attribute_fails() {
    assert_eq!(expected_at("match x { E::[#[= 1] A](y) => y }"), Expected::Attribute);
    assert_eq!(expected_at("match x { E::[# A](y) => y }"), Expected::Bracket);
}

#[test]
fn malformed_body_expression_fails() {
    assert_eq!(expected_at("match x { E::[A](y) => }"), Expected::Expression);
    assert_eq!(expected_at("match x { E::[A](y) => y y }"), Expected::Expression);
}

#[test]
fn struct_literal_scrutinee_is_refused() {
    assert_eq!(expected_at("match { E::[A](y) => y }"), Expected::Expression);
    assert_eq!(expected_at("match S { a: 1 } { E::[A](y) => y }"), Expected::Expression);
}

#[test]
fn parse_reads_each_part() {
    let a = parse_args(&lex("match v.get() { K::[#[cfg(x)] One, Two](inner) => inner.len() }")).unwrap();
    assert_eq!(a.expr, lex("v.get()"));
    assert_eq!(a.enum_name, "K");
    assert_eq!(a.cases.len(), 2);
    assert_eq!(a.cases[0].name, "One");
    assert_eq!(a.cases[0].attrs, vec![lex("cfg(x)")]);
    assert!(a.cases[1].attrs.is_empty());
    assert_eq!(a.cases[1].name, "Two");
    assert_eq!(a.inner_name, "inner");
    assert_eq!(a.arm_expr, lex("inner.len()"));
}

#[test]
fn comma_joined_to_attribute_is_a_separator() {
    let out = expand("match self { Variants::[Foo,#[cfg(test)]Bar](v) => v }").unwrap();
    let want = lex("match self { Variants::Foo(v) => v, #[cfg(test)] Variants::Bar(v) => v }");
    assert_eq!(out, want);
}

#[test]
fn joint_punctuation_in_body_is_kept() {
    let out = expand("match x { E::[A, B](y) => y.map(|z| z >= 1)? }").unwrap();
    let want = lex("match x { E::A(y) => y.map(|z| z >= 1)? , E::B(y) => y.map(|z| z >= 1)? }");
    assert_eq!(out, want);
}

#[test]
fn leftover_tokens_after_body_fail() {
    assert_eq!(expected_at("match x { E::[A](y) => y } z"), Expected::Brace);
}

#[test]
fn c_string_body_does_not_panic() {
    let out = expand("match x { E::[A, B](y) => c\"x\" }").unwrap();
    assert_eq!(out, lex("match x { E::A(y) => c\"x\", E::B(y) => c\"x\" }"));
}

#[test]
fn missing_arrow_is_reported_at_the_body() {
    let err = expand("match e { K::[A](x) y }").unwrap_err();
    assert_eq!(err, ParseError { expected: Expected::Arrow, at: 12 });
}

#[test]
fn bad_body_is_reported_after_the_arrow() {
    let err = expand("match e { K::[A](x) => let }").unwrap_err();
    assert_eq!(err, ParseError { expected: Expected::Expression, at: 14 });
}

#[test]
fn same_input_gives_same_result() {
    let bad = "match e { K::[A B](x) => x }";
    assert_eq!(expand(bad), expand(bad));
    let good = "match e { K::[A, B](x) => x }";
    assert_eq!(expand(good), expand(good));
}

#[test]
fn missing_parentheses_are_reported_after_the_list() {
    let err = expand("match e { K::[A, B] x => x }").unwrap_err();
    assert_eq!(err, ParseError { expected: Expected::Paren, at: 11 });
}

#[test]
fn keyword_binding_is_reported_inside_the_parentheses() {
    let err = expand("match e { K::[A](self) => 1 }").unwrap_err();
    assert_eq!(err, ParseError { expected: Expected::Ident, at: 10 });
}
