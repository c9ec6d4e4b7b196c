use vstd::prelude::*;
use crate::token::{balanced, toks_view, Delim, Tok, TokV};
use crate::grammar::{
    args_ok, attr_ok, attr_toks, case_ok, lemma_balanced_append, lemma_balanced_flat, lemma_balanced_wrap,
    match_kw, reads_as, ArgsV, CaseV,
};
use crate::parse::{
    attr_tokens, error_fixed, parse_args, reading, well_formed, Args, Expected,
    ParseError,
};

verus! {

/// The tokens of a run of attributes, each written `#[content]`.
pub open spec fn attrs_toks(attrs: Seq<Seq<TokV>>) -> Seq<TokV>
    decreases attrs.len(),
{
    if attrs.len() == 0 {
        Seq::empty()
    } else {
        attrs_toks(attrs.drop_last()) + attr_toks(attrs.last())
    }
}

/// The pattern and arrow of a generated arm: `Enum::Name(inner) =>`.
pub open spec fn arm_head(enum_name: Seq<char>, name: Seq<char>, inner: Seq<char>) -> Seq<TokV> {
    seq![
        TokV::Ident(enum_name),
        TokV::Punct(':', true),
        TokV::Punct(':', false),
        TokV::Ident(name),
        TokV::Open(Delim::Paren),
        TokV::Ident(inner),
        TokV::Close(Delim::Paren),
        TokV::Punct('=', true),
        TokV::Punct('>', false),
    ]
}

/// The arm generated for one variant: its attributes, its pattern, the shared body.
pub open spec fn branch(a: ArgsV, c: CaseV) -> Seq<TokV> {
    attrs_toks(c.attrs) + arm_head(a.enum_name, c.name, a.inner_name) + a.arm_expr
}

/// The arms, one for each listed variant, in the listed order.
pub open spec fn branches(a: ArgsV) -> Seq<Seq<TokV>> {
    a.cases.map_values(|c: CaseV| branch(a, c))
}

/// Token sequences separated by commas.
pub open spec fn joined(bs: Seq<Seq<TokV>>) -> Seq<TokV>
    decreases bs.len(),
{
    if bs.len() == 0 {
        Seq::empty()
    } else if bs.len() == 1 {
        bs[0]
    } else {
        joined(bs.drop_last()) + seq![TokV::Punct(',', false)] + bs.last()
    }
}

/// The generated `match`: the scrutinee, then the arms in braces.
pub open spec fn expansion(a: ArgsV) -> Seq<TokV> {
    seq![TokV::Ident(match_kw())] + a.expr + seq![TokV::Open(Delim::Brace)] + joined(branches(a))
        + seq![TokV::Close(Delim::Brace)]
}

fn push_all(out: &mut Vec<Tok>, src: &Vec<Tok>)
    ensures
        toks_view(final(out)@) == toks_view(old(out)@) + toks_view(src@),
{
    let mut i: usize = 0;
    while i < src.len()
        invariant
            i <= src.len(),
            toks_view(out@) == toks_view(old(out)@) + toks_view(src@).take(i as int),
        decreases src.len() - i,
    {
        let t = src[i].copy();
        let ghost before = out@;
        out.push(t);
        assert(toks_view(out@) =~= toks_view(before).push(t@));
        assert(toks_view(src@).take(i + 1) =~= toks_view(src@).take(i as int).push(t@));
        i = i + 1;
    }
    assert(toks_view(src@).take(src.len() as int) =~= toks_view(src@));
}

fn push_tok(out: &mut Vec<Tok>, t: Tok)
    ensures
        toks_view(final(out)@) == toks_view(old(out)@).push(t@),
{
    let ghost before = out@;
    out.push(t);
    assert(toks_view(out@) =~= toks_view(before).push(t@));
}

/// Appends the arm generated for `c` to `out`.
fn push_branch(out: &mut Vec<Tok>, a: &Args, c: &crate::parse::Case)
    ensures
        toks_view(final(out)@) == toks_view(old(out)@) + branch(a@, c@),
{
    let mut j: usize = 0;
    while j < c.attrs.len()
        invariant
            j <= c.attrs.len(),
            toks_view(out@) == toks_view(old(out)@) + attrs_toks(c@.attrs.take(j as int)),
        decreases c.attrs.len() - j,
    {
        let at = attr_tokens(&c.attrs[j]);
        push_all(out, &at);
        assert(c@.attrs.take(j + 1).drop_last() =~= c@.attrs.take(j as int));
        assert(c@.attrs.take(j + 1).last() == toks_view(c.attrs@[j as int]@));
        j = j + 1;
    }
    assert(c@.attrs.take(c.attrs.len() as int) =~= c@.attrs);
    let ghost mid = toks_view(out@);
    push_tok(out, Tok::Ident(a.enum_name.clone()));
    push_tok(out, Tok::Punct(':', true));
    push_tok(out, Tok::Punct(':', false));
    push_tok(out, Tok::Ident(c.name.clone()));
    push_tok(out, Tok::Open(Delim::Paren));
    push_tok(out, Tok::Ident(a.inner_name.clone()));
    push_tok(out, Tok::Close(Delim::Paren));
    push_tok(out, Tok::Punct('=', true));
    push_tok(out, Tok::Punct('>', false));
    assert(toks_view(out@) =~= mid + arm_head(a.enum_name@, c.name@, a.inner_name@));
    push_all(out, &a.arm_expr);
    assert(toks_view(out@) =~= toks_view(old(out)@) + branch(a@, c@));
}

/// The `match` with one arm for each variant of `a`, in order, separated by commas.
pub fn expand_args(a: &Args) -> (r: Vec<Tok>)
    ensures
        toks_view(r@) == expansion(a@),
{
    let mut out: Vec<Tok> = Vec::new();
    let kw = String::from_str("match");
    proof {
        reveal_strlit("match");
        assert(kw@ =~= match_kw());
    }
    push_tok(&mut out, Tok::Ident(kw));
    proof {
        assert(toks_view(out@) =~= seq![TokV::Ident(match_kw())]);
    }
    push_all(&mut out, &a.expr);
    push_tok(&mut out, Tok::Open(Delim::Brace));
    let ghost head = toks_view(out@);
    let ghost bs = branches(a@);
    let mut i: usize = 0;
    while i < a.cases.len()
        invariant
            i <= a.cases.len(),
            bs == branches(a@),
            bs.len() == a.cases.len(),
            toks_view(out@) == head + joined(bs.take(i as int)),
        decreases a.cases.len() - i,
    {
        let ghost before = toks_view(out@);
        if i > 0 {
            push_tok(&mut out, Tok::Punct(',', false));
        }
        push_branch(&mut out, a, &a.cases[i]);
        proof {
            let t = bs.take(i + 1);
            assert(t.drop_last() =~= bs.take(i as int));
            assert(t.last() == branch(a@, a.cases@[i as int]@));
            assert(toks_view(out@) =~= head + joined(t));
        }
        i = i + 1;
    }
    push_tok(&mut out, Tok::Close(Delim::Brace));
    assert(bs.take(bs.len() as int) =~= bs);
    assert(toks_view(out@) =~= expansion(a@));
    out
}

/// Expands `match expr { Enum::[A, #[attr] B, ...](x) => body }` into
/// `match expr { Enum::A(x) => body, #[attr] Enum::B(x) => body, ... }`.
/// The result is balanced, so it regroups into a token tree.
pub fn all_the_same(item: &Vec<Tok>) -> (r: Result<Vec<Tok>, ParseError>)
    ensures
        r is Ok <==> well_formed(toks_view(item@)),
        r matches Ok(out) ==> toks_view(out@) == expansion(reading(toks_view(item@))),
        r matches Ok(out) ==> balanced(toks_view(out@)),
        r matches Err(e) ==> e.at <= item.len(),
        (r == Err::<Vec<Tok>, ParseError>(ParseError { expected: Expected::MatchKeyword, at: 0 })) <==> !(
        item.len() > 0 && toks_view(item@)[0] == TokV::Ident(match_kw())),
        item.len() > 0 && toks_view(item@)[0] == TokV::Ident(match_kw()) && toks_view(item@).last()
            != TokV::Close(Delim::Brace) ==> r == Err::<Vec<Tok>, ParseError>(
            ParseError { expected: Expected::Brace, at: (item.len() - 1) as usize },
        ),
        error_fixed(
            toks_view(item@),
            match r {
                Ok(_) => None,
                Err(e) => Some(e),
            },
        ),
{
    match parse_args(item) {
        Ok(a) => {
            let out = expand_args(&a);
            proof {
                lemma_expansion_balanced(a@);
            }
            Ok(out)
        },
        Err(e) => Err(e),
    }
}

/// With three listed variants `A, B, C`, the expansion is a `match` on the same
/// scrutinee with exactly three arms, for `A`, `B` and `C` in that order, each
/// `Enum::Case(inner) => body` with the same body.
pub proof fn lemma_three_cases(a: ArgsV)
    requires
        a.cases.len() == 3,
    ensures
        expansion(a) == seq![TokV::Ident(match_kw())] + a.expr + seq![TokV::Open(Delim::Brace)]
            + branch(a, a.cases[0]) + seq![TokV::Punct(',', false)] + branch(a, a.cases[1])
            + seq![TokV::Punct(',', false)] + branch(a, a.cases[2]) + seq![TokV::Close(Delim::Brace)],
{
    let bs = branches(a);
    assert(bs.drop_last().drop_last() =~= seq![branch(a, a.cases[0])]);
    assert(bs.drop_last().last() == branch(a, a.cases[1]));
    assert(bs.last() == branch(a, a.cases[2]));
    assert(joined(bs.drop_last().drop_last()) == branch(a, a.cases[0]));
    assert(joined(bs.drop_last()) == branch(a, a.cases[0]) + seq![TokV::Punct(',', false)] + branch(a, a.cases[1]));
    assert(joined(bs) =~= branch(a, a.cases[0]) + seq![TokV::Punct(',', false)] + branch(a, a.cases[1])
        + seq![TokV::Punct(',', false)] + branch(a, a.cases[2]));
    assert(expansion(a) =~= seq![TokV::Ident(match_kw())] + a.expr + seq![TokV::Open(Delim::Brace)]
        + branch(a, a.cases[0]) + seq![TokV::Punct(',', false)] + branch(a, a.cases[1])
        + seq![TokV::Punct(',', false)] + branch(a, a.cases[2]) + seq![TokV::Close(Delim::Brace)]);
}

/// The arm of each variant starts with exactly that variant's attributes, then
/// its pattern; a variant without attributes gets an arm without any.
pub proof fn lemma_attributes_carried(a: ArgsV, i: int)
    requires
        0 <= i < a.cases.len(),
    ensures
        branches(a)[i] == attrs_toks(a.cases[i].attrs) + arm_head(a.enum_name, a.cases[i].name, a.inner_name)
            + a.arm_expr,
        a.cases[i].attrs.len() == 0 ==> branches(a)[i] == arm_head(a.enum_name, a.cases[i].name, a.inner_name)
            + a.arm_expr,
{
    if a.cases[i].attrs.len() == 0 {
        assert(attrs_toks(a.cases[i].attrs) =~= Seq::<TokV>::empty());
        assert(branches(a)[i] =~= arm_head(a.enum_name, a.cases[i].name, a.inner_name) + a.arm_expr);
    }
}

/// Reordering the listed variants reorders the arms the same way: when `b`
/// lists at position `i` the variant that `a` lists at `f(i)`, the `i`-th arm
/// of `b` is the `f(i)`-th arm of `a`. Nothing is sorted, merged or dropped.
pub proof fn lemma_order_kept(a: ArgsV, b: ArgsV, f: spec_fn(int) -> int)
    requires
        b.expr == a.expr,
        b.enum_name == a.enum_name,
        b.inner_name == a.inner_name,
        b.arm_expr == a.arm_expr,
        b.cases.len() == a.cases.len(),
        forall|i: int| 0 <= i < b.cases.len() ==> 0 <= #[trigger] f(i) < a.cases.len() && b.cases[i] == a.cases[f(i)],
    ensures
        branches(b).len() == branches(a).len(),
        forall|i: int| 0 <= i < b.cases.len() ==> #[trigger] branches(b)[i] == branches(a)[f(i)],
{
    assert forall|i: int| 0 <= i < b.cases.len() implies #[trigger] branches(b)[i] == branches(a)[f(i)] by {
        assert(branches(b)[i] == branch(b, b.cases[i]));
        assert(branches(a)[f(i)] == branch(a, a.cases[f(i)]));
    }
}

/// A single listed variant gives a whole `match` with one arm and no separator.
pub proof fn lemma_single_case(a: ArgsV)
    requires
        a.cases.len() == 1,
    ensures
        expansion(a) == seq![TokV::Ident(match_kw())] + a.expr + seq![TokV::Open(Delim::Brace)]
            + branch(a, a.cases[0]) + seq![TokV::Close(Delim::Brace)],
{
    assert(joined(branches(a)) == branch(a, a.cases[0]));
}

proof fn lemma_attrs_toks_balanced(attrs: Seq<Seq<TokV>>)
    requires
        forall|j: int| 0 <= j < attrs.len() ==> attr_ok(#[trigger] attrs[j]),
    ensures
        balanced(attrs_toks(attrs)),
    decreases attrs.len(),
{
    if attrs.len() == 0 {
        lemma_balanced_flat(attrs_toks(attrs));
    } else {
        let init = attrs.drop_last();
        assert forall|j: int| 0 <= j < init.len() implies attr_ok(#[trigger] init[j]) by {
            assert(attr_ok(attrs[j]));
        }
        lemma_attrs_toks_balanced(init);
        let c = attrs.last();
        assert(attr_ok(attrs[attrs.len() - 1]));
        let h = seq![TokV::Punct('#', false)];
        lemma_balanced_flat(h);
        lemma_balanced_wrap(TokV::Open(Delim::Bracket), c, TokV::Close(Delim::Bracket));
        lemma_balanced_append(h, seq![TokV::Open(Delim::Bracket)] + c + seq![TokV::Close(Delim::Bracket)]);
        assert(attr_toks(c) =~= h + (seq![TokV::Open(Delim::Bracket)] + c + seq![TokV::Close(Delim::Bracket)]));
        lemma_balanced_append(attrs_toks(init), attr_toks(c));
    }
}

proof fn lemma_branch_balanced(a: ArgsV, c: CaseV)
    requires
        case_ok(c),
        balanced(a.arm_expr),
    ensures
        balanced(branch(a, c)),
{
    lemma_attrs_toks_balanced(c.attrs);
    let h1 = seq![TokV::Ident(a.enum_name), TokV::Punct(':', true), TokV::Punct(':', false), TokV::Ident(c.name)];
    let inner = seq![TokV::Ident(a.inner_name)];
    let h3 = seq![TokV::Punct('=', true), TokV::Punct('>', false)];
    lemma_balanced_flat(h1);
    lemma_balanced_flat(inner);
    lemma_balanced_flat(h3);
    lemma_balanced_wrap(TokV::Open(Delim::Paren), inner, TokV::Close(Delim::Paren));
    let g = seq![TokV::Open(Delim::Paren)] + inner + seq![TokV::Close(Delim::Paren)];
    lemma_balanced_append(h1, g);
    lemma_balanced_append(h1 + g, h3);
    assert(arm_head(a.enum_name, c.name, a.inner_name) =~= h1 + g + h3);
    lemma_balanced_append(attrs_toks(c.attrs), arm_head(a.enum_name, c.name, a.inner_name));
    lemma_balanced_append(attrs_toks(c.attrs) + arm_head(a.enum_name, c.name, a.inner_name), a.arm_expr);
}

proof fn lemma_joined_balanced(bs: Seq<Seq<TokV>>)
    requires
        forall|i: int| 0 <= i < bs.len() ==> balanced(#[trigger] bs[i]),
    ensures
        balanced(joined(bs)),
    decreases bs.len(),
{
    if bs.len() == 0 {
        lemma_balanced_flat(joined(bs));
    } else if bs.len() == 1 {
        assert(balanced(bs[0]));
    } else {
        let init = bs.drop_last();
        assert forall|i: int| 0 <= i < init.len() implies balanced(#[trigger] init[i]) by {
            assert(balanced(bs[i]));
        }
        lemma_joined_balanced(init);
        let comma = seq![TokV::Punct(',', false)];
        lemma_balanced_flat(comma);
        assert(balanced(bs[bs.len() - 1]));
        lemma_balanced_append(joined(init), comma);
        lemma_balanced_append(joined(init) + comma, bs.last());
    }
}

/// The expansion of a well-formed invocation is balanced.
pub proof fn lemma_expansion_balanced(a: ArgsV)
    requires
        args_ok(a),
    ensures
        balanced(expansion(a)),
{
    let bs = branches(a);
    assert forall|i: int| 0 <= i < bs.len() implies balanced(#[trigger] bs[i]) by {
        assert(case_ok(a.cases[i]));
        lemma_branch_balanced(a, a.cases[i]);
    }
    lemma_joined_balanced(bs);
    let kw = seq![TokV::Ident(match_kw())];
    lemma_balanced_flat(kw);
    lemma_balanced_wrap(TokV::Open(Delim::Brace), joined(bs), TokV::Close(Delim::Brace));
    let body = seq![TokV::Open(Delim::Brace)] + joined(bs) + seq![TokV::Close(Delim::Brace)];
    lemma_balanced_append(kw, a.expr);
    lemma_balanced_append(kw + a.expr, body);
    assert(expansion(a) =~= kw + a.expr + body);
}

} // verus!
