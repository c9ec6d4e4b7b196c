use vstd::prelude::*;
use crate::token::{balanced, delta, depth, lemma_depth_append, render, Delim, TokV};
use crate::syn_parse::{syn_accepts_expr, syn_accepts_ident, syn_accepts_outer_attrs, syn_accepts_scrutinee};

verus! {

/// One position of an input template: a token exactly, or a punctuation
/// character whatever its spacing.
pub ghost enum Pat {
    Exact(TokV),
    AnyPunct(char),
}

pub open spec fn fits_one(t: TokV, p: Pat) -> bool {
    match p {
        Pat::Exact(u) => t == u,
        Pat::AnyPunct(c) => match t {
            TokV::Punct(d, _) => d == c,
            _ => false,
        },
    }
}

/// The tokens `s` follow the template `p` position by position.
pub open spec fn fits(s: Seq<TokV>, p: Seq<Pat>) -> bool {
    &&& s.len() == p.len()
    &&& forall|i: int| 0 <= i < s.len() ==> fits_one(#[trigger] s[i], p[i])
}

/// The template that only `s` follows.
pub open spec fn exact(s: Seq<TokV>) -> Seq<Pat> {
    s.map_values(|t: TokV| Pat::Exact(t))
}

/// A listed variant: its attributes (the tokens inside each `#[...]`) and its name.
pub ghost struct CaseV {
    pub attrs: Seq<Seq<TokV>>,
    pub name: Seq<char>,
}

/// A parsed invocation `match expr { enum_name::[cases](inner_name) => arm_expr }`.
pub ghost struct ArgsV {
    pub expr: Seq<TokV>,
    pub enum_name: Seq<char>,
    pub cases: Seq<CaseV>,
    pub inner_name: Seq<char>,
    pub arm_expr: Seq<TokV>,
}

pub open spec fn match_kw() -> Seq<char> {
    seq!['m', 'a', 't', 'c', 'h']
}

/// The tokens of the attribute `#[content]`.
pub open spec fn attr_toks(content: Seq<TokV>) -> Seq<TokV> {
    seq![TokV::Punct('#', false), TokV::Open(Delim::Bracket)] + content + seq![
        TokV::Close(Delim::Bracket),
    ]
}

/// The template of the attribute `#[content]`.
pub open spec fn attr_pats(content: Seq<TokV>) -> Seq<Pat> {
    seq![Pat::AnyPunct('#'), Pat::Exact(TokV::Open(Delim::Bracket))] + exact(content) + seq![
        Pat::Exact(TokV::Close(Delim::Bracket)),
    ]
}

pub open spec fn attrs_pats(attrs: Seq<Seq<TokV>>) -> Seq<Pat>
    decreases attrs.len(),
{
    if attrs.len() == 0 {
        Seq::empty()
    } else {
        attrs_pats(attrs.drop_last()) + attr_pats(attrs.last())
    }
}

/// The template of one listed variant: its attributes, then its name.
pub open spec fn case_pats(c: CaseV) -> Seq<Pat> {
    attrs_pats(c.attrs) + seq![Pat::Exact(TokV::Ident(c.name))]
}

/// The template of variants each followed by a comma.
pub open spec fn terminated(cases: Seq<CaseV>) -> Seq<Pat>
    decreases cases.len(),
{
    if cases.len() == 0 {
        Seq::empty()
    } else {
        terminated(cases.drop_last()) + case_pats(cases.last()) + seq![Pat::AnyPunct(',')]
    }
}

/// The template of a comma-separated list of variants, with a trailing comma or not.
pub open spec fn list_pats(cases: Seq<CaseV>, trailing: bool) -> Seq<Pat> {
    if trailing {
        terminated(cases)
    } else {
        terminated(cases.drop_last()) + case_pats(cases.last())
    }
}

/// The template of a whole invocation.
pub open spec fn invocation(a: ArgsV, trailing: bool) -> Seq<Pat> {
    seq![Pat::Exact(TokV::Ident(match_kw()))] + exact(a.expr) + seq![
        Pat::Exact(TokV::Open(Delim::Brace)),
        Pat::Exact(TokV::Ident(a.enum_name)),
        Pat::Exact(TokV::Punct(':', true)),
        Pat::AnyPunct(':'),
        Pat::Exact(TokV::Open(Delim::Bracket)),
    ] + list_pats(a.cases, trailing) + seq![
        Pat::Exact(TokV::Close(Delim::Bracket)),
        Pat::Exact(TokV::Open(Delim::Paren)),
        Pat::Exact(TokV::Ident(a.inner_name)),
        Pat::Exact(TokV::Close(Delim::Paren)),
        Pat::Exact(TokV::Punct('=', true)),
        Pat::AnyPunct('>'),
    ] + exact(a.arm_expr) + seq![Pat::Exact(TokV::Close(Delim::Brace))]
}

/// An attribute's contents are balanced and syn reads `#[content]` as an attribute.
pub open spec fn attr_ok(content: Seq<TokV>) -> bool {
    balanced(content) && syn_accepts_outer_attrs(render(attr_toks(content)))
}

pub open spec fn case_ok(c: CaseV) -> bool {
    &&& syn_accepts_ident(c.name)
    &&& forall|j: int| 0 <= j < c.attrs.len() ==> attr_ok(#[trigger] c.attrs[j])
}

/// The parts of an invocation are what the grammar asks for.
pub open spec fn args_ok(a: ArgsV) -> bool {
    &&& balanced(a.expr)
    &&& syn_accepts_scrutinee(render(a.expr))
    &&& syn_accepts_ident(a.enum_name)
    &&& a.cases.len() > 0
    &&& forall|i: int| 0 <= i < a.cases.len() ==> case_ok(#[trigger] a.cases[i])
    &&& syn_accepts_ident(a.inner_name)
    &&& balanced(a.arm_expr)
    &&& syn_accepts_expr(render(a.arm_expr))
}

/// `s` is a well-formed invocation that reads as `a`.
pub open spec fn reads_as(s: Seq<TokV>, a: ArgsV) -> bool {
    args_ok(a) && exists|t: bool| fits(s, #[trigger] invocation(a, t))
}

pub proof fn lemma_fits_append(s1: Seq<TokV>, p1: Seq<Pat>, s2: Seq<TokV>, p2: Seq<Pat>)
    requires
        fits(s1, p1),
        fits(s2, p2),
    ensures
        fits(s1 + s2, p1 + p2),
{
    assert forall|i: int| 0 <= i < (s1 + s2).len() implies fits_one(#[trigger] (s1 + s2)[i], (p1 + p2)[i]) by {
        if i < s1.len() {
            assert(fits_one(s1[i], p1[i]));
        } else {
            assert(fits_one(s2[i - s1.len()], p2[i - s1.len()]));
        }
    }
}

pub proof fn lemma_fits_exact(s: Seq<TokV>)
    ensures
        fits(s, exact(s)),
{
    assert forall|i: int| 0 <= i < s.len() implies fits_one(#[trigger] s[i], exact(s)[i]) by {}
}

pub proof fn lemma_fits_split(x: Seq<TokV>, p1: Seq<Pat>, p2: Seq<Pat>)
    requires
        fits(x, p1 + p2),
    ensures
        fits(x.take(p1.len() as int), p1),
        fits(x.skip(p1.len() as int), p2),
        x == x.take(p1.len() as int) + x.skip(p1.len() as int),
{
    assert forall|i: int| 0 <= i < p1.len() implies fits_one(#[trigger] x.take(p1.len() as int)[i], p1[i]) by {
        assert(fits_one(x[i], (p1 + p2)[i]));
    }
    assert forall|i: int| 0 <= i < p2.len() implies fits_one(#[trigger] x.skip(p1.len() as int)[i], p2[i]) by {
        assert(fits_one(x[i + p1.len()], (p1 + p2)[i + p1.len()]));
    }
    assert(x =~= x.take(p1.len() as int) + x.skip(p1.len() as int));
}

pub proof fn lemma_fits_exact_eq(x: Seq<TokV>, y: Seq<TokV>)
    requires
        fits(x, exact(y)),
    ensures
        x == y,
{
    assert forall|i: int| 0 <= i < x.len() implies x[i] == y[i] by {
        assert(fits_one(x[i], exact(y)[i]));
    }
    assert(x =~= y);
}

pub proof fn lemma_depth_flat(x: Seq<TokV>)
    requires
        forall|i: int| 0 <= i < x.len() ==> delta(#[trigger] x[i]) == 0,
    ensures
        depth(x) == 0,
    decreases x.len(),
{
    if x.len() > 0 {
        assert forall|i: int| 0 <= i < x.drop_last().len() implies delta(#[trigger] x.drop_last()[i]) == 0 by {
            assert(delta(x[i]) == 0);
        }
        lemma_depth_flat(x.drop_last());
        assert(delta(x[x.len() - 1]) == 0);
    }
}

pub proof fn lemma_balanced_flat(x: Seq<TokV>)
    requires
        forall|i: int| 0 <= i < x.len() ==> delta(#[trigger] x[i]) == 0,
    ensures
        balanced(x),
{
    assert forall|k: int| 0 <= k <= x.len() implies depth(#[trigger] x.take(k)) >= 0 by {
        assert forall|i: int| 0 <= i < x.take(k).len() implies delta(#[trigger] x.take(k)[i]) == 0 by {
            assert(delta(x[i]) == 0);
        }
        lemma_depth_flat(x.take(k));
    }
    lemma_depth_flat(x);
}

pub proof fn lemma_balanced_append(a: Seq<TokV>, b: Seq<TokV>)
    requires
        balanced(a),
        balanced(b),
    ensures
        balanced(a + b),
{
    lemma_depth_append(a, b);
    assert forall|k: int| 0 <= k <= (a + b).len() implies depth(#[trigger] (a + b).take(k)) >= 0 by {
        if k <= a.len() {
            assert((a + b).take(k) =~= a.take(k));
        } else {
            assert((a + b).take(k) =~= a + b.take(k - a.len()));
            lemma_depth_append(a, b.take(k - a.len()));
            assert(a.take(a.len() as int) =~= a);
        }
    }
}

pub proof fn lemma_balanced_wrap(o: TokV, c: Seq<TokV>, cl: TokV)
    requires
        o matches TokV::Open(_),
        cl matches TokV::Close(_),
        balanced(c),
    ensures
        balanced(seq![o] + c + seq![cl]),
{
    let x = seq![o] + c + seq![cl];
    lemma_depth_append(seq![o], c);
    lemma_depth_append(seq![o] + c, seq![cl]);
    assert(seq![o].drop_last() =~= Seq::<TokV>::empty());
    assert(seq![cl].drop_last() =~= Seq::<TokV>::empty());
    assert(depth(Seq::<TokV>::empty()) == 0);
    assert(depth(seq![o]) == 1);
    assert(depth(seq![cl]) == -1);
    assert(depth(x) == 0);
    assert forall|k: int| 0 <= k <= x.len() implies depth(#[trigger] x.take(k)) >= 0 by {
        if k == 0 {
            assert(x.take(0) =~= Seq::<TokV>::empty());
        } else if k <= c.len() + 1 {
            assert(x.take(k) =~= seq![o] + c.take(k - 1));
            lemma_depth_append(seq![o], c.take(k - 1));
            assert(depth(c.take(k - 1)) >= 0);
        } else {
            assert(x.take(k) =~= x);
        }
    }
}

/// A sequence that follows an attribute's template is balanced.
proof fn lemma_attr_balanced(x: Seq<TokV>, content: Seq<TokV>)
    requires
        fits(x, attr_pats(content)),
        balanced(content),
    ensures
        balanced(x),
{
    let h = seq![Pat::AnyPunct('#'), Pat::Exact(TokV::Open(Delim::Bracket))];
    let tl = seq![Pat::Exact(TokV::Close(Delim::Bracket))];
    lemma_fits_split(x, h + exact(content), tl);
    let y = x.take((h + exact(content)).len() as int);
    lemma_fits_split(y, h, exact(content));
    lemma_fits_exact_eq(y.skip(2), content);
    let hx = y.take(2);
    assert(fits_one(hx[0], h[0]) && fits_one(hx[1], h[1]));
    assert(delta(hx[0]) == 0);
    assert(hx.skip(1) =~= seq![hx[1]]);
    assert(hx =~= seq![hx[0]] + seq![hx[1]]);
    assert(fits_one(x.skip((h + exact(content)).len() as int)[0], tl[0]));
    assert(x.skip((h + exact(content)).len() as int) =~= seq![TokV::Close(Delim::Bracket)]);
    lemma_balanced_flat(seq![hx[0]]);
    lemma_balanced_wrap(hx[1], content, TokV::Close(Delim::Bracket));
    lemma_balanced_append(seq![hx[0]], seq![hx[1]] + content + seq![TokV::Close(Delim::Bracket)]);
    assert(x =~= seq![hx[0]] + (seq![hx[1]] + content + seq![TokV::Close(Delim::Bracket)]));
}

proof fn lemma_attrs_balanced(x: Seq<TokV>, attrs: Seq<Seq<TokV>>)
    requires
        fits(x, attrs_pats(attrs)),
        forall|j: int| 0 <= j < attrs.len() ==> attr_ok(#[trigger] attrs[j]),
    ensures
        balanced(x),
    decreases attrs.len(),
{
    if attrs.len() == 0 {
        lemma_balanced_flat(x);
    } else {
        let init = attrs.drop_last();
        assert forall|j: int| 0 <= j < init.len() implies attr_ok(#[trigger] init[j]) by {
            assert(attr_ok(attrs[j]));
        }
        assert(attr_ok(attrs[attrs.len() - 1]));
        lemma_fits_split(x, attrs_pats(init), attr_pats(attrs.last()));
        lemma_attrs_balanced(x.take(attrs_pats(init).len() as int), init);
        lemma_attr_balanced(x.skip(attrs_pats(init).len() as int), attrs.last());
        lemma_balanced_append(x.take(attrs_pats(init).len() as int), x.skip(attrs_pats(init).len() as int));
    }
}

proof fn lemma_case_balanced(x: Seq<TokV>, c: CaseV)
    requires
        fits(x, case_pats(c)),
        case_ok(c),
    ensures
        balanced(x),
{
    let tl = seq![Pat::Exact(TokV::Ident(c.name))];
    lemma_fits_split(x, attrs_pats(c.attrs), tl);
    lemma_attrs_balanced(x.take(attrs_pats(c.attrs).len() as int), c.attrs);
    let r = x.skip(attrs_pats(c.attrs).len() as int);
    assert(fits_one(r[0], tl[0]));
    lemma_balanced_flat(r);
    lemma_balanced_append(x.take(attrs_pats(c.attrs).len() as int), r);
}

proof fn lemma_terminated_balanced(x: Seq<TokV>, cases: Seq<CaseV>)
    requires
        fits(x, terminated(cases)),
        forall|i: int| 0 <= i < cases.len() ==> case_ok(#[trigger] cases[i]),
    ensures
        balanced(x),
    decreases cases.len(),
{
    if cases.len() == 0 {
        lemma_balanced_flat(x);
    } else {
        let init = cases.drop_last();
        assert forall|i: int| 0 <= i < init.len() implies case_ok(#[trigger] init[i]) by {
            assert(case_ok(cases[i]));
        }
        assert(case_ok(cases[cases.len() - 1]));
        let a = terminated(init);
        let b = case_pats(cases.last());
        let cm = seq![Pat::AnyPunct(',')];
        lemma_fits_split(x, a + b, cm);
        let y = x.take((a + b).len() as int);
        lemma_fits_split(y, a, b);
        lemma_terminated_balanced(y.take(a.len() as int), init);
        lemma_case_balanced(y.skip(a.len() as int), cases.last());
        lemma_balanced_append(y.take(a.len() as int), y.skip(a.len() as int));
        let z = x.skip((a + b).len() as int);
        assert(fits_one(z[0], cm[0]));
        lemma_balanced_flat(z);
        lemma_balanced_append(y, z);
    }
}

/// A variant list that follows its template is balanced.
pub proof fn lemma_list_balanced(x: Seq<TokV>, cases: Seq<CaseV>, t: bool)
    requires
        fits(x, list_pats(cases, t)),
        cases.len() > 0,
        forall|i: int| 0 <= i < cases.len() ==> case_ok(#[trigger] cases[i]),
    ensures
        balanced(x),
{
    if t {
        lemma_terminated_balanced(x, cases);
    } else {
        let init = cases.drop_last();
        assert forall|i: int| 0 <= i < init.len() implies case_ok(#[trigger] init[i]) by {
            assert(case_ok(cases[i]));
        }
        assert(case_ok(cases[cases.len() - 1]));
        lemma_fits_split(x, terminated(init), case_pats(cases.last()));
        lemma_terminated_balanced(x.take(terminated(init).len() as int), init);
        lemma_case_balanced(x.skip(terminated(init).len() as int), cases.last());
        lemma_balanced_append(x.take(terminated(init).len() as int), x.skip(terminated(init).len() as int));
    }
}

proof fn lemma_attrs_pats_split(attrs: Seq<Seq<TokV>>, k: int)
    requires
        0 <= k <= attrs.len(),
    ensures
        attrs_pats(attrs) == attrs_pats(attrs.take(k)) + attrs_pats(attrs.skip(k)),
    decreases attrs.len(),
{
    if k == attrs.len() {
        assert(attrs.take(k) =~= attrs);
        assert(attrs.skip(k).len() == 0);
        assert(attrs_pats(attrs) + Seq::<Pat>::empty() =~= attrs_pats(attrs));
    } else {
        lemma_attrs_pats_split(attrs.drop_last(), k);
        assert(attrs.drop_last().take(k) =~= attrs.take(k));
        assert(attrs.skip(k).drop_last() =~= attrs.drop_last().skip(k));
        assert(attrs.skip(k).last() == attrs.last());
    }
}

proof fn lemma_terminated_split(cases: Seq<CaseV>, k: int)
    requires
        0 <= k <= cases.len(),
    ensures
        terminated(cases) == terminated(cases.take(k)) + terminated(cases.skip(k)),
    decreases cases.len(),
{
    if k == cases.len() {
        assert(cases.take(k) =~= cases);
        assert(cases.skip(k).len() == 0);
        assert(terminated(cases) + Seq::<Pat>::empty() =~= terminated(cases));
    } else {
        lemma_terminated_split(cases.drop_last(), k);
        assert(cases.drop_last().take(k) =~= cases.take(k));
        assert(cases.skip(k).drop_last() =~= cases.drop_last().skip(k));
        assert(cases.skip(k).last() == cases.last());
    }
}

/// Where the `k`-th attribute of a variant stands in tokens that follow the
/// variant's template.
pub proof fn lemma_case_attr_at(x: Seq<TokV>, c: CaseV, k: int)
    requires
        fits(x, case_pats(c)),
        0 <= k < c.attrs.len(),
    ensures
        ({
            let o = attrs_pats(c.attrs.take(k)).len() as int;
            let w = c.attrs[k].len() as int;
            &&& attrs_pats(c.attrs.take(k + 1)).len() == o + w + 3
            &&& o + w + 3 < x.len()
            &&& x[o] matches TokV::Punct('#', _)
            &&& x[o + 1] == TokV::Open(Delim::Bracket)
            &&& x.subrange(o + 2, o + 2 + w) == c.attrs[k]
            &&& x[o + 2 + w] == TokV::Close(Delim::Bracket)
        }),
{
    let a = c.attrs;
    let o = attrs_pats(a.take(k)).len() as int;
    let w = a[k].len() as int;
    lemma_attrs_pats_split(a, k + 1);
    assert(a.take(k + 1).drop_last() =~= a.take(k));
    assert(a.take(k + 1).last() == a[k]);
    let ap = attr_pats(a[k]);
    assert(ap.len() == w + 3);
    let cp = case_pats(c);
    assert(cp == attrs_pats(a.take(k)) + ap + attrs_pats(a.skip(k + 1)) + seq![Pat::Exact(TokV::Ident(c.name))]);
    assert forall|m: int| 0 <= m < w + 3 implies cp[o + m] == ap[m] by {}
    assert(fits_one(x[o], cp[o]));
    assert(fits_one(x[o + 1], cp[o + 1]));
    assert(fits_one(x[o + 2 + w], cp[o + 2 + w]));
    assert forall|m: int| 0 <= m < w implies x.subrange(o + 2, o + 2 + w)[m] == a[k][m] by {
        assert(fits_one(x[o + 2 + m], cp[o + 2 + m]));
        assert(ap[2 + m] == Pat::Exact(a[k][m]));
    }
    assert(x.subrange(o + 2, o + 2 + w) =~= a[k]);
}

/// Where a variant's name stands in tokens that follow its template.
pub proof fn lemma_case_name_at(x: Seq<TokV>, c: CaseV)
    requires
        fits(x, case_pats(c)),
    ensures
        x.len() == attrs_pats(c.attrs).len() + 1,
        x[attrs_pats(c.attrs).len() as int] == TokV::Ident(c.name),
{
    let o = attrs_pats(c.attrs).len() as int;
    assert(fits_one(x[o], case_pats(c)[o]));
}

/// Where the `k`-th variant stands in tokens that follow a list template, and
/// what follows it.
pub proof fn lemma_list_at(x: Seq<TokV>, cases: Seq<CaseV>, t: bool, k: int)
    requires
        fits(x, list_pats(cases, t)),
        0 <= k < cases.len(),
    ensures
        ({
            let o = terminated(cases.take(k)).len() as int;
            let w = case_pats(cases[k]).len() as int;
            &&& o + w <= x.len()
            &&& fits(x.subrange(o, o + w), case_pats(cases[k]))
            &&& (k == cases.len() - 1 && !t) ==> x.len() == o + w
            &&& (k < cases.len() - 1 || t) ==> {
                &&& o + w < x.len()
                &&& x[o + w] matches TokV::Punct(',', _)
                &&& terminated(cases.take(k + 1)).len() == o + w + 1
                &&& (k == cases.len() - 1 ==> x.len() == o + w + 1)
            }
        }),
{
    let o = terminated(cases.take(k)).len() as int;
    let cp = case_pats(cases[k]);
    let w = cp.len() as int;
    let lp = list_pats(cases, t);
    assert(cases.take(k + 1).drop_last() =~= cases.take(k));
    assert(cases.take(k + 1).last() == cases[k]);
    let comma = seq![Pat::AnyPunct(',')];
    if k < cases.len() - 1 || t {
        let full = if t { cases } else { cases.drop_last() };
        assert(full.take(k + 1) =~= cases.take(k + 1));
        lemma_terminated_split(full, k + 1);
        assert(lp == terminated(cases.take(k)) + cp + comma + terminated(full.skip(k + 1))
            + (if t { Seq::<Pat>::empty() } else { case_pats(cases.last()) }));
        assert forall|m: int| 0 <= m < w implies lp[o + m] == cp[m] by {}
        assert(lp[o + w] == Pat::AnyPunct(','));
        assert(fits_one(x[o + w], lp[o + w]));
        if k == cases.len() - 1 {
            assert(full.skip(k + 1).len() == 0);
        }
    } else {
        assert(cases.drop_last() =~= cases.take(k));
        assert(lp == terminated(cases.take(k)) + cp);
        assert forall|m: int| 0 <= m < w implies lp[o + m] == cp[m] by {}
    }
    assert forall|m: int| 0 <= m < w implies fits_one(#[trigger] x.subrange(o, o + w)[m], cp[m]) by {
        assert(fits_one(x[o + m], lp[o + m]));
    }
}

/// The tokens `s` hold an invocation of `a` whose body opens at `p` and whose
/// variant list closes at `q`, piece by piece.
pub open spec fn laid_out(s: Seq<TokV>, a: ArgsV, t: bool, p: int, q: int) -> bool {
    let e = s.len() - 1;
    &&& 1 <= p && p + 5 <= q && q + 6 <= e
    &&& s[0] == TokV::Ident(match_kw())
    &&& s.subrange(1, p) == a.expr
    &&& s[p] == TokV::Open(Delim::Brace)
    &&& s[p + 1] == TokV::Ident(a.enum_name)
    &&& s[p + 2] == TokV::Punct(':', true)
    &&& s[p + 3] matches TokV::Punct(':', _)
    &&& s[p + 4] == TokV::Open(Delim::Bracket)
    &&& fits(s.subrange(p + 5, q), list_pats(a.cases, t))
    &&& s[q] == TokV::Close(Delim::Bracket)
    &&& s[q + 1] == TokV::Open(Delim::Paren)
    &&& s[q + 2] == TokV::Ident(a.inner_name)
    &&& s[q + 3] == TokV::Close(Delim::Paren)
    &&& s[q + 4] == TokV::Punct('=', true)
    &&& s[q + 5] matches TokV::Punct('>', _)
    &&& s.subrange(q + 6, e) == a.arm_expr
    &&& s[e] == TokV::Close(Delim::Brace)
}

pub open spec fn invocation_head(a: ArgsV) -> Seq<Pat> {
    seq![
        Pat::Exact(TokV::Open(Delim::Brace)),
        Pat::Exact(TokV::Ident(a.enum_name)),
        Pat::Exact(TokV::Punct(':', true)),
        Pat::AnyPunct(':'),
        Pat::Exact(TokV::Open(Delim::Bracket)),
    ]
}

pub open spec fn invocation_tail(a: ArgsV) -> Seq<Pat> {
    seq![
        Pat::Exact(TokV::Close(Delim::Bracket)),
        Pat::Exact(TokV::Open(Delim::Paren)),
        Pat::Exact(TokV::Ident(a.inner_name)),
        Pat::Exact(TokV::Close(Delim::Paren)),
        Pat::Exact(TokV::Punct('=', true)),
        Pat::AnyPunct('>'),
    ]
}

pub proof fn lemma_fits_laid_out(s: Seq<TokV>, a: ArgsV, t: bool)
    requires
        fits(s, invocation(a, t)),
    ensures
        laid_out(s, a, t, 1 + a.expr.len() as int, 6 + a.expr.len() + list_pats(a.cases, t).len() as int),
{
    let p = 1 + a.expr.len() as int;
    let lp = list_pats(a.cases, t);
    let q = p + 5 + lp.len() as int;
    let inv = invocation(a, t);
    let pa = seq![Pat::Exact(TokV::Ident(match_kw()))];
    let pb = invocation_head(a);
    let pc = invocation_tail(a);
    let pd = seq![Pat::Exact(TokV::Close(Delim::Brace))];
    assert(inv == pa + exact(a.expr) + pb + lp + pc + exact(a.arm_expr) + pd);
    let e = s.len() - 1;
    assert(e == q + 6 + a.arm_expr.len());
    assert(fits_one(s[0], inv[0]));
    assert forall|m: int| 0 <= m < 5 implies fits_one(s[p + m], pb[m]) by {
        assert(inv[p + m] == pb[m]);
        assert(fits_one(s[p + m], inv[p + m]));
    }
    assert forall|m: int| 0 <= m < 6 implies fits_one(s[q + m], pc[m]) by {
        assert(inv[q + m] == pc[m]);
        assert(fits_one(s[q + m], inv[q + m]));
    }
    assert(fits_one(s[p], pb[0]));
    assert(fits_one(s[p + 1], pb[1]));
    assert(fits_one(s[p + 2], pb[2]));
    assert(fits_one(s[p + 3], pb[3]));
    assert(fits_one(s[p + 4], pb[4]));
    assert(fits_one(s[q], pc[0]));
    assert(fits_one(s[q + 1], pc[1]));
    assert(fits_one(s[q + 2], pc[2]));
    assert(fits_one(s[q + 3], pc[3]));
    assert(fits_one(s[q + 4], pc[4]));
    assert(fits_one(s[q + 5], pc[5]));
    assert(inv[e] == pd[0]);
    assert(fits_one(s[e], inv[e]));
    assert forall|m: int| 0 <= m < a.expr.len() implies s.subrange(1, p)[m] == a.expr[m] by {
        assert(inv[1 + m] == exact(a.expr)[m]);
        assert(fits_one(s[1 + m], inv[1 + m]));
    }
    assert(s.subrange(1, p) =~= a.expr);
    assert forall|m: int| 0 <= m < a.arm_expr.len() implies s.subrange(q + 6, e)[m] == a.arm_expr[m] by {
        assert(inv[q + 6 + m] == exact(a.arm_expr)[m]);
        assert(fits_one(s[q + 6 + m], inv[q + 6 + m]));
    }
    assert(s.subrange(q + 6, e) =~= a.arm_expr);
    assert forall|m: int| 0 <= m < lp.len() implies fits_one(#[trigger] s.subrange(p + 5, q)[m], lp[m]) by {
        assert(inv[p + 5 + m] == lp[m]);
        assert(fits_one(s[p + 5 + m], inv[p + 5 + m]));
    }
}

pub proof fn lemma_laid_out_fits(s: Seq<TokV>, a: ArgsV, t: bool, p: int, q: int)
    requires
        laid_out(s, a, t, p, q),
    ensures
        fits(s, invocation(a, t)),
{
    let lp = list_pats(a.cases, t);
    let inv = invocation(a, t);
    let pa = seq![Pat::Exact(TokV::Ident(match_kw()))];
    let pb = invocation_head(a);
    let pc = invocation_tail(a);
    let pd = seq![Pat::Exact(TokV::Close(Delim::Brace))];
    assert(inv == pa + exact(a.expr) + pb + lp + pc + exact(a.arm_expr) + pd);
    let e = s.len() - 1;
    assert(p == 1 + a.expr.len());
    assert(q == p + 5 + lp.len());
    assert(e == q + 6 + a.arm_expr.len());
    assert forall|i: int| 0 <= i < s.len() implies fits_one(#[trigger] s[i], inv[i]) by {
        if i == 0 {
        } else if i < p {
            assert(s[i] == s.subrange(1, p)[i - 1]);
            assert(inv[i] == exact(a.expr)[i - 1]);
        } else if i < p + 5 {
            assert(inv[i] == pb[i - p]);
        } else if i < q {
            assert(s[i] == s.subrange(p + 5, q)[i - p - 5]);
            assert(fits_one(s.subrange(p + 5, q)[i - p - 5], lp[i - p - 5]));
            assert(inv[i] == lp[i - p - 5]);
        } else if i < q + 6 {
            assert(inv[i] == pc[i - q]);
        } else if i < e {
            assert(s[i] == s.subrange(q + 6, e)[i - q - 6]);
            assert(inv[i] == exact(a.arm_expr)[i - q - 6]);
        } else {
            assert(inv[i] == pd[0]);
        }
    }
}

} // verus!
