use vstd::prelude::*;
use crate::token::{
    balanced, copy_range, depth, delta, is_balanced, lemma_depth_append, render, render_range, toks_view, Delim, Tok,
    TokV,
};
use crate::grammar::{
    args_ok, attr_ok, attr_pats, attr_toks, attrs_pats, case_ok, case_pats, exact, fits, invocation,
    laid_out, lemma_balanced_append, lemma_balanced_flat, lemma_balanced_wrap, lemma_case_attr_at,
    lemma_case_name_at, lemma_fits_append, lemma_fits_exact, lemma_fits_laid_out, lemma_laid_out_fits,
    lemma_list_at, lemma_list_balanced, list_pats, match_kw, reads_as, terminated, ArgsV, CaseV, Pat,
};
use crate::syn_parse::{
    parses_as_expr, parses_as_ident, parses_as_outer_attrs, parses_as_scrutinee, syn_accepts_expr,
    syn_accepts_ident, syn_accepts_scrutinee,
};

verus! {

/// A listed variant: the contents of each of its attributes, and its name.
pub struct Case {
    pub attrs: Vec<Vec<Tok>>,
    pub name: String,
}

pub open spec fn attrs_view(a: Seq<Vec<Tok>>) -> Seq<Seq<TokV>> {
    a.map_values(|x: Vec<Tok>| toks_view(x@))
}

impl View for Case {
    type V = CaseV;

    open spec fn view(&self) -> CaseV {
        CaseV { attrs: attrs_view(self.attrs@), name: self.name@ }
    }
}

pub open spec fn cases_view(c: Seq<Case>) -> Seq<CaseV> {
    c.map_values(|x: Case| x@)
}

/// A parsed invocation `match expr { enum_name::[cases](inner_name) => arm_expr }`.
pub struct Args {
    pub expr: Vec<Tok>,
    pub enum_name: String,
    pub cases: Vec<Case>,
    pub inner_name: String,
    pub arm_expr: Vec<Tok>,
}

impl View for Args {
    type V = ArgsV;

    open spec fn view(&self) -> ArgsV {
        ArgsV {
            expr: toks_view(self.expr@),
            enum_name: self.enum_name@,
            cases: cases_view(self.cases@),
            inner_name: self.inner_name@,
            arm_expr: toks_view(self.arm_expr@),
        }
    }
}

/// What the parser expected where it stopped.
#[derive(Clone, Copy, PartialEq, Eq, Structural, Debug)]
pub enum Expected {
    /// The leading `match`.
    MatchKeyword,
    /// The matched expression, or the arms' shared body.
    Expression,
    /// The braces around the arms.
    Brace,
    /// An enum, variant or binding name.
    Ident,
    /// `::` after the enum name.
    DoubleColon,
    /// The brackets around the variant list, or around an attribute.
    Bracket,
    /// A well-formed attribute.
    Attribute,
    /// At least one variant.
    Case,
    /// `,` between variants.
    Comma,
    /// The parentheses around the binding.
    Paren,
    /// `=>` before the body.
    Arrow,
}

/// A syntax error: what was expected, at which token index.
#[derive(Clone, Copy, PartialEq, Eq, Structural, Debug)]
pub struct ParseError {
    pub expected: Expected,
    pub at: usize,
}

fn fail<T>(expected: Expected, at: usize) -> (r: Result<T, ParseError>)
    ensures
        r == Err::<T, ParseError>(ParseError { expected, at }),
{
    Err(ParseError { expected, at })
}

/// The tokens of the attribute `#[content]`.
pub fn attr_tokens(content: &Vec<Tok>) -> (r: Vec<Tok>)
    ensures
        toks_view(r@) == attr_toks(toks_view(content@)),
{
    let mut out: Vec<Tok> = Vec::new();
    out.push(Tok::Punct('#', false));
    out.push(Tok::Open(Delim::Bracket));
    let mut i: usize = 0;
    while i < content.len()
        invariant
            i <= content.len(),
            toks_view(out@) == seq![TokV::Punct('#', false), TokV::Open(Delim::Bracket)]
                + toks_view(content@).take(i as int),
        decreases content.len() - i,
    {
        let t = content[i].copy();
        let ghost before = out@;
        out.push(t);
        assert(toks_view(out@) =~= toks_view(before).push(t@));
        assert(toks_view(content@).take(i + 1) =~= toks_view(content@).take(i as int).push(t@));
        i = i + 1;
    }
    let ghost before = out@;
    out.push(Tok::Close(Delim::Bracket));
    assert(toks_view(out@) =~= toks_view(before).push(TokV::Close(Delim::Bracket)));
    assert(toks_view(content@).take(content.len() as int) =~= toks_view(content@));
    assert(toks_view(out@) =~= attr_toks(toks_view(content@)));
    out
}

/// The first index `j` in `lo..hi` where a group closes that opened before `lo`.
fn find_close(v: &Vec<Tok>, lo: usize, hi: usize) -> (r: Option<usize>)
    requires
        lo <= hi <= v.len(),
    ensures
        r matches Some(j) ==> {
            &&& lo <= j < hi
            &&& balanced(toks_view(v@).subrange(lo as int, j as int))
            &&& toks_view(v@)[j as int] matches TokV::Close(_)
        },
        forall|k: int|
            lo <= k < hi && balanced(#[trigger] toks_view(v@).subrange(lo as int, k))
                && (toks_view(v@)[k] matches TokV::Close(_)) ==> r == Some(k as usize),
{
    let ghost s = toks_view(v@);
    let mut d: usize = 0;
    let mut i: usize = lo;
    while i < hi
        invariant
            lo <= i <= hi <= v.len(),
            s == toks_view(v@),
            d <= i - lo,
            d as int == depth(s.subrange(lo as int, i as int)),
            forall|k: int|
                0 <= k <= i - lo ==> depth(#[trigger] s.subrange(lo as int, i as int).take(k)) >= 0,
            forall|m: int|
                lo <= m < i ==> depth(#[trigger] s.subrange(lo as int, m)) != 0 || !(s[m] matches TokV::Close(_)),
        decreases hi - i,
    {
        let ghost pre = s.subrange(lo as int, i as int);
        let ghost post = s.subrange(lo as int, i + 1);
        proof {
            assert(post.drop_last() =~= pre);
            assert(post.last() == v@[i as int]@);
        }
        match &v[i] {
            Tok::Open(_) => {
                d = d + 1;
            },
            Tok::Close(_) => {
                if d == 0 {
                    assert(pre.take(pre.len() as int) =~= pre);
                    assert forall|k: int|
                        lo <= k < hi && balanced(#[trigger] s.subrange(lo as int, k))
                            && (s[k] matches TokV::Close(_)) implies k == i by {
                        if k > i {
                            assert(s.subrange(lo as int, k).take(i + 1 - lo) =~= post);
                        }
                    }
                    return Some(i);
                }
                d = d - 1;
            },
            _ => {},
        }
        proof {
            assert forall|m: int| lo <= m < i + 1 implies depth(#[trigger] s.subrange(lo as int, m)) != 0 || !(s[m] matches TokV::Close(_)) by {
                if m == i {
                    assert(s.subrange(lo as int, m) == pre);
                }
            }
            assert forall|k: int| 0 <= k <= i + 1 - lo implies depth(#[trigger] post.take(k)) >= 0 by {
                if k <= i - lo {
                    assert(post.take(k) =~= pre.take(k));
                } else {
                    assert(post.take(k) =~= post);
                }
            }
        }
        i = i + 1;
    }
    None
}

/// The group that ends at index `e` opens at index `p` when `v[p]` opens a
/// group and `v[p+1..e]` closes as many groups as it opens.
pub open spec fn opens_body(s: Seq<TokV>, p: int, e: int) -> bool {
    (s[p] matches TokV::Open(_)) && depth(s.subrange(p + 1, e)) == 0
}

/// The last index `p` in `1..e` at which the group that ends at `e` opens.
fn find_body_open(v: &Vec<Tok>, e: usize) -> (r: Option<usize>)
    requires
        e < v.len(),
    ensures
        r matches Some(p) ==> 1 <= p < e && opens_body(toks_view(v@), p as int, e as int),
        forall|m: int|
            1 <= m < e && (r matches Some(p) ==> p < m) ==> !#[trigger] opens_body(toks_view(v@), m, e as int),
{
    let ghost s = toks_view(v@);
    let mut c: usize = 0;
    let mut k: usize = e;
    assert(s.subrange(e as int, e as int) =~= Seq::<TokV>::empty());
    while k > 1
        invariant
            1 <= k <= e < v.len() || (k == e && e < 1),
            s == toks_view(v@),
            c <= e - k,
            c as int == -depth(s.subrange(k as int, e as int)),
            forall|m: int| k <= m < e ==> !#[trigger] opens_body(s, m, e as int),
        decreases k,
    {
        k = k - 1;
        proof {
            assert(s.subrange(k as int, e as int) =~= seq![s[k as int]] + s.subrange(k + 1, e as int));
            lemma_depth_append(seq![s[k as int]], s.subrange(k + 1, e as int));
            assert(seq![s[k as int]].drop_last() =~= Seq::<TokV>::empty());
            assert(depth(Seq::<TokV>::empty()) == 0);
            assert(depth(seq![s[k as int]]) == delta(s[k as int]));
            assert(s[k as int] == v@[k as int]@);
        }
        match &v[k] {
            Tok::Close(_) => {
                c = c + 1;
            },
            Tok::Open(_) => {
                if c == 0 {
                    return Some(k);
                }
                c = c - 1;
            },
            _ => {},
        }
    }
    None
}

/// In balanced tokens, more groups close after an opening than open there.
proof fn lemma_no_later_open(b: Seq<TokV>, i: int)
    requires
        balanced(b),
        0 <= i < b.len(),
        b[i] matches TokV::Open(_),
    ensures
        depth(b.skip(i + 1)) < 0,
{
    assert(b =~= b.take(i + 1) + b.skip(i + 1));
    lemma_depth_append(b.take(i + 1), b.skip(i + 1));
    assert(b.take(i + 1).drop_last() =~= b.take(i));
    assert(depth(b.take(i)) >= 0);
}

proof fn lemma_attr_fits(s: Seq<TokV>, i: int, j: int)
    requires
        0 <= i,
        i + 2 <= j < s.len(),
        s[i] matches TokV::Punct('#', _),
        s[i + 1] == TokV::Open(Delim::Bracket),
        s[j] == TokV::Close(Delim::Bracket),
    ensures
        fits(s.subrange(i, j + 1), attr_pats(s.subrange(i + 2, j))),
{
    let c = s.subrange(i + 2, j);
    assert(s.subrange(i, j + 1) =~= seq![s[i], s[i + 1]] + c + seq![s[j]]);
    let head = seq![Pat::AnyPunct('#'), Pat::Exact(TokV::Open(Delim::Bracket))];
    let tail = seq![Pat::Exact(TokV::Close(Delim::Bracket))];
    assert(fits(seq![s[i], s[i + 1]], head));
    assert(fits(seq![s[j]], tail));
    lemma_fits_exact(c);
    lemma_fits_append(seq![s[i], s[i + 1]], head, c, exact(c));
    lemma_fits_append(seq![s[i], s[i + 1]] + c, head + exact(c), seq![s[j]], tail);
}

proof fn lemma_split_fits(s: Seq<TokV>, a: int, b: int, c: int, p: Seq<Pat>, q: Seq<Pat>)
    requires
        0 <= a <= b <= c <= s.len(),
        fits(s.subrange(a, b), p),
        fits(s.subrange(b, c), q),
    ensures
        fits(s.subrange(a, c), p + q),
{
    assert(s.subrange(a, c) =~= s.subrange(a, b) + s.subrange(b, c));
    lemma_fits_append(s.subrange(a, b), p, s.subrange(b, c), q);
}

/// `s` is a list of the variants `cases`, with or without a trailing comma.
pub open spec fn list_fits(s: Seq<TokV>, cases: Seq<CaseV>) -> bool {
    exists|t: bool| #[trigger] fits(s, list_pats(cases, t))
}

/// The variant `c` is well-formed and its tokens start at `pos`, before `hi`.
pub open spec fn case_here(s: Seq<TokV>, pos: int, hi: int, c: CaseV) -> bool {
    &&& case_ok(c)
    &&& pos + case_pats(c).len() <= hi
    &&& fits(s.subrange(pos, pos + case_pats(c).len()), case_pats(c))
}

/// `s` lists the well-formed variants `cases`.
pub open spec fn list_here(s: Seq<TokV>, cases: Seq<CaseV>, t: bool) -> bool {
    &&& cases.len() > 0
    &&& forall|i: int| 0 <= i < cases.len() ==> case_ok(#[trigger] cases[i])
    &&& fits(s, list_pats(cases, t))
}

/// Where the `k`-th attribute of a well-formed variant stands.
proof fn lemma_attr_here(s: Seq<TokV>, pos: int, hi: int, c: CaseV, k: int, i: int)
    requires
        case_here(s, pos, hi, c),
        0 <= pos,
        hi <= s.len(),
        0 <= k < c.attrs.len(),
        i == pos + attrs_pats(c.attrs.take(k)).len(),
    ensures
        i + 2 + c.attrs[k].len() < hi,
        s[i] matches TokV::Punct('#', _),
        s[i + 1] == TokV::Open(Delim::Bracket),
        s.subrange(i + 2, i + 2 + c.attrs[k].len()) == c.attrs[k],
        s[i + 2 + c.attrs[k].len()] == TokV::Close(Delim::Bracket),
        attr_ok(c.attrs[k]),
        pos + attrs_pats(c.attrs.take(k + 1)).len() == i + 3 + c.attrs[k].len(),
{
    let x = s.subrange(pos, pos + case_pats(c).len());
    lemma_case_attr_at(x, c, k);
    let o = i - pos;
    let wd = c.attrs[k].len() as int;
    assert(s[i] == x[o]);
    assert(s[i + 1] == x[o + 1]);
    assert(s[i + 2 + wd] == x[o + 2 + wd]);
    assert(s.subrange(i + 2, i + 2 + wd) =~= x.subrange(o + 2, o + 2 + wd));
}

/// Where the name of a well-formed variant stands.
proof fn lemma_name_here(s: Seq<TokV>, pos: int, hi: int, c: CaseV, i: int)
    requires
        case_here(s, pos, hi, c),
        0 <= pos,
        hi <= s.len(),
        i == pos + attrs_pats(c.attrs).len(),
    ensures
        i < hi,
        s[i] == TokV::Ident(c.name),
        syn_accepts_ident(c.name),
        i + 1 == pos + case_pats(c).len(),
{
    let x = s.subrange(pos, pos + case_pats(c).len());
    lemma_case_name_at(x, c);
    assert(s[i] == x[i - pos]);
}

/// Where the `k`-th variant of a well-formed list stands, and what follows it.
proof fn lemma_case_in_list(s: Seq<TokV>, lo: int, hi: int, ws: Seq<CaseV>, wt: bool, k: int, pos: int)
    requires
        0 <= lo <= hi <= s.len(),
        list_here(s.subrange(lo, hi), ws, wt),
        0 <= k < ws.len(),
        pos == lo + terminated(ws.take(k)).len(),
    ensures
        case_here(s, pos, hi, ws[k]),
        ({
            let end = pos + case_pats(ws[k]).len();
            &&& (k == ws.len() - 1 && !wt) ==> end == hi
            &&& (k < ws.len() - 1 || wt) ==> {
                &&& end < hi
                &&& s[end] matches TokV::Punct(',', _)
                &&& end + 1 == lo + terminated(ws.take(k + 1)).len()
                &&& (k == ws.len() - 1 ==> end + 1 == hi)
            }
        }),
{
    let x = s.subrange(lo, hi);
    lemma_list_at(x, ws, wt, k);
    let o = pos - lo;
    let wd = case_pats(ws[k]).len() as int;
    assert(s.subrange(pos, pos + wd) =~= x.subrange(o, o + wd));
    assert(case_ok(ws[k]));
    if k < ws.len() - 1 || wt {
        assert(s[pos + wd] == x[o + wd]);
    }
}

/// Parses one listed variant starting at `pos`: its attributes, then its name.
fn parse_case(v: &Vec<Tok>, pos: usize, hi: usize, w: Ghost<CaseV>) -> (r: Result<(Case, usize), ParseError>)
    requires
        pos <= hi <= v.len(),
    ensures
        case_here(toks_view(v@), pos as int, hi as int, w@) ==> (r matches Ok((_, end)) && end == pos + case_pats(w@).len()),
        r matches Ok((c, end)) ==> {
            &&& pos < end <= hi
            &&& case_ok(c@)
            &&& fits(toks_view(v@).subrange(pos as int, end as int), case_pats(c@))
        },
        r matches Err(e) ==> e.at <= v.len() && e.expected != Expected::MatchKeyword,
{
    let ghost s = toks_view(v@);
    let ghost wc = w@;
    let ghost here = case_here(s, pos as int, hi as int, wc);
    let mut attrs: Vec<Vec<Tok>> = Vec::new();
    let mut i: usize = pos;
    while i < hi && v[i].is_punct('#')
        invariant
            pos <= i <= hi <= v.len(),
            s == toks_view(v@),
            wc == w@,
            here == case_here(s, pos as int, hi as int, wc),
            here ==> attrs@.len() <= wc.attrs.len() && i == pos + attrs_pats(wc.attrs.take(attrs@.len() as int)).len(),
            fits(s.subrange(pos as int, i as int), attrs_pats(attrs_view(attrs@))),
            forall|j: int| 0 <= j < attrs@.len() ==> attr_ok(#[trigger] attrs_view(attrs@)[j]),
        decreases hi - i,
    {
        let ghost k = attrs@.len() as int;
        proof {
            if here {
                if k == wc.attrs.len() {
                    assert(wc.attrs.take(k) =~= wc.attrs);
                    lemma_name_here(s, pos as int, hi as int, wc, i as int);
                    assert(false);
                }
                lemma_attr_here(s, pos as int, hi as int, wc, k, i as int);
            }
        }
        if i + 1 >= hi || !v[i + 1].is_open(Delim::Bracket) {
            return fail(Expected::Bracket, i + 1);
        }
        let j = match find_close(v, i + 2, hi) {
            Some(j) => j,
            None => {
                return fail(Expected::Bracket, i + 1);
            },
        };
        proof {
            if here {
                assert(balanced(s.subrange(i + 2, i + 2 + wc.attrs[k].len())));
                assert(j == i + 2 + wc.attrs[k].len());
            }
        }
        if !v[j].is_close(Delim::Bracket) {
            return fail(Expected::Bracket, j);
        }
        let content = copy_range(v, i + 2, j);
        let full = attr_tokens(&content);
        let text = render_range(&full, 0, full.len());
        proof {
            assert(toks_view(full@).subrange(0, full@.len() as int) =~= toks_view(full@));
        }
        proof {
            if here {
                assert(toks_view(content@) == wc.attrs[k]);
            }
        }
        if !parses_as_outer_attrs(&text) {
            return fail(Expected::Attribute, i);
        }
        let ghost old_attrs = attrs@;
        attrs.push(content);
        proof {
            if here {
                assert(wc.attrs.take(k + 1).len() == k + 1);
            }
            let av = attrs_view(attrs@);
            assert(av.drop_last() =~= attrs_view(old_attrs));
            assert(av.last() == s.subrange(i + 2, j as int));
            lemma_attr_fits(s, i as int, j as int);
            lemma_split_fits(s, pos as int, i as int, j + 1, attrs_pats(attrs_view(old_attrs)), attr_pats(av.last()));
            assert forall|k: int| 0 <= k < attrs@.len() implies attr_ok(#[trigger] av[k]) by {
                if k < old_attrs.len() {
                    assert(av[k] == attrs_view(old_attrs)[k]);
                }
            }
        }
        i = j + 1;
    }
    proof {
        if here {
            let k = attrs@.len() as int;
            if k < wc.attrs.len() {
                lemma_attr_here(s, pos as int, hi as int, wc, k, i as int);
                assert(false);
            }
            assert(wc.attrs.take(k) =~= wc.attrs);
            lemma_name_here(s, pos as int, hi as int, wc, i as int);
        }
    }
    if i >= hi {
        return fail(Expected::Ident, i);
    }
    let name = match &v[i] {
        Tok::Ident(name) => name.clone(),
        _ => {
            return fail(Expected::Ident, i);
        },
    };
    if !parses_as_ident(&name) {
        return fail(Expected::Ident, i);
    }
    let c = Case { attrs, name };
    proof {
        assert(s.subrange(i as int, i + 1) =~= seq![TokV::Ident(name@)]);
        assert(fits(s.subrange(i as int, i + 1), seq![Pat::Exact(TokV::Ident(name@))]));
        lemma_split_fits(s, pos as int, i as int, i + 1, attrs_pats(attrs_view(c.attrs@)), seq![Pat::Exact(TokV::Ident(name@))]);
    }
    Ok((c, i + 1))
}

/// Parses the comma-separated variants in `v[lo..hi]`; a trailing comma is allowed.
fn parse_cases(v: &Vec<Tok>, lo: usize, hi: usize, w: Ghost<(Seq<CaseV>, bool)>) -> (r: Result<Vec<Case>, ParseError>)
    requires
        lo <= hi <= v.len(),
    ensures
        list_here(toks_view(v@).subrange(lo as int, hi as int), w@.0, w@.1) ==> r is Ok,
        r matches Ok(cs) ==> cs@.len() > 0,
        r matches Ok(cs) ==> forall|i: int| 0 <= i < cs@.len() ==> case_ok(#[trigger] cases_view(cs@)[i]),
        r matches Ok(cs) ==> list_fits(toks_view(v@).subrange(lo as int, hi as int), cases_view(cs@)),
        r matches Err(e) ==> e.at <= v.len() && e.expected != Expected::MatchKeyword,
{
    let ghost s = toks_view(v@);
    let ghost ws = w@.0;
    let ghost wt = w@.1;
    let ghost x = s.subrange(lo as int, hi as int);
    let ghost here = list_here(x, ws, wt);
    proof {
        if here {
            lemma_list_at(x, ws, wt, 0);
        }
    }
    if lo == hi {
        return fail(Expected::Case, lo);
    }
    let mut cases: Vec<Case> = Vec::new();
    let mut pos: usize = lo;
    loop
        invariant
            lo <= pos < hi <= v.len(),
            s == toks_view(v@),
            x == s.subrange(lo as int, hi as int),
            ws == w@.0,
            wt == w@.1,
            here == list_here(x, ws, wt),
            here ==> cases@.len() < ws.len() && pos == lo + terminated(ws.take(cases@.len() as int)).len(),
            fits(s.subrange(lo as int, pos as int), terminated(cases_view(cases@))),
            forall|i: int| 0 <= i < cases@.len() ==> case_ok(#[trigger] cases_view(cases@)[i]),
        decreases hi - pos,
    {
        let ghost k = cases@.len() as int;
        let ghost wk = if k < ws.len() { ws[k] } else { arbitrary() };
        proof {
            if here {
                lemma_case_in_list(s, lo as int, hi as int, ws, wt, k, pos as int);
            }
        }
        let (c, end) = match parse_case(v, pos, hi, Ghost(wk)) {
            Ok(x) => x,
            Err(e) => {
                return Err(e);
            },
        };
        let ghost old_cases = cases@;
        let ghost cv = c@;
        cases.push(c);
        let ghost now = cases_view(cases@);
        proof {
            assert(now.drop_last() =~= cases_view(old_cases));
            assert(now.last() == cv);
            assert forall|i: int| 0 <= i < cases@.len() implies case_ok(#[trigger] now[i]) by {
                if i < old_cases.len() {
                    assert(now[i] == cases_view(old_cases)[i]);
                }
            }
            lemma_split_fits(s, lo as int, pos as int, end as int, terminated(cases_view(old_cases)), case_pats(cv));
        }
        if end == hi {
            assert(fits(s.subrange(lo as int, hi as int), list_pats(now, false)));
            assert(list_fits(toks_view(v@).subrange(lo as int, hi as int), cases_view(cases@)));
            return Ok(cases);
        }
        if !v[end].is_punct(',') {
            return fail(Expected::Comma, end);
        }
        proof {
            assert(fits(s.subrange(end as int, end + 1), seq![Pat::AnyPunct(',')]));
            lemma_split_fits(s, lo as int, end as int, end + 1, terminated(cases_view(old_cases)) + case_pats(cv), seq![Pat::AnyPunct(',')]);
            assert(terminated(now) == terminated(cases_view(old_cases)) + case_pats(cv) + seq![Pat::AnyPunct(',')]);
        }
        pos = end + 1;
        if pos == hi {
            assert(fits(s.subrange(lo as int, hi as int), list_pats(now, true)));
            assert(list_fits(toks_view(v@).subrange(lo as int, hi as int), cases_view(cases@)));
            return Ok(cases);
        }
    }
}

fn is_match_keyword(w: &String) -> (r: bool)
    ensures
        r == (w@ == match_kw()),
{
    let st = w.as_str();
    if st.unicode_len() != 5 {
        return false;
    }
    let r = st.get_char(0) == 'm' && st.get_char(1) == 'a' && st.get_char(2) == 't'
        && st.get_char(3) == 'c' && st.get_char(4) == 'h';
    proof {
        if r {
            assert(w@ =~= match_kw());
        }
    }
    r
}

/// Reads `v[i]` as an identifier that syn accepts.
fn ident_at(v: &Vec<Tok>, i: usize) -> (r: Option<String>)
    requires
        i < v.len(),
    ensures
        r matches Some(n) ==> v@[i as int]@ == TokV::Ident(n@) && syn_accepts_ident(n@),
        forall|n: Seq<char>| v@[i as int]@ == TokV::Ident(n) && syn_accepts_ident(n) ==> r is Some,
{
    match &v[i] {
        Tok::Ident(n) => {
            if parses_as_ident(n) {
                Some(n.clone())
            } else {
                None
            }
        },
        _ => None,
    }
}

/// Two groups closing a balanced run from `lo` close at the same index.
proof fn lemma_first_close_unique(s: Seq<TokV>, lo: int, q1: int, q2: int)
    requires
        0 <= lo <= q1 < s.len(),
        lo <= q2 < s.len(),
        balanced(s.subrange(lo, q1)),
        balanced(s.subrange(lo, q2)),
        s[q1] matches TokV::Close(_),
        s[q2] matches TokV::Close(_),
    ensures
        q1 == q2,
{
    if q1 < q2 {
        let y = s.subrange(lo, q2).take(q1 - lo + 1);
        assert(y.drop_last() =~= s.subrange(lo, q1));
        assert(y.last() == s[q1]);
        assert(depth(y) < 0);
    } else if q2 < q1 {
        let y = s.subrange(lo, q1).take(q2 - lo + 1);
        assert(y.drop_last() =~= s.subrange(lo, q2));
        assert(y.last() == s[q2]);
        assert(depth(y) < 0);
    }
}

proof fn lemma_case_unique_from(s: Seq<TokV>, pos: int, hi1: int, hi2: int, c1: CaseV, c2: CaseV, k: int)
    requires
        0 <= pos,
        hi1 <= s.len(),
        hi2 <= s.len(),
        case_here(s, pos, hi1, c1),
        case_here(s, pos, hi2, c2),
        0 <= k <= c1.attrs.len(),
        k <= c2.attrs.len(),
        c1.attrs.take(k) == c2.attrs.take(k),
    ensures
        c1 == c2,
    decreases c1.attrs.len() - k,
{
    let i = pos + attrs_pats(c1.attrs.take(k)).len();
    if k < c1.attrs.len() && k < c2.attrs.len() {
        lemma_attr_here(s, pos, hi1, c1, k, i);
        lemma_attr_here(s, pos, hi2, c2, k, i);
        let w1 = c1.attrs[k].len() as int;
        let w2 = c2.attrs[k].len() as int;
        lemma_first_close_unique(s, i + 2, i + 2 + w1, i + 2 + w2);
        assert(c1.attrs.take(k + 1) =~= c1.attrs.take(k).push(c1.attrs[k]));
        assert(c2.attrs.take(k + 1) =~= c2.attrs.take(k).push(c2.attrs[k]));
        lemma_case_unique_from(s, pos, hi1, hi2, c1, c2, k + 1);
    } else if k < c1.attrs.len() {
        lemma_attr_here(s, pos, hi1, c1, k, i);
        assert(c2.attrs.take(k) =~= c2.attrs);
        lemma_name_here(s, pos, hi2, c2, i);
    } else if k < c2.attrs.len() {
        lemma_attr_here(s, pos, hi2, c2, k, i);
        assert(c1.attrs.take(k) =~= c1.attrs);
        lemma_name_here(s, pos, hi1, c1, i);
    } else {
        assert(c1.attrs.take(k) =~= c1.attrs);
        assert(c2.attrs.take(k) =~= c2.attrs);
        lemma_name_here(s, pos, hi1, c1, i);
        lemma_name_here(s, pos, hi2, c2, i);
    }
}

proof fn lemma_list_unique_from(s: Seq<TokV>, lo: int, hi: int, c1: Seq<CaseV>, t1: bool, c2: Seq<CaseV>, t2: bool, k: int)
    requires
        0 <= lo <= hi <= s.len(),
        list_here(s.subrange(lo, hi), c1, t1),
        list_here(s.subrange(lo, hi), c2, t2),
        0 <= k < c1.len(),
        k < c2.len(),
        c1.take(k) == c2.take(k),
    ensures
        c1 == c2,
    decreases c1.len() - k,
{
    let pos = lo + terminated(c1.take(k)).len();
    lemma_case_in_list(s, lo, hi, c1, t1, k, pos);
    lemma_case_in_list(s, lo, hi, c2, t2, k, pos);
    assert(c1[k].attrs.take(0) =~= c2[k].attrs.take(0));
    lemma_case_unique_from(s, pos, hi, hi, c1[k], c2[k], 0);
    assert(c1.take(k + 1) =~= c1.take(k).push(c1[k]));
    assert(c2.take(k + 1) =~= c2.take(k).push(c2[k]));
    let end = pos + case_pats(c1[k]).len();
    if k + 1 < c1.len() && k + 1 < c2.len() {
        lemma_list_unique_from(s, lo, hi, c1, t1, c2, t2, k + 1);
    } else if k + 1 < c1.len() {
        lemma_case_in_list(s, lo, hi, c1, t1, k + 1, end + 1);
        assert(case_pats(c1[k + 1]).len() >= 1);
    } else if k + 1 < c2.len() {
        lemma_case_in_list(s, lo, hi, c2, t2, k + 1, end + 1);
        assert(case_pats(c2[k + 1]).len() >= 1);
    } else {
        assert(c1 =~= c1.take(k + 1));
        assert(c2 =~= c2.take(k + 1));
    }
}

/// A token sequence reads as at most one invocation.
pub proof fn lemma_reading_unique(s: Seq<TokV>, a1: ArgsV, a2: ArgsV)
    requires
        reads_as(s, a1),
        reads_as(s, a2),
    ensures
        a1 == a2,
{
    let t1 = choose|t: bool| #[trigger] fits(s, invocation(a1, t));
    let t2 = choose|t: bool| #[trigger] fits(s, invocation(a2, t));
    lemma_fits_laid_out(s, a1, t1);
    lemma_fits_laid_out(s, a2, t2);
    let p1 = 1 + a1.expr.len() as int;
    let p2 = 1 + a2.expr.len() as int;
    let q1 = 6 + a1.expr.len() + list_pats(a1.cases, t1).len() as int;
    let q2 = 6 + a2.expr.len() + list_pats(a2.cases, t2).len() as int;
    lemma_laid_out_binding(s, a1, t1, p1, q1);
    lemma_laid_out_binding(s, a2, t2, p2, q2);
    lemma_binding_list(s, a1, t1, p1, q1);
    lemma_binding_list(s, a2, t2, p2, q2);
    lemma_list_read_unique(s, a1, t1, p1, q1, a2, t2, p2, q2);
    lemma_body_open(s, a1, t1, p1, q1);
    assert(a1.cases.take(0) =~= a2.cases.take(0));
    lemma_list_unique_from(s, p1 + 5, q1, a1.cases, t1, a2.cases, t2, 0);
}

/// The error `err` (`None` for success) is the one fixed for `s` at each stage
/// that `s` reaches: the first missing or malformed part after the body's
/// braces, the variant list, or the binding.
pub open spec fn error_fixed(s: Seq<TokV>, err: Option<ParseError>) -> bool {
    let p = body_at(s);
    let q = list_at(s);
    let b = binding_at(s);
    &&& body_ok(s) && !scrutinee_ok(s, p) ==> err == Some(ParseError { expected: Expected::Expression, at: 1 })
    &&& body_ok(s) && scrutinee_ok(s, p) && !name_ok(s, p + 1) ==> err == Some(
        ParseError { expected: Expected::Ident, at: (p + 1) as usize },
    )
    &&& body_ok(s) && scrutinee_ok(s, p) && name_ok(s, p + 1) && !colons_ok(s, p + 2) ==> err == Some(
        ParseError { expected: Expected::DoubleColon, at: (p + 2) as usize },
    )
    &&& body_ok(s) && scrutinee_ok(s, p) && name_ok(s, p + 1) && colons_ok(s, p + 2) && !bracket_ok(s, p + 4)
        ==> err == Some(ParseError { expected: Expected::Bracket, at: (p + 4) as usize })
    &&& list_ok(s) && !paren_ok(s, q) ==> err == Some(ParseError { expected: Expected::Paren, at: (q + 1) as usize })
    &&& list_ok(s) && paren_ok(s, q) && !binding_name_ok(s, q) ==> err == Some(
        ParseError { expected: Expected::Ident, at: (q + 2) as usize },
    )
    &&& binding_ok(s) && !arrow_ok(s, b) ==> err == Some(ParseError { expected: Expected::Arrow, at: (b + 4) as usize })
    &&& binding_ok(s) && arrow_ok(s, b) && !arm_ok(s, b) ==> err == Some(
        ParseError { expected: Expected::Expression, at: (b + 6) as usize },
    )
}

/// `s` is a well-formed invocation.
pub open spec fn well_formed(s: Seq<TokV>) -> bool {
    exists|a: ArgsV| #[trigger] reads_as(s, a)
}

/// What a well-formed invocation reads as (there is one reading only: see
/// `lemma_reading_unique`).
pub open spec fn reading(s: Seq<TokV>) -> ArgsV {
    choose|a: ArgsV| #[trigger] reads_as(s, a)
}

/// `s` starts with `match`, ends with `}`, and the group that this `}` closes
/// opens at `p`, enclosing balanced tokens.
pub open spec fn body_open_at(s: Seq<TokV>, p: int) -> bool {
    let e = s.len() - 1;
    &&& 1 <= p < e
    &&& s[0] == TokV::Ident(match_kw())
    &&& s[p] == TokV::Open(Delim::Brace)
    &&& s[e] == TokV::Close(Delim::Brace)
    &&& balanced(s.subrange(p + 1, e))
}

/// The body of `s` is a balanced brace group after `match`.
pub open spec fn body_ok(s: Seq<TokV>) -> bool {
    exists|p: int| #[trigger] body_open_at(s, p)
}

/// The index of the `{` opening the body, when `body_ok(s)`.
pub open spec fn body_at(s: Seq<TokV>) -> int {
    choose|p: int| #[trigger] body_open_at(s, p)
}

/// The matched expression `s[1..p]` is balanced and syn accepts it.
pub open spec fn scrutinee_ok(s: Seq<TokV>, p: int) -> bool {
    balanced(s.subrange(1, p)) && syn_accepts_scrutinee(render(s.subrange(1, p)))
}

/// `s[i]` is an identifier syn accepts, before the body's last token.
pub open spec fn name_ok(s: Seq<TokV>, i: int) -> bool {
    i < s.len() - 1 && exists|n: Seq<char>| s[i] == TokV::Ident(n) && #[trigger] syn_accepts_ident(n)
}

/// `::` stands at `i`, before the body's last token.
pub open spec fn colons_ok(s: Seq<TokV>, i: int) -> bool {
    i + 1 < s.len() - 1 && s[i] == TokV::Punct(':', true) && s[i + 1] matches TokV::Punct(':', _)
}

/// A `[` stands at `i`, before the body's last token.
pub open spec fn bracket_ok(s: Seq<TokV>, i: int) -> bool {
    i < s.len() - 1 && s[i] == TokV::Open(Delim::Bracket)
}

/// The body opens at `p` and at no later index.
proof fn lemma_body_unique(s: Seq<TokV>, p: int)
    requires
        body_open_at(s, p),
    ensures
        opens_body(s, p, s.len() - 1),
        forall|m: int| p < m < s.len() - 1 ==> !#[trigger] opens_body(s, m, s.len() - 1),
{
    let e = s.len() - 1;
    let body = s.subrange(p + 1, e);
    assert forall|m: int| p < m < e implies !#[trigger] opens_body(s, m, e) by {
        if s[m] matches TokV::Open(_) {
            assert(body[m - p - 1] == s[m]);
            lemma_no_later_open(body, m - p - 1);
            assert(body.skip(m - p) =~= s.subrange(m + 1, e));
        }
    }
}

/// Everything up to the variant list `[...]` is in place and well-formed, the
/// last token closes the body, and what lies between the list and that last
/// token is balanced.
pub open spec fn list_read(s: Seq<TokV>, a: ArgsV, t: bool, p: int, q: int) -> bool {
    let e = s.len() - 1;
    &&& 1 <= p && p + 5 <= q && q < e
    &&& s[0] == TokV::Ident(match_kw())
    &&& s.subrange(1, p) == a.expr
    &&& s[p] == TokV::Open(Delim::Brace)
    &&& s[p + 1] == TokV::Ident(a.enum_name)
    &&& s[p + 2] == TokV::Punct(':', true)
    &&& s[p + 3] matches TokV::Punct(':', _)
    &&& s[p + 4] == TokV::Open(Delim::Bracket)
    &&& fits(s.subrange(p + 5, q), list_pats(a.cases, t))
    &&& s[q] == TokV::Close(Delim::Bracket)
    &&& s[e] == TokV::Close(Delim::Brace)
    &&& balanced(s.subrange(q + 1, e))
    &&& balanced(a.expr)
    &&& syn_accepts_scrutinee(render(a.expr))
    &&& syn_accepts_ident(a.enum_name)
    &&& a.cases.len() > 0
    &&& forall|i: int| 0 <= i < a.cases.len() ==> case_ok(#[trigger] a.cases[i])
}

/// `s` holds a well-formed invocation at least up to its variant list.
pub open spec fn list_ok(s: Seq<TokV>) -> bool {
    exists|w: (ArgsV, bool, int, int)| #[trigger] list_read(s, w.0, w.1, w.2, w.3)
}

/// The index of the `]` closing the variant list, when `list_ok(s)`; every
/// reading up to the list agrees on it.
pub open spec fn list_at(s: Seq<TokV>) -> int {
    (choose|w: (ArgsV, bool, int, int)| #[trigger] list_read(s, w.0, w.1, w.2, w.3)).3
}

/// `( ... )` with one token inside follows the list that closes at `q`.
pub open spec fn paren_ok(s: Seq<TokV>, q: int) -> bool {
    &&& q + 3 < s.len() - 1
    &&& s[q + 1] == TokV::Open(Delim::Paren)
    &&& s[q + 3] == TokV::Close(Delim::Paren)
}

/// The token inside the binding's parentheses is an identifier syn accepts.
pub open spec fn binding_name_ok(s: Seq<TokV>, q: int) -> bool {
    exists|n: Seq<char>| s[q + 2] == TokV::Ident(n) && #[trigger] syn_accepts_ident(n)
}

proof fn lemma_binding_list(s: Seq<TokV>, a: ArgsV, t: bool, p: int, q: int)
    requires
        binding_read(s, a, t, p, q),
    ensures
        list_read(s, a, t, p, q),
        paren_ok(s, q),
        binding_name_ok(s, q),
{
    let e = s.len() - 1;
    let id = seq![s[q + 2]];
    lemma_balanced_flat(id);
    lemma_balanced_wrap(s[q + 1], id, s[q + 3]);
    let g = seq![s[q + 1]] + id + seq![s[q + 3]];
    lemma_balanced_append(g, s.subrange(q + 4, e));
    assert(s.subrange(q + 1, e) =~= g + s.subrange(q + 4, e));
    assert(syn_accepts_ident(a.inner_name));
}

/// Everything up to the binding `(inner)` is in place and well-formed, the
/// last token closes the body, and what lies between the binding and that
/// last token is balanced.
pub open spec fn binding_read(s: Seq<TokV>, a: ArgsV, t: bool, p: int, q: int) -> bool {
    let e = s.len() - 1;
    &&& 1 <= p && p + 5 <= q && q + 4 <= e
    &&& s[0] == TokV::Ident(match_kw())
    &&& s.subrange(1, p) == a.expr
    &&& s[p] == TokV::Open(Delim::Brace)
    &&& s[p + 1] == TokV::Ident(a.enum_name)
    &&& s[p + 2] == TokV::Punct(':', true)
    &&& s[p + 3] matches TokV::Punct(':', _)
    &&& s[p + 4] == TokV::Open(Delim::Bracket)
    &&& fits(s.subrange(p + 5, q), list_pats(a.cases, t))
    &&& s[q] == TokV::Close(Delim::Bracket)
    &&& s[q + 1] == TokV::Open(Delim::Paren)
    &&& s[q + 2] == TokV::Ident(a.inner_name)
    &&& s[q + 3] == TokV::Close(Delim::Paren)
    &&& s[e] == TokV::Close(Delim::Brace)
    &&& balanced(s.subrange(q + 4, e))
    &&& balanced(a.expr)
    &&& syn_accepts_scrutinee(render(a.expr))
    &&& syn_accepts_ident(a.enum_name)
    &&& a.cases.len() > 0
    &&& forall|i: int| 0 <= i < a.cases.len() ==> case_ok(#[trigger] a.cases[i])
    &&& syn_accepts_ident(a.inner_name)
}

/// `s` holds a well-formed invocation at least up to its binding.
pub open spec fn binding_ok(s: Seq<TokV>) -> bool {
    exists|w: (ArgsV, bool, int, int)| #[trigger] binding_read(s, w.0, w.1, w.2, w.3)
}

/// The index of the binding's `(` minus one (the `]` closing the variant list),
/// when `binding_ok(s)`; every reading up to the binding agrees on it.
pub open spec fn binding_at(s: Seq<TokV>) -> int {
    (choose|w: (ArgsV, bool, int, int)| #[trigger] binding_read(s, w.0, w.1, w.2, w.3)).3
}

/// `=>` stands after the binding that ends at `q + 3`, before the body's last token.
pub open spec fn arrow_ok(s: Seq<TokV>, q: int) -> bool {
    &&& q + 6 <= s.len() - 1
    &&& s[q + 4] == TokV::Punct('=', true)
    &&& s[q + 5] matches TokV::Punct('>', _)
}

/// The body after the arrow is balanced and an expression.
pub open spec fn arm_ok(s: Seq<TokV>, q: int) -> bool {
    let arm = s.subrange(q + 6, s.len() - 1);
    balanced(arm) && syn_accepts_expr(render(arm))
}

proof fn lemma_laid_out_binding(s: Seq<TokV>, a: ArgsV, t: bool, p: int, q: int)
    requires
        laid_out(s, a, t, p, q),
        args_ok(a),
    ensures
        binding_read(s, a, t, p, q),
        arrow_ok(s, q),
        arm_ok(s, q),
{
    let e = s.len() - 1;
    let f = s.subrange(q + 4, q + 6);
    assert(f[0] == s[q + 4] && f[1] == s[q + 5]);
    lemma_balanced_flat(f);
    lemma_balanced_append(f, s.subrange(q + 6, e));
    assert(s.subrange(q + 4, e) =~= f + s.subrange(q + 6, e));
}

/// Up to the variant list, the body opens at `p` and nowhere after it, and the
/// variant list is balanced.
proof fn lemma_body_open(s: Seq<TokV>, a: ArgsV, t: bool, p: int, q: int)
    requires
        list_read(s, a, t, p, q),
    ensures
        body_open_at(s, p),
        opens_body(s, p, s.len() - 1),
        forall|m: int| p < m < s.len() - 1 ==> !#[trigger] opens_body(s, m, s.len() - 1),
        balanced(s.subrange(p + 5, q)),
{
    let e = s.len() - 1;
    let l = s.subrange(p + 5, q);
    lemma_list_balanced(l, a.cases, t);
    let b1 = s.subrange(p + 1, p + 4);
    assert(b1[0] == s[p + 1] && b1[1] == s[p + 2] && b1[2] == s[p + 3]);
    lemma_balanced_flat(b1);
    lemma_balanced_wrap(s[p + 4], l, s[q]);
    let g1 = seq![s[p + 4]] + l + seq![s[q]];
    let tail = s.subrange(q + 1, e);
    lemma_balanced_append(b1, g1);
    lemma_balanced_append(b1 + g1, tail);
    let body = s.subrange(p + 1, e);
    assert(body =~= b1 + g1 + tail);
    lemma_body_unique(s, p);
}

/// Two readings up to the variant list put the body and the list at the same places.
proof fn lemma_list_read_unique(s: Seq<TokV>, a1: ArgsV, t1: bool, p1: int, q1: int, a2: ArgsV, t2: bool, p2: int, q2: int)
    requires
        list_read(s, a1, t1, p1, q1),
        list_read(s, a2, t2, p2, q2),
    ensures
        p1 == p2,
        q1 == q2,
{
    lemma_body_open(s, a1, t1, p1, q1);
    lemma_body_open(s, a2, t2, p2, q2);
    if p1 < p2 {
        assert(!opens_body(s, p2, s.len() - 1));
    } else if p2 < p1 {
        assert(!opens_body(s, p1, s.len() - 1));
    }
    lemma_first_close_unique(s, p1 + 5, q1, q2);
}

/// Every well-formed invocation lists at least one variant, and follows the
/// variant list with a parenthesised binding and `=>`: input without them, or
/// with an empty list, is not well-formed and is refused.
pub proof fn lemma_well_formed_parts(s: Seq<TokV>)
    requires
        well_formed(s),
    ensures
        exists|a: ArgsV, t: bool, p: int, q: int| #[trigger] laid_out(s, a, t, p, q) && a.cases.len() > 0,
{
    let a = choose|a: ArgsV| #[trigger] reads_as(s, a);
    let t = choose|t: bool| #[trigger] fits(s, invocation(a, t));
    lemma_fits_laid_out(s, a, t);
}

/// Parses `match expr { Enum::[cases](inner) => arm }`. It succeeds exactly on
/// well-formed invocations, and what it returns is what the tokens read as.
#[verifier::rlimit(40)]
pub fn parse_args(v: &Vec<Tok>) -> (r: Result<Args, ParseError>)
    ensures
        r is Ok <==> well_formed(toks_view(v@)),
        r matches Ok(a) ==> reads_as(toks_view(v@), a@) && a@ == reading(toks_view(v@)),
        r matches Err(e) ==> e.at <= v.len(),
        (r == Err::<Args, ParseError>(ParseError { expected: Expected::MatchKeyword, at: 0 })) <==> !(v.len() > 0
            && toks_view(v@)[0] == TokV::Ident(match_kw())),
        v.len() > 0 && toks_view(v@)[0] == TokV::Ident(match_kw()) && toks_view(v@).last() != TokV::Close(
            Delim::Brace,
        ) ==> r == Err::<Args, ParseError>(ParseError { expected: Expected::Brace, at: (v.len() - 1) as usize }),
        body_ok(toks_view(v@)) && !scrutinee_ok(toks_view(v@), body_at(toks_view(v@))) ==> r == Err::<
            Args,
            ParseError,
        >(ParseError { expected: Expected::Expression, at: 1 }),
        body_ok(toks_view(v@)) && scrutinee_ok(toks_view(v@), body_at(toks_view(v@))) && !name_ok(
            toks_view(v@),
            body_at(toks_view(v@)) + 1,
        ) ==> r == Err::<Args, ParseError>(
            ParseError { expected: Expected::Ident, at: (body_at(toks_view(v@)) + 1) as usize },
        ),
        body_ok(toks_view(v@)) && scrutinee_ok(toks_view(v@), body_at(toks_view(v@))) && name_ok(
            toks_view(v@),
            body_at(toks_view(v@)) + 1,
        ) && !colons_ok(toks_view(v@), body_at(toks_view(v@)) + 2) ==> r == Err::<Args, ParseError>(
            ParseError { expected: Expected::DoubleColon, at: (body_at(toks_view(v@)) + 2) as usize },
        ),
        body_ok(toks_view(v@)) && scrutinee_ok(toks_view(v@), body_at(toks_view(v@))) && name_ok(
            toks_view(v@),
            body_at(toks_view(v@)) + 1,
        ) && colons_ok(toks_view(v@), body_at(toks_view(v@)) + 2) && !bracket_ok(
            toks_view(v@),
            body_at(toks_view(v@)) + 4,
        ) ==> r == Err::<Args, ParseError>(
            ParseError { expected: Expected::Bracket, at: (body_at(toks_view(v@)) + 4) as usize },
        ),
        list_ok(toks_view(v@)) && !paren_ok(toks_view(v@), list_at(toks_view(v@))) ==> r == Err::<
            Args,
            ParseError,
        >(ParseError { expected: Expected::Paren, at: (list_at(toks_view(v@)) + 1) as usize }),
        list_ok(toks_view(v@)) && paren_ok(toks_view(v@), list_at(toks_view(v@))) && !binding_name_ok(
            toks_view(v@),
            list_at(toks_view(v@)),
        ) ==> r == Err::<Args, ParseError>(
            ParseError { expected: Expected::Ident, at: (list_at(toks_view(v@)) + 2) as usize },
        ),
        binding_ok(toks_view(v@)) && !arrow_ok(toks_view(v@), binding_at(toks_view(v@))) ==> r == Err::<
            Args,
            ParseError,
        >(ParseError { expected: Expected::Arrow, at: (binding_at(toks_view(v@)) + 4) as usize }),
        binding_ok(toks_view(v@)) && arrow_ok(toks_view(v@), binding_at(toks_view(v@))) && !arm_ok(
            toks_view(v@),
            binding_at(toks_view(v@)),
        ) ==> r == Err::<Args, ParseError>(
            ParseError { expected: Expected::Expression, at: (binding_at(toks_view(v@)) + 6) as usize },
        ),
{
    let ghost s = toks_view(v@);
    let ghost wok = well_formed(s);
    let ghost hok = binding_ok(s);
    let ghost lok = list_ok(s);
    let ghost bok = body_ok(s);
    let ghost lw: (ArgsV, bool, int, int) = if lok {
        choose|w: (ArgsV, bool, int, int)| #[trigger] list_read(s, w.0, w.1, w.2, w.3)
    } else {
        arbitrary()
    };
    let ghost bw: (ArgsV, bool, int, int) = if hok {
        choose|w: (ArgsV, bool, int, int)| #[trigger] binding_read(s, w.0, w.1, w.2, w.3)
    } else {
        lw
    };
    let ghost wa: ArgsV = if wok { choose|a: ArgsV| #[trigger] reads_as(s, a) } else { bw.0 };
    let ghost wt: bool = if wok { choose|t: bool| #[trigger] fits(s, invocation(wa, t)) } else { bw.1 };
    let ghost wp: int = if wok { 1 + wa.expr.len() as int } else { bw.2 };
    let ghost wq: int = if wok { 6 + wa.expr.len() + list_pats(wa.cases, wt).len() as int } else { bw.3 };
    proof {
        if wok {
            lemma_fits_laid_out(s, wa, wt);
            lemma_laid_out_binding(s, wa, wt, wp, wq);
            let w = (wa, wt, wp, wq);
            assert(binding_read(s, w.0, w.1, w.2, w.3));
            assert(hok);
        }
        if hok {
            assert(binding_read(s, bw.0, bw.1, bw.2, bw.3));
            lemma_binding_list(s, wa, wt, wp, wq);
            lemma_binding_list(s, bw.0, bw.1, bw.2, bw.3);
            lemma_list_read_unique(s, wa, wt, wp, wq, bw.0, bw.1, bw.2, bw.3);
            assert(binding_at(s) == wq);
            let w = (wa, wt, wp, wq);
            assert(list_read(s, w.0, w.1, w.2, w.3));
            assert(lok);
        }
        if lok {
            assert(list_read(s, lw.0, lw.1, lw.2, lw.3));
            assert(list_read(s, wa, wt, wp, wq));
            lemma_list_read_unique(s, wa, wt, wp, wq, lw.0, lw.1, lw.2, lw.3);
            assert(list_at(s) == wq);
            lemma_body_open(s, wa, wt, wp, wq);
            assert(bok);
        }
    }
    let ghost bp: int = if lok { wp } else { body_at(s) };
    proof {
        if bok {
            let c = body_at(s);
            assert(body_open_at(s, c));
            lemma_body_unique(s, c);
            if lok {
                lemma_body_unique(s, wp);
                if c < wp {
                    assert(!opens_body(s, wp, s.len() - 1));
                } else if wp < c {
                    assert(!opens_body(s, c, s.len() - 1));
                }
            }
            assert(body_open_at(s, bp));
            assert(bp == body_at(s));
        }
    }
    let n = v.len();
    if n == 0 {
        return fail(Expected::MatchKeyword, 0);
    }
    match &v[0] {
        Tok::Ident(w) => {
            if !is_match_keyword(w) {
                return fail(Expected::MatchKeyword, 0);
            }
        },
        _ => {
            return fail(Expected::MatchKeyword, 0);
        },
    }
    let e = n - 1;
    if !v[e].is_close(Delim::Brace) {
        return fail(Expected::Brace, e);
    }
    let po = find_body_open(v, e);
    proof {
        if bok {
            lemma_body_unique(s, bp);
            if po is None {
                assert(!opens_body(s, bp, e as int));
            } else {
                let pp = po->Some_0 as int;
                if pp < bp {
                    assert(!opens_body(s, bp, e as int));
                }
            }
            assert(po == Some(bp as usize));
        }
    }
    let p = match po {
        Some(p) => p,
        None => {
            return fail(Expected::Brace, e);
        },
    };
    if !v[p].is_open(Delim::Brace) {
        return fail(Expected::Brace, p);
    }
    let expr_text = render_range(v, 1, p);
    if !is_balanced(v, 1, p) || !parses_as_scrutinee(&expr_text) {
        return fail(Expected::Expression, 1);
    }
    if p + 1 >= e {
        return fail(Expected::Ident, p + 1);
    }
    let enum_name = match ident_at(v, p + 1) {
        Some(x) => x,
        None => {
            return fail(Expected::Ident, p + 1);
        },
    };
    if p + 3 >= e || !v[p + 2].is_joint(':') || !v[p + 3].is_punct(':') {
        return fail(Expected::DoubleColon, p + 2);
    }
    if p + 4 >= e || !v[p + 4].is_open(Delim::Bracket) {
        return fail(Expected::Bracket, p + 4);
    }
    let lo = p + 5;
    let q = match find_close(v, lo, e) {
        Some(q) => q,
        None => {
            return fail(Expected::Bracket, p + 4);
        },
    };
    proof {
        if lok {
            assert(balanced(s.subrange(lo as int, wq)));
            assert(q == wq);
        }
    }
    if !v[q].is_close(Delim::Bracket) {
        return fail(Expected::Bracket, q);
    }
    proof {
        if lok {
            assert(list_here(s.subrange(lo as int, q as int), wa.cases, wt));
        }
    }
    let cases = match parse_cases(v, lo, q, Ghost((wa.cases, wt))) {
        Ok(c) => c,
        Err(err) => {
            return Err(err);
        },
    };
    if e - q <= 3 || !v[q + 1].is_open(Delim::Paren) || !v[q + 3].is_close(Delim::Paren) {
        return fail(Expected::Paren, q + 1);
    }
    let inner_name = match ident_at(v, q + 2) {
        Some(x) => x,
        None => {
            return fail(Expected::Ident, q + 2);
        },
    };
    if e - q <= 5 || !v[q + 4].is_joint('=') || !v[q + 5].is_punct('>') {
        return fail(Expected::Arrow, q + 4);
    }
    let arm_text = render_range(v, q + 6, e);
    if !is_balanced(v, q + 6, e) || !parses_as_expr(&arm_text) {
        return fail(Expected::Expression, q + 6);
    }
    let expr = copy_range(v, 1, p);
    let arm_expr = copy_range(v, q + 6, e);
    let a = Args { expr, enum_name, cases, inner_name, arm_expr };
    proof {
        let av = a@;
        assert(av.cases == cases_view(a.cases@));
        assert(list_fits(s.subrange(lo as int, q as int), av.cases));
        let t = choose|t: bool| #[trigger] fits(s.subrange(lo as int, q as int), list_pats(av.cases, t));
        assert(laid_out(s, av, t, p as int, q as int));
        lemma_laid_out_fits(s, av, t, p as int, q as int);
        assert(args_ok(av));
        assert(reads_as(s, av));
        lemma_reading_unique(s, av, reading(s));
    }
    Ok(a)
}

} // verus!
