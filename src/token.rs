use vstd::prelude::*;

verus! {

/// The delimiter of a token group.
#[derive(Clone, Copy, PartialEq, Eq, Structural, Debug)]
pub enum Delim {
    Paren,
    Bracket,
    Brace,
    /// A group with no visible delimiters (produced by macro substitution).
    Invisible,
}

/// One token of a flat token stream.
#[derive(Clone, Debug, PartialEq, Eq)]
pub enum Tok {
    /// An identifier or keyword, with its text.
    Ident(String),
    /// A punctuation character; `true` when it is joined to the next punctuation.
    Punct(char, bool),
    /// A literal, with its source text.
    Lit(String),
    /// The start of a group.
    Open(Delim),
    /// The end of a group.
    Close(Delim),
}

/// The mathematical value of a [`Tok`].
pub ghost enum TokV {
    Ident(Seq<char>),
    Punct(char, bool),
    Lit(Seq<char>),
    Open(Delim),
    Close(Delim),
}

impl View for Tok {
    type V = TokV;

    open spec fn view(&self) -> TokV {
        match self {
            Tok::Ident(s) => TokV::Ident(s@),
            Tok::Punct(c, j) => TokV::Punct(*c, *j),
            Tok::Lit(s) => TokV::Lit(s@),
            Tok::Open(d) => TokV::Open(*d),
            Tok::Close(d) => TokV::Close(*d),
        }
    }
}

/// The values of a sequence of tokens.
pub open spec fn toks_view(v: Seq<Tok>) -> Seq<TokV> {
    v.map_values(|t: Tok| t@)
}

/// How a token changes the nesting depth.
pub open spec fn delta(t: TokV) -> int {
    match t {
        TokV::Open(_) => 1,
        TokV::Close(_) => -1,
        _ => 0,
    }
}

/// Opened minus closed groups over a sequence.
pub open spec fn depth(s: Seq<TokV>) -> int
    decreases s.len(),
{
    if s.len() == 0 {
        0
    } else {
        depth(s.drop_last()) + delta(s.last())
    }
}

/// Every group opened in `s` is closed in `s`, and none is closed before it opens.
pub open spec fn balanced(s: Seq<TokV>) -> bool {
    &&& depth(s) == 0
    &&& forall|k: int| 0 <= k <= s.len() ==> depth(#[trigger] s.take(k)) >= 0
}

/// The source text of a token, without separating whitespace.
pub open spec fn tok_text(t: TokV) -> Seq<char> {
    match t {
        TokV::Ident(s) => s,
        TokV::Punct(c, _) => seq![c],
        TokV::Lit(s) => s,
        TokV::Open(Delim::Paren) => seq!['('],
        TokV::Open(Delim::Bracket) => seq!['['],
        TokV::Open(Delim::Brace) => seq!['{'],
        TokV::Close(Delim::Paren) => seq![')'],
        TokV::Close(Delim::Bracket) => seq![']'],
        TokV::Close(Delim::Brace) => seq!['}'],
        _ => Seq::empty(),
    }
}

/// The text that follows a token: nothing after joined punctuation, else a space.
pub open spec fn tok_gap(t: TokV) -> Seq<char> {
    match t {
        TokV::Punct(_, true) => Seq::empty(),
        _ => seq![' '],
    }
}

/// Source text that lexes back to the tokens `s`.
pub open spec fn render(s: Seq<TokV>) -> Seq<char>
    decreases s.len(),
{
    if s.len() == 0 {
        Seq::empty()
    } else {
        render(s.drop_last()) + tok_text(s.last()) + tok_gap(s.last())
    }
}

pub proof fn lemma_view_subrange(v: Seq<Tok>, lo: int, hi: int)
    requires
        0 <= lo <= hi <= v.len(),
    ensures
        toks_view(v.subrange(lo, hi)) == toks_view(v).subrange(lo, hi),
{
    assert(toks_view(v.subrange(lo, hi)) =~= toks_view(v).subrange(lo, hi));
}

/// Copies of the tokens `v[lo..hi]`.
pub fn copy_range(v: &Vec<Tok>, lo: usize, hi: usize) -> (r: Vec<Tok>)
    requires
        lo <= hi <= v.len(),
    ensures
        toks_view(r@) == toks_view(v@).subrange(lo as int, hi as int),
{
    let mut out: Vec<Tok> = Vec::new();
    let mut i: usize = lo;
    while i < hi
        invariant
            lo <= i <= hi <= v.len(),
            toks_view(out@) == toks_view(v@).subrange(lo as int, i as int),
        decreases hi - i,
    {
        let t = v[i].copy();
        let ghost before = out@;
        out.push(t);
        assert(toks_view(out@) =~= toks_view(before).push(t@));
        assert(toks_view(v@).subrange(lo as int, i + 1) =~= toks_view(v@).subrange(lo as int, i as int).push(t@));
        i = i + 1;
    }
    out
}

pub proof fn lemma_depth_append(a: Seq<TokV>, b: Seq<TokV>)
    ensures
        depth(a + b) == depth(a) + depth(b),
    decreases b.len(),
{
    if b.len() == 0 {
        assert(a + b =~= a);
    } else {
        lemma_depth_append(a, b.drop_last());
        assert((a + b).drop_last() =~= a + b.drop_last());
    }
}

impl Tok {
    /// A copy of this token.
    pub fn copy(&self) -> (r: Tok)
        ensures
            r@ == self@,
    {
        match self {
            Tok::Ident(s) => Tok::Ident(s.clone()),
            Tok::Punct(c, j) => Tok::Punct(*c, *j),
            Tok::Lit(s) => Tok::Lit(s.clone()),
            Tok::Open(d) => Tok::Open(*d),
            Tok::Close(d) => Tok::Close(*d),
        }
    }

    /// Whether this opens a group delimited by `d`.
    pub fn is_open(&self, d: Delim) -> (r: bool)
        ensures
            r == (self@ == TokV::Open(d)),
    {
        match self {
            Tok::Open(e) => *e == d,
            _ => false,
        }
    }

    /// Whether this closes a group delimited by `d`.
    pub fn is_close(&self, d: Delim) -> (r: bool)
        ensures
            r == (self@ == TokV::Close(d)),
    {
        match self {
            Tok::Close(e) => *e == d,
            _ => false,
        }
    }

    /// Whether this is punctuation `c` joined to the next punctuation.
    pub fn is_joint(&self, c: char) -> (r: bool)
        ensures
            r == (self@ == TokV::Punct(c, true)),
    {
        match self {
            Tok::Punct(d, j) => *d == c && *j,
            _ => false,
        }
    }

    /// Whether this is punctuation `c`, whatever its spacing.
    pub fn is_punct(&self, c: char) -> (r: bool)
        ensures
            r == (exists|j: bool| self@ == TokV::Punct(c, j)),
    {
        match self {
            Tok::Punct(d, j) => {
                if *d == c {
                    assert(self@ == TokV::Punct(c, *j));
                    true
                } else {
                    false
                }
            },
            _ => false,
        }
    }
}

/// Appends the characters of `s` to `out`.
fn push_str_chars(out: &mut Vec<char>, s: &String)
    ensures
        final(out)@ == old(out)@ + s@,
{
    let st = s.as_str();
    let n = st.unicode_len();
    let mut i: usize = 0;
    while i < n
        invariant
            n == s@.len(),
            st@ == s@,
            i <= n,
            out@ == old(out)@ + s@.take(i as int),
        decreases n - i,
    {
        let c = st.get_char(i);
        out.push(c);
        assert(s@.take(i + 1) =~= s@.take(i as int).push(c));
        i = i + 1;
    }
    assert(s@.take(n as int) =~= s@);
}

/// Appends the text of `t` and the gap after it to `out`.
fn push_tok_text(out: &mut Vec<char>, t: &Tok)
    ensures
        final(out)@ == old(out)@ + tok_text(t@) + tok_gap(t@),
{
    match t {
        Tok::Ident(s) => push_str_chars(out, s),
        Tok::Lit(s) => push_str_chars(out, s),
        Tok::Punct(c, _) => out.push(*c),
        Tok::Open(Delim::Paren) => out.push('('),
        Tok::Open(Delim::Bracket) => out.push('['),
        Tok::Open(Delim::Brace) => out.push('{'),
        Tok::Close(Delim::Paren) => out.push(')'),
        Tok::Close(Delim::Bracket) => out.push(']'),
        Tok::Close(Delim::Brace) => out.push('}'),
        _ => {},
    }
    match t {
        Tok::Punct(_, true) => {},
        _ => out.push(' '),
    }
    assert(final(out)@ =~= old(out)@ + tok_text(t@) + tok_gap(t@));
}

/// Source text for the tokens `v[lo..hi]`.
pub fn render_range(v: &Vec<Tok>, lo: usize, hi: usize) -> (r: Vec<char>)
    requires
        lo <= hi <= v.len(),
    ensures
        r@ == render(toks_view(v@).subrange(lo as int, hi as int)),
{
    proof {
        lemma_view_subrange(v@, lo as int, hi as int);
    }
    let mut out: Vec<char> = Vec::new();
    let mut i: usize = lo;
    while i < hi
        invariant
            lo <= i <= hi <= v.len(),
            out@ == render(toks_view(v@.subrange(lo as int, i as int))),
        decreases hi - i,
    {
        push_tok_text(&mut out, &v[i]);
        proof {
            let p = toks_view(v@.subrange(lo as int, i + 1));
            assert(p.drop_last() =~= toks_view(v@.subrange(lo as int, i as int)));
            assert(p.last() == v@[i as int]@);
        }
        i = i + 1;
    }
    out
}

/// Whether the tokens `v[lo..hi]` are balanced.
pub fn is_balanced(v: &Vec<Tok>, lo: usize, hi: usize) -> (r: bool)
    requires
        lo <= hi <= v.len(),
    ensures
        r == balanced(toks_view(v@).subrange(lo as int, hi as int)),
{
    proof {
        lemma_view_subrange(v@, lo as int, hi as int);
    }
    let ghost s = toks_view(v@).subrange(lo as int, hi as int);
    let mut d: usize = 0;
    let mut i: usize = lo;
    while i < hi
        invariant
            lo <= i <= hi <= v.len(),
            s == toks_view(v@).subrange(lo as int, hi as int),
            d <= i - lo,
            d as int == depth(s.take(i - lo)),
            forall|k: int| 0 <= k <= i - lo ==> depth(#[trigger] s.take(k)) >= 0,
        decreases hi - i,
    {
        proof {
            assert(s.take(i - lo + 1).drop_last() =~= s.take(i - lo));
            assert(s.take(i - lo + 1).last() == v@[i as int]@);
        }
        match &v[i] {
            Tok::Open(_) => {
                d = d + 1;
            },
            Tok::Close(_) => {
                if d == 0 {
                    assert(depth(s.take(i - lo + 1)) < 0);
                    return false;
                }
                d = d - 1;
            },
            _ => {},
        }
        i = i + 1;
    }
    assert(s.take(s.len() as int) =~= s);
    d == 0
}

} // verus!
