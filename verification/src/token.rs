//! The token model: a stream is a sequence of tokens, each a leaf (an
//! identifier, a punctuation character, or a literal) or a delimited group
//! holding a nested stream.
//!
//! Identifiers and punctuation are held as plain values so the engine's
//! logic can read them.  A literal is held as the host lexer's own value and
//! is opaque here: the engine only carries literals through and compares
//! them by their text, which `lit_model` names.

use vstd::prelude::*;

verus! {

/// Declares the host lexer's literal type so it can stand in fields.
#[verifier::external_type_specification]
#[verifier::external_body]
pub struct ExLiteral(proc_macro2::Literal);

/// The text of a literal, as `proc_macro2::Literal::to_string` renders it:
/// a function of the literal value alone.
pub uninterp spec fn lit_model(l: proc_macro2::Literal) -> Seq<char>;

/// Relies on `proc_macro2::Literal::to_string` (via `ToString`) and on
/// `String` equality: two literals are equal exactly when their texts are.
#[verifier::external_body]
pub fn lit_eq(a: &proc_macro2::Literal, b: &proc_macro2::Literal) -> (r: bool)
    ensures
        r == (lit_model(*a) == lit_model(*b)),
{
    a.to_string() == b.to_string()
}

/// Relies on `proc_macro2::Literal::clone`: the clone renders to the same
/// text as the original.
pub assume_specification[ <proc_macro2::Literal as Clone>::clone ](
    l: &proc_macro2::Literal,
) -> (r: proc_macro2::Literal)
    ensures
        lit_model(r) == lit_model(*l),
;

/// The delimiter of a group: one of the three bracket kinds, or the
/// invisible delimiter that a macro expansion may introduce around a
/// fragment.
#[derive(Clone, Copy, PartialEq, Eq, Structural, Debug)]
pub enum Delim {
    Paren,
    Brace,
    Bracket,
    Invisible,
}

/// One token: a leaf or a delimited group.
pub enum Token {
    /// An identifier or keyword, by its text.
    Ident(String),
    /// A punctuation character; the flag says whether it is joined to the
    /// next punctuation token (multi-character operators).
    Punct(char, bool),
    /// A literal, carried opaquely.
    Lit(proc_macro2::Literal),
    /// A delimited group holding a nested stream.
    Group(Delim, Vec<Token>),
}

/// The mathematical view of a token.
pub enum TokenV {
    Ident(Seq<char>),
    Punct(char, bool),
    Lit(Seq<char>),
    Group(Delim, Seq<TokenV>),
}

pub open spec fn tok_view(t: Token) -> TokenV
    decreases t,
{
    match t {
        Token::Ident(s) => TokenV::Ident(s@),
        Token::Punct(c, j) => TokenV::Punct(c, j),
        Token::Lit(l) => TokenV::Lit(lit_model(l)),
        Token::Group(d, ts) => TokenV::Group(d, toks_view(ts@)),
    }
}

/// The view of a whole stream.
pub open spec fn toks_view(ts: Seq<Token>) -> Seq<TokenV>
    decreases ts,
{
    if ts.len() == 0 {
        Seq::empty()
    } else {
        toks_view(ts.drop_last()).push(tok_view(ts.last()))
    }
}

/// A stream's view is the sequence of its tokens' views.
pub proof fn lemma_toks_view_index(ts: Seq<Token>)
    ensures
        toks_view(ts).len() == ts.len(),
        forall|i: int| 0 <= i < ts.len() ==> toks_view(ts)[i] == tok_view(#[trigger] ts[i]),
    decreases ts,
{
    if ts.len() > 0 {
        lemma_toks_view_index(ts.drop_last());
        assert forall|i: int| 0 <= i < ts.len() implies toks_view(ts)[i] == tok_view(
            #[trigger] ts[i],
        ) by {
            if i < ts.len() - 1 {
                assert(ts.drop_last()[i] == ts[i]);
            } else {
                assert(ts.last() == ts[i]);
            }
        }
    }
}

/// The size of a token: the number of leaves and delimiters in it.  The
/// recursion measure for every walk over a stream.
pub open spec fn tok_size(t: TokenV) -> nat
    decreases t,
{
    match t {
        TokenV::Group(_, ts) => 1 + seq_size(ts),
        _ => 1,
    }
}

/// The size of a stream: the sum of the sizes of its tokens.
pub open spec fn seq_size(ts: Seq<TokenV>) -> nat
    decreases ts,
{
    if ts.len() == 0 {
        0
    } else {
        tok_size(ts[0]) + seq_size(ts.skip(1))
    }
}

pub proof fn lemma_tok_size_pos(t: TokenV)
    ensures
        tok_size(t) >= 1,
{
}

/// Splitting a stream splits its size.
pub proof fn lemma_seq_size_split(ts: Seq<TokenV>, k: int)
    requires
        0 <= k <= ts.len(),
    ensures
        seq_size(ts) == seq_size(ts.take(k)) + seq_size(ts.skip(k)),
    decreases k,
{
    if k == 0 {
        assert(ts.take(0) =~= Seq::<TokenV>::empty());
        assert(ts.skip(0) =~= ts);
    } else {
        lemma_seq_size_split(ts.skip(1), k - 1);
        assert(ts.skip(1).take(k - 1) =~= ts.take(k).skip(1));
        assert(ts.skip(1).skip(k - 1) =~= ts.skip(k));
        assert(seq_size(ts.take(k)) == tok_size(ts.take(k)[0]) + seq_size(ts.take(k).skip(1)));
        assert(ts.take(k)[0] == ts[0]);
    }
}

/// A suffix weighs at least one unit less per token dropped.
pub proof fn lemma_seq_size_skip(ts: Seq<TokenV>, k: int)
    requires
        0 <= k <= ts.len(),
    ensures
        seq_size(ts.skip(k)) + k <= seq_size(ts),
    decreases k,
{
    if k > 0 {
        lemma_seq_size_skip(ts.skip(1), k - 1);
        assert(ts.skip(1).skip(k - 1) =~= ts.skip(k));
        lemma_tok_size_pos(ts[0]);
    } else {
        assert(ts.skip(0) =~= ts);
    }
}

/// The identifier alphabet the engine itself guarantees to the host lexer:
/// a leading ASCII letter or underscore, then ASCII letters, digits and
/// underscores.  (The host accepts more; a stream whose identifiers fall
/// outside this class is still carried through, but is re-emitted whole
/// rather than handed back to the host parser.)
pub open spec fn ident_start_ok(c: char) -> bool {
    (97 <= c as u32 && c as u32 <= 122) || (65 <= c as u32 && c as u32 <= 90) || c == '_'
}

pub open spec fn ident_cont_ok(c: char) -> bool {
    ident_start_ok(c) || (48 <= c as u32 && c as u32 <= 57)
}

pub open spec fn ident_text_ok(s: Seq<char>) -> bool {
    s.len() > 0 && ident_start_ok(s[0]) && !(s.len() == 1 && s[0] == '_') && forall|i: int|
        0 <= i < s.len() ==> ident_cont_ok(#[trigger] s[i])
}

/// The punctuation characters the host lexer permits.
pub open spec fn punct_ok(c: char) -> bool {
    ||| c == '!'
    ||| c == '#'
    ||| c == '$'
    ||| c == '%'
    ||| c == '&'
    ||| c == '\''
    ||| c == '*'
    ||| c == '+'
    ||| c == ','
    ||| c == '-'
    ||| c == '.'
    ||| c == '/'
    ||| c == ':'
    ||| c == ';'
    ||| c == '<'
    ||| c == '='
    ||| c == '>'
    ||| c == '?'
    ||| c == '@'
    ||| c == '^'
    ||| c == '|'
    ||| c == '~'
}

/// A token the host lexer is guaranteed to accept back.
pub open spec fn wf_tok(t: TokenV) -> bool
    decreases t,
{
    match t {
        TokenV::Ident(s) => ident_text_ok(s),
        TokenV::Punct(c, _) => punct_ok(c),
        TokenV::Lit(_) => true,
        TokenV::Group(_, ts) => wf_seq(ts),
    }
}

pub open spec fn wf_seq(ts: Seq<TokenV>) -> bool
    decreases ts,
{
    forall|i: int| 0 <= i < ts.len() ==> wf_tok(#[trigger] ts[i])
}

/// Every token of a stream weighs no more than the stream.
pub proof fn lemma_elem_size(ts: Seq<TokenV>, i: int)
    requires
        0 <= i < ts.len(),
    ensures
        tok_size(ts[i]) <= seq_size(ts),
    decreases i,
{
    if i == 0 {
    } else {
        lemma_elem_size(ts.skip(1), i - 1);
        assert(ts.skip(1)[i - 1] == ts[i]);
    }
}

/// Does an identifier's text read exactly `w`?
pub fn is_word(s: &String, w: &str) -> (r: bool)
    ensures
        r == (s@ == w@),
{
    *s == String::from_str(w)
}

pub fn wf_check_token(t: &Token) -> (r: bool)
    ensures
        r == wf_tok(tok_view(*t)),
    decreases t,
{
    match t {
        Token::Ident(s) => {
            let n: usize = s.as_str().unicode_len();
            if n == 0 {
                return false;
            }
            let c0: char = s.as_str().get_char(0);
            if !((97 <= c0 as u32 && c0 as u32 <= 122) || (65 <= c0 as u32 && c0 as u32 <= 90)
                || c0 == '_') {
                return false;
            }
            if n == 1 && c0 == '_' {
                return false;
            }
            let mut i: usize = 0;
            while i < n
                invariant
                    tok_view(*t) == TokenV::Ident(s@),
                    ident_start_ok(s@[0]),
                    n == s@.len(),
                    0 < n,
                    0 <= i <= n,
                    forall|j: int| 0 <= j < i ==> ident_cont_ok(#[trigger] s@[j]),
                decreases n - i,
            {
                let c: char = s.as_str().get_char(i);
                if !((97 <= c as u32 && c as u32 <= 122) || (65 <= c as u32 && c as u32 <= 90)
                    || c == '_' || (48 <= c as u32 && c as u32 <= 57)) {
                    proof {
                        assert(!ident_cont_ok(s@[i as int]));
                    }
                    return false;
                }
                i = i + 1;
            }
            true
        },
        Token::Punct(c, _) => {
            let c: char = *c;
            c == '!' || c == '#' || c == '$' || c == '%' || c == '&' || c == '\'' || c == '*'
                || c == '+' || c == ',' || c == '-' || c == '.' || c == '/' || c == ':' || c == ';'
                || c == '<' || c == '=' || c == '>' || c == '?' || c == '@' || c == '^' || c == '|'
                || c == '~'
        },
        Token::Lit(_) => true,
        Token::Group(_, ts) => wf_check(ts),
    }
}

/// Does every leaf of the stream lie in the alphabet the host lexer is
/// guaranteed to accept back?
pub fn wf_check(ts: &Vec<Token>) -> (r: bool)
    ensures
        r == wf_seq(toks_view(ts@)),
    decreases ts,
{
    proof {
        lemma_toks_view_index(ts@);
    }
    let mut i: usize = 0;
    while i < ts.len()
        invariant
            0 <= i <= ts@.len(),
            toks_view(ts@).len() == ts@.len(),
            forall|j: int| 0 <= j < ts@.len() ==> toks_view(ts@)[j] == tok_view(#[trigger] ts@[j]),
            forall|j: int| 0 <= j < i ==> wf_tok(tok_view(#[trigger] ts@[j])),
        decreases ts@.len() - i,
    {
        if !wf_check_token(&ts[i]) {
            return false;
        }
        i = i + 1;
    }
    proof {
        assert forall|j: int| 0 <= j < toks_view(ts@).len() implies wf_tok(
            #[trigger] toks_view(ts@)[j],
        ) by {
            assert(toks_view(ts@)[j] == tok_view(ts@[j]));
        }
    }
    true
}

/// Structural equality of tokens, literals by their text.
pub fn token_eq(a: &Token, b: &Token) -> (r: bool)
    ensures
        r == (tok_view(*a) == tok_view(*b)),
    decreases a,
{
    match (a, b) {
        (Token::Ident(x), Token::Ident(y)) => *x == *y,
        (Token::Punct(c, j), Token::Punct(d, k)) => *c == *d && *j == *k,
        (Token::Lit(x), Token::Lit(y)) => lit_eq(x, y),
        (Token::Group(d1, x), Token::Group(d2, y)) => *d1 == *d2 && tokens_eq(x, y),
        _ => false,
    }
}

pub fn tokens_eq(a: &Vec<Token>, b: &Vec<Token>) -> (r: bool)
    ensures
        r == (toks_view(a@) == toks_view(b@)),
    decreases a,
{
    proof {
        lemma_toks_view_index(a@);
        lemma_toks_view_index(b@);
    }
    if a.len() != b.len() {
        return false;
    }
    let mut i: usize = 0;
    while i < a.len()
        invariant
            a@.len() == b@.len(),
            0 <= i <= a@.len(),
            toks_view(a@).len() == a@.len(),
            toks_view(b@).len() == b@.len(),
            forall|j: int| 0 <= j < a@.len() ==> toks_view(a@)[j] == tok_view(#[trigger] a@[j]),
            forall|j: int| 0 <= j < b@.len() ==> toks_view(b@)[j] == tok_view(#[trigger] b@[j]),
            forall|j: int| 0 <= j < i ==> toks_view(a@)[j] == toks_view(b@)[j],
        decreases a@.len() - i,
    {
        if !token_eq(&a[i], &b[i]) {
            return false;
        }
        i = i + 1;
    }
    proof {
        assert(toks_view(a@) =~= toks_view(b@));
    }
    true
}

/// A fresh token with the same view.
pub fn token_copy(t: &Token) -> (r: Token)
    ensures
        tok_view(r) == tok_view(*t),
    decreases t,
{
    match t {
        Token::Ident(s) => Token::Ident(s.clone()),
        Token::Punct(c, j) => Token::Punct(*c, *j),
        Token::Lit(l) => Token::Lit(l.clone()),
        Token::Group(d, ts) => Token::Group(*d, tokens_copy(ts)),
    }
}

pub fn tokens_copy(ts: &Vec<Token>) -> (r: Vec<Token>)
    ensures
        toks_view(r@) == toks_view(ts@),
    decreases ts,
{
    let mut out: Vec<Token> = Vec::new();
    let mut i: usize = 0;
    while i < ts.len()
        invariant
            0 <= i <= ts@.len(),
            out@.len() == i,
            forall|j: int| 0 <= j < i ==> tok_view(#[trigger] out@[j]) == tok_view(ts@[j]),
        decreases ts@.len() - i,
    {
        out.push(token_copy(&ts[i]));
        i = i + 1;
    }
    proof {
        lemma_toks_view_index(ts@);
        lemma_toks_view_index(out@);
        assert forall|j: int| 0 <= j < toks_view(out@).len() implies toks_view(out@)[j]
            == toks_view(ts@)[j] by {
            assert(toks_view(out@)[j] == tok_view(out@[j]));
            assert(toks_view(ts@)[j] == tok_view(ts@[j]));
        }
        assert(toks_view(out@) =~= toks_view(ts@));
    }
    out
}


/// The view of a stream distributes over concatenation.
pub proof fn lemma_toks_view_concat(a: Seq<Token>, b: Seq<Token>)
    ensures
        toks_view(a + b) == toks_view(a) + toks_view(b),
{
    lemma_toks_view_index(a + b);
    lemma_toks_view_index(a);
    lemma_toks_view_index(b);
    assert forall|j: int| 0 <= j < (a + b).len() implies toks_view(a + b)[j] == (toks_view(a)
        + toks_view(b))[j] by {
        if j < a.len() {
            assert((a + b)[j] == a[j]);
        } else {
            assert((a + b)[j] == b[j - a.len()]);
        }
    }
    assert(toks_view(a + b) =~= toks_view(a) + toks_view(b));
}

} // verus!
