//! The host parser boundary.  A spliced, directive-free variant is handed
//! to the host's own parser and pretty-printer to be split into top-level
//! fragments: first as a sequence of definitions, failing that as a
//! sequence of statements, failing that the variant stays whole.  Only the
//! calls into the host cross this boundary; the three-tier decision itself
//! is this library's code.

use vstd::prelude::*;

use crate::token::{
    toks_view, wf_check, wf_seq, Delim, Token, TokenV,
};
use proc_macro2::Delimiter;
use proc_macro2::Spacing;
use proc_macro2::TokenTree;

verus! {

/// Declares the host lexer's stream type so it can carry values through.
#[verifier::external_type_specification]
#[verifier::external_body]
pub struct ExTokenStream(proc_macro2::TokenStream);

/// The token model of a host stream: its trees, one of this library's
/// tokens each, identifiers and literals by their text.
pub uninterp spec fn stream_model(ts: proc_macro2::TokenStream) -> Seq<TokenV>;

/// What reading a stream as a sequence of top-level definitions yields:
/// the token runs of the definitions as the host pretty-printer re-emits
/// them, or nothing when the stream is not a plain definition sequence.
/// The outcome depends on the stream's tokens alone.
pub uninterp spec fn items_split(ts: Seq<TokenV>) -> Option<Seq<Seq<TokenV>>>;

/// What reading a stream as a sequence of statements yields, on the same
/// terms as `items_split`.
pub uninterp spec fn stmts_split(ts: Seq<TokenV>) -> Option<Seq<Seq<TokenV>>>;

/// Relies on `proc_macro2`'s constructors (`Ident::new`, `Punct::new`,
/// `Group::new`, `Literal::clone`): the stream built from well-formed
/// tokens models exactly those tokens.
#[verifier::external_body]
fn to_outside(tokens: &Vec<Token>) -> (r: proc_macro2::TokenStream)
    requires
        wf_seq(toks_view(tokens@)),
    ensures
        stream_model(r) == toks_view(tokens@),
{
    let mut ts = proc_macro2::TokenStream::new();
    for t in tokens.iter() {
        ts.extend(core::iter::once(match t {
            Token::Ident(s) => TokenTree::Ident(proc_macro2::Ident::new(s, proc_macro2::Span::call_site())),
            Token::Punct(c, j) => TokenTree::Punct(proc_macro2::Punct::new(*c, if *j { Spacing::Joint } else { Spacing::Alone })),
            Token::Lit(l) => TokenTree::Literal(l.clone()),
            Token::Group(d, inner) => TokenTree::Group(proc_macro2::Group::new(
                match d { Delim::Paren => Delimiter::Parenthesis, Delim::Brace => Delimiter::Brace, Delim::Bracket => Delimiter::Bracket, Delim::Invisible => Delimiter::None },
                to_outside(inner),
            )),
        }));
    }
    ts
}

/// Relies on `proc_macro2`'s stream iteration and accessors: reads a host
/// stream back as this library's tokens, tree for tree.
#[verifier::external_body]
fn from_outside(ts: &proc_macro2::TokenStream) -> (r: Vec<Token>)
    ensures
        toks_view(r@) == stream_model(*ts),
{
    let mut out = Vec::new();
    for tt in ts.clone() {
        out.push(match tt {
            TokenTree::Ident(i) => Token::Ident(i.to_string()),
            TokenTree::Punct(p) => Token::Punct(p.as_char(), p.spacing() == Spacing::Joint),
            TokenTree::Literal(l) => Token::Lit(l),
            TokenTree::Group(g) => Token::Group(
                match g.delimiter() { Delimiter::Parenthesis => Delim::Paren, Delimiter::Brace => Delim::Brace, Delimiter::Bracket => Delim::Bracket, Delimiter::None => Delim::Invisible },
                from_outside(&g.stream()),
            ),
        });
    }
    out
}

/// Relies on `syn::parse2::<syn::File>` and `quote::ToTokens`: when the
/// stream parses as a plain sequence of top-level definitions (no shebang,
/// no file-level inner attributes), yields each definition's re-emitted
/// tokens in order; otherwise nothing.  `items_split` names the outcome.
#[verifier::external_body]
fn parse_items(ts: &proc_macro2::TokenStream) -> (r: Option<Vec<proc_macro2::TokenStream>>)
    ensures
        r is Some <==> items_split(stream_model(*ts)) is Some,
        r is Some ==> r.unwrap()@.len() == items_split(stream_model(*ts)).unwrap().len(),
        r is Some ==> forall|i: int|
            0 <= i < r.unwrap()@.len() ==> stream_model(#[trigger] r.unwrap()@[i]) == items_split(
                stream_model(*ts),
            ).unwrap()[i],
{
    match syn::parse2::<syn::File>(ts.clone()) {
        Ok(f) if f.shebang.is_none() && f.attrs.is_empty() => Some(
            f.items.iter().map(|it| quote::ToTokens::to_token_stream(it)).collect(),
        ),
        _ => None,
    }
}

/// Relies on `syn::Block::parse_within` (through `syn::parse::Parser`) and
/// `quote::ToTokens`: when the stream parses as a sequence of statements,
/// yields each statement's re-emitted tokens in order; otherwise nothing.
/// `stmts_split` names the outcome.
#[verifier::external_body]
fn parse_stmts(ts: &proc_macro2::TokenStream) -> (r: Option<Vec<proc_macro2::TokenStream>>)
    ensures
        r is Some <==> stmts_split(stream_model(*ts)) is Some,
        r is Some ==> r.unwrap()@.len() == stmts_split(stream_model(*ts)).unwrap().len(),
        r is Some ==> forall|i: int|
            0 <= i < r.unwrap()@.len() ==> stream_model(#[trigger] r.unwrap()@[i]) == stmts_split(
                stream_model(*ts),
            ).unwrap()[i],
{
    match syn::parse::Parser::parse2(syn::Block::parse_within, ts.clone()) {
        Ok(stmts) => Some(
            stmts.iter().map(|st| quote::ToTokens::to_token_stream(st)).collect(),
        ),
        Err(_) => None,
    }
}

/// The fragments a variant falls into: its definitions, failing that its
/// statements, failing that (or when a leaf falls outside the alphabet the
/// host lexer is guaranteed to accept back) the variant whole.
pub open spec fn fragments_of(ts: Seq<TokenV>) -> Seq<Seq<TokenV>> {
    if wf_seq(ts) {
        match items_split(ts) {
            Option::Some(f) => f,
            Option::None => match stmts_split(ts) {
                Option::Some(f) => f,
                Option::None => seq![ts],
            },
        }
    } else {
        seq![ts]
    }
}

/// Splits one spliced variant into its top-level fragments by the
/// three-tier fallback.
pub fn split_fragments(v: Vec<Token>) -> (r: Vec<Vec<Token>>)
    ensures
        crate::cfg::av_view(r@) == fragments_of(toks_view(v@)),
{
    let ghost vv = toks_view(v@);
    if !wf_check(&v) {
        let mut r: Vec<Vec<Token>> = Vec::new();
        r.push(v);
        proof {
            assert(r@.drop_last() =~= Seq::<Vec<Token>>::empty());
            assert(crate::cfg::av_view(Seq::<Vec<Token>>::empty())
                =~= Seq::<Seq<TokenV>>::empty());
            assert(r@.last() == v);
            assert(crate::cfg::av_view(r@) =~= seq![vv]);
        }
        return r;
    }
    let ts = to_outside(&v);
    match parse_items(&ts) {
        Option::Some(fs) => {
            let r = fragments_back(&fs);
            proof {
                assert forall|k: int| 0 <= k < crate::cfg::av_view(r@).len() implies crate::cfg::av_view(
                    r@,
                )[k] == items_split(vv).unwrap()[k] by {
                    assert(stream_model(fs@[k]) == items_split(vv).unwrap()[k]);
                    assert(crate::cfg::av_view(r@)[k] == stream_model(fs@[k]));
                }
                assert(crate::cfg::av_view(r@) =~= items_split(vv).unwrap());
            }
            r
        },
        Option::None => {
            match parse_stmts(&ts) {
                Option::Some(fs) => {
                    let r = fragments_back(&fs);
                    proof {
                        assert forall|k: int|
                            0 <= k < crate::cfg::av_view(r@).len() implies crate::cfg::av_view(
                            r@,
                        )[k] == stmts_split(vv).unwrap()[k] by {
                            assert(stream_model(fs@[k]) == stmts_split(vv).unwrap()[k]);
                            assert(crate::cfg::av_view(r@)[k] == stream_model(fs@[k]));
                        }
                        assert(crate::cfg::av_view(r@) =~= stmts_split(vv).unwrap());
                    }
                    r
                },
                Option::None => {
                    let mut r: Vec<Vec<Token>> = Vec::new();
                    r.push(v);
                    proof {
                        assert(r@.drop_last() =~= Seq::<Vec<Token>>::empty());
                        assert(crate::cfg::av_view(Seq::<Vec<Token>>::empty())
                            =~= Seq::<Seq<TokenV>>::empty());
                        assert(r@.last() == v);
                        assert(crate::cfg::av_view(r@) =~= seq![vv]);
                    }
                    r
                },
            }
        },
    }
}

/// Reads each fragment stream back as this library's tokens.
fn fragments_back(fs: &Vec<proc_macro2::TokenStream>) -> (r: Vec<Vec<Token>>)
    ensures
        crate::cfg::av_view(r@).len() == fs@.len(),
        forall|i: int| 0 <= i < fs@.len() ==> crate::cfg::av_view(r@)[i] == stream_model(
            #[trigger] fs@[i],
        ),
{
    let mut out: Vec<Vec<Token>> = Vec::new();
    let mut i: usize = 0;
    while i < fs.len()
        invariant
            0 <= i <= fs@.len(),
            out@.len() == i,
            forall|j: int| 0 <= j < i ==> toks_view((#[trigger] out@[j])@) == stream_model(
                fs@[j],
            ),
        decreases fs@.len() - i,
    {
        out.push(from_outside(&fs[i]));
        i = i + 1;
    }
    proof {
        crate::cfg::lemma_av_view_index(out@);
        assert forall|i: int| 0 <= i < fs@.len() implies crate::cfg::av_view(out@)[i]
            == stream_model(#[trigger] fs@[i]) by {
            assert(crate::cfg::av_view(out@)[i] == toks_view(out@[i]@));
        }
    }
    out
}

} // verus!
