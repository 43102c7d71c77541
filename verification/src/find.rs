//! The predicate extractor: scans a stream for directive-shaped prefixes
//! anywhere — including grammar positions the host normally forbids — and
//! collects every predicate found, leaving the stream untouched.

use vstd::prelude::*;

use crate::cfg::{cfg_of_attr, cfg_view, cfgs_view, lemma_cfgs_view_index, Cfg, CfgV};
use crate::token::{
    lemma_elem_size, lemma_seq_size_skip, lemma_seq_size_split, lemma_toks_view_index, seq_size,
    tok_view, tokens_copy, toks_view, Delim, Token, TokenV,
};

verus! {

/// An attribute-shaped prefix: the marker, an optional inner-style bang,
/// and a bracketed body, read regardless of grammatical position.
pub struct AnyAttribute {
    /// True for the inner variant `#![..]`, false for the outer `#[..]`.
    pub inner: bool,
    /// The tokens between the brackets.
    pub meta: Vec<Token>,
}

/// The attribute a whole stream spells, if any: `#[..]` or `#![..]` and
/// nothing else.
pub open spec fn is_marker(t: TokenV, c: char) -> bool {
    match t {
        TokenV::Punct(d, _) => d == c,
        _ => false,
    }
}

pub open spec fn attr_of(ts: Seq<TokenV>) -> Option<(bool, Seq<TokenV>)> {
    if ts.len() == 2 && is_marker(ts[0], '#') {
        match ts[1] {
            TokenV::Group(Delim::Bracket, m) => Option::Some((false, m)),
            _ => Option::None,
        }
    } else if ts.len() == 3 && is_marker(ts[0], '#') && is_marker(ts[1], '!') {
        match ts[2] {
            TokenV::Group(Delim::Bracket, m) => Option::Some((true, m)),
            _ => Option::None,
        }
    } else {
        Option::None
    }
}

impl AnyAttribute {
    /// Reads a whole stream as an attribute-shaped prefix.
    pub fn parse(ts: &Vec<Token>) -> (r: Option<AnyAttribute>)
        ensures
            match r {
                Option::Some(a) => attr_of(toks_view(ts@)) == Option::Some(
                    (a.inner, toks_view(a.meta@)),
                ),
                Option::None => attr_of(toks_view(ts@)) is None,
            },
    {
        proof {
            lemma_toks_view_index(ts@);
        }
        if ts.len() == 2 {
            let outer_ok = match (&ts[0], &ts[1]) {
                (Token::Punct(c, _), Token::Group(Delim::Bracket, _)) => *c == '#',
                _ => false,
            };
            if outer_ok {
                match &ts[1] {
                    Token::Group(_, m) => {
                        return Option::Some(AnyAttribute { inner: false, meta: tokens_copy(m) });
                    },
                    _ => {
                        proof {
                            assert(false);
                        }
                        return Option::None;
                    },
                }
            }
            return Option::None;
        }
        if ts.len() == 3 {
            let inner_ok = match (&ts[0], &ts[1], &ts[2]) {
                (Token::Punct(c, _), Token::Punct(d, _), Token::Group(Delim::Bracket, _)) => (*c
                    == '#') && (*d == '!'),
                _ => false,
            };
            if inner_ok {
                match &ts[2] {
                    Token::Group(_, m) => {
                        return Option::Some(AnyAttribute { inner: true, meta: tokens_copy(m) });
                    },
                    _ => {
                        proof {
                            assert(false);
                        }
                        return Option::None;
                    },
                }
            }
            return Option::None;
        }
        Option::None
    }
}

/// Reads a whole stream as an attribute-shaped prefix.
pub fn parse_any_attr(ts: &Vec<Token>) -> (r: Option<AnyAttribute>)
    ensures
        match r {
            Option::Some(a) => attr_of(toks_view(ts@)) == Option::Some(
                (a.inner, toks_view(a.meta@)),
            ),
            Option::None => attr_of(toks_view(ts@)) is None,
        },
{
    AnyAttribute::parse(ts)
}

/// The predicate a directive-shaped prefix carries: a `#` marker followed
/// by a bracket group whose content is `cfg(<one argument>)`.
pub open spec fn directive_head(ts: Seq<TokenV>) -> Option<CfgV> {
    if ts.len() >= 2 {
        match (ts[0], ts[1]) {
            (TokenV::Punct(c, _), TokenV::Group(Delim::Bracket, m)) => {
                if c == '#' {
                    cfg_of_attr(m)
                } else {
                    Option::None
                }
            },
            _ => Option::None,
        }
    } else {
        Option::None
    }
}

/// Every directive predicate in the stream, in scan order: groups are
/// entered, a recognized directive is consumed together with its bracket
/// group (whose inside is not scanned), and everything else is passed over.
pub open spec fn found_cfgs(ts: Seq<TokenV>) -> Seq<CfgV>
    decreases seq_size(ts),
{
    if ts.len() == 0 {
        Seq::empty()
    } else {
        match ts[0] {
            TokenV::Group(_, inner) => {
                proof {
                    lemma_elem_size(ts, 0);
                    lemma_seq_size_skip(ts, 1);
                }
                found_cfgs(inner) + found_cfgs(ts.skip(1))
            },
            _ => {
                match directive_head(ts) {
                    Option::Some(c) => {
                        proof {
                            lemma_seq_size_skip(ts, 2);
                        }
                        seq![c] + found_cfgs(ts.skip(2))
                    },
                    Option::None => {
                        proof {
                            lemma_seq_size_skip(ts, 1);
                        }
                        found_cfgs(ts.skip(1))
                    },
                }
            },
        }
    }
}

/// Scans the stream and collects every directive predicate found.
pub fn find_cfg_attrs(ts: &Vec<Token>) -> (r: Vec<Cfg>)
    ensures
        cfgs_view(r@) == found_cfgs(toks_view(ts@)),
    decreases seq_size(toks_view(ts@)),
{
    let ghost v = toks_view(ts@);
    proof {
        lemma_toks_view_index(ts@);
    }
    let mut out: Vec<Cfg> = Vec::new();
    let mut i: usize = 0;
    proof {
        assert(v.skip(0) =~= v);
        assert(cfgs_view(out@) =~= Seq::<CfgV>::empty());
    }
    while i < ts.len()
        invariant
            0 <= i <= ts@.len(),
            v == toks_view(ts@),
            v.len() == ts@.len(),
            forall|j: int| 0 <= j < ts@.len() ==> v[j] == tok_view(#[trigger] ts@[j]),
            found_cfgs(v) == cfgs_view(out@) + found_cfgs(v.skip(i as int)),
        decreases ts@.len() - i,
    {
        let ghost rem = v.skip(i as int);
        proof {
            assert(rem[0] == v[i as int]);
            assert(rem.skip(1) =~= v.skip(i + 1));
        }
        match &ts[i] {
            Token::Group(_, inner) => {
                proof {
                    lemma_seq_size_split(v, i as int);
                    lemma_elem_size(rem, 0);
                }
                let mut found = find_cfg_attrs(inner);
                proof {
                    assert(found_cfgs(rem) == found_cfgs(toks_view(inner@)) + found_cfgs(
                        rem.skip(1),
                    ));
                }
                let ghost out0 = out@;
                let ghost f0 = found@;
                out.append(&mut found);
                proof {
                    assert(out@ == out0 + f0);
                    lemma_cfgs_view_concat(out0, f0);
                    assert(cfgs_view(out@) == cfgs_view(out0) + cfgs_view(f0));
                    assert(found_cfgs(v) == cfgs_view(out@) + found_cfgs(v.skip(i + 1)));
                }
                i = i + 1;
            },
            Token::Punct(c, _) => {
                let is_hash = *c == '#';
                let mut attempt: Option<Cfg> = Option::None;
                if is_hash && i + 1 < ts.len() {
                    let group_ok = match &ts[i + 1] {
                        Token::Group(Delim::Bracket, _) => true,
                        _ => false,
                    };
                    if group_ok {
                        let mut attr_ts: Vec<Token> = Vec::new();
                        attr_ts.push(crate::token::token_copy(&ts[i]));
                        attr_ts.push(crate::token::token_copy(&ts[i + 1]));
                        proof {
                            crate::cfg::lemma_toks_view_pair(attr_ts@);
                        }
                        match parse_any_attr(&attr_ts) {
                            Option::Some(attr) => {
                                match Cfg::from_attr(&attr) {
                                    Option::Some(cfg) => {
                                        attempt = Option::Some(cfg);
                                    },
                                    Option::None => {},
                                }
                            },
                            Option::None => {},
                        }
                    }
                }
                match attempt {
                    Option::Some(cfg) => {
                        proof {
                            assert(directive_head(rem) == Option::Some(cfg_view(cfg)));
                            assert(found_cfgs(rem) == seq![cfg_view(cfg)] + found_cfgs(
                                rem.skip(2),
                            ));
                            assert(rem.skip(2) =~= v.skip(i + 2));
                        }
                        let ghost out0 = out@;
                        out.push(cfg);
                        proof {
                            assert(out@.drop_last() =~= out0);
                            assert(cfgs_view(out@) == cfgs_view(out0).push(
                                cfg_view(out@.last()),
                            ));
                            assert(cfgs_view(out@) =~= cfgs_view(out0) + seq![
                                cfg_view(out@.last()),
                            ]);
                            assert(found_cfgs(v) == cfgs_view(out@) + found_cfgs(v.skip(i + 2)));
                        }
                        i = i + 2;
                    },
                    Option::None => {
                        proof {
                            assert(directive_head(rem) is None);
                            assert(found_cfgs(rem) == found_cfgs(rem.skip(1)));
                        }
                        i = i + 1;
                    },
                }
            },
            _ => {
                proof {
                    assert(directive_head(rem) is None);
                    assert(found_cfgs(rem) == found_cfgs(rem.skip(1)));
                }
                i = i + 1;
            },
        }
    }
    proof {
        assert(v.skip(ts@.len() as int) =~= Seq::<TokenV>::empty());
        assert(found_cfgs(v) =~= cfgs_view(out@));
    }
    out
}

/// The view of a predicate list distributes over concatenation.
pub proof fn lemma_cfgs_view_concat(a: Seq<Cfg>, b: Seq<Cfg>)
    ensures
        cfgs_view(a + b) == cfgs_view(a) + cfgs_view(b),
{
    lemma_cfgs_view_index(a + b);
    lemma_cfgs_view_index(a);
    lemma_cfgs_view_index(b);
    assert forall|j: int| 0 <= j < (a + b).len() implies cfgs_view(a + b)[j] == (cfgs_view(a)
        + cfgs_view(b))[j] by {
        if j < a.len() {
            assert((a + b)[j] == a[j]);
        } else {
            assert((a + b)[j] == b[j - a.len()]);
        }
    }
    assert(cfgs_view(a + b) =~= cfgs_view(a) + cfgs_view(b));
}

} // verus!
