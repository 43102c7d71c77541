//! The token splicer: given one concrete sign assignment, rewrites the
//! stream, keeping or dropping every directive-guarded fragment according
//! to whether the assignment satisfies the guard.  The stream is rebuilt,
//! never mutated in place.

use vstd::prelude::*;

use crate::cfg::{active_subset, cfg_view, Cfg, CfgV};
use crate::find::{directive_head, parse_any_attr};
use crate::token::{
    lemma_elem_size, lemma_seq_size_skip, lemma_seq_size_split, lemma_toks_view_index, seq_size,
    tok_view, token_copy, toks_view, Delim, Token, TokenV,
};

verus! {

/// The spliced stream: groups are rebuilt around their spliced contents; a
/// recognized directive and its guarded target (the one following token)
/// are consumed — the target survives exactly when the active assignment
/// satisfies the guard, a surviving group target is replaced by its spliced
/// contents, and a directive at the very end of the stream is dropped; an
/// unrecognized prefix is passed through unchanged, consuming nothing.
pub open spec fn splice_seq(ts: Seq<TokenV>, c: CfgV) -> Seq<TokenV>
    decreases seq_size(ts),
{
    if ts.len() == 0 {
        Seq::empty()
    } else {
        match ts[0] {
            TokenV::Group(d, inner) => {
                proof {
                    lemma_elem_size(ts, 0);
                    lemma_seq_size_skip(ts, 1);
                }
                seq![TokenV::Group(d, splice_seq(inner, c))] + splice_seq(ts.skip(1), c)
            },
            _ => {
                match directive_head(ts) {
                    Option::Some(g) => {
                        if ts.len() == 2 {
                            Seq::empty()
                        } else if active_subset(c, g) {
                            proof {
                                lemma_seq_size_skip(ts, 3);
                                lemma_elem_size(ts, 2);
                            }
                            match ts[2] {
                                TokenV::Group(_, ginner) => splice_seq(ginner, c) + splice_seq(
                                    ts.skip(3),
                                    c,
                                ),
                                _ => seq![ts[2]] + splice_seq(ts.skip(3), c),
                            }
                        } else {
                            proof {
                                lemma_seq_size_skip(ts, 3);
                            }
                            splice_seq(ts.skip(3), c)
                        }
                    },
                    Option::None => {
                        proof {
                            lemma_seq_size_skip(ts, 1);
                        }
                        seq![ts[0]] + splice_seq(ts.skip(1), c)
                    },
                }
            },
        }
    }
}

/// Rewrites the stream under one active assignment.
pub fn splice(ts: &Vec<Token>, c: &Cfg) -> (r: Vec<Token>)
    ensures
        toks_view(r@) == splice_seq(toks_view(ts@), cfg_view(*c)),
    decreases seq_size(toks_view(ts@)),
{
    let ghost v = toks_view(ts@);
    let ghost cv = cfg_view(*c);
    proof {
        lemma_toks_view_index(ts@);
    }
    let mut out: Vec<Token> = Vec::new();
    let mut i: usize = 0;
    proof {
        assert(v.skip(0) =~= v);
        assert(toks_view(out@) =~= Seq::<TokenV>::empty());
    }
    while i < ts.len()
        invariant
            0 <= i <= ts@.len(),
            v == toks_view(ts@),
            cv == cfg_view(*c),
            v.len() == ts@.len(),
            forall|j: int| 0 <= j < ts@.len() ==> v[j] == tok_view(#[trigger] ts@[j]),
            splice_seq(v, cv) == toks_view(out@) + splice_seq(v.skip(i as int), cv),
        decreases ts@.len() - i,
    {
        let ghost rem = v.skip(i as int);
        proof {
            assert(rem[0] == v[i as int]);
            assert(rem.skip(1) =~= v.skip(i + 1));
        }
        match &ts[i] {
            Token::Group(d, inner) => {
                proof {
                    lemma_seq_size_split(v, i as int);
                    lemma_elem_size(rem, 0);
                }
                let spliced = splice(inner, c);
                let ghost out0 = out@;
                out.push(Token::Group(*d, spliced));
                proof {
                    assert(out@.drop_last() =~= out0);
                    assert(toks_view(out@) == toks_view(out0).push(tok_view(out@.last())));
                    assert(tok_view(out@.last()) == TokenV::Group(
                        *d,
                        splice_seq(toks_view(inner@), cv),
                    ));
                    assert(splice_seq(rem, cv) == seq![tok_view(out@.last())] + splice_seq(
                        rem.skip(1),
                        cv,
                    ));
                    assert(toks_view(out@) =~= toks_view(out0) + seq![tok_view(out@.last())]);
                    assert(splice_seq(v, cv) == toks_view(out@) + splice_seq(v.skip(i + 1), cv));
                }
                i = i + 1;
            },
            Token::Punct(ch, _) => {
                let is_hash = *ch == '#';
                let mut guard: Option<Cfg> = Option::None;
                if is_hash && i + 1 < ts.len() {
                    let group_ok = match &ts[i + 1] {
                        Token::Group(Delim::Bracket, _) => true,
                        _ => false,
                    };
                    if group_ok {
                        let mut attr_ts: Vec<Token> = Vec::new();
                        attr_ts.push(token_copy(&ts[i]));
                        attr_ts.push(token_copy(&ts[i + 1]));
                        proof {
                            crate::cfg::lemma_toks_view_pair(attr_ts@);
                        }
                        match parse_any_attr(&attr_ts) {
                            Option::Some(attr) => {
                                match Cfg::from_attr(&attr) {
                                    Option::Some(g) => {
                                        guard = Option::Some(g);
                                    },
                                    Option::None => {},
                                }
                            },
                            Option::None => {},
                        }
                    }
                }
                match guard {
                    Option::Some(g) => {
                        proof {
                            assert(directive_head(rem) == Option::Some(cfg_view(g)));
                        }
                        if i + 2 >= ts.len() {
                            // a guarded occurrence with nothing following is
                            // silently dropped
                            proof {
                                assert(rem.len() == 2);
                                assert(splice_seq(rem, cv) =~= Seq::<TokenV>::empty());
                                assert(v.skip(ts@.len() as int) =~= Seq::<TokenV>::empty());
                                assert(splice_seq(v.skip(ts@.len() as int), cv)
                                    =~= Seq::<TokenV>::empty());
                                assert(splice_seq(v, cv) == toks_view(out@) + splice_seq(
                                    v.skip(ts@.len() as int),
                                    cv,
                                ));
                            }
                            i = ts.len();
                        } else {
                            proof {
                                assert(rem.len() >= 3);
                                assert(rem[2] == v[i + 2]);
                                assert(rem.skip(3) =~= v.skip(i + 3));
                            }
                            if c.is_active_subset(&g) {
                                match &ts[i + 2] {
                                    Token::Group(_, ginner) => {
                                        proof {
                                            lemma_seq_size_split(v, i + 2);
                                            assert(v.skip(i + 2)[0] == v[i + 2]);
                                            lemma_elem_size(v.skip(i + 2), 0);
                                        }
                                        let mut spliced = splice(ginner, c);
                                        let ghost out0 = out@;
                                        let ghost sp0 = spliced@;
                                        let ghost sv = toks_view(spliced@);
                                        out.append(&mut spliced);
                                        proof {
                                            assert(out@ == out0 + sp0);
                                            lemma_toks_view_index(sp0);
                                            assert forall|j: int| 0 <= j < sp0.len() implies
                                                tok_view(out@[out0.len() + j]) == sv[j] by {
                                                assert(out@[out0.len() + j] == sp0[j]);
                                            }
                                            lemma_toks_view_concat_splice(out0, sv, out@);
                                            assert(splice_seq(rem, cv) == splice_seq(
                                                toks_view(ginner@),
                                                cv,
                                            ) + splice_seq(rem.skip(3), cv));
                                            assert(splice_seq(v, cv) == toks_view(out@)
                                                + splice_seq(v.skip(i + 3), cv));
                                        }
                                    },
                                    _ => {
                                        let ghost out0 = out@;
                                        out.push(token_copy(&ts[i + 2]));
                                        proof {
                                            assert(out@.drop_last() =~= out0);
                                            assert(toks_view(out@) == toks_view(out0).push(
                                                tok_view(out@.last()),
                                            ));
                                            assert(tok_view(out@.last()) == v[i + 2]);
                                            assert(splice_seq(rem, cv) == seq![rem[2]]
                                                + splice_seq(rem.skip(3), cv));
                                            assert(toks_view(out@) =~= toks_view(out0) + seq![
                                                v[i + 2],
                                            ]);
                                            assert(splice_seq(v, cv) == toks_view(out@)
                                                + splice_seq(v.skip(i + 3), cv));
                                        }
                                    },
                                }
                            } else {
                                proof {
                                    assert(splice_seq(rem, cv) == splice_seq(rem.skip(3), cv));
                                    assert(splice_seq(v, cv) == toks_view(out@) + splice_seq(
                                        v.skip(i + 3),
                                        cv,
                                    ));
                                }
                            }
                            i = i + 3;
                        }
                    },
                    Option::None => {
                        proof {
                            assert(directive_head(rem) is None);
                        }
                        let ghost out0 = out@;
                        out.push(token_copy(&ts[i]));
                        proof {
                            assert(out@.drop_last() =~= out0);
                            assert(toks_view(out@) == toks_view(out0).push(tok_view(out@.last())));
                            assert(tok_view(out@.last()) == rem[0]);
                            assert(splice_seq(rem, cv) == seq![rem[0]] + splice_seq(
                                rem.skip(1),
                                cv,
                            ));
                            assert(toks_view(out@) =~= toks_view(out0) + seq![rem[0]]);
                            assert(splice_seq(v, cv) == toks_view(out@) + splice_seq(
                                v.skip(i + 1),
                                cv,
                            ));
                        }
                        i = i + 1;
                    },
                }
            },
            _ => {
                proof {
                    assert(directive_head(rem) is None);
                }
                let ghost out0 = out@;
                out.push(token_copy(&ts[i]));
                proof {
                    assert(out@.drop_last() =~= out0);
                    assert(toks_view(out@) == toks_view(out0).push(tok_view(out@.last())));
                    assert(tok_view(out@.last()) == rem[0]);
                    assert(splice_seq(rem, cv) == seq![rem[0]] + splice_seq(rem.skip(1), cv));
                    assert(toks_view(out@) =~= toks_view(out0) + seq![rem[0]]);
                    assert(splice_seq(v, cv) == toks_view(out@) + splice_seq(v.skip(i + 1), cv));
                }
                i = i + 1;
            },
        }
    }
    proof {
        assert(v.skip(ts@.len() as int) =~= Seq::<TokenV>::empty());
        assert(splice_seq(v, cv) =~= toks_view(out@));
    }
    out
}

/// The view of a token list distributes over appending.
pub proof fn lemma_toks_view_concat_splice(a: Seq<Token>, bv: Seq<TokenV>, whole: Seq<Token>)
    requires
        whole.len() == a.len() + bv.len(),
        forall|j: int| 0 <= j < a.len() ==> whole[j] == a[j],
        forall|j: int| 0 <= j < bv.len() ==> tok_view(whole[a.len() + j]) == bv[j],
    ensures
        toks_view(whole) == toks_view(a) + bv,
{
    lemma_toks_view_index(whole);
    lemma_toks_view_index(a);
    assert forall|j: int| 0 <= j < whole.len() implies toks_view(whole)[j] == (toks_view(a)
        + bv)[j] by {
        if j < a.len() {
            assert(whole[j] == a[j]);
        } else {
            assert(tok_view(whole[j]) == bv[j - a.len()]);
        }
    }
    assert(toks_view(whole) =~= toks_view(a) + bv);
}

} // verus!
