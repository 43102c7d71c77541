//! Conditional-compilation expansion at token-tree granularity.
//!
//! A token stream may tag arbitrary sub-fragments (not just whole
//! declarations) with boolean configuration directives of the shape
//! `#[cfg(<predicate>)]`, each guarding exactly the one token or group that
//! follows it.  The engine discovers every directive, reduces the
//! discovered predicates to a minimal base set of independent atoms,
//! enumerates every sign assignment over that base set, and splices the
//! stream once per assignment, re-annotating each resulting fragment with a
//! single canonical guard so a coarser-grained conditional-compilation
//! consumer can still select among the variants.

pub mod cfg;
pub mod combine;
pub mod find;
pub mod laws;
pub mod reduce;
pub mod reparse;
pub mod splice;
pub mod token;

use vstd::prelude::*;

use crate::cfg::{av_view, cfg_view, cfgs_view, lemma_cfgs_view_index, render_attr, CfgV};
use crate::combine::all_combos;
use crate::find::found_cfgs;
use crate::reduce::reduce_spec;
use crate::reparse::fragments_of;
use crate::splice::splice_seq;
use crate::token::{lemma_toks_view_concat, tokens_copy, toks_view, Token, TokenV};

verus! {

/// One combination's contribution to the output: each fragment of the
/// spliced variant, prefixed by the combination's canonical guard.
pub open spec fn guard_block_from(c: CfgV, frs: Seq<Seq<TokenV>>, j: int) -> Seq<TokenV>
    decreases frs.len() - j,
{
    if j < 0 || j >= frs.len() {
        Seq::empty()
    } else {
        render_attr(c) + frs[j] + guard_block_from(c, frs, j + 1)
    }
}

/// The whole output of one combination: splice, split into fragments,
/// re-guard each fragment.
pub open spec fn combo_output(ts: Seq<TokenV>, c: CfgV) -> Seq<TokenV> {
    guard_block_from(c, fragments_of(splice_seq(ts, c)), 0)
}

/// The outputs of every combination from position `k` on, concatenated in
/// enumeration order.
pub open spec fn outputs_from(ts: Seq<TokenV>, combos: Seq<CfgV>, k: int) -> Seq<TokenV>
    decreases combos.len() - k,
{
    if k < 0 || k >= combos.len() {
        Seq::empty()
    } else {
        combo_output(ts, combos[k]) + outputs_from(ts, combos, k + 1)
    }
}

/// The whole expansion: the stream unchanged when it holds no directive,
/// else the concatenated guarded outputs of every sign combination over
/// the reduced base set of the discovered predicates.
pub open spec fn expand_spec(ts: Seq<TokenV>) -> Seq<TokenV> {
    if found_cfgs(ts).len() == 0 {
        ts
    } else {
        outputs_from(ts, all_combos(reduce_spec(found_cfgs(ts))), 0)
    }
}

/// Applies conditional compilation at token-tree granularity: every
/// `#[cfg(..)]` directive guards exactly the one token or group that
/// follows it, wherever in the grammar it stands, and the result holds one
/// canonically re-guarded variant per sign combination of the independent
/// directive atoms.  A stream with no directive comes back identical.
pub fn cfg_tt(input: &Vec<Token>) -> (out: Vec<Token>)
    ensures
        toks_view(out@) == expand_spec(toks_view(input@)),
        found_cfgs(toks_view(input@)).len() == 0 ==> toks_view(out@) == toks_view(input@),
{
    let ghost v = toks_view(input@);
    let found = crate::find::find_cfg_attrs(input);
    proof {
        lemma_cfgs_view_index(found@);
    }
    if found.len() == 0 {
        return tokens_copy(input);
    }
    let base = crate::reduce::reduce_base_set(&found);
    let combos = crate::combine::all_combinations(&base);
    let ghost cv = cfgs_view(combos@);
    proof {
        lemma_cfgs_view_index(combos@);
    }
    let mut out: Vec<Token> = Vec::new();
    let mut k: usize = 0;
    proof {
        assert(toks_view(out@) =~= Seq::<TokenV>::empty());
    }
    while k < combos.len()
        invariant
            0 <= k <= combos@.len(),
            v == toks_view(input@),
            cv == cfgs_view(combos@),
            cv.len() == combos@.len(),
            forall|j: int| 0 <= j < combos@.len() ==> cv[j] == cfg_view(#[trigger] combos@[j]),
            outputs_from(v, cv, 0) == toks_view(out@) + outputs_from(v, cv, k as int),
        decreases combos@.len() - k,
    {
        let ghost ck = cv[k as int];
        let variant = crate::splice::splice(input, &combos[k]);
        let frs = crate::reparse::split_fragments(variant);
        let ghost frv = av_view(frs@);
        proof {
            crate::cfg::lemma_av_view_index(frs@);
            assert(frv == fragments_of(splice_seq(v, ck)));
        }
        let ghost out_k = out@;
        let mut j: usize = 0;
        while j < frs.len()
            invariant
                0 <= j <= frs@.len(),
                v == toks_view(input@),
                ck == cfg_view(combos@[k as int]),
                0 <= k < combos@.len(),
                frv == av_view(frs@),
                frv.len() == frs@.len(),
                forall|jj: int| 0 <= jj < frs@.len() ==> frv[jj] == toks_view(
                    (#[trigger] frs@[jj])@,
                ),
                toks_view(out_k) + guard_block_from(ck, frv, 0) == toks_view(out@)
                    + guard_block_from(ck, frv, j as int),
            decreases frs@.len() - j,
        {
            let mut g = combos[k].to_token_stream();
            let ghost gtoks = g@;
            let ghost out0 = out@;
            out.append(&mut g);
            let ghost out1 = out@;
            let mut f = tokens_copy(&frs[j]);
            let ghost ftoks = f@;
            out.append(&mut f);
            proof {
                assert(out1 == out0 + gtoks);
                assert(out@ == out1 + ftoks);
                lemma_toks_view_concat(out0, gtoks);
                lemma_toks_view_concat(out1, ftoks);
                assert(toks_view(out@) == toks_view(out0) + render_attr(ck) + frv[j as int]);
                assert(guard_block_from(ck, frv, j as int) == render_attr(ck) + frv[j as int]
                    + guard_block_from(ck, frv, j + 1));
                assert(toks_view(out_k) + guard_block_from(ck, frv, 0) =~= toks_view(out@)
                    + guard_block_from(ck, frv, j + 1));
            }
            j = j + 1;
        }
        proof {
            assert(guard_block_from(ck, frv, frs@.len() as int) =~= Seq::<TokenV>::empty());
            assert(toks_view(out@) =~= toks_view(out_k) + guard_block_from(ck, frv, 0));
            assert(combo_output(v, ck) == guard_block_from(ck, frv, 0));
            assert(outputs_from(v, cv, k as int) == combo_output(v, ck) + outputs_from(
                v,
                cv,
                k + 1,
            ));
            assert(outputs_from(v, cv, 0) =~= toks_view(out@) + outputs_from(v, cv, k + 1));
        }
        k = k + 1;
    }
    proof {
        assert(outputs_from(v, cv, combos@.len() as int) =~= Seq::<TokenV>::empty());
        assert(toks_view(out@) =~= outputs_from(v, cv, 0));
    }
    out
}

} // verus!
