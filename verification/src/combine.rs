//! The combination generator: enumerates every sign assignment over the
//! base set by depth-first recursion, always exploring the excluded sign
//! before the included one, and renders each assignment as a conjunction of
//! signed atoms (the bare signed atom when the base set has one member).
//! A base set of size `n` yields exactly `2^n` combinations; an empty base
//! set yields none, signaling that there is nothing to expand.
//!
//! Enumeration is purely syntactic: two combinations that are logically
//! equivalent but spelled over different base entries are both kept.  The
//! exact implication test stands ready for callers who want to merge them,
//! but is deliberately not wired into this path.

use vstd::prelude::*;

use crate::cfg::{cfg_view, cfgs_view, lemma_cfgs_view_index, Cfg, CfgV};

verus! {

pub open spec fn pow2(n: nat) -> nat
    decreases n,
{
    if n == 0 {
        1
    } else {
        2 * pow2((n - 1) as nat)
    }
}

/// One signed occurrence of a base entry.
pub open spec fn signed_term(c: CfgV, sign: bool) -> CfgV {
    if sign {
        c
    } else {
        CfgV::Not(Box::new(c))
    }
}

/// One whole sign assignment, rendered as a predicate.
pub open spec fn render_combo(base: Seq<CfgV>, signs: Seq<bool>) -> CfgV {
    if base.len() == 1 {
        signed_term(base[0], signs[0])
    } else {
        CfgV::All(Seq::new(base.len(), |j: int| signed_term(base[j], signs[j])))
    }
}

/// Every combination whose signs extend `prefix`, excluded sign first.
pub open spec fn combos_from(base: Seq<CfgV>, prefix: Seq<bool>) -> Seq<CfgV>
    decreases base.len() - prefix.len(),
{
    if prefix.len() >= base.len() {
        seq![render_combo(base, prefix)]
    } else {
        combos_from(base, prefix.push(false)) + combos_from(base, prefix.push(true))
    }
}

/// Every combination over the base set, in enumeration order.
pub open spec fn all_combos(base: Seq<CfgV>) -> Seq<CfgV> {
    if base.len() == 0 {
        Seq::empty()
    } else {
        combos_from(base, Seq::empty())
    }
}

/// The enumeration yields one combination per sign assignment.
pub proof fn lemma_combos_count(base: Seq<CfgV>, prefix: Seq<bool>)
    requires
        prefix.len() <= base.len(),
    ensures
        combos_from(base, prefix).len() == pow2((base.len() - prefix.len()) as nat),
    decreases base.len() - prefix.len(),
{
    if prefix.len() < base.len() {
        lemma_combos_count(base, prefix.push(false));
        lemma_combos_count(base, prefix.push(true));
    }
}

/// One signed occurrence of a base entry.
fn signed_term_exec(c: &Cfg, sign: bool) -> (r: Cfg)
    ensures
        cfg_view(r) == signed_term(cfg_view(*c), sign),
{
    if sign {
        c.cfg_copy()
    } else {
        Cfg::Not(Box::new(c.cfg_copy()))
    }
}

/// One whole sign assignment, rendered as a predicate.
fn render_combo_exec(base: &Vec<Cfg>, signs: &Vec<bool>) -> (r: Cfg)
    requires
        base@.len() >= 1,
        base@.len() == signs@.len(),
    ensures
        cfg_view(r) == render_combo(cfgs_view(base@), signs@),
{
    proof {
        lemma_cfgs_view_index(base@);
    }
    if base.len() == 1 {
        let t = signed_term_exec(&base[0], signs[0]);
        proof {
            assert(cfgs_view(base@)[0] == cfg_view(base@[0]));
        }
        t
    } else {
        let mut terms: Vec<Cfg> = Vec::new();
        let mut j: usize = 0;
        while j < base.len()
            invariant
                0 <= j <= base@.len(),
                base@.len() == signs@.len(),
                cfgs_view(base@).len() == base@.len(),
                forall|k: int| 0 <= k < base@.len() ==> cfgs_view(base@)[k] == cfg_view(
                    #[trigger] base@[k],
                ),
                terms@.len() == j,
                forall|k: int| 0 <= k < j ==> cfg_view(#[trigger] terms@[k]) == signed_term(
                    cfgs_view(base@)[k],
                    signs@[k],
                ),
            decreases base@.len() - j,
        {
            terms.push(signed_term_exec(&base[j], signs[j]));
            j = j + 1;
        }
        proof {
            lemma_cfgs_view_index(terms@);
            assert forall|k: int| 0 <= k < terms@.len() implies cfgs_view(terms@)[k] == Seq::new(
                cfgs_view(base@).len(),
                |j: int| signed_term(cfgs_view(base@)[j], signs@[j]),
            )[k] by {
                assert(cfgs_view(terms@)[k] == cfg_view(terms@[k]));
            }
            assert(cfgs_view(terms@) =~= Seq::new(
                cfgs_view(base@).len(),
                |j: int| signed_term(cfgs_view(base@)[j], signs@[j]),
            ));
        }
        Cfg::All(terms)
    }
}

/// Depth-first enumeration below one sign prefix, excluded sign first.
fn combos_dfs(base: &Vec<Cfg>, signs: &mut Vec<bool>, out: &mut Vec<Cfg>)
    requires
        base@.len() >= 1,
        old(signs)@.len() <= base@.len(),
    ensures
        final(signs)@ == old(signs)@,
        cfgs_view(final(out)@) == cfgs_view(old(out)@) + combos_from(
            cfgs_view(base@),
            old(signs)@,
        ),
    decreases base@.len() - old(signs)@.len(),
{
    proof {
        lemma_cfgs_view_index(base@);
    }
    if signs.len() == base.len() {
        let c = render_combo_exec(base, signs);
        let ghost o0 = out@;
        out.push(c);
        proof {
            assert(out@.drop_last() =~= o0);
            assert(cfgs_view(out@) == cfgs_view(o0).push(cfg_view(out@.last())));
            assert(combos_from(cfgs_view(base@), signs@) == seq![
                render_combo(cfgs_view(base@), signs@),
            ]);
            assert(cfgs_view(out@) =~= cfgs_view(o0) + combos_from(cfgs_view(base@), signs@));
        }
    } else {
        let ghost s0 = signs@;
        signs.push(false);
        combos_dfs(base, signs, out);
        let _ = signs.pop();
        proof {
            assert(signs@ =~= s0);
        }
        signs.push(true);
        combos_dfs(base, signs, out);
        let _ = signs.pop();
        proof {
            assert(signs@ =~= s0);
        }
    }
}

/// Every combination over the base set, in enumeration order: exactly
/// `2^n` of them for `n` base entries, each one sign assignment rendered
/// as a conjunction of `n` signed entries (the bare signed entry when
/// `n` is one), and none at all for an empty base set.
pub fn all_combinations(base: &Vec<Cfg>) -> (r: Vec<Cfg>)
    ensures
        cfgs_view(r@) == all_combos(cfgs_view(base@)),
        base@.len() == 0 ==> r@.len() == 0,
        base@.len() >= 1 ==> r@.len() == pow2(base@.len() as nat),
{
    proof {
        lemma_cfgs_view_index(base@);
    }
    let mut out: Vec<Cfg> = Vec::new();
    if base.len() == 0 {
        proof {
            assert(cfgs_view(out@) =~= all_combos(cfgs_view(base@)));
        }
        return out;
    }
    let mut signs: Vec<bool> = Vec::new();
    combos_dfs(base, &mut signs, &mut out);
    proof {
        assert(cfgs_view(Seq::<Cfg>::empty()) =~= Seq::<CfgV>::empty());
        assert(cfgs_view(out@) =~= all_combos(cfgs_view(base@)));
        lemma_combos_count(cfgs_view(base@), Seq::empty());
        lemma_cfgs_view_index(out@);
    }
    out
}

} // verus!
