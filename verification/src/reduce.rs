//! The base-set reducer: collapses the discovered predicate list into a
//! minimal independent generating set.  A top-level negation is stored as
//! its positive form (the sign is enumeration's business), an empty
//! disjunction or conjunction contributes nothing, a one-element one
//! degrades to its element, duplicates are dropped, and a conjunction whose
//! children (or their negated forms) are all present elsewhere is
//! discarded as derivable.

use vstd::prelude::*;

use crate::cfg::{cfg_view, cfgs_view, lemma_cfgs_view_index, Cfg, CfgV};
use crate::token::tokens_copy;

verus! {

/// A discovered predicate's normal form, if it contributes a dimension.
pub open spec fn norm(c: CfgV) -> Option<CfgV>
    decreases c,
{
    match c {
        CfgV::Not(x) => norm(*x),
        CfgV::Any(xs) => {
            if xs.len() == 0 {
                Option::None
            } else if xs.len() == 1 {
                norm(xs[0])
            } else {
                Option::Some(c)
            }
        },
        CfgV::All(xs) => {
            if xs.len() == 0 {
                Option::None
            } else if xs.len() == 1 {
                norm(xs[0])
            } else {
                Option::Some(c)
            }
        },
        CfgV::Atomic(_) => Option::Some(c),
    }
}

pub open spec fn dedup_insert(s: Seq<CfgV>, c: CfgV) -> Seq<CfgV> {
    if s.contains(c) {
        s
    } else {
        s.push(c)
    }
}

/// The deduplicated set of normalized discovered predicates, in first-seen
/// order.
pub open spec fn build_set(found: Seq<CfgV>) -> Seq<CfgV>
    decreases found.len(),
{
    if found.len() == 0 {
        Seq::empty()
    } else {
        let s = build_set(found.drop_last());
        match norm(found.last()) {
            Option::Some(c) => dedup_insert(s, c),
            Option::None => s,
        }
    }
}

/// The negated form of an entry: negation stripped, or added.
pub open spec fn negated_form(c: CfgV) -> CfgV {
    match c {
        CfgV::Not(x) => *x,
        _ => CfgV::Not(Box::new(c)),
    }
}

pub open spec fn covered(x: CfgV, others: Seq<CfgV>) -> bool {
    others.contains(x) || others.contains(negated_form(x))
}

pub open spec fn all_covered(cs: Seq<CfgV>, others: Seq<CfgV>) -> bool
    decreases cs.len(),
{
    if cs.len() == 0 {
        true
    } else {
        covered(cs[0], others) && all_covered(cs.skip(1), others)
    }
}

/// An entry stays unless it is a conjunction each of whose children (or
/// their negated form) is already present elsewhere in the set.
pub open spec fn keep_entry(e: CfgV, others: Seq<CfgV>) -> bool {
    match e {
        CfgV::All(cs) => !all_covered(cs, others),
        _ => true,
    }
}

pub open spec fn reduce_from(s: Seq<CfgV>, i: int) -> Seq<CfgV>
    decreases s.len() - i,
{
    if i < 0 || i >= s.len() {
        Seq::empty()
    } else {
        (if keep_entry(s[i], s.remove(i)) {
            seq![s[i]]
        } else {
            Seq::empty()
        }) + reduce_from(s, i + 1)
    }
}

/// The reduced base set of a discovered predicate list.
pub open spec fn reduce_spec(found: Seq<CfgV>) -> Seq<CfgV> {
    reduce_from(build_set(found), 0)
}

/// Is the predicate (by view) in the list?
pub fn contains_cfg(s: &Vec<Cfg>, c: &Cfg) -> (r: bool)
    ensures
        r == cfgs_view(s@).contains(cfg_view(*c)),
{
    proof {
        lemma_cfgs_view_index(s@);
    }
    let mut i: usize = 0;
    while i < s.len()
        invariant
            0 <= i <= s@.len(),
            cfgs_view(s@).len() == s@.len(),
            forall|j: int| 0 <= j < s@.len() ==> cfgs_view(s@)[j] == cfg_view(#[trigger] s@[j]),
            forall|j: int| 0 <= j < i ==> cfgs_view(s@)[j] != cfg_view(*c),
        decreases s@.len() - i,
    {
        if s[i].cfg_eq(c) {
            proof {
                assert(cfgs_view(s@)[i as int] == cfg_view(*c));
            }
            return true;
        }
        i = i + 1;
    }
    proof {
        if cfgs_view(s@).contains(cfg_view(*c)) {
            let j = choose|j: int|
                0 <= j < cfgs_view(s@).len() && cfgs_view(s@)[j] == cfg_view(*c);
            assert(false);
        }
    }
    false
}

/// A discovered predicate's normal form, if it contributes a dimension.
pub fn normalize(c: &Cfg) -> (r: Option<Cfg>)
    ensures
        match r {
            Option::Some(n) => norm(cfg_view(*c)) == Option::Some(cfg_view(n)),
            Option::None => norm(cfg_view(*c)) is None,
        },
    decreases c,
{
    proof {
        match c {
            Cfg::Any(xs) => lemma_cfgs_view_index(xs@),
            Cfg::All(xs) => lemma_cfgs_view_index(xs@),
            _ => (),
        }
    }
    match c {
        Cfg::Not(x) => normalize(x),
        Cfg::Any(xs) => {
            if xs.len() == 0 {
                Option::None
            } else if xs.len() == 1 {
                proof {
                    assert(cfgs_view(xs@)[0] == cfg_view(xs@[0]));
                }
                normalize(&xs[0])
            } else {
                Option::Some(c.cfg_copy())
            }
        },
        Cfg::All(xs) => {
            if xs.len() == 0 {
                Option::None
            } else if xs.len() == 1 {
                proof {
                    assert(cfgs_view(xs@)[0] == cfg_view(xs@[0]));
                }
                normalize(&xs[0])
            } else {
                Option::Some(c.cfg_copy())
            }
        },
        Cfg::Atomic(ts) => Option::Some(Cfg::Atomic(tokens_copy(ts))),
    }
}

/// The negated form of an entry: negation stripped, or added.
fn negated_form_exec(c: &Cfg) -> (r: Cfg)
    ensures
        cfg_view(r) == negated_form(cfg_view(*c)),
{
    match c {
        Cfg::Not(x) => x.cfg_copy(),
        _ => Cfg::Not(Box::new(c.cfg_copy())),
    }
}

/// Everything in `s` but the entry at `skip_at`.
fn all_but(s: &Vec<Cfg>, skip_at: usize) -> (r: Vec<Cfg>)
    requires
        skip_at < s@.len(),
    ensures
        cfgs_view(r@) == cfgs_view(s@).remove(skip_at as int),
{
    proof {
        lemma_cfgs_view_index(s@);
    }
    let mut out: Vec<Cfg> = Vec::new();
    let mut i: usize = 0;
    while i < s.len()
        invariant
            0 <= i <= s@.len(),
            skip_at < s@.len(),
            cfgs_view(s@).len() == s@.len(),
            forall|j: int| 0 <= j < s@.len() ==> cfgs_view(s@)[j] == cfg_view(#[trigger] s@[j]),
            out@.len() == if i <= skip_at {
                i as int
            } else {
                i - 1
            },
            forall|j: int| 0 <= j < out@.len() && j < skip_at ==> cfg_view(#[trigger] out@[j])
                == cfgs_view(s@)[j],
            forall|j: int| skip_at <= j < out@.len() ==> cfg_view(#[trigger] out@[j])
                == cfgs_view(s@)[j + 1],
        decreases s@.len() - i,
    {
        if i != skip_at {
            out.push(s[i].cfg_copy());
        }
        i = i + 1;
    }
    proof {
        lemma_cfgs_view_index(out@);
        assert forall|j: int| 0 <= j < out@.len() implies cfgs_view(out@)[j] == cfgs_view(
            s@,
        ).remove(skip_at as int)[j] by {
            assert(cfgs_view(out@)[j] == cfg_view(out@[j]));
        }
        assert(cfgs_view(out@) =~= cfgs_view(s@).remove(skip_at as int));
    }
    out
}

/// Does the active set cover every child of the conjunction entry?
fn keep_entry_exec(e: &Cfg, others: &Vec<Cfg>) -> (r: bool)
    ensures
        r == keep_entry(cfg_view(*e), cfgs_view(others@)),
{
    match e {
        Cfg::All(cs) => {
            proof {
                lemma_cfgs_view_index(cs@);
            }
            let ghost csv = cfgs_view(cs@);
            let ghost ov = cfgs_view(others@);
            let mut i: usize = 0;
            proof {
                assert(csv.skip(0) =~= csv);
            }
            while i < cs.len()
                invariant
                    0 <= i <= cs@.len(),
                    cfg_view(*e) == CfgV::All(csv),
                    csv == cfgs_view(cs@),
                    ov == cfgs_view(others@),
                    csv.len() == cs@.len(),
                    forall|j: int| 0 <= j < cs@.len() ==> csv[j] == cfg_view(#[trigger] cs@[j]),
                    all_covered(csv, ov) == all_covered(csv.skip(i as int), ov),
                decreases cs@.len() - i,
            {
                proof {
                    assert(csv.skip(i as int)[0] == csv[i as int]);
                    assert(csv.skip(i as int).skip(1) =~= csv.skip(i + 1));
                }
                let hit = contains_cfg(others, &cs[i]) || {
                    let n = negated_form_exec(&cs[i]);
                    contains_cfg(others, &n)
                };
                if !hit {
                    proof {
                        assert(!covered(csv[i as int], ov));
                        assert(!all_covered(csv.skip(i as int), ov));
                    }
                    return true;
                }
                i = i + 1;
            }
            proof {
                assert(csv.skip(cs@.len() as int) =~= Seq::<CfgV>::empty());
            }
            false
        },
        _ => true,
    }
}

/// Collapses the discovered predicate list into the minimal independent
/// base set over which enumeration branches.
pub fn reduce_base_set(found: &Vec<Cfg>) -> (r: Vec<Cfg>)
    ensures
        cfgs_view(r@) == reduce_spec(cfgs_view(found@)),
{
    proof {
        lemma_cfgs_view_index(found@);
    }
    let ghost fv = cfgs_view(found@);
    // deduplicating pass, in first-seen order
    let mut set: Vec<Cfg> = Vec::new();
    let mut i: usize = 0;
    proof {
        assert(fv.take(0) =~= Seq::<CfgV>::empty());
        assert(cfgs_view(set@) =~= build_set(fv.take(0)));
    }
    while i < found.len()
        invariant
            0 <= i <= found@.len(),
            fv == cfgs_view(found@),
            fv.len() == found@.len(),
            forall|j: int| 0 <= j < found@.len() ==> fv[j] == cfg_view(#[trigger] found@[j]),
            cfgs_view(set@) == build_set(fv.take(i as int)),
        decreases found@.len() - i,
    {
        proof {
            assert(fv.take(i + 1).drop_last() =~= fv.take(i as int));
            assert(fv.take(i + 1).last() == fv[i as int]);
        }
        match normalize(&found[i]) {
            Option::Some(n) => {
                if !contains_cfg(&set, &n) {
                    let ghost s0 = set@;
                    set.push(n);
                    proof {
                        assert(set@.drop_last() =~= s0);
                        assert(cfgs_view(set@) == cfgs_view(s0).push(cfg_view(set@.last())));
                    }
                }
            },
            Option::None => {},
        }
        i = i + 1;
    }
    proof {
        assert(fv.take(fv.len() as int) =~= fv);
    }
    // discard conjunctions already derivable from the rest
    let ghost sv = cfgs_view(set@);
    let mut out: Vec<Cfg> = Vec::new();
    let mut k: usize = 0;
    proof {
        lemma_cfgs_view_index(set@);
        assert(cfgs_view(out@) =~= Seq::<CfgV>::empty());
        assert(reduce_from(sv, 0) == cfgs_view(out@) + reduce_from(sv, 0));
    }
    while k < set.len()
        invariant
            0 <= k <= set@.len(),
            sv == cfgs_view(set@),
            sv.len() == set@.len(),
            forall|j: int| 0 <= j < set@.len() ==> sv[j] == cfg_view(#[trigger] set@[j]),
            reduce_from(sv, 0) == cfgs_view(out@) + reduce_from(sv, k as int),
        decreases set@.len() - k,
    {
        let others = all_but(&set, k);
        let keep = keep_entry_exec(&set[k], &others);
        proof {
            assert(reduce_from(sv, k as int) == (if keep_entry(sv[k as int], sv.remove(k as int)) {
                seq![sv[k as int]]
            } else {
                Seq::<CfgV>::empty()
            }) + reduce_from(sv, k + 1));
        }
        if keep {
            let ghost o0 = out@;
            out.push(set[k].cfg_copy());
            proof {
                assert(out@.drop_last() =~= o0);
                assert(cfgs_view(out@) == cfgs_view(o0).push(cfg_view(out@.last())));
                assert(cfgs_view(out@) =~= cfgs_view(o0) + seq![sv[k as int]]);
                assert(reduce_from(sv, 0) == cfgs_view(out@) + reduce_from(sv, k + 1));
            }
        } else {
            proof {
                assert(reduce_from(sv, 0) == cfgs_view(out@) + reduce_from(sv, k + 1));
            }
        }
        k = k + 1;
    }
    proof {
        assert(reduce_from(sv, set@.len() as int) =~= Seq::<CfgV>::empty());
        assert(reduce_from(sv, 0) =~= cfgs_view(out@));
    }
    out
}

} // verus!
