//! The algebra's laws: what the implication tests promise, stated and
//! proved over the evaluation semantics.

use vstd::prelude::*;

use crate::cfg::{
    active_subset, asub_from_all, asub_from_any, asub_into_all, asub_into_any, atoms, cfg_implies,
    cfg_size, cfgs_size, eval, eval_all, eval_any, lemma_eval_all_iff, lemma_eval_any_iff, CfgV,
};
use crate::combine::{combos_from, lemma_combos_count, render_combo};
use crate::token::TokenV;

verus! {

/// Exact implication is reflexive: every predicate implies itself.
pub proof fn lemma_implies_reflexive(c: CfgV)
    ensures
        cfg_implies(c, c),
{
}

/// Distinct atoms are independent: neither implies the other.
pub proof fn lemma_distinct_atoms_independent(a: Seq<TokenV>, b: Seq<TokenV>)
    requires
        a != b,
    ensures
        !cfg_implies(CfgV::Atomic(a), CfgV::Atomic(b)),
        !cfg_implies(CfgV::Atomic(b), CfgV::Atomic(a)),
{
    let ta = Set::<Seq<TokenV>>::empty().insert(a);
    assert(eval(CfgV::Atomic(a), ta) && !eval(CfgV::Atomic(b), ta));
    let tb = Set::<Seq<TokenV>>::empty().insert(b);
    assert(eval(CfgV::Atomic(b), tb) && !eval(CfgV::Atomic(a), tb));
}

/// A conjunction implies each of its members.
pub proof fn lemma_all_implies_member(xs: Seq<CfgV>, i: int)
    requires
        0 <= i < xs.len(),
    ensures
        cfg_implies(CfgV::All(xs), xs[i]),
{
    assert forall|t: Set<Seq<TokenV>>| #[trigger] eval(CfgV::All(xs), t) implies eval(
        xs[i],
        t,
    ) by {
        lemma_eval_all_iff(xs, t);
    }
}

/// Each member implies the disjunction it stands in.
pub proof fn lemma_member_implies_any(xs: Seq<CfgV>, i: int)
    requires
        0 <= i < xs.len(),
    ensures
        cfg_implies(xs[i], CfgV::Any(xs)),
{
    assert forall|t: Set<Seq<TokenV>>| #[trigger] eval(xs[i], t) implies eval(
        CfgV::Any(xs),
        t,
    ) by {
        lemma_eval_any_iff(xs, t);
    }
}

/// A disjunction of two distinct atoms does not imply either atom.
pub proof fn lemma_any_does_not_imply_member(a: Seq<TokenV>, b: Seq<TokenV>)
    requires
        a != b,
    ensures
        !cfg_implies(CfgV::Any(seq![CfgV::Atomic(a), CfgV::Atomic(b)]), CfgV::Atomic(a)),
{
    let xs = seq![CfgV::Atomic(a), CfgV::Atomic(b)];
    let tb = Set::<Seq<TokenV>>::empty().insert(b);
    lemma_eval_any_iff(xs, tb);
    assert(eval(xs[1], tb));
    assert(eval(CfgV::Any(xs), tb) && !eval(CfgV::Atomic(a), tb));
}

/// Double negation changes no truth value: a predicate and its double
/// negation imply each other.
pub proof fn lemma_double_negation(c: CfgV)
    ensures
        cfg_implies(CfgV::Not(Box::new(CfgV::Not(Box::new(c)))), c),
        cfg_implies(c, CfgV::Not(Box::new(CfgV::Not(Box::new(c))))),
{
    let nn = CfgV::Not(Box::new(CfgV::Not(Box::new(c))));
    assert forall|t: Set<Seq<TokenV>>| #[trigger] eval(nn, t) == eval(c, t) by {
        assert(eval(nn, t) == !eval(CfgV::Not(Box::new(c)), t));
        assert(eval(CfgV::Not(Box::new(c)), t) == !eval(c, t));
    }
}

/// De Morgan: the negation of a disjunction and the conjunction of the
/// negations imply each other.
pub proof fn lemma_de_morgan(xs: Seq<CfgV>)
    ensures
        cfg_implies(
            CfgV::Not(Box::new(CfgV::Any(xs))),
            CfgV::All(Seq::new(xs.len(), |i: int| CfgV::Not(Box::new(xs[i])))),
        ),
        cfg_implies(
            CfgV::All(Seq::new(xs.len(), |i: int| CfgV::Not(Box::new(xs[i])))),
            CfgV::Not(Box::new(CfgV::Any(xs))),
        ),
{
    let ns = Seq::new(xs.len(), |i: int| CfgV::Not(Box::new(xs[i])));
    assert forall|t: Set<Seq<TokenV>>|
        eval(CfgV::Not(Box::new(CfgV::Any(xs))), t) == #[trigger] eval(CfgV::All(ns), t) by {
        lemma_eval_any_iff(xs, t);
        lemma_eval_all_iff(ns, t);
        assert(eval(CfgV::Not(Box::new(CfgV::Any(xs))), t) == !eval(CfgV::Any(xs), t));
        if eval(CfgV::All(ns), t) {
            if exists|i: int| 0 <= i < xs.len() && eval(#[trigger] xs[i], t) {
                let i = choose|i: int| 0 <= i < xs.len() && eval(#[trigger] xs[i], t);
                assert(eval(ns[i], t) == !eval(xs[i], t));
                assert(false);
            }
            assert(!eval(CfgV::Any(xs), t));
        } else {
            if !eval(CfgV::Any(xs), t) {
                assert forall|i: int| 0 <= i < ns.len() implies eval(#[trigger] ns[i], t) by {
                    assert(eval(ns[i], t) == !eval(xs[i], t));
                    assert(!eval(xs[i], t));
                }
                assert(false);
            }
        }
    }
}

/// The order of the members of a disjunction or conjunction never changes
/// an implication result: lists with the same members imply each other.
pub proof fn lemma_order_irrelevant(xs: Seq<CfgV>, ys: Seq<CfgV>)
    requires
        forall|x: CfgV| xs.contains(x) <==> #[trigger] ys.contains(x),
    ensures
        cfg_implies(CfgV::Any(xs), CfgV::Any(ys)),
        cfg_implies(CfgV::Any(ys), CfgV::Any(xs)),
        cfg_implies(CfgV::All(xs), CfgV::All(ys)),
        cfg_implies(CfgV::All(ys), CfgV::All(xs)),
{
    assert forall|t: Set<Seq<TokenV>>| #[trigger] eval(CfgV::Any(xs), t) implies eval(
        CfgV::Any(ys),
        t,
    ) by {
        lemma_any_members(xs, ys, t);
    }
    assert forall|t: Set<Seq<TokenV>>| #[trigger] eval(CfgV::Any(ys), t) implies eval(
        CfgV::Any(xs),
        t,
    ) by {
        lemma_any_members(ys, xs, t);
    }
    assert forall|t: Set<Seq<TokenV>>| #[trigger] eval(CfgV::All(xs), t) implies eval(
        CfgV::All(ys),
        t,
    ) by {
        lemma_all_members(xs, ys, t);
    }
    assert forall|t: Set<Seq<TokenV>>| #[trigger] eval(CfgV::All(ys), t) implies eval(
        CfgV::All(xs),
        t,
    ) by {
        lemma_all_members(ys, xs, t);
    }
}

proof fn lemma_any_members(xs: Seq<CfgV>, ys: Seq<CfgV>, t: Set<Seq<TokenV>>)
    requires
        forall|x: CfgV| xs.contains(x) ==> #[trigger] ys.contains(x),
        eval_any(xs, t),
    ensures
        eval_any(ys, t),
{
    lemma_eval_any_iff(xs, t);
    lemma_eval_any_iff(ys, t);
    let i = choose|i: int| 0 <= i < xs.len() && eval(#[trigger] xs[i], t);
    assert(xs.contains(xs[i]));
    assert(ys.contains(xs[i]));
    let j = choose|j: int| 0 <= j < ys.len() && ys[j] == xs[i];
    assert(eval(ys[j], t));
}

proof fn lemma_all_members(xs: Seq<CfgV>, ys: Seq<CfgV>, t: Set<Seq<TokenV>>)
    requires
        forall|x: CfgV| ys.contains(x) ==> #[trigger] xs.contains(x),
        eval_all(xs, t),
    ensures
        eval_all(ys, t),
{
    lemma_eval_all_iff(xs, t);
    lemma_eval_all_iff(ys, t);
    assert forall|j: int| 0 <= j < ys.len() implies eval(#[trigger] ys[j], t) by {
        assert(ys.contains(ys[j]));
        assert(xs.contains(ys[j]));
        let i = choose|i: int| 0 <= i < xs.len() && xs[i] == ys[j];
        assert(eval(xs[i], t));
    }
}

/// The structural test is reflexive.
pub proof fn lemma_active_subset_reflexive(c: CfgV)
    ensures
        active_subset(c, c),
{
}

/// The structural test is sound: whenever it claims an implication, the
/// exact test agrees.  The converse does not hold; the structural test is
/// an incomplete fast path.
pub proof fn lemma_active_subset_sound(a: CfgV, b: CfgV)
    requires
        active_subset(a, b),
    ensures
        cfg_implies(a, b),
    decreases cfg_size(a) + cfg_size(b), 0int, 0int,
{
    if a == b {
    } else {
        match (a, b) {
            (CfgV::Atomic(x), CfgV::Atomic(y)) => {
            },
            (_, CfgV::All(ys)) => {
                lemma_sound_into_all(a, ys);
                assert forall|t: Set<Seq<TokenV>>| #[trigger] eval(a, t) implies eval(b, t) by {
                    assert(eval_all(ys, t));
                }
            },
            (CfgV::All(xs), _) => {
                lemma_sound_from_all(xs, b);
                assert forall|t: Set<Seq<TokenV>>| #[trigger] eval(a, t) implies eval(b, t) by {
                    assert(eval_all(xs, t));
                }
            },
            (CfgV::Any(xs), _) => {
                lemma_sound_from_any(xs, b);
                assert forall|t: Set<Seq<TokenV>>| #[trigger] eval(a, t) implies eval(b, t) by {
                    assert(eval_any(xs, t));
                }
            },
            (_, CfgV::Any(ys)) => {
                lemma_sound_into_any(a, ys);
                assert forall|t: Set<Seq<TokenV>>| #[trigger] eval(a, t) implies eval(b, t) by {
                    assert(eval_any(ys, t));
                }
            },
            (CfgV::Not(x), CfgV::Not(y)) => {
                lemma_active_subset_sound(*y, *x);
                assert forall|t: Set<Seq<TokenV>>| #[trigger] eval(a, t) implies eval(b, t) by {
                    assert(eval(*y, t) ==> eval(*x, t));
                }
            },
            _ => {
                assert(false);
            },
        }
    }
}

proof fn lemma_sound_into_all(a: CfgV, ys: Seq<CfgV>)
    requires
        asub_into_all(a, ys),
    ensures
        forall|t: Set<Seq<TokenV>>| #[trigger] eval(a, t) ==> eval_all(ys, t),
    decreases cfg_size(a) + cfgs_size(ys), 1int, ys.len(),
{
    if ys.len() > 0 {
        lemma_sound_into_all(a, ys.skip(1));
        assert(active_subset(a, ys[0]));
        proof_size_elem(ys, 0);
        lemma_active_subset_sound(a, ys[0]);
        assert forall|t: Set<Seq<TokenV>>| #[trigger] eval(a, t) implies eval_all(ys, t) by {
            assert(eval(ys[0], t));
            assert(eval_all(ys.skip(1), t));
        }
    } else {
        assert forall|t: Set<Seq<TokenV>>| #[trigger] eval(a, t) implies eval_all(ys, t) by {
        }
    }
}

proof fn lemma_sound_from_all(xs: Seq<CfgV>, b: CfgV)
    requires
        asub_from_all(xs, b),
    ensures
        forall|t: Set<Seq<TokenV>>| #[trigger] eval_all(xs, t) ==> eval(b, t),
    decreases cfgs_size(xs) + cfg_size(b), 1int, xs.len(),
{
    if xs.len() > 0 {
        if active_subset(xs[0], b) {
            proof_size_elem(xs, 0);
            lemma_active_subset_sound(xs[0], b);
            assert forall|t: Set<Seq<TokenV>>| #[trigger] eval_all(xs, t) implies eval(b, t) by {
                assert(eval(xs[0], t));
            }
        } else {
            lemma_sound_from_all(xs.skip(1), b);
            assert forall|t: Set<Seq<TokenV>>| #[trigger] eval_all(xs, t) implies eval(b, t) by {
                assert(eval_all(xs.skip(1), t));
            }
        }
    }
}

proof fn lemma_sound_from_any(xs: Seq<CfgV>, b: CfgV)
    requires
        asub_from_any(xs, b),
    ensures
        forall|t: Set<Seq<TokenV>>| #[trigger] eval_any(xs, t) ==> eval(b, t),
    decreases cfgs_size(xs) + cfg_size(b), 1int, xs.len(),
{
    if xs.len() > 0 {
        proof_size_elem(xs, 0);
        lemma_active_subset_sound(xs[0], b);
        lemma_sound_from_any(xs.skip(1), b);
        assert forall|t: Set<Seq<TokenV>>| #[trigger] eval_any(xs, t) implies eval(b, t) by {
            if eval(xs[0], t) {
            } else {
                assert(eval_any(xs.skip(1), t));
            }
        }
    }
}

proof fn lemma_sound_into_any(a: CfgV, ys: Seq<CfgV>)
    requires
        asub_into_any(a, ys),
    ensures
        forall|t: Set<Seq<TokenV>>| #[trigger] eval(a, t) ==> eval_any(ys, t),
    decreases cfg_size(a) + cfgs_size(ys), 1int, ys.len(),
{
    if ys.len() > 0 {
        if active_subset(a, ys[0]) {
            proof_size_elem(ys, 0);
            lemma_active_subset_sound(a, ys[0]);
            assert forall|t: Set<Seq<TokenV>>| #[trigger] eval(a, t) implies eval_any(ys, t) by {
                assert(eval(ys[0], t));
            }
        } else {
            lemma_sound_into_any(a, ys.skip(1));
            assert forall|t: Set<Seq<TokenV>>| #[trigger] eval(a, t) implies eval_any(ys, t) by {
                assert(eval_any(ys.skip(1), t));
            }
        }
    }
}

proof fn proof_size_elem(xs: Seq<CfgV>, i: int)
    requires
        0 <= i < xs.len(),
    ensures
        cfg_size(xs[i]) <= cfgs_size(xs),
{
    crate::cfg::lemma_cfgs_size_elem(xs, i);
}

/// A conjunction some member of which implies `y` implies `y` itself
/// under the structural test's member rule; in particular a conjunction
/// every member of which implies `y` does, provided it has a member at
/// all.  Stated away from the shapes the test answers before looking at
/// members: `y` the identical tree, or itself a conjunction.
pub proof fn lemma_all_active_subset_of_each(xs: Seq<CfgV>, y: CfgV)
    requires
        xs.len() > 0,
        forall|i: int| 0 <= i < xs.len() ==> active_subset(#[trigger] xs[i], y),
        !(y is All),
        CfgV::All(xs) != y,
    ensures
        active_subset(CfgV::All(xs), y),
{
    assert(active_subset(xs[0], y));
    lemma_from_all_witness(xs, y, 0);
}

/// A member that implies `b` makes the whole conjunction imply `b` under
/// the structural test's member rule.
proof fn lemma_from_all_witness(xs: Seq<CfgV>, b: CfgV, i: int)
    requires
        0 <= i < xs.len(),
        active_subset(xs[i], b),
    ensures
        asub_from_all(xs, b),
    decreases xs.len(),
{
    if i == 0 {
    } else {
        lemma_from_all_witness(xs.skip(1), b, i - 1);
        assert(xs.skip(1)[i - 1] == xs[i]);
    }
}

/// A conjunction implies `y` under the structural test exactly when some
/// member does: the test reads a conjunction on the left as a set of facts
/// and looks for one that carries `y`.  Stated away from the shapes the
/// test answers before looking at members.
pub proof fn lemma_all_active_subset_some_member(xs: Seq<CfgV>, y: CfgV)
    requires
        CfgV::All(xs) != y,
        !(y is All),
    ensures
        active_subset(CfgV::All(xs), y) <==> (exists|i: int|
            0 <= i < xs.len() && active_subset(#[trigger] xs[i], y)),
{
    lemma_from_all_iff(xs, y);
}

proof fn lemma_from_all_iff(xs: Seq<CfgV>, b: CfgV)
    ensures
        asub_from_all(xs, b) <==> (exists|i: int|
            0 <= i < xs.len() && active_subset(#[trigger] xs[i], b)),
    decreases xs.len(),
{
    if xs.len() > 0 {
        lemma_from_all_iff(xs.skip(1), b);
        if asub_from_all(xs, b) {
            if active_subset(xs[0], b) {
            } else {
                let i = choose|i: int|
                    0 <= i < xs.skip(1).len() && active_subset(#[trigger] xs.skip(1)[i], b);
                assert(xs.skip(1)[i] == xs[i + 1]);
                assert(active_subset(xs[i + 1], b));
            }
        } else {
            if exists|i: int| 0 <= i < xs.len() && active_subset(#[trigger] xs[i], b) {
                let i = choose|i: int| 0 <= i < xs.len() && active_subset(#[trigger] xs[i], b);
                assert(i > 0);
                assert(xs.skip(1)[i - 1] == xs[i]);
                assert(active_subset(xs.skip(1)[i - 1], b));
            }
        }
    }
}

/// A disjunction implies `y` under the structural test exactly when every
/// member does.  Stated away from the shapes the test answers before
/// looking at members: `y` the identical tree, or itself a conjunction.
pub proof fn lemma_any_active_subset_of_each(xs: Seq<CfgV>, y: CfgV)
    requires
        CfgV::Any(xs) != y,
        !(y is All),
    ensures
        active_subset(CfgV::Any(xs), y) <==> (forall|i: int|
            0 <= i < xs.len() ==> active_subset(#[trigger] xs[i], y)),
{
    lemma_from_any_iff(xs, y);
}

proof fn lemma_from_any_iff(xs: Seq<CfgV>, b: CfgV)
    ensures
        asub_from_any(xs, b) <==> (forall|i: int|
            0 <= i < xs.len() ==> active_subset(#[trigger] xs[i], b)),
    decreases xs.len(),
{
    if xs.len() > 0 {
        lemma_from_any_iff(xs.skip(1), b);
        assert forall|i: int| 0 <= i < xs.skip(1).len() implies (active_subset(
            #[trigger] xs.skip(1)[i],
            b,
        ) == active_subset(xs[i + 1], b)) by {
            assert(xs.skip(1)[i] == xs[i + 1]);
        }
        if asub_from_any(xs, b) {
            assert forall|i: int| 0 <= i < xs.len() implies active_subset(
                #[trigger] xs[i],
                b,
            ) by {
                if i > 0 {
                    assert(active_subset(xs.skip(1)[i - 1], b));
                }
            }
        }
    }
}

/// Every combination the generator yields is one whole sign assignment
/// rendered over the base set.
pub proof fn lemma_combos_shape(base: Seq<CfgV>, prefix: Seq<bool>, m: int)
    requires
        prefix.len() <= base.len(),
        0 <= m < combos_from(base, prefix).len(),
    ensures
        exists|signs: Seq<bool>|
            signs.len() == base.len() && combos_from(base, prefix)[m] == #[trigger] render_combo(
                base,
                signs,
            ),
    decreases base.len() - prefix.len(),
{
    if prefix.len() >= base.len() {
        assert(combos_from(base, prefix)[m] == render_combo(base, prefix));
    } else {
        lemma_combos_count(base, prefix.push(false));
        let left = combos_from(base, prefix.push(false));
        let right = combos_from(base, prefix.push(true));
        if m < left.len() {
            lemma_combos_shape(base, prefix.push(false), m);
            let signs = choose|signs: Seq<bool>|
                signs.len() == base.len() && left[m] == #[trigger] render_combo(base, signs);
            assert(combos_from(base, prefix)[m] == left[m]);
        } else {
            lemma_combos_shape(base, prefix.push(true), m - left.len());
            let signs = choose|signs: Seq<bool>|
                signs.len() == base.len() && right[m - left.len()] == #[trigger] render_combo(
                    base,
                    signs,
                );
            assert(combos_from(base, prefix)[m] == right[m - left.len()]);
        }
    }
}

} // verus!
