//! The predicate algebra: boolean expression trees over atomic conditions,
//! with an exact (truth-table) implication test and a fast structural
//! implication approximation.
//!
//! An atom is an irreducible condition, compared by the exact text of its
//! tokens, never by meaning: two differently-spelled but equivalent
//! conditions are distinct atoms.

use vstd::prelude::*;

use crate::token::{is_word, lemma_toks_view_index, token_copy, Delim, lemma_elem_size, lemma_seq_size_split, lemma_tok_size_pos, seq_size, tok_size, tok_view, toks_view, tokens_copy, tokens_eq, Token, TokenV};

verus! {

/// A configuration predicate: disjunction, conjunction, negation, or an
/// atomic condition held as its tokens.
pub enum Cfg {
    Any(Vec<Cfg>),
    All(Vec<Cfg>),
    Not(Box<Cfg>),
    Atomic(Vec<Token>),
}

/// The mathematical view of a predicate.
pub enum CfgV {
    Any(Seq<CfgV>),
    All(Seq<CfgV>),
    Not(Box<CfgV>),
    Atomic(Seq<TokenV>),
}

pub open spec fn cfg_view(c: Cfg) -> CfgV
    decreases c,
{
    match c {
        Cfg::Any(xs) => CfgV::Any(cfgs_view(xs@)),
        Cfg::All(xs) => CfgV::All(cfgs_view(xs@)),
        Cfg::Not(x) => CfgV::Not(Box::new(cfg_view(*x))),
        Cfg::Atomic(ts) => CfgV::Atomic(toks_view(ts@)),
    }
}

pub open spec fn cfgs_view(cs: Seq<Cfg>) -> Seq<CfgV>
    decreases cs,
{
    if cs.len() == 0 {
        Seq::empty()
    } else {
        cfgs_view(cs.drop_last()).push(cfg_view(cs.last()))
    }
}

pub proof fn lemma_cfgs_view_index(cs: Seq<Cfg>)
    ensures
        cfgs_view(cs).len() == cs.len(),
        forall|i: int| 0 <= i < cs.len() ==> cfgs_view(cs)[i] == cfg_view(#[trigger] cs[i]),
    decreases cs,
{
    if cs.len() > 0 {
        lemma_cfgs_view_index(cs.drop_last());
        assert forall|i: int| 0 <= i < cs.len() implies cfgs_view(cs)[i] == cfg_view(
            #[trigger] cs[i],
        ) by {
            if i < cs.len() - 1 {
                assert(cs.drop_last()[i] == cs[i]);
            } else {
                assert(cs.last() == cs[i]);
            }
        }
    }
}

/// The size of a predicate tree: the measure for walks that may swap the
/// sides of a pair.
pub open spec fn cfg_size(c: CfgV) -> nat
    decreases c,
{
    match c {
        CfgV::Atomic(_) => 1,
        CfgV::Not(x) => 1 + cfg_size(*x),
        CfgV::All(xs) => 1 + cfgs_size(xs),
        CfgV::Any(xs) => 1 + cfgs_size(xs),
    }
}

pub open spec fn cfgs_size(xs: Seq<CfgV>) -> nat
    decreases xs,
{
    if xs.len() == 0 {
        0
    } else {
        cfg_size(xs[0]) + cfgs_size(xs.skip(1))
    }
}

pub proof fn lemma_cfgs_size_elem(xs: Seq<CfgV>, i: int)
    requires
        0 <= i < xs.len(),
    ensures
        cfg_size(xs[i]) <= cfgs_size(xs),
    decreases i,
{
    if i > 0 {
        lemma_cfgs_size_elem(xs.skip(1), i - 1);
        assert(xs.skip(1)[i - 1] == xs[i]);
    }
}

/// The truth value of a predicate under an assignment, the assignment given
/// as the set of atoms (by their token text) that are true.
pub open spec fn eval(c: CfgV, t: Set<Seq<TokenV>>) -> bool
    decreases c, 0int,
{
    match c {
        CfgV::Atomic(a) => t.contains(a),
        CfgV::Not(x) => !eval(*x, t),
        CfgV::All(xs) => eval_all(xs, t),
        CfgV::Any(xs) => eval_any(xs, t),
    }
}

pub open spec fn eval_all(xs: Seq<CfgV>, t: Set<Seq<TokenV>>) -> bool
    decreases xs, 1int,
{
    if xs.len() == 0 {
        true
    } else {
        eval(xs[0], t) && eval_all(xs.skip(1), t)
    }
}

pub open spec fn eval_any(xs: Seq<CfgV>, t: Set<Seq<TokenV>>) -> bool
    decreases xs, 1int,
{
    if xs.len() == 0 {
        false
    } else {
        eval(xs[0], t) || eval_any(xs.skip(1), t)
    }
}

/// A conjunction holds exactly when every member does.
pub proof fn lemma_eval_all_iff(xs: Seq<CfgV>, t: Set<Seq<TokenV>>)
    ensures
        eval_all(xs, t) <==> (forall|i: int| 0 <= i < xs.len() ==> eval(#[trigger] xs[i], t)),
    decreases xs,
{
    if xs.len() > 0 {
        lemma_eval_all_iff(xs.skip(1), t);
        assert forall|i: int| 0 <= i < xs.skip(1).len() implies (eval(#[trigger] xs.skip(1)[i], t)
            == eval(xs[i + 1], t)) by {
            assert(xs.skip(1)[i] == xs[i + 1]);
        }
        if eval_all(xs, t) {
            assert forall|i: int| 0 <= i < xs.len() implies eval(#[trigger] xs[i], t) by {
                if i > 0 {
                    assert(eval(xs.skip(1)[i - 1], t));
                }
            }
        }
    }
}

/// A disjunction holds exactly when some member does.
pub proof fn lemma_eval_any_iff(xs: Seq<CfgV>, t: Set<Seq<TokenV>>)
    ensures
        eval_any(xs, t) <==> (exists|i: int| 0 <= i < xs.len() && eval(#[trigger] xs[i], t)),
    decreases xs,
{
    if xs.len() > 0 {
        lemma_eval_any_iff(xs.skip(1), t);
        if eval_any(xs, t) {
            if eval(xs[0], t) {
            } else {
                let i = choose|i: int| 0 <= i < xs.skip(1).len() && eval(#[trigger] xs.skip(1)[i], t);
                assert(xs.skip(1)[i] == xs[i + 1]);
                assert(eval(xs[i + 1], t));
            }
        } else {
            if exists|i: int| 0 <= i < xs.len() && eval(#[trigger] xs[i], t) {
                let i = choose|i: int| 0 <= i < xs.len() && eval(#[trigger] xs[i], t);
                assert(i > 0);
                assert(xs.skip(1)[i - 1] == xs[i]);
                assert(eval(xs.skip(1)[i - 1], t));
            }
        }
    }
}

/// Exact implication: `b` holds under every assignment under which `a`
/// holds.
pub open spec fn cfg_implies(a: CfgV, b: CfgV) -> bool {
    forall|t: Set<Seq<TokenV>>| #[trigger] eval(a, t) ==> eval(b, t)
}

/// The atoms occurring in a predicate.
pub open spec fn atoms(c: CfgV) -> Set<Seq<TokenV>>
    decreases c,
{
    match c {
        CfgV::Atomic(a) => Set::empty().insert(a),
        CfgV::Not(x) => atoms(*x),
        CfgV::All(xs) => atoms_list(xs),
        CfgV::Any(xs) => atoms_list(xs),
    }
}

pub open spec fn atoms_list(xs: Seq<CfgV>) -> Set<Seq<TokenV>>
    decreases xs,
{
    if xs.len() == 0 {
        Set::empty()
    } else {
        atoms(xs[0]).union(atoms_list(xs.skip(1)))
    }
}

/// Appending one predicate adds exactly its atoms.
pub proof fn lemma_atoms_list_snoc(xs: Seq<CfgV>, x: CfgV)
    ensures
        atoms_list(xs.push(x)) =~= atoms_list(xs).union(atoms(x)),
    decreases xs,
{
    if xs.len() == 0 {
        assert(xs.push(x)[0] == x);
        assert(xs.push(x).skip(1) =~= Seq::<CfgV>::empty());
        assert(atoms_list(xs.push(x).skip(1)) =~= Set::<Seq<TokenV>>::empty());
        assert(atoms_list(xs.push(x)) =~= atoms(x));
        assert(atoms_list(xs) =~= Set::<Seq<TokenV>>::empty());
        assert(atoms_list(xs).union(atoms(x)) =~= atoms(x));
    } else {
        assert(xs.push(x)[0] == xs[0]);
        assert(xs.push(x).skip(1) =~= xs.skip(1).push(x));
        lemma_atoms_list_snoc(xs.skip(1), x);
        assert(atoms_list(xs.push(x)) == atoms(xs[0]).union(atoms_list(xs.skip(1).push(x))));
        assert(atoms_list(xs.push(x)) =~= atoms(xs[0]).union(
            atoms_list(xs.skip(1)).union(atoms(x)),
        ));
        assert(atoms_list(xs) == atoms(xs[0]).union(atoms_list(xs.skip(1))));
        assert(atoms(xs[0]).union(atoms_list(xs.skip(1)).union(atoms(x))) =~= atoms_list(
            xs,
        ).union(atoms(x)));
    }
}

/// The truth value of a predicate depends only on the assignment of its own
/// atoms.
pub proof fn lemma_eval_agree(c: CfgV, t1: Set<Seq<TokenV>>, t2: Set<Seq<TokenV>>)
    requires
        forall|a: Seq<TokenV>|
            atoms(c).contains(a) ==> (t1.contains(a) <==> #[trigger] t2.contains(a)),
    ensures
        eval(c, t1) == eval(c, t2),
    decreases c, 0int,
{
    match c {
        CfgV::Atomic(a) => {
            assert(atoms(c).contains(a));
        },
        CfgV::Not(x) => {
            lemma_eval_agree(*x, t1, t2);
        },
        CfgV::All(xs) => {
            lemma_eval_seq_agree(xs, t1, t2);
        },
        CfgV::Any(xs) => {
            lemma_eval_seq_agree(xs, t1, t2);
        },
    }
}

proof fn lemma_eval_seq_agree(xs: Seq<CfgV>, t1: Set<Seq<TokenV>>, t2: Set<Seq<TokenV>>)
    requires
        forall|a: Seq<TokenV>|
            atoms_list(xs).contains(a) ==> (t1.contains(a) <==> #[trigger] t2.contains(a)),
    ensures
        eval_all(xs, t1) == eval_all(xs, t2),
        eval_any(xs, t1) == eval_any(xs, t2),
    decreases xs, 1int,
{
    if xs.len() > 0 {
        lemma_eval_agree(xs[0], t1, t2);
        lemma_eval_seq_agree(xs.skip(1), t1, t2);
    }
}

impl Cfg {
    /// Structural equality of predicates, atoms by their token text.
    pub fn cfg_eq(&self, other: &Cfg) -> (r: bool)
        ensures
            r == (cfg_view(*self) == cfg_view(*other)),
        decreases self,
    {
        match (self, other) {
            (Cfg::Atomic(x), Cfg::Atomic(y)) => tokens_eq(x, y),
            (Cfg::Not(x), Cfg::Not(y)) => x.cfg_eq(y),
            (Cfg::Any(xs), Cfg::Any(ys)) => cfgs_eq(xs, ys),
            (Cfg::All(xs), Cfg::All(ys)) => cfgs_eq(xs, ys),
            _ => false,
        }
    }

    /// A fresh predicate with the same view.
    pub fn cfg_copy(&self) -> (r: Cfg)
        ensures
            cfg_view(r) == cfg_view(*self),
        decreases self,
    {
        match self {
            Cfg::Atomic(ts) => Cfg::Atomic(tokens_copy(ts)),
            Cfg::Not(x) => Cfg::Not(Box::new(x.cfg_copy())),
            Cfg::Any(xs) => Cfg::Any(cfgs_copy(xs)),
            Cfg::All(xs) => Cfg::All(cfgs_copy(xs)),
        }
    }
}

pub fn cfgs_eq(a: &Vec<Cfg>, b: &Vec<Cfg>) -> (r: bool)
    ensures
        r == (cfgs_view(a@) == cfgs_view(b@)),
    decreases a,
{
    proof {
        lemma_cfgs_view_index(a@);
        lemma_cfgs_view_index(b@);
    }
    if a.len() != b.len() {
        return false;
    }
    let mut i: usize = 0;
    while i < a.len()
        invariant
            a@.len() == b@.len(),
            0 <= i <= a@.len(),
            cfgs_view(a@).len() == a@.len(),
            cfgs_view(b@).len() == b@.len(),
            forall|j: int| 0 <= j < a@.len() ==> cfgs_view(a@)[j] == cfg_view(#[trigger] a@[j]),
            forall|j: int| 0 <= j < b@.len() ==> cfgs_view(b@)[j] == cfg_view(#[trigger] b@[j]),
            forall|j: int| 0 <= j < i ==> cfgs_view(a@)[j] == cfgs_view(b@)[j],
        decreases a@.len() - i,
    {
        if !a[i].cfg_eq(&b[i]) {
            return false;
        }
        i = i + 1;
    }
    proof {
        assert(cfgs_view(a@) =~= cfgs_view(b@));
    }
    true
}

pub fn cfgs_copy(cs: &Vec<Cfg>) -> (r: Vec<Cfg>)
    ensures
        cfgs_view(r@) == cfgs_view(cs@),
    decreases cs,
{
    let mut out: Vec<Cfg> = Vec::new();
    let mut i: usize = 0;
    while i < cs.len()
        invariant
            0 <= i <= cs@.len(),
            out@.len() == i,
            forall|j: int| 0 <= j < i ==> cfg_view(#[trigger] out@[j]) == cfg_view(cs@[j]),
        decreases cs@.len() - i,
    {
        out.push(cs[i].cfg_copy());
        i = i + 1;
    }
    proof {
        lemma_cfgs_view_index(cs@);
        lemma_cfgs_view_index(out@);
        assert forall|j: int| 0 <= j < cfgs_view(out@).len() implies cfgs_view(out@)[j]
            == cfgs_view(cs@)[j] by {
            assert(cfgs_view(out@)[j] == cfg_view(out@[j]));
            assert(cfgs_view(cs@)[j] == cfg_view(cs@[j]));
        }
        assert(cfgs_view(out@) =~= cfgs_view(cs@));
    }
    out
}

/// The views of a list of atom texts.
pub open spec fn av_view(av: Seq<Vec<Token>>) -> Seq<Seq<TokenV>>
    decreases av,
{
    if av.len() == 0 {
        Seq::empty()
    } else {
        av_view(av.drop_last()).push(toks_view(av.last()@))
    }
}

pub proof fn lemma_av_view_index(av: Seq<Vec<Token>>)
    ensures
        av_view(av).len() == av.len(),
        forall|i: int| 0 <= i < av.len() ==> av_view(av)[i] == toks_view((#[trigger] av[i])@),
    decreases av,
{
    if av.len() > 0 {
        lemma_av_view_index(av.drop_last());
        assert forall|i: int| 0 <= i < av.len() implies av_view(av)[i] == toks_view(
            (#[trigger] av[i])@,
        ) by {
            if i < av.len() - 1 {
                assert(av.drop_last()[i] == av[i]);
            } else {
                assert(av.last() == av[i]);
            }
        }
    }
}

/// The set of atom texts a list holds.
pub open spec fn key_set(av: Seq<Seq<TokenV>>) -> Set<Seq<TokenV>> {
    Set::new(|a: Seq<TokenV>| av.contains(a))
}

/// The assignment a sign vector over an atom list denotes: the atoms listed
/// with a true sign anywhere in the list.
pub open spec fn truth_set(av: Seq<Seq<TokenV>>, vals: Seq<bool>) -> Set<Seq<TokenV>> {
    Set::new(
        |a: Seq<TokenV>| exists|i: int| 0 <= i < av.len() && #[trigger] av[i] == a && vals[i],
    )
}

pub proof fn lemma_key_set_push(av: Seq<Seq<TokenV>>, x: Seq<TokenV>)
    ensures
        key_set(av.push(x)) =~= key_set(av).insert(x),
{
    assert forall|a: Seq<TokenV>| #[trigger] av.push(x).contains(a) implies (av.contains(a) || a
        == x) by {
        let j = choose|j: int| 0 <= j < av.push(x).len() && av.push(x)[j] == a;
        if j < av.len() {
            assert(av[j] == a);
        }
    }
    assert forall|a: Seq<TokenV>| #[trigger] av.contains(a) implies av.push(x).contains(a) by {
        let j = choose|j: int| 0 <= j < av.len() && av[j] == a;
        assert(av.push(x)[j] == a);
    }
    assert(av.push(x)[av.len() as int] == x);
    assert(av.push(x).contains(x));
}

/// Is the atom text `a` in the list?
fn contains_atom(av: &Vec<Vec<Token>>, a: &Vec<Token>) -> (r: bool)
    ensures
        r == key_set(av_view(av@)).contains(toks_view(a@)),
{
    proof {
        lemma_av_view_index(av@);
    }
    let mut i: usize = 0;
    while i < av.len()
        invariant
            0 <= i <= av@.len(),
            av_view(av@).len() == av@.len(),
            forall|j: int| 0 <= j < av@.len() ==> av_view(av@)[j] == toks_view(
                (#[trigger] av@[j])@,
            ),
            forall|j: int| 0 <= j < i ==> av_view(av@)[j] != toks_view(a@),
        decreases av@.len() - i,
    {
        if tokens_eq(&av[i], a) {
            proof {
                assert(av_view(av@).contains(toks_view(a@)));
            }
            return true;
        }
        i = i + 1;
    }
    proof {
        if av_view(av@).contains(toks_view(a@)) {
            let j = choose|j: int|
                0 <= j < av_view(av@).len() && av_view(av@)[j] == toks_view(a@);
            assert(false);
        }
    }
    false
}

impl Cfg {
    /// Adds the atoms of this predicate to the list, without duplicates.
    pub fn collect_atoms(&self, out: &mut Vec<Vec<Token>>)
        ensures
            key_set(av_view(final(out)@)) == key_set(av_view(old(out)@)).union(
                atoms(cfg_view(*self)),
            ),
        decreases self,
    {
        match self {
            Cfg::Atomic(ts) => {
                if !contains_atom(out, ts) {
                    let ghost before = out@;
                    out.push(tokens_copy(ts));
                    proof {
                        assert(out@.drop_last() =~= before);
                        assert(out@.last() == out@[before.len() as int]);
                        assert(av_view(out@) == av_view(before).push(toks_view(ts@)));
                        lemma_key_set_push(av_view(before), toks_view(ts@));
                        assert(key_set(av_view(out@)) =~= key_set(av_view(before)).union(
                            atoms(cfg_view(*self)),
                        ));
                    }
                } else {
                    proof {
                        assert(key_set(av_view(out@)) =~= key_set(av_view(out@)).union(
                            atoms(cfg_view(*self)),
                        ));
                    }
                }
            },
            Cfg::Not(x) => {
                x.collect_atoms(out);
            },
            Cfg::Any(xs) => {
                collect_atoms_list(xs, out);
            },
            Cfg::All(xs) => {
                collect_atoms_list(xs, out);
            },
        }
    }
}

fn collect_atoms_list(xs: &Vec<Cfg>, out: &mut Vec<Vec<Token>>)
    ensures
        key_set(av_view(final(out)@)) == key_set(av_view(old(out)@)).union(
            atoms_list(cfgs_view(xs@)),
        ),
    decreases xs,
{
    proof {
        lemma_cfgs_view_index(xs@);
    }
    let ghost base = key_set(av_view(out@));
    let mut i: usize = 0;
    proof {
        assert(cfgs_view(xs@).take(0) =~= Seq::<CfgV>::empty());
        assert(key_set(av_view(out@)) =~= base.union(atoms_list(cfgs_view(xs@).take(0))));
    }
    while i < xs.len()
        invariant
            0 <= i <= xs@.len(),
            cfgs_view(xs@).len() == xs@.len(),
            forall|j: int| 0 <= j < xs@.len() ==> cfgs_view(xs@)[j] == cfg_view(
                #[trigger] xs@[j],
            ),
            key_set(av_view(out@)) == base.union(atoms_list(cfgs_view(xs@).take(i as int))),
        decreases xs@.len() - i,
    {
        xs[i].collect_atoms(out);
        proof {
            let pre = cfgs_view(xs@).take(i as int);
            let post = cfgs_view(xs@).take(i + 1);
            assert(post =~= pre.push(cfgs_view(xs@)[i as int]));
            lemma_atoms_list_snoc(pre, cfgs_view(xs@)[i as int]);
            assert(key_set(av_view(out@)) =~= base.union(atoms_list(post)));
        }
        i = i + 1;
    }
    proof {
        assert(cfgs_view(xs@).take(xs@.len() as int) =~= cfgs_view(xs@));
    }
}

impl Cfg {
    /// The truth value of this predicate under the sign vector `vals` over
    /// the atom list `av`.
    fn eval_with(&self, av: &Vec<Vec<Token>>, vals: &Vec<bool>) -> (r: bool)
        requires
            av@.len() == vals@.len(),
        ensures
            r == eval(cfg_view(*self), truth_set(av_view(av@), vals@)),
        decreases self, 0int,
    {
        proof {
            lemma_av_view_index(av@);
        }
        match self {
            Cfg::Atomic(a) => {
                let ghost t = truth_set(av_view(av@), vals@);
                let mut i: usize = 0;
                while i < av.len()
                    invariant
                        cfg_view(*self) == CfgV::Atomic(toks_view(a@)),
                        av@.len() == vals@.len(),
                        0 <= i <= av@.len(),
                        t == truth_set(av_view(av@), vals@),
                        av_view(av@).len() == av@.len(),
                        forall|j: int| 0 <= j < av@.len() ==> av_view(av@)[j] == toks_view(
                            (#[trigger] av@[j])@,
                        ),
                        forall|j: int|
                            0 <= j < i ==> !(av_view(av@)[j] == toks_view(a@)
                                && #[trigger] vals@[j]),
                    decreases av@.len() - i,
                {
                    if vals[i] && tokens_eq(&av[i], a) {
                        proof {
                            assert(av_view(av@)[i as int] == toks_view(a@) && vals@[i as int]);
                            assert(t.contains(toks_view(a@)));
                        }
                        return true;
                    }
                    i = i + 1;
                }
                proof {
                    assert(i == av@.len());
                    if t.contains(toks_view(a@)) {
                        let j = choose|j: int|
                            0 <= j < av_view(av@).len() && #[trigger] av_view(av@)[j] == toks_view(
                                a@,
                            ) && vals@[j];
                        assert(false);
                    }
                    assert(!t.contains(toks_view(a@)));
                    assert(!eval(cfg_view(*self), t));
                }
                false
            },
            Cfg::Not(x) => !x.eval_with(av, vals),
            Cfg::All(xs) => {
                let r = eval_with_all(xs, av, vals, 0);
                proof {
                    assert(cfgs_view(xs@).skip(0) =~= cfgs_view(xs@));
                }
                r
            },
            Cfg::Any(xs) => {
                let r = eval_with_any(xs, av, vals, 0);
                proof {
                    assert(cfgs_view(xs@).skip(0) =~= cfgs_view(xs@));
                }
                r
            },
        }
    }
}

fn eval_with_all(xs: &Vec<Cfg>, av: &Vec<Vec<Token>>, vals: &Vec<bool>, i: usize) -> (r: bool)
    requires
        av@.len() == vals@.len(),
        i <= xs@.len(),
    ensures
        r == eval_all(cfgs_view(xs@).skip(i as int), truth_set(av_view(av@), vals@)),
    decreases xs, xs@.len() - i,
{
    proof {
        lemma_cfgs_view_index(xs@);
    }
    if i == xs.len() {
        proof {
            assert(cfgs_view(xs@).skip(i as int) =~= Seq::<CfgV>::empty());
        }
        true
    } else {
        let h = xs[i].eval_with(av, vals);
        proof {
            assert(cfgs_view(xs@).skip(i as int)[0] == cfgs_view(xs@)[i as int]);
            assert(cfgs_view(xs@).skip(i as int).skip(1) =~= cfgs_view(xs@).skip(i + 1));
        }
        if !h {
            false
        } else {
            eval_with_all(xs, av, vals, i + 1)
        }
    }
}

fn eval_with_any(xs: &Vec<Cfg>, av: &Vec<Vec<Token>>, vals: &Vec<bool>, i: usize) -> (r: bool)
    requires
        av@.len() == vals@.len(),
        i <= xs@.len(),
    ensures
        r == eval_any(cfgs_view(xs@).skip(i as int), truth_set(av_view(av@), vals@)),
    decreases xs, xs@.len() - i,
{
    proof {
        lemma_cfgs_view_index(xs@);
    }
    if i == xs.len() {
        proof {
            assert(cfgs_view(xs@).skip(i as int) =~= Seq::<CfgV>::empty());
        }
        false
    } else {
        let h = xs[i].eval_with(av, vals);
        proof {
            assert(cfgs_view(xs@).skip(i as int)[0] == cfgs_view(xs@)[i as int]);
            assert(cfgs_view(xs@).skip(i as int).skip(1) =~= cfgs_view(xs@).skip(i + 1));
        }
        if h {
            true
        } else {
            eval_with_any(xs, av, vals, i + 1)
        }
    }
}

/// Does the implication hold under every sign vector that extends the first
/// `k` entries of `prefix`?
pub open spec fn ext_ok(a: CfgV, b: CfgV, av: Seq<Seq<TokenV>>, prefix: Seq<bool>, k: int) -> bool {
    forall|w: Seq<bool>|
        w.len() == av.len() && w.subrange(0, k) == prefix.subrange(0, k) ==> (#[trigger] eval(
            a,
            truth_set(av, w),
        ) ==> eval(b, truth_set(av, w)))
}

/// Depth-first search over the remaining sign choices, false before true;
/// reports whether the implication holds under every completion.
fn dfs(a: &Cfg, b: &Cfg, av: &Vec<Vec<Token>>, vals: &mut Vec<bool>, index: usize) -> (r: bool)
    requires
        index <= av@.len(),
        old(vals)@.len() == av@.len(),
    ensures
        final(vals)@.len() == av@.len(),
        final(vals)@.subrange(0, index as int) == old(vals)@.subrange(0, index as int),
        r == ext_ok(cfg_view(*a), cfg_view(*b), av_view(av@), old(vals)@, index as int),
    decreases av@.len() - index,
{
    let ghost va = cfg_view(*a);
    let ghost vb = cfg_view(*b);
    let ghost avv = av_view(av@);
    proof {
        lemma_av_view_index(av@);
    }
    if index == av.len() {
        let la = a.eval_with(av, vals);
        let r = if la {
            b.eval_with(av, vals)
        } else {
            true
        };
        proof {
            let n = av@.len() as int;
            if r {
                assert forall|w: Seq<bool>|
                    w.len() == avv.len() && w.subrange(0, n) == vals@.subrange(0, n) implies (eval(
                    va,
                    truth_set(avv, w),
                ) ==> eval(vb, truth_set(avv, w))) by {
                    assert(w.subrange(0, n) =~= w);
                    assert(vals@.subrange(0, n) =~= vals@);
                    assert(w == vals@);
                }
            } else {
                let w = vals@;
                assert(w.subrange(0, n) =~= vals@.subrange(0, n));
                assert(eval(va, truth_set(avv, w)) && !eval(vb, truth_set(avv, w)));
            }
        }
        r
    } else {
        let ghost p0 = vals@;
        let ghost i: int = index as int;
        vals.set(index, false);
        let ghost pf = vals@;
        proof {
            assert(pf.subrange(0, i) =~= p0.subrange(0, i));
        }
        let r1 = dfs(a, b, av, vals, index + 1);
        let ghost m1 = vals@;
        proof {
            assert(m1.subrange(0, i) =~= m1.subrange(0, i + 1).subrange(0, i));
            assert(pf.subrange(0, i + 1).subrange(0, i) =~= pf.subrange(0, i));
        }
        if !r1 {
            proof {
                // a completion refuting the false branch refutes the whole prefix
                let w = choose|w: Seq<bool>|
                    w.len() == avv.len() && w.subrange(0, i + 1) == pf.subrange(0, i + 1)
                        && (#[trigger] eval(va, truth_set(avv, w)) && !eval(vb, truth_set(avv, w)));
                assert(w.subrange(0, i) =~= w.subrange(0, i + 1).subrange(0, i));
                assert(w.subrange(0, i) == p0.subrange(0, i));
            }
            return false;
        }
        vals.set(index, true);
        let ghost pt = vals@;
        proof {
            assert(pt.subrange(0, i) =~= m1.subrange(0, i));
            assert(pt.subrange(0, i) == p0.subrange(0, i));
        }
        let r2 = dfs(a, b, av, vals, index + 1);
        proof {
            assert(pf.subrange(0, i + 1) =~= p0.subrange(0, i).push(false));
            assert(pt.subrange(0, i + 1) =~= p0.subrange(0, i).push(true));
            if r2 {
                // every completion extends the false branch or the true branch
                assert forall|w: Seq<bool>|
                    w.len() == avv.len() && w.subrange(0, i) == p0.subrange(0, i) implies (
                #[trigger] eval(va, truth_set(avv, w)) ==> eval(vb, truth_set(avv, w))) by {
                    assert(w.subrange(0, i + 1) =~= w.subrange(0, i).push(w[i]));
                    if w[i] {
                        assert(w.subrange(0, i + 1) == pt.subrange(0, i + 1));
                    } else {
                        assert(w.subrange(0, i + 1) == pf.subrange(0, i + 1));
                    }
                }
            } else {
                let w = choose|w: Seq<bool>|
                    w.len() == avv.len() && w.subrange(0, i + 1) == pt.subrange(0, i + 1)
                        && (#[trigger] eval(va, truth_set(avv, w)) && !eval(vb, truth_set(avv, w)));
                assert(w.subrange(0, i) =~= w.subrange(0, i + 1).subrange(0, i));
                assert(pt.subrange(0, i + 1).subrange(0, i) =~= pt.subrange(0, i));
                assert(w.subrange(0, i) == p0.subrange(0, i));
            }
        }
        r2
    }
}

/// Restricted to the atoms of `a` and `b`, a sign vector over a covering
/// atom list denotes the same assignment as the set it was read from.
proof fn lemma_truth_set_matches(av: Seq<Seq<TokenV>>, t: Set<Seq<TokenV>>, x: Seq<TokenV>)
    requires
        key_set(av).contains(x),
    ensures
        truth_set(av, Seq::new(av.len(), |i: int| t.contains(av[i]))).contains(x) == t.contains(x),
{
    let w = Seq::new(av.len(), |i: int| t.contains(av[i]));
    let j = choose|j: int| 0 <= j < av.len() && av[j] == x;
    if t.contains(x) {
        assert(av[j] == x && w[j]);
        assert(truth_set(av, w).contains(x));
    } else {
        if truth_set(av, w).contains(x) {
            let k = choose|k: int| 0 <= k < av.len() && #[trigger] av[k] == x && w[k];
            assert(false);
        }
    }
}

/// Checking every sign vector over a covering atom list checks every
/// assignment.
proof fn lemma_dfs_exhaustive(a: CfgV, b: CfgV, av: Seq<Seq<TokenV>>, p: Seq<bool>)
    requires
        atoms(a).union(atoms(b)).subset_of(key_set(av)),
    ensures
        ext_ok(a, b, av, p, 0) == cfg_implies(a, b),
{
    if ext_ok(a, b, av, p, 0) {
        assert forall|t: Set<Seq<TokenV>>| #[trigger] eval(a, t) implies eval(b, t) by {
            let w = Seq::new(av.len(), |i: int| t.contains(av[i]));
            assert(w.subrange(0, 0) =~= p.subrange(0, 0));
            let ts = truth_set(av, w);
            assert forall|x: Seq<TokenV>|
                atoms(a).contains(x) ==> (ts.contains(x) <==> #[trigger] t.contains(x)) by {
                if atoms(a).contains(x) {
                    lemma_truth_set_matches(av, t, x);
                }
            }
            assert forall|x: Seq<TokenV>|
                atoms(b).contains(x) ==> (ts.contains(x) <==> #[trigger] t.contains(x)) by {
                if atoms(b).contains(x) {
                    lemma_truth_set_matches(av, t, x);
                }
            }
            lemma_eval_agree(a, ts, t);
            lemma_eval_agree(b, ts, t);
            assert(eval(a, ts) ==> eval(b, ts));
        }
    } else {
        let w = choose|w: Seq<bool>|
            w.len() == av.len() && w.subrange(0, 0) == p.subrange(0, 0) && (#[trigger] eval(
                a,
                truth_set(av, w),
            ) && !eval(b, truth_set(av, w)));
        assert(!cfg_implies(a, b)) by {
            assert(eval(a, truth_set(av, w)) && !eval(b, truth_set(av, w)));
        }
    }
}

impl Cfg {
    /// The exact implication test: true exactly when `other` holds under
    /// every assignment of the atoms under which `self` holds.
    ///
    /// Decided by brute force over every sign assignment of the atoms that
    /// occur in either side, so the cost is exponential in the number of
    /// distinct atoms; real predicates keep that number small.
    pub fn implies(&self, other: &Cfg) -> (r: bool)
        ensures
            r == cfg_implies(cfg_view(*self), cfg_view(*other)),
    {
        // Fast path.
        if self.cfg_eq(other) {
            return true;
        }
        // Collect the atoms of both sides, without duplicates.
        let mut av: Vec<Vec<Token>> = Vec::new();
        self.collect_atoms(&mut av);
        other.collect_atoms(&mut av);
        proof {
            assert(av_view(Seq::<Vec<Token>>::empty()) =~= Seq::<Seq<TokenV>>::empty());
        }
        // Enumerate all sign assignments, failing on any counterexample
        // where self holds and other does not.
        let mut vals: Vec<bool> = Vec::new();
        let mut i: usize = 0;
        while i < av.len()
            invariant
                0 <= i <= av@.len(),
                vals@.len() == i,
                forall|j: int| 0 <= j < i ==> !(#[trigger] vals@[j]),
            decreases av@.len() - i,
        {
            vals.push(false);
            i = i + 1;
        }
        let ghost vals0 = vals@;
        let r = dfs(self, other, &av, &mut vals, 0);
        proof {
            let va = cfg_view(*self);
            let vb = cfg_view(*other);
            let avv = av_view(av@);
            lemma_av_view_index(av@);
            lemma_dfs_exhaustive(va, vb, avv, vals0);
        }
        r
    }
}


/// The structural implication test: sound for every pair of predicates, and
/// complete when the left side is a sign assignment rendered over the same
/// atom vocabulary as the right side, but not a general boolean solver.
pub open spec fn active_subset(a: CfgV, b: CfgV) -> bool
    decreases cfg_size(a) + cfg_size(b), 0int, 0int,
{
    if a == b {
        true
    } else {
        match (a, b) {
            (CfgV::Atomic(x), CfgV::Atomic(y)) => x == y,
            (_, CfgV::All(ys)) => asub_into_all(a, ys),
            (CfgV::All(xs), _) => asub_from_all(xs, b),
            (CfgV::Any(xs), _) => asub_from_any(xs, b),
            (_, CfgV::Any(ys)) => asub_into_any(a, ys),
            (CfgV::Not(x), CfgV::Not(y)) => active_subset(*y, *x),
            _ => false,
        }
    }
}

/// `a` implies a conjunction when it implies every member.
pub open spec fn asub_into_all(a: CfgV, ys: Seq<CfgV>) -> bool
    decreases cfg_size(a) + cfgs_size(ys), 1int, ys.len(),
{
    if ys.len() == 0 {
        true
    } else {
        active_subset(a, ys[0]) && asub_into_all(a, ys.skip(1))
    }
}

/// A conjunction implies `b` when some member does.
pub open spec fn asub_from_all(xs: Seq<CfgV>, b: CfgV) -> bool
    decreases cfgs_size(xs) + cfg_size(b), 1int, xs.len(),
{
    if xs.len() == 0 {
        false
    } else {
        active_subset(xs[0], b) || asub_from_all(xs.skip(1), b)
    }
}

/// A disjunction implies `b` when every member does.
pub open spec fn asub_from_any(xs: Seq<CfgV>, b: CfgV) -> bool
    decreases cfgs_size(xs) + cfg_size(b), 1int, xs.len(),
{
    if xs.len() == 0 {
        true
    } else {
        active_subset(xs[0], b) && asub_from_any(xs.skip(1), b)
    }
}

/// `a` implies a disjunction when it implies some member.
pub open spec fn asub_into_any(a: CfgV, ys: Seq<CfgV>) -> bool
    decreases cfg_size(a) + cfgs_size(ys), 1int, ys.len(),
{
    if ys.len() == 0 {
        false
    } else {
        active_subset(a, ys[0]) || asub_into_any(a, ys.skip(1))
    }
}

impl Cfg {
    /// The fast structural implication test used during splicing: sound (it
    /// never claims an implication that does not hold) but incomplete; the
    /// exact test is `implies`.
    pub fn is_active_subset(&self, other: &Cfg) -> (r: bool)
        ensures
            r == active_subset(cfg_view(*self), cfg_view(*other)),
        decreases cfg_size(cfg_view(*self)) + cfg_size(cfg_view(*other)), 0int, 0int,
    {
        if self.cfg_eq(other) {
            return true;
        }
        match (self, other) {
            (Cfg::Atomic(x), Cfg::Atomic(y)) => tokens_eq(x, y),
            (_, Cfg::All(ys)) => {
                let r = asub_exec_into_all(self, ys, 0);
                proof {
                    assert(cfgs_view(ys@).skip(0) =~= cfgs_view(ys@));
                }
                r
            },
            (Cfg::All(xs), _) => {
                let r = asub_exec_from_all(xs, other, 0);
                proof {
                    assert(cfgs_view(xs@).skip(0) =~= cfgs_view(xs@));
                }
                r
            },
            (Cfg::Any(xs), _) => {
                let r = asub_exec_from_any(xs, other, 0);
                proof {
                    assert(cfgs_view(xs@).skip(0) =~= cfgs_view(xs@));
                }
                r
            },
            (_, Cfg::Any(ys)) => {
                let r = asub_exec_into_any(self, ys, 0);
                proof {
                    assert(cfgs_view(ys@).skip(0) =~= cfgs_view(ys@));
                }
                r
            },
            (Cfg::Not(x), Cfg::Not(y)) => y.is_active_subset(x),
            _ => false,
        }
    }
}

fn asub_exec_into_all(a: &Cfg, ys: &Vec<Cfg>, i: usize) -> (r: bool)
    requires
        i <= ys@.len(),
    ensures
        r == asub_into_all(cfg_view(*a), cfgs_view(ys@).skip(i as int)),
    decreases cfg_size(cfg_view(*a)) + cfgs_size(cfgs_view(ys@)), 1int, ys@.len() - i,
{
    proof {
        lemma_cfgs_view_index(ys@);
    }
    if i == ys.len() {
        proof {
            assert(cfgs_view(ys@).skip(i as int) =~= Seq::<CfgV>::empty());
        }
        true
    } else {
        proof {
            assert(cfgs_view(ys@).skip(i as int)[0] == cfgs_view(ys@)[i as int]);
            assert(cfgs_view(ys@).skip(i as int).skip(1) =~= cfgs_view(ys@).skip(i + 1));
            lemma_cfgs_size_elem(cfgs_view(ys@), i as int);
        }
        if a.is_active_subset(&ys[i]) {
            asub_exec_into_all(a, ys, i + 1)
        } else {
            false
        }
    }
}

fn asub_exec_from_all(xs: &Vec<Cfg>, b: &Cfg, i: usize) -> (r: bool)
    requires
        i <= xs@.len(),
    ensures
        r == asub_from_all(cfgs_view(xs@).skip(i as int), cfg_view(*b)),
    decreases cfgs_size(cfgs_view(xs@)) + cfg_size(cfg_view(*b)), 1int, xs@.len() - i,
{
    proof {
        lemma_cfgs_view_index(xs@);
    }
    if i == xs.len() {
        proof {
            assert(cfgs_view(xs@).skip(i as int) =~= Seq::<CfgV>::empty());
        }
        false
    } else {
        proof {
            assert(cfgs_view(xs@).skip(i as int)[0] == cfgs_view(xs@)[i as int]);
            assert(cfgs_view(xs@).skip(i as int).skip(1) =~= cfgs_view(xs@).skip(i + 1));
            lemma_cfgs_size_elem(cfgs_view(xs@), i as int);
        }
        if xs[i].is_active_subset(b) {
            true
        } else {
            asub_exec_from_all(xs, b, i + 1)
        }
    }
}

fn asub_exec_from_any(xs: &Vec<Cfg>, b: &Cfg, i: usize) -> (r: bool)
    requires
        i <= xs@.len(),
    ensures
        r == asub_from_any(cfgs_view(xs@).skip(i as int), cfg_view(*b)),
    decreases cfgs_size(cfgs_view(xs@)) + cfg_size(cfg_view(*b)), 1int, xs@.len() - i,
{
    proof {
        lemma_cfgs_view_index(xs@);
    }
    if i == xs.len() {
        proof {
            assert(cfgs_view(xs@).skip(i as int) =~= Seq::<CfgV>::empty());
        }
        true
    } else {
        proof {
            assert(cfgs_view(xs@).skip(i as int)[0] == cfgs_view(xs@)[i as int]);
            assert(cfgs_view(xs@).skip(i as int).skip(1) =~= cfgs_view(xs@).skip(i + 1));
            lemma_cfgs_size_elem(cfgs_view(xs@), i as int);
        }
        if xs[i].is_active_subset(b) {
            asub_exec_from_any(xs, b, i + 1)
        } else {
            false
        }
    }
}

fn asub_exec_into_any(a: &Cfg, ys: &Vec<Cfg>, i: usize) -> (r: bool)
    requires
        i <= ys@.len(),
    ensures
        r == asub_into_any(cfg_view(*a), cfgs_view(ys@).skip(i as int)),
    decreases cfg_size(cfg_view(*a)) + cfgs_size(cfgs_view(ys@)), 1int, ys@.len() - i,
{
    proof {
        lemma_cfgs_view_index(ys@);
    }
    if i == ys.len() {
        proof {
            assert(cfgs_view(ys@).skip(i as int) =~= Seq::<CfgV>::empty());
        }
        false
    } else {
        proof {
            assert(cfgs_view(ys@).skip(i as int)[0] == cfgs_view(ys@)[i as int]);
            assert(cfgs_view(ys@).skip(i as int).skip(1) =~= cfgs_view(ys@).skip(i + 1));
            lemma_cfgs_size_elem(cfgs_view(ys@), i as int);
        }
        if a.is_active_subset(&ys[i]) {
            true
        } else {
            asub_exec_into_any(a, ys, i + 1)
        }
    }
}


/// Is the token a top-level comma?
pub open spec fn is_comma(t: TokenV) -> bool {
    match t {
        TokenV::Punct(c, _) => c == ',',
        _ => false,
    }
}

/// The index of the first top-level comma, or -1 when there is none.
pub open spec fn first_comma(ts: Seq<TokenV>) -> int
    decreases ts.len(),
{
    if ts.len() == 0 {
        -1
    } else if is_comma(ts[0]) {
        0
    } else {
        let r = first_comma(ts.skip(1));
        if r < 0 {
            -1
        } else {
            r + 1
        }
    }
}

pub proof fn lemma_first_comma(ts: Seq<TokenV>)
    ensures
        first_comma(ts) == -1 ==> forall|j: int| 0 <= j < ts.len() ==> !is_comma(#[trigger] ts[j]),
        first_comma(ts) >= 0 ==> 0 <= first_comma(ts) < ts.len() && is_comma(ts[first_comma(ts)])
            && forall|j: int| 0 <= j < first_comma(ts) ==> !is_comma(#[trigger] ts[j]),
    decreases ts.len(),
{
    if ts.len() > 0 && !is_comma(ts[0]) {
        lemma_first_comma(ts.skip(1));
        let r = first_comma(ts.skip(1));
        if r >= 0 {
            assert(ts.skip(1)[r] == ts[r + 1]);
            assert forall|j: int| 0 <= j < r + 1 implies !is_comma(#[trigger] ts[j]) by {
                if j > 0 {
                    assert(ts.skip(1)[j - 1] == ts[j]);
                }
            }
        } else {
            assert forall|j: int| 0 <= j < ts.len() implies !is_comma(#[trigger] ts[j]) by {
                if j > 0 {
                    assert(ts.skip(1)[j - 1] == ts[j]);
                }
            }
        }
    }
}

/// The stream split at its top-level commas; a trailing comma closes the
/// last piece.
pub open spec fn split_commas(ts: Seq<TokenV>) -> Seq<Seq<TokenV>>
    decreases ts.len(),
{
    if ts.len() == 0 {
        Seq::empty()
    } else {
        let k = first_comma(ts);
        if 0 <= k < ts.len() {
            seq![ts.take(k)] + split_commas(ts.skip(k + 1))
        } else {
            seq![ts]
        }
    }
}

/// The sizes of the pieces of a split.
pub open spec fn pieces_size(ps: Seq<Seq<TokenV>>) -> nat
    decreases ps.len(),
{
    if ps.len() == 0 {
        0
    } else {
        seq_size(ps[0]) + pieces_size(ps.skip(1))
    }
}

/// Splitting can only shed tokens.
pub proof fn lemma_split_commas_size(ts: Seq<TokenV>)
    ensures
        pieces_size(split_commas(ts)) <= seq_size(ts),
    decreases ts.len(),
{
    if ts.len() > 0 {
        let k = first_comma(ts);
        lemma_first_comma(ts);
        if 0 <= k < ts.len() {
            lemma_split_commas_size(ts.skip(k + 1));
            lemma_seq_size_split(ts, k);
            lemma_tok_size_pos(ts.skip(k)[0]);
            assert(seq_size(ts.skip(k)) == tok_size(ts.skip(k)[0]) + seq_size(ts.skip(k).skip(1)));
            assert(ts.skip(k).skip(1) =~= ts.skip(k + 1));
            let ps = split_commas(ts);
            assert(ps[0] == ts.take(k));
            assert(ps.skip(1) =~= split_commas(ts.skip(k + 1)));
            assert(pieces_size(ps) == seq_size(ts.take(k)) + pieces_size(
                split_commas(ts.skip(k + 1)),
            ));
        } else {
            let ps = split_commas(ts);
            assert(ps == seq![ts]);
            assert(ps[0] == ts);
            assert(ps.skip(1) =~= Seq::<Seq<TokenV>>::empty());
            assert(pieces_size(Seq::<Seq<TokenV>>::empty()) == 0);
            assert(pieces_size(ps) == seq_size(ts));
        }
    }
}

pub proof fn lemma_piece_size(ps: Seq<Seq<TokenV>>, i: int)
    requires
        0 <= i < ps.len(),
    ensures
        seq_size(ps[i]) <= pieces_size(ps),
    decreases i,
{
    if i > 0 {
        lemma_piece_size(ps.skip(1), i - 1);
        assert(ps.skip(1)[i - 1] == ps[i]);
    }
}

/// A single directive argument expression, read as a predicate:
/// `any(..)`/`all(..)` recurse over their comma-separated arguments, `not`
/// requires exactly one argument, and anything else is an atom.  An empty
/// argument is no predicate.
pub open spec fn cfg_of_meta(ts: Seq<TokenV>) -> Option<CfgV>
    decreases seq_size(ts), 0int, 0int,
{
    if ts.len() == 0 {
        None
    } else if ts.len() == 2 {
        match (ts[0], ts[1]) {
            (TokenV::Ident(w), TokenV::Group(Delim::Paren, args)) => {
                if w == "any"@ || w == "all"@ || w == "not"@ {
                    proof {
                        lemma_split_commas_size(args);
                        lemma_elem_size(ts, 1);
                        lemma_tok_size_pos(ts[0]);
                    }
                    match cfgs_of_metas(split_commas(args)) {
                        Option::Some(cs) => {
                            if w == "any"@ {
                                Option::Some(CfgV::Any(cs))
                            } else if w == "all"@ {
                                Option::Some(CfgV::All(cs))
                            } else if cs.len() == 1 {
                                Option::Some(CfgV::Not(Box::new(cs[0])))
                            } else {
                                Option::None
                            }
                        },
                        Option::None => Option::None,
                    }
                } else {
                    Option::Some(CfgV::Atomic(ts))
                }
            },
            _ => Option::Some(CfgV::Atomic(ts)),
        }
    } else {
        Option::Some(CfgV::Atomic(ts))
    }
}

pub open spec fn cfgs_of_metas(ps: Seq<Seq<TokenV>>) -> Option<Seq<CfgV>>
    decreases pieces_size(ps), 1int, ps.len(),
{
    if ps.len() == 0 {
        Option::Some(Seq::empty())
    } else {
        proof {
            lemma_piece_size(ps, 0);
        }
        match cfg_of_meta(ps[0]) {
            Option::Some(c) => match cfgs_of_metas(ps.skip(1)) {
                Option::Some(cs) => Option::Some(seq![c] + cs),
                Option::None => Option::None,
            },
            Option::None => Option::None,
        }
    }
}

/// The predicate of a directive: the attribute's content must be exactly
/// `cfg(<one argument>)`; a directive whose argument list has any other
/// length passes through unexamined.
pub open spec fn cfg_of_attr(meta: Seq<TokenV>) -> Option<CfgV> {
    if meta.len() == 2 && meta[0] == TokenV::Ident("cfg"@) {
        match meta[1] {
            TokenV::Group(Delim::Paren, args) => {
                let ps = split_commas(args);
                if ps.len() == 1 {
                    cfg_of_meta(ps[0])
                } else {
                    Option::None
                }
            },
            _ => Option::None,
        }
    } else {
        Option::None
    }
}


/// A fresh copy of `ts[a..b]`.
pub fn copy_range(ts: &Vec<Token>, a: usize, b: usize) -> (r: Vec<Token>)
    requires
        a <= b <= ts@.len(),
    ensures
        toks_view(r@) == toks_view(ts@).subrange(a as int, b as int),
{
    let mut out: Vec<Token> = Vec::new();
    let mut i: usize = a;
    while i < b
        invariant
            a <= i <= b <= ts@.len(),
            out@.len() == i - a,
            forall|j: int| 0 <= j < out@.len() ==> tok_view(#[trigger] out@[j]) == tok_view(
                ts@[a + j],
            ),
        decreases b - i,
    {
        out.push(token_copy(&ts[i]));
        i = i + 1;
    }
    proof {
        lemma_toks_view_index(out@);
        lemma_toks_view_index(ts@);
        assert forall|j: int| 0 <= j < out@.len() implies toks_view(out@)[j] == toks_view(
            ts@,
        ).subrange(a as int, b as int)[j] by {
            assert(toks_view(out@)[j] == tok_view(out@[j]));
            assert(toks_view(ts@)[a + j] == tok_view(ts@[a + j]));
        }
        assert(toks_view(out@) =~= toks_view(ts@).subrange(a as int, b as int));
    }
    out
}

/// The first top-level comma of the stream, if any.
fn find_comma(ts: &Vec<Token>) -> (r: Option<usize>)
    ensures
        match r {
            Option::Some(k) => 0 <= k < ts@.len() && first_comma(toks_view(ts@)) == k,
            Option::None => first_comma(toks_view(ts@)) == -1,
        },
{
    proof {
        lemma_toks_view_index(ts@);
        lemma_first_comma(toks_view(ts@));
    }
    let ghost v = toks_view(ts@);
    let mut i: usize = 0;
    while i < ts.len()
        invariant
            0 <= i <= ts@.len(),
            v == toks_view(ts@),
            v.len() == ts@.len(),
            forall|j: int| 0 <= j < ts@.len() ==> v[j] == tok_view(#[trigger] ts@[j]),
            forall|j: int| 0 <= j < i ==> !is_comma(#[trigger] v[j]),
            first_comma(v) == -1 ==> forall|j: int| 0 <= j < v.len() ==> !is_comma(#[trigger] v[j]),
            first_comma(v) >= 0 ==> 0 <= first_comma(v) < v.len() && is_comma(v[first_comma(v)])
                && forall|j: int| 0 <= j < first_comma(v) ==> !is_comma(#[trigger] v[j]),
        decreases ts@.len() - i,
    {
        let hit = match &ts[i] {
            Token::Punct(c, _) => *c == ',',
            _ => false,
        };
        if hit {
            proof {
                assert(is_comma(v[i as int]));
                if first_comma(v) == -1 {
                    assert(false);
                }
                assert(first_comma(v) == i as int);
            }
            return Option::Some(i);
        }
        i = i + 1;
    }
    proof {
        if first_comma(v) >= 0 {
            assert(is_comma(v[first_comma(v)]));
            assert(false);
        }
    }
    Option::None
}

/// The stream split at its top-level commas.
pub fn split_commas_vec(ts: &Vec<Token>) -> (r: Vec<Vec<Token>>)
    ensures
        av_view(r@) == split_commas(toks_view(ts@)),
    decreases ts@.len(),
{
    let ghost v = toks_view(ts@);
    proof {
        lemma_toks_view_index(ts@);
    }
    if ts.len() == 0 {
        let r: Vec<Vec<Token>> = Vec::new();
        proof {
            assert(av_view(r@) =~= split_commas(v));
        }
        return r;
    }
    match find_comma(ts) {
        Option::None => {
            let mut r: Vec<Vec<Token>> = Vec::new();
            r.push(tokens_copy(ts));
            proof {
                assert(r@.drop_last() =~= Seq::<Vec<Token>>::empty());
                assert(av_view(r@) == av_view(r@.drop_last()).push(toks_view(r@.last()@)));
                assert(av_view(r@) =~= seq![v]);
            }
            r
        },
        Option::Some(k) => {
            let piece = copy_range(ts, 0, k);
            let rest = copy_range(ts, k + 1, ts.len());
            proof {
                assert(toks_view(rest@) == v.subrange(k + 1, v.len() as int));
                assert(v.subrange(k + 1, v.len() as int) =~= v.skip(k + 1));
                assert(toks_view(rest@).len() == v.len() - k - 1);
                lemma_toks_view_index(rest@);
                assert(rest@.len() == v.len() - k - 1);
            }
            let mut r = split_commas_vec(&rest);
            let ghost r0 = r@;
            r.insert(0, piece);
            proof {
                let tail = split_commas(v.skip(k + 1));
                assert(r@ == r0.insert(0, piece));
                assert(r@[0] == piece);
                assert(r@.skip(1) =~= r0);
                lemma_av_view_insert_front(r@);
                assert(av_view(r0) == tail);
                assert(toks_view(piece@) == v.subrange(0, k as int));
                assert(v.subrange(0, k as int) =~= v.take(k as int));
                assert(av_view(r@) =~= seq![v.take(k as int)] + tail);
            }
            r
        },
    }
}

/// The view of a piece list grows at the front as the list does.
pub proof fn lemma_av_view_insert_front(av: Seq<Vec<Token>>)
    requires
        av.len() > 0,
    ensures
        av_view(av) == seq![toks_view(av[0]@)] + av_view(av.skip(1)),
{
    lemma_av_view_index(av);
    lemma_av_view_index(av.skip(1));
    assert forall|j: int| 0 <= j < av.len() implies av_view(av)[j] == (seq![toks_view(av[0]@)]
        + av_view(av.skip(1)))[j] by {
        if j > 0 {
            assert(av.skip(1)[j - 1] == av[j]);
            assert(av_view(av.skip(1))[j - 1] == toks_view(av[j]@));
        }
    }
    assert(av_view(av) =~= seq![toks_view(av[0]@)] + av_view(av.skip(1)));
}

impl Cfg {
    /// One directive argument expression, read as a predicate.
    #[verifier::rlimit(60)]
    pub fn from_cfg_meta(meta: &Vec<Token>) -> (r: Option<Cfg>)
        ensures
            match r {
                Option::Some(c) => cfg_of_meta(toks_view(meta@)) == Option::Some(cfg_view(c)),
                Option::None => cfg_of_meta(toks_view(meta@)) is None,
            },
        decreases seq_size(toks_view(meta@)), 0int, 0int,
    {
        let ghost v = toks_view(meta@);
        proof {
            lemma_toks_view_index(meta@);
        }
        if meta.len() == 0 {
            return Option::None;
        }
        if meta.len() != 2 {
            return Option::Some(Cfg::Atomic(tokens_copy(meta)));
        }
        proof {
            assert(v[0] == tok_view(meta@[0]));
            assert(v[1] == tok_view(meta@[1]));
        }
        match (&meta[0], &meta[1]) {
            (Token::Ident(w), Token::Group(Delim::Paren, args)) => {
                let w_any = is_word(w, "any");
                let w_all = is_word(w, "all");
                let w_not = is_word(w, "not");
                if !(w_any || w_all || w_not) {
                    return Option::Some(Cfg::Atomic(tokens_copy(meta)));
                }
                let pieces = split_commas_vec(args);
                proof {
                    lemma_split_commas_size(toks_view(args@));
                    lemma_elem_size(v, 1);
                    lemma_tok_size_pos(v[0]);
                }
                match from_cfg_args(&pieces, 0) {
                    Option::Some(cs) => {
                        proof {
                            assert(av_view(pieces@).skip(0) =~= av_view(pieces@));
                        }
                        if w_any {
                            Option::Some(Cfg::Any(cs))
                        } else if w_all {
                            Option::Some(Cfg::All(cs))
                        } else if cs.len() == 1 {
                            let ghost cs0 = cs@;
                            let mut cs = cs;
                            let c = cs.pop().unwrap();
                            proof {
                                assert(cs0 =~= cs@.push(c));
                                lemma_cfgs_view_index(cs0);
                                assert(cfgs_view(cs0).len() == 1);
                                assert(cfgs_view(cs0)[0] == cfg_view(c));
                                assert(cfgs_view(cs0) =~= seq![cfg_view(c)]);
                            }
                            Option::Some(Cfg::Not(Box::new(c)))
                        } else {
                            proof {
                                lemma_cfgs_view_index(cs@);
                            }
                            Option::None
                        }
                    },
                    Option::None => Option::None,
                }
            },
            _ => Option::Some(Cfg::Atomic(tokens_copy(meta))),
        }
    }
}

/// Reads every piece of a split argument list as a predicate; fails when
/// any piece fails.
fn from_cfg_args(pieces: &Vec<Vec<Token>>, i: usize) -> (r: Option<Vec<Cfg>>)
    requires
        i <= pieces@.len(),
    ensures
        match r {
            Option::Some(cs) => cfgs_of_metas(av_view(pieces@).skip(i as int)) == Option::Some(
                cfgs_view(cs@),
            ),
            Option::None => cfgs_of_metas(av_view(pieces@).skip(i as int)) is None,
        },
    decreases pieces_size(av_view(pieces@)), 1int, pieces@.len() - i,
{
    proof {
        lemma_av_view_index(pieces@);
    }
    if i == pieces.len() {
        let r: Vec<Cfg> = Vec::new();
        proof {
            assert(av_view(pieces@).skip(i as int) =~= Seq::<Seq<TokenV>>::empty());
            assert(cfgs_view(r@) =~= Seq::<CfgV>::empty());
        }
        return Option::Some(r);
    }
    proof {
        assert(av_view(pieces@).skip(i as int)[0] == av_view(pieces@)[i as int]);
        assert(av_view(pieces@).skip(i as int).skip(1) =~= av_view(pieces@).skip(i + 1));
        lemma_piece_size(av_view(pieces@), i as int);
    }
    match Cfg::from_cfg_meta(&pieces[i]) {
        Option::Some(c) => {
            match from_cfg_args(pieces, i + 1) {
                Option::Some(cs) => {
                    let ghost cs0 = cs@;
                    let mut cs = cs;
                    cs.insert(0, c);
                    proof {
                        assert(cs@ == cs0.insert(0, c));
                        assert(cs@[0] == c);
                        assert(cs@.skip(1) =~= cs0);
                        lemma_cfgs_view_insert_front(cs@);
                        assert(cfgs_view(cs@) == seq![cfg_view(c)] + cfgs_view(cs0));
                    }
                    Option::Some(cs)
                },
                Option::None => Option::None,
            }
        },
        Option::None => Option::None,
    }
}

/// The view of a predicate list grows at the front as the list does.
pub proof fn lemma_cfgs_view_insert_front(cs: Seq<Cfg>)
    requires
        cs.len() > 0,
    ensures
        cfgs_view(cs) == seq![cfg_view(cs[0])] + cfgs_view(cs.skip(1)),
{
    lemma_cfgs_view_index(cs);
    lemma_cfgs_view_index(cs.skip(1));
    assert forall|j: int| 0 <= j < cs.len() implies cfgs_view(cs)[j] == (seq![cfg_view(cs[0])]
        + cfgs_view(cs.skip(1)))[j] by {
        if j > 0 {
            assert(cs.skip(1)[j - 1] == cs[j]);
            assert(cfgs_view(cs.skip(1))[j - 1] == cfg_view(cs[j]));
        }
    }
    assert(cfgs_view(cs) =~= seq![cfg_view(cs[0])] + cfgs_view(cs.skip(1)));
}



/// The view of a two-token stream, spelled out.
pub proof fn lemma_toks_view_pair(ts: Seq<Token>)
    requires
        ts.len() == 2,
    ensures
        toks_view(ts) == seq![tok_view(ts[0]), tok_view(ts[1])],
{
    lemma_toks_view_index(ts);
    assert(toks_view(ts)[0] == tok_view(ts[0]));
    assert(toks_view(ts)[1] == tok_view(ts[1]));
    assert(toks_view(ts) =~= seq![tok_view(ts[0]), tok_view(ts[1])]);
}

/// The tokens of a predicate, rendered back as a directive argument.
pub open spec fn render_meta(c: CfgV) -> Seq<TokenV>
    decreases c, 0int,
{
    match c {
        CfgV::Any(xs) => seq![
            TokenV::Ident("any"@),
            TokenV::Group(Delim::Paren, render_list(xs)),
        ],
        CfgV::All(xs) => seq![
            TokenV::Ident("all"@),
            TokenV::Group(Delim::Paren, render_list(xs)),
        ],
        CfgV::Not(x) => seq![
            TokenV::Ident("not"@),
            TokenV::Group(Delim::Paren, render_meta(*x)),
        ],
        CfgV::Atomic(ts) => ts,
    }
}

/// A comma-separated argument list.
pub open spec fn render_list(xs: Seq<CfgV>) -> Seq<TokenV>
    decreases xs, 1int,
{
    if xs.len() == 0 {
        Seq::empty()
    } else if xs.len() == 1 {
        render_meta(xs[0])
    } else {
        render_meta(xs[0]) + seq![TokenV::Punct(',', false)] + render_list(xs.skip(1))
    }
}

/// A whole canonical guard: `#[cfg(<predicate>)]`.
pub open spec fn render_attr(c: CfgV) -> Seq<TokenV> {
    seq![
        TokenV::Punct('#', false),
        TokenV::Group(
            Delim::Bracket,
            seq![TokenV::Ident("cfg"@), TokenV::Group(Delim::Paren, render_meta(c))],
        ),
    ]
}

impl Cfg {
    /// This predicate rendered as a directive argument.
    pub fn to_cfg_meta(&self) -> (r: Vec<Token>)
        ensures
            toks_view(r@) == render_meta(cfg_view(*self)),
        decreases self, 0int, 0int,
    {
        match self {
            Cfg::Atomic(ts) => tokens_copy(ts),
            Cfg::Not(x) => {
                let inner = x.to_cfg_meta();
                let mut out: Vec<Token> = Vec::new();
                out.push(Token::Ident(String::from_str("not")));
                out.push(Token::Group(Delim::Paren, inner));
                proof {
                    lemma_toks_view_pair(out@);
                    assert(tok_view(out@[1]) == TokenV::Group(
                        Delim::Paren,
                        render_meta(cfg_view(**x)),
                    ));
                    assert(toks_view(out@) =~= render_meta(cfg_view(*self)));
                }
                out
            },
            Cfg::Any(xs) => {
                let list = render_list_exec(xs, 0);
                let mut out: Vec<Token> = Vec::new();
                out.push(Token::Ident(String::from_str("any")));
                out.push(Token::Group(Delim::Paren, list));
                proof {
                    assert(cfgs_view(xs@).skip(0) =~= cfgs_view(xs@));
                    lemma_toks_view_pair(out@);
                    assert(tok_view(out@[1]) == TokenV::Group(
                        Delim::Paren,
                        render_list(cfgs_view(xs@)),
                    ));
                    assert(toks_view(out@) =~= render_meta(cfg_view(*self)));
                }
                out
            },
            Cfg::All(xs) => {
                let list = render_list_exec(xs, 0);
                let mut out: Vec<Token> = Vec::new();
                out.push(Token::Ident(String::from_str("all")));
                out.push(Token::Group(Delim::Paren, list));
                proof {
                    assert(cfgs_view(xs@).skip(0) =~= cfgs_view(xs@));
                    lemma_toks_view_pair(out@);
                    assert(tok_view(out@[1]) == TokenV::Group(
                        Delim::Paren,
                        render_list(cfgs_view(xs@)),
                    ));
                    assert(toks_view(out@) =~= render_meta(cfg_view(*self)));
                }
                out
            },
        }
    }

    /// This predicate rendered as a whole `#[cfg(..)]` guard.
    pub fn to_token_stream(&self) -> (r: Vec<Token>)
        ensures
            toks_view(r@) == render_attr(cfg_view(*self)),
    {
        let meta = self.to_cfg_meta();
        let mut inner: Vec<Token> = Vec::new();
        inner.push(Token::Ident(String::from_str("cfg")));
        inner.push(Token::Group(Delim::Paren, meta));
        proof {
            lemma_toks_view_pair(inner@);
            assert(tok_view(inner@[0]) == TokenV::Ident("cfg"@));
            assert(tok_view(inner@[1]) == TokenV::Group(
                Delim::Paren,
                render_meta(cfg_view(*self)),
            ));
            assert(toks_view(inner@) =~= seq![
                TokenV::Ident("cfg"@),
                TokenV::Group(Delim::Paren, render_meta(cfg_view(*self))),
            ]);
        }
        let mut out: Vec<Token> = Vec::new();
        out.push(Token::Punct('#', false));
        out.push(Token::Group(Delim::Bracket, inner));
        proof {
            lemma_toks_view_pair(out@);
            assert(tok_view(out@[0]) == TokenV::Punct('#', false));
            assert(tok_view(out@[1]) == TokenV::Group(Delim::Bracket, toks_view(inner@)));
            assert(toks_view(out@) =~= render_attr(cfg_view(*self)));
        }
        out
    }
}

fn render_list_exec(xs: &Vec<Cfg>, i: usize) -> (r: Vec<Token>)
    requires
        i <= xs@.len(),
    ensures
        toks_view(r@) == render_list(cfgs_view(xs@).skip(i as int)),
    decreases xs, 1int, xs@.len() - i,
{
    proof {
        lemma_cfgs_view_index(xs@);
    }
    if i == xs.len() {
        let r: Vec<Token> = Vec::new();
        proof {
            assert(cfgs_view(xs@).skip(i as int) =~= Seq::<CfgV>::empty());
            assert(toks_view(r@) =~= Seq::<TokenV>::empty());
        }
        return r;
    }
    let mut head = xs[i].to_cfg_meta();
    proof {
        assert(cfgs_view(xs@).skip(i as int)[0] == cfgs_view(xs@)[i as int]);
        assert(cfgs_view(xs@).skip(i as int).skip(1) =~= cfgs_view(xs@).skip(i + 1));
    }
    if i + 1 == xs.len() {
        proof {
            assert(cfgs_view(xs@).skip(i as int).len() == 1);
        }
        return head;
    }
    let ghost h0 = head@;
    head.push(Token::Punct(',', false));
    let mut rest = render_list_exec(xs, i + 1);
    let ghost h1 = head@;
    let ghost r1 = rest@;
    head.append(&mut rest);
    proof {
        assert(head@ == h1 + r1);
        assert(h1 =~= h0.push(Token::Punct(',', false)));
        lemma_toks_view_index(head@);
        lemma_toks_view_index(h0);
        lemma_toks_view_index(h1);
        lemma_toks_view_index(r1);
        assert forall|j: int| 0 <= j < head@.len() implies toks_view(head@)[j] == (toks_view(h0)
            + seq![TokenV::Punct(',', false)] + toks_view(r1))[j] by {
            assert(toks_view(head@)[j] == tok_view(head@[j]));
            if j < h0.len() {
                assert(head@[j] == h0[j]);
                assert(toks_view(h0)[j] == tok_view(h0[j]));
            } else if j == h0.len() {
                assert(head@[j] == Token::Punct(',', false));
            } else {
                assert(head@[j] == r1[j - h1.len()]);
                assert(toks_view(r1)[j - h1.len()] == tok_view(r1[j - h1.len()]));
            }
        }
        assert(toks_view(head@) =~= toks_view(h0) + seq![TokenV::Punct(',', false)] + toks_view(
            r1,
        ));
    }
    head
}


impl Cfg {
    /// The predicate of a directive: the attribute's content must be
    /// exactly `cfg(<one argument>)`.
    pub fn from_attr(attr: &crate::find::AnyAttribute) -> (r: Option<Cfg>)
        ensures
            match r {
                Option::Some(c) => cfg_of_attr(toks_view(attr.meta@)) == Option::Some(
                    cfg_view(c),
                ),
                Option::None => cfg_of_attr(toks_view(attr.meta@)) is None,
            },
    {
        let ghost v = toks_view(attr.meta@);
        proof {
            lemma_toks_view_index(attr.meta@);
        }
        if attr.meta.len() != 2 {
            return Option::None;
        }
        let head_ok = match &attr.meta[0] {
            Token::Ident(w) => is_word(w, "cfg"),
            _ => false,
        };
        if !head_ok {
            proof {
                assert(v[0] == tok_view(attr.meta@[0]));
            }
            return Option::None;
        }
        match &attr.meta[1] {
            Token::Group(Delim::Paren, args) => {
                proof {
                    assert(v[1] == tok_view(attr.meta@[1]));
                }
                let pieces = split_commas_vec(args);
                if pieces.len() == 1 {
                    proof {
                        lemma_av_view_index(pieces@);
                        assert(av_view(pieces@)[0] == toks_view(pieces@[0]@));
                    }
                    Cfg::from_cfg_meta(&pieces[0])
                } else {
                    proof {
                        lemma_av_view_index(pieces@);
                    }
                    Option::None
                }
            },
            _ => {
                proof {
                    assert(v[1] == tok_view(attr.meta@[1]));
                }
                Option::None
            },
        }
    }
}

} // verus!
