use vstd::prelude::*;

use crate::prop::{Formula, Prop, models, lemma_model_nary, size, size_all, lemma_size_child, duplicate_all};

verus! {

/// The first pass: implications and biconditionals rewritten with negation,
/// conjunction and disjunction.
pub open spec fn elim(p: Prop) -> Prop
    decreases p,
{
    match p {
        Prop::Atom(_) => p,
        Prop::Not(x) => Prop::Not(Box::new(elim(*x))),
        Prop::Implies(l, r) => Prop::Or(seq![Prop::Not(Box::new(elim(*l))), elim(*r)]),
        Prop::Iff(l, r) => Prop::And(
            seq![
                Prop::Or(seq![Prop::Not(Box::new(elim(*l))), elim(*r)]),
                Prop::Or(seq![Prop::Not(Box::new(elim(*r))), elim(*l)]),
            ],
        ),
        Prop::And(cs) => Prop::And(
            Seq::new(cs.len(), |i: int| if 0 <= i < cs.len() { elim(cs[i]) } else { arbitrary() }),
        ),
        Prop::Or(cs) => Prop::Or(
            Seq::new(cs.len(), |i: int| if 0 <= i < cs.len() { elim(cs[i]) } else { arbitrary() }),
        ),
    }
}

/// Implications and biconditionals eliminated: `Implies(l, r)` becomes
/// `Or(Not(l'), r')` and `Iff(l, r)` becomes `And(Or(Not(l'), r'), Or(Not(r'), l'))`,
/// where `l'` and `r'` are the rewritten operands; every other node is kept
/// and its children rewritten.
pub fn simplify1(f: Formula) -> (r: Formula)
    ensures
        r.model() == elim(f.model()),
    decreases f,
{
    match f {
        Formula::Atom(c) => Formula::Atom(c),
        Formula::Not(n) => Formula::Not(Box::new(simplify1(*n))),
        Formula::Implies { l, r } => {
            let mut v: Vec<Formula> = Vec::new();
            v.push(Formula::Not(Box::new(simplify1(*l))));
            v.push(simplify1(*r));
            proof {
                lemma_model_nary(v);
                assert(models(v@) =~= elim(f.model())->Or_0);
            }
            Formula::Or(v)
        },
        Formula::Iff { l, r } => {
            let ls = simplify1(*l);
            let rs = simplify1(*r);
            let mut a: Vec<Formula> = Vec::new();
            a.push(Formula::Not(Box::new(ls.duplicate())));
            a.push(rs.duplicate());
            let mut b: Vec<Formula> = Vec::new();
            b.push(Formula::Not(Box::new(rs)));
            b.push(ls);
            proof {
                lemma_model_nary(a);
                lemma_model_nary(b);
                assert(models(a@) =~= elim(f.model())->And_0[0]->Or_0);
                assert(models(b@) =~= elim(f.model())->And_0[1]->Or_0);
            }
            let mut v: Vec<Formula> = Vec::new();
            v.push(Formula::Or(a));
            v.push(Formula::Or(b));
            proof {
                lemma_model_nary(v);
                assert(models(v@) =~= elim(f.model())->And_0);
            }
            Formula::And(v)
        },
        Formula::And(v) => {
            proof {
                lemma_model_nary(v);
            }
            let w = simplify1_all(v);
            proof {
                lemma_model_nary(w);
                assert(models(w@) =~= elim(f.model())->And_0);
            }
            Formula::And(w)
        },
        Formula::Or(v) => {
            proof {
                lemma_model_nary(v);
            }
            let w = simplify1_all(v);
            proof {
                lemma_model_nary(w);
                assert(models(w@) =~= elim(f.model())->Or_0);
            }
            Formula::Or(w)
        },
    }
}

/// `simplify1` applied to each formula of `v`, in order.
pub fn simplify1_all(v: Vec<Formula>) -> (r: Vec<Formula>)
    ensures
        r@.len() == v@.len(),
        forall|i: int| 0 <= i < v@.len() ==> (#[trigger] r@[i]).model() == elim(v@[i].model()),
    decreases v, 0int,
{
    let ghost v0 = v;
    let mut r: Vec<Formula> = Vec::new();
    for x in it: v.into_iter()
        invariant
            it.seq() == v0@,
            r@.len() == it.index(),
            forall|i: int| 0 <= i < r@.len() ==> (#[trigger] r@[i]).model() == elim(v0@[i].model()),
    {
        assert(decreases_to!(v0 => v0@[it.index()]));
        r.push(simplify1(x));
    }
    r
}

/// No implication or biconditional anywhere in `p`.
pub open spec fn no_arrows(p: Prop) -> bool
    decreases p,
{
    match p {
        Prop::Atom(_) => true,
        Prop::Not(x) => no_arrows(*x),
        Prop::Implies(_, _) => false,
        Prop::Iff(_, _) => false,
        Prop::And(cs) => forall|i: int| 0 <= i < cs.len() ==> no_arrows(#[trigger] cs[i]),
        Prop::Or(cs) => forall|i: int| 0 <= i < cs.len() ==> no_arrows(#[trigger] cs[i]),
    }
}

/// The second pass: negation normal form of `p` when `pos`, of `Not(p)`
/// otherwise. Double negations cancel, and a negated conjunction
/// (disjunction) becomes the disjunction (conjunction) of the negated children.
pub open spec fn nnf(p: Prop, pos: bool) -> Prop
    decreases p,
{
    match p {
        Prop::Atom(_) => if pos { p } else { Prop::Not(Box::new(p)) },
        Prop::Not(x) => nnf(*x, !pos),
        Prop::And(cs) => {
            let ds = Seq::new(cs.len(), |i: int| if 0 <= i < cs.len() { nnf(cs[i], pos) } else { arbitrary() });
            if pos { Prop::And(ds) } else { Prop::Or(ds) }
        },
        Prop::Or(cs) => {
            let ds = Seq::new(cs.len(), |i: int| if 0 <= i < cs.len() { nnf(cs[i], pos) } else { arbitrary() });
            if pos { Prop::Or(ds) } else { Prop::And(ds) }
        },
        _ => p,
    }
}

/// Negations pushed down to the atoms. The input holds no implication or
/// biconditional: those must be eliminated first.
pub fn simplify2(f: Formula) -> (r: Formula)
    requires
        no_arrows(f.model()),
    ensures
        r.model() == nnf(f.model(), true),
    decreases size(f.model()), 1int,
{
    let ghost p = f.model();
    match f {
        Formula::Not(n) => {
            let ghost q = (*n).model();
            assert(p == Prop::Not(Box::new(q)));
            assert(nnf(p, true) == nnf(q, false));
            assert(no_arrows(q));
            match *n {
                Formula::Not(nn) => {
                    assert(q == Prop::Not(Box::new((*nn).model())));
                    assert(size(q) == 1 + size((*nn).model()));
                    assert(no_arrows(q));
                    assert(nnf(q, false) == nnf((*nn).model(), true));
                    simplify2(*nn)
                },
                Formula::And(v) => {
                    proof {
                        lemma_model_nary(v);
                        assert(q == Prop::And(models(v@)));
                        assert(size(q) == 1 + size_all(models(v@)));
                        assert(no_arrows(q));
                    }
                    let w = simplify2_negated(v);
                    proof {
                        lemma_model_nary(w);
                        assert(nnf(p, true) == nnf(q, false));
                        assert(models(w@) =~= nnf(q, false)->Or_0);
                    }
                    Formula::Or(w)
                },
                Formula::Or(v) => {
                    proof {
                        lemma_model_nary(v);
                        assert(q == Prop::Or(models(v@)));
                        assert(size(q) == 1 + size_all(models(v@)));
                        assert(no_arrows(q));
                    }
                    let w = simplify2_negated(v);
                    proof {
                        lemma_model_nary(w);
                        assert(nnf(p, true) == nnf(q, false));
                        assert(models(w@) =~= nnf(q, false)->And_0);
                    }
                    Formula::And(w)
                },
                g => {
                    assert(q == g.model());
                    assert(nnf(q, false) == Prop::Not(Box::new(q)));
                    Formula::Not(Box::new(g))
                },
            }
        },
        Formula::And(v) => {
            proof {
                lemma_model_nary(v);
            }
            let w = simplify2_all(v);
            proof {
                lemma_model_nary(w);
                assert(models(w@) =~= nnf(p, true)->And_0);
            }
            Formula::And(w)
        },
        Formula::Or(v) => {
            proof {
                lemma_model_nary(v);
            }
            let w = simplify2_all(v);
            proof {
                lemma_model_nary(w);
                assert(models(w@) =~= nnf(p, true)->Or_0);
            }
            Formula::Or(w)
        },
        g => g,
    }
}

/// `simplify2` applied to each formula of `v`, in order.
pub fn simplify2_all(v: Vec<Formula>) -> (r: Vec<Formula>)
    requires
        forall|i: int| 0 <= i < v@.len() ==> no_arrows(#[trigger] models(v@)[i]),
    ensures
        r@.len() == v@.len(),
        forall|i: int| 0 <= i < v@.len() ==> (#[trigger] r@[i]).model() == nnf(v@[i].model(), true),
    decreases size_all(models(v@)), 2int,
{
    let ghost v0 = v;
    let mut r: Vec<Formula> = Vec::new();
    for x in it: v.into_iter()
        invariant
            it.seq() == v0@,
            forall|i: int| 0 <= i < v0@.len() ==> no_arrows(#[trigger] models(v0@)[i]),
            r@.len() == it.index(),
            forall|i: int| 0 <= i < r@.len() ==> (#[trigger] r@[i]).model() == nnf(v0@[i].model(), true),
    {
        proof {
            lemma_size_child(models(v0@), it.index());
            assert(models(v0@)[it.index()] == x.model());
        }
        r.push(simplify2(x));
    }
    r
}

/// `simplify2` applied to the negation of each formula of `v`, in order.
pub fn simplify2_negated(v: Vec<Formula>) -> (r: Vec<Formula>)
    requires
        forall|i: int| 0 <= i < v@.len() ==> no_arrows(#[trigger] models(v@)[i]),
    ensures
        r@.len() == v@.len(),
        forall|i: int| 0 <= i < v@.len() ==> (#[trigger] r@[i]).model() == nnf(v@[i].model(), false),
    decreases size_all(models(v@)), 2int,
{
    let ghost v0 = v;
    let mut r: Vec<Formula> = Vec::new();
    for x in it: v.into_iter()
        invariant
            it.seq() == v0@,
            forall|i: int| 0 <= i < v0@.len() ==> no_arrows(#[trigger] models(v0@)[i]),
            r@.len() == it.index(),
            forall|i: int| 0 <= i < r@.len() ==> (#[trigger] r@[i]).model() == nnf(v0@[i].model(), false),
    {
        proof {
            lemma_size_child(models(v0@), it.index());
            assert(models(v0@)[it.index()] == x.model());
        }
        r.push(simplify2(Formula::Not(Box::new(x))));
    }
    r
}

/// The children of `ds` that are not disjunctions, in order.
pub open spec fn singles_of(ds: Seq<Prop>) -> Seq<Prop>
    decreases ds.len(),
{
    if ds.len() == 0 {
        Seq::empty()
    } else {
        let rest = singles_of(ds.drop_last());
        if ds.last() is Or {
            rest
        } else {
            rest.push(ds.last())
        }
    }
}

/// The children lists of the disjunctions among `ds`, in order.
pub open spec fn choices_of(ds: Seq<Prop>) -> Seq<Seq<Prop>>
    decreases ds.len(),
{
    if ds.len() == 0 {
        Seq::empty()
    } else {
        let rest = choices_of(ds.drop_last());
        match ds.last() {
            Prop::Or(xs) => rest.push(xs),
            _ => rest,
        }
    }
}

/// Each sequence of `prev` extended by each option: the option varies
/// slowest, the sequence of `prev` fastest.
pub open spec fn extend(prev: Seq<Seq<Prop>>, opts: Seq<Prop>) -> Seq<Seq<Prop>>
    decreases opts.len(),
{
    if opts.len() == 0 {
        Seq::empty()
    } else {
        extend(prev, opts.drop_last()) + prev.map_values(|c: Seq<Prop>| c.push(opts.last()))
    }
}

/// `base` followed by one pick from each list of `ms`, for every way of
/// picking; the pick from the first list varies fastest.
pub open spec fn combos(base: Seq<Prop>, ms: Seq<Seq<Prop>>) -> Seq<Seq<Prop>>
    decreases ms.len(),
{
    if ms.len() == 0 {
        seq![base]
    } else {
        extend(combos(base, ms.drop_last()), ms.last())
    }
}

/// A conjunction of the already distributed children `ds`.
pub open spec fn distribute(ds: Seq<Prop>) -> Prop {
    let ms = choices_of(ds);
    if ms.len() == 0 {
        Prop::And(singles_of(ds))
    } else {
        Prop::Or(combos(singles_of(ds), ms).map_values(|c: Seq<Prop>| Prop::And(c)))
    }
}

/// The third pass: conjunction distributed over disjunction, bottom-up.
pub open spec fn dist(p: Prop) -> Prop
    decreases p, 1int,
{
    match p {
        Prop::Not(x) => Prop::Not(Box::new(dist(*x))),
        Prop::And(cs) => distribute(dist_each(cs)),
        Prop::Or(cs) => Prop::Or(dist_each(cs)),
        _ => p,
    }
}

/// `dist` of each element of `cs`.
pub open spec fn dist_each(cs: Seq<Prop>) -> Seq<Prop>
    decreases cs, 0int,
{
    Seq::new(cs.len(), |i: int| if 0 <= i < cs.len() { dist(cs[i]) } else { arbitrary() })
}

/// Whether the third pass distributes at some conjunction of `p`.
pub open spec fn dist_flag(p: Prop) -> bool
    decreases p,
{
    match p {
        Prop::Not(x) => dist_flag(*x),
        Prop::And(cs) => (exists|i: int| 0 <= i < cs.len() && dist_flag(#[trigger] cs[i]))
            || choices_of(dist_each(cs)).len() > 0,
        Prop::Or(cs) => exists|i: int| 0 <= i < cs.len() && dist_flag(#[trigger] cs[i]),
        _ => false,
    }
}

/// Models of a sequence of formula vectors, one for one.
pub open spec fn vmodels(s: Seq<Vec<Formula>>) -> Seq<Seq<Prop>> {
    s.map_values(|v: Vec<Formula>| models(v@))
}

/// Conjunction distributed over disjunction, bottom-up. A conjunction whose
/// distributed children include disjunctions becomes the disjunction of one
/// conjunction per way of picking a child from each of them; the flag says
/// whether that happened anywhere. The input holds no implication or
/// biconditional. The number of clauses is the product of the sizes of the
/// disjunctions, so time and memory can grow exponentially with the input.
pub fn simplify3(f: Formula) -> (r: (Formula, bool))
    requires
        no_arrows(f.model()),
    ensures
        r.0.model() == dist(f.model()),
        r.1 == dist_flag(f.model()),
    decreases f, 1int,
{
    let ghost p = f.model();
    match f {
        Formula::Not(n) => {
            assert(p == Prop::Not(Box::new((*n).model())));
            let (s, b) = simplify3(*n);
            (Formula::Not(Box::new(s)), b)
        },
        Formula::Or(v) => {
            proof {
                lemma_model_nary(v);
            }
            let (w, b) = simplify3_all(v);
            proof {
                lemma_model_nary(w);
                assert(models(w@) =~= dist_each(models(v@)));
            }
            (Formula::Or(w), b)
        },
        Formula::And(v) => {
            proof {
                lemma_model_nary(v);
            }
            let (w, b) = simplify3_all(v);
            let ghost ds = models(w@);
            assert(ds =~= dist_each(models(v@)));
            assert(dist(p) == distribute(ds));
            let (singles, multiples) = split_disjunctions(w);
            if multiples.len() == 0 {
                proof {
                    lemma_model_nary(singles);
                    assert(choices_of(ds).len() == 0);
                }
                (Formula::And(singles), b)
            } else {
                let clauses = clauses_of(singles, multiples);
                proof {
                    lemma_model_nary(clauses);
                    assert(choices_of(ds).len() > 0);
                }
                (Formula::Or(clauses), true)
            }
        },
        g => (g, false),
    }
}

/// `simplify3` applied to each formula of `v`, in order, and whether any of
/// them distributed.
pub fn simplify3_all(v: Vec<Formula>) -> (r: (Vec<Formula>, bool))
    requires
        forall|i: int| 0 <= i < v@.len() ==> no_arrows(#[trigger] models(v@)[i]),
    ensures
        r.0@.len() == v@.len(),
        forall|i: int| 0 <= i < v@.len() ==> (#[trigger] r.0@[i]).model() == dist(v@[i].model()),
        r.1 == exists|i: int| 0 <= i < v@.len() && dist_flag(#[trigger] models(v@)[i]),
    decreases v, 0int,
{
    let ghost v0 = v;
    let mut r: Vec<Formula> = Vec::new();
    let mut b = false;
    for x in it: v.into_iter()
        invariant
            it.seq() == v0@,
            forall|i: int| 0 <= i < v0@.len() ==> no_arrows(#[trigger] models(v0@)[i]),
            r@.len() == it.index(),
            forall|i: int| 0 <= i < r@.len() ==> (#[trigger] r@[i]).model() == dist(v0@[i].model()),
            b == exists|i: int| 0 <= i < r@.len() && dist_flag(#[trigger] models(v0@)[i]),
    {
        assert(decreases_to!(v0 => v0@[it.index()]));
        assert(models(v0@)[it.index()] == x.model());
        let (y, s) = simplify3(x);
        r.push(y);
        b = b || s;
    }
    (r, b)
}

/// The formulas of `ds` that are not disjunctions, and the children of those
/// that are, both in order.
pub fn split_disjunctions(ds: Vec<Formula>) -> (r: (Vec<Formula>, Vec<Vec<Formula>>))
    ensures
        models(r.0@) == singles_of(models(ds@)),
        vmodels(r.1@) == choices_of(models(ds@)),
{
    let ghost d0 = ds;
    let mut singles: Vec<Formula> = Vec::new();
    let mut multiples: Vec<Vec<Formula>> = Vec::new();
    for x in it: ds.into_iter()
        invariant
            it.seq() == d0@,
            models(singles@) == singles_of(models(d0@).take(it.index())),
            vmodels(multiples@) == choices_of(models(d0@).take(it.index())),
    {
        let ghost k = it.index();
        assert(models(d0@).take(k + 1).drop_last() =~= models(d0@).take(k));
        assert(models(d0@).take(k + 1).last() == x.model());
        match x {
            Formula::Or(ov) => {
                proof {
                    lemma_model_nary(ov);
                }
                let ghost m0 = multiples@;
                multiples.push(ov);
                assert(vmodels(multiples@) =~= vmodels(m0).push(models(ov@)));
            },
            g => {
                let ghost s0 = singles@;
                singles.push(g);
                assert(models(singles@) =~= models(s0).push(g.model()));
            },
        }
    }
    assert(models(d0@).take(d0@.len() as int) =~= models(d0@));
    (singles, multiples)
}

/// Independent copies of each vector of `prev` extended by each formula of
/// `opts`, in the order of `extend`.
pub fn extend_with(prev: &Vec<Vec<Formula>>, opts: &Vec<Formula>) -> (r: Vec<Vec<Formula>>)
    ensures
        vmodels(r@) == extend(vmodels(prev@), models(opts@)),
{
    let ghost pm = vmodels(prev@);
    let ghost om = models(opts@);
    let mut r: Vec<Vec<Formula>> = Vec::new();
    let mut j: usize = 0;
    while j < opts.len()
        invariant
            j <= opts.len(),
            pm == vmodels(prev@),
            om == models(opts@),
            vmodels(r@) == extend(pm, om.take(j as int)),
        decreases opts.len() - j,
    {
        let ghost r0 = vmodels(r@);
        let ghost o = om[j as int];
        let mut k: usize = 0;
        while k < prev.len()
            invariant
                k <= prev.len(),
                j < opts.len(),
                pm == vmodels(prev@),
                om == models(opts@),
                o == om[j as int],
                vmodels(r@) == r0 + pm.take(k as int).map_values(|c: Seq<Prop>| c.push(o)),
            decreases prev.len() - k,
        {
            let mut c = duplicate_all(&prev[k]);
            let ghost c0 = c@;
            c.push(opts[j].duplicate());
            assert(models(c@) =~= models(c0).push(o));
            let ghost rr = r@;
            r.push(c);
            assert(vmodels(r@) =~= vmodels(rr).push(models(c@)));
            k = k + 1;
            assert(pm.take(k as int).map_values(|c: Seq<Prop>| c.push(o)) =~= pm.take(k - 1).map_values(
                |c: Seq<Prop>| c.push(o),
            ).push(pm[k - 1].push(o)));
        }
        assert(pm.take(k as int) =~= pm);
        assert(om.take(j + 1).drop_last() =~= om.take(j as int));
        j = j + 1;
    }
    assert(om.take(j as int) =~= om);
    r
}

/// One conjunction per element of `combos(singles, multiples)`, in order.
pub fn clauses_of(singles: Vec<Formula>, multiples: Vec<Vec<Formula>>) -> (r: Vec<Formula>)
    ensures
        models(r@) == combos(models(singles@), vmodels(multiples@)).map_values(
            |c: Seq<Prop>| Prop::And(c),
        ),
{
    let ghost base = models(singles@);
    let ghost ms = vmodels(multiples@);
    let ghost m0 = multiples;
    let mut acc: Vec<Vec<Formula>> = Vec::new();
    acc.push(singles);
    assert(vmodels(acc@) =~= combos(base, ms.take(0)));
    for ov in it: multiples.into_iter()
        invariant
            it.seq() == m0@,
            ms == vmodels(m0@),
            vmodels(acc@) == combos(base, ms.take(it.index())),
    {
        let ghost k = it.index();
        acc = extend_with(&acc, &ov);
        assert(ms.take(k + 1).drop_last() =~= ms.take(k));
    }
    assert(ms.take(ms.len() as int) =~= ms);
    let ghost a0 = acc;
    let ghost cm = vmodels(a0@);
    let mut r: Vec<Formula> = Vec::new();
    for c in it: acc.into_iter()
        invariant
            it.seq() == a0@,
            cm == vmodels(a0@),
            models(r@) == cm.take(it.index()).map_values(|c: Seq<Prop>| Prop::And(c)),
    {
        let ghost k = it.index();
        proof {
            lemma_model_nary(c);
        }
        let ghost rr = r@;
        r.push(Formula::And(c));
        assert(models(r@) =~= models(rr).push(Prop::And(models(c@))));
        assert(cm.take(k + 1).map_values(|c: Seq<Prop>| Prop::And(c)) =~= cm.take(k).map_values(
            |c: Seq<Prop>| Prop::And(c),
        ).push(Prop::And(cm[k])));
    }
    assert(cm.take(cm.len() as int) =~= cm);
    r
}

/// The whole rewrite: the three passes in order.
pub open spec fn normalize(p: Prop) -> Prop {
    dist(nnf(elim(p), true))
}

/// Negation only on atoms, and no implication or biconditional.
pub open spec fn is_nnf(p: Prop) -> bool
    decreases p,
{
    match p {
        Prop::Atom(_) => true,
        Prop::Not(x) => *x is Atom,
        Prop::And(cs) => forall|i: int| 0 <= i < cs.len() ==> is_nnf(#[trigger] cs[i]),
        Prop::Or(cs) => forall|i: int| 0 <= i < cs.len() ==> is_nnf(#[trigger] cs[i]),
        _ => false,
    }
}

pub proof fn lemma_elim_no_arrows(p: Prop)
    ensures
        no_arrows(elim(p)),
    decreases p,
{
    match p {
        Prop::Atom(_) => {},
        Prop::Not(x) => lemma_elim_no_arrows(*x),
        Prop::Implies(l, r) => {
            lemma_elim_no_arrows(*l);
            lemma_elim_no_arrows(*r);
            assert(no_arrows(elim(p)->Or_0[0]));
        },
        Prop::Iff(l, r) => {
            lemma_elim_no_arrows(*l);
            lemma_elim_no_arrows(*r);
            let cs = elim(p)->And_0;
            assert(no_arrows(cs[0]->Or_0[0]));
            assert(no_arrows(cs[1]->Or_0[0]));
            assert(no_arrows(cs[0]));
            assert(no_arrows(cs[1]));
        },
        Prop::And(cs) => {
            assert forall|i: int| 0 <= i < cs.len() implies no_arrows(#[trigger] elim(p)->And_0[i]) by {
                lemma_elim_no_arrows(cs[i]);
            }
        },
        Prop::Or(cs) => {
            assert forall|i: int| 0 <= i < cs.len() implies no_arrows(#[trigger] elim(p)->Or_0[i]) by {
                lemma_elim_no_arrows(cs[i]);
            }
        },
    }
}

pub proof fn lemma_nnf_is_nnf(p: Prop, pos: bool)
    requires
        no_arrows(p),
    ensures
        is_nnf(nnf(p, pos)),
    decreases p,
{
    match p {
        Prop::Not(x) => lemma_nnf_is_nnf(*x, !pos),
        Prop::And(cs) => {
            let ds = if pos { nnf(p, pos)->And_0 } else { nnf(p, pos)->Or_0 };
            assert forall|i: int| 0 <= i < cs.len() implies is_nnf(#[trigger] ds[i]) by {
                lemma_nnf_is_nnf(cs[i], pos);
            }
        },
        Prop::Or(cs) => {
            let ds = if pos { nnf(p, pos)->Or_0 } else { nnf(p, pos)->And_0 };
            assert forall|i: int| 0 <= i < cs.len() implies is_nnf(#[trigger] ds[i]) by {
                lemma_nnf_is_nnf(cs[i], pos);
            }
        },
        _ => {},
    }
}

pub proof fn lemma_nnf_no_arrows(p: Prop)
    requires
        is_nnf(p),
    ensures
        no_arrows(p),
    decreases p,
{
    match p {
        Prop::And(cs) => {
            assert forall|i: int| 0 <= i < cs.len() implies no_arrows(#[trigger] cs[i]) by {
                lemma_nnf_no_arrows(cs[i]);
            }
        },
        Prop::Or(cs) => {
            assert forall|i: int| 0 <= i < cs.len() implies no_arrows(#[trigger] cs[i]) by {
                lemma_nnf_no_arrows(cs[i]);
            }
        },
        Prop::Not(x) => {
            assert(no_arrows(*x));
        },
        _ => {},
    }
}

/// The three passes in order: implications and biconditionals eliminated,
/// negations pushed to the atoms, conjunction distributed over disjunction.
/// The root is left as the last pass yields it: a bare literal or
/// disjunction is not wrapped in a conjunction of one.
pub fn simplify(f: Formula) -> (r: Formula)
    ensures
        r.model() == normalize(f.model()),
{
    let ghost p = f.model();
    let g = simplify1(f);
    proof {
        lemma_elim_no_arrows(p);
    }
    let h = simplify2(g);
    proof {
        lemma_nnf_is_nnf(elim(p), true);
        lemma_nnf_no_arrows(nnf(elim(p), true));
    }
    let (sf, _) = simplify3(h);
    sf
}

} // verus!
