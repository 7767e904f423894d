use vstd::prelude::*;

use crate::normal::{
    choices_of, combos, dist, dist_each, distribute, elim, extend, is_nnf, nnf, no_arrows,
    normalize, singles_of, lemma_elim_no_arrows, lemma_nnf_is_nnf, lemma_nnf_no_arrows,
};
use crate::prop::{Prop, eval};

verus! {

/// Every formula of `s` is true under `env`.
pub open spec fn all_true(s: Seq<Prop>, env: spec_fn(char) -> bool) -> bool {
    forall|i: int| 0 <= i < s.len() ==> eval(#[trigger] s[i], env)
}

/// Some formula of `s` is true under `env`.
pub open spec fn any_true(s: Seq<Prop>, env: spec_fn(char) -> bool) -> bool {
    exists|i: int| 0 <= i < s.len() && eval(#[trigger] s[i], env)
}

/// Every list of `ms` holds a formula true under `env`.
pub open spec fn each_has_true(ms: Seq<Seq<Prop>>, env: spec_fn(char) -> bool) -> bool {
    forall|j: int| 0 <= j < ms.len() ==> any_true(#[trigger] ms[j], env)
}

/// Some list of `cs` holds only formulas true under `env`.
pub open spec fn some_all_true(cs: Seq<Seq<Prop>>, env: spec_fn(char) -> bool) -> bool {
    exists|i: int| 0 <= i < cs.len() && all_true(#[trigger] cs[i], env)
}

proof fn lemma_eval_nary(p: Prop, env: spec_fn(char) -> bool)
    ensures
        p is And ==> eval(p, env) == all_true(p->And_0, env),
        p is Or ==> eval(p, env) == any_true(p->Or_0, env),
{
}

proof fn lemma_all_true_push(s: Seq<Prop>, x: Prop, env: spec_fn(char) -> bool)
    ensures
        all_true(s.push(x), env) == (all_true(s, env) && eval(x, env)),
{
    if all_true(s.push(x), env) {
        assert forall|i: int| 0 <= i < s.len() implies eval(#[trigger] s[i], env) by {
            assert(s.push(x)[i] == s[i]);
        }
        assert(s.push(x)[s.len() as int] == x);
    }
    if all_true(s, env) && eval(x, env) {
        assert forall|i: int| 0 <= i < s.len() + 1 implies eval(#[trigger] s.push(x)[i], env) by {
            if i < s.len() {
                assert(s.push(x)[i] == s[i]);
            }
        }
    }
}

proof fn lemma_any_true_push(s: Seq<Prop>, x: Prop, env: spec_fn(char) -> bool)
    ensures
        any_true(s.push(x), env) == (any_true(s, env) || eval(x, env)),
{
    if any_true(s.push(x), env) {
        let i = choose|i: int| 0 <= i < s.len() + 1 && eval(#[trigger] s.push(x)[i], env);
        if i < s.len() {
            assert(s.push(x)[i] == s[i]);
        }
    }
    if any_true(s, env) {
        let i = choose|i: int| 0 <= i < s.len() && eval(#[trigger] s[i], env);
        assert(s.push(x)[i] == s[i]);
    }
    if eval(x, env) {
        assert(s.push(x)[s.len() as int] == x);
    }
}

proof fn lemma_each_has_true_push(ms: Seq<Seq<Prop>>, xs: Seq<Prop>, env: spec_fn(char) -> bool)
    ensures
        each_has_true(ms.push(xs), env) == (each_has_true(ms, env) && any_true(xs, env)),
{
    if each_has_true(ms.push(xs), env) {
        assert forall|j: int| 0 <= j < ms.len() implies any_true(#[trigger] ms[j], env) by {
            assert(ms.push(xs)[j] == ms[j]);
        }
        assert(ms.push(xs)[ms.len() as int] == xs);
    }
    if each_has_true(ms, env) && any_true(xs, env) {
        assert forall|j: int| 0 <= j < ms.len() + 1 implies any_true(#[trigger] ms.push(xs)[j], env) by {
            if j < ms.len() {
                assert(ms.push(xs)[j] == ms[j]);
            }
        }
    }
}

/// A conjunction splits into its non-disjunctions and one pick from each of
/// its disjunctions.
proof fn lemma_split_eval(ds: Seq<Prop>, env: spec_fn(char) -> bool)
    ensures
        all_true(ds, env) == (all_true(singles_of(ds), env) && each_has_true(choices_of(ds), env)),
    decreases ds.len(),
{
    if ds.len() == 0 {
        assert(all_true(ds, env));
        assert(each_has_true(choices_of(ds), env));
    } else {
        let init = ds.drop_last();
        let x = ds.last();
        lemma_split_eval(init, env);
        assert(ds == init.push(x));
        lemma_all_true_push(init, x, env);
        if x is Or {
            lemma_each_has_true_push(choices_of(init), x->Or_0, env);
        } else {
            lemma_all_true_push(singles_of(init), x, env);
        }
    }
}

proof fn lemma_some_all_true_concat(a: Seq<Seq<Prop>>, b: Seq<Seq<Prop>>, env: spec_fn(char) -> bool)
    ensures
        some_all_true(a + b, env) == (some_all_true(a, env) || some_all_true(b, env)),
{
    if some_all_true(a + b, env) {
        let i = choose|i: int| 0 <= i < (a + b).len() && all_true(#[trigger] (a + b)[i], env);
        if i < a.len() {
            assert((a + b)[i] == a[i]);
        } else {
            assert((a + b)[i] == b[i - a.len()]);
        }
    }
    if some_all_true(a, env) {
        let i = choose|i: int| 0 <= i < a.len() && all_true(#[trigger] a[i], env);
        assert((a + b)[i] == a[i]);
    }
    if some_all_true(b, env) {
        let i = choose|i: int| 0 <= i < b.len() && all_true(#[trigger] b[i], env);
        assert((a + b)[i + a.len()] == b[i]);
    }
}

proof fn lemma_some_all_true_push_each(prev: Seq<Seq<Prop>>, x: Prop, env: spec_fn(char) -> bool)
    ensures
        some_all_true(prev.map_values(|c: Seq<Prop>| c.push(x)), env) == (some_all_true(prev, env)
            && eval(x, env)),
{
    let m = prev.map_values(|c: Seq<Prop>| c.push(x));
    if some_all_true(m, env) {
        let i = choose|i: int| 0 <= i < m.len() && all_true(#[trigger] m[i], env);
        lemma_all_true_push(prev[i], x, env);
    }
    if some_all_true(prev, env) && eval(x, env) {
        let i = choose|i: int| 0 <= i < prev.len() && all_true(#[trigger] prev[i], env);
        lemma_all_true_push(prev[i], x, env);
        assert(m[i] == prev[i].push(x));
    }
}

proof fn lemma_extend_eval(prev: Seq<Seq<Prop>>, opts: Seq<Prop>, env: spec_fn(char) -> bool)
    ensures
        some_all_true(extend(prev, opts), env) == (some_all_true(prev, env) && any_true(opts, env)),
    decreases opts.len(),
{
    if opts.len() == 0 {
        assert(!some_all_true(extend(prev, opts), env));
    } else {
        let init = opts.drop_last();
        let x = opts.last();
        lemma_extend_eval(prev, init, env);
        lemma_some_all_true_concat(extend(prev, init), prev.map_values(|c: Seq<Prop>| c.push(x)), env);
        lemma_some_all_true_push_each(prev, x, env);
        assert(opts == init.push(x));
        lemma_any_true_push(init, x, env);
    }
}

proof fn lemma_combos_eval(base: Seq<Prop>, ms: Seq<Seq<Prop>>, env: spec_fn(char) -> bool)
    ensures
        some_all_true(combos(base, ms), env) == (all_true(base, env) && each_has_true(ms, env)),
    decreases ms.len(),
{
    if ms.len() == 0 {
        let cs = combos(base, ms);
        assert(cs[0] == base);
        if all_true(base, env) {
            assert(all_true(cs[0], env));
        }
    } else {
        let init = ms.drop_last();
        lemma_combos_eval(base, init, env);
        lemma_extend_eval(combos(base, init), ms.last(), env);
        assert(ms == init.push(ms.last()));
        lemma_each_has_true_push(init, ms.last(), env);
    }
}

proof fn lemma_distribute_eval(ds: Seq<Prop>, env: spec_fn(char) -> bool)
    ensures
        eval(distribute(ds), env) == all_true(ds, env),
{
    lemma_split_eval(ds, env);
    let ms = choices_of(ds);
    if ms.len() == 0 {
        assert(each_has_true(ms, env));
        let d = distribute(ds);
        assert(d == Prop::And(singles_of(ds)));
        lemma_eval_nary(d, env);
    } else {
        let cs = combos(singles_of(ds), ms);
        let ors = cs.map_values(|c: Seq<Prop>| Prop::And(c));
        lemma_combos_eval(singles_of(ds), ms, env);
        let d = distribute(ds);
        assert(d == Prop::Or(ors));
        lemma_eval_nary(d, env);
        if eval(distribute(ds), env) {
            let i = choose|i: int| 0 <= i < ors.len() && eval(#[trigger] ors[i], env);
            assert(ors[i] == Prop::And(cs[i]));
            lemma_eval_nary(ors[i], env);
        }
        if some_all_true(cs, env) {
            let i = choose|i: int| 0 <= i < cs.len() && all_true(#[trigger] cs[i], env);
            assert(ors[i] == Prop::And(cs[i]));
            lemma_eval_nary(ors[i], env);
            assert(eval(ors[i], env));
        }
    }
}

pub proof fn lemma_elim_eval(p: Prop, env: spec_fn(char) -> bool)
    ensures
        eval(elim(p), env) == eval(p, env),
    decreases p,
{
    match p {
        Prop::Atom(_) => {},
        Prop::Not(x) => lemma_elim_eval(*x, env),
        Prop::Implies(l, r) => {
            lemma_elim_eval(*l, env);
            lemma_elim_eval(*r, env);
            let cs = elim(p)->Or_0;
            assert(eval(cs[0], env) == !eval(*l, env));
            assert(eval(cs[1], env) == eval(*r, env));
        },
        Prop::Iff(l, r) => {
            lemma_elim_eval(*l, env);
            lemma_elim_eval(*r, env);
            let cs = elim(p)->And_0;
            let a = cs[0]->Or_0;
            let b = cs[1]->Or_0;
            assert(eval(a[0], env) == !eval(*l, env));
            assert(eval(a[1], env) == eval(*r, env));
            assert(eval(b[0], env) == !eval(*r, env));
            assert(eval(b[1], env) == eval(*l, env));
            assert(eval(cs[0], env) == (!eval(*l, env) || eval(*r, env)));
            assert(eval(cs[1], env) == (!eval(*r, env) || eval(*l, env)));
        },
        Prop::And(cs) => {
            let ds = elim(p)->And_0;
            assert forall|i: int| 0 <= i < cs.len() implies eval(#[trigger] ds[i], env) == eval(cs[i], env) by {
                lemma_elim_eval(cs[i], env);
            }
            if !eval(p, env) {
                let i = choose|i: int| 0 <= i < cs.len() && !eval(#[trigger] cs[i], env);
                assert(!eval(ds[i], env));
            }
        },
        Prop::Or(cs) => {
            let ds = elim(p)->Or_0;
            assert forall|i: int| 0 <= i < cs.len() implies eval(#[trigger] ds[i], env) == eval(cs[i], env) by {
                lemma_elim_eval(cs[i], env);
            }
            if eval(p, env) {
                let i = choose|i: int| 0 <= i < cs.len() && eval(#[trigger] cs[i], env);
                assert(eval(ds[i], env));
            }
        },
    }
}

pub proof fn lemma_nnf_eval(p: Prop, pos: bool, env: spec_fn(char) -> bool)
    requires
        no_arrows(p),
    ensures
        eval(nnf(p, pos), env) == (eval(p, env) == pos),
    decreases p,
{
    match p {
        Prop::Atom(_) => {},
        Prop::Not(x) => lemma_nnf_eval(*x, !pos, env),
        Prop::And(cs) => {
            let ds = if pos { nnf(p, pos)->And_0 } else { nnf(p, pos)->Or_0 };
            assert forall|i: int| 0 <= i < cs.len() implies eval(#[trigger] ds[i], env) == (eval(cs[i], env) == pos) by {
                lemma_nnf_eval(cs[i], pos, env);
            }
            if !eval(p, env) {
                let i = choose|i: int| 0 <= i < cs.len() && !eval(#[trigger] cs[i], env);
                assert(eval(ds[i], env) != pos);
            }
            if eval(nnf(p, pos), env) != pos {
                let i = choose|i: int| 0 <= i < cs.len() && eval(#[trigger] ds[i], env) != pos;
                assert(!eval(cs[i], env));
            }
        },
        Prop::Or(cs) => {
            let ds = if pos { nnf(p, pos)->Or_0 } else { nnf(p, pos)->And_0 };
            assert forall|i: int| 0 <= i < cs.len() implies eval(#[trigger] ds[i], env) == (eval(cs[i], env) == pos) by {
                lemma_nnf_eval(cs[i], pos, env);
            }
            if eval(p, env) {
                let i = choose|i: int| 0 <= i < cs.len() && eval(#[trigger] cs[i], env);
                assert(eval(ds[i], env) == pos);
            }
            if eval(nnf(p, pos), env) == pos {
                let i = choose|i: int| 0 <= i < cs.len() && eval(#[trigger] ds[i], env) == pos;
                assert(eval(cs[i], env));
            }
        },
        _ => {},
    }
}

pub proof fn lemma_dist_eval(p: Prop, env: spec_fn(char) -> bool)
    ensures
        eval(dist(p), env) == eval(p, env),
    decreases p,
{
    match p {
        Prop::Not(x) => {
            lemma_dist_eval(*x, env);
            let d = dist(p);
            assert(d == Prop::Not(Box::new(dist(*x))));
            assert(eval(d, env) == !eval(dist(*x), env));
            assert(eval(p, env) == !eval(*x, env));
        },
        Prop::And(cs) => {
            let ds = dist_each(cs);
            assert forall|i: int| 0 <= i < cs.len() implies eval(#[trigger] ds[i], env) == eval(cs[i], env) by {
                lemma_dist_eval(cs[i], env);
            }
            lemma_distribute_eval(ds, env);
            lemma_eval_nary(p, env);
            assert(dist(p) == distribute(ds));
            if !eval(p, env) {
                let i = choose|i: int| 0 <= i < cs.len() && !eval(#[trigger] cs[i], env);
                assert(!eval(ds[i], env));
            }
        },
        Prop::Or(cs) => {
            let ds = dist_each(cs);
            let d = dist(p);
            assert(d == Prop::Or(ds));
            lemma_eval_nary(p, env);
            lemma_eval_nary(d, env);
            assert forall|i: int| 0 <= i < cs.len() implies eval(#[trigger] ds[i], env) == eval(cs[i], env) by {
                lemma_dist_eval(cs[i], env);
            }
            if eval(p, env) {
                let i = choose|i: int| 0 <= i < cs.len() && eval(#[trigger] cs[i], env);
                assert(eval(ds[i], env));
            }
        },
        _ => {},
    }
}

/// Normalization keeps the meaning: under every assignment of truth values
/// to the atoms, a formula and its normal form have the same value.
pub proof fn lemma_normalize_equivalent(p: Prop, env: spec_fn(char) -> bool)
    ensures
        eval(normalize(p), env) == eval(p, env),
{
    lemma_elim_eval(p, env);
    lemma_elim_no_arrows(p);
    lemma_nnf_eval(elim(p), true, env);
    lemma_dist_eval(nnf(elim(p), true), env);
}

/// A literal, or a conjunction whose children are all of this kind.
pub open spec fn is_conj_tree(p: Prop) -> bool
    decreases p,
{
    p.is_literal() || match p {
        Prop::And(cs) => forall|i: int| 0 <= i < cs.len() ==> is_conj_tree(#[trigger] cs[i]),
        _ => false,
    }
}

/// What the third pass yields on a formula in negation normal form.
pub open spec fn dist_shaped(d: Prop) -> bool {
    is_nnf(d) && (!(d is Or) ==> is_conj_tree(d))
}

proof fn lemma_split_shape(ds: Seq<Prop>)
    requires
        forall|i: int| 0 <= i < ds.len() ==> dist_shaped(#[trigger] ds[i]),
    ensures
        forall|k: int| 0 <= k < singles_of(ds).len() ==> is_nnf(#[trigger] singles_of(ds)[k]) && is_conj_tree(
            singles_of(ds)[k],
        ),
        forall|j: int, k: int|
            0 <= j < choices_of(ds).len() && 0 <= k < choices_of(ds)[j].len() ==> is_nnf(
                #[trigger] choices_of(ds)[j][k],
            ),
    decreases ds.len(),
{
    if ds.len() > 0 {
        let init = ds.drop_last();
        let x = ds.last();
        assert forall|i: int| 0 <= i < init.len() implies dist_shaped(#[trigger] init[i]) by {
            assert(init[i] == ds[i]);
        }
        lemma_split_shape(init);
        assert(dist_shaped(ds[ds.len() - 1]));
        if x is Or {
            assert(singles_of(ds) == singles_of(init));
            let ms = choices_of(ds);
            assert(ms == choices_of(init).push(x->Or_0));
            assert forall|j: int, k: int| 0 <= j < ms.len() && 0 <= k < ms[j].len() implies is_nnf(
                #[trigger] ms[j][k],
            ) by {
                if j < ms.len() - 1 {
                    assert(ms[j] == choices_of(init)[j]);
                } else {
                    assert(is_nnf(x->Or_0[k]));
                }
            }
        } else {
            assert(choices_of(ds) == choices_of(init));
            let ss = singles_of(ds);
            assert(ss == singles_of(init).push(x));
            assert forall|k: int| 0 <= k < ss.len() implies is_nnf(#[trigger] ss[k]) && is_conj_tree(ss[k]) by {
                if k < ss.len() - 1 {
                    assert(ss[k] == singles_of(init)[k]);
                }
            }
        }
    }
}

/// Every sequence that `extend` yields holds only formulas in negation
/// normal form, when `prev` and `opts` do.
proof fn lemma_extend_nnf(prev: Seq<Seq<Prop>>, opts: Seq<Prop>)
    requires
        forall|i: int, k: int| 0 <= i < prev.len() && 0 <= k < prev[i].len() ==> is_nnf(#[trigger] prev[i][k]),
        forall|k: int| 0 <= k < opts.len() ==> is_nnf(#[trigger] opts[k]),
    ensures
        forall|i: int, k: int|
            0 <= i < extend(prev, opts).len() && 0 <= k < extend(prev, opts)[i].len() ==> is_nnf(
                #[trigger] extend(prev, opts)[i][k],
            ),
    decreases opts.len(),
{
    if opts.len() > 0 {
        let init = opts.drop_last();
        let x = opts.last();
        lemma_extend_nnf(prev, init);
        let a = extend(prev, init);
        let b = prev.map_values(|c: Seq<Prop>| c.push(x));
        let e = extend(prev, opts);
        assert(e == a + b);
        assert(is_nnf(opts[opts.len() - 1]));
        assert forall|i: int, k: int| 0 <= i < e.len() && 0 <= k < e[i].len() implies is_nnf(#[trigger] e[i][k]) by {
            if i < a.len() {
                assert(e[i] == a[i]);
            } else {
                let c = prev[i - a.len()];
                assert(e[i] == c.push(x));
                if k < c.len() {
                    assert(e[i][k] == c[k]);
                }
            }
        }
    }
}

proof fn lemma_combos_nnf(base: Seq<Prop>, ms: Seq<Seq<Prop>>)
    requires
        forall|k: int| 0 <= k < base.len() ==> is_nnf(#[trigger] base[k]),
        forall|j: int, k: int| 0 <= j < ms.len() && 0 <= k < ms[j].len() ==> is_nnf(#[trigger] ms[j][k]),
    ensures
        forall|i: int, k: int|
            0 <= i < combos(base, ms).len() && 0 <= k < combos(base, ms)[i].len() ==> is_nnf(
                #[trigger] combos(base, ms)[i][k],
            ),
    decreases ms.len(),
{
    if ms.len() == 0 {
        assert(combos(base, ms) == seq![base]);
    } else {
        let init = ms.drop_last();
        assert forall|j: int, k: int| 0 <= j < init.len() && 0 <= k < init[j].len() implies is_nnf(
            #[trigger] init[j][k],
        ) by {
            assert(init[j] == ms[j]);
        }
        lemma_combos_nnf(base, init);
        let last = ms[ms.len() - 1];
        assert forall|k: int| 0 <= k < last.len() implies is_nnf(#[trigger] last[k]) by {}
        lemma_extend_nnf(combos(base, init), last);
    }
}

proof fn lemma_dist_shape(p: Prop)
    requires
        is_nnf(p),
    ensures
        dist_shaped(dist(p)),
    decreases p,
{
    match p {
        Prop::Not(x) => {
            let d = dist(p);
            assert(dist(*x) == *x);
            assert(d == p);
            assert(p.is_literal());
            assert(is_conj_tree(d));
        },
        Prop::And(cs) => {
            let ds = dist_each(cs);
            assert forall|i: int| 0 <= i < ds.len() implies dist_shaped(#[trigger] ds[i]) by {
                lemma_dist_shape(cs[i]);
            }
            lemma_split_shape(ds);
            let d = dist(p);
            let ms = choices_of(ds);
            let ss = singles_of(ds);
            if ms.len() == 0 {
                assert(d == Prop::And(ss));
                assert forall|k: int| 0 <= k < ss.len() implies is_conj_tree(#[trigger] ss[k]) && is_nnf(ss[k]) by {}
                assert(is_nnf(d));
                assert(is_conj_tree(d));
            } else {
                lemma_combos_nnf(ss, ms);
                let cs2 = combos(ss, ms);
                let ors = cs2.map_values(|c: Seq<Prop>| Prop::And(c));
                assert(d == Prop::Or(ors));
                assert forall|i: int| 0 <= i < ors.len() implies is_nnf(#[trigger] ors[i]) by {
                    assert(ors[i] == Prop::And(cs2[i]));
                    assert forall|k: int| 0 <= k < cs2[i].len() implies is_nnf(#[trigger] cs2[i][k]) by {}
                }
            }
        },
        Prop::Or(cs) => {
            let ds = dist_each(cs);
            assert forall|i: int| 0 <= i < ds.len() implies is_nnf(#[trigger] ds[i]) by {
                lemma_dist_shape(cs[i]);
            }
            let d = dist(p);
            assert(d == Prop::Or(ds));
            assert(is_nnf(d));
        },
        Prop::Atom(_) => {
            assert(dist(p) == p);
            assert(p.is_literal());
        },
        _ => {},
    }
}

/// Normal forms hold no implication or biconditional and negate atoms
/// only; one that is not a disjunction is a literal, or a conjunction all of
/// whose descendants are literals or conjunctions.
pub proof fn lemma_normalize_shape(p: Prop)
    ensures
        no_arrows(normalize(p)),
        is_nnf(normalize(p)),
        !(normalize(p) is Or) ==> is_conj_tree(normalize(p)),
{
    lemma_elim_no_arrows(p);
    lemma_nnf_is_nnf(elim(p), true);
    lemma_dist_shape(nnf(elim(p), true));
    lemma_nnf_no_arrows(normalize(p));
}

/// Below a top-level conjunction of a normal form, every child is a
/// literal, where no child is itself a conjunction (a nested conjunction
/// such as the one of `And(P, And(Q, R))` is kept as it is).
pub proof fn lemma_normalize_top_conjunction(p: Prop)
    requires
        normalize(p) is And,
        forall|i: int| 0 <= i < normalize(p)->And_0.len() ==> !(#[trigger] normalize(p)->And_0[i] is And),
    ensures
        forall|i: int| 0 <= i < normalize(p)->And_0.len() ==> (#[trigger] normalize(p)->And_0[i]).is_literal(),
{
    lemma_normalize_shape(p);
    let cs = normalize(p)->And_0;
    assert forall|i: int| 0 <= i < cs.len() implies (#[trigger] cs[i]).is_literal() by {
        assert(is_conj_tree(cs[i]));
    }
}

/// No conjunction in `p` has a disjunction as a child.
pub open spec fn no_or_under_and(p: Prop) -> bool
    decreases p,
{
    match p {
        Prop::Not(x) => no_or_under_and(*x),
        Prop::And(cs) => forall|i: int| 0 <= i < cs.len() ==> no_or_under_and(#[trigger] cs[i]) && !(cs[i] is Or),
        Prop::Or(cs) => forall|i: int| 0 <= i < cs.len() ==> no_or_under_and(#[trigger] cs[i]),
        _ => true,
    }
}

proof fn lemma_elim_id(p: Prop)
    requires
        no_arrows(p),
    ensures
        elim(p) == p,
    decreases p,
{
    match p {
        Prop::Not(x) => lemma_elim_id(*x),
        Prop::And(cs) => {
            let ds = elim(p)->And_0;
            assert forall|i: int| 0 <= i < cs.len() implies #[trigger] ds[i] == cs[i] by {
                lemma_elim_id(cs[i]);
            }
            assert(ds =~= cs);
        },
        Prop::Or(cs) => {
            let ds = elim(p)->Or_0;
            assert forall|i: int| 0 <= i < cs.len() implies #[trigger] ds[i] == cs[i] by {
                lemma_elim_id(cs[i]);
            }
            assert(ds =~= cs);
        },
        _ => {},
    }
}

proof fn lemma_nnf_id(p: Prop)
    requires
        is_nnf(p),
    ensures
        nnf(p, true) == p,
    decreases p,
{
    match p {
        Prop::Not(x) => {
            assert(nnf(*x, false) == p);
        },
        Prop::And(cs) => {
            let ds = nnf(p, true)->And_0;
            assert forall|i: int| 0 <= i < cs.len() implies #[trigger] ds[i] == cs[i] by {
                lemma_nnf_id(cs[i]);
            }
            assert(ds =~= cs);
        },
        Prop::Or(cs) => {
            let ds = nnf(p, true)->Or_0;
            assert forall|i: int| 0 <= i < cs.len() implies #[trigger] ds[i] == cs[i] by {
                lemma_nnf_id(cs[i]);
            }
            assert(ds =~= cs);
        },
        _ => {},
    }
}

proof fn lemma_split_without_or(ds: Seq<Prop>)
    requires
        forall|i: int| 0 <= i < ds.len() ==> !(#[trigger] ds[i] is Or),
    ensures
        singles_of(ds) == ds,
        choices_of(ds).len() == 0,
    decreases ds.len(),
{
    if ds.len() > 0 {
        let init = ds.drop_last();
        assert forall|i: int| 0 <= i < init.len() implies !(#[trigger] init[i] is Or) by {
            assert(init[i] == ds[i]);
        }
        lemma_split_without_or(init);
        assert(!(ds[ds.len() - 1] is Or));
        assert(init.push(ds.last()) =~= ds);
    }
}

proof fn lemma_dist_id(p: Prop)
    requires
        no_or_under_and(p),
    ensures
        dist(p) == p,
    decreases p,
{
    match p {
        Prop::Not(x) => lemma_dist_id(*x),
        Prop::And(cs) => {
            let ds = dist_each(cs);
            assert forall|i: int| 0 <= i < cs.len() implies #[trigger] ds[i] == cs[i] by {
                lemma_dist_id(cs[i]);
            }
            assert(ds =~= cs);
            assert forall|i: int| 0 <= i < ds.len() implies !(#[trigger] ds[i] is Or) by {}
            lemma_split_without_or(ds);
        },
        Prop::Or(cs) => {
            let ds = dist_each(cs);
            assert forall|i: int| 0 <= i < cs.len() implies #[trigger] ds[i] == cs[i] by {
                lemma_dist_id(cs[i]);
            }
            assert(ds =~= cs);
        },
        _ => {},
    }
}

/// Normalizing a normal form again leaves it unchanged, where no
/// conjunction of the normal form has a disjunction as a child (such a
/// disjunction, picked into a clause, is distributed by the second round).
pub proof fn lemma_normalize_idempotent(p: Prop)
    requires
        no_or_under_and(normalize(p)),
    ensures
        normalize(normalize(p)) == normalize(p),
{
    let q = normalize(p);
    lemma_normalize_shape(p);
    lemma_elim_id(q);
    lemma_nnf_id(q);
    lemma_dist_id(q);
}

/// Product of the lengths of the lists of `ms`.
pub open spec fn product_of_lens(ms: Seq<Seq<Prop>>) -> nat
    decreases ms.len(),
{
    if ms.len() == 0 {
        1
    } else {
        product_of_lens(ms.drop_last()) * ms.last().len()
    }
}

proof fn lemma_extend_len(prev: Seq<Seq<Prop>>, opts: Seq<Prop>, n: nat)
    requires
        forall|i: int| 0 <= i < prev.len() ==> (#[trigger] prev[i]).len() == n,
    ensures
        extend(prev, opts).len() == prev.len() * opts.len(),
        forall|i: int| 0 <= i < extend(prev, opts).len() ==> (#[trigger] extend(prev, opts)[i]).len() == n + 1,
    decreases opts.len(),
{
    if opts.len() > 0 {
        let init = opts.drop_last();
        let x = opts.last();
        lemma_extend_len(prev, init, n);
        let a = extend(prev, init);
        let b = prev.map_values(|c: Seq<Prop>| c.push(x));
        let e = extend(prev, opts);
        assert(e == a + b);
        let pl = prev.len();
        let ol = opts.len();
        assert(pl * (ol - 1) + pl == pl * ol) by (nonlinear_arith);
        assert forall|i: int| 0 <= i < e.len() implies (#[trigger] e[i]).len() == n + 1 by {
            if i < a.len() {
                assert(e[i] == a[i]);
            } else {
                assert(e[i] == prev[i - a.len()].push(x));
            }
        }
    }
}

proof fn lemma_combos_len(base: Seq<Prop>, ms: Seq<Seq<Prop>>)
    ensures
        combos(base, ms).len() == product_of_lens(ms),
        forall|i: int| 0 <= i < combos(base, ms).len() ==> (#[trigger] combos(base, ms)[i]).len() == base.len()
            + ms.len(),
    decreases ms.len(),
{
    if ms.len() == 0 {
        assert(combos(base, ms)[0] == base);
    } else {
        let init = ms.drop_last();
        lemma_combos_len(base, init);
        lemma_extend_len(combos(base, init), ms.last(), base.len() + init.len());
    }
}

proof fn lemma_product_same_lens(ms: Seq<Seq<Prop>>, ns: Seq<Seq<Prop>>)
    requires
        ms.len() == ns.len(),
        forall|i: int| 0 <= i < ms.len() ==> (#[trigger] ms[i]).len() == ns[i].len(),
    ensures
        product_of_lens(ms) == product_of_lens(ns),
    decreases ms.len(),
{
    if ms.len() > 0 {
        let mi = ms.drop_last();
        let ni = ns.drop_last();
        assert forall|i: int| 0 <= i < mi.len() implies (#[trigger] mi[i]).len() == ni[i].len() by {
            assert(mi[i] == ms[i] && ni[i] == ns[i]);
        }
        lemma_product_same_lens(mi, ni);
        assert(ms[ms.len() - 1].len() == ns[ns.len() - 1].len());
    }
}

proof fn lemma_split_all_or(ds: Seq<Prop>)
    requires
        forall|i: int| 0 <= i < ds.len() ==> #[trigger] ds[i] is Or,
    ensures
        singles_of(ds).len() == 0,
        choices_of(ds) == Seq::new(ds.len(), |i: int| ds[i]->Or_0),
    decreases ds.len(),
{
    if ds.len() > 0 {
        let init = ds.drop_last();
        assert forall|i: int| 0 <= i < init.len() implies #[trigger] init[i] is Or by {
            assert(init[i] == ds[i]);
        }
        lemma_split_all_or(init);
        assert(ds[ds.len() - 1] is Or);
        assert(choices_of(ds) =~= Seq::new(ds.len(), |i: int| ds[i]->Or_0));
    }
}

/// Distributing a conjunction of k >= 1 disjunctions with n1, ..., nk
/// children yields the disjunction of n1 * ... * nk clauses, each a
/// conjunction of k formulas.
pub proof fn lemma_product_size(ors: Seq<Seq<Prop>>)
    requires
        ors.len() >= 1,
    ensures
        ({
            let d = dist(Prop::And(ors.map_values(|xs: Seq<Prop>| Prop::Or(xs))));
            &&& d is Or
            &&& d->Or_0.len() == product_of_lens(ors)
            &&& forall|k: int|
                0 <= k < d->Or_0.len() ==> (#[trigger] d->Or_0[k]) is And && d->Or_0[k]->And_0.len() == ors.len()
        }),
{
    let cs = ors.map_values(|xs: Seq<Prop>| Prop::Or(xs));
    let p = Prop::And(cs);
    let ds = dist_each(cs);
    assert forall|i: int| 0 <= i < ds.len() implies #[trigger] ds[i] is Or && ds[i]->Or_0.len() == ors[i].len() by {
        assert(cs[i] == Prop::Or(ors[i]));
        assert(dist(cs[i]) == Prop::Or(dist_each(ors[i])));
    }
    lemma_split_all_or(ds);
    let ms = choices_of(ds);
    assert forall|i: int| 0 <= i < ms.len() implies (#[trigger] ms[i]).len() == ors[i].len() by {
        assert(ms[i] == ds[i]->Or_0);
    }
    lemma_product_same_lens(ms, ors);
    lemma_combos_len(singles_of(ds), ms);
    let cb = combos(singles_of(ds), ms);
    let ors2 = cb.map_values(|c: Seq<Prop>| Prop::And(c));
    let d = dist(p);
    assert(d == Prop::Or(ors2));
    assert forall|k: int| 0 <= k < ors2.len() implies (#[trigger] ors2[k]) is And && ors2[k]->And_0.len()
        == ors.len() by {
        assert(ors2[k] == Prop::And(cb[k]));
    }
}

proof fn lemma_or_gives_choice(ds: Seq<Prop>, i: int)
    requires
        0 <= i < ds.len(),
        ds[i] is Or,
    ensures
        choices_of(ds).len() > 0,
    decreases ds.len(),
{
    if i < ds.len() - 1 {
        let init = ds.drop_last();
        assert(init[i] == ds[i]);
        lemma_or_gives_choice(init, i);
    }
}

proof fn lemma_dist_moves(p: Prop)
    requires
        !no_or_under_and(p),
    ensures
        dist(p) != p,
    decreases p,
{
    match p {
        Prop::Not(x) => {
            lemma_dist_moves(*x);
            assert(dist(p) == Prop::Not(Box::new(dist(*x))));
        },
        Prop::Or(cs) => {
            let i = choose|i: int| 0 <= i < cs.len() && !no_or_under_and(#[trigger] cs[i]);
            lemma_dist_moves(cs[i]);
            let ds = dist_each(cs);
            assert(ds[i] != cs[i]);
            assert(dist(p) == Prop::Or(ds));
        },
        Prop::And(cs) => {
            let ds = dist_each(cs);
            let i = choose|i: int| 0 <= i < cs.len() && !(no_or_under_and(#[trigger] cs[i]) && !(cs[i] is Or));
            if choices_of(ds).len() == 0 {
                assert(dist(p) == Prop::And(singles_of(ds)));
                assert forall|j: int| 0 <= j < ds.len() implies !(#[trigger] ds[j] is Or) by {
                    if ds[j] is Or {
                        lemma_or_gives_choice(ds, j);
                    }
                }
                lemma_split_without_or(ds);
                if no_or_under_and(cs[i]) {
                    lemma_dist_id(cs[i]);
                    assert(ds[i] is Or);
                } else {
                    lemma_dist_moves(cs[i]);
                    assert(ds[i] != cs[i]);
                }
            }
        },
        _ => {},
    }
}

/// Normalizing a normal form again leaves it unchanged exactly when no
/// conjunction of the normal form has a disjunction as a child.
pub proof fn lemma_normalize_idempotent_iff(p: Prop)
    ensures
        (normalize(normalize(p)) == normalize(p)) <==> no_or_under_and(normalize(p)),
{
    let q = normalize(p);
    lemma_normalize_shape(p);
    lemma_elim_id(q);
    lemma_nnf_id(q);
    if no_or_under_and(q) {
        lemma_dist_id(q);
    } else {
        lemma_dist_moves(q);
    }
}

} // verus!
