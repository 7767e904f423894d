use vstd::prelude::*;

verus! {

/// Mathematical model of a propositional formula.
pub enum Prop {
    Atom(char),
    Not(Box<Prop>),
    Implies(Box<Prop>, Box<Prop>),
    Iff(Box<Prop>, Box<Prop>),
    And(Seq<Prop>),
    Or(Seq<Prop>),
}

impl Prop {
    /// An atom or the negation of an atom.
    pub open spec fn is_literal(self) -> bool {
        match self {
            Prop::Atom(_) => true,
            Prop::Not(x) => *x is Atom,
            _ => false,
        }
    }
}

/// Truth value of `p` when each atom `c` has the value `env(c)`.
/// An empty conjunction is true and an empty disjunction is false.
pub open spec fn eval(p: Prop, env: spec_fn(char) -> bool) -> bool
    decreases p,
{
    match p {
        Prop::Atom(c) => env(c),
        Prop::Not(x) => !eval(*x, env),
        Prop::Implies(l, r) => !eval(*l, env) || eval(*r, env),
        Prop::Iff(l, r) => eval(*l, env) == eval(*r, env),
        Prop::And(cs) => forall|i: int| 0 <= i < cs.len() ==> eval(#[trigger] cs[i], env),
        Prop::Or(cs) => exists|i: int| 0 <= i < cs.len() && eval(#[trigger] cs[i], env),
    }
}

/// Number of nodes of `p`, where each child of a conjunction or disjunction
/// counts one more.
pub open spec fn size(p: Prop) -> nat
    decreases p, 1int,
{
    match p {
        Prop::Atom(_) => 1,
        Prop::Not(x) => 1 + size(*x),
        Prop::Implies(l, r) => 1 + size(*l) + size(*r),
        Prop::Iff(l, r) => 1 + size(*l) + size(*r),
        Prop::And(cs) => 1 + size_all(cs),
        Prop::Or(cs) => 1 + size_all(cs),
    }
}

pub open spec fn size_all(s: Seq<Prop>) -> nat
    decreases s, 0int,
{
    if s.len() == 0 {
        0
    } else {
        size_all(s.subrange(0, s.len() - 1)) + size(s[s.len() - 1]) + 1
    }
}

pub proof fn lemma_size_child(s: Seq<Prop>, i: int)
    requires
        0 <= i < s.len(),
    ensures
        size(s[i]) + 1 <= size_all(s),
    decreases s.len(),
{
    let init = s.subrange(0, s.len() - 1);
    if i < s.len() - 1 {
        lemma_size_child(init, i);
        assert(init[i] == s[i]);
    }
}

/// Executable formula tree; each node owns its children.
pub enum Formula {
    Atom(char),
    Not(Box<Formula>),
    Implies { l: Box<Formula>, r: Box<Formula> },
    Iff { l: Box<Formula>, r: Box<Formula> },
    And(Vec<Formula>),
    Or(Vec<Formula>),
}

/// Models of a sequence of formulas, one for one.
pub open spec fn models(s: Seq<Formula>) -> Seq<Prop> {
    s.map_values(|x: Formula| x.model())
}

impl Formula {
    pub open spec fn model(self) -> Prop
        decreases self,
    {
        match self {
            Formula::Atom(c) => Prop::Atom(c),
            Formula::Not(x) => Prop::Not(Box::new(x.model())),
            Formula::Implies { l, r } => Prop::Implies(Box::new(l.model()), Box::new(r.model())),
            Formula::Iff { l, r } => Prop::Iff(Box::new(l.model()), Box::new(r.model())),
            Formula::And(v) => Prop::And(
                Seq::new(v@.len(), |i: int| if 0 <= i < v@.len() { v@[i].model() } else { arbitrary() }),
            ),
            Formula::Or(v) => Prop::Or(
                Seq::new(v@.len(), |i: int| if 0 <= i < v@.len() { v@[i].model() } else { arbitrary() }),
            ),
        }
    }

    /// An independent deep copy of the tree.
    pub fn duplicate(&self) -> (r: Formula)
        ensures
            r.model() == self.model(),
        decreases self, 1int,
    {
        match self {
            Formula::Atom(c) => Formula::Atom(*c),
            Formula::Not(x) => Formula::Not(Box::new(x.duplicate())),
            Formula::Implies { l, r } => Formula::Implies {
                l: Box::new(l.duplicate()),
                r: Box::new(r.duplicate()),
            },
            Formula::Iff { l, r } => Formula::Iff { l: Box::new(l.duplicate()), r: Box::new(r.duplicate()) },
            Formula::And(v) => {
                let w = duplicate_all(v);
                proof {
                    lemma_model_nary(*v);
                    lemma_model_nary(w);
                }
                Formula::And(w)
            },
            Formula::Or(v) => {
                let w = duplicate_all(v);
                proof {
                    lemma_model_nary(*v);
                    lemma_model_nary(w);
                }
                Formula::Or(w)
            },
        }
    }
}

/// The model of a conjunction or disjunction node holds the models of its
/// children.
pub proof fn lemma_model_nary(v: Vec<Formula>)
    ensures
        Formula::And(v).model() == Prop::And(models(v@)),
        Formula::Or(v).model() == Prop::Or(models(v@)),
{
    assert(Formula::And(v).model()->And_0 =~= models(v@));
    assert(Formula::Or(v).model()->Or_0 =~= models(v@));
}

/// Deep copies of each formula of `v`, in order.
pub fn duplicate_all(v: &Vec<Formula>) -> (r: Vec<Formula>)
    ensures
        models(r@) == models(v@),
    decreases v, 0int,
{
    let mut r: Vec<Formula> = Vec::new();
    let mut i: usize = 0;
    while i < v.len()
        invariant
            i <= v.len(),
            models(r@) =~= models(v@.subrange(0, i as int)),
        decreases v.len() - i,
    {
        assert(decreases_to!(v => v[i as int]));
        let x = v[i].duplicate();
        let ghost r0 = r@;
        r.push(x);
        i = i + 1;
        assert(models(r@) =~= models(r0).push(x.model()));
        assert(v@.subrange(0, i as int) =~= v@.subrange(0, i - 1).push(v@[i - 1]));
        assert(models(r@) =~= models(v@.subrange(0, i as int)));
    }
    assert(v@.subrange(0, i as int) =~= v@);
    r
}

} // verus!
