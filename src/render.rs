use vstd::prelude::*;
use vstd::string::StringExecFns;

use crate::prop::{Formula, Prop, models, lemma_model_nary};

verus! {

/// Text of `p`: an atom is its symbol, `Not(x)` is `~(x)`, implications and
/// biconditionals are infix, and the children of a conjunction (disjunction)
/// are joined by ` AND ` (` OR `) inside one pair of parentheses.
pub open spec fn render(p: Prop) -> Seq<char>
    decreases p, 1int,
{
    match p {
        Prop::Atom(c) => seq![c],
        Prop::Not(x) => "~("@ + render(*x) + ")"@,
        Prop::Implies(l, r) => render(*l) + " -> "@ + render(*r),
        Prop::Iff(l, r) => render(*l) + " <-> "@ + render(*r),
        Prop::And(cs) => "("@ + join(render_each(cs), " AND "@) + ")"@,
        Prop::Or(cs) => "("@ + join(render_each(cs), " OR "@) + ")"@,
    }
}

/// `render` of each element of `cs`.
pub open spec fn render_each(cs: Seq<Prop>) -> Seq<Seq<char>>
    decreases cs, 0int,
{
    Seq::new(cs.len(), |i: int| if 0 <= i < cs.len() { render(cs[i]) } else { arbitrary() })
}

/// The parts, in order, with `sep` between each two.
pub open spec fn join(parts: Seq<Seq<char>>, sep: Seq<char>) -> Seq<char>
    decreases parts.len(),
{
    if parts.len() == 0 {
        Seq::empty()
    } else if parts.len() == 1 {
        parts[0]
    } else {
        join(parts.drop_last(), sep) + sep + parts.last()
    }
}

/// Relies on `String::push`: appends the character at the end.
#[verifier::external_body]
fn push_char(s: &mut String, c: char)
    ensures
        final(s)@ == old(s)@.push(c),
{
    s.push(c)
}

/// Human-readable text of `f`.
pub fn print_formula(f: &Formula) -> (r: String)
    ensures
        r@ == render(f.model()),
    decreases f,
{
    match f {
        Formula::Atom(c) => {
            let mut s = String::new();
            push_char(&mut s, *c);
            assert(s@ =~= seq![*c]);
            s
        },
        Formula::Not(n) => {
            let mut s = String::new();
            s.append("~(");
            let inner = print_formula(n);
            s.append(inner.as_str());
            s.append(")");
            s
        },
        Formula::Implies { l, r } => {
            let mut s = print_formula(l);
            s.append(" -> ");
            let t = print_formula(r);
            s.append(t.as_str());
            s
        },
        Formula::Iff { l, r } => {
            let mut s = print_formula(l);
            s.append(" <-> ");
            let t = print_formula(r);
            s.append(t.as_str());
            s
        },
        Formula::And(v) => {
            proof {
                lemma_model_nary(*v);
            }
            let mut s = String::new();
            s.append("(");
            let body = print_joined(v, " AND ");
            s.append(body.as_str());
            s.append(")");
            s
        },
        Formula::Or(v) => {
            proof {
                lemma_model_nary(*v);
            }
            let mut s = String::new();
            s.append("(");
            let body = print_joined(v, " OR ");
            s.append(body.as_str());
            s.append(")");
            s
        },
    }
}

/// The texts of the formulas of `v` joined by `sep`.
pub fn print_joined(v: &Vec<Formula>, sep: &str) -> (r: String)
    ensures
        r@ == join(render_each(models(v@)), sep@),
    decreases v, 0int,
{
    let ghost parts = render_each(models(v@));
    let mut s = String::new();
    let mut i: usize = 0;
    while i < v.len()
        invariant
            i <= v.len(),
            parts == render_each(models(v@)),
            s@ == join(parts.take(i as int), sep@),
        decreases v.len() - i,
    {
        assert(decreases_to!(v => v[i as int]));
        if i > 0 {
            s.append(sep);
        }
        let t = print_formula(&v[i]);
        s.append(t.as_str());
        assert(parts.take(i + 1).drop_last() =~= parts.take(i as int));
        assert(parts[i as int] == t@);
        i = i + 1;
    }
    assert(parts.take(i as int) =~= parts);
    s
}

} // verus!
