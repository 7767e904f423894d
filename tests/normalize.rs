use cnf_logic::normal::{simplify, simplify1, simplify2, simplify3};
use cnf_logic::prop::Formula;
use cnf_logic::render::print_formula;

fn atom(c: char) -> Formula {
    Formula::Atom(c)
}

fn not(f: Formula) -> Formula {
    Formula::Not(Box::new(f))
}

fn implies(l: Formula, r: Formula) -> Formula {
    Formula::Implies { l: Box::new(l), r: Box::new(r) }
}

fn iff(l: Formula, r: Formula) -> Formula {
    Formula::Iff { l: Box::new(l), r: Box::new(r) }
}

fn eval(f: &Formula, env: &dyn Fn(char) -> bool) -> bool {
    match f {
        Formula::Atom(c) => env(*c),
        Formula::Not(x) => !eval(x, env),
        Formula::Implies { l, r } => !eval(l, env) || eval(r, env),
        Formula::Iff { l, r } => eval(l, env) == eval(r, env),
        Formula::And(v) => v.iter().all(|x| eval(x, env)),
        Formula::Or(v) => v.iter().any(|x| eval(x, env)),
    }
}

/// Whether `a` and `b` agree under every assignment to the atoms `A`..`E`,
/// `P`, `Q`, `R`.
fn equivalent(a: &Formula, b: &Formula) -> bool {
    let atoms = ['A', 'B', 'C', 'D', 'E', 'P', 'Q', 'R'];
    for bits in 0u32..(1 << atoms.len()) {
        let env = |c: char| {
            let k = atoms.iter().position(|&x| x == c).unwrap();
            bits & (1 << k) != 0
        };
        if eval(a, &env) != eval(b, &env) {
            return false;
        }
    }
    true
}

fn has_arrows(f: &Formula) -> bool {
    match f {
        Formula::Atom(_) => false,
        Formula::Not(x) => has_arrows(x),
        Formula::Implies { .. } | Formula::Iff { .. } => true,
        Formula::And(v) | Formula::Or(v) => v.iter().any(has_arrows),
    }
}

fn negation_at_atoms(f: &Formula) -> bool {
    match f {
        Formula::Atom(_) => true,
        Formula::Not(x) => matches!(**x, Formula::Atom(_)),
        Formula::Implies { .. } | Formula::Iff { .. } => false,
        Formula::And(v) | Formula::Or(v) => v.iter().all(negation_at_atoms),
    }
}

#[test]
fn double_negation_renders_atom() {
    let r = simplify(not(not(atom('A'))));
    assert_eq!(print_formula(&r), "A");
}

#[test]
fn triple_negation_keeps_one() {
    let r = simplify(not(not(not(atom('A')))));
    assert_eq!(print_formula(&r), "~(A)");
}

#[test]
fn implication_elimination() {
    let f = implies(atom('P'), atom('Q'));
    let r = simplify(f);
    assert_eq!(print_formula(&r), "(~(P) OR Q)");
    assert!(equivalent(&r, &Formula::Or(vec![not(atom('P')), atom('Q')])));
}

#[test]
fn de_morgan_over_conjunction() {
    let r = simplify(not(Formula::And(vec![atom('P'), atom('Q')])));
    assert_eq!(print_formula(&r), "(~(P) OR ~(Q))");
    assert!(equivalent(&r, &Formula::Or(vec![not(atom('P')), not(atom('Q'))])));
}

#[test]
fn de_morgan_over_disjunction() {
    let r = simplify(not(Formula::Or(vec![atom('P'), not(atom('Q'))])));
    assert_eq!(print_formula(&r), "(~(P) AND Q)");
}

#[test]
fn distribution_end_to_end() {
    let f = implies(Formula::And(vec![atom('P'), not(atom('Q'))]), atom('R'));
    let r = simplify(f);
    assert_eq!(print_formula(&r), "((~(P) OR Q) OR R)");
    let expected = Formula::Or(vec![not(atom('P')), atom('Q'), atom('R')]);
    assert!(equivalent(&r, &expected));
}

#[test]
fn first_two_passes_of_implication() {
    let f = implies(Formula::And(vec![atom('P'), not(atom('Q'))]), atom('R'));
    let r = simplify2(simplify1(f));
    assert_eq!(print_formula(&r), "((~(P) OR Q) OR R)");
}

#[test]
fn biconditional_case() {
    let f = iff(Formula::Or(vec![atom('P'), atom('Q')]), atom('R'));
    let original = iff(Formula::Or(vec![atom('P'), atom('Q')]), atom('R'));
    let r = simplify(f);
    match &r {
        Formula::Or(clauses) => assert_eq!(clauses.len(), 4),
        _ => panic!("expected a disjunction of clauses"),
    }
    assert_eq!(
        print_formula(&r),
        "(((~(P) AND ~(Q)) AND ~(R)) OR (R AND ~(R)) OR ((~(P) AND ~(Q)) AND (P OR Q)) OR (R AND (P OR Q)))"
    );
    assert!(equivalent(&r, &original));
    // (~P v ~Q v R) is not implied, but (~P ^ ~Q) v R and ~R v P v Q together are.
    let hand = Formula::And(vec![
        Formula::Or(vec![Formula::And(vec![not(atom('P')), not(atom('Q'))]), atom('R')]),
        Formula::Or(vec![not(atom('R')), atom('P'), atom('Q')]),
    ]);
    assert!(equivalent(&r, &hand));
}

#[test]
fn biconditional_first_pass() {
    let f = iff(atom('P'), atom('Q'));
    let r = simplify1(f);
    assert_eq!(print_formula(&r), "((~(P) OR Q) AND (~(Q) OR P))");
}

#[test]
fn cartesian_product_size() {
    let f = Formula::And(vec![
        Formula::Or(vec![atom('A'), atom('B')]),
        Formula::Or(vec![atom('C'), atom('D'), atom('E')]),
    ]);
    let (r, distributed) = simplify3(f);
    assert!(distributed);
    match &r {
        Formula::Or(clauses) => {
            assert_eq!(clauses.len(), 6);
            for c in clauses {
                match c {
                    Formula::And(v) => assert_eq!(v.len(), 2),
                    _ => panic!("expected a conjunction"),
                }
            }
        }
        _ => panic!("expected a disjunction"),
    }
    assert_eq!(
        print_formula(&r),
        "((A AND C) OR (B AND C) OR (A AND D) OR (B AND D) OR (A AND E) OR (B AND E))"
    );
}

#[test]
fn product_with_singles_keeps_them_first() {
    let f = Formula::And(vec![
        Formula::Or(vec![atom('A'), atom('B')]),
        atom('P'),
        Formula::Or(vec![atom('C'), atom('D')]),
    ]);
    let (r, distributed) = simplify3(f);
    assert!(distributed);
    assert_eq!(
        print_formula(&r),
        "((P AND A AND C) OR (P AND B AND C) OR (P AND A AND D) OR (P AND B AND D))"
    );
}

#[test]
fn no_distribution_flag() {
    let (r, distributed) = simplify3(Formula::Or(vec![atom('A'), Formula::And(vec![atom('B'), atom('C')])]));
    assert!(!distributed);
    assert_eq!(print_formula(&r), "(A OR (B AND C))");
}

#[test]
fn empty_conjunction_and_disjunction() {
    let a = simplify(Formula::And(vec![]));
    assert!(matches!(&a, Formula::And(v) if v.is_empty()));
    assert_eq!(print_formula(&a), "()");
    let o = simplify(Formula::Or(vec![]));
    assert!(matches!(&o, Formula::Or(v) if v.is_empty()));
}

#[test]
fn empty_disjunction_under_conjunction() {
    let r = simplify(Formula::And(vec![atom('A'), Formula::Or(vec![])]));
    assert!(matches!(&r, Formula::Or(v) if v.is_empty()));
    assert!(equivalent(&r, &Formula::Or(vec![])));
}

#[test]
fn single_child_nodes() {
    let r = simplify(Formula::And(vec![Formula::Or(vec![atom('A')])]));
    assert_eq!(print_formula(&r), "((A))");
    let r = simplify(Formula::Or(vec![not(atom('A'))]));
    assert_eq!(print_formula(&r), "(~(A))");
}

#[test]
fn idempotent_on_flat_input() {
    let f = implies(Formula::And(vec![atom('P'), not(atom('Q'))]), atom('R'));
    let once = simplify(f);
    let text = print_formula(&once);
    let twice = simplify(once.duplicate());
    assert_eq!(print_formula(&twice), text);
    let g = Formula::And(vec![Formula::Or(vec![atom('A'), atom('B')]), Formula::Or(vec![atom('C'), not(atom('D'))])]);
    let once = simplify(g);
    let text = print_formula(&once);
    let twice = simplify(once.duplicate());
    assert_eq!(print_formula(&twice), text);
}

#[test]
fn second_round_distributes_a_disjunction_picked_into_a_clause() {
    let f = iff(Formula::Or(vec![atom('P'), atom('Q')]), atom('R'));
    let once = simplify(f);
    let twice = simplify(once.duplicate());
    assert_eq!(
        print_formula(&twice),
        "(((~(P) AND ~(Q)) AND ~(R)) OR (R AND ~(R)) OR (((~(P) AND ~(Q)) AND P) OR ((~(P) AND ~(Q)) AND Q)) OR ((R AND P) OR (R AND Q)))"
    );
    assert!(equivalent(&once, &twice));
}

#[test]
fn shape_after_normalization() {
    let f = iff(implies(atom('A'), not(atom('B'))), Formula::And(vec![atom('C'), not(not(atom('D')))]));
    let r = simplify(f);
    assert!(!has_arrows(&r));
    assert!(negation_at_atoms(&r));
}

#[test]
fn rendering_of_each_node() {
    assert_eq!(print_formula(&atom('x')), "x");
    assert_eq!(print_formula(&not(atom('P'))), "~(P)");
    assert_eq!(print_formula(&implies(atom('P'), atom('Q'))), "P -> Q");
    assert_eq!(print_formula(&iff(atom('P'), atom('Q'))), "P <-> Q");
    assert_eq!(print_formula(&Formula::And(vec![atom('P'), atom('Q'), atom('R')])), "(P AND Q AND R)");
    assert_eq!(print_formula(&Formula::Or(vec![atom('P'), atom('Q')])), "(P OR Q)");
}

#[test]
fn duplicate_is_equal_and_independent() {
    let f = iff(Formula::Or(vec![atom('P'), atom('Q')]), not(atom('R')));
    let g = f.duplicate();
    assert_eq!(print_formula(&f), print_formula(&g));
    let h = simplify(f);
    assert_eq!(print_formula(&g), "(P OR Q) <-> ~(R)");
    assert!(equivalent(&g, &h));
}

struct Lcg(u64);

impl Lcg {
    fn next(&mut self, n: u64) -> u64 {
        self.0 = self.0.wrapping_mul(6364136223846793005).wrapping_add(1442695040888963407);
        (self.0 >> 33) % n
    }
}

fn random_formula(g: &mut Lcg, depth: u32) -> Formula {
    let atoms = ['A', 'B', 'C'];
    let kind = if depth == 0 { 0 } else { g.next(6) };
    match kind {
        0 => atom(atoms[g.next(3) as usize]),
        1 => not(random_formula(g, depth - 1)),
        2 => implies(random_formula(g, depth - 1), random_formula(g, depth - 1)),
        3 => iff(random_formula(g, depth - 1), random_formula(g, depth - 1)),
        4 => {
            let n = g.next(4);
            Formula::And((0..n).map(|_| random_formula(g, depth - 1)).collect())
        }
        _ => {
            let n = g.next(4);
            Formula::Or((0..n).map(|_| random_formula(g, depth - 1)).collect())
        }
    }
}

#[test]
fn semantic_equivalence_oracle() {
    let mut g = Lcg(2024);
    for _ in 0..300 {
        let f = random_formula(&mut g, 4);
        let r = simplify(f.duplicate());
        assert!(!has_arrows(&r));
        assert!(negation_at_atoms(&r));
        assert!(equivalent(&f, &r), "{} normalizes to {}", print_formula(&f), print_formula(&r));
    }
}
