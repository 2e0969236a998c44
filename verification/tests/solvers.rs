use satire::formula::{Clause, Cnf, Literal, Model, Variable};
use satire::solver::{CdclSolver, DpllSolver, Solver};

fn lit(number: i64) -> Literal {
    let index = (number.unsigned_abs() - 1) as usize;
    Literal::new(Variable::from_index(index).unwrap(), number > 0)
}

fn cnf(num_variables: usize, clauses: &[&[i64]]) -> Cnf {
    let mut formula = Cnf::new(num_variables);
    for clause in clauses {
        let literals: Vec<Literal> = clause.iter().map(|&number| lit(number)).collect();
        formula.add_clause(Clause::new(literals));
    }
    formula
}

fn satisfies(formula: &Cnf, model: &Model) -> bool {
    let assignment = model.assignment();
    assignment.len() == formula.num_variables()
        && formula
            .clauses()
            .iter()
            .all(|clause| clause.iter().iter().any(|literal| literal.value(assignment)))
}

fn dpll(num_variables: usize, clauses: &[&[i64]]) -> Option<Model> {
    DpllSolver::new(cnf(num_variables, clauses)).solve()
}

fn cdcl(num_variables: usize, clauses: &[&[i64]]) -> Option<Model> {
    CdclSolver::new(cnf(num_variables, clauses)).solve()
}

fn pigeonhole(pigeons: usize, holes: usize) -> (usize, Vec<Vec<i64>>) {
    let var = |pigeon: usize, hole: usize| (pigeon * holes + hole + 1) as i64;
    let mut clauses = Vec::new();
    for pigeon in 0..pigeons {
        clauses.push((0..holes).map(|hole| var(pigeon, hole)).collect());
    }
    for hole in 0..holes {
        for first in 0..pigeons {
            for second in first + 1..pigeons {
                clauses.push(vec![-var(first, hole), -var(second, hole)]);
            }
        }
    }
    (pigeons * holes, clauses)
}

/// Builds the clauses of small circuits, one fresh variable for each gate.
struct Circuit {
    num_variables: usize,
    clauses: Vec<Vec<i64>>,
}

impl Circuit {
    fn input(&mut self) -> i64 {
        self.num_variables += 1;
        self.num_variables as i64
    }

    fn and(&mut self, a: i64, b: i64) -> i64 {
        let out = self.input();
        self.clauses.push(vec![-out, a]);
        self.clauses.push(vec![-out, b]);
        self.clauses.push(vec![out, -a, -b]);
        out
    }

    fn or(&mut self, a: i64, b: i64) -> i64 {
        -self.and(-a, -b)
    }

    fn xor(&mut self, a: i64, b: i64) -> i64 {
        let out = self.input();
        self.clauses.push(vec![-out, a, b]);
        self.clauses.push(vec![-out, -a, -b]);
        self.clauses.push(vec![out, -a, b]);
        self.clauses.push(vec![out, a, -b]);
        out
    }
}

/// The claim that two ripple-carry adders of `bits` bits, built from
/// different gates, differ in some bit of their sums: it has no model.
fn adders_differ(bits: usize) -> (usize, Vec<Vec<i64>>) {
    let mut circuit = Circuit { num_variables: 0, clauses: Vec::new() };
    let mut differences = Vec::new();
    let mut carry = None;
    let mut other_carry = None;
    for _ in 0..bits {
        let a = circuit.input();
        let b = circuit.input();
        let half = circuit.xor(a, b);
        let both = circuit.and(a, b);
        let (sum, next_carry) = match carry {
            None => (half, both),
            Some(carry) => {
                let sum = circuit.xor(half, carry);
                let through = circuit.and(half, carry);
                (sum, circuit.or(both, through))
            },
        };
        let (other_sum, next_other_carry) = match other_carry {
            None => (circuit.xor(b, a), circuit.and(b, a)),
            Some(carry) => {
                let inner = circuit.xor(b, carry);
                let sum = circuit.xor(a, inner);
                let first = circuit.and(a, b);
                let second = circuit.and(a, carry);
                let third = circuit.and(b, carry);
                let any = circuit.or(first, second);
                (sum, circuit.or(any, third))
            },
        };
        differences.push(circuit.xor(sum, other_sum));
        carry = Some(next_carry);
        other_carry = Some(next_other_carry);
    }
    differences.push(circuit.xor(carry.unwrap(), other_carry.unwrap()));
    circuit.clauses.push(differences);
    (circuit.num_variables, circuit.clauses)
}

fn as_slices(clauses: &[Vec<i64>]) -> Vec<&[i64]> {
    clauses.iter().map(|clause| clause.as_slice()).collect()
}

#[test]
fn dpll_single_positive_unit_is_satisfied_by_true() {
    let model = dpll(1, &[&[1]]).unwrap();
    assert_eq!(model.assignment(), &[true]);
}

#[test]
fn cdcl_single_positive_unit_is_satisfied_by_true() {
    let model = cdcl(1, &[&[1]]).unwrap();
    assert_eq!(model.assignment(), &[true]);
}

#[test]
fn dpll_single_negative_unit_is_satisfied_by_false() {
    let model = dpll(1, &[&[-1]]).unwrap();
    assert_eq!(model.assignment(), &[false]);
}

#[test]
fn cdcl_single_negative_unit_is_satisfied_by_false() {
    let model = cdcl(1, &[&[-1]]).unwrap();
    assert_eq!(model.assignment(), &[false]);
}

#[test]
fn dpll_contradicting_units_are_unsatisfiable() {
    assert!(dpll(1, &[&[1], &[-1]]).is_none());
}

#[test]
fn cdcl_contradicting_units_are_unsatisfiable() {
    assert!(cdcl(1, &[&[1], &[-1]]).is_none());
}

#[test]
fn dpll_empty_formula_is_satisfied_by_all_true() {
    let model = dpll(4, &[]).unwrap();
    assert_eq!(model.assignment(), &[true, true, true, true]);
    assert_eq!(model.formula().num_variables(), 4);
}

#[test]
fn cdcl_empty_formula_is_satisfied_by_all_true() {
    let model = cdcl(4, &[]).unwrap();
    assert_eq!(model.assignment(), &[true, true, true, true]);
    assert_eq!(model.formula().num_variables(), 4);
}

#[test]
fn dpll_formula_without_variables_is_satisfiable() {
    assert!(dpll(0, &[]).is_some());
}

#[test]
fn cdcl_formula_without_variables_is_satisfiable() {
    assert!(cdcl(0, &[]).is_some());
}

#[test]
fn dpll_empty_clause_is_unsatisfiable() {
    assert!(dpll(2, &[&[1, 2], &[]]).is_none());
    assert!(dpll(0, &[&[]]).is_none());
}

#[test]
fn cdcl_empty_clause_is_unsatisfiable() {
    assert!(cdcl(2, &[&[1, 2], &[]]).is_none());
    assert!(cdcl(0, &[&[]]).is_none());
}

#[test]
fn dpll_three_variable_formula_has_a_model() {
    let clauses: &[&[i64]] = &[&[1, 2], &[-1, 3], &[-2, -3]];
    let model = dpll(3, clauses).unwrap();
    assert!(satisfies(&cnf(3, clauses), &model));
}

#[test]
fn cdcl_three_variable_formula_has_a_model() {
    let clauses: &[&[i64]] = &[&[1, 2], &[-1, 3], &[-2, -3]];
    let model = cdcl(3, clauses).unwrap();
    assert!(satisfies(&cnf(3, clauses), &model));
}

#[test]
fn dpll_unit_only_formula_is_solved() {
    let clauses: &[&[i64]] = &[&[1], &[-2], &[3], &[-4]];
    let model = dpll(4, clauses).unwrap();
    assert_eq!(model.assignment(), &[true, false, true, false]);
}

#[test]
fn cdcl_unit_only_formula_is_solved() {
    let clauses: &[&[i64]] = &[&[1], &[-2], &[3], &[-4]];
    let model = cdcl(4, clauses).unwrap();
    assert_eq!(model.assignment(), &[true, false, true, false]);
}

#[test]
fn dpll_chain_of_implications_is_solved() {
    let clauses: &[&[i64]] = &[&[1], &[-1, 2], &[-2, 3], &[-3, -4]];
    let model = dpll(4, clauses).unwrap();
    assert_eq!(model.assignment(), &[true, true, true, false]);
}

#[test]
fn cdcl_chain_of_implications_is_solved() {
    let clauses: &[&[i64]] = &[&[1], &[-1, 2], &[-2, 3], &[-3, -4]];
    let model = cdcl(4, clauses).unwrap();
    assert_eq!(model.assignment(), &[true, true, true, false]);
}

#[test]
fn dpll_two_pigeons_in_one_hole_are_unsatisfiable() {
    let (num_variables, clauses) = pigeonhole(2, 1);
    assert!(dpll(num_variables, &as_slices(&clauses)).is_none());
}

#[test]
fn cdcl_two_pigeons_in_one_hole_are_unsatisfiable() {
    let (num_variables, clauses) = pigeonhole(2, 1);
    assert!(cdcl(num_variables, &as_slices(&clauses)).is_none());
}

/// Two choices out of two pairs, where no choice of the first pair goes with
/// a choice of the second: four variables, six clauses.
const CROSSED_PAIRS: &[&[i64]] = &[&[1, 2], &[3, 4], &[-1, -3], &[-1, -4], &[-2, -3], &[-2, -4]];

#[test]
fn dpll_crossed_pairs_are_unsatisfiable() {
    assert!(dpll(4, CROSSED_PAIRS).is_none());
    assert!(dpll(4, &CROSSED_PAIRS[..5]).is_some());
}

#[test]
fn cdcl_crossed_pairs_are_unsatisfiable() {
    assert!(cdcl(4, CROSSED_PAIRS).is_none());
    assert!(cdcl(4, &CROSSED_PAIRS[..5]).is_some());
}

#[test]
fn dpll_three_pigeons_in_two_holes_are_unsatisfiable() {
    let (num_variables, clauses) = pigeonhole(3, 2);
    assert_eq!(num_variables, 6);
    assert_eq!(clauses.len(), 9);
    assert!(dpll(num_variables, &as_slices(&clauses)).is_none());
}

#[test]
fn cdcl_three_pigeons_in_two_holes_are_unsatisfiable() {
    let (num_variables, clauses) = pigeonhole(3, 2);
    assert!(cdcl(num_variables, &as_slices(&clauses)).is_none());
}

#[test]
fn dpll_five_pigeons_in_four_holes_are_unsatisfiable() {
    let (num_variables, clauses) = pigeonhole(5, 4);
    assert!(dpll(num_variables, &as_slices(&clauses)).is_none());
}

#[test]
fn cdcl_five_pigeons_in_four_holes_are_unsatisfiable() {
    let (num_variables, clauses) = pigeonhole(5, 4);
    assert!(cdcl(num_variables, &as_slices(&clauses)).is_none());
}

#[test]
fn dpll_adders_of_eight_bits_agree() {
    let (num_variables, clauses) = adders_differ(8);
    assert!(dpll(num_variables, &as_slices(&clauses)).is_none());
}

#[test]
fn cdcl_adders_of_eight_bits_agree() {
    let (num_variables, clauses) = adders_differ(8);
    assert!(cdcl(num_variables, &as_slices(&clauses)).is_none());
}

#[test]
fn adders_with_a_broken_gate_differ() {
    let (num_variables, mut clauses) = adders_differ(4);
    // Without the clause that makes the first carry follow its inputs the
    // two sums can differ.
    clauses.remove(6);
    let formula = cnf(num_variables, &as_slices(&clauses));
    let model = dpll(num_variables, &as_slices(&clauses)).unwrap();
    assert!(satisfies(&formula, &model));
    let model = cdcl(num_variables, &as_slices(&clauses)).unwrap();
    assert!(satisfies(&formula, &model));
}

#[test]
fn pigeons_that_fit_are_placed() {
    let (num_variables, clauses) = pigeonhole(4, 4);
    let formula = cnf(num_variables, &as_slices(&clauses));
    let model = dpll(num_variables, &as_slices(&clauses)).unwrap();
    assert!(satisfies(&formula, &model));
    let model = cdcl(num_variables, &as_slices(&clauses)).unwrap();
    assert!(satisfies(&formula, &model));
}

#[test]
fn repeated_literals_and_tautologies_are_allowed() {
    let clauses: &[&[i64]] = &[&[1, 1], &[2, -2], &[-1, -1, 2]];
    let formula = cnf(2, clauses);
    let model = dpll(2, clauses).unwrap();
    assert!(satisfies(&formula, &model));
    let model = cdcl(2, clauses).unwrap();
    assert!(satisfies(&formula, &model));
    assert!(dpll(1, &[&[1, 1], &[-1, -1]]).is_none());
    assert!(cdcl(1, &[&[1, 1], &[-1, -1]]).is_none());
}

#[test]
fn engines_agree_on_random_three_clause_formulas() {
    let mut state: u64 = 0x2545_f491_4f6c_dd1d;
    let mut next = move |bound: u64| {
        state ^= state << 13;
        state ^= state >> 7;
        state ^= state << 17;
        state % bound
    };
    for round in 0..300 {
        let num_variables = 3 + (round % 8) as usize;
        let num_clauses = 2 + next(5 * num_variables as u64) as usize;
        let mut clauses: Vec<Vec<i64>> = Vec::new();
        for _ in 0..num_clauses {
            let mut clause = Vec::new();
            for _ in 0..3 {
                let variable = 1 + next(num_variables as u64) as i64;
                clause.push(if next(2) == 0 { variable } else { -variable });
            }
            clauses.push(clause);
        }
        let formula = cnf(num_variables, &as_slices(&clauses));
        let by_dpll = dpll(num_variables, &as_slices(&clauses));
        let by_cdcl = cdcl(num_variables, &as_slices(&clauses));
        assert_eq!(by_dpll.is_some(), by_cdcl.is_some());
        if let Some(model) = by_dpll {
            assert!(satisfies(&formula, &model));
        }
        if let Some(model) = by_cdcl {
            assert!(satisfies(&formula, &model));
            assert!(Model::try_new(cnf(num_variables, &as_slices(&clauses)), model.assignment().to_vec()).is_some());
        }
    }
}

#[test]
fn engines_agree_with_exhaustive_search() {
    let mut state: u64 = 0x9e37_79b9_7f4a_7c15;
    let mut next = move |bound: u64| {
        state ^= state << 13;
        state ^= state >> 7;
        state ^= state << 17;
        state % bound
    };
    for _ in 0..200 {
        let num_variables = 1 + next(5) as usize;
        let num_clauses = next(12) as usize;
        let mut clauses: Vec<Vec<i64>> = Vec::new();
        for _ in 0..num_clauses {
            let width = next(4) as usize;
            let mut clause = Vec::new();
            for _ in 0..width {
                let variable = 1 + next(num_variables as u64) as i64;
                clause.push(if next(2) == 0 { variable } else { -variable });
            }
            clauses.push(clause);
        }
        let mut satisfiable = false;
        for bits in 0u32..(1 << num_variables) {
            let holds = clauses.iter().all(|clause| {
                clause.iter().any(|&number| {
                    let value = bits >> (number.unsigned_abs() - 1) & 1 == 1;
                    value == (number > 0)
                })
            });
            satisfiable = satisfiable || holds;
        }
        assert_eq!(dpll(num_variables, &as_slices(&clauses)).is_some(), satisfiable);
        assert_eq!(cdcl(num_variables, &as_slices(&clauses)).is_some(), satisfiable);
    }
}
