//! Formulas in conjunctive normal form: variables, literals, clauses,
//! formulas and models, with the meaning of each under an assignment.

use crate::text::{number_of, parse_number};
use vstd::prelude::*;
use vstd::string::StringSliceAdditionalSpecFns;

verus! {


/// Why a text is not a variable.
#[derive(Debug, Clone, Copy, PartialEq, Eq, Structural)]
pub enum VariableParseError {
    /// The text is not a number, or the number does not fit.
    ParseIntError,
    /// The number is zero, or the index `num` that it stands for is larger
    /// than `Variable::MAX_VARIABLE_INDEX`.
    RangeError { num: usize },
}

/// The variable that a text names: the text is a number that counts the
/// variables from one.
pub open spec fn variable_of(text: Seq<u8>) -> Result<Variable, VariableParseError> {
    match number_of(text) {
        Some(num) => if num > usize::MAX {
            Err(VariableParseError::ParseIntError)
        } else if num == 0 {
            Err(VariableParseError::RangeError { num: 0 })
        } else if num - 1 > Variable::MAX_VARIABLE_INDEX {
            Err(VariableParseError::RangeError { num: (num - 1) as usize })
        } else {
            Ok(Variable((num - 1) as u32))
        },
        None => Err(VariableParseError::ParseIntError),
    }
}

/// The literal that a text names: a variable, negated where a `-` stands
/// before it.
pub open spec fn literal_of(text: Seq<u8>) -> Result<Literal, VariableParseError> {
    if text.len() > 0 && text[0] == 45 {
        match variable_of(text.skip(1)) {
            Ok(variable) => Ok(Literal { variable, positive: false }),
            Err(error) => Err(error),
        }
    } else {
        match variable_of(text) {
            Ok(variable) => Ok(Literal { variable, positive: true }),
            Err(error) => Err(error),
        }
    }
}

/// A Boolean variable, identified by its zero-based index.
///
/// Text forms count from one: the variable with index `0` is written `1`.
#[derive(Debug, Clone, Copy, PartialEq, Eq, Structural)]
pub struct Variable(pub u32);

impl Variable {
    /// The largest zero-based index that a variable can have.
    pub const MAX_VARIABLE_INDEX: usize = 4294967295;

    /// Reads the variable that the bytes from `from` up to `to` name.
    pub fn from_bytes(bytes: &[u8], from: usize, to: usize) -> (variable: Result<
        Variable,
        VariableParseError,
    >)
        requires
            from <= to <= bytes@.len(),
        ensures
            variable == variable_of(bytes@.subrange(from as int, to as int)),
    {
        let num = match parse_number(bytes, from, to) {
            Some(num) => num,
            None => {
                return Err(VariableParseError::ParseIntError);
            },
        };
        if num == 0 {
            return Err(VariableParseError::RangeError { num });
        }
        let index = num - 1;
        match Variable::from_index(index) {
            Some(variable) => Ok(variable),
            None => Err(VariableParseError::RangeError { num: index }),
        }
    }

    /// Reads the variable that a text names.
    pub fn from_str(s: &str) -> (variable: Result<Variable, VariableParseError>)
        ensures
            variable == variable_of(s.spec_bytes()),
    {
        let bytes = s.as_bytes();
        proof {
            assert(bytes@.subrange(0, bytes@.len() as int) =~= bytes@);
        }
        Variable::from_bytes(bytes, 0, bytes.len())
    }

    /// The zero-based index of the variable.
    pub fn index(self) -> (index: usize)
        ensures
            index == self.0,
    {
        self.0 as usize
    }

    /// The variable with the given index, or `None` when the index is larger
    /// than `Variable::MAX_VARIABLE_INDEX`.
    pub fn from_index(index: usize) -> (variable: Option<Variable>)
        ensures
            index <= Variable::MAX_VARIABLE_INDEX ==> variable == Some(Variable(index as u32)),
            index > Variable::MAX_VARIABLE_INDEX ==> variable.is_none(),
    {
        if index > Variable::MAX_VARIABLE_INDEX {
            return None;
        }
        Some(Variable(index as u32))
    }
}

/// A variable together with a polarity.
#[derive(Debug, Clone, Copy, PartialEq, Eq, Structural)]
pub struct Literal {
    pub variable: Variable,
    pub positive: bool,
}

impl Literal {
    /// The index of the literal's variable.
    pub open spec fn var(self) -> int {
        self.variable.0 as int
    }

    /// Whether the literal is true under a total assignment.
    pub open spec fn holds(self, assignment: Seq<bool>) -> bool {
        assignment[self.var()] == self.positive
    }

    /// The value of the literal under a partial assignment, `None` while its
    /// variable is unassigned.
    pub open spec fn value_under(self, assignment: Seq<Option<bool>>) -> Option<bool> {
        match assignment[self.var()] {
            Some(value) => Some(value == self.positive),
            None => None,
        }
    }

    /// The literal of the same variable and the opposite polarity.
    pub open spec fn negation(self) -> Literal {
        Literal { variable: self.variable, positive: !self.positive }
    }

    pub fn new(variable: Variable, positive: bool) -> (literal: Literal)
        ensures
            literal == (Literal { variable, positive }),
    {
        Literal { variable, positive }
    }

    /// Reads the literal that the bytes from `from` up to `to` name.
    pub fn from_bytes(bytes: &[u8], from: usize, to: usize) -> (literal: Result<
        Literal,
        VariableParseError,
    >)
        requires
            from <= to <= bytes@.len(),
        ensures
            literal == literal_of(bytes@.subrange(from as int, to as int)),
    {
        let ghost text = bytes@.subrange(from as int, to as int);
        if from < to && bytes[from] == 45 {
            proof {
                assert(text.skip(1) =~= bytes@.subrange(from + 1, to as int));
            }
            match Variable::from_bytes(bytes, from + 1, to) {
                Ok(variable) => Ok(Literal { variable, positive: false }),
                Err(error) => Err(error),
            }
        } else {
            match Variable::from_bytes(bytes, from, to) {
                Ok(variable) => Ok(Literal { variable, positive: true }),
                Err(error) => Err(error),
            }
        }
    }

    /// Reads the literal that a text names.
    pub fn from_str(s: &str) -> (literal: Result<Literal, VariableParseError>)
        ensures
            literal == literal_of(s.spec_bytes()),
    {
        let bytes = s.as_bytes();
        proof {
            assert(bytes@.subrange(0, bytes@.len() as int) =~= bytes@);
        }
        Literal::from_bytes(bytes, 0, bytes.len())
    }

    pub fn variable(self) -> (variable: Variable)
        ensures
            variable == self.variable,
    {
        self.variable
    }

    pub fn index(self) -> (index: usize)
        ensures
            index == self.var(),
    {
        self.variable.index()
    }

    pub fn positive(self) -> (positive: bool)
        ensures
            positive == self.positive,
    {
        self.positive
    }

    /// Evaluates the literal under a total assignment.
    pub fn value(self, assignments: &[bool]) -> (value: bool)
        requires
            self.var() < assignments@.len(),
        ensures
            value == self.holds(assignments@),
    {
        if self.positive {
            assignments[self.index()]
        } else {
            !assignments[self.index()]
        }
    }

    /// Evaluates the literal under a partial assignment.
    pub fn partial_value(self, assignments: &[Option<bool>]) -> (value: Option<bool>)
        requires
            self.var() < assignments@.len(),
        ensures
            value == self.value_under(assignments@),
    {
        match assignments[self.index()] {
            Some(val) => Some(
                if self.positive {
                    val
                } else {
                    !val
                },
            ),
            None => None,
        }
    }

}

impl std::ops::Not for Literal {
    type Output = Literal;

    /// The negated literal.
    fn not(self) -> (literal: Literal) {
        Literal { variable: self.variable, positive: !self.positive }
    }
}

impl vstd::std_specs::ops::NotSpecImpl for Literal {
    open spec fn obeys_not_spec() -> bool {
        true
    }

    open spec fn not_req(self) -> bool {
        true
    }

    open spec fn not_spec(self) -> Literal {
        self.negation()
    }
}

/// Negating twice gives the literal back, and a literal and its negation
/// never agree under an assignment.
pub proof fn lemma_negation(literal: Literal)
    ensures
        literal.negation().negation() == literal,
        literal.negation().var() == literal.var(),
        forall|a: Seq<bool>| literal.negation().holds(a) == !literal.holds(a),
        forall|a: Seq<Option<bool>>|
            #![trigger literal.negation().value_under(a)]
            literal.negation().value_under(a) == match literal.value_under(a) {
                Some(value) => Some(!value),
                None => None,
            },
{
}

/// A disjunction of literals. Repeated literals and literals of both
/// polarities are allowed; the clause without literals is false.
#[derive(Debug)]
pub struct Clause {
    pub literals: Vec<Literal>,
}

impl Clone for Clause {
    fn clone(&self) -> (clause: Clause)
        ensures
            clause@ == self@,
    {
        Clause { literals: self.iter() }
    }
}

impl View for Clause {
    type V = Seq<Literal>;

    open spec fn view(&self) -> Seq<Literal> {
        self.literals@
    }
}

impl Clause {
    pub fn new(literals: Vec<Literal>) -> (clause: Clause)
        ensures
            clause@ == literals@,
    {
        Clause { literals }
    }

    pub fn num_literals(&self) -> (n: usize)
        ensures
            n == self@.len(),
    {
        self.literals.len()
    }

    /// The literal at a position of the clause.
    pub fn literal(&self, position: usize) -> (literal: Literal)
        requires
            position < self@.len(),
        ensures
            literal == self@[position as int],
    {
        self.literals[position]
    }

    /// The literals of the clause, in order.
    pub fn iter(&self) -> (literals: Vec<Literal>)
        ensures
            literals@ == self@,
    {
        let mut literals: Vec<Literal> = Vec::new();
        let mut position: usize = 0;
        while position < self.literals.len()
            invariant
                position <= self.literals@.len(),
                literals@ == self.literals@.take(position as int),
            decreases self.literals@.len() - position,
        {
            literals.push(self.literals[position]);
            position += 1;
        }
        literals
    }
}

/// Whether some literal of the clause is true under a total assignment.
pub open spec fn clause_holds(clause: Seq<Literal>, assignment: Seq<bool>) -> bool {
    exists|i: int| 0 <= i < clause.len() && (#[trigger] clause[i]).holds(assignment)
}

/// Whether every literal of the clause speaks of a variable below `bound`.
pub open spec fn clause_in_range(clause: Seq<Literal>, bound: int) -> bool {
    forall|i: int| 0 <= i < clause.len() ==> (#[trigger] clause[i]).var() < bound
}

/// The mathematical content of a formula: a number of variables and a list
/// of clauses.
pub struct CnfView {
    pub num_variables: nat,
    pub clauses: Seq<Seq<Literal>>,
}

impl CnfView {
    /// Every literal speaks of a variable of the formula, and the number of
    /// variables is one that indices can address.
    pub open spec fn wf(self) -> bool {
        &&& self.num_variables <= Variable::MAX_VARIABLE_INDEX + 1
        &&& forall|c: int|
            0 <= c < self.clauses.len() ==> clause_in_range(
                #[trigger] self.clauses[c],
                self.num_variables as int,
            )
    }

    /// Whether the total assignment gives a value to every variable and makes
    /// every clause true.
    pub open spec fn satisfied_by(self, assignment: Seq<bool>) -> bool {
        &&& assignment.len() == self.num_variables
        &&& forall|c: int|
            0 <= c < self.clauses.len() ==> clause_holds(#[trigger] self.clauses[c], assignment)
    }

    /// Whether some assignment satisfies the formula.
    pub open spec fn satisfiable(self) -> bool {
        exists|assignment: Seq<bool>| self.satisfied_by(assignment)
    }
}

/// A formula in conjunctive normal form.
#[derive(Debug)]
pub struct Cnf {
    num_variables: usize,
    clauses: Vec<Clause>,
}

impl Clone for Cnf {
    fn clone(&self) -> (formula: Cnf)
        ensures
            formula@ == self@,
    {
        proof {
            use_type_invariant(self);
        }
        let mut clauses: Vec<Clause> = Vec::new();
        let mut index: usize = 0;
        while index < self.clauses.len()
            invariant
                index <= self.clauses@.len(),
                clauses@.len() == index,
                forall|c: int| 0 <= c < index ==> (#[trigger] clauses@[c])@ == self.clauses@[c]@,
            decreases self.clauses@.len() - index,
        {
            clauses.push(self.clauses[index].clone());
            index += 1;
        }
        proof {
            assert(clauses@.map_values(|clause: Clause| clause@) =~= self@.clauses);
        }
        Cnf { num_variables: self.num_variables, clauses }
    }
}

impl View for Cnf {
    type V = CnfView;

    closed spec fn view(&self) -> CnfView {
        CnfView {
            num_variables: self.num_variables as nat,
            clauses: self.clauses@.map_values(|clause: Clause| clause@),
        }
    }
}

impl Cnf {
    #[verifier::type_invariant]
    spec fn valid(&self) -> bool {
        self@.wf()
    }

    /// The formula over `num_variables` variables that has no clauses.
    pub fn new(num_variables: usize) -> (formula: Cnf)
        requires
            num_variables <= Variable::MAX_VARIABLE_INDEX + 1,
        ensures
            formula@.num_variables == num_variables,
            formula@.clauses == Seq::<Seq<Literal>>::empty(),
            formula@.wf(),
    {
        let formula = Cnf { num_variables, clauses: Vec::new() };
        formula
    }

    pub fn num_variables(&self) -> (n: usize)
        ensures
            n == self@.num_variables,
            self@.wf(),
    {
        proof {
            use_type_invariant(self);
        }
        self.num_variables
    }

    pub fn clauses(&self) -> (clauses: &Vec<Clause>)
        ensures
            clauses@.len() == self@.clauses.len(),
            forall|c: int| 0 <= c < clauses@.len() ==> (#[trigger] clauses@[c])@ == self@.clauses[c],
            self@.wf(),
    {
        proof {
            use_type_invariant(self);
        }
        &self.clauses
    }

    /// Whether every literal of the clause speaks of a variable of this
    /// formula, which is what `add_clause` asks of a clause.
    pub fn accepts(&self, clause: &Clause) -> (accepted: bool)
        ensures
            accepted == clause_in_range(clause@, self@.num_variables as int),
    {
        let mut position: usize = 0;
        while position < clause.literals.len()
            invariant
                position <= clause@.len(),
                clause_in_range(clause@.take(position as int), self.num_variables as int),
            decreases clause@.len() - position,
        {
            if clause.literals[position].index() >= self.num_variables {
                return false;
            }
            position += 1;
        }
        assert(clause@.take(position as int) =~= clause@);
        true
    }

    /// Appends a clause to the formula.
    pub fn add_clause(&mut self, clause: Clause)
        requires
            clause_in_range(clause@, old(self)@.num_variables as int),
        ensures
            final(self)@.num_variables == old(self)@.num_variables,
            final(self)@.clauses == old(self)@.clauses.push(clause@),
            final(self)@.wf(),
    {
        proof {
            use_type_invariant(&*self);
        }
        let mut taken = Cnf::new(0);
        std::mem::swap(self, &mut taken);
        let ghost before = taken@;
        let Cnf { num_variables, mut clauses } = taken;
        clauses.push(clause);
        proof {
            let after = clauses@.map_values(|clause: Clause| clause@);
            assert(after =~= before.clauses.push(clause@));
            assert forall|c: int| 0 <= c < after.len() implies clause_in_range(
                #[trigger] after[c],
                num_variables as int,
            ) by {}
        }
        *self = Cnf { num_variables, clauses };
    }

    /// Whether the total assignment satisfies the clause at `index`.
    fn clause_satisfied(&self, index: usize, assignment: &Vec<bool>) -> (satisfied: bool)
        requires
            index < self@.clauses.len(),
            assignment@.len() == self@.num_variables,
        ensures
            satisfied == clause_holds(self@.clauses[index as int], assignment@),
    {
        proof {
            use_type_invariant(self);
        }
        let clause = &self.clauses[index];
        let mut position: usize = 0;
        while position < clause.literals.len()
            invariant
                position <= clause@.len(),
                index < self@.clauses.len(),
                clause@ == self@.clauses[index as int],
                clause_in_range(clause@, assignment@.len() as int),
                forall|i: int| 0 <= i < position ==> !(#[trigger] clause@[i]).holds(assignment@),
            decreases clause@.len() - position,
        {
            let literal = clause.literals[position];
            if literal.value(assignment.as_slice()) {
                return true;
            }
            position += 1;
        }
        false
    }

    /// Whether the total assignment satisfies the formula.
    pub fn is_satisfied_by(&self, assignment: &Vec<bool>) -> (satisfied: bool)
        ensures
            satisfied == self@.satisfied_by(assignment@),
    {
        if assignment.len() != self.num_variables {
            return false;
        }
        let mut index: usize = 0;
        while index < self.clauses.len()
            invariant
                index <= self@.clauses.len(),
                self.clauses@.len() == self@.clauses.len(),
                assignment@.len() == self@.num_variables,
                forall|c: int| 0 <= c < index ==> clause_holds(#[trigger] self@.clauses[c], assignment@),
            decreases self@.clauses.len() - index,
        {
            if !self.clause_satisfied(index, assignment) {
                return false;
            }
            index += 1;
        }
        true
    }
}

/// A formula together with an assignment that satisfies it.
#[derive(Debug)]
pub struct Model {
    formula: Cnf,
    assignment: Vec<bool>,
}

impl Model {
    #[verifier::type_invariant]
    spec fn valid(&self) -> bool {
        self.formula@.satisfied_by(self.assignment@)
    }

    /// The content of the formula that the model is for.
    pub closed spec fn spec_formula(&self) -> CnfView {
        self.formula@
    }

    /// The value that the model gives to each variable.
    pub closed spec fn spec_assignment(&self) -> Seq<bool> {
        self.assignment@
    }

    /// Pairs a formula with an assignment that satisfies it.
    pub fn new(formula: Cnf, assignment: Vec<bool>) -> (model: Model)
        requires
            formula@.satisfied_by(assignment@),
        ensures
            model.spec_formula() == formula@,
            model.spec_assignment() == assignment@,
    {
        Model { formula, assignment }
    }

    /// Pairs a formula with an assignment where the assignment satisfies the
    /// formula, and gives `None` where it does not.
    pub fn try_new(formula: Cnf, assignment: Vec<bool>) -> (model: Option<Model>)
        ensures
            model.is_some() == formula@.satisfied_by(assignment@),
            model matches Some(m) ==> m.spec_formula() == formula@ && m.spec_assignment()
                == assignment@,
    {
        if formula.is_satisfied_by(&assignment) {
            Some(Model::new(formula, assignment))
        } else {
            None
        }
    }

    pub fn formula(&self) -> (formula: &Cnf)
        ensures
            formula@ == self.spec_formula(),
            self.spec_formula().satisfied_by(self.spec_assignment()),
    {
        proof {
            use_type_invariant(self);
        }
        &self.formula
    }

    pub fn assignment(&self) -> (assignment: &[bool])
        ensures
            assignment@ == self.spec_assignment(),
            self.spec_formula().satisfied_by(self.spec_assignment()),
    {
        proof {
            use_type_invariant(self);
        }
        self.assignment.as_slice()
    }
}

} // verus!
