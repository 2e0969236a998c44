//! Reading a formula from the lines of a DIMACS CNF text.
//!
//! Empty lines and comments, which start with `c`, are passed over. The
//! first line that is neither is the problem line,
//! `p cnf <num_variables> <num_clauses>`. Every such line after it is a
//! clause, written as literals between single spaces with a `0` at the end.

use crate::formula::{
    clause_in_range, literal_of, Clause, Cnf, CnfView, Literal, Variable, VariableParseError,
};
use crate::text::{
    fields, matches_word, number_of, parse_number, split, split_blanks, tokens, trim, trimmed,
};
use vstd::prelude::*;
use vstd::string::StringSliceAdditionalSpecFns;
use vstd::utf8::encode_utf8;

verus! {

/// Why a text is not a formula.
#[derive(Debug)]
pub enum Error {
    /// The line does not end in a word `0`.
    MalformedClause { clause: String },
    /// A word of the line is not a literal, or not one of the formula.
    MalformedVariable { clause: String, source: VariableParseError },
    /// There is no problem line, or it is not of the form
    /// `p cnf <num_variables> <num_clauses>`.
    MalformedProblemDefinition,
    /// The text holds another number of clauses than its problem line
    /// tells.
    ClauseCountMismatch { expected: usize, found: usize },
}

/// Why a clause line is not a clause.
pub enum ClauseFailure {
    /// The line does not end in a word `0`.
    Unterminated,
    /// A word of the line is not a literal.
    Variable(VariableParseError),
}

/// The literals that words name, or the failure of the first word that
/// names none.
pub open spec fn literals_of(words: Seq<Seq<u8>>) -> Result<Seq<Literal>, VariableParseError>
    decreases words.len(),
{
    if words.len() == 0 {
        Ok(Seq::empty())
    } else {
        match literals_of(words.drop_last()) {
            Ok(literals) => match literal_of(words.last()) {
                Ok(literal) => Ok(literals.push(literal)),
                Err(error) => Err(error),
            },
            Err(error) => Err(error),
        }
    }
}

/// The clause that a line writes.
pub open spec fn clause_of(line: Seq<u8>) -> Result<Seq<Literal>, ClauseFailure> {
    let words = tokens(line);
    if words.last() != seq![48u8] {
        Err(ClauseFailure::Unterminated)
    } else {
        match literals_of(words.drop_last()) {
            Ok(literals) => Ok(literals),
            Err(error) => Err(ClauseFailure::Variable(error)),
        }
    }
}

/// Reads the clause that the bytes from `from` up to `to` write.
pub fn parse_clause(bytes: &[u8], from: usize, to: usize) -> (clause: Result<Clause, ClauseFailure>)
    requires
        from <= to <= bytes@.len(),
    ensures
        match clause_of(bytes@.subrange(from as int, to as int)) {
            Ok(literals) => clause matches Ok(read) && read@ == literals,
            Err(failure) => clause matches Err(found) && found == failure,
        },
{
    let ghost line = bytes@.subrange(from as int, to as int);
    let words = split(bytes, from, to);
    let last = words[words.len() - 1];
    let zero: [u8; 1] = [48];
    proof {
        assert(zero@ =~= seq![48u8]);
    }
    if !matches_word(bytes, last.0, last.1, zero.as_slice()) {
        return Err(ClauseFailure::Unterminated);
    }
    let mut literals: Vec<Literal> = Vec::new();
    let mut index: usize = 0;
    let count = words.len() - 1;
    while index < count
        invariant
            index <= count,
            count == words@.len() - 1,
            from <= to <= bytes@.len(),
            line == bytes@.subrange(from as int, to as int),
            words@.len() == tokens(line).len(),
            tokens(line).last() == seq![48u8],
            forall|k: int|
                0 <= k < words@.len() ==> {
                    &&& from <= (#[trigger] words@[k]).0 <= words@[k].1 <= to
                    &&& bytes@.subrange(words@[k].0 as int, words@[k].1 as int) == tokens(line)[k]
                },
            literals_of(tokens(line).drop_last().take(index as int)) == Ok::<
                Seq<Literal>,
                VariableParseError,
            >(literals@),
        decreases count - index,
    {
        let word = words[index];
        let ghost read = tokens(line).drop_last().take(index as int);
        let ghost longer = tokens(line).drop_last().take(index + 1);
        proof {
            assert(longer.drop_last() =~= read);
        }
        match Literal::from_bytes(bytes, word.0, word.1) {
            Ok(literal) => {
                literals.push(literal);
            },
            Err(error) => {
                proof {
                    lemma_first_failure(tokens(line).drop_last(), index + 1);
                }
                return Err(ClauseFailure::Variable(error));
            },
        }
        index += 1;
    }
    proof {
        assert(tokens(line).drop_last().take(count as int) =~= tokens(line).drop_last());
    }
    Ok(Clause::new(literals))
}

/// Where the first words name no literals, no more words do, and the
/// failure is that of the first words.
pub proof fn lemma_first_failure(words: Seq<Seq<u8>>, first: int)
    requires
        0 <= first <= words.len(),
        literals_of(words.take(first)).is_err(),
    ensures
        literals_of(words) == literals_of(words.take(first)),
    decreases words.len() - first,
{
    if first < words.len() {
        assert(words.drop_last().take(first) =~= words.take(first));
        lemma_first_failure(words.drop_last(), first);
    } else {
        assert(words.take(first) =~= words);
    }
}

/// Parses a line to a clause.
pub fn parse_line(line: &str) -> (clause: Result<Clause, Error>)
    ensures
        match clause_of(line.spec_bytes()) {
            Ok(literals) => clause matches Ok(read) && read@ == literals,
            Err(ClauseFailure::Unterminated) => clause matches Err(
                Error::MalformedClause { clause: text },
            ) && text@ == line@,
            Err(ClauseFailure::Variable(error)) => clause matches Err(
                Error::MalformedVariable { clause: text, source },
            ) && text@ == line@ && source == error,
        },
{
    let bytes = line.as_bytes();
    proof {
        assert(bytes@.subrange(0, bytes@.len() as int) =~= bytes@);
    }
    match parse_clause(bytes, 0, bytes.len()) {
        Ok(clause) => Ok(clause),
        Err(ClauseFailure::Unterminated) => Err(Error::MalformedClause { clause: line.to_owned() }),
        Err(ClauseFailure::Variable(source)) => Err(
            Error::MalformedVariable { clause: line.to_owned(), source },
        ),
    }
}

/// Why a list of lines is not a formula, with the number of the line at
/// fault, counted from zero.
pub enum Failure {
    MalformedProblemDefinition,
    MalformedClause { line: int },
    MalformedVariable { line: int, source: VariableParseError },
    ClauseCountMismatch { expected: usize, found: usize },
}

/// The numbers of variables and of clauses that a problem line tells, where
/// the line has the four fields `p`, `cnf`, `<num_variables>` and
/// `<num_clauses>`, with numbers that fit.
pub open spec fn header_of(line: Seq<u8>) -> Option<(usize, usize)> {
    let words = fields(line);
    if words.len() == 4 && words[0] == seq![112u8] && words[1] == seq![99u8, 110u8, 102u8] {
        match (number_of(words[2]), number_of(words[3])) {
            (Some(num_variables), Some(num_clauses)) => if num_variables <= Variable::MAX_VARIABLE_INDEX + 1
                && num_variables <= usize::MAX && num_clauses <= usize::MAX {
                Some((num_variables as usize, num_clauses as usize))
            } else {
                None
            },
            _ => None,
        }
    } else {
        None
    }
}

/// Whether a line is passed over: it is empty or a comment.
pub open spec fn is_skipped(line: Seq<u8>) -> bool {
    trimmed(line).len() == 0 || trimmed(line)[0] == 99
}

/// The number of the first line that is not passed over, or the number of
/// lines where all are.
pub open spec fn problem_index(lines: Seq<Seq<u8>>) -> int
    decreases lines.len(),
{
    if lines.len() == 0 || !is_skipped(lines[0]) {
        0
    } else {
        1 + problem_index(lines.skip(1))
    }
}

/// The index of the first literal of the clause that speaks of a variable
/// that is not below `bound`, or the length of the clause where there is
/// none.
pub open spec fn first_outside(clause: Seq<Literal>, bound: int) -> int
    decreases clause.len(),
{
    if clause.len() == 0 || clause[0].var() >= bound {
        0
    } else {
        1 + first_outside(clause.skip(1), bound)
    }
}

/// What one line after the problem line writes: no clause where it is
/// empty or a comment, and else a clause of the formula.
pub open spec fn content_of(line: Seq<u8>, num_variables: int) -> Result<
    Option<Seq<Literal>>,
    ClauseFailure,
> {
    if is_skipped(line) {
        Ok(None)
    } else {
        match clause_of(trimmed(line)) {
            Ok(literals) => if clause_in_range(literals, num_variables) {
                Ok(Some(literals))
            } else {
                Err(
                    ClauseFailure::Variable(
                        VariableParseError::RangeError {
                            num: literals[first_outside(literals, num_variables)].var() as usize,
                        },
                    ),
                )
            },
            Err(failure) => Err(failure),
        }
    }
}

/// What one line after the problem line adds to the clauses read so far.
pub open spec fn line_of(line: Seq<u8>, number: int, num_variables: int) -> Result<
    Option<Seq<Literal>>,
    Failure,
> {
    match content_of(line, num_variables) {
        Ok(content) => Ok(content),
        Err(ClauseFailure::Unterminated) => Err(Failure::MalformedClause { line: number }),
        Err(ClauseFailure::Variable(source)) => Err(
            Failure::MalformedVariable { line: number, source },
        ),
    }
}

/// The clauses that the lines from `from` up to `upto` write, or the
/// failure of the first line that is at fault.
pub open spec fn body_of(lines: Seq<Seq<u8>>, num_variables: int, from: int, upto: int) -> Result<
    Seq<Seq<Literal>>,
    Failure,
>
    decreases upto - from,
{
    if upto <= from {
        Ok(Seq::empty())
    } else {
        match body_of(lines, num_variables, from, upto - 1) {
            Ok(clauses) => match line_of(lines[upto - 1], upto - 1, num_variables) {
                Ok(Some(literals)) => Ok(clauses.push(literals)),
                Ok(None) => Ok(clauses),
                Err(failure) => Err(failure),
            },
            Err(failure) => Err(failure),
        }
    }
}

/// The formula that a list of lines writes.
pub open spec fn dimacs_of(lines: Seq<Seq<u8>>) -> Result<CnfView, Failure> {
    let problem = problem_index(lines);
    if 0 <= problem < lines.len() {
        match header_of(lines[problem]) {
            Some((num_variables, num_clauses)) => match body_of(
                lines,
                num_variables as int,
                problem + 1,
                lines.len() as int,
            ) {
                Ok(clauses) => if clauses.len() == num_clauses {
                    Ok(CnfView { num_variables: num_variables as nat, clauses })
                } else {
                    Err(
                        Failure::ClauseCountMismatch {
                            expected: num_clauses,
                            found: clauses.len() as usize,
                        },
                    )
                },
                Err(failure) => Err(failure),
            },
            None => Err(Failure::MalformedProblemDefinition),
        }
    } else {
        Err(Failure::MalformedProblemDefinition)
    }
}

/// The bytes of each line of a list of lines.
pub open spec fn bytes_of(lines: Seq<String>) -> Seq<Seq<u8>> {
    Seq::new(lines.len(), |i: int| encode_utf8(lines[i]@))
}

/// Whether the error tells the failure, with the text of the line at fault.
pub open spec fn tells(error: Error, failure: Failure, lines: Seq<String>) -> bool {
    match failure {
        Failure::MalformedProblemDefinition => error is MalformedProblemDefinition,
        Failure::MalformedClause { line } => error matches Error::MalformedClause { clause }
            && clause@ == lines[line]@,
        Failure::MalformedVariable { line, source } => error matches Error::MalformedVariable {
            clause,
            source: found,
        } && clause@ == lines[line]@ && found == source,
        Failure::ClauseCountMismatch { expected, found } => error matches Error::ClauseCountMismatch {
            expected: told,
            found: counted,
        } && told == expected && counted == found,
    }
}

/// Reads the numbers of variables and of clauses from a problem line.
fn parse_header(bytes: &[u8]) -> (header: Option<(usize, usize)>)
    ensures
        header == header_of(bytes@),
{
    let words = split_blanks(bytes, 0, bytes.len());
    proof {
        assert(bytes@.subrange(0, bytes@.len() as int) =~= bytes@);
    }
    if words.len() != 4 {
        return None;
    }
    let p: [u8; 1] = [112];
    let cnf: [u8; 3] = [99, 110, 102];
    proof {
        assert(p@ =~= seq![112u8]);
    }
    if !matches_word(bytes, words[0].0, words[0].1, p.as_slice()) {
        return None;
    }
    if !matches_word(bytes, words[1].0, words[1].1, cnf.as_slice()) {
        return None;
    }
    let num_variables = parse_number(bytes, words[2].0, words[2].1);
    let num_clauses = parse_number(bytes, words[3].0, words[3].1);
    match (num_variables, num_clauses) {
        (Some(num_variables), Some(num_clauses)) => {
            if num_variables > 0 && num_variables - 1 > Variable::MAX_VARIABLE_INDEX {
                return None;
            }
            Some((num_variables, num_clauses))
        },
        _ => None,
    }
}

/// The index of the first literal of the clause that speaks of a variable
/// that is not below `bound`.
fn find_outside(clause: &Clause, bound: usize) -> (index: usize)
    requires
        !clause_in_range(clause@, bound as int),
    ensures
        index == first_outside(clause@, bound as int),
        index < clause@.len(),
{
    let mut index: usize = 0;
    proof {
        assert(clause@.skip(0) =~= clause@);
    }
    while index < clause.num_literals()
        invariant
            index <= clause@.len(),
            forall|i: int| 0 <= i < index ==> (#[trigger] clause@[i]).var() < bound,
            first_outside(clause@, bound as int) == index + first_outside(
                clause@.skip(index as int),
                bound as int,
            ),
        decreases clause@.len() - index,
    {
        proof {
            assert(clause@.skip(index as int).skip(1) =~= clause@.skip(index + 1));
        }
        if clause.literal(index).index() >= bound {
            return index;
        }
        index += 1;
    }
    vstd::pervasive::unreached()
}

/// Where the lines before a line are all passed over and the line itself
/// is not, the line is the first that is not passed over.
proof fn lemma_problem_index(lines: Seq<Seq<u8>>, index: int)
    requires
        0 <= index <= lines.len(),
        forall|i: int| 0 <= i < index ==> is_skipped(#[trigger] lines[i]),
        index == lines.len() || !is_skipped(lines[index]),
    ensures
        problem_index(lines) == index,
    decreases index,
{
    if index > 0 {
        let rest = lines.skip(1);
        assert forall|i: int| 0 <= i < index - 1 implies is_skipped(#[trigger] rest[i]) by {}
        lemma_problem_index(rest, index - 1);
    }
}

/// Reads what one line after the problem line writes, as a clause of the
/// formula that is being read.
fn parse_content(bytes: &[u8], formula: &Cnf) -> (content: Result<Option<Clause>, ClauseFailure>)
    ensures
        match content_of(bytes@, formula@.num_variables as int) {
            Ok(Some(literals)) => content matches Ok(Some(clause)) && clause@ == literals,
            Ok(None) => content matches Ok(None),
            Err(failure) => content matches Err(found) && found == failure,
        },
{
    let range = trim(bytes);
    if range.0 == range.1 || bytes[range.0] == 99 {
        // An empty line or a comment.
        return Ok(None);
    }
    let clause = match parse_clause(bytes, range.0, range.1) {
        Ok(clause) => clause,
        Err(failure) => {
            return Err(failure);
        },
    };
    if !formula.accepts(&clause) {
        let outside = find_outside(&clause, formula.num_variables());
        return Err(
            ClauseFailure::Variable(
                VariableParseError::RangeError { num: clause.literal(outside).index() },
            ),
        );
    }
    Ok(Some(clause))
}

/// Once a line is at fault, the lines after it change nothing.
proof fn lemma_body_failure(
    lines: Seq<Seq<u8>>,
    num_variables: int,
    from: int,
    first: int,
    upto: int,
)
    requires
        from <= first <= upto,
        body_of(lines, num_variables, from, first).is_err(),
    ensures
        body_of(lines, num_variables, from, upto) == body_of(lines, num_variables, from, first),
    decreases upto - first,
{
    if first < upto {
        lemma_body_failure(lines, num_variables, from, first, upto - 1);
    }
}

/// Whether a line is passed over.
fn is_skipped_line(line: &String) -> (skipped: bool)
    ensures
        skipped == is_skipped(encode_utf8(line@)),
{
    let bytes = line.as_str().as_bytes();
    let range = trim(bytes);
    range.0 == range.1 || bytes[range.0] == 99
}

/// Reads a formula from the lines of a DIMACS CNF text.
pub fn parse_lines(lines: &Vec<String>) -> (formula: Result<Cnf, Error>)
    ensures
        match dimacs_of(bytes_of(lines@)) {
            Ok(view) => formula matches Ok(read) && read@ == view,
            Err(failure) => formula matches Err(error) && tells(error, failure, lines@),
        },
{
    let ghost texts = bytes_of(lines@);
    // Pass over the empty lines and the comments before the problem line.
    let mut index: usize = 0;
    while index < lines.len() && is_skipped_line(&lines[index])
        invariant
            index <= lines@.len(),
            texts == bytes_of(lines@),
            forall|i: int| 0 <= i < index ==> is_skipped(#[trigger] texts[i]),
        decreases lines@.len() - index,
    {
        index += 1;
    }
    if index >= lines.len() {
        proof {
            lemma_problem_index(texts, index as int);
        }
        return Err(Error::MalformedProblemDefinition);
    }
    let bytes = lines[index].as_str().as_bytes();
    proof {
        lemma_problem_index(texts, index as int);
    }
    let (num_variables, num_clauses) = match parse_header(bytes) {
        Some(header) => header,
        None => {
            return Err(Error::MalformedProblemDefinition);
        },
    };

    let mut cnf = Cnf::new(num_variables);
    let ghost problem = index as int;
    index += 1;
    while index < lines.len()
        invariant
            0 <= problem < index <= lines@.len(),
            texts == bytes_of(lines@),
            problem_index(texts) == problem,
            header_of(texts[problem]) == Some((num_variables, num_clauses)),
            cnf@.num_variables == num_variables,
            body_of(texts, num_variables as int, problem + 1, index as int) == Ok::<
                Seq<Seq<Literal>>,
                Failure,
            >(cnf@.clauses),
        decreases lines@.len() - index,
    {
        let bytes = lines[index].as_str().as_bytes();
        let content = parse_content(bytes, &cnf);
        proof {
            if line_of(texts[index as int], index as int, num_variables as int).is_err() {
                lemma_body_failure(
                    texts,
                    num_variables as int,
                    problem + 1,
                    index + 1,
                    lines@.len() as int,
                );
            }
        }
        match content {
            Ok(Some(clause)) => {
                cnf.add_clause(clause);
            },
            Ok(None) => {},
            Err(ClauseFailure::Unterminated) => {
                return Err(Error::MalformedClause { clause: lines[index].clone() });
            },
            Err(ClauseFailure::Variable(source)) => {
                return Err(Error::MalformedVariable { clause: lines[index].clone(), source });
            },
        }
        index += 1;
    }

    let found = cnf.clauses().len();
    if found != num_clauses {
        return Err(Error::ClauseCountMismatch { expected: num_clauses, found });
    }
    Ok(cnf)
}

} // verus!
