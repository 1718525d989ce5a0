//! The recursive-descent parser.
//!
//! ```text
//! statement   := expression '=' expression          (then the input must end)
//! expression  := binary(loosest level)
//! binary(L)   := binary(next L) ( operator-of-L binary(L) )?
//!                past the tightest level: unary
//! unary       := ('+' | '-') unary | low
//! low         := '(' expression ')' | number | variable
//! number      := digit+
//! variable    := alphabetic character
//! ```
//!
//! Every binary level associates to the right. Whitespace between tokens is insignificant;
//! the digits of a number are contiguous.

use crate::ast::modulus;
pub use crate::ast::{Expression, Number, Operation, Statement};
use crate::utils::{
    array_to_hash_map, get_rest, is_trimmed, lemma_pulled, lemma_rest_after, lemma_trimmed,
    opt_to_string, pairs_map, pull, pulled, push_char, rest_after, trimmed,
};
use std::collections::HashMap;
use std::hash::Hash;
use vstd::arithmetic::div_mod::{lemma_add_mod_noop, lemma_mul_mod_noop_left};
use vstd::prelude::*;
use vstd::std_specs::hash::obeys_key_model;

verus! {

/// Why an input was rejected.
#[derive(Debug, Clone, Copy, PartialEq, Eq)]
pub enum ParseError {
    /// A required literal character (`=` or `)`) is missing: `found` stands in its place,
    /// or the input has ended.
    ExpectedToken { expected: char, found: Option<char> },
    /// The character cannot stand where it was found.
    UnexpectedCharacter(char),
    /// The input ended where at least one more token was required.
    UnexpectedEnd,
    /// Something is left after a complete statement.
    TrailingInput,
}

impl ParseError {
    /// The reason of the rejection in words.
    pub open spec fn reason(self) -> Seq<char> {
        match self {
            ParseError::ExpectedToken { expected, found: Some(found) } => "expected '"@ + seq![
                expected,
            ] + "' but found '"@ + seq![found, '\''],
            ParseError::ExpectedToken { expected, found: None } => "expected '"@ + seq![expected]
                + "' but found end of input"@,
            ParseError::UnexpectedCharacter(found) => "unexpected character '"@ + seq![
                found,
                '\'',
            ],
            ParseError::UnexpectedEnd => "unexpected end of input"@,
            ParseError::TrailingInput => "expected end of input"@,
        }
    }

    /// Says in words why the input was rejected, naming what was expected or what was
    /// found.
    pub fn message(&self) -> (r: String)
        ensures
            r@ == self.reason(),
    {
        match *self {
            ParseError::ExpectedToken { expected, found } => {
                let mut text = String::from_str("expected '");
                push_char(&mut text, expected);
                match found {
                    Some(found) => {
                        text.append("' but found '");
                        push_char(&mut text, found);
                        push_char(&mut text, '\'');
                    },
                    None => {
                        text.append("' but found end of input");
                    },
                }
                text
            },
            ParseError::UnexpectedCharacter(found) => {
                let mut text = String::from_str("unexpected character '");
                push_char(&mut text, found);
                push_char(&mut text, '\'');
                text
            },
            ParseError::UnexpectedEnd => String::from_str("unexpected end of input"),
            ParseError::TrailingInput => String::from_str("expected end of input"),
        }
    }
}

/// What a parsing function yields, over the characters of the input: the expression and
/// the unparsed remainder, or the reason of the rejection.
pub type Parsed = Result<(Expression, Seq<char>), ParseError>;

/// Whether `c` has the Unicode property `Alphabetic`, as `char::is_alphabetic` reports it.
pub uninterp spec fn alphabetic(c: char) -> bool;

/// `char::is_alphabetic`: tells whether the character has the Unicode property
/// `Alphabetic`. The property is a table of the Unicode character database, so the
/// contract gives the answer a name instead of spelling the table out.
#[verifier::external_body]
fn is_alphabetic(c: char) -> (b: bool)
    ensures
        b == alphabetic(c),
{
    c.is_alphabetic()
}

/// Whether `c` is one of the ASCII digits `0` to `9`.
pub open spec fn is_digit(c: char) -> bool {
    '0' <= c && c <= '9'
}

/// The value of an ASCII digit.
pub open spec fn digit_value(c: char) -> nat
    recommends
        is_digit(c),
{
    (c as u32 - '0' as u32) as nat
}

/// The length of the longest run of ASCII digits that `s` starts with.
pub open spec fn digit_run(s: Seq<char>) -> nat
    decreases s.len(),
{
    if s.len() > 0 && is_digit(s.first()) {
        1 + digit_run(s.drop_first())
    } else {
        0
    }
}

/// The number that a run of digits denotes in base ten; zero for the empty run.
pub open spec fn numeral(digits: Seq<char>) -> nat
    decreases digits.len(),
{
    if digits.len() == 0 {
        0
    } else {
        numeral(digits.drop_last()) * 10 + digit_value(digits.last())
    }
}

/// The three forms of a primary expression.
#[derive(Debug, Clone, Copy, PartialEq, Eq)]
pub enum Primary {
    /// `'(' expression ')'`
    Parenthesized,
    /// A run of digits.
    Numeral,
    /// One alphabetic character.
    Variable,
}

/// The form of the primary expression that starts with the character `first`, of which
/// `letter` tells whether it is alphabetic: `(` opens a parenthesized expression, a digit
/// starts a number, a letter is a variable, and nothing else starts a primary expression.
pub open spec fn primary_of(first: char, letter: bool) -> Result<Primary, ParseError> {
    if first == '(' {
        Ok(Primary::Parenthesized)
    } else if is_digit(first) {
        Ok(Primary::Numeral)
    } else if letter {
        Ok(Primary::Variable)
    } else {
        Err(ParseError::UnexpectedCharacter(first))
    }
}

/// The variable that the character `first` names, of which `letter` tells whether it is
/// alphabetic.
pub open spec fn variable_of(first: char, letter: bool) -> Result<Expression, ParseError> {
    if letter {
        Ok(Expression::Number(Number::Variable(first)))
    } else {
        Err(ParseError::UnexpectedCharacter(first))
    }
}

/// The sign that a character denotes in front of an operand.
pub open spec fn sign_of(c: char) -> Option<Operation> {
    if c == '+' {
        Some(Operation::Addition)
    } else if c == '-' {
        Some(Operation::Subtraction)
    } else {
        None
    }
}

/// The precedence levels of the language, loosest first.
pub open spec fn standard_levels() -> Seq<Map<char, Operation>> {
    seq![
        map!['+' => Operation::Addition, '-' => Operation::Subtraction],
        map!['*' => Operation::Multiplication, '/' => Operation::Division],
        map!['^' => Operation::Exponentiation],
    ]
}

/// `number`: the longest run of digits at the very start of `s`, read in base ten modulo
/// 2^64, and what follows it. An input that starts with no digit yields zero.
pub open spec fn spec_parse_num(s: Seq<char>) -> (Expression, Seq<char>) {
    let run = digit_run(s);
    (
        Expression::constant((numeral(s.take(run as int)) as int % modulus()) as u64),
        rest_after(s, run as int),
    )
}

/// `variable`: one alphabetic character.
pub open spec fn spec_parse_var(s: Seq<char>) -> Parsed {
    match pulled(s) {
        (Some(c), rest) => match variable_of(c, alphabetic(c)) {
            Ok(variable) => Ok(
                (
                    variable,
                    match rest {
                        Some(rest) => rest,
                        None => Seq::empty(),
                    },
                ),
            ),
            Err(e) => Err(e),
        },
        (None, _) => Err(ParseError::UnexpectedEnd),
    }
}

/// `'(' expression ')'`.
pub open spec fn spec_parse_paren(s: Seq<char>) -> Parsed
    decreases s.len(), 0nat,
    via spec_parse_paren_decreases
{
    match pulled(s) {
        (Some(c), Some(rest)) => if c == '(' {
            match spec_parse_binary(rest, standard_levels()) {
                Ok((inner, rest)) => match pulled(rest) {
                    (Some(c), rest) => if c == ')' {
                        Ok(
                            (
                                inner,
                                match rest {
                                    Some(rest) => rest,
                                    None => Seq::empty(),
                                },
                            ),
                        )
                    } else {
                        Err(ParseError::ExpectedToken { expected: ')', found: Some(c) })
                    },
                    (None, _) => Err(ParseError::ExpectedToken { expected: ')', found: None }),
                },
                Err(e) => Err(e),
            }
        } else {
            Err(ParseError::UnexpectedCharacter(c))
        },
        (Some(c), None) => if c == '(' {
            Err(ParseError::UnexpectedEnd)
        } else {
            Err(ParseError::UnexpectedCharacter(c))
        },
        (None, _) => Err(ParseError::UnexpectedEnd),
    }
}

/// `low`: a parenthesized expression, a number or a variable, chosen by the next
/// significant character. A number starts at that character.
pub open spec fn spec_parse_low(s: Seq<char>) -> Parsed
    decreases s.len(), 1nat,
{
    match pulled(s).0 {
        Some(c) => match primary_of(c, alphabetic(c)) {
            Ok(Primary::Parenthesized) => spec_parse_paren(s),
            Ok(Primary::Numeral) => Ok(spec_parse_num(trimmed(s))),
            Ok(Primary::Variable) => spec_parse_var(s),
            Err(e) => Err(e),
        },
        None => Err(ParseError::UnexpectedEnd),
    }
}

/// `unary`: any number of signs, each of which wraps what follows it, then `low`.
pub open spec fn spec_parse_unary(s: Seq<char>) -> Parsed
    decreases s.len(), 2nat,
    via spec_parse_unary_decreases
{
    match pulled(s) {
        (Some(c), Some(rest)) => match sign_of(c) {
            Some(op) => match spec_parse_unary(rest) {
                Ok((operand, rest)) => Ok((Expression::Unary(op, Box::new(operand)), rest)),
                Err(e) => Err(e),
            },
            None => spec_parse_low(s),
        },
        (Some(_), None) => spec_parse_low(s),
        (None, _) => Err(ParseError::UnexpectedEnd),
    }
}

/// `binary(L)` for the precedence levels `levels`, loosest first.
///
/// The left operand is parsed with the tighter levels. If an operator of the loosest level
/// and something more follow it, the right operand is parsed with the same levels, which
/// makes every level associate to the right. Without levels this is `unary`.
///
/// The test `tail.len() < s.len()` is there for the definition to be well founded; it never
/// fails, as [`lemma_parse_binary`] shows.
pub open spec fn spec_parse_binary(s: Seq<char>, levels: Seq<Map<char, Operation>>) -> Parsed
    decreases s.len(), levels.len() + 3,
{
    if levels.len() == 0 {
        spec_parse_unary(s)
    } else {
        match spec_parse_binary(s, levels.drop_first()) {
            Ok((left, rest)) => match pulled(rest) {
                (Some(c), Some(tail)) => if levels[0].contains_key(c) && tail.len() < s.len() {
                    match spec_parse_binary(tail, levels) {
                        Ok((right, rest)) => Ok(
                            (
                                Expression::Operation(
                                    levels[0][c],
                                    Box::new(left),
                                    Box::new(right),
                                ),
                                rest,
                            ),
                        ),
                        Err(e) => Err(e),
                    }
                } else {
                    Ok((left, rest))
                },
                _ => Ok((left, rest)),
            },
            Err(e) => Err(e),
        }
    }
}

#[via_fn]
proof fn spec_parse_paren_decreases(s: Seq<char>) {
    lemma_pulled(s);
}

#[via_fn]
proof fn spec_parse_unary_decreases(s: Seq<char>) {
    lemma_pulled(s);
}

/// `expression`: `binary` with the standard precedence levels.
pub open spec fn spec_parse_expression(s: Seq<char>) -> Parsed {
    spec_parse_binary(s, standard_levels())
}

/// `statement`: two expressions around `=`, and nothing after them.
pub open spec fn spec_parse_statement(s: Seq<char>) -> Result<Statement, ParseError> {
    match spec_parse_expression(s) {
        Ok((left, rest)) => match pulled(rest) {
            (Some(c), Some(tail)) => if c == '=' {
                match spec_parse_expression(tail) {
                    Ok((right, rest)) => if rest.len() == 0 {
                        Ok(Statement { left, right })
                    } else {
                        Err(ParseError::TrailingInput)
                    },
                    Err(e) => Err(e),
                }
            } else {
                Err(ParseError::ExpectedToken { expected: '=', found: Some(c) })
            },
            (Some(c), None) => if c == '=' {
                Err(ParseError::UnexpectedEnd)
            } else {
                Err(ParseError::UnexpectedCharacter(c))
            },
            (None, _) => Err(ParseError::UnexpectedEnd),
        },
        Err(e) => Err(e),
    }
}

/// What holds of every successful parse of a non-terminal: the expression is well formed,
/// and the remainder is trimmed and strictly shorter than the input.
pub open spec fn consumes(s: Seq<char>, parsed: Parsed) -> bool {
    parsed matches Ok((expression, rest)) ==> {
        &&& expression.well_formed()
        &&& is_trimmed(rest)
        &&& rest.len() < s.len()
    }
}

/// The run of digits that an input starts with lies within the input.
pub proof fn lemma_digit_run(s: Seq<char>)
    ensures
        digit_run(s) <= s.len(),
        forall|i: int| 0 <= i < digit_run(s) ==> is_digit(#[trigger] s[i]),
        digit_run(s) < s.len() ==> !is_digit(s[digit_run(s) as int]),
    decreases s.len(),
{
    if s.len() > 0 && is_digit(s.first()) {
        let tail = s.drop_first();
        lemma_digit_run(tail);
        assert forall|i: int| 0 <= i < digit_run(s) implies is_digit(#[trigger] s[i]) by {
            if i > 0 {
                assert(s[i] == tail[i - 1]);
            }
        }
    }
}

/// A number is a well-formed expression, and its remainder is trimmed and what the digits
/// left over.
pub proof fn lemma_parse_num(s: Seq<char>)
    ensures
        spec_parse_num(s).0.well_formed(),
        is_trimmed(spec_parse_num(s).1),
        spec_parse_num(s).1.len() <= s.len() - digit_run(s),
{
    lemma_digit_run(s);
    lemma_rest_after(s, digit_run(s) as int);
}

/// A successful parse of a variable consumes input.
pub proof fn lemma_parse_var(s: Seq<char>)
    ensures
        consumes(s, spec_parse_var(s)),
{
    lemma_pulled(s);
}

/// A successful parse of a parenthesized expression consumes input.
pub proof fn lemma_parse_paren(s: Seq<char>)
    ensures
        consumes(s, spec_parse_paren(s)),
    decreases s.len(), 0nat,
{
    lemma_pulled(s);
    if let (Some(c), Some(rest)) = pulled(s) {
        if c == '(' {
            lemma_parse_binary(rest, standard_levels());
            if let Ok((_, rest)) = spec_parse_binary(rest, standard_levels()) {
                lemma_pulled(rest);
            }
        }
    }
}

/// A successful parse of `low` consumes input.
pub proof fn lemma_parse_low(s: Seq<char>)
    ensures
        consumes(s, spec_parse_low(s)),
    decreases s.len(), 1nat,
{
    lemma_trimmed(s);
    if let Some(c) = pulled(s).0 {
        match primary_of(c, alphabetic(c)) {
            Ok(Primary::Parenthesized) => lemma_parse_paren(s),
            Ok(Primary::Numeral) => lemma_parse_num(trimmed(s)),
            Ok(Primary::Variable) => lemma_parse_var(s),
            Err(_) => {},
        }
    }
}

/// A successful parse of `unary` consumes input.
pub proof fn lemma_parse_unary(s: Seq<char>)
    ensures
        consumes(s, spec_parse_unary(s)),
    decreases s.len(), 2nat,
{
    lemma_pulled(s);
    match pulled(s) {
        (Some(c), Some(rest)) => {
            if sign_of(c) is Some {
                lemma_parse_unary(rest);
            } else {
                lemma_parse_low(s);
            }
        },
        (Some(_), None) => {
            lemma_parse_low(s);
        },
        _ => {},
    }
}

/// A successful parse of `binary` consumes input, whatever the precedence levels. So the
/// length test in [`spec_parse_binary`] never fails: the remainder of the left operand is
/// shorter than the input, and what follows the operator is shorter still.
pub proof fn lemma_parse_binary(s: Seq<char>, levels: Seq<Map<char, Operation>>)
    ensures
        consumes(s, spec_parse_binary(s, levels)),
        levels.len() > 0 ==> (spec_parse_binary(s, levels.drop_first()) matches Ok((_, rest))
            ==> (pulled(rest).1 matches Some(tail) ==> tail.len() < s.len())),
    decreases s.len(), levels.len() + 3,
{
    if levels.len() == 0 {
        lemma_parse_unary(s);
    } else {
        lemma_parse_binary(s, levels.drop_first());
        if let Ok((_, rest)) = spec_parse_binary(s, levels.drop_first()) {
            lemma_pulled(rest);
            if let (Some(c), Some(tail)) = pulled(rest) {
                if levels[0].contains_key(c) {
                    lemma_parse_binary(tail, levels);
                }
            }
        }
    }
}

/// Whitespace around the input is insignificant to every non-terminal: the trimmed input
/// parses to the same expression with the same remainder, or is rejected for the same
/// reason.
pub proof fn lemma_surrounding_whitespace(s: Seq<char>, levels: Seq<Map<char, Operation>>)
    ensures
        spec_parse_var(trimmed(s)) == spec_parse_var(s),
        spec_parse_paren(trimmed(s)) == spec_parse_paren(s),
        spec_parse_low(trimmed(s)) == spec_parse_low(s),
        spec_parse_unary(trimmed(s)) == spec_parse_unary(s),
        spec_parse_binary(trimmed(s), levels) == spec_parse_binary(s, levels),
    decreases levels.len(),
{
    let t = trimmed(s);
    lemma_trimmed(s);
    lemma_trimmed(t);
    assert(pulled(t) == pulled(s));
    if levels.len() > 0 {
        lemma_surrounding_whitespace(s, levels.drop_first());
        lemma_parse_binary(s, levels);
        lemma_parse_binary(t, levels);
    }
}

/// Whitespace around an equation is insignificant.
pub proof fn lemma_statement_surrounding_whitespace(s: Seq<char>)
    ensures
        spec_parse_statement(trimmed(s)) == spec_parse_statement(s),
{
    lemma_surrounding_whitespace(s, standard_levels());
}

/// One level of a precedence table and the link to the next tighter one.
///
/// A level maps each of its operator characters to an operation. The chain is read-only
/// once built; a new operator is a new entry or a new level, never a new code path.
pub struct OpTable {
    /// The operators of this level, keyed by the code point of their character.
    operations: HashMap<u32, Operation>,
    next_level: Option<Box<OpTable>>,
}

/// The operators of one level by character, given by code point.
pub open spec fn level_of(operations: Map<u32, Operation>) -> Map<char, Operation> {
    Map::new(|c: char| operations.contains_key(c as u32), |c: char| operations[c as u32])
}

impl OpTable {
    /// The levels of the chain that starts here, loosest first.
    pub closed spec fn levels(self) -> Seq<Map<char, Operation>>
        decreases self,
    {
        match self.next_level {
            Some(next) => seq![level_of(self.operations@)] + next.levels(),
            None => seq![level_of(self.operations@)],
        }
    }

    /// Puts a level with the given operators in front of the chain `next_level`.
    pub fn new(operations: HashMap<u32, Operation>, next_level: Option<Box<OpTable>>) -> (table:
        OpTable)
        ensures
            table.levels() == seq![level_of(operations@)] + match next_level {
                Some(next) => next.levels(),
                None => Seq::empty(),
            },
    {
        OpTable { operations, next_level }
    }

    /// The operation that `c` denotes at this level, if it is one of its operators.
    fn lookup(&self, c: char) -> (r: Option<Operation>)
        ensures
            r == if self.levels()[0].contains_key(c) {
                Some(self.levels()[0][c])
            } else {
                None
            },
    {
        broadcast use vstd::std_specs::hash::group_hash_axioms;

        let key: u32 = c as u32;
        match self.operations.get(&key) {
            Some(op) => Some(*op),
            None => None,
        }
    }
}

/// A table without operators denotes a level without operators.
proof fn lemma_level_of_empty()
    ensures
        level_of(Map::empty()) == Map::<char, Operation>::empty(),
{
    assert(level_of(Map::empty()) =~= Map::<char, Operation>::empty());
}

/// An entry under the code point of `c` denotes the operator `c`.
proof fn lemma_level_of_insert(operations: Map<u32, Operation>, c: char, op: Operation)
    ensures
        level_of(operations.insert(c as u32, op)) == level_of(operations).insert(c, op),
{
    let left = level_of(operations.insert(c as u32, op));
    let right = level_of(operations).insert(c, op);
    assert forall|d: char|
        #[trigger] left.contains_key(d) == right.contains_key(d) && (left.contains_key(d)
            ==> left[d] == right[d]) by {
        if d as u32 == c as u32 {
            vstd::utf8::char_u32_cast(d, d as u32);
            vstd::utf8::char_u32_cast(c, c as u32);
        }
    }
    assert(left =~= right);
}

/// The characters of a parsing function's result.
pub open spec fn parsed_view(result: Result<(Expression, String), ParseError>) -> Parsed {
    match result {
        Ok((expression, rest)) => Ok((expression, rest@)),
        Err(e) => Err(e),
    }
}

/// Collects pairs into a hash map, as [`array_to_hash_map`] does.
pub fn as_hash_map<T: Copy + Eq + Hash, R: Copy>(array: &[(T, R)]) -> (m: HashMap<T, R>)
    ensures
        obeys_key_model::<T>() ==> m@ == pairs_map(array@),
{
    array_to_hash_map(array)
}

/// Tells which form of primary expression starts with the character `first`, given
/// whether that character is alphabetic.
///
/// Fails with `UnexpectedCharacter` where `first` is neither `(` nor a digit nor
/// alphabetic.
pub fn primary_kind(first: char, letter: bool) -> (r: Result<Primary, ParseError>)
    ensures
        r == primary_of(first, letter),
{
    if first == '(' {
        Ok(Primary::Parenthesized)
    } else if is_ascii_digit(first) {
        Ok(Primary::Numeral)
    } else if letter {
        Ok(Primary::Variable)
    } else {
        Err(ParseError::UnexpectedCharacter(first))
    }
}

/// Makes the character `first` a variable, given whether it is alphabetic.
///
/// Fails with `UnexpectedCharacter` where it is not.
pub fn variable(first: char, letter: bool) -> (r: Result<Expression, ParseError>)
    ensures
        r == variable_of(first, letter),
{
    if letter {
        Ok(Expression::Number(Number::Variable(first)))
    } else {
        Err(ParseError::UnexpectedCharacter(first))
    }
}

/// Whether `c` is an ASCII digit.
fn is_ascii_digit(c: char) -> (b: bool)
    ensures
        b == is_digit(c),
{
    '0' <= c && c <= '9'
}

/// The sign that `c` denotes, if any.
fn sign(c: char) -> (r: Option<Operation>)
    ensures
        r == sign_of(c),
{
    if c == '+' {
        Some(Operation::Addition)
    } else if c == '-' {
        Some(Operation::Subtraction)
    } else {
        None
    }
}

proof fn lemma_digit_run_is(s: Seq<char>, k: int)
    requires
        0 <= k <= s.len(),
        forall|i: int| 0 <= i < k ==> is_digit(#[trigger] s[i]),
        k < s.len() ==> !is_digit(s[k]),
    ensures
        digit_run(s) == k,
    decreases s.len(),
{
    if k > 0 {
        let tail = s.drop_first();
        assert(is_digit(s[0]));
        assert forall|i: int| 0 <= i < k - 1 implies is_digit(#[trigger] tail[i]) by {
            assert(tail[i] == s[i + 1]);
        }
        lemma_digit_run_is(tail, k - 1);
    }
}

/// One more digit: ten times the value so far plus the digit, all modulo 2^64.
proof fn lemma_accumulate(value: int, digit: int)
    requires
        0 <= value,
        0 <= digit < 10,
    ensures
        (((value % modulus()) * 10) % modulus() + digit) % modulus() == (value * 10 + digit)
            % modulus(),
{
    let m = modulus();
    lemma_mul_mod_noop_left(value, 10, m);
    lemma_add_mod_noop((value % m) * 10, digit, m);
    lemma_add_mod_noop(value * 10, digit, m);
}

/// Reads the longest run of ASCII digits at the very start of the input as a number in
/// base ten, modulo 2^64, and returns it with what follows the run (trimmed).
///
/// The input is taken as it stands: if it starts with no digit, the number is zero and the
/// remainder is the trimmed input.
pub fn parse_num(math: String) -> (r: (Expression, String))
    ensures
        r.0 == spec_parse_num(math@).0,
        r.1@ == spec_parse_num(math@).1,
{
    let text = math.as_str();
    let n = text.unicode_len();
    let mut value: u64 = 0;
    let mut index: usize = 0;
    assert(math@.take(0) =~= Seq::<char>::empty());
    while index < n && is_ascii_digit(text.get_char(index))
        invariant
            index <= n,
            n == math@.len(),
            text@ == math@,
            forall|i: int| 0 <= i < index ==> is_digit(#[trigger] math@[i]),
            value == numeral(math@.take(index as int)) as int % modulus(),
        decreases n - index,
    {
        let c = text.get_char(index);
        let digit: u32 = c as u32 - '0' as u32;
        proof {
            let before = math@.take(index as int);
            let after = math@.take(index + 1);
            assert(after.drop_last() =~= before);
            assert(after.last() == c);
            lemma_accumulate(numeral(before) as int, digit as int);
        }
        value = value.wrapping_mul(10).wrapping_add(digit as u64);
        index += 1;
    }
    proof {
        lemma_digit_run_is(math@, index as int);
    }
    (Expression::Number(Number::Constant(value)), get_rest(&math, index))
}

/// Parses one alphabetic character as a variable.
///
/// Fails with `UnexpectedCharacter` on another character, and with `UnexpectedEnd` on an
/// input without any.
pub fn parse_var(math: String) -> (r: Result<(Expression, String), ParseError>)
    ensures
        parsed_view(r) == spec_parse_var(math@),
        consumes(math@, parsed_view(r)),
{
    proof {
        lemma_parse_var(math@);
    }
    match pull(&math) {
        (Some(first), rest) => match variable(first, is_alphabetic(first)) {
            Ok(variable) => Ok((variable, opt_to_string(rest))),
            Err(e) => Err(e),
        },
        (None, _) => Err(ParseError::UnexpectedEnd),
    }
}

/// Parses an expression between parentheses.
///
/// Fails as the expression inside does; with `ExpectedToken` where `)` does not follow it;
/// with `UnexpectedCharacter` where the input does not start with `(`; and with
/// `UnexpectedEnd` where nothing stands before or after the `(`.
pub fn parse_paren(math: String) -> (r: Result<(Expression, String), ParseError>)
    ensures
        parsed_view(r) == spec_parse_paren(math@),
        consumes(math@, parsed_view(r)),
    decreases math@.len(), 0nat,
{
    proof {
        lemma_parse_paren(math@);
        lemma_pulled(math@);
    }
    match pull(&math) {
        (Some(first), Some(rest)) => if first == '(' {
            match parse_expression(rest) {
                Ok((inner, math)) => match pull(&math) {
                    (Some(first), rest) => if first == ')' {
                        Ok((inner, opt_to_string(rest)))
                    } else {
                        Err(ParseError::ExpectedToken { expected: ')', found: Some(first) })
                    },
                    (None, _) => Err(ParseError::ExpectedToken { expected: ')', found: None }),
                },
                Err(e) => Err(e),
            }
        } else {
            Err(ParseError::UnexpectedCharacter(first))
        },
        (Some(first), None) => if first == '(' {
            Err(ParseError::UnexpectedEnd)
        } else {
            Err(ParseError::UnexpectedCharacter(first))
        },
        (None, _) => Err(ParseError::UnexpectedEnd),
    }
}

/// Parses a primary expression, chosen by the next significant character: `(` opens a
/// parenthesized expression, an ASCII digit starts a number, an alphabetic character is a
/// variable.
///
/// Fails with `UnexpectedCharacter` on any other character, and with `UnexpectedEnd` on an
/// input without any.
pub fn parse_low(math: String) -> (r: Result<(Expression, String), ParseError>)
    ensures
        parsed_view(r) == spec_parse_low(math@),
        consumes(math@, parsed_view(r)),
    decreases math@.len(), 1nat,
{
    proof {
        lemma_parse_low(math@);
    }
    match pull(&math).0 {
        Some(first) => match primary_kind(first, is_alphabetic(first)) {
            Ok(Primary::Parenthesized) => parse_paren(math),
            Ok(Primary::Numeral) => {
                proof {
                    assert(math@.skip(0) =~= math@);
                }
                Ok(parse_num(get_rest(&math, 0)))
            },
            Ok(Primary::Variable) => parse_var(math),
            Err(e) => Err(e),
        },
        None => Err(ParseError::UnexpectedEnd),
    }
}

/// Parses any number of signs in front of a primary expression; each sign becomes a
/// `Unary` node around what follows it.
///
/// Fails with `UnexpectedEnd` on an input without any character, and as [`parse_low`]
/// does.
pub fn parse_unary(math: String) -> (r: Result<(Expression, String), ParseError>)
    ensures
        parsed_view(r) == spec_parse_unary(math@),
        consumes(math@, parsed_view(r)),
    decreases math@.len(), 2nat,
{
    proof {
        lemma_parse_unary(math@);
        lemma_pulled(math@);
    }
    match pull(&math) {
        (Some(first), Some(rest)) => match sign(first) {
            Some(op) => match parse_unary(rest) {
                Ok((operand, math)) => Ok((Expression::Unary(op, Box::new(operand)), math)),
                Err(e) => Err(e),
            },
            None => parse_low(math),
        },
        (Some(_), None) => parse_low(math),
        (None, _) => Err(ParseError::UnexpectedEnd),
    }
}

/// Parses a chain of binary operators by precedence climbing.
///
/// The left operand is parsed with the next tighter level (with [`parse_unary`] past the
/// tightest). If an operator of this level and something more follow, the right operand is
/// parsed with this level again, so that the level associates to the right; otherwise the
/// left operand is the result.
pub fn parse_binary(math: String, operations: &OpTable) -> (r: Result<
    (Expression, String),
    ParseError,
>)
    ensures
        parsed_view(r) == spec_parse_binary(math@, operations.levels()),
        consumes(math@, parsed_view(r)),
    decreases math@.len(), operations.levels().len() + 3,
{
    let ghost levels = operations.levels();
    proof {
        lemma_parse_binary(math@, levels);
    }
    let left = match &operations.next_level {
        Some(table) => {
            proof {
                assert(levels.drop_first() =~= table.levels());
            }
            parse_binary(math, table)
        },
        None => {
            proof {
                assert(levels.drop_first() =~= Seq::empty());
            }
            parse_unary(math)
        },
    };
    match left {
        Ok((left, math)) => match pull(&math) {
            (Some(first), Some(rest)) => match operations.lookup(first) {
                Some(op) => match parse_binary(rest, operations) {
                    Ok((right, math)) => Ok(
                        (Expression::Operation(op, Box::new(left), Box::new(right)), math),
                    ),
                    Err(e) => Err(e),
                },
                None => Ok((left, math)),
            },
            _ => Ok((left, math)),
        },
        Err(e) => Err(e),
    }
}

/// Parses an expression with the standard precedence levels: `+ -`, then `* /`, then `^`.
pub fn parse_expression(math: String) -> (r: Result<(Expression, String), ParseError>)
    ensures
        parsed_view(r) == spec_parse_expression(math@),
        consumes(math@, parsed_view(r)),
    decreases math@.len(), 7nat,
{
    broadcast use vstd::std_specs::hash::group_hash_axioms;

    let power_ops = [('^' as u32, Operation::Exponentiation)];
    let product_ops = [('*' as u32, Operation::Multiplication), ('/' as u32, Operation::Division)];
    let sum_ops = [('+' as u32, Operation::Addition), ('-' as u32, Operation::Subtraction)];
    let powers = OpTable::new(as_hash_map(power_ops.as_slice()), None);
    let products = OpTable::new(as_hash_map(product_ops.as_slice()), Some(Box::new(powers)));
    let sums = OpTable::new(as_hash_map(sum_ops.as_slice()), Some(Box::new(products)));
    proof {
        reveal_with_fuel(pairs_map, 3);
        let none = Map::<u32, Operation>::empty();
        lemma_level_of_empty();
        lemma_level_of_insert(none, '^', Operation::Exponentiation);
        lemma_level_of_insert(none, '*', Operation::Multiplication);
        let star = none.insert('*' as u32, Operation::Multiplication);
        lemma_level_of_insert(star, '/', Operation::Division);
        lemma_level_of_insert(none, '+', Operation::Addition);
        let plus = none.insert('+' as u32, Operation::Addition);
        lemma_level_of_insert(plus, '-', Operation::Subtraction);
        assert(level_of(pairs_map(power_ops@)) =~= standard_levels()[2]);
        assert(level_of(pairs_map(product_ops@)) =~= standard_levels()[1]);
        assert(level_of(pairs_map(sum_ops@)) =~= standard_levels()[0]);
        assert(sums.levels() =~= standard_levels());
    }
    parse_binary(math, &sums)
}

/// Parses an equation: an expression, `=`, an expression, and then the end of the input.
///
/// Fails as the expressions do; with `ExpectedToken` where another character and more
/// stand in the place of `=`; with `UnexpectedCharacter` where another character alone
/// stands there; with `UnexpectedEnd` where the input ends before `=` or right after it;
/// and with `TrailingInput` where anything is left after the right side.
pub fn parse_statement(math: String) -> (r: Result<Statement, ParseError>)
    ensures
        r == spec_parse_statement(math@),
        r matches Ok(statement) ==> statement.well_formed(),
{
    match parse_expression(math) {
        Ok((left, math)) => match pull(&math) {
            (Some(first), Some(rest)) => if first == '=' {
                match parse_expression(rest) {
                    Ok((right, math)) => if math.as_str().unicode_len() == 0 {
                        Ok(Statement { left, right })
                    } else {
                        Err(ParseError::TrailingInput)
                    },
                    Err(e) => Err(e),
                }
            } else {
                Err(ParseError::ExpectedToken { expected: '=', found: Some(first) })
            },
            (Some(first), None) => if first == '=' {
                Err(ParseError::UnexpectedEnd)
            } else {
                Err(ParseError::UnexpectedCharacter(first))
            },
            (None, _) => Err(ParseError::UnexpectedEnd),
        },
        Err(e) => Err(e),
    }
}

} // verus!
